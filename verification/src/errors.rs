use vstd::prelude::*;

verus! {

/// Every failure the storage core can report.
///
/// `Io` and `ClockFail` stand for failures of the host's filesystem and
/// clock; the core itself never raises them, but the host maps its own
/// failures onto them before handing a result back through the library's
/// types. The remaining kinds are raised by the core's own checks.
#[derive(Clone, Copy, Debug, PartialEq, Eq, Structural)]
pub enum Error {
    /// A filesystem error of the host, propagated.
    Io,
    /// The free list holds no extent large enough for the request.
    AllocateFail,
    /// An attempt to release an extent whose start offset is already free.
    DoubleFree,
    /// A request named a segment that is not registered in the pool.
    InvalidFileId,
    /// An in-memory entry points at bytes that do not decode to a record
    /// carrying that key.
    InvalidKey,
    /// The host's clock failed to yield a timestamp.
    ClockFail,
    /// A decode ran past the end of the supplied bytes.
    ShortRead,
    /// A size field does not fit the limits of the record format.
    SizeOverflow,
}

} // verus!
