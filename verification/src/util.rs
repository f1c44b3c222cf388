use vstd::prelude::*;
use std::hash::{Hash, Hasher};
use crate::errors::Error;

verus! {

/// Milliseconds since a fixed epoch; also the identifier of the segment
/// created at that instant.
pub type Timestamp = u64;

/// `size` rounded up to the next multiple of `base`.
pub open spec fn spec_roundup(size: int, base: int) -> int
    recommends
        base >= 1,
{
    ((size + (base - 1)) / base) * base
}

/// The rounded size lies in `[size, size + base)` and is a multiple of `base`.
pub proof fn lemma_roundup_bounds(size: int, base: int)
    requires
        size >= 0,
        base >= 1,
    ensures
        spec_roundup(size, base) >= size,
        spec_roundup(size, base) < size + base,
        spec_roundup(size, base) % base == 0,
{
    assert(((size + base - 1) / base) * base >= size
        && ((size + base - 1) / base) * base < size + base
        && (((size + base - 1) / base) * base) % base == 0) by (nonlinear_arith)
        requires
            size >= 0,
            base >= 1,
    ;
}

/// Round `size` up to the next multiple of `base`: the allocation size of a
/// record is its byte size rounded up to the 16-byte boundary.
pub fn roundup(size: usize, base: usize) -> (r: usize)
    requires
        base >= 1,
        size + base - 1 <= usize::MAX,
    ensures
        r == spec_roundup(size as int, base as int),
        r >= size,
        r < size + base,
        r % base == 0,
{
    proof {
        lemma_roundup_bounds(size as int, base as int);
    }
    ((size + (base - 1)) / base) * base
}

/// Relies on std's `SystemTime::now` and `duration_since`: the host clock,
/// read as milliseconds since the Unix epoch. Nothing is promised of the
/// value; callers that need a fresh segment identifier compare it against the
/// last identifier themselves.
#[verifier::external_body]
pub fn get_timestamp() -> Result<Timestamp, Error> {
    match std::time::SystemTime::now().duration_since(std::time::UNIX_EPOCH) {
        Ok(d) => {
            let millis = d.as_millis();
            if millis <= u64::MAX as u128 {
                Ok(millis as u64)
            } else {
                Err(Error::ClockFail)
            }
        }
        Err(_) => Err(Error::ClockFail),
    }
}

/// The 64-bit hash std's `DefaultHasher` assigns to a byte string: a pure
/// function of the bytes, since every hasher built by `new` starts from the
/// same fixed keys.
pub uninterp spec fn hash_of(key: Seq<u8>) -> u64;

/// Relies on std's `DefaultHasher` (`new`, `Hash::hash`, `finish`): a 64-bit,
/// non-cryptographic hash of the key bytes, offered to higher layers for
/// secondary indexing. Deterministic: equal keys hash alike, as every
/// `DefaultHasher` built by `new` is the same.
#[verifier::external_body]
pub fn get_hash(key: &Vec<u8>) -> (r: u64)
    ensures
        r == hash_of(key@),
{
    let mut hasher = std::collections::hash_map::DefaultHasher::new();
    key.as_slice().hash(&mut hasher);
    hasher.finish()
}

} // verus!
