//! An embedded, append-only key-value storage core.
//!
//! Data lives in fixed-capacity segment files, each paired with a sidecar
//! index file. Every update appends a fresh record; superseded records are
//! overwritten in place with gap markers and their byte ranges returned to a
//! per-segment free-space allocator. A compaction planner relocates the
//! surviving records of under-utilized segments and retires the originals.
//!
//! The library holds everything that can be stated and proved over plain
//! values: the binary codec, the free-space allocator, the pool bookkeeping,
//! the write-behind staging, the key index, recovery and the compaction
//! planner. The host performs the actual file reads, writes, syncs and
//! unlinks with the byte images and decisions this library hands it.

pub mod codec;
pub mod data;
pub mod errors;
pub mod filepool;
pub mod freelist;
pub mod index;
pub mod util;
