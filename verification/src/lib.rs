//! Bottom layer of a disk-backed database storage engine: fixed-size pages
//! over a single backing store, a bounded buffer pool with pin/eviction
//! bookkeeping, and a slotted-page interpretation of page bytes as
//! variable-length tuples.

pub mod errors;
pub mod storage;
pub mod table;
