use vstd::prelude::*;

verus! {

/// Every failure the storage layer can report.
///
/// - `IOError`: a read or write against the backing store failed; reserved
///   for embedders that drive real file I/O around this library.
/// - `BufferFull`: the pool has no free frame and no evictable frame.
/// - `InvalidUnpin`: an unpin was requested for a page whose pin count is
///   already zero (or which is not resident at all).
/// - `PagePinned`: a delete was requested while the page is still pinned.
/// - `PageNotFound`: the page is not resident in the pool, so a per-frame
///   operation (flush, data access) has no frame to act on.
/// - `PageFull`: a tuple does not fit into the free space of a slotted page.
/// - `InvalidSlot`: a tuple lookup used a slot index at or past `num_tuples`.
#[derive(Clone, Copy, Debug, PartialEq, Eq, Structural)]
pub enum StorageError {
    IOError,
    BufferFull,
    InvalidUnpin,
    PagePinned,
    PageNotFound,
    PageFull,
    InvalidSlot,
}

impl StorageError {
    /// A fixed human-readable description of the error.
    pub fn describe(&self) -> (r: &'static str) {
        match self {
            StorageError::IOError => "I/O failure against the backing store",
            StorageError::BufferFull => "no free or evictable frame in the buffer pool",
            StorageError::InvalidUnpin => "page is not pinned",
            StorageError::PagePinned => "page is still pinned",
            StorageError::PageNotFound => "page is not resident in the buffer pool",
            StorageError::PageFull => "tuple does not fit in this page",
            StorageError::InvalidSlot => "slot index is out of range",
        }
    }
}

} // verus!
