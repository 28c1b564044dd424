use pagestore::errors::StorageError;

#[test]
fn errors_compare_and_describe() {
    assert_eq!(StorageError::BufferFull, StorageError::BufferFull);
    assert_ne!(StorageError::BufferFull, StorageError::PageFull);
    assert_eq!(
        StorageError::PageFull.describe(),
        "tuple does not fit in this page"
    );
    assert_eq!(
        StorageError::InvalidUnpin.describe(),
        "page is not pinned"
    );
    assert_eq!(
        StorageError::IOError.describe(),
        "I/O failure against the backing store"
    );
    let shown = format!("{:?}", StorageError::InvalidSlot);
    assert_eq!(shown, "InvalidSlot");
}
