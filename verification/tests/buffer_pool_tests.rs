use pagestore::errors::StorageError;
use pagestore::storage::buffer_pool_manager::BufferPoolManager;
use pagestore::storage::disk_manager::DiskManager;

#[test]
fn get_page_and_write_data() {
    let disk_manager = DiskManager::new(String::from("bpm.db"));
    let mut buffer_pool = BufferPoolManager::new(2, disk_manager);

    let page_id = buffer_pool.new_page().expect("failed to allocate page");
    assert_eq!(page_id, 0);

    // write some data into the page
    let hello = vec![0x48u8, 0x65, 0x6c, 0x6c, 0x6f];
    buffer_pool.write_page_data(page_id, 0, &hello).unwrap();
    let data = buffer_pool.read_page_data(page_id).unwrap();
    assert_eq!(std::str::from_utf8(&data[..5]).unwrap(), "Hello");

    let page_id = buffer_pool.new_page().expect("failed to allocate page");
    assert_eq!(page_id, 1);

    assert!(buffer_pool.new_page().is_err(), "free list must be empty");
}

#[test]
fn pool_of_two_evicts_only_after_unpin() {
    let disk_manager = DiskManager::new(String::from("evict.db"));
    let mut pool = BufferPoolManager::new(2, disk_manager);

    assert_eq!(pool.new_page().unwrap(), 0);
    assert_eq!(pool.new_page().unwrap(), 1);
    assert_eq!(pool.pin_count(0), Some(1));
    assert_eq!(pool.pin_count(1), Some(1));

    // both frames pinned: no frame is evictable
    assert_eq!(pool.new_page(), Err(StorageError::BufferFull));

    pool.unpin_page(0, false).unwrap();
    let third = pool.new_page().unwrap();
    assert_eq!(third, 2);
    // page 0 was the victim: no longer resident
    assert_eq!(pool.pin_count(0), None);
    assert_eq!(pool.pin_count(1), Some(1));
    assert_eq!(pool.pin_count(2), Some(1));
}

#[test]
fn unpin_at_zero_fails_and_changes_nothing() {
    let disk_manager = DiskManager::new(String::from("unpin.db"));
    let mut pool = BufferPoolManager::new(2, disk_manager);

    let pid = pool.new_page().unwrap();
    pool.unpin_page(pid, false).unwrap();
    assert_eq!(pool.pin_count(pid), Some(0));
    assert_eq!(pool.unpin_page(pid, false), Err(StorageError::InvalidUnpin));
    assert_eq!(pool.pin_count(pid), Some(0));
    // a page that is not resident cannot be unpinned either
    assert_eq!(pool.unpin_page(41, false), Err(StorageError::InvalidUnpin));
}

#[test]
fn eviction_of_dirty_page_writes_back() {
    let disk_manager = DiskManager::new(String::from("wb.db"));
    let mut pool = BufferPoolManager::new(1, disk_manager);

    let pid = pool.new_page().unwrap();
    let hello = b"Hello".to_vec();
    pool.write_page_data(pid, 0, &hello).unwrap();
    pool.unpin_page(pid, true).unwrap();
    assert_eq!(pool.is_page_dirty(pid), Some(true));

    // reusing the only frame flushes the dirty victim first
    let other = pool.new_page().unwrap();
    assert_eq!(other, 1);
    assert_eq!(pool.pin_count(pid), None);
    pool.unpin_page(other, false).unwrap();

    // fetching the evicted page loads its flushed bytes back from disk
    pool.fetch_page(pid).unwrap();
    let data = pool.read_page_data(pid).unwrap();
    assert_eq!(&data[..5], b"Hello");
    assert_eq!(pool.is_page_dirty(pid), Some(false));
}

#[test]
fn least_recently_unpinned_frame_is_victim() {
    let disk_manager = DiskManager::new(String::from("lru.db"));
    let mut pool = BufferPoolManager::new(2, disk_manager);

    assert_eq!(pool.new_page().unwrap(), 0);
    assert_eq!(pool.new_page().unwrap(), 1);
    // page 1 becomes eviction-eligible first, page 0 second
    pool.unpin_page(1, false).unwrap();
    pool.unpin_page(0, false).unwrap();

    assert_eq!(pool.new_page().unwrap(), 2);
    // page 1 was unpinned least recently, so it was the victim
    assert_eq!(pool.pin_count(1), None);
    assert_eq!(pool.pin_count(0), Some(0));
}

#[test]
fn fetch_increments_pin_and_reads_zeros_for_fresh_pages() {
    let disk_manager = DiskManager::new(String::from("fetch.db"));
    let mut pool = BufferPoolManager::new(1, disk_manager);

    let pid = pool.new_page().unwrap();
    pool.fetch_page(pid).unwrap();
    assert_eq!(pool.pin_count(pid), Some(2));
    pool.unpin_page(pid, false).unwrap();
    pool.unpin_page(pid, false).unwrap();

    // evict it (never written): a later fetch reads all zeros
    let other = pool.new_page().unwrap();
    pool.unpin_page(other, false).unwrap();
    assert_eq!(pool.pin_count(pid), None);
    pool.fetch_page(pid).unwrap();
    let data = pool.read_page_data(pid).unwrap();
    assert!(data.iter().all(|&b| b == 0));
}

#[test]
fn delete_page_respects_pins() {
    let disk_manager = DiskManager::new(String::from("del.db"));
    let mut pool = BufferPoolManager::new(2, disk_manager);

    let pid = pool.new_page().unwrap();
    assert_eq!(pool.delete_page(pid), Err(StorageError::PagePinned));
    assert_eq!(pool.pin_count(pid), Some(1));

    pool.unpin_page(pid, false).unwrap();
    pool.delete_page(pid).unwrap();
    assert_eq!(pool.pin_count(pid), None);

    // deleting a page that is not resident succeeds and changes nothing
    pool.delete_page(17).unwrap();

    // the freed frame is usable again
    assert_eq!(pool.new_page().unwrap(), 1);
    assert_eq!(pool.new_page().unwrap(), 2);
}

#[test]
fn flush_clears_dirty_and_persists() {
    let disk_manager = DiskManager::new(String::from("flush.db"));
    let mut pool = BufferPoolManager::new(2, disk_manager);

    let pid = pool.new_page().unwrap();
    let bytes = b"durable".to_vec();
    pool.write_page_data(pid, 10, &bytes).unwrap();
    pool.unpin_page(pid, true).unwrap();
    assert_eq!(pool.is_page_dirty(pid), Some(true));

    pool.flush_page(pid).unwrap();
    assert_eq!(pool.is_page_dirty(pid), Some(false));
    assert_eq!(pool.flush_page(3), Err(StorageError::PageNotFound));

    pool.flush_all_pages();
    assert_eq!(pool.is_page_dirty(pid), Some(false));

    // pin bookkeeping is untouched by flushing
    assert_eq!(pool.pin_count(pid), Some(0));
    assert_eq!(pool.pool_size(), 2);
}

#[test]
fn data_access_needs_residency() {
    let disk_manager = DiskManager::new(String::from("acc.db"));
    let mut pool = BufferPoolManager::new(1, disk_manager);
    assert_eq!(pool.read_page_data(0), Err(StorageError::PageNotFound));
    assert_eq!(
        pool.write_page_data(0, 0, &vec![1u8]),
        Err(StorageError::PageNotFound)
    );
    let pid = pool.new_page().unwrap();
    assert_eq!(pid, 0);
    pool.write_page_data(0, 4095, &vec![9u8]).unwrap();
    let data = pool.read_page_data(0).unwrap();
    assert_eq!(data[4095], 9);
    assert_eq!(data[0], 0);
}
