use pagestore::storage::disk_manager::DiskManager;
use pagestore::storage::page::PAGE_SIZE;

#[test]
fn read_write_page() {
    let mut dm = DiskManager::new(String::from("test.db"));
    let mut data = vec![0u8; PAGE_SIZE];
    let mut buf = vec![0u8; PAGE_SIZE];
    let n = "Hello World".as_bytes();

    data[..n.len()].clone_from_slice(n);

    // tolerate empty read
    dm.read_page(0, &mut buf).unwrap();

    dm.write_page(0, &data).unwrap();
    dm.read_page(0, &mut buf).unwrap();
    assert_eq!(data, buf);

    // reset the buf
    buf.fill(0);

    dm.write_page(5, &data).unwrap();
    dm.read_page(5, &mut buf).unwrap();
    assert_eq!(data, buf);
}

#[test]
fn unwritten_pages_read_as_zero() {
    let dm = DiskManager::new(String::from("zero.db"));
    let mut buf = vec![7u8; PAGE_SIZE];
    let n = dm.read_page(9, &mut buf).unwrap();
    assert_eq!(n, PAGE_SIZE);
    assert!(buf.iter().all(|&b| b == 0));
}

#[test]
fn writes_do_not_touch_other_pages() {
    let mut dm = DiskManager::new(String::from("other.db"));
    let mut data = vec![0xabu8; PAGE_SIZE];
    dm.write_page(3, &data).unwrap();

    let mut buf = vec![1u8; PAGE_SIZE];
    dm.read_page(2, &mut buf).unwrap();
    assert!(buf.iter().all(|&b| b == 0));
    dm.read_page(4, &mut buf).unwrap();
    assert!(buf.iter().all(|&b| b == 0));

    // a second write round-trips too, and page 3 keeps its bytes
    data[0] = 0xcd;
    dm.write_page(1, &data).unwrap();
    dm.read_page(1, &mut buf).unwrap();
    assert_eq!(buf, data);
    dm.read_page(3, &mut buf).unwrap();
    assert_eq!(buf[0], 0xab);
    assert!(buf.iter().all(|&b| b == 0xab));
}

#[test]
fn drop_database_clears_contents() {
    let mut dm = DiskManager::new(String::from("gone.db"));
    let data = vec![5u8; PAGE_SIZE];
    dm.write_page(0, &data).unwrap();
    assert!(!dm.backing_bytes().is_empty());
    dm.drop_database().unwrap();
    assert!(dm.backing_bytes().is_empty());
    let mut buf = vec![5u8; PAGE_SIZE];
    dm.read_page(0, &mut buf).unwrap();
    assert!(buf.iter().all(|&b| b == 0));
    assert_eq!(dm.db_file(), "gone.db");
}
