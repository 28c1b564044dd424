use pagestore::errors::StorageError;
use pagestore::storage::page::{Page, PAGE_SIZE};
use pagestore::table::table_iterator::TableIterator;
use pagestore::table::table_page::TablePage;
use pagestore::table::tuple::Tuple;

#[test]
fn insert_tuples() {
    let mut page = Page::new();
    let mut table = TablePage::from(&mut page);

    let data: Vec<u8> = vec![1, 2, 3, 4, 5, 6, 7, 8, 9, 10];
    let t = &Tuple { data };
    let slot = table.insert_tuple(t).unwrap();
    assert_eq!(slot, PAGE_SIZE - t.len());

    let data: Vec<u8> = vec![11, 12, 13, 14, 15, 16, 17, 18, 19, 20];
    let t = &Tuple { data };
    let slot = table.insert_tuple(t).unwrap();
    assert_eq!(slot, PAGE_SIZE - t.len() * 2);

    let data: Vec<u8> = vec![21, 22, 23, 24, 25, 26, 27, 28, 29, 30];
    let t = &Tuple { data };
    let slot = table.insert_tuple(t).unwrap();
    assert_eq!(slot, PAGE_SIZE - t.len() * 3);

    assert_eq!(table.num_tuples, 3);

    let mut iter = TableIterator::new(table);
    while let Some(tuple) = iter.next() {
        println!("{:?}", tuple);
    }
}

#[test]
fn fails_when_page_is_full() {
    let mut page = Page::new();
    let mut table = TablePage::try_from(&mut page).expect("cannot parse page into table page");

    let data: Vec<u8> = vec![1; 1024];
    let t = &Tuple { data };
    assert!(table.insert_tuple(t).is_ok());
    assert!(table.insert_tuple(t).is_ok());
    assert!(table.insert_tuple(t).is_ok());
    assert!(table.insert_tuple(t).is_err());
}

#[test]
fn insertion_offsets_strictly_decrease() {
    let page = Page::new();
    let mut table = TablePage::from(&page);

    let o1 = table.insert_tuple(&Tuple { data: vec![1; 100] }).unwrap();
    let o2 = table.insert_tuple(&Tuple { data: vec![2; 200] }).unwrap();
    let o3 = table.insert_tuple(&Tuple { data: vec![3; 300] }).unwrap();
    assert_eq!(o1, 4096 - 100);
    assert_eq!(o2, 4096 - 100 - 200);
    assert_eq!(o3, 4096 - 100 - 200 - 300);
    assert!(o3 < o2 && o2 < o1);
}

#[test]
fn failed_insert_leaves_page_unchanged() {
    let page = Page::new();
    let mut table = TablePage::from(&page);

    table.insert_tuple(&Tuple { data: vec![7; 8] }).unwrap();
    table.insert_tuple(&Tuple { data: vec![8; 16] }).unwrap();
    let before = table.page_data.clone();

    let huge = Tuple { data: vec![9; PAGE_SIZE] };
    assert_eq!(table.insert_tuple(&huge), Err(StorageError::PageFull));
    assert_eq!(table.num_tuples, 2);
    assert_eq!(table.page_data, before);
    assert_eq!(table.get_tuple(0).unwrap().data, vec![7; 8]);
    assert_eq!(table.get_tuple(1).unwrap().data, vec![8; 16]);
}

#[test]
fn get_tuple_recovers_bytes_and_rejects_bad_slots() {
    let page = Page::new();
    let mut table = TablePage::from(&page);

    table.insert_tuple(&Tuple { data: vec![1, 2, 3] }).unwrap();
    table.insert_tuple(&Tuple { data: vec![] }).unwrap();
    table.insert_tuple(&Tuple { data: vec![4, 5] }).unwrap();

    assert_eq!(table.get_tuple(0).unwrap().data, vec![1, 2, 3]);
    assert_eq!(table.get_tuple(1).unwrap().data, Vec::<u8>::new());
    assert_eq!(table.get_tuple(2).unwrap().data, vec![4, 5]);
    assert!(matches!(table.get_tuple(3), Err(StorageError::InvalidSlot)));
}

#[test]
fn header_is_rewritten_big_endian() {
    let page = Page::new();
    let mut table = TablePage::from(&page);
    table.insert_tuple(&Tuple { data: vec![1; 16] }).unwrap();
    // num_tuples at bytes 4..8, big-endian
    assert_eq!(&table.page_data[4..8], &[0, 0, 0, 1]);
    // the slot at bytes 8..12 holds the tuple's offset, big-endian
    let off = 4096 - 16u32;
    assert_eq!(
        &table.page_data[8..12],
        &off.to_be_bytes()
    );
}

#[test]
fn try_from_rejects_corrupt_headers() {
    let mut page = Page::new();
    // tuple count far past what the slot array can hold
    page.data[4] = 0xff;
    assert!(TablePage::try_from(&page).is_none());

    // one tuple whose slot offset collides with the slot array
    let mut page = Page::new();
    page.data[7] = 1; // num_tuples = 1
    page.data[11] = 4; // slot 0 offset = 4 < 12
    assert!(TablePage::try_from(&page).is_none());

    // a fresh page parses
    let page = Page::new();
    assert!(TablePage::try_from(&page).is_some());
}

#[test]
fn iterator_replays_all_tuples_in_order() {
    let page = Page::new();
    let mut table = TablePage::from(&page);
    table.insert_tuple(&Tuple { data: vec![10, 11] }).unwrap();
    table.insert_tuple(&Tuple { data: vec![12] }).unwrap();

    let mut iter = TableIterator::new(table);
    assert_eq!(iter.next().unwrap().data, vec![10, 11]);
    assert_eq!(iter.next().unwrap().data, vec![12]);
    assert!(iter.next().is_none());
    assert!(iter.next().is_none());
}

#[test]
fn tuple_len_matches_data() {
    let t = Tuple { data: vec![1, 2, 3, 4] };
    assert_eq!(t.len(), 4);
    let empty = Tuple { data: Vec::new() };
    assert_eq!(empty.len(), 0);
}
