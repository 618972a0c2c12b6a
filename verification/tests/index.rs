use bitcask::{IndexType, Indexer, LogRecordPos, new_indexer};

#[test]
fn btree_get_put_delete_should_work() {
    let mut tree = new_indexer(IndexType::BTree);

    let key = "".as_bytes().to_vec();

    // success put
    assert!(tree.put(key.clone(), LogRecordPos::new(1, 10)));

    // a second put of the same key replaces the entry and also succeeds
    assert!(tree.put(key.clone(), LogRecordPos::new(1, 10)));

    let pos = tree.get(key.clone());

    // success get
    assert!(pos.is_some());

    assert_eq!(pos.unwrap().get_file_id(), 1);
    assert_eq!(pos.unwrap().get_offset(), 10);

    // success delete
    assert!(tree.delete(key.clone()));

    // fail delete
    assert!(!tree.delete("None".as_bytes().to_vec()));

    // fail get
    assert!(tree.get("None".as_bytes().to_vec()).is_none());
}

#[test]
fn index_replaces_on_second_put() {
    let mut tree = new_indexer(IndexType::BTree);
    assert!(tree.put(b"k".to_vec(), LogRecordPos::new(0, 0)));
    assert!(tree.put(b"k".to_vec(), LogRecordPos::new(2, 40)));
    let pos = tree.get(b"k".to_vec()).unwrap();
    assert_eq!(pos.get_file_id(), 2);
    assert_eq!(pos.get_offset(), 40);
}

#[test]
fn skiplist_option_serves_the_same_contract() {
    let mut tree = new_indexer(IndexType::SkipList);
    assert!(tree.put(b"a".to_vec(), LogRecordPos::new(0, 5)));
    assert_eq!(tree.get(b"a".to_vec()).unwrap().get_offset(), 5);
}

#[test]
fn bytes_eq_compares_contents() {
    assert!(bitcask::bytes_eq(&b"abc".to_vec(), &b"abc".to_vec()));
    assert!(!bitcask::bytes_eq(&b"abc".to_vec(), &b"abd".to_vec()));
    assert!(!bitcask::bytes_eq(&b"abc".to_vec(), &b"ab".to_vec()));
}
