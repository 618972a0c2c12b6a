use bitcask::{DirEntry, Engine, Errors, IndexType, Options, check_options, file_name_of};

fn opts(data_file_size: u64) -> Options {
    Options {
        dir_path: String::from("/tmp/bitcask-db"),
        data_file_size,
        sync_write: false,
        index_type: IndexType::BTree,
    }
}

fn fresh(data_file_size: u64) -> Engine {
    Engine::open(opts(data_file_size), Vec::new()).expect("an empty directory must open")
}

fn reopen(engine: &Engine, data_file_size: u64) -> Engine {
    let entries = engine.export_files();
    Engine::open(opts(data_file_size), entries).expect("a cleanly written directory must reopen")
}

#[test]
fn put_get_delete_sequence() {
    let mut db = fresh(1 << 20);
    db.put(b"a".to_vec(), b"1".to_vec()).unwrap();
    db.put(b"b".to_vec(), b"2".to_vec()).unwrap();
    assert_eq!(db.get(b"a".to_vec()).unwrap(), b"1".to_vec());
    assert_eq!(db.get(b"b".to_vec()).unwrap(), b"2".to_vec());
    db.delete(b"a".to_vec()).unwrap();
    assert_eq!(db.get(b"a".to_vec()).unwrap_err(), Errors::KeyNotFound);
    assert_eq!(db.get(b"b".to_vec()).unwrap(), b"2".to_vec());
}

#[test]
fn rotation_on_threshold() {
    let mut db = fresh(64);
    db.put(b"k1".to_vec(), vec![1u8; 40]).unwrap();
    assert_eq!(db.active_file_id(), 0);
    assert_eq!(db.sealed_file_count(), 0);
    db.put(b"k2".to_vec(), vec![2u8; 40]).unwrap();
    // the second write crossed the threshold and rotated
    assert_eq!(db.active_file_id(), 1);
    assert_eq!(db.sealed_file_count(), 1);
    assert_eq!(db.get(b"k1".to_vec()).unwrap(), vec![1u8; 40]);
    assert_eq!(db.get(b"k2".to_vec()).unwrap(), vec![2u8; 40]);

    // exactly two data files exist, with ids 0 and 1
    let entries = db.export_files();
    assert_eq!(entries.len(), 2);
    assert_eq!(entries[0].name, b"0.data".to_vec());
    assert_eq!(entries[1].name, b"1.data".to_vec());

    let db2 = reopen(&db, 64);
    assert_eq!(db2.get(b"k1".to_vec()).unwrap(), vec![1u8; 40]);
    assert_eq!(db2.get(b"k2".to_vec()).unwrap(), vec![2u8; 40]);
    assert_eq!(db2.active_file_id(), 1);
    assert_eq!(db2.sealed_file_count(), 1);
}

#[test]
fn overwrite_and_reopen() {
    let mut db = fresh(1 << 20);
    db.put(b"x".to_vec(), b"v1".to_vec()).unwrap();
    db.put(b"x".to_vec(), b"v2".to_vec()).unwrap();
    assert_eq!(db.get(b"x".to_vec()).unwrap(), b"v2".to_vec());
    db.close().unwrap();
    let db2 = reopen(&db, 1 << 20);
    assert_eq!(db2.get(b"x".to_vec()).unwrap(), b"v2".to_vec());
}

#[test]
fn delete_then_put_again_survives_reopen() {
    let mut db = fresh(1 << 20);
    db.put(b"x".to_vec(), b"v1".to_vec()).unwrap();
    db.delete(b"x".to_vec()).unwrap();
    db.put(b"x".to_vec(), b"v2".to_vec()).unwrap();
    let db2 = reopen(&db, 1 << 20);
    assert_eq!(db2.get(b"x".to_vec()).unwrap(), b"v2".to_vec());
}

#[test]
fn delete_of_missing_key_succeeds() {
    let mut db = fresh(1 << 20);
    db.delete(b"never".to_vec()).unwrap();
    assert_eq!(db.get(b"never".to_vec()).unwrap_err(), Errors::KeyNotFound);
}

#[test]
fn unparsable_data_file_name_is_corruption() {
    let entries = vec![DirEntry { name: b"abc.data".to_vec(), data: Vec::new() }];
    let err = Engine::open(opts(1 << 20), entries).unwrap_err();
    assert_eq!(err, Errors::DataDirectoryCorrupted);
}

#[test]
fn empty_keys_are_rejected() {
    let mut db = fresh(1 << 20);
    assert_eq!(db.put(Vec::new(), b"v".to_vec()).unwrap_err(), Errors::KeyIsEmpty);
    assert_eq!(db.delete(Vec::new()).unwrap_err(), Errors::KeyIsEmpty);
    assert_eq!(db.get(Vec::new()).unwrap_err(), Errors::KeyIsEmpty);
}

#[test]
fn empty_value_round_trips_through_engine() {
    let mut db = fresh(1 << 20);
    db.put(b"k".to_vec(), Vec::new()).unwrap();
    assert_eq!(db.get(b"k".to_vec()).unwrap(), Vec::<u8>::new());
    let db2 = reopen(&db, 1 << 20);
    assert_eq!(db2.get(b"k".to_vec()).unwrap(), Vec::<u8>::new());
}

#[test]
fn oversized_record_gets_its_own_file() {
    let mut db = fresh(64);
    db.put(b"small".to_vec(), b"v".to_vec()).unwrap();
    // far larger than the 64-byte threshold: accepted, rotated into a fresh
    // file that holds only this record
    db.put(b"big".to_vec(), vec![7u8; 500]).unwrap();
    assert_eq!(db.active_file_id(), 1);
    assert_eq!(db.sealed_file_count(), 1);
    assert_eq!(db.get(b"big".to_vec()).unwrap(), vec![7u8; 500]);
    let entries = db.export_files();
    assert_eq!(entries.len(), 2);
    // the oversized record is alone in file 1
    let expected = bitcask::LogRecord::new(b"big".to_vec(), vec![7u8; 500]).encode();
    assert_eq!(entries[1].data, expected);
    let db2 = reopen(&db, 64);
    assert_eq!(db2.get(b"big".to_vec()).unwrap(), vec![7u8; 500]);
    assert_eq!(db2.get(b"small".to_vec()).unwrap(), b"v".to_vec());
}

#[test]
fn oversized_record_into_empty_file_needs_no_rotation() {
    let mut db = fresh(64);
    db.put(b"big".to_vec(), vec![9u8; 300]).unwrap();
    assert_eq!(db.active_file_id(), 0);
    assert_eq!(db.sealed_file_count(), 0);
    assert_eq!(db.get(b"big".to_vec()).unwrap(), vec![9u8; 300]);
}

#[test]
fn corrupting_one_byte_fails_reopen() {
    let mut db = fresh(1 << 20);
    db.put(b"key".to_vec(), b"value".to_vec()).unwrap();
    db.close().unwrap();
    let mut entries = db.export_files();
    let n = entries[0].data.len();
    entries[0].data[n / 2] ^= 0x01;
    let err = Engine::open(opts(1 << 20), entries).unwrap_err();
    assert_eq!(err, Errors::DataDirectoryCorrupted);
}

#[test]
fn recovery_matches_in_memory_state() {
    let mut db = fresh(128);
    let keys: Vec<Vec<u8>> = (0u8..20).map(|i| vec![b'k', i]).collect();
    for (i, k) in keys.iter().enumerate() {
        db.put(k.clone(), vec![i as u8; 10]).unwrap();
    }
    for k in keys.iter().step_by(3) {
        db.delete(k.clone()).unwrap();
    }
    db.put(keys[0].clone(), b"back".to_vec()).unwrap();
    db.close().unwrap();

    let db2 = reopen(&db, 128);
    for (i, k) in keys.iter().enumerate() {
        let before = db.get(k.clone());
        let after = db2.get(k.clone());
        assert_eq!(before, after);
        if i == 0 {
            assert_eq!(after.unwrap(), b"back".to_vec());
        } else if i % 3 == 0 {
            assert_eq!(after.unwrap_err(), Errors::KeyNotFound);
        } else {
            assert_eq!(after.unwrap(), vec![i as u8; 10]);
        }
    }
}

#[test]
fn sync_write_mode_stores_normally() {
    let mut options = opts(1 << 20);
    options.sync_write = true;
    let mut db = Engine::open(options, Vec::new()).unwrap();
    db.put(b"durable".to_vec(), b"yes".to_vec()).unwrap();
    db.sync().unwrap();
    let db2 = reopen(&db, 1 << 20);
    assert_eq!(db2.get(b"durable".to_vec()).unwrap(), b"yes".to_vec());
}

#[test]
fn open_rejects_bad_options() {
    let mut o = opts(1 << 20);
    o.dir_path = String::new();
    assert_eq!(Engine::open(o, Vec::new()).unwrap_err(), Errors::DirPathIsEmpty);
    let o2 = opts(0);
    assert_eq!(Engine::open(o2, Vec::new()).unwrap_err(), Errors::DataFileSizeTooSmall);
}

#[test]
fn check_options_reports_each_fault() {
    let mut o = opts(4096);
    assert!(check_options(&o).is_none());
    o.data_file_size = 0;
    assert_eq!(check_options(&o), Some(Errors::DataFileSizeTooSmall));
    o.dir_path = String::new();
    assert_eq!(check_options(&o), Some(Errors::DirPathIsEmpty));
}

#[test]
fn open_ignores_unrelated_files() {
    let entries = vec![DirEntry { name: b"README.md".to_vec(), data: b"notes".to_vec() }];
    let db = Engine::open(opts(1 << 20), entries).unwrap();
    assert_eq!(db.active_file_id(), 0);
    assert_eq!(db.sealed_file_count(), 0);
}

#[test]
fn open_accepts_zero_padded_ids() {
    let entries = vec![DirEntry { name: b"007.data".to_vec(), data: Vec::new() }];
    let mut db = Engine::open(opts(1 << 20), entries).unwrap();
    assert_eq!(db.active_file_id(), 7);
    db.put(b"k".to_vec(), b"v".to_vec()).unwrap();
    assert_eq!(db.get(b"k".to_vec()).unwrap(), b"v".to_vec());
}

#[test]
fn duplicate_file_ids_are_corruption() {
    let entries = vec![
        DirEntry { name: b"1.data".to_vec(), data: Vec::new() },
        DirEntry { name: b"01.data".to_vec(), data: Vec::new() },
    ];
    let err = Engine::open(opts(1 << 20), entries).unwrap_err();
    assert_eq!(err, Errors::DataDirectoryCorrupted);
}

#[test]
fn exhausted_file_ids_fail_the_write() {
    let entries = vec![DirEntry { name: b"4294967295.data".to_vec(), data: Vec::new() }];
    let mut db = Engine::open(opts(32), entries).unwrap();
    assert_eq!(db.active_file_id(), u32::MAX);
    db.put(b"a".to_vec(), vec![1u8; 20]).unwrap();
    // the next write would rotate past the largest possible file id
    let err = db.put(b"b".to_vec(), vec![2u8; 20]).unwrap_err();
    assert_eq!(err, Errors::FailedToWriteToDataFile);
    // the first record is still readable
    assert_eq!(db.get(b"a".to_vec()).unwrap(), vec![1u8; 20]);
}

#[test]
fn file_names_render_in_decimal() {
    assert_eq!(file_name_of(0), b"0.data".to_vec());
    assert_eq!(file_name_of(42), b"42.data".to_vec());
    assert_eq!(file_name_of(4294967295), b"4294967295.data".to_vec());
}

#[test]
fn error_messages_are_stable() {
    assert_eq!(Errors::KeyNotFound.message(), "key not found");
    assert_eq!(Errors::KeyIsEmpty.message(), "key is empty");
    assert_eq!(
        Errors::DataDirectoryCorrupted.message(),
        "the database directory may be corrupted"
    );
}

#[test]
fn reads_span_many_sealed_files() {
    let mut db = fresh(32);
    for i in 0u8..12 {
        db.put(vec![b'k', i], vec![i; 24]).unwrap();
    }
    assert!(db.sealed_file_count() >= 3);
    for i in 0u8..12 {
        assert_eq!(db.get(vec![b'k', i]).unwrap(), vec![i; 24]);
    }
    let db2 = reopen(&db, 32);
    for i in 0u8..12 {
        assert_eq!(db2.get(vec![b'k', i]).unwrap(), vec![i; 24]);
    }
}
