use walkv::db::{deserialize_snapshot, DataBase, SnapshotError};

#[test]
fn db_remove_works() {
    let mut test_db = DataBase::new();
    test_db.insert("testkey", "testvalue");
    test_db.insert("testkey2", "testvalue");
    test_db.remove("testkey");
    test_db.apply_commit();
    assert_eq!(test_db.get("testkey"), None);
    assert_eq!(test_db.get("testkey2"), Some("testvalue".to_string()));
}

#[test]
#[should_panic]
fn abort_works() {
    let mut test_db = DataBase::new();
    test_db.insert("testkey", "testvalue");
    test_db.apply_abort();
    test_db.get("testkey").unwrap();
}

#[test]
fn snapshot_test() {
    let mut db = DataBase::new();
    db.insert("snapshot_test", "snapshot_test_value");
    db.insert("snapshot_test2", "snapshot_test_value2");
    db.remove("snapshot_test2");
    db.apply_commit();
    let file = db.snapshot();
    let deserialized_db = deserialize_snapshot(Some(file.as_slice())).unwrap();
    assert_eq!(db, deserialized_db);
    assert_eq!(db.get("snapshot_test").unwrap().to_string(), "snapshot_test_value");
}

#[test]
fn get_reads_buffered_changes_before_commit() {
    let mut db = DataBase::new();
    db.insert("a", "1");
    assert_eq!(db.get("a"), Some("1".to_string()));
    assert_eq!(db.committed_get("a"), None);
    db.apply_commit();
    db.remove("a");
    assert_eq!(db.get("a"), None);
    assert_eq!(db.committed_get("a"), Some("1".to_string()));
}

#[test]
fn apply_abort_drops_buffered_changes() {
    let mut db = DataBase::new();
    db.insert("a", "1");
    db.apply_commit();
    db.insert("a", "2");
    db.insert("b", "3");
    db.apply_abort();
    assert_eq!(db.get("a"), Some("1".to_string()));
    assert_eq!(db.get("b"), None);
}

#[test]
fn overwrite_keeps_last_value() {
    let mut db = DataBase::new();
    db.insert("k", "first");
    db.insert("k", "second");
    db.apply_commit();
    assert_eq!(db.get("k"), Some("second".to_string()));
}

#[test]
fn snapshot_round_trip_of_empty_store() {
    let db = DataBase::new();
    let file = db.snapshot();
    let loaded = deserialize_snapshot(Some(file.as_slice())).unwrap();
    assert_eq!(loaded, db);
    assert_eq!(loaded.get(""), None);
}

#[test]
fn snapshot_round_trip_keeps_unicode_keys_and_values() {
    let mut db = DataBase::new();
    db.insert("é", "ü");
    db.insert("z", "");
    db.insert("", "empty key");
    db.insert("日本", "語");
    db.apply_commit();
    let loaded = deserialize_snapshot(Some(db.snapshot().as_slice())).unwrap();
    assert_eq!(loaded, db);
    assert_eq!(loaded.get("日本"), Some("語".to_string()));
    assert_eq!(loaded.get(""), Some("empty key".to_string()));
}

#[test]
fn snapshot_bytes_are_exact() {
    let mut db = DataBase::new();
    db.insert("k", "v");
    db.apply_commit();
    let payload: Vec<u8> = vec![
        1, 0, 0, 0, 0, 0, 0, 0, // one entry
        1, 0, 0, 0, 0, 0, 0, 0, b'k', // key
        1, 0, 0, 0, 0, 0, 0, 0, b'v', // value
    ];
    let mut expected = (payload.len() as u64).to_le_bytes().to_vec();
    expected.extend_from_slice(&crc32fast::hash(&payload).to_le_bytes());
    expected.extend_from_slice(&payload);
    assert_eq!(db.snapshot(), expected);
}

#[test]
fn snapshot_bytes_do_not_depend_on_operation_order() {
    let mut a = DataBase::new();
    a.insert("x", "old");
    a.insert("y", "1");
    a.apply_commit();
    a.insert("x", "new");
    a.apply_commit();
    let mut b = DataBase::new();
    b.insert("y", "1");
    b.insert("x", "new");
    b.apply_commit();
    assert_eq!(a.snapshot(), b.snapshot());
}

#[test]
fn missing_snapshot_is_not_found() {
    assert_eq!(deserialize_snapshot(None), Err(SnapshotError::NotFound));
}

#[test]
fn corrupt_snapshot_is_refused() {
    let mut db = DataBase::new();
    db.insert("s", "S");
    db.apply_commit();
    let file = db.snapshot();
    let mut flipped = file.clone();
    let last = flipped.len() - 1;
    flipped[last] ^= 1;
    assert_eq!(deserialize_snapshot(Some(flipped.as_slice())), Err(SnapshotError::Corrupt));
    assert_eq!(deserialize_snapshot(Some(&file[..file.len() - 1])), Err(SnapshotError::Corrupt));
    assert_eq!(deserialize_snapshot(Some(&[][..])), Err(SnapshotError::Corrupt));
}

#[test]
fn snapshot_with_unsorted_keys_is_refused() {
    let payload: Vec<u8> = vec![
        2, 0, 0, 0, 0, 0, 0, 0, // two entries
        1, 0, 0, 0, 0, 0, 0, 0, b'b', 1, 0, 0, 0, 0, 0, 0, 0, b'1',
        1, 0, 0, 0, 0, 0, 0, 0, b'a', 1, 0, 0, 0, 0, 0, 0, 0, b'2',
    ];
    let file = walkv::frame::encode_frame(&payload);
    assert_eq!(deserialize_snapshot(Some(file.as_slice())), Err(SnapshotError::Corrupt));
}

#[test]
fn snapshot_with_trailing_bytes_is_refused() {
    let mut db = DataBase::new();
    db.insert("s", "S");
    db.apply_commit();
    let mut file = db.snapshot();
    file.extend_from_slice(b"stale tail");
    assert_eq!(deserialize_snapshot(Some(file.as_slice())), Err(SnapshotError::Corrupt));
}
