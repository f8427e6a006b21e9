use walkv::db::{deserialize_snapshot, DataBase, SnapshotError, WriteSet};
use walkv::frame::{encode_frame, read_frame, FrameError};
use walkv::log::{
    deserialize_transaction, deserialize_transaction_vector, DeserializeError, LogRecord,
    TransactionLog,
};
use walkv::transaction::{
    checkpointing, crash_recovery, open_store, Command, OperationRecord, Transaction,
    TransactionStatus,
};

fn op(command: Command, key: &str, value: &str) -> OperationRecord {
    OperationRecord { command, key: key.to_string(), value: value.to_string() }
}

fn committed(db: &mut DataBase, ops: &[OperationRecord]) -> Transaction {
    let mut tx = Transaction::new();
    for o in ops {
        tx.add_operation_to_transaction(db, o);
    }
    tx.set_comitted();
    tx
}

/// The commit path: append the frame, then apply.
fn commit(db: &mut DataBase, wal: &mut Vec<u8>, ops: &[OperationRecord]) -> Vec<u8> {
    let mut tx = committed(db, ops);
    let frame = tx.to_serializable().to_bytes().unwrap();
    wal.extend_from_slice(&frame);
    tx.apply_commit(db);
    frame
}

#[test]
fn serialize_test() {
    let log_record = vec![OperationRecord {
        command: Command::Insert,
        key: "test".to_string(),
        value: "test".to_string(),
    }
    .to_serializable()];
    let status = TransactionStatus::Commit;
    let commit_records =
        TransactionLog { status, operations: log_record.clone(), write_set: WriteSet::new() };
    let bytes = commit_records.to_bytes().unwrap();
    assert!(bytes.len() > 12);
}

#[test]
fn deserialize_test() {
    let operation_records = vec![OperationRecord {
        command: Command::Insert,
        key: "test".to_string(),
        value: "test".to_string(),
    }];
    let log_records = operation_records
        .clone()
        .into_iter()
        .map(OperationRecord::to_serializable)
        .collect::<Vec<LogRecord>>();
    let status = TransactionStatus::Commit;
    let transactions = vec![Transaction {
        status: status.clone(),
        operations: operation_records,
        write_set: WriteSet::new(),
    }];
    let commit_records =
        vec![TransactionLog { status: status.clone(), operations: log_records, write_set: WriteSet::new() }];
    let mut log_file: Vec<u8> = Vec::new();
    for transaction_log in commit_records.iter() {
        log_file.extend_from_slice(&transaction_log.to_bytes().unwrap());
    }
    let deserialized_log_content: Vec<Transaction> = deserialize_transaction_vector(&log_file)
        .into_iter()
        .map(TransactionLog::to_operations_record)
        .collect::<Vec<Transaction>>();
    assert_eq!(transactions, deserialized_log_content);
}

#[test]
fn frame_round_trip_and_crc() {
    let payload = b"123456789";
    let frame = encode_frame(payload);
    let mut expected = vec![9, 0, 0, 0, 0, 0, 0, 0, 0x26, 0x39, 0xF4, 0xCB];
    expected.extend_from_slice(payload);
    assert_eq!(frame, expected);
    assert_eq!(read_frame(&frame, 0), Ok((payload.to_vec(), frame.len())));
}

#[test]
fn frame_single_bit_flips_never_decode_to_other_bytes() {
    let payload = b"some payload".to_vec();
    let frame = encode_frame(&payload);
    for i in 0..frame.len() {
        for bit in 0..8 {
            let mut flipped = frame.clone();
            flipped[i] ^= 1 << bit;
            match read_frame(&flipped, 0) {
                Ok((p, _)) => panic!("decoded {:?} after flipping bit {} of byte {}", p, bit, i),
                Err(e) => assert!(e == FrameError::ChecksumMismatch || e == FrameError::Eof),
            }
        }
    }
}

#[test]
fn frame_errors() {
    let frame = encode_frame(b"abc");
    assert_eq!(read_frame(&frame[..5], 0), Err(FrameError::Eof));
    assert_eq!(read_frame(&frame[..10], 0), Err(FrameError::Eof));
    assert_eq!(read_frame(&frame[..14], 0), Err(FrameError::Eof));
    assert_eq!(read_frame(&frame, 100), Err(FrameError::Eof));
    let mut bad = frame.clone();
    bad[13] ^= 0xff;
    assert_eq!(read_frame(&bad, 0), Err(FrameError::ChecksumMismatch));
}

#[test]
fn wal_round_trip_keeps_order() {
    let mut db = DataBase::new();
    let mut wal = Vec::new();
    commit(&mut db, &mut wal, &[op(Command::Insert, "x", "1")]);
    commit(&mut db, &mut wal, &[op(Command::Insert, "y", "2"), op(Command::Get, "x", "")]);
    commit(&mut db, &mut wal, &[op(Command::Remove, "x", "")]);
    let logs = deserialize_transaction_vector(&wal);
    assert_eq!(logs.len(), 3);
    let txs: Vec<Transaction> =
        logs.into_iter().map(TransactionLog::to_operations_record).collect();
    assert_eq!(txs[0].operations, vec![op(Command::Insert, "x", "1")]);
    assert_eq!(txs[1].operations, vec![op(Command::Insert, "y", "2"), op(Command::Get, "x", "")]);
    assert_eq!(txs[2].operations, vec![op(Command::Remove, "x", "")]);
    assert!(txs.iter().all(|t| t.status == TransactionStatus::Commit));
    assert_eq!(txs[2].write_set.get("x"), Some(None));
}

#[test]
fn deserialize_transaction_reports_each_error() {
    let mut db = DataBase::new();
    let mut wal = Vec::new();
    let frame = commit(&mut db, &mut wal, &[op(Command::Insert, "k", "v")]);
    let (log, next) = deserialize_transaction(&wal, 0).unwrap();
    assert_eq!(next, frame.len() as u64);
    assert_eq!(log.status, TransactionStatus::Commit);
    assert_eq!(deserialize_transaction(&wal, next), Err(DeserializeError::Eof));
    let mut bad = wal.clone();
    bad[20] ^= 0x40;
    assert_eq!(deserialize_transaction(&bad, 0), Err(DeserializeError::ChecksumUnmatch));
    let garbage = encode_frame(&[7u8, 1, 2]);
    assert_eq!(deserialize_transaction(&garbage, 0), Err(DeserializeError::OtherError));
    let mut not_utf8 = vec![0u8];
    not_utf8.extend_from_slice(&1u64.to_le_bytes());
    not_utf8.push(0);
    not_utf8.extend_from_slice(&1u64.to_le_bytes());
    not_utf8.push(0xff);
    not_utf8.extend_from_slice(&0u64.to_le_bytes());
    not_utf8.extend_from_slice(&0u64.to_le_bytes());
    let framed = encode_frame(&not_utf8);
    assert_eq!(deserialize_transaction(&framed, 0), Err(DeserializeError::OtherError));
}

#[test]
fn crash_after_commits_is_recovered_and_checkpointed() {
    let mut db = DataBase::new();
    let mut wal = Vec::new();
    commit(&mut db, &mut wal, &[op(Command::Insert, "x", "1")]);
    commit(&mut db, &mut wal, &[op(Command::Insert, "y", "2")]);
    let mut restarted = open_store(None, &wal).unwrap();
    assert_eq!(restarted.get("x"), Some("1".to_string()));
    assert_eq!(restarted.get("y"), Some("2".to_string()));
    let snapshot = checkpointing(&restarted);
    let wal_after: Vec<u8> = Vec::new();
    let again = open_store(Some(snapshot.as_slice()), &wal_after).unwrap();
    assert_eq!(again, restarted);
    let before_delete = open_store(Some(snapshot.as_slice()), &wal).unwrap();
    assert_eq!(before_delete, restarted);
    crash_recovery(&mut restarted, &wal);
    assert_eq!(again, restarted);
}

#[test]
fn corrupt_wal_byte_is_skipped() {
    let mut db = DataBase::new();
    let mut wal = Vec::new();
    commit(&mut db, &mut wal, &[op(Command::Insert, "a", "1")]);
    let start = wal.len();
    commit(&mut db, &mut wal, &[op(Command::Insert, "b", "2")]);
    commit(&mut db, &mut wal, &[op(Command::Insert, "c", "3")]);
    wal[start + 14] ^= 0x01;
    let recovered = open_store(None, &wal).unwrap();
    assert_eq!(recovered.get("a"), Some("1".to_string()));
    assert_eq!(recovered.get("b"), None);
    // One byte past the bad frame's start, the length field reads as more
    // bytes than the log holds, so the scan ends there.
    assert_eq!(recovered.get("c"), None);
    assert_eq!(deserialize_transaction_vector(&wal).len(), 1);
}

#[test]
fn torn_commit_recovers_before_or_after() {
    let mut db = DataBase::new();
    let mut wal = Vec::new();
    commit(&mut db, &mut wal, &[op(Command::Insert, "x", "1")]);
    let mut next = DataBase::new();
    let frame = commit(&mut next, &mut Vec::new(), &[op(Command::Insert, "x", "2"), op(Command::Insert, "y", "3")]);
    for k in 0..=frame.len() {
        let mut torn = wal.clone();
        torn.extend_from_slice(&frame[..k]);
        let s = open_store(None, &torn).unwrap();
        if k == frame.len() {
            assert_eq!(s.get("x"), Some("2".to_string()));
            assert_eq!(s.get("y"), Some("3".to_string()));
        } else {
            assert_eq!(s.get("x"), Some("1".to_string()));
            assert_eq!(s.get("y"), None);
        }
    }
}

#[test]
fn aborted_transaction_writes_nothing() {
    let mut db = DataBase::new();
    let mut wal = Vec::new();
    commit(&mut db, &mut wal, &[op(Command::Insert, "k", "v")]);
    let size = wal.len();
    let mut tx = Transaction::new();
    tx.add_operation_to_transaction(&mut db, &op(Command::Insert, "a", "1"));
    tx.set_abortted();
    if let Some(bytes) = tx.to_serializable().to_bytes() {
        wal.extend_from_slice(&bytes);
    }
    tx.execute_transaction(&mut db);
    assert_eq!(wal.len(), size);
    assert_eq!(db.get("a"), None);
}

#[test]
fn open_store_refuses_corrupt_snapshot() {
    let wal: Vec<u8> = Vec::new();
    assert_eq!(open_store(Some(&[1u8, 2, 3][..]), &wal), Err(SnapshotError::Corrupt));
    let fresh = open_store(None, &wal).unwrap();
    assert_eq!(fresh, DataBase::new());
}

#[test]
fn snapshot_then_wal_replay() {
    let mut db = DataBase::new();
    let mut wal = Vec::new();
    commit(&mut db, &mut wal, &[op(Command::Insert, "s", "S"), op(Command::Insert, "t", "T")]);
    let snapshot = checkpointing(&db);
    let mut wal2 = Vec::new();
    commit(&mut db, &mut wal2, &[op(Command::Remove, "s", ""), op(Command::Insert, "u", "U")]);
    let loaded = deserialize_snapshot(Some(snapshot.as_slice())).unwrap();
    assert_eq!(loaded.get("s"), Some("S".to_string()));
    assert_eq!(loaded.get("t"), Some("T".to_string()));
    let reopened = open_store(Some(snapshot.as_slice()), &wal2).unwrap();
    assert_eq!(reopened, db);
    assert_eq!(reopened.get("s"), None);
    assert_eq!(reopened.get("u"), Some("U".to_string()));
}
