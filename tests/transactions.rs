use walkv::db::DataBase;
use walkv::db::WriteSet;
use walkv::transaction::{Command, OperationRecord, OperationResult, Transaction, TransactionStatus};

fn op(command: Command, key: &str, value: &str) -> OperationRecord {
    OperationRecord { command, key: key.to_string(), value: value.to_string() }
}

#[test]
fn transaction_remove_works() {
    let mut test_db = DataBase::new();
    let mut transaction = Transaction::new();
    transaction.add_operation_to_transaction(
        &mut test_db,
        &OperationRecord {
            command: Command::Insert,
            key: "testkey".to_string(),
            value: "testvalue".to_string(),
        },
    );
    transaction.add_operation_to_transaction(
        &mut test_db,
        &OperationRecord {
            command: Command::Insert,
            key: "testkey2".to_string(),
            value: "testvalue2".to_string(),
        },
    );
    transaction.add_operation_to_transaction(
        &mut test_db,
        &OperationRecord {
            command: Command::Remove,
            key: "testkey".to_string(),
            value: "".to_string(),
        },
    );
    transaction.set_comitted();
    transaction.execute_transaction(&mut test_db);
    assert_eq!(test_db.get("testkey"), None);
    assert_eq!(test_db.get("testkey2"), Some("testvalue2".to_string()));
}

#[test]
fn basic_commit_and_remove() {
    let mut db = DataBase::new();
    let mut tx = Transaction::new();
    tx.add_operation_to_transaction(&mut db, &op(Command::Insert, "k1", "v1"));
    tx.add_operation_to_transaction(&mut db, &op(Command::Insert, "k2", "v2"));
    tx.add_operation_to_transaction(&mut db, &op(Command::Remove, "k1", ""));
    tx.set_comitted();
    tx.apply_commit(&mut db);
    let mut tx = Transaction::new();
    assert_eq!(
        tx.add_operation_to_transaction(&mut db, &op(Command::Get, "k1", "")),
        OperationResult::DoneGet(None)
    );
    assert_eq!(
        tx.add_operation_to_transaction(&mut db, &op(Command::Get, "k2", "")),
        OperationResult::DoneGet(Some("v2".to_string()))
    );
}

#[test]
fn read_your_writes_inside_a_transaction() {
    let mut db = DataBase::new();
    let mut setup = Transaction::new();
    setup.add_operation_to_transaction(&mut db, &op(Command::Insert, "k", "committed"));
    setup.set_comitted();
    setup.execute_transaction(&mut db);

    let mut tx = Transaction::new();
    assert_eq!(
        tx.add_operation_to_transaction(&mut db, &op(Command::Get, "k", "")),
        OperationResult::DoneGet(Some("committed".to_string()))
    );
    assert_eq!(
        tx.add_operation_to_transaction(&mut db, &op(Command::Insert, "k", "mine")),
        OperationResult::DoneInsert
    );
    assert_eq!(
        tx.add_operation_to_transaction(&mut db, &op(Command::Get, "k", "")),
        OperationResult::DoneGet(Some("mine".to_string()))
    );
    assert_eq!(
        tx.add_operation_to_transaction(&mut db, &op(Command::Remove, "k", "")),
        OperationResult::DoneRemove
    );
    assert_eq!(
        tx.add_operation_to_transaction(&mut db, &op(Command::Get, "k", "")),
        OperationResult::DoneGet(None)
    );
    assert_eq!(db.get("k"), Some("committed".to_string()));
    assert_eq!(tx.operations.len(), 5);
}

#[test]
fn abort_discards() {
    let mut db = DataBase::new();
    let mut tx = Transaction::new();
    tx.add_operation_to_transaction(&mut db, &op(Command::Insert, "a", "1"));
    tx.set_abortted();
    assert_eq!(tx.status, TransactionStatus::Abort);
    assert!(tx.operations.is_empty());
    assert_eq!(tx.to_serializable().to_bytes(), None);
    tx.execute_transaction(&mut db);
    let mut tx = Transaction::new();
    assert_eq!(
        tx.add_operation_to_transaction(&mut db, &op(Command::Get, "a", "")),
        OperationResult::DoneGet(None)
    );
}

#[test]
fn fresh_transaction_is_empty_and_aborted() {
    let tx = Transaction::new();
    assert_eq!(tx.status, TransactionStatus::Abort);
    assert!(tx.operations.is_empty());
    assert_eq!(tx.write_set, WriteSet::new());
}

#[test]
fn write_set_keeps_last_write_per_key() {
    let mut db = DataBase::new();
    let mut tx = Transaction::new();
    tx.add_operation_to_transaction(&mut db, &op(Command::Insert, "k", "1"));
    tx.add_operation_to_transaction(&mut db, &op(Command::Remove, "k", ""));
    tx.add_operation_to_transaction(&mut db, &op(Command::Insert, "k", "3"));
    tx.add_operation_to_transaction(&mut db, &op(Command::Get, "j", ""));
    assert_eq!(tx.write_set.get("k"), Some(Some("3".to_string())));
    assert_eq!(tx.write_set.get("j"), None);
    let mut other = WriteSet::new();
    other.set("k".to_string(), Some("3".to_string()));
    assert_eq!(tx.write_set, other);
}

#[test]
fn execute_operation_for_writeset_records_deletes() {
    let mut db = DataBase::new();
    let mut ws = WriteSet::new();
    let r = op(Command::Remove, "gone", "ignored").execute_operation_for_writeset(&mut db, &mut ws);
    assert_eq!(r, OperationResult::DoneRemove);
    assert_eq!(ws.get("gone"), Some(None));
}

#[test]
fn committed_transaction_applies_only_on_execute() {
    let mut db = DataBase::new();
    let mut tx = Transaction::new();
    tx.add_operation_to_transaction(&mut db, &op(Command::Insert, "x", "1"));
    assert_eq!(db.get("x"), None);
    tx.execute_transaction(&mut db);
    assert_eq!(db.get("x"), None);
    tx.set_comitted();
    tx.execute_transaction(&mut db);
    assert_eq!(db.get("x"), Some("1".to_string()));
}

#[test]
fn get_in_transaction_ignores_uncommitted_store_changes() {
    let mut db = DataBase::new();
    db.insert("k", "p");
    let mut tx = Transaction::new();
    assert_eq!(
        tx.add_operation_to_transaction(&mut db, &op(Command::Get, "k", "")),
        OperationResult::DoneGet(None)
    );
    let mut ws = WriteSet::new();
    assert_eq!(
        op(Command::Get, "k", "").execute_operation_for_writeset(&mut db, &mut ws),
        OperationResult::DoneGet(None)
    );
    db.apply_commit();
    db.remove("k");
    assert_eq!(
        tx.add_operation_to_transaction(&mut db, &op(Command::Get, "k", "")),
        OperationResult::DoneGet(Some("p".to_string()))
    );
}
