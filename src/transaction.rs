//! Transactions: operations, their write-set, commit and abort.

use crate::db::{
    apply_write_set, lemma_snapshot_round_trip, parse_snapshot_file, snapshot_file,
    snapshot_payload, DataBase, WriteSet,
};
use crate::keys::{keys_of, pairs_to_map, sorted_keys};
use crate::log::{
    deserialize_transaction_vector, lemma_wal_round_trip, lemma_wal_torn_tail, log_bytes,
    log_payload, loggable, scan_log, wal_of, LogView, TransactionLog,
};
use crate::frame::frame_of;
use vstd::prelude::*;

verus! {

/// The kind of an operation.
#[derive(Clone, Copy, Debug, PartialEq, Eq, Structural)]
pub enum Command {
    Insert,
    Remove,
    Get,
}

/// Whether a transaction is to be committed.
#[derive(Clone, Copy, Debug, PartialEq, Eq, Structural)]
pub enum TransactionStatus {
    Commit,
    Abort,
}

/// One operation of a transaction. `value` matters only for `Insert`.
#[derive(Clone, Debug, PartialEq)]
pub struct OperationRecord {
    pub command: Command,
    pub key: String,
    pub value: String,
}

impl View for OperationRecord {
    type V = (Command, Seq<char>, Seq<char>);

    open spec fn view(&self) -> (Command, Seq<char>, Seq<char>) {
        (self.command, self.key@, self.value@)
    }
}

/// What an operation returned.
#[derive(Clone, Debug, PartialEq)]
pub enum OperationResult {
    DoneInsert,
    DoneRemove,
    DoneGet(Option<String>),
}

/// The write-set after one more operation.
pub open spec fn write_set_step(
    ws: Map<Seq<char>, Option<Seq<char>>>,
    op: (Command, Seq<char>, Seq<char>),
) -> Map<Seq<char>, Option<Seq<char>>> {
    match op.0 {
        Command::Insert => ws.insert(op.1, Some(op.2)),
        Command::Remove => ws.insert(op.1, None),
        Command::Get => ws,
    }
}

/// The effect of a list of operations: each written key maps to its last
/// write.
pub open spec fn write_set_of(ops: Seq<(Command, Seq<char>, Seq<char>)>) -> Map<
    Seq<char>,
    Option<Seq<char>>,
>
    decreases ops.len(),
{
    if ops.len() == 0 {
        Map::empty()
    } else {
        write_set_step(write_set_of(ops.drop_last()), ops.last())
    }
}

/// What a `Get` of `k` observes inside a transaction whose write-set is
/// `ws`, over a store whose committed value for it is `committed`.
pub open spec fn observed(
    committed: Option<Seq<char>>,
    ws: Map<Seq<char>, Option<Seq<char>>>,
    k: Seq<char>,
) -> Option<Seq<char>> {
    if ws.contains_key(k) {
        ws[k]
    } else {
        committed
    }
}

impl DataBase {
    /// The committed value of `k`, if any.
    pub open spec fn committed_value(&self, k: Seq<char>) -> Option<Seq<char>> {
        if self@.contains_key(k) {
            Some(self@[k])
        } else {
            None
        }
    }
}

impl OperationRecord {
    /// A copy of this record.
    pub fn duplicate(&self) -> (r: OperationRecord)
        ensures
            r@ == self@,
    {
        OperationRecord { command: self.command, key: self.key.clone(), value: self.value.clone() }
    }

    /// Applies this operation to a transaction's write-set; a `Get` returns
    /// what the transaction observes for its key.
    pub fn execute_operation_for_writeset(self, db: &mut DataBase, write_set: &mut WriteSet) -> (r:
        OperationResult)
        requires
            old(db).wf(),
            old(write_set).wf(),
        ensures
            *final(db) == *old(db),
            final(write_set).wf(),
            final(write_set)@ == write_set_step(old(write_set)@, self@),
            match self.command {
                Command::Insert => r == OperationResult::DoneInsert,
                Command::Remove => r == OperationResult::DoneRemove,
                Command::Get => r matches OperationResult::DoneGet(v) && v.deep_view() == observed(
                    old(db).committed_value(self.key@),
                    old(write_set)@,
                    self.key@,
                ),
            },
    {
        match self.command {
            Command::Insert => {
                write_set.set(self.key, Some(self.value));
                OperationResult::DoneInsert
            },
            Command::Remove => {
                write_set.set(self.key, None);
                OperationResult::DoneRemove
            },
            Command::Get => {
                match write_set.get(self.key.as_str()) {
                    Some(v) => OperationResult::DoneGet(v),
                    None => OperationResult::DoneGet(db.committed_get(self.key.as_str())),
                }
            },
        }
    }
}

/// A transaction: its status, the operations added to it, and their
/// write-set.
#[derive(Debug, PartialEq)]
pub struct Transaction {
    pub status: TransactionStatus,
    pub operations: Vec<OperationRecord>,
    pub write_set: WriteSet,
}

impl Transaction {
    /// The operations, in the order they were added.
    pub open spec fn ops(&self) -> Seq<(Command, Seq<char>, Seq<char>)> {
        self.operations@.map_values(|o: OperationRecord| o@)
    }

    /// The write-set is the effect of the operations.
    pub open spec fn consistent(&self) -> bool {
        self.write_set@ == write_set_of(self.ops())
    }

    /// A fresh transaction: status `Abort`, no operations, empty write-set.
    pub fn new() -> (r: Transaction)
        ensures
            r.status == TransactionStatus::Abort,
            r.ops() == Seq::<(Command, Seq<char>, Seq<char>)>::empty(),
            r.write_set.wf(),
            r.write_set@ == Map::<Seq<char>, Option<Seq<char>>>::empty(),
            r.consistent(),
    {
        let r = Transaction {
            status: TransactionStatus::Abort,
            operations: Vec::new(),
            write_set: WriteSet::new(),
        };
        proof {
            assert(r.ops() =~= Seq::<(Command, Seq<char>, Seq<char>)>::empty());
        }
        r
    }

    /// Applies the write-set to `db` unless the transaction is aborted.
    pub fn execute_transaction(&mut self, db: &mut DataBase)
        requires
            old(db).wf(),
            old(self).write_set.wf(),
        ensures
            *final(self) == *old(self),
            final(db).wf(),
            final(db).pending() == old(db).pending(),
            final(db)@ == if old(self).status == TransactionStatus::Abort {
                old(db)@
            } else {
                apply_write_set(old(db)@, old(self).write_set@)
            },
    {
        if self.status != TransactionStatus::Abort {
            self.apply_commit(db);
        }
    }

    /// Adds an operation: it is appended to the operations and its effect
    /// recorded in the write-set; a `Get` returns what the transaction
    /// observes for its key.
    pub fn add_operation_to_transaction(
        &mut self,
        db: &mut DataBase,
        operation: &OperationRecord,
    ) -> (r: OperationResult)
        requires
            old(db).wf(),
            old(self).write_set.wf(),
        ensures
            *final(db) == *old(db),
            final(self).status == old(self).status,
            final(self).ops() == old(self).ops().push(operation@),
            final(self).write_set.wf(),
            final(self).write_set@ == write_set_step(old(self).write_set@, operation@),
            old(self).consistent() ==> final(self).consistent(),
            match operation.command {
                Command::Insert => r == OperationResult::DoneInsert,
                Command::Remove => r == OperationResult::DoneRemove,
                Command::Get => r matches OperationResult::DoneGet(v) && v.deep_view() == observed(
                    old(db).committed_value(operation.key@),
                    old(self).write_set@,
                    operation.key@,
                ),
            },
    {
        self.operations.push(operation.duplicate());
        let r = operation.duplicate().execute_operation_for_writeset(db, &mut self.write_set);
        proof {
            assert(self.ops() =~= old(self).ops().push(operation@));
            assert(self.ops().drop_last() =~= old(self).ops());
        }
        r
    }

    /// Marks the transaction to be committed.
    pub fn set_comitted(&mut self)
        ensures
            final(self).status == TransactionStatus::Commit,
            final(self).operations == old(self).operations,
            final(self).write_set == old(self).write_set,
    {
        self.status = TransactionStatus::Commit;
    }

    /// Aborts the transaction: its status becomes `Abort` and its
    /// operations are dropped.
    pub fn set_abortted(&mut self)
        ensures
            final(self).status == TransactionStatus::Abort,
            final(self).ops() == Seq::<(Command, Seq<char>, Seq<char>)>::empty(),
            final(self).write_set == old(self).write_set,
    {
        self.status = TransactionStatus::Abort;
        self.operations = Vec::new();
        proof {
            assert(self.ops() =~= Seq::<(Command, Seq<char>, Seq<char>)>::empty());
        }
    }

    /// Applies the write-set to `db`.
    pub fn apply_commit(&mut self, db: &mut DataBase)
        requires
            old(db).wf(),
            old(self).write_set.wf(),
        ensures
            *final(self) == *old(self),
            final(db).wf(),
            final(db).pending() == old(db).pending(),
            final(db)@ == apply_write_set(old(db)@, old(self).write_set@),
    {
        db.apply_write_set(&self.write_set);
    }
}

/// The committed map after replaying logs in order: each committed log's
/// write-set is applied; aborted logs change nothing.
pub open spec fn replay(m: Map<Seq<char>, Seq<char>>, ts: Seq<LogView>) -> Map<
    Seq<char>,
    Seq<char>,
>
    decreases ts.len(),
{
    if ts.len() == 0 {
        m
    } else {
        let prev = replay(m, ts.drop_last());
        if ts.last().status == TransactionStatus::Commit {
            apply_write_set(prev, pairs_to_map(ts.last().writes))
        } else {
            prev
        }
    }
}

/// The state recovery reaches from the snapshot file (`None` when there is
/// none) and the write-ahead log: the snapshot's map, or the empty map,
/// with every committed log of the write-ahead log replayed over it;
/// `None` when the snapshot file is corrupt.
pub open spec fn recovered(snapshot: Option<Seq<u8>>, wal: Seq<u8>) -> Option<
    Map<Seq<char>, Seq<char>>,
> {
    match snapshot {
        None => Some(replay(Map::empty(), scan_log(wal, 0))),
        Some(f) => match parse_snapshot_file(f) {
            Some(ps) => Some(replay(pairs_to_map(ps), scan_log(wal, 0))),
            None => None,
        },
    }
}

/// Replays the write-ahead log `wal` over `db`: every committed
/// transaction it holds is applied, in order.
pub fn crash_recovery(db: &mut DataBase, wal: &[u8])
    requires
        old(db).wf(),
    ensures
        final(db).wf(),
        final(db)@ == replay(old(db)@, scan_log(wal@, 0)),
        final(db).pending() == old(db).pending(),
{
    let logs = deserialize_transaction_vector(wal);
    let ghost ts = scan_log(wal@, 0);
    let ghost m0 = db@;
    let mut rest = logs;
    let n = rest.len();
    let ghost all = rest@;
    let mut i: usize = 0;
    proof {
        assert(ts.take(0) =~= Seq::<LogView>::empty());
    }
    while i < n
        invariant
            n == all.len(),
            i <= n,
            rest@ == all.subrange(i as int, n as int),
            all.map_values(|t: TransactionLog| t@) == ts,
            forall|j: int| 0 <= j < all.len() ==> (#[trigger] all[j]).write_set.wf()
                && crate::log::log_wf(all[j]@),
            db.wf(),
            db@ == replay(m0, ts.take(i as int)),
            db.pending() == old(db).pending(),
        decreases n - i,
    {
        let t = rest.remove(0);
        proof {
            assert(t == all[i as int]);
            assert(rest@ =~= all.subrange(i + 1, n as int));
            assert(ts[i as int] == t@);
        }
        let mut tx = t.to_operations_record();
        tx.execute_transaction(db);
        proof {
            assert(ts.take(i + 1).drop_last() =~= ts.take(i as int));
            assert(ts.take(i + 1).last() == ts[i as int]);
        }
        i = i + 1;
    }
    proof {
        assert(ts.take(n as int) =~= ts);
    }
}

/// The snapshot file that a checkpoint of `db` writes. Once it is durably
/// written, the write-ahead log may be deleted; if writing it fails, the
/// write-ahead log must stay.
pub fn checkpointing(db: &DataBase) -> (r: Vec<u8>)
    requires
        db.wf(),
    ensures
        r@ == snapshot_file(db.pairs()),
        parse_snapshot_file(r@) == Some(db.pairs()),
{
    let r = db.snapshot();
    proof {
        db.lemma_wf();
        lemma_snapshot_round_trip(db.pairs());
    }
    r
}

/// Opens a store from the snapshot file (`None` when there is none) and the
/// write-ahead log: the snapshot is loaded, or an empty store taken when
/// there is no snapshot, and the write-ahead log is replayed over it. A
/// corrupt snapshot is an error.
pub fn open_store(snapshot: Option<&[u8]>, wal: &[u8]) -> (r: Result<DataBase, crate::db::SnapshotError>)
    ensures
        match recovered(
            match snapshot {
                Some(s) => Some(s@),
                None => None,
            },
            wal@,
        ) {
            Some(m) => r matches Ok(db) && db.wf() && db@ == m && db.pending() == Map::<
                Seq<char>,
                Option<Seq<char>>,
            >::empty(),
            None => r == Err::<DataBase, crate::db::SnapshotError>(
                crate::db::SnapshotError::Corrupt,
            ),
        },
{
    let mut db = match crate::db::deserialize_snapshot(snapshot) {
        Ok(db) => db,
        Err(crate::db::SnapshotError::NotFound) => DataBase::new(),
        Err(crate::db::SnapshotError::Corrupt) => return Err(crate::db::SnapshotError::Corrupt),
    };
    crash_recovery(&mut db, wal);
    Ok(db)
}

/// Within a transaction, a read sees the transaction's own writes: after
/// `Insert k v` a `Get k` observes `Some(v)`, after `Remove k` it observes
/// `None`, and while no operation has written `k` it observes the store's
/// committed value.
pub proof fn lemma_read_your_writes(
    committed: Option<Seq<char>>,
    ops: Seq<(Command, Seq<char>, Seq<char>)>,
    k: Seq<char>,
    v: Seq<char>,
    w: Seq<char>,
)
    ensures
        observed(committed, write_set_of(ops.push((Command::Insert, k, v))), k) == Some(v),
        observed(committed, write_set_of(ops.push((Command::Remove, k, w))), k) == None::<
            Seq<char>,
        >,
        (forall|i: int| 0 <= i < ops.len() ==> (#[trigger] ops[i]).0 == Command::Get || ops[i].1 != k)
            ==> observed(committed, write_set_of(ops), k) == committed,
    decreases ops.len(),
{
    assert(ops.push((Command::Insert, k, v)).drop_last() =~= ops);
    assert(ops.push((Command::Remove, k, w)).drop_last() =~= ops);
    if ops.len() > 0 {
        lemma_read_your_writes(committed, ops.drop_last(), k, v, w);
        if forall|i: int| 0 <= i < ops.len() ==> (#[trigger] ops[i]).0 == Command::Get || ops[i].1 != k {
            assert forall|i: int| 0 <= i < ops.drop_last().len() implies (
            #[trigger] ops.drop_last()[i]).0 == Command::Get || ops.drop_last()[i].1 != k by {
                assert(ops.drop_last()[i] == ops[i]);
            }
            assert(ops.last() == ops[ops.len() - 1]);
        }
    }
}

/// An aborted transaction leaves no trace: nothing is appended to the
/// write-ahead log for it, and replaying it changes nothing.
pub proof fn lemma_abort_leaves_no_trace(
    m: Map<Seq<char>, Seq<char>>,
    ts: Seq<LogView>,
    t: LogView,
)
    requires
        t.status == TransactionStatus::Abort,
    ensures
        log_bytes(t) is None,
        replay(m, ts.push(t)) == replay(m, ts),
{
    assert(ts.push(t).drop_last() =~= ts);
}

/// A crash while a commit appends its frame leaves the write-ahead log
/// with any prefix of that frame; recovery then reaches the state before
/// the commit, or, when the whole frame was written, the state after it,
/// never a mixture.
pub proof fn lemma_commit_atomic(
    m: Map<Seq<char>, Seq<char>>,
    ts: Seq<LogView>,
    t: LogView,
    k: int,
)
    requires
        forall|i: int| 0 <= i < ts.len() ==> loggable(#[trigger] ts[i]),
        loggable(t),
        t.status == TransactionStatus::Commit,
        0 <= k <= frame_of(log_payload(t)).len(),
    ensures
        replay(m, scan_log(wal_of(ts), 0)) == replay(m, ts),
        replay(m, scan_log(wal_of(ts) + frame_of(log_payload(t)).take(k), 0)) == if k
            == frame_of(log_payload(t)).len() {
            apply_write_set(replay(m, ts), pairs_to_map(t.writes))
        } else {
            replay(m, ts)
        },
{
    lemma_wal_round_trip(ts);
    lemma_wal_torn_tail(ts, t, k);
    assert(ts.push(t).drop_last() =~= ts);
}

/// The write-sets of the committed logs merged in order, later entries
/// replacing earlier ones.
pub open spec fn merged_writes(ts: Seq<LogView>) -> Map<Seq<char>, Option<Seq<char>>>
    decreases ts.len(),
{
    if ts.len() == 0 {
        Map::empty()
    } else {
        let prev = merged_writes(ts.drop_last());
        if ts.last().status == TransactionStatus::Commit {
            prev.union_prefer_right(pairs_to_map(ts.last().writes))
        } else {
            prev
        }
    }
}

proof fn lemma_apply_twice(
    m: Map<Seq<char>, Seq<char>>,
    w1: Map<Seq<char>, Option<Seq<char>>>,
    w2: Map<Seq<char>, Option<Seq<char>>>,
)
    ensures
        apply_write_set(apply_write_set(m, w1), w2) == apply_write_set(m, w1.union_prefer_right(w2)),
{
    assert(apply_write_set(apply_write_set(m, w1), w2) =~= apply_write_set(
        m,
        w1.union_prefer_right(w2),
    ));
}

proof fn lemma_replay_merged(m: Map<Seq<char>, Seq<char>>, ts: Seq<LogView>)
    ensures
        replay(m, ts) == apply_write_set(m, merged_writes(ts)),
    decreases ts.len(),
{
    if ts.len() == 0 {
        assert(apply_write_set(m, Map::empty()) =~= m);
    } else {
        lemma_replay_merged(m, ts.drop_last());
        if ts.last().status == TransactionStatus::Commit {
            lemma_apply_twice(m, merged_writes(ts.drop_last()), pairs_to_map(ts.last().writes));
        }
    }
}

/// Replaying the same logs a second time changes nothing.
pub proof fn lemma_replay_idempotent(m: Map<Seq<char>, Seq<char>>, ts: Seq<LogView>)
    ensures
        replay(replay(m, ts), ts) == replay(m, ts),
{
    lemma_replay_merged(m, ts);
    lemma_replay_merged(replay(m, ts), ts);
    let c = merged_writes(ts);
    lemma_apply_twice(m, c, c);
    assert(c.union_prefer_right(c) =~= c);
}

/// A checkpoint after recovery changes nothing: when recovery reached the
/// map of `ps` and the checkpoint wrote the snapshot of `ps`, recovering
/// again reaches the same map, whether the write-ahead log was deleted or a
/// crash kept it.
pub proof fn lemma_checkpoint_idempotent(
    snapshot: Option<Seq<u8>>,
    wal: Seq<u8>,
    ps: Seq<(Seq<char>, Seq<char>)>,
)
    requires
        recovered(snapshot, wal) == Some(pairs_to_map(ps)),
        sorted_keys(keys_of(ps)),
        ps.len() <= u64::MAX,
        snapshot_payload(ps).len() <= u64::MAX,
    ensures
        recovered(Some(snapshot_file(ps)), Seq::empty()) == Some(pairs_to_map(ps)),
        recovered(Some(snapshot_file(ps)), wal) == Some(pairs_to_map(ps)),
{
    lemma_snapshot_round_trip(ps);
    let base = match snapshot {
        None => Map::empty(),
        Some(f) => pairs_to_map(parse_snapshot_file(f)->0),
    };
    lemma_replay_idempotent(base, scan_log(wal, 0));
}

} // verus!
