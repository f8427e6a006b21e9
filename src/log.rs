//! Transaction logs: the records written to the write-ahead log, their
//! payload format, and the scan that reads them back.
//!
//! A log payload is the status byte (0 commit, 1 abort), the number of
//! operation records and the records, then the number of write-set entries
//! and the entries in key order. A record is its command byte (0 insert,
//! 1 remove, 2 get) and its key and value as byte strings; a write-set entry
//! is its key, then 0 for a deletion or 1 followed by the value.

use crate::codec::{
    enc_bytes, enc_seq, enc_str, holds_at, lemma_bytes_round_trip, lemma_enc_seq_item_len,
    lemma_holds_at_split, lemma_parse_seq_none, lemma_seq_round_trip, lemma_str_round_trip,
    lemma_u64_round_trip, parse_bytes, parse_seq, parse_str, parse_u64, parse_u8, push_bytes,
    push_str, push_u64, read_bytes, read_str, read_u64, read_u8, reads_back, string_from_utf8,
};
use crate::db::WriteSet;
use crate::frame::{
    decode_frame, encode_frame, frame_of, lemma_frame_round_trip, read_frame, FrameError,
};
use crate::keys::{entries_are_sorted, entries_view, keys_of, sorted_keys, str_keys};
use crate::transaction::{Command, OperationRecord, Transaction, TransactionStatus};
use vstd::bytes::{spec_u64_from_le_bytes, spec_u64_to_le_bytes};
use vstd::prelude::*;
use vstd::utf8::{decode_utf8, encode_utf8, encode_utf8_valid_utf8, valid_utf8};

verus! {

/// An operation as it is logged: its command and the UTF-8 bytes of its
/// key and value.
#[derive(Clone, Debug, PartialEq)]
pub struct LogRecord {
    command: Command,
    key: Vec<u8>,
    value: Vec<u8>,
}

impl View for LogRecord {
    type V = (Command, Seq<u8>, Seq<u8>);

    closed spec fn view(&self) -> (Command, Seq<u8>, Seq<u8>) {
        (self.command, self.key@, self.value@)
    }
}

/// A logged record whose key and value are valid UTF-8.
pub open spec fn record_wf(r: (Command, Seq<u8>, Seq<u8>)) -> bool {
    valid_utf8(r.1) && valid_utf8(r.2)
}

impl OperationRecord {
    /// The record that logs this operation.
    pub fn to_serializable(self) -> (r: LogRecord)
        ensures
            r@ == (self.command, encode_utf8(self.key@), encode_utf8(self.value@)),
            record_wf(r@),
    {
        proof {
            encode_utf8_valid_utf8(self.key@);
            encode_utf8_valid_utf8(self.value@);
        }
        let key = vstd::slice::slice_to_vec(self.key.as_str().as_bytes());
        let value = vstd::slice::slice_to_vec(self.value.as_str().as_bytes());
        LogRecord { command: self.command, key, value }
    }
}

impl LogRecord {
    /// The operation this record logs.
    pub fn to_operations(self) -> (r: OperationRecord)
        requires
            record_wf(self@),
        ensures
            r@ == (self@.0, decode_utf8(self@.1), decode_utf8(self@.2)),
    {
        let command = self.command;
        let key = string_from_utf8(self.key).unwrap();
        let value = string_from_utf8(self.value).unwrap();
        OperationRecord { command, key, value }
    }
}

/// What a transaction log holds.
pub struct LogView {
    pub status: TransactionStatus,
    pub records: Seq<(Command, Seq<u8>, Seq<u8>)>,
    pub writes: Seq<(Seq<char>, Option<Seq<char>>)>,
}

/// A transaction as it is logged: its status, its operation records, and
/// its write-set.
#[derive(Debug, PartialEq)]
pub struct TransactionLog {
    pub status: TransactionStatus,
    pub operations: Vec<LogRecord>,
    pub write_set: WriteSet,
}

impl View for TransactionLog {
    type V = LogView;

    open spec fn view(&self) -> LogView {
        LogView {
            status: self.status,
            records: self.operations@.map_values(|r: LogRecord| r@),
            writes: self.write_set.pairs(),
        }
    }
}

/// A log whose records are valid UTF-8 and whose write-set lists its keys
/// in strictly increasing order.
pub open spec fn log_wf(t: LogView) -> bool {
    &&& forall|i: int| 0 <= i < t.records.len() ==> record_wf(#[trigger] t.records[i])
    &&& sorted_keys(keys_of(t.writes))
}

pub open spec fn status_tag(s: TransactionStatus) -> u8 {
    match s {
        TransactionStatus::Commit => 0,
        TransactionStatus::Abort => 1,
    }
}

pub open spec fn status_of_tag(t: u8) -> Option<TransactionStatus> {
    if t == 0 {
        Some(TransactionStatus::Commit)
    } else if t == 1 {
        Some(TransactionStatus::Abort)
    } else {
        None
    }
}

pub open spec fn command_tag(c: Command) -> u8 {
    match c {
        Command::Insert => 0,
        Command::Remove => 1,
        Command::Get => 2,
    }
}

pub open spec fn command_of_tag(t: u8) -> Option<Command> {
    if t == 0 {
        Some(Command::Insert)
    } else if t == 1 {
        Some(Command::Remove)
    } else if t == 2 {
        Some(Command::Get)
    } else {
        None
    }
}

/// A logged record.
pub open spec fn enc_record(r: (Command, Seq<u8>, Seq<u8>)) -> Seq<u8> {
    seq![command_tag(r.0)] + enc_bytes(r.1) + enc_bytes(r.2)
}

/// A record read at `off`; its key and value must be valid UTF-8.
pub open spec fn parse_record(b: Seq<u8>, off: int) -> Option<((Command, Seq<u8>, Seq<u8>), int)> {
    match parse_u8(b, off) {
        Some((t, o1)) => match command_of_tag(t) {
            Some(c) => match parse_bytes(b, o1) {
                Some((k, o2)) => match parse_bytes(b, o2) {
                    Some((v, o3)) => if valid_utf8(k) && valid_utf8(v) {
                        Some(((c, k, v), o3))
                    } else {
                        None
                    },
                    None => None,
                },
                None => None,
            },
            None => None,
        },
        None => None,
    }
}

/// A logged write-set entry.
pub open spec fn enc_write(w: (Seq<char>, Option<Seq<char>>)) -> Seq<u8> {
    enc_str(w.0) + match w.1 {
        None => seq![0u8],
        Some(v) => seq![1u8] + enc_str(v),
    }
}

/// A write-set entry read at `off`.
pub open spec fn parse_write(b: Seq<u8>, off: int) -> Option<((Seq<char>, Option<Seq<char>>), int)> {
    match parse_str(b, off) {
        Some((k, o1)) => match parse_u8(b, o1) {
            Some((t, o2)) => if t == 0 {
                Some(((k, None), o2))
            } else if t == 1 {
                match parse_str(b, o2) {
                    Some((v, o3)) => Some(((k, Some(v)), o3)),
                    None => None,
                }
            } else {
                None
            },
            None => None,
        },
        None => None,
    }
}

pub open spec fn record_encoder() -> spec_fn((Command, Seq<u8>, Seq<u8>)) -> Seq<u8> {
    |r: (Command, Seq<u8>, Seq<u8>)| enc_record(r)
}

pub open spec fn record_parser() -> spec_fn(Seq<u8>, int) -> Option<
    ((Command, Seq<u8>, Seq<u8>), int),
> {
    |b: Seq<u8>, off: int| parse_record(b, off)
}

pub open spec fn record_ok() -> spec_fn((Command, Seq<u8>, Seq<u8>)) -> bool {
    |r: (Command, Seq<u8>, Seq<u8>)| record_wf(r) && r.1.len() <= u64::MAX && r.2.len() <= u64::MAX
}

pub open spec fn write_encoder() -> spec_fn((Seq<char>, Option<Seq<char>>)) -> Seq<u8> {
    |w: (Seq<char>, Option<Seq<char>>)| enc_write(w)
}

pub open spec fn write_parser() -> spec_fn(Seq<u8>, int) -> Option<
    ((Seq<char>, Option<Seq<char>>), int),
> {
    |b: Seq<u8>, off: int| parse_write(b, off)
}

pub open spec fn write_ok() -> spec_fn((Seq<char>, Option<Seq<char>>)) -> bool {
    |w: (Seq<char>, Option<Seq<char>>)|
        encode_utf8(w.0).len() <= u64::MAX && match w.1 {
            Some(v) => encode_utf8(v).len() <= u64::MAX,
            None => true,
        }
}

/// The payload that logs `t`.
pub open spec fn log_payload(t: LogView) -> Seq<u8> {
    seq![status_tag(t.status)] + spec_u64_to_le_bytes(t.records.len() as u64) + enc_seq(
        t.records,
        record_encoder(),
    ) + spec_u64_to_le_bytes(t.writes.len() as u64) + enc_seq(t.writes, write_encoder())
}

/// The log a payload holds: a status, the counted records, the counted
/// write-set entries in strictly increasing key order, and nothing after.
pub open spec fn parse_log(p: Seq<u8>) -> Option<LogView> {
    match parse_u8(p, 0) {
        Some((t, o1)) => match status_of_tag(t) {
            Some(status) => match parse_u64(p, o1) {
                Some((n, o2)) => match parse_seq(p, o2, n as nat, record_parser()) {
                    Some((records, o3)) => match parse_u64(p, o3) {
                        Some((m, o4)) => match parse_seq(p, o4, m as nat, write_parser()) {
                            Some((writes, o5)) => if o5 == p.len() && sorted_keys(keys_of(writes)) {
                                Some(LogView { status, records, writes })
                            } else {
                                None
                            },
                            None => None,
                        },
                        None => None,
                    },
                    None => None,
                },
                None => None,
            },
            None => None,
        },
        None => None,
    }
}

/// The bytes appended to the write-ahead log for `t`: a frame of its
/// payload when it is committed, nothing otherwise.
pub open spec fn log_bytes(t: LogView) -> Option<Seq<u8>> {
    if t.status == TransactionStatus::Commit {
        Some(frame_of(log_payload(t)))
    } else {
        None
    }
}

proof fn lemma_record_reads_back()
    ensures
        reads_back(record_encoder(), record_parser(), record_ok()),
{
    assert forall|b: Seq<u8>, off: int, x: (Command, Seq<u8>, Seq<u8>)|
        record_ok()(x) && #[trigger] holds_at(b, off, record_encoder()(x)) implies #[trigger] record_parser()(
        b,
        off,
    ) == Some((x, off + record_encoder()(x).len())) by {
        let tag = seq![command_tag(x.0)];
        lemma_holds_at_split(b, off, tag + enc_bytes(x.1), enc_bytes(x.2));
        lemma_holds_at_split(b, off, tag, enc_bytes(x.1));
        assert(b[off] == tag[0]) by {
            assert(b.subrange(off, off + 1)[0] == b[off]);
        }
        lemma_bytes_round_trip(b, off + 1, x.1);
        lemma_bytes_round_trip(b, off + 1 + enc_bytes(x.1).len(), x.2);
    }
}

proof fn lemma_write_reads_back()
    ensures
        reads_back(write_encoder(), write_parser(), write_ok()),
{
    assert forall|b: Seq<u8>, off: int, x: (Seq<char>, Option<Seq<char>>)|
        write_ok()(x) && #[trigger] holds_at(b, off, write_encoder()(x)) implies #[trigger] write_parser()(
        b,
        off,
    ) == Some((x, off + write_encoder()(x).len())) by {
        let rest = match x.1 {
            None => seq![0u8],
            Some(v) => seq![1u8] + enc_str(v),
        };
        lemma_holds_at_split(b, off, enc_str(x.0), rest);
        lemma_str_round_trip(b, off, x.0);
        let o1 = off + enc_str(x.0).len();
        match x.1 {
            None => {
                assert(b[o1] == 0u8) by {
                    assert(b.subrange(o1, o1 + 1)[0] == b[o1]);
                }
            },
            Some(v) => {
                lemma_holds_at_split(b, o1, seq![1u8], enc_str(v));
                assert(b[o1] == 1u8) by {
                    assert(b.subrange(o1, o1 + 1)[0] == b[o1]);
                }
                lemma_str_round_trip(b, o1 + 1, v);
            },
        }
    }
}

/// Reading a log payload gives back the log it was written from, for a
/// well-formed log whose payload fits a frame's length field.
pub proof fn lemma_log_payload_round_trip(t: LogView)
    requires
        log_wf(t),
        log_payload(t).len() <= u64::MAX,
    ensures
        parse_log(log_payload(t)) == Some(t),
{
    let p = log_payload(t);
    let tag = seq![status_tag(t.status)];
    let c1 = spec_u64_to_le_bytes(t.records.len() as u64);
    let e1 = enc_seq(t.records, record_encoder());
    let c2 = spec_u64_to_le_bytes(t.writes.len() as u64);
    let e2 = enc_seq(t.writes, write_encoder());
    assert(holds_at(p, 0, p)) by {
        assert(p.subrange(0, p.len() as int) =~= p);
    }
    assert(p == tag + c1 + e1 + c2 + e2);
    lemma_holds_at_split(p, 0, tag + c1 + e1 + c2, e2);
    lemma_holds_at_split(p, 0, tag + c1 + e1, c2);
    lemma_holds_at_split(p, 0, tag + c1, e1);
    lemma_holds_at_split(p, 0, tag, c1);
    assert(p[0] == status_tag(t.status));
    lemma_u64_round_trip(p, 1int, t.records.len() as u64);
    assert forall|i: int| 0 <= i < t.records.len() implies #[trigger] record_ok()(t.records[i]) by {
        lemma_enc_seq_item_len(t.records, record_encoder(), i);
    }
    assert forall|i: int| 0 <= i < t.writes.len() implies #[trigger] write_ok()(t.writes[i]) by {
        lemma_enc_seq_item_len(t.writes, write_encoder(), i);
    }
    lemma_record_reads_back();
    lemma_write_reads_back();
    assert(t.records.len() <= u64::MAX) by {
        if t.records.len() > 0 {
            lemma_enc_seq_len_at_least(t.records, record_encoder());
        }
    }
    assert(t.writes.len() <= u64::MAX) by {
        if t.writes.len() > 0 {
            lemma_enc_seq_len_at_least(t.writes, write_encoder());
        }
    }
    lemma_seq_round_trip(p, 9int, t.records, record_encoder(), record_parser(), record_ok());
    let o3: int = 9int + e1.len();
    lemma_u64_round_trip(p, o3, t.writes.len() as u64);
    lemma_seq_round_trip(p, o3 + 8, t.writes, write_encoder(), write_parser(), write_ok());
}

/// Every item is encoded in at least one byte.
proof fn lemma_enc_seq_len_at_least<T>(s: Seq<T>, f: spec_fn(T) -> Seq<u8>)
    requires
        forall|x: T| #[trigger] f(x).len() >= 1,
    ensures
        enc_seq(s, f).len() >= s.len(),
    decreases s.len(),
{
    if s.len() > 0 {
        lemma_enc_seq_len_at_least(s.drop_last(), f);
        assert(f(s.last()).len() >= 1);
    }
}

/// The logged form of an operation.
pub open spec fn logged(o: (Command, Seq<char>, Seq<char>)) -> (Command, Seq<u8>, Seq<u8>) {
    (o.0, encode_utf8(o.1), encode_utf8(o.2))
}

/// The operation a logged record stands for.
pub open spec fn unlogged(r: (Command, Seq<u8>, Seq<u8>)) -> (Command, Seq<char>, Seq<char>) {
    (r.0, decode_utf8(r.1), decode_utf8(r.2))
}

impl Transaction {
    /// The log of this transaction: its status, its operations as records,
    /// and a copy of its write-set.
    pub fn to_serializable(&mut self) -> (r: TransactionLog)
        requires
            old(self).write_set.wf(),
        ensures
            *final(self) == *old(self),
            r@.status == old(self).status,
            r@.records == old(self).ops().map_values(|o: (Command, Seq<char>, Seq<char>)| logged(o)),
            r@.writes == old(self).write_set.pairs(),
            r.write_set.wf(),
            log_wf(r@),
    {
        let mut operations: Vec<LogRecord> = Vec::new();
        let mut i: usize = 0;
        while i < self.operations.len()
            invariant
                i <= self.operations@.len(),
                operations@.map_values(|r: LogRecord| r@) == self.ops().take(i as int).map_values(
                    |o: (Command, Seq<char>, Seq<char>)| logged(o),
                ),
                forall|j: int| 0 <= j < operations@.len() ==> record_wf(#[trigger] operations@[j]@),
            decreases self.operations@.len() - i,
        {
            let ghost before = operations@;
            let rec = self.operations[i].duplicate().to_serializable();
            proof {
                assert(rec@ == logged(self.ops()[i as int]));
            }
            let ghost grec = rec;
            operations.push(rec);
            proof {
                assert(before.map_values(|r: LogRecord| r@).len() == i);
                assert(operations@ == before.push(grec));
                assert(operations@[i as int]@ == logged(self.ops()[i as int]));
                assert forall|j: int| 0 <= j < i implies #[trigger] operations@[j]@ == logged(
                    self.ops()[j],
                ) by {
                    assert(before.map_values(|r: LogRecord| r@)[j] == self.ops().take(
                        i as int,
                    ).map_values(|o: (Command, Seq<char>, Seq<char>)| logged(o))[j]);
                }
                assert(operations@.map_values(|r: LogRecord| r@) =~= self.ops().take(
                    i + 1,
                ).map_values(|o: (Command, Seq<char>, Seq<char>)| logged(o)));
            }
            i = i + 1;
        }
        proof {
            assert(self.ops().take(i as int) =~= self.ops());
        }
        let write_set = self.write_set.duplicate();
        proof {
            self.write_set.lemma_wf();
        }
        TransactionLog { status: self.status, operations, write_set }
    }
}

fn push_record(out: &mut Vec<u8>, r: &LogRecord)
    ensures
        final(out)@ == old(out)@ + enc_record(r@),
{
    let tag: u8 = match r.command {
        Command::Insert => 0,
        Command::Remove => 1,
        Command::Get => 2,
    };
    out.push(tag);
    push_bytes(out, r.key.as_slice());
    push_bytes(out, r.value.as_slice());
    proof {
        assert(final(out)@ =~= old(out)@ + enc_record(r@));
    }
}

fn push_write(out: &mut Vec<u8>, k: &String, v: &Option<String>)
    ensures
        final(out)@ == old(out)@ + enc_write((k@, v.deep_view())),
{
    push_str(out, k.as_str());
    match v {
        None => {
            out.push(0u8);
        },
        Some(x) => {
            out.push(1u8);
            push_str(out, x.as_str());
        },
    }
    proof {
        assert(final(out)@ =~= old(out)@ + enc_write((k@, v.deep_view())));
    }
}

impl TransactionLog {
    /// The payload that logs this transaction.
    fn payload(&self) -> (r: Vec<u8>)
        ensures
            r@ == log_payload(self@),
    {
        let mut out: Vec<u8> = Vec::new();
        let tag: u8 = match self.status {
            TransactionStatus::Commit => 0,
            TransactionStatus::Abort => 1,
        };
        out.push(tag);
        push_u64(&mut out, self.operations.len() as u64);
        let ghost recs = self@.records;
        let ghost head = out@;
        let mut i: usize = 0;
        proof {
            assert(recs.take(0) =~= Seq::<(Command, Seq<u8>, Seq<u8>)>::empty());
            assert(out@ =~= head + enc_seq(recs.take(0), record_encoder()));
        }
        while i < self.operations.len()
            invariant
                i <= self.operations@.len(),
                recs == self@.records,
                out@ == head + enc_seq(recs.take(i as int), record_encoder()),
            decreases self.operations@.len() - i,
        {
            push_record(&mut out, &self.operations[i]);
            proof {
                assert(recs.take(i + 1).drop_last() =~= recs.take(i as int));
                assert(recs[i as int] == self.operations@[i as int]@);
                assert(out@ =~= head + enc_seq(recs.take(i + 1), record_encoder()));
            }
            i = i + 1;
        }
        proof {
            assert(recs.take(i as int) =~= recs);
        }
        let entries = self.write_set.entries();
        push_u64(&mut out, entries.len() as u64);
        let ghost ws = self@.writes;
        let ghost mid = out@;
        let mut j: usize = 0;
        proof {
            assert(ws.take(0) =~= Seq::<(Seq<char>, Option<Seq<char>>)>::empty());
            assert(out@ =~= mid + enc_seq(ws.take(0), write_encoder()));
        }
        while j < entries.len()
            invariant
                j <= entries@.len(),
                entries_view(entries@) == ws,
                out@ == mid + enc_seq(ws.take(j as int), write_encoder()),
            decreases entries@.len() - j,
        {
            push_write(&mut out, &entries[j].0, &entries[j].1);
            proof {
                assert(ws.take(j + 1).drop_last() =~= ws.take(j as int));
                assert(out@ =~= mid + enc_seq(ws.take(j + 1), write_encoder()));
            }
            j = j + 1;
        }
        proof {
            assert(ws.take(j as int) =~= ws);
            assert(out@ =~= log_payload(self@));
        }
        out
    }

    /// The bytes to append to the write-ahead log for this transaction: a
    /// frame of its payload when it is committed, `None` otherwise.
    pub fn to_bytes(&self) -> (r: Option<Vec<u8>>)
        ensures
            match r {
                Some(v) => log_bytes(self@) == Some(v@) && log_payload(self@).len() <= u64::MAX,
                None => log_bytes(self@) is None,
            },
    {
        if self.status == TransactionStatus::Commit {
            let payload = self.payload();
            let plen = payload.len();
            proof {
                assert(plen <= u64::MAX);
            }
            Some(encode_frame(payload.as_slice()))
        } else {
            None
        }
    }

    /// The transaction this log records.
    pub fn to_operations_record(self) -> (r: Transaction)
        requires
            log_wf(self@),
        ensures
            r.status == self@.status,
            r.ops() == self@.records.map_values(|x: (Command, Seq<u8>, Seq<u8>)| unlogged(x)),
            r.write_set.wf(),
            r.write_set.pairs() == self@.writes,
    {
        let ghost recs = self@.records;
        let TransactionLog { status, operations, write_set } = self;
        let mut ops: Vec<OperationRecord> = Vec::new();
        let mut rest = operations;
        let ghost all = rest@;
        let mut i: usize = 0;
        let n = rest.len();
        proof {
            assert(all.map_values(|r: LogRecord| r@) == recs);
        }
        while i < n
            invariant
                n == all.len(),
                i <= n,
                rest@ == all.subrange(i as int, n as int),
                all.map_values(|r: LogRecord| r@) == recs,
                forall|j: int| 0 <= j < recs.len() ==> record_wf(#[trigger] recs[j]),
                ops@.map_values(|o: OperationRecord| o@) == recs.take(i as int).map_values(
                    |x: (Command, Seq<u8>, Seq<u8>)| unlogged(x),
                ),
            decreases n - i,
        {
            let rec = rest.remove(0);
            proof {
                assert(rec == all[i as int]);
                assert(recs[i as int] == rec@);
                assert(rest@ =~= all.subrange(i + 1, n as int));
            }
            let op = rec.to_operations();
            proof {
                assert(op@ == unlogged(recs[i as int]));
            }
            let ghost before = ops@;
            let ghost gop = op;
            ops.push(op);
            proof {
                assert(before.map_values(|o: OperationRecord| o@).len() == i);
                assert(ops@ == before.push(gop));
                assert(ops@[i as int]@ == unlogged(recs[i as int]));
                assert forall|j: int| 0 <= j < i implies #[trigger] ops@[j]@ == unlogged(recs[j]) by {
                    assert(before.map_values(|o: OperationRecord| o@)[j] == recs.take(
                        i as int,
                    ).map_values(|x: (Command, Seq<u8>, Seq<u8>)| unlogged(x))[j]);
                }
                assert(ops@.map_values(|o: OperationRecord| o@) =~= recs.take(i + 1).map_values(
                    |x: (Command, Seq<u8>, Seq<u8>)| unlogged(x),
                ));
            }
            i = i + 1;
        }
        proof {
            assert(recs.take(i as int) =~= recs);
        }
        let r = Transaction { status, operations: ops, write_set };
        proof {
            assert(r.ops() =~= recs.map_values(|x: (Command, Seq<u8>, Seq<u8>)| unlogged(x)));
            write_set.lemma_wf();
        }
        r
    }
}

fn copy_is_utf8(b: &Vec<u8>) -> (r: bool)
    ensures
        r == valid_utf8(b@),
{
    string_from_utf8(vstd::slice::slice_to_vec(b.as_slice())).is_some()
}

fn read_record(b: &[u8], off: usize) -> (r: Option<(LogRecord, usize)>)
    ensures
        match r {
            Some((x, o)) => parse_record(b@, off as int) == Some((x@, o as int)) && o <= b@.len(),
            None => parse_record(b@, off as int) is None,
        },
{
    let (t, o1) = match read_u8(b, off) {
        Some(x) => x,
        None => return None,
    };
    let command = if t == 0 {
        Command::Insert
    } else if t == 1 {
        Command::Remove
    } else if t == 2 {
        Command::Get
    } else {
        return None;
    };
    let (key, o2) = match read_bytes(b, o1) {
        Some(x) => x,
        None => return None,
    };
    let (value, o3) = match read_bytes(b, o2) {
        Some(x) => x,
        None => return None,
    };
    if !copy_is_utf8(&key) || !copy_is_utf8(&value) {
        return None;
    }
    Some((LogRecord { command, key, value }, o3))
}

fn read_write(b: &[u8], off: usize) -> (r: Option<((String, Option<String>), usize)>)
    ensures
        match r {
            Some((x, o)) => parse_write(b@, off as int) == Some(((x.0@, x.1.deep_view()), o as int))
                && o <= b@.len(),
            None => parse_write(b@, off as int) is None,
        },
{
    let (k, o1) = match read_str(b, off) {
        Some(x) => x,
        None => return None,
    };
    let (t, o2) = match read_u8(b, o1) {
        Some(x) => x,
        None => return None,
    };
    if t == 0 {
        Some(((k, None), o2))
    } else if t == 1 {
        match read_str(b, o2) {
            Some((v, o3)) => Some(((k, Some(v)), o3)),
            None => None,
        }
    } else {
        None
    }
}

fn read_records(b: &[u8], off: usize, n: u64) -> (r: Option<(Vec<LogRecord>, usize)>)
    requires
        off <= b@.len(),
    ensures
        match r {
            Some((v, o)) => parse_seq(b@, off as int, n as nat, record_parser()) == Some(
                (v@.map_values(|x: LogRecord| x@), o as int),
            ) && o <= b@.len(),
            None => parse_seq(b@, off as int, n as nat, record_parser()) is None,
        },
{
    let mut out: Vec<LogRecord> = Vec::new();
    let mut pos = off;
    let mut i: u64 = 0;
    proof {
        assert(out@.map_values(|x: LogRecord| x@) =~= Seq::<(Command, Seq<u8>, Seq<u8>)>::empty());
    }
    while i < n
        invariant
            i <= n,
            pos <= b@.len(),
            parse_seq(b@, off as int, i as nat, record_parser()) == Some(
                (out@.map_values(|x: LogRecord| x@), pos as int),
            ),
        decreases n - i,
    {
        match read_record(b, pos) {
            Some((x, o)) => {
                let ghost before = out@;
                let ghost gx = x;
                out.push(x);
                proof {
                    assert(out@ == before.push(gx));
                    assert(out@.map_values(|x: LogRecord| x@) =~= before.map_values(
                        |x: LogRecord| x@,
                    ).push(gx@));
                }
                pos = o;
            },
            None => {
                proof {
                    lemma_parse_seq_none(b@, off as int, (i + 1) as nat, n as nat, record_parser());
                }
                return None;
            },
        }
        i = i + 1;
    }
    Some((out, pos))
}

fn read_writes(b: &[u8], off: usize, n: u64) -> (r: Option<(Vec<(String, Option<String>)>, usize)>)
    requires
        off <= b@.len(),
    ensures
        match r {
            Some((v, o)) => parse_seq(b@, off as int, n as nat, write_parser()) == Some(
                (entries_view(v@), o as int),
            ) && o <= b@.len(),
            None => parse_seq(b@, off as int, n as nat, write_parser()) is None,
        },
{
    let mut out: Vec<(String, Option<String>)> = Vec::new();
    let mut pos = off;
    let mut i: u64 = 0;
    proof {
        assert(entries_view(out@) =~= Seq::<(Seq<char>, Option<Seq<char>>)>::empty());
    }
    while i < n
        invariant
            i <= n,
            pos <= b@.len(),
            parse_seq(b@, off as int, i as nat, write_parser()) == Some(
                (entries_view(out@), pos as int),
            ),
        decreases n - i,
    {
        match read_write(b, pos) {
            Some((x, o)) => {
                let ghost before = out@;
                let ghost gx = x;
                out.push(x);
                proof {
                    assert(out@ == before.push(gx));
                    assert(entries_view(out@) =~= entries_view(before).push(
                        (gx.0@, gx.1.deep_view()),
                    ));
                }
                pos = o;
            },
            None => {
                proof {
                    lemma_parse_seq_none(b@, off as int, (i + 1) as nat, n as nat, write_parser());
                }
                return None;
            },
        }
        i = i + 1;
    }
    Some((out, pos))
}

/// Reads a log payload.
fn decode_payload(p: &[u8]) -> (r: Option<TransactionLog>)
    ensures
        match r {
            Some(t) => parse_log(p@) == Some(t@) && t.write_set.wf(),
            None => parse_log(p@) is None,
        },
{
    let (t, o1) = match read_u8(p, 0) {
        Some(x) => x,
        None => return None,
    };
    let status = if t == 0 {
        TransactionStatus::Commit
    } else if t == 1 {
        TransactionStatus::Abort
    } else {
        return None;
    };
    let (n, o2) = match read_u64(p, o1) {
        Some(x) => x,
        None => return None,
    };
    let (operations, o3) = match read_records(p, o2, n) {
        Some(x) => x,
        None => return None,
    };
    let (m, o4) = match read_u64(p, o3) {
        Some(x) => x,
        None => return None,
    };
    let (writes, o5) = match read_writes(p, o4, m) {
        Some(x) => x,
        None => return None,
    };
    proof {
        assert(keys_of(entries_view(writes@)) =~= str_keys(writes@));
    }
    if o5 != p.len() || !entries_are_sorted(&writes) {
        return None;
    }
    let write_set = WriteSet::from_sorted(writes);
    let r = TransactionLog { status, operations, write_set };
    proof {
        assert(r@ == LogView {
            status,
            records: operations@.map_values(|x: LogRecord| x@),
            writes: entries_view(writes@),
        });
    }
    Some(r)
}

/// Why no transaction log could be read at an offset.
#[derive(Clone, Copy, Debug, PartialEq, Eq, Structural)]
pub enum DeserializeError {
    /// The bytes end before the frame does.
    Eof,
    /// The payload does not match its checksum.
    ChecksumUnmatch,
    /// The payload is not a well-formed transaction log.
    OtherError,
}

/// The outcome of reading the transaction log framed at `off` in `b`: the
/// log and the offset just past its frame, or why there is none.
pub open spec fn decode_log_at(b: Seq<u8>, off: int) -> Result<(LogView, int), DeserializeError> {
    match decode_frame(b, off) {
        Err(FrameError::Eof) => Err(DeserializeError::Eof),
        Err(FrameError::ChecksumMismatch) => Err(DeserializeError::ChecksumUnmatch),
        Ok((p, n)) => match parse_log(p) {
            Some(t) => Ok((t, n)),
            None => Err(DeserializeError::OtherError),
        },
    }
}

/// Reads the transaction log framed at `position` in the write-ahead log
/// `b`.
pub fn deserialize_transaction(b: &[u8], position: u64) -> (r: Result<
    (TransactionLog, u64),
    DeserializeError,
>)
    ensures
        match (r, decode_log_at(b@, position as int)) {
            (Ok((t, n)), Ok((st, sn))) => t@ == st && n == sn && t.write_set.wf() && log_wf(t@),
            (Err(e), Err(se)) => e == se,
            _ => false,
        },
{
    let off: usize = if position > b.len() as u64 {
        b.len()
    } else {
        position as usize
    };
    let frame = if position > b.len() as u64 {
        Err(FrameError::Eof)
    } else {
        read_frame(b, off)
    };
    match frame {
        Err(FrameError::Eof) => Err(DeserializeError::Eof),
        Err(FrameError::ChecksumMismatch) => Err(DeserializeError::ChecksumUnmatch),
        Ok((payload, next)) => match decode_payload(payload.as_slice()) {
            Some(t) => {
                proof {
                    t.write_set.lemma_wf();
                    assert forall|i: int| 0 <= i < t@.records.len() implies record_wf(
                        #[trigger] t@.records[i],
                    ) by {
                        lemma_parsed_records_wf(payload@, t@, i);
                    }
                }
                Ok((t, next as u64))
            },
            None => Err(DeserializeError::OtherError),
        },
    }
}

proof fn lemma_parse_seq_items<T>(
    b: Seq<u8>,
    off: int,
    n: nat,
    p: spec_fn(Seq<u8>, int) -> Option<(T, int)>,
    inv: spec_fn(T) -> bool,
)
    requires
        parse_seq(b, off, n, p) is Some,
        forall|bb: Seq<u8>, o: int| #[trigger] p(bb, o) is Some ==> inv((p(bb, o)->0).0),
    ensures
        forall|i: int|
            0 <= i < (parse_seq(b, off, n, p)->0).0.len() ==> inv(
                #[trigger] (parse_seq(b, off, n, p)->0).0[i],
            ),
        (parse_seq(b, off, n, p)->0).0.len() == n,
    decreases n,
{
    if n > 0 {
        lemma_parse_seq_items(b, off, (n - 1) as nat, p, inv);
    }
}

proof fn lemma_parsed_records_wf(p: Seq<u8>, t: LogView, i: int)
    requires
        parse_log(p) == Some(t),
        0 <= i < t.records.len(),
    ensures
        record_wf(t.records[i]),
{
    let o1 = 1int;
    let n = (parse_u64(p, o1)->0).0;
    let o2 = (parse_u64(p, o1)->0).1;
    assert forall|bb: Seq<u8>, o: int| #[trigger] record_parser()(bb, o) is Some implies (|
        r: (Command, Seq<u8>, Seq<u8>),
    | record_wf(r))((record_parser()(bb, o)->0).0) by {}
    lemma_parse_seq_items(
        p,
        o2,
        n as nat,
        record_parser(),
        |r: (Command, Seq<u8>, Seq<u8>)| record_wf(r),
    );
}

/// The logs that a scan of the write-ahead log `b` from `off` reads: at
/// each offset a framed log is read and the scan goes on past it; where the
/// frame's checksum or payload is bad the scan moves on by one byte; where
/// the bytes end before a frame does, the scan stops.
pub open spec fn scan_log(b: Seq<u8>, off: int) -> Seq<LogView>
    decreases b.len() - off,
{
    if off < 0 || off >= b.len() {
        Seq::empty()
    } else {
        match decode_log_at(b, off) {
            Ok((t, n)) => if off < n {
                seq![t] + scan_log(b, n)
            } else {
                Seq::empty()
            },
            Err(DeserializeError::Eof) => Seq::empty(),
            Err(_) => scan_log(b, off + 1),
        }
    }
}

/// Reads every transaction log in the write-ahead log `b`, resynchronising
/// one byte further on after a bad frame and stopping where the bytes end
/// before a frame does.
pub fn deserialize_transaction_vector(b: &[u8]) -> (r: Vec<TransactionLog>)
    ensures
        r@.map_values(|t: TransactionLog| t@) == scan_log(b@, 0),
        forall|i: int| 0 <= i < r@.len() ==> (#[trigger] r@[i]).write_set.wf() && log_wf(r@[i]@),
{
    let mut out: Vec<TransactionLog> = Vec::new();
    let mut pos: u64 = 0;
    let len = b.len() as u64;
    proof {
        assert(out@.map_values(|t: TransactionLog| t@) =~= Seq::<LogView>::empty());
    }
    while pos < len
        invariant
            len == b@.len(),
            pos <= len,
            scan_log(b@, 0) == out@.map_values(|t: TransactionLog| t@) + scan_log(b@, pos as int),
            forall|i: int|
                0 <= i < out@.len() ==> (#[trigger] out@[i]).write_set.wf() && log_wf(out@[i]@),
        decreases len - pos,
    {
        match deserialize_transaction(b, pos) {
            Ok((t, n)) => {
                proof {
                    match decode_frame(b@, pos as int) {
                        Ok((_, sn)) => {
                            assert(n as int == sn);
                        },
                        Err(_) => {},
                    }
                    assert(n > pos && n <= len);
                }
                let ghost before = out@;
                let ghost gt = t;
                out.push(t);
                proof {
                    assert(out@ == before.push(gt));
                    assert(out@.map_values(|t: TransactionLog| t@) =~= before.map_values(
                        |t: TransactionLog| t@,
                    ).push(gt@));
                    assert(seq![gt@] + scan_log(b@, n as int) == scan_log(b@, pos as int));
                    assert(out@.map_values(|t: TransactionLog| t@) + scan_log(b@, n as int)
                        =~= before.map_values(|t: TransactionLog| t@) + (seq![gt@] + scan_log(
                        b@,
                        n as int,
                    )));
                }
                pos = n;
            },
            Err(DeserializeError::Eof) => {
                proof {
                    assert(out@.map_values(|t: TransactionLog| t@) + Seq::<LogView>::empty()
                        =~= out@.map_values(|t: TransactionLog| t@));
                }
                return out;
            },
            Err(_) => {
                pos = pos + 1;
            },
        }
    }
    proof {
        assert(out@.map_values(|t: TransactionLog| t@) + Seq::<LogView>::empty() =~= out@.map_values(
            |t: TransactionLog| t@,
        ));
    }
    out
}

/// A write-ahead log holding the frames of `ts`, in order.
pub open spec fn wal_of(ts: Seq<LogView>) -> Seq<u8>
    decreases ts.len(),
{
    if ts.len() == 0 {
        Seq::empty()
    } else {
        frame_of(log_payload(ts[0])) + wal_of(ts.drop_first())
    }
}

/// A log the commit path can write and read back: well formed, with a
/// payload that fits a frame's length field.
pub open spec fn loggable(t: LogView) -> bool {
    log_wf(t) && log_payload(t).len() <= u64::MAX
}

proof fn lemma_decode_frame_shift(pre: Seq<u8>, x: Seq<u8>, o: int)
    requires
        0 <= o,
    ensures
        decode_frame(pre + x, pre.len() + o) == match decode_frame(x, o) {
            Ok((p, n)) => Ok((p, pre.len() + n)),
            Err(e) => Err::<(Seq<u8>, int), FrameError>(e),
        },
{
    let b = pre + x;
    let q = pre.len() + o;
    if o + 12 <= x.len() {
        assert(b.subrange(q, q + 8) =~= x.subrange(o, o + 8));
        assert(b.subrange(q + 8, q + 12) =~= x.subrange(o + 8, o + 12));
        let len = spec_u64_from_le_bytes(x.subrange(o, o + 8));
        if o + 12 + len <= x.len() {
            assert(b.subrange(q + 12, q + 12 + len) =~= x.subrange(o + 12, o + 12 + len));
        }
    }
}

proof fn lemma_scan_shift(pre: Seq<u8>, x: Seq<u8>, o: int)
    requires
        0 <= o,
    ensures
        scan_log(pre + x, pre.len() + o) == scan_log(x, o),
    decreases x.len() - o,
{
    if o < x.len() {
        lemma_decode_frame_shift(pre, x, o);
        match decode_log_at(x, o) {
            Ok((t, n)) => {
                if o < n {
                    lemma_scan_shift(pre, x, n);
                }
            },
            Err(DeserializeError::Eof) => {},
            Err(_) => {
                lemma_scan_shift(pre, x, o + 1);
            },
        }
    }
}

proof fn lemma_scan_first_frame(t: LogView, rest: Seq<u8>)
    requires
        loggable(t),
    ensures
        scan_log(frame_of(log_payload(t)) + rest, 0) == seq![t] + scan_log(rest, 0),
{
    let f = frame_of(log_payload(t));
    let empty = Seq::<u8>::empty();
    lemma_frame_round_trip(empty, log_payload(t), rest);
    assert(empty + f + rest =~= f + rest);
    lemma_log_payload_round_trip(t);
    lemma_scan_shift(f, rest, 0);
}

/// Scanning the frames of `ts` followed by any bytes reads `ts`, then what
/// a scan of those bytes alone reads.
#[verifier::rlimit(40)]
pub proof fn lemma_wal_scan(ts: Seq<LogView>, rest: Seq<u8>)
    requires
        forall|i: int| 0 <= i < ts.len() ==> loggable(#[trigger] ts[i]),
    ensures
        scan_log(wal_of(ts) + rest, 0) == ts + scan_log(rest, 0),
    decreases ts.len(),
{
    if ts.len() == 0 {
        assert(wal_of(ts) + rest =~= rest);
        assert(ts + scan_log(rest, 0) =~= scan_log(rest, 0));
    } else {
        let tail = ts.drop_first();
        assert forall|i: int| 0 <= i < tail.len() implies loggable(#[trigger] tail[i]) by {
            assert(tail[i] == ts[i + 1]);
        }
        lemma_wal_scan(tail, rest);
        assert(loggable(ts[0]));
        let f = frame_of(log_payload(ts[0]));
        assert(wal_of(ts) + rest =~= f + (wal_of(tail) + rest));
        lemma_scan_first_frame(ts[0], wal_of(tail) + rest);
        assert(ts =~= seq![ts[0]] + tail);
        assert(ts + scan_log(rest, 0) =~= seq![ts[0]] + (tail + scan_log(rest, 0)));
    }
}

/// Logs appended by the commit path are read back by a scan of the
/// write-ahead log exactly, in order.
pub proof fn lemma_wal_round_trip(ts: Seq<LogView>)
    requires
        forall|i: int| 0 <= i < ts.len() ==> loggable(#[trigger] ts[i]),
    ensures
        scan_log(wal_of(ts), 0) == ts,
{
    lemma_wal_scan(ts, Seq::empty());
    assert(wal_of(ts) + Seq::<u8>::empty() =~= wal_of(ts));
    assert(ts + Seq::<LogView>::empty() =~= ts);
}

/// A write-ahead log that ends in the first `k` bytes of one more frame
/// scans as the logs before it, plus that one when the frame is whole.
pub proof fn lemma_wal_torn_tail(ts: Seq<LogView>, t: LogView, k: int)
    requires
        forall|i: int| 0 <= i < ts.len() ==> loggable(#[trigger] ts[i]),
        loggable(t),
        0 <= k <= frame_of(log_payload(t)).len(),
    ensures
        scan_log(wal_of(ts) + frame_of(log_payload(t)).take(k), 0) == if k == frame_of(
            log_payload(t),
        ).len() {
            ts.push(t)
        } else {
            ts
        },
{
    let f = frame_of(log_payload(t));
    let part = f.take(k);
    lemma_wal_scan(ts, part);
    if k == f.len() {
        assert(part =~= f + Seq::<u8>::empty());
        lemma_scan_first_frame(t, Seq::empty());
        assert(seq![t] + scan_log(Seq::<u8>::empty(), 0) =~= seq![t]);
        assert(ts + seq![t] =~= ts.push(t));
    } else {
        if k >= 12 {
            lemma_frame_round_trip(Seq::empty(), log_payload(t), Seq::empty());
            assert(Seq::<u8>::empty() + f + Seq::<u8>::empty() =~= f);
            assert(part.subrange(0, 8) =~= f.subrange(0, 8));
        }
        assert(scan_log(part, 0) =~= Seq::<LogView>::empty());
        assert(ts + Seq::<LogView>::empty() =~= ts);
    }
}

} // verus!
