//! The committed store and write-sets.

use crate::codec::{
    enc_seq, enc_str, holds_at, lemma_enc_seq_item_len, lemma_holds_at_split,
    lemma_parse_seq_none, lemma_seq_round_trip, lemma_str_round_trip, lemma_u64_round_trip,
    parse_seq, parse_str, parse_u64, push_str, push_u64, read_str, read_u64, reads_back,
};
use crate::frame::{decode_frame, encode_frame, frame_of, lemma_frame_round_trip, read_frame};
use crate::keys::{
    entries_are_sorted, entries_sorted, entries_view, find_key, keys_of,
    lemma_pairs_map, pairs_to_map, put_entry, remove_entry, sorted_keys, str_keys,
};
use vstd::bytes::spec_u64_to_le_bytes;
use vstd::prelude::*;
use vstd::utf8::encode_utf8;

verus! {

/// The store after a write-set is applied to it: keys the write-set maps to
/// `Some(v)` hold `v`, keys it maps to `None` are gone, and the others keep
/// what they held.
pub open spec fn apply_write_set(
    m: Map<Seq<char>, Seq<char>>,
    ws: Map<Seq<char>, Option<Seq<char>>>,
) -> Map<Seq<char>, Seq<char>> {
    Map::new(
        |k: Seq<char>|
            if ws.contains_key(k) {
                ws[k] is Some
            } else {
                m.contains_key(k)
            },
        |k: Seq<char>|
            if ws.contains_key(k) {
                ws[k]->0
            } else {
                m[k]
            },
    )
}

/// What a reader sees for `k`: the write-set's entry when it has one (a
/// `None` entry hides the key), else the store's value, else nothing.
pub open spec fn read_through(
    m: Map<Seq<char>, Seq<char>>,
    ws: Map<Seq<char>, Option<Seq<char>>>,
    k: Seq<char>,
) -> Option<Seq<char>> {
    if ws.contains_key(k) {
        ws[k]
    } else if m.contains_key(k) {
        Some(m[k])
    } else {
        None
    }
}

/// Pending changes: each key maps to `Some(value)` (insert or overwrite) or
/// to `None` (delete).
#[derive(Debug, PartialEq)]
pub struct WriteSet {
    entries: Vec<(String, Option<String>)>,
}

impl View for WriteSet {
    type V = Map<Seq<char>, Option<Seq<char>>>;

    open spec fn view(&self) -> Map<Seq<char>, Option<Seq<char>>> {
        pairs_to_map(self.pairs())
    }
}

impl WriteSet {
    /// The entries in key order.
    pub closed spec fn pairs(&self) -> Seq<(Seq<char>, Option<Seq<char>>)> {
        entries_view(self.entries@)
    }

    /// The entries are in strictly increasing key order.
    pub closed spec fn wf(&self) -> bool {
        entries_sorted(self.entries@)
    }

    /// A write-set is well formed exactly when it lists its keys in
    /// strictly increasing order.
    pub proof fn lemma_wf(&self)
        ensures
            self.wf() <==> sorted_keys(keys_of(self.pairs())),
    {
        assert(keys_of(self.pairs()) =~= str_keys(self.entries@));
    }

    /// An empty write-set.
    pub fn new() -> (r: WriteSet)
        ensures
            r.wf(),
            r.pairs() == Seq::<(Seq<char>, Option<Seq<char>>)>::empty(),
            r@ == Map::<Seq<char>, Option<Seq<char>>>::empty(),
    {
        let r = WriteSet { entries: Vec::new() };
        proof {
            assert(r.pairs() =~= Seq::<(Seq<char>, Option<Seq<char>>)>::empty());
            assert(r@ =~= Map::<Seq<char>, Option<Seq<char>>>::empty());
        }
        r
    }

    /// Builds a write-set from entries listed in strictly increasing key
    /// order.
    pub(crate) fn from_sorted(entries: Vec<(String, Option<String>)>) -> (r: WriteSet)
        requires
            entries_sorted(entries@),
        ensures
            r.wf(),
            r.pairs() == entries_view(entries@),
    {
        WriteSet { entries }
    }

    /// The entries in key order.
    pub(crate) fn entries(&self) -> (r: &Vec<(String, Option<String>)>)
        ensures
            entries_view(r@) == self.pairs(),
            self.wf() ==> entries_sorted(r@),
    {
        &self.entries
    }

    /// A copy of this write-set.
    pub fn duplicate(&self) -> (r: WriteSet)
        requires
            self.wf(),
        ensures
            r.wf(),
            r.pairs() == self.pairs(),
    {
        let mut out: Vec<(String, Option<String>)> = Vec::new();
        let mut i: usize = 0;
        while i < self.entries.len()
            invariant
                i <= self.entries@.len(),
                entries_view(out@) == entries_view(self.entries@).take(i as int),
                str_keys(out@) == str_keys(self.entries@).take(i as int),
            decreases self.entries@.len() - i,
        {
            let ghost before = out@;
            let v = match &self.entries[i].1 {
                Some(x) => Some(x.clone()),
                None => None,
            };
            let k = self.entries[i].0.clone();
            proof {
                assert(v.deep_view() == self.entries@[i as int].1.deep_view());
                assert(k@ == self.entries@[i as int].0@);
            }
            let e = (k, v);
            let ghost ge = e;
            out.push(e);
            proof {
                assert(out@ == before.push(ge));
                assert(entries_view(before).len() == i);
                assert(entries_view(out@) =~= entries_view(self.entries@).take(i + 1));
                assert(str_keys(out@) =~= str_keys(self.entries@).take(i + 1));
            }
            i = i + 1;
        }
        proof {
            assert(entries_view(self.entries@).take(i as int) =~= entries_view(self.entries@));
            assert(str_keys(self.entries@).take(i as int) =~= str_keys(self.entries@));
        }
        WriteSet { entries: out }
    }

    /// Records that `key` is set to `value` (`None`: deleted).
    pub fn set(&mut self, key: String, value: Option<String>)
        requires
            old(self).wf(),
        ensures
            final(self).wf(),
            final(self)@ == old(self)@.insert(key@, value.deep_view()),
    {
        put_entry(&mut self.entries, key, value);
    }

    /// The entry for `key`, if the write-set has one.
    pub fn get(&self, key: &str) -> (r: Option<Option<String>>)
        requires
            self.wf(),
        ensures
            match r {
                Some(v) => self@.contains_key(key@) && self@[key@] == v.deep_view(),
                None => !self@.contains_key(key@),
            },
    {
        proof {
            self.lemma_wf();
            lemma_pairs_map(self.pairs());
        }
        match find_key(&self.entries, key) {
            Ok(i) => {
                proof {
                    assert(self.pairs()[i as int].0 == key@);
                }
                Some(self.entries[i].1.clone())
            },
            Err(i) => {
                proof {
                    if self@.contains_key(key@) {
                        let j = choose|j: int|
                            0 <= j < self.pairs().len() && self.pairs()[j].0 == key@;
                        assert(self.entries@[j].0@ == key@);
                        crate::keys::lemma_key_lt_irreflexive(key@);
                    }
                }
                None
            },
        }
    }
}

/// The store: the committed map from keys to values, and the changes
/// buffered by `insert` and `remove` that `apply_commit` folds into it.
#[derive(Debug, PartialEq)]
pub struct DataBase {
    values: Vec<(String, String)>,
    write_set: WriteSet,
}

impl View for DataBase {
    type V = Map<Seq<char>, Seq<char>>;

    /// The committed map.
    open spec fn view(&self) -> Map<Seq<char>, Seq<char>> {
        pairs_to_map(self.pairs())
    }
}

proof fn lemma_apply_insert(
    m: Map<Seq<char>, Seq<char>>,
    ws: Map<Seq<char>, Option<Seq<char>>>,
    k: Seq<char>,
    v: Option<Seq<char>>,
)
    ensures
        apply_write_set(m, ws.insert(k, v)) == match v {
            Some(x) => apply_write_set(m, ws).insert(k, x),
            None => apply_write_set(m, ws).remove(k),
        },
{
    match v {
        Some(x) => {
            assert(apply_write_set(m, ws.insert(k, v)) =~= apply_write_set(m, ws).insert(k, x));
        },
        None => {
            assert(apply_write_set(m, ws.insert(k, v)) =~= apply_write_set(m, ws).remove(k));
        },
    }
}

proof fn lemma_pairs_prefix_push<X>(s: Seq<(Seq<char>, X)>, i: int)
    requires
        sorted_keys(keys_of(s)),
        0 <= i < s.len(),
    ensures
        pairs_to_map(s.take(i + 1)) == pairs_to_map(s.take(i)).insert(s[i].0, s[i].1),
        !pairs_to_map(s.take(i)).contains_key(s[i].0),
{
    let a = s.take(i);
    let b = s.take(i + 1);
    assert(sorted_keys(keys_of(a))) by {
        assert forall|x: int, y: int| 0 <= x < y < keys_of(a).len() implies crate::keys::key_lt(
            #[trigger] keys_of(a)[x],
            #[trigger] keys_of(a)[y],
        ) by {
            assert(crate::keys::key_lt(keys_of(s)[x], keys_of(s)[y]));
        }
    }
    assert(sorted_keys(keys_of(b))) by {
        assert forall|x: int, y: int| 0 <= x < y < keys_of(b).len() implies crate::keys::key_lt(
            #[trigger] keys_of(b)[x],
            #[trigger] keys_of(b)[y],
        ) by {
            assert(crate::keys::key_lt(keys_of(s)[x], keys_of(s)[y]));
        }
    }
    lemma_pairs_map(a);
    lemma_pairs_map(b);
    if pairs_to_map(a).contains_key(s[i].0) {
        let j = choose|j: int| 0 <= j < a.len() && a[j].0 == s[i].0;
        assert(crate::keys::key_lt(keys_of(s)[j], keys_of(s)[i]));
        crate::keys::lemma_key_lt_irreflexive(s[i].0);
    }
    assert forall|k: Seq<char>| #[trigger]
        pairs_to_map(b).contains_key(k) == pairs_to_map(a).insert(s[i].0, s[i].1).contains_key(
            k,
        ) by {
        if pairs_to_map(a).contains_key(k) {
            let j = choose|j: int| 0 <= j < a.len() && a[j].0 == k;
            assert(b[j].0 == k);
        }
        if pairs_to_map(b).contains_key(k) && k != s[i].0 {
            let j = choose|j: int| 0 <= j < b.len() && b[j].0 == k;
            assert(a[j].0 == k);
        }
        if k == s[i].0 {
            assert(b[i].0 == k);
        }
    }
    assert forall|k: Seq<char>| #[trigger] pairs_to_map(b).contains_key(k) implies pairs_to_map(
        b,
    )[k] == pairs_to_map(a).insert(s[i].0, s[i].1)[k] by {
        let j = choose|j: int| 0 <= j < b.len() && b[j].0 == k;
        assert(pairs_to_map(b)[b[j].0] == b[j].1);
        if j < i {
            assert(pairs_to_map(a)[a[j].0] == a[j].1);
        }
    }
    assert(pairs_to_map(b) =~= pairs_to_map(a).insert(s[i].0, s[i].1));
}

impl DataBase {
    /// The committed entries in key order.
    pub closed spec fn pairs(&self) -> Seq<(Seq<char>, Seq<char>)> {
        entries_view(self.values@)
    }

    /// The changes buffered by `insert` and `remove`.
    pub closed spec fn pending(&self) -> Map<Seq<char>, Option<Seq<char>>> {
        self.write_set@
    }

    /// The committed entries are in strictly increasing key order and the
    /// buffered changes are a well-formed write-set.
    pub closed spec fn wf(&self) -> bool {
        entries_sorted(self.values@) && self.write_set.wf()
    }

    /// A well-formed store lists its committed keys in strictly
    /// increasing order.
    pub proof fn lemma_wf(&self)
        requires
            self.wf(),
        ensures
            sorted_keys(keys_of(self.pairs())),
    {
        assert(keys_of(self.pairs()) =~= str_keys(self.values@));
    }

    /// An empty store with nothing buffered.
    pub fn new() -> (r: DataBase)
        ensures
            r.wf(),
            r@ == Map::<Seq<char>, Seq<char>>::empty(),
            r.pending() == Map::<Seq<char>, Option<Seq<char>>>::empty(),
    {
        let r = DataBase { values: Vec::new(), write_set: WriteSet::new() };
        proof {
            assert(r@ =~= Map::<Seq<char>, Seq<char>>::empty());
        }
        r
    }

    /// Builds a store from committed entries listed in strictly increasing
    /// key order.
    pub(crate) fn from_sorted(values: Vec<(String, String)>) -> (r: DataBase)
        requires
            entries_sorted(values@),
        ensures
            r.wf(),
            r.pairs() == entries_view(values@),
            r.pending() == Map::<Seq<char>, Option<Seq<char>>>::empty(),
    {
        DataBase { values, write_set: WriteSet::new() }
    }

    /// The committed entries in key order.
    pub(crate) fn entries(&self) -> (r: &Vec<(String, String)>)
        ensures
            entries_view(r@) == self.pairs(),
            self.wf() ==> entries_sorted(r@),
    {
        &self.values
    }

    /// The committed value of `key`.
    pub fn committed_get(&self, key: &str) -> (r: Option<String>)
        requires
            self.wf(),
        ensures
            r.deep_view() == (if self@.contains_key(key@) {
                Some(self@[key@])
            } else {
                None
            }),
    {
        proof {
            self.lemma_wf();
            lemma_pairs_map(self.pairs());
        }
        match find_key(&self.values, key) {
            Ok(i) => {
                proof {
                    assert(self.pairs()[i as int].0 == key@);
                }
                Some(self.values[i].1.clone())
            },
            Err(i) => {
                proof {
                    if self@.contains_key(key@) {
                        let j = choose|j: int|
                            0 <= j < self.pairs().len() && self.pairs()[j].0 == key@;
                        assert(self.values@[j].0@ == key@);
                        crate::keys::lemma_key_lt_irreflexive(key@);
                    }
                }
                None
            },
        }
    }

    /// The value a reader sees for `key`: a buffered change when there is
    /// one, else the committed value.
    pub fn get(&self, key: &str) -> (r: Option<String>)
        requires
            self.wf(),
        ensures
            r.deep_view() == read_through(self@, self.pending(), key@),
    {
        match self.write_set.get(key) {
            Some(v) => v,
            None => self.committed_get(key),
        }
    }

    /// Buffers setting `key` to `value`.
    pub fn insert(&mut self, key: &str, value: &str)
        requires
            old(self).wf(),
        ensures
            final(self).wf(),
            final(self)@ == old(self)@,
            final(self).pending() == old(self).pending().insert(key@, Some(value@)),
    {
        self.write_set.set(key.to_owned(), Some(value.to_owned()));
    }

    /// Buffers deleting `key`.
    pub fn remove(&mut self, key: &str)
        requires
            old(self).wf(),
        ensures
            final(self).wf(),
            final(self)@ == old(self)@,
            final(self).pending() == old(self).pending().insert(key@, None),
    {
        self.write_set.set(key.to_owned(), None);
    }

    /// Applies a write-set to the committed map.
    pub fn apply_write_set(&mut self, ws: &WriteSet)
        requires
            old(self).wf(),
            ws.wf(),
        ensures
            final(self).wf(),
            final(self)@ == apply_write_set(old(self)@, ws@),
            final(self).pending() == old(self).pending(),
    {
        let entries = ws.entries();
        let ghost m0 = self@;
        let ghost ps = ws.pairs();
        proof {
            ws.lemma_wf();
            assert(ps.take(0) =~= Seq::<(Seq<char>, Option<Seq<char>>)>::empty());
            assert(pairs_to_map(ps.take(0)) =~= Map::<Seq<char>, Option<Seq<char>>>::empty());
            assert(apply_write_set(m0, pairs_to_map(ps.take(0))) =~= m0);
        }
        let mut i: usize = 0;
        while i < entries.len()
            invariant
                i <= entries@.len(),
                entries_view(entries@) == ps,
                sorted_keys(keys_of(ps)),
                self.wf(),
                self@ == apply_write_set(m0, pairs_to_map(ps.take(i as int))),
                self.pending() == old(self).pending(),
            decreases entries@.len() - i,
        {
            let (k, v) = &entries[i];
            proof {
                lemma_pairs_prefix_push(ps, i as int);
                lemma_apply_insert(m0, pairs_to_map(ps.take(i as int)), k@, v.deep_view());
                assert(ps[i as int] == (k@, v.deep_view()));
            }
            match v {
                Some(x) => {
                    put_entry(&mut self.values, k.clone(), x.clone());
                },
                None => {
                    remove_entry(&mut self.values, k.as_str());
                },
            }
            i = i + 1;
        }
        proof {
            assert(ps.take(ps.len() as int) =~= ps);
        }
    }

    /// Folds the buffered changes into the committed map and clears them.
    pub fn apply_commit(&mut self)
        requires
            old(self).wf(),
        ensures
            final(self).wf(),
            final(self)@ == apply_write_set(old(self)@, old(self).pending()),
            final(self).pending() == Map::<Seq<char>, Option<Seq<char>>>::empty(),
    {
        let mut ws = WriteSet::new();
        std::mem::swap(&mut ws, &mut self.write_set);
        self.apply_write_set(&ws);
    }

    /// Drops the buffered changes.
    pub fn apply_abort(&mut self)
        requires
            old(self).wf(),
        ensures
            final(self).wf(),
            final(self)@ == old(self)@,
            final(self).pending() == Map::<Seq<char>, Option<Seq<char>>>::empty(),
    {
        self.write_set = WriteSet::new();
    }
}

/// One committed entry: its key, then its value.
pub open spec fn enc_entry(e: (Seq<char>, Seq<char>)) -> Seq<u8> {
    enc_str(e.0) + enc_str(e.1)
}

/// An entry read at `off`.
pub open spec fn parse_entry(b: Seq<u8>, off: int) -> Option<((Seq<char>, Seq<char>), int)> {
    match parse_str(b, off) {
        Some((k, o)) => match parse_str(b, o) {
            Some((v, o2)) => Some(((k, v), o2)),
            None => None,
        },
        None => None,
    }
}

pub open spec fn entry_encoder() -> spec_fn((Seq<char>, Seq<char>)) -> Seq<u8> {
    |e: (Seq<char>, Seq<char>)| enc_entry(e)
}

pub open spec fn entry_parser() -> spec_fn(Seq<u8>, int) -> Option<((Seq<char>, Seq<char>), int)> {
    |b: Seq<u8>, off: int| parse_entry(b, off)
}

/// An entry whose key and value have lengths that a u64 can hold.
pub open spec fn entry_fits(e: (Seq<char>, Seq<char>)) -> bool {
    encode_utf8(e.0).len() <= u64::MAX && encode_utf8(e.1).len() <= u64::MAX
}

pub open spec fn entry_ok() -> spec_fn((Seq<char>, Seq<char>)) -> bool {
    |e: (Seq<char>, Seq<char>)| entry_fits(e)
}

/// The snapshot payload: the number of entries, then the entries in key
/// order.
pub open spec fn snapshot_payload(ps: Seq<(Seq<char>, Seq<char>)>) -> Seq<u8> {
    spec_u64_to_le_bytes(ps.len() as u64) + enc_seq(ps, entry_encoder())
}

/// The snapshot file: the payload in one frame.
pub open spec fn snapshot_file(ps: Seq<(Seq<char>, Seq<char>)>) -> Seq<u8> {
    frame_of(snapshot_payload(ps))
}

/// The entries a snapshot payload holds: a count, that many entries with
/// strictly increasing keys, and nothing after them.
pub open spec fn parse_snapshot(payload: Seq<u8>) -> Option<Seq<(Seq<char>, Seq<char>)>> {
    match parse_u64(payload, 0) {
        Some((n, o)) => match parse_seq(payload, o, n as nat, entry_parser()) {
            Some((ps, end)) => if end == payload.len() && sorted_keys(keys_of(ps)) {
                Some(ps)
            } else {
                None
            },
            None => None,
        },
        None => None,
    }
}

/// The entries a snapshot file holds: the file must be exactly one frame,
/// whose payload is read as a snapshot payload.
pub open spec fn parse_snapshot_file(file: Seq<u8>) -> Option<Seq<(Seq<char>, Seq<char>)>> {
    match decode_frame(file, 0) {
        Ok((payload, end)) => if end == file.len() {
            parse_snapshot(payload)
        } else {
            None
        },
        Err(_) => None,
    }
}

proof fn lemma_entry_reads_back()
    ensures
        reads_back(entry_encoder(), entry_parser(), entry_ok()),
{
    assert forall|b: Seq<u8>, off: int, x: (Seq<char>, Seq<char>)|
        entry_fits(x) && #[trigger] holds_at(b, off, entry_encoder()(x)) implies #[trigger] entry_parser()(
        b,
        off,
    ) == Some((x, off + entry_encoder()(x).len())) by {
        lemma_holds_at_split(b, off, enc_str(x.0), enc_str(x.1));
        lemma_str_round_trip(b, off, x.0);
        lemma_str_round_trip(b, off + enc_str(x.0).len(), x.1);
    }
}

/// Loading a snapshot gives back the entries it was taken of: for entries
/// with strictly increasing keys whose payload fits the frame's length
/// field, reading the snapshot file yields exactly those entries.
pub proof fn lemma_snapshot_round_trip(ps: Seq<(Seq<char>, Seq<char>)>)
    requires
        sorted_keys(keys_of(ps)),
        ps.len() <= u64::MAX,
        snapshot_payload(ps).len() <= u64::MAX,
    ensures
        parse_snapshot_file(snapshot_file(ps)) == Some(ps),
{
    let payload = snapshot_payload(ps);
    let empty = Seq::<u8>::empty();
    lemma_frame_round_trip(empty, payload, empty);
    assert(empty + frame_of(payload) + empty =~= frame_of(payload));
    let cnt = spec_u64_to_le_bytes(ps.len() as u64);
    let body = enc_seq(ps, entry_encoder());
    assert(holds_at(payload, 0, cnt + body)) by {
        assert(payload.subrange(0, payload.len() as int) =~= payload);
    }
    lemma_holds_at_split(payload, 0, cnt, body);
    lemma_u64_round_trip(payload, 0, ps.len() as u64);
    assert forall|i: int| 0 <= i < ps.len() implies #[trigger] entry_ok()(ps[i]) by {
        lemma_enc_seq_item_len(ps, entry_encoder(), i);
    }
    lemma_entry_reads_back();
    lemma_seq_round_trip(
        payload,
        8,
        ps,
        entry_encoder(),
        entry_parser(),
        entry_ok(),
    );
}

proof fn lemma_pairs_drop_first<X>(s: Seq<(Seq<char>, X)>)
    requires
        sorted_keys(keys_of(s)),
        s.len() > 0,
    ensures
        sorted_keys(keys_of(s.drop_first())),
        pairs_to_map(s.drop_first()) == pairs_to_map(s).remove(s[0].0),
{
    let t = s.drop_first();
    assert(sorted_keys(keys_of(t))) by {
        assert forall|x: int, y: int| 0 <= x < y < keys_of(t).len() implies crate::keys::key_lt(
            #[trigger] keys_of(t)[x],
            #[trigger] keys_of(t)[y],
        ) by {
            assert(crate::keys::key_lt(keys_of(s)[x + 1], keys_of(s)[y + 1]));
        }
    }
    lemma_pairs_map(s);
    lemma_pairs_map(t);
    assert forall|k: Seq<char>| #[trigger]
        pairs_to_map(t).contains_key(k) == pairs_to_map(s).remove(s[0].0).contains_key(k) by {
        if pairs_to_map(t).contains_key(k) {
            let j = choose|j: int| 0 <= j < t.len() && t[j].0 == k;
            assert(s[j + 1].0 == k);
            assert(crate::keys::key_lt(keys_of(s)[0], keys_of(s)[j + 1]));
            crate::keys::lemma_key_lt_asymmetric(s[0].0, k);
        }
        if pairs_to_map(s).contains_key(k) && k != s[0].0 {
            let j = choose|j: int| 0 <= j < s.len() && s[j].0 == k;
            assert(t[j - 1].0 == k);
        }
    }
    assert forall|k: Seq<char>| #[trigger] pairs_to_map(t).contains_key(k) implies pairs_to_map(
        t,
    )[k] == pairs_to_map(s).remove(s[0].0)[k] by {
        let j = choose|j: int| 0 <= j < t.len() && t[j].0 == k;
        assert(pairs_to_map(t)[t[j].0] == t[j].1);
        assert(pairs_to_map(s)[s[j + 1].0] == s[j + 1].1);
    }
    assert(pairs_to_map(t) =~= pairs_to_map(s).remove(s[0].0));
}

/// A committed map has one list of entries in key order: two stores with
/// the same committed map list the same entries, and so write the same
/// snapshot bytes.
pub proof fn lemma_snapshot_deterministic(
    a: Seq<(Seq<char>, Seq<char>)>,
    b: Seq<(Seq<char>, Seq<char>)>,
)
    requires
        sorted_keys(keys_of(a)),
        sorted_keys(keys_of(b)),
        pairs_to_map(a) == pairs_to_map(b),
    ensures
        a == b,
        snapshot_file(a) == snapshot_file(b),
    decreases a.len(),
{
    lemma_pairs_map(a);
    lemma_pairs_map(b);
    if a.len() == 0 {
        if b.len() > 0 {
            assert(pairs_to_map(b).contains_key(b[0].0));
        }
        assert(a =~= b);
    } else if b.len() == 0 {
        assert(pairs_to_map(a).contains_key(a[0].0));
    } else {
        assert(pairs_to_map(b).contains_key(a[0].0));
        assert(pairs_to_map(a).contains_key(b[0].0));
        let j = choose|j: int| 0 <= j < b.len() && b[j].0 == a[0].0;
        let i = choose|i: int| 0 <= i < a.len() && a[i].0 == b[0].0;
        if j > 0 && i > 0 {
            assert(crate::keys::key_lt(keys_of(b)[0], keys_of(b)[j]));
            assert(crate::keys::key_lt(keys_of(a)[0], keys_of(a)[i]));
            crate::keys::lemma_key_lt_asymmetric(b[0].0, a[0].0);
        }
        assert(a[0].0 == b[0].0);
        assert(pairs_to_map(a)[a[0].0] == a[0].1);
        assert(pairs_to_map(b)[b[0].0] == b[0].1);
        lemma_pairs_drop_first(a);
        lemma_pairs_drop_first(b);
        lemma_snapshot_deterministic(a.drop_first(), b.drop_first());
        assert(a =~= seq![a[0]] + a.drop_first());
        assert(b =~= seq![b[0]] + b.drop_first());
    }
}

/// Why no store could be loaded from a snapshot.
#[derive(Clone, Copy, Debug, PartialEq, Eq, Structural)]
pub enum SnapshotError {
    /// There is no snapshot file.
    NotFound,
    /// The snapshot file does not hold a well-formed snapshot.
    Corrupt,
}

fn read_entries(b: &[u8], off: usize, n: u64) -> (r: Option<(Vec<(String, String)>, usize)>)
    requires
        off <= b@.len(),
    ensures
        match r {
            Some((v, o)) => parse_seq(b@, off as int, n as nat, entry_parser()) == Some(
                (entries_view(v@), o as int),
            ),
            None => parse_seq(b@, off as int, n as nat, entry_parser()) is None,
        },
{
    let mut out: Vec<(String, String)> = Vec::new();
    let mut pos = off;
    let mut i: u64 = 0;
    proof {
        assert(entries_view(out@) =~= Seq::<(Seq<char>, Seq<char>)>::empty());
    }
    while i < n
        invariant
            i <= n,
            pos <= b@.len(),
            parse_seq(b@, off as int, i as nat, entry_parser()) == Some(
                (entries_view(out@), pos as int),
            ),
        decreases n - i,
    {
        let k = match read_str(b, pos) {
            Some(x) => x,
            None => {
                proof {
                    lemma_parse_seq_none(b@, off as int, (i + 1) as nat, n as nat, entry_parser());
                }
                return None;
            },
        };
        let v = match read_str(b, k.1) {
            Some(x) => x,
            None => {
                proof {
                    lemma_parse_seq_none(b@, off as int, (i + 1) as nat, n as nat, entry_parser());
                }
                return None;
            },
        };
        let ghost before = out@;
        out.push((k.0, v.0));
        pos = v.1;
        i = i + 1;
        proof {
            assert(entries_view(out@) =~= entries_view(before).push((k.0@, v.0@)));
        }
    }
    Some((out, pos))
}

/// Loads a store from the contents of the snapshot file, `None` when there
/// is no such file.
pub fn deserialize_snapshot(file: Option<&[u8]>) -> (r: Result<DataBase, SnapshotError>)
    ensures
        match file {
            None => r == Err::<DataBase, SnapshotError>(SnapshotError::NotFound),
            Some(b) => match parse_snapshot_file(b@) {
                Some(ps) => r matches Ok(db) && db.wf() && db.pairs() == ps && db.pending()
                    == Map::<Seq<char>, Option<Seq<char>>>::empty(),
                None => r == Err::<DataBase, SnapshotError>(SnapshotError::Corrupt),
            },
        },
{
    let b = match file {
        Some(b) => b,
        None => return Err(SnapshotError::NotFound),
    };
    let payload = match read_frame(b, 0) {
        Ok((p, end)) => {
            if end != b.len() {
                return Err(SnapshotError::Corrupt);
            }
            p
        },
        Err(_) => return Err(SnapshotError::Corrupt),
    };
    let (n, o) = match read_u64(payload.as_slice(), 0) {
        Some(x) => x,
        None => return Err(SnapshotError::Corrupt),
    };
    let (entries, end) = match read_entries(payload.as_slice(), o, n) {
        Some(x) => x,
        None => return Err(SnapshotError::Corrupt),
    };
    if end != payload.len() {
        return Err(SnapshotError::Corrupt);
    }
    if !entries_are_sorted(&entries) {
        proof {
            assert(keys_of(entries_view(entries@)) =~= str_keys(entries@));
        }
        return Err(SnapshotError::Corrupt);
    }
    proof {
        assert(keys_of(entries_view(entries@)) =~= str_keys(entries@));
    }
    Ok(DataBase::from_sorted(entries))
}

impl DataBase {
    /// The snapshot file of the committed map: its entries in key order,
    /// framed.
    pub fn snapshot(&self) -> (r: Vec<u8>)
        requires
            self.wf(),
        ensures
            r@ == snapshot_file(self.pairs()),
            self.pairs().len() <= u64::MAX,
            snapshot_payload(self.pairs()).len() <= u64::MAX,
    {
        let entries = self.entries();
        let ghost ps = self.pairs();
        let mut payload: Vec<u8> = Vec::new();
        push_u64(&mut payload, entries.len() as u64);
        let mut i: usize = 0;
        proof {
            assert(ps.take(0) =~= Seq::<(Seq<char>, Seq<char>)>::empty());
        }
        while i < entries.len()
            invariant
                i <= entries@.len(),
                entries_view(entries@) == ps,
                payload@ == spec_u64_to_le_bytes(ps.len() as u64) + enc_seq(
                    ps.take(i as int),
                    entry_encoder(),
                ),
            decreases entries@.len() - i,
        {
            let ghost before = payload@;
            push_str(&mut payload, entries[i].0.as_str());
            push_str(&mut payload, entries[i].1.as_str());
            proof {
                let t = ps.take(i + 1);
                assert(t.drop_last() =~= ps.take(i as int));
                assert(t.last() == ps[i as int]);
                assert(payload@ =~= before + enc_entry(ps[i as int]));
            }
            i = i + 1;
        }
        let plen = payload.len();
        proof {
            assert(ps.take(ps.len() as int) =~= ps);
            assert(plen <= u64::MAX);
        }
        encode_frame(payload.as_slice())
    }
}

} // verus!
