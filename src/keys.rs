//! Key order and ordered entry lists.
//!
//! Keys are ordered lexicographically by their UTF-8 bytes. An entry list
//! holds `(key, value)` pairs with strictly increasing keys; its meaning is
//! the map from each key to its value.

use vstd::prelude::*;
use vstd::utf8::{encode_utf8, encode_utf8_decode_utf8};

verus! {

/// Strict lexicographic order on byte sequences.
pub open spec fn bytes_lt(a: Seq<u8>, b: Seq<u8>) -> bool
    decreases a.len(),
{
    if a.len() == 0 {
        b.len() > 0
    } else if b.len() == 0 {
        false
    } else if a[0] != b[0] {
        a[0] < b[0]
    } else {
        bytes_lt(a.drop_first(), b.drop_first())
    }
}

/// Key order: lexicographic order of the keys' UTF-8 bytes.
pub open spec fn key_lt(a: Seq<char>, b: Seq<char>) -> bool {
    bytes_lt(encode_utf8(a), encode_utf8(b))
}

/// Keys that increase strictly from each position to the next.
pub open spec fn sorted_keys(ks: Seq<Seq<char>>) -> bool {
    forall|i: int, j: int| 0 <= i < j < ks.len() ==> key_lt(#[trigger] ks[i], #[trigger] ks[j])
}

/// The keys of a list of pairs, in order.
pub open spec fn keys_of<X>(s: Seq<(Seq<char>, X)>) -> Seq<Seq<char>> {
    Seq::new(s.len(), |i: int| s[i].0)
}

/// The keys of a list of entries, in order.
pub open spec fn str_keys<X>(s: Seq<(String, X)>) -> Seq<Seq<char>> {
    Seq::new(s.len(), |i: int| s[i].0@)
}

/// A position of `k` among the keys of a list of pairs.
pub open spec fn key_index<X>(s: Seq<(Seq<char>, X)>, k: Seq<char>) -> int {
    choose|i: int| 0 <= i < s.len() && s[i].0 == k
}

/// The map from each key of a list of pairs to its value.
pub open spec fn pairs_to_map<X>(s: Seq<(Seq<char>, X)>) -> Map<Seq<char>, X> {
    Map::new(
        |k: Seq<char>| exists|i: int| 0 <= i < s.len() && s[i].0 == k,
        |k: Seq<char>| s[key_index(s, k)].1,
    )
}

proof fn lemma_bytes_lt_irreflexive(a: Seq<u8>)
    ensures
        !bytes_lt(a, a),
    decreases a.len(),
{
    if a.len() > 0 {
        lemma_bytes_lt_irreflexive(a.drop_first());
    }
}

proof fn lemma_bytes_lt_transitive(a: Seq<u8>, b: Seq<u8>, c: Seq<u8>)
    requires
        bytes_lt(a, b),
        bytes_lt(b, c),
    ensures
        bytes_lt(a, c),
    decreases a.len(),
{
    if a.len() > 0 && b.len() > 0 && c.len() > 0 && a[0] == b[0] && b[0] == c[0] {
        lemma_bytes_lt_transitive(a.drop_first(), b.drop_first(), c.drop_first());
    }
}

proof fn lemma_bytes_lt_skip(a: Seq<u8>, b: Seq<u8>, i: int)
    requires
        0 <= i <= a.len(),
        i <= b.len(),
        a.subrange(0, i) == b.subrange(0, i),
    ensures
        bytes_lt(a, b) == bytes_lt(a.subrange(i, a.len() as int), b.subrange(i, b.len() as int)),
    decreases i,
{
    if i == 0 {
        assert(a.subrange(0, a.len() as int) =~= a);
        assert(b.subrange(0, b.len() as int) =~= b);
    } else {
        assert(a[0] == a.subrange(0, i)[0]);
        assert(b[0] == b.subrange(0, i)[0]);
        assert(a.drop_first().subrange(0, i - 1) =~= a.subrange(0, i).drop_first());
        assert(b.drop_first().subrange(0, i - 1) =~= b.subrange(0, i).drop_first());
        lemma_bytes_lt_skip(a.drop_first(), b.drop_first(), i - 1);
        assert(a.drop_first().subrange(i - 1, a.len() - 1) =~= a.subrange(i, a.len() as int));
        assert(b.drop_first().subrange(i - 1, b.len() - 1) =~= b.subrange(i, b.len() as int));
    }
}

/// No key precedes itself.
pub proof fn lemma_key_lt_irreflexive(a: Seq<char>)
    ensures
        !key_lt(a, a),
{
    lemma_bytes_lt_irreflexive(encode_utf8(a));
}

/// Key order is transitive.
pub proof fn lemma_key_lt_transitive(a: Seq<char>, b: Seq<char>, c: Seq<char>)
    requires
        key_lt(a, b),
        key_lt(b, c),
    ensures
        key_lt(a, c),
{
    lemma_bytes_lt_transitive(encode_utf8(a), encode_utf8(b), encode_utf8(c));
}

/// Two keys are never each before the other.
pub proof fn lemma_key_lt_asymmetric(a: Seq<char>, b: Seq<char>)
    requires
        key_lt(a, b),
    ensures
        !key_lt(b, a),
        a != b,
{
    lemma_key_lt_irreflexive(a);
    if key_lt(b, a) {
        lemma_key_lt_transitive(a, b, a);
    }
}

/// In a list of pairs with sorted keys, each pair is what the map holds
/// for its key.
pub proof fn lemma_pairs_entry<X>(s: Seq<(Seq<char>, X)>, i: int)
    requires
        sorted_keys(keys_of(s)),
        0 <= i < s.len(),
    ensures
        pairs_to_map(s).contains_key(s[i].0),
        pairs_to_map(s)[s[i].0] == s[i].1,
{
    let k = s[i].0;
    assert(exists|j: int| 0 <= j < s.len() && s[j].0 == k);
    let j = key_index(s, k);
    if j != i {
        let ks = keys_of(s);
        if j < i {
            assert(key_lt(ks[j], ks[i]));
        } else {
            assert(key_lt(ks[i], ks[j]));
        }
        lemma_key_lt_irreflexive(k);
    }
}

/// How two keys compare.
#[derive(Clone, Copy, Debug, PartialEq, Eq, Structural)]
pub enum KeyOrder {
    Less,
    Equal,
    Greater,
}

/// Compares two keys by their UTF-8 bytes.
pub fn compare_keys(a: &str, b: &str) -> (r: KeyOrder)
    ensures
        match r {
            KeyOrder::Less => key_lt(a@, b@),
            KeyOrder::Equal => a@ == b@,
            KeyOrder::Greater => key_lt(b@, a@),
        },
{
    let x = a.as_bytes();
    let y = b.as_bytes();
    proof {
        assert(x@ == encode_utf8(a@));
        assert(y@ == encode_utf8(b@));
    }
    let mut i: usize = 0;
    while i < x.len() && i < y.len()
        invariant
            i <= x@.len(),
            i <= y@.len(),
            x@.subrange(0, i as int) == y@.subrange(0, i as int),
            x@ == encode_utf8(a@),
            y@ == encode_utf8(b@),
        decreases x@.len() - i,
    {
        if x[i] != y[i] {
            proof {
                lemma_bytes_lt_skip(x@, y@, i as int);
                lemma_bytes_lt_skip(y@, x@, i as int);
                let xs = x@.subrange(i as int, x@.len() as int);
                let ys = y@.subrange(i as int, y@.len() as int);
                assert(xs[0] == x@[i as int]);
                assert(ys[0] == y@[i as int]);
                assert(bytes_lt(xs, ys) == (xs[0] < ys[0]));
                assert(bytes_lt(ys, xs) == (ys[0] < xs[0]));
            }
            if x[i] < y[i] {
                return KeyOrder::Less;
            } else {
                return KeyOrder::Greater;
            }
        }
        proof {
            assert(x@.subrange(0, i + 1) =~= x@.subrange(0, i as int).push(x@[i as int]));
            assert(y@.subrange(0, i + 1) =~= y@.subrange(0, i as int).push(y@[i as int]));
        }
        i = i + 1;
    }
    proof {
        lemma_bytes_lt_skip(x@, y@, i as int);
        lemma_bytes_lt_skip(y@, x@, i as int);
    }
    if x.len() == y.len() {
        proof {
            assert(x@ =~= x@.subrange(0, i as int));
            assert(y@ =~= y@.subrange(0, i as int));
            encode_utf8_decode_utf8(a@);
            encode_utf8_decode_utf8(b@);
        }
        KeyOrder::Equal
    } else if x.len() < y.len() {
        KeyOrder::Less
    } else {
        KeyOrder::Greater
    }
}

/// Where `key` stands in a list of entries with sorted keys: `Ok` with its
/// position when present, else `Err` with the position where it would be
/// inserted.
pub fn find_key<X>(entries: &Vec<(String, X)>, key: &str) -> (r: Result<usize, usize>)
    requires
        sorted_keys(str_keys(entries@)),
    ensures
        match r {
            Ok(i) => i < entries@.len() && entries@[i as int].0@ == key@,
            Err(i) => i <= entries@.len() && (forall|j: int|
                0 <= j < i ==> key_lt(#[trigger] entries@[j].0@, key@)) && (forall|j: int|
                i <= j < entries@.len() ==> key_lt(key@, #[trigger] entries@[j].0@)),
        },
{
    let mut i: usize = 0;
    while i < entries.len()
        invariant
            i <= entries@.len(),
            sorted_keys(str_keys(entries@)),
            forall|j: int| 0 <= j < i ==> key_lt(#[trigger] entries@[j].0@, key@),
        decreases entries@.len() - i,
    {
        match compare_keys(entries[i].0.as_str(), key) {
            KeyOrder::Less => {},
            KeyOrder::Equal => {
                return Ok(i);
            },
            KeyOrder::Greater => {
                proof {
                    let ks = str_keys(entries@);
                    assert forall|j: int| i <= j < entries@.len() implies key_lt(
                        key@,
                        #[trigger] entries@[j].0@,
                    ) by {
                        if j > i {
                            assert(key_lt(ks[i as int], ks[j]));
                            lemma_key_lt_transitive(key@, ks[i as int], ks[j]);
                        }
                    }
                }
                return Err(i);
            },
        }
        i = i + 1;
    }
    Err(i)
}

/// An entry list seen as pairs of key and value views.
pub open spec fn entries_view<X: DeepView>(s: Seq<(String, X)>) -> Seq<(Seq<char>, X::V)> {
    Seq::new(s.len(), |i: int| (s[i].0@, s[i].1.deep_view()))
}

/// The map that an entry list stands for.
pub open spec fn entries_map<X: DeepView>(s: Seq<(String, X)>) -> Map<Seq<char>, X::V> {
    pairs_to_map(entries_view(s))
}

/// An entry list whose keys increase strictly.
pub open spec fn entries_sorted<X>(s: Seq<(String, X)>) -> bool {
    sorted_keys(str_keys(s))
}

/// What the map of a list of pairs with sorted keys holds: exactly the
/// listed keys, each with its listed value.
pub proof fn lemma_pairs_map<X>(s: Seq<(Seq<char>, X)>)
    requires
        sorted_keys(keys_of(s)),
    ensures
        forall|k: Seq<char>|
            #[trigger] pairs_to_map(s).contains_key(k) <==> exists|i: int|
                0 <= i < s.len() && s[i].0 == k,
        forall|i: int|
            0 <= i < s.len() ==> #[trigger] pairs_to_map(s)[s[i].0] == s[i].1,
{
    assert forall|i: int| 0 <= i < s.len() implies #[trigger] pairs_to_map(s)[s[i].0] == s[i].1 by {
        lemma_pairs_entry(s, i);
    }
}

proof fn lemma_entries_keys<X: DeepView>(s: Seq<(String, X)>)
    ensures
        keys_of(entries_view(s)) == str_keys(s),
{
    assert(keys_of(entries_view(s)) =~= str_keys(s));
}

/// Sets `key` to `value` in a sorted entry list, keeping it sorted.
pub fn put_entry<X: DeepView>(entries: &mut Vec<(String, X)>, key: String, value: X)
    requires
        entries_sorted(old(entries)@),
    ensures
        entries_sorted(final(entries)@),
        entries_map(final(entries)@) == entries_map(old(entries)@).insert(key@, value.deep_view()),
        (forall|j: int|
            0 <= j < old(entries)@.len() ==> key_lt(#[trigger] old(entries)@[j].0@, key@))
            ==> final(entries)@ == old(entries)@.push((key, value)),
{
    let ghost old_s = entries@;
    let ghost k = key@;
    let ghost dv = value.deep_view();
    proof {
        lemma_entries_keys(old_s);
        lemma_pairs_map(entries_view(old_s));
    }
    match find_key(entries, key.as_str()) {
        Ok(i) => {
            entries.remove(i);
            entries.insert(i, (key, value));
            proof {
                let new_s = entries@;
                assert(new_s =~= old_s.update(i as int, new_s[i as int]));
                assert(str_keys(new_s) =~= str_keys(old_s));
                lemma_entries_keys(new_s);
                lemma_pairs_map(entries_view(new_s));
                let nv = entries_view(new_s);
                let ov = entries_view(old_s);
                assert forall|k2: Seq<char>| #[trigger]
                    pairs_to_map(nv).contains_key(k2) == pairs_to_map(ov).insert(
                        k,
                        dv,
                    ).contains_key(k2) by {
                    if k2 != k {
                        if pairs_to_map(ov).contains_key(k2) {
                            let j = choose|j: int| 0 <= j < ov.len() && ov[j].0 == k2;
                            assert(nv[j].0 == k2);
                        }
                        if pairs_to_map(nv).contains_key(k2) {
                            let j = choose|j: int| 0 <= j < nv.len() && nv[j].0 == k2;
                            assert(ov[j].0 == k2);
                        }
                    } else {
                        assert(nv[i as int].0 == k);
                    }
                }
                assert forall|k2: Seq<char>| #[trigger]
                    pairs_to_map(nv).contains_key(k2) implies pairs_to_map(nv)[k2]
                    == pairs_to_map(ov).insert(k, dv)[k2] by {
                    let j = choose|j: int| 0 <= j < nv.len() && nv[j].0 == k2;
                    assert(pairs_to_map(nv)[nv[j].0] == nv[j].1);
                    if j != i {
                        let oks = str_keys(old_s);
                        if j < i {
                            assert(key_lt(oks[j], oks[i as int]));
                            lemma_key_lt_asymmetric(oks[j], oks[i as int]);
                        } else {
                            assert(key_lt(oks[i as int], oks[j]));
                            lemma_key_lt_asymmetric(oks[i as int], oks[j]);
                        }
                        assert(pairs_to_map(ov)[ov[j].0] == ov[j].1);
                    }
                }
                assert(pairs_to_map(nv) =~= pairs_to_map(ov).insert(k, dv));
                if forall|j: int| 0 <= j < old_s.len() ==> key_lt(#[trigger] old_s[j].0@, k) {
                    assert(key_lt(old_s[i as int].0@, k));
                    lemma_key_lt_irreflexive(k);
                }
            }
        },
        Err(i) => {
            entries.insert(i, (key, value));
            proof {
                let new_s = entries@;
                assert(new_s =~= old_s.insert(i as int, new_s[i as int]));
                let ks = str_keys(new_s);
                let oks = str_keys(old_s);
                assert forall|a: int, b: int| 0 <= a < b < ks.len() implies key_lt(
                    #[trigger] ks[a],
                    #[trigger] ks[b],
                ) by {
                    if b < i {
                        assert(key_lt(oks[a], oks[b]));
                    } else if b == i {
                        assert(key_lt(old_s[a].0@, k));
                    } else if a == i {
                        assert(key_lt(k, old_s[b - 1].0@));
                    } else if a < i {
                        assert(key_lt(oks[a], oks[b - 1]));
                    } else {
                        assert(key_lt(oks[a - 1], oks[b - 1]));
                    }
                }
                lemma_entries_keys(new_s);
                lemma_pairs_map(entries_view(new_s));
                let nv = entries_view(new_s);
                let ov = entries_view(old_s);
                assert forall|k2: Seq<char>| #[trigger]
                    pairs_to_map(nv).contains_key(k2) == pairs_to_map(ov).insert(
                        k,
                        dv,
                    ).contains_key(k2) by {
                    if k2 != k {
                        if pairs_to_map(ov).contains_key(k2) {
                            let j = choose|j: int| 0 <= j < ov.len() && ov[j].0 == k2;
                            if j < i {
                                assert(nv[j].0 == k2);
                            } else {
                                assert(nv[j + 1].0 == k2);
                            }
                        }
                        if pairs_to_map(nv).contains_key(k2) {
                            let j = choose|j: int| 0 <= j < nv.len() && nv[j].0 == k2;
                            if j < i {
                                assert(ov[j].0 == k2);
                            } else {
                                assert(ov[j - 1].0 == k2);
                            }
                        }
                    } else {
                        assert(nv[i as int].0 == k);
                    }
                }
                assert forall|k2: Seq<char>| #[trigger]
                    pairs_to_map(nv).contains_key(k2) implies pairs_to_map(nv)[k2]
                    == pairs_to_map(ov).insert(k, dv)[k2] by {
                    let j = choose|j: int| 0 <= j < nv.len() && nv[j].0 == k2;
                    assert(pairs_to_map(nv)[nv[j].0] == nv[j].1);
                    if j < i {
                        assert(key_lt(ks[j], ks[i as int]));
                        lemma_key_lt_asymmetric(ks[j], ks[i as int]);
                        assert(pairs_to_map(ov)[ov[j].0] == ov[j].1);
                    } else if j > i {
                        assert(key_lt(ks[i as int], ks[j]));
                        lemma_key_lt_asymmetric(ks[i as int], ks[j]);
                        assert(pairs_to_map(ov)[ov[j - 1].0] == ov[j - 1].1);
                    }
                }
                assert(pairs_to_map(nv) =~= pairs_to_map(ov).insert(k, dv));
                if forall|j: int| 0 <= j < old_s.len() ==> key_lt(#[trigger] old_s[j].0@, k) {
                    if i < old_s.len() {
                        assert(key_lt(old_s[i as int].0@, k));
                        lemma_key_lt_asymmetric(old_s[i as int].0@, k);
                    }
                    assert(new_s =~= old_s.push(new_s[i as int]));
                }
            }
        },
    }
}

/// Removes `key` from a sorted entry list, keeping it sorted.
pub fn remove_entry<X: DeepView>(entries: &mut Vec<(String, X)>, key: &str)
    requires
        entries_sorted(old(entries)@),
    ensures
        entries_sorted(final(entries)@),
        entries_map(final(entries)@) == entries_map(old(entries)@).remove(key@),
{
    let ghost old_s = entries@;
    let ghost k = key@;
    proof {
        lemma_entries_keys(old_s);
        lemma_pairs_map(entries_view(old_s));
    }
    match find_key(entries, key) {
        Ok(i) => {
            entries.remove(i);
            proof {
                let new_s = entries@;
                let ks = str_keys(new_s);
                let oks = str_keys(old_s);
                assert forall|a: int, b: int| 0 <= a < b < ks.len() implies key_lt(
                    #[trigger] ks[a],
                    #[trigger] ks[b],
                ) by {
                    if b < i {
                        assert(key_lt(oks[a], oks[b]));
                    } else if a < i {
                        assert(key_lt(oks[a], oks[b + 1]));
                    } else {
                        assert(key_lt(oks[a + 1], oks[b + 1]));
                    }
                }
                lemma_entries_keys(new_s);
                lemma_pairs_map(entries_view(new_s));
                let nv = entries_view(new_s);
                let ov = entries_view(old_s);
                assert forall|k2: Seq<char>| #[trigger]
                    pairs_to_map(nv).contains_key(k2) == pairs_to_map(ov).remove(k).contains_key(
                        k2,
                    ) by {
                    if pairs_to_map(ov).contains_key(k2) && k2 != k {
                        let j = choose|j: int| 0 <= j < ov.len() && ov[j].0 == k2;
                        if j < i {
                            assert(nv[j].0 == k2);
                        } else {
                            assert(nv[j - 1].0 == k2);
                        }
                    }
                    if pairs_to_map(nv).contains_key(k2) {
                        let j = choose|j: int| 0 <= j < nv.len() && nv[j].0 == k2;
                        if j < i {
                            assert(ov[j].0 == k2);
                            assert(key_lt(oks[j], oks[i as int]));
                        } else {
                            assert(ov[j + 1].0 == k2);
                            assert(key_lt(oks[i as int], oks[j + 1]));
                        }
                        lemma_key_lt_irreflexive(k);
                    }
                }
                assert forall|k2: Seq<char>| #[trigger]
                    pairs_to_map(nv).contains_key(k2) implies pairs_to_map(nv)[k2]
                    == pairs_to_map(ov).remove(k)[k2] by {
                    let j = choose|j: int| 0 <= j < nv.len() && nv[j].0 == k2;
                    assert(pairs_to_map(nv)[nv[j].0] == nv[j].1);
                    if j < i {
                        assert(pairs_to_map(ov)[ov[j].0] == ov[j].1);
                    } else {
                        assert(pairs_to_map(ov)[ov[j + 1].0] == ov[j + 1].1);
                    }
                }
                assert(pairs_to_map(nv) =~= pairs_to_map(ov).remove(k));
            }
        },
        Err(i) => {
            proof {
                let ov = entries_view(old_s);
                if pairs_to_map(ov).contains_key(k) {
                    let j = choose|j: int| 0 <= j < ov.len() && ov[j].0 == k;
                    assert(old_s[j].0@ == k);
                    lemma_key_lt_irreflexive(k);
                }
                assert(pairs_to_map(ov) =~= pairs_to_map(ov).remove(k));
            }
        },
    }
}

/// Whether the keys of an entry list increase strictly.
pub fn entries_are_sorted<X>(entries: &Vec<(String, X)>) -> (r: bool)
    ensures
        r == entries_sorted(entries@),
{
    let ghost ks = str_keys(entries@);
    let mut i: usize = 1;
    if entries.len() == 0 {
        return true;
    }
    while i < entries.len()
        invariant
            1 <= i <= entries@.len(),
            ks == str_keys(entries@),
            forall|a: int, b: int| 0 <= a < b < i ==> key_lt(#[trigger] ks[a], #[trigger] ks[b]),
        decreases entries@.len() - i,
    {
        match compare_keys(entries[i - 1].0.as_str(), entries[i].0.as_str()) {
            KeyOrder::Less => {
                proof {
                    assert forall|a: int, b: int| 0 <= a < b < i + 1 implies key_lt(
                        #[trigger] ks[a],
                        #[trigger] ks[b],
                    ) by {
                        if b == i && a < i - 1 {
                            assert(key_lt(ks[a], ks[i - 1]));
                            lemma_key_lt_transitive(ks[a], ks[i - 1], ks[b]);
                        }
                    }
                }
            },
            KeyOrder::Equal => {
                proof {
                    lemma_key_lt_irreflexive(ks[i as int]);
                    assert(!key_lt(ks[i - 1], ks[i as int]));
                }
                return false;
            },
            KeyOrder::Greater => {
                proof {
                    lemma_key_lt_asymmetric(ks[i as int], ks[i - 1]);
                    assert(!key_lt(ks[i - 1], ks[i as int]));
                }
                return false;
            },
        }
        i = i + 1;
    }
    true
}

} // verus!
