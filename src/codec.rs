//! Building blocks of the payload formats: little-endian integers,
//! length-prefixed byte strings and UTF-8 strings, and counted lists.
//!
//! Each encoding has a reader that starts at an offset and returns the
//! value read with the offset just past it; the lemmas show that each
//! reader gives back what the matching encoding wrote, wherever it stands.

use vstd::bytes::{
    lemma_auto_spec_u64_to_from_le_bytes, spec_u64_from_le_bytes, spec_u64_to_le_bytes,
    u64_from_le_bytes, u64_to_le_bytes,
};
use vstd::prelude::*;
use vstd::slice::{slice_subrange, slice_to_vec};
use vstd::utf8::{decode_utf8, encode_utf8, encode_utf8_decode_utf8, encode_utf8_valid_utf8, valid_utf8};

verus! {

/// A byte string: its length as a u64, then its bytes.
pub open spec fn enc_bytes(b: Seq<u8>) -> Seq<u8> {
    spec_u64_to_le_bytes(b.len() as u64) + b
}

/// A string: its UTF-8 bytes as a byte string.
pub open spec fn enc_str(s: Seq<char>) -> Seq<u8> {
    enc_bytes(encode_utf8(s))
}

/// The items of a list, each encoded by `f`, one after the other.
pub open spec fn enc_seq<T>(s: Seq<T>, f: spec_fn(T) -> Seq<u8>) -> Seq<u8>
    decreases s.len(),
{
    if s.len() == 0 {
        Seq::empty()
    } else {
        enc_seq(s.drop_last(), f) + f(s.last())
    }
}

/// A u64 read at `off`.
pub open spec fn parse_u64(b: Seq<u8>, off: int) -> Option<(u64, int)> {
    if 0 <= off && off + 8 <= b.len() {
        Some((spec_u64_from_le_bytes(b.subrange(off, off + 8)), off + 8))
    } else {
        None
    }
}

/// A byte read at `off`.
pub open spec fn parse_u8(b: Seq<u8>, off: int) -> Option<(u8, int)> {
    if 0 <= off && off < b.len() {
        Some((b[off], off + 1))
    } else {
        None
    }
}

/// A byte string read at `off`.
pub open spec fn parse_bytes(b: Seq<u8>, off: int) -> Option<(Seq<u8>, int)> {
    match parse_u64(b, off) {
        Some((n, o)) => if o + n <= b.len() {
            Some((b.subrange(o, o + n), o + n))
        } else {
            None
        },
        None => None,
    }
}

/// A string read at `off`: a byte string that is valid UTF-8.
pub open spec fn parse_str(b: Seq<u8>, off: int) -> Option<(Seq<char>, int)> {
    match parse_bytes(b, off) {
        Some((bs, o)) => if valid_utf8(bs) {
            Some((decode_utf8(bs), o))
        } else {
            None
        },
        None => None,
    }
}

/// `n` items read one after the other by `p`, starting at `off`.
pub open spec fn parse_seq<T>(
    b: Seq<u8>,
    off: int,
    n: nat,
    p: spec_fn(Seq<u8>, int) -> Option<(T, int)>,
) -> Option<(Seq<T>, int)>
    decreases n,
{
    if n == 0 {
        Some((Seq::empty(), off))
    } else {
        match parse_seq(b, off, (n - 1) as nat, p) {
            Some((xs, o)) => match p(b, o) {
                Some((x, o2)) => Some((xs.push(x), o2)),
                None => None,
            },
            None => None,
        }
    }
}

/// `b` holds `e` at `off`.
pub open spec fn holds_at(b: Seq<u8>, off: int, e: Seq<u8>) -> bool {
    0 <= off && off + e.len() <= b.len() && b.subrange(off, off + e.len()) == e
}

/// `p` reads back what `f` writes for each item that `ok` admits,
/// wherever it stands.
pub open spec fn reads_back<T>(
    f: spec_fn(T) -> Seq<u8>,
    p: spec_fn(Seq<u8>, int) -> Option<(T, int)>,
    ok: spec_fn(T) -> bool,
) -> bool {
    forall|b: Seq<u8>, off: int, x: T|
        ok(x) && #[trigger] holds_at(b, off, f(x)) ==> #[trigger] p(b, off) == Some(
            (x, off + f(x).len()),
        )
}

/// A part of what `b` holds at `off`.
pub proof fn lemma_holds_at_split(b: Seq<u8>, off: int, e1: Seq<u8>, e2: Seq<u8>)
    requires
        holds_at(b, off, e1 + e2),
    ensures
        holds_at(b, off, e1),
        holds_at(b, off + e1.len(), e2),
{
    let whole = b.subrange(off, off + e1.len() + e2.len());
    assert(whole == e1 + e2);
    assert(b.subrange(off, off + e1.len()) =~= whole.subrange(0, e1.len() as int));
    assert(whole.subrange(0, e1.len() as int) =~= e1);
    assert(b.subrange(off + e1.len(), off + e1.len() + e2.len()) =~= whole.subrange(
        e1.len() as int,
        (e1.len() + e2.len()) as int,
    ));
    assert(whole.subrange(e1.len() as int, (e1.len() + e2.len()) as int) =~= e2);
}

/// A u64 is read back.
pub proof fn lemma_u64_round_trip(b: Seq<u8>, off: int, n: u64)
    requires
        holds_at(b, off, spec_u64_to_le_bytes(n)),
    ensures
        spec_u64_to_le_bytes(n).len() == 8,
        parse_u64(b, off) == Some((n, off + 8)),
{
    lemma_auto_spec_u64_to_from_le_bytes();
}

/// A byte string is read back.
pub proof fn lemma_bytes_round_trip(b: Seq<u8>, off: int, x: Seq<u8>)
    requires
        holds_at(b, off, enc_bytes(x)),
        x.len() <= u64::MAX,
    ensures
        enc_bytes(x).len() == x.len() + 8,
        parse_bytes(b, off) == Some((x, off + enc_bytes(x).len())),
{
    lemma_auto_spec_u64_to_from_le_bytes();
    lemma_holds_at_split(b, off, spec_u64_to_le_bytes(x.len() as u64), x);
    lemma_u64_round_trip(b, off, x.len() as u64);
}

/// A string is read back.
pub proof fn lemma_str_round_trip(b: Seq<u8>, off: int, s: Seq<char>)
    requires
        holds_at(b, off, enc_str(s)),
        encode_utf8(s).len() <= u64::MAX,
    ensures
        parse_str(b, off) == Some((s, off + enc_str(s).len())),
{
    lemma_bytes_round_trip(b, off, encode_utf8(s));
    encode_utf8_valid_utf8(s);
    encode_utf8_decode_utf8(s);
}

/// A list is read back by a reader that reads back each item.
pub proof fn lemma_seq_round_trip<T>(
    b: Seq<u8>,
    off: int,
    s: Seq<T>,
    f: spec_fn(T) -> Seq<u8>,
    p: spec_fn(Seq<u8>, int) -> Option<(T, int)>,
    ok: spec_fn(T) -> bool,
)
    requires
        reads_back(f, p, ok),
        forall|i: int| 0 <= i < s.len() ==> ok(#[trigger] s[i]),
        holds_at(b, off, enc_seq(s, f)),
    ensures
        parse_seq(b, off, s.len(), p) == Some((s, off + enc_seq(s, f).len())),
    decreases s.len(),
{
    if s.len() > 0 {
        let init = s.drop_last();
        lemma_holds_at_split(b, off, enc_seq(init, f), f(s.last()));
        lemma_seq_round_trip(b, off, init, f, p, ok);
        assert(ok(s[s.len() - 1]));
        let o = off + enc_seq(init, f).len();
        assert(holds_at(b, o, f(s.last())));
        assert(p(b, o) == Some((s.last(), o + f(s.last()).len())));
        assert(init.push(s.last()) =~= s);
    }
}

/// Once a list cannot be read, no longer list can.
pub proof fn lemma_parse_seq_none<T>(
    b: Seq<u8>,
    off: int,
    n: nat,
    m: nat,
    p: spec_fn(Seq<u8>, int) -> Option<(T, int)>,
)
    requires
        parse_seq(b, off, n, p) is None,
        n <= m,
    ensures
        parse_seq(b, off, m, p) is None,
    decreases m,
{
    if n < m {
        lemma_parse_seq_none(b, off, n, (m - 1) as nat, p);
    }
}

/// Relies on `String::from_utf8`: it succeeds exactly on valid UTF-8, and
/// the string then holds the characters that the bytes encode.
#[verifier::external_body]
pub(crate) fn string_from_utf8(bytes: Vec<u8>) -> (r: Option<String>)
    ensures
        match r {
            Some(s) => valid_utf8(bytes@) && s@ == decode_utf8(bytes@),
            None => !valid_utf8(bytes@),
        },
{
    String::from_utf8(bytes).ok()
}

/// Appends a u64.
pub fn push_u64(out: &mut Vec<u8>, n: u64)
    ensures
        final(out)@ == old(out)@ + spec_u64_to_le_bytes(n),
{
    let mut b = u64_to_le_bytes(n);
    out.append(&mut b);
}

/// Appends a byte string.
pub fn push_bytes(out: &mut Vec<u8>, b: &[u8])
    ensures
        final(out)@ == old(out)@ + enc_bytes(b@),
{
    push_u64(out, b.len() as u64);
    let mut body = slice_to_vec(b);
    out.append(&mut body);
    proof {
        assert(final(out)@ =~= old(out)@ + enc_bytes(b@));
    }
}

/// Appends a string.
pub fn push_str(out: &mut Vec<u8>, s: &str)
    ensures
        final(out)@ == old(out)@ + enc_str(s@),
{
    push_bytes(out, s.as_bytes());
}

/// Reads a u64 at `off`.
pub fn read_u64(b: &[u8], off: usize) -> (r: Option<(u64, usize)>)
    ensures
        match r {
            Some((n, o)) => parse_u64(b@, off as int) == Some((n, o as int)) && o <= b@.len(),
            None => parse_u64(b@, off as int) is None,
        },
{
    if off <= b.len() && b.len() - off >= 8 {
        Some((u64_from_le_bytes(slice_subrange(b, off, off + 8)), off + 8))
    } else {
        None
    }
}

/// Reads a byte at `off`.
pub fn read_u8(b: &[u8], off: usize) -> (r: Option<(u8, usize)>)
    ensures
        match r {
            Some((n, o)) => parse_u8(b@, off as int) == Some((n, o as int)) && o <= b@.len(),
            None => parse_u8(b@, off as int) is None,
        },
{
    if off < b.len() {
        Some((b[off], off + 1))
    } else {
        None
    }
}

/// Reads a byte string at `off`.
pub fn read_bytes(b: &[u8], off: usize) -> (r: Option<(Vec<u8>, usize)>)
    ensures
        match r {
            Some((x, o)) => parse_bytes(b@, off as int) == Some((x@, o as int)) && o <= b@.len(),
            None => parse_bytes(b@, off as int) is None,
        },
{
    match read_u64(b, off) {
        Some((n, o)) => {
            if ((b.len() - o) as u64) < n {
                None
            } else {
                let end = o + n as usize;
                Some((slice_to_vec(slice_subrange(b, o, end)), end))
            }
        },
        None => None,
    }
}

/// Reads a string at `off`.
pub fn read_str(b: &[u8], off: usize) -> (r: Option<(String, usize)>)
    ensures
        match r {
            Some((s, o)) => parse_str(b@, off as int) == Some((s@, o as int)) && o <= b@.len(),
            None => parse_str(b@, off as int) is None,
        },
{
    match read_bytes(b, off) {
        Some((x, o)) => match string_from_utf8(x) {
            Some(s) => Some((s, o)),
            None => None,
        },
        None => None,
    }
}

/// Each item's encoding is no longer than the list's.
pub proof fn lemma_enc_seq_item_len<T>(s: Seq<T>, f: spec_fn(T) -> Seq<u8>, i: int)
    requires
        0 <= i < s.len(),
    ensures
        f(s[i]).len() <= enc_seq(s, f).len(),
    decreases s.len(),
{
    if i < s.len() - 1 {
        lemma_enc_seq_item_len(s.drop_last(), f, i);
    }
}

} // verus!
