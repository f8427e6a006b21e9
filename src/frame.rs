//! Length-prefixed, checksum-guarded frames.
//!
//! A frame is `payload_length` (u64, little-endian), `payload_crc32`
//! (u32, little-endian), then the payload bytes.

use vstd::bytes::{
    lemma_auto_spec_u32_to_from_le_bytes, lemma_auto_spec_u64_to_from_le_bytes,
    spec_u32_from_le_bytes, spec_u32_to_le_bytes, spec_u64_from_le_bytes, spec_u64_to_le_bytes,
    u32_from_le_bytes, u32_to_le_bytes, u64_from_le_bytes, u64_to_le_bytes,
};
use vstd::prelude::*;
use vstd::slice::{slice_subrange, slice_to_vec};

verus! {

/// The IEEE CRC-32 of a byte sequence.
pub uninterp spec fn crc32_of(bytes: Seq<u8>) -> u32;

/// Relies on `crc32fast::hash`: the IEEE CRC-32 of the bytes, which
/// depends on the bytes alone.
#[verifier::external_body]
fn crc32(bytes: &[u8]) -> (r: u32)
    ensures
        r == crc32_of(bytes@),
{
    crc32fast::hash(bytes)
}

/// The frame that holds `payload`.
pub open spec fn frame_of(payload: Seq<u8>) -> Seq<u8> {
    spec_u64_to_le_bytes(payload.len() as u64) + spec_u32_to_le_bytes(crc32_of(payload)) + payload
}

/// Why no frame could be read at an offset.
#[derive(Clone, Copy, Debug, PartialEq, Eq, Structural)]
pub enum FrameError {
    /// The bytes end before the frame does.
    Eof,
    /// The payload does not match the checksum stored before it.
    ChecksumMismatch,
}

/// The outcome of reading the frame that starts at `off` in `b`.
pub open spec fn decode_frame(b: Seq<u8>, off: int) -> Result<(Seq<u8>, int), FrameError> {
    if off + 8 > b.len() {
        Err(FrameError::Eof)
    } else if off + 12 > b.len() {
        Err(FrameError::Eof)
    } else {
        let len = spec_u64_from_le_bytes(b.subrange(off, off + 8));
        let checksum = spec_u32_from_le_bytes(b.subrange(off + 8, off + 12));
        if off + 12 + len > b.len() {
            Err(FrameError::Eof)
        } else {
            let payload = b.subrange(off + 12, off + 12 + len);
            if crc32_of(payload) != checksum {
                Err(FrameError::ChecksumMismatch)
            } else {
                Ok((payload, off + 12 + len))
            }
        }
    }
}

/// Frames `payload`.
pub fn encode_frame(payload: &[u8]) -> (r: Vec<u8>)
    requires
        payload@.len() <= u64::MAX,
    ensures
        r@ == frame_of(payload@),
{
    let mut out = u64_to_le_bytes(payload.len() as u64);
    let mut checksum = u32_to_le_bytes(crc32(payload));
    let mut body = slice_to_vec(payload);
    out.append(&mut checksum);
    out.append(&mut body);
    out
}

/// Reads the frame that starts at `off` in `b`: its payload and the offset
/// just past it, or why there is none.
pub fn read_frame(b: &[u8], off: usize) -> (r: Result<(Vec<u8>, usize), FrameError>)
    ensures
        match (r, decode_frame(b@, off as int)) {
            (Ok((p, n)), Ok((sp, sn))) => p@ == sp && n == sn,
            (Err(e), Err(se)) => e == se,
            _ => false,
        },
{
    let total = b.len();
    if off > total || total - off < 8 {
        return Err(FrameError::Eof);
    }
    if total - off < 12 {
        return Err(FrameError::Eof);
    }
    let len = u64_from_le_bytes(slice_subrange(b, off, off + 8));
    let checksum = u32_from_le_bytes(slice_subrange(b, off + 8, off + 12));
    if ((total - (off + 12)) as u64) < len {
        return Err(FrameError::Eof);
    }
    let end = off + 12 + len as usize;
    let payload = slice_subrange(b, off + 12, end);
    if crc32(payload) != checksum {
        return Err(FrameError::ChecksumMismatch);
    }
    Ok((slice_to_vec(payload), end))
}

/// Reading a frame back at the offset where it was placed gives its
/// payload and the offset just past it, whatever bytes surround it.
pub proof fn lemma_frame_round_trip(before: Seq<u8>, payload: Seq<u8>, after: Seq<u8>)
    requires
        payload.len() <= u64::MAX,
    ensures
        decode_frame(before + frame_of(payload) + after, before.len() as int) == Ok::<
            (Seq<u8>, int),
            FrameError,
        >((payload, (before.len() + frame_of(payload).len()) as int)),
        frame_of(payload).len() == payload.len() + 12,
{
    lemma_auto_spec_u32_to_from_le_bytes();
    lemma_auto_spec_u64_to_from_le_bytes();
    let b = before + frame_of(payload) + after;
    let off = before.len() as int;
    let lenb = spec_u64_to_le_bytes(payload.len() as u64);
    let crcb = spec_u32_to_le_bytes(crc32_of(payload));
    assert(b.subrange(off, off + 8) =~= lenb);
    assert(b.subrange(off + 8, off + 12) =~= crcb);
    assert(b.subrange(off + 12, off + 12 + payload.len()) =~= payload);
}

/// Whatever bytes surround it, a payload that decoding returns stands in
/// the bytes as a whole frame of itself, checksum included: decoding never
/// returns bytes whose stored checksum does not match them.
pub proof fn lemma_decoded_frame_is_framed(b: Seq<u8>, off: int)
    requires
        0 <= off,
        decode_frame(b, off) is Ok,
    ensures
        match decode_frame(b, off) {
            Ok((p, n)) => b.subrange(off, n) == frame_of(p) && crc32_of(p)
                == spec_u32_from_le_bytes(b.subrange(off + 8, off + 12)),
            Err(_) => false,
        },
{
    lemma_auto_spec_u32_to_from_le_bytes();
    lemma_auto_spec_u64_to_from_le_bytes();
    match decode_frame(b, off) {
        Ok((p, n)) => {
            let lenb = b.subrange(off, off + 8);
            let crcb = b.subrange(off + 8, off + 12);
            assert(spec_u64_to_le_bytes(spec_u64_from_le_bytes(lenb)) == lenb);
            assert(spec_u32_to_le_bytes(spec_u32_from_le_bytes(crcb)) == crcb);
            assert(b.subrange(off, n) =~= lenb + crcb + p);
        },
        Err(_) => {},
    }
}

} // verus!
