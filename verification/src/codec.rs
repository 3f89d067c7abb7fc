//! Encoding and decoding of a single record frame.
//!
//! A frame is `magic (2 B, LE) | crc32 (4 B, LE) | length (4 B, LE) | payload`.
//! The CRC-32 is computed over the payload bytes only.

use vstd::prelude::*;
use vstd::slice::{slice_subrange, slice_to_vec};

use crate::errors::{CorruptionKind, WalError};

verus! {

/// Frame start marker, stored little-endian in the first two bytes.
pub const HEADER_MAGIC: u16 = 1337;

/// Width of the frame header: magic + crc + payload length.
pub const HEADER_NUM_BYTES: u64 = 10;

/// The little-endian bytes of a 16-bit integer.
pub open spec fn u16_le(x: u16) -> Seq<u8> {
    seq![(x & 0xff) as u8, ((x >> 8) & 0xff) as u8]
}

/// The little-endian bytes of a 32-bit integer.
pub open spec fn u32_le(x: u32) -> Seq<u8> {
    seq![
        (x & 0xff) as u8,
        ((x >> 8) & 0xff) as u8,
        ((x >> 16) & 0xff) as u8,
        ((x >> 24) & 0xff) as u8,
    ]
}

/// The little-endian bytes of a 64-bit integer.
pub open spec fn u64_le(x: u64) -> Seq<u8> {
    seq![
        (x & 0xff) as u8,
        ((x >> 8) & 0xff) as u8,
        ((x >> 16) & 0xff) as u8,
        ((x >> 24) & 0xff) as u8,
        ((x >> 32) & 0xff) as u8,
        ((x >> 40) & 0xff) as u8,
        ((x >> 48) & 0xff) as u8,
        ((x >> 56) & 0xff) as u8,
    ]
}

/// The 16-bit integer read little-endian from two bytes.
pub open spec fn le_u16(b0: u8, b1: u8) -> u16 {
    ((b0 as u16) | ((b1 as u16) << 8)) as u16
}

/// The 32-bit integer read little-endian from four bytes.
pub open spec fn le_u32(b0: u8, b1: u8, b2: u8, b3: u8) -> u32 {
    ((b0 as u32) | ((b1 as u32) << 8) | ((b2 as u32) << 16) | ((b3 as u32) << 24)) as u32
}

/// Reading two little-endian bytes gives back the encoded integer.
pub proof fn lemma_le_u16_roundtrip(x: u16)
    by (bit_vector)
    ensures
        le_u16((x & 0xff) as u8, ((x >> 8) & 0xff) as u8) == x,
{
}

/// Reading four little-endian bytes gives back the encoded integer.
pub proof fn lemma_le_u32_roundtrip(x: u32)
    by (bit_vector)
    ensures
        le_u32(
            (x & 0xff) as u8,
            ((x >> 8) & 0xff) as u8,
            ((x >> 16) & 0xff) as u8,
            ((x >> 24) & 0xff) as u8,
        ) == x,
{
}

/// The CRC-32 (IEEE) of a byte sequence. The checksum has no tractable
/// closed form, so it is only named here; [`crc32`] computes it.
pub uninterp spec fn crc32_of(bytes: Seq<u8>) -> u32;

/// Relies on crc32fast::hash: the CRC-32 (IEEE) checksum of the input,
/// a function of the input bytes alone.
#[verifier::external_body]
pub fn crc32(bytes: &[u8]) -> (r: u32)
    ensures
        r == crc32_of(bytes@),
{
    crc32fast::hash(bytes)
}

/// The on-disk frame for a payload.
pub open spec fn frame_of(payload: Seq<u8>) -> Seq<u8> {
    u16_le(HEADER_MAGIC) + u32_le(crc32_of(payload)) + u32_le(payload.len() as u32) + payload
}

/// The on-disk size of a record with the given payload length.
pub open spec fn frame_len(payload_len: int) -> int {
    HEADER_NUM_BYTES + payload_len
}

/// What decoding one frame at a position of a byte sequence yields.
pub enum SpecDecoded {
    /// The position is exactly the end of the data.
    Eof,
    /// A valid frame: its payload and its total width in bytes.
    Record(Seq<u8>, int),
    /// The bytes at the position are not a valid frame.
    Corrupt(CorruptionKind),
}

/// Decoding one frame at `pos`: magic, checksum and length are validated
/// exactly as [`decode_frame`] does.
pub open spec fn decode_at(data: Seq<u8>, pos: int) -> SpecDecoded
    recommends
        0 <= pos <= data.len(),
{
    if pos == data.len() {
        SpecDecoded::Eof
    } else if data.len() - pos < 2 {
        SpecDecoded::Corrupt(CorruptionKind::Truncated)
    } else if le_u16(data[pos], data[pos + 1]) != HEADER_MAGIC {
        SpecDecoded::Corrupt(CorruptionKind::BadMagic)
    } else if data.len() - pos < 10 {
        SpecDecoded::Corrupt(CorruptionKind::Truncated)
    } else {
        let crc = le_u32(data[pos + 2], data[pos + 3], data[pos + 4], data[pos + 5]);
        let len = le_u32(data[pos + 6], data[pos + 7], data[pos + 8], data[pos + 9]) as int;
        if data.len() - pos - 10 < len {
            SpecDecoded::Corrupt(CorruptionKind::Truncated)
        } else {
            let payload = data.subrange(pos + 10, pos + 10 + len);
            if crc != crc32_of(payload) {
                SpecDecoded::Corrupt(CorruptionKind::BadCrc)
            } else {
                SpecDecoded::Record(payload, frame_len(len))
            }
        }
    }
}

/// Encodes one payload into its frame: magic, CRC-32 of the payload,
/// payload length, payload bytes, all integers little-endian.
pub fn encode_frame(payload: &[u8]) -> (r: Vec<u8>)
    requires
        payload@.len() < 0x1_0000_0000,
    ensures
        r@ == frame_of(payload@),
        r@.len() == frame_len(payload@.len() as int),
{
    let crc = crc32(payload);
    let len = payload.len() as u32;
    let mut out: Vec<u8> = Vec::new();
    out.push((HEADER_MAGIC & 0xff) as u8);
    out.push(((HEADER_MAGIC >> 8) & 0xff) as u8);
    out.push((crc & 0xff) as u8);
    out.push(((crc >> 8) & 0xff) as u8);
    out.push(((crc >> 16) & 0xff) as u8);
    out.push(((crc >> 24) & 0xff) as u8);
    out.push((len & 0xff) as u8);
    out.push(((len >> 8) & 0xff) as u8);
    out.push(((len >> 16) & 0xff) as u8);
    out.push(((len >> 24) & 0xff) as u8);
    out.extend_from_slice(payload);
    proof {
        assert(out@ =~= frame_of(payload@));
    }
    out
}

/// Decodes one frame of `data` starting at `pos`.
///
/// Returns `Ok(None)` on a clean end of data, `Ok(Some((payload, width)))`
/// for a valid frame, and a corruption error otherwise.
pub fn decode_frame(data: &[u8], pos: usize) -> (r: Result<Option<(Vec<u8>, usize)>, WalError>)
    requires
        pos <= data@.len(),
    ensures
        match r {
            Ok(None) => decode_at(data@, pos as int) is Eof,
            Ok(Some((payload, width))) => decode_at(data@, pos as int) == SpecDecoded::Record(
                payload@,
                width as int,
            ),
            Err(e) => {
                &&& decode_at(data@, pos as int) matches SpecDecoded::Corrupt(k)
                &&& e == WalError::Corruption(k)
            },
        },
{
    let n = data.len();
    if pos == n {
        return Ok(None);
    }
    if n - pos < 2 {
        return Err(WalError::Corruption(CorruptionKind::Truncated));
    }
    let magic = (data[pos] as u16) | ((data[pos + 1] as u16) << 8);
    if magic != HEADER_MAGIC {
        return Err(WalError::Corruption(CorruptionKind::BadMagic));
    }
    if n - pos < 10 {
        return Err(WalError::Corruption(CorruptionKind::Truncated));
    }
    let crc = (data[pos + 2] as u32) | ((data[pos + 3] as u32) << 8) | ((data[pos + 4] as u32)
        << 16) | ((data[pos + 5] as u32) << 24);
    let len = ((data[pos + 6] as u32) | ((data[pos + 7] as u32) << 8) | ((data[pos + 8] as u32)
        << 16) | ((data[pos + 9] as u32) << 24)) as usize;
    if n - pos - 10 < len {
        return Err(WalError::Corruption(CorruptionKind::Truncated));
    }
    let payload = slice_to_vec(slice_subrange(data, pos + 10, pos + 10 + len));
    if crc != crc32(payload.as_slice()) {
        return Err(WalError::Corruption(CorruptionKind::BadCrc));
    }
    Ok(Some((payload, 10 + len)))
}

/// Whether the bytes from `pos` on are a concatenation of valid frames.
pub open spec fn framed_from(data: Seq<u8>, pos: int) -> bool
    decreases data.len() - pos,
    when 0 <= pos <= data.len()
{
    match decode_at(data, pos) {
        SpecDecoded::Eof => true,
        SpecDecoded::Record(_, w) => framed_from(data, pos + w),
        SpecDecoded::Corrupt(_) => false,
    }
}

/// Whether a whole byte sequence is a concatenation of valid frames.
pub open spec fn seg_framed(data: Seq<u8>) -> bool {
    framed_from(data, 0)
}

/// One record of a log: the offset of its frame and its payload.
#[verifier::ext_equal]
pub struct EntryView {
    /// Byte position of the frame's magic marker.
    pub offset: int,
    /// The record's payload.
    pub payload: Seq<u8>,
}

/// The records encoded from `pos` on, with offsets shifted by `shift`;
/// empty from the first position that does not hold a valid frame.
pub open spec fn entries_from(data: Seq<u8>, pos: int, shift: int) -> Seq<EntryView>
    decreases data.len() - pos,
    when 0 <= pos <= data.len()
{
    match decode_at(data, pos) {
        SpecDecoded::Record(p, w) => seq![EntryView { offset: pos + shift, payload: p }]
            + entries_from(data, pos + w, shift),
        _ => Seq::empty(),
    }
}

/// The records of a whole byte sequence, offsets starting at zero.
pub open spec fn seg_entries(data: Seq<u8>) -> Seq<EntryView> {
    entries_from(data, 0, 0)
}

/// A record decoded within a prefix decodes the same when more bytes
/// follow.
pub proof fn lemma_decode_prefix(p: Seq<u8>, q: Seq<u8>, pos: int)
    requires
        0 <= pos <= p.len(),
        decode_at(p, pos) is Record,
    ensures
        decode_at(p + q, pos) == decode_at(p, pos),
{
    let c = p + q;
    assert(c.len() == p.len() + q.len());
    let len = le_u32(p[pos + 6], p[pos + 7], p[pos + 8], p[pos + 9]) as int;
    assert(c.subrange(pos + 10, pos + 10 + len) =~= p.subrange(pos + 10, pos + 10 + len));
}

/// Decoding after a fully consumed prefix is decoding the suffix.
pub proof fn lemma_decode_shift(p: Seq<u8>, q: Seq<u8>, t: int)
    requires
        0 <= t <= q.len(),
    ensures
        decode_at(p + q, p.len() + t) == decode_at(q, t),
{
    let c = p + q;
    assert(c.len() == p.len() + q.len());
    assert(forall|i: int| 0 <= i < q.len() ==> c[p.len() + i] == #[trigger] q[i]);
    if t < q.len() && q.len() - t >= 2 && le_u16(q[t], q[t + 1]) == HEADER_MAGIC && q.len() - t
        >= 10 {
        let len = le_u32(q[t + 6], q[t + 7], q[t + 8], q[t + 9]) as int;
        if q.len() - t - 10 >= len {
            assert(c.subrange(p.len() + t + 10, p.len() + t + 10 + len) =~= q.subrange(
                t + 10,
                t + 10 + len,
            ));
        }
    }
}

/// The records of a concatenation of two framed byte sequences: those of
/// the first, then those of the second at shifted offsets.
pub proof fn lemma_entries_concat(p: Seq<u8>, q: Seq<u8>, pos: int, shift: int)
    requires
        0 <= pos <= p.len(),
        framed_from(p, pos),
    ensures
        framed_from(p + q, pos) == framed_from(q, 0),
        entries_from(p + q, pos, shift) =~= entries_from(p, pos, shift) + entries_from(
            q,
            0,
            shift + p.len(),
        ),
    decreases p.len() - pos,
{
    match decode_at(p, pos) {
        SpecDecoded::Eof => {
            assert(pos == p.len());
            lemma_decode_shift(p, q, 0);
            assert(decode_at(p + q, pos) == decode_at(q, 0));
            lemma_entries_shift(p, q, 0, shift + p.len());
            assert(entries_from(p, pos, shift) =~= Seq::<EntryView>::empty());
        },
        SpecDecoded::Record(pl, w) => {
            lemma_decode_prefix(p, q, pos);
            lemma_entries_concat(p, q, pos + w, shift);
        },
        SpecDecoded::Corrupt(_) => {},
    }
}

/// Records of a suffix, read inside the concatenation.
pub proof fn lemma_entries_shift(p: Seq<u8>, q: Seq<u8>, t: int, shift: int)
    requires
        0 <= t <= q.len(),
    ensures
        framed_from(p + q, p.len() + t) == framed_from(q, t),
        entries_from(p + q, p.len() + t, shift - p.len()) =~= entries_from(q, t, shift),
    decreases q.len() - t,
{
    lemma_decode_shift(p, q, t);
    match decode_at(q, t) {
        SpecDecoded::Record(pl, w) => {
            lemma_entries_shift(p, q, t + w, shift);
        },
        _ => {},
    }
}

/// Appending one encoded frame to a framed log adds exactly one record,
/// at the end of the old content.
pub proof fn lemma_append_adds_entry(content: Seq<u8>, payload: Seq<u8>)
    requires
        seg_framed(content),
        payload.len() < 0x1_0000_0000,
    ensures
        seg_framed(content + frame_of(payload)),
        seg_entries(content + frame_of(payload)) =~= seg_entries(content).push(
            EntryView { offset: content.len() as int, payload },
        ),
{
    let f = frame_of(payload);
    lemma_decode_encode(payload);
    assert(decode_at(f, 0) == SpecDecoded::Record(payload, frame_len(payload.len() as int)));
    assert(f.len() == frame_len(payload.len() as int));
    assert(decode_at(f, f.len() as int) is Eof);
    assert(framed_from(f, f.len() as int));
    assert(framed_from(f, 0));
    assert(entries_from(f, f.len() as int, 0) =~= Seq::<EntryView>::empty());
    assert(entries_from(f, 0, 0) =~= seq![EntryView { offset: 0, payload }]);
    lemma_entries_concat(content, f, 0, 0);
    assert(entries_from(f, f.len() as int, content.len() as int) =~= Seq::<EntryView>::empty());
    assert(entries_from(f, 0, content.len() as int) =~= seq![
        EntryView { offset: content.len() as int, payload },
    ]);
    assert(seg_entries(content).push(EntryView { offset: content.len() as int, payload })
        =~= seg_entries(content) + entries_from(f, 0, content.len() as int));
}

/// Law: in a framed byte sequence, the bytes at each record's offset
/// decode to exactly that record, offsets chain frame by frame, and the
/// last record ends at a clean end of data. Seeking to a record's
/// offset and decoding there therefore yields that record.
pub proof fn lemma_entries_decode(data: Seq<u8>, pos: int, shift: int, k: int)
    requires
        0 <= pos <= data.len(),
        framed_from(data, pos),
        0 <= k < entries_from(data, pos, shift).len(),
    ensures
        ({
            let es = entries_from(data, pos, shift);
            let w = frame_len(es[k].payload.len() as int);
            &&& pos + shift <= es[k].offset
            &&& es[k].offset - shift + w <= data.len()
            &&& decode_at(data, es[k].offset - shift) == SpecDecoded::Record(es[k].payload, w)
            &&& (k + 1 < es.len() ==> es[k + 1].offset == es[k].offset + w)
            &&& (k + 1 == es.len() ==> decode_at(data, es[k].offset - shift + w) is Eof)
        }),
    decreases data.len() - pos,
{
    let es = entries_from(data, pos, shift);
    match decode_at(data, pos) {
        SpecDecoded::Record(pl, w) => {
            let rest = entries_from(data, pos + w, shift);
            assert(es =~= seq![EntryView { offset: pos + shift, payload: pl }] + rest);
            if k == 0 {
                assert(es[0].offset == pos + shift);
                if es.len() > 1 {
                    assert(rest.len() > 0);
                    match decode_at(data, pos + w) {
                        SpecDecoded::Record(pl2, w2) => {
                            assert(rest[0].offset == pos + w + shift);
                        },
                        _ => {},
                    }
                } else {
                    assert(rest.len() == 0);
                    match decode_at(data, pos + w) {
                        SpecDecoded::Eof => {},
                        SpecDecoded::Record(_, _) => {
                            assert(rest.len() > 0);
                        },
                        SpecDecoded::Corrupt(_) => {
                            assert(!framed_from(data, pos + w));
                        },
                    }
                }
            } else {
                lemma_entries_decode(data, pos + w, shift, k - 1);
                assert(es[k] == rest[k - 1]);
                if k + 1 < es.len() {
                    assert(es[k + 1] == rest[k]);
                }
            }
        },
        _ => {
            assert(es.len() == 0);
        },
    }
}

/// Law: when the two bytes at a position do not hold the magic marker,
/// decoding there reports corruption, never a record.
pub proof fn lemma_bad_magic_detected(data: Seq<u8>, pos: int)
    requires
        0 <= pos < data.len(),
        pos + 2 <= data.len() ==> le_u16(data[pos], data[pos + 1]) != HEADER_MAGIC,
    ensures
        decode_at(data, pos) is Corrupt,
{
}

/// Law: cutting a frame short makes decoding at its offset report a
/// truncated frame; cutting exactly at its start is a clean end of
/// data. Lost tail bytes of a segment are therefore always detected.
pub proof fn lemma_truncated_frame_detected(data: Seq<u8>, pos: int, cut: int)
    requires
        0 <= pos <= cut <= data.len(),
        decode_at(data, pos) is Record,
        cut - pos < decode_at(data, pos)->Record_1,
    ensures
        pos == cut ==> decode_at(data.take(cut), pos) is Eof,
        pos < cut ==> decode_at(data.take(cut), pos) == SpecDecoded::Corrupt(
            CorruptionKind::Truncated,
        ),
{
    let t = data.take(cut);
    assert(forall|i: int| 0 <= i < cut ==> t[i] == data[i]);
    if pos < cut {
        if cut - pos >= 10 {
            let len = le_u32(data[pos + 6], data[pos + 7], data[pos + 8], data[pos + 9]) as int;
            assert(decode_at(data, pos)->Record_1 == frame_len(len));
            assert(t.len() - pos - 10 < len);
        }
    }
}

/// The concatenated frames of a sequence of payloads: what appending
/// them in order writes.
pub open spec fn frames_concat(payloads: Seq<Seq<u8>>) -> Seq<u8>
    decreases payloads.len(),
{
    if payloads.len() == 0 {
        Seq::empty()
    } else {
        frames_concat(payloads.drop_last()) + frame_of(payloads.last())
    }
}

/// The payloads of a record list, in order.
pub open spec fn payloads_of(es: Seq<EntryView>) -> Seq<Seq<u8>> {
    es.map_values(|e: EntryView| e.payload)
}

/// Law: a concatenation of frames is framed, and its records'
/// payloads, read at any shift, are exactly the payloads the frames
/// were encoded from, in order.
pub proof fn lemma_frames_concat_entries(payloads: Seq<Seq<u8>>, shift: int)
    requires
        forall|i: int| 0 <= i < payloads.len() ==> (#[trigger] payloads[i]).len()
            < 0x1_0000_0000,
    ensures
        seg_framed(frames_concat(payloads)),
        payloads_of(entries_from(frames_concat(payloads), 0, shift)) == payloads,
    decreases payloads.len(),
{
    if payloads.len() == 0 {
        assert(frames_concat(payloads) =~= Seq::<u8>::empty());
        assert(entries_from(frames_concat(payloads), 0, shift) =~= Seq::<EntryView>::empty());
        assert(payloads_of(entries_from(frames_concat(payloads), 0, shift)) =~= payloads);
    } else {
        let pre = payloads.drop_last();
        let last = payloads.last();
        assert(forall|i: int|
            0 <= i < pre.len() ==> (#[trigger] pre[i]).len() < 0x1_0000_0000);
        lemma_frames_concat_entries(pre, shift);
        let flatpre = frames_concat(pre);
        let f = frame_of(last);
        let fshift = shift + flatpre.len();
        lemma_decode_encode(last);
        assert(decode_at(f, 0) == SpecDecoded::Record(last, frame_len(last.len() as int)));
        assert(f.len() == frame_len(last.len() as int));
        assert(decode_at(f, f.len() as int) is Eof);
        assert(framed_from(f, f.len() as int));
        assert(entries_from(f, f.len() as int, fshift) =~= Seq::<EntryView>::empty());
        assert(entries_from(f, 0, fshift) =~= seq![
            EntryView { offset: fshift, payload: last },
        ]);
        lemma_entries_concat(flatpre, f, 0, shift);
        assert(frames_concat(payloads) == flatpre + f);
        let es = entries_from(frames_concat(payloads), 0, shift);
        let es_pre = entries_from(flatpre, 0, shift);
        assert(es == es_pre + seq![EntryView { offset: fshift, payload: last }]);
        assert(payloads_of(es_pre) == pre);
        assert(es.len() == es_pre.len() + 1);
        assert(es_pre.len() == pre.len()) by {
            assert(payloads_of(es_pre).len() == es_pre.len());
        }
        assert(forall|i: int| 0 <= i < es_pre.len() ==> #[trigger] es[i] == es_pre[i]);
        assert(es[es_pre.len() as int].payload == last);
        assert forall|i: int| 0 <= i < payloads.len() implies #[trigger] payloads_of(es)[i]
            == payloads[i] by {
            assert(payloads_of(es)[i] == es[i].payload);
            if i < pre.len() {
                assert(es[i].payload == es_pre[i].payload);
                assert(payloads_of(es_pre)[i] == es_pre[i].payload);
                assert(pre[i] == payloads[i]);
            }
        }
        assert(payloads_of(es).len() == payloads.len());
        assert(payloads_of(es) =~= payloads);
    }
}

/// Law: decoding an encoded frame gives back the payload and consumes
/// exactly the header plus the payload.
pub proof fn lemma_decode_encode(payload: Seq<u8>)
    requires
        payload.len() < 0x1_0000_0000,
    ensures
        decode_at(frame_of(payload), 0) == SpecDecoded::Record(
            payload,
            frame_len(payload.len() as int),
        ),
{
    let f = frame_of(payload);
    let crc = crc32_of(payload);
    let len = payload.len() as u32;
    assert(f.len() == 10 + payload.len());
    lemma_le_u16_roundtrip(HEADER_MAGIC);
    lemma_le_u32_roundtrip(crc);
    lemma_le_u32_roundtrip(len);
    assert(le_u16(f[0], f[1]) == HEADER_MAGIC);
    assert(le_u32(f[2], f[3], f[4], f[5]) == crc);
    assert(le_u32(f[6], f[7], f[8], f[9]) == len);
    assert(f.subrange(10, 10 + len as int) =~= payload);
}

} // verus!
