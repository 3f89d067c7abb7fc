//! Per-index queues multiplexed onto one write-ahead log.
//!
//! Each record carries a small envelope naming its queue: the length of
//! the index identifier, the identifier's bytes, then the document
//! bytes. The log itself stays content-agnostic. [`Queues`] owns the
//! log directory and its writer; every ingest is flushed before the
//! call returns, so fetches read their own writes.

use vstd::prelude::*;

use crate::codec::{le_u16, u16_le, EntryView, frame_of, seg_framed, HEADER_NUM_BYTES};
use crate::directory::LogDir;
use crate::errors::{PushApiError, WalError};
use crate::position::Position;
use crate::segment_writer::dir_view;
use crate::writer::{files_framed, wal_content, Writer};

verus! {

/// The most payload bytes one fetch or tail response may carry.
pub const FETCH_PAYLOAD_LIMIT: usize = 2 * 1024 * 1024;

/// A batch of documents for one index: the documents' bytes, back to
/// back, and their lengths.
#[derive(Debug, Clone)]
pub struct DocBatch {
    /// The index the documents belong to.
    pub index_id: String,
    /// All documents' bytes, concatenated.
    pub concat_docs: Vec<u8>,
    /// The documents' lengths, in order.
    pub doc_lens: Vec<u64>,
}

impl Default for DocBatch {
    /// An empty batch for the empty index identifier.
    fn default() -> (r: DocBatch)
        ensures
            r.index_id@ == Seq::<char>::empty(),
            r.concat_docs@ == Seq::<u8>::empty(),
            r.doc_lens@ == Seq::<u64>::empty(),
    {
        DocBatch { index_id: String::new(), concat_docs: Vec::new(), doc_lens: Vec::new() }
    }
}

/// A request to append document batches.
#[derive(Debug, Clone)]
pub struct IngestRequest {
    /// The batches to append, in order.
    pub doc_batches: Vec<DocBatch>,
}

/// The empty reply to an ingest.
#[derive(Debug, Clone, PartialEq, Eq, Structural)]
pub struct IngestResponse {}

/// A request for records of one index after a position.
#[derive(Debug, Clone)]
pub struct FetchRequest {
    /// The index to read.
    pub index_id: String,
    /// Return only records at offsets strictly greater than this one,
    /// when present.
    pub start_after: Option<u64>,
}

/// Records returned by a fetch or a tail.
#[derive(Debug, Clone)]
pub struct FetchResponse {
    /// Offset of the first returned record; absent when none matched.
    pub first_position: Option<u64>,
    /// The matching documents; absent when none matched.
    pub doc_batch: Option<DocBatch>,
}

impl Default for FetchResponse {
    /// An empty response.
    fn default() -> (r: FetchResponse)
        ensures
            r.first_position is None,
            r.doc_batch is None,
    {
        FetchResponse { first_position: None, doc_batch: None }
    }
}

/// A request to record a consumed watermark for one index.
#[derive(Debug, Clone)]
pub struct SuggestTruncateRequest {
    /// The index whose records were consumed.
    pub index_id: String,
    /// Every record of the index at this offset or below was consumed.
    pub up_to_position_included: u64,
}

/// The empty reply to a truncation suggestion.
#[derive(Debug, Clone, PartialEq, Eq, Structural)]
pub struct SuggestTruncateResponse {}

impl Default for SuggestTruncateResponse {
    /// The empty reply.
    fn default() -> (r: SuggestTruncateResponse)
    {
        SuggestTruncateResponse {}
    }
}

/// A request for the most recent records of one index.
#[derive(Debug, Clone)]
pub struct TailRequest {
    /// The index to read.
    pub index_id: String,
}

/// Whether two byte strings are equal.
fn bytes_eq(a: &[u8], b: &[u8]) -> (r: bool)
    ensures
        r == (a@ == b@),
{
    if a.len() != b.len() {
        proof {
            assert(a@ != b@) by {
                if a@ == b@ {
                    assert(a@.len() == b@.len());
                }
            }
        }
        return false;
    }
    let n = a.len();
    let mut i: usize = 0;
    while i < n
        invariant
            n == a@.len() == b@.len(),
            i <= n,
            forall|k: int| 0 <= k < i ==> a@[k] == b@[k],
        decreases n - i,
    {
        if a[i] != b[i] {
            proof {
                assert(a@ != b@);
            }
            return false;
        }
        i = i + 1;
    }
    proof {
        assert(a@ =~= b@);
    }
    true
}

/// The documents of a batch, as consecutive slices of the concatenated
/// bytes, each as long as its recorded length.
pub open spec fn doc_slices(concat: Seq<u8>, lens: Seq<u64>, start: int) -> Seq<Seq<u8>>
    decreases lens.len(),
{
    if lens.len() == 0 {
        Seq::empty()
    } else {
        seq![concat.subrange(start, start + lens[0])] + doc_slices(
            concat,
            lens.drop_first(),
            start + lens[0],
        )
    }
}

/// Whether the recorded lengths fit the concatenated bytes from `start`.
pub open spec fn lens_fit(concat: Seq<u8>, lens: Seq<u64>, start: int) -> bool
    decreases lens.len(),
{
    if lens.len() == 0 {
        true
    } else {
        start + lens[0] <= concat.len() && lens_fit(concat, lens.drop_first(), start + lens[0])
    }
}

/// Appends one document to a batch and returns its length in bytes.
pub fn add_doc(payload: &[u8], fetch_resp: &mut DocBatch) -> (r: usize)
    requires
        old(fetch_resp).concat_docs@.len() + payload@.len() <= usize::MAX,
        old(fetch_resp).doc_lens@.len() < usize::MAX,
    ensures
        final(fetch_resp).index_id == old(fetch_resp).index_id,
        final(fetch_resp).concat_docs@ == old(fetch_resp).concat_docs@ + payload@,
        final(fetch_resp).doc_lens@ == old(fetch_resp).doc_lens@.push(payload@.len() as u64),
        r == payload@.len(),
{
    fetch_resp.concat_docs.extend_from_slice(payload);
    fetch_resp.doc_lens.push(payload.len() as u64);
    payload.len()
}

/// The documents of a batch, each as an owned byte vector. Fails when
/// the recorded lengths describe more bytes than the batch holds.
pub fn iter_doc_payloads(doc_batch: &DocBatch) -> (r: Result<Vec<Vec<u8>>, PushApiError>)
    ensures
        match r {
            Ok(v) => {
                &&& lens_fit(doc_batch.concat_docs@, doc_batch.doc_lens@, 0)
                &&& v@.map_values(|d: Vec<u8>| d@) == doc_slices(
                    doc_batch.concat_docs@,
                    doc_batch.doc_lens@,
                    0,
                )
            },
            Err(e) => {
                &&& e == PushApiError::InvalidDocBatch
                &&& !lens_fit(doc_batch.concat_docs@, doc_batch.doc_lens@, 0)
            },
        },
{
    let mut out: Vec<Vec<u8>> = Vec::new();
    let mut start: usize = 0;
    let n = doc_batch.doc_lens.len();
    let mut i: usize = 0;
    proof {
        assert(doc_batch.doc_lens@.skip(0) =~= doc_batch.doc_lens@);
        assert(out@.map_values(|d: Vec<u8>| d@) =~= Seq::<Seq<u8>>::empty());
    }
    while i < n
        invariant
            i <= n,
            n == doc_batch.doc_lens@.len(),
            start <= doc_batch.concat_docs@.len(),
            out@.len() == i,
            out@.map_values(|d: Vec<u8>| d@) + doc_slices(
                doc_batch.concat_docs@,
                doc_batch.doc_lens@.skip(i as int),
                start as int,
            ) =~= doc_slices(doc_batch.concat_docs@, doc_batch.doc_lens@, 0),
            lens_fit(doc_batch.concat_docs@, doc_batch.doc_lens@.skip(i as int), start as int)
                ==> lens_fit(doc_batch.concat_docs@, doc_batch.doc_lens@, 0),
            !lens_fit(doc_batch.concat_docs@, doc_batch.doc_lens@.skip(i as int), start as int)
                ==> !lens_fit(doc_batch.concat_docs@, doc_batch.doc_lens@, 0),
        decreases n - i,
    {
        let len64 = doc_batch.doc_lens[i];
        let remaining = doc_batch.concat_docs.len() - start;
        if len64 > remaining as u64 {
            proof {
                assert(doc_batch.doc_lens@.skip(i as int)[0] == doc_batch.doc_lens@[i as int]);
            }
            return Err(PushApiError::InvalidDocBatch);
        }
        let len = len64 as usize;
        let piece = vstd::slice::slice_to_vec(
            vstd::slice::slice_subrange(doc_batch.concat_docs.as_slice(), start, start + len),
        );
        out.push(piece);
        proof {
            let lens = doc_batch.doc_lens@;
            assert(lens.skip(i as int)[0] == lens[i as int]);
            assert(lens.skip(i as int).drop_first() =~= lens.skip(i + 1));
            assert(out@.map_values(|d: Vec<u8>| d@) =~= out@.drop_last().map_values(
                |d: Vec<u8>| d@,
            ).push(out@.last()@));
        }
        start = start + len;
        i = i + 1;
    }
    proof {
        assert(doc_slices(
            doc_batch.concat_docs@,
            doc_batch.doc_lens@.skip(n as int),
            start as int,
        ) =~= Seq::<Seq<u8>>::empty());
        assert(out@.map_values(|d: Vec<u8>| d@) =~= doc_slices(
            doc_batch.concat_docs@,
            doc_batch.doc_lens@,
            0,
        ));
        assert(lens_fit(doc_batch.concat_docs@, doc_batch.doc_lens@.skip(n as int), start as int));
    }
    Ok(out)
}

/// The envelope of one record: the index identifier's length, its
/// bytes, then the document bytes.
pub open spec fn env_of(id: Seq<u8>, doc: Seq<u8>) -> Seq<u8> {
    u16_le(id.len() as u16) + id + doc
}

/// Splits a record into its index identifier and document, when the
/// envelope is well formed.
pub open spec fn env_decode(bytes: Seq<u8>) -> Option<(Seq<u8>, Seq<u8>)> {
    if bytes.len() < 2 {
        None
    } else {
        let l = le_u16(bytes[0], bytes[1]) as int;
        if 2 + l > bytes.len() {
            None
        } else {
            Some((bytes.subrange(2, 2 + l), bytes.subrange(2 + l, bytes.len() as int)))
        }
    }
}

/// Law: decoding an envelope gives back its identifier and document.
pub proof fn lemma_env_roundtrip(id: Seq<u8>, doc: Seq<u8>)
    requires
        id.len() <= u16::MAX,
    ensures
        env_decode(env_of(id, doc)) == Some((id, doc)),
{
    let e = env_of(id, doc);
    crate::codec::lemma_le_u16_roundtrip(id.len() as u16);
    assert(e[0] == (id.len() as u16 & 0xff) as u8);
    assert(e[1] == ((id.len() as u16 >> 8) & 0xff) as u8);
    assert(le_u16(e[0], e[1]) == id.len() as u16);
    assert(e.subrange(2, 2 + id.len() as int) =~= id);
    assert(e.subrange(2 + id.len() as int, e.len() as int) =~= doc);
}

/// Wraps one document in its envelope.
fn encode_tagged(id_bytes: &[u8], doc: &[u8]) -> (r: Vec<u8>)
    requires
        id_bytes@.len() <= u16::MAX,
        2 + id_bytes@.len() + doc@.len() <= usize::MAX,
    ensures
        r@ == env_of(id_bytes@, doc@),
{
    let l = id_bytes.len() as u16;
    let mut out: Vec<u8> = Vec::new();
    out.push((l & 0xff) as u8);
    out.push(((l >> 8) & 0xff) as u8);
    out.extend_from_slice(id_bytes);
    out.extend_from_slice(doc);
    proof {
        assert(out@ =~= env_of(id_bytes@, doc@));
    }
    out
}

/// Matching records as ghost pairs of offset and document bytes.
pub open spec fn match_views(v: Seq<(u64, Vec<u8>)>) -> Seq<(int, Seq<u8>)> {
    v.map_values(|p: (u64, Vec<u8>)| (p.0 as int, p.1@))
}

/// The records a scan returns, as entry views.
pub open spec fn entry_views(v: Seq<(u64, Vec<u8>)>) -> Seq<EntryView> {
    v.map_values(|p: (u64, Vec<u8>)| EntryView { offset: p.0 as int, payload: p.1@ })
}

/// Reads every record of the directory, in offset order.
///
/// Succeeds exactly when every file is a clean concatenation of frames;
/// the result then lists each record's offset and raw payload, matching
/// [`wal_entries`].
///
/// [`wal_entries`]: crate::reader::wal_entries
pub fn scan_entries(dir: &LogDir) -> (r: Result<Vec<(u64, Vec<u8>)>, WalError>)
    requires
        crate::directory::dir_wf(*dir),
    ensures
        r is Ok <==> files_framed(dir_view(*dir)),
        r matches Ok(v) ==> entry_views(v@) == crate::reader::wal_entries(dir.files@),
        r matches Err(e) ==> e is Corruption,
{
    let mut out: Vec<(u64, Vec<u8>)> = Vec::new();
    let n = dir.files.len();
    let mut i: usize = 0;
    proof {
        assert(dir.files@.take(0) =~= Seq::<crate::directory::SegmentFile>::empty());
        assert(crate::reader::wal_entries(dir.files@.take(0)) =~= Seq::<EntryView>::empty());
        assert(entry_views(out@) =~= Seq::<EntryView>::empty());
    }
    while i < n
        invariant
            i <= n,
            n == dir.files@.len(),
            crate::directory::dir_wf(*dir),
            forall|k: int| 0 <= k < i ==> seg_framed(#[trigger] dir.files@[k].data@),
            entry_views(out@) == crate::reader::wal_entries(dir.files@.take(i as int)),
        decreases n - i,
    {
        let base = dir.files[i].base_offset;
        let ghost data = dir.files@[i as int].data@;
        let ghost prev = crate::reader::wal_entries(dir.files@.take(i as int));
        let mut pos: usize = 0;
        proof {
            assert(dir.files@[i as int].spec_top() <= u64::MAX);
            assert(crate::codec::entries_from(data, 0, base as int) =~= Seq::<EntryView>::empty()
                + crate::codec::entries_from(data, 0, base as int));
        }
        let ghost mut done: Seq<EntryView> = Seq::empty();
        proof {
            assert(prev + done =~= prev);
            assert(entry_views(out@) == prev + done);
        }
        loop
            invariant_except_break
                n == dir.files@.len(),
                0 <= i < n,
                crate::directory::dir_wf(*dir),
                base == dir.files@[i as int].base_offset,
                data == dir.files@[i as int].data@,
                base + data.len() <= u64::MAX,
                pos <= data.len(),
                prev == crate::reader::wal_entries(dir.files@.take(i as int)),
                forall|k: int| 0 <= k < i ==> seg_framed(#[trigger] dir.files@[k].data@),
                crate::codec::entries_from(data, 0, base as int) =~= done
                    + crate::codec::entries_from(data, pos as int, base as int),
                crate::codec::framed_from(data, 0) <==> crate::codec::framed_from(
                    data,
                    pos as int,
                ),
                entry_views(out@) == prev + done,
            ensures
                n == dir.files@.len(),
                0 <= i < n,
                crate::directory::dir_wf(*dir),
                seg_framed(dir.files@[i as int].data@),
                forall|k: int| 0 <= k < i ==> seg_framed(#[trigger] dir.files@[k].data@),
                prev == crate::reader::wal_entries(dir.files@.take(i as int)),
                entry_views(out@) == prev + crate::codec::entries_from(
                    dir.files@[i as int].data@,
                    0,
                    dir.files@[i as int].base_offset as int,
                ),
            decreases data.len() - pos,
        {
            match crate::codec::decode_frame(dir.files[i].data.as_slice(), pos) {
                Ok(None) => {
                    proof {
                        assert(crate::codec::entries_from(data, pos as int, base as int)
                            =~= Seq::<EntryView>::empty());
                        assert(crate::codec::entries_from(data, 0, base as int) =~= done);
                        assert(crate::codec::framed_from(data, pos as int));
                    }
                    break ;
                },
                Ok(Some((payload, width))) => {
                    let offset = base + pos as u64;
                    proof {
                        let e = EntryView { offset: pos + base, payload: payload@ };
                        assert(crate::codec::decode_at(data, pos as int) == crate::codec::SpecDecoded::Record(
                            payload@,
                            width as int,
                        ));
                        assert(pos + width <= data.len());
                        assert(crate::codec::entries_from(data, pos as int, base as int)
                            =~= seq![e] + crate::codec::entries_from(
                            data,
                            pos + width,
                            base as int,
                        ));
                        assert(crate::codec::entries_from(data, 0, base as int) =~= done.push(e)
                            + crate::codec::entries_from(data, pos + width, base as int));
                        assert(prev + done.push(e) =~= (prev + done).push(e));
                    }
                    let ghost out0 = out@;
                    out.push((offset, payload));
                    let dlen = dir.files[i].data.len();
                    proof {
                        let e = EntryView { offset: pos + base, payload: payload@ };
                        done = done.push(e);
                        assert(entry_views(out@) =~= entry_views(out0).push(e));
                        assert(dlen == data.len());
                    }
                    pos = pos + width;
                },
                Err(e) => {
                    proof {
                        assert(!crate::codec::framed_from(data, pos as int));
                        assert(!crate::codec::framed_from(data, 0));
                        assert(!files_framed(dir_view(*dir))) by {
                            assert(dir_view(*dir)[i as int].data == data);
                        }
                    }
                    return Err(e);
                },
            }
        }
        proof {
            let files1 = dir.files@.take(i + 1);
            assert(files1.drop_last() =~= dir.files@.take(i as int));
            assert(files1.last() == dir.files@[i as int]);
            assert(crate::reader::wal_entries(files1) == prev + crate::codec::entries_from(
                dir.files@[i as int].data@,
                0,
                dir.files@[i as int].base_offset as int,
            ));
        }
        i = i + 1;
    }
    proof {
        assert(dir.files@.take(n as int) =~= dir.files@);
        assert(files_framed(dir_view(*dir))) by {
            assert(forall|k: int|
                0 <= k < n ==> (#[trigger] dir_view(*dir)[k]).data == dir.files@[k].data@);
        }
    }
    Ok(out)
}

/// Whether a record belongs to the index and lies after the position.
pub open spec fn matches_query(e: EntryView, id: Seq<u8>, after: Option<u64>) -> bool {
    &&& env_decode(e.payload) matches Some(p) && p.0 == id
    &&& match after {
        Some(a) => e.offset > a,
        None => true,
    }
}

/// The records a fetch returns: matching records in offset order, as
/// long as their accumulated document bytes stay within the budget.
pub open spec fn fetch_select(
    entries: Seq<EntryView>,
    id: Seq<u8>,
    after: Option<u64>,
    budget: int,
) -> Seq<(int, Seq<u8>)>
    decreases entries.len(),
{
    if entries.len() == 0 {
        Seq::empty()
    } else {
        let e = entries.first();
        let rest = entries.drop_first();
        if matches_query(e, id, after) {
            let doc = env_decode(e.payload)->Some_0.1;
            if doc.len() <= budget {
                seq![(e.offset, doc)] + fetch_select(rest, id, after, budget - doc.len())
            } else {
                Seq::empty()
            }
        } else {
            fetch_select(rest, id, after, budget)
        }
    }
}

/// All records of one index, in offset order.
pub open spec fn match_entries(entries: Seq<EntryView>, id: Seq<u8>) -> Seq<(int, Seq<u8>)>
    decreases entries.len(),
{
    if entries.len() == 0 {
        Seq::empty()
    } else {
        let e = entries.first();
        let rest = entries.drop_first();
        if matches_query(e, id, None) {
            seq![(e.offset, env_decode(e.payload)->Some_0.1)] + match_entries(rest, id)
        } else {
            match_entries(rest, id)
        }
    }
}

/// The records a tail returns: scanning from the most recent backwards,
/// records are taken while their accumulated document bytes stay within
/// the budget; the result is in offset order.
pub open spec fn tail_select(m: Seq<(int, Seq<u8>)>, budget: int) -> Seq<(int, Seq<u8>)>
    decreases m.len(),
{
    if m.len() == 0 {
        Seq::empty()
    } else if m.last().1.len() <= budget {
        tail_select(m.drop_last(), budget - m.last().1.len()).push(m.last())
    } else {
        Seq::empty()
    }
}

/// The documents of selected records, concatenated.
pub open spec fn concat_of(s: Seq<(int, Seq<u8>)>) -> Seq<u8>
    decreases s.len(),
{
    if s.len() == 0 {
        Seq::empty()
    } else {
        concat_of(s.drop_last()) + s.last().1
    }
}

/// The lengths of selected records' documents.
pub open spec fn lens_of(s: Seq<(int, Seq<u8>)>) -> Seq<u64> {
    s.map_values(|p: (int, Seq<u8>)| p.1.len() as u64)
}

/// Splits one record into identifier and document bytes.
fn decode_tagged(bytes: &[u8]) -> (r: Option<(Vec<u8>, Vec<u8>)>)
    ensures
        match r {
            Some((id, doc)) => env_decode(bytes@) == Some((id@, doc@)),
            None => env_decode(bytes@) is None,
        },
{
    if bytes.len() < 2 {
        return None;
    }
    let l = ((bytes[0] as u16) | ((bytes[1] as u16) << 8)) as usize;
    if l > bytes.len() - 2 {
        return None;
    }
    let id = vstd::slice::slice_to_vec(vstd::slice::slice_subrange(bytes, 2, 2 + l));
    let doc = vstd::slice::slice_to_vec(vstd::slice::slice_subrange(bytes, 2 + l, bytes.len()));
    Some((id, doc))
}

/// The index identifier's bytes.
pub open spec fn id_bytes_of(id: Seq<char>) -> Seq<u8> {
    vstd::utf8::encode_utf8(id)
}

/// Whether a batch can be appended: its lengths fit its bytes, its
/// identifier fits the envelope's length field, and every record fits a
/// frame's length field.
pub open spec fn batch_valid(b: DocBatch) -> bool {
    &&& lens_fit(b.concat_docs@, b.doc_lens@, 0)
    &&& id_bytes_of(b.index_id@).len() <= u16::MAX
    &&& forall|j: int|
        0 <= j < b.doc_lens@.len() ==> 2 + id_bytes_of(b.index_id@).len() + #[trigger] b.doc_lens@[j]
            < 0x1_0000_0000
}

/// Whether every batch of a request can be appended.
pub open spec fn batches_valid(bs: Seq<DocBatch>) -> bool {
    forall|i: int| 0 <= i < bs.len() ==> batch_valid(#[trigger] bs[i])
}

/// The on-disk size of one batch's records: header, envelope and
/// document bytes for each record.
pub open spec fn docs_env_len(id_len: int, lens: Seq<u64>) -> int
    decreases lens.len(),
{
    if lens.len() == 0 {
        0
    } else {
        HEADER_NUM_BYTES + 2 + id_len + lens.first() + docs_env_len(id_len, lens.drop_first())
    }
}

/// The on-disk size of a whole ingest request.
pub open spec fn ingest_len(bs: Seq<DocBatch>) -> int
    decreases bs.len(),
{
    if bs.len() == 0 {
        0
    } else {
        docs_env_len(id_bytes_of(bs.first().index_id@).len() as int, bs.first().doc_lens@)
            + ingest_len(bs.drop_first())
    }
}

/// The frames one batch appends to the log.
pub open spec fn docs_frames(id: Seq<u8>, docs: Seq<Seq<u8>>) -> Seq<u8>
    decreases docs.len(),
{
    if docs.len() == 0 {
        Seq::empty()
    } else {
        docs_frames(id, docs.drop_last()) + frame_of(env_of(id, docs.last()))
    }
}

/// The frames a whole ingest request appends to the log.
pub open spec fn ingest_frames(bs: Seq<DocBatch>) -> Seq<u8>
    decreases bs.len(),
{
    if bs.len() == 0 {
        Seq::empty()
    } else {
        ingest_frames(bs.drop_last()) + docs_frames(
            id_bytes_of(bs.last().index_id@),
            doc_slices(bs.last().concat_docs@, bs.last().doc_lens@, 0),
        )
    }
}

/// Batch sizes are never negative.
proof fn lemma_docs_env_len_nonneg(id_len: int, lens: Seq<u64>)
    requires
        id_len >= 0,
    ensures
        docs_env_len(id_len, lens) >= 0,
    decreases lens.len(),
{
    if lens.len() > 0 {
        lemma_docs_env_len_nonneg(id_len, lens.drop_first());
    }
}

/// Request sizes are never negative.
proof fn lemma_ingest_len_nonneg(bs: Seq<DocBatch>)
    ensures
        ingest_len(bs) >= 0,
    decreases bs.len(),
{
    if bs.len() > 0 {
        lemma_docs_env_len_nonneg(
            id_bytes_of(bs.first().index_id@).len() as int,
            bs.first().doc_lens@,
        );
        lemma_ingest_len_nonneg(bs.drop_first());
    }
}

/// Each document slice is as long as its recorded length.
proof fn lemma_doc_slices_len(concat: Seq<u8>, lens: Seq<u64>, start: int, j: int)
    requires
        lens_fit(concat, lens, start),
        0 <= start,
        0 <= j < lens.len(),
    ensures
        doc_slices(concat, lens, start).len() == lens.len(),
        doc_slices(concat, lens, start)[j].len() == lens[j],
    decreases j,
{
    lemma_doc_slices_count(concat, lens, start);
    if j > 0 {
        lemma_doc_slices_len(concat, lens.drop_first(), start + lens.first(), j - 1);
        lemma_doc_slices_count(concat, lens.drop_first(), start + lens.first());
    }
}

/// There is one slice per recorded length.
proof fn lemma_doc_slices_count(concat: Seq<u8>, lens: Seq<u64>, start: int)
    ensures
        doc_slices(concat, lens, start).len() == lens.len(),
    decreases lens.len(),
{
    if lens.len() > 0 {
        lemma_doc_slices_count(concat, lens.drop_first(), start + lens.first());
    }
}

/// The per-index queues over one write-ahead log directory.
pub struct Queues {
    /// The log's directory.
    pub dir: LogDir,
    /// The log's writer.
    pub writer: Writer,
    /// Consumed watermarks, one per index identifier.
    pub watermarks: Vec<(Vec<u8>, Position)>,
}

impl Queues {
    /// The queues are in step with their log, and every ingested record
    /// has been flushed: reads see all prior writes.
    pub open spec fn inv(&self) -> bool {
        &&& self.writer.inv(self.dir)
        &&& self.writer.sw.spec_pending() == Seq::<u8>::empty()
    }

    /// All records of the log, in offset order.
    pub open spec fn spec_entries(&self) -> Seq<EntryView> {
        crate::reader::wal_entries(self.dir.files@)
    }

    /// Opens the queues over a log directory, creating the first
    /// segment when the directory is empty.
    pub fn open(dir: LogDir, segment_max_num_bytes: u64) -> (r: Result<Queues, WalError>)
        requires
            segment_max_num_bytes >= 1,
        ensures
            r matches Ok(q) ==> {
                &&& q.inv()
                &&& q.watermarks@.len() == 0
                &&& q.writer.segment_max_num_bytes == segment_max_num_bytes
            },
            r matches Err(e) ==> !crate::directory::dir_wf(dir),
    {
        let mut dir = dir;
        let writer = match Writer::open(&mut dir, segment_max_num_bytes) {
            Ok(writer) => writer,
            Err(e) => {
                return Err(e);
            },
        };
        Ok(Queues { dir, writer, watermarks: Vec::new() })
    }

    /// Appends every document of every batch, tagged with its batch's
    /// index identifier, then flushes. Nothing is appended when a batch
    /// is malformed or the records would run past the largest offset.
    pub fn ingest(&mut self, request: IngestRequest) -> (r: Result<
        IngestResponse,
        PushApiError,
    >)
        requires
            old(self).inv(),
        ensures
            final(self).inv(),
            final(self).watermarks == old(self).watermarks,
            final(self).writer.segment_max_num_bytes == old(self).writer.segment_max_num_bytes,
            match r {
                Ok(_) => {
                    &&& batches_valid(request.doc_batches@)
                    &&& old(self).writer.spec_current_offset() + ingest_len(request.doc_batches@)
                        <= u64::MAX
                    &&& crate::writer::all_data(dir_view(final(self).dir)) == crate::writer::all_data(
                        dir_view(old(self).dir),
                    ) + ingest_frames(request.doc_batches@)
                    &&& final(self).writer.spec_current_offset() == old(
                        self,
                    ).writer.spec_current_offset() + ingest_len(request.doc_batches@)
                    &&& files_framed(dir_view(old(self).dir)) ==> files_framed(
                        dir_view(final(self).dir),
                    )
                },
                Err(e) => {
                    &&& *final(self) == *old(self)
                    &&& (e == PushApiError::InvalidDocBatch <==> !batches_valid(
                        request.doc_batches@,
                    ))
                    &&& batches_valid(request.doc_batches@) ==> (e == PushApiError::Wal(
                        WalError::Io,
                    ) && old(self).writer.spec_current_offset() + ingest_len(
                        request.doc_batches@,
                    ) > u64::MAX)
                },
            },
    {
        let ghost bs = request.doc_batches@;
        let nb = request.doc_batches.len();
        // First pass: validate every batch.
        let mut i: usize = 0;
        while i < nb
            invariant
                i <= nb,
                nb == bs.len(),
                request.doc_batches@ == bs,
                *self == *old(self),
                self.inv(),
                forall|k: int| 0 <= k < i ==> batch_valid(#[trigger] bs[k]),
            decreases nb - i,
        {
            let b = &request.doc_batches[i];
            match iter_doc_payloads(b) {
                Ok(_) => {},
                Err(_) => {
                    proof {
                        assert(!batch_valid(bs[i as int]));
                    }
                    return Err(PushApiError::InvalidDocBatch);
                },
            }
            let id_len = b.index_id.as_str().as_bytes().len();
            if id_len > u16::MAX as usize {
                proof {
                    assert(!batch_valid(bs[i as int]));
                }
                return Err(PushApiError::InvalidDocBatch);
            }
            let nd = b.doc_lens.len();
            let ghost lens = b.doc_lens@;
            let mut j: usize = 0;
            while j < nd
                invariant
                    j <= nd,
                    nd == lens.len(),
                    request.doc_batches@ == bs,
                    *self == *old(self),
                    self.inv(),
                    0 <= i < bs.len(),
                    lens == bs[i as int].doc_lens@,
                    id_len == id_bytes_of(bs[i as int].index_id@).len(),
                    id_len <= u16::MAX,
                    forall|k: int|
                        0 <= k < j ==> 2 + id_len + #[trigger] lens[k] < 0x1_0000_0000,
                decreases nd - j,
            {
                let l = request.doc_batches[i].doc_lens[j];
                if l > 0xffff_ffff - 2 - id_len as u64 {
                    proof {
                        assert(!batch_valid(bs[i as int])) by {
                            if batch_valid(bs[i as int]) {
                                assert(2 + id_bytes_of(bs[i as int].index_id@).len()
                                    + lens[j as int] < 0x1_0000_0000);
                            }
                        }
                    }
                    return Err(PushApiError::InvalidDocBatch);
                }
                j = j + 1;
            }
            proof {
                assert(lens_fit(bs[i as int].concat_docs@, lens, 0));
                assert(batch_valid(bs[i as int]));
            }
            i = i + 1;
        }
        proof {
            assert(batches_valid(bs));
            assert(bs.skip(0) =~= bs);
        }
        // Second pass: compute the total size and check it fits.
        let mut total: u64 = 0;
        let mut i: usize = 0;
        while i < nb
            invariant
                i <= nb,
                nb == bs.len(),
                request.doc_batches@ == bs,
                *self == *old(self),
                self.inv(),
                batches_valid(bs),
                total + ingest_len(bs.skip(i as int)) == ingest_len(bs),
                total >= 0,
            decreases nb - i,
        {
            let b = &request.doc_batches[i];
            let id_len = b.index_id.as_str().as_bytes().len();
            let nd = b.doc_lens.len();
            let ghost lens = b.doc_lens@;
            let mut j: usize = 0;
            let mut batch_total: u64 = 0;
            proof {
                assert(lens.skip(0) =~= lens);
                assert(bs.skip(i as int).first() == bs[i as int]);
                assert(bs.skip(i as int).drop_first() =~= bs.skip(i + 1));
                lemma_ingest_len_nonneg(bs.skip(i + 1));
            }
            while j < nd
                invariant
                    j <= nd,
                    nd == lens.len(),
                    request.doc_batches@ == bs,
                    *self == *old(self),
                    self.inv(),
                    batches_valid(bs),
                    0 <= i < bs.len(),
                    lens == bs[i as int].doc_lens@,
                    id_len == id_bytes_of(bs[i as int].index_id@).len(),
                    id_len <= u16::MAX,
                    batch_total + docs_env_len(id_len as int, lens.skip(j as int)) == docs_env_len(
                        id_len as int,
                        lens,
                    ),
                    batch_total >= 0,
                    total >= 0,
                    total + batch_total <= u64::MAX,
                    total + ingest_len(bs.skip(i as int)) == ingest_len(bs),
                    ingest_len(bs.skip(i as int)) == docs_env_len(id_len as int, lens)
                        + ingest_len(bs.skip(i + 1)),
                decreases nd - j,
            {
                let l = request.doc_batches[i].doc_lens[j];
                proof {
                    assert(lens.skip(j as int).first() == lens[j as int]);
                    assert(lens.skip(j as int).drop_first() =~= lens.skip(j + 1));
                    lemma_docs_env_len_nonneg(id_len as int, lens.skip(j + 1));
                    lemma_ingest_len_nonneg(bs.skip(i + 1));
                    assert(batch_valid(bs[i as int]));
                    assert(2 + id_len + lens[j as int] < 0x1_0000_0000);
                }
                let item = 12 + id_len as u64 + l;
                if batch_total > u64::MAX - item || total > u64::MAX - batch_total - item {
                    proof {
                        assert(ingest_len(bs) > u64::MAX);
                    }
                    return Err(PushApiError::Wal(WalError::Io));
                }
                batch_total = batch_total + item;
                j = j + 1;
            }
            proof {
                assert(lens.skip(nd as int) =~= Seq::<u64>::empty());
            }
            total = total + batch_total;
            i = i + 1;
        }
        proof {
            assert(bs.skip(nb as int) =~= Seq::<DocBatch>::empty());
            assert(total == ingest_len(bs));
        }
        let current = self.writer.current_offset();
        if total > u64::MAX - current {
            return Err(PushApiError::Wal(WalError::Io));
        }
        // Second pass: append every record, then flush.
        let ghost dir0 = self.dir;
        let ghost content0 = crate::writer::all_data(dir_view(dir0));
        let ghost framed0 = files_framed(dir_view(dir0));
        let mut i: usize = 0;
        proof {
            assert(bs.take(0) =~= Seq::<DocBatch>::empty());
            assert(wal_content(self.dir, self.writer) =~= content0);
            assert(content0 + ingest_frames(bs.take(0)) =~= content0);
            assert(bs.skip(0) =~= bs);
        }
        while i < nb
            invariant
                i <= nb,
                nb == bs.len(),
                request.doc_batches@ == bs,
                batches_valid(bs),
                self.writer.inv(self.dir),
                self.writer.segment_max_num_bytes == old(self).writer.segment_max_num_bytes,
                self.watermarks == old(self).watermarks,
                wal_content(self.dir, self.writer) == content0 + ingest_frames(bs.take(i as int)),
                self.writer.spec_current_offset() + ingest_len(bs.skip(i as int)) == old(
                    self,
                ).writer.spec_current_offset() + ingest_len(bs),
                old(self).writer.spec_current_offset() + ingest_len(bs) <= u64::MAX,
                framed0 == files_framed(dir_view(dir0)),
                content0 == crate::writer::all_data(dir_view(dir0)),
                framed0 ==> files_framed(dir_view(self.dir)) && seg_framed(
                    self.writer.sw.spec_pending(),
                ),
                dir_view(self.dir)[0].base == dir_view(dir0)[0].base,
            decreases nb - i,
        {
            let b = &request.doc_batches[i];
            let docs = match iter_doc_payloads(b) {
                Ok(docs) => docs,
                Err(_) => {
                    proof {
                        assert(false);
                    }
                    return Err(PushApiError::InvalidDocBatch);
                },
            };
            let id_vec = b.index_id.as_str().as_bytes_vec();
            let nd = docs.len();
            let ghost id = id_bytes_of(b.index_id@);
            let ghost sl = doc_slices(b.concat_docs@, b.doc_lens@, 0);
            let ghost lens = b.doc_lens@;
            let mut j: usize = 0;
            proof {
                assert(docs@.map_values(|d: Vec<u8>| d@) == sl);
                lemma_doc_slices_count(b.concat_docs@, lens, 0);
                assert(sl.take(0) =~= Seq::<Seq<u8>>::empty());
                assert(wal_content(self.dir, self.writer) + docs_frames(id, sl.take(0))
                    =~= wal_content(self.dir, self.writer));
                assert(lens.skip(0) =~= lens);
                assert(bs.skip(i as int).first() == bs[i as int]);
                assert(bs.skip(i as int).drop_first() =~= bs.skip(i + 1));
                lemma_ingest_len_nonneg(bs.skip(i + 1));
            }
            let ghost content_b = wal_content(self.dir, self.writer);
            while j < nd
                invariant
                    j <= nd,
                    nd == sl.len(),
                    nd == lens.len(),
                    0 <= i < bs.len(),
                    request.doc_batches@ == bs,
                    batches_valid(bs),
                    docs@.map_values(|d: Vec<u8>| d@) == sl,
                    sl == doc_slices(bs[i as int].concat_docs@, bs[i as int].doc_lens@, 0),
                    lens == bs[i as int].doc_lens@,
                    lens_fit(bs[i as int].concat_docs@, lens, 0),
                    id == id_bytes_of(bs[i as int].index_id@),
                    id_vec@ == id,
                    id.len() <= u16::MAX,
                    self.writer.inv(self.dir),
                    self.writer.segment_max_num_bytes == old(self).writer.segment_max_num_bytes,
                    self.watermarks == old(self).watermarks,
                    wal_content(self.dir, self.writer) == content_b + docs_frames(
                        id,
                        sl.take(j as int),
                    ),
                    self.writer.spec_current_offset() + docs_env_len(
                        id.len() as int,
                        lens.skip(j as int),
                    ) + ingest_len(bs.skip(i + 1)) <= u64::MAX,
                    self.writer.spec_current_offset() + docs_env_len(
                        id.len() as int,
                        lens.skip(j as int),
                    ) + ingest_len(bs.skip(i + 1)) == old(self).writer.spec_current_offset()
                        + ingest_len(bs),
                    framed0 ==> files_framed(dir_view(self.dir)) && seg_framed(
                        self.writer.sw.spec_pending(),
                    ),
                    dir_view(self.dir)[0].base == dir_view(dir0)[0].base,
                decreases nd - j,
            {
                proof {
                    lemma_doc_slices_len(bs[i as int].concat_docs@, lens, 0, j as int);
                    assert(lens.skip(j as int).first() == lens[j as int]);
                    assert(lens.skip(j as int).drop_first() =~= lens.skip(j + 1));
                    lemma_docs_env_len_nonneg(id.len() as int, lens.skip(j + 1));
                    lemma_ingest_len_nonneg(bs.skip(i + 1));
                    assert(docs@[j as int]@ == sl[j as int]);
                }
                let env = encode_tagged(id_vec.as_slice(), docs[j].as_slice());
                proof {
                    assert(env@.len() == 2 + id.len() + lens[j as int]);
                }
                match self.writer.append(&mut self.dir, env.as_slice()) {
                    Ok(_) => {},
                    Err(_) => {
                        proof {
                            assert(false);
                        }
                        return Err(PushApiError::Wal(WalError::Io));
                    },
                }
                proof {
                    assert(sl.take(j + 1).drop_last() =~= sl.take(j as int));
                    assert(sl.take(j + 1).last() == sl[j as int]);
                    assert(wal_content(self.dir, self.writer) =~= content_b + docs_frames(
                        id,
                        sl.take(j + 1),
                    ));
                }
                j = j + 1;
            }
            proof {
                assert(sl.take(nd as int) =~= sl);
                assert(lens.skip(nd as int) =~= Seq::<u64>::empty());
                assert(bs.take(i + 1).drop_last() =~= bs.take(i as int));
                assert(bs.take(i + 1).last() == bs[i as int]);
                assert(wal_content(self.dir, self.writer) =~= content0 + ingest_frames(
                    bs.take(i + 1),
                ));
            }
            i = i + 1;
        }
        match self.writer.flush(&mut self.dir) {
            Ok(()) => {},
            Err(_) => {
                proof {
                    assert(false);
                }
                return Err(PushApiError::Wal(WalError::Io));
            },
        }
        proof {
            assert(bs.take(nb as int) =~= bs);
            assert(bs.skip(nb as int) =~= Seq::<DocBatch>::empty());
        }
        Ok(IngestResponse {})
    }

    /// Returns the records of one index after `start_after`, in offset
    /// order, until all are drained or their bytes would exceed the
    /// fetch payload limit.
    #[verifier::rlimit(50)]
    pub fn fetch(&self, index_id: &str, start_after: Option<u64>) -> (r: Result<
        FetchResponse,
        PushApiError,
    >)
        requires
            self.inv(),
        ensures
            match r {
                Ok(resp) => {
                    &&& files_framed(dir_view(self.dir))
                    &&& ({
                        let sel = fetch_select(
                            self.spec_entries(),
                            id_bytes_of(index_id@),
                            start_after,
                            FETCH_PAYLOAD_LIMIT as int,
                        );
                        &&& sel.len() > 0 ==> ({
                            &&& resp.first_position == Some(sel[0].0 as u64)
                            &&& resp.doc_batch matches Some(b) && b.index_id@ == index_id@
                                && b.concat_docs@ == concat_of(sel) && b.doc_lens@ == lens_of(sel)
                        })
                        &&& sel.len() == 0 ==> resp.first_position is None && resp.doc_batch
                            is None
                    })
                },
                Err(e) => {
                    &&& !files_framed(dir_view(self.dir))
                    &&& e matches PushApiError::Wal(w) && w is Corruption
                },
            },
    {
        let entries = match scan_entries(&self.dir) {
            Ok(entries) => entries,
            Err(e) => {
                return Err(PushApiError::Wal(e));
            },
        };
        let id_vec = index_id.as_bytes_vec();
        let ghost es = self.spec_entries();
        let ghost id = id_bytes_of(index_id@);
        let ghost sel_full = fetch_select(es, id, start_after, FETCH_PAYLOAD_LIMIT as int);
        let n = entries.len();
        let mut k: usize = 0;
        let mut budget: usize = FETCH_PAYLOAD_LIMIT;
        let mut batch = DocBatch {
            index_id: index_id.to_owned(),
            concat_docs: Vec::new(),
            doc_lens: Vec::new(),
        };
        let mut first: Option<u64> = None;
        let ghost mut collected: Seq<(int, Seq<u8>)> = Seq::empty();
        proof {
            assert(entry_views(entries@) == es);
            assert(es.skip(0) =~= es);
            assert(concat_of(collected) =~= Seq::<u8>::empty());
            assert(lens_of(collected) =~= Seq::<u64>::empty());
            assert(collected + fetch_select(es.skip(0), id, start_after, budget as int)
                =~= fetch_select(es, id, start_after, FETCH_PAYLOAD_LIMIT as int));
        }
        loop
            invariant_except_break
                n == entries@.len(),
                k <= n,
                es == entry_views(entries@),
                id == id_bytes_of(index_id@),
                id_vec@ == id,
                sel_full == fetch_select(es, id, start_after, FETCH_PAYLOAD_LIMIT as int),
                sel_full == collected + fetch_select(
                    es.skip(k as int),
                    id,
                    start_after,
                    budget as int,
                ),
                batch.index_id@ == index_id@,
                batch.concat_docs@ == concat_of(collected),
                batch.doc_lens@ == lens_of(collected),
                budget + batch.concat_docs@.len() == FETCH_PAYLOAD_LIMIT,
                collected.len() <= k,
                collected.len() == 0 <==> first is None,
                collected.len() > 0 ==> first == Some(collected[0].0 as u64) && 0
                    <= collected[0].0 <= u64::MAX,
            ensures
                sel_full == collected,
                batch.index_id@ == index_id@,
                batch.concat_docs@ == concat_of(collected),
                batch.doc_lens@ == lens_of(collected),
                collected.len() == 0 <==> first is None,
                collected.len() > 0 ==> first == Some(collected[0].0 as u64),
            decreases n - k,
        {
            if k >= n {
                proof {
                    assert(es.skip(k as int) =~= Seq::<EntryView>::empty());
                    assert(sel_full =~= collected);
                }
                break ;
            }
            let ghost e = es[k as int];
            proof {
                assert(es.skip(k as int).first() == e);
                assert(es.skip(k as int).drop_first() =~= es.skip(k + 1));
                assert(e.offset == entries@[k as int].0 && e.payload == entries@[k as int].1@);
            }
            let offset = entries[k].0;
            let matched = match decode_tagged(entries[k].1.as_slice()) {
                Some((eid, doc)) => {
                    if bytes_eq(eid.as_slice(), id_vec.as_slice()) {
                        let in_range = match start_after {
                            Some(a) => offset > a,
                            None => true,
                        };
                        if in_range {
                            proof {
                                assert(matches_query(e, id, start_after));
                            }
                            Some(doc)
                        } else {
                            proof {
                                assert(!matches_query(e, id, start_after));
                            }
                            None
                        }
                    } else {
                        proof {
                            assert(!matches_query(e, id, start_after));
                        }
                        None
                    }
                },
                None => {
                    proof {
                        assert(!matches_query(e, id, start_after));
                    }
                    None
                },
            };
            match matched {
                Some(doc) => {
                    if doc.len() > budget {
                        proof {
                            assert(fetch_select(es.skip(k as int), id, start_after, budget as int)
                                =~= Seq::<(int, Seq<u8>)>::empty());
                            assert(sel_full =~= collected);
                        }
                        break ;
                    }
                    if first.is_none() {
                        first = Some(offset);
                    }
                    let ghost collected0 = collected;
                    add_doc(doc.as_slice(), &mut batch);
                    budget = budget - doc.len();
                    proof {
                        let item = (e.offset, env_decode(e.payload)->Some_0.1);
                        collected = collected.push(item);
                        assert(concat_of(collected) =~= concat_of(collected0) + item.1) by {
                            assert(collected.drop_last() =~= collected0);
                        }
                        assert(lens_of(collected) =~= lens_of(collected0).push(
                            item.1.len() as u64,
                        ));
                        assert(collected0 + fetch_select(
                            es.skip(k as int),
                            id,
                            start_after,
                            budget as int + item.1.len(),
                        ) =~= collected + fetch_select(es.skip(k + 1), id, start_after, budget as int));
                        if collected0.len() == 0 {
                            assert(collected[0] == item);
                        } else {
                            assert(collected[0] == collected0[0]);
                        }
                    }
                },
                None => {
                    proof {
                        assert(fetch_select(es.skip(k as int), id, start_after, budget as int)
                            == fetch_select(es.skip(k + 1), id, start_after, budget as int));
                    }
                },
            }
            k = k + 1;
        }
        if first.is_none() {
            proof {
                assert(sel_full.len() == 0);
            }
            return Ok(FetchResponse { first_position: None, doc_batch: None });
        }
        Ok(FetchResponse { first_position: first, doc_batch: Some(batch) })
    }

    /// Returns the most recent records of one index, scanning from the
    /// tail backwards until their bytes would exceed the fetch payload
    /// limit; the result is in offset order.
    #[verifier::rlimit(50)]
    pub fn tail(&self, index_id: &str) -> (r: Result<FetchResponse, PushApiError>)
        requires
            self.inv(),
        ensures
            match r {
                Ok(resp) => {
                    &&& files_framed(dir_view(self.dir))
                    &&& ({
                        let sel = tail_select(
                            match_entries(self.spec_entries(), id_bytes_of(index_id@)),
                            FETCH_PAYLOAD_LIMIT as int,
                        );
                        &&& sel.len() > 0 ==> ({
                            &&& resp.first_position == Some(sel[0].0 as u64)
                            &&& resp.doc_batch matches Some(b) && b.index_id@ == index_id@
                                && b.concat_docs@ == concat_of(sel) && b.doc_lens@ == lens_of(sel)
                        })
                        &&& sel.len() == 0 ==> resp.first_position is None && resp.doc_batch
                            is None
                    })
                },
                Err(e) => {
                    &&& !files_framed(dir_view(self.dir))
                    &&& e matches PushApiError::Wal(w) && w is Corruption
                },
            },
    {
        let entries = match scan_entries(&self.dir) {
            Ok(entries) => entries,
            Err(e) => {
                return Err(PushApiError::Wal(e));
            },
        };
        let id_vec = index_id.as_bytes_vec();
        let ghost es = self.spec_entries();
        let ghost id = id_bytes_of(index_id@);
        // Collect every record of the index, in offset order.
        let mut matching: Vec<(u64, Vec<u8>)> = Vec::new();
        let n = entries.len();
        let mut k: usize = 0;
        let ghost mut mseq: Seq<(int, Seq<u8>)> = Seq::empty();
        proof {
            assert(entry_views(entries@) == es);
            assert(es.skip(0) =~= es);
            assert(mseq + match_entries(es.skip(0), id) =~= match_entries(es, id));
        }
        while k < n
            invariant
                n == entries@.len(),
                k <= n,
                es == entry_views(entries@),
                id == id_bytes_of(index_id@),
                id_vec@ == id,
                mseq + match_entries(es.skip(k as int), id) == match_entries(es, id),
                mseq == match_views(matching@),
            decreases n - k,
        {
            let ghost e = es[k as int];
            proof {
                assert(es.skip(k as int).first() == e);
                assert(es.skip(k as int).drop_first() =~= es.skip(k + 1));
                assert(e.offset == entries@[k as int].0 && e.payload == entries@[k as int].1@);
            }
            match decode_tagged(entries[k].1.as_slice()) {
                Some((eid, doc)) => {
                    if bytes_eq(eid.as_slice(), id_vec.as_slice()) {
                        proof {
                            assert(matches_query(e, id, None));
                        }
                        let ghost mseq0 = mseq;
                        let ghost matching0 = matching@;
                        matching.push((entries[k].0, doc));
                        proof {
                            let item = (e.offset, env_decode(e.payload)->Some_0.1);
                            mseq = mseq.push(item);
                            assert(match_entries(es.skip(k as int), id) =~= seq![item]
                                + match_entries(es.skip(k + 1), id));
                            assert(mseq + match_entries(es.skip(k + 1), id) =~= mseq0
                                + match_entries(es.skip(k as int), id));
                            assert(mseq =~= match_views(matching@)) by {
                                assert(matching@ == matching0.push((entries@[k as int].0, doc)));
                            }
                        }
                    } else {
                        proof {
                            assert(!matches_query(e, id, None));
                            assert(match_entries(es.skip(k as int), id) == match_entries(
                                es.skip(k + 1),
                                id,
                            ));
                        }
                    }
                },
                None => {
                    proof {
                        assert(!matches_query(e, id, None));
                        assert(match_entries(es.skip(k as int), id) == match_entries(
                            es.skip(k + 1),
                            id,
                        ));
                    }
                },
            }
            k = k + 1;
        }
        proof {
            assert(es.skip(n as int) =~= Seq::<EntryView>::empty());
            assert(mseq =~= match_entries(es, id));
        }
        // Walk backwards until the batch is full.
        let start = tail_start(&matching, matching.len(), FETCH_PAYLOAD_LIMIT, Ghost(mseq));
        let ghost sel = tail_select(mseq, FETCH_PAYLOAD_LIMIT as int);
        proof {
            assert(mseq.subrange(0, matching@.len() as int) =~= mseq);
            assert(sel == mseq.subrange(start as int, matching@.len() as int));
        }
        if start == matching.len() {
            proof {
                assert(sel.len() == 0);
            }
            return Ok(FetchResponse { first_position: None, doc_batch: None });
        }
        let mut batch = DocBatch {
            index_id: index_id.to_owned(),
            concat_docs: Vec::new(),
            doc_lens: Vec::new(),
        };
        let first = matching[start].0;
        let mut k: usize = start;
        let ghost mut built: Seq<(int, Seq<u8>)> = Seq::empty();
        proof {
            assert(sel =~= mseq.subrange(start as int, matching@.len() as int));
            assert(concat_of(built) =~= Seq::<u8>::empty());
            assert(lens_of(built) =~= Seq::<u64>::empty());
            assert(sel[0] == mseq[start as int]);
            lemma_tail_select_budget(mseq, FETCH_PAYLOAD_LIMIT as int);
            lemma_concat_of_prefix(sel, 0);
            assert(mseq.subrange(start as int, start as int) =~= Seq::<(int, Seq<u8>)>::empty());
            assert(built == mseq.subrange(start as int, start as int));
        }
        while k < matching.len()
            invariant
                start <= k <= matching@.len(),
                start < matching@.len(),
                mseq == match_views(matching@),
                sel == tail_select(mseq, FETCH_PAYLOAD_LIMIT as int),
                sel == mseq.subrange(start as int, matching@.len() as int),
                built == mseq.subrange(start as int, k as int),
                batch.index_id@ == index_id@,
                batch.concat_docs@ == concat_of(built),
                batch.doc_lens@ == lens_of(built),
                concat_of(built).len() <= concat_of(sel).len(),
                concat_of(sel).len() <= FETCH_PAYLOAD_LIMIT,
            decreases matching@.len() - k,
        {
            let ghost built0 = built;
            proof {
                let item = mseq[k as int];
                assert(sel.len() > k - start);
                assert(mseq.subrange(start as int, k + 1).drop_last() =~= mseq.subrange(
                    start as int,
                    k as int,
                ));
                lemma_concat_of_prefix(sel, k - start + 1);
                assert(sel.subrange(0, k - start + 1).drop_last() =~= sel.subrange(
                    0,
                    k - start,
                ));
                assert(sel.subrange(0, k - start + 1) =~= mseq.subrange(start as int, k + 1));
                assert(sel.subrange(0, k - start) =~= mseq.subrange(start as int, k as int));
                assert(concat_of(mseq.subrange(start as int, k + 1)) == concat_of(built0)
                    + item.1);
            }
            add_doc(matching[k].1.as_slice(), &mut batch);
            proof {
                built = built.push(mseq[k as int]);
                assert(built =~= mseq.subrange(start as int, k + 1));
                assert(built.drop_last() =~= built0);
                assert(lens_of(built) =~= lens_of(built0).push(mseq[k as int].1.len() as u64));
            }
            k = k + 1;
        }
        proof {
            assert(built =~= sel);
        }
        Ok(FetchResponse { first_position: Some(first), doc_batch: Some(batch) })
    }
}

/// The watermarks as ghost pairs of identifier bytes and position.
pub open spec fn wm_views(ws: Seq<(Vec<u8>, Position)>) -> Seq<(Seq<u8>, Position)> {
    ws.map_values(|p: (Vec<u8>, Position)| (p.0@, p.1))
}

/// A watermark list after recording one index's position: the first
/// entry with the identifier is replaced, or a new entry is appended.
pub open spec fn wm_update(ws: Seq<(Seq<u8>, Position)>, id: Seq<u8>, p: Position) -> Seq<
    (Seq<u8>, Position),
>
    decreases ws.len(),
{
    if ws.len() == 0 {
        seq![(id, p)]
    } else if ws.first().0 == id {
        seq![(id, p)] + ws.drop_first()
    } else {
        seq![ws.first()] + wm_update(ws.drop_first(), id, p)
    }
}

/// Whether every queue's watermark is at an offset.
pub open spec fn wm_all_offsets(ws: Seq<(Seq<u8>, Position)>) -> bool {
    forall|i: int| 0 <= i < ws.len() ==> (#[trigger] ws[i].1) is Offset
}

/// The least watermark offset.
pub open spec fn wm_min(ws: Seq<(Seq<u8>, Position)>) -> int
    decreases ws.len(),
{
    if ws.len() == 0 {
        0
    } else if ws.len() == 1 {
        ws.first().1->Offset_0 as int
    } else {
        let rest = wm_min(ws.drop_first());
        let first = ws.first().1->Offset_0 as int;
        if first <= rest {
            first
        } else {
            rest
        }
    }
}

/// The bytes a selection holds never exceed its budget.
proof fn lemma_tail_select_budget(m: Seq<(int, Seq<u8>)>, budget: int)
    requires
        budget >= 0,
    ensures
        concat_of(tail_select(m, budget)).len() <= budget,
    decreases m.len(),
{
    if m.len() > 0 && m.last().1.len() <= budget {
        lemma_tail_select_budget(m.drop_last(), budget - m.last().1.len());
        let pre = tail_select(m.drop_last(), budget - m.last().1.len());
        assert(tail_select(m, budget) == pre.push(m.last()));
        assert(pre.push(m.last()).drop_last() =~= pre);
    }
}

/// A prefix of a selection contributes a prefix of its bytes.
proof fn lemma_concat_of_prefix(s: Seq<(int, Seq<u8>)>, j: int)
    requires
        0 <= j <= s.len(),
    ensures
        concat_of(s.subrange(0, j)).len() <= concat_of(s).len(),
        concat_of(s).len() >= 0,
    decreases s.len(),
{
    if s.len() == 0 {
        assert(s.subrange(0, j) =~= s);
    } else if j == s.len() {
        assert(s.subrange(0, j) =~= s);
        lemma_concat_of_prefix(s.drop_last(), s.len() - 1);
        assert(s.drop_last().subrange(0, s.len() - 1) =~= s.drop_last());
    } else {
        lemma_concat_of_prefix(s.drop_last(), j);
        assert(s.drop_last().subrange(0, j) =~= s.subrange(0, j));
    }
}

impl Queues {
    /// Records that every record of the index up to the given position
    /// was consumed. When all queues' watermarks are at offsets, sealed
    /// segments wholly below the least watermark are deleted; the write
    /// segment never is. Truncation is best effort and the call always
    /// succeeds.
    pub fn suggest_truncate(&mut self, index_id: &str, up_to_position_included: Position) -> (r:
        Result<SuggestTruncateResponse, PushApiError>)
        requires
            old(self).inv(),
        ensures
            r == Ok::<SuggestTruncateResponse, PushApiError>(SuggestTruncateResponse {  }),
            final(self).inv(),
            final(self).writer.segment_max_num_bytes == old(self).writer.segment_max_num_bytes,
            wm_views(final(self).watermarks@) == wm_update(
                wm_views(old(self).watermarks@),
                id_bytes_of(index_id@),
                up_to_position_included,
            ),
            !wm_all_offsets(wm_views(final(self).watermarks@)) ==> final(self).dir.files@ == old(
                self,
            ).dir.files@,
            wm_all_offsets(wm_views(final(self).watermarks@)) ==> ({
                let m = wm_min(wm_views(final(self).watermarks@));
                final(self).dir.files@ == crate::directory::truncated_files(
                    old(self).dir.files@,
                    m as u64,
                )
            }),
    {
        let id_vec = index_id.as_bytes_vec();
        let ghost id = id_bytes_of(index_id@);
        let ghost ws0 = wm_views(self.watermarks@);
        // Record the watermark.
        let n = self.watermarks.len();
        let mut k: usize = 0;
        let mut found = false;
        while k < n && !found
            invariant
                k <= n,
                n == self.watermarks@.len(),
                id_vec@ == id,
                ws0 == wm_views(self.watermarks@),
                *self == *old(self),
                forall|j: int| 0 <= j < k ==> (#[trigger] ws0[j]).0 != id,
                found ==> k < n && ws0[k as int].0 == id,
            decreases n - k + (if found { 0int } else { 1int }),
        {
            if bytes_eq(self.watermarks[k].0.as_slice(), id_vec.as_slice()) {
                found = true;
            } else {
                k = k + 1;
            }
        }
        if found {
            let mut entry = self.watermarks.remove(k);
            entry.1 = up_to_position_included;
            self.watermarks.insert(k, entry);
            proof {
                assert(self.watermarks@ =~= old(self).watermarks@.update(
                    k as int,
                    self.watermarks@[k as int],
                ));
                lemma_wm_update_found(ws0, id, up_to_position_included, k as int);
                assert(wm_views(self.watermarks@) =~= wm_update(
                    ws0,
                    id,
                    up_to_position_included,
                ));
            }
        } else {
            let mut key = id_vec;
            self.watermarks.push((key, up_to_position_included));
            proof {
                lemma_wm_update_missing(ws0, id, up_to_position_included);
                assert(wm_views(self.watermarks@) =~= wm_update(
                    ws0,
                    id,
                    up_to_position_included,
                ));
            }
        }
        // Compute the least watermark; any queue still at the beginning
        // blocks truncation.
        let m = self.watermarks.len();
        let ghost ws = wm_views(self.watermarks@);
        let mut min_off: Option<u64> = None;
        let mut t: usize = 0;
        while t < m
            invariant
                t <= m,
                m == self.watermarks@.len(),
                ws == wm_views(self.watermarks@),
                ws == wm_update(
                    wm_views(old(self).watermarks@),
                    id_bytes_of(index_id@),
                    up_to_position_included,
                ),
                self.dir == old(self).dir,
                self.writer == old(self).writer,
                self.inv(),
                m > 0,
                t > 0 ==> (match min_off {
                    Some(v) => wm_all_offsets(ws.subrange(0, t as int)) && v as int == wm_min(
                        ws.subrange(0, t as int),
                    ),
                    None => !wm_all_offsets(ws.subrange(0, t as int)),
                }),
                t == 0 ==> min_off is None,
            decreases m - t,
        {
            let p = self.watermarks[t].1;
            proof {
                assert(ws[t as int].1 == p);
            }
            match (p, min_off) {
                (Position::Beginning, _) => {
                    proof {
                        assert(!wm_all_offsets(ws.subrange(0, m as int))) by {
                            assert(ws.subrange(0, m as int)[t as int].1 is Beginning);
                        }
                    }
                    min_off = None;
                    t = m;
                    proof {
                        assert(ws.subrange(0, m as int) =~= ws);
                    }
                },
                (Position::Offset(x), None) => {
                    if t == 0 {
                        min_off = Some(x);
                        proof {
                            lemma_wm_min_extend(ws, t as int, x);
                        }
                        t = t + 1;
                    } else {
                        // A queue before this one was at the beginning.
                        proof {
                            assert(!wm_all_offsets(ws.subrange(0, t as int)));
                            assert(!wm_all_offsets(ws)) by {
                                let j = choose|j: int|
                                    0 <= j < t && !((#[trigger] ws.subrange(0, t as int)[j]).1
                                        is Offset);
                                assert(ws[j].1 == ws.subrange(0, t as int)[j].1);
                            }
                        }
                        min_off = None;
                        t = m;
                    }
                },
                (Position::Offset(x), Some(v)) => {
                    let nv = if x < v {
                        x
                    } else {
                        v
                    };
                    proof {
                        lemma_wm_min_extend(ws, t as int, x);
                    }
                    min_off = Some(nv);
                    t = t + 1;
                },
            }
        }
        proof {
            assert(ws.subrange(0, m as int) =~= ws);
        }
        let trunc = match min_off {
            Some(v) => v,
            None => {
                return Ok(SuggestTruncateResponse {});
            },
        };
        let ghost files0 = self.dir.files@;
        match crate::directory::truncate_wal(&mut self.dir, trunc) {
            Ok(()) => {},
            Err(e) => {
                proof {
                    let segs = crate::directory::segs_of(files0);
                    assert(exists|s: Seq<crate::directory::Segment>|
                        crate::directory::segs_wf(s) && s.to_multiset() == crate::directory::segs_of(
                            files0,
                        ).to_multiset()) by {
                        assert(crate::directory::segs_wf(segs) && segs.to_multiset()
                            == crate::directory::segs_of(files0).to_multiset());
                    }
                    assert(false);
                }
                return Err(PushApiError::Wal(e));
            },
        }
        proof {
            crate::directory::lemma_truncated_files_wf(files0, trunc);
            assert(crate::directory::dir_wf(self.dir));
            // The write segment survives truncation, so the directory
            // stays non-empty.
            let last = files0[files0.len() - 1];
            assert(crate::directory::is_write_base(files0, last.base_offset)) by {
                assert forall|i: int| 0 <= i < files0.len() implies files0[i].base_offset
                    <= last.base_offset by {
                    if i < files0.len() - 1 {
                        assert(crate::directory::segs_of(files0)[i].base_offset
                            < crate::directory::segs_of(files0)[files0.len() - 1].base_offset);
                    }
                }
            }
            assert(crate::directory::survives_truncate(files0, last, trunc));
            assert(crate::directory::survives_pred(files0, trunc)(last));
            files0.lemma_filter_contains(
                crate::directory::survives_pred(files0, trunc),
                files0.len() - 1,
            );
            assert(crate::directory::truncated_files(files0, trunc).contains(last));
            assert(self.dir.files@.len() > 0);
        }
        // Re-open the writer over the truncated directory; the write
        // segment always survives, so this succeeds on every directory
        // the writer produced.
        let writer = match Writer::open(&mut self.dir, self.writer.segment_max_num_bytes) {
            Ok(writer) => writer,
            Err(e) => {
                proof {
                    assert(false);
                }
                return Err(PushApiError::Wal(e));
            },
        };
        self.writer = writer;
        proof {
            assert(files0 == old(self).dir.files@);
            assert(wm_min(wm_views(self.watermarks@)) == trunc as int);
            assert(wm_min(wm_views(self.watermarks@)) as u64 == trunc);
        }
        Ok(SuggestTruncateResponse {})
    }
}

/// Recording a present key replaces its entry in place.
proof fn lemma_wm_update_found(ws: Seq<(Seq<u8>, Position)>, id: Seq<u8>, p: Position, k: int)
    requires
        0 <= k < ws.len(),
        ws[k].0 == id,
        forall|j: int| 0 <= j < k ==> (#[trigger] ws[j]).0 != id,
    ensures
        wm_update(ws, id, p) == ws.update(k, (id, p)),
    decreases k,
{
    if k == 0 {
        assert(wm_update(ws, id, p) =~= ws.update(0, (id, p)));
    } else {
        assert(forall|j: int| 0 <= j < k - 1 ==> (#[trigger] ws.drop_first()[j]).0 != id);
        assert(ws.drop_first()[k - 1].0 == id);
        lemma_wm_update_found(ws.drop_first(), id, p, k - 1);
        assert(wm_update(ws, id, p) =~= ws.update(k, (id, p)));
    }
}

/// Recording an absent key appends a new entry.
proof fn lemma_wm_update_missing(ws: Seq<(Seq<u8>, Position)>, id: Seq<u8>, p: Position)
    requires
        forall|j: int| 0 <= j < ws.len() ==> (#[trigger] ws[j]).0 != id,
    ensures
        wm_update(ws, id, p) == ws.push((id, p)),
    decreases ws.len(),
{
    if ws.len() == 0 {
        assert(wm_update(ws, id, p) =~= ws.push((id, p)));
    } else {
        assert(forall|j: int| 0 <= j < ws.len() - 1 ==> (#[trigger] ws.drop_first()[j]).0 != id);
        lemma_wm_update_missing(ws.drop_first(), id, p);
        assert(wm_update(ws, id, p) =~= ws.push((id, p)));
    }
}

/// Extending an all-offset prefix by one offset keeps the least offset.
proof fn lemma_wm_min_extend(ws: Seq<(Seq<u8>, Position)>, t: int, x: u64)
    requires
        0 <= t < ws.len(),
        ws[t].1 == Position::Offset(x),
        t == 0 || wm_all_offsets(ws.subrange(0, t)),
    ensures
        wm_all_offsets(ws.subrange(0, t + 1)),
        t == 0 ==> wm_min(ws.subrange(0, t + 1)) == x as int,
        t > 0 ==> wm_min(ws.subrange(0, t + 1)) == (if x as int <= wm_min(ws.subrange(0, t)) {
            x as int
        } else {
            wm_min(ws.subrange(0, t))
        }),
{
    assert(wm_all_offsets(ws.subrange(0, t + 1))) by {
        assert(forall|j: int|
            0 <= j < t ==> (#[trigger] ws.subrange(0, t + 1)[j]) == ws.subrange(0, t)[j]);
        assert(ws.subrange(0, t + 1)[t].1 is Offset);
    }
    if t == 0 {
        assert(ws.subrange(0, 1) =~= seq![ws[0]]);
        assert(wm_min(seq![ws[0]]) == x as int);
    } else {
        lemma_wm_min_last(ws.subrange(0, t + 1));
        assert(ws.subrange(0, t + 1).drop_last() =~= ws.subrange(0, t));
        assert(ws.subrange(0, t + 1).last() == ws[t]);
    }
}

/// The least offset of a non-trivial list splits on its last entry.
proof fn lemma_wm_min_last(ws: Seq<(Seq<u8>, Position)>)
    requires
        ws.len() >= 2,
        wm_all_offsets(ws),
    ensures
        wm_min(ws) == (if ws.last().1->Offset_0 as int <= wm_min(ws.drop_last()) {
            ws.last().1->Offset_0 as int
        } else {
            wm_min(ws.drop_last())
        }),
    decreases ws.len(),
{
    if ws.len() == 2 {
        assert(ws.drop_first() =~= seq![ws[1]]);
        assert(ws.drop_last() =~= seq![ws[0]]);
        assert(wm_min(seq![ws[1]]) == ws[1].1->Offset_0 as int);
        assert(wm_min(seq![ws[0]]) == ws[0].1->Offset_0 as int);
        assert(wm_min(ws) == (if ws.first().1->Offset_0 as int <= wm_min(ws.drop_first()) {
            ws.first().1->Offset_0 as int
        } else {
            wm_min(ws.drop_first())
        }));
    } else {
        assert(wm_all_offsets(ws.drop_first())) by {
            assert(forall|j: int|
                0 <= j < ws.len() - 1 ==> (#[trigger] ws.drop_first()[j]) == ws[j + 1]);
        }
        lemma_wm_min_last(ws.drop_first());
        assert(ws.drop_first().drop_last() =~= ws.drop_last().drop_first());
        assert(ws.drop_first().last() == ws.last());
        assert(ws.drop_last().first() == ws.first());
        assert(ws.drop_first().first() == ws[1]);
        assert(wm_all_offsets(ws.drop_last())) by {
            assert(forall|j: int|
                0 <= j < ws.len() - 1 ==> (#[trigger] ws.drop_last()[j]) == ws[j]);
        }
        assert(wm_min(ws) == (if ws.first().1->Offset_0 as int <= wm_min(ws.drop_first()) {
            ws.first().1->Offset_0 as int
        } else {
            wm_min(ws.drop_first())
        }));
        assert(wm_min(ws.drop_last()) == (if ws.drop_last().first().1->Offset_0 as int <= wm_min(
            ws.drop_last().drop_first(),
        ) {
            ws.drop_last().first().1->Offset_0 as int
        } else {
            wm_min(ws.drop_last().drop_first())
        }));
        assert(wm_min(ws.drop_last().drop_first()) == wm_min(ws.drop_first().drop_last()));
    }
}

/// Finds where the tail batch starts: walking backwards from `end`,
/// records are taken while they fit the budget; returns the first index
/// taken, so that the slice from it to `end` is the selection.
fn tail_start(
    matching: &Vec<(u64, Vec<u8>)>,
    end: usize,
    budget: usize,
    Ghost(mseq): Ghost<Seq<(int, Seq<u8>)>>,
) -> (start: usize)
    requires
        end <= matching@.len(),
        mseq == match_views(matching@),
    ensures
        start <= end,
        tail_select(mseq.subrange(0, end as int), budget as int) == mseq.subrange(
            start as int,
            end as int,
        ),
    decreases end,
{
    if end == 0 {
        proof {
            assert(mseq.subrange(0, 0) =~= Seq::<(int, Seq<u8>)>::empty());
        }
        return 0;
    }
    let last_len = matching[end - 1].1.len();
    proof {
        assert(mseq.subrange(0, end as int).last() == mseq[end - 1]);
        assert(mseq.subrange(0, end as int).drop_last() =~= mseq.subrange(0, end - 1));
    }
    if last_len <= budget {
        let start = tail_start(matching, end - 1, budget - last_len, Ghost(mseq));
        proof {
            assert(tail_select(mseq.subrange(0, end as int), budget as int) == mseq.subrange(
                start as int,
                end - 1,
            ).push(mseq[end - 1]));
            assert(mseq.subrange(start as int, end - 1).push(mseq[end - 1]) =~= mseq.subrange(
                start as int,
                end as int,
            ));
        }
        start
    } else {
        proof {
            assert(mseq.subrange(end as int, end as int) =~= Seq::<(int, Seq<u8>)>::empty());
        }
        end
    }
}

} // verus!
