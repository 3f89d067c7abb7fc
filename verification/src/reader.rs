//! Reading the write-ahead log across segments.
//!
//! A [`Reader`] drives one [`SegmentReader`] forward. When the frame
//! decoder reports a clean end of segment, the reader advances to the
//! segment whose base offset equals the current offset, if the
//! directory holds a non-empty one; otherwise the end of the log is
//! reached. [`seek`] re-lists the segments and positions the reader in
//! the segment containing the requested offset.
//!
//! [`seek`]: Reader::seek

use vstd::prelude::*;

use crate::codec::{decode_at, entries_from, seg_framed, EntryView, SpecDecoded, HEADER_NUM_BYTES};
use crate::directory::{check_dir_wf, dir_wf, find_file, segs_of, tops_fit, LogDir};
use crate::errors::{CorruptionKind, WalError};
use crate::segment_reader::{Entry, SegmentReader};
use crate::segment_writer::{dir_view, unique_bases, view_has, view_index};
use crate::writer::{all_data, lemma_wf_unique_bases};

verus! {

/// What decoding at the reader's own position yields, treating any
/// position past the snapshot's end as a clean end of segment.
pub open spec fn in_seg_outcome(s: SegmentReader) -> SpecDecoded {
    if s.pos > s.data@.len() {
        SpecDecoded::Eof
    } else {
        decode_at(s.data@, s.pos as int)
    }
}

/// Whether the directory holds a non-empty segment starting at `cur`,
/// for the reader to advance into.
pub open spec fn has_next_segment(dir: LogDir, cur: u64) -> bool {
    &&& view_has(dir_view(dir), cur)
    &&& dir_view(dir)[view_index(dir_view(dir), cur)].data.len() > 0
}

/// The content of the segment starting at `cur`.
pub open spec fn next_segment_data(dir: LogDir, cur: u64) -> Seq<u8> {
    dir_view(dir)[view_index(dir_view(dir), cur)].data
}

/// Whether segment `i` is where a seek to `offset` lands: the first
/// segment whose top offset exceeds `offset`, clamped to the last.
pub open spec fn seek_target(files: Seq<crate::directory::SegmentFile>, offset: u64, i: int) -> bool {
    &&& 0 <= i < files.len()
    &&& forall|j: int| 0 <= j < i ==> #[trigger] files[j].spec_top() <= offset
    &&& (i == files.len() - 1 || files[i].spec_top() > offset)
}

/// A seek lands in exactly one segment.
pub proof fn lemma_seek_target_unique(
    files: Seq<crate::directory::SegmentFile>,
    offset: u64,
    i: int,
    j: int,
)
    requires
        seek_target(files, offset, i),
        seek_target(files, offset, j),
    ensures
        i == j,
{
    if i < j {
        assert(files[i].spec_top() <= offset);
        assert(i == files.len() - 1 || files[i].spec_top() > offset);
    }
    if j < i {
        assert(files[j].spec_top() <= offset);
        assert(j == files.len() - 1 || files[j].spec_top() > offset);
    }
}

/// The records of the whole log: those of each file at absolute
/// offsets, in file order.
pub open spec fn wal_entries(files: Seq<crate::directory::SegmentFile>) -> Seq<EntryView>
    decreases files.len(),
{
    if files.len() == 0 {
        Seq::empty()
    } else {
        wal_entries(files.drop_last()) + entries_from(
            files.last().data@,
            0,
            files.last().base_offset as int,
        )
    }
}

/// Law: in a well-formed directory of framed segments, the log's flat
/// content is itself framed and its records are exactly [`wal_entries`],
/// at offsets relative to the first segment's base. Together with
/// [`lemma_entries_decode`], a sequence of records appended through the
/// writer and flushed is read back in order, record by record.
///
/// [`lemma_entries_decode`]: crate::codec::lemma_entries_decode
pub proof fn lemma_wal_entries_flat(files: Seq<crate::directory::SegmentFile>)
    requires
        files.len() > 0,
        tops_fit(files),
        crate::directory::segs_wf(segs_of(files)),
        forall|i: int| 0 <= i < files.len() ==> seg_framed(#[trigger] files[i].data@),
    ensures
        ({
            let flat = all_data(files.map_values(|f: crate::directory::SegmentFile|
                crate::segment_writer::view_of_file(f)));
            &&& crate::codec::framed_from(flat, 0)
            &&& wal_entries(files) =~= entries_from(flat, 0, files[0].base_offset as int)
            &&& files[0].base_offset + flat.len() == files.last().spec_top()
        }),
    decreases files.len(),
{
    let viewer = |f: crate::directory::SegmentFile| crate::segment_writer::view_of_file(f);
    let v = files.map_values(viewer);
    let flat = all_data(v);
    if files.len() == 1 {
        assert(v.drop_last() =~= Seq::<crate::segment_writer::FileView>::empty());
        assert(flat =~= files[0].data@);
        assert(files.drop_last() =~= Seq::<crate::directory::SegmentFile>::empty());
        assert(wal_entries(Seq::<crate::directory::SegmentFile>::empty())
            =~= Seq::<EntryView>::empty());
        assert(files.last() == files[0]);
        assert(wal_entries(files) =~= entries_from(
            files[0].data@,
            0,
            files[0].base_offset as int,
        ));
    } else {
        let pre = files.drop_last();
        assert(pre.len() > 0);
        assert(forall|i: int| 0 <= i < pre.len() ==> pre[i] == files[i]);
        assert(tops_fit(pre));
        assert(crate::directory::segs_wf(segs_of(pre))) by {
            assert(forall|i: int|
                0 <= i < pre.len() ==> #[trigger] segs_of(pre)[i] == segs_of(files)[i]);
        }
        assert(forall|i: int| 0 <= i < pre.len() ==> seg_framed(#[trigger] pre[i].data@));
        lemma_wal_entries_flat(pre);
        let pv = pre.map_values(viewer);
        let pflat = all_data(pv);
        assert(pv =~= v.drop_last());
        assert(flat == all_data(v.drop_last()) + v.last().data);
        assert(flat == pflat + files.last().data@);
        crate::codec::lemma_entries_concat(pflat, files.last().data@, 0, files[0].base_offset as int);
        // The last segment starts where the flat prefix ends.
        let n = files.len() as int;
        assert(pre.last() == files[n - 2]);
        assert(segs_of(files)[n - 2].top_offset == segs_of(files)[n - 1].base_offset);
        assert(files[n - 2].spec_top() <= u64::MAX);
        assert(files[0].base_offset + pflat.len() == files.last().base_offset);
        assert(wal_entries(files) == wal_entries(pre) + entries_from(
            files.last().data@,
            0,
            files.last().base_offset as int,
        ));
    }
}

/// Law: appended records are read back exactly, in order. When a
/// well-formed directory of framed segments holds, as its content, the
/// concatenated frames of payloads `P_1 .. P_n` — which is what
/// appending `P_1 .. P_n` through the writer and flushing produces, by
/// the ensures of `Writer::append` and `Writer::flush` — then the log's
/// records are exactly `P_1 .. P_n`, in order. With
/// [`lemma_wal_read_in_order`], their offsets chain from the first
/// segment's base to the last segment's top, so a reader started at the
/// first offset yields each payload in turn and then the end of the
/// log.
pub proof fn lemma_appended_records_read_back(
    files: Seq<crate::directory::SegmentFile>,
    payloads: Seq<Seq<u8>>,
)
    requires
        files.len() > 0,
        tops_fit(files),
        crate::directory::segs_wf(segs_of(files)),
        forall|i: int| 0 <= i < files.len() ==> seg_framed(#[trigger] files[i].data@),
        all_data(
            files.map_values(|f: crate::directory::SegmentFile|
                crate::segment_writer::view_of_file(f)),
        ) == crate::codec::frames_concat(payloads),
        forall|i: int| 0 <= i < payloads.len() ==> (#[trigger] payloads[i]).len()
            < 0x1_0000_0000,
    ensures
        crate::codec::payloads_of(wal_entries(files)) == payloads,
{
    lemma_wal_entries_flat(files);
    crate::codec::lemma_frames_concat_entries(payloads, files[0].base_offset as int);
}

/// Law: in a well-formed directory of framed segments, the records tile
/// the log: the first record sits at the first segment's base offset,
/// each record is followed immediately by the next, and the last record
/// ends exactly at the last segment's top offset. Read from the first
/// offset on, the log therefore yields exactly its records, in order,
/// and then its end.
pub proof fn lemma_wal_read_in_order(files: Seq<crate::directory::SegmentFile>, k: int)
    requires
        files.len() > 0,
        tops_fit(files),
        crate::directory::segs_wf(segs_of(files)),
        forall|i: int| 0 <= i < files.len() ==> seg_framed(#[trigger] files[i].data@),
        0 <= k < wal_entries(files).len(),
    ensures
        ({
            let es = wal_entries(files);
            let w = crate::codec::frame_len(es[k].payload.len() as int);
            &&& k == 0 ==> es[0].offset == files[0].base_offset
            &&& k + 1 < es.len() ==> es[k + 1].offset == es[k].offset + w
            &&& k + 1 == es.len() ==> es[k].offset + w == files.last().spec_top()
        }),
{
    lemma_wal_entries_flat(files);
    let viewer = |f: crate::directory::SegmentFile| crate::segment_writer::view_of_file(f);
    let flat = all_data(files.map_values(viewer));
    let base = files[0].base_offset as int;
    assert(wal_entries(files) == entries_from(flat, 0, base));
    crate::codec::lemma_entries_decode(flat, 0, base, k);
    let es = entries_from(flat, 0, base);
    if k == 0 {
        assert(crate::codec::framed_from(flat, 0));
        if flat.len() > 0 {
            match crate::codec::decode_at(flat, 0) {
                crate::codec::SpecDecoded::Record(_, _) => {
                    assert(es[0].offset == base);
                },
                _ => {},
            }
        }
    }
    if k + 1 == es.len() {
        // The last record ends at a clean end of the flat content.
        let w = crate::codec::frame_len(es[k].payload.len() as int);
        assert(crate::codec::decode_at(flat, es[k].offset - base + w) is Eof);
        assert(es[k].offset - base + w == flat.len());
        assert(base + flat.len() == files.last().spec_top());
    }
}

/// Every record of the log lies wholly within one segment's records.
proof fn lemma_entry_segment(files: Seq<crate::directory::SegmentFile>, k: int)
    requires
        0 <= k < wal_entries(files).len(),
    ensures
        exists|j: int, m: int|
            {
                &&& 0 <= j < files.len()
                &&& 0 <= m < entries_from(files[j].data@, 0, files[j].base_offset as int).len()
                &&& wal_entries(files)[k] == #[trigger] entries_from(
                    files[j].data@,
                    0,
                    files[j].base_offset as int,
                )[m]
            },
    decreases files.len(),
{
    let pre = files.drop_last();
    let pre_es = wal_entries(pre);
    let last_es = entries_from(files.last().data@, 0, files.last().base_offset as int);
    assert(wal_entries(files) == pre_es + last_es);
    if k < pre_es.len() {
        lemma_entry_segment(pre, k);
        let (j, m) = choose|j: int, m: int|
            {
                &&& 0 <= j < pre.len()
                &&& 0 <= m < entries_from(pre[j].data@, 0, pre[j].base_offset as int).len()
                &&& wal_entries(pre)[k] == #[trigger] entries_from(
                    pre[j].data@,
                    0,
                    pre[j].base_offset as int,
                )[m]
            };
        assert(pre[j] == files[j]);
        assert(wal_entries(files)[k] == pre_es[k]);
    } else {
        let j = files.len() - 1;
        let m = k - pre_es.len();
        assert(files[j] == files.last());
        assert(wal_entries(files)[k] == last_es[m]);
    }
}

/// Law: seeking to a record's offset lands on that record. For every
/// record of a well-formed directory of framed segments, the segment a
/// seek to the record's offset targets holds the record at that offset,
/// the two bytes there are the magic marker, and decoding there yields
/// exactly the record's payload. Through `Reader::seek`'s and
/// `Reader::next`'s ensures, `seek(offset_of(P_k))` followed by `next()`
/// returns `P_k`, whenever the offset lies within the threshold of its
/// segment.
pub proof fn lemma_seek_then_read(files: Seq<crate::directory::SegmentFile>, k: int)
    requires
        files.len() > 0,
        tops_fit(files),
        crate::directory::segs_wf(segs_of(files)),
        forall|i: int| 0 <= i < files.len() ==> seg_framed(#[trigger] files[i].data@),
        0 <= k < wal_entries(files).len(),
    ensures
        exists|j: int|
            #![trigger seek_target(files, wal_entries(files)[k].offset as u64, j)]
            {
                let es = wal_entries(files);
                let off = es[k].offset;
                &&& 0 <= j < files.len()
                &&& seek_target(files, off as u64, j)
                &&& files[j].base_offset <= off < files[j].spec_top()
                &&& crate::codec::le_u16(
                    files[j].data@[off - files[j].base_offset],
                    files[j].data@[off - files[j].base_offset + 1],
                ) == crate::codec::HEADER_MAGIC
                &&& decode_at(files[j].data@, off - files[j].base_offset)
                    == SpecDecoded::Record(
                    es[k].payload,
                    crate::codec::frame_len(es[k].payload.len() as int),
                )
            },
{
    let es = wal_entries(files);
    lemma_entry_segment(files, k);
    let (j, m) = choose|j: int, m: int|
        {
            &&& 0 <= j < files.len()
            &&& 0 <= m < entries_from(files[j].data@, 0, files[j].base_offset as int).len()
            &&& wal_entries(files)[k] == #[trigger] entries_from(
                files[j].data@,
                0,
                files[j].base_offset as int,
            )[m]
        };
    let data = files[j].data@;
    let base = files[j].base_offset as int;
    crate::codec::lemma_entries_decode(data, 0, base, m);
    let off = es[k].offset;
    let pos = off - base;
    assert(decode_at(data, pos) == SpecDecoded::Record(
        es[k].payload,
        crate::codec::frame_len(es[k].payload.len() as int),
    ));
    assert(0 <= pos && pos + crate::codec::frame_len(es[k].payload.len() as int)
        <= data.len());
    // A decoded record starts with the magic marker.
    assert(crate::codec::le_u16(data[pos], data[pos + 1]) == crate::codec::HEADER_MAGIC);
    // Earlier segments end at or before this offset, so the seek
    // targets exactly this segment.
    assert(seek_target(files, off as u64, j)) by {
        assert forall|t: int| 0 <= t < j implies #[trigger] files[t].spec_top()
            <= off as u64 by {
            assert(segs_of(files)[t].top_offset == segs_of(files)[t + 1].base_offset);
            assert(files[t].spec_top() <= u64::MAX);
            assert(files[t].spec_top() == files[t + 1].base_offset);
            if t + 1 < j {
                assert(segs_of(files)[t + 1].base_offset < segs_of(files)[j].base_offset);
            }
        }
        if j < files.len() - 1 {
            assert(files[j].spec_top() > off as u64);
        }
    }
}

/// A reader of a write-ahead log directory.
pub struct Reader {
    /// Reader of the current segment.
    pub seg: SegmentReader,
    /// Segment-size threshold, bounding how far into a segment a seek
    /// may land.
    pub segment_max_num_bytes: u64,
}

impl Reader {
    /// The absolute offset of the next read.
    pub open spec fn spec_current_offset(&self) -> int {
        self.seg.spec_current_offset()
    }

    /// Opens a reader on the first segment, the one with the lowest
    /// base offset. Fails with `NoSegments` on an empty directory and
    /// with the contiguity errors of the directory scan otherwise.
    pub fn open(dir: &LogDir, segment_max_num_bytes: u64) -> (r: Result<Reader, WalError>)
        ensures
            match r {
                Ok(rd) => {
                    &&& dir_wf(*dir)
                    &&& dir.files@.len() > 0
                    &&& rd.seg.base_offset == dir.files@[0].base_offset
                    &&& rd.seg.data@ == dir.files@[0].data@
                    &&& rd.seg.pos == 0
                    &&& rd.seg.wf()
                    &&& rd.segment_max_num_bytes == segment_max_num_bytes
                },
                Err(WalError::NoSegments) => dir_wf(*dir) && dir.files@.len() == 0,
                Err(e) => {
                    &&& !dir_wf(*dir)
                    &&& (e == WalError::Io <==> !tops_fit(dir.files@))
                    &&& tops_fit(dir.files@) ==> e == WalError::Corruption(
                        CorruptionKind::NonContiguous,
                    )
                },
            },
    {
        match check_dir_wf(dir) {
            Ok(()) => {},
            Err(e) => {
                return Err(e);
            },
        }
        proof {
            lemma_wf_unique_bases(*dir);
        }
        if dir.files.len() == 0 {
            return Err(WalError::NoSegments);
        }
        let base = dir.files[0].base_offset;
        let seg = match SegmentReader::open(dir, base) {
            Ok(seg) => seg,
            Err(_) => {
                proof {
                    assert(dir_view(*dir)[0].base == base);
                    assert(dir.files@[0].spec_top() <= u64::MAX);
                    let j = view_index(dir_view(*dir), base);
                    assert(0 <= j < dir_view(*dir).len() && dir_view(*dir)[j].base == base);
                    assert(j == 0);
                    assert(false);
                }
                return Err(WalError::Io);
            },
        };
        proof {
            let j = view_index(dir_view(*dir), base);
            assert(0 <= j < dir_view(*dir).len() && dir_view(*dir)[j].base == base);
            assert(dir_view(*dir)[0].base == base);
            assert(j == 0);
        }
        Ok(Reader { seg, segment_max_num_bytes })
    }

    /// Reads the next record's payload, crossing into the next segment
    /// at a clean end of segment. Returns `Ok(None)` at the end of the
    /// log and a corruption error on an invalid frame.
    pub fn next(&mut self, dir: &LogDir) -> (r: Result<Option<Vec<u8>>, WalError>)
        requires
            old(self).seg.wf(),
            unique_bases(dir_view(*dir)),
        ensures
            final(self).segment_max_num_bytes == old(self).segment_max_num_bytes,
            final(self).seg.wf(),
            match in_seg_outcome(old(self).seg) {
                SpecDecoded::Record(pl, w) => {
                    &&& r matches Ok(Some(p)) && p@ == pl
                    &&& final(self).seg.base_offset == old(self).seg.base_offset
                    &&& final(self).seg.data == old(self).seg.data
                    &&& final(self).seg.pos == old(self).seg.pos + w
                },
                SpecDecoded::Corrupt(k) => {
                    &&& r == Err::<Option<Vec<u8>>, WalError>(WalError::Corruption(k))
                    &&& *final(self) == *old(self)
                },
                SpecDecoded::Eof => {
                    let cur = (old(self).seg.base_offset + old(self).seg.pos) as u64;
                    if !has_next_segment(*dir, cur) {
                        &&& r matches Ok(None)
                        &&& *final(self) == *old(self)
                    } else {
                        let nd = next_segment_data(*dir, cur);
                        if cur + nd.len() > u64::MAX {
                            &&& r == Err::<Option<Vec<u8>>, WalError>(WalError::Io)
                            &&& *final(self) == *old(self)
                        } else {
                            match decode_at(nd, 0) {
                                SpecDecoded::Record(pl, w) => {
                                    &&& r matches Ok(Some(p)) && p@ == pl
                                    &&& final(self).seg.base_offset == cur
                                    &&& final(self).seg.data@ == nd
                                    &&& final(self).seg.pos == w
                                },
                                SpecDecoded::Corrupt(k) => {
                                    &&& r == Err::<Option<Vec<u8>>, WalError>(
                                        WalError::Corruption(k),
                                    )
                                    &&& final(self).seg.base_offset == cur
                                    &&& final(self).seg.data@ == nd
                                    &&& final(self).seg.pos == 0
                                },
                                SpecDecoded::Eof => true,
                            }
                        }
                    }
                },
            },
    {
        match self.seg.next() {
            Ok(Some(payload)) => {
                return Ok(Some(payload));
            },
            Err(e) => {
                return Err(e);
            },
            Ok(None) => {},
        }
        let cur = self.seg.current_offset();
        let advance = match find_file(dir, cur) {
            Some(i) => dir.files[i].data.len() > 0,
            None => false,
        };
        proof {
            lemma_find_matches_view(*dir, cur);
        }
        if !advance {
            return Ok(None);
        }
        let mut seg2 = match SegmentReader::open(dir, cur) {
            Ok(seg2) => seg2,
            Err(_) => {
                return Err(WalError::Io);
            },
        };
        let out = seg2.next();
        self.seg = seg2;
        match out {
            Ok(Some(payload)) => Ok(Some(payload)),
            Ok(None) => Ok(None),
            Err(e) => Err(e),
        }
    }

    /// Like [`next`], but returns the record's absolute offset and
    /// checksum as well.
    ///
    /// [`next`]: Reader::next
    pub fn next_entry(&mut self, dir: &LogDir) -> (r: Result<Option<Entry>, WalError>)
        requires
            old(self).seg.wf(),
            unique_bases(dir_view(*dir)),
        ensures
            final(self).segment_max_num_bytes == old(self).segment_max_num_bytes,
            final(self).seg.wf(),
            match in_seg_outcome(old(self).seg) {
                SpecDecoded::Record(pl, w) => {
                    &&& r matches Ok(Some(e)) && e.payload@ == pl && e.offset == old(
                        self,
                    ).spec_current_offset() && e.checksum == crate::codec::crc32_of(pl)
                    &&& final(self).seg.base_offset == old(self).seg.base_offset
                    &&& final(self).seg.data == old(self).seg.data
                    &&& final(self).seg.pos == old(self).seg.pos + w
                },
                SpecDecoded::Corrupt(k) => {
                    &&& r == Err::<Option<Entry>, WalError>(WalError::Corruption(k))
                    &&& *final(self) == *old(self)
                },
                SpecDecoded::Eof => {
                    let cur = (old(self).seg.base_offset + old(self).seg.pos) as u64;
                    if !has_next_segment(*dir, cur) {
                        &&& r matches Ok(None)
                        &&& *final(self) == *old(self)
                    } else {
                        let nd = next_segment_data(*dir, cur);
                        if cur + nd.len() > u64::MAX {
                            &&& r == Err::<Option<Entry>, WalError>(WalError::Io)
                            &&& *final(self) == *old(self)
                        } else {
                            match decode_at(nd, 0) {
                                SpecDecoded::Record(pl, w) => {
                                    &&& r matches Ok(Some(e)) && e.payload@ == pl && e.offset
                                        == cur && e.checksum == crate::codec::crc32_of(pl)
                                    &&& final(self).seg.base_offset == cur
                                    &&& final(self).seg.data@ == nd
                                    &&& final(self).seg.pos == w
                                },
                                SpecDecoded::Corrupt(k) => {
                                    &&& r == Err::<Option<Entry>, WalError>(
                                        WalError::Corruption(k),
                                    )
                                    &&& final(self).seg.base_offset == cur
                                    &&& final(self).seg.data@ == nd
                                    &&& final(self).seg.pos == 0
                                },
                                SpecDecoded::Eof => true,
                            }
                        }
                    }
                },
            },
    {
        match self.seg.next_entry() {
            Ok(Some(entry)) => {
                return Ok(Some(entry));
            },
            Err(e) => {
                return Err(e);
            },
            Ok(None) => {},
        }
        let cur = self.seg.current_offset();
        let advance = match find_file(dir, cur) {
            Some(i) => dir.files[i].data.len() > 0,
            None => false,
        };
        proof {
            lemma_find_matches_view(*dir, cur);
        }
        if !advance {
            return Ok(None);
        }
        let mut seg2 = match SegmentReader::open(dir, cur) {
            Ok(seg2) => seg2,
            Err(_) => {
                return Err(WalError::Io);
            },
        };
        let out = seg2.next_entry();
        self.seg = seg2;
        match out {
            Ok(Some(entry)) => Ok(Some(entry)),
            Ok(None) => Ok(None),
            Err(e) => Err(e),
        }
    }

    /// Repositions the reader at `offset`. Seeking to the current
    /// offset does nothing. Otherwise the segments are listed anew, the
    /// segment containing `offset` is opened, and the position must fall
    /// on a frame boundary, checked by peeking for the magic marker.
    /// On failure the reader keeps its previous position.
    pub fn seek(&mut self, dir: &LogDir, offset: u64) -> (r: Result<(), WalError>)
        requires
            old(self).seg.wf(),
        ensures
            final(self).segment_max_num_bytes == old(self).segment_max_num_bytes,
            final(self).seg.wf(),
            r is Err ==> (*final(self) == *old(self)),
            offset == old(self).spec_current_offset() ==> ({
                &&& r == Ok::<(), WalError>(())
                &&& *final(self) == *old(self)
            }),
            offset != old(self).spec_current_offset() ==> {
                if !dir_wf(*dir) {
                    &&& r is Err
                    &&& (r == Err::<(), WalError>(WalError::Io) <==> !tops_fit(dir.files@))
                    &&& tops_fit(dir.files@) ==> r == Err::<(), WalError>(
                        WalError::Corruption(CorruptionKind::NonContiguous),
                    )
                } else if dir.files@.len() == 0 {
                    r == Err::<(), WalError>(WalError::NoSegments)
                } else if offset < dir.files@[0].base_offset || offset > dir.files@.last().spec_top() {
                    r == Err::<(), WalError>(WalError::SeekError)
                } else {
                    &&& exists|i: int|
                        {
                            &&& #[trigger] seek_target(dir.files@, offset, i)
                            &&& {
                                let base = dir.files@[i].base_offset;
                                let data = dir.files@[i].data@;
                                let in_range = offset - base
                                    < old(self).segment_max_num_bytes;
                                let new_pos = offset - base;
                                let magic_ok = new_pos + 2 <= data.len() ==> crate::codec::le_u16(
                                    data[new_pos],
                                    data[new_pos + 1],
                                ) == crate::codec::HEADER_MAGIC;
                                if in_range && magic_ok {
                                    &&& r == Ok::<(), WalError>(())
                                    &&& final(self).seg.base_offset == base
                                    &&& final(self).seg.data@ == data
                                    &&& final(self).seg.pos == new_pos
                                } else {
                                    r == Err::<(), WalError>(WalError::SeekError)
                                }
                            }
                        }
                    // On failure no segment admits the offset: the
                    // target is unique, so the one tried decides.
                    &&& r is Err ==> forall|i: int|
                        #[trigger] seek_target(dir.files@, offset, i) ==> !({
                            let base = dir.files@[i].base_offset;
                            let data = dir.files@[i].data@;
                            &&& offset - base < old(self).segment_max_num_bytes
                            &&& (offset - base + 2 <= data.len() ==> crate::codec::le_u16(
                                data[offset - base],
                                data[offset - base + 1],
                            ) == crate::codec::HEADER_MAGIC)
                        })
                }
            },
    {
        if self.seg.current_offset() == offset {
            return Ok(());
        }
        match check_dir_wf(dir) {
            Ok(()) => {},
            Err(e) => {
                return Err(e);
            },
        }
        proof {
            lemma_wf_unique_bases(*dir);
        }
        let n = dir.files.len();
        if n == 0 {
            return Err(WalError::NoSegments);
        }
        let min_offset = dir.files[0].base_offset;
        let max_offset = dir.files[n - 1].base_offset + dir.files[n - 1].data.len() as u64;
        if offset < min_offset || offset > max_offset {
            return Err(WalError::SeekError);
        }
        // Find the first segment whose top offset is greater than
        // `offset`, clamped to the last segment.
        let mut i: usize = 0;
        while i + 1 < n && dir.files[i].base_offset + dir.files[i].data.len() as u64 <= offset
            invariant
                n == dir.files@.len(),
                n > 0,
                i < n,
                tops_fit(dir.files@),
                forall|j: int| 0 <= j < i ==> #[trigger] dir.files@[j].spec_top() <= offset,
            decreases n - i,
        {
            i = i + 1;
        }
        proof {
            assert(seek_target(dir.files@, offset, i as int));
        }
        let base = dir.files[i].base_offset;
        let mut seg2 = match SegmentReader::open(dir, base) {
            Ok(seg2) => seg2,
            Err(_) => {
                proof {
                    assert(dir_view(*dir)[i as int].base == base);
                    assert(dir.files@[i as int].spec_top() <= u64::MAX);
                    let j = view_index(dir_view(*dir), base);
                    assert(0 <= j < dir_view(*dir).len() && dir_view(*dir)[j].base == base);
                    assert(j == i);
                    assert(false);
                }
                return Err(WalError::Io);
            },
        };
        proof {
            let j = view_index(dir_view(*dir), base);
            assert(0 <= j < dir_view(*dir).len() && dir_view(*dir)[j].base == base);
            assert(dir_view(*dir)[i as int].base == base);
            assert(j == i);
        }
        match seg2.seek(offset, self.segment_max_num_bytes) {
            Ok(()) => {},
            Err(e) => {
                proof {
                    let files = dir.files@;
                    let base_s = files[i as int].base_offset;
                    let data_s = files[i as int].data@;
                    assert(seg2.data@ == data_s);
                    assert(base_s <= offset) by {
                        if i > 0 {
                            assert(files[i - 1].spec_top() <= offset);
                            assert(segs_of(files)[i - 1].top_offset == segs_of(
                                files,
                            )[i as int].base_offset);
                            assert(files[i - 1].spec_top() <= u64::MAX);
                        }
                    }
                    assert(!(offset - base_s < self.segment_max_num_bytes) || !(offset - base_s
                        + 2 <= data_s.len() ==> crate::codec::le_u16(
                        data_s[offset - base_s],
                        data_s[offset - base_s + 1],
                    ) == crate::codec::HEADER_MAGIC));
                    assert(seek_target(files, offset, i as int));
                    assert forall|t: int| #[trigger] seek_target(files, offset, t) implies !({
                        let base = files[t].base_offset;
                        let data = files[t].data@;
                        &&& offset - base < self.segment_max_num_bytes
                        &&& (offset - base + 2 <= data.len() ==> crate::codec::le_u16(
                            data[offset - base],
                            data[offset - base + 1],
                        ) == crate::codec::HEADER_MAGIC)
                    }) by {
                        lemma_seek_target_unique(files, offset, t, i as int);
                    }
                }
                return Err(e);
            },
        }
        self.seg = seg2;
        proof {
            let files = dir.files@;
            let base_s = files[i as int].base_offset;
            let data_s = files[i as int].data@;
            assert(base_s <= offset) by {
                if i > 0 {
                    assert(files[i - 1].spec_top() <= offset);
                    assert(segs_of(files)[i - 1].top_offset == segs_of(
                        files,
                    )[i as int].base_offset);
                    assert(files[i - 1].spec_top() <= u64::MAX);
                }
            }
            assert(self.seg.base_offset == base_s);
            assert(self.seg.data@ == data_s);
            assert(self.seg.pos == offset - base_s);
            assert(offset - base_s < self.segment_max_num_bytes);
            assert(seek_target(files, offset, i as int));
        }
        Ok(())
    }

    /// The absolute offset of the next read.
    pub fn current_offset(&self) -> (r: u64)
        requires
            self.seg.wf(),
        ensures
            r == self.spec_current_offset(),
    {
        self.seg.current_offset()
    }
}

/// Looking a base offset up by scanning files agrees with the view.
proof fn lemma_find_matches_view(dir: LogDir, base: u64)
    requires
        unique_bases(dir_view(dir)),
    ensures
        view_has(dir_view(dir), base) ==> {
            let j = view_index(dir_view(dir), base);
            &&& 0 <= j < dir.files@.len()
            &&& dir.files@[j].base_offset == base
            &&& forall|k: int|
                0 <= k < dir.files@.len() && dir.files@[k].base_offset == base ==> k == j
        },
        !view_has(dir_view(dir), base) ==> forall|k: int|
            0 <= k < dir.files@.len() ==> dir.files@[k].base_offset != base,
{
    let dv = dir_view(dir);
    if view_has(dv, base) {
        let j = view_index(dv, base);
        assert(0 <= j < dv.len() && dv[j].base == base);
        assert forall|k: int|
            0 <= k < dir.files@.len() && dir.files@[k].base_offset == base implies k == j by {
            assert(dv[k].base == base);
        }
    } else {
        assert forall|k: int| 0 <= k < dir.files@.len() implies dir.files@[k].base_offset
            != base by {
            assert(dv[k].base == dir.files@[k].base_offset);
            if dir.files@[k].base_offset == base {
                assert(view_has(dv, base));
            }
        }
    }
}

} // verus!
