//! Appending to the write-ahead log, with segment rollover.
//!
//! A [`Writer`] owns the [`SegmentWriter`] of the directory's write
//! segment, the file with the greatest base offset. When that segment
//! holds at least the configured threshold before an append, the writer
//! seals it and starts a new segment whose base offset is the current
//! offset; records are never split, so a segment may exceed the
//! threshold by at most one record.

use vstd::prelude::*;

use crate::codec::{frame_of, seg_framed, HEADER_NUM_BYTES};
use crate::directory::{dir_wf, segs_of, tops_fit, LogDir, SegmentFile};
use crate::errors::{CorruptionKind, WalError};
use crate::segment_writer::{
    dir_view, flushed_view, synced_view, unique_bases, view_has, view_index, FileView,
    SegmentWriter,
};

verus! {

/// The bytes of all files of a directory, in file order.
pub open spec fn all_data(v: Seq<FileView>) -> Seq<u8>
    decreases v.len(),
{
    if v.len() == 0 {
        Seq::empty()
    } else {
        all_data(v.drop_last()) + v.last().data
    }
}

/// The full content of the log: every file's bytes, then what the writer
/// still buffers.
pub open spec fn wal_content(dir: LogDir, w: Writer) -> Seq<u8> {
    all_data(dir_view(dir)) + w.sw.spec_pending()
}

/// Every file's content is a concatenation of valid frames.
pub open spec fn files_framed(v: Seq<FileView>) -> bool {
    forall|i: int| 0 <= i < v.len() ==> seg_framed(#[trigger] v[i].data)
}

/// Every sealed segment holds at least `max` bytes. Rollover happens
/// only once the write segment reaches the threshold, so the writer
/// preserves this.
pub open spec fn sealed_min_size(v: Seq<FileView>, max: u64) -> bool {
    forall|i: int| 0 <= i < v.len() - 1 ==> #[trigger] v[i].data.len() >= max
}

/// Law: every sealed segment reaches the threshold, or holds exactly
/// one record. The writer maintains [`sealed_min_size`] — rollover
/// happens only once the write segment holds the threshold — so the
/// first disjunct always holds and the second never arises here.
pub proof fn lemma_sealed_segment_sizes(v: Seq<FileView>, max: u64)
    requires
        sealed_min_size(v, max),
    ensures
        forall|i: int|
            0 <= i < v.len() - 1 ==> (#[trigger] v[i].data.len() >= max || (seg_framed(v[i].data)
                && crate::codec::seg_entries(v[i].data).len() == 1)),
{
}

/// A directory that is well formed keeps base offsets unique.
pub proof fn lemma_wf_unique_bases(dir: LogDir)
    requires
        dir_wf(dir),
    ensures
        unique_bases(dir_view(dir)),
{
    assert forall|i: int, j: int| 0 <= i < j < dir_view(dir).len() implies dir_view(dir)[i].base
        != dir_view(dir)[j].base by {
        assert(segs_of(dir.files@)[i].base_offset < segs_of(dir.files@)[j].base_offset);
    }
}

/// Pushing a file appends its bytes to the directory's data.
proof fn lemma_all_data_push(v: Seq<FileView>, f: FileView)
    ensures
        all_data(v.push(f)) == all_data(v) + f.data,
{
    assert(v.push(f).drop_last() =~= v);
    assert(v.push(f).last() == f);
}

/// What flushing `pending` into the last file does to the directory's
/// view: everything but the last file is untouched, and the directory's
/// data grows by exactly the flushed bytes.
proof fn lemma_grow_last(dv0: Seq<FileView>, dv1: Seq<FileView>, pending: Seq<u8>)
    requires
        dv0.len() > 0,
        dv1.len() == dv0.len(),
        forall|k: int| 0 <= k < dv0.len() - 1 ==> dv1[k] == dv0[k],
        dv1.last().data == dv0.last().data + pending,
    ensures
        all_data(dv1) == all_data(dv0) + pending,
{
    assert(dv1.drop_last() =~= dv0.drop_last());
    assert(all_data(dv1) == all_data(dv0.drop_last()) + (dv0.last().data + pending));
    assert(all_data(dv0.drop_last()) + (dv0.last().data + pending) =~= (all_data(
        dv0.drop_last(),
    ) + dv0.last().data) + pending);
}

/// A directory stays well formed when only its last file's content
/// grows, since only that file's top offset moves and no file follows.
proof fn lemma_wf_after_last_grow(d0: LogDir, d1: LogDir)
    requires
        dir_wf(d0),
        d0.files@.len() > 0,
        d1.files@.len() == d0.files@.len(),
        forall|k: int| 0 <= k < d0.files@.len() - 1 ==> dir_view(d1)[k] == dir_view(d0)[k],
        dir_view(d1).last().base == dir_view(d0).last().base,
        dir_view(d1).last().base + dir_view(d1).last().data.len() <= u64::MAX,
    ensures
        dir_wf(d1),
{
    let n = d0.files@.len() as int;
    assert(forall|k: int|
        0 <= k < n ==> #[trigger] dir_view(d0)[k].base == d0.files@[k].base_offset
            && dir_view(d0)[k].data == d0.files@[k].data@);
    assert(forall|k: int|
        0 <= k < n ==> #[trigger] dir_view(d1)[k].base == d1.files@[k].base_offset
            && dir_view(d1)[k].data == d1.files@[k].data@);
    assert forall|k: int| 0 <= k < n implies d1.files@[k].spec_top() <= u64::MAX by {
        if k < n - 1 {
            assert(dir_view(d1)[k] == dir_view(d0)[k]);
            assert(d0.files@[k].spec_top() <= u64::MAX);
        }
    }
    assert forall|i: int, j: int| 0 <= i < j < n implies segs_of(d1.files@)[i].base_offset
        < segs_of(d1.files@)[j].base_offset by {
        assert(dir_view(d1)[i].base == dir_view(d0)[i].base);
        assert(dir_view(d1)[j].base == dir_view(d0)[j].base);
        assert(segs_of(d0.files@)[i].base_offset < segs_of(d0.files@)[j].base_offset);
    }
    assert forall|i: int| 0 <= i < n - 1 implies segs_of(d1.files@)[i].top_offset == segs_of(
        d1.files@,
    )[i + 1].base_offset by {
        assert(dir_view(d1)[i] == dir_view(d0)[i]);
        assert(dir_view(d1)[i + 1].base == dir_view(d0)[i + 1].base);
        assert(segs_of(d0.files@)[i].top_offset == segs_of(d0.files@)[i + 1].base_offset);
    }
}

/// The view change of flushing into the file at `base`, when that file
/// is the last and bases are unique.
proof fn lemma_flushed_view_last(dv0: Seq<FileView>, base: u64, pending: Seq<u8>)
    requires
        dv0.len() > 0,
        unique_bases(dv0),
        dv0.last().base == base,
    ensures
        ({
            let dv1 = flushed_view(dv0, base, pending);
            &&& dv1.len() == dv0.len()
            &&& forall|k: int| 0 <= k < dv0.len() - 1 ==> dv1[k] == dv0[k]
            &&& dv1.last() == (FileView {
                base,
                data: dv0.last().data + pending,
                synced: dv0.last().synced,
            })
        }),
{
    assert(view_has(dv0, base));
    let j = view_index(dv0, base);
    assert(0 <= j < dv0.len() && dv0[j].base == base);
    assert(j == dv0.len() - 1);
}

/// The view change of syncing the file at `base`, when that file is the
/// last and bases are unique.
proof fn lemma_synced_view_last(dv0: Seq<FileView>, base: u64, pending: Seq<u8>)
    requires
        dv0.len() > 0,
        unique_bases(dv0),
        dv0.last().base == base,
    ensures
        ({
            let dv1 = synced_view(dv0, base, pending);
            &&& dv1.len() == dv0.len()
            &&& forall|k: int| 0 <= k < dv0.len() - 1 ==> dv1[k] == dv0[k]
            &&& dv1.last() == (FileView {
                base,
                data: dv0.last().data + pending,
                synced: (dv0.last().data.len() + pending.len()) as int,
            })
        }),
{
    assert(view_has(dv0, base));
    let j = view_index(dv0, base);
    assert(0 <= j < dv0.len() && dv0[j].base == base);
    assert(j == dv0.len() - 1);
}

/// The writer of a write-ahead log directory.
pub struct Writer {
    /// Writer of the current write segment.
    pub sw: SegmentWriter,
    /// Segment-size threshold for rollover.
    pub segment_max_num_bytes: u64,
}

impl Writer {
    /// The writer is in step with the directory: the directory is well
    /// formed and non-empty, and the writer appends to its last file,
    /// the one with the greatest base offset.
    pub open spec fn inv(&self, dir: LogDir) -> bool {
        &&& dir_wf(dir)
        &&& dir.files@.len() > 0
        &&& self.sw.spec_base_offset() == dir.files@.last().base_offset
        &&& self.sw.agrees_with(dir)
        &&& self.sw.spec_current_offset() <= u64::MAX
        &&& self.segment_max_num_bytes >= 1
    }

    /// The offset one past the last appended byte.
    pub open spec fn spec_current_offset(&self) -> int {
        self.sw.spec_current_offset()
    }

    /// Opens the log in append mode: continues the segment with the
    /// greatest base offset, or creates the segment at offset zero in an
    /// empty directory. Fails, leaving the directory unchanged, when the
    /// files do not tile the log contiguously in their stored order.
    pub fn open(dir: &mut LogDir, segment_max_num_bytes: u64) -> (r: Result<Writer, WalError>)
        requires
            segment_max_num_bytes >= 1,
        ensures
            match r {
                Ok(w) => {
                    &&& dir_wf(*old(dir))
                    &&& w.inv(*final(dir))
                    &&& w.segment_max_num_bytes == segment_max_num_bytes
                    &&& w.sw.spec_pending() == Seq::<u8>::empty()
                    &&& old(dir).files@.len() > 0 ==> *final(dir) == *old(dir)
                        && w.spec_current_offset() == old(dir).files@.last().spec_top()
                    &&& old(dir).files@.len() == 0 ==> {
                        &&& final(dir).files@.len() == 1
                        &&& dir_view(*final(dir))[0] == (FileView {
                            base: 0u64,
                            data: Seq::<u8>::empty(),
                            synced: 0,
                        })
                        &&& w.spec_current_offset() == 0
                    }
                },
                Err(e) => {
                    &&& *final(dir) == *old(dir)
                    &&& !dir_wf(*old(dir))
                    &&& (e == WalError::Io <==> !tops_fit(old(dir).files@))
                    &&& tops_fit(old(dir).files@) ==> e == WalError::Corruption(
                        CorruptionKind::NonContiguous,
                    )
                },
            },
    {
        match crate::directory::check_dir_wf(dir) {
            Ok(()) => {},
            Err(e) => {
                return Err(e);
            },
        }
        proof {
            lemma_wf_unique_bases(*dir);
        }
        let n = dir.files.len();
        if n == 0 {
            let sw = match SegmentWriter::create(dir, 0) {
                Ok(sw) => sw,
                Err(_) => {
                    proof {
                        assert(false);
                    }
                    return Err(WalError::Io);
                },
            };
            proof {
                assert(dir_wf(*dir)) by {
                    assert(dir.files@.len() == 1);
                }
            }
            Ok(Writer { sw, segment_max_num_bytes })
        } else {
            let last_base = dir.files[n - 1].base_offset;
            let sw = match SegmentWriter::open(dir, last_base) {
                Ok(sw) => sw,
                Err(_) => {
                    proof {
                        assert(dir_view(*dir)[n - 1].base == last_base);
                        assert(false);
                    }
                    return Err(WalError::Io);
                },
            };
            proof {
                let dv = dir_view(*dir);
                let j = view_index(dv, last_base);
                assert(0 <= j < dv.len() && dv[j].base == last_base);
                assert(dv[n - 1].base == last_base);
                assert(j == n - 1);
                assert(dir.files@[n - 1].spec_top() <= u64::MAX);
            }
            Ok(Writer { sw, segment_max_num_bytes })
        }
    }

    /// Appends one record. When the write segment already holds at least
    /// the threshold, the buffer is flushed and a new segment starting
    /// at the current offset receives the record.
    pub fn append(&mut self, dir: &mut LogDir, payload: &[u8]) -> (r: Result<u64, WalError>)
        requires
            old(self).inv(*old(dir)),
            payload@.len() < 0x1_0000_0000,
            old(self).spec_current_offset() + HEADER_NUM_BYTES + payload@.len() <= u64::MAX,
        ensures
            r == Ok::<u64, WalError>((HEADER_NUM_BYTES + payload@.len()) as u64),
            final(self).inv(*final(dir)),
            final(self).segment_max_num_bytes == old(self).segment_max_num_bytes,
            final(self).spec_current_offset() == old(self).spec_current_offset()
                + HEADER_NUM_BYTES + payload@.len(),
            wal_content(*final(dir), *final(self)) == wal_content(*old(dir), *old(self))
                + frame_of(payload@),
            files_framed(dir_view(*old(dir))) && seg_framed(old(self).sw.spec_pending())
                ==> files_framed(dir_view(*final(dir))) && seg_framed(
                final(self).sw.spec_pending(),
            ),
            sealed_min_size(dir_view(*old(dir)), old(self).segment_max_num_bytes)
                ==> sealed_min_size(dir_view(*final(dir)), old(self).segment_max_num_bytes),
            dir_view(*final(dir))[0].base == dir_view(*old(dir))[0].base,
            final(dir).files@.len() >= old(dir).files@.len(),
            // Rollover happens exactly when the write segment already
            // holds the threshold: the buffered bytes reach its file, a
            // new segment starting at the old current offset is created,
            // and it receives exactly this record.
            old(self).sw.spec_num_bytes() >= old(self).segment_max_num_bytes ==> ({
                let dv0 = dir_view(*old(dir));
                let dv1 = dir_view(*final(dir));
                &&& dv1.len() == dv0.len() + 1
                &&& (forall|k: int| 0 <= k < dv0.len() - 1 ==> dv1[k] == dv0[k])
                &&& dv1[dv0.len() - 1].base == dv0.last().base
                &&& dv1[dv0.len() - 1].data == dv0.last().data + old(self).sw.spec_pending()
                &&& dv1.last().base == old(self).spec_current_offset()
                &&& dv1.last().data == Seq::<u8>::empty()
                &&& final(self).sw.spec_base_offset() == old(self).spec_current_offset()
                &&& final(self).sw.spec_pending() == frame_of(payload@)
            }),
            old(self).sw.spec_num_bytes() < old(self).segment_max_num_bytes ==> ({
                &&& *final(dir) == *old(dir)
                &&& final(self).sw.spec_base_offset() == old(self).sw.spec_base_offset()
                &&& final(self).sw.spec_pending() == old(self).sw.spec_pending() + frame_of(
                    payload@,
                )
            }),
    {
        proof {
            lemma_wf_unique_bases(*dir);
        }
        let ghost dv0 = dir_view(*old(dir));
        let ghost pending0 = self.sw.spec_pending();
        if self.sw.num_bytes() >= self.segment_max_num_bytes {
            let ghost base = self.sw.spec_base_offset();
            match self.sw.flush(dir) {
                Ok(()) => {},
                Err(_) => {
                    proof {
                        assert(false);
                    }
                    return Err(WalError::Io);
                },
            }
            proof {
                lemma_flushed_view_last(dv0, base, pending0);
                lemma_grow_last(dv0, dir_view(*dir), pending0);
                lemma_wf_after_last_grow(*old(dir), *dir);
                lemma_wf_unique_bases(*dir);
                lemma_frames_concat_for_flush(dv0, dir_view(*dir), pending0);
            }
            let cur = self.sw.current_offset();
            let ghost dmid = *dir;
            let sw2 = match SegmentWriter::create(dir, cur) {
                Ok(sw2) => sw2,
                Err(_) => {
                    proof {
                        let dv1 = dir_view(*dir);
                        if view_has(dv1, cur) {
                            let t = view_index(dv1, cur);
                            assert(0 <= t < dv1.len() && dv1[t].base == cur);
                            assert(segs_of(dir.files@)[t].base_offset == cur);
                            assert(dv1.last().base == base);
                            if t < dv1.len() - 1 {
                                assert(segs_of(dir.files@)[t].base_offset < segs_of(
                                    dir.files@,
                                )[dv1.len() - 1].base_offset);
                            } else {
                                assert(cur == base);
                                assert(dv1.last().data.len()
                                    >= old(self).segment_max_num_bytes);
                            }
                        }
                        assert(false);
                    }
                    return Err(WalError::Io);
                },
            };
            self.sw = sw2;
            proof {
                let dv2 = dir_view(*dir);
                assert(dv2.drop_last() =~= dir_view(dmid));
                lemma_all_data_push(
                    dv2.drop_last(),
                    FileView { base: cur, data: Seq::<u8>::empty(), synced: 0 },
                );
                assert(dv2.drop_last().push(dv2.last()) =~= dv2);
                assert(all_data(dv2) =~= all_data(dv0) + pending0);
                // The new segment starts exactly at the old write
                // segment's top, which exceeds every existing base.
                let n = dmid.files@.len() as int;
                assert(dmid.files@.last().spec_top() == cur);
                assert(dir_wf(*dir)) by {
                    assert forall|k: int| 0 <= k < n + 1 implies dir.files@[k].spec_top()
                        <= u64::MAX by {
                        if k < n {
                            assert(dir.files@[k] == dmid.files@[k]);
                        }
                    }
                    assert forall|a: int, b: int| 0 <= a < b < n + 1 implies segs_of(
                        dir.files@,
                    )[a].base_offset < segs_of(dir.files@)[b].base_offset by {
                        assert(dir.files@[a] == dmid.files@[a]);
                        if b < n {
                            assert(dir.files@[b] == dmid.files@[b]);
                            assert(segs_of(dmid.files@)[a].base_offset < segs_of(
                                dmid.files@,
                            )[b].base_offset);
                        } else {
                            assert(dir.files@[b].base_offset == cur);
                            if a < n - 1 {
                                assert(segs_of(dmid.files@)[a].base_offset < segs_of(
                                    dmid.files@,
                                )[n - 1].base_offset);
                            }
                            assert(dmid.files@[n - 1].base_offset < cur);
                        }
                    }
                    assert forall|a: int| 0 <= a < n implies segs_of(dir.files@)[a].top_offset
                        == segs_of(dir.files@)[a + 1].base_offset by {
                        assert(dir.files@[a] == dmid.files@[a]);
                        if a < n - 1 {
                            assert(dir.files@[a + 1] == dmid.files@[a + 1]);
                            assert(segs_of(dmid.files@)[a].top_offset == segs_of(
                                dmid.files@,
                            )[a + 1].base_offset);
                        } else {
                            assert(segs_of(dir.files@)[a].top_offset == cur);
                            assert(dir.files@[a + 1].base_offset == cur);
                        }
                    }
                }
                assert(sealed_min_size(dir_view(dmid), self.segment_max_num_bytes)
                    ==> sealed_min_size(dv2, self.segment_max_num_bytes)) by {
                    if sealed_min_size(dir_view(dmid), self.segment_max_num_bytes) {
                        assert forall|k: int|
                            0 <= k < dv2.len() - 1 implies #[trigger] dv2[k].data.len()
                            >= self.segment_max_num_bytes by {
                            assert(dv2[k] == dir_view(dmid)[k]);
                            if k < n - 1 {
                                assert(dir_view(dmid)[k].data.len()
                                    >= self.segment_max_num_bytes);
                            } else {
                                assert(dir_view(dmid).last().data.len() == dv0.last().data.len()
                                    + pending0.len());
                            }
                        }
                    }
                }
            }
        }
        let ghost dv_mid = dir_view(*dir);
        let ghost pend_mid = self.sw.spec_pending();
        let ghost content_mid = all_data(dv_mid) + pend_mid;
        proof {
            assert(content_mid =~= wal_content(*old(dir), *old(self)));
            if files_framed(dv0) && seg_framed(pending0) {
                assert(files_framed(dv_mid) && seg_framed(pend_mid)) by {
                    if old(self).sw.spec_num_bytes() >= old(self).segment_max_num_bytes {
                        assert(seg_framed(Seq::<u8>::empty()));
                        assert(pend_mid =~= Seq::<u8>::empty());
                    }
                }
            }
        }
        let n = self.sw.append(payload);
        proof {
            assert(wal_content(*dir, *self) =~= content_mid + frame_of(payload@));
            assert(self.sw.spec_pending() == pend_mid + frame_of(payload@));
            if files_framed(dv0) && seg_framed(pending0) {
                crate::codec::lemma_append_adds_entry(pend_mid, payload@);
            }
        }
        Ok(n)
    }

    /// Flushes buffered records into the write segment's file. The log's
    /// content is unchanged; all of it now sits in the directory.
    pub fn flush(&mut self, dir: &mut LogDir) -> (r: Result<(), WalError>)
        requires
            old(self).inv(*old(dir)),
        ensures
            r == Ok::<(), WalError>(()),
            final(self).inv(*final(dir)),
            final(self).segment_max_num_bytes == old(self).segment_max_num_bytes,
            final(self).spec_current_offset() == old(self).spec_current_offset(),
            final(self).sw.spec_pending() == Seq::<u8>::empty(),
            dir_view(*final(dir)) == flushed_view(
                dir_view(*old(dir)),
                old(self).sw.spec_base_offset(),
                old(self).sw.spec_pending(),
            ),
            wal_content(*final(dir), *final(self)) == wal_content(*old(dir), *old(self)),
            all_data(dir_view(*final(dir))) == wal_content(*old(dir), *old(self)),
            files_framed(dir_view(*old(dir))) && seg_framed(old(self).sw.spec_pending())
                ==> files_framed(dir_view(*final(dir))),
            sealed_min_size(dir_view(*old(dir)), old(self).segment_max_num_bytes)
                ==> sealed_min_size(dir_view(*final(dir)), old(self).segment_max_num_bytes),
            dir_view(*final(dir))[0].base == dir_view(*old(dir))[0].base,
            final(dir).files@.len() == old(dir).files@.len(),
    {
        proof {
            lemma_wf_unique_bases(*dir);
        }
        let ghost dv0 = dir_view(*old(dir));
        let ghost pending0 = self.sw.spec_pending();
        let ghost base = self.sw.spec_base_offset();
        match self.sw.flush(dir) {
            Ok(()) => {},
            Err(_) => {
                proof {
                    assert(false);
                }
                return Err(WalError::Io);
            },
        }
        proof {
            lemma_flushed_view_last(dv0, base, pending0);
            lemma_grow_last(dv0, dir_view(*dir), pending0);
            lemma_wf_after_last_grow(*old(dir), *dir);
            assert(wal_content(*dir, *self) =~= all_data(dir_view(*dir)));
            lemma_frames_concat_for_flush(dv0, dir_view(*dir), pending0);
        }
        Ok(())
    }

    /// Flushes and marks the write segment's whole content durable.
    pub fn sync(&mut self, dir: &mut LogDir) -> (r: Result<(), WalError>)
        requires
            old(self).inv(*old(dir)),
        ensures
            r == Ok::<(), WalError>(()),
            final(self).inv(*final(dir)),
            final(self).segment_max_num_bytes == old(self).segment_max_num_bytes,
            final(self).spec_current_offset() == old(self).spec_current_offset(),
            final(self).sw.spec_pending() == Seq::<u8>::empty(),
            dir_view(*final(dir)) == synced_view(
                dir_view(*old(dir)),
                old(self).sw.spec_base_offset(),
                old(self).sw.spec_pending(),
            ),
            wal_content(*final(dir), *final(self)) == wal_content(*old(dir), *old(self)),
            all_data(dir_view(*final(dir))) == wal_content(*old(dir), *old(self)),
            final(dir).files@.len() == old(dir).files@.len(),
    {
        proof {
            lemma_wf_unique_bases(*dir);
        }
        let ghost dv0 = dir_view(*old(dir));
        let ghost pending0 = self.sw.spec_pending();
        let ghost base = self.sw.spec_base_offset();
        match self.sw.sync(dir) {
            Ok(()) => {},
            Err(_) => {
                proof {
                    assert(false);
                }
                return Err(WalError::Io);
            },
        }
        proof {
            lemma_synced_view_last(dv0, base, pending0);
            lemma_grow_last(dv0, dir_view(*dir), pending0);
            lemma_wf_after_last_grow(*old(dir), *dir);
            assert(wal_content(*dir, *self) =~= all_data(dir_view(*dir)));
        }
        Ok(())
    }

    /// The offset one past the last appended byte.
    pub fn current_offset(&self) -> (r: u64)
        requires
            self.spec_current_offset() <= u64::MAX,
        ensures
            r == self.spec_current_offset(),
    {
        self.sw.current_offset()
    }
}

/// When the last file's content grows by framed bytes, files stay
/// framed.
proof fn lemma_frames_concat_for_flush(dv0: Seq<FileView>, dv1: Seq<FileView>, pending: Seq<u8>)
    requires
        dv0.len() > 0,
        dv1.len() == dv0.len(),
        forall|k: int| 0 <= k < dv0.len() - 1 ==> dv1[k] == dv0[k],
        dv1.last().data == dv0.last().data + pending,
    ensures
        files_framed(dv0) && seg_framed(pending) ==> files_framed(dv1),
{
    if files_framed(dv0) && seg_framed(pending) {
        assert forall|i: int| 0 <= i < dv1.len() implies seg_framed(#[trigger] dv1[i].data) by {
            if i < dv1.len() - 1 {
                assert(dv1[i] == dv0[i]);
                assert(seg_framed(dv0[i].data));
            } else {
                assert(seg_framed(dv0.last().data));
                crate::codec::lemma_entries_concat(dv0.last().data, pending, 0, 0);
            }
        }
    }
}

} // verus!
