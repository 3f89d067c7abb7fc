//! Buffered appends to a single segment file.
//!
//! A [`SegmentWriter`] owns a user-space buffer of appended frames. The
//! frames reach the segment file in its [`LogDir`] only on [`flush`];
//! [`sync`] additionally marks the file's whole content durable. The
//! effects on the directory are stated over [`FileView`] transitions, so
//! that flushing and syncing can be reasoned about as pure functions of
//! the directory state.
//!
//! [`flush`]: SegmentWriter::flush
//! [`sync`]: SegmentWriter::sync

use vstd::prelude::*;

use crate::codec::{encode_frame, frame_of, HEADER_NUM_BYTES};
use crate::directory::{find_file, LogDir, SegmentFile};
use crate::errors::WalError;

verus! {

/// The abstract state of one segment file: base offset, content, and the
/// length of its durable prefix.
#[verifier::ext_equal]
pub struct FileView {
    /// Byte offset of the file's start within the logical log.
    pub base: u64,
    /// The file's bytes.
    pub data: Seq<u8>,
    /// Length of the durable prefix of `data`.
    pub synced: int,
}

/// The abstract state of one file.
pub open spec fn view_of_file(f: SegmentFile) -> FileView {
    FileView { base: f.base_offset, data: f.data@, synced: f.synced_len as int }
}

/// The abstract state of a directory: its files' views, in file order.
pub open spec fn dir_view(dir: LogDir) -> Seq<FileView> {
    dir.files@.map_values(|f: SegmentFile| view_of_file(f))
}

/// Whether some file of the view has the given base offset.
pub open spec fn view_has(v: Seq<FileView>, base: u64) -> bool {
    exists|i: int| 0 <= i < v.len() && v[i].base == base
}

/// The index of the file with the given base offset.
pub open spec fn view_index(v: Seq<FileView>, base: u64) -> int {
    choose|i: int| 0 <= i < v.len() && v[i].base == base
}

/// No two files share a base offset; a directory on disk cannot, since
/// the base offset is the file name.
pub open spec fn unique_bases(v: Seq<FileView>) -> bool {
    forall|i: int, j: int| 0 <= i < j < v.len() ==> v[i].base != v[j].base
}

/// The directory after flushing `pending` to the file at `base`: the
/// file's content grows by `pending`; nothing else changes.
pub open spec fn flushed_view(v: Seq<FileView>, base: u64, pending: Seq<u8>) -> Seq<FileView> {
    let i = view_index(v, base);
    v.update(i, FileView { base, data: v[i].data + pending, synced: v[i].synced })
}

/// The directory after syncing the file at `base` with `pending` still
/// buffered: the file's content grows by `pending` and all of it becomes
/// durable.
pub open spec fn synced_view(v: Seq<FileView>, base: u64, pending: Seq<u8>) -> Seq<FileView> {
    let i = view_index(v, base);
    v.update(
        i,
        FileView { base, data: v[i].data + pending, synced: (v[i].data.len() + pending.len()) as int },
    )
}

/// Law: flushing twice is equivalent to flushing once. After a flush the
/// buffer is empty, and flushing an empty buffer changes nothing.
pub proof fn lemma_flush_idempotent(v: Seq<FileView>, base: u64, pending: Seq<u8>)
    requires
        view_has(v, base),
    ensures
        flushed_view(flushed_view(v, base, pending), base, Seq::<u8>::empty()) == flushed_view(
            v,
            base,
            pending,
        ),
{
    let v1 = flushed_view(v, base, pending);
    let i = view_index(v, base);
    assert(0 <= i < v.len() && v[i].base == base);
    assert(v1[i].base == base);
    assert(view_has(v1, base));
    let j = view_index(v1, base);
    assert(0 <= j < v1.len() && v1[j].base == base);
    assert(v1[j].data + Seq::<u8>::empty() =~= v1[j].data);
    assert(flushed_view(v1, base, Seq::<u8>::empty()) =~= v1);
}

/// Law: syncing right after a flush is the same as syncing without the
/// flush: both leave the file's full content durable.
pub proof fn lemma_sync_after_flush(v: Seq<FileView>, base: u64, pending: Seq<u8>)
    requires
        view_has(v, base),
        unique_bases(v),
    ensures
        synced_view(flushed_view(v, base, pending), base, Seq::<u8>::empty()) == synced_view(
            v,
            base,
            pending,
        ),
{
    let v1 = flushed_view(v, base, pending);
    let i = view_index(v, base);
    assert(0 <= i < v.len() && v[i].base == base);
    assert(v1[i].base == base);
    assert(view_has(v1, base));
    let j = view_index(v1, base);
    assert(0 <= j < v1.len() && v1[j].base == base);
    assert(j == i) by {
        if j != i {
            assert(v1[j] == v[j]);
        }
    }
    assert(v1[i].data + Seq::<u8>::empty() =~= v1[i].data);
    assert(synced_view(v1, base, Seq::<u8>::empty()) =~= synced_view(v, base, pending));
}

/// A buffered writer over one segment file of a [`LogDir`].
pub struct SegmentWriter {
    /// Base offset of the segment being written.
    pub base_offset: u64,
    /// Length of the file's content already in the directory.
    pub file_len: usize,
    /// Frames appended but not yet flushed to the directory.
    pub pending: Vec<u8>,
}

impl SegmentWriter {
    /// Base offset of the segment being written.
    pub open spec fn spec_base_offset(&self) -> u64 {
        self.base_offset
    }

    /// The frames appended but not yet flushed.
    pub open spec fn spec_pending(&self) -> Seq<u8> {
        self.pending@
    }

    /// Length of the file's content already flushed to the directory.
    pub open spec fn spec_file_len(&self) -> int {
        self.file_len as int
    }

    /// Bytes written to this segment, flushed or not.
    pub open spec fn spec_num_bytes(&self) -> int {
        self.file_len + self.pending@.len()
    }

    /// The offset one past the last appended byte.
    pub open spec fn spec_current_offset(&self) -> int {
        self.base_offset + self.spec_num_bytes()
    }

    /// The writer agrees with the directory: its segment is a file of the
    /// directory whose content length matches what the writer flushed.
    pub open spec fn agrees_with(&self, dir: LogDir) -> bool {
        &&& view_has(dir_view(dir), self.base_offset)
        &&& dir_view(dir)[view_index(dir_view(dir), self.base_offset)].data.len() == self.file_len
    }

    /// Creates a new, empty segment file with the given base offset.
    /// Fails when a file with that base offset already exists.
    pub fn create(dir: &mut LogDir, base_offset: u64) -> (r: Result<SegmentWriter, WalError>)
        ensures
            match r {
                Ok(w) => {
                    &&& !view_has(dir_view(*old(dir)), base_offset)
                    &&& final(dir).files@.len() == old(dir).files@.len() + 1
                    &&& final(dir).files@.take(old(dir).files@.len() as int) == old(dir).files@
                    &&& dir_view(*final(dir)).last() == (FileView {
                        base: base_offset,
                        data: Seq::<u8>::empty(),
                        synced: 0,
                    })
                    &&& w.spec_base_offset() == base_offset
                    &&& w.spec_pending() == Seq::<u8>::empty()
                    &&& w.spec_file_len() == 0
                    &&& w.agrees_with(*final(dir))
                },
                Err(e) => {
                    &&& e == WalError::Io
                    &&& view_has(dir_view(*old(dir)), base_offset)
                    &&& *final(dir) == *old(dir)
                },
            },
    {
        let ghost dv0 = dir_view(*dir);
        if let Some(i) = find_file(dir, base_offset) {
            proof {
                assert(dv0[i as int].base == base_offset);
            }
            return Err(WalError::Io);
        }
        proof {
            assert(!view_has(dv0, base_offset)) by {
                if view_has(dv0, base_offset) {
                    let i = view_index(dv0, base_offset);
                    assert(dir.files@[i].base_offset == base_offset);
                }
            }
        }
        let data: Vec<u8> = Vec::new();
        dir.files.push(SegmentFile { base_offset, data, synced_len: 0 });
        let w = SegmentWriter { base_offset, file_len: 0, pending: Vec::new() };
        proof {
            let dv = dir_view(*dir);
            let n = dv.len() - 1;
            assert(dv[n].base == base_offset);
            assert(view_has(dv, base_offset));
            let j = view_index(dv, base_offset);
            assert(dv[j].data.len() == 0) by {
                if j < n {
                    assert(dv0[j].base == base_offset);
                }
            }
        }
        Ok(w)
    }

    /// Opens the existing segment file with the given base offset for
    /// appending; the write position is the end of the file.
    pub fn open(dir: &LogDir, base_offset: u64) -> (r: Result<SegmentWriter, WalError>)
        requires
            unique_bases(dir_view(*dir)),
        ensures
            match r {
                Ok(w) => {
                    &&& view_has(dir_view(*dir), base_offset)
                    &&& w.spec_base_offset() == base_offset
                    &&& w.spec_pending() == Seq::<u8>::empty()
                    &&& w.agrees_with(*dir)
                },
                Err(e) => {
                    &&& e == WalError::Io
                    &&& !view_has(dir_view(*dir), base_offset)
                },
            },
    {
        let ghost dv = dir_view(*dir);
        let i = match find_file(dir, base_offset) {
            Some(i) => i,
            None => {
                proof {
                    if view_has(dv, base_offset) {
                        let t = view_index(dv, base_offset);
                        assert(dir.files@[t].base_offset == base_offset);
                    }
                }
                return Err(WalError::Io);
            },
        };
        let file_len = dir.files[i].data.len();
        proof {
            assert(dv[i as int].base == base_offset);
            let j = view_index(dv, base_offset);
            assert(0 <= j < dv.len() && dv[j].base == base_offset);
            assert(j == i);
        }
        Ok(SegmentWriter { base_offset, file_len, pending: Vec::new() })
    }

    /// Appends one record to the user-space buffer and returns its
    /// on-disk size. The directory is not touched until the next flush.
    pub fn append(&mut self, payload: &[u8]) -> (r: u64)
        requires
            payload@.len() < 0x1_0000_0000,
            old(self).spec_current_offset() + HEADER_NUM_BYTES + payload@.len() <= u64::MAX,
        ensures
            final(self).spec_pending() == old(self).spec_pending() + frame_of(payload@),
            final(self).spec_base_offset() == old(self).spec_base_offset(),
            final(self).spec_file_len() == old(self).spec_file_len(),
            r == HEADER_NUM_BYTES + payload@.len(),
            final(self).spec_current_offset() == old(self).spec_current_offset() + r,
    {
        let mut frame = encode_frame(payload);
        let num_bytes_written = HEADER_NUM_BYTES + payload.len() as u64;
        self.pending.append(&mut frame);
        num_bytes_written
    }

    /// Flushes the user-space buffer into the segment file. Fails, with
    /// the directory unchanged, when the file has vanished.
    pub fn flush(&mut self, dir: &mut LogDir) -> (r: Result<(), WalError>)
        requires
            unique_bases(dir_view(*old(dir))),
        ensures
            match r {
                Ok(()) => {
                    &&& view_has(dir_view(*old(dir)), old(self).spec_base_offset())
                    &&& dir_view(*final(dir)) == flushed_view(
                        dir_view(*old(dir)),
                        old(self).spec_base_offset(),
                        old(self).spec_pending(),
                    )
                    &&& final(dir).files@.len() == old(dir).files@.len()
                    &&& final(self).spec_base_offset() == old(self).spec_base_offset()
                    &&& final(self).spec_pending() == Seq::<u8>::empty()
                    &&& old(self).agrees_with(*old(dir)) ==> final(self).spec_num_bytes()
                        == old(self).spec_num_bytes()
                    &&& final(self).agrees_with(*final(dir))
                    &&& old(self).agrees_with(*old(dir)) ==> forall|k: int|
                        0 <= k < final(dir).files@.len() ==> final(dir).files@[k].synced_len
                            == old(dir).files@[k].synced_len
                },
                Err(e) => {
                    &&& e == WalError::Io
                    &&& !view_has(dir_view(*old(dir)), old(self).spec_base_offset())
                    &&& *final(dir) == *old(dir)
                    &&& *final(self) == *old(self)
                },
            },
    {
        let ghost dv = dir_view(*old(dir));
        let i = match find_file(dir, self.base_offset) {
            Some(i) => i,
            None => {
                proof {
                    if view_has(dv, self.base_offset) {
                        let t = view_index(dv, self.base_offset);
                        assert(dir.files@[t].base_offset == self.base_offset);
                    }
                }
                return Err(WalError::Io);
            },
        };
        proof {
            assert(dv[i as int].base == self.base_offset);
            let j = view_index(dv, self.base_offset);
            assert(0 <= j < dv.len() && dv[j].base == self.base_offset);
            assert(j == i);
        }
        let mut f = dir.files.remove(i);
        f.data.append(&mut self.pending);
        let new_len = f.data.len();
        dir.files.insert(i, f);
        self.file_len = new_len;
        proof {
            assert(dir.files@ =~= old(dir).files@.update(i as int, dir.files@[i as int]));
            assert(dir_view(*dir) =~~= flushed_view(
                dv,
                old(self).spec_base_offset(),
                old(self).spec_pending(),
            ));
            assert(dir_view(*dir)[i as int].base == self.base_offset);
            assert(view_has(dir_view(*dir), self.base_offset));
            let j2 = view_index(dir_view(*dir), self.base_offset);
            assert(0 <= j2 < dv.len() && dir_view(*dir)[j2].base == self.base_offset);
            assert(j2 == i) by {
                if j2 != i {
                    assert(dir_view(*dir)[j2] == dv[j2]);
                }
            }
        }
        Ok(())
    }

    /// Flushes and then marks the file's whole content durable, as a
    /// data sync on the file would.
    pub fn sync(&mut self, dir: &mut LogDir) -> (r: Result<(), WalError>)
        requires
            unique_bases(dir_view(*old(dir))),
        ensures
            match r {
                Ok(()) => {
                    &&& view_has(dir_view(*old(dir)), old(self).spec_base_offset())
                    &&& dir_view(*final(dir)) == synced_view(
                        dir_view(*old(dir)),
                        old(self).spec_base_offset(),
                        old(self).spec_pending(),
                    )
                    &&& final(dir).files@.len() == old(dir).files@.len()
                    &&& final(self).spec_base_offset() == old(self).spec_base_offset()
                    &&& final(self).spec_pending() == Seq::<u8>::empty()
                    &&& old(self).agrees_with(*old(dir)) ==> final(self).spec_num_bytes()
                        == old(self).spec_num_bytes()
                    &&& final(self).agrees_with(*final(dir))
                },
                Err(e) => {
                    &&& e == WalError::Io
                    &&& !view_has(dir_view(*old(dir)), old(self).spec_base_offset())
                    &&& *final(dir) == *old(dir)
                    &&& *final(self) == *old(self)
                },
            },
    {
        let ghost dv = dir_view(*old(dir));
        let i = match find_file(dir, self.base_offset) {
            Some(i) => i,
            None => {
                proof {
                    if view_has(dv, self.base_offset) {
                        let t = view_index(dv, self.base_offset);
                        assert(dir.files@[t].base_offset == self.base_offset);
                    }
                }
                return Err(WalError::Io);
            },
        };
        proof {
            assert(dv[i as int].base == self.base_offset);
            let j = view_index(dv, self.base_offset);
            assert(0 <= j < dv.len() && dv[j].base == self.base_offset);
            assert(j == i);
        }
        let mut f = dir.files.remove(i);
        f.data.append(&mut self.pending);
        let new_len = f.data.len();
        f.synced_len = new_len;
        dir.files.insert(i, f);
        self.file_len = new_len;
        proof {
            assert(dir.files@ =~= old(dir).files@.update(i as int, dir.files@[i as int]));
            assert(dir_view(*dir) =~~= synced_view(
                dv,
                old(self).spec_base_offset(),
                old(self).spec_pending(),
            ));
            assert(dir_view(*dir)[i as int].base == self.base_offset);
            assert(view_has(dir_view(*dir), self.base_offset));
            let j2 = view_index(dir_view(*dir), self.base_offset);
            assert(0 <= j2 < dv.len() && dir_view(*dir)[j2].base == self.base_offset);
            assert(j2 == i) by {
                if j2 != i {
                    assert(dir_view(*dir)[j2] == dv[j2]);
                }
            }
        }
        Ok(())
    }

    /// Base offset of the segment being written.
    pub fn base_offset(&self) -> (r: u64)
        ensures
            r == self.spec_base_offset(),
    {
        self.base_offset
    }

    /// The offset one past the last appended byte.
    pub fn current_offset(&self) -> (r: u64)
        requires
            self.spec_current_offset() <= u64::MAX,
        ensures
            r == self.spec_current_offset(),
    {
        self.base_offset + self.file_len as u64 + self.pending.len() as u64
    }

    /// Number of bytes written by this writer to its segment.
    pub fn num_bytes(&self) -> (r: u64)
        requires
            self.spec_num_bytes() <= u64::MAX,
        ensures
            r == self.spec_num_bytes(),
    {
        self.file_len as u64 + self.pending.len() as u64
    }
}

} // verus!
