//! Framed reads from a single segment file.
//!
//! A [`SegmentReader`] works on a snapshot of one file's bytes, as an
//! opened file handle would: later changes to the directory do not move
//! under it. [`next`] decodes one frame at the current position;
//! [`seek`] repositions within the segment and peeks for the magic
//! marker.
//!
//! [`next`]: SegmentReader::next
//! [`seek`]: SegmentReader::seek

use vstd::prelude::*;
use vstd::slice::slice_to_vec;

use crate::codec::{decode_at, decode_frame, le_u16, SpecDecoded, HEADER_MAGIC, HEADER_NUM_BYTES};
use crate::directory::{find_file, LogDir};
use crate::errors::WalError;
use crate::segment_writer::{dir_view, unique_bases, view_has, view_index};

verus! {

/// A reader over one segment file.
pub struct SegmentReader {
    /// Byte offset of the segment's start within the logical log.
    pub base_offset: u64,
    /// Snapshot of the file's bytes at open time.
    pub data: Vec<u8>,
    /// Bytes consumed so far; may lie beyond the data after a seek, as a
    /// file offset may.
    pub pos: u64,
}

impl SegmentReader {
    /// The reader's absolute position and its segment's top offset fit
    /// in 64 bits.
    pub open spec fn wf(&self) -> bool {
        self.base_offset + self.pos <= u64::MAX && self.base_offset + self.data@.len()
            <= u64::MAX
    }

    /// The absolute offset of the next read.
    pub open spec fn spec_current_offset(&self) -> int {
        self.base_offset + self.pos
    }

    /// Opens a reader on the file with the given base offset. Fails when
    /// no such file exists or its top offset overflows.
    pub fn open(dir: &LogDir, base_offset: u64) -> (r: Result<SegmentReader, WalError>)
        requires
            unique_bases(dir_view(*dir)),
        ensures
            match r {
                Ok(s) => {
                    &&& view_has(dir_view(*dir), base_offset)
                    &&& s.base_offset == base_offset
                    &&& s.data@ == dir_view(*dir)[view_index(dir_view(*dir), base_offset)].data
                    &&& s.pos == 0
                    &&& s.base_offset + s.data@.len() <= u64::MAX
                    &&& s.wf()
                },
                Err(e) => {
                    &&& e == WalError::Io
                    &&& !view_has(dir_view(*dir), base_offset) || dir_view(*dir)[view_index(
                        dir_view(*dir),
                        base_offset,
                    )].base + dir_view(*dir)[view_index(dir_view(*dir), base_offset)].data.len()
                        > u64::MAX
                },
            },
    {
        let ghost dv = dir_view(*dir);
        let i = match find_file(dir, base_offset) {
            Some(i) => i,
            None => {
                proof {
                    if view_has(dv, base_offset) {
                        let t = view_index(dv, base_offset);
                        assert(dir.files@[t].base_offset == base_offset);
                    }
                }
                return Err(WalError::Io);
            },
        };
        proof {
            assert(dv[i as int].base == base_offset);
            let j = view_index(dv, base_offset);
            assert(0 <= j < dv.len() && dv[j].base == base_offset);
            assert(j == i);
        }
        if dir.files[i].data.len() as u64 > u64::MAX - base_offset {
            return Err(WalError::Io);
        }
        let data = slice_to_vec(dir.files[i].data.as_slice());
        Ok(SegmentReader { base_offset, data, pos: 0 })
    }

    /// Repositions within the segment. The offset must lie in
    /// `[base_offset, base_offset + segment_max_num_bytes)`; the two
    /// bytes at the new position, when present, must hold the magic
    /// marker. A failed magic peek leaves the position moved, as the
    /// underlying file seek has already happened.
    pub fn seek(&mut self, offset: u64, segment_max_num_bytes: u64) -> (r: Result<(), WalError>)
        requires
            old(self).wf(),
        ensures
            ({
                let in_range = old(self).base_offset <= offset < old(self).base_offset
                    + segment_max_num_bytes;
                let new_pos = offset - old(self).base_offset;
                let magic_ok = new_pos + 2 <= old(self).data@.len() ==> le_u16(
                    old(self).data@[new_pos],
                    old(self).data@[new_pos + 1],
                ) == HEADER_MAGIC;
                &&& final(self).base_offset == old(self).base_offset
                &&& final(self).data == old(self).data
                &&& !in_range ==> r == Err::<(), WalError>(WalError::SeekError) && final(self).pos
                    == old(self).pos
                &&& in_range ==> final(self).pos == new_pos && (r == if magic_ok {
                    Ok::<(), WalError>(())
                } else {
                    Err::<(), WalError>(WalError::SeekError)
                })
                &&& final(self).wf()
            }),
    {
        if offset < self.base_offset || segment_max_num_bytes <= offset - self.base_offset {
            return Err(WalError::SeekError);
        }
        self.pos = offset - self.base_offset;
        if self.data.len() as u64 >= 2 && self.pos <= self.data.len() as u64 - 2 {
            let p = self.pos as usize;
            let magic = (self.data[p] as u16) | ((self.data[p + 1] as u16) << 8);
            if magic != HEADER_MAGIC {
                return Err(WalError::SeekError);
            }
        }
        Ok(())
    }

    /// Decodes the next frame. Returns `Ok(None)` at or past the end of
    /// the segment, the payload on success, and a corruption error on a
    /// partial or invalid frame.
    pub fn next(&mut self) -> (r: Result<Option<Vec<u8>>, WalError>)
        requires
            old(self).wf(),
        ensures
            final(self).base_offset == old(self).base_offset,
            final(self).data == old(self).data,
            final(self).wf(),
            old(self).pos > old(self).data@.len() ==> (r matches Ok(None) && final(self).pos
                == old(self).pos),
            old(self).pos <= old(self).data@.len() ==> match r {
                Ok(None) => decode_at(old(self).data@, old(self).pos as int) is Eof
                    && final(self).pos == old(self).pos,
                Ok(Some(payload)) => {
                    &&& decode_at(old(self).data@, old(self).pos as int) == SpecDecoded::Record(
                        payload@,
                        HEADER_NUM_BYTES + payload@.len(),
                    )
                    &&& final(self).pos == old(self).pos + HEADER_NUM_BYTES + payload@.len()
                },
                Err(e) => {
                    &&& decode_at(old(self).data@, old(self).pos as int) matches
                        SpecDecoded::Corrupt(k)
                    &&& e == WalError::Corruption(k)
                    &&& final(self).pos == old(self).pos
                },
            },
    {
        if self.pos > self.data.len() as u64 {
            return Ok(None);
        }
        match decode_frame(self.data.as_slice(), self.pos as usize) {
            Ok(None) => Ok(None),
            Ok(Some((payload, width))) => {
                self.pos = self.pos + width as u64;
                Ok(Some(payload))
            },
            Err(e) => Err(e),
        }
    }

    /// Like [`next`], but returns the record's absolute offset and
    /// checksum as well.
    ///
    /// [`next`]: SegmentReader::next
    pub fn next_entry(&mut self) -> (r: Result<Option<Entry>, WalError>)
        requires
            old(self).wf(),
        ensures
            final(self).base_offset == old(self).base_offset,
            final(self).data == old(self).data,
            final(self).wf(),
            old(self).pos > old(self).data@.len() ==> (r matches Ok(None) && final(self).pos
                == old(self).pos),
            old(self).pos <= old(self).data@.len() ==> match r {
                Ok(None) => decode_at(old(self).data@, old(self).pos as int) is Eof
                    && final(self).pos == old(self).pos,
                Ok(Some(entry)) => {
                    &&& decode_at(old(self).data@, old(self).pos as int) == SpecDecoded::Record(
                        entry.payload@,
                        HEADER_NUM_BYTES + entry.payload@.len(),
                    )
                    &&& entry.offset == old(self).spec_current_offset()
                    &&& entry.checksum == crate::codec::crc32_of(entry.payload@)
                    &&& final(self).pos == old(self).pos + HEADER_NUM_BYTES + entry.payload@.len()
                },
                Err(e) => {
                    &&& decode_at(old(self).data@, old(self).pos as int) matches
                        SpecDecoded::Corrupt(k)
                    &&& e == WalError::Corruption(k)
                    &&& final(self).pos == old(self).pos
                },
            },
    {
        if self.pos > self.data.len() as u64 {
            return Ok(None);
        }
        let offset = self.base_offset + self.pos;
        match decode_frame(self.data.as_slice(), self.pos as usize) {
            Ok(None) => Ok(None),
            Ok(Some((payload, width))) => {
                let checksum = crate::codec::crc32(payload.as_slice());
                self.pos = self.pos + width as u64;
                Ok(Some(Entry { offset, checksum, payload }))
            },
            Err(e) => Err(e),
        }
    }

    /// Byte offset of the segment's start within the logical log.
    pub fn base_offset(&self) -> (r: u64)
        ensures
            r == self.base_offset,
    {
        self.base_offset
    }

    /// The absolute offset of the next read.
    pub fn current_offset(&self) -> (r: u64)
        requires
            self.wf(),
        ensures
            r == self.spec_current_offset(),
    {
        self.base_offset + self.pos
    }

    /// Bytes consumed so far.
    pub fn num_bytes(&self) -> (r: u64)
        ensures
            r == self.pos,
    {
        self.pos
    }
}

/// One record read from the log: its absolute offset, its checksum, and
/// its payload.
pub struct Entry {
    /// Byte offset of the record's frame within the logical log.
    pub offset: u64,
    /// CRC-32 of the payload, as stored in the frame.
    pub checksum: u32,
    /// The record's payload.
    pub payload: Vec<u8>,
}

impl Entry {
    /// The offset of the record that follows this one.
    pub fn next_offset(&self) -> (r: u64)
        requires
            self.offset + HEADER_NUM_BYTES + self.payload@.len() <= u64::MAX,
        ensures
            r == self.offset + HEADER_NUM_BYTES + self.payload@.len(),
    {
        self.offset + HEADER_NUM_BYTES + self.payload.len() as u64
    }
}

} // verus!
