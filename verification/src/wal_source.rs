//! A pull-based source that tails a write-ahead log directory and emits
//! document batches carrying checkpoint deltas.
//!
//! Records are read from the source's current offset on. A record whose
//! payload is non-empty, valid UTF-8 becomes a document; any other
//! record counts as invalid. A batch closes once its documents reach
//! the batch size limit or the log is drained.

use vstd::prelude::*;
use vstd::utf8::{decode_utf8, valid_utf8};

use crate::codec::{frame_len, le_u16, EntryView, HEADER_MAGIC};
use crate::directory::{check_dir_wf, dir_wf, tops_fit, LogDir};
use crate::errors::{CorruptionKind, WalError};
use crate::position::{CheckpointDelta, Position};
use crate::queue::{entry_views, scan_entries};
use crate::reader::{seek_target, wal_entries, Reader};
use crate::segment_writer::dir_view;
use crate::writer::files_framed;

verus! {

/// A batch closes once its documents hold at least this many bytes.
pub const BATCH_NUM_BYTES_LIMIT: u64 = 5_000_000;

/// Relies on String::from_utf8: it succeeds exactly on valid UTF-8 and
/// decodes the bytes to their scalar values.
#[verifier::external_body]
fn bytes_to_string(bytes: Vec<u8>) -> (r: Option<String>)
    ensures
        r is Some <==> valid_utf8(bytes@),
        r matches Some(s) ==> s@ == decode_utf8(bytes@),
{
    String::from_utf8(bytes).ok()
}

/// Whether a record's payload makes a document: non-empty, valid UTF-8.
pub open spec fn is_doc(p: Seq<u8>) -> bool {
    p.len() > 0 && valid_utf8(p)
}

/// Parses one record into a document. Empty or non-UTF-8 records yield
/// nothing and are counted as invalid by the source.
pub fn parse_record(record: &[u8]) -> (r: Option<String>)
    ensures
        r is Some <==> is_doc(record@),
        r matches Some(s) ==> s@ == decode_utf8(record@),
{
    if record.len() == 0 {
        return None;
    }
    bytes_to_string(vstd::slice::slice_to_vec(record))
}

/// The records at or past `off`, assuming offsets ascend.
pub open spec fn skip_below(es: Seq<EntryView>, off: int) -> Seq<EntryView>
    decreases es.len(),
{
    if es.len() == 0 {
        es
    } else if es.first().offset < off {
        skip_below(es.drop_first(), off)
    } else {
        es
    }
}

/// How many records one batch consumes, with `acc` document bytes
/// already in the batch: records are consumed one by one, and the batch
/// closes once its documents reach the limit.
pub open spec fn src_consumed(es: Seq<EntryView>, acc: int) -> int
    decreases es.len(),
{
    if es.len() == 0 {
        0
    } else {
        let add: int = if is_doc(es.first().payload) {
            es.first().payload.len() as int
        } else {
            0
        };
        1 + if acc + add >= BATCH_NUM_BYTES_LIMIT {
            0
        } else {
            src_consumed(es.drop_first(), acc + add)
        }
    }
}

/// The documents among the consumed records, decoded.
pub open spec fn docs_of(es: Seq<EntryView>) -> Seq<Seq<char>> {
    es.filter(|e: EntryView| is_doc(e.payload)).map_values(
        |e: EntryView| decode_utf8(e.payload),
    )
}

/// The payload bytes of the consumed records, documents or not.
pub open spec fn bytes_of(es: Seq<EntryView>) -> int
    decreases es.len(),
{
    if es.len() == 0 {
        0
    } else {
        bytes_of(es.drop_last()) + es.last().payload.len()
    }
}

/// How many consumed records were not documents.
pub open spec fn invalid_of(es: Seq<EntryView>) -> int {
    es.len() - es.filter(|e: EntryView| is_doc(e.payload)).len()
}

/// One emitted batch: the documents and the progress they represent.
pub struct RawDocBatch {
    /// The decoded documents, in offset order.
    pub docs: Vec<String>,
    /// The step of progress this batch makes.
    pub checkpoint_delta: CheckpointDelta,
}

/// The offset a source starts reading at: a checkpointed offset, or
/// the lowest available offset when resuming from the beginning, so
/// that a checkpoint of `Beginning` survives earlier truncation.
pub open spec fn start_offset(dir: LogDir, pos: Position) -> u64 {
    match pos {
        Position::Beginning => if dir.files@.len() > 0 {
            dir.files@[0].base_offset
        } else {
            0
        },
        Position::Offset(o) => o,
    }
}

/// Whether a fresh reader over the directory can be positioned at
/// `off`: the directory is well formed and non-empty, and `off` is the
/// first segment's base, or lies in the log's range, lands within the
/// threshold of the segment containing it, and sits on a frame boundary
/// as far as the magic peek checks.
pub open spec fn source_seek_ok(dir: LogDir, off: u64, segment_max_num_bytes: u64) -> bool {
    &&& dir_wf(dir)
    &&& dir.files@.len() > 0
    &&& (off == dir.files@[0].base_offset || ({
        &&& dir.files@[0].base_offset <= off <= dir.files@.last().spec_top()
        &&& exists|i: int|
            #[trigger] seek_target(dir.files@, off, i) && ({
                let base = dir.files@[i].base_offset;
                let data = dir.files@[i].data@;
                &&& off - base < segment_max_num_bytes
                &&& (off - base + 2 <= data.len() ==> le_u16(
                    data[off - base],
                    data[off - base + 1],
                ) == HEADER_MAGIC)
            })
    }))
}

/// Makes a [`WalSource`] for a log directory.
pub struct WalSourceFactory;

/// A source that reads records from a write-ahead log directory.
pub struct WalSource {
    /// Identifies the log directory in checkpoints.
    pub partition_id: String,
    /// Position of the last successfully checkpointed record.
    pub previous_position: Position,
    /// The offset the next read starts at.
    pub current_offset: u64,
    /// Payload bytes processed, documents or not.
    pub num_bytes_processed: u64,
    /// Records processed, invalid ones included.
    pub num_records_processed: u64,
    /// Records that were empty or held invalid UTF-8.
    pub num_invalid_records: u64,
    /// Segment-size threshold of the log being read.
    pub segment_max_num_bytes: u64,
}

impl WalSource {
    /// Opens a source over a log directory, resuming from a checkpoint
    /// position; a `Beginning` checkpoint resumes from the lowest
    /// available offset. Succeeds exactly when a fresh reader can be
    /// positioned at the resumed offset; fails with the directory
    /// scan's errors, `NoSegments` on an empty directory, or
    /// `SeekError` when the offset is out of range or off a frame
    /// boundary.
    pub fn try_new(
        dir: &LogDir,
        partition_id: String,
        previous_position: Position,
        segment_max_num_bytes: u64,
    ) -> (r: Result<WalSource, WalError>)
        ensures
            r is Ok <==> source_seek_ok(
                *dir,
                start_offset(*dir, previous_position),
                segment_max_num_bytes,
            ),
            r matches Ok(s) ==> ({
                &&& s.partition_id == partition_id
                &&& s.previous_position == previous_position
                &&& s.current_offset == start_offset(*dir, previous_position)
                &&& s.num_bytes_processed == 0
                &&& s.num_records_processed == 0
                &&& s.num_invalid_records == 0
                &&& s.segment_max_num_bytes == segment_max_num_bytes
                &&& dir_wf(*dir)
            }),
            r matches Err(e) ==> ({
                &&& !dir_wf(*dir) ==> ((e == WalError::Io <==> !tops_fit(dir.files@)) && (
                tops_fit(dir.files@) ==> e == WalError::Corruption(CorruptionKind::NonContiguous)))
                &&& (dir_wf(*dir) && dir.files@.len() == 0) ==> e == WalError::NoSegments
                &&& (dir_wf(*dir) && dir.files@.len() > 0) ==> e == WalError::SeekError
            }),
    {
        let mut reader = match Reader::open(dir, segment_max_num_bytes) {
            Ok(reader) => reader,
            Err(e) => {
                return Err(e);
            },
        };
        let current_offset = match previous_position {
            Position::Beginning => reader.current_offset(),
            Position::Offset(o) => o,
        };
        proof {
            assert(reader.spec_current_offset() == dir.files@[0].base_offset);
            assert(current_offset == start_offset(*dir, previous_position));
        }
        match reader.seek(dir, current_offset) {
            Ok(()) => {},
            Err(e) => {
                proof {
                    assert(!source_seek_ok(*dir, current_offset, segment_max_num_bytes)) by {
                        if source_seek_ok(*dir, current_offset, segment_max_num_bytes) {
                            if current_offset != dir.files@[0].base_offset {
                                let i1 = choose|i: int|
                                    seek_target(dir.files@, current_offset, i) && ({
                                        let base = dir.files@[i].base_offset;
                                        let data = dir.files@[i].data@;
                                        &&& current_offset - base < segment_max_num_bytes
                                        &&& (current_offset - base + 2 <= data.len()
                                            ==> le_u16(
                                            data[current_offset - base],
                                            data[current_offset - base + 1],
                                        ) == HEADER_MAGIC)
                                    });
                                assert(seek_target(dir.files@, current_offset, i1));
                            }
                        }
                    }
                }
                return Err(e);
            },
        }
        proof {
            assert(source_seek_ok(*dir, current_offset, segment_max_num_bytes)) by {
                if current_offset != dir.files@[0].base_offset {
                }
            }
        }
        Ok(WalSource {
            partition_id,
            previous_position,
            current_offset,
            num_bytes_processed: 0,
            num_records_processed: 0,
            num_invalid_records: 0,
            segment_max_num_bytes,
        })
    }

    /// Reads records from the current offset until the log is drained
    /// or the batch is full, and returns the documents with their
    /// checkpoint delta; nothing is returned when no documents were
    /// found. Counters and positions advance over every record read.
    /// Fails on an unreadable or corrupt directory, or when a counter
    /// or offset would overflow; the source is then unchanged.
    #[verifier::rlimit(100)]
    pub fn emit_batches(&mut self, dir: &LogDir) -> (r: Result<Option<RawDocBatch>, WalError>)
        ensures
            ({
                let es = wal_entries(dir.files@);
                let rem = skip_below(es, old(self).current_offset as int);
                let proc = rem.take(src_consumed(rem, 0));
                let docs = docs_of(proc);
                &&& r matches Ok(opt) ==> ({
                    &&& dir_wf(*dir)
                    &&& files_framed(dir_view(*dir))
                    &&& final(self).num_records_processed == old(self).num_records_processed
                        + proc.len()
                    &&& final(self).num_bytes_processed == old(self).num_bytes_processed
                        + bytes_of(proc)
                    &&& final(self).num_invalid_records == old(self).num_invalid_records
                        + invalid_of(proc)
                    &&& final(self).current_offset == (if proc.len() > 0 {
                        proc.last().offset + frame_len(proc.last().payload.len() as int)
                    } else {
                        old(self).current_offset as int
                    })
                    &&& final(self).partition_id == old(self).partition_id
                    &&& final(self).segment_max_num_bytes == old(self).segment_max_num_bytes
                    &&& docs.len() > 0 ==> (opt matches Some(batch) && ({
                        &&& batch.docs@.map_values(|s: String| s@) == docs
                        &&& final(self).previous_position == Position::Offset(
                            (final(self).current_offset) as u64,
                        )
                        &&& batch.checkpoint_delta.deltas@.len() == 1
                        &&& batch.checkpoint_delta.deltas@[0].partition_id@ == old(
                            self,
                        ).partition_id@
                        &&& batch.checkpoint_delta.deltas@[0].from_position == old(
                            self,
                        ).previous_position
                        &&& batch.checkpoint_delta.deltas@[0].to_position == Position::Offset(
                            (final(self).current_offset) as u64,
                        )
                    }))
                    &&& docs.len() == 0 ==> (opt is None && final(self).previous_position == old(
                        self,
                    ).previous_position)
                })
                &&& r is Err ==> *final(self) == *old(self)
                &&& (dir_wf(*dir) && files_framed(dir_view(*dir)) && emit_fits(
                    *old(self),
                    *dir,
                ) ==> r is Ok)
            }),
    {
        match check_dir_wf(dir) {
            Ok(()) => {},
            Err(e) => {
                return Err(e);
            },
        }
        let entries = match scan_entries(dir) {
            Ok(entries) => entries,
            Err(e) => {
                return Err(e);
            },
        };
        let ghost es = wal_entries(dir.files@);
        let n = entries.len();
        // Skip records below the current offset.
        let mut k: usize = 0;
        proof {
            assert(entry_views(entries@) == es);
            assert(es.skip(0) =~= es);
        }
        while k < n && entries[k].0 < self.current_offset
            invariant
                k <= n,
                n == entries@.len(),
                es == entry_views(entries@),
                *self == *old(self),
                skip_below(es.skip(k as int), old(self).current_offset as int) == skip_below(
                    es,
                    old(self).current_offset as int,
                ),
            decreases n - k,
        {
            proof {
                assert(es.skip(k as int).first().offset == entries@[k as int].0);
                assert(es.skip(k as int).drop_first() =~= es.skip(k + 1));
            }
            k = k + 1;
        }
        let ghost rem = skip_below(es, old(self).current_offset as int);
        proof {
            if k < n {
                assert(es.skip(k as int).first().offset == entries@[k as int].0);
            } else {
                assert(es.skip(k as int) =~= Seq::<EntryView>::empty());
            }
            assert(rem == es.skip(k as int));
        }
        let ghost kc = src_consumed(rem, 0);
        let ghost proc = rem.take(kc);
        // Consume records until the batch is full or the log ends.
        let mut docs: Vec<String> = Vec::new();
        let mut batch_num_bytes: u64 = 0;
        let start = k;
        let mut rec_d: u64 = 0;
        let mut bytes_d: u64 = 0;
        let mut inv_d: u64 = 0;
        let mut new_off: u64 = self.current_offset;
        proof {
            lemma_src_consumed_len(rem, 0);
            assert(proc.take(0) =~= Seq::<EntryView>::empty());
            assert(docs@.map_values(|s: String| s@) =~= Seq::<Seq<char>>::empty());
            assert(docs_of(proc.take(0)) =~= Seq::<Seq<char>>::empty()) by {
                assert(proc.take(0).filter(|e: EntryView| is_doc(e.payload))
                    =~= Seq::<EntryView>::empty());
            }
            assert(bytes_of(proc.take(0)) == 0);
            assert(invalid_of(proc.take(0)) == 0) by {
                assert(proc.take(0).filter(|e: EntryView| is_doc(e.payload))
                    =~= Seq::<EntryView>::empty());
            }
            assert(proc.len() == kc);
            assert(kc == 0 ==> rem.len() == 0) by {
                if kc == 0 && rem.len() > 0 {
                    let add: int = if is_doc(rem.first().payload) {
                        rem.first().payload.len() as int
                    } else {
                        0
                    };
                    lemma_src_consumed_len(rem.drop_first(), add);
                }
            }
        }
        while k < n && batch_num_bytes < BATCH_NUM_BYTES_LIMIT
            invariant
                start <= k <= n,
                n == entries@.len(),
                es == entry_views(entries@),
                *self == *old(self),
                es == wal_entries(dir.files@),
                rem == skip_below(es, old(self).current_offset as int),
                rem == es.skip(start as int),
                kc == src_consumed(rem, 0),
                0 <= kc <= rem.len(),
                proc == rem.take(kc),
                proc.len() == kc,
                k - start <= kc,
                k - start == kc || (batch_num_bytes < BATCH_NUM_BYTES_LIMIT && src_consumed(
                    es.skip(k as int),
                    batch_num_bytes as int,
                ) == kc - (k - start)),
                k - start == kc ==> (k == n || batch_num_bytes >= BATCH_NUM_BYTES_LIMIT),
                rec_d == k - start,
                bytes_d == bytes_of(proc.take(k - start as int)),
                inv_d == invalid_of(proc.take(k - start as int)),
                new_off as int == (if k > start {
                    proc[k - start - 1].offset + frame_len(
                        proc[k - start - 1].payload.len() as int,
                    )
                } else {
                    old(self).current_offset as int
                }),
                docs@.map_values(|s: String| s@) == docs_of(proc.take(k - start as int)),
                batch_num_bytes <= bytes_d,
            decreases n - k,
        {
            let ghost e = es[k as int];
            let ghost done = proc.take(k - start as int);
            let ghost batch0 = batch_num_bytes;
            proof {
                assert(k - start < kc) by {
                    if k - start == kc {
                    }
                }
                assert(es.skip(k as int).first() == e);
                assert(es.skip(k as int).drop_first() =~= es.skip(k + 1));
                assert(e.offset == entries@[k as int].0 && e.payload == entries@[k as int].1@);
                assert(proc[k - start as int] == e) by {
                    assert(rem.take(kc)[k - start as int] == rem[k - start as int]);
                    assert(rem[k - start as int] == es.skip(start as int)[k - start as int]);
                }
                assert(done.push(e) =~= proc.take(k - start + 1));
                assert(done =~= proc.take(k - start + 1).drop_last());
            }
            let payload_len = entries[k].1.len();
            let offset = entries[k].0;
            if payload_len as u64 > u64::MAX - 10 || offset > u64::MAX - 10 - payload_len as u64 {
                proof {
                    assert(proc == emit_consumed(*old(self), *dir));
                    assert(proc[k - start as int].offset + frame_len(
                        proc[k - start as int].payload.len() as int,
                    ) > u64::MAX);
                    assert(!emit_fits(*old(self), *dir));
                }
                return Err(WalError::Io);
            }
            if bytes_d > u64::MAX - payload_len as u64 {
                proof {
                    assert(proc == emit_consumed(*old(self), *dir));
                    lemma_bytes_of_prefix(proc, k - start + 1);
                    assert(bytes_of(proc.take(k - start + 1)) == bytes_d + e.payload.len());
                    assert(old(self).num_bytes_processed + bytes_of(proc) > u64::MAX);
                    assert(!emit_fits(*old(self), *dir));
                }
                return Err(WalError::Io);
            }
            match parse_record(entries[k].1.as_slice()) {
                Some(doc) => {
                    docs.push(doc);
                    proof {
                        lemma_docs_of_push(done, e);
                        assert(docs@.map_values(|s: String| s@) =~= docs_of(done).push(
                            decode_utf8(e.payload),
                        ));
                    }
                    batch_num_bytes = batch_num_bytes + payload_len as u64;
                },
                None => {
                    proof {
                        lemma_docs_of_push_invalid(done, e);
                    }
                },
            }
            proof {
                assert(bytes_of(proc.take(k - start + 1)) == bytes_of(done) + e.payload.len());
                lemma_invalid_of_push(done, e);
            }
            bytes_d = bytes_d + payload_len as u64;
            rec_d = rec_d + 1;
            if parse_record(entries[k].1.as_slice()).is_none() {
                inv_d = inv_d + 1;
            }
            new_off = offset + 10 + payload_len as u64;
            k = k + 1;
            proof {
                let add: int = if is_doc(e.payload) {
                    e.payload.len() as int
                } else {
                    0
                };
                assert(batch_num_bytes == batch0 + add);
                assert(src_consumed(es.skip(k - 1), batch0 as int) == 1 + (if batch0 + add
                    >= BATCH_NUM_BYTES_LIMIT {
                    0int
                } else {
                    src_consumed(es.skip(k as int), (batch0 + add) as int)
                })) by {
                    assert(es.skip(k - 1).first() == e);
                    assert(es.skip(k - 1).drop_first() =~= es.skip(k as int));
                }
                if k - start == kc && batch_num_bytes < BATCH_NUM_BYTES_LIMIT {
                    assert(src_consumed(es.skip(k as int), batch_num_bytes as int) == 0);
                    if k < n {
                        assert(es.skip(k as int).len() > 0);
                        let r2 = es.skip(k as int);
                        let add2: int = if is_doc(r2.first().payload) {
                            r2.first().payload.len() as int
                        } else {
                            0
                        };
                        lemma_src_consumed_len(r2.drop_first(), batch_num_bytes as int + add2);
                        assert(false);
                    }
                }
            }
        }
        proof {
            if k - start < kc {
                // The loop may only stop early at the end of the log.
                assert(k == n || batch_num_bytes >= BATCH_NUM_BYTES_LIMIT);
                if k == n {
                    assert(es.skip(k as int) =~= Seq::<EntryView>::empty());
                    assert(src_consumed(es.skip(k as int), batch_num_bytes as int) == 0);
                }
            }
            assert(k - start == kc);
            assert(proc.take(k - start as int) =~= proc) by {
                lemma_src_consumed_len(rem, 0);
            }
        }
        // Commit the counters and positions.
        proof {
            assert(proc == emit_consumed(*old(self), *dir));
        }
        if self.num_records_processed > u64::MAX - rec_d {
            proof {
                assert(!emit_fits(*old(self), *dir));
            }
            return Err(WalError::Io);
        }
        if self.num_bytes_processed > u64::MAX - bytes_d {
            proof {
                assert(!emit_fits(*old(self), *dir));
            }
            return Err(WalError::Io);
        }
        if self.num_invalid_records > u64::MAX - inv_d {
            proof {
                assert(!emit_fits(*old(self), *dir));
            }
            return Err(WalError::Io);
        }
        proof {
            lemma_invalid_of_bounds(proc);
        }
        if docs.len() == 0 {
            self.num_records_processed = self.num_records_processed + rec_d;
            self.num_bytes_processed = self.num_bytes_processed + bytes_d;
            self.num_invalid_records = self.num_invalid_records + inv_d;
            self.current_offset = new_off;
            return Ok(None);
        }
        let current_position = Position::Offset(new_off);
        let mut checkpoint_delta = CheckpointDelta::new();
        match checkpoint_delta.record_partition_delta(
            self.partition_id.clone(),
            self.previous_position,
            current_position,
        ) {
            Ok(()) => {},
            Err(_) => {
                proof {
                    assert(proc.len() > 0) by {
                        if proc.len() == 0 {
                            assert(docs_of(proc) =~= Seq::<Seq<char>>::empty()) by {
                                assert(proc.filter(|e: EntryView| is_doc(e.payload))
                                    =~= Seq::<EntryView>::empty());
                            }
                        }
                    }
                    assert(!pos_lt_here(old(self).previous_position, proc));
                    assert(proc == emit_consumed(*old(self), *dir));
                    assert(!emit_fits(*old(self), *dir));
                }
                return Err(WalError::Io);
            },
        }
        self.num_records_processed = self.num_records_processed + rec_d;
        self.num_bytes_processed = self.num_bytes_processed + bytes_d;
        self.num_invalid_records = self.num_invalid_records + inv_d;
        self.current_offset = new_off;
        self.previous_position = current_position;
        Ok(Some(RawDocBatch { docs, checkpoint_delta }))
    }
}

/// The records one emit call consumes, from the source's offset on.
pub open spec fn emit_consumed(s: WalSource, dir: LogDir) -> Seq<EntryView> {
    let es = wal_entries(dir.files@);
    let rem = skip_below(es, s.current_offset as int);
    rem.take(src_consumed(rem, 0))
}

/// Whether an emit call's counters and offsets stay within 64 bits.
pub open spec fn emit_fits(s: WalSource, dir: LogDir) -> bool {
    let proc = emit_consumed(s, dir);
    &&& s.num_records_processed + proc.len() <= u64::MAX
    &&& s.num_bytes_processed + bytes_of(proc) <= u64::MAX
    &&& s.num_invalid_records + invalid_of(proc) <= u64::MAX
    &&& forall|t: int|
        0 <= t < proc.len() ==> (#[trigger] proc[t]).offset + frame_len(
            proc[t].payload.len() as int,
        ) <= u64::MAX
    &&& pos_lt_here(s.previous_position, proc)
}

/// Whether the checkpoint can move forward past every consumed record.
pub open spec fn pos_lt_here(prev: Position, proc: Seq<EntryView>) -> bool {
    proc.len() > 0 ==> crate::position::pos_lt(
        prev,
        Position::Offset(
            (proc.last().offset + frame_len(proc.last().payload.len() as int)) as u64,
        ),
    )
}

/// Prefixes contribute at most the whole's payload bytes.
proof fn lemma_bytes_of_prefix(s: Seq<EntryView>, j: int)
    requires
        0 <= j <= s.len(),
    ensures
        bytes_of(s.take(j)) <= bytes_of(s),
        bytes_of(s) >= 0,
    decreases s.len(),
{
    if s.len() == 0 {
        assert(s.take(j) =~= s);
    } else if j == s.len() {
        assert(s.take(j) =~= s);
        lemma_bytes_of_prefix(s.drop_last(), s.len() - 1);
        assert(s.drop_last().take(s.len() - 1) =~= s.drop_last());
    } else {
        lemma_bytes_of_prefix(s.drop_last(), j);
        assert(s.drop_last().take(j) =~= s.take(j));
    }
}

/// At most every consumed record is invalid.
proof fn lemma_invalid_of_bounds(s: Seq<EntryView>)
    ensures
        0 <= invalid_of(s) <= s.len(),
    decreases s.len(),
{
    s.lemma_filter_len(|e: EntryView| is_doc(e.payload));
    assert(s.filter(|e: EntryView| is_doc(e.payload)).len() >= 0);
}

/// A batch consumes at most the records it can see.
proof fn lemma_src_consumed_len(es: Seq<EntryView>, acc: int)
    ensures
        0 <= src_consumed(es, acc) <= es.len(),
    decreases es.len(),
{
    if es.len() > 0 {
        let add: int = if is_doc(es.first().payload) {
            es.first().payload.len() as int
        } else {
            0
        };
        lemma_src_consumed_len(es.drop_first(), acc + add);
    }
}

/// Appending a document record appends its text to the batch.
proof fn lemma_docs_of_push(done: Seq<EntryView>, e: EntryView)
    requires
        is_doc(e.payload),
    ensures
        docs_of(done.push(e)) == docs_of(done).push(decode_utf8(e.payload)),
{
    let pred = |x: EntryView| is_doc(x.payload);
    reveal_with_fuel(Seq::filter, 2);
    assert(done.push(e).drop_last() =~= done);
    assert(done.push(e).filter(pred) =~= done.filter(pred).push(e));
    assert(done.filter(pred).push(e).map_values(|x: EntryView| decode_utf8(x.payload))
        =~= done.filter(pred).map_values(|x: EntryView| decode_utf8(x.payload)).push(
        decode_utf8(e.payload),
    ));
}

/// Appending an invalid record leaves the batch's documents unchanged.
proof fn lemma_docs_of_push_invalid(done: Seq<EntryView>, e: EntryView)
    requires
        !is_doc(e.payload),
    ensures
        docs_of(done.push(e)) == docs_of(done),
        invalid_of(done.push(e)) == invalid_of(done) + 1,
{
    let pred = |x: EntryView| is_doc(x.payload);
    reveal_with_fuel(Seq::filter, 2);
    assert(done.push(e).drop_last() =~= done);
    assert(done.push(e).filter(pred) =~= done.filter(pred));
}

/// One more consumed record adjusts the invalid count by whether it is
/// a document.
proof fn lemma_invalid_of_push(done: Seq<EntryView>, e: EntryView)
    ensures
        invalid_of(done.push(e)) == invalid_of(done) + (if is_doc(e.payload) {
            0int
        } else {
            1int
        }),
{
    let pred = |x: EntryView| is_doc(x.payload);
    reveal_with_fuel(Seq::filter, 2);
    assert(done.push(e).drop_last() =~= done);
    if pred(e) {
        assert(done.push(e).filter(pred) =~= done.filter(pred).push(e));
    } else {
        assert(done.push(e).filter(pred) =~= done.filter(pred));
    }
}

} // verus!
