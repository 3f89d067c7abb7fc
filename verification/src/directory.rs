//! The write-ahead log directory and its segments.
//!
//! A [`LogDir`] models a directory of segment files as plain byte vectors;
//! unverified callers mirror it onto an actual file system. A segment file
//! covers the byte range `[base_offset, base_offset + data.len())` of the
//! logical log. [`list_segments`] validates that the files tile the log
//! contiguously, and [`truncate_wal`] reclaims sealed segments from the
//! front.

use vstd::prelude::*;
use vstd::multiset::Multiset;
use vstd::seq_lib::group_to_multiset_ensures;

use crate::errors::{CorruptionKind, WalError};

verus! {

/// Number of decimal digits in a segment file name, before the extension.
pub const SEGMENT_FILE_NAME_LEN: usize = 20;

/// Default segment-size threshold: a segment is sealed once it holds at
/// least this many bytes. Tests commonly use a much smaller threshold.
pub const SEGMENT_MAX_NUM_BYTES: u64 = 128_000_000;

/// Ten to the `k`-th power.
pub open spec fn pow10(k: nat) -> int
    decreases k,
{
    if k == 0 {
        1
    } else {
        10 * pow10((k - 1) as nat)
    }
}

/// The decimal digit character for `d`, which must be below ten.
pub open spec fn digit_char(d: int) -> char {
    ((48 + d) as u8) as char
}

/// Whether `c` is a decimal digit.
pub open spec fn is_digit(c: char) -> bool {
    48 <= c as int <= 57
}

/// The value of a decimal digit character.
pub open spec fn digit_val(c: char) -> int {
    c as int - 48
}

/// The 20-digit zero-padded decimal expansion of `x`.
pub open spec fn dec20(x: u64) -> Seq<char> {
    Seq::new(20, |i: int| digit_char((x as int / pow10((19 - i) as nat)) % 10))
}

/// The file name of the segment with the given base offset: the 20-digit
/// zero-padded decimal base offset with the `.log` extension.
pub open spec fn spec_segment_file_name(base_offset: u64) -> Seq<char> {
    dec20(base_offset) + ".log"@
}

/// The value of a sequence of decimal digit characters.
pub open spec fn dec_val(s: Seq<char>) -> int
    decreases s.len(),
{
    if s.len() == 0 {
        0
    } else {
        dec_val(s.drop_last()) * 10 + digit_val(s.last())
    }
}

/// Whether a file name starts with 20 decimal digits that denote a base
/// offset representable in 64 bits.
pub open spec fn valid_segment_file_name(s: Seq<char>) -> bool {
    &&& s.len() >= SEGMENT_FILE_NAME_LEN
    &&& forall|i: int| 0 <= i < SEGMENT_FILE_NAME_LEN ==> is_digit(#[trigger] s[i])
    &&& dec_val(s.take(SEGMENT_FILE_NAME_LEN as int)) <= u64::MAX
}

/// The digits of an offset's expansion read back as the offset's
/// leading value.
proof fn lemma_dec20_prefix(x: u64, i: int)
    requires
        0 <= i <= 20,
    ensures
        forall|k: int| 0 <= k < 20 ==> is_digit(#[trigger] dec20(x)[k]),
        dec_val(dec20(x).take(i)) == x as int / pow10((20 - i) as nat),
    decreases i,
{
    assert forall|k: int| 0 <= k < 20 implies is_digit(#[trigger] dec20(x)[k]) by {
        lemma_pow10_pos((19 - k) as nat);
        let d = (x as int / pow10((19 - k) as nat)) % 10;
        assert(0 <= d < 10);
        assert(dec20(x)[k] == digit_char(d));
    }
    if i == 0 {
        assert(dec20(x).take(0) =~= Seq::<char>::empty());
        reveal_with_fuel(pow10, 21);
        assert(x < pow10(20));
        assert(x as int / pow10(20) == 0) by (nonlinear_arith)
            requires
                0 <= x as int,
                (x as int) < pow10(20),
                pow10(20) > 0,
        ;
    } else {
        lemma_dec20_prefix(x, i - 1);
        let t = dec20(x).take(i);
        assert(t.drop_last() =~= dec20(x).take(i - 1));
        assert(t.last() == dec20(x)[i - 1]);
        let p = pow10((20 - i) as nat);
        lemma_pow10_pos((20 - i) as nat);
        assert(pow10((21 - i) as nat) == 10 * p);
        let d = (x as int / p) % 10;
        assert(t.last() == digit_char(d));
        assert(digit_val(digit_char(d)) == d) by {
            assert(0 <= d < 10);
        }
        let q = x as int / p;
        vstd::arithmetic::div_mod::lemma_div_denominator(x as int, p, 10);
        assert(x as int / (10 * p) == q / 10) by {
            assert(p * 10 == 10 * p);
        }
        vstd::arithmetic::div_mod::lemma_fundamental_div_mod(q, 10);
        assert(dec_val(t) == (q / 10) * 10 + q % 10);
    }
}

/// Law: a formatted segment file name is a valid segment file name and
/// parses back to the base offset it was formatted from.
pub proof fn lemma_segment_file_name_roundtrip(base_offset: u64)
    ensures
        valid_segment_file_name(spec_segment_file_name(base_offset)),
        dec_val(
            spec_segment_file_name(base_offset).take(SEGMENT_FILE_NAME_LEN as int),
        ) == base_offset,
{
    lemma_dec20_prefix(base_offset, 20);
    let name = spec_segment_file_name(base_offset);
    assert(name.take(20) =~= dec20(base_offset));
    assert(dec20(base_offset).take(20) =~= dec20(base_offset));
    assert(pow10(0) == 1);
    assert forall|k: int| 0 <= k < 20 implies is_digit(#[trigger] name[k]) by {
        assert(name[k] == dec20(base_offset)[k]);
    }
}

/// One segment file of the modeled directory: its base offset within the
/// logical log, its content, and how much of the content has been synced
/// to durable storage.
pub struct SegmentFile {
    /// Byte offset of the start of this file within the logical log.
    pub base_offset: u64,
    /// The file's bytes, as flushed by a writer.
    pub data: Vec<u8>,
    /// Length of the durable prefix of `data`.
    pub synced_len: usize,
}

/// A directory of segment files, in no particular order.
pub struct LogDir {
    /// The files of the directory.
    pub files: Vec<SegmentFile>,
}

/// A segment summary: the byte range `[base_offset, top_offset)` of the
/// logical log covered by one file.
#[derive(Debug, Clone, Copy, PartialEq, Eq, Structural)]
pub struct Segment {
    /// Start of the range, inclusive.
    pub base_offset: u64,
    /// End of the range, exclusive; equals base offset plus file size.
    pub top_offset: u64,
}

impl SegmentFile {
    /// The offset one past this file's content, as an unbounded integer.
    pub open spec fn spec_top(&self) -> int {
        self.base_offset + self.data@.len()
    }
}

/// The segment summary of one file.
pub open spec fn seg_of_file(f: SegmentFile) -> Segment {
    Segment { base_offset: f.base_offset, top_offset: (f.base_offset + f.data@.len()) as u64 }
}

/// The segment summaries of a directory's files, in file order.
pub open spec fn segs_of(files: Seq<SegmentFile>) -> Seq<Segment> {
    files.map_values(|f: SegmentFile| seg_of_file(f))
}

/// Every file's top offset fits in 64 bits.
pub open spec fn tops_fit(files: Seq<SegmentFile>) -> bool {
    forall|i: int| 0 <= i < files.len() ==> files[i].spec_top() <= u64::MAX
}

/// Base offsets strictly increase.
pub open spec fn segs_sorted(s: Seq<Segment>) -> bool {
    forall|i: int, j: int| 0 <= i < j < s.len() ==> s[i].base_offset < s[j].base_offset
}

/// Base offsets never decrease.
pub open spec fn segs_sorted_le(s: Seq<Segment>) -> bool {
    forall|i: int, j: int| 0 <= i < j < s.len() ==> s[i].base_offset <= s[j].base_offset
}

/// Each segment ends exactly where the next one starts.
pub open spec fn segs_contiguous(s: Seq<Segment>) -> bool {
    forall|i: int| 0 <= i < s.len() - 1 ==> s[i].top_offset == s[i + 1].base_offset
}

/// A well-formed segment listing: strictly sorted and contiguous.
pub open spec fn segs_wf(s: Seq<Segment>) -> bool {
    segs_sorted(s) && segs_contiguous(s)
}

/// A well-formed directory: file sizes fit and the files, in the order
/// they are stored, tile the log contiguously.
pub open spec fn dir_wf(dir: LogDir) -> bool {
    tops_fit(dir.files@) && segs_wf(segs_of(dir.files@))
}

impl LogDir {
    /// An empty directory.
    pub fn new() -> (r: LogDir)
        ensures
            r.files@.len() == 0,
    {
        LogDir { files: Vec::new() }
    }

    /// Adds a file with the given base offset and content, marking all of
    /// it durable. This models what already sits in a directory on disk.
    pub fn add_file(&mut self, base_offset: u64, data: Vec<u8>)
        ensures
            final(self).files@ == old(self).files@.push(
                SegmentFile { base_offset, data, synced_len: data.len() },
            ),
    {
        let synced_len = data.len();
        self.files.push(SegmentFile { base_offset, data, synced_len });
    }

    /// Number of files in the directory.
    pub fn num_files(&self) -> (r: usize)
        ensures
            r == self.files@.len(),
    {
        self.files.len()
    }
}

/// Two sorted listings of the same segments are the same listing; the
/// first may be sorted non-strictly.
proof fn lemma_sorted_multiset_unique(a: Seq<Segment>, b: Seq<Segment>)
    requires
        segs_sorted_le(a),
        segs_sorted(b),
        a.to_multiset() == b.to_multiset(),
    ensures
        a == b,
    decreases a.len(),
{
    a.to_multiset_ensures();
    b.to_multiset_ensures();
    if a.len() == 0 {
        assert(b.len() == 0) by {
            assert(a.to_multiset().len() == 0);
        }
        assert(a =~= b);
    } else {
        assert(b.len() == a.len());
        assert(a.to_multiset().count(a[0]) > 0);
        assert(b.to_multiset().count(a[0]) > 0);
        assert(b.contains(a[0]));
        let j = choose|j: int| 0 <= j < b.len() && b[j] == a[0];
        assert(b.to_multiset().count(b[0]) > 0) by {
            assert(b.contains(b[0]));
        }
        assert(a.to_multiset().count(b[0]) > 0);
        assert(a.contains(b[0]));
        let i = choose|i: int| 0 <= i < a.len() && a[i] == b[0];
        assert(b[0].base_offset <= b[j].base_offset);
        assert(a[0].base_offset <= a[i].base_offset);
        assert(a[0].base_offset == b[0].base_offset);
        assert(j == 0) by {
            if j > 0 {
                assert(b[0].base_offset < b[j].base_offset);
            }
        }
        assert(a[0] == b[0]);
        let a1 = a.drop_first();
        let b1 = b.drop_first();
        a1.to_multiset_ensures();
        b1.to_multiset_ensures();
        assert(a =~= seq![a[0]] + a1);
        assert(b =~= seq![b[0]] + b1);
        assert(a1.to_multiset() == b1.to_multiset()) by {
            assert(a1 =~= a.remove(0));
            assert(b1 =~= b.remove(0));
            assert(a.remove(0).to_multiset() =~= a.to_multiset().remove(a[0]));
            assert(b.remove(0).to_multiset() =~= b.to_multiset().remove(b[0]));
        }
        assert(segs_sorted_le(a1)) by {
            assert(forall|i: int, j: int|
                0 <= i < j < a1.len() ==> a1[i] == a[i + 1] && a1[j] == a[j + 1]);
        }
        assert(segs_sorted(b1)) by {
            assert(forall|i: int, j: int|
                0 <= i < j < b1.len() ==> b1[i] == b[i + 1] && b1[j] == b[j + 1]);
        }
        lemma_sorted_multiset_unique(a1, b1);
        assert(a =~= b);
    }
}

/// Lists the directory's segments sorted by base offset.
///
/// Fails with a corruption error when no sorted arrangement of the files
/// is contiguous with strictly increasing base offsets, and with an I/O
/// error when a file's top offset overflows 64 bits.
pub fn list_segments(dir: &LogDir) -> (r: Result<Vec<Segment>, WalError>)
    ensures
        r matches Err(WalError::Io) <==> !tops_fit(dir.files@),
        r matches Ok(v) ==> {
            &&& segs_wf(v@)
            &&& v@.to_multiset() == segs_of(dir.files@).to_multiset()
            &&& v@.len() == dir.files@.len()
        },
        tops_fit(dir.files@) && r is Err ==> {
            &&& r == Err::<Vec<Segment>, WalError>(WalError::Corruption(
                CorruptionKind::NonContiguous,
            ))
            &&& !exists|s: Seq<Segment>|
                segs_wf(s) && s.to_multiset() == segs_of(dir.files@).to_multiset()
        },
        dir_wf(*dir) ==> (r matches Ok(v) && v@ == segs_of(dir.files@)),
{
    broadcast use group_to_multiset_ensures;

    let ghost all = segs_of(dir.files@);
    let n = dir.files.len();
    let mut raw: Vec<Segment> = Vec::new();
    let mut i: usize = 0;
    while i < n
        invariant
            0 <= i <= n,
            n == dir.files@.len(),
            raw@ =~= segs_of(dir.files@).take(i as int),
            forall|k: int| 0 <= k < i ==> dir.files@[k].spec_top() <= u64::MAX,
        decreases n - i,
    {
        let f = &dir.files[i];
        if f.data.len() as u64 > u64::MAX - f.base_offset {
            return Err(WalError::Io);
        }
        raw.push(Segment {
            base_offset: f.base_offset,
            top_offset: f.base_offset + f.data.len() as u64,
        });
        proof {
            assert(raw@ =~= segs_of(dir.files@).take(i + 1));
        }
        i = i + 1;
    }
    proof {
        assert(raw@ =~= all);
    }
    // Selection sort by base offset.
    let mut sorted: Vec<Segment> = Vec::new();
    while raw.len() > 0
        invariant
            all == segs_of(dir.files@),
            tops_fit(dir.files@),
            sorted@.to_multiset().add(raw@.to_multiset()) == all.to_multiset(),
            sorted@.len() + raw@.len() == all.len(),
            segs_sorted_le(sorted@),
            forall|i: int, j: int|
                0 <= i < sorted@.len() && 0 <= j < raw@.len() ==> sorted@[i].base_offset
                    <= raw@[j].base_offset,
        decreases raw.len(),
    {
        let mut min_idx: usize = 0;
        let mut k: usize = 1;
        while k < raw.len()
            invariant
                0 <= min_idx < raw@.len(),
                k <= raw@.len(),
                forall|j: int|
                    0 <= j < k ==> raw@[min_idx as int].base_offset
                        <= #[trigger] raw@[j].base_offset,
            decreases raw.len() - k,
        {
            if raw[k].base_offset < raw[min_idx].base_offset {
                min_idx = k;
            }
            k = k + 1;
        }
        let ghost pre_sorted = sorted@;
        let ghost pre_raw = raw@;
        let m = raw.remove(min_idx);
        sorted.push(m);
        proof {
            pre_raw.to_multiset_ensures();
            pre_sorted.to_multiset_ensures();
            assert(pre_raw.remove(min_idx as int).to_multiset() =~= pre_raw.to_multiset().remove(
                m,
            ));
            assert(pre_sorted.push(m).to_multiset() =~= pre_sorted.to_multiset().insert(m));
            assert(pre_raw.to_multiset().count(m) > 0) by {
                assert(pre_raw.contains(m));
            }
            assert(sorted@.to_multiset().add(raw@.to_multiset()) =~= all.to_multiset());
            assert(forall|j: int|
                0 <= j < raw@.len() ==> #[trigger] raw@[j] == if j < min_idx {
                    pre_raw[j]
                } else {
                    pre_raw[j + 1]
                });
        }
    }
    proof {
        assert(sorted@.to_multiset() =~= all.to_multiset()) by {
            assert(raw@.to_multiset() =~= Multiset::<Segment>::empty()) by {
                assert(raw@ =~= Seq::<Segment>::empty());
            }
        }
    }
    // Validate strict ordering and contiguity.
    let len = sorted.len();
    let mut j: usize = 0;
    while j + 1 < len
        invariant
            all == segs_of(dir.files@),
            tops_fit(dir.files@),
            len == sorted@.len(),
            len == dir.files@.len(),
            j < len || (j == 0 && len == 0),
            forall|k: int|
                0 <= k < j ==> #[trigger] sorted@[k].base_offset < sorted@[k + 1].base_offset,
            forall|k: int|
                0 <= k < j ==> #[trigger] sorted@[k].top_offset == sorted@[k + 1].base_offset,
            segs_sorted_le(sorted@),
            sorted@.to_multiset() == all.to_multiset(),
        decreases len - j,
    {
        if sorted[j].base_offset >= sorted[j + 1].base_offset || sorted[j].top_offset
            != sorted[j + 1].base_offset {
            proof {
                lemma_no_wf_arrangement(sorted@, all, j as int);
            }
            return Err(WalError::Corruption(CorruptionKind::NonContiguous));
        }
        j = j + 1;
    }
    proof {
        assert(segs_sorted(sorted@)) by {
            assert(forall|i: int, j2: int|
                0 <= i < j2 < sorted@.len() ==> #[trigger] sorted@[i].base_offset
                    < #[trigger] sorted@[j2].base_offset) by {
                assert forall|i: int, j2: int| 0 <= i < j2 < sorted@.len() implies
                    sorted@[i].base_offset < sorted@[j2].base_offset by {
                    lemma_adjacent_lt_implies_lt(sorted@, i, j2);
                }
            }
        }
        if dir_wf(*dir) {
            lemma_sorted_multiset_unique(sorted@, all);
        }
    }
    Ok(sorted)
}

/// From strictly increasing adjacent pairs to a strict order overall.
proof fn lemma_adjacent_lt_implies_lt(s: Seq<Segment>, i: int, j: int)
    requires
        forall|k: int|
            0 <= k < s.len() - 1 ==> #[trigger] s[k].base_offset < s[k + 1].base_offset,
        0 <= i < j < s.len(),
    ensures
        s[i].base_offset < s[j].base_offset,
    decreases j - i,
{
    if j > i + 1 {
        lemma_adjacent_lt_implies_lt(s, i, j - 1);
    }
}

/// Finds the file with the given base offset.
pub(crate) fn find_file(dir: &LogDir, base_offset: u64) -> (r: Option<usize>)
    ensures
        match r {
            Some(i) => i < dir.files@.len() && dir.files@[i as int].base_offset == base_offset,
            None => forall|i: int|
                0 <= i < dir.files@.len() ==> dir.files@[i].base_offset != base_offset,
        },
{
    let n = dir.files.len();
    let mut i: usize = 0;
    while i < n
        invariant
            i <= n,
            n == dir.files@.len(),
            forall|k: int| 0 <= k < i ==> dir.files@[k].base_offset != base_offset,
        decreases n - i,
    {
        if dir.files[i].base_offset == base_offset {
            return Some(i);
        }
        i = i + 1;
    }
    None
}

/// Checks that the directory's files, in stored order, tile the log:
/// every top offset fits in 64 bits, base offsets strictly increase, and
/// each file ends where the next begins.
pub fn check_dir_wf(dir: &LogDir) -> (r: Result<(), WalError>)
    ensures
        r is Ok <==> dir_wf(*dir),
        (r matches Err(e) ==> ((e == WalError::Io <==> !tops_fit(dir.files@)) && (tops_fit(
            dir.files@,
        ) ==> e == WalError::Corruption(CorruptionKind::NonContiguous)))),
{
    let n = dir.files.len();
    let mut i: usize = 0;
    while i < n
        invariant
            i <= n,
            n == dir.files@.len(),
            forall|k: int| 0 <= k < i ==> dir.files@[k].spec_top() <= u64::MAX,
        decreases n - i,
    {
        if dir.files[i].data.len() as u64 > u64::MAX - dir.files[i].base_offset {
            proof {
                assert(!tops_fit(dir.files@));
            }
            return Err(WalError::Io);
        }
        i = i + 1;
    }
    let mut i: usize = 0;
    while i + 1 < n
        invariant
            n == dir.files@.len(),
            i < n || (i == 0 && n == 0),
            tops_fit(dir.files@),
            forall|k: int|
                0 <= k < i && k + 1 < n ==> #[trigger] dir.files@[k].base_offset < dir.files@[k
                    + 1].base_offset,
            forall|k: int|
                0 <= k < i && k + 1 < n ==> #[trigger] segs_of(dir.files@)[k].top_offset
                    == segs_of(dir.files@)[k + 1].base_offset,
        decreases n - i,
    {
        let top = dir.files[i].base_offset + dir.files[i].data.len() as u64;
        if dir.files[i].base_offset >= dir.files[i + 1].base_offset || top != dir.files[i
            + 1].base_offset {
            proof {
                assert(segs_of(dir.files@)[i as int].top_offset == top);
                assert(!dir_wf(*dir)) by {
                    if dir_wf(*dir) {
                        assert(segs_of(dir.files@)[i as int].base_offset < segs_of(
                            dir.files@,
                        )[i + 1].base_offset);
                        assert(segs_of(dir.files@)[i as int].top_offset == segs_of(
                            dir.files@,
                        )[i + 1].base_offset);
                    }
                }
            }
            return Err(WalError::Corruption(CorruptionKind::NonContiguous));
        }
        i = i + 1;
    }
    proof {
        assert(dir_wf(*dir)) by {
            assert forall|a: int, b: int|
                0 <= a < b < dir.files@.len() implies segs_of(dir.files@)[a].base_offset < segs_of(
                dir.files@,
            )[b].base_offset by {
                lemma_segs_adjacent(dir.files@, a, b);
            }
        }
    }
    Ok(())
}

/// Adjacent strict ordering of file bases gives pairwise ordering.
pub(crate) proof fn lemma_segs_adjacent(files: Seq<SegmentFile>, a: int, b: int)
    requires
        forall|k: int|
            0 <= k < files.len() - 1 ==> #[trigger] files[k].base_offset < files[k
                + 1].base_offset,
        0 <= a < b < files.len(),
    ensures
        segs_of(files)[a].base_offset < segs_of(files)[b].base_offset,
    decreases b - a,
{
    if b > a + 1 {
        lemma_segs_adjacent(files, a, b - 1);
    }
}

/// True of the file that holds the write segment: no file of the
/// directory has a greater base offset.
pub open spec fn is_write_base(files: Seq<SegmentFile>, base_offset: u64) -> bool {
    forall|i: int| 0 <= i < files.len() ==> files[i].base_offset <= base_offset
}

/// Whether a file survives truncation at `offset`: the write segment is
/// never deleted, and any other file survives iff its top offset is
/// greater than `offset`.
pub open spec fn survives_truncate(
    files: Seq<SegmentFile>,
    f: SegmentFile,
    offset: u64,
) -> bool {
    is_write_base(files, f.base_offset) || f.spec_top() > offset
}

/// Whether each file survives truncation at `offset`, as a predicate.
pub open spec fn survives_pred(files: Seq<SegmentFile>, offset: u64) -> spec_fn(SegmentFile) -> bool {
    |f: SegmentFile| survives_truncate(files, f, offset)
}

/// The files left after truncating at `offset`: those of the write
/// segment or with a top offset above `offset`, in their stored order.
pub open spec fn truncated_files(files: Seq<SegmentFile>, offset: u64) -> Seq<SegmentFile> {
    files.filter(survives_pred(files, offset))
}

/// Filtering by a predicate that, once true, stays true of every later
/// file keeps a suffix of the files.
proof fn lemma_filter_suffix(s: Seq<SegmentFile>, pred: spec_fn(SegmentFile) -> bool)
    requires
        forall|i: int, j: int| 0 <= i < j < s.len() && pred(#[trigger] s[i]) ==> pred(#[trigger] s[j]),
    ensures
        exists|k: int| 0 <= k <= s.len() && s.filter(pred) == s.skip(k),
    decreases s.len(),
{
    reveal_with_fuel(Seq::filter, 2);
    if s.len() == 0 {
        assert(s.filter(pred) =~= s.skip(0));
    } else {
        let sub = s.drop_last();
        assert(forall|i: int, j: int|
            0 <= i < j < sub.len() && pred(#[trigger] sub[i]) ==> pred(#[trigger] sub[j]));
        lemma_filter_suffix(sub, pred);
        let k = choose|k: int| 0 <= k <= sub.len() && sub.filter(pred) == sub.skip(k);
        if pred(s.last()) {
            assert(s.filter(pred) == sub.filter(pred).push(s.last()));
            assert(sub.skip(k).push(s.last()) =~= s.skip(k));
            assert(s.filter(pred) == s.skip(k));
        } else {
            // Nothing before the last file can satisfy the predicate.
            assert(forall|i: int| 0 <= i < s.len() ==> !pred(#[trigger] s[i]));
            sub.lemma_filter_len(pred);
            assert(sub.filter(pred).len() == 0) by {
                if sub.skip(k).len() > 0 {
                    sub.lemma_filter_pred(pred, 0);
                }
            }
            assert(s.filter(pred) =~= s.skip(s.len() as int));
        }
    }
}

/// Truncation keeps a non-empty suffix of a well-formed directory's
/// files, ending in the write segment; the suffix is well formed.
pub proof fn lemma_truncated_files_wf(files: Seq<SegmentFile>, offset: u64)
    requires
        tops_fit(files),
        segs_wf(segs_of(files)),
        files.len() > 0,
    ensures
        ({
            let t = truncated_files(files, offset);
            &&& t.len() > 0
            &&& t.last() == files.last()
            &&& tops_fit(t)
            &&& segs_wf(segs_of(t))
        }),
{
    let n = files.len() as int;
    let pred = survives_pred(files, offset);
    assert(is_write_base(files, files.last().base_offset)) by {
        assert forall|m: int| 0 <= m < n implies files[m].base_offset
            <= files.last().base_offset by {
            if m < n - 1 {
                assert(segs_of(files)[m].base_offset < segs_of(files)[n - 1].base_offset);
            }
        }
    }
    assert(pred(files.last()));
    // Once a file survives, every later file does: surviving before the
    // last file means its top exceeds the offset, and tops ascend.
    assert forall|i: int, j: int|
        0 <= i < j < n && pred(#[trigger] files[i]) implies pred(#[trigger] files[j]) by {
        if j == n - 1 {
        } else {
            assert(!is_write_base(files, files[i].base_offset)) by {
                assert(segs_of(files)[i].base_offset < segs_of(files)[j].base_offset);
            }
            assert(files[i].spec_top() > offset);
            assert(segs_of(files)[i].top_offset == segs_of(files)[i + 1].base_offset);
            assert(files[i].spec_top() == files[i + 1].base_offset);
            if j > i + 1 {
                assert(segs_of(files)[i + 1].base_offset < segs_of(files)[j].base_offset);
            }
            assert(files[j].base_offset >= files[i + 1].base_offset);
            assert(files[j].spec_top() >= files[j].base_offset);
        }
    }
    lemma_filter_suffix(files, pred);
    let k = choose|k: int| 0 <= k <= n && files.filter(pred) == files.skip(k);
    let t = truncated_files(files, offset);
    assert(t == files.skip(k));
    assert(t.len() > 0) by {
        files.lemma_filter_contains(pred, n - 1);
    }
    assert(k <= n - 1);
    assert(t.last() == files[n - 1]);
    assert(forall|m: int| 0 <= m < t.len() ==> #[trigger] t[m] == files[k + m]);
    assert forall|m: int| 0 <= m < t.len() implies t[m].spec_top() <= u64::MAX by {
        assert(files[k + m].spec_top() <= u64::MAX);
    }
    assert forall|i: int, j: int| 0 <= i < j < t.len() implies segs_of(t)[i].base_offset
        < segs_of(t)[j].base_offset by {
        assert(segs_of(t)[i] == seg_of_file(files[k + i]));
        assert(segs_of(t)[j] == seg_of_file(files[k + j]));
        assert(segs_of(files)[k + i].base_offset < segs_of(files)[k + j].base_offset);
    }
    assert forall|i: int| 0 <= i < t.len() - 1 implies segs_of(t)[i].top_offset == segs_of(
        t,
    )[i + 1].base_offset by {
        assert(segs_of(t)[i] == seg_of_file(files[k + i]));
        assert(segs_of(t)[i + 1] == seg_of_file(files[k + i + 1]));
        assert(segs_of(files)[k + i].top_offset == segs_of(files)[k + i + 1].base_offset);
    }
}

/// Removes the segments whose `top_offset` is lower than or equal to
/// `offset`, never the write segment. On error the directory is
/// unchanged; errors are those of [`list_segments`].
pub fn truncate_wal(dir: &mut LogDir, offset: u64) -> (r: Result<(), WalError>)
    ensures
        r is Err ==> final(dir).files@ == old(dir).files@,
        r matches Err(WalError::Io) <==> !tops_fit(old(dir).files@),
        tops_fit(old(dir).files@) && r is Err ==> r == Err::<(), WalError>(
            WalError::Corruption(CorruptionKind::NonContiguous),
        ),
        tops_fit(old(dir).files@) && r is Err ==> !exists|s: Seq<Segment>|
            segs_wf(s) && s.to_multiset() == segs_of(old(dir).files@).to_multiset(),
        r is Ok ==> final(dir).files@ == truncated_files(old(dir).files@, offset),
{
    let segs = match list_segments(dir) {
        Ok(segs) => segs,
        Err(e) => {
            return Err(e);
        },
    };
    let ghost orig = dir.files@;
    let ghost pred = survives_pred(orig, offset);
    if segs.len() == 0 {
        proof {
            assert(orig.len() == 0);
            assert(orig.filter(pred) =~= orig);
        }
        return Ok(());
    }
    let write_base = segs[segs.len() - 1].base_offset;
    proof {
        assert(segs@.to_multiset().count(segs@[segs@.len() - 1]) > 0) by {
            segs@.to_multiset_ensures();
            assert(segs@.contains(segs@[segs@.len() - 1]));
        }
        assert forall|i: int| 0 <= i < orig.len() implies orig[i].base_offset
            <= write_base by {
            let s = seg_of_file(orig[i]);
            assert(segs_of(orig)[i] == s);
            assert(segs_of(orig).contains(s));
            segs_of(orig).to_multiset_ensures();
            segs@.to_multiset_ensures();
            assert(segs@.to_multiset().count(s) > 0);
            assert(segs@.contains(s));
            let j = choose|j: int| 0 <= j < segs@.len() && segs@[j] == s;
            if j < segs@.len() - 1 {
                assert(segs@[j].base_offset < segs@[segs@.len() - 1].base_offset);
            }
        }
        // The write base is itself a base of some file, so a file keeps
        // the write segment exactly when its base equals `write_base`.
        assert forall|f: SegmentFile| orig.contains(f) implies (is_write_base(orig, f.base_offset)
            <==> f.base_offset == write_base) by {
            let s = segs@[segs@.len() - 1];
            segs@.to_multiset_ensures();
            segs_of(orig).to_multiset_ensures();
            assert(segs_of(orig).to_multiset().count(s) > 0);
            assert(segs_of(orig).contains(s));
            let k = choose|k: int| 0 <= k < segs_of(orig).len() && segs_of(orig)[k] == s;
            assert(orig[k].base_offset == write_base);
        }
    }
    let mut rest: Vec<SegmentFile> = Vec::new();
    core::mem::swap(&mut dir.files, &mut rest);
    let mut kept: Vec<SegmentFile> = Vec::new();
    let n = rest.len();
    let mut k: usize = 0;
    while k < n
        invariant
            n == orig.len(),
            k <= n,
            rest@ == orig.skip(k as int),
            kept@ == orig.take(k as int).filter(pred),
            pred == (|f: SegmentFile| survives_truncate(orig, f, offset)),
            forall|f: SegmentFile|
                orig.contains(f) ==> (is_write_base(orig, f.base_offset) <==> f.base_offset
                    == write_base),
            tops_fit(orig),
        decreases n - k,
    {
        let f = rest.remove(0);
        proof {
            assert(orig.skip(k as int).remove(0) =~= orig.skip(k + 1));
            assert(orig.take(k + 1).drop_last() =~= orig.take(k as int));
            assert(orig.take(k + 1).last() == orig[k as int]);
            assert(orig.contains(orig[k as int]));
        }
        proof {
            assert(f == orig[k as int]);
            assert(orig[k as int].spec_top() <= u64::MAX);
        }
        let keep = f.base_offset == write_base || f.base_offset + f.data.len() as u64 > offset;
        if keep {
            kept.push(f);
        }
        proof {
            assert(orig.contains(f));
            assert(is_write_base(orig, f.base_offset) <==> f.base_offset == write_base);
            assert(pred(f) == survives_truncate(orig, f, offset));
            assert(f.spec_top() == f.base_offset + f.data@.len());
            assert((f.base_offset + f.data@.len() > offset) == (f.spec_top() > offset));
            assert(keep == (f.base_offset == write_base || f.spec_top() > offset));
            assert(keep == pred(f));
            reveal_with_fuel(Seq::filter, 2);
            assert(orig.take(k + 1).drop_last().filter(pred) == orig.take(k as int).filter(pred));
            assert(orig.take(k + 1).filter(pred) == if pred(f) {
                orig.take(k as int).filter(pred).push(f)
            } else {
                orig.take(k as int).filter(pred)
            });
            assert(kept@ =~= orig.take(k + 1).filter(pred));
        }
        k = k + 1;
    }
    core::mem::swap(&mut dir.files, &mut kept);
    proof {
        assert(orig.take(n as int) =~= orig);
    }
    Ok(())
}

/// One decimal digit as a string slice.
fn digit_str(d: u64) -> (r: &'static str)
    requires
        d < 10,
    ensures
        r@ == seq![digit_char(d as int)],
{
    proof {
        reveal_strlit("0");
        reveal_strlit("1");
        reveal_strlit("2");
        reveal_strlit("3");
        reveal_strlit("4");
        reveal_strlit("5");
        reveal_strlit("6");
        reveal_strlit("7");
        reveal_strlit("8");
        reveal_strlit("9");
    }
    if d == 0 {
        "0"
    } else if d == 1 {
        "1"
    } else if d == 2 {
        "2"
    } else if d == 3 {
        "3"
    } else if d == 4 {
        "4"
    } else if d == 5 {
        "5"
    } else if d == 6 {
        "6"
    } else if d == 7 {
        "7"
    } else if d == 8 {
        "8"
    } else {
        "9"
    }
}

/// Formats the file name of the segment with the given base offset:
/// the 20-digit zero-padded decimal base offset, with extension `.log`.
pub fn segment_file_name(base_offset: u64) -> (r: String)
    ensures
        r@ == spec_segment_file_name(base_offset),
{
    proof {
        reveal_with_fuel(pow10, 21);
    }
    let mut s = String::new();
    let mut divisor: u64 = 10_000_000_000_000_000_000;
    let mut i: usize = 0;
    while i < 20
        invariant
            i <= 20,
            divisor == pow10((19 - (if i < 20 { i as int } else { 19 })) as nat),
            s@ =~= dec20(base_offset).take(i as int),
        decreases 20 - i,
    {
        proof {
            lemma_pow10_pos((19 - i) as nat);
        }
        let d = (base_offset / divisor) % 10;
        proof {
            assert(dec20(base_offset)[i as int] == digit_char(
                (base_offset as int / pow10((19 - i) as nat)) % 10,
            ));
            assert(d == (base_offset as int / pow10((19 - i) as nat)) % 10);
        }
        s.append(digit_str(d));
        proof {
            assert(s@ =~= dec20(base_offset).take(i + 1));
            if i + 1 < 20 {
                assert(pow10((19 - i) as nat) == 10 * pow10((18 - i) as nat));
                assert(divisor / 10 == pow10((18 - i) as nat));
            }
        }
        if i < 19 {
            divisor = divisor / 10;
        }
        i = i + 1;
    }
    proof {
        assert(s@ =~= dec20(base_offset));
    }
    s.append(".log");
    s
}

/// Powers of ten are positive.
proof fn lemma_pow10_pos(k: nat)
    ensures
        pow10(k) >= 1,
    decreases k,
{
    if k > 0 {
        lemma_pow10_pos((k - 1) as nat);
    }
}

/// Digit sequences have non-negative values.
proof fn lemma_dec_val_nonneg(s: Seq<char>)
    requires
        forall|i: int| 0 <= i < s.len() ==> is_digit(#[trigger] s[i]),
    ensures
        dec_val(s) >= 0,
    decreases s.len(),
{
    if s.len() > 0 {
        lemma_dec_val_nonneg(s.drop_last());
    }
}

/// Extending a digit sequence can only grow its value.
proof fn lemma_dec_val_grows(s: Seq<char>, i: int, j: int)
    requires
        forall|k: int| 0 <= k < s.len() ==> is_digit(#[trigger] s[k]),
        0 <= i <= j <= s.len(),
    ensures
        dec_val(s.take(i)) <= dec_val(s.take(j)),
    decreases j - i,
{
    if i < j {
        lemma_dec_val_grows(s, i + 1, j);
        let t = s.take(i + 1);
        assert(t.drop_last() =~= s.take(i));
        assert(forall|k: int| 0 <= k < s.take(i).len() ==> is_digit(#[trigger] s.take(i)[k]));
        lemma_dec_val_nonneg(s.take(i));
        assert(dec_val(t) == dec_val(s.take(i)) * 10 + digit_val(s[i]));
    }
}

/// Parses the base offset from a segment file name: the first 20
/// characters read as a decimal number. Fails when the name is shorter,
/// holds a non-digit among them, or denotes a value above `u64::MAX`.
pub fn segment_base_offset(filename: &str) -> (r: Result<u64, WalError>)
    ensures
        valid_segment_file_name(filename@) ==> (r matches Ok(v) && v == dec_val(
            filename@.take(SEGMENT_FILE_NAME_LEN as int),
        )),
        !valid_segment_file_name(filename@) ==> r == Err::<u64, WalError>(WalError::Io),
{
    let len = filename.unicode_len();
    if len < 20 {
        return Err(WalError::Io);
    }
    let mut acc: u64 = 0;
    let mut i: usize = 0;
    while i < 20
        invariant
            i <= 20,
            20 <= filename@.len(),
            forall|k: int| 0 <= k < i ==> is_digit(#[trigger] filename@[k]),
            acc == dec_val(filename@.take(i as int)),
        decreases 20 - i,
    {
        let c = filename.get_char(i);
        let cv = c as u32;
        if cv < 48 || cv > 57 {
            proof {
                assert(!is_digit(filename@[i as int]));
            }
            return Err(WalError::Io);
        }
        let d = (cv - 48) as u64;
        if acc > (u64::MAX - d) / 10 {
            proof {
                let s = filename@;
                assert(acc * 10 + d > u64::MAX) by {
                    let m = (u64::MAX - d) as int;
                    assert((m / 10) * 10 + m % 10 == m);
                    assert(acc as int >= m / 10 + 1);
                    assert(acc as int * 10 >= (m / 10 + 1) * 10) by (nonlinear_arith)
                        requires
                            acc as int >= m / 10 + 1,
                    ;
                }
                assert(s.take(i + 1).drop_last() =~= s.take(i as int));
                assert(dec_val(s.take(i + 1)) == acc * 10 + digit_val(s[i as int]));
                assert(forall|k: int| 0 <= k < i + 1 ==> is_digit(#[trigger] s[k]));
                if valid_segment_file_name(s) {
                    let t = s.take(SEGMENT_FILE_NAME_LEN as int);
                    assert(forall|k: int| 0 <= k < t.len() ==> is_digit(#[trigger] t[k]));
                    lemma_dec_val_grows(t, i + 1, 20);
                    assert(t.take(i + 1) =~= s.take(i + 1));
                    assert(t.take(20) =~= t);
                }
            }
            return Err(WalError::Io);
        }
        proof {
            let s = filename@;
            assert(s.take(i + 1).drop_last() =~= s.take(i as int));
            assert(dec_val(s.take(i + 1)) == acc * 10 + digit_val(s[i as int]));
        }
        acc = acc * 10 + d;
        i = i + 1;
    }
    Ok(acc)
}

/// When a sorted arrangement breaks strictness or contiguity at `j`, no
/// well-formed arrangement of the same segments exists.
proof fn lemma_no_wf_arrangement(sorted: Seq<Segment>, all: Seq<Segment>, j: int)
    requires
        segs_sorted_le(sorted),
        sorted.to_multiset() == all.to_multiset(),
        0 <= j < sorted.len() - 1,
        sorted[j].base_offset >= sorted[j + 1].base_offset || sorted[j].top_offset
            != sorted[j + 1].base_offset,
    ensures
        !exists|s: Seq<Segment>| segs_wf(s) && s.to_multiset() == all.to_multiset(),
{
    if exists|s: Seq<Segment>| segs_wf(s) && s.to_multiset() == all.to_multiset() {
        let s = choose|s: Seq<Segment>| segs_wf(s) && s.to_multiset() == all.to_multiset();
        lemma_sorted_multiset_unique(sorted, s);
        assert(sorted[j].base_offset < sorted[j + 1].base_offset);
        assert(sorted[j].top_offset == sorted[j + 1].base_offset);
    }
}

} // verus!
