//! Database rows for index and split metadata, and their conversions
//! into the in-memory metadata types.

use vstd::prelude::*;
use vstd::utf8::encode_utf8;

verus! {

/// A row of the index table: the index and its metadata, as stored.
pub struct Index {
    /// Identifies the index.
    pub index_id: String,
    /// The index's metadata, serialized as JSON.
    pub index_metadata_json: String,
}

/// The lifecycle state of a split.
#[derive(Debug, Clone, Copy, PartialEq, Eq, Structural)]
pub enum SplitState {
    /// The split is created but not yet searchable.
    Staged,
    /// The split is searchable.
    Published,
    /// The split awaits deletion.
    MarkedForDeletion,
}

/// An inclusive range of timestamps.
#[derive(Debug, Clone, Copy, PartialEq, Eq, Structural)]
pub struct TimeRange {
    /// Least timestamp, inclusive.
    pub start: i64,
    /// Greatest timestamp, inclusive.
    pub end: i64,
}

/// A split's metadata.
pub struct SplitMetadata {
    /// Identifies the split.
    pub split_id: String,
    /// The split's lifecycle state.
    pub split_state: SplitState,
    /// Number of records in the split.
    pub num_records: usize,
    /// Size of the split in bytes.
    pub size_in_bytes: u64,
    /// Range of the records' timestamps, when a timestamp field exists.
    pub time_range: Option<TimeRange>,
    /// When the split's state last changed.
    pub update_timestamp: i64,
    /// Tags for grouping and searching splits.
    pub tags: Vec<String>,
}

/// A split's metadata together with its footer's byte range.
pub struct SplitMetadataAndFooterOffsets {
    /// The split's metadata.
    pub split_metadata: SplitMetadata,
    /// Byte range of the split file's footer.
    pub footer_offsets: (u64, u64),
}

/// A row of the split table.
pub struct Split {
    /// Identifies the split.
    pub split_id: String,
    /// Number of records in the split.
    pub num_records: i64,
    /// Size of the split in bytes.
    pub size_in_bytes: i64,
    /// Least record timestamp, when a timestamp field exists.
    pub start_time_range: Option<i64>,
    /// Greatest record timestamp, when a timestamp field exists.
    pub end_time_range: Option<i64>,
    /// The split's state, as stored.
    pub split_state: String,
    /// When the split's state last changed.
    pub update_timestamp: i64,
    /// Tags for grouping and searching splits.
    pub tags: Vec<String>,
    /// Start of the footer's byte range.
    pub start_footer_offsets: i64,
    /// End of the footer's byte range.
    pub end_footer_offsets: i64,
    /// The index the split belongs to.
    pub index_id: String,
}

/// The state a stored name denotes, if any.
pub open spec fn spec_split_state(s: Seq<char>) -> Option<SplitState> {
    if encode_utf8(s) == encode_utf8("Staged"@) {
        Some(SplitState::Staged)
    } else if encode_utf8(s) == encode_utf8("Published"@) {
        Some(SplitState::Published)
    } else if encode_utf8(s) == encode_utf8("MarkedForDeletion"@) {
        Some(SplitState::MarkedForDeletion)
    } else {
        None
    }
}

/// Whether two byte strings are equal.
fn str_eq(a: &str, b: &str) -> (r: bool)
    ensures
        r == (encode_utf8(a@) == encode_utf8(b@)),
{
    let x = a.as_bytes();
    let y = b.as_bytes();
    if x.len() != y.len() {
        proof {
            assert(encode_utf8(a@) != encode_utf8(b@)) by {
                if encode_utf8(a@) == encode_utf8(b@) {
                    assert(x@.len() == y@.len());
                }
            }
        }
        return false;
    }
    let n = x.len();
    let mut i: usize = 0;
    while i < n
        invariant
            n == x@.len() == y@.len(),
            x@ == encode_utf8(a@),
            y@ == encode_utf8(b@),
            i <= n,
            forall|k: int| 0 <= k < i ==> x@[k] == y@[k],
        decreases n - i,
    {
        if x[i] != y[i] {
            proof {
                assert(x@ != y@);
            }
            return false;
        }
        i = i + 1;
    }
    proof {
        assert(x@ =~= y@);
    }
    true
}

impl Split {
    /// The record timestamp range, when both ends are stored.
    pub fn get_time_range(&self) -> (r: Option<TimeRange>)
        ensures
            match (self.start_time_range, self.end_time_range) {
                (Some(s), Some(e)) => r == Some(TimeRange { start: s, end: e }),
                _ => r is None,
            },
    {
        match (self.start_time_range, self.end_time_range) {
            (Some(s), Some(e)) => Some(TimeRange { start: s, end: e }),
            _ => None,
        }
    }

    /// The split state the stored name denotes, if any.
    pub fn get_split_state(&self) -> (r: Option<SplitState>)
        ensures
            r == spec_split_state(self.split_state@),
    {
        if str_eq(self.split_state.as_str(), "Staged") {
            Some(SplitState::Staged)
        } else if str_eq(self.split_state.as_str(), "Published") {
            Some(SplitState::Published)
        } else if str_eq(self.split_state.as_str(), "MarkedForDeletion") {
            Some(SplitState::MarkedForDeletion)
        } else {
            None
        }
    }

    /// The split's metadata and footer range, from the stored row.
    /// Fails when the stored state is unknown; stored counts and
    /// offsets are reinterpreted as unsigned values.
    pub fn make_split_metadata_and_footer_offsets(&self) -> (r: Result<
        SplitMetadataAndFooterOffsets,
        (),
    >)
        ensures
            match r {
                Ok(m) => {
                    &&& spec_split_state(self.split_state@) == Some(m.split_metadata.split_state)
                    &&& m.split_metadata.split_id == self.split_id
                    &&& m.split_metadata.num_records == self.num_records as usize
                    &&& m.split_metadata.size_in_bytes == self.size_in_bytes as u64
                    &&& m.split_metadata.update_timestamp == self.update_timestamp
                    &&& m.split_metadata.tags@ == self.tags@
                    &&& m.footer_offsets == (
                        self.start_footer_offsets as u64,
                        self.end_footer_offsets as u64,
                    )
                    &&& match (self.start_time_range, self.end_time_range) {
                        (Some(s), Some(e)) => m.split_metadata.time_range == Some(
                            TimeRange { start: s, end: e },
                        ),
                        _ => m.split_metadata.time_range is None,
                    }
                },
                Err(()) => spec_split_state(self.split_state@) is None,
            },
    {
        let split_state = match self.get_split_state() {
            Some(state) => state,
            None => {
                return Err(());
            },
        };
        Ok(SplitMetadataAndFooterOffsets {
            split_metadata: SplitMetadata {
                split_id: self.split_id.clone(),
                split_state,
                num_records: self.num_records as usize,
                size_in_bytes: self.size_in_bytes as u64,
                time_range: self.get_time_range(),
                update_timestamp: self.update_timestamp,
                tags: self.tags.clone(),
            },
            footer_offsets: (self.start_footer_offsets as u64, self.end_footer_offsets as u64),
        })
    }
}

} // verus!
