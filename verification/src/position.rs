//! Read positions of queues and sources.

use vstd::prelude::*;

verus! {

/// A position in the log: before everything, or at a byte offset.
/// `Beginning` orders below every offset; offsets order by value.
#[derive(Debug, Clone, Copy, PartialEq, Eq, Structural)]
pub enum Position {
    /// Before the first record.
    Beginning,
    /// At the given byte offset.
    Offset(u64),
}

/// The total order on positions: `Beginning` first, then offsets by
/// value.
pub open spec fn pos_lt(a: Position, b: Position) -> bool {
    match (a, b) {
        (Position::Beginning, Position::Beginning) => false,
        (Position::Beginning, Position::Offset(_)) => true,
        (Position::Offset(_), Position::Beginning) => false,
        (Position::Offset(x), Position::Offset(y)) => x < y,
    }
}

impl Position {
    /// Whether this position orders strictly below `other`.
    pub fn lt(&self, other: &Position) -> (r: bool)
        ensures
            r == pos_lt(*self, *other),
    {
        match (self, other) {
            (Position::Beginning, Position::Offset(_)) => true,
            (Position::Offset(x), Position::Offset(y)) => x < y,
            _ => false,
        }
    }

    /// The offset this position stands at, if any.
    pub fn offset(&self) -> (r: Option<u64>)
        ensures
            match r {
                Some(x) => *self == Position::Offset(x),
                None => *self == Position::Beginning,
            },
    {
        match self {
            Position::Beginning => None,
            Position::Offset(x) => Some(*x),
        }
    }
}

impl From<u64> for Position {
    /// The position at the given offset.
    fn from(offset: u64) -> (r: Position)
        ensures
            r == Position::Offset(offset),
    {
        Position::Offset(offset)
    }
}

impl vstd::std_specs::convert::FromSpecImpl<u64> for Position {
    open spec fn obeys_from_spec() -> bool {
        true
    }

    open spec fn from_spec(offset: u64) -> Position {
        Position::Offset(offset)
    }
}

/// One recorded step of progress of a partition: from one position,
/// exclusive, to a greater one, inclusive.
#[derive(Debug, Clone, PartialEq, Eq)]
pub struct PartitionDelta {
    /// The partition the step belongs to.
    pub partition_id: String,
    /// Position before the step.
    pub from_position: Position,
    /// Position after the step; strictly greater than `from_position`.
    pub to_position: Position,
}

/// Progress recorded over one or more partitions.
#[derive(Debug, Clone, PartialEq, Eq)]
pub struct CheckpointDelta {
    /// The recorded steps, one per partition.
    pub deltas: Vec<PartitionDelta>,
}

impl CheckpointDelta {
    /// An empty delta.
    pub fn new() -> (r: CheckpointDelta)
        ensures
            r.deltas@.len() == 0,
    {
        CheckpointDelta { deltas: Vec::new() }
    }

    /// Records one partition's step. The step must go forward: its end
    /// position must be strictly greater than its start.
    pub fn record_partition_delta(
        &mut self,
        partition_id: String,
        from_position: Position,
        to_position: Position,
    ) -> (r: Result<(), crate::errors::PushApiError>)
        ensures
            pos_lt(from_position, to_position) ==> ({
                &&& r == Ok::<(), crate::errors::PushApiError>(())
                &&& final(self).deltas@.len() == old(self).deltas@.len() + 1
                &&& final(self).deltas@.last().partition_id == partition_id
                &&& final(self).deltas@.last().from_position == from_position
                &&& final(self).deltas@.last().to_position == to_position
                &&& final(self).deltas@.take(old(self).deltas@.len() as int) == old(
                    self,
                ).deltas@
            }),
            !pos_lt(from_position, to_position) ==> ({
                &&& r == Err::<(), crate::errors::PushApiError>(
                    crate::errors::PushApiError::InvalidDocBatch,
                )
                &&& *final(self) == *old(self)
            }),
    {
        if !from_position.lt(&to_position) {
            return Err(crate::errors::PushApiError::InvalidDocBatch);
        }
        self.deltas.push(PartitionDelta { partition_id, from_position, to_position });
        proof {
            assert(self.deltas@.take(old(self).deltas@.len() as int) =~= old(self).deltas@);
        }
        Ok(())
    }
}

impl Default for CheckpointDelta {
    /// An empty delta.
    fn default() -> (r: CheckpointDelta)
        ensures
            r.deltas@.len() == 0,
    {
        CheckpointDelta { deltas: Vec::new() }
    }
}

} // verus!
