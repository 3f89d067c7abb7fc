//! Error types surfaced by the log and the queue service.

use vstd::prelude::*;

verus! {

/// The ways a stored frame or a segment directory can be found corrupt.
#[derive(Debug, Clone, Copy, PartialEq, Eq, Structural)]
pub enum CorruptionKind {
    /// The two bytes at a frame start are not the magic marker.
    BadMagic,
    /// The stored checksum does not match the payload's CRC-32.
    BadCrc,
    /// The data ends before the frame does.
    Truncated,
    /// Two neighbouring segments do not share a boundary offset.
    NonContiguous,
}

/// Errors returned by the write-ahead log.
#[derive(Debug, Clone, Copy, PartialEq, Eq, Structural)]
pub enum WalError {
    /// An underlying storage failure, such as a missing or pre-existing file.
    Io,
    /// Stored bytes fail validation; the log does not self-heal.
    Corruption(CorruptionKind),
    /// A seek offset outside the log's range or off a frame boundary.
    SeekError,
    /// A reader was opened against a directory with no segments.
    NoSegments,
}

/// Errors returned by the queue service.
#[derive(Debug, Clone, Copy, PartialEq, Eq, Structural)]
pub enum PushApiError {
    /// An error bubbled up from the write-ahead log.
    Wal(WalError),
    /// The service is not running or its command channel is closed.
    ServiceUnavailable,
    /// A document batch describes more bytes than its buffer holds.
    InvalidDocBatch,
}

} // verus!
