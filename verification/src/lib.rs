//! A segmented, append-only write-ahead log (WAL), with a queue service
//! and a pull-based ingest source layered on top.
//!
//! The log assigns every record a monotonically increasing 64-bit byte
//! offset and stores it framed with a magic marker, a CRC-32 checksum
//! and its length. Segments tile the logical log contiguously; the one
//! with the greatest base offset receives appends, the others are
//! sealed. Readers iterate records across segments, seek by offset, and
//! report corruption instead of bad data.
//!
//! The log is modeled over in-memory directories of segment files
//! ([`directory::LogDir`]); mirroring such a directory onto an actual
//! file system is left to unverified callers.

pub mod blocking_service;
pub mod codec;
pub mod config;
pub mod directory;
pub mod errors;
pub mod indexing;
pub mod metastore;
pub mod position;
pub mod queue;
pub mod reader;
pub mod segment_reader;
pub mod segment_writer;
pub mod storage;
pub mod wal_source;
pub mod writer;
