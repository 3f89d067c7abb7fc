//! Plain state carried by the indexing service and its sources. The
//! actor plumbing, pipelines and external stream clients stay outside
//! the library.

use vstd::prelude::*;

verus! {

/// Arguments of the indexer start command.
#[derive(Debug, PartialEq, Eq)]
pub struct StartIndexerArgs {
    /// Path of the server configuration file.
    pub server_config_path: String,
    /// The index to serve.
    pub index_id: String,
}

/// Requests the indexing service reacts to.
#[derive(Debug)]
pub enum IndexingServerMessage {
    /// Start an indexing pipeline for the named index.
    StartIndexingPipeline(String),
}

/// Makes a source that consumes an external record stream.
pub struct KinesisSourceFactory;

/// Counters of a stream-consuming source; consumer positions per shard
/// are kept by the unverified consumers themselves.
#[derive(Debug, Clone, Copy, PartialEq, Eq, Structural)]
pub struct KinesisSourceState {
    /// Bytes processed by the source.
    pub num_bytes_processed: u64,
    /// Records processed, invalid ones included.
    pub num_records_processed: u64,
    /// Records that were empty or could not be parsed.
    pub num_invalid_records: u64,
}

impl Default for KinesisSourceState {
    /// All counters at zero.
    fn default() -> (r: KinesisSourceState)
        ensures
            r.num_bytes_processed == 0,
            r.num_records_processed == 0,
            r.num_invalid_records == 0,
    {
        KinesisSourceState { num_bytes_processed: 0, num_records_processed: 0, num_invalid_records: 0 }
    }
}

} // verus!
