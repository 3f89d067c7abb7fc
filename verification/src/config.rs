//! Index configuration, modeled with plain values. Loading and parsing
//! configuration files is left to unverified callers.

use vstd::prelude::*;

verus! {

/// How splits are merged and demultiplexed.
#[derive(Debug, Clone, Copy, PartialEq, Eq, Structural)]
pub struct MergePolicy {
    /// How many splits one demux operation produces.
    pub demux_factor: usize,
    /// How many splits one merge takes.
    pub merge_factor: usize,
    /// The most splits one merge may take.
    pub max_merge_factor: usize,
    /// Splits below this record count stay on the first level.
    pub min_level_num_docs: usize,
}

/// Which fields searches use by default.
#[derive(Debug, Clone, PartialEq, Eq)]
pub struct SearchSettings {
    /// The fields searched when a query names none.
    pub default_search_fields: Vec<String>,
}

/// How documents map onto fields.
#[derive(Debug, Clone, PartialEq, Eq)]
pub struct DocMapping {
    /// The mapped fields' names.
    pub field_mappings: Vec<String>,
    /// Fields whose values tag the split.
    pub tag_fields: Vec<String>,
    /// Whether the original document is stored.
    pub store_source: bool,
}

/// One source feeding an index; its parameters stay as raw text.
#[derive(Debug, Clone, PartialEq, Eq)]
pub struct SourceConfig {
    /// Identifies the source.
    pub source_id: String,
    /// The kind of source.
    pub source_type: String,
    /// The source's parameters, as raw JSON text.
    pub params_json: String,
}

/// An index's configuration.
#[derive(Debug, Clone, PartialEq, Eq)]
pub struct IndexConfig {
    /// Identifies the index.
    pub index_id: String,
    /// Where the index's splits are stored.
    pub index_uri: String,
    /// How documents map onto fields.
    pub doc_mapping: DocMapping,
    /// Which fields searches use by default.
    pub search_settings: SearchSettings,
    /// The sources feeding the index.
    pub source_configs: Vec<SourceConfig>,
}

impl IndexConfig {
    /// Accepts the configuration exactly when it names at most one
    /// source: indexes with several sources are not supported.
    pub fn validate(&self) -> (r: Result<(), ()>)
        ensures
            r is Ok <==> self.source_configs@.len() <= 1,
    {
        if self.source_configs.len() > 1 {
            return Err(());
        }
        Ok(())
    }
}

} // verus!
