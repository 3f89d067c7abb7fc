use quickwit::config::{DocMapping, IndexConfig, SearchSettings, SourceConfig};
use quickwit::metastore::{Split, SplitState, TimeRange};
use quickwit::position::{CheckpointDelta, Position};
use quickwit::queue::{DocBatch, FetchResponse, SuggestTruncateResponse};
use quickwit::storage::{
    get_split_payload_streamer, BundleStorage, BundleStorageFileOffsets, FileRange,
    SplitPayloadBuilder,
};

fn sample_config(num_sources: usize) -> IndexConfig {
    let mut source_configs = Vec::new();
    for i in 0..num_sources {
        source_configs.push(SourceConfig {
            source_id: format!("source-{i}"),
            source_type: "wal".to_string(),
            params_json: "{}".to_string(),
        });
    }
    IndexConfig {
        index_id: "hdfs-logs".to_string(),
        index_uri: "ram:///indexes/hdfs-logs".to_string(),
        doc_mapping: DocMapping {
            field_mappings: vec!["timestamp".to_string(), "body".to_string()],
            tag_fields: vec![],
            store_source: true,
        },
        search_settings: SearchSettings { default_search_fields: vec!["body".to_string()] },
        source_configs,
    }
}

#[test]
fn test_default_values() {
    let batch = DocBatch::default();
    assert_eq!(batch.index_id, "");
    assert!(batch.concat_docs.is_empty());
    assert!(batch.doc_lens.is_empty());
    let resp = FetchResponse::default();
    assert!(resp.first_position.is_none());
    assert!(resp.doc_batch.is_none());
    let _ = SuggestTruncateResponse::default();
    assert!(CheckpointDelta::default().deltas.is_empty());
    assert_eq!(Position::from(7u64), Position::Offset(7));
}

#[test]
fn test_validate() {
    assert!(sample_config(0).validate().is_ok());
    assert!(sample_config(1).validate().is_ok());
    assert!(sample_config(2).validate().is_err());
}

fn sample_split(state: &str) -> Split {
    Split {
        split_id: "split-one".to_string(),
        num_records: 10,
        size_in_bytes: 1024,
        start_time_range: Some(100),
        end_time_range: Some(200),
        split_state: state.to_string(),
        update_timestamp: 42,
        tags: vec!["tenant".to_string()],
        start_footer_offsets: 900,
        end_footer_offsets: 1024,
        index_id: "hdfs-logs".to_string(),
    }
}

#[test]
fn split_row_conversions() {
    let split = sample_split("Published");
    assert_eq!(split.get_time_range(), Some(TimeRange { start: 100, end: 200 }));
    assert_eq!(split.get_split_state(), Some(SplitState::Published));
    let m = split.make_split_metadata_and_footer_offsets().unwrap();
    assert_eq!(m.split_metadata.split_id, "split-one");
    assert_eq!(m.split_metadata.num_records, 10);
    assert_eq!(m.split_metadata.size_in_bytes, 1024);
    assert_eq!(m.footer_offsets, (900, 1024));

    let mut no_range = sample_split("Staged");
    no_range.end_time_range = None;
    assert_eq!(no_range.get_time_range(), None);
    assert_eq!(no_range.get_split_state(), Some(SplitState::Staged));

    assert_eq!(sample_split("bogus").get_split_state(), None);
    assert!(sample_split("bogus").make_split_metadata_and_footer_offsets().is_err());
}

#[test]
fn bundle_offsets_lookup() {
    let mut metadata = BundleStorageFileOffsets::new();
    metadata.files.push(("f1".to_string(), FileRange { start: 0, end: 2 }));
    metadata.files.push(("f2".to_string(), FileRange { start: 2, end: 5 }));
    metadata
        .files_and_data
        .push(("hotcache".to_string(), vec![123, 76, 99, 55, 44]));

    assert_eq!(metadata.get("f1"), Some(FileRange { start: 0, end: 2 }));
    assert_eq!(metadata.get("f2"), Some(FileRange { start: 2, end: 5 }));
    assert_eq!(metadata.get("hotcache"), None);
    assert!(metadata.file_exists("f1"));
    assert!(metadata.file_exists("hotcache"));
    assert!(!metadata.file_exists("blub"));

    let stats = metadata.get_stats();
    assert_eq!(
        stats,
        vec![
            ("f1".to_string(), 2),
            ("f2".to_string(), 3),
            ("hotcache".to_string(), 5),
        ]
    );

    let bundle = BundleStorage { bundle_filename: "bundle".to_string(), metadata };
    assert_eq!(bundle.iter_files(), vec!["f1".to_string(), "f2".to_string()]);
}

#[test]
fn test_split_offset_computer() {
    let split_streamer = get_split_payload_streamer(
        &vec![("f1".to_string(), 2), ("f2".to_string(), 3)],
        &[1, 2, 3],
    )
    .unwrap();

    assert_eq!(split_streamer.get_start_and_end_block_index(0, 1).unwrap(), (0, 0));
    assert_eq!(split_streamer.get_start_and_end_block_index(1, 2).unwrap(), (0, 0));
    assert_eq!(split_streamer.get_start_and_end_block_index(2, 3).unwrap(), (1, 1));
    assert_eq!(split_streamer.get_start_and_end_block_index(3, 4).unwrap(), (1, 1));
    assert_eq!(split_streamer.get_start_and_end_block_index(4, 5).unwrap(), (1, 1));
    assert_eq!(split_streamer.get_start_and_end_block_index(4, 6).unwrap(), (1, 2));
    assert_eq!(split_streamer.get_start_and_end_block_index(0, 5).unwrap(), (0, 1));
    assert_eq!(split_streamer.get_start_and_end_block_index(0, 6).unwrap(), (0, 2));
    assert_eq!(split_streamer.get_start_and_end_block_index(0, 7).unwrap(), (0, 2));
    assert_eq!(split_streamer.get_start_and_end_block_index(0, 8).unwrap(), (0, 2));
    assert!(split_streamer.get_start_and_end_block_index(100, 110).is_none());
    assert!(split_streamer.get_start_and_end_block_index(0, 100).is_none());
}

#[test]
fn split_footer_layout() {
    let mut builder = SplitPayloadBuilder::new();
    builder.add_file("f1", 2).unwrap();
    builder.add_file("f2", 3).unwrap();
    let payload = builder.finalize(&[1, 2, 3]).unwrap();
    // The footer starts with the metadata JSON.
    assert_eq!(&payload.footer_bytes[..5], b"{\"fil");
    // It ends with the hotcache and its length.
    let n = payload.footer_bytes.len();
    assert_eq!(&payload.footer_bytes[n - 8..], &3u64.to_le_bytes());
    assert_eq!(&payload.footer_bytes[n - 11..n - 8], &[1, 2, 3]);
    assert_eq!(payload.footer_range, (5, 5 + payload.footer_bytes.len()));
    assert_eq!(payload.split_size, 5 + payload.footer_bytes.len());
    assert_eq!(payload.block_offsets[0], (0, 2));
    assert_eq!(payload.block_offsets[1], (2, 5));
    assert_eq!(payload.block_offsets[2], (5, payload.split_size));
    // The JSON parses back to the same ranges.
    let json_len = u64::from_le_bytes(
        payload.footer_bytes[n - 11 - 8..n - 11].try_into().unwrap(),
    ) as usize;
    let json: serde_json::Value =
        serde_json::from_slice(&payload.footer_bytes[..json_len]).unwrap();
    assert_eq!(json["files"]["f1"][0], 0);
    assert_eq!(json["files"]["f1"][1], 2);
    assert_eq!(json["files"]["f2"][0], 2);
    assert_eq!(json["files"]["f2"][1], 5);
}
