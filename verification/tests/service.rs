use quickwit::blocking_service::PushAPIServiceBlockingImpl;
use quickwit::directory::LogDir;
use quickwit::position::{CheckpointDelta, Position};
use quickwit::queue::{
    add_doc, iter_doc_payloads, DocBatch, FetchRequest, IngestRequest, Queues,
    SuggestTruncateRequest, TailRequest,
};
use quickwit::wal_source::{parse_record, WalSource};
use quickwit::writer::Writer;

const TEST_SEGMENT_MAX: u64 = 64;

fn batch(index_id: &str, docs: &[&str]) -> DocBatch {
    let mut b = DocBatch::default();
    b.index_id = index_id.to_string();
    for doc in docs {
        add_doc(doc.as_bytes(), &mut b);
    }
    b
}

#[test]
fn test_add_doc_and_iter_doc_payloads() {
    let b = batch("idx", &["Record #0", "Record #1"]);
    assert_eq!(b.concat_docs, b"Record #0Record #1");
    assert_eq!(b.doc_lens, vec![9, 9]);
    let docs = iter_doc_payloads(&b).unwrap();
    assert_eq!(docs, vec![b"Record #0".to_vec(), b"Record #1".to_vec()]);

    let mut bad = batch("idx", &["Record #0"]);
    bad.doc_lens.push(1000);
    iter_doc_payloads(&bad).unwrap_err();
}

#[test]
fn queue_fetch_returns_ingested_docs() {
    let queues = Queues::open(LogDir::new(), TEST_SEGMENT_MAX).unwrap();
    let mut service = PushAPIServiceBlockingImpl::with_queues(queues);

    service
        .ingest(IngestRequest { doc_batches: vec![batch("idx", &["Record #0"])] })
        .unwrap();
    service
        .ingest(IngestRequest { doc_batches: vec![batch("idx", &["Record #1"])] })
        .unwrap();

    let resp = service
        .fetch(FetchRequest { index_id: "idx".to_string(), start_after: None })
        .unwrap();
    assert_eq!(resp.first_position, Some(0));
    let b = resp.doc_batch.unwrap();
    assert_eq!(b.index_id, "idx");
    let docs = iter_doc_payloads(&b).unwrap();
    assert_eq!(docs, vec![b"Record #0".to_vec(), b"Record #1".to_vec()]);

    let resp2 = service
        .fetch(FetchRequest { index_id: "idx".to_string(), start_after: Some(0) })
        .unwrap();
    let b2 = resp2.doc_batch.unwrap();
    let docs2 = iter_doc_payloads(&b2).unwrap();
    assert_eq!(docs2, vec![b"Record #1".to_vec()]);

    let resp3 = service
        .fetch(FetchRequest { index_id: "other".to_string(), start_after: None })
        .unwrap();
    assert!(resp3.first_position.is_none());
    assert!(resp3.doc_batch.is_none());
}

#[test]
fn queue_tail_returns_latest_docs() {
    let queues = Queues::open(LogDir::new(), TEST_SEGMENT_MAX).unwrap();
    let mut service = PushAPIServiceBlockingImpl::with_queues(queues);
    service
        .ingest(IngestRequest {
            doc_batches: vec![batch("idx", &["Record #0", "Record #1"]), batch("two", &["x"])],
        })
        .unwrap();
    let resp = service.tail(TailRequest { index_id: "idx".to_string() }).unwrap();
    let b = resp.doc_batch.unwrap();
    let docs = iter_doc_payloads(&b).unwrap();
    assert_eq!(docs, vec![b"Record #0".to_vec(), b"Record #1".to_vec()]);
}

#[test]
fn queue_suggest_truncate_reclaims_consumed_segments() {
    let queues = Queues::open(LogDir::new(), TEST_SEGMENT_MAX).unwrap();
    let mut service = PushAPIServiceBlockingImpl::with_queues(queues);
    // Two segments' worth of records.
    for i in 0..6 {
        let doc = format!("a thirty-byte long record #{i:02}");
        service
            .ingest(IngestRequest { doc_batches: vec![batch("idx", &[&doc])] })
            .unwrap();
    }
    let before = service.queues.dir.files.len();
    assert!(before >= 2);
    service
        .suggest_truncate(SuggestTruncateRequest {
            index_id: "idx".to_string(),
            up_to_position_included: u64::MAX,
        })
        .unwrap();
    assert_eq!(service.queues.dir.files.len(), 1);
}

#[test]
fn test_ingest_source() {
    let mut dir = LogDir::new();
    let mut writer = Writer::open(&mut dir, TEST_SEGMENT_MAX).unwrap();
    {
        let mut source = WalSource::try_new(
            &dir,
            "test-wal-source".to_string(),
            Position::Beginning,
            TEST_SEGMENT_MAX,
        )
        .unwrap();
        let emitted = source.emit_batches(&dir).unwrap();
        assert!(emitted.is_none());
        assert_eq!(source.current_offset, 0);
        assert_eq!(source.num_bytes_processed, 0);
        assert_eq!(source.num_records_processed, 0);
        assert_eq!(source.num_invalid_records, 0);
    }
    writer.append(&mut dir, b"").unwrap();
    writer.append(&mut dir, b"Record #0").unwrap();
    writer.append(&mut dir, b"").unwrap();
    writer.append(&mut dir, b"Record #1").unwrap();
    writer.flush(&mut dir).unwrap();
    {
        let mut source = WalSource::try_new(
            &dir,
            "test-wal-source".to_string(),
            Position::Beginning,
            TEST_SEGMENT_MAX,
        )
        .unwrap();
        let emitted = source.emit_batches(&dir).unwrap().unwrap();
        assert_eq!(emitted.docs, vec!["Record #0".to_string(), "Record #1".to_string()]);
        let mut expected_delta = CheckpointDelta::default();
        expected_delta
            .record_partition_delta(
                "test-wal-source".to_string(),
                Position::Beginning,
                Position::Offset(58),
            )
            .unwrap();
        assert_eq!(emitted.checkpoint_delta, expected_delta);
        assert_eq!(source.current_offset, 58);
        assert_eq!(source.num_bytes_processed, 18);
        assert_eq!(source.num_records_processed, 4);
        assert_eq!(source.num_invalid_records, 2);
    }
    {
        let mut source = WalSource::try_new(
            &dir,
            "test-wal-source".to_string(),
            Position::Offset(29),
            TEST_SEGMENT_MAX,
        )
        .unwrap();
        let emitted = source.emit_batches(&dir).unwrap().unwrap();
        assert_eq!(emitted.docs, vec!["Record #1".to_string()]);
        let mut expected_delta = CheckpointDelta::default();
        expected_delta
            .record_partition_delta(
                "test-wal-source".to_string(),
                Position::Offset(29),
                Position::Offset(58),
            )
            .unwrap();
        assert_eq!(emitted.checkpoint_delta, expected_delta);
        assert_eq!(source.current_offset, 58);
        assert_eq!(source.num_bytes_processed, 9);
        assert_eq!(source.num_records_processed, 2);
        assert_eq!(source.num_invalid_records, 1);
    }
}

#[test]
fn source_resumes_after_truncation() {
    let mut dir = LogDir::new();
    let mut writer = Writer::open(&mut dir, TEST_SEGMENT_MAX).unwrap();
    // Three records fill two segments: [0..70) and [70..105).
    writer.append(&mut dir, b"A log entry at offset 00.").unwrap();
    writer.append(&mut dir, b"A log entry at offset 35.").unwrap();
    writer.append(&mut dir, b"A log entry at offset 70.").unwrap();
    writer.flush(&mut dir).unwrap();
    quickwit::directory::truncate_wal(&mut dir, 70).unwrap();

    // A `Beginning` checkpoint resumes from the lowest available offset.
    let mut source = WalSource::try_new(
        &dir,
        "test-wal-source".to_string(),
        Position::Beginning,
        TEST_SEGMENT_MAX,
    )
    .unwrap();
    assert_eq!(source.current_offset, 70);
    let emitted = source.emit_batches(&dir).unwrap().unwrap();
    assert_eq!(emitted.docs, vec!["A log entry at offset 70.".to_string()]);
    assert_eq!(source.current_offset, 105);

    // A checkpoint into the truncated region cannot be seeked to.
    assert!(WalSource::try_new(
        &dir,
        "test-wal-source".to_string(),
        Position::Offset(0),
        TEST_SEGMENT_MAX,
    )
    .is_err());
    // A checkpoint off a frame boundary cannot be seeked to either.
    assert!(WalSource::try_new(
        &dir,
        "test-wal-source".to_string(),
        Position::Offset(71),
        TEST_SEGMENT_MAX,
    )
    .is_err());
}

#[test]
fn parse_record_filters_empty_and_invalid() {
    assert_eq!(parse_record(b"Record #0"), Some("Record #0".to_string()));
    assert_eq!(parse_record(b""), None);
    assert_eq!(parse_record(&[0xff, 0xfe]), None);
}
