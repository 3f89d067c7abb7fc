use quickwit::codec::{decode_frame, encode_frame, HEADER_MAGIC};
use quickwit::directory::{
    list_segments, segment_base_offset, segment_file_name, truncate_wal, LogDir, Segment,
};
use quickwit::errors::{CorruptionKind, WalError};
use quickwit::reader::Reader;
use quickwit::segment_reader::SegmentReader;
use quickwit::segment_writer::SegmentWriter;
use quickwit::writer::Writer;

const TEST_SEGMENT_MAX: u64 = 64;

fn flush_all(w: &mut SegmentWriter, dir: &mut LogDir) {
    w.flush(dir).unwrap();
}

#[test]
fn codec_round_trip() {
    let payload = b"A log entry at offset 00.";
    let frame = encode_frame(payload);
    assert_eq!(frame.len(), 10 + payload.len());
    let (out, consumed) = decode_frame(&frame, 0).unwrap().unwrap();
    assert_eq!(out, payload);
    assert_eq!(consumed, 10 + payload.len());
}

#[test]
fn codec_detects_payload_bit_flips() {
    let payload = b"some payload bytes";
    let frame = encode_frame(payload);
    for byte in 10..frame.len() {
        for bit in 0..8 {
            let mut corrupt = frame.clone();
            corrupt[byte] ^= 1 << bit;
            match decode_frame(&corrupt, 0) {
                Err(WalError::Corruption(CorruptionKind::BadCrc)) => {}
                other => panic!("flip at {byte}/{bit} not detected: {other:?}"),
            }
        }
    }
}

#[test]
fn codec_detects_magic_flips() {
    let payload = b"some payload bytes";
    let frame = encode_frame(payload);
    for bit in 0..16 {
        let mut corrupt = frame.clone();
        corrupt[bit / 8] ^= 1 << (bit % 8);
        match decode_frame(&corrupt, 0) {
            Err(WalError::Corruption(CorruptionKind::BadMagic)) => {}
            other => panic!("magic flip at {bit} not detected: {other:?}"),
        }
    }
}

#[test]
fn codec_detects_lost_tail() {
    let payload = b"some payload bytes";
    let frame = encode_frame(payload);
    for cut in 1..frame.len() {
        match decode_frame(&frame[..cut], 0) {
            Err(WalError::Corruption(CorruptionKind::Truncated)) => {}
            other => panic!("cut at {cut} not detected: {other:?}"),
        }
    }
    assert!(decode_frame(&frame[..0], 0).unwrap().is_none());
}

#[test]
fn test_load_segments() {
    let mut dir = LogDir::new();
    assert!(list_segments(&dir).unwrap().is_empty());
    dir.add_file(0, b"twelve bytes".to_vec());
    dir.add_file(12, b"fourteen bytes".to_vec());
    let expected = vec![
        Segment { base_offset: 0, top_offset: 12 },
        Segment { base_offset: 12, top_offset: 26 },
    ];
    assert_eq!(list_segments(&dir).unwrap(), expected);

    let mut short = LogDir::new();
    short.add_file(0, b"twelve byt".to_vec());
    short.add_file(12, b"fourteen bytes".to_vec());
    list_segments(&short).unwrap_err();
}

#[test]
fn test_truncate_wal() {
    fn make_dir() -> LogDir {
        let mut dir = LogDir::new();
        dir.add_file(0, b"twelve bytes".to_vec());
        dir.add_file(12, b"fourteen bytes".to_vec());
        dir.add_file(26, b"twelve bytes".to_vec());
        dir
    }
    let mut dir = make_dir();
    truncate_wal(&mut dir, 0).unwrap();
    assert_eq!(list_segments(&dir).unwrap().len(), 3);
    truncate_wal(&mut dir, 11).unwrap();
    assert_eq!(list_segments(&dir).unwrap().len(), 3);
    truncate_wal(&mut dir, 12).unwrap();
    assert_eq!(list_segments(&dir).unwrap().len(), 2);
    truncate_wal(&mut dir, 25).unwrap();
    assert_eq!(list_segments(&dir).unwrap().len(), 2);
    truncate_wal(&mut dir, 26).unwrap();
    assert_eq!(list_segments(&dir).unwrap().len(), 1);
    truncate_wal(&mut dir, 38).unwrap();
    assert_eq!(list_segments(&dir).unwrap().len(), 1);
}

#[test]
fn test_segment_file_names() {
    assert_eq!(segment_file_name(0), "00000000000000000000.log");
    assert_eq!(segment_file_name(12), "00000000000000000012.log");
    assert_eq!(segment_base_offset("00000000000000000012.log").unwrap(), 12);
    assert_eq!(
        segment_base_offset(&segment_file_name(u64::MAX)).unwrap(),
        u64::MAX
    );
    segment_base_offset("not-a-segment").unwrap_err();
    segment_base_offset("99999999999999999999.log").unwrap_err();
}

#[test]
fn test_segment_writer() {
    let mut dir = LogDir::new();
    {
        let mut segment_writer = SegmentWriter::create(&mut dir, 123).unwrap();
        assert_eq!(segment_writer.base_offset(), 123);
        assert_eq!(segment_writer.current_offset(), 123);
        assert_eq!(segment_writer.num_bytes(), 0);

        assert_eq!(segment_writer.append(b"Hello, World!"), 23);
        assert_eq!(segment_writer.current_offset(), 123 + 23);
        assert_eq!(segment_writer.num_bytes(), 23);

        assert_eq!(segment_writer.append(b"Hola, Mundo!"), 22);
        assert_eq!(segment_writer.current_offset(), 123 + 45);
        assert_eq!(segment_writer.num_bytes(), 45);

        flush_all(&mut segment_writer, &mut dir);

        let segment_bytes = &dir.files[0].data;
        assert_eq!(segment_bytes.len(), 45);
        assert_log_eq(&segment_bytes[..23], b"Hello, World!");
        assert_log_eq(&segment_bytes[23..], b"Hola, Mundo!");
    }
    {
        let mut segment_writer = SegmentWriter::open(&dir, 123).unwrap();
        assert_eq!(segment_writer.base_offset(), 123);
        assert_eq!(segment_writer.current_offset(), 123 + 45);
        assert_eq!(segment_writer.num_bytes(), 45);

        assert_eq!(segment_writer.append(b"Hallo, Welt!"), 22);
        assert_eq!(segment_writer.current_offset(), 123 + 67);
        assert_eq!(segment_writer.num_bytes(), 67);

        flush_all(&mut segment_writer, &mut dir);

        let segment_bytes = &dir.files[0].data;
        assert_eq!(segment_bytes.len(), 67);
        assert_log_eq(&segment_bytes[..23], b"Hello, World!");
        assert_log_eq(&segment_bytes[23..45], b"Hola, Mundo!");
        assert_log_eq(&segment_bytes[45..], b"Hallo, Welt!");
    }
}

fn assert_log_eq(log: &[u8], payload: &[u8]) {
    assert_eq!(
        u16::from_le_bytes(log[..2].try_into().unwrap()),
        HEADER_MAGIC
    );
    assert_eq!(
        u32::from_le_bytes(log[2..6].try_into().unwrap()),
        crc32fast::hash(payload)
    );
    assert_eq!(
        u32::from_le_bytes(log[6..10].try_into().unwrap()),
        payload.len() as u32
    );
    assert_eq!(&log[10..], payload);
}

#[test]
fn test_segment_reader() {
    let mut dir = LogDir::new();
    let mut segment_writer = SegmentWriter::create(&mut dir, 123).unwrap();
    segment_writer.append(b"Hello, World!");
    segment_writer.append(b"Hola, Mundo!");
    segment_writer.append(b"Hallo, Welt!");
    segment_writer.flush(&mut dir).unwrap();

    let mut segment_reader = SegmentReader::open(&dir, 123).unwrap();
    assert_eq!(segment_reader.next().unwrap().unwrap(), b"Hello, World!");
    assert_eq!(segment_reader.next().unwrap().unwrap(), b"Hola, Mundo!");
    assert_eq!(segment_reader.next().unwrap().unwrap(), b"Hallo, Welt!");
    assert!(segment_reader.next().unwrap().is_none());

    segment_reader.seek(122, TEST_SEGMENT_MAX).unwrap_err();
    segment_reader
        .seek(123 + TEST_SEGMENT_MAX, TEST_SEGMENT_MAX)
        .unwrap_err();
    segment_reader.seek(124, TEST_SEGMENT_MAX).unwrap_err();

    segment_reader.seek(123, TEST_SEGMENT_MAX).unwrap();
    assert_eq!(segment_reader.next().unwrap().unwrap(), b"Hello, World!");
    segment_reader.seek(123 + 45, TEST_SEGMENT_MAX).unwrap();
    assert_eq!(segment_reader.next().unwrap().unwrap(), b"Hallo, Welt!");
}

#[test]
fn test_writer() {
    let mut dir = LogDir::new();
    let mut writer = Writer::open(&mut dir, TEST_SEGMENT_MAX).unwrap();
    writer
        .append(&mut dir, b"A 37-byte long write-ahead log entry.")
        .unwrap();
    writer
        .append(&mut dir, b"A 37-byte long write-ahead log entry.")
        .unwrap();
    writer.flush(&mut dir).unwrap();

    let expected = vec![Segment { base_offset: 0, top_offset: 94 }];
    assert_eq!(list_segments(&dir).unwrap(), expected);

    writer.append(&mut dir, b"A 21-byte long entry.").unwrap();
    writer.flush(&mut dir).unwrap();

    let expected = vec![
        Segment { base_offset: 0, top_offset: 94 },
        Segment { base_offset: 94, top_offset: 94 + 31 },
    ];
    assert_eq!(list_segments(&dir).unwrap(), expected);
}

#[test]
fn test_reader() {
    let mut dir = LogDir::new();
    let mut writer = Writer::open(&mut dir, TEST_SEGMENT_MAX).unwrap();
    writer.append(&mut dir, b"A log entry at offset 00.").unwrap();
    writer.append(&mut dir, b"A log entry at offset 35.").unwrap();
    writer.append(&mut dir, b"A log entry at offset 70.").unwrap();
    writer.flush(&mut dir).unwrap();

    let mut reader = Reader::open(&dir, TEST_SEGMENT_MAX).unwrap();
    assert_eq!(reader.next(&dir).unwrap().unwrap(), b"A log entry at offset 00.");
    assert_eq!(reader.next(&dir).unwrap().unwrap(), b"A log entry at offset 35.");
    assert_eq!(reader.next(&dir).unwrap().unwrap(), b"A log entry at offset 70.");
    assert!(reader.next(&dir).unwrap().is_none());

    reader.seek(&dir, 70).unwrap();
    assert_eq!(reader.next(&dir).unwrap().unwrap(), b"A log entry at offset 70.");

    reader.seek(&dir, 35).unwrap();
    assert_eq!(reader.next(&dir).unwrap().unwrap(), b"A log entry at offset 35.");

    reader.seek(&dir, 0).unwrap();
    assert_eq!(reader.next(&dir).unwrap().unwrap(), b"A log entry at offset 00.");

    reader.seek(&dir, 105).unwrap();
    assert!(reader.next(&dir).unwrap().is_none());

    quickwit::directory::truncate_wal(&mut dir, 70).unwrap();
    reader.seek(&dir, 0).unwrap_err();
}

#[test]
fn seek_mid_frame_fails() {
    let mut dir = LogDir::new();
    let mut writer = Writer::open(&mut dir, TEST_SEGMENT_MAX).unwrap();
    writer.append(&mut dir, b"entry number one, 37 bytes in total..").unwrap();
    writer.append(&mut dir, b"entry number two, 37 bytes in total..").unwrap();
    writer.append(&mut dir, b"entry number three of the same size..").unwrap();
    writer.flush(&mut dir).unwrap();
    // Segments: [0..94), [94..141).
    let segs = list_segments(&dir).unwrap();
    assert_eq!(
        segs,
        vec![
            Segment { base_offset: 0, top_offset: 94 },
            Segment { base_offset: 94, top_offset: 141 },
        ]
    );
    let mut reader = Reader::open(&dir, TEST_SEGMENT_MAX).unwrap();
    reader.seek(&dir, 94).unwrap();
    assert_eq!(
        reader.next(&dir).unwrap().unwrap(),
        b"entry number three of the same size.."
    );
    reader.seek(&dir, 93).unwrap_err();
    reader.seek(&dir, 0).unwrap();
    assert_eq!(
        reader.next(&dir).unwrap().unwrap(),
        b"entry number one, 37 bytes in total.."
    );
}

#[test]
fn flush_and_sync_are_idempotent() {
    let mut dir = LogDir::new();
    let mut writer = Writer::open(&mut dir, TEST_SEGMENT_MAX).unwrap();
    writer.append(&mut dir, b"one record").unwrap();
    writer.flush(&mut dir).unwrap();
    let data_after_first = dir.files[0].data.clone();
    writer.flush(&mut dir).unwrap();
    assert_eq!(dir.files[0].data, data_after_first);
    writer.sync(&mut dir).unwrap();
    assert_eq!(dir.files[0].data, data_after_first);
    assert_eq!(dir.files[0].synced_len, data_after_first.len());
}
