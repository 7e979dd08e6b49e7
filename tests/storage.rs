use md_replay::codec::{decode_event, encode_event};
use md_replay::engine::read_events;
use md_replay::event::{Event, QuoteTicks};
use md_replay::eventlog::{default_schema_hash, EventLogReader, EventLogWriter, StorageError};
use md_replay::index::{IndexReader, IndexWriter};
use md_replay::pipeline::write_log_and_index;
use md_replay::printer::format_event;

fn log_with(events: &[Event]) -> (Vec<u8>, Vec<u64>) {
    let symbols = vec![String::from("AAPL")];
    let mut writer = EventLogWriter::create(&symbols, default_schema_hash()).expect("writer");
    let mut offsets = Vec::new();
    for e in events {
        offsets.push(writer.append(e).expect("append"));
    }
    (writer.take_pending(), offsets)
}

#[test]
fn writes_and_reads_records() {
    let (bytes, offsets) = log_with(&[Event::trade(1, 1, "X", "AAPL", 100, 2)]);
    let mut reader = EventLogReader::from_bytes(bytes).expect("reader");
    let first = reader.next_record().expect("next").expect("record");
    assert_eq!(first.offset, offsets[0]);
    assert_eq!(first.event.sequence, 1);
    assert!(reader.next_record().expect("end").is_none());
}

#[test]
fn crc_mismatch_is_detected() {
    let (mut bytes, offsets) = log_with(&[Event::trade(1, 1, "X", "AAPL", 100, 2)]);
    let last = bytes.len() - 1;
    bytes[last] ^= 0x55;
    let mut reader = EventLogReader::from_bytes(bytes).expect("open");
    let err = reader.next_record().expect_err("crc mismatch");
    match err {
        StorageError::CrcMismatch { offset } => assert_eq!(offset, offsets[0]),
        _ => panic!("unexpected error"),
    }
}

#[test]
fn header_and_truncation() {
    let (bytes, offsets) = log_with(&[Event::trade(1, 1, "X", "AAPL", 100, 2)]);
    assert_eq!(&bytes[..8], b"MDELOG01");
    let reader = EventLogReader::from_bytes(bytes.clone()).expect("open");
    assert_eq!(reader.header().symbols, vec![String::from("AAPL")]);
    assert_eq!(reader.header().data_offset, offsets[0]);
    assert_eq!(offsets[0], 8 + 2 + 8 + 4 + 1 + 4);
    assert_eq!(reader.header().schema_hash, default_schema_hash());
    let mut cut = EventLogReader::from_bytes(bytes[..bytes.len() - 3].to_vec()).expect("open");
    assert!(matches!(cut.next_record(), Err(StorageError::Io(_))));
    let mut bad = bytes.clone();
    bad[0] = b'X';
    assert!(matches!(EventLogReader::from_bytes(bad), Err(StorageError::InvalidFormat(_))));
    let mut v2 = bytes.clone();
    v2[8] = 2;
    assert!(matches!(EventLogReader::from_bytes(v2), Err(StorageError::InvalidFormat(_))));
    assert_eq!(default_schema_hash(), crc32fast::hash(b"event_v1") as u64);
}

#[test]
fn encoding_round_trips() {
    let events = vec![
        Event::trade(7, 3, "VENUE", "ÄPFEL", -100, i64::MAX),
        Event::quote(8, 4, "", "MSFT", QuoteTicks { bid_px: i64::MIN, bid_sz: 1, ask_px: 2, ask_sz: -3 }),
    ];
    for e in &events {
        let bytes = encode_event(e);
        assert_eq!(decode_event(&bytes), Some(e.clone()));
        let mut longer = bytes.clone();
        longer.push(0);
        assert_eq!(decode_event(&longer), None);
        assert_eq!(decode_event(&bytes[..bytes.len() - 1]), None);
    }
    let b = encode_event(&events[0]);
    assert_eq!(&b[0..8], &7u64.to_le_bytes());
    assert_eq!(&b[8..16], &3u64.to_le_bytes());
    assert_eq!(&b[16..24], &5u64.to_le_bytes());
    assert_eq!(&b[24..29], b"VENUE");
}

#[test]
fn seek_finds_prior_offset() {
    let mut w = IndexWriter::create(2).expect("writer");
    let events = vec![
        Event::trade(100, 1, "X", "AAPL", 1, 1),
        Event::trade(200, 2, "X", "AAPL", 1, 1),
        Event::trade(300, 3, "X", "AAPL", 1, 1),
        Event::trade(400, 4, "X", "AAPL", 1, 1),
    ];
    for (i, ev) in events.iter().enumerate() {
        w.maybe_add(ev, (i as u64) * 100).expect("index write");
    }
    let bytes = w.take_pending();
    let idx = IndexReader::from_bytes(&bytes).expect("index open");
    assert_eq!(idx.seek_offset(50), Some(0));
    assert_eq!(idx.seek_offset(250), Some(0));
    assert_eq!(idx.seek_offset(350), Some(200));
    assert_eq!(idx.seek_offset(450), Some(200));
    assert_eq!(idx.stride(), 2);
    assert_eq!(idx.entries().len(), 2);
    assert!(IndexWriter::create(0).is_err());
    let empty = IndexReader::from_bytes(&IndexWriter::create(3).expect("w").take_pending()).expect("open");
    assert_eq!(empty.seek_offset(10), None);
}

fn sample_events() -> Vec<Event> {
    vec![
        Event::trade(100, 1, "X", "AAPL", 10, 1),
        Event::quote(200, 2, "X", "MSFT", QuoteTicks { bid_px: 1, bid_sz: 2, ask_px: 3, ask_sz: 4 }),
        Event::trade(300, 3, "X", "AAPL", 11, 1),
        Event::trade(400, 4, "X", "AAPL", 12, 1),
        Event::trade(500, 5, "X", "AAPL", 13, 1),
    ]
}

#[test]
fn range_reads_with_and_without_index() {
    let events = sample_events();
    let (log, idx) = write_log_and_index(&events, 2).expect("write");
    let index = IndexReader::from_bytes(&idx).expect("index");
    let reader = EventLogReader::from_bytes(log.clone()).expect("log");
    assert_eq!(reader.header().symbols, vec![String::from("AAPL"), String::from("MSFT")]);
    let all = read_events(reader, Some(&index), None, None).expect("all");
    assert_eq!(all, events);
    let reader = EventLogReader::from_bytes(log.clone()).expect("log");
    let window = read_events(reader, Some(&index), Some(250), Some(400)).expect("window");
    let seqs: Vec<u64> = window.iter().map(|e| e.sequence).collect();
    assert_eq!(seqs, vec![3, 4]);
    let reader = EventLogReader::from_bytes(log.clone()).expect("log");
    let again = read_events(reader, None, Some(250), Some(400)).expect("window");
    assert_eq!(again, window);
    let reader = EventLogReader::from_bytes(log).expect("log");
    let lines: Vec<String> = read_events(reader, None, None, Some(200)).expect("head").iter().map(format_event).collect();
    assert_eq!(
        lines,
        vec![
            "1 100 X AAPL trade px=10 sz=1".to_string(),
            "2 200 X MSFT quote bid=1x2 ask=3x4".to_string(),
        ]
    );
    assert!(write_log_and_index(&events, 0).is_err());
}

#[test]
fn read_sorts_by_sequence_and_reports_corruption() {
    let events = vec![
        Event::trade(100, 3, "X", "AAPL", 10, 1),
        Event::trade(100, 1, "X", "AAPL", 11, 1),
        Event::trade(100, 2, "X", "AAPL", 12, 1),
    ];
    let (log, _) = write_log_and_index(&events, 1).expect("write");
    let out = read_events(EventLogReader::from_bytes(log.clone()).expect("log"), None, None, None).expect("read");
    let seqs: Vec<u64> = out.iter().map(|e| e.sequence).collect();
    assert_eq!(seqs, vec![1, 2, 3]);
    let first = read_events(EventLogReader::from_bytes(log.clone()).expect("log"), None, None, None).expect("read");
    let second = read_events(EventLogReader::from_bytes(log.clone()).expect("log"), None, None, None).expect("read");
    let b1: Vec<Vec<u8>> = first.iter().map(encode_event).collect();
    let b2: Vec<Vec<u8>> = second.iter().map(encode_event).collect();
    assert_eq!(b1, b2);
    let mut broken = log.clone();
    let n = broken.len();
    broken[n - 2] ^= 0x01;
    let res = read_events(EventLogReader::from_bytes(broken).expect("log"), None, None, None);
    assert!(matches!(res, Err(md_replay::engine::ReplayError::Storage(StorageError::CrcMismatch { .. }))));
}

#[test]
fn single_bit_flips_are_detected() {
    let (bytes, offsets) = log_with(&[Event::trade(9, 1, "X", "AAPL", 100, 2)]);
    let payload_start = offsets[0] as usize + 8;
    for byte in payload_start..bytes.len() {
        for bit in 0..8 {
            let mut flipped = bytes.clone();
            flipped[byte] ^= 1 << bit;
            let mut reader = EventLogReader::from_bytes(flipped).expect("open");
            match reader.next_record() {
                Err(StorageError::CrcMismatch { offset }) => assert_eq!(offset, offsets[0]),
                other => panic!("byte {byte} bit {bit}: {other:?}"),
            }
        }
    }
}

#[test]
fn seek_keeps_records_at_tied_timestamps() {
    let events = vec![
        Event::trade(100, 1, "X", "AAPL", 1, 1),
        Event::trade(200, 2, "X", "AAPL", 2, 1),
        Event::trade(200, 3, "X", "AAPL", 3, 1),
        Event::trade(300, 4, "X", "AAPL", 4, 1),
    ];
    let (log, idx) = write_log_and_index(&events, 2).expect("write");
    let index = IndexReader::from_bytes(&idx).expect("index");
    let with_index = read_events(EventLogReader::from_bytes(log.clone()).expect("log"), Some(&index), Some(200), None).expect("read");
    let without = read_events(EventLogReader::from_bytes(log).expect("log"), None, Some(200), None).expect("read");
    let seqs: Vec<u64> = with_index.iter().map(|e| e.sequence).collect();
    assert_eq!(seqs, vec![2, 3, 4]);
    assert_eq!(with_index, without);
}

#[test]
fn index_and_header_refusals() {
    let mut w = IndexWriter::create(1).expect("writer");
    let mut bytes = w.take_pending();
    bytes[10] = 0;
    assert!(matches!(IndexReader::from_bytes(&bytes), Err(StorageError::InvalidFormat(_))));
    bytes[10] = 1;
    bytes.extend_from_slice(&[0u8; 10]);
    assert!(matches!(IndexReader::from_bytes(&bytes), Err(StorageError::Io(_))));
    let writer = EventLogWriter::create(&vec![String::from("A")], 7).expect("writer");
    let mut writer = writer;
    assert!(matches!(EventLogReader::from_bytes(writer.take_pending()), Err(StorageError::InvalidFormat(_))));
}
