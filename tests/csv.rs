use md_replay::csv_ingest::{ingest_csv_a, ingest_csv_b, ingest_csv_c, parse_csv_a, parse_csv_b, parse_csv_c, IngestError};
use md_replay::engine::read_events;
use md_replay::event::Payload;
use md_replay::eventlog::EventLogReader;
use md_replay::index::IndexReader;
use md_replay::pipeline::write_log_and_index;
use md_replay::printer::format_event;
use md_replay::tick::{Decimal, TickTable};

#[test]
fn csv_a_parses_quote() {
    let text = "timestamp,symbol,bid_px,bid_sz,ask_px,ask_sz\n2024-01-02T10:00:00Z,AAPL,100.00,10,100.01,11\n";
    let ticks = TickTable::uniform(Decimal::new(1, 2)).expect("tick table");
    let events = parse_csv_a(text, "X", &ticks).expect("parse csv a");
    assert_eq!(events.len(), 1);
    match &events[0].payload {
        Payload::Quote { bid_px, ask_px, .. } => {
            assert_eq!((*bid_px, *ask_px), (10000, 10001));
        }
        _ => panic!("expected quote"),
    }
}

#[test]
fn csv_b_parses_trade() {
    let text = "timestamp_ms,symbol,price,size\n1700000000000,MSFT,200.10,5\n";
    let ticks = TickTable::uniform(Decimal::new(1, 2)).expect("tick table");
    let events = parse_csv_b(text, "X", &ticks).expect("parse csv b");
    assert_eq!(events.len(), 1);
    match &events[0].payload {
        Payload::Trade { price_ticks, size } => {
            assert_eq!((*price_ticks, *size), (20010, 5));
        }
        _ => panic!("expected trade"),
    }
}

#[test]
fn csv_c_handles_mixed() {
    let text = "timestamp,symbol,type,price,size,bid_px,bid_sz,ask_px,ask_sz\n1700000000000,AAPL,trade,100.00,4,,, ,\n2024-01-02T10:00:00Z,AAPL,quote,,,99.99,8,100.01,9\n";
    let ticks = TickTable::uniform(Decimal::new(1, 2)).expect("tick table");
    let events = parse_csv_c(text, "X", &ticks).expect("parse csv c");
    assert_eq!(events.len(), 2);
}

#[test]
fn csv_c_details_and_errors() {
    let ticks = TickTable::uniform(Decimal::new(1, 2)).expect("tick table");
    let text = "timestamp,symbol,type,price,size\n1700000000000,AAPL,TRADE,100.00,\n";
    let events = parse_csv_c(text, "X", &ticks).expect("parse");
    assert_eq!(events[0].timestamp_ns, 1_700_000_000_000_000_000);
    assert_eq!(events[0].payload, Payload::Trade { price_ticks: 10000, size: 0 });
    let text = "timestamp,symbol,type,bid_px,ask_px\n2024-01-02T10:00:00Z,AAPL,Quote,99.99,100.01\n";
    let events = parse_csv_c(text, "X", &ticks).expect("parse");
    assert_eq!(events[0].payload, Payload::Quote { bid_px: 9999, bid_sz: 0, ask_px: 10001, ask_sz: 0 });
    let bad = "timestamp,symbol,type\n1,AAPL,cancel\n";
    assert!(matches!(parse_csv_c(bad, "X", &ticks), Err(IngestError::Parse(_))));
    let bad_ts = "timestamp,symbol,type,price\n2024-13-02T10:00:00Z,AAPL,trade,1\n";
    assert!(matches!(parse_csv_c(bad_ts, "X", &ticks), Err(IngestError::Time(_))));
    let bad_size = "timestamp,symbol,type,price,size\n1,AAPL,trade,1,x\n";
    assert!(matches!(parse_csv_c(bad_size, "X", &ticks), Err(IngestError::Parse(_))));
}

#[test]
fn csv_errors_by_kind() {
    let ticks = TickTable::uniform(Decimal::new(1, 2)).expect("tick table");
    let missing = "timestamp,symbol,bid_px\n2024-01-02T10:00:00Z,AAPL,1\n";
    assert!(matches!(parse_csv_a(missing, "X", &ticks), Err(IngestError::Csv(_))));
    let negative = "timestamp,symbol,bid_px,bid_sz,ask_px,ask_sz\n1960-01-02T10:00:00Z,AAPL,1,1,1,1\n";
    assert!(matches!(parse_csv_a(negative, "X", &ticks), Err(IngestError::Parse(_))));
    let bad_price = "timestamp_ms,symbol,price,size\n1,MSFT,abc,5\n";
    assert!(matches!(parse_csv_b(bad_price, "X", &ticks), Err(IngestError::Tick(_))));
    let overflow = "timestamp_ms,symbol,price,size\n18446744073709551,MSFT,1,5\n";
    assert!(matches!(parse_csv_b(overflow, "X", &ticks), Err(IngestError::Parse(_))));
    let ragged = "timestamp_ms,symbol,price,size\n1,MSFT,1\n";
    assert!(matches!(parse_csv_b(ragged, "X", &ticks), Err(IngestError::Csv(_))));
    assert!(parse_csv_b("", "X", &ticks).expect("empty").is_empty());
    let two = "timestamp_ms,symbol,price,size\n2,B,1,1\n1,A,2,2\n";
    let evs = ingest_csv_b(two, "X", &ticks).expect("ingest");
    assert_eq!(evs[0].symbol, "A");
    assert_eq!(evs[0].sequence, 1);
    assert_eq!(evs[1].sequence, 2);
    let c = ingest_csv_c("timestamp,symbol,type,price\n5,A,trade,1\n", "X", &ticks).expect("c");
    assert_eq!(c[0].timestamp_ns, 5_000_000);
}

#[test]
fn csv_to_replay_matches_golden() {
    let text = "timestamp,symbol,bid_px,bid_sz,ask_px,ask_sz\n2024-01-02T10:00:00Z,AAPL,100.00,10,100.02,11\n";
    let ticks = TickTable::uniform(Decimal::new(1, 2)).expect("tick table");
    let events = ingest_csv_a(text, "X", &ticks).expect("ingest csv");
    let (log, idx) = write_log_and_index(&events, 16).expect("write");
    let index = IndexReader::from_bytes(&idx).expect("index");
    let replayed = read_events(EventLogReader::from_bytes(log).expect("log"), Some(&index), None, None).expect("read events");
    let lines = replayed.iter().map(format_event).collect::<Vec<_>>().join("\n");
    let golden = "1 1704189600000000000 X AAPL quote bid=10000x10 ask=10002x11";
    assert_eq!(lines, golden);
}
