use md_replay::dashboard::{build_meta, deterministic_report, mismatch_reason, select_events, to_row, DataQuery};
use md_replay::engine::{PaceAction, Pacer, StreamState};
use md_replay::event::{Event, QuoteTicks};
use md_replay::proto::{from_proto, to_proto, MessagePayload, Trade};

fn events() -> Vec<Event> {
    vec![
        Event::trade(100, 1, "X", "aapl", 10, 1),
        Event::quote(200, 2, "X", "MSFT", QuoteTicks { bid_px: 1, bid_sz: 2, ask_px: 3, ask_sz: 4 }),
        Event::trade(300, 3, "X", "AAPL", 11, 1),
        Event::trade(400, 4, "X", "AAPL", 12, 1),
    ]
}

#[test]
fn window_selection() {
    let evs = events();
    let q = DataQuery { symbol: Some("AAPL".into()), from_seq: None, to_seq: None, limit: None };
    let seqs: Vec<u64> = select_events(&evs, &q, 500).iter().map(|e| e.sequence).collect();
    assert_eq!(seqs, vec![1, 3, 4]);
    let q = DataQuery { symbol: None, from_seq: Some(2), to_seq: Some(3), limit: None };
    let seqs: Vec<u64> = select_events(&evs, &q, 500).iter().map(|e| e.sequence).collect();
    assert_eq!(seqs, vec![2, 3]);
    let q = DataQuery { symbol: None, from_seq: None, to_seq: None, limit: Some(0) };
    assert_eq!(select_events(&evs, &q, 500).len(), 1);
    let q = DataQuery { symbol: None, from_seq: None, to_seq: None, limit: None };
    assert_eq!(select_events(&evs, &q, 2).len(), 2);
}

#[test]
fn meta_summary() {
    let m = build_meta(&events());
    assert_eq!((m.events, m.trades, m.quotes), (4, 3, 1));
    assert_eq!((m.first_timestamp_ns, m.last_timestamp_ns), (100, 400));
    assert_eq!((m.first_sequence, m.last_sequence), (1, 4));
    assert_eq!(m.symbols, vec!["AAPL".to_string(), "MSFT".to_string(), "aapl".to_string()]);
    let empty = build_meta(&[]);
    assert_eq!((empty.events, empty.first_timestamp_ns, empty.last_sequence), (0, 0, 0));
    assert!(empty.symbols.is_empty());
}

#[test]
fn rows_and_reasons() {
    let evs = events();
    let row = to_row(evs[1].clone());
    assert_eq!(row.kind, "quote");
    assert_eq!((row.bid_px, row.ask_sz, row.price_ticks), (Some(1), Some(4), None));
    let row = to_row(evs[0].clone());
    assert_eq!((row.kind, row.price_ticks, row.size, row.bid_px), ("trade", Some(10), Some(1), None));
    assert_eq!(mismatch_reason(&evs[2], &evs[3]), "sequence mismatch");
    let mut other = evs[2].clone();
    other.venue = "Y".into();
    assert_eq!(mismatch_reason(&evs[2], &other), "venue mismatch");
    other = evs[2].clone();
    other.timestamp_ns = 1;
    assert_eq!(mismatch_reason(&evs[2], &other), "timestamp mismatch");
    assert_eq!(mismatch_reason(&evs[2], &evs[2]), "event mismatch");
}

#[test]
fn wire_messages_round_trip() {
    for e in events() {
        let msg = to_proto(&e);
        assert_eq!(from_proto(&msg), Some(e.clone()));
    }
    let msg = to_proto(&events()[0]);
    assert_eq!(msg.payload, Some(MessagePayload::Trade(Trade { price_ticks: 10, size: 1 })));
    let mut none = msg.clone();
    none.payload = None;
    assert_eq!(from_proto(&none), None);
}

#[test]
fn pacing_decisions() {
    let mut p = Pacer::new(false, false);
    assert_eq!(p.next_event(1_000), PaceAction::WaitThenEmit { offset_ns: 0 });
    assert_eq!(p.next_event(1_500), PaceAction::WaitThenEmit { offset_ns: 500 });
    assert_eq!(p.next_event(900), PaceAction::WaitThenEmit { offset_ns: 0 });
    p.delivered(false);
    assert_eq!(p.state, StreamState::Aborted);
    p.finish();
    assert_eq!(p.state, StreamState::Aborted);
    let mut s = Pacer::new(false, true);
    assert_eq!(s.next_event(5), PaceAction::YieldThenEmit);
    s.delivered(true);
    s.finish();
    assert_eq!(s.state, StreamState::Done);
    let mut m = Pacer::new(true, true);
    assert_eq!(m.next_event(5), PaceAction::Emit);
}

#[test]
fn determinism_report_finds_first_difference() {
    let a = vec!["x".to_string(), "y".to_string(), "z".to_string()];
    let same = deterministic_report(&a, &a.clone());
    assert!(same.ok);
    assert_eq!((same.lines, same.first_mismatch_line), (3, None));
    let b = vec!["x".to_string(), "q".to_string(), "z".to_string()];
    let diff = deterministic_report(&a, &b);
    assert!(!diff.ok);
    assert_eq!(diff.first_mismatch_line, Some(2));
    let short = vec!["x".to_string()];
    assert_eq!(deterministic_report(&a, &short).first_mismatch_line, Some(2));
}
