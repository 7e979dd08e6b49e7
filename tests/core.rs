use md_replay::dashboard::parser_diff;
use md_replay::event::{assign_sequences, Event, EventType, Payload, PendingEvent, QuoteTicks};
use md_replay::tick::{Decimal, TickConfigFile, TickError, TickTable};

#[test]
fn rounds_half_away_from_zero() {
    let table = TickTable::uniform(Decimal::new(5, 2)).expect("tick table");
    assert_eq!(
        table.price_str_to_ticks("AAPL", "1.025").expect("ticks"),
        21
    );
    assert_eq!(
        table.price_str_to_ticks("AAPL", "1.024").expect("ticks"),
        20
    );
    assert_eq!(
        table.price_str_to_ticks("AAPL", "-1.025").expect("ticks"),
        -21
    );
}

#[test]
fn symbol_override_works() {
    let cfg = TickConfigFile {
        default_tick: "0.01".into(),
        symbols: vec![(String::from("MSFT"), String::from("0.05"))],
    };
    let table = TickTable::from_config(cfg).expect("tick table");
    assert_eq!(
        table.price_str_to_ticks("AAPL", "100.01").expect("ticks"),
        10001
    );
    assert_eq!(
        table.price_str_to_ticks("MSFT", "100.01").expect("ticks"),
        2000
    );
}

#[test]
fn parser_diff_detects_change() {
    let left = vec![Event::trade(1, 1, "X", "AAPL", 100, 1)];
    let right = vec![Event::trade(1, 1, "X", "AAPL", 101, 1)];
    let diff = parser_diff(&left, &right);
    assert!(!diff.ok);
    assert!(diff.first_mismatch.is_some());
}

#[test]
fn parser_diff_reports_reason_and_missing() {
    let left = vec![Event::trade(1, 1, "X", "AAPL", 100, 1)];
    let right = vec![Event::trade(1, 1, "X", "AAPL", 101, 1)];
    let diff = parser_diff(&left, &right);
    let m = diff.first_mismatch.expect("mismatch");
    assert_eq!(m.index, 1);
    assert_eq!(m.reason, "payload mismatch");
    assert_eq!(m.left_line.as_deref(), Some("1 1 X AAPL trade px=100 sz=1"));
    let same = parser_diff(&left, &left);
    assert!(same.ok);
    assert_eq!(same.matched_prefix, 1);
    let longer = vec![Event::trade(1, 1, "X", "AAPL", 100, 1), Event::trade(2, 2, "X", "AAPL", 100, 1)];
    let d2 = parser_diff(&left, &longer);
    assert!(!d2.ok);
    assert_eq!(d2.matched_prefix, 1);
    assert_eq!(d2.first_mismatch.expect("missing").reason, "left missing event");
}

#[test]
fn tick_errors_and_extremes() {
    assert!(matches!(TickTable::uniform(Decimal::new(0, 2)), Err(TickError::NonPositiveTick)));
    let table = TickTable::uniform(Decimal::new(1, 2)).expect("tick table");
    assert!(matches!(table.price_str_to_ticks("A", "abc"), Err(TickError::InvalidDecimal(_))));
    assert!(matches!(
        table.price_str_to_ticks("A", "1000000000000000000"),
        Err(TickError::Overflow)
    ));
    assert_eq!(table.price_str_to_ticks("A", "200.10").expect("ticks"), 20010);
    assert_eq!(table.price_str_to_ticks("A", "0.005").expect("ticks"), 1);
    assert_eq!(table.price_str_to_ticks("A", "-0.005").expect("ticks"), -1);
    assert_eq!(table.price_str_to_ticks("A", "0.0049").expect("ticks"), 0);
    let coarse = TickTable::uniform(Decimal::new(25, 0)).expect("tick table");
    assert_eq!(coarse.price_str_to_ticks("A", "37.5").expect("ticks"), 2);
    assert_eq!(coarse.price_str_to_ticks("A", "37.4").expect("ticks"), 1);
    let p = table.ticks_to_price("A", 10001);
    assert_eq!((p.mantissa, p.scale), (10001, 2));
    let cfg = TickConfigFile { default_tick: "-1".into(), symbols: vec![] };
    assert!(matches!(TickTable::from_config(cfg), Err(TickError::NonPositiveTick)));
}

#[test]
fn tick_rounding_stays_within_half_a_tick() {
    let table = TickTable::uniform(Decimal::new(5, 2)).expect("tick table");
    for (text, milli) in [("1.025", 1025i64), ("1.024", 1024), ("-1.026", -1026), ("7.77", 7770)] {
        let ticks = table.price_str_to_ticks("Z", text).expect("ticks");
        let diff = (ticks * 50 - milli).abs();
        assert!(2 * diff <= 50, "{text}");
    }
}

fn pending(ts: u64, order: u64, sym: &str, venue: &str, px: i64) -> PendingEvent {
    PendingEvent {
        timestamp_ns: ts,
        venue: venue.to_string(),
        symbol: sym.to_string(),
        payload: Payload::Trade { price_ticks: px, size: 1 },
        ingest_order: order,
    }
}

#[test]
fn sequences_follow_the_sort_key() {
    let input = vec![
        pending(20, 0, "B", "X", 1),
        pending(10, 5, "A", "X", 2),
        pending(10, 1, "B", "X", 3),
        pending(10, 1, "A", "Y", 4),
        pending(10, 1, "A", "X", 5),
    ];
    let out = assign_sequences(input);
    let seqs: Vec<u64> = out.iter().map(|e| e.sequence).collect();
    assert_eq!(seqs, vec![1, 2, 3, 4, 5]);
    let prices: Vec<i64> = out
        .iter()
        .map(|e| match e.payload {
            Payload::Trade { price_ticks, .. } => price_ticks,
            _ => 0,
        })
        .collect();
    assert_eq!(prices, vec![5, 4, 3, 2, 1]);
    assert!(out.iter().all(|e| e.event_type == EventType::Trade));
    assert!(assign_sequences(Vec::new()).is_empty());
}

#[test]
fn quote_constructor_sets_type() {
    let e = Event::quote(1, 2, "X", "AAPL", QuoteTicks { bid_px: 1, bid_sz: 2, ask_px: 3, ask_sz: 4 });
    assert_eq!(e.event_type, EventType::Quote);
    assert_eq!(e.payload, Payload::Quote { bid_px: 1, bid_sz: 2, ask_px: 3, ask_sz: 4 });
    let p = pending(5, 0, "S", "V", 9);
    let ev = p.into_event(7);
    assert_eq!(ev.sequence, 7);
    assert_eq!(ev.event_type, EventType::Trade);
}
