use md_replay::event::Payload;
use md_replay::itch::{parse_message, MockItchMessage, Side};
use md_replay::packets::{extract_udp_payload, ingest_pcap};

#[test]
fn parse_trade() {
    let mut msg = Vec::new();
    msg.extend_from_slice(&123u64.to_be_bytes());
    msg.extend_from_slice(&2u32.to_be_bytes());
    msg.extend_from_slice(b"AAPL    ");
    msg.extend_from_slice(&100i64.to_be_bytes());
    msg.extend_from_slice(&7i64.to_be_bytes());
    let parsed = parse_message(&msg).expect("parse trade");
    assert_eq!(
        parsed,
        MockItchMessage::Trade {
            timestamp_ns: 123,
            symbol: String::from("AAPL"),
            price_i64: 100,
            size_i64: 7,
        }
    );
}

#[test]
fn parse_add_order() {
    let mut msg = Vec::new();
    msg.extend_from_slice(&123u64.to_be_bytes());
    msg.extend_from_slice(&1u32.to_be_bytes());
    msg.extend_from_slice(b"MSFT    ");
    msg.push(0);
    msg.extend_from_slice(&200i64.to_be_bytes());
    msg.extend_from_slice(&9i64.to_be_bytes());
    let parsed = parse_message(&msg).expect("parse add order");
    assert_eq!(
        parsed,
        MockItchMessage::AddOrder {
            timestamp_ns: 123,
            symbol: String::from("MSFT"),
            side: Side::Bid,
            price_i64: 200,
            size_i64: 9,
        }
    );
}

fn trade_msg(ts: u64, sym: &[u8; 8], px: i64, sz: i64) -> Vec<u8> {
    let mut msg = Vec::new();
    msg.extend_from_slice(&ts.to_be_bytes());
    msg.extend_from_slice(&2u32.to_be_bytes());
    msg.extend_from_slice(sym);
    msg.extend_from_slice(&px.to_be_bytes());
    msg.extend_from_slice(&sz.to_be_bytes());
    msg
}

fn add_msg(ts: u64, sym: &[u8; 8], side: u8, px: i64, sz: i64) -> Vec<u8> {
    let mut msg = Vec::new();
    msg.extend_from_slice(&ts.to_be_bytes());
    msg.extend_from_slice(&1u32.to_be_bytes());
    msg.extend_from_slice(sym);
    msg.push(side);
    msg.extend_from_slice(&px.to_be_bytes());
    msg.extend_from_slice(&sz.to_be_bytes());
    msg
}

fn frame(payload: &[u8]) -> Vec<u8> {
    let mut f = vec![0u8; 12];
    f.extend_from_slice(&0x0800u16.to_be_bytes());
    let mut ip = vec![0x45u8, 0, 0, 0, 0, 0, 0, 0, 64, 17, 0, 0, 10, 1, 1, 1, 239, 1, 2, 3];
    let total = (20 + 8 + payload.len()) as u16;
    ip[2..4].copy_from_slice(&total.to_be_bytes());
    f.extend_from_slice(&ip);
    f.extend_from_slice(&40000u16.to_be_bytes());
    f.extend_from_slice(&50000u16.to_be_bytes());
    f.extend_from_slice(&((8 + payload.len()) as u16).to_be_bytes());
    f.extend_from_slice(&[0, 0]);
    f.extend_from_slice(payload);
    f
}

#[test]
fn message_errors_name_their_field() {
    let err = parse_message(&[1, 2, 3]).expect_err("short");
    assert_eq!((err.offset, err.detail.as_str()), (0, "short packet need 8 bytes"));
    let mut bad_type = trade_msg(1, b"AAPL    ", 1, 1);
    bad_type[11] = 9;
    let err = parse_message(&bad_type).expect_err("type");
    assert_eq!((err.offset, err.detail.as_str()), (8, "unknown message type 9"));
    let mut long = trade_msg(1, b"AAPL    ", 1, 1);
    long.push(0);
    let err = parse_message(&long).expect_err("trailing");
    assert_eq!((err.offset, err.detail.as_str()), (36, "trailing bytes"));
    let mut side = add_msg(1, b"AAPL    ", 0, 1, 1);
    side[20] = 7;
    let err = parse_message(&side).expect_err("side");
    assert_eq!((err.offset, err.detail.as_str()), (20, "invalid side 7"));
    let mut sym = trade_msg(1, b"AAPL    ", 1, 1);
    sym[13] = 0xC3;
    let err = parse_message(&sym).expect_err("ascii");
    assert_eq!((err.offset, err.detail.as_str()), (12, "symbol is not valid ASCII"));
    let short_add = &add_msg(1, b"AB\0\0\0\0\0\0", 1, 5, 6)[..30];
    let err = parse_message(short_add).expect_err("short add");
    assert_eq!((err.offset, err.detail.as_str()), (29, "short packet need 8 bytes"));
    let ok = parse_message(&add_msg(1, b"AB\0\0\0\0\0\0", 1, -5, 6)).expect("nul padded");
    assert_eq!(
        ok,
        MockItchMessage::AddOrder { timestamp_ns: 1, symbol: "AB".into(), side: Side::Ask, price_i64: -5, size_i64: 6 }
    );
}

#[test]
fn rejects_short_ethernet() {
    let err = extract_udp_payload(&[1, 2, 3]).expect_err("must fail");
    assert_eq!(err.0, 0);
}

#[test]
fn frame_checks_report_offsets() {
    let payload = trade_msg(1, b"AAPL    ", 1, 1);
    let good = frame(&payload);
    assert_eq!(extract_udp_payload(&good).expect("payload"), payload);
    let mut ether = good.clone();
    ether[12] = 0x86;
    ether[13] = 0xdd;
    let err = extract_udp_payload(&ether).expect_err("ethertype");
    assert_eq!((err.0, err.1.as_str()), (12, "unsupported ethertype 0x86dd"));
    let mut v6 = good.clone();
    v6[14] = 0x65;
    let err = extract_udp_payload(&v6).expect_err("version");
    assert_eq!((err.0, err.1.as_str()), (14, "unsupported ip version 6"));
    let mut tcp = good.clone();
    tcp[23] = 6;
    let err = extract_udp_payload(&tcp).expect_err("proto");
    assert_eq!((err.0, err.1.as_str()), (23, "non-udp protocol 6"));
    let cut = &good[..good.len() - 1];
    let err = extract_udp_payload(cut).expect_err("truncated");
    assert_eq!((err.0, err.1.as_str()), (38, "truncated udp payload"));
    let mut options = good[..14].to_vec();
    let mut ip = good[14..34].to_vec();
    ip[0] = 0x46;
    options.extend_from_slice(&ip);
    options.extend_from_slice(&[1, 2, 3, 4]);
    options.extend_from_slice(&good[34..]);
    assert_eq!(extract_udp_payload(&options).expect("options skipped"), payload);
}

#[test]
fn malformed_frame_is_isolated() {
    let frames = vec![
        frame(&add_msg(30, b"AAPL    ", 0, 100, 5)),
        frame(&[1, 2, 3]),
        frame(&add_msg(20, b"AAPL    ", 1, 101, 6)),
        frame(&trade_msg(10, b"MSFT    ", 50, 2)),
        vec![0u8; 5],
    ];
    let out = ingest_pcap(&frames, "X");
    assert_eq!(out.events.len(), 3);
    assert_eq!(out.issues.len(), 2);
    assert_eq!(out.issues[0].packet_index, 2);
    assert_eq!(out.issues[0].offset, 0);
    assert_eq!(out.issues[0].detail, "short packet need 8 bytes");
    assert_eq!(out.issues[1].packet_index, 5);
    assert_eq!(out.issues[1].detail, "short ethernet header");
    let seqs: Vec<u64> = out.events.iter().map(|e| e.sequence).collect();
    assert_eq!(seqs, vec![1, 2, 3]);
    assert_eq!(out.events[0].symbol, "MSFT");
    assert_eq!(out.events[0].payload, Payload::Trade { price_ticks: 50, size: 2 });
    assert_eq!(out.events[1].timestamp_ns, 20);
    assert_eq!(
        out.events[1].payload,
        Payload::Quote { bid_px: 100, bid_sz: 5, ask_px: 101, ask_sz: 6 }
    );
    assert_eq!(
        out.events[2].payload,
        Payload::Quote { bid_px: 100, bid_sz: 5, ask_px: 0, ask_sz: 0 }
    );
    assert!(out.events.iter().all(|e| e.venue == "X"));
}
