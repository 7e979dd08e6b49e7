use md_replay::engine::read_events;
use md_replay::eventlog::EventLogReader;
use md_replay::index::IndexReader;
use md_replay::packets::ingest_pcap;
use md_replay::pipeline::write_log_and_index;
use md_replay::synth::{generate_pcap, GenPcapError};

fn frames_of(capture: &[u8]) -> Vec<Vec<u8>> {
    let mut frames = Vec::new();
    let mut pos = 24;
    while pos + 16 <= capture.len() {
        let len = u32::from_le_bytes(capture[pos + 8..pos + 12].try_into().unwrap()) as usize;
        frames.push(capture[pos + 16..pos + 16 + len].to_vec());
        pos += 16 + len;
    }
    frames
}

#[test]
fn pcap_ingest_replay_is_deterministic() {
    let capture = generate_pcap(&vec![String::from("AAPL"), String::from("MSFT")], 200, 7).expect("generate pcap");
    let out = ingest_pcap(&frames_of(&capture), "X");
    assert!(!out.events.is_empty());
    assert!(!out.issues.is_empty());

    let (log, idx) = write_log_and_index(&out.events, 16).expect("write");
    let index = IndexReader::from_bytes(&idx).expect("index");
    let run1 = read_events(EventLogReader::from_bytes(log.clone()).expect("log"), Some(&index), None, None).expect("read events");
    let run2 = read_events(EventLogReader::from_bytes(log).expect("log"), Some(&index), None, None).expect("read events");
    assert_eq!(run1, run2);
}

#[test]
fn generated_capture_shape() {
    let syms = vec![String::from("AAPL"), String::from("MSFT")];
    let a = generate_pcap(&syms, 300, 42).expect("a");
    let b = generate_pcap(&syms, 300, 42).expect("b");
    assert_eq!(a, b);
    assert_eq!(&a[..4], &0xa1b2c3d4u32.to_le_bytes());
    let frames = frames_of(&a);
    assert_eq!(frames.len(), 300);
    let out = ingest_pcap(&frames, "X");
    // packets 0, 137 and 274 carry malformed payloads
    assert_eq!(out.issues.len(), 3);
    assert_eq!(out.events.len(), 297);
    assert!(out.issues.iter().all(|i| [1u64, 138, 275].contains(&i.packet_index)));
    assert!(matches!(generate_pcap(&Vec::new(), 1, 1), Err(GenPcapError::EmptySymbols)));
    let empty = generate_pcap(&syms, 0, 1).expect("empty");
    assert_eq!(empty.len(), 24);
}
