//! UDP payload extraction from Ethernet frames, and the ingest of a packet
//! capture's frames into sequenced events.
use vstd::prelude::*;
use crate::bytes_order::str_eq;
use crate::event::{assign_sequences, sequenced_from, Event, Payload, PendingEvent};
use crate::itch::{fault_text, message_spec, parse_message, MessageView, MockItchMessage, Side};
use crate::num_bytes::{be_nat, read_be};
use crate::text::{dec_text, hex_text, push_hex4, push_u64};

verus! {

/// What is wrong with a frame.
pub enum FrameFault {
    ShortEthernet,
    EtherType(u16),
    ShortIpv4,
    IpVersion(u8),
    BadIhl,
    TruncatedIpv4,
    NotUdp(u8),
    ShortUdp,
    BadUdpLength,
    TruncatedUdp,
}

pub open spec fn frame_fault_text(f: FrameFault) -> Seq<char> {
    match f {
        FrameFault::ShortEthernet => "short ethernet header"@,
        FrameFault::EtherType(t) => "unsupported ethertype 0x"@ + hex_text(t as nat, 4),
        FrameFault::ShortIpv4 => "short ipv4 header"@,
        FrameFault::IpVersion(v) => "unsupported ip version "@ + dec_text(v as nat),
        FrameFault::BadIhl => "invalid ipv4 ihl"@,
        FrameFault::TruncatedIpv4 => "truncated ipv4 header"@,
        FrameFault::NotUdp(p) => "non-udp protocol "@ + dec_text(p as nat),
        FrameFault::ShortUdp => "short udp header"@,
        FrameFault::BadUdpLength => "invalid udp length"@,
        FrameFault::TruncatedUdp => "truncated udp payload"@,
    }
}

/// Where the UDP payload of an Ethernet II / IPv4 frame lies, as a byte range,
/// or the offset and fault of the first check that fails.
pub open spec fn udp_spec(d: Seq<u8>) -> Result<(int, int), (int, FrameFault)> {
    if d.len() < 14 {
        Err((0, FrameFault::ShortEthernet))
    } else if be_nat(d.subrange(12, 14)) != 0x0800 {
        Err((12, FrameFault::EtherType(be_nat(d.subrange(12, 14)) as u16)))
    } else if d.len() < 34 {
        Err((14, FrameFault::ShortIpv4))
    } else {
        let version = d[14] / 16;
        let ihl = (d[14] % 16) * 4;
        if version != 4 {
            Err((14, FrameFault::IpVersion(version)))
        } else if ihl < 20 {
            Err((14, FrameFault::BadIhl))
        } else if d.len() < 14 + ihl {
            Err((14, FrameFault::TruncatedIpv4))
        } else if d[23] != 17 {
            Err((23, FrameFault::NotUdp(d[23])))
        } else {
            let udp = 14 + ihl;
            if d.len() < udp + 8 {
                Err((udp, FrameFault::ShortUdp))
            } else {
                let udp_len = be_nat(d.subrange(udp + 4, udp + 6));
                if udp_len < 8 {
                    Err((udp + 4, FrameFault::BadUdpLength))
                } else if d.len() < udp + udp_len {
                    Err((udp + 4, FrameFault::TruncatedUdp))
                } else {
                    Ok((udp + 8, udp + udp_len))
                }
            }
        }
    }
}

fn frame_error(offset: usize, f: &str) -> (r: (usize, String))
    ensures
        r.0 == offset,
        r.1@ == f@,
{
    (offset, f.to_owned())
}

/// The UDP payload of an Ethernet II frame carrying IPv4; IPv4 options are
/// skipped. A failure gives the offset in the frame and a reason.
pub fn extract_udp_payload(data: &[u8]) -> (r: Result<Vec<u8>, (usize, String)>)
    ensures
        match udp_spec(data@) {
            Ok((a, b)) => r matches Ok(p) && p@ == data@.subrange(a, b),
            Err((off, f)) => r matches Err(e) && e.0 == off && e.1@ == frame_fault_text(f),
        },
{
    let len = data.len();
    if len < 14 {
        proof {
            reveal_strlit("short ethernet header");
        }
        return Err(frame_error(0, "short ethernet header"));
    }
    let ethertype = read_be(data, 12, 2);
    if ethertype != 0x0800 {
        let mut s = String::from_str("unsupported ethertype 0x");
        push_hex4(&mut s, ethertype);
        proof {
            reveal_strlit("unsupported ethertype 0x");
            crate::num_bytes::lemma_pow256_facts(2);
            lemma_be_bound2(data@.subrange(12, 14));
        }
        return Err((12, s));
    }
    let ip_offset: usize = 14;
    if len < ip_offset + 20 {
        proof {
            reveal_strlit("short ipv4 header");
        }
        return Err(frame_error(ip_offset, "short ipv4 header"));
    }
    let version_ihl = data[ip_offset];
    let version = version_ihl / 16;
    let ihl = (version_ihl % 16) as usize * 4;
    if version != 4 {
        let mut s = String::from_str("unsupported ip version ");
        push_u64(&mut s, version as u64);
        proof {
            reveal_strlit("unsupported ip version ");
        }
        return Err((ip_offset, s));
    }
    if ihl < 20 {
        proof {
            reveal_strlit("invalid ipv4 ihl");
        }
        return Err(frame_error(ip_offset, "invalid ipv4 ihl"));
    }
    if len < ip_offset + ihl {
        proof {
            reveal_strlit("truncated ipv4 header");
        }
        return Err(frame_error(ip_offset, "truncated ipv4 header"));
    }
    let proto = data[ip_offset + 9];
    if proto != 17 {
        let mut s = String::from_str("non-udp protocol ");
        push_u64(&mut s, proto as u64);
        proof {
            reveal_strlit("non-udp protocol ");
        }
        return Err((ip_offset + 9, s));
    }
    let udp_offset = ip_offset + ihl;
    if len < udp_offset + 8 {
        proof {
            reveal_strlit("short udp header");
        }
        return Err(frame_error(udp_offset, "short udp header"));
    }
    let udp_len = read_be(data, udp_offset + 4, 2) as usize;
    proof {
        crate::num_bytes::lemma_pow256_facts(2);
        lemma_be_bound2(data@.subrange(udp_offset + 4, udp_offset + 6));
    }
    if udp_len < 8 {
        proof {
            reveal_strlit("invalid udp length");
        }
        return Err(frame_error(udp_offset + 4, "invalid udp length"));
    }
    if len < udp_offset + udp_len {
        proof {
            reveal_strlit("truncated udp payload");
        }
        return Err(frame_error(udp_offset + 4, "truncated udp payload"));
    }
    let mut out: Vec<u8> = Vec::new();
    let mut i: usize = udp_offset + 8;
    while i < udp_offset + udp_len
        invariant
            udp_offset + 8 <= i <= udp_offset + udp_len <= len,
            len == data@.len(),
            out@ == data@.subrange(udp_offset + 8, i as int),
        decreases udp_offset + udp_len - i,
    {
        out.push(data[i]);
        i = i + 1;
        proof {
            assert(out@ =~= data@.subrange(udp_offset + 8, i as int));
        }
    }
    Ok(out)
}

proof fn lemma_be_bound2(s: Seq<u8>)
    requires
        s.len() == 2,
    ensures
        be_nat(s) < 0x1_0000,
{
    let t = s.drop_last();
    assert(t.drop_last() =~= Seq::<u8>::empty());
    assert(be_nat(t.drop_last()) == 0);
    assert(t.last() == s[0]);
    assert(be_nat(t) == s[0]);
    assert(be_nat(s) == s[0] * 256 + s[1]);
}


/// One symbol's top of book.
#[derive(Debug, Clone, Copy, PartialEq, Eq, Structural)]
pub struct TopBook {
    pub bid_px: i64,
    pub bid_sz: i64,
    pub ask_px: i64,
    pub ask_sz: i64,
}

/// A frame that could not be decoded: its 1-based index in the capture, the
/// offset of the failing field and the reason.
#[derive(Debug, Clone)]
pub struct ParseIssue {
    pub packet_index: u64,
    pub offset: usize,
    pub detail: String,
}

/// The sequenced events of a capture and the frames that failed.
#[derive(Debug)]
pub struct PcapIngestOutput {
    pub events: Vec<Event>,
    pub issues: Vec<ParseIssue>,
}

pub open spec fn issue_view(i: ParseIssue) -> (int, int, Seq<char>) {
    (i.packet_index as int, i.offset as int, i.detail@)
}

/// The message a frame carries, or the offset and text of its first fault.
pub open spec fn frame_outcome(f: Seq<u8>) -> Result<MessageView, (int, Seq<char>)> {
    match udp_spec(f) {
        Err((o, ff)) => Err((o, frame_fault_text(ff))),
        Ok((a, b)) => match message_spec(f.subrange(a, b)) {
            Ok(m) => Ok(m),
            Err((o, pf)) => Err((o, fault_text(pf))),
        },
    }
}

/// The messages of the frames that decode, in capture order.
pub open spec fn parsed_messages(frames: Seq<Seq<u8>>) -> Seq<MessageView>
    decreases frames.len(),
{
    if frames.len() == 0 {
        Seq::empty()
    } else {
        let prev = parsed_messages(frames.drop_last());
        match frame_outcome(frames.last()) {
            Ok(m) => prev.push(m),
            Err(_) => prev,
        }
    }
}

/// The issues of the frames that fail, in capture order, with 1-based indexes.
pub open spec fn parse_issues(frames: Seq<Seq<u8>>) -> Seq<(int, int, Seq<char>)>
    decreases frames.len(),
{
    if frames.len() == 0 {
        Seq::empty()
    } else {
        let prev = parse_issues(frames.drop_last());
        match frame_outcome(frames.last()) {
            Ok(_) => prev,
            Err((o, t)) => prev.push((frames.len() as int, o, t)),
        }
    }
}

pub open spec fn empty_book() -> TopBook {
    TopBook { bid_px: 0, bid_sz: 0, ask_px: 0, ask_sz: 0 }
}

/// The top of book of `sym` after the add orders among `h`: the latest bid and
/// the latest ask, zero where there was none.
pub open spec fn book_after(h: Seq<MessageView>, sym: Seq<char>) -> TopBook
    decreases h.len(),
{
    if h.len() == 0 {
        empty_book()
    } else {
        let prev = book_after(h.drop_last(), sym);
        match h.last() {
            MessageView::AddOrder { symbol, side, price_i64, size_i64, .. } => if symbol == sym {
                match side {
                    Side::Bid => TopBook { bid_px: price_i64, bid_sz: size_i64, ..prev },
                    Side::Ask => TopBook { ask_px: price_i64, ask_sz: size_i64, ..prev },
                }
            } else {
                prev
            },
            _ => prev,
        }
    }
}

pub open spec fn message_ts(m: MessageView) -> u64 {
    match m {
        MessageView::AddOrder { timestamp_ns, .. } => timestamp_ns,
        MessageView::Trade { timestamp_ns, .. } => timestamp_ns,
    }
}

pub open spec fn message_symbol(m: MessageView) -> Seq<char> {
    match m {
        MessageView::AddOrder { symbol, .. } => symbol,
        MessageView::Trade { symbol, .. } => symbol,
    }
}

/// The payload of the k-th decoded message: a trade as is, an add order as a
/// quote of its symbol's book once it is applied.
pub open spec fn message_payload(h: Seq<MessageView>, k: int) -> Payload {
    match h[k] {
        MessageView::Trade { price_i64, size_i64, .. } => Payload::Trade {
            price_ticks: price_i64,
            size: size_i64,
        },
        MessageView::AddOrder { symbol, .. } => {
            let b = book_after(h.subrange(0, k + 1), symbol);
            Payload::Quote { bid_px: b.bid_px, bid_sz: b.bid_sz, ask_px: b.ask_px, ask_sz: b.ask_sz }
        },
    }
}

/// The pending event of the k-th decoded message; ingest order counts from 0.
pub open spec fn pending_matches(p: PendingEvent, h: Seq<MessageView>, k: int, venue: Seq<char>) -> bool {
    &&& p.timestamp_ns == message_ts(h[k])
    &&& p.venue@ == venue
    &&& p.symbol@ == message_symbol(h[k])
    &&& p.payload == message_payload(h, k)
    &&& p.ingest_order == k
}

pub open spec fn frames_view(frames: Seq<Vec<u8>>) -> Seq<Seq<u8>> {
    frames.map_values(|f: Vec<u8>| f@)
}

/// The pending events of a capture's frames.
pub open spec fn ingested_pending(p: Seq<PendingEvent>, frames: Seq<Seq<u8>>, venue: Seq<char>) -> bool {
    let h = parsed_messages(frames);
    &&& p.len() == h.len()
    &&& forall|k: int| 0 <= k < h.len() ==> pending_matches(#[trigger] p[k], h, k, venue)
}

fn find_book(books: &Vec<(String, TopBook)>, sym: &str) -> (r: Option<usize>)
    ensures
        r matches Some(k) ==> k < books@.len() && books@[k as int].0@ == sym@,
        r is None ==> forall|j: int| 0 <= j < books@.len() ==> (#[trigger] books@[j]).0@ != sym@,
{
    let mut k: usize = 0;
    while k < books.len()
        invariant
            k <= books@.len(),
            forall|j: int| 0 <= j < k ==> (#[trigger] books@[j]).0@ != sym@,
        decreases books.len() - k,
    {
        if str_eq(books[k].0.as_str(), sym) {
            return Some(k);
        }
        k = k + 1;
    }
    None
}

/// Decodes a capture's frames. Frames that fail are recorded as issues and do
/// not advance the ingest order; add orders update their symbol's top of book
/// and become quotes of it; the pending events are then sequenced.
pub fn ingest_pcap(frames: &Vec<Vec<u8>>, venue: &str) -> (r: PcapIngestOutput)
    ensures
        r.issues@.map_values(|i: ParseIssue| issue_view(i)) == parse_issues(frames_view(frames@)),
        exists|p: Seq<PendingEvent>|
            ingested_pending(p, frames_view(frames@), venue@) && #[trigger] sequenced_from(p, r.events@),
{
    let ghost fs = frames_view(frames@);
    let n = frames.len();
    let mut pending: Vec<PendingEvent> = Vec::new();
    let mut issues: Vec<ParseIssue> = Vec::new();
    let mut books: Vec<(String, TopBook)> = Vec::new();
    let mut i: usize = 0;
    proof {
        assert(fs.subrange(0, 0) =~= Seq::<Seq<u8>>::empty());
    }
    while i < n
        invariant
            n == frames@.len(),
            fs == frames_view(frames@),
            i <= n,
            issues@.map_values(|x: ParseIssue| issue_view(x)) == parse_issues(fs.subrange(0, i as int)),
            ingested_pending(pending@, fs.subrange(0, i as int), venue@),
            pending@.len() <= i,
            forall|a: int, b: int|
                0 <= a < b < books@.len() ==> (#[trigger] books@[a]).0@ != (#[trigger] books@[b]).0@,
            forall|k: int|
                0 <= k < books@.len() ==> (#[trigger] books@[k]).1 == book_after(
                    parsed_messages(fs.subrange(0, i as int)),
                    books@[k].0@,
                ),
            forall|sym: Seq<char>|
                (forall|k: int| 0 <= k < books@.len() ==> (#[trigger] books@[k]).0@ != sym) ==> book_after(
                    parsed_messages(fs.subrange(0, i as int)),
                    sym,
                ) == empty_book(),
        decreases n - i,
    {
        let ghost h = parsed_messages(fs.subrange(0, i as int));
        let ghost prefix = fs.subrange(0, i as int + 1);
        proof {
            assert(prefix.drop_last() =~= fs.subrange(0, i as int));
            assert(prefix.last() == frames@[i as int]@);
        }
        let packet_index = (i + 1) as u64;
        let frame = &frames[i];
        match extract_udp_payload(frame.as_slice()) {
            Err((offset, detail)) => {
                let ghost before = issues@;
                issues.push(ParseIssue { packet_index, offset, detail });
                proof {
                    assert(issues@.map_values(|x: ParseIssue| issue_view(x)) =~= before.map_values(
                        |x: ParseIssue| issue_view(x),
                    ).push(issue_view(issues@.last())));
                }
            },
            Ok(payload) => {
                match parse_message(payload.as_slice()) {
                    Err(e) => {
                        let ghost before = issues@;
                        issues.push(ParseIssue { packet_index, offset: e.offset, detail: e.detail });
                        proof {
                            assert(issues@.map_values(|x: ParseIssue| issue_view(x)) =~= before.map_values(
                                |x: ParseIssue| issue_view(x),
                            ).push(issue_view(issues@.last())));
                        }
                    },
                    Ok(msg) => {
                        let ghost m = msg@;
                        let ghost h2 = h.push(m);
                        let ingest_order = pending.len() as u64;
                        let ghost old_pending = pending@;
                        let ghost mut key_at: int = -1;
                        let ghost old_books = books@;
                        let evt = match msg {
                            MockItchMessage::Trade { timestamp_ns, symbol, price_i64, size_i64 } => {
                                proof {
                                    assert(h2.drop_last() =~= h);
                                    assert(h2.last() == m);
                                    assert forall|sym: Seq<char>| #[trigger] book_after(h2, sym) == book_after(h, sym) by {}
                                }
                                PendingEvent {
                                    timestamp_ns,
                                    venue: venue.to_owned(),
                                    symbol,
                                    payload: Payload::Trade { price_ticks: price_i64, size: size_i64 },
                                    ingest_order,
                                }
                            },
                            MockItchMessage::AddOrder { timestamp_ns, symbol, side, price_i64, size_i64 } => {
                                let book = match find_book(&books, symbol.as_str()) {
                                    Some(k) => {
                                        proof {
                                            assert(books@[k as int].1 == book_after(h, symbol@));
                                        }
                                        let mut b = books[k].1;
                                        match side {
                                            Side::Bid => {
                                                b.bid_px = price_i64;
                                                b.bid_sz = size_i64;
                                            },
                                            Side::Ask => {
                                                b.ask_px = price_i64;
                                                b.ask_sz = size_i64;
                                            },
                                        }
                                        let name = books[k].0.clone();
                                        books[k] = (name, b);
                                        proof {
                                            key_at = k as int;
                                        }
                                        b
                                    },
                                    None => {
                                        proof {
                                            assert(book_after(h, symbol@) == empty_book());
                                        }
                                        let mut b = TopBook { bid_px: 0, bid_sz: 0, ask_px: 0, ask_sz: 0 };
                                        match side {
                                            Side::Bid => {
                                                b.bid_px = price_i64;
                                                b.bid_sz = size_i64;
                                            },
                                            Side::Ask => {
                                                b.ask_px = price_i64;
                                                b.ask_sz = size_i64;
                                            },
                                        }
                                        books.push((symbol.clone(), b));
                                        proof {
                                            key_at = books@.len() - 1;
                                        }
                                        b
                                    },
                                };
                                proof {
                                    assert(h2.subrange(0, h2.len() as int) =~= h2);
                                    assert(h2.drop_last() =~= h);
                                    assert(h2.last() == m);
                                    assert(book == book_after(h2, symbol@));
                                    assert(books@.len() >= old_books.len());
                                    assert(forall|j: int| 0 <= j < old_books.len() ==> (#[trigger] books@[j]).0@ == old_books[j].0@);
                                    assert forall|j: int| 0 <= j < books@.len() implies (#[trigger] books@[j]).1 == book_after(h2, books@[j].0@) by {
                                        if j != key_at {
                                            assert(books@[j] == old_books[j]);
                                            assert(books@[j].0@ != symbol@);
                                        }
                                    }
                                }
                                PendingEvent {
                                    timestamp_ns,
                                    venue: venue.to_owned(),
                                    symbol,
                                    payload: Payload::Quote {
                                        bid_px: book.bid_px,
                                        bid_sz: book.bid_sz,
                                        ask_px: book.ask_px,
                                        ask_sz: book.ask_sz,
                                    },
                                    ingest_order,
                                }
                            },
                        };
                        pending.push(evt);
                        proof {
                            assert(h2.drop_last() =~= h);
                            assert(m is AddOrder ==> 0 <= key_at < books@.len() && books@[key_at].0@ == message_symbol(m));
                            assert forall|sym: Seq<char>|
                                (forall|k: int| 0 <= k < books@.len() ==> (#[trigger] books@[k]).0@ != sym) implies book_after(
                                    h2,
                                    sym,
                                ) == empty_book() by {
                                assert(forall|j: int| 0 <= j < old_books.len() ==> (#[trigger] books@[j]).0@ == old_books[j].0@);
                                assert forall|j: int| 0 <= j < old_books.len() implies (#[trigger] old_books[j]).0@ != sym by {
                                    assert(books@[j].0@ == old_books[j].0@);
                                }
                                assert(book_after(h, sym) == empty_book());
                                if m is AddOrder {
                                    assert(books@[key_at].0@ != sym);
                                }
                            }
                            assert forall|k: int| 0 <= k < h2.len() implies pending_matches(
                                #[trigger] pending@[k],
                                h2,
                                k,
                                venue@,
                            ) by {
                                if k < h.len() {
                                    assert(h2.subrange(0, k + 1) =~= h.subrange(0, k + 1));
                                    assert(pending@[k] == old_pending[k]);
                                    assert(pending_matches(old_pending[k], h, k, venue@));
                                } else {
                                    assert(h2.subrange(0, k + 1) =~= h2);
                                }
                            }
                        }
                    },
                }
            },
        }
        i = i + 1;
    }
    proof {
        assert(fs.subrange(0, n as int) =~= fs);
    }
    let ghost p = pending@;
    let events = assign_sequences(pending);
    let r = PcapIngestOutput { events, issues };
    proof {
        assert(ingested_pending(p, fs, venue@) && sequenced_from(p, r.events@));
    }
    r
}


/// A frame that decodes to a message.
pub open spec fn decodes(f: Seq<u8>) -> bool {
    frame_outcome(f) is Ok
}

proof fn lemma_all_decode(fs: Seq<Seq<u8>>)
    requires
        forall|j: int| 0 <= j < fs.len() ==> decodes(#[trigger] fs[j]),
    ensures
        parsed_messages(fs).len() == fs.len(),
        parse_issues(fs).len() == 0,
    decreases fs.len(),
{
    if fs.len() > 0 {
        let init = fs.drop_last();
        assert forall|j: int| 0 <= j < init.len() implies decodes(#[trigger] init[j]) by {
            assert(init[j] == fs[j]);
        }
        lemma_all_decode(init);
        assert(decodes(fs[fs.len() - 1]));
    }
}

proof fn lemma_one_bad(fs: Seq<Seq<u8>>, idx: int)
    requires
        0 <= idx < fs.len(),
        !decodes(fs[idx]),
        forall|j: int| 0 <= j < fs.len() && j != idx ==> decodes(#[trigger] fs[j]),
    ensures
        parsed_messages(fs).len() == fs.len() - 1,
        parse_issues(fs).len() == 1,
        parse_issues(fs)[0].0 == idx + 1,
    decreases fs.len(),
{
    let init = fs.drop_last();
    if idx == fs.len() - 1 {
        assert forall|j: int| 0 <= j < init.len() implies decodes(#[trigger] init[j]) by {
            assert(init[j] == fs[j]);
        }
        lemma_all_decode(init);
    } else {
        assert forall|j: int| 0 <= j < init.len() && j != idx implies decodes(#[trigger] init[j]) by {
            assert(init[j] == fs[j]);
        }
        assert(init[idx] == fs[idx]);
        lemma_one_bad(init, idx);
        assert(decodes(fs[fs.len() - 1]));
    }
}

proof fn lemma_skip_bad(before: Seq<Seq<u8>>, bad: Seq<u8>, after: Seq<Seq<u8>>)
    requires
        !decodes(bad),
    ensures
        parsed_messages(before.push(bad) + after) == parsed_messages(before + after),
    decreases after.len(),
{
    if after.len() == 0 {
        assert(before.push(bad) + after =~= before.push(bad));
        assert(before + after =~= before);
        assert(before.push(bad).drop_last() =~= before);
    } else {
        lemma_skip_bad(before, bad, after.drop_last());
        assert((before.push(bad) + after).drop_last() =~= before.push(bad) + after.drop_last());
        assert((before + after).drop_last() =~= before + after.drop_last());
    }
}

/// Issue isolation: a frame that fails, placed among frames that decode,
/// yields exactly one issue, at its own 1-based index, and one message for
/// each other frame; the messages are exactly those of the frames without
/// the bad one, so their events and consecutive ingest orders (the k-th
/// message has order k, as `ingest_pcap` states) are unchanged.
pub proof fn lemma_issue_isolation(before: Seq<Seq<u8>>, bad: Seq<u8>, after: Seq<Seq<u8>>)
    requires
        forall|j: int| 0 <= j < before.len() ==> decodes(#[trigger] before[j]),
        forall|j: int| 0 <= j < after.len() ==> decodes(#[trigger] after[j]),
        !decodes(bad),
    ensures
        ({
            let frames = before.push(bad) + after;
            &&& parsed_messages(frames).len() == frames.len() - 1
            &&& parse_issues(frames).len() == 1
            &&& parse_issues(frames)[0].0 == before.len() + 1
            &&& parsed_messages(frames) == parsed_messages(before + after)
        }),
{
    lemma_skip_bad(before, bad, after);
    let frames = before.push(bad) + after;
    let idx = before.len() as int;
    assert(frames[idx] == bad);
    assert forall|j: int| 0 <= j < frames.len() && j != idx implies decodes(#[trigger] frames[j]) by {
        if j < idx {
            assert(frames[j] == before[j]);
        } else {
            assert(frames[j] == after[j - idx - 1]);
        }
    }
    lemma_one_bad(frames, idx);
}

} // verus!
