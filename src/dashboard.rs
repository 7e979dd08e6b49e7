//! Read-only queries over a loaded event vector: windows, summaries, rows and
//! element-wise comparison of two event sequences.
use vstd::prelude::*;
use vstd::utf8::encode_utf8;
use crate::bytes_order::{cmp_bytes, compare_bytes, lemma_cmp_bytes_antisym};
use crate::event::{Event, EventView, Payload};
use crate::printer::{event_line, format_event};

verus! {

/// Filters of an event window.
#[derive(Debug, Clone)]
pub struct DataQuery {
    pub symbol: Option<String>,
    pub from_seq: Option<u64>,
    pub to_seq: Option<u64>,
    pub limit: Option<usize>,
}

pub open spec fn ascii_lower(b: u8) -> u8 {
    if 65 <= b <= 90 {
        (b + 32) as u8
    } else {
        b
    }
}

/// Equal up to ASCII case.
pub open spec fn eq_ignore_ascii_case(a: Seq<u8>, b: Seq<u8>) -> bool {
    a.len() == b.len() && forall|i: int| 0 <= i < a.len() ==> ascii_lower(#[trigger] a[i]) == ascii_lower(b[i])
}

pub(crate) fn bytes_eq_ignore_ascii_case(a: &[u8], b: &[u8]) -> (r: bool)
    ensures
        r == eq_ignore_ascii_case(a@, b@),
{
    if a.len() != b.len() {
        return false;
    }
    let mut i: usize = 0;
    while i < a.len()
        invariant
            i <= a@.len(),
            a@.len() == b@.len(),
            forall|k: int| 0 <= k < i ==> ascii_lower(#[trigger] a@[k]) == ascii_lower(b@[k]),
        decreases a.len() - i,
    {
        let x = a[i];
        let y = b[i];
        let lx = if 65 <= x && x <= 90 { x + 32 } else { x };
        let ly = if 65 <= y && y <= 90 { y + 32 } else { y };
        if lx != ly {
            return false;
        }
        i = i + 1;
    }
    true
}

/// The window limit: the query's or the fallback, clamped to [1, 100000].
pub open spec fn window_limit(limit: Option<usize>, fallback: usize) -> nat {
    let l = match limit {
        Some(l) => l,
        None => fallback,
    };
    if l < 1 {
        1
    } else if l > 100_000 {
        100_000
    } else {
        l as nat
    }
}

/// Events in order: those before `from_seq` or of another symbol are
/// skipped, the first after `to_seq` ends the window, and at most `limit`
/// are taken.
pub open spec fn window(
    evs: Seq<EventView>,
    symbol: Option<Seq<char>>,
    from_seq: Option<u64>,
    to_seq: Option<u64>,
    limit: nat,
) -> Seq<EventView>
    decreases evs.len(),
{
    if evs.len() == 0 || limit == 0 {
        Seq::empty()
    } else {
        let e = evs[0];
        let rest = evs.drop_first();
        if from_seq matches Some(f) && e.sequence < f {
            window(rest, symbol, from_seq, to_seq, limit)
        } else if to_seq matches Some(t) && e.sequence > t {
            Seq::empty()
        } else if symbol matches Some(s) && !eq_ignore_ascii_case(encode_utf8(e.symbol), encode_utf8(s)) {
            window(rest, symbol, from_seq, to_seq, limit)
        } else {
            seq![e] + window(rest, symbol, from_seq, to_seq, (limit - 1) as nat)
        }
    }
}

pub open spec fn query_symbol(q: DataQuery) -> Option<Seq<char>> {
    match q.symbol {
        Some(s) => Some(s@),
        None => None,
    }
}

/// The events of the window that `query` selects.
pub fn select_events(events: &[Event], query: &DataQuery, fallback_limit: usize) -> (r: Vec<Event>)
    ensures
        r@.map_values(|e: Event| e@) == window(
            events@.map_values(|e: Event| e@),
            query_symbol(*query),
            query.from_seq,
            query.to_seq,
            window_limit(query.limit, fallback_limit),
        ),
{
    let ghost all = events@.map_values(|e: Event| e@);
    let ghost sym = query_symbol(*query);
    let raw = match query.limit {
        Some(l) => l,
        None => fallback_limit,
    };
    let limit: usize = if raw < 1 {
        1
    } else if raw > 100_000 {
        100_000
    } else {
        raw
    };
    let ghost lim = window_limit(query.limit, fallback_limit);
    let mut out: Vec<Event> = Vec::new();
    let mut i: usize = 0;
    proof {
        assert(all.subrange(0, all.len() as int) =~= all);
    }
    while i < events.len()
        invariant
            i <= events@.len(),
            all == events@.map_values(|e: Event| e@),
            sym == query_symbol(*query),
            limit == lim,
            lim == window_limit(query.limit, fallback_limit),
            out@.len() < limit,
            window(all, sym, query.from_seq, query.to_seq, lim) == out@.map_values(|e: Event| e@) + window(
                all.subrange(i as int, all.len() as int),
                sym,
                query.from_seq,
                query.to_seq,
                (lim - out@.len()) as nat,
            ),
        decreases events.len() - i,
    {
        let e = &events[i];
        let ghost rest = all.subrange(i as int, all.len() as int);
        proof {
            assert(rest[0] == e@);
            assert(rest.drop_first() =~= all.subrange(i + 1, all.len() as int));
        }
        if let Some(from) = query.from_seq {
            if e.sequence < from {
                i = i + 1;
                continue;
            }
        }
        if let Some(to) = query.to_seq {
            if e.sequence > to {
                proof {
                    assert(rest.len() > 0);
                    assert(!(query.from_seq matches Some(f) && e@.sequence < f));
                    assert(window(rest, sym, query.from_seq, query.to_seq, (lim - out@.len()) as nat) =~= Seq::<EventView>::empty());
                    assert(out@.map_values(|e: Event| e@) + Seq::<EventView>::empty() =~= out@.map_values(|e: Event| e@));
                }
                return out;
            }
        }
        if let Some(s) = &query.symbol {
            if !bytes_eq_ignore_ascii_case(e.symbol.as_str().as_bytes(), s.as_str().as_bytes()) {
                i = i + 1;
                continue;
            }
        }
        let ghost before = out@.map_values(|e: Event| e@);
        out.push(e.clone());
        i = i + 1;
        proof {
            assert(out@.map_values(|e: Event| e@) =~= before.push(e@));
            assert(before + (seq![e@] + window(
                all.subrange(i as int, all.len() as int),
                sym,
                query.from_seq,
                query.to_seq,
                (lim - before.len() - 1) as nat,
            )) =~= out@.map_values(|e: Event| e@) + window(
                all.subrange(i as int, all.len() as int),
                sym,
                query.from_seq,
                query.to_seq,
                (lim - out@.len()) as nat,
            ));
        }
        if out.len() == limit {
            proof {
                assert(window(all.subrange(i as int, all.len() as int), sym, query.from_seq, query.to_seq, 0) =~= Seq::<EventView>::empty());
                assert(out@.map_values(|e: Event| e@) + Seq::<EventView>::empty() =~= out@.map_values(|e: Event| e@));
            }
            return out;
        }
    }
    proof {
        assert(all.subrange(i as int, all.len() as int) =~= Seq::<EventView>::empty());
        assert(out@.map_values(|e: Event| e@) + Seq::<EventView>::empty() =~= out@.map_values(|e: Event| e@));
    }
    out
}


/// A summary of a loaded event vector.
#[derive(Debug, Clone)]
pub struct Meta {
    pub events: usize,
    pub trades: usize,
    pub quotes: usize,
    pub first_timestamp_ns: u64,
    pub last_timestamp_ns: u64,
    pub first_sequence: u64,
    pub last_sequence: u64,
    pub symbols: Vec<String>,
}

pub open spec fn count_trades(s: Seq<EventView>) -> nat
    decreases s.len(),
{
    if s.len() == 0 {
        0
    } else {
        count_trades(s.drop_last()) + if s.last().payload is Trade {
            1nat
        } else {
            0nat
        }
    }
}

/// Strictly increasing in byte order, so without repeats.
pub open spec fn names_sorted(l: Seq<Seq<char>>) -> bool {
    forall|i: int| 0 <= i < l.len() - 1 ==> cmp_bytes(encode_utf8(#[trigger] l[i]), encode_utf8(l[i + 1])) < 0
}

pub open spec fn event_symbols(s: Seq<EventView>) -> Set<Seq<char>> {
    s.map_values(|e: EventView| e.symbol).to_set()
}

pub(crate) proof fn lemma_insert_to_set<A>(s: Seq<A>, p: int, x: A)
    requires
        0 <= p <= s.len(),
    ensures
        s.insert(p, x).to_set() == s.to_set().insert(x),
{
    let t = s.insert(p, x);
    assert forall|y: A| t.to_set().contains(y) <==> s.to_set().insert(x).contains(y) by {
        if t.to_set().contains(y) {
            let i = choose|i: int| 0 <= i < t.len() && t[i] == y;
            if i < p {
                assert(s[i] == y);
            } else if i > p {
                assert(s[i - 1] == y);
            }
        }
        if s.to_set().contains(y) {
            let i = choose|i: int| 0 <= i < s.len() && s[i] == y;
            if i < p {
                assert(t[i] == y);
            } else {
                assert(t[i + 1] == y);
            }
        }
        if y == x {
            assert(t[p] == y);
        }
    }
    assert(t.to_set() =~= s.to_set().insert(x));
}

pub(crate) fn insert_name(list: &mut Vec<String>, name: &String)
    requires
        names_sorted(old(list)@.map_values(|x: String| x@)),
    ensures
        names_sorted(final(list)@.map_values(|x: String| x@)),
        final(list)@.map_values(|x: String| x@).to_set() == old(list)@.map_values(|x: String| x@).to_set().insert(
            name@,
        ),
{
    let ghost before = list@.map_values(|x: String| x@);
    let mut k: usize = 0;
    while k < list.len()
        invariant
            k <= list@.len(),
            before == list@.map_values(|x: String| x@),
            names_sorted(before),
            forall|j: int| 0 <= j < k ==> (#[trigger] list@[j])@ != name@,
        decreases list.len() - k,
    {
        if list[k] == *name {
            proof {
                assert(before[k as int] == name@);
                assert(before.to_set().insert(name@) =~= before.to_set());
            }
            return;
        }
        k = k + 1;
    }
    let mut p = list.len();
    while p > 0 && compare_bytes(list[p - 1].as_str().as_bytes(), name.as_str().as_bytes()) > 0
        invariant
            p <= list@.len(),
            before == list@.map_values(|x: String| x@),
            p < list@.len() ==> cmp_bytes(encode_utf8(name@), encode_utf8(list@[p as int]@)) < 0,
        decreases p,
    {
        proof {
            lemma_cmp_bytes_antisym(encode_utf8(list@[p - 1]@), encode_utf8(name@));
        }
        p = p - 1;
    }
    proof {
        if p > 0 {
            lemma_cmp_bytes_antisym(encode_utf8(list@[p - 1]@), encode_utf8(name@));
            assert(list@[p - 1]@ != name@);
            vstd::utf8::encode_utf8_decode_utf8(list@[p - 1]@);
            vstd::utf8::encode_utf8_decode_utf8(name@);
        }
    }
    list.insert(p, name.clone());
    proof {
        let t = list@.map_values(|x: String| x@);
        assert(t =~= before.insert(p as int, name@));
        assert forall|i: int| 0 <= i < t.len() - 1 implies cmp_bytes(encode_utf8(#[trigger] t[i]), encode_utf8(t[i + 1])) < 0 by {
            if i < p - 1 {
                assert(t[i] == before[i] && t[i + 1] == before[i + 1]);
            } else if i == p - 1 {
                assert(t[i] == before[i] && t[i + 1] == name@);
            } else if i == p {
                assert(t[i] == name@ && t[i + 1] == before[i]);
            } else {
                assert(t[i] == before[i - 1] && t[i + 1] == before[i]);
            }
        }
        lemma_insert_to_set(before, p as int, name@);
        assert(t.to_set() =~= before.to_set().insert(name@));
    }
}

/// Counts, first and last timestamps and sequences (0 when empty), and the
/// symbols in byte order without repeats.
pub fn build_meta(events: &[Event]) -> (r: Meta)
    ensures
        r.events == events@.len(),
        r.trades == count_trades(events@.map_values(|e: Event| e@)),
        r.quotes == events@.len() - count_trades(events@.map_values(|e: Event| e@)),
        r.first_timestamp_ns == if events@.len() == 0 { 0 } else { events@[0].timestamp_ns },
        r.last_timestamp_ns == if events@.len() == 0 { 0 } else { events@.last().timestamp_ns },
        r.first_sequence == if events@.len() == 0 { 0 } else { events@[0].sequence },
        r.last_sequence == if events@.len() == 0 { 0 } else { events@.last().sequence },
        names_sorted(r.symbols@.map_values(|x: String| x@)),
        r.symbols@.map_values(|x: String| x@).to_set() == event_symbols(events@.map_values(|e: Event| e@)),
{
    let ghost all = events@.map_values(|e: Event| e@);
    let mut symbols: Vec<String> = Vec::new();
    let mut trades: usize = 0;
    let mut quotes: usize = 0;
    let mut i: usize = 0;
    proof {
        assert(all.subrange(0, 0).map_values(|e: EventView| e.symbol).to_set() =~= Set::<Seq<char>>::empty());
        assert(symbols@.map_values(|x: String| x@).to_set() =~= Set::<Seq<char>>::empty());
    }
    while i < events.len()
        invariant
            i <= events@.len(),
            all == events@.map_values(|e: Event| e@),
            trades == count_trades(all.subrange(0, i as int)),
            trades + quotes == i,
            names_sorted(symbols@.map_values(|x: String| x@)),
            symbols@.map_values(|x: String| x@).to_set() == event_symbols(all.subrange(0, i as int)),
        decreases events.len() - i,
    {
        let ghost pre = all.subrange(0, i + 1);
        proof {
            assert(pre.drop_last() =~= all.subrange(0, i as int));
            assert(pre.last() == events@[i as int]@);
        }
        insert_name(&mut symbols, &events[i].symbol);
        match events[i].payload {
            Payload::Trade { .. } => {
                trades = trades + 1;
            },
            Payload::Quote { .. } => {
                quotes = quotes + 1;
            },
        }
        proof {
            let m = pre.map_values(|e: EventView| e.symbol);
            assert(m =~= all.subrange(0, i as int).map_values(|e: EventView| e.symbol).push(events@[i as int].symbol@));
            let m0 = all.subrange(0, i as int).map_values(|e: EventView| e.symbol);
            assert(m =~= m0.insert(m0.len() as int, events@[i as int].symbol@));
            lemma_insert_to_set(m0, m0.len() as int, events@[i as int].symbol@);
        }
        i = i + 1;
    }
    proof {
        assert(all.subrange(0, events@.len() as int) =~= all);
    }
    let n = events.len();
    Meta {
        events: n,
        trades,
        quotes,
        first_timestamp_ns: if n == 0 { 0 } else { events[0].timestamp_ns },
        last_timestamp_ns: if n == 0 { 0 } else { events[n - 1].timestamp_ns },
        first_sequence: if n == 0 { 0 } else { events[0].sequence },
        last_sequence: if n == 0 { 0 } else { events[n - 1].sequence },
        symbols,
    }
}


/// One event as a flat row.
#[derive(Debug, Clone)]
pub struct EventRow {
    pub timestamp_ns: u64,
    pub sequence: u64,
    pub venue: String,
    pub symbol: String,
    pub kind: &'static str,
    pub price_ticks: Option<i64>,
    pub size: Option<i64>,
    pub bid_px: Option<i64>,
    pub bid_sz: Option<i64>,
    pub ask_px: Option<i64>,
    pub ask_sz: Option<i64>,
}

/// The row of an event: the trade or the quote columns set, the others empty.
pub fn to_row(event: Event) -> (r: EventRow)
    ensures
        r.timestamp_ns == event.timestamp_ns,
        r.sequence == event.sequence,
        r.venue@ == event.venue@,
        r.symbol@ == event.symbol@,
        match event.payload {
            Payload::Trade { price_ticks, size } => r.kind@ == "trade"@ && r.price_ticks == Some(price_ticks)
                && r.size == Some(size) && r.bid_px is None && r.bid_sz is None && r.ask_px is None
                && r.ask_sz is None,
            Payload::Quote { bid_px, bid_sz, ask_px, ask_sz } => r.kind@ == "quote"@ && r.price_ticks is None
                && r.size is None && r.bid_px == Some(bid_px) && r.bid_sz == Some(bid_sz) && r.ask_px == Some(
                ask_px,
            ) && r.ask_sz == Some(ask_sz),
        },
{
    proof {
        reveal_strlit("trade");
        reveal_strlit("quote");
    }
    match event.payload {
        Payload::Trade { price_ticks, size } => EventRow {
            timestamp_ns: event.timestamp_ns,
            sequence: event.sequence,
            venue: event.venue,
            symbol: event.symbol,
            kind: "trade",
            price_ticks: Some(price_ticks),
            size: Some(size),
            bid_px: None,
            bid_sz: None,
            ask_px: None,
            ask_sz: None,
        },
        Payload::Quote { bid_px, bid_sz, ask_px, ask_sz } => EventRow {
            timestamp_ns: event.timestamp_ns,
            sequence: event.sequence,
            venue: event.venue,
            symbol: event.symbol,
            kind: "quote",
            price_ticks: None,
            size: None,
            bid_px: Some(bid_px),
            bid_sz: Some(bid_sz),
            ask_px: Some(ask_px),
            ask_sz: Some(ask_sz),
        },
    }
}

/// Why two events differ: the first field, in the order sequence,
/// timestamp, symbol, venue, payload, that is not equal.
pub open spec fn reason_text(l: EventView, r: EventView) -> Seq<char> {
    if l.sequence != r.sequence {
        "sequence mismatch"@
    } else if l.timestamp_ns != r.timestamp_ns {
        "timestamp mismatch"@
    } else if l.symbol != r.symbol {
        "symbol mismatch"@
    } else if l.venue != r.venue {
        "venue mismatch"@
    } else if l.payload != r.payload {
        "payload mismatch"@
    } else {
        "event mismatch"@
    }
}

pub fn mismatch_reason(left: &Event, right: &Event) -> (r: String)
    ensures
        r@ == reason_text(left@, right@),
{
    proof {
        reveal_strlit("sequence mismatch");
        reveal_strlit("timestamp mismatch");
        reveal_strlit("symbol mismatch");
        reveal_strlit("venue mismatch");
        reveal_strlit("payload mismatch");
        reveal_strlit("event mismatch");
    }
    if left.sequence != right.sequence {
        return String::from_str("sequence mismatch");
    }
    if left.timestamp_ns != right.timestamp_ns {
        return String::from_str("timestamp mismatch");
    }
    if left.symbol != right.symbol {
        return String::from_str("symbol mismatch");
    }
    if left.venue != right.venue {
        return String::from_str("venue mismatch");
    }
    if left.payload != right.payload {
        return String::from_str("payload mismatch");
    }
    String::from_str("event mismatch")
}

#[derive(Debug, Clone)]
pub struct ParserMismatch {
    pub index: usize,
    pub left_sequence: Option<u64>,
    pub right_sequence: Option<u64>,
    pub reason: String,
    pub left_line: Option<String>,
    pub right_line: Option<String>,
}

#[derive(Debug, Clone)]
pub struct ParserDiffReport {
    pub ok: bool,
    pub left_events: usize,
    pub right_events: usize,
    pub matched_prefix: usize,
    pub first_mismatch: Option<ParserMismatch>,
}

/// The first position from `i` on where the two sequences differ, or the
/// longer length when one is a prefix of the other.
pub open spec fn first_difference(l: Seq<EventView>, r: Seq<EventView>, i: nat) -> nat
    decreases (if l.len() > r.len() { l.len() } else { r.len() }) - i,
{
    if i >= l.len() && i >= r.len() {
        i
    } else if i < l.len() && i < r.len() && l[i as int] == r[i as int] {
        first_difference(l, r, i + 1)
    } else {
        i
    }
}

pub open spec fn mismatch_text(l: Seq<EventView>, r: Seq<EventView>, k: int) -> Seq<char> {
    if k >= l.len() {
        "left missing event"@
    } else if k >= r.len() {
        "right missing event"@
    } else {
        reason_text(l[k], r[k])
    }
}

/// Compares two event sequences element-wise and reports the first
/// position (1-based) that differs, with a reason and both lines.
pub fn parser_diff(left: &[Event], right: &[Event]) -> (rep: ParserDiffReport)
    ensures
        ({
            let l = left@.map_values(|e: Event| e@);
            let r = right@.map_values(|e: Event| e@);
            let k = first_difference(l, r, 0);
            &&& rep.left_events == l.len()
            &&& rep.right_events == r.len()
            &&& rep.matched_prefix == k
            &&& rep.ok == (k >= l.len() && k >= r.len())
            &&& (rep.ok ==> rep.first_mismatch is None)
            &&& (!rep.ok ==> (rep.first_mismatch matches Some(m) && {
                &&& m.index == k + 1
                &&& m.reason@ == mismatch_text(l, r, k as int)
                &&& m.left_sequence == if k < l.len() { Some(l[k as int].sequence) } else { None }
                &&& m.right_sequence == if k < r.len() { Some(r[k as int].sequence) } else { None }
                &&& (m.left_line matches Some(s) ==> k < l.len() && s@ == event_line(l[k as int]))
                &&& (k < l.len() ==> m.left_line is Some)
                &&& (m.right_line matches Some(s) ==> k < r.len() && s@ == event_line(r[k as int]))
                &&& (k < r.len() ==> m.right_line is Some)
            }))
        }),
{
    let ghost l = left@.map_values(|e: Event| e@);
    let ghost r = right@.map_values(|e: Event| e@);
    let max = if left.len() > right.len() { left.len() } else { right.len() };
    let mut i: usize = 0;
    while i < max && i < left.len() && i < right.len() && left[i] == right[i]
        invariant
            i <= max,
            max == if left@.len() > right@.len() { left@.len() } else { right@.len() },
            l == left@.map_values(|e: Event| e@),
            r == right@.map_values(|e: Event| e@),
            first_difference(l, r, 0) == first_difference(l, r, i as nat),
        decreases max - i,
    {
        i = i + 1;
    }
    proof {
        if i < left.len() && i < right.len() {
            assert(l[i as int] == left@[i as int]@);
            assert(r[i as int] == right@[i as int]@);
        }
    }
    let ok = i >= left.len() && i >= right.len();
    if ok {
        return ParserDiffReport {
            ok: true,
            left_events: left.len(),
            right_events: right.len(),
            matched_prefix: i,
            first_mismatch: None,
        };
    }
    proof {
        reveal_strlit("left missing event");
        reveal_strlit("right missing event");
    }
    let reason = if i >= left.len() {
        String::from_str("left missing event")
    } else if i >= right.len() {
        String::from_str("right missing event")
    } else {
        mismatch_reason(&left[i], &right[i])
    };
    let left_sequence = if i < left.len() { Some(left[i].sequence) } else { None };
    let right_sequence = if i < right.len() { Some(right[i].sequence) } else { None };
    let left_line = if i < left.len() { Some(format_event(&left[i])) } else { None };
    let right_line = if i < right.len() { Some(format_event(&right[i])) } else { None };
    ParserDiffReport {
        ok: false,
        left_events: left.len(),
        right_events: right.len(),
        matched_prefix: i,
        first_mismatch: Some(
            ParserMismatch { index: i + 1, left_sequence, right_sequence, reason, left_line, right_line },
        ),
    }
}


#[derive(Debug, Clone)]
pub struct DeterminismReport {
    pub ok: bool,
    pub lines: usize,
    pub first_mismatch_line: Option<usize>,
}

/// The first index below `n` where the two runs differ, or `n`.
pub open spec fn first_line_difference(a: Seq<Seq<char>>, b: Seq<Seq<char>>, n: nat) -> nat
    decreases n,
{
    if n == 0 {
        0
    } else if first_line_difference(a, b, (n - 1) as nat) < n - 1 {
        first_line_difference(a, b, (n - 1) as nat)
    } else if a[n - 1] != b[n - 1] {
        (n - 1) as nat
    } else {
        n
    }
}

/// Compares two runs of a client over the same events: the first line
/// (1-based) that differs, or, when one run is a prefix of the other, the
/// line after the shorter one.
pub fn deterministic_report(run1: &Vec<String>, run2: &Vec<String>) -> (r: DeterminismReport)
    ensures
        ({
            let a = run1@.map_values(|s: String| s@);
            let b = run2@.map_values(|s: String| s@);
            let m = if a.len() < b.len() { a.len() } else { b.len() };
            let k = first_line_difference(a, b, m);
            &&& r.lines == a.len()
            &&& r.first_mismatch_line == if k < m {
                Some((k + 1) as usize)
            } else if a.len() != b.len() {
                Some((m + 1) as usize)
            } else {
                None::<usize>
            }
            &&& r.ok == (r.first_mismatch_line is None)
        }),
{
    let ghost a = run1@.map_values(|s: String| s@);
    let ghost b = run2@.map_values(|s: String| s@);
    let m = if run1.len() < run2.len() { run1.len() } else { run2.len() };
    let mut i: usize = 0;
    while i < m
        invariant
            i <= m,
            m == if run1@.len() < run2@.len() { run1@.len() } else { run2@.len() },
            a == run1@.map_values(|s: String| s@),
            b == run2@.map_values(|s: String| s@),
            first_line_difference(a, b, i as nat) == i,
        decreases m - i,
    {
        if run1[i] != run2[i] {
            proof {
                assert(a[i as int] != b[i as int]);
                assert(first_line_difference(a, b, (i + 1) as nat) == i);
                lemma_first_line_stays(a, b, (i + 1) as nat, m as nat);
            }
            let line = i + 1;
            return DeterminismReport { ok: false, lines: run1.len(), first_mismatch_line: Some(line) };
        }
        i = i + 1;
    }
    if run1.len() != run2.len() {
        return DeterminismReport { ok: false, lines: run1.len(), first_mismatch_line: Some(m + 1) };
    }
    DeterminismReport { ok: true, lines: run1.len(), first_mismatch_line: None }
}

proof fn lemma_first_line_stays(a: Seq<Seq<char>>, b: Seq<Seq<char>>, j: nat, n: nat)
    requires
        1 <= j <= n,
        first_line_difference(a, b, j) == j - 1,
    ensures
        first_line_difference(a, b, n) == j - 1,
    decreases n - j,
{
    if j < n {
        lemma_first_line_stays(a, b, j, (n - 1) as nat);
    }
}

} // verus!
