//! The canonical event record and the sort-and-sequence pass over pending events.
use vstd::prelude::*;
use vstd::utf8::encode_utf8;
use crate::bytes_order::{cmp_bytes, compare_bytes, lemma_cmp_bytes_antisym};

verus! {

broadcast use vstd::seq_lib::group_to_multiset_ensures;

#[derive(Debug, Clone, Copy, PartialEq, Eq, Structural)]
pub enum EventType {
    Trade,
    Quote,
}

#[derive(Debug, Clone, Copy, PartialEq, Eq, Structural)]
pub enum Payload {
    Trade { price_ticks: i64, size: i64 },
    Quote { bid_px: i64, bid_sz: i64, ask_px: i64, ask_sz: i64 },
}

#[derive(Debug, Clone, Copy, PartialEq, Eq, Structural)]
pub struct QuoteTicks {
    pub bid_px: i64,
    pub bid_sz: i64,
    pub ask_px: i64,
    pub ask_sz: i64,
}

/// A sequenced, immutable market event.
#[derive(Debug)]
pub struct Event {
    pub timestamp_ns: u64,
    pub sequence: u64,
    pub venue: String,
    pub symbol: String,
    pub event_type: EventType,
    pub payload: Payload,
}

/// An event before sequencing, with its position in the source.
#[derive(Debug)]
pub struct PendingEvent {
    pub timestamp_ns: u64,
    pub venue: String,
    pub symbol: String,
    pub payload: Payload,
    pub ingest_order: u64,
}

/// An event with its strings as characters.
pub struct EventView {
    pub timestamp_ns: u64,
    pub sequence: u64,
    pub venue: Seq<char>,
    pub symbol: Seq<char>,
    pub event_type: EventType,
    pub payload: Payload,
}

impl View for Event {
    type V = EventView;

    open spec fn view(&self) -> EventView {
        EventView {
            timestamp_ns: self.timestamp_ns,
            sequence: self.sequence,
            venue: self.venue@,
            symbol: self.symbol@,
            event_type: self.event_type,
            payload: self.payload,
        }
    }
}

/// The event type that a payload's variant implies.
pub open spec fn type_of(p: Payload) -> EventType {
    match p {
        Payload::Trade { .. } => EventType::Trade,
        Payload::Quote { .. } => EventType::Quote,
    }
}

/// Two events are equal when every field is.
pub open spec fn same_event(a: Event, b: Event) -> bool {
    &&& a.timestamp_ns == b.timestamp_ns
    &&& a.sequence == b.sequence
    &&& a.venue@ == b.venue@
    &&& a.symbol@ == b.symbol@
    &&& a.event_type == b.event_type
    &&& a.payload == b.payload
}

/// A well-formed event: the type tag agrees with the payload.
pub open spec fn event_wf(e: Event) -> bool {
    e.event_type == type_of(e.payload)
}

impl Clone for Event {
    fn clone(&self) -> (r: Self)
        ensures
            same_event(r, *self),
    {
        Event {
            timestamp_ns: self.timestamp_ns,
            sequence: self.sequence,
            venue: self.venue.clone(),
            symbol: self.symbol.clone(),
            event_type: self.event_type,
            payload: self.payload,
        }
    }
}

impl PartialEq for Event {
    fn eq(&self, other: &Event) -> (r: bool)
        ensures
            r == same_event(*self, *other),
    {
        self.timestamp_ns == other.timestamp_ns && self.sequence == other.sequence
            && self.venue == other.venue && self.symbol == other.symbol
            && self.event_type == other.event_type && self.payload == other.payload
    }
}

impl vstd::std_specs::cmp::PartialEqSpecImpl for Event {
    open spec fn obeys_eq_spec() -> bool {
        true
    }

    open spec fn eq_spec(&self, other: &Event) -> bool {
        same_event(*self, *other)
    }
}

/// The event that a pending event becomes under a given sequence number.
pub open spec fn sequenced_event(p: PendingEvent, sequence: u64) -> Event {
    Event {
        timestamp_ns: p.timestamp_ns,
        sequence,
        venue: p.venue,
        symbol: p.symbol,
        event_type: type_of(p.payload),
        payload: p.payload,
    }
}

/// Three-way comparison of pending events by
/// `(timestamp_ns, ingest_order, symbol, venue)`, strings by their UTF-8 bytes.
pub open spec fn pending_cmp(a: PendingEvent, b: PendingEvent) -> int {
    if a.timestamp_ns < b.timestamp_ns {
        -1
    } else if a.timestamp_ns > b.timestamp_ns {
        1
    } else if a.ingest_order < b.ingest_order {
        -1
    } else if a.ingest_order > b.ingest_order {
        1
    } else if cmp_bytes(encode_utf8(a.symbol@), encode_utf8(b.symbol@)) != 0 {
        cmp_bytes(encode_utf8(a.symbol@), encode_utf8(b.symbol@))
    } else {
        cmp_bytes(encode_utf8(a.venue@), encode_utf8(b.venue@))
    }
}


/// Every adjacent pair is in non-decreasing key order.
pub open spec fn pending_sorted(s: Seq<PendingEvent>) -> bool {
    forall|i: int| 0 <= i < s.len() - 1 ==> pending_cmp(#[trigger] s[i], s[i + 1]) <= 0
}

/// `events` is the result of sequencing `pending`: a key-ordered arrangement
/// of the pending events, numbered 1, 2, ... in that order.
pub open spec fn sequenced_from(pending: Seq<PendingEvent>, events: Seq<Event>) -> bool {
    exists|order: Seq<PendingEvent>|
        {
            &&& #[trigger] order.to_multiset() == pending.to_multiset()
            &&& pending_sorted(order)
            &&& order.len() == events.len()
            &&& events.len() <= u64::MAX
            &&& forall|i: int|
                0 <= i < events.len() ==> events[i] == sequenced_event(
                    #[trigger] order[i],
                    (i + 1) as u64,
                )
        }
}

proof fn lemma_pending_cmp_antisym(a: PendingEvent, b: PendingEvent)
    ensures
        pending_cmp(a, b) == -pending_cmp(b, a),
{
    lemma_cmp_bytes_antisym(encode_utf8(a.symbol@), encode_utf8(b.symbol@));
    lemma_cmp_bytes_antisym(encode_utf8(a.venue@), encode_utf8(b.venue@));
}

/// Whether `a` comes no later than `b` in sequencing order.
fn pending_le(a: &PendingEvent, b: &PendingEvent) -> (r: bool)
    ensures
        r == (pending_cmp(*a, *b) <= 0),
{
    if a.timestamp_ns != b.timestamp_ns {
        return a.timestamp_ns < b.timestamp_ns;
    }
    if a.ingest_order != b.ingest_order {
        return a.ingest_order < b.ingest_order;
    }
    let c = compare_bytes(a.symbol.as_str().as_bytes(), b.symbol.as_str().as_bytes());
    if c != 0 {
        return c < 0;
    }
    compare_bytes(a.venue.as_str().as_bytes(), b.venue.as_str().as_bytes()) <= 0
}

impl PendingEvent {
    /// Turns the pending event into an event with the given sequence number,
    /// deriving the type tag from the payload.
    pub fn into_event(self, sequence: u64) -> (r: Event)
        ensures
            r == sequenced_event(self, sequence),
    {
        let event_type = match self.payload {
            Payload::Trade { .. } => EventType::Trade,
            Payload::Quote { .. } => EventType::Quote,
        };
        Event {
            timestamp_ns: self.timestamp_ns,
            sequence,
            venue: self.venue,
            symbol: self.symbol,
            event_type,
            payload: self.payload,
        }
    }
}

impl Event {
    /// A trade event.
    pub fn trade(
        timestamp_ns: u64,
        sequence: u64,
        venue: &str,
        symbol: &str,
        price_ticks: i64,
        size: i64,
    ) -> (r: Event)
        ensures
            r@ == (EventView {
                timestamp_ns,
                sequence,
                venue: venue@,
                symbol: symbol@,
                event_type: EventType::Trade,
                payload: Payload::Trade { price_ticks, size },
            }),
    {
        Event {
            timestamp_ns,
            sequence,
            venue: venue.to_owned(),
            symbol: symbol.to_owned(),
            event_type: EventType::Trade,
            payload: Payload::Trade { price_ticks, size },
        }
    }

    /// A quote event.
    pub fn quote(timestamp_ns: u64, sequence: u64, venue: &str, symbol: &str, quote: QuoteTicks) -> (r: Event)
        ensures
            r@ == (EventView {
                timestamp_ns,
                sequence,
                venue: venue@,
                symbol: symbol@,
                event_type: EventType::Quote,
                payload: Payload::Quote {
                    bid_px: quote.bid_px,
                    bid_sz: quote.bid_sz,
                    ask_px: quote.ask_px,
                    ask_sz: quote.ask_sz,
                },
            }),
    {
        Event {
            timestamp_ns,
            sequence,
            venue: venue.to_owned(),
            symbol: symbol.to_owned(),
            event_type: EventType::Quote,
            payload: Payload::Quote {
                bid_px: quote.bid_px,
                bid_sz: quote.bid_sz,
                ask_px: quote.ask_px,
                ask_sz: quote.ask_sz,
            },
        }
    }
}

/// Sorts the pending events by `(timestamp_ns, ingest_order, symbol, venue)`
/// and numbers them 1..=N in that order.
pub fn assign_sequences(pending: Vec<PendingEvent>) -> (r: Vec<Event>)
    ensures
        r.len() == pending.len(),
        sequenced_from(pending@, r@),
{
    let ghost orig = pending@;
    let mut rest = pending;
    // kept in descending key order, so that input already in order costs one
    // comparison per event and comes out by `pop`
    let mut desc: Vec<PendingEvent> = Vec::new();
    while rest.len() > 0
        invariant
            desc@.to_multiset().add(rest@.to_multiset()) == orig.to_multiset(),
            forall|i: int| 0 <= i < desc@.len() - 1 ==> pending_cmp(#[trigger] desc@[i], desc@[i + 1]) >= 0,
        decreases rest.len(),
    {
        let ghost before = rest@;
        let x = rest.pop().unwrap();
        proof {
            assert(before =~= rest@.push(x));
        }
        let mut p = desc.len();
        while p > 0 && !pending_le(&x, &desc[p - 1])
            invariant
                p <= desc.len(),
                p < desc.len() ==> pending_cmp(desc@[p as int], x) < 0,
            decreases p,
        {
            proof {
                lemma_pending_cmp_antisym(x, desc@[p - 1]);
            }
            p = p - 1;
        }
        proof {
            if p > 0 {
                lemma_pending_cmp_antisym(x, desc@[p - 1]);
            }
        }
        let ghost old_desc = desc@;
        desc.insert(p, x);
        proof {
            let t = desc@;
            assert(t.to_multiset() == old_desc.to_multiset().insert(x));
            assert forall|i: int| 0 <= i < t.len() - 1 implies pending_cmp(#[trigger] t[i], t[i + 1]) >= 0 by {
                if i < p - 1 {
                    assert(t[i] == old_desc[i] && t[i + 1] == old_desc[i + 1]);
                } else if i == p - 1 {
                    assert(t[i] == old_desc[i] && t[i + 1] == x);
                } else if i == p {
                    assert(t[i] == x && t[i + 1] == old_desc[i]);
                    lemma_pending_cmp_antisym(x, old_desc[i]);
                } else {
                    assert(t[i] == old_desc[i - 1] && t[i + 1] == old_desc[i]);
                }
            }
            assert(desc@.to_multiset().add(rest@.to_multiset()) =~= orig.to_multiset());
        }
    }
    let ghost desc0 = desc@;
    let n = desc.len();
    let ghost order = desc0.reverse();
    proof {
        assert(rest@ =~= Seq::<PendingEvent>::empty());
        assert(desc0.to_multiset() =~= orig.to_multiset());
        desc0.lemma_reverse_to_multiset();
        assert forall|i: int| 0 <= i < order.len() - 1 implies pending_cmp(#[trigger] order[i], order[i + 1]) <= 0 by {
            let j = n - 2 - i;
            assert(order[i] == desc0[j + 1] && order[i + 1] == desc0[j]);
            assert(pending_cmp(desc0[j], desc0[j + 1]) >= 0);
            lemma_pending_cmp_antisym(desc0[j], desc0[j + 1]);
        }
    }
    let mut out: Vec<Event> = Vec::new();
    let mut i: usize = 0;
    while i < n
        invariant
            i <= n,
            n == desc0.len(),
            order == desc0.reverse(),
            desc@ == desc0.subrange(0, n - i),
            out.len() == i,
            forall|k: int| 0 <= k < i ==> out@[k] == sequenced_event(#[trigger] order[k], (k + 1) as u64),
        decreases n - i,
    {
        let item = desc.pop().unwrap();
        proof {
            assert(item == desc0[n - 1 - i]);
            assert(order[i as int] == desc0[n - 1 - i]);
        }
        out.push(item.into_event((i + 1) as u64));
        i = i + 1;
        proof {
            assert(desc@ =~= desc0.subrange(0, n - i));
        }
    }
    proof {
        assert(order.to_multiset() == orig.to_multiset());
        assert(order.to_multiset().len() == orig.to_multiset().len());
        assert(forall|k: int| 0 <= k < out@.len() ==> out@[k] == sequenced_event(#[trigger] order[k], (k + 1) as u64));
    }
    out
}

/// Sequence numbers are dense: the i-th event of a sequenced run carries i + 1,
/// so the numbers are exactly 1..=N.
pub proof fn lemma_sequence_density(pending: Seq<PendingEvent>, events: Seq<Event>)
    requires
        sequenced_from(pending, events),
    ensures
        events.len() == pending.len(),
        forall|i: int| 0 <= i < events.len() ==> #[trigger] events[i].sequence == i + 1,
{
    let order = choose|order: Seq<PendingEvent>|
        {
            &&& #[trigger] order.to_multiset() == pending.to_multiset()
            &&& pending_sorted(order)
            &&& order.len() == events.len()
            &&& events.len() <= u64::MAX
            &&& forall|i: int|
                0 <= i < events.len() ==> events[i] == sequenced_event(
                    #[trigger] order[i],
                    (i + 1) as u64,
                )
        };
    assert(order.to_multiset().len() == pending.to_multiset().len());
    assert forall|i: int| 0 <= i < events.len() implies #[trigger] events[i].sequence == i + 1 by {
        assert(events[i] == sequenced_event(order[i], (i + 1) as u64));
    }
}

} // verus!
