//! The wire messages of the streaming service, and their conversion to and
//! from events.
use vstd::prelude::*;
use crate::event::{type_of, Event, EventType, EventView, Payload};

verus! {

#[derive(Debug, Clone, Copy, PartialEq, Eq, Structural)]
pub struct Trade {
    pub price_ticks: i64,
    pub size: i64,
}

#[derive(Debug, Clone, Copy, PartialEq, Eq, Structural)]
pub struct Quote {
    pub bid_px: i64,
    pub bid_sz: i64,
    pub ask_px: i64,
    pub ask_sz: i64,
}

/// The payload of a wire message.
#[derive(Debug, Clone, Copy, PartialEq, Eq, Structural)]
pub enum MessagePayload {
    Trade(Trade),
    Quote(Quote),
}

/// One streamed event.
#[derive(Debug, Clone)]
pub struct EventMessage {
    pub timestamp_ns: u64,
    pub sequence: u64,
    pub venue: String,
    pub symbol: String,
    pub payload: Option<MessagePayload>,
}

pub open spec fn wire_payload(p: Payload) -> MessagePayload {
    match p {
        Payload::Trade { price_ticks, size } => MessagePayload::Trade(Trade { price_ticks, size }),
        Payload::Quote { bid_px, bid_sz, ask_px, ask_sz } => MessagePayload::Quote(
            Quote { bid_px, bid_sz, ask_px, ask_sz },
        ),
    }
}

pub open spec fn event_payload(p: MessagePayload) -> Payload {
    match p {
        MessagePayload::Trade(t) => Payload::Trade { price_ticks: t.price_ticks, size: t.size },
        MessagePayload::Quote(q) => Payload::Quote {
            bid_px: q.bid_px,
            bid_sz: q.bid_sz,
            ask_px: q.ask_px,
            ask_sz: q.ask_sz,
        },
    }
}

/// The wire message of an event.
pub fn to_proto(event: &Event) -> (r: EventMessage)
    ensures
        r.timestamp_ns == event.timestamp_ns,
        r.sequence == event.sequence,
        r.venue@ == event.venue@,
        r.symbol@ == event.symbol@,
        r.payload == Some(wire_payload(event.payload)),
{
    let payload = match event.payload {
        Payload::Trade { price_ticks, size } => MessagePayload::Trade(Trade { price_ticks, size }),
        Payload::Quote { bid_px, bid_sz, ask_px, ask_sz } => MessagePayload::Quote(
            Quote { bid_px, bid_sz, ask_px, ask_sz },
        ),
    };
    EventMessage {
        timestamp_ns: event.timestamp_ns,
        sequence: event.sequence,
        venue: event.venue.clone(),
        symbol: event.symbol.clone(),
        payload: Some(payload),
    }
}

/// The event of a wire message; `None` when it carries no payload. The type
/// tag follows the payload.
pub fn from_proto(msg: &EventMessage) -> (r: Option<Event>)
    ensures
        msg.payload is None ==> r is None,
        msg.payload matches Some(p) ==> (r matches Some(e) && e@ == (EventView {
            timestamp_ns: msg.timestamp_ns,
            sequence: msg.sequence,
            venue: msg.venue@,
            symbol: msg.symbol@,
            event_type: type_of(event_payload(p)),
            payload: event_payload(p),
        })),
{
    let payload = match msg.payload {
        Some(MessagePayload::Trade(t)) => Payload::Trade { price_ticks: t.price_ticks, size: t.size },
        Some(MessagePayload::Quote(q)) => Payload::Quote {
            bid_px: q.bid_px,
            bid_sz: q.bid_sz,
            ask_px: q.ask_px,
            ask_sz: q.ask_sz,
        },
        None => return None,
    };
    let event_type = match payload {
        Payload::Trade { .. } => EventType::Trade,
        Payload::Quote { .. } => EventType::Quote,
    };
    Some(
        Event {
            timestamp_ns: msg.timestamp_ns,
            sequence: msg.sequence,
            venue: msg.venue.clone(),
            symbol: msg.symbol.clone(),
            event_type,
            payload,
        },
    )
}

/// A well-formed event survives the trip to the wire and back.
pub proof fn lemma_wire_round_trip(p: Payload)
    ensures
        event_payload(wire_payload(p)) == p,
{
}

} // verus!
