//! The line format of printed events.
use vstd::prelude::*;
use crate::event::{Event, EventView, Payload};
use crate::text::{dec_text, push_i64, push_u64, signed_text};

verus! {

/// `{seq} {ts} {venue} {symbol} trade px={price} sz={size}` for a trade,
/// `{seq} {ts} {venue} {symbol} quote bid={bid_px}x{bid_sz} ask={ask_px}x{ask_sz}` for a quote.
pub open spec fn event_line(e: EventView) -> Seq<char> {
    let head = dec_text(e.sequence as nat) + " "@ + dec_text(e.timestamp_ns as nat) + " "@ + e.venue + " "@
        + e.symbol;
    match e.payload {
        Payload::Trade { price_ticks, size } => head + " trade px="@ + signed_text(price_ticks as int)
            + " sz="@ + signed_text(size as int),
        Payload::Quote { bid_px, bid_sz, ask_px, ask_sz } => head + " quote bid="@ + signed_text(bid_px as int)
            + "x"@ + signed_text(bid_sz as int) + " ask="@ + signed_text(ask_px as int) + "x"@ + signed_text(
            ask_sz as int,
        ),
    }
}

/// The printed line of an event.
pub fn format_event(event: &Event) -> (r: String)
    ensures
        r@ == event_line(event@),
{
    proof {
        reveal_strlit(" ");
        reveal_strlit(" trade px=");
        reveal_strlit(" sz=");
        reveal_strlit(" quote bid=");
        reveal_strlit("x");
        reveal_strlit(" ask=");
    }
    let mut out = String::new();
    push_u64(&mut out, event.sequence);
    out.append(" ");
    push_u64(&mut out, event.timestamp_ns);
    out.append(" ");
    out.append(event.venue.as_str());
    out.append(" ");
    out.append(event.symbol.as_str());
    match event.payload {
        Payload::Trade { price_ticks, size } => {
            out.append(" trade px=");
            push_i64(&mut out, price_ticks);
            out.append(" sz=");
            push_i64(&mut out, size);
        },
        Payload::Quote { bid_px, bid_sz, ask_px, ask_sz } => {
            out.append(" quote bid=");
            push_i64(&mut out, bid_px);
            out.append("x");
            push_i64(&mut out, bid_sz);
            out.append(" ask=");
            push_i64(&mut out, ask_px);
            out.append("x");
            push_i64(&mut out, ask_sz);
        },
    }
    proof {
        assert(out@ =~= event_line(event@));
    }
    out
}

} // verus!
