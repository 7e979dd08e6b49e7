//! The fixed-schema binary encoding of an event: fields in order
//! `timestamp_ns, sequence, venue, symbol, event_type, payload`, integers
//! little-endian, strings as a `u64` byte length and their UTF-8 bytes, each
//! enum as a `u32` variant index before its fields.
use vstd::prelude::*;
use vstd::utf8::{encode_utf8, encode_utf8_decode_utf8};
use crate::event::{Event, EventType, EventView, Payload};
use crate::num_bytes::{
    le_bytes, le_nat, lemma_le_bytes_len, lemma_le_bytes_of_value, lemma_le_round_trip,
    lemma_pow256_facts, push_le, read_le,
};
use crate::text::utf8_string;

verus! {

pub open spec fn u64_bytes(v: u64) -> Seq<u8> {
    le_bytes(v as nat, 8)
}

pub open spec fn i64_bytes(v: i64) -> Seq<u8> {
    le_bytes((v as u64) as nat, 8)
}

/// A string: its UTF-8 byte length, then the bytes.
pub open spec fn str_bytes(s: Seq<char>) -> Seq<u8> {
    u64_bytes(encode_utf8(s).len() as u64) + encode_utf8(s)
}

pub open spec fn type_bytes(t: EventType) -> Seq<u8> {
    match t {
        EventType::Trade => le_bytes(0, 4),
        EventType::Quote => le_bytes(1, 4),
    }
}

pub open spec fn payload_bytes(p: Payload) -> Seq<u8> {
    match p {
        Payload::Trade { price_ticks, size } => le_bytes(0, 4) + i64_bytes(price_ticks) + i64_bytes(size),
        Payload::Quote { bid_px, bid_sz, ask_px, ask_sz } => le_bytes(1, 4) + i64_bytes(bid_px)
            + i64_bytes(bid_sz) + i64_bytes(ask_px) + i64_bytes(ask_sz),
    }
}

/// The encoding of an event.
#[verifier::opaque]
pub open spec fn event_bytes(v: EventView) -> Seq<u8> {
    u64_bytes(v.timestamp_ns) + u64_bytes(v.sequence) + str_bytes(v.venue) + str_bytes(v.symbol)
        + type_bytes(v.event_type) + payload_bytes(v.payload)
}

fn push_str(out: &mut Vec<u8>, s: &str)
    ensures
        final(out)@ == old(out)@ + str_bytes(s@),
{
    let b = s.as_bytes();
    push_le(out, b.len() as u64, 8);
    let ghost mid = out@;
    let mut i: usize = 0;
    while i < b.len()
        invariant
            i <= b@.len(),
            out@ == mid + b@.subrange(0, i as int),
        decreases b.len() - i,
    {
        out.push(b[i]);
        i = i + 1;
        proof {
            assert(out@ =~= mid + b@.subrange(0, i as int));
        }
    }
    proof {
        assert(b@.subrange(0, b@.len() as int) =~= b@);
        assert(out@ =~= old(out)@ + str_bytes(s@));
    }
}

fn push_payload(out: &mut Vec<u8>, p: Payload)
    ensures
        final(out)@ == old(out)@ + payload_bytes(p),
{
    match p {
        Payload::Trade { price_ticks, size } => {
            push_le(out, 0, 4);
            push_le(out, price_ticks as u64, 8);
            push_le(out, size as u64, 8);
        },
        Payload::Quote { bid_px, bid_sz, ask_px, ask_sz } => {
            push_le(out, 1, 4);
            push_le(out, bid_px as u64, 8);
            push_le(out, bid_sz as u64, 8);
            push_le(out, ask_px as u64, 8);
            push_le(out, ask_sz as u64, 8);
        },
    }
    proof {
        assert(out@ =~= old(out)@ + payload_bytes(p));
    }
}

/// Encodes an event.
pub fn encode_event(e: &Event) -> (r: Vec<u8>)
    ensures
        r@ == event_bytes(e@),
{
    let mut out: Vec<u8> = Vec::new();
    push_le(&mut out, e.timestamp_ns, 8);
    push_le(&mut out, e.sequence, 8);
    push_str(&mut out, e.venue.as_str());
    push_str(&mut out, e.symbol.as_str());
    match e.event_type {
        EventType::Trade => push_le(&mut out, 0, 4),
        EventType::Quote => push_le(&mut out, 1, 4),
    }
    push_payload(&mut out, e.payload);
    proof {
        reveal(event_bytes);
        assert(out@ =~= event_bytes(e@));
    }
    out
}

/// Reads a little-endian integer of `n` bytes at `pos`, if the bytes are there.
fn read_le_at(b: &[u8], pos: usize, n: usize) -> (r: Option<u64>)
    requires
        n <= 8,
        pos <= b@.len(),
    ensures
        pos + n <= b@.len() <==> r is Some,
        r matches Some(v) ==> v == le_nat(b@.subrange(pos as int, pos + n)),
{
    if b.len() - pos < n {
        None
    } else {
        Some(read_le(b, pos, n))
    }
}

proof fn lemma_read_back(b: Seq<u8>, pos: int, n: nat, v: nat)
    requires
        0 <= pos,
        pos + n <= b.len(),
        b.subrange(pos, pos + n) == le_bytes(v, n),
        v < crate::num_bytes::pow256(n),
    ensures
        le_nat(b.subrange(pos, pos + n)) == v,
{
    lemma_le_round_trip(v, n);
}

/// Reads a length-prefixed UTF-8 string at `pos`; gives it and the position after it.
fn read_str_at(b: &[u8], pos: usize) -> (r: Option<(String, usize)>)
    requires
        pos <= b@.len(),
    ensures
        r matches Some((s, next)) ==> next <= b@.len() && next == pos + str_bytes(s@).len()
            && b@.subrange(pos as int, next as int) == str_bytes(s@),
        forall|v: Seq<char>|
            pos + str_bytes(v).len() <= b@.len() && #[trigger] b@.subrange(
                pos as int,
                pos + str_bytes(v).len(),
            ) == str_bytes(v) ==> (r matches Some((s, next)) && s@ == v),
{
    let len = match read_le_at(b, pos, 8) {
        Some(v) => v,
        None => {
            proof {
                assert forall|v: Seq<char>|
                    pos + str_bytes(v).len() <= b@.len() implies #[trigger] b@.subrange(
                        pos as int,
                        pos + str_bytes(v).len(),
                    ) != str_bytes(v) by {
                    lemma_le_bytes_len(encode_utf8(v).len(), 8);
                }
            }
            return None;
        },
    };
    let blen = b.len();
    let start = pos + 8;
    if ((b.len() - start) as u64) < len {
        proof {
            assert forall|v: Seq<char>|
                pos + str_bytes(v).len() <= b@.len() implies #[trigger] b@.subrange(
                    pos as int,
                    pos + str_bytes(v).len(),
                ) != str_bytes(v) by {
                let w = str_bytes(v);
                lemma_le_bytes_len(encode_utf8(v).len(), 8);
                if b@.subrange(pos as int, pos + w.len()) == w {
                    assert(b@.subrange(pos as int, pos + 8) =~= w.subrange(0, 8));
                    assert(w.subrange(0, 8) =~= u64_bytes(encode_utf8(v).len() as u64));
                    lemma_pow256_facts(8);
                    lemma_read_back(b@, pos as int, 8, encode_utf8(v).len());
                }
            }
        }
        return None;
    }
    let end = start + len as usize;
    let mut bytes: Vec<u8> = Vec::new();
    let mut i: usize = start;
    while i < end
        invariant
            start <= i <= end <= b@.len(),
            bytes@ == b@.subrange(start as int, i as int),
        decreases end - i,
    {
        bytes.push(b[i]);
        i = i + 1;
        proof {
            assert(bytes@ =~= b@.subrange(start as int, i as int));
        }
    }
    let ghost raw = bytes@;
    match utf8_string(bytes) {
        Some(s) => {
            proof {
                lemma_le_bytes_of_value(b@.subrange(pos as int, pos + 8));
                assert(b@.subrange(pos as int, end as int) =~= b@.subrange(pos as int, pos + 8) + raw);
                encode_utf8_decode_utf8(s@);
                assert forall|v: Seq<char>|
                    pos + str_bytes(v).len() <= b@.len() && #[trigger] b@.subrange(
                        pos as int,
                        pos + str_bytes(v).len(),
                    ) == str_bytes(v) implies s@ == v by {
                    let w = str_bytes(v);
                    lemma_le_bytes_len(encode_utf8(v).len(), 8);
                    assert(b@.subrange(pos as int, pos + 8) =~= w.subrange(0, 8));
                    assert(w.subrange(0, 8) =~= u64_bytes(encode_utf8(v).len() as u64));
                    lemma_pow256_facts(8);
                    lemma_read_back(b@, pos as int, 8, encode_utf8(v).len());
                    assert(raw =~= w.subrange(8, w.len() as int));
                    assert(raw =~= encode_utf8(v));
                    encode_utf8_decode_utf8(v);
                }
            }
            Some((s, end))
        },
        None => {
            proof {
                assert forall|v: Seq<char>|
                    pos + str_bytes(v).len() <= b@.len() implies #[trigger] b@.subrange(
                        pos as int,
                        pos + str_bytes(v).len(),
                    ) != str_bytes(v) by {
                    let w = str_bytes(v);
                    lemma_le_bytes_len(encode_utf8(v).len(), 8);
                    if b@.subrange(pos as int, pos + w.len()) == w {
                        assert(b@.subrange(pos as int, pos + 8) =~= w.subrange(0, 8));
                        assert(w.subrange(0, 8) =~= u64_bytes(encode_utf8(v).len() as u64));
                        lemma_pow256_facts(8);
                        lemma_read_back(b@, pos as int, 8, encode_utf8(v).len());
                        assert(raw =~= w.subrange(8, w.len() as int));
                        assert(raw =~= encode_utf8(v));
                        vstd::utf8::encode_utf8_valid_utf8(v);
                    }
                }
            }
            None
        },
    }
}


/// Reads a `u64` at `pos`.
fn read_u64_field(b: &[u8], pos: usize) -> (r: Option<u64>)
    requires
        pos <= b@.len(),
    ensures
        pos + 8 <= b@.len() <==> r is Some,
        r matches Some(x) ==> b@.subrange(pos as int, pos + 8) == u64_bytes(x),
        forall|y: u64| pos + 8 <= b@.len() && b@.subrange(pos as int, pos + 8) == #[trigger] u64_bytes(y) ==> r == Some(y),
{
    let r = read_le_at(b, pos, 8);
    proof {
        lemma_pow256_facts(8);
        if pos + 8 <= b@.len() {
            lemma_le_bytes_of_value(b@.subrange(pos as int, pos + 8));
            assert forall|y: u64| b@.subrange(pos as int, pos + 8) == #[trigger] u64_bytes(y) implies r == Some(y) by {
                lemma_read_back(b@, pos as int, 8, y as nat);
            }
        }
    }
    r
}

/// Reads an `i64` at `pos`.
fn read_i64_field(b: &[u8], pos: usize) -> (r: Option<i64>)
    requires
        pos <= b@.len(),
    ensures
        pos + 8 <= b@.len() <==> r is Some,
        r matches Some(x) ==> b@.subrange(pos as int, pos + 8) == i64_bytes(x),
        forall|y: i64| pos + 8 <= b@.len() && b@.subrange(pos as int, pos + 8) == #[trigger] i64_bytes(y) ==> r == Some(y),
{
    match read_u64_field(b, pos) {
        Some(v) => {
            let x = v as i64;
            proof {
                assert((x as u64) == v) by (bit_vector)
                    requires
                        x == v as i64,
                ;
                assert forall|y: i64| b@.subrange(pos as int, pos + 8) == #[trigger] i64_bytes(y) implies x == y by {
                    assert(u64_bytes(y as u64) == i64_bytes(y));
                    assert(v == y as u64);
                    assert(x == y) by (bit_vector)
                        requires
                            x == v as i64,
                            v == y as u64,
                    ;
                }
            }
            Some(x)
        },
        None => None,
    }
}

/// Reads a `u32` variant index at `pos`.
fn read_tag(b: &[u8], pos: usize) -> (r: Option<u64>)
    requires
        pos <= b@.len(),
    ensures
        pos + 4 <= b@.len() <==> r is Some,
        r matches Some(x) ==> x < 0x1_0000_0000 && b@.subrange(pos as int, pos + 4) == le_bytes(x as nat, 4),
        forall|y: nat| y < 0x1_0000_0000 && pos + 4 <= b@.len() && b@.subrange(pos as int, pos + 4) == #[trigger] le_bytes(y, 4) ==> r == Some(y as u64),
{
    let r = read_le_at(b, pos, 4);
    proof {
        lemma_pow256_facts(4);
        if pos + 4 <= b@.len() {
            lemma_le_bytes_of_value(b@.subrange(pos as int, pos + 4));
            crate::num_bytes::lemma_le_value_bound(b@.subrange(pos as int, pos + 4));
            assert forall|y: nat| y < 0x1_0000_0000 && b@.subrange(pos as int, pos + 4) == #[trigger] le_bytes(y, 4) implies r == Some(y as u64) by {
                lemma_read_back(b@, pos as int, 4, y);
            }
        }
    }
    r
}

proof fn lemma_tag_distinct()
    ensures
        le_bytes(0, 4) != le_bytes(1, 4),
        le_bytes(0, 4).len() == 4,
        le_bytes(1, 4).len() == 4,
{
    lemma_pow256_facts(4);
    lemma_le_round_trip(0, 4);
    lemma_le_round_trip(1, 4);
}

pub open spec fn payload_len(p: Payload) -> nat {
    match p {
        Payload::Trade { .. } => 20,
        Payload::Quote { .. } => 36,
    }
}

proof fn lemma_payload_len(p: Payload)
    ensures
        payload_bytes(p).len() == payload_len(p),
{
    lemma_tag_distinct();
    lemma_le_bytes_len((0u64 as u64) as nat, 8);
    assert forall|x: i64| #[trigger] i64_bytes(x).len() == 8 by {
        lemma_le_bytes_len((x as u64) as nat, 8);
    }
}

/// Reads a payload at `pos`; gives it and the position after it.
fn read_payload(b: &[u8], pos: usize) -> (r: Option<(Payload, usize)>)
    requires
        pos <= b@.len(),
    ensures
        r matches Some((p, next)) ==> next == pos + payload_len(p) && next <= b@.len()
            && b@.subrange(pos as int, next as int) == payload_bytes(p),
        forall|q: Payload|
            pos + payload_len(q) <= b@.len() && #[trigger] b@.subrange(pos as int, pos + payload_len(q))
                == payload_bytes(q) ==> r == Some((q, (pos + payload_len(q)) as usize)),
{
    proof {
        lemma_tag_distinct();
        assert forall|x: i64| #[trigger] i64_bytes(x).len() == 8 by {
            lemma_le_bytes_len((x as u64) as nat, 8);
        }
        assert forall|q: Payload| #[trigger] payload_bytes(q).len() == payload_len(q) by {
            lemma_payload_len(q);
        }
    }
    let blen = b.len();
    let tag = match read_tag(b, pos) {
        Some(t) => t,
        None => {
            proof {
                assert forall|q: Payload| pos + payload_len(q) <= b@.len() implies #[trigger] b@.subrange(pos as int, pos + payload_len(q)) != payload_bytes(q) by {}
            }
            return None;
        },
    };
    assert forall|q: Payload| pos + payload_len(q) <= b@.len() && #[trigger] b@.subrange(pos as int, pos + payload_len(q))
        == payload_bytes(q) implies b@.subrange(pos as int, pos + 4) == le_bytes(if q is Trade { 0 } else { 1 }, 4) by {
        assert(b@.subrange(pos as int, pos + 4) =~= payload_bytes(q).subrange(0, 4));
    }
    if tag == 0 {
        let price_ticks = match read_i64_field(b, pos + 4) {
            Some(v) => v,
            None => {
                proof {
                    assert forall|q: Payload| pos + payload_len(q) <= b@.len() implies #[trigger] b@.subrange(pos as int, pos + payload_len(q)) != payload_bytes(q) by {
                        if b@.subrange(pos as int, pos + payload_len(q)) == payload_bytes(q) {
                            assert(b@.subrange(pos as int, pos + 4) == le_bytes(if q is Trade { 0 } else { 1 }, 4));
                        }
                    }
                }
                return None;
            },
        };
        let size = match read_i64_field(b, pos + 12) {
            Some(v) => v,
            None => {
                proof {
                    assert forall|q: Payload| pos + payload_len(q) <= b@.len() implies #[trigger] b@.subrange(pos as int, pos + payload_len(q)) != payload_bytes(q) by {
                        if b@.subrange(pos as int, pos + payload_len(q)) == payload_bytes(q) {
                            assert(b@.subrange(pos as int, pos + 4) == le_bytes(if q is Trade { 0 } else { 1 }, 4));
                        }
                    }
                }
                return None;
            },
        };
        let p = Payload::Trade { price_ticks, size };
        proof {
            assert(b@.subrange(pos as int, pos + 20) =~= b@.subrange(pos as int, pos + 4) + b@.subrange(pos + 4, pos + 12) + b@.subrange(pos + 12, pos + 20));
            assert forall|q: Payload| pos + payload_len(q) <= b@.len() && #[trigger] b@.subrange(pos as int, pos + payload_len(q))
                == payload_bytes(q) implies q == p by {
                assert(b@.subrange(pos as int, pos + 4) == le_bytes(if q is Trade { 0 } else { 1 }, 4));
                if let Payload::Trade { price_ticks: qp, size: qs } = q {
                    assert(b@.subrange(pos + 4, pos + 12) =~= payload_bytes(q).subrange(4, 12));
                    assert(payload_bytes(q).subrange(4, 12) =~= i64_bytes(qp));
                    assert(b@.subrange(pos + 12, pos + 20) =~= payload_bytes(q).subrange(12, 20));
                    assert(payload_bytes(q).subrange(12, 20) =~= i64_bytes(qs));
                }
            }
        }
        Some((p, pos + 20))
    } else if tag == 1 {
        let bid_px = match read_i64_field(b, pos + 4) {
            Some(v) => v,
            None => {
                proof {
                    assert forall|q: Payload| pos + payload_len(q) <= b@.len() implies #[trigger] b@.subrange(pos as int, pos + payload_len(q)) != payload_bytes(q) by {
                        if b@.subrange(pos as int, pos + payload_len(q)) == payload_bytes(q) {
                            assert(b@.subrange(pos as int, pos + 4) == le_bytes(if q is Trade { 0 } else { 1 }, 4));
                        }
                    }
                }
                return None;
            },
        };
        let bid_sz = match read_i64_field(b, pos + 12) {
            Some(v) => v,
            None => {
                proof {
                    assert forall|q: Payload| pos + payload_len(q) <= b@.len() implies #[trigger] b@.subrange(pos as int, pos + payload_len(q)) != payload_bytes(q) by {
                        if b@.subrange(pos as int, pos + payload_len(q)) == payload_bytes(q) {
                            assert(b@.subrange(pos as int, pos + 4) == le_bytes(if q is Trade { 0 } else { 1 }, 4));
                        }
                    }
                }
                return None;
            },
        };
        let ask_px = match read_i64_field(b, pos + 20) {
            Some(v) => v,
            None => {
                proof {
                    assert forall|q: Payload| pos + payload_len(q) <= b@.len() implies #[trigger] b@.subrange(pos as int, pos + payload_len(q)) != payload_bytes(q) by {
                        if b@.subrange(pos as int, pos + payload_len(q)) == payload_bytes(q) {
                            assert(b@.subrange(pos as int, pos + 4) == le_bytes(if q is Trade { 0 } else { 1 }, 4));
                        }
                    }
                }
                return None;
            },
        };
        let ask_sz = match read_i64_field(b, pos + 28) {
            Some(v) => v,
            None => {
                proof {
                    assert forall|q: Payload| pos + payload_len(q) <= b@.len() implies #[trigger] b@.subrange(pos as int, pos + payload_len(q)) != payload_bytes(q) by {
                        if b@.subrange(pos as int, pos + payload_len(q)) == payload_bytes(q) {
                            assert(b@.subrange(pos as int, pos + 4) == le_bytes(if q is Trade { 0 } else { 1 }, 4));
                        }
                    }
                }
                return None;
            },
        };
        let p = Payload::Quote { bid_px, bid_sz, ask_px, ask_sz };
        proof {
            assert(b@.subrange(pos as int, pos + 36) =~= b@.subrange(pos as int, pos + 4) + b@.subrange(pos + 4, pos + 12) + b@.subrange(pos + 12, pos + 20) + b@.subrange(pos + 20, pos + 28) + b@.subrange(pos + 28, pos + 36));
            assert forall|q: Payload| pos + payload_len(q) <= b@.len() && #[trigger] b@.subrange(pos as int, pos + payload_len(q))
                == payload_bytes(q) implies q == p by {
                assert(b@.subrange(pos as int, pos + 4) == le_bytes(if q is Trade { 0 } else { 1 }, 4));
                if let Payload::Quote { bid_px: a1, bid_sz: a2, ask_px: a3, ask_sz: a4 } = q {
                    let w = payload_bytes(q);
                    assert(b@.subrange(pos + 4, pos + 12) =~= w.subrange(4, 12));
                    assert(w.subrange(4, 12) =~= i64_bytes(a1));
                    assert(b@.subrange(pos + 12, pos + 20) =~= w.subrange(12, 20));
                    assert(w.subrange(12, 20) =~= i64_bytes(a2));
                    assert(b@.subrange(pos + 20, pos + 28) =~= w.subrange(20, 28));
                    assert(w.subrange(20, 28) =~= i64_bytes(a3));
                    assert(b@.subrange(pos + 28, pos + 36) =~= w.subrange(28, 36));
                    assert(w.subrange(28, 36) =~= i64_bytes(a4));
                }
            }
        }
        Some((p, pos + 36))
    } else {
        proof {
            assert forall|q: Payload| pos + payload_len(q) <= b@.len() implies #[trigger] b@.subrange(pos as int, pos + payload_len(q)) != payload_bytes(q) by {
                if b@.subrange(pos as int, pos + payload_len(q)) == payload_bytes(q) {
                    assert(b@.subrange(pos as int, pos + 4) == le_bytes(if q is Trade { 0 } else { 1 }, 4));
                }
            }
        }
        None
    }
}


pub(crate) proof fn lemma_event_layout(v: EventView)
    ensures
        ({
            let b = event_bytes(v);
            let o_sym = 16 + str_bytes(v.venue).len() as int;
            let o_type = o_sym + str_bytes(v.symbol).len() as int;
            let o_pay = o_type + 4;
            &&& b.len() == o_pay + payload_len(v.payload)
            &&& b.subrange(0, 8) == u64_bytes(v.timestamp_ns)
            &&& b.subrange(8, 16) == u64_bytes(v.sequence)
            &&& b.subrange(16, o_sym) == str_bytes(v.venue)
            &&& b.subrange(o_sym, o_type) == str_bytes(v.symbol)
            &&& b.subrange(o_type, o_pay) == type_bytes(v.event_type)
            &&& b.subrange(o_pay, b.len() as int) == payload_bytes(v.payload)
        }),
{
    reveal(event_bytes);
    lemma_le_bytes_len(v.timestamp_ns as nat, 8);
    lemma_le_bytes_len(v.sequence as nat, 8);
    lemma_tag_distinct();
    lemma_payload_len(v.payload);
    let b = event_bytes(v);
    let o_sym = 16 + str_bytes(v.venue).len() as int;
    let o_type = o_sym + str_bytes(v.symbol).len() as int;
    let o_pay = o_type + 4;
    assert(b.subrange(0, 8) =~= u64_bytes(v.timestamp_ns));
    assert(b.subrange(8, 16) =~= u64_bytes(v.sequence));
    assert(b.subrange(16, o_sym) =~= str_bytes(v.venue));
    assert(b.subrange(o_sym, o_type) =~= str_bytes(v.symbol));
    assert(b.subrange(o_type, o_pay) =~= type_bytes(v.event_type));
    assert(b.subrange(o_pay, b.len() as int) =~= payload_bytes(v.payload));
}

#[verifier::rlimit(100)]
/// Decodes an event; only the exact encoding of an event decodes, and it
/// decodes to that event.
pub fn decode_event(b: &[u8]) -> (r: Option<Event>)
    ensures
        r matches Some(e) ==> event_bytes(e@) == b@,
        forall|v: EventView| #[trigger] event_bytes(v) == b@ ==> (r matches Some(e) && e@ == v),
{
    proof {
        lemma_tag_distinct();
    }
    let blen = b.len();
    let timestamp_ns = match read_u64_field(b, 0) {
        Some(x) => x,
        None => {
            proof {
                assert forall|v: EventView| #[trigger] event_bytes(v) != b@ by {
                    lemma_event_layout(v);
                }
            }
            return None;
        },
    };
    let sequence = match read_u64_field(b, 8) {
        Some(x) => x,
        None => {
            proof {
                assert forall|v: EventView| #[trigger] event_bytes(v) != b@ by {
                    lemma_event_layout(v);
                }
            }
            return None;
        },
    };
    let (venue, after_venue) = match read_str_at(b, 16) {
        Some(x) => x,
        None => {
            proof {
                assert forall|v: EventView| #[trigger] event_bytes(v) != b@ by {
                    lemma_event_layout(v);
                }
            }
            return None;
        },
    };
    let (symbol, after_symbol) = match read_str_at(b, after_venue) {
        Some(x) => x,
        None => {
            proof {
                assert forall|v: EventView| #[trigger] event_bytes(v) != b@ by {
                    lemma_event_layout(v);
                    if event_bytes(v) == b@ {
                        assert(b@.subrange(16, 16 + str_bytes(v.venue).len() as int) == str_bytes(v.venue));
                    }
                }
            }
            return None;
        },
    };
    let tag = match read_tag(b, after_symbol) {
        Some(x) => x,
        None => {
            proof {
                assert forall|v: EventView| #[trigger] event_bytes(v) != b@ by {
                    lemma_event_layout(v);
                    if event_bytes(v) == b@ {
                        assert(b@.subrange(16, 16 + str_bytes(v.venue).len() as int) == str_bytes(v.venue));
                        let o_sym = 16 + str_bytes(v.venue).len() as int;
                        assert(b@.subrange(o_sym, o_sym + str_bytes(v.symbol).len() as int) == str_bytes(v.symbol));
                    }
                }
            }
            return None;
        },
    };
    let event_type = if tag == 0 {
        EventType::Trade
    } else if tag == 1 {
        EventType::Quote
    } else {
        proof {
            assert forall|v: EventView| #[trigger] event_bytes(v) != b@ by {
                lemma_event_layout(v);
                if event_bytes(v) == b@ {
                    assert(b@.subrange(16, 16 + str_bytes(v.venue).len() as int) == str_bytes(v.venue));
                    let o_sym = 16 + str_bytes(v.venue).len() as int;
                    assert(b@.subrange(o_sym, o_sym + str_bytes(v.symbol).len() as int) == str_bytes(v.symbol));
                    let o_type = o_sym + str_bytes(v.symbol).len() as int;
                    assert(b@.subrange(o_type, o_type + 4) == type_bytes(v.event_type));
                }
            }
        }
        return None;
    };
    let (payload, end) = match read_payload(b, after_symbol + 4) {
        Some(x) => x,
        None => {
            proof {
                assert forall|v: EventView| #[trigger] event_bytes(v) != b@ by {
                    lemma_event_layout(v);
                    if event_bytes(v) == b@ {
                        assert(b@.subrange(16, 16 + str_bytes(v.venue).len() as int) == str_bytes(v.venue));
                        let o_sym = 16 + str_bytes(v.venue).len() as int;
                        assert(b@.subrange(o_sym, o_sym + str_bytes(v.symbol).len() as int) == str_bytes(v.symbol));
                        let o_type = o_sym + str_bytes(v.symbol).len() as int;
                        assert(b@.subrange(o_type + 4, b@.len() as int) == payload_bytes(v.payload));
                    }
                }
            }
            return None;
        },
    };
    if end != b.len() {
        proof {
            assert forall|v: EventView| #[trigger] event_bytes(v) != b@ by {
                lemma_event_layout(v);
                if event_bytes(v) == b@ {
                    assert(b@.subrange(16, 16 + str_bytes(v.venue).len() as int) == str_bytes(v.venue));
                    let o_sym = 16 + str_bytes(v.venue).len() as int;
                    assert(b@.subrange(o_sym, o_sym + str_bytes(v.symbol).len() as int) == str_bytes(v.symbol));
                    let o_type = o_sym + str_bytes(v.symbol).len() as int;
                    assert(b@.subrange(o_type + 4, b@.len() as int) == payload_bytes(v.payload));
                }
            }
        }
        return None;
    }
    let e = Event { timestamp_ns, sequence, venue, symbol, event_type, payload };
    proof {
        assert(type_bytes(event_type) == le_bytes(tag as nat, 4));
        assert(b@ =~= b@.subrange(0, 8) + b@.subrange(8, 16) + b@.subrange(16, after_venue as int) + b@.subrange(
            after_venue as int,
            after_symbol as int,
        ) + b@.subrange(after_symbol as int, after_symbol + 4) + b@.subrange(after_symbol + 4, end as int));
        reveal(event_bytes);
        assert(event_bytes(e@) =~= b@);
        assert forall|v: EventView| #[trigger] event_bytes(v) == b@ implies e@ == v by {
            lemma_event_layout(v);
            assert(b@.subrange(16, 16 + str_bytes(v.venue).len() as int) == str_bytes(v.venue));
            let o_sym = 16 + str_bytes(v.venue).len() as int;
            assert(b@.subrange(o_sym, o_sym + str_bytes(v.symbol).len() as int) == str_bytes(v.symbol));
            let o_type = o_sym + str_bytes(v.symbol).len() as int;
            assert(b@.subrange(o_type, o_type + 4) == type_bytes(v.event_type));
            assert(b@.subrange(o_type + 4, b@.len() as int) == payload_bytes(v.payload));
            assert(b@.subrange(o_type + 4, o_type + 4 + payload_len(v.payload) as int) == payload_bytes(v.payload));
        }
    }
    Some(e)
}


proof fn lemma_u64_bytes_inj(x: u64, y: u64)
    requires
        u64_bytes(x) == u64_bytes(y),
    ensures
        x == y,
{
    lemma_pow256_facts(8);
    lemma_le_round_trip(x as nat, 8);
    lemma_le_round_trip(y as nat, 8);
}

proof fn lemma_i64_bytes_inj(x: i64, y: i64)
    requires
        i64_bytes(x) == i64_bytes(y),
    ensures
        x == y,
{
    lemma_u64_bytes_inj(x as u64, y as u64);
    assert(x == y) by (bit_vector)
        requires
            x as u64 == y as u64,
    ;
}

proof fn lemma_str_bytes_inj(b: Seq<u8>, pos: int, s: Seq<char>, t: Seq<char>)
    requires
        encode_utf8(s).len() <= u64::MAX,
        encode_utf8(t).len() <= u64::MAX,
        0 <= pos,
        pos + str_bytes(s).len() <= b.len(),
        pos + str_bytes(t).len() <= b.len(),
        b.subrange(pos, pos + str_bytes(s).len()) == str_bytes(s),
        b.subrange(pos, pos + str_bytes(t).len()) == str_bytes(t),
    ensures
        s == t,
{
    lemma_le_bytes_len((encode_utf8(s).len() as u64) as nat, 8);
    lemma_le_bytes_len((encode_utf8(t).len() as u64) as nat, 8);
    assert(b.subrange(pos, pos + 8) =~= str_bytes(s).subrange(0, 8));
    assert(b.subrange(pos, pos + 8) =~= str_bytes(t).subrange(0, 8));
    assert(str_bytes(s).subrange(0, 8) =~= u64_bytes(encode_utf8(s).len() as u64));
    assert(str_bytes(t).subrange(0, 8) =~= u64_bytes(encode_utf8(t).len() as u64));
    lemma_u64_bytes_inj(encode_utf8(s).len() as u64, encode_utf8(t).len() as u64);
    let ls = str_bytes(s).len() as int;
    let lt = str_bytes(t).len() as int;
    assert(str_bytes(s).subrange(8, ls) =~= encode_utf8(s));
    assert(str_bytes(t).subrange(8, lt) =~= encode_utf8(t));
    assert(b.subrange(pos + 8, pos + ls) =~= b.subrange(pos, pos + ls).subrange(8, ls));
    assert(b.subrange(pos + 8, pos + lt) =~= b.subrange(pos, pos + lt).subrange(8, lt));
    assert(ls == lt);
    encode_utf8_decode_utf8(s);
    encode_utf8_decode_utf8(t);
}

/// The byte lengths of an event's strings fit the `u64` length prefix.
pub open spec fn strings_fit(v: EventView) -> bool {
    encode_utf8(v.venue).len() <= u64::MAX && encode_utf8(v.symbol).len() <= u64::MAX
}

/// Different events have different encodings.
pub proof fn lemma_event_bytes_injective(a: EventView, b: EventView)
    requires
        strings_fit(a),
        strings_fit(b),
        event_bytes(a) == event_bytes(b),
    ensures
        a == b,
{
    lemma_event_layout(a);
    lemma_event_layout(b);
    lemma_tag_distinct();
    let d = event_bytes(a);
    lemma_u64_bytes_inj(a.timestamp_ns, b.timestamp_ns);
    lemma_u64_bytes_inj(a.sequence, b.sequence);
    lemma_str_bytes_inj(d, 16, a.venue, b.venue);
    let o_sym = 16 + str_bytes(a.venue).len() as int;
    lemma_str_bytes_inj(d, o_sym, a.symbol, b.symbol);
    let o_type = o_sym + str_bytes(a.symbol).len() as int;
    assert(type_bytes(a.event_type) == type_bytes(b.event_type));
    let pa = payload_bytes(a.payload);
    let pb = payload_bytes(b.payload);
    assert(pa == pb);
    assert forall|x: i64| #[trigger] i64_bytes(x).len() == 8 by {
        lemma_le_bytes_len((x as u64) as nat, 8);
    }
    lemma_payload_len(a.payload);
    assert(pa.subrange(0, 4) == pb.subrange(0, 4));
    match (a.payload, b.payload) {
        (Payload::Trade { price_ticks: px_a, size: sz_a }, Payload::Trade { price_ticks: px_b, size: sz_b }) => {
            assert(pa.subrange(4, 12) =~= i64_bytes(px_a));
            assert(pb.subrange(4, 12) =~= i64_bytes(px_b));
            assert(pa.subrange(12, 20) =~= i64_bytes(sz_a));
            assert(pb.subrange(12, 20) =~= i64_bytes(sz_b));
            lemma_i64_bytes_inj(px_a, px_b);
            lemma_i64_bytes_inj(sz_a, sz_b);
        },
        (
            Payload::Quote { bid_px: a1, bid_sz: a2, ask_px: a3, ask_sz: a4 },
            Payload::Quote { bid_px: b1, bid_sz: b2, ask_px: b3, ask_sz: b4 },
        ) => {
            assert(pa.subrange(4, 12) =~= i64_bytes(a1));
            assert(pb.subrange(4, 12) =~= i64_bytes(b1));
            assert(pa.subrange(12, 20) =~= i64_bytes(a2));
            assert(pb.subrange(12, 20) =~= i64_bytes(b2));
            assert(pa.subrange(20, 28) =~= i64_bytes(a3));
            assert(pb.subrange(20, 28) =~= i64_bytes(b3));
            assert(pa.subrange(28, 36) =~= i64_bytes(a4));
            assert(pb.subrange(28, 36) =~= i64_bytes(b4));
            lemma_i64_bytes_inj(a1, b1);
            lemma_i64_bytes_inj(a2, b2);
            lemma_i64_bytes_inj(a3, b3);
            lemma_i64_bytes_inj(a4, b4);
        },
        (Payload::Trade { .. }, Payload::Quote { .. }) => {
            assert(pa.subrange(0, 4) =~= le_bytes(0, 4));
            assert(pb.subrange(0, 4) =~= le_bytes(1, 4));
        },
        (Payload::Quote { .. }, Payload::Trade { .. }) => {
            assert(pa.subrange(0, 4) =~= le_bytes(1, 4));
            assert(pb.subrange(0, 4) =~= le_bytes(0, 4));
        },
    }
}

} // verus!
