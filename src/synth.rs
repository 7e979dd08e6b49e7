//! Synthetic packet captures: order-book messages in UDP datagrams, written
//! as a libpcap file, with occasional out-of-order timestamps and malformed
//! payloads.
use vstd::prelude::*;
use vstd::utf8::encode_utf8;
use crate::num_bytes::{be_nat, le_bytes, push_le};
use crate::packets::udp_spec;
use crate::itch::{i64_at, message_spec, trim_padding, u64_at, MessageView, Side};
use crate::num_bytes::pow256;
use crate::text::{all_ascii, ascii_chars};

verus! {

#[verifier::external_type_specification]
#[verifier::external_body]
pub struct ExChaCha8Rng(rand_chacha::ChaCha8Rng);

/// Relies on `SeedableRng::seed_from_u64` of rand_chacha's ChaCha8 generator.
#[verifier::external_body]
fn seeded_rng(seed: u64) -> (r: rand_chacha::ChaCha8Rng) {
    <rand_chacha::ChaCha8Rng as rand::SeedableRng>::seed_from_u64(seed)
}

/// Relies on rand's `Rng::gen_range` over `lo..hi`: a value in the range.
#[verifier::external_body]
fn draw_u64(rng: &mut rand_chacha::ChaCha8Rng, lo: u64, hi: u64) -> (r: u64)
    requires
        lo < hi,
    ensures
        lo <= r < hi,
{
    rand::Rng::gen_range(rng, lo..hi)
}

/// Relies on rand's `Rng::gen_range` over `lo..hi`: a value in the range.
#[verifier::external_body]
fn draw_i64(rng: &mut rand_chacha::ChaCha8Rng, lo: i64, hi: i64) -> (r: i64)
    requires
        lo < hi,
    ensures
        lo <= r < hi,
{
    rand::Rng::gen_range(rng, lo..hi)
}

/// Relies on rand's `Rng::gen_range` over `lo..hi`: a value in the range.
#[verifier::external_body]
fn draw_usize(rng: &mut rand_chacha::ChaCha8Rng, lo: usize, hi: usize) -> (r: usize)
    requires
        lo < hi,
    ensures
        lo <= r < hi,
{
    rand::Rng::gen_range(rng, lo..hi)
}

/// Relies on rand's `Rng::gen_ratio`: true with chance `numerator / denominator`.
#[verifier::external_body]
fn draw_ratio(rng: &mut rand_chacha::ChaCha8Rng, numerator: u32, denominator: u32) -> (r: bool)
    requires
        0 < denominator,
        numerator <= denominator,
{
    rand::Rng::gen_ratio(rng, numerator, denominator)
}

/// Relies on `RngCore::fill_bytes`: overwrites the bytes, keeping their number.
#[verifier::external_body]
fn fill_random(rng: &mut rand_chacha::ChaCha8Rng, buf: &mut Vec<u8>)
    ensures
        final(buf)@.len() == old(buf)@.len(),
{
    rand::RngCore::fill_bytes(rng, buf.as_mut_slice())
}

/// The `n` big-endian bytes of `v`.
pub open spec fn be_bytes(v: nat, n: nat) -> Seq<u8>
    decreases n,
{
    if n == 0 {
        Seq::empty()
    } else {
        be_bytes(v / 256, (n - 1) as nat).push((v % 256) as u8)
    }
}

pub proof fn lemma_be_len(v: nat, n: nat)
    ensures
        be_bytes(v, n).len() == n,
    decreases n,
{
    if n > 0 {
        lemma_be_len(v / 256, (n - 1) as nat);
    }
}

fn push_be(out: &mut Vec<u8>, v: u64, n: usize)
    requires
        n <= 8,
    ensures
        final(out)@ == old(out)@ + be_bytes(v as nat, n as nat),
        final(out)@.len() == old(out)@.len() + n,
    decreases n,
{
    if n > 0 {
        push_be(out, v / 256, n - 1);
        out.push((v % 256) as u8);
        proof {
            assert(final(out)@ =~= old(out)@ + be_bytes(v as nat, n as nat));
            lemma_be_len(v as nat, n as nat);
        }
    } else {
        proof {
            assert(out@ =~= old(out)@ + be_bytes(v as nat, 0));
        }
    }
}

/// A symbol in 8 bytes: its first 8 bytes, padded with spaces.
pub open spec fn packed_symbol(b: Seq<u8>) -> Seq<u8> {
    Seq::new(8, |i: int| if i < b.len() { b[i] } else { 32u8 })
}

fn pack_symbol(symbol: &str) -> (r: Vec<u8>)
    ensures
        r@ == packed_symbol(encode_utf8(symbol@)),
{
    let src = symbol.as_bytes();
    let mut out: Vec<u8> = Vec::new();
    let mut i: usize = 0;
    while i < 8
        invariant
            i <= 8,
            out@ == packed_symbol(src@).subrange(0, i as int),
        decreases 8 - i,
    {
        if i < src.len() {
            out.push(src[i]);
        } else {
            out.push(32);
        }
        i = i + 1;
        proof {
            assert(out@ =~= packed_symbol(src@).subrange(0, i as int));
        }
    }
    proof {
        assert(packed_symbol(src@).subrange(0, 8) =~= packed_symbol(src@));
    }
    out
}


/// An add-order message: timestamp, type 1, symbol, side, price, size.
pub open spec fn add_order_bytes(ts: u64, symbol: Seq<u8>, side: u8, price: i64, size: i64) -> Seq<u8> {
    be_bytes(ts as nat, 8) + be_bytes(1, 4) + packed_symbol(symbol) + seq![side] + be_bytes(
        (price as u64) as nat,
        8,
    ) + be_bytes((size as u64) as nat, 8)
}

/// A trade message: timestamp, type 2, symbol, price, size.
pub open spec fn trade_bytes(ts: u64, symbol: Seq<u8>, price: i64, size: i64) -> Seq<u8> {
    be_bytes(ts as nat, 8) + be_bytes(2, 4) + packed_symbol(symbol) + be_bytes((price as u64) as nat, 8)
        + be_bytes((size as u64) as nat, 8)
}

fn add_order_payload(ts_ns: u64, symbol: &str, side: u8, price: i64, size: i64) -> (r: Vec<u8>)
    ensures
        r@ == add_order_bytes(ts_ns, encode_utf8(symbol@), side, price, size),
        r@.len() == 37,
{
    let mut v: Vec<u8> = Vec::new();
    push_be(&mut v, ts_ns, 8);
    push_be(&mut v, 1, 4);
    let sym = pack_symbol(symbol);
    let mut i: usize = 0;
    let ghost start = v@;
    while i < 8
        invariant
            i <= 8,
            sym@.len() == 8,
            v@ == start + sym@.subrange(0, i as int),
        decreases 8 - i,
    {
        v.push(sym[i]);
        i = i + 1;
        proof {
            assert(v@ =~= start + sym@.subrange(0, i as int));
        }
    }
    v.push(side);
    push_be(&mut v, price as u64, 8);
    push_be(&mut v, size as u64, 8);
    proof {
        assert(sym@.subrange(0, 8) =~= sym@);
        assert(v@ =~= add_order_bytes(ts_ns, encode_utf8(symbol@), side, price, size));
    }
    v
}

fn trade_payload(ts_ns: u64, symbol: &str, price: i64, size: i64) -> (r: Vec<u8>)
    ensures
        r@ == trade_bytes(ts_ns, encode_utf8(symbol@), price, size),
        r@.len() == 36,
{
    let mut v: Vec<u8> = Vec::new();
    push_be(&mut v, ts_ns, 8);
    push_be(&mut v, 2, 4);
    let sym = pack_symbol(symbol);
    let mut i: usize = 0;
    let ghost start = v@;
    while i < 8
        invariant
            i <= 8,
            sym@.len() == 8,
            v@ == start + sym@.subrange(0, i as int),
        decreases 8 - i,
    {
        v.push(sym[i]);
        i = i + 1;
        proof {
            assert(v@ =~= start + sym@.subrange(0, i as int));
        }
    }
    push_be(&mut v, price as u64, 8);
    push_be(&mut v, size as u64, 8);
    proof {
        assert(sym@.subrange(0, 8) =~= sym@);
        assert(v@ =~= trade_bytes(ts_ns, encode_utf8(symbol@), price, size));
    }
    v
}

/// 1 to 15 random bytes.
fn malformed_payload(rng: &mut rand_chacha::ChaCha8Rng) -> (r: Vec<u8>)
    ensures
        1 <= r@.len() < 16,
{
    let len = draw_usize(rng, 1, 16);
    let mut data: Vec<u8> = Vec::new();
    let mut i: usize = 0;
    while i < len
        invariant
            i <= len,
            data@.len() == i,
        decreases len - i,
    {
        data.push(0);
        i = i + 1;
    }
    fill_random(rng, &mut data);
    data
}

/// The one's-complement sum of the big-endian 16-bit words of `h` below `2 * n` bytes.
pub open spec fn word_sum(h: Seq<u8>, n: nat) -> nat
    decreases n,
{
    if n == 0 {
        0
    } else {
        (word_sum(h, (n - 1) as nat) + h[2 * n - 2] * 256 + h[2 * n - 1]) as nat
    }
}

pub open spec fn fold_carry(s: nat) -> nat {
    s % 65536 + s / 65536
}

/// The IPv4 header checksum: the complement of the folded sum of the header's
/// 16-bit words.
pub open spec fn checksum_of(h: Seq<u8>) -> u16 {
    (65535 - fold_carry(fold_carry(word_sum(h, h.len() / 2)))) as u16
}

fn ipv4_checksum(header: &[u8]) -> (r: u16)
    requires
        header@.len() <= 65536,
    ensures
        r == checksum_of(header@),
{
    let n = header.len() / 2;
    let mut sum: u32 = 0;
    let mut i: usize = 0;
    while i < n
        invariant
            i <= n,
            n == header@.len() / 2,
            header@.len() <= 65536,
            sum == word_sum(header@, i as nat),
            sum <= i * 65535,
        decreases n - i,
    {
        sum = sum + (header[2 * i] as u32) * 256 + header[2 * i + 1] as u32;
        i = i + 1;
    }
    proof {
        assert(sum & 0xffff == sum % 65536) by (bit_vector);
        assert(sum >> 16 == sum / 65536) by (bit_vector);
    }
    let f1 = (sum & 0xffff) + (sum >> 16);
    proof {
        assert(f1 & 0xffff == f1 % 65536) by (bit_vector);
        assert(f1 >> 16 == f1 / 65536) by (bit_vector);
        assert(f1 <= 131070);
    }
    let f2 = (f1 & 0xffff) + (f1 >> 16);
    proof {
        assert(f2 <= 65535);
    }
    (65535 - f2) as u16
}


/// The IPv4 header of a datagram carrying `len` payload bytes, checksum zero.
pub open spec fn ip_header_unsummed(ident: u16, len: nat) -> Seq<u8> {
    seq![0x45u8, 0] + be_bytes(20 + 8 + len, 2) + be_bytes(ident as nat, 2) + be_bytes(0x4000, 2) + seq![
        64u8,
        17,
        0,
        0,
        10,
        1,
        1,
        1,
        239,
        1,
        2,
        3,
    ]
}

/// The IPv4 header with its checksum filled in.
pub open spec fn ip_header(ident: u16, len: nat) -> Seq<u8> {
    let h = ip_header_unsummed(ident, len);
    h.subrange(0, 10) + be_bytes(checksum_of(h) as nat, 2) + h.subrange(12, 20)
}

/// An Ethernet II frame carrying an IPv4 UDP datagram with `payload`.
pub open spec fn frame_bytes(ident: u16, payload: Seq<u8>) -> Seq<u8> {
    seq![0x01u8, 0x00, 0x5e, 0x01, 0x02, 0x03, 0x02, 0x00, 0x00, 0x00, 0x00, 0x01, 0x08, 0x00] + ip_header(
        ident,
        payload.len(),
    ) + be_bytes(40000, 2) + be_bytes(50000, 2) + be_bytes(8 + payload.len(), 2) + seq![0u8, 0]
        + payload
}

fn push_all(out: &mut Vec<u8>, src: &Vec<u8>)
    ensures
        final(out)@ == old(out)@ + src@,
{
    let mut i: usize = 0;
    while i < src.len()
        invariant
            i <= src@.len(),
            out@ == old(out)@ + src@.subrange(0, i as int),
        decreases src.len() - i,
    {
        out.push(src[i]);
        i = i + 1;
        proof {
            assert(out@ =~= old(out)@ + src@.subrange(0, i as int));
        }
    }
    proof {
        assert(src@.subrange(0, src@.len() as int) =~= src@);
    }
}

fn build_udp_frame(ident: u16, payload: &Vec<u8>) -> (r: Vec<u8>)
    requires
        payload@.len() <= 65535 - 28,
    ensures
        r@ == frame_bytes(ident, payload@),
{
    let len = payload.len() as u64;
    let mut ip: Vec<u8> = Vec::new();
    ip.push(0x45);
    ip.push(0);
    push_be(&mut ip, 28 + len, 2);
    push_be(&mut ip, ident as u64, 2);
    push_be(&mut ip, 0x4000, 2);
    ip.push(64);
    ip.push(17);
    ip.push(0);
    ip.push(0);
    ip.push(10);
    ip.push(1);
    ip.push(1);
    ip.push(1);
    ip.push(239);
    ip.push(1);
    ip.push(2);
    ip.push(3);
    proof {
        assert(ip@ =~= ip_header_unsummed(ident, payload@.len()));
    }
    let csum = ipv4_checksum(ip.as_slice());
    let mut frame: Vec<u8> = Vec::new();
    frame.push(0x01);
    frame.push(0x00);
    frame.push(0x5e);
    frame.push(0x01);
    frame.push(0x02);
    frame.push(0x03);
    frame.push(0x02);
    frame.push(0x00);
    frame.push(0x00);
    frame.push(0x00);
    frame.push(0x00);
    frame.push(0x01);
    frame.push(0x08);
    frame.push(0x00);
    let ghost eth = frame@;
    let mut i: usize = 0;
    while i < 10
        invariant
            i <= 10,
            ip@.len() == 20,
            frame@ == eth + ip@.subrange(0, i as int),
        decreases 10 - i,
    {
        frame.push(ip[i]);
        i = i + 1;
        proof {
            assert(frame@ =~= eth + ip@.subrange(0, i as int));
        }
    }
    push_be(&mut frame, csum as u64, 2);
    let ghost mid = frame@;
    let mut j: usize = 12;
    while j < 20
        invariant
            12 <= j <= 20,
            ip@.len() == 20,
            frame@ == mid + ip@.subrange(12, j as int),
        decreases 20 - j,
    {
        frame.push(ip[j]);
        j = j + 1;
        proof {
            assert(frame@ =~= mid + ip@.subrange(12, j as int));
        }
    }
    push_be(&mut frame, 40000, 2);
    push_be(&mut frame, 50000, 2);
    push_be(&mut frame, 8 + len, 2);
    frame.push(0);
    frame.push(0);
    push_all(&mut frame, payload);
    proof {
        assert(frame@ =~= frame_bytes(ident, payload@));
    }
    frame
}

proof fn lemma_be2(v: nat)
    requires
        v < 65536,
    ensures
        be_nat(be_bytes(v, 2)) == v,
        be_bytes(v, 2).len() == 2,
        be_bytes(v, 2) == seq![((v / 256) % 256) as u8, (v % 256) as u8],
{
    let b = be_bytes(v, 2);
    assert(be_bytes(v / 256 / 256, 0) =~= Seq::<u8>::empty());
    assert(be_bytes(v / 256, 1) =~= seq![((v / 256) % 256) as u8]);
    assert(b =~= seq![((v / 256) % 256) as u8, (v % 256) as u8]);
    let t = b.drop_last();
    assert(t.drop_last() =~= Seq::<u8>::empty());
    assert(be_nat(t.drop_last()) == 0);
    assert(t.last() == ((v / 256) % 256) as u8);
    assert(be_nat(t) == (v / 256) % 256);
    assert((v / 256) % 256 == v / 256);
    assert(be_nat(b) == be_nat(t) * 256 + v % 256);
}

/// The frames this generator builds decode to their payload.
pub proof fn lemma_frame_round_trip(ident: u16, payload: Seq<u8>)
    requires
        payload.len() <= 65535 - 28,
    ensures
        udp_spec(frame_bytes(ident, payload)) == Ok::<(int, int), (int, crate::packets::FrameFault)>((42, 42 + payload.len() as int)),
        frame_bytes(ident, payload).subrange(42, 42 + payload.len() as int) == payload,
{
    let d = frame_bytes(ident, payload);
    lemma_be2(0x0800);
    lemma_be2(8 + payload.len());
    lemma_be2(20 + 8 + payload.len());
    lemma_be2(ident as nat);
    lemma_be2(0x4000);
    lemma_be2(40000);
    lemma_be2(50000);
    lemma_be2(checksum_of(ip_header_unsummed(ident, payload.len())) as nat);
    assert(d.subrange(12, 14) =~= seq![0x08u8, 0x00]);
    assert(be_bytes(0x0800, 2) =~= seq![0x08u8, 0x00]);
    assert(d[14] == 0x45);
    assert(d[23] == 17);
    assert(d.subrange(38, 40) =~= be_bytes(8 + payload.len(), 2));
    assert(d.subrange(42, 42 + payload.len() as int) =~= payload);
}

/// The libpcap global header: magic, version 2.4, zone 0, accuracy 0,
/// snapshot length 65535, Ethernet link type.
pub open spec fn pcap_header_bytes() -> Seq<u8> {
    le_bytes(0xa1b2c3d4, 4) + le_bytes(2, 2) + le_bytes(4, 2) + le_bytes(0, 4) + le_bytes(0, 4) + le_bytes(
        65535,
        4,
    ) + le_bytes(1, 4)
}

/// A capture record: seconds and microseconds of the time, the captured and
/// on-wire lengths, then the frame.
pub open spec fn packet_record_bytes(ts_ns: u64, data: Seq<u8>) -> Seq<u8> {
    le_bytes(ts_ns as nat / 1_000_000_000, 4) + le_bytes((ts_ns as nat % 1_000_000_000) / 1_000, 4) + le_bytes(
        data.len(),
        4,
    ) + le_bytes(data.len(), 4) + data
}

fn write_global_header(out: &mut Vec<u8>)
    ensures
        final(out)@ == old(out)@ + pcap_header_bytes(),
{
    push_le(out, 0xa1b2c3d4, 4);
    push_le(out, 2, 2);
    push_le(out, 4, 2);
    push_le(out, 0, 4);
    push_le(out, 0, 4);
    push_le(out, 65535, 4);
    push_le(out, 1, 4);
    proof {
        assert(final(out)@ =~= old(out)@ + pcap_header_bytes());
    }
}

fn write_packet(out: &mut Vec<u8>, ts_ns: u64, data: &Vec<u8>)
    ensures
        final(out)@ == old(out)@ + packet_record_bytes(ts_ns, data@),
{
    push_le(out, ts_ns / 1_000_000_000, 4);
    push_le(out, (ts_ns % 1_000_000_000) / 1_000, 4);
    push_le(out, data.len() as u64, 4);
    push_le(out, data.len() as u64, 4);
    push_all(out, data);
    proof {
        assert(final(out)@ =~= old(out)@ + packet_record_bytes(ts_ns, data@));
    }
}

/// The capture records of `frames`, stamped with `stamps`, one after another.
pub open spec fn packet_records(stamps: Seq<u64>, frames: Seq<Seq<u8>>) -> Seq<u8>
    decreases frames.len(),
{
    if frames.len() == 0 || stamps.len() != frames.len() {
        Seq::empty()
    } else {
        packet_records(stamps.drop_last(), frames.drop_last()) + packet_record_bytes(stamps.last(), frames.last())
    }
}

#[derive(Debug, Clone)]
pub enum GenPcapError {
    EmptySymbols,
}

/// Frame `k` carries payload `k` with identification `idents[k]`.
pub open spec fn frames_of(idents: Seq<u16>, payloads: Seq<Seq<u8>>) -> Seq<Seq<u8>> {
    Seq::new(payloads.len(), |k: int| frame_bytes(idents[k], payloads[k]))
}

pub open spec fn sat_add(a: u64, b: u64) -> u64 {
    if a + b > u64::MAX {
        u64::MAX
    } else {
        (a + b) as u64
    }
}

pub open spec fn sat_sub(a: u64, b: u64) -> u64 {
    if a < b {
        0
    } else {
        (a - b) as u64
    }
}

/// The time of the first packet is this one plus its step.
pub const START_NS: u64 = 1_700_000_000_000_000_000;

/// Packet `k`'s time is `prev` plus `up` (200 to 4999 ns), less `back`
/// (1000 to 39999 ns when `k` is a multiple of 97, else nothing), saturating.
pub open spec fn step_by(prev: u64, next: u64, k: int, up: u64, back: u64) -> bool {
    &&& 200 <= up < 5000
    &&& if k % 97 == 0 {
        1000 <= back < 40000
    } else {
        back == 0
    }
    &&& next == sat_sub(sat_add(prev, up), back)
}

pub open spec fn stamp_follows(prev: u64, next: u64, k: int) -> bool {
    exists|up: u64, back: u64| #[trigger] step_by(prev, next, k, up, back)
}

/// `p` is an add order (side 0 or 1) or a trade for symbol `names[j]` at
/// time `ts`, with a price in 10000..50000 and a size in 1..500.
pub open spec fn order_of(p: Seq<u8>, ts: u64, names: Seq<Seq<char>>, j: int, side: u8, price: i64, size: i64) -> bool {
    &&& 0 <= j < names.len()
    &&& 10_000 <= price < 50_000
    &&& 1 <= size < 500
    &&& side <= 1
    &&& (p == add_order_bytes(ts, encode_utf8(names[j]), side, price, size) || p == trade_bytes(
        ts,
        encode_utf8(names[j]),
        price,
        size,
    ))
}

/// Payload `k` at time `ts`: 1 to 15 bytes when `k` is a multiple of 137,
/// else a message for one of `names`.
pub open spec fn generated_payload(p: Seq<u8>, k: int, ts: u64, names: Seq<Seq<char>>) -> bool {
    if k % 137 == 0 {
        1 <= p.len() < 16
    } else {
        exists|j: int, side: u8, price: i64, size: i64| #[trigger] order_of(p, ts, names, j, side, price, size)
    }
}

/// A reproducible capture of `events` packets for `symbols` from `seed`:
/// packet `k` is stamped as `stamp_follows` says from the one before (or
/// from `START_NS`), and its frame carries what `generated_payload` says.
/// Which add orders or trades, sides, prices and sizes come is the random
/// generator's choice.
pub fn generate_pcap(symbols: &Vec<String>, events: usize, seed: u64) -> (r: Result<Vec<u8>, GenPcapError>)
    ensures
        r is Err <==> symbols@.len() == 0,
        r matches Ok(b) ==> exists|stamps: Seq<u64>, payloads: Seq<Seq<u8>>, idents: Seq<u16>|
            {
                &&& stamps.len() == events
                &&& payloads.len() == events
                &&& idents.len() == events
                &&& b@.subrange(0, 24) == pcap_header_bytes()
                &&& #[trigger] packet_records(
                    stamps,
                    frames_of(idents, payloads),
                ) == b@.subrange(24, b@.len() as int)
                &&& schedule_ok(stamps, payloads, symbols@.map_values(|s: String| s@))
            },
{
    if symbols.len() == 0 {
        return Err(GenPcapError::EmptySymbols);
    }
    let ghost names = symbols@.map_values(|s: String| s@);
    let mut rng = seeded_rng(seed);
    let mut out: Vec<u8> = Vec::new();
    write_global_header(&mut out);
    let ghost header = out@;
    proof {
        crate::num_bytes::lemma_le_bytes_len(0xa1b2c3d4, 4);
        crate::num_bytes::lemma_le_bytes_len(2, 2);
        crate::num_bytes::lemma_le_bytes_len(4, 2);
        crate::num_bytes::lemma_le_bytes_len(0, 4);
        crate::num_bytes::lemma_le_bytes_len(65535, 4);
        crate::num_bytes::lemma_le_bytes_len(1, 4);
        assert(header =~= pcap_header_bytes());
    }
    let mut ts_ns: u64 = START_NS;
    let mut i: usize = 0;
    let ghost mut stamps: Seq<u64> = Seq::empty();
    let ghost mut payloads: Seq<Seq<u8>> = Seq::empty();
    let ghost mut idents: Seq<u16> = Seq::empty();
    proof {
        assert(out@.subrange(24, out@.len() as int) =~= Seq::<u8>::empty());
        assert(packet_records(stamps, frames_of(idents, payloads)) =~= Seq::<u8>::empty());
    }
    while i < events
        invariant
            i <= events,
            symbols@.len() > 0,
            names == symbols@.map_values(|s: String| s@),
            header.len() == 24,
            header == pcap_header_bytes(),
            out@.subrange(0, 24) == header,
            out@.len() >= 24,
            stamps.len() == i,
            payloads.len() == i,
            idents.len() == i,
            ts_ns == prev_stamp(stamps, i as int),
            packet_records(stamps, frames_of(idents, payloads))
                == out@.subrange(24, out@.len() as int),
            schedule_ok(stamps, payloads, names),
        decreases events - i,
    {
        let prev = ts_ns;
        let up = draw_u64(&mut rng, 200, 5_000);
        ts_ns = ts_ns.saturating_add(up);
        let mut back: u64 = 0;
        if i % 97 == 0 {
            back = draw_u64(&mut rng, 1_000, 40_000);
            ts_ns = ts_ns.saturating_sub(back);
        }
        proof {
            assert(step_by(prev, ts_ns, i as int, up, back));
            assert(stamp_follows(prev, ts_ns, i as int));
        }
        let pick = draw_usize(&mut rng, 0, symbols.len());
        let symbol = symbols[pick].as_str();
        proof {
            assert(symbol@ == names[pick as int]);
        }
        let payload = if i % 137 == 0 {
            malformed_payload(&mut rng)
        } else if draw_ratio(&mut rng, 55, 100) {
            let side: u8 = if draw_ratio(&mut rng, 1, 2) { 0 } else { 1 };
            let price = draw_i64(&mut rng, 10_000, 50_000);
            let size = draw_i64(&mut rng, 1, 500);
            let p = add_order_payload(ts_ns, symbol, side, price, size);
            proof {
                assert(order_of(p@, ts_ns, names, pick as int, side, price, size));
            }
            p
        } else {
            let price = draw_i64(&mut rng, 10_000, 50_000);
            let size = draw_i64(&mut rng, 1, 500);
            let p = trade_payload(ts_ns, symbol, price, size);
            proof {
                assert(order_of(p@, ts_ns, names, pick as int, 0, price, size));
            }
            p
        };
        proof {
            assert(generated_payload(payload@, i as int, ts_ns, names));
        }
        let ident = #[verifier::truncate] (i as u16);
        let frame = build_udp_frame(ident, &payload);
        let ghost before = out@;
        write_packet(&mut out, ts_ns, &frame);
        proof {
            assert(out@.subrange(0, 24) =~= before.subrange(0, 24));
            assert(out@.subrange(24, out@.len() as int) =~= before.subrange(24, before.len() as int)
                + packet_record_bytes(ts_ns, frame@));
            lemma_records_extend(stamps, payloads, idents, ts_ns, payload@, ident);
            lemma_schedule_extend(stamps, payloads, names, prev, ts_ns, payload@, i as int);
            stamps = stamps.push(ts_ns);
            payloads = payloads.push(payload@);
            idents = idents.push(ident);
            assert(ts_ns == prev_stamp(stamps, i + 1));
        }
        i = i + 1;
    }
    proof {
        assert(packet_records(stamps, frames_of(idents, payloads)) == out@.subrange(24, out@.len() as int));
    }
    Ok(out)
}

proof fn lemma_records_extend(stamps: Seq<u64>, payloads: Seq<Seq<u8>>, idents: Seq<u16>, ts: u64, payload: Seq<u8>, ident: u16)
    requires
        stamps.len() == payloads.len(),
        idents.len() == payloads.len(),
    ensures
        packet_records(stamps.push(ts), frames_of(idents.push(ident), payloads.push(payload)))
            == packet_records(stamps, frames_of(idents, payloads)) + packet_record_bytes(ts, frame_bytes(ident, payload)),
{
    let fr = frames_of(idents, payloads);
    let fr2 = frames_of(idents.push(ident), payloads.push(payload));
    assert(fr2.drop_last() =~= fr);
    assert(stamps.push(ts).drop_last() =~= stamps);
    assert(fr2.last() == frame_bytes(ident, payload));
}

/// The time a packet steps from: the one before, or the start.
pub open spec fn prev_stamp(stamps: Seq<u64>, k: int) -> u64 {
    if k == 0 {
        START_NS
    } else {
        stamps[k - 1]
    }
}

/// Packet `k` follows the schedule and carries a generated payload.
pub open spec fn packet_ok(stamps: Seq<u64>, payloads: Seq<Seq<u8>>, names: Seq<Seq<char>>, k: int) -> bool {
    &&& stamp_follows(prev_stamp(stamps, k), stamps[k], k)
    &&& generated_payload(payloads[k], k, stamps[k], names)
    &&& payloads[k].len() <= 37
}

pub open spec fn schedule_ok(stamps: Seq<u64>, payloads: Seq<Seq<u8>>, names: Seq<Seq<char>>) -> bool {
    forall|k: int| 0 <= k < payloads.len() ==> #[trigger] packet_ok(stamps, payloads, names, k)
}

proof fn lemma_schedule_extend(
    stamps: Seq<u64>,
    payloads: Seq<Seq<u8>>,
    names: Seq<Seq<char>>,
    prev: u64,
    ts: u64,
    payload: Seq<u8>,
    i: int,
)
    requires
        stamps.len() == i,
        payloads.len() == i,
        prev == prev_stamp(stamps, i),
        stamp_follows(prev, ts, i),
        generated_payload(payload, i, ts, names),
        payload.len() <= 37,
        schedule_ok(stamps, payloads, names),
    ensures
        schedule_ok(stamps.push(ts), payloads.push(payload), names),
{
    let s2 = stamps.push(ts);
    let p2 = payloads.push(payload);
    assert forall|k: int| 0 <= k < p2.len() implies #[trigger] packet_ok(s2, p2, names, k) by {
        if k < i {
            assert(packet_ok(stamps, payloads, names, k));
            assert(s2[k] == stamps[k] && p2[k] == payloads[k]);
            assert(prev_stamp(s2, k) == prev_stamp(stamps, k));
        } else {
            assert(s2[k] == ts && p2[k] == payload);
            assert(prev_stamp(s2, k) == prev);
        }
    }
}

} // verus!
