//! The event log: a header, then records of `len`, `crc32(payload)` and the
//! encoded event.
use vstd::prelude::*;
use vstd::utf8::encode_utf8;
use crate::codec::{decode_event, encode_event, event_bytes};
use crate::event::{Event, EventView};
use crate::num_bytes::{le_bytes, le_nat, lemma_le_bytes_len, lemma_pow256_facts, push_le, read_le};
use crate::text::utf8_string;

verus! {

/// The CRC-32 (IEEE) of a byte string.
pub uninterp spec fn crc32_of(b: Seq<u8>) -> u32;

/// Relies on `crc32fast::hash`: the IEEE CRC-32 of the bytes, which depends on
/// the bytes alone.
#[verifier::external_body]
fn crc32(b: &[u8]) -> (r: u32)
    ensures
        r == crc32_of(b@),
{
    crc32fast::hash(b)
}

#[derive(Debug, Clone)]
pub enum StorageError {
    Io(String),
    Serialize(String),
    CrcMismatch { offset: u64 },
    InvalidFormat(String),
}

pub const FILE_VERSION: u16 = 1;

pub open spec fn file_magic() -> Seq<u8> {
    seq![0x4du8, 0x44, 0x45, 0x4c, 0x4f, 0x47, 0x30, 0x31]
}

/// The header that a log with these symbols and schema hash starts with.
pub open spec fn header_bytes(symbols: Seq<Seq<char>>, schema_hash: u64) -> Seq<u8> {
    file_magic() + le_bytes(1, 2) + le_bytes(schema_hash as nat, 8) + le_bytes(symbols.len(), 4)
        + symbol_list_bytes(symbols)
}

pub open spec fn symbol_list_bytes(symbols: Seq<Seq<char>>) -> Seq<u8>
    decreases symbols.len(),
{
    if symbols.len() == 0 {
        Seq::empty()
    } else {
        symbol_list_bytes(symbols.drop_last()) + seq![encode_utf8(symbols.last()).len() as u8]
            + encode_utf8(symbols.last())
    }
}

/// A record: payload length and CRC-32, little-endian, then the payload.
pub open spec fn record_bytes(payload: Seq<u8>) -> Seq<u8> {
    le_bytes(payload.len(), 4) + le_bytes(crc32_of(payload) as nat, 4) + payload
}

pub open spec fn schema_desc() -> Seq<u8> {
    seq![0x65u8, 0x76, 0x65, 0x6e, 0x74, 0x5f, 0x76, 0x31]
}

/// The schema hash of this event encoding: the CRC-32 of `event_v1`.
pub fn default_schema_hash() -> (r: u64)
    ensures
        r == crc32_of(schema_desc()) as u64,
{
    let desc: Vec<u8> = vec![0x65u8, 0x76, 0x65, 0x6e, 0x74, 0x5f, 0x76, 0x31];
    proof {
        assert(desc@ =~= schema_desc());
    }
    crc32(desc.as_slice()) as u64
}

/// The log's header, as read.
#[derive(Debug, Clone)]
pub struct EventLogHeader {
    pub version: u16,
    pub schema_hash: u64,
    pub symbols: Vec<String>,
    pub data_offset: u64,
}

#[derive(Debug, Clone)]
pub struct ReadRecord {
    pub offset: u64,
    pub event: Event,
}

/// Builds a log in memory; `take_pending` hands out the bytes not yet taken.
pub struct EventLogWriter {
    pending: Vec<u8>,
    offset: u64,
    written: Ghost<Seq<u8>>,
}

impl EventLogWriter {
    /// All bytes produced so far, taken or not.
    pub closed spec fn written(&self) -> Seq<u8> {
        self.written@
    }

    /// How many bytes have not been taken yet.
    pub closed spec fn pending_len(&self) -> nat {
        self.pending@.len()
    }

    pub closed spec fn wf(&self) -> bool {
        &&& self.offset == self.written@.len()
        &&& self.pending@.len() <= self.written@.len()
        &&& self.pending@ == self.written@.subrange(
            self.written@.len() - self.pending@.len(),
            self.written@.len() as int,
        )
    }

    /// Starts a log with the header for `symbols`; fails on a symbol longer
    /// than 255 bytes.
    pub fn create(symbols: &Vec<String>, schema_hash: u64) -> (r: Result<EventLogWriter, StorageError>)
        ensures
            r is Ok <==> symbols@.len() < 0x1_0000_0000 && forall|i: int|
                0 <= i < symbols@.len() ==> encode_utf8(#[trigger] symbols@[i]@).len() <= 255,
            r matches Ok(w) ==> w.wf() && w.pending_len() == w.written().len() && w.written() == header_bytes(
                symbols@.map_values(|s: String| s@),
                schema_hash,
            ),
            r matches Err(e) ==> e is InvalidFormat,
    {
        let ghost names = symbols@.map_values(|s: String| s@);
        let mut out: Vec<u8> = Vec::new();
        out.push(0x4d);
        out.push(0x44);
        out.push(0x45);
        out.push(0x4c);
        out.push(0x4f);
        out.push(0x47);
        out.push(0x30);
        out.push(0x31);
        push_le(&mut out, 1, 2);
        push_le(&mut out, schema_hash, 8);
        if symbols.len() > 0xffff_ffff {
            return Err(StorageError::InvalidFormat(String::from_str("too many symbols")));
        }
        push_le(&mut out, symbols.len() as u64, 4);
        let ghost fixed = out@;
        proof {
            assert(fixed =~= file_magic() + le_bytes(1, 2) + le_bytes(schema_hash as nat, 8) + le_bytes(
                symbols@.len(),
                4,
            ));
            assert(names.subrange(0, 0) =~= Seq::<Seq<char>>::empty());
        }
        let mut i: usize = 0;
        while i < symbols.len()
            invariant
                i <= symbols@.len(),
                names == symbols@.map_values(|s: String| s@),
                out@ == fixed + symbol_list_bytes(names.subrange(0, i as int)),
                forall|k: int| 0 <= k < i ==> encode_utf8(#[trigger] symbols@[k]@).len() <= 255,
            decreases symbols.len() - i,
        {
            let bytes = symbols[i].as_str().as_bytes();
            if bytes.len() > 255 {
                let mut msg = String::from_str("symbol too long: ");
                msg.append(symbols[i].as_str());
                return Err(StorageError::InvalidFormat(msg));
            }
            let ghost before = out@;
            out.push(bytes.len() as u8);
            let mut j: usize = 0;
            while j < bytes.len()
                invariant
                    j <= bytes@.len(),
                    out@ == before + seq![bytes@.len() as u8] + bytes@.subrange(0, j as int),
                decreases bytes.len() - j,
            {
                out.push(bytes[j]);
                j = j + 1;
                proof {
                    assert(out@ =~= before + seq![bytes@.len() as u8] + bytes@.subrange(0, j as int));
                }
            }
            proof {
                let sub = names.subrange(0, i + 1);
                assert(sub.drop_last() =~= names.subrange(0, i as int));
                assert(sub.last() == symbols@[i as int]@);
                assert(bytes@.subrange(0, bytes@.len() as int) =~= bytes@);
                assert(out@ =~= fixed + symbol_list_bytes(sub));
            }
            i = i + 1;
        }
        proof {
            assert(names.subrange(0, symbols@.len() as int) =~= names);
            assert(out@ =~= header_bytes(names, schema_hash));
        }
        let w = EventLogWriter { offset: out.len() as u64, pending: out, written: Ghost(out@) };
        proof {
            assert(w.pending@ =~= w.written@.subrange(0, w.written@.len() as int));
        }
        Ok(w)
    }

    /// Appends the event's record and returns the offset where it starts.
    /// Fails when the encoded event does not fit a `u32` length.
    #[verifier::loop_isolation(false)]
    pub fn append(&mut self, event: &Event) -> (r: Result<u64, StorageError>)
        requires
            old(self).wf(),
        ensures
            final(self).wf(),
            final(self).pending_len() + old(self).written().len() == old(self).pending_len()
                + final(self).written().len(),
            r is Ok <==> event_bytes(event@).len() <= 0xffff_ffff && old(self).written().len()
                + 8 + event_bytes(event@).len() <= u64::MAX,
            r matches Ok(off) ==> off == old(self).written().len() && final(self).written()
                == old(self).written() + record_bytes(event_bytes(event@)),
            r is Err ==> final(self).written() == old(self).written(),
            r matches Err(e) ==> e is InvalidFormat,
    {
        let payload = encode_event(event);
        if payload.len() > 0xffff_ffff || self.offset > u64::MAX - 8 || (u64::MAX - 8 - self.offset)
            < payload.len() as u64 {
            return Err(StorageError::InvalidFormat(String::from_str("record too long")));
        }
        let crc = crc32(payload.as_slice());
        let record_offset = self.offset;
        let ghost old_pending = self.pending@;
        push_le(&mut self.pending, payload.len() as u64, 4);
        push_le(&mut self.pending, crc as u64, 4);
        let mut j: usize = 0;
        let ghost mid = self.pending@;
        while j < payload.len()
            invariant
                j <= payload@.len(),
                self.pending@ == mid + payload@.subrange(0, j as int),
                self.offset == record_offset,
                self.written@ == old(self).written@,
            decreases payload.len() - j,
        {
            self.pending.push(payload[j]);
            j = j + 1;
            proof {
                assert(self.pending@ =~= mid + payload@.subrange(0, j as int));
            }
        }
        proof {
            assert(payload@.subrange(0, payload@.len() as int) =~= payload@);
            let rec = record_bytes(payload@);
            assert(self.pending@ =~= old_pending + rec);
            let w = self.written@ + rec;
            lemma_le_bytes_len(payload@.len(), 4);
            lemma_le_bytes_len(crc as nat, 4);
            assert(self.pending@ =~= w.subrange(w.len() - self.pending@.len(), w.len() as int));
            self.written = Ghost(w);
        }
        self.offset = self.offset + 8 + payload.len() as u64;
        Ok(record_offset)
    }

    /// The offset where the next record will start.
    pub fn offset(&self) -> (r: u64)
        requires
            self.wf(),
        ensures
            r == self.written().len(),
    {
        self.offset
    }

    /// Hands out the bytes produced since the last call.
    pub fn take_pending(&mut self) -> (r: Vec<u8>)
        requires
            old(self).wf(),
        ensures
            final(self).wf(),
            final(self).written() == old(self).written(),
            final(self).pending_len() == 0,
            r@ == old(self).written().subrange(
                old(self).written().len() - old(self).pending_len(),
                old(self).written().len() as int,
            ),
    {
        let mut out: Vec<u8> = Vec::new();
        std::mem::swap(&mut out, &mut self.pending);
        proof {
            assert(self.pending@ =~= Seq::<u8>::empty());
            assert(self.pending@ =~= self.written@.subrange(self.written@.len() as int, self.written@.len() as int));
        }
        out
    }
}


/// What lies at a position of a log.
pub enum RecordStatus {
    End,
    Truncated,
    BadCrc,
    Undecodable,
    Valid,
}

pub open spec fn record_len(d: Seq<u8>, pos: int) -> int {
    le_nat(d.subrange(pos, pos + 4)) as int
}

pub open spec fn record_payload(d: Seq<u8>, pos: int) -> Seq<u8> {
    d.subrange(pos + 8, pos + 8 + record_len(d, pos))
}

/// The record at `pos`: the end of the log when fewer than 4 bytes remain,
/// truncated when the checksum or payload is cut off, then checked against
/// its CRC, then decoded.
pub open spec fn record_status(d: Seq<u8>, pos: int) -> RecordStatus {
    if pos + 4 > d.len() {
        RecordStatus::End
    } else if pos + 8 + record_len(d, pos) > d.len() {
        RecordStatus::Truncated
    } else if crc32_of(record_payload(d, pos)) as nat != le_nat(d.subrange(pos + 4, pos + 8)) {
        RecordStatus::BadCrc
    } else if !(exists|v: EventView| #[trigger] event_bytes(v) == record_payload(d, pos)) {
        RecordStatus::Undecodable
    } else {
        RecordStatus::Valid
    }
}

/// `d` starts with the header of a log with these symbols and schema hash,
/// as `EventLogWriter::create` writes it.
pub open spec fn starts_with_header(d: Seq<u8>, syms: Seq<Seq<char>>, h: u64) -> bool {
    &&& syms.len() < 0x1_0000_0000
    &&& forall|i: int| 0 <= i < syms.len() ==> encode_utf8(#[trigger] syms[i]).len() <= 255
    &&& header_bytes(syms, h).len() <= d.len()
    &&& d.subrange(0, header_bytes(syms, h).len() as int) == header_bytes(syms, h)
}

proof fn lemma_symbol_list_prefix(syms: Seq<Seq<char>>, j: int)
    requires
        0 <= j <= syms.len(),
    ensures
        symbol_list_bytes(syms.subrange(0, j)).len() <= symbol_list_bytes(syms).len(),
        symbol_list_bytes(syms).subrange(0, symbol_list_bytes(syms.subrange(0, j)).len() as int)
            == symbol_list_bytes(syms.subrange(0, j)),
    decreases syms.len() - j,
{
    if j == syms.len() {
        assert(syms.subrange(0, j) =~= syms);
    } else {
        let init = syms.drop_last();
        assert(init.subrange(0, j) =~= syms.subrange(0, j));
        lemma_symbol_list_prefix(init, j);
        let a = symbol_list_bytes(init);
        let whole = symbol_list_bytes(syms);
        assert(whole == a + seq![encode_utf8(syms.last()).len() as u8] + encode_utf8(syms.last()));
        assert(whole.subrange(0, a.len() as int) =~= a);
        let k = symbol_list_bytes(syms.subrange(0, j)).len() as int;
        assert(whole.subrange(0, k) =~= a.subrange(0, k));
    }
}

proof fn lemma_header_layout(syms: Seq<Seq<char>>, h: u64)
    ensures
        ({
            let b = header_bytes(syms, h);
            &&& b.len() == 22 + symbol_list_bytes(syms).len()
            &&& b.subrange(0, 8) == file_magic()
            &&& b.subrange(8, 10) == le_bytes(1, 2)
            &&& b.subrange(10, 18) == le_bytes(h as nat, 8)
            &&& b.subrange(18, 22) == le_bytes(syms.len(), 4)
            &&& b.subrange(22, b.len() as int) == symbol_list_bytes(syms)
        }),
{
    lemma_le_bytes_len(1, 2);
    lemma_le_bytes_len(h as nat, 8);
    lemma_le_bytes_len(syms.len(), 4);
    let b = header_bytes(syms, h);
    assert(b.subrange(0, 8) =~= file_magic());
    assert(b.subrange(8, 10) =~= le_bytes(1, 2));
    assert(b.subrange(10, 18) =~= le_bytes(h as nat, 8));
    assert(b.subrange(18, 22) =~= le_bytes(syms.len(), 4));
    assert(b.subrange(22, b.len() as int) =~= symbol_list_bytes(syms));
}

proof fn lemma_header_in(d: Seq<u8>, syms: Seq<Seq<char>>, h: u64)
    requires
        starts_with_header(d, syms, h),
    ensures
        d.len() >= 22 + symbol_list_bytes(syms).len(),
        d.subrange(0, 8) == file_magic(),
        le_nat(d.subrange(8, 10)) == 1,
        le_nat(d.subrange(10, 18)) == h,
        le_nat(d.subrange(18, 22)) == syms.len(),
        d.subrange(22, 22 + symbol_list_bytes(syms).len() as int) == symbol_list_bytes(syms),
{
    lemma_header_layout(syms, h);
    let b = header_bytes(syms, h);
    assert(d.subrange(0, 8) =~= b.subrange(0, 8));
    assert(d.subrange(8, 10) =~= b.subrange(8, 10));
    assert(d.subrange(10, 18) =~= b.subrange(10, 18));
    assert(d.subrange(18, 22) =~= b.subrange(18, 22));
    assert(d.subrange(22, 22 + symbol_list_bytes(syms).len() as int) =~= b.subrange(22, b.len() as int));
    lemma_pow256_facts(2);
    lemma_pow256_facts(8);
    lemma_pow256_facts(4);
    crate::num_bytes::lemma_le_round_trip(1, 2);
    crate::num_bytes::lemma_le_round_trip(h as nat, 8);
    crate::num_bytes::lemma_le_round_trip(syms.len(), 4);
}

proof fn lemma_header_step(d: Seq<u8>, syms: Seq<Seq<char>>, h: u64, i: int, pos: int)
    requires
        starts_with_header(d, syms, h),
        0 <= i < syms.len(),
        pos == 22 + symbol_list_bytes(syms.subrange(0, i)).len(),
    ensures
        pos + 1 + encode_utf8(syms[i]).len() <= d.len(),
        d[pos] == encode_utf8(syms[i]).len(),
        d.subrange(pos + 1, pos + 1 + encode_utf8(syms[i]).len()) == encode_utf8(syms[i]),
{
    lemma_header_in(d, syms, h);
    lemma_symbol_list_prefix(syms, i + 1);
    let next = syms.subrange(0, i + 1);
    assert(next.drop_last() =~= syms.subrange(0, i));
    assert(next.last() == syms[i]);
    let e = encode_utf8(syms[i]);
    let sl = symbol_list_bytes(syms);
    let pre = symbol_list_bytes(syms.subrange(0, i));
    assert(symbol_list_bytes(next) == pre + seq![e.len() as u8] + e);
    assert(e.len() <= 255);
    let dd = d.subrange(22, 22 + sl.len() as int);
    assert(dd.subrange(0, symbol_list_bytes(next).len() as int) == symbol_list_bytes(next));
    assert(d[pos] == dd[pos - 22]);
    assert(dd[pos - 22] == symbol_list_bytes(next)[pre.len() as int]);
    assert(d.subrange(pos + 1, pos + 1 + e.len()) =~= symbol_list_bytes(next).subrange(pre.len() as int + 1, symbol_list_bytes(next).len() as int));
    assert(symbol_list_bytes(next).subrange(pre.len() as int + 1, symbol_list_bytes(next).len() as int) =~= e);
}

/// Reads a log held in memory.
pub struct EventLogReader {
    data: Vec<u8>,
    pos: u64,
    header: EventLogHeader,
}

fn eof_error() -> (r: StorageError)
    ensures
        r is Io,
{
    StorageError::Io(String::from_str("unexpected end of file"))
}

impl EventLogReader {
    /// The log's bytes.
    pub closed spec fn bytes(&self) -> Seq<u8> {
        self.data@
    }

    /// Where the next record is read.
    pub closed spec fn position(&self) -> int {
        self.pos as int
    }

    pub closed spec fn header_spec(&self) -> EventLogHeader {
        self.header
    }

    /// Reads the header. Fails on a short header, a wrong magic, a version
    /// other than 1, or a symbol that is not UTF-8.
    pub fn from_bytes(data: Vec<u8>) -> (r: Result<EventLogReader, StorageError>)
        ensures
            data@.len() < 8 ==> (r matches Err(e) && e is Io),
            data@.len() >= 8 && data@.subrange(0, 8) != file_magic() ==> (r matches Err(e) && e is InvalidFormat),
            data@.len() >= 22 && data@.subrange(0, 8) == file_magic() && le_nat(data@.subrange(8, 10)) != 1 ==> (r matches Err(
                e,
            ) && e is InvalidFormat),
            data@.len() >= 22 && data@.subrange(0, 8) == file_magic() && le_nat(data@.subrange(8, 10)) == 1 && le_nat(
                data@.subrange(10, 18),
            ) != crc32_of(schema_desc()) ==> (r matches Err(e) && e is InvalidFormat),
            r matches Ok(rd) ==> {
                let h = rd.header_spec();
                &&& h.schema_hash == crc32_of(schema_desc()) as u64
                &&& rd.bytes() == data@
                &&& rd.position() == h.data_offset
                &&& h.version == 1
                &&& h.data_offset <= data@.len()
                &&& data@.subrange(0, h.data_offset as int) == header_bytes(
                    h.symbols@.map_values(|s: String| s@),
                    h.schema_hash,
                )
            },
            forall|syms: Seq<Seq<char>>, hash: u64|
                #[trigger] starts_with_header(data@, syms, hash) && hash == crc32_of(schema_desc()) as u64 ==> (r matches Ok(rd) && {
                    let h = rd.header_spec();
                    &&& h.symbols@.map_values(|s: String| s@) == syms
                    &&& h.schema_hash == hash
                    &&& h.data_offset == header_bytes(syms, hash).len()
                }),
    {
        let len = data.len();
        if len < 8 {
            proof {
                assert forall|syms: Seq<Seq<char>>, hash: u64| !starts_with_header(data@, syms, hash) by {
                    if starts_with_header(data@, syms, hash) {
                        lemma_header_in(data@, syms, hash);
                    }
                }
            }
            return Err(eof_error());
        }
        let magic_ok = data[0] == 0x4d && data[1] == 0x44 && data[2] == 0x45 && data[3] == 0x4c
            && data[4] == 0x4f && data[5] == 0x47 && data[6] == 0x30 && data[7] == 0x31;
        if !magic_ok {
            proof {
                if data@.subrange(0, 8) == file_magic() {
                    assert(data@[0] == data@.subrange(0, 8)[0]);
                    assert(data@[1] == data@.subrange(0, 8)[1]);
                    assert(data@[2] == data@.subrange(0, 8)[2]);
                    assert(data@[3] == data@.subrange(0, 8)[3]);
                    assert(data@[4] == data@.subrange(0, 8)[4]);
                    assert(data@[5] == data@.subrange(0, 8)[5]);
                    assert(data@[6] == data@.subrange(0, 8)[6]);
                    assert(data@[7] == data@.subrange(0, 8)[7]);
                }
                assert forall|syms: Seq<Seq<char>>, hash: u64| !starts_with_header(data@, syms, hash) by {
                    if starts_with_header(data@, syms, hash) {
                        lemma_header_in(data@, syms, hash);
                        assert(data@[0] == data@.subrange(0, 8)[0]);
                        assert(data@[1] == data@.subrange(0, 8)[1]);
                        assert(data@[2] == data@.subrange(0, 8)[2]);
                        assert(data@[3] == data@.subrange(0, 8)[3]);
                        assert(data@[4] == data@.subrange(0, 8)[4]);
                        assert(data@[5] == data@.subrange(0, 8)[5]);
                        assert(data@[6] == data@.subrange(0, 8)[6]);
                        assert(data@[7] == data@.subrange(0, 8)[7]);
                    }
                }
            }
            return Err(StorageError::InvalidFormat(String::from_str("bad magic")));
        }
        proof {
            assert(data@.subrange(0, 8) =~= file_magic());
        }
        if len < 22 {
            proof {
                assert forall|syms: Seq<Seq<char>>, hash: u64| !starts_with_header(data@, syms, hash) by {
                    if starts_with_header(data@, syms, hash) {
                        lemma_header_in(data@, syms, hash);
                    }
                }
            }
            return Err(eof_error());
        }
        let version = read_le(data.as_slice(), 8, 2);
        if version != 1 {
            proof {
                assert forall|syms: Seq<Seq<char>>, hash: u64| !starts_with_header(data@, syms, hash) by {
                    if starts_with_header(data@, syms, hash) {
                        lemma_header_in(data@, syms, hash);
                    }
                }
            }
            let mut msg = String::from_str("unsupported version ");
            crate::text::push_u64(&mut msg, version);
            return Err(StorageError::InvalidFormat(msg));
        }
        let schema_hash = read_le(data.as_slice(), 10, 8);
        if schema_hash != default_schema_hash() {
            proof {
                assert forall|syms: Seq<Seq<char>>, hash: u64| !(starts_with_header(data@, syms, hash) && hash == crc32_of(
                    schema_desc(),
                ) as u64) by {
                    if starts_with_header(data@, syms, hash) {
                        lemma_header_in(data@, syms, hash);
                    }
                }
            }
            return Err(StorageError::InvalidFormat(String::from_str("schema hash mismatch")));
        }
        let count = read_le(data.as_slice(), 18, 4);
        proof {
            lemma_pow256_facts(2);
            lemma_pow256_facts(8);
            lemma_pow256_facts(4);
            crate::num_bytes::lemma_le_bytes_of_value(data@.subrange(8, 10));
            crate::num_bytes::lemma_le_bytes_of_value(data@.subrange(10, 18));
            crate::num_bytes::lemma_le_bytes_of_value(data@.subrange(18, 22));
            crate::num_bytes::lemma_le_value_bound(data@.subrange(18, 22));
        }
        let mut symbols: Vec<String> = Vec::new();
        let mut pos: usize = 22;
        let mut i: u64 = 0;
        proof {
            assert(data@.subrange(0, 22) =~= data@.subrange(0, 8) + data@.subrange(8, 10)
                + data@.subrange(10, 18) + data@.subrange(18, 22));
            assert(symbols@.map_values(|s: String| s@) =~= Seq::<Seq<char>>::empty());
            assert forall|syms: Seq<Seq<char>>, hash: u64| #[trigger] starts_with_header(data@, syms, hash) implies symbols@.map_values(
                |s: String| s@,
            ) == syms.subrange(0, 0) && count == syms.len() && schema_hash == hash by {
                lemma_header_in(data@, syms, hash);
                assert(syms.subrange(0, 0) =~= Seq::<Seq<char>>::empty());
            }
        }
        while i < count
            invariant
                forall|syms: Seq<Seq<char>>, hash: u64| #[trigger] starts_with_header(data@, syms, hash) ==> symbols@.map_values(
                    |s: String| s@,
                ) == syms.subrange(0, i as int) && count == syms.len() && schema_hash == hash,
                i <= count,
                count < 0x1_0000_0000,
                data@.subrange(0, 8) == file_magic(),
                le_nat(data@.subrange(8, 10)) == 1,
                le_nat(data@.subrange(10, 18)) == crc32_of(schema_desc()),
                schema_hash == crc32_of(schema_desc()) as u64,
                22 <= pos <= len,
                len == data@.len(),
                symbols@.len() == i,
                data@.subrange(0, pos as int) == data@.subrange(0, 22) + symbol_list_bytes(
                    symbols@.map_values(|s: String| s@),
                ),
            decreases count - i,
        {
            proof {
                assert forall|syms: Seq<Seq<char>>, hash: u64| #[trigger] starts_with_header(data@, syms, hash) implies pos
                    + 1 + encode_utf8(syms[i as int]).len() <= len && data@[pos as int] == encode_utf8(syms[i as int]).len()
                    && data@.subrange(pos + 1, pos + 1 + encode_utf8(syms[i as int]).len()) == encode_utf8(syms[i as int]) by {
                    let pre = symbol_list_bytes(syms.subrange(0, i as int));
                    assert(data@.subrange(0, pos as int).len() == pos);
                    lemma_header_step(data@, syms, hash, i as int, pos as int);
                }
            }
            if pos >= len {
                return Err(eof_error());
            }
            let n = data[pos] as usize;
            if len - pos - 1 < n {
                return Err(eof_error());
            }
            let mut raw: Vec<u8> = Vec::new();
            let mut j: usize = 0;
            while j < n
                invariant
                    j <= n,
                    pos + 1 + n <= len,
                    len == data@.len(),
                    raw@ == data@.subrange(pos + 1, pos + 1 + j),
                decreases n - j,
            {
                raw.push(data[pos + 1 + j]);
                j = j + 1;
                proof {
                    assert(raw@ =~= data@.subrange(pos + 1, pos + 1 + j));
                }
            }
            let ghost rb = raw@;
            let sym = match utf8_string(raw) {
                Some(s) => s,
                None => {
                    proof {
                        assert forall|syms: Seq<Seq<char>>, hash: u64| !starts_with_header(data@, syms, hash) by {
                            if starts_with_header(data@, syms, hash) {
                                vstd::utf8::encode_utf8_valid_utf8(syms[i as int]);
                            }
                        }
                    }
                    return Err(StorageError::InvalidFormat(String::from_str("symbol utf8")));
                },
            };
            let ghost old_syms = symbols@;
            symbols.push(sym);
            proof {
                let names = symbols@.map_values(|s: String| s@);
                assert(names.drop_last() =~= old_syms.map_values(|s: String| s@));
                assert(names.last() == sym@);
                assert(encode_utf8(sym@) == rb);
                assert(data@.subrange(0, pos + 1 + n) =~= data@.subrange(0, pos as int) + seq![data@[pos as int]] + rb);
                assert forall|syms: Seq<Seq<char>>, hash: u64| #[trigger] starts_with_header(data@, syms, hash) implies names
                    == syms.subrange(0, i + 1) && count == syms.len() && schema_hash == hash by {
                    vstd::utf8::encode_utf8_decode_utf8(sym@);
                    vstd::utf8::encode_utf8_decode_utf8(syms[i as int]);
                    assert(sym@ == syms[i as int]);
                    assert(names =~= syms.subrange(0, i + 1));
                }
            }
            pos = pos + 1 + n;
            i = i + 1;
        }
        proof {
            assert forall|syms: Seq<Seq<char>>, hash: u64| #[trigger] starts_with_header(data@, syms, hash) implies pos
                == header_bytes(syms, hash).len() by {
                assert(syms.subrange(0, i as int) =~= syms);
                lemma_header_layout(syms, hash);
                assert(data@.subrange(0, pos as int).len() == pos);
            }
        }
        let header = EventLogHeader { version: 1, schema_hash, symbols, data_offset: pos as u64 };
        Ok(EventLogReader { data, pos: pos as u64, header })
    }

    /// The header read on open.
    pub fn header(&self) -> (r: &EventLogHeader)
        ensures
            *r == self.header_spec(),
    {
        &self.header
    }

    /// Moves to a byte offset.
    pub fn seek(&mut self, offset: u64) -> (r: Result<(), StorageError>)
        ensures
            r is Ok,
            final(self).position() == offset,
            final(self).bytes() == old(self).bytes(),
            final(self).header_spec() == old(self).header_spec(),
    {
        self.pos = offset;
        Ok(())
    }

    /// Moves to the first record.
    pub fn rewind_to_data(&mut self) -> (r: Result<(), StorageError>)
        ensures
            r is Ok,
            final(self).position() == old(self).header_spec().data_offset,
            final(self).bytes() == old(self).bytes(),
            final(self).header_spec() == old(self).header_spec(),
    {
        self.pos = self.header.data_offset;
        Ok(())
    }

    /// Reads the record at the current position: `None` at the end of the
    /// log, an error for a cut-off record, a checksum that does not match
    /// (with the record's offset) or a payload that does not decode.
    pub fn next_record(&mut self) -> (r: Result<Option<ReadRecord>, StorageError>)
        ensures
            final(self).bytes() == old(self).bytes(),
            final(self).header_spec() == old(self).header_spec(),
            match record_status(old(self).bytes(), old(self).position()) {
                RecordStatus::End => r matches Ok(None) && final(self).position() == old(self).position(),
                RecordStatus::Truncated => r matches Err(e) && e is Io,
                RecordStatus::BadCrc => r matches Err(StorageError::CrcMismatch { offset }) && offset
                    == old(self).position(),
                RecordStatus::Undecodable => r matches Err(e) && e is Serialize,
                RecordStatus::Valid => r matches Ok(Some(rec)) && rec.offset == old(self).position()
                    && event_bytes(rec.event@) == record_payload(old(self).bytes(), old(self).position())
                    && (forall|v: EventView| #[trigger] event_bytes(v) == record_payload(old(self).bytes(), old(self).position()) ==> rec.event@ == v)
                    && final(self).position() == old(self).position() + 8 + record_len(
                    old(self).bytes(),
                    old(self).position(),
                ),
            },
    {
        let offset = self.pos;
        let len = self.data.len();
        if offset > len as u64 || len - (offset as usize) < 4 {
            return Ok(None);
        }
        let start = offset as usize;
        let n64 = read_le(self.data.as_slice(), start, 4);
        proof {
            lemma_pow256_facts(4);
            crate::num_bytes::lemma_le_value_bound(self.data@.subrange(start as int, start + 4));
        }
        let n = n64 as usize;
        if len - start - 4 < 4 || len - start - 8 < n {
            return Err(eof_error());
        }
        let stored = read_le(self.data.as_slice(), start + 4, 4);
        let mut payload: Vec<u8> = Vec::new();
        let mut j: usize = 0;
        while j < n
            invariant
                j <= n,
                start + 8 + n <= len,
                len == self.data@.len(),
                payload@ == self.data@.subrange(start + 8, start + 8 + j),
            decreases n - j,
        {
            payload.push(self.data[start + 8 + j]);
            j = j + 1;
            proof {
                assert(payload@ =~= self.data@.subrange(start + 8, start + 8 + j));
            }
        }
        let crc = crc32(payload.as_slice());
        proof {
            assert(payload@ == record_payload(self.data@, start as int));
        }
        if crc as u64 != stored {
            return Err(StorageError::CrcMismatch { offset });
        }
        match decode_event(payload.as_slice()) {
            None => {
                proof {
                    assert(!(exists|v: EventView| #[trigger] event_bytes(v) == record_payload(self.data@, start as int)));
                }
                Err(StorageError::Serialize(String::from_str("undecodable record")))
            },
            Some(event) => {
                proof {
                    assert(event_bytes(event@) == record_payload(self.data@, start as int));
                }
                self.pos = (start + 8 + n) as u64;
                Ok(Some(ReadRecord { offset, event }))
            },
        }
    }
}

/// A record as the writer lays it out reads back as valid, with its payload
/// intact and its checksum matching, wherever it stands in a log.
pub proof fn lemma_record_round_trip(before: Seq<u8>, payload: Seq<u8>, after: Seq<u8>, v: EventView)
    requires
        payload == event_bytes(v),
        payload.len() < 0x1_0000_0000,
    ensures
        ({
            let d = before + record_bytes(payload) + after;
            let pos = before.len() as int;
            &&& record_status(d, pos) is Valid
            &&& record_len(d, pos) == payload.len()
            &&& record_payload(d, pos) == payload
        }),
{
    let d = before + record_bytes(payload) + after;
    let pos = before.len() as int;
    lemma_pow256_facts(4);
    crate::num_bytes::lemma_le_round_trip(payload.len(), 4);
    crate::num_bytes::lemma_le_round_trip(crc32_of(payload) as nat, 4);
    assert(d.subrange(pos, pos + 4) =~= le_bytes(payload.len(), 4));
    assert(d.subrange(pos + 4, pos + 8) =~= le_bytes(crc32_of(payload) as nat, 4));
    assert(record_payload(d, pos) =~= payload);
}

} // verus!
