//! Decoder for the binary order-book messages carried in UDP payloads.
use vstd::prelude::*;
use crate::num_bytes::{be_nat, read_be};
use crate::text::{all_ascii, ascii_chars, ascii_string, dec_text, push_u64};

verus! {

#[derive(Debug, Clone, Copy, PartialEq, Eq, Structural)]
pub enum Side {
    Bid,
    Ask,
}

#[derive(Debug, Clone)]
pub enum MockItchMessage {
    AddOrder { timestamp_ns: u64, symbol: String, side: Side, price_i64: i64, size_i64: i64 },
    Trade { timestamp_ns: u64, symbol: String, price_i64: i64, size_i64: i64 },
}

/// A decode failure: the byte offset of the field and what was wrong.
#[derive(Debug, Clone)]
pub struct ItchParseError {
    pub offset: usize,
    pub detail: String,
}

/// A message with its symbol as characters.
pub enum MessageView {
    AddOrder { timestamp_ns: u64, symbol: Seq<char>, side: Side, price_i64: i64, size_i64: i64 },
    Trade { timestamp_ns: u64, symbol: Seq<char>, price_i64: i64, size_i64: i64 },
}

impl View for MockItchMessage {
    type V = MessageView;

    open spec fn view(&self) -> MessageView {
        match *self {
            MockItchMessage::AddOrder { timestamp_ns, symbol, side, price_i64, size_i64 } =>
                MessageView::AddOrder { timestamp_ns, symbol: symbol@, side, price_i64, size_i64 },
            MockItchMessage::Trade { timestamp_ns, symbol, price_i64, size_i64 } =>
                MessageView::Trade { timestamp_ns, symbol: symbol@, price_i64, size_i64 },
        }
    }
}

impl PartialEq for MockItchMessage {
    fn eq(&self, other: &MockItchMessage) -> (r: bool)
        ensures
            r == (self@ == other@),
    {
        match (self, other) {
            (
                MockItchMessage::AddOrder { timestamp_ns: ta, symbol: sa, side: da, price_i64: pa, size_i64: za },
                MockItchMessage::AddOrder { timestamp_ns: tb, symbol: sb, side: db, price_i64: pb, size_i64: zb },
            ) => *ta == *tb && *sa == *sb && *da == *db && *pa == *pb && *za == *zb,
            (
                MockItchMessage::Trade { timestamp_ns: ta, symbol: sa, price_i64: pa, size_i64: za },
                MockItchMessage::Trade { timestamp_ns: tb, symbol: sb, price_i64: pb, size_i64: zb },
            ) => *ta == *tb && *sa == *sb && *pa == *pb && *za == *zb,
            _ => false,
        }
    }
}

impl vstd::std_specs::cmp::PartialEqSpecImpl for MockItchMessage {
    open spec fn obeys_eq_spec() -> bool {
        true
    }

    open spec fn eq_spec(&self, other: &MockItchMessage) -> bool {
        self@ == other@
    }
}

/// What went wrong at a field.
pub enum ParseFault {
    Short(nat),
    NotAscii,
    InvalidSide(u8),
    UnknownType(u32),
    Trailing,
}

/// The text that describes a fault.
pub open spec fn fault_text(f: ParseFault) -> Seq<char> {
    match f {
        ParseFault::Short(n) => "short packet need "@ + dec_text(n) + " bytes"@,
        ParseFault::NotAscii => "symbol is not valid ASCII"@,
        ParseFault::InvalidSide(b) => "invalid side "@ + dec_text(b as nat),
        ParseFault::UnknownType(t) => "unknown message type "@ + dec_text(t as nat),
        ParseFault::Trailing => "trailing bytes"@,
    }
}

/// Drops trailing spaces and NULs.
pub open spec fn trim_padding(s: Seq<char>) -> Seq<char>
    decreases s.len(),
{
    if s.len() > 0 && (s.last() == ' ' || s.last() == '\0') {
        trim_padding(s.drop_last())
    } else {
        s
    }
}

/// The symbol of the 8 bytes at `start`.
pub open spec fn symbol_at(b: Seq<u8>, start: int) -> Seq<char> {
    trim_padding(ascii_chars(b.subrange(start, start + 8)))
}

pub open spec fn u64_at(b: Seq<u8>, start: int) -> u64 {
    be_nat(b.subrange(start, start + 8)) as u64
}

pub open spec fn i64_at(b: Seq<u8>, start: int) -> i64 {
    (be_nat(b.subrange(start, start + 8)) as u64) as i64
}

/// The decoded message, or the offset and fault of the first field that fails.
pub open spec fn message_spec(b: Seq<u8>) -> Result<MessageView, (int, ParseFault)> {
    if b.len() < 8 {
        Err((0, ParseFault::Short(8)))
    } else if b.len() < 12 {
        Err((8, ParseFault::Short(4)))
    } else {
        let ts = u64_at(b, 0);
        let ty = be_nat(b.subrange(8, 12)) as u32;
        if ty == 1 {
            if b.len() < 20 {
                Err((12, ParseFault::Short(8)))
            } else if !all_ascii(b.subrange(12, 20)) {
                Err((12, ParseFault::NotAscii))
            } else if b.len() < 21 {
                Err((20, ParseFault::Short(1)))
            } else if b[20] > 1 {
                Err((20, ParseFault::InvalidSide(b[20])))
            } else if b.len() < 29 {
                Err((21, ParseFault::Short(8)))
            } else if b.len() < 37 {
                Err((29, ParseFault::Short(8)))
            } else if b.len() > 37 {
                Err((37, ParseFault::Trailing))
            } else {
                Ok(
                    MessageView::AddOrder {
                        timestamp_ns: ts,
                        symbol: symbol_at(b, 12),
                        side: if b[20] == 0 {
                            Side::Bid
                        } else {
                            Side::Ask
                        },
                        price_i64: i64_at(b, 21),
                        size_i64: i64_at(b, 29),
                    },
                )
            }
        } else if ty == 2 {
            if b.len() < 20 {
                Err((12, ParseFault::Short(8)))
            } else if !all_ascii(b.subrange(12, 20)) {
                Err((12, ParseFault::NotAscii))
            } else if b.len() < 28 {
                Err((20, ParseFault::Short(8)))
            } else if b.len() < 36 {
                Err((28, ParseFault::Short(8)))
            } else if b.len() > 36 {
                Err((36, ParseFault::Trailing))
            } else {
                Ok(
                    MessageView::Trade {
                        timestamp_ns: ts,
                        symbol: symbol_at(b, 12),
                        price_i64: i64_at(b, 20),
                        size_i64: i64_at(b, 28),
                    },
                )
            }
        } else {
            Err((8, ParseFault::UnknownType(ty)))
        }
    }
}

/// The result of decoding `payload` agrees with `message_spec`.
pub open spec fn decoded_as(payload: Seq<u8>, r: Result<MockItchMessage, ItchParseError>) -> bool {
    match message_spec(payload) {
        Ok(m) => r matches Ok(msg) && msg@ == m,
        Err((off, fault)) => r matches Err(e) && e.offset == off && e.detail@ == fault_text(fault),
    }
}

/// Decodes one message. Big-endian layout: timestamp (8), type (4; 1 = add
/// order, 2 = trade), symbol (8, space- or NUL-padded ASCII), then for an add
/// order side (1), price (8), size (8), and for a trade price (8), size (8).
/// The payload must end exactly after the last field.
pub fn parse_message(payload: &[u8]) -> (r: Result<MockItchMessage, ItchParseError>)
    ensures
        decoded_as(payload@, r),
{
    let mut r = Reader::new(payload);
    let timestamp_ns = match r.read_u64_be(0) {
        Ok(v) => v,
        Err(e) => return Err(e),
    };
    let msg_type = match r.read_u32_be(8) {
        Ok(v) => v,
        Err(e) => return Err(e),
    };
    proof {
        assert(payload@.len() >= 12);
    }
    if msg_type == 1 {
        let symbol = match r.read_symbol(12) {
            Ok(s) => s,
            Err(e) => return Err(e),
        };
        let raw_side = match r.read_u8(20) {
            Ok(v) => v,
            Err(e) => return Err(e),
        };
        let side = if raw_side == 0 {
            Side::Bid
        } else if raw_side == 1 {
            Side::Ask
        } else {
            let mut detail = String::from_str("invalid side ");
            push_u64(&mut detail, raw_side as u64);
            proof {
                reveal_strlit("invalid side ");
            }
            return Err(ItchParseError { offset: 20, detail });
        };
        let price_i64 = match r.read_i64_be(21) {
            Ok(v) => v,
            Err(e) => return Err(e),
        };
        let size_i64 = match r.read_i64_be(29) {
            Ok(v) => v,
            Err(e) => return Err(e),
        };
        if r.remaining() != 0 {
            proof {
                reveal_strlit("trailing bytes");
            }
            return Err(ItchParseError { offset: r.offset, detail: String::from_str("trailing bytes") });
        }
        Ok(MockItchMessage::AddOrder { timestamp_ns, symbol, side, price_i64, size_i64 })
    } else if msg_type == 2 {
        let symbol = match r.read_symbol(12) {
            Ok(s) => s,
            Err(e) => return Err(e),
        };
        let price_i64 = match r.read_i64_be(20) {
            Ok(v) => v,
            Err(e) => return Err(e),
        };
        let size_i64 = match r.read_i64_be(28) {
            Ok(v) => v,
            Err(e) => return Err(e),
        };
        if r.remaining() != 0 {
            proof {
                reveal_strlit("trailing bytes");
            }
            return Err(ItchParseError { offset: r.offset, detail: String::from_str("trailing bytes") });
        }
        Ok(MockItchMessage::Trade { timestamp_ns, symbol, price_i64, size_i64 })
    } else {
        let mut detail = String::from_str("unknown message type ");
        push_u64(&mut detail, msg_type as u64);
        proof {
            reveal_strlit("unknown message type ");
        }
        Err(ItchParseError { offset: 8, detail })
    }
}

/// A cursor over a payload.
struct Reader<'a> {
    data: &'a [u8],
    offset: usize,
}

impl<'a> Reader<'a> {
    fn new(data: &'a [u8]) -> (r: Self)
        ensures
            r.data@ == data@,
            r.offset == 0,
    {
        Reader { data, offset: 0 }
    }

    fn remaining(&self) -> (r: usize)
        ensures
            r == if self.offset <= self.data@.len() {
                self.data@.len() - self.offset
            } else {
                0
            },
    {
        self.data.len().saturating_sub(self.offset)
    }

    /// Claims the next `len` bytes and returns where they start.
    fn take(&mut self, len: usize, field_offset: usize) -> (r: Result<usize, ItchParseError>)
        requires
            len <= 8,
            old(self).offset <= old(self).data@.len(),
        ensures
            final(self).data@ == old(self).data@,
            old(self).offset + len <= old(self).data@.len() ==> r == Ok::<usize, ItchParseError>(
                old(self).offset,
            ) && final(self).offset == old(self).offset + len,
            old(self).offset + len > old(self).data@.len() ==> (r matches Err(e) && e.offset
                == field_offset && e.detail@ == fault_text(ParseFault::Short(len as nat))),
    {
        if self.data.len() - self.offset < len {
            let mut detail = String::from_str("short packet need ");
            push_u64(&mut detail, len as u64);
            detail.append(" bytes");
            proof {
                reveal_strlit("short packet need ");
                reveal_strlit(" bytes");
            }
            return Err(ItchParseError { offset: field_offset, detail });
        }
        let start = self.offset;
        self.offset = start + len;
        Ok(start)
    }

    fn read_u8(&mut self, field_offset: usize) -> (r: Result<u8, ItchParseError>)
        requires
            old(self).offset <= old(self).data@.len(),
        ensures
            final(self).data@ == old(self).data@,
            old(self).offset + 1 <= old(self).data@.len() ==> r == Ok::<u8, ItchParseError>(
                old(self).data@[old(self).offset as int],
            ) && final(self).offset == old(self).offset + 1,
            old(self).offset + 1 > old(self).data@.len() ==> (r matches Err(e) && e.offset
                == field_offset && e.detail@ == fault_text(ParseFault::Short(1))),
    {
        match self.take(1, field_offset) {
            Ok(start) => Ok(self.data[start]),
            Err(e) => Err(e),
        }
    }

    fn read_u32_be(&mut self, field_offset: usize) -> (r: Result<u32, ItchParseError>)
        requires
            old(self).offset <= old(self).data@.len(),
        ensures
            final(self).data@ == old(self).data@,
            old(self).offset + 4 <= old(self).data@.len() ==> r == Ok::<u32, ItchParseError>(
                be_nat(old(self).data@.subrange(old(self).offset as int, old(self).offset + 4)) as u32,
            ) && final(self).offset == old(self).offset + 4,
            old(self).offset + 4 > old(self).data@.len() ==> (r matches Err(e) && e.offset
                == field_offset && e.detail@ == fault_text(ParseFault::Short(4))),
    {
        match self.take(4, field_offset) {
            Ok(start) => Ok(read_be(self.data, start, 4) as u32),
            Err(e) => Err(e),
        }
    }

    fn read_u64_be(&mut self, field_offset: usize) -> (r: Result<u64, ItchParseError>)
        requires
            old(self).offset <= old(self).data@.len(),
        ensures
            final(self).data@ == old(self).data@,
            old(self).offset + 8 <= old(self).data@.len() ==> r == Ok::<u64, ItchParseError>(
                u64_at(old(self).data@, old(self).offset as int),
            ) && final(self).offset == old(self).offset + 8,
            old(self).offset + 8 > old(self).data@.len() ==> (r matches Err(e) && e.offset
                == field_offset && e.detail@ == fault_text(ParseFault::Short(8))),
    {
        match self.take(8, field_offset) {
            Ok(start) => Ok(read_be(self.data, start, 8)),
            Err(e) => Err(e),
        }
    }

    fn read_i64_be(&mut self, field_offset: usize) -> (r: Result<i64, ItchParseError>)
        requires
            old(self).offset <= old(self).data@.len(),
        ensures
            final(self).data@ == old(self).data@,
            old(self).offset + 8 <= old(self).data@.len() ==> r == Ok::<i64, ItchParseError>(
                i64_at(old(self).data@, old(self).offset as int),
            ) && final(self).offset == old(self).offset + 8,
            old(self).offset + 8 > old(self).data@.len() ==> (r matches Err(e) && e.offset
                == field_offset && e.detail@ == fault_text(ParseFault::Short(8))),
    {
        match self.take(8, field_offset) {
            Ok(start) => Ok(read_be(self.data, start, 8) as i64),
            Err(e) => Err(e),
        }
    }

    /// Reads an 8-byte ASCII symbol and drops its padding.
    #[verifier::loop_isolation(false)]
    fn read_symbol(&mut self, field_offset: usize) -> (r: Result<String, ItchParseError>)
        requires
            old(self).offset <= old(self).data@.len(),
        ensures
            final(self).data@ == old(self).data@,
            old(self).offset + 8 > old(self).data@.len() ==> (r matches Err(e) && e.offset
                == field_offset && e.detail@ == fault_text(ParseFault::Short(8))),
            old(self).offset + 8 <= old(self).data@.len() ==> {
                let bytes = old(self).data@.subrange(old(self).offset as int, old(self).offset + 8);
                &&& final(self).offset == old(self).offset + 8
                &&& (all_ascii(bytes) ==> (r matches Ok(s) && s@ == symbol_at(
                    old(self).data@,
                    old(self).offset as int,
                )))
                &&& (!all_ascii(bytes) ==> (r matches Err(e) && e.offset == field_offset
                    && e.detail@ == fault_text(ParseFault::NotAscii)))
            },
    {
        let start = match self.take(8, field_offset) {
            Ok(s) => s,
            Err(e) => return Err(e),
        };
        let ghost bytes = self.data@.subrange(start as int, start + 8);
        let len = self.data.len();
        proof {
            assert(bytes.subrange(0, 8) =~= bytes);
        }
        let mut i: usize = 0;
        while i < 8
            invariant
                i <= 8,
                start + 8 <= self.data@.len(),
                len == self.data@.len(),
                bytes == self.data@.subrange(start as int, start + 8),
                forall|k: int| 0 <= k < i ==> #[trigger] bytes[k] < 128,
            decreases 8 - i,
        {
            if self.data[start + i] >= 128 {
                proof {
                    reveal_strlit("symbol is not valid ASCII");
                    assert(bytes[i as int] >= 128);
                }
                return Err(
                    ItchParseError {
                        offset: field_offset,
                        detail: String::from_str("symbol is not valid ASCII"),
                    },
                );
            }
            i = i + 1;
        }
        let mut k: usize = 8;
        while k > 0 && (self.data[start + k - 1] == 32 || self.data[start + k - 1] == 0)
            invariant
                k <= 8,
                start + 8 <= self.data@.len(),
                len == self.data@.len(),
                bytes == self.data@.subrange(start as int, start + 8),
                all_ascii(bytes),
                trim_padding(ascii_chars(bytes)) == trim_padding(ascii_chars(bytes.subrange(0, k as int))),
            decreases k,
        {
            proof {
                let c = ascii_chars(bytes.subrange(0, k as int));
                assert(c.drop_last() =~= ascii_chars(bytes.subrange(0, k - 1)));
                assert(c.last() == ' ' || c.last() == '\0');
            }
            k = k - 1;
        }
        let mut out: Vec<u8> = Vec::new();
        let mut j: usize = 0;
        while j < k
            invariant
                j <= k <= 8,
                start + 8 <= self.data@.len(),
                len == self.data@.len(),
                bytes == self.data@.subrange(start as int, start + 8),
                all_ascii(bytes),
                out@ == bytes.subrange(0, j as int),
            decreases k - j,
        {
            out.push(self.data[start + j]);
            j = j + 1;
            proof {
                assert(out@ =~= bytes.subrange(0, j as int));
            }
        }
        proof {
            let c = ascii_chars(bytes.subrange(0, k as int));
            if k > 0 {
                assert(c.last() != ' ' && c.last() != '\0');
            }
            assert(trim_padding(c) == c);
            assert(ascii_chars(bytes.subrange(0, 8)) =~= ascii_chars(bytes));
        }
        let s = ascii_string(out);
        Ok(s)
    }
}

} // verus!
