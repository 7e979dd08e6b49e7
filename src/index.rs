//! The sparse time index: every `stride`-th record's timestamp, sequence and
//! byte offset, for seeking a log by time.
use vstd::prelude::*;
use crate::event::Event;
use crate::eventlog::StorageError;
use crate::num_bytes::{le_bytes, le_nat, lemma_pow256_facts, push_le, read_le};

verus! {

#[derive(Debug, Clone, Copy, PartialEq, Eq, Structural)]
pub struct IndexEntry {
    pub timestamp_ns: u64,
    pub sequence: u64,
    pub byte_offset: u64,
}

pub open spec fn index_magic() -> Seq<u8> {
    seq![0x4du8, 0x44, 0x45, 0x49, 0x44, 0x58, 0x30, 0x31]
}

pub open spec fn index_header_bytes(stride: u32) -> Seq<u8> {
    index_magic() + le_bytes(1, 2) + le_bytes(stride as nat, 4)
}

pub open spec fn entry_bytes(e: IndexEntry) -> Seq<u8> {
    le_bytes(e.timestamp_ns as nat, 8) + le_bytes(e.sequence as nat, 8) + le_bytes(e.byte_offset as nat, 8)
}

/// Writes one entry for every `stride`-th event it is told of, starting with
/// the first.
pub struct IndexWriter {
    pending: Vec<u8>,
    stride: u32,
    seen: u64,
}

impl IndexWriter {
    pub closed spec fn pending_bytes(&self) -> Seq<u8> {
        self.pending@
    }

    pub closed spec fn stride_spec(&self) -> u32 {
        self.stride
    }

    /// How many events the writer has been told of.
    pub closed spec fn seen_spec(&self) -> u64 {
        self.seen
    }

    /// Starts an index; fails when `stride` is 0.
    pub fn create(stride: u32) -> (r: Result<IndexWriter, StorageError>)
        ensures
            r is Ok <==> stride >= 1,
            r matches Ok(w) ==> w.pending_bytes() == index_header_bytes(stride) && w.stride_spec()
                == stride && w.seen_spec() == 0,
            r matches Err(e) ==> e is InvalidFormat,
    {
        if stride == 0 {
            return Err(StorageError::InvalidFormat(String::from_str("index stride must be > 0")));
        }
        let mut out: Vec<u8> = Vec::new();
        out.push(0x4d);
        out.push(0x44);
        out.push(0x45);
        out.push(0x49);
        out.push(0x44);
        out.push(0x58);
        out.push(0x30);
        out.push(0x31);
        push_le(&mut out, 1, 2);
        push_le(&mut out, stride as u64, 4);
        proof {
            assert(out@ =~= index_header_bytes(stride));
        }
        Ok(IndexWriter { pending: out, stride, seen: 0 })
    }

    /// Records an entry for `event` at `offset` when the count of events
    /// seen so far is a multiple of the stride; always counts the event.
    pub fn maybe_add(&mut self, event: &Event, offset: u64) -> (r: Result<(), StorageError>)
        requires
            old(self).stride_spec() >= 1,
            old(self).seen_spec() < u64::MAX,
        ensures
            r is Ok,
            final(self).stride_spec() == old(self).stride_spec(),
            final(self).seen_spec() == old(self).seen_spec() + 1,
            final(self).pending_bytes() == if old(self).seen_spec() % (old(self).stride_spec() as u64) == 0 {
                old(self).pending_bytes() + entry_bytes(
                    IndexEntry { timestamp_ns: event.timestamp_ns, sequence: event.sequence, byte_offset: offset },
                )
            } else {
                old(self).pending_bytes()
            },
    {
        if self.seen % (self.stride as u64) == 0 {
            let ghost before = self.pending@;
            push_le(&mut self.pending, event.timestamp_ns, 8);
            push_le(&mut self.pending, event.sequence, 8);
            push_le(&mut self.pending, offset, 8);
            proof {
                assert(self.pending@ =~= before + entry_bytes(
                    IndexEntry { timestamp_ns: event.timestamp_ns, sequence: event.sequence, byte_offset: offset },
                ));
            }
        }
        self.seen = self.seen + 1;
        Ok(())
    }

    /// Hands out the bytes written since the last call.
    pub fn take_pending(&mut self) -> (r: Vec<u8>)
        ensures
            r@ == old(self).pending_bytes(),
            final(self).pending_bytes() == Seq::<u8>::empty(),
            final(self).stride_spec() == old(self).stride_spec(),
            final(self).seen_spec() == old(self).seen_spec(),
    {
        let mut out: Vec<u8> = Vec::new();
        std::mem::swap(&mut out, &mut self.pending);
        out
    }
}

/// The entry whose 24 bytes start at `pos`.
pub open spec fn entry_at(d: Seq<u8>, pos: int) -> IndexEntry {
    IndexEntry {
        timestamp_ns: le_nat(d.subrange(pos, pos + 8)) as u64,
        sequence: le_nat(d.subrange(pos + 8, pos + 16)) as u64,
        byte_offset: le_nat(d.subrange(pos + 16, pos + 24)) as u64,
    }
}

/// The index of the entry to seek to: the last whose timestamp is below
/// `from_ns`, else the first.
pub open spec fn seek_index(entries: Seq<IndexEntry>, from_ns: u64) -> int
    decreases entries.len(),
{
    if entries.len() <= 1 {
        0
    } else if entries.last().timestamp_ns < from_ns {
        entries.len() - 1
    } else {
        seek_index(entries.drop_last(), from_ns)
    }
}

/// Bytes that read as an index: the header with version 1 and a stride of
/// at least 1, then whole entries, with fewer than 8 bytes after the last.
pub open spec fn index_readable(d: Seq<u8>) -> bool {
    &&& d.len() >= 14
    &&& d.subrange(0, 8) == index_magic()
    &&& le_nat(d.subrange(8, 10)) == 1
    &&& le_nat(d.subrange(10, 14)) >= 1
    &&& (d.len() - 14) % 24 < 8
}

/// An index read into memory.
#[derive(Debug, Clone)]
pub struct IndexReader {
    stride: u32,
    entries: Vec<IndexEntry>,
}

impl IndexReader {
    pub closed spec fn entries_spec(&self) -> Seq<IndexEntry> {
        self.entries@
    }

    pub closed spec fn stride_value(&self) -> u32 {
        self.stride
    }

    /// Reads an index: magic, version 1, a stride of at least 1, then 24-byte
    /// entries until fewer than 8 bytes remain; an entry cut off after its
    /// timestamp is an error.
    pub fn from_bytes(data: &[u8]) -> (r: Result<IndexReader, StorageError>)
        ensures
            r is Ok <==> index_readable(data@),
            data@.len() < 8 ==> (r matches Err(e) && e is Io),
            data@.len() >= 8 && data@.subrange(0, 8) != index_magic() ==> (r matches Err(e) && e is InvalidFormat),
            data@.len() >= 14 && data@.subrange(0, 8) == index_magic() && (le_nat(data@.subrange(8, 10)) != 1
                || le_nat(data@.subrange(10, 14)) == 0) ==> (r matches Err(e) && e is InvalidFormat),
            data@.len() >= 14 && data@.subrange(0, 8) == index_magic() && le_nat(data@.subrange(8, 10)) == 1
                && le_nat(data@.subrange(10, 14)) >= 1 && (data@.len() - 14) % 24 >= 8 ==> (r matches Err(e)
                && e is Io),
            r matches Ok(ix) ==> {
                &&& data@.len() >= 14
                &&& data@.subrange(0, 8) == index_magic()
                &&& le_nat(data@.subrange(8, 10)) == 1
                &&& ix.stride_value() == le_nat(data@.subrange(10, 14))
                &&& (data@.len() - 14) % 24 < 8
                &&& ix.entries_spec().len() == (data@.len() - 14) / 24
                &&& forall|k: int| 0 <= k < ix.entries_spec().len() ==> #[trigger] ix.entries_spec()[k]
                    == entry_at(data@, 14 + 24 * k)
            },
    {
        let len = data.len();
        if len < 8 {
            return Err(StorageError::Io(String::from_str("unexpected end of file")));
        }
        let magic_ok = data[0] == 0x4d && data[1] == 0x44 && data[2] == 0x45 && data[3] == 0x49
            && data[4] == 0x44 && data[5] == 0x58 && data[6] == 0x30 && data[7] == 0x31;
        if !magic_ok {
            proof {
                if data@.subrange(0, 8) == index_magic() {
                    assert(data@[0] == data@.subrange(0, 8)[0]);
                    assert(data@[1] == data@.subrange(0, 8)[1]);
                    assert(data@[2] == data@.subrange(0, 8)[2]);
                    assert(data@[3] == data@.subrange(0, 8)[3]);
                    assert(data@[4] == data@.subrange(0, 8)[4]);
                    assert(data@[5] == data@.subrange(0, 8)[5]);
                    assert(data@[6] == data@.subrange(0, 8)[6]);
                    assert(data@[7] == data@.subrange(0, 8)[7]);
                }
            }
            return Err(StorageError::InvalidFormat(String::from_str("bad index magic")));
        }
        proof {
            assert(data@.subrange(0, 8) =~= index_magic());
        }
        if len < 14 {
            return Err(StorageError::Io(String::from_str("unexpected end of file")));
        }
        let version = read_le(data, 8, 2);
        if version != 1 {
            let mut msg = String::from_str("unsupported index version ");
            crate::text::push_u64(&mut msg, version);
            return Err(StorageError::InvalidFormat(msg));
        }
        let stride = read_le(data, 10, 4);
        proof {
            lemma_pow256_facts(4);
            crate::num_bytes::lemma_le_value_bound(data@.subrange(10, 14));
        }
        if stride == 0 {
            return Err(StorageError::InvalidFormat(String::from_str("index stride must be > 0")));
        }
        let mut entries: Vec<IndexEntry> = Vec::new();
        let mut pos: usize = 14;
        while len - pos >= 8
            invariant
                14 <= pos <= len,
                len == data@.len(),
                data@.subrange(0, 8) == index_magic(),
                le_nat(data@.subrange(8, 10)) == 1,
                stride == le_nat(data@.subrange(10, 14)),
                stride < 0x1_0000_0000,
                stride >= 1,
                (pos - 14) % 24 == 0,
                entries@.len() == (pos - 14) / 24,
                forall|k: int| 0 <= k < entries@.len() ==> #[trigger] entries@[k] == entry_at(data@, 14 + 24 * k),
            decreases len - pos,
        {
            if len - pos < 24 {
                proof {
                    assert((len - 14) % 24 == len - pos) by (nonlinear_arith)
                        requires
                            (pos - 14) % 24 == 0,
                            len - pos < 24,
                            pos >= 14,
                            len >= pos,
                    ;
                }
                return Err(StorageError::Io(String::from_str("unexpected end of file")));
            }
            let timestamp_ns = read_le(data, pos, 8);
            let sequence = read_le(data, pos + 8, 8);
            let byte_offset = read_le(data, pos + 16, 8);
            entries.push(IndexEntry { timestamp_ns, sequence, byte_offset });
            proof {
                assert(14 + 24 * ((pos - 14) / 24) == pos);
            }
            pos = pos + 24;
        }
        proof {
            assert((len - 14) as int == (pos - 14) as int + (len - pos) as int);
            assert((len - 14) % 24 == len - pos && (len - 14) / 24 == (pos - 14) / 24) by (nonlinear_arith)
                requires
                    (pos - 14) % 24 == 0,
                    len - pos < 8,
                    pos >= 14,
                    len >= pos,
            ;
        }
        Ok(IndexReader { stride: stride as u32, entries })
    }

    pub fn stride(&self) -> (r: u32)
        ensures
            r == self.stride_value(),
    {
        self.stride
    }

    pub fn entries(&self) -> (r: &[IndexEntry])
        ensures
            r@ == self.entries_spec(),
    {
        self.entries.as_slice()
    }

    /// The offset to start reading from for events at `from_ns` or later: that
    /// of the last entry strictly before `from_ns`, else of the first; `None`
    /// when the index is empty.
    pub fn seek_offset(&self, from_ns: u64) -> (r: Option<u64>)
        ensures
            self.entries_spec().len() == 0 ==> r is None,
            self.entries_spec().len() > 0 ==> r == Some(
                self.entries_spec()[seek_index(self.entries_spec(), from_ns)].byte_offset,
            ),
    {
        let n = self.entries.len();
        if n == 0 {
            return None;
        }
        let mut k: usize = n;
        proof {
            assert(self.entries@.subrange(0, n as int) =~= self.entries@);
        }
        while k > 1 && self.entries[k - 1].timestamp_ns >= from_ns
            invariant
                1 <= k <= n,
                n == self.entries@.len(),
                seek_index(self.entries@, from_ns) == seek_index(self.entries@.subrange(0, k as int), from_ns),
            decreases k,
        {
            proof {
                assert(self.entries@.subrange(0, k as int).drop_last() =~= self.entries@.subrange(0, k - 1));
            }
            k = k - 1;
        }
        proof {
            assert(self.entries@.subrange(0, n as int) =~= self.entries@);
        }
        Some(self.entries[k - 1].byte_offset)
    }
}


/// `entries` samples every `stride`-th of `records` (timestamp, byte offset),
/// starting with the first, as `IndexWriter` records them.
pub open spec fn sampled(records: Seq<(u64, u64)>, stride: nat, entries: Seq<IndexEntry>) -> bool {
    &&& records.len() > 0 ==> entries.len() > 0
    &&& forall|k: int|
        0 <= k < entries.len() ==> {
            &&& 0 <= k * stride < records.len()
            &&& #[trigger] entries[k].timestamp_ns == records[k * stride].0
            &&& entries[k].byte_offset == records[k * stride].1
        }
}

/// A log as written: timestamps never decrease, offsets strictly increase.
pub open spec fn log_ordered(records: Seq<(u64, u64)>) -> bool {
    forall|i: int, j: int|
        0 <= i < j < records.len() ==> (#[trigger] records[i]).0 <= (#[trigger] records[j]).0
            && records[i].1 < records[j].1
}

proof fn lemma_seek_index(entries: Seq<IndexEntry>, from_ns: u64)
    requires
        entries.len() > 0,
    ensures
        0 <= seek_index(entries, from_ns) < entries.len(),
        entries[seek_index(entries, from_ns)].timestamp_ns < from_ns || seek_index(entries, from_ns) == 0,
    decreases entries.len(),
{
    if entries.len() > 1 && entries.last().timestamp_ns >= from_ns {
        lemma_seek_index(entries.drop_last(), from_ns);
    }
}

/// Seeking never skips an event in range: in a log whose timestamps never
/// decrease, no record with a timestamp at or after `from_ns` lies before
/// the offset that `seek_offset(from_ns)` returns, ties included.
pub proof fn lemma_seek_lower_bound(records: Seq<(u64, u64)>, stride: nat, entries: Seq<IndexEntry>, from_ns: u64)
    requires
        stride >= 1,
        records.len() > 0,
        log_ordered(records),
        sampled(records, stride, entries),
    ensures
        forall|i: int|
            0 <= i < records.len() && (#[trigger] records[i]).0 >= from_ns ==> records[i].1
                >= entries[seek_index(entries, from_ns)].byte_offset,
{
    lemma_seek_index(entries, from_ns);
    let s = seek_index(entries, from_ns);
    let j = s * stride;
    assert(entries[s].timestamp_ns == records[j].0);
    assert forall|i: int|
        0 <= i < records.len() && (#[trigger] records[i]).0 >= from_ns implies records[i].1 >= entries[s].byte_offset by {
        if s == 0 {
            assert(j == 0);
            if i > 0 {
                assert(records[0].1 < records[i].1);
            }
        } else if i < j {
            assert(records[i].0 <= records[j].0);
        } else if i > j {
            assert(records[j].1 < records[i].1);
        }
    }
}

} // verus!
