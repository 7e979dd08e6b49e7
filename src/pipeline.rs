//! Writing sequenced events out as a log and its index, in lockstep.
use vstd::prelude::*;
use crate::codec::{event_bytes, lemma_event_bytes_injective, lemma_event_layout, str_bytes, strings_fit};
use vstd::utf8::encode_utf8;
use crate::engine::{count_le, payload_event, replay_result, scan_log, sequence_sorted, sort_by_sequence};
use crate::eventlog::{lemma_record_round_trip, record_len, record_payload, record_status, RecordStatus};
use crate::dashboard::{event_symbols, insert_name, names_sorted};
use crate::bytes_order::{cmp_bytes, lemma_cmp_bytes_antisym, lemma_cmp_bytes_trans};
use crate::event::{Event, EventView};
use crate::eventlog::{
    crc32_of, default_schema_hash, header_bytes, record_bytes, schema_desc, EventLogWriter, StorageError,
};
use crate::index::{entry_bytes, index_header_bytes, IndexEntry, IndexWriter};

verus! {

/// The records of `evs`, one after another.
pub open spec fn records_bytes(evs: Seq<EventView>) -> Seq<u8>
    decreases evs.len(),
{
    if evs.len() == 0 {
        Seq::empty()
    } else {
        records_bytes(evs.drop_last()) + record_bytes(event_bytes(evs.last()))
    }
}

/// The index entries for `evs` when the first record starts at `base`: one
/// for every `stride`-th event, starting with the first.
pub open spec fn index_entries_bytes(evs: Seq<EventView>, stride: nat, base: nat) -> Seq<u8>
    decreases evs.len(),
{
    if evs.len() == 0 {
        Seq::empty()
    } else {
        let n = evs.len() - 1;
        let prev = index_entries_bytes(evs.drop_last(), stride, base);
        if n % (stride as int) == 0 {
            prev + entry_bytes(
                IndexEntry {
                    timestamp_ns: evs.last().timestamp_ns,
                    sequence: evs.last().sequence,
                    byte_offset: (base + records_bytes(evs.drop_last()).len()) as u64,
                },
            )
        } else {
            prev
        }
    }
}

proof fn lemma_header_len(syms: Seq<Seq<char>>, h: u64)
    ensures
        header_bytes(syms, h).len() == 22 + crate::eventlog::symbol_list_bytes(syms).len(),
{
    crate::num_bytes::lemma_le_bytes_len(1, 2);
    crate::num_bytes::lemma_le_bytes_len(h as nat, 8);
    crate::num_bytes::lemma_le_bytes_len(syms.len(), 4);
}

proof fn lemma_sorted_names_distinct(l: Seq<Seq<char>>)
    requires
        names_sorted(l),
    ensures
        l.no_duplicates(),
{
    assert forall|i: int, j: int| 0 <= i < j < l.len() implies cmp_bytes(encode_utf8(l[i]), encode_utf8(l[j])) < 0 by {
        lemma_sorted_chain(l, i, j);
    }
    assert forall|i: int, j: int| 0 <= i < l.len() && 0 <= j < l.len() && i != j implies l[i] != l[j] by {
        if i < j {
            lemma_cmp_bytes_antisym(encode_utf8(l[i]), encode_utf8(l[j]));
        } else {
            lemma_cmp_bytes_antisym(encode_utf8(l[j]), encode_utf8(l[i]));
        }
    }
}

proof fn lemma_sorted_chain(l: Seq<Seq<char>>, i: int, j: int)
    requires
        names_sorted(l),
        0 <= i < j < l.len(),
    ensures
        cmp_bytes(encode_utf8(l[i]), encode_utf8(l[j])) < 0,
    decreases j - i,
{
    if j > i + 1 {
        lemma_sorted_chain(l, i, j - 1);
        assert(cmp_bytes(encode_utf8(l[j - 1]), encode_utf8(l[j])) < 0);
        lemma_cmp_bytes_trans(encode_utf8(l[i]), encode_utf8(l[j - 1]), encode_utf8(l[j]));
    } else {
        assert(cmp_bytes(encode_utf8(l[i]), encode_utf8(l[i + 1])) < 0);
    }
}

proof fn lemma_symbol_list_len(syms: Seq<Seq<char>>)
    requires
        forall|i: int| 0 <= i < syms.len() ==> encode_utf8(#[trigger] syms[i]).len() <= 255,
    ensures
        crate::eventlog::symbol_list_bytes(syms).len() <= 256 * syms.len(),
    decreases syms.len(),
{
    if syms.len() > 0 {
        let init = syms.drop_last();
        assert forall|i: int| 0 <= i < init.len() implies encode_utf8(#[trigger] init[i]).len() <= 255 by {
            assert(init[i] == syms[i]);
        }
        lemma_symbol_list_len(init);
        assert(encode_utf8(syms[syms.len() - 1]).len() <= 255);
    }
}

proof fn lemma_records_prefix_len(evs: Seq<EventView>, k: int)
    requires
        0 <= k <= evs.len(),
    ensures
        records_bytes(evs.subrange(0, k)).len() <= records_bytes(evs).len(),
    decreases evs.len() - k,
{
    if k < evs.len() {
        let init = evs.drop_last();
        assert(init.subrange(0, k) =~= evs.subrange(0, k));
        lemma_records_prefix_len(init, k);
    } else {
        assert(evs.subrange(0, k) =~= evs);
    }
}

/// Inputs that a log and index can be written for: a stride of at least 1,
/// fewer than 2^32 events, symbols of at most 255 bytes, records whose
/// length fits a `u32`, and a total size that fits a `u64` offset.
pub open spec fn writable(evs: Seq<EventView>, stride: u32) -> bool {
    &&& stride >= 1
    &&& evs.len() < 0x1_0000_0000
    &&& forall|i: int|
        0 <= i < evs.len() ==> encode_utf8((#[trigger] evs[i]).symbol).len() <= 255 && event_bytes(evs[i]).len()
            <= 0xffff_ffff
    &&& 22 + 256 * evs.len() + records_bytes(evs).len() <= u64::MAX
}

/// Writes `events` as a log, whose header lists their symbols in byte order,
/// and an index with the given stride; gives the bytes of both.
pub fn write_log_and_index(events: &[Event], stride: u32) -> (r: Result<(Vec<u8>, Vec<u8>), StorageError>)
    ensures
        stride == 0 ==> r is Err,
        writable(events@.map_values(|e: Event| e@), stride) ==> r is Ok,
        r matches Err(e) ==> e is InvalidFormat,
        r matches Ok((log, idx)) ==> exists|symbols: Seq<Seq<char>>|
            {
                let evs = events@.map_values(|e: Event| e@);
                let h = header_bytes(symbols, crc32_of(schema_desc()) as u64);
                &&& #[trigger] names_sorted(symbols)
                &&& symbols.to_set() == event_symbols(evs)
                &&& log@ == h + records_bytes(evs)
                &&& idx@ == index_header_bytes(stride) + index_entries_bytes(evs, stride as nat, h.len())
            },
{
    let ghost evs = events@.map_values(|e: Event| e@);
    let mut symbols: Vec<String> = Vec::new();
    let mut i: usize = 0;
    proof {
        assert(symbols@.map_values(|x: String| x@).to_set() =~= Set::<Seq<char>>::empty());
        assert(evs.subrange(0, 0).map_values(|e: EventView| e.symbol).to_set() =~= Set::<Seq<char>>::empty());
    }
    while i < events.len()
        invariant
            i <= events@.len(),
            evs == events@.map_values(|e: Event| e@),
            names_sorted(symbols@.map_values(|x: String| x@)),
            symbols@.map_values(|x: String| x@).to_set() == event_symbols(evs.subrange(0, i as int)),
        decreases events.len() - i,
    {
        insert_name(&mut symbols, &events[i].symbol);
        proof {
            let m0 = evs.subrange(0, i as int).map_values(|e: EventView| e.symbol);
            let m = evs.subrange(0, i + 1).map_values(|e: EventView| e.symbol);
            assert(m =~= m0.insert(m0.len() as int, events@[i as int].symbol@));
            crate::dashboard::lemma_insert_to_set(m0, m0.len() as int, events@[i as int].symbol@);
        }
        i = i + 1;
    }
    proof {
        assert(evs.subrange(0, events@.len() as int) =~= evs);
    }
    let ghost names = symbols@.map_values(|x: String| x@);
    let ghost good = writable(evs, stride);
    proof {
        if good {
            lemma_sorted_names_distinct(names);
            names.unique_seq_to_set();
            evs.map_values(|e: EventView| e.symbol).lemma_cardinality_of_set();
            assert forall|i: int| 0 <= i < symbols@.len() implies encode_utf8(#[trigger] symbols@[i]@).len() <= 255 by {
                assert(names[i] == symbols@[i]@);
                assert(names.to_set().contains(names[i]));
                assert(event_symbols(evs).contains(names[i]));
                let m = evs.map_values(|e: EventView| e.symbol);
                let j = choose|j: int| 0 <= j < m.len() && m[j] == names[i];
                assert(m[j] == evs[j].symbol);
            }
            assert forall|i: int| 0 <= i < names.len() implies encode_utf8(#[trigger] names[i]).len() <= 255 by {
                assert(names[i] == symbols@[i]@);
            }
            lemma_symbol_list_len(names);
        }
    }
    let mut writer = match EventLogWriter::create(&symbols, default_schema_hash()) {
        Ok(w) => w,
        Err(e) => return Err(e),
    };
    let mut idx = match IndexWriter::create(stride) {
        Ok(w) => w,
        Err(e) => return Err(e),
    };
    proof {
        if good {
            lemma_header_len(names, crc32_of(schema_desc()) as u64);
        }
    }
    let ghost h = writer.written();
    let mut k: usize = 0;
    proof {
        assert(evs.subrange(0, 0) =~= Seq::<EventView>::empty());
        assert(h + records_bytes(Seq::<EventView>::empty()) =~= h);
        assert(index_header_bytes(stride) + index_entries_bytes(Seq::<EventView>::empty(), stride as nat, h.len()) =~= index_header_bytes(stride));
    }
    while k < events.len()
        invariant
            k <= events@.len(),
            evs == events@.map_values(|e: Event| e@),
            writer.wf(),
            writer.pending_len() == writer.written().len(),
            writer.written() == h + records_bytes(evs.subrange(0, k as int)),
            idx.stride_spec() == stride,
            stride >= 1,
            idx.seen_spec() == k,
            idx.pending_bytes() == index_header_bytes(stride) + index_entries_bytes(
                evs.subrange(0, k as int),
                stride as nat,
                h.len(),
            ),
            good == writable(evs, stride),
            good ==> h.len() <= 22 + 256 * evs.len(),
        decreases events.len() - k,
    {
        proof {
            if good {
                let pre = evs.subrange(0, k + 1);
                assert(pre.drop_last() =~= evs.subrange(0, k as int));
                assert(pre.last() == evs[k as int]);
                lemma_records_prefix_len(evs, k + 1);
                crate::num_bytes::lemma_le_bytes_len(event_bytes(evs[k as int]).len(), 4);
                crate::num_bytes::lemma_le_bytes_len(crc32_of(event_bytes(evs[k as int])) as nat, 4);
                assert(events@[k as int]@ == evs[k as int]);
            }
        }
        let offset = match writer.append(&events[k]) {
            Ok(o) => o,
            Err(e) => return Err(e),
        };
        let _ = idx.maybe_add(&events[k], offset);
        proof {
            let pre = evs.subrange(0, k + 1);
            assert(pre.drop_last() =~= evs.subrange(0, k as int));
            assert(pre.last() == events@[k as int]@);
            assert(writer.written() =~= h + records_bytes(pre));
            assert(idx.pending_bytes() =~= index_header_bytes(stride) + index_entries_bytes(pre, stride as nat, h.len()));
        }
        k = k + 1;
    }
    proof {
        assert(evs.subrange(0, events@.len() as int) =~= evs);
    }
    let log = writer.take_pending();
    let index = idx.take_pending();
    proof {
        assert(log@ =~= writer.written());
        assert(names_sorted(names));
    }
    Ok((log, index))
}


proof fn lemma_records_first(evs: Seq<EventView>)
    requires
        evs.len() > 0,
    ensures
        records_bytes(evs) == record_bytes(event_bytes(evs[0])) + records_bytes(evs.drop_first()),
    decreases evs.len(),
{
    if evs.len() == 1 {
        assert(evs.drop_last() =~= Seq::<EventView>::empty());
        assert(evs.drop_first() =~= Seq::<EventView>::empty());
        assert(records_bytes(evs) =~= record_bytes(event_bytes(evs[0])) + records_bytes(evs.drop_first()));
    } else {
        let init = evs.drop_last();
        lemma_records_first(init);
        assert(init.drop_first() =~= evs.drop_first().drop_last());
        assert(evs.drop_first().last() == evs.last());
        assert(records_bytes(evs) =~= record_bytes(event_bytes(evs[0])) + records_bytes(evs.drop_first()));
    }
}

/// An event decoded from its own encoding is that event.
proof fn lemma_payload_event(v: EventView)
    requires
        strings_fit(v),
        event_bytes(v).len() <= 0xffff_ffff,
    ensures
        payload_event(event_bytes(v)) == v,
{
    let w = payload_event(event_bytes(v));
    assert(event_bytes(w) == event_bytes(v));
    lemma_event_layout(w);
    crate::num_bytes::lemma_le_bytes_len((encode_utf8(w.venue).len() as u64) as nat, 8);
    crate::num_bytes::lemma_le_bytes_len((encode_utf8(w.symbol).len() as u64) as nat, 8);
    assert(str_bytes(w.venue).len() == 8 + encode_utf8(w.venue).len());
    assert(str_bytes(w.symbol).len() == 8 + encode_utf8(w.symbol).len());
    lemma_event_bytes_injective(w, v);
}

pub open spec fn storable(evs: Seq<EventView>) -> bool {
    forall|i: int| 0 <= i < evs.len() ==> strings_fit(#[trigger] evs[i]) && event_bytes(evs[i]).len() <= 0xffff_ffff
}

proof fn lemma_scan_records(pre: Seq<u8>, evs: Seq<EventView>)
    requires
        storable(evs),
    ensures
        scan_log(pre + records_bytes(evs), pre.len() as int, None, None) == Ok::<Seq<EventView>, (RecordStatus, int)>(evs),
    decreases evs.len(),
{
    let d = pre + records_bytes(evs);
    let pos = pre.len() as int;
    if evs.len() == 0 {
        assert(d =~= pre);
        assert(record_status(d, pos) is End);
        assert(evs =~= Seq::<EventView>::empty());
    } else {
        let v = evs[0];
        let rest = evs.drop_first();
        let rec = record_bytes(event_bytes(v));
        lemma_records_first(evs);
        assert(d =~= pre + rec + records_bytes(rest));
        lemma_record_round_trip(pre, event_bytes(v), records_bytes(rest), v);
        lemma_payload_event(v);
        assert(storable(rest)) by {
            assert forall|i: int| 0 <= i < rest.len() implies strings_fit(#[trigger] rest[i]) && event_bytes(rest[i]).len()
                <= 0xffff_ffff by {
                assert(rest[i] == evs[i + 1]);
            }
        }
        lemma_scan_records(pre + rec, rest);
        crate::num_bytes::lemma_le_bytes_len(event_bytes(v).len(), 4);
        crate::num_bytes::lemma_le_bytes_len(crc32_of(event_bytes(v)) as nat, 4);
        assert(pre + rec + records_bytes(rest) =~= (pre + rec) + records_bytes(rest));
        assert((pre + rec).len() == pos + 8 + record_len(d, pos));
        assert(seq![v] + rest =~= evs);
    }
}

proof fn lemma_sort_in_order(s: Seq<EventView>)
    requires
        sequence_sorted(s),
    ensures
        sort_by_sequence(s) == s,
    decreases s.len(),
{
    reveal(sort_by_sequence);
    if s.len() > 0 {
        let init = s.drop_last();
        assert(sequence_sorted(init));
        lemma_sort_in_order(init);
        lemma_count_all(init, s.last().sequence);
        assert(init.insert(init.len() as int, s.last()) =~= s);
    }
}

proof fn lemma_count_all(t: Seq<EventView>, q: u64)
    requires
        forall|i: int| 0 <= i < t.len() ==> (#[trigger] t[i]).sequence <= q,
    ensures
        count_le(t, q) == t.len(),
    decreases t.len(),
{
    if t.len() > 0 {
        lemma_count_all(t.drop_last(), q);
    }
}

/// What is written is read back: after any header, the records of `evs` scan
/// back as `evs` in order, and a full range read over them returns them
/// unchanged when they are in sequence order, as sequencing leaves them.
pub proof fn lemma_log_round_trip(header: Seq<u8>, evs: Seq<EventView>)
    requires
        storable(evs),
    ensures
        scan_log(header + records_bytes(evs), header.len() as int, None, None) == Ok::<Seq<EventView>, (RecordStatus, int)>(
            evs,
        ),
        sequence_sorted(evs) ==> replay_result(header + records_bytes(evs), header.len() as int, None, None)
            == Ok::<Seq<EventView>, (RecordStatus, int)>(evs),
{
    lemma_scan_records(header, evs);
    if sequence_sorted(evs) {
        lemma_sort_in_order(evs);
    }
}


/// A log as `write_log_and_index` writes it reads back whole: its header is
/// recognised with these symbols and the default schema hash (so the first
/// record starts right after it), and a full range read from there returns
/// the written events. For events as sequencing numbers them (the i-th has
/// sequence i + 1) that read is strictly increasing in sequence.
pub proof fn lemma_written_log_reads_back(symbols: Seq<Seq<char>>, evs: Seq<EventView>)
    requires
        storable(evs),
        symbols.len() < 0x1_0000_0000,
        forall|i: int| 0 <= i < symbols.len() ==> encode_utf8(#[trigger] symbols[i]).len() <= 255,
        forall|i: int| 0 <= i < evs.len() ==> (#[trigger] evs[i]).sequence == i + 1,
    ensures
        ({
            let h = header_bytes(symbols, crc32_of(schema_desc()) as u64);
            let d = h + records_bytes(evs);
            &&& crate::eventlog::starts_with_header(d, symbols, crc32_of(schema_desc()) as u64)
            &&& replay_result(d, h.len() as int, None, None) == Ok::<Seq<EventView>, (RecordStatus, int)>(evs)
            &&& forall|i: int, j: int| 0 <= i < j < evs.len() ==> (#[trigger] evs[i]).sequence < (#[trigger] evs[j]).sequence
        }),
{
    let h = header_bytes(symbols, crc32_of(schema_desc()) as u64);
    lemma_written_header(symbols, crc32_of(schema_desc()) as u64, records_bytes(evs));
    lemma_numbered_in_order(evs);
    lemma_log_round_trip(h, evs);
}

proof fn lemma_written_header(symbols: Seq<Seq<char>>, hash: u64, rest: Seq<u8>)
    requires
        symbols.len() < 0x1_0000_0000,
        forall|i: int| 0 <= i < symbols.len() ==> encode_utf8(#[trigger] symbols[i]).len() <= 255,
    ensures
        crate::eventlog::starts_with_header(header_bytes(symbols, hash) + rest, symbols, hash),
{
    let h = header_bytes(symbols, hash);
    assert((h + rest).subrange(0, h.len() as int) =~= h);
}

proof fn lemma_numbered_in_order(evs: Seq<EventView>)
    requires
        forall|i: int| 0 <= i < evs.len() ==> (#[trigger] evs[i]).sequence == i + 1,
    ensures
        sequence_sorted(evs),
        forall|i: int, j: int| 0 <= i < j < evs.len() ==> (#[trigger] evs[i]).sequence < (#[trigger] evs[j]).sequence,
{
    assert forall|i: int, j: int| 0 <= i < j < evs.len() implies (#[trigger] evs[i]).sequence < (#[trigger] evs[j]).sequence by {
        assert(evs[i].sequence == i + 1);
        assert(evs[j].sequence == j + 1);
    }
}

} // verus!
