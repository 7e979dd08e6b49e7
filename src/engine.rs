//! The replay engine: range reads over a log, and the pacing decisions of a
//! replay stream.
use vstd::prelude::*;
use crate::codec::event_bytes;
use crate::event::{Event, EventView};
use crate::eventlog::{
    record_len, record_payload, record_status, EventLogReader, RecordStatus, StorageError,
};
use crate::index::{seek_index, IndexReader};

verus! {

#[derive(Debug, Clone)]
pub enum ReplayError {
    Storage(StorageError),
}

/// Why a determinism run failed: the events could not be read, the output
/// could not be written, or the two runs differed.
#[derive(Debug, Clone)]
pub enum VerifyError {
    Replay(ReplayError),
    Io(String),
    NonDeterministic,
}

/// The event a valid record's payload encodes.
pub open spec fn payload_event(p: Seq<u8>) -> EventView {
    choose|v: EventView| event_bytes(v) == p
}

/// The events of the records from `pos` on, up to the end of the log or the
/// first event after `to_ns`, leaving out those before `from_ns`; or the
/// status and offset of the first record that is not valid.
pub open spec fn scan_log(d: Seq<u8>, pos: int, from_ns: Option<u64>, to_ns: Option<u64>) -> Result<
    Seq<EventView>,
    (RecordStatus, int),
>
    decreases (d.len() - pos) as nat,
{
    match record_status(d, pos) {
        RecordStatus::End => Ok(Seq::empty()),
        RecordStatus::Valid => {
            let v = payload_event(record_payload(d, pos));
            if to_ns matches Some(t) && v.timestamp_ns > t {
                Ok(Seq::empty())
            } else if pos < 0 || pos + 8 + record_len(d, pos) > d.len() {
                Ok(Seq::empty())
            } else {
                match scan_log(d, pos + 8 + record_len(d, pos), from_ns, to_ns) {
                    Ok(rest) => if from_ns matches Some(f) && v.timestamp_ns < f {
                        Ok(rest)
                    } else {
                        Ok(seq![v] + rest)
                    },
                    Err(s) => Err(s),
                }
            }
        },
        other => Err((other, pos)),
    }
}

/// How many of `s` have a sequence number at most `q`.
pub open spec fn count_le(s: Seq<EventView>, q: u64) -> nat
    decreases s.len(),
{
    if s.len() == 0 {
        0
    } else {
        count_le(s.drop_last(), q) + if s.last().sequence <= q {
            1nat
        } else {
            0nat
        }
    }
}

/// A stable sort by sequence number: each event goes after those already
/// placed whose sequence is not greater.
#[verifier::opaque]
pub open spec fn sort_by_sequence(s: Seq<EventView>) -> Seq<EventView>
    decreases s.len(),
{
    if s.len() == 0 {
        s
    } else {
        let t = sort_by_sequence(s.drop_last());
        t.insert(count_le(t, s.last().sequence) as int, s.last())
    }
}

pub open spec fn sequence_sorted(s: Seq<EventView>) -> bool {
    forall|i: int, j: int| 0 <= i < j < s.len() ==> (#[trigger] s[i]).sequence <= (#[trigger] s[j]).sequence
}

/// Where a range read starts: with a start time and a non-empty index, the
/// entry that `seek_offset` picks; else the first record.
pub open spec fn start_position(reader: EventLogReader, index: Option<IndexReader>, from_ns: Option<u64>) -> int {
    if from_ns is Some && index is Some && index.unwrap().entries_spec().len() > 0 {
        index.unwrap().entries_spec()[seek_index(index.unwrap().entries_spec(), from_ns.unwrap())].byte_offset as int
    } else {
        reader.header_spec().data_offset as int
    }
}

/// What a range read returns: the scanned events sorted by sequence, or the
/// status and offset of the record that stopped it.
pub open spec fn replay_result(d: Seq<u8>, start: int, from_ns: Option<u64>, to_ns: Option<u64>) -> Result<
    Seq<EventView>,
    (RecordStatus, int),
> {
    match scan_log(d, start, from_ns, to_ns) {
        Ok(s) => Ok(sort_by_sequence(s)),
        Err(e) => Err(e),
    }
}

proof fn lemma_count_le_sorted(t: Seq<EventView>, q: u64, p: int)
    requires
        sequence_sorted(t),
        0 <= p <= t.len(),
        forall|i: int| 0 <= i < p ==> (#[trigger] t[i]).sequence <= q,
        forall|i: int| p <= i < t.len() ==> (#[trigger] t[i]).sequence > q,
    ensures
        count_le(t, q) == p,
    decreases t.len(),
{
    if t.len() > 0 {
        let u = t.drop_last();
        if p == t.len() {
            lemma_count_le_sorted(u, q, p - 1);
        } else {
            lemma_count_le_sorted(u, q, p);
        }
    }
}

/// Inserts `x` after the events whose sequence is not greater.
fn insert_by_sequence(out: &mut Vec<Event>, x: Event)
    requires
        sequence_sorted(old(out)@.map_values(|e: Event| e@)),
    ensures
        final(out)@.map_values(|e: Event| e@) == old(out)@.map_values(|e: Event| e@).insert(
            count_le(old(out)@.map_values(|e: Event| e@), x.sequence) as int,
            x@,
        ),
        sequence_sorted(final(out)@.map_values(|e: Event| e@)),
{
    let ghost t = old(out)@.map_values(|e: Event| e@);
    let mut p = out.len();
    while p > 0 && out[p - 1].sequence > x.sequence
        invariant
            p <= out@.len(),
            t == out@.map_values(|e: Event| e@),
            forall|i: int| p <= i < out@.len() ==> (#[trigger] out@[i]).sequence > x.sequence,
        decreases p,
    {
        p = p - 1;
    }
    proof {
        assert forall|i: int| 0 <= i < p implies (#[trigger] t[i]).sequence <= x.sequence by {
            assert(t[p - 1].sequence == out@[p - 1].sequence);
        }
        assert forall|i: int| p <= i < t.len() implies (#[trigger] t[i]).sequence > x.sequence by {
            assert(t[i].sequence == out@[i].sequence);
        }
        lemma_count_le_sorted(t, x.sequence, p as int);
    }
    out.insert(p, x);
    proof {
        let u = out@.map_values(|e: Event| e@);
        assert(u =~= t.insert(p as int, x@));
        assert forall|i: int, j: int| 0 <= i < j < u.len() implies (#[trigger] u[i]).sequence <= (#[trigger] u[j]).sequence by {
            if j < p {
                assert(u[i] == t[i] && u[j] == t[j]);
            } else if j == p {
                assert(u[i] == t[i]);
            } else if i == p {
                assert(u[j] == t[j - 1]);
            } else if i < p {
                assert(u[i] == t[i] && u[j] == t[j - 1]);
            } else {
                assert(u[i] == t[i - 1] && u[j] == t[j - 1]);
            }
        }
    }
}

/// The storage error that a record status at `offset` gives.
pub open spec fn error_for(e: StorageError, s: RecordStatus, offset: int) -> bool {
    match s {
        RecordStatus::Truncated => e is Io,
        RecordStatus::BadCrc => e == StorageError::CrcMismatch { offset: offset as u64 },
        RecordStatus::Undecodable => e is Serialize,
        _ => false,
    }
}

/// Reads the events of a log from the start position on (see
/// `start_position`), stops at the first event after `to_ns`, leaves out
/// those before `from_ns`, and sorts the rest by sequence number.
pub fn read_events(
    reader: EventLogReader,
    index: Option<&IndexReader>,
    from_ns: Option<u64>,
    to_ns: Option<u64>,
) -> (r: Result<Vec<Event>, ReplayError>)
    ensures
        ({
            let res = replay_result(
                reader.bytes(),
                start_position(
                    reader,
                    match index {
                        Some(ix) => Some(*ix),
                        None => None,
                    },
                    from_ns,
                ),
                from_ns,
                to_ns,
            );
            &&& (r matches Ok(evs) ==> res == Ok::<Seq<EventView>, (RecordStatus, int)>(
                evs@.map_values(|e: Event| e@),
            ))
            &&& (r is Err ==> res is Err)
            &&& (res matches Err((s, off)) ==> (r matches Err(ReplayError::Storage(e)) && error_for(e, s, off)))
        }),
{
    let ghost ixv = match index {
        Some(ix) => Some(*ix),
        None => None,
    };
    let ghost orig = reader;
    let ghost d = reader.bytes();
    let ghost start = start_position(reader, ixv, from_ns);
    let mut log = reader;
    let mut positioned = false;
    if let Some(from) = from_ns {
        if let Some(ix) = index {
            if let Some(offset) = ix.seek_offset(from) {
                let _ = log.seek(offset);
                positioned = true;
            }
        }
    }
    if !positioned {
        let _ = log.rewind_to_data();
    }
    assert(log.position() == start);
    let mut collected: Vec<Event> = Vec::new();
    loop
        invariant_except_break
            scan_log(d, start, from_ns, to_ns) matches Ok(all) ==> scan_log(d, log.position(), from_ns, to_ns)
                matches Ok(rest) && all == collected@.map_values(|e: Event| e@) + rest,
            scan_log(d, start, from_ns, to_ns) is Err ==> scan_log(d, log.position(), from_ns, to_ns)
                == scan_log(d, start, from_ns, to_ns),
        invariant
            log.bytes() == d,
            log.position() >= 0,
            d == orig.bytes(),
            orig == reader,
            ixv == match index {
                Some(ix) => Some(*ix),
                None => None,
            },
            start == start_position(orig, ixv, from_ns),
        ensures
            scan_log(d, start, from_ns, to_ns) is Ok,
            scan_log(d, start, from_ns, to_ns) matches Ok(all) ==> all == collected@.map_values(|e: Event| e@),
        decreases d.len() - log.position(),
    {
        let ghost pos = log.position();
        let next = log.next_record();
        match next {
            Err(e) => {
                proof {
                    let st = record_status(d, pos);
                    assert(!(st is End) && !(st is Valid));
                    assert(scan_log(d, pos, from_ns, to_ns) == Err::<Seq<EventView>, (RecordStatus, int)>((st, pos)));
                    assert(scan_log(d, start, from_ns, to_ns) is Err);
                    assert(replay_result(d, start, from_ns, to_ns) == Err::<Seq<EventView>, (RecordStatus, int)>((st, pos)));
                    assert(error_for(e, st, pos));

                }
                return Err(ReplayError::Storage(e));
            },
            Ok(None) => {
                proof {
                    assert(record_status(d, pos) is End);
                    assert(scan_log(d, pos, from_ns, to_ns) == Ok::<Seq<EventView>, (RecordStatus, int)>(Seq::empty()));
                    if let Ok(all) = scan_log(d, start, from_ns, to_ns) {
                        assert(all =~= collected@.map_values(|e: Event| e@));
                    }
                }
                break;
            },
            Ok(Some(record)) => {
                proof {
                    assert(record_status(d, pos) is Valid);
                    assert(payload_event(record_payload(d, pos)) == record.event@);
                }
                if let Some(to) = to_ns {
                    if record.event.timestamp_ns > to {
                        proof {
                            assert(scan_log(d, pos, from_ns, to_ns) == Ok::<Seq<EventView>, (RecordStatus, int)>(Seq::empty()));
                            if let Ok(all) = scan_log(d, start, from_ns, to_ns) {
                                assert(all =~= collected@.map_values(|e: Event| e@));
                            }
                        }
                        break;
                    }
                }
                proof {
                    assert(pos + 8 + record_len(d, pos) <= d.len());
                    assert(log.position() == pos + 8 + record_len(d, pos));
                }
                let skip = match from_ns {
                    Some(from) => record.event.timestamp_ns < from,
                    None => false,
                };
                if !skip {
                    let ghost before = collected@.map_values(|e: Event| e@);
                    collected.push(record.event);
                    proof {
                        assert(collected@.map_values(|e: Event| e@) =~= before.push(record.event@));
                        if let Ok(all) = scan_log(d, start, from_ns, to_ns) {
                            if let Ok(rest) = scan_log(d, log.position(), from_ns, to_ns) {
                                assert(all =~= before.push(record.event@) + rest);
                            }
                        }
                    }
                }
            },
        }
    }
    let mut out: Vec<Event> = Vec::new();
    let n = collected.len();
    let ghost all = collected@.map_values(|e: Event| e@);
    let mut i: usize = 0;
    proof {
        reveal(sort_by_sequence);
        assert(all.subrange(0, 0) =~= Seq::<EventView>::empty());
        assert(out@.map_values(|e: Event| e@) =~= Seq::<EventView>::empty());
    }
    while i < n
        invariant
            i <= n,
            n == all.len(),
            all == collected@.map_values(|e: Event| e@),
            out@.map_values(|e: Event| e@) == sort_by_sequence(all.subrange(0, i as int)),
            sequence_sorted(out@.map_values(|e: Event| e@)),
        decreases n - i,
    {
        let x = collected[i].clone();
        proof {
            assert(x@ == all[i as int]);
            let pre = all.subrange(0, i + 1);
            assert(pre.drop_last() =~= all.subrange(0, i as int));
            reveal(sort_by_sequence);
        }
        insert_by_sequence(&mut out, x);
        i = i + 1;
    }
    proof {
        assert(all.subrange(0, n as int) =~= all);
    }
    Ok(out)
}

proof fn lemma_count_le_split(t: Seq<EventView>, q: u64)
    requires
        sequence_sorted(t),
    ensures
        count_le(t, q) <= t.len(),
        forall|i: int| 0 <= i < count_le(t, q) ==> (#[trigger] t[i]).sequence <= q,
        forall|i: int| count_le(t, q) <= i < t.len() ==> (#[trigger] t[i]).sequence > q,
    decreases t.len(),
{
    if t.len() > 0 {
        let u = t.drop_last();
        assert(sequence_sorted(u));
        lemma_count_le_split(u, q);
        if t.last().sequence <= q {
            assert forall|i: int| 0 <= i < u.len() implies (#[trigger] u[i]).sequence <= q by {
                assert(t[i].sequence <= t[t.len() - 1].sequence);
            }
            if count_le(u, q) < u.len() {
                assert(u[count_le(u, q) as int].sequence > q);
            }
            assert forall|i: int| 0 <= i < count_le(t, q) implies (#[trigger] t[i]).sequence <= q by {
                if i < u.len() {
                    assert(t[i] == u[i]);
                }
            }
        } else {
            assert forall|i: int| 0 <= i < count_le(t, q) implies (#[trigger] t[i]).sequence <= q by {
                assert(t[i] == u[i]);
            }
            assert forall|i: int| count_le(t, q) <= i < t.len() implies (#[trigger] t[i]).sequence > q by {
                if i < u.len() {
                    assert(t[i] == u[i]);
                }
            }
        }
    }
}

/// Sorting keeps the events of its input and their number.
proof fn lemma_sort_members(s: Seq<EventView>)
    ensures
        sort_by_sequence(s).len() == s.len(),
        forall|i: int| 0 <= i < s.len() ==> exists|j: int| 0 <= j < s.len() && #[trigger] sort_by_sequence(s)[i] == s[j],
    decreases s.len(),
{
    reveal(sort_by_sequence);    if s.len() > 0 {
        let u = s.drop_last();
        lemma_sort_members(u);
        let t = sort_by_sequence(u);
        let p = count_le(t, s.last().sequence);
        let r = sort_by_sequence(s);
        lemma_count_le_bound(t, s.last().sequence);
        assert forall|i: int| 0 <= i < s.len() implies exists|j: int| 0 <= j < s.len() && #[trigger] r[i] == s[j] by {
            if i < p {
                assert(r[i] == t[i]);
                let j = choose|j: int| 0 <= j < u.len() && t[i] == u[j];
                assert(s[j] == u[j]);
            } else if i == p {
                assert(r[i] == s[s.len() - 1]);
            } else {
                assert(r[i] == t[i - 1]);
                let j = choose|j: int| 0 <= j < u.len() && t[i - 1] == u[j];
                assert(s[j] == u[j]);
            }
        }
    }
}

proof fn lemma_sort_len(s: Seq<EventView>)
    ensures
        sort_by_sequence(s).len() == s.len(),
    decreases s.len(),
{
    reveal(sort_by_sequence);    if s.len() > 0 {
        lemma_sort_len(s.drop_last());
        lemma_count_le_bound(sort_by_sequence(s.drop_last()), s.last().sequence);
    }
}

proof fn lemma_count_le_bound(t: Seq<EventView>, q: u64)
    ensures
        count_le(t, q) <= t.len(),
    decreases t.len(),
{
    if t.len() > 0 {
        lemma_count_le_bound(t.drop_last(), q);
    }
}

/// Events with distinct sequence numbers come out of the sort strictly
/// increasing by sequence.
proof fn lemma_sort_strict(s: Seq<EventView>)
    requires
        forall|i: int, j: int| 0 <= i < j < s.len() ==> (#[trigger] s[i]).sequence != (#[trigger] s[j]).sequence,
    ensures
        forall|i: int, j: int|
            0 <= i < j < s.len() ==> (#[trigger] sort_by_sequence(s)[i]).sequence < (#[trigger] sort_by_sequence(
                s,
            )[j]).sequence,
    decreases s.len(),
{
    reveal(sort_by_sequence);    if s.len() > 0 {
        let u = s.drop_last();
        let x = s.last();
        assert forall|i: int, j: int| 0 <= i < j < u.len() implies (#[trigger] u[i]).sequence != (#[trigger] u[j]).sequence by {
            assert(u[i] == s[i] && u[j] == s[j]);
        }
        lemma_sort_strict(u);
        lemma_sort_members(u);
        let t = sort_by_sequence(u);
        assert(sequence_sorted(t)) by {
            assert forall|i: int, j: int| 0 <= i < j < t.len() implies (#[trigger] t[i]).sequence <= (#[trigger] t[j]).sequence by {}
        }
        lemma_count_le_split(t, x.sequence);
        let p = count_le(t, x.sequence);
        let r = sort_by_sequence(s);
        assert(r == t.insert(p as int, x));
        assert forall|k: int| 0 <= k < t.len() implies (#[trigger] t[k]).sequence != x.sequence by {
            let j = choose|j: int| 0 <= j < u.len() && t[k] == u[j];
            assert(u[j] == s[j]);
            assert(s[j].sequence != s[s.len() - 1].sequence);
        }
        assert forall|i: int, j: int| 0 <= i < j < s.len() implies (#[trigger] r[i]).sequence < (#[trigger] r[j]).sequence by {
            if j < p {
                assert(r[i] == t[i] && r[j] == t[j]);
            } else if j == p {
                assert(r[i] == t[i]);
                assert(t[i].sequence <= x.sequence);
            } else if i == p {
                assert(r[j] == t[j - 1]);
            } else if i < p {
                assert(r[i] == t[i] && r[j] == t[j - 1]);
            } else {
                assert(r[i] == t[i - 1] && r[j] == t[j - 1]);
            }
        }
    }
}

/// Sequence order of a replay: a range read returns the scanned events
/// sorted by `sort_by_sequence` (see `replay_result`); when they carry
/// distinct sequence numbers, as the sequencing pass gives them, every event
/// has a smaller sequence number than each one after it, so in particular
/// than the next.
pub proof fn lemma_replay_sequence_increasing(scanned: Seq<EventView>)
    requires
        forall|i: int, j: int|
            0 <= i < j < scanned.len() ==> (#[trigger] scanned[i]).sequence != (#[trigger] scanned[j]).sequence,
    ensures
        sort_by_sequence(scanned).len() == scanned.len(),
        forall|i: int, j: int|
            0 <= i < j < scanned.len() ==> (#[trigger] sort_by_sequence(scanned)[i]).sequence
                < (#[trigger] sort_by_sequence(scanned)[j]).sequence,
{
    lemma_sort_strict(scanned);
    lemma_sort_len(scanned);
}

/// How a stream paces its events.
#[derive(Debug, Clone, Copy, PartialEq, Eq, Structural)]
pub enum PacingMode {
    /// No waiting.
    MaxSpeed,
    /// One yield to the scheduler before each event.
    Step,
    /// Each event waits for its offset from the first, scaled by the speed.
    RealTime,
}

/// Where a stream is: `Initial → Paced → Done | Aborted`.
#[derive(Debug, Clone, Copy, PartialEq, Eq, Structural)]
pub enum StreamState {
    Initial,
    Paced,
    Done,
    Aborted,
}

/// What to do before handing the next event to the sink.
#[derive(Debug, Clone, Copy, PartialEq, Eq, Structural)]
pub enum PaceAction {
    Emit,
    YieldThenEmit,
    /// Wait until `start + offset_ns / speed`, then emit.
    WaitThenEmit { offset_ns: u64 },
}

/// The pacing decisions of one stream; the clock, the waits and the sink
/// belong to the caller.
#[derive(Debug, Clone, Copy)]
pub struct Pacer {
    pub mode: PacingMode,
    pub baseline: Option<u64>,
    pub state: StreamState,
}

/// The mode a configuration selects: max speed wins over step mode.
pub open spec fn mode_of(max_speed: bool, step_mode: bool) -> PacingMode {
    if max_speed {
        PacingMode::MaxSpeed
    } else if step_mode {
        PacingMode::Step
    } else {
        PacingMode::RealTime
    }
}

/// The wait offset of an event: its distance from the baseline, 0 for an
/// event earlier than the baseline.
pub open spec fn wait_offset(baseline: u64, timestamp_ns: u64) -> u64 {
    if timestamp_ns >= baseline {
        (timestamp_ns - baseline) as u64
    } else {
        0
    }
}

impl Pacer {
    pub fn new(max_speed: bool, step_mode: bool) -> (r: Pacer)
        ensures
            r.mode == mode_of(max_speed, step_mode),
            r.baseline is None,
            r.state == StreamState::Initial,
    {
        let mode = if max_speed {
            PacingMode::MaxSpeed
        } else if step_mode {
            PacingMode::Step
        } else {
            PacingMode::RealTime
        };
        Pacer { mode, baseline: None, state: StreamState::Initial }
    }

    /// The action for the next event. In real time the first event sets the
    /// baseline.
    pub fn next_event(&mut self, timestamp_ns: u64) -> (r: PaceAction)
        requires
            old(self).state == StreamState::Initial || old(self).state == StreamState::Paced,
        ensures
            final(self).mode == old(self).mode,
            final(self).state == StreamState::Paced,
            final(self).baseline == match old(self).baseline {
                Some(b) => Some(b),
                None => if old(self).mode == PacingMode::RealTime {
                    Some(timestamp_ns)
                } else {
                    None
                },
            },
            match old(self).mode {
                PacingMode::MaxSpeed => r == PaceAction::Emit,
                PacingMode::Step => r == PaceAction::YieldThenEmit,
                PacingMode::RealTime => r == PaceAction::WaitThenEmit {
                    offset_ns: wait_offset(final(self).baseline.unwrap(), timestamp_ns),
                },
            },
    {
        self.state = StreamState::Paced;
        match self.mode {
            PacingMode::MaxSpeed => PaceAction::Emit,
            PacingMode::Step => PaceAction::YieldThenEmit,
            PacingMode::RealTime => {
                let baseline = match self.baseline {
                    Some(b) => b,
                    None => {
                        self.baseline = Some(timestamp_ns);
                        timestamp_ns
                    },
                };
                PaceAction::WaitThenEmit { offset_ns: timestamp_ns.saturating_sub(baseline) }
            },
        }
    }

    /// Records whether the sink took the event; a closed sink aborts the stream.
    pub fn delivered(&mut self, accepted: bool)
        requires
            old(self).state == StreamState::Paced,
        ensures
            final(self).mode == old(self).mode,
            final(self).baseline == old(self).baseline,
            final(self).state == if accepted { StreamState::Paced } else { StreamState::Aborted },
    {
        if !accepted {
            self.state = StreamState::Aborted;
        }
    }

    /// Ends a stream whose events are exhausted.
    pub fn finish(&mut self)
        ensures
            final(self).mode == old(self).mode,
            final(self).baseline == old(self).baseline,
            final(self).state == if old(self).state == StreamState::Aborted {
                StreamState::Aborted
            } else {
                StreamState::Done
            },
    {
        if self.state != StreamState::Aborted {
            self.state = StreamState::Done;
        }
    }
}

/// Pacing monotonicity: for events in timestamp order the wait offsets never
/// decrease, so deadlines `start + offset / speed` with a positive speed never
/// move backwards.
pub proof fn lemma_wait_offsets_monotone(baseline: u64, earlier: u64, later: u64)
    requires
        earlier <= later,
    ensures
        wait_offset(baseline, earlier) <= wait_offset(baseline, later),
{
}

/// Replay determinism: two range reads of the same log bytes, from the same
/// start and over the same range, give the same events, and so the same
/// encoded bytes.
pub proof fn lemma_replay_deterministic(
    d: Seq<u8>,
    start: int,
    from_ns: Option<u64>,
    to_ns: Option<u64>,
    first: Seq<EventView>,
    second: Seq<EventView>,
)
    requires
        replay_result(d, start, from_ns, to_ns) == Ok::<Seq<EventView>, (RecordStatus, int)>(first),
        replay_result(d, start, from_ns, to_ns) == Ok::<Seq<EventView>, (RecordStatus, int)>(second),
    ensures
        first == second,
        first.map_values(|v: EventView| event_bytes(v)) == second.map_values(|v: EventView| event_bytes(v)),
{
}

} // verus!
