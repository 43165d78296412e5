//! Cycle-accurate latency records in a bounded ring buffer.
//!
//! The recorder keeps the books; the host reads the clocks. Writers never block: a record
//! that finds the buffer full, or another writer at work, is dropped and counted.

use crate::num::Num;
use crate::tsc_calibration::as_count;
use std::collections::VecDeque;
use vstd::prelude::*;
use vstd::wrapping::u64_specs::wrapping_add;

verus! {

broadcast use vstd::std_specs::vecdeque::group_vec_dequeue_axioms;

/// Component identifiers for per-stage latency attribution.
#[derive(Clone, Copy, PartialEq, Eq, Structural, Debug)]
pub enum ComponentId {
    OrderValidation,
    MarketDataLookup,
    RiskCheck,
    IceoryxEvent,
    ExchangeSubmission,
    PositionUpdate,
    AlgorithmSlice,
    HotPath,
    Total,
}

impl ComponentId {
    pub open spec fn number(self) -> u16 {
        match self {
            ComponentId::OrderValidation => 1,
            ComponentId::MarketDataLookup => 2,
            ComponentId::RiskCheck => 3,
            ComponentId::IceoryxEvent => 4,
            ComponentId::ExchangeSubmission => 5,
            ComponentId::PositionUpdate => 6,
            ComponentId::AlgorithmSlice => 7,
            ComponentId::HotPath => 8,
            ComponentId::Total => 100,
        }
    }

    /// The component as a number.
    pub fn code(self) -> (r: u16)
        ensures
            r == self.number(),
    {
        match self {
            ComponentId::OrderValidation => 1,
            ComponentId::MarketDataLookup => 2,
            ComponentId::RiskCheck => 3,
            ComponentId::IceoryxEvent => 4,
            ComponentId::ExchangeSubmission => 5,
            ComponentId::PositionUpdate => 6,
            ComponentId::AlgorithmSlice => 7,
            ComponentId::HotPath => 8,
            ComponentId::Total => 100,
        }
    }
}

/// Whether a record marks the way into a component or out of it.
#[derive(Clone, Copy, PartialEq, Eq, Structural, Debug)]
pub enum OperationType {
    Entry,
    Exit,
}

impl OperationType {
    /// The operation as a number: 0 for entry, 1 for exit.
    pub fn code(self) -> (r: u16)
        ensures
            r == if self is Entry {
                0u16
            } else {
                1u16
            },
    {
        match self {
            OperationType::Entry => 0,
            OperationType::Exit => 1,
        }
    }
}

/// A latency record.
#[derive(Clone, Copy, Debug)]
pub struct LatencyRecord {
    pub timestamp_cycles: u64,
    pub timestamp_ns: u64,
    pub component_id: ComponentId,
    pub operation: OperationType,
    pub order_id: [u8; 16],
    pub latency_cycles: u64,
    pub thread_id: u32,
    pub cpu_core: u32,
}

impl Default for LatencyRecord {
    fn default() -> (r: Self)
        ensures
            r.timestamp_cycles == 0,
            r.timestamp_ns == 0,
            r.component_id == ComponentId::Total,
            r.operation == OperationType::Entry,
            r.order_id@ == Seq::new(16, |i: int| 0u8),
            r.latency_cycles == 0,
            r.thread_id == 0,
            r.cpu_core == 0,
    {
        let r = LatencyRecord {
            timestamp_cycles: 0,
            timestamp_ns: 0,
            component_id: ComponentId::Total,
            operation: OperationType::Entry,
            order_id: [0; 16],
            latency_cycles: 0,
            thread_id: 0,
            cpu_core: 0,
        };
        assert(r.order_id@ =~= Seq::new(16, |i: int| 0u8));
        r
    }
}

/// What the host reads when a record is made: the cycle counter, the same instant in
/// nanoseconds, and the core.
#[derive(Clone, Copy, PartialEq, Eq, Structural, Debug)]
pub struct Stamp {
    pub cycles: u64,
    pub ns: u64,
    pub cpu_core: u32,
}

/// The record of entering a component.
pub open spec fn entry_record(order_id: [u8; 16], component: ComponentId, now: Stamp) -> LatencyRecord {
    LatencyRecord {
        timestamp_cycles: now.cycles,
        timestamp_ns: now.ns,
        component_id: component,
        operation: OperationType::Entry,
        order_id,
        latency_cycles: 0,
        thread_id: 0,
        cpu_core: now.cpu_core,
    }
}

/// The record of leaving a component. Where the counter ran backwards the latency is 0.
pub open spec fn exit_record(
    order_id: [u8; 16],
    component: ComponentId,
    entry_cycles: u64,
    now: Stamp,
) -> LatencyRecord {
    LatencyRecord {
        timestamp_cycles: now.cycles,
        timestamp_ns: now.ns,
        component_id: component,
        operation: OperationType::Exit,
        order_id,
        latency_cycles: if now.cycles > entry_cycles {
            (now.cycles - entry_cycles) as u64
        } else {
            0
        },
        thread_id: 0,
        cpu_core: now.cpu_core,
    }
}

/// Cycles since the counter stood at `offset`; 0 before that.
pub open spec fn since_zero(offset: u64, cycles: u64) -> u64 {
    if cycles > offset {
        (cycles - offset) as u64
    } else {
        0
    }
}

/// A recorder as mathematics.
#[verifier::ext_equal]
pub struct RecorderState {
    /// The records, oldest first.
    pub records: Seq<LatencyRecord>,
    pub capacity: usize,
    pub written: u64,
    pub dropped: u64,
    /// Cycle counter value that counts as zero.
    pub offset: u64,
}

impl RecorderState {
    /// One more record. A full buffer keeps what it holds: the record is dropped and counted.
    pub open spec fn taken(self, r: LatencyRecord) -> RecorderState {
        if self.records.len() >= self.capacity {
            RecorderState { dropped: wrapping_add(self.dropped, 1), ..self }
        } else {
            RecorderState {
                records: self.records.push(r),
                written: wrapping_add(self.written, 1),
                ..self
            }
        }
    }

    /// The buffer holds no more than its capacity.
    pub open spec fn bounded(self) -> bool {
        self.records.len() <= self.capacity
    }
}

/// Latency recorder backed by a bounded ring buffer.
pub struct RdtscLatencyRecorder {
    ring_buffer: VecDeque<LatencyRecord>,
    capacity: usize,
    records_written: u64,
    records_dropped: u64,
    tsc_offset: u64,
}

impl RdtscLatencyRecorder {
    pub closed spec fn view(&self) -> RecorderState {
        RecorderState {
            records: self.ring_buffer@,
            capacity: self.capacity,
            written: self.records_written,
            dropped: self.records_dropped,
            offset: self.tsc_offset,
        }
    }

    /// The buffer is within its bounds.
    pub open spec fn wf(&self) -> bool {
        self@.bounded()
    }

    pub fn new(capacity: usize) -> (r: Self)
        ensures
            r.wf(),
            r@ == (RecorderState {
                records: seq![],
                capacity,
                written: 0,
                dropped: 0,
                offset: 0,
            }),
    {
        let r = RdtscLatencyRecorder {
            ring_buffer: VecDeque::with_capacity(capacity),
            capacity,
            records_written: 0,
            records_dropped: 0,
            tsc_offset: 0,
        };
        assert(r@ =~= (RecorderState {
            records: seq![],
            capacity,
            written: 0,
            dropped: 0,
            offset: 0,
        }));
        r
    }

    /// Records entry into a component; returns the entry time stamp for the matching exit.
    pub fn record_entry(&mut self, order_id: &[u8; 16], component: ComponentId, now: Stamp) -> (r:
        u64)
        requires
            old(self).wf(),
        ensures
            final(self).wf(),
            r == now.cycles,
            final(self)@ == old(self)@.taken(entry_record(*order_id, component, now)),
    {
        let record = LatencyRecord {
            timestamp_cycles: now.cycles,
            timestamp_ns: now.ns,
            component_id: component,
            operation: OperationType::Entry,
            order_id: *order_id,
            latency_cycles: 0,
            thread_id: 0,
            cpu_core: now.cpu_core,
        };
        self.try_push(record);
        now.cycles
    }

    /// Records exit from a component, with its latency in cycles.
    pub fn record_exit(
        &mut self,
        order_id: &[u8; 16],
        component: ComponentId,
        entry_cycles: u64,
        now: Stamp,
    )
        requires
            old(self).wf(),
        ensures
            final(self).wf(),
            final(self)@ == old(self)@.taken(
                exit_record(*order_id, component, entry_cycles, now),
            ),
    {
        let record = LatencyRecord {
            timestamp_cycles: now.cycles,
            timestamp_ns: now.ns,
            component_id: component,
            operation: OperationType::Exit,
            order_id: *order_id,
            latency_cycles: now.cycles.saturating_sub(entry_cycles),
            thread_id: 0,
            cpu_core: now.cpu_core,
        };
        self.try_push(record);
    }

    fn try_push(&mut self, record: LatencyRecord)
        requires
            old(self).wf(),
        ensures
            final(self).wf(),
            final(self)@ == old(self)@.taken(record),
    {
        let ghost before = self@;
        if self.ring_buffer.len() >= self.capacity {
            self.records_dropped = self.records_dropped.wrapping_add(1);
        } else {
            self.ring_buffer.push_back(record);
            self.records_written = self.records_written.wrapping_add(1);
        }
        assert(self@ =~= before.taken(record));
    }

    /// Counts a record that could not be taken in because another writer was at work.
    pub fn note_contention(&mut self)
        requires
            old(self).wf(),
        ensures
            final(self).wf(),
            final(self)@ == (RecorderState {
                dropped: wrapping_add(old(self)@.dropped, 1),
                ..old(self)@
            }),
    {
        let ghost before = self@;
        self.records_dropped = self.records_dropped.wrapping_add(1);
        assert(self@ =~= (RecorderState { dropped: wrapping_add(before.dropped, 1), ..before }));
    }

    /// Cycles since the recorder's zero as nanoseconds. `divide` divides by the clock rate.
    pub fn cycles_to_ns<D: Fn(u64) -> Num>(&self, cycles: u64, divide: D) -> (r: u64)
        requires
            divide.requires((since_zero(self@.offset, cycles),)),
        ensures
            exists|x: Num| #[trigger]
                divide.ensures((since_zero(self@.offset, cycles),), x) && r == as_count(x),
    {
        let adjusted: u64 = cycles.saturating_sub(self.tsc_offset);
        assert(adjusted == since_zero(self@.offset, cycles));
        let x = divide(adjusted);
        x.to_u64()
    }

    /// Takes out up to `max_count` records, oldest first.
    pub fn drain_records(&mut self, max_count: usize) -> (r: Vec<LatencyRecord>)
        requires
            old(self).wf(),
        ensures
            final(self).wf(),
            ({
                let n = drained(old(self)@, max_count);
                &&& r@ == old(self)@.records.take(n)
                &&& final(self)@ == (RecorderState {
                    records: old(self)@.records.skip(n),
                    ..old(self)@
                })
            }),
            r@.len() <= old(self)@.capacity,
    {
        let ghost before = self@;
        let mut records: Vec<LatencyRecord> = Vec::new();
        let mut k: usize = 0;
        assert(before.records.skip(0) =~= before.records);
        while k < max_count
            invariant
                k <= max_count,
                k <= before.records.len(),
                records@ == before.records.take(k as int),
                self@.records == before.records.skip(k as int),
                self@ == (RecorderState { records: self@.records, ..before }),
                before == old(self)@,
            ensures
                k == max_count || k == before.records.len(),
            decreases max_count - k,
        {
            let ghost left = self@.records;
            match self.ring_buffer.pop_front() {
                Some(record) => {
                    assert(left.len() > 0);
                    records.push(record);
                    assert(record == before.records[k as int]);
                    k = k + 1;
                    assert(records@ =~= before.records.take(k as int));
                    assert(self@.records =~= before.records.skip(k as int));
                    assert(self@ =~= (RecorderState { records: self@.records, ..before }));
                },
                None => {
                    assert(left.len() == 0);
                    assert(self@.records =~= left);
                    assert(self@ =~= (RecorderState { records: self@.records, ..before }));
                    break;
                },
            }
        }
        records
    }

    /// Records written and dropped.
    pub fn stats(&self) -> (r: (u64, u64))
        ensures
            r == (self@.written, self@.dropped),
    {
        (self.records_written, self.records_dropped)
    }
}

/// Measures a component from its construction to [`LatencyGuard::finish`].
#[derive(Clone, Copy, Debug)]
pub struct LatencyGuard {
    pub order_id: [u8; 16],
    pub component: ComponentId,
    pub entry_cycles: u64,
}

impl LatencyGuard {
    /// Records the entry.
    pub fn new(
        recorder: &mut RdtscLatencyRecorder,
        order_id: [u8; 16],
        component: ComponentId,
        now: Stamp,
    ) -> (r: Self)
        requires
            old(recorder).wf(),
        ensures
            final(recorder).wf(),
            final(recorder)@ == old(recorder)@.taken(entry_record(order_id, component, now)),
            r == (LatencyGuard { order_id, component, entry_cycles: now.cycles }),
    {
        let entry_cycles: u64 = recorder.record_entry(&order_id, component, now);
        LatencyGuard { order_id, component, entry_cycles }
    }

    /// Records the exit.
    pub fn finish(self, recorder: &mut RdtscLatencyRecorder, now: Stamp)
        requires
            old(recorder).wf(),
        ensures
            final(recorder).wf(),
            final(recorder)@ == old(recorder)@.taken(
                exit_record(self.order_id, self.component, self.entry_cycles, now),
            ),
    {
        recorder.record_exit(&self.order_id, self.component, self.entry_cycles, now);
    }
}

/// A recorder after a sequence of records.
pub open spec fn after_records(s: RecorderState, rs: Seq<LatencyRecord>) -> RecorderState
    decreases rs.len(),
{
    if rs.len() == 0 {
        s
    } else {
        after_records(s, rs.drop_last()).taken(rs.last())
    }
}

/// What happens to a recorder: a record comes, or up to so many are taken out.
pub enum RecorderEvent {
    Record(LatencyRecord),
    Drain(usize),
}

/// How many records a drain of up to `max_count` takes out.
pub open spec fn drained(s: RecorderState, max_count: usize) -> int {
    if max_count < s.records.len() {
        max_count as int
    } else {
        s.records.len() as int
    }
}

/// A recorder after a sequence of events.
pub open spec fn after_events(s: RecorderState, events: Seq<RecorderEvent>) -> RecorderState
    decreases events.len(),
{
    if events.len() == 0 {
        s
    } else {
        let before = after_events(s, events.drop_last());
        match events.last() {
            RecorderEvent::Record(r) => before.taken(r),
            RecorderEvent::Drain(n) => RecorderState {
                records: before.records.skip(drained(before, n)),
                ..before
            },
        }
    }
}

/// The buffer is bounded by its capacity, whatever is recorded and drained and in whatever
/// order, a capacity of 0 included; so no drain ever hands out more than that.
pub proof fn law_recorders_stay_bounded(s: RecorderState, events: Seq<RecorderEvent>, n: usize)
    requires
        s.bounded(),
    ensures
        after_events(s, events).capacity == s.capacity,
        after_events(s, events).records.len() <= s.capacity,
        drained(after_events(s, events), n) <= s.capacity,
    decreases events.len(),
{
    if events.len() > 0 {
        law_recorders_stay_bounded(s, events.drop_last(), n);
    }
}

/// Records come out as they went in, and none is lost unseen: of all that was in the
/// buffer and all that came, the buffer holds the beginning, as much of it as fits, and the
/// rest is counted as dropped.
pub proof fn law_full_recorders_drop(s: RecorderState, rs: Seq<LatencyRecord>)
    requires
        s.bounded(),
        s.written + rs.len() <= u64::MAX,
        s.dropped + rs.len() <= u64::MAX,
    ensures
        ({
            let all = s.records + rs;
            let kept = if all.len() <= s.capacity {
                all.len() as int
            } else {
                s.capacity as int
            };
            let after = after_records(s, rs);
            &&& after.records == all.take(kept)
            &&& after.written == s.written + (kept - s.records.len())
            &&& after.dropped == s.dropped + (all.len() - kept)
        }),
        after_records(s, rs).capacity == s.capacity,
    decreases rs.len(),
{
    let all = s.records + rs;
    if rs.len() == 0 {
        assert(all =~= s.records);
        assert(all.take(all.len() as int) =~= all);
    } else {
        law_full_recorders_drop(s, rs.drop_last());
        let mid = after_records(s, rs.drop_last());
        let before = s.records + rs.drop_last();
        assert(all =~= before.push(rs.last()));
        let kept = if all.len() <= s.capacity {
            all.len() as int
        } else {
            s.capacity as int
        };
        assert(mid.taken(rs.last()).records =~= all.take(kept));
    }
}

/// An entry and its exit leave two records in order, the second with the time between
/// them, where the buffer has room for both.
pub proof fn law_guard_measures(
    s: RecorderState,
    order_id: [u8; 16],
    component: ComponentId,
    start: Stamp,
    end: Stamp,
)
    requires
        s.records.len() + 2 <= s.capacity,
        start.cycles <= end.cycles,
    ensures
        ({
            let after = s.taken(entry_record(order_id, component, start)).taken(
                exit_record(order_id, component, start.cycles, end),
            ).records;
            &&& after.len() == s.records.len() + 2
            &&& after.take(s.records.len() as int) == s.records
            &&& after[after.len() - 2] == entry_record(order_id, component, start)
            &&& after.last() == exit_record(order_id, component, start.cycles, end)
            &&& after.last().latency_cycles == end.cycles - start.cycles
        }),
{
}

/// A record says where and when an order was: which component, the way in or out, and the
/// clocks as they were read. The way in takes no time; the way out took as long as the
/// counter ran since the way in, and none where it ran backwards.
pub proof fn law_records_say_where_and_when(
    order_id: [u8; 16],
    component: ComponentId,
    entry_cycles: u64,
    now: Stamp,
)
    ensures
        ({
            let a = entry_record(order_id, component, now);
            let b = exit_record(order_id, component, entry_cycles, now);
            &&& a.operation is Entry && b.operation is Exit
            &&& a.component_id == component && b.component_id == component
            &&& a.order_id == order_id && b.order_id == order_id
            &&& a.timestamp_cycles == now.cycles && b.timestamp_cycles == now.cycles
            &&& a.timestamp_ns == now.ns && b.timestamp_ns == now.ns
            &&& a.cpu_core == now.cpu_core && b.cpu_core == now.cpu_core
            &&& a.thread_id == 0 && b.thread_id == 0
            &&& a.latency_cycles == 0
            &&& entry_cycles <= now.cycles ==> entry_cycles + b.latency_cycles == now.cycles
            &&& entry_cycles > now.cycles ==> b.latency_cycles == 0
        }),
{
}

/// Cycles count from the recorder's zero, and there are none before it.
pub proof fn law_cycles_count_from_zero(offset: u64, cycles: u64)
    ensures
        offset <= cycles ==> offset + since_zero(offset, cycles) == cycles,
        offset >= cycles ==> since_zero(offset, cycles) == 0,
{
}

/// The numbers of the components and of the ways in and out.
pub proof fn law_components_have_their_numbers(c: ComponentId, o: OperationType)
    ensures
        c is OrderValidation <==> c.number() == 1,
        c is MarketDataLookup <==> c.number() == 2,
        c is RiskCheck <==> c.number() == 3,
        c is IceoryxEvent <==> c.number() == 4,
        c is ExchangeSubmission <==> c.number() == 5,
        c is PositionUpdate <==> c.number() == 6,
        c is AlgorithmSlice <==> c.number() == 7,
        c is HotPath <==> c.number() == 8,
        c is Total <==> c.number() == 100,
{
}

/// A record that finds room goes behind the others and counts as written; one that does not
/// changes nothing but the count of the dropped.
pub proof fn law_records_find_room_or_are_dropped(s: RecorderState, r: LatencyRecord)
    requires
        s.written < u64::MAX,
        s.dropped < u64::MAX,
    ensures
        s.records.len() < s.capacity ==> s.taken(r) == (RecorderState {
            records: s.records.push(r),
            written: (s.written + 1) as u64,
            ..s
        }),
        s.records.len() >= s.capacity ==> s.taken(r) == (RecorderState {
            dropped: (s.dropped + 1) as u64,
            ..s
        }),
{
}

} // verus!
