//! The order service of the hot path: its life cycle, what it answers an order with, and
//! its running averages. Receiving, publishing and reading the clock are the host's.

use crate::hot_path::{ExecutionReport, OrderCommand};
use vstd::arithmetic::div_mod::{lemma_fundamental_div_mod, lemma_mod_bound};
use vstd::prelude::*;
use vstd::wrapping::u64_specs::wrapping_sub;

verus! {

/// The report of an order that is filled at once, at its own price.
pub open spec fn immediate_fill(order: OrderCommand, timestamp_ns: u64) -> ExecutionReport {
    ExecutionReport {
        timestamp_ns,
        order_id: order.order_id,
        exchange_order_id: order.order_id,
        executed_price: order.price_ticks,
        executed_quantity: order.quantity,
        remaining_quantity: 0,
        commission: 0,
        status: 2,
        reject_reason: 0,
    }
}

/// How many orders the service's loop averages over.
pub const METER_BATCH: u64 = 10_000;

/// What a processing loop has counted since its last average.
#[derive(Clone, Copy, PartialEq, Eq, Structural, Debug)]
pub struct LoopMeter {
    /// How many orders an average covers.
    pub batch: u64,
    pub orders: u64,
    pub cycles: u64,
}

/// An average over a full batch of orders.
#[derive(Clone, Copy, PartialEq, Eq, Structural, Debug)]
pub struct LoopAverage {
    pub orders: u64,
    pub cycles_per_order: u64,
}

impl LoopMeter {
    /// A batch is never full between two orders.
    pub open spec fn wf(&self) -> bool {
        self.orders < self.batch
    }

    /// The meter with one order more, and the average that it completes.
    pub open spec fn counted(self, poll_start: u64, poll_end: u64) -> (
        LoopMeter,
        Option<LoopAverage>,
    ) {
        let cycles = self.cycles + wrapping_sub(poll_end, poll_start);
        if self.orders + 1 == self.batch {
            (
                LoopMeter { orders: 0, cycles: 0, ..self },
                Some(
                    LoopAverage {
                        orders: self.batch,
                        cycles_per_order: (cycles / self.batch as int) as u64,
                    },
                ),
            )
        } else {
            (LoopMeter { orders: (self.orders + 1) as u64, cycles: cycles as u64, ..self }, None)
        }
    }

    pub fn new(batch: u64) -> (r: Self)
        requires
            batch > 0,
        ensures
            r.wf(),
            r == (LoopMeter { batch, orders: 0, cycles: 0 }),
    {
        LoopMeter { batch, orders: 0, cycles: 0 }
    }

    /// Counts one order that took from `poll_start` to `poll_end`. The order that fills a
    /// batch gives the batch's average and starts the next one.
    pub fn count(&mut self, poll_start: u64, poll_end: u64) -> (r: Option<LoopAverage>)
        requires
            old(self).wf(),
            old(self).cycles + wrapping_sub(poll_end, poll_start) <= u64::MAX,
        ensures
            final(self).wf(),
            (*final(self), r) == old(self).counted(poll_start, poll_end),
            ({
                let orders = old(self).orders + 1;
                let cycles = old(self).cycles + wrapping_sub(
                    poll_end,
                    poll_start,
                );
                if orders == old(self).batch {
                    &&& r == Some(
                        LoopAverage {
                            orders: old(self).batch,
                            cycles_per_order: (cycles / old(self).batch as int) as u64,
                        },
                    )
                    &&& *final(self) == (LoopMeter { orders: 0, cycles: 0, ..*old(self) })
                } else {
                    &&& r is None
                    &&& final(self).batch == old(self).batch
                    &&& final(self).orders == orders
                    &&& final(self).cycles == cycles
                }
            }),
    {
        self.cycles = self.cycles + poll_end.wrapping_sub(poll_start);
        self.orders = self.orders + 1;
        if self.orders == self.batch {
            let average = LoopAverage {
                orders: self.orders,
                cycles_per_order: self.cycles / self.orders,
            };
            self.orders = 0;
            self.cycles = 0;
            Some(average)
        } else {
            None
        }
    }
}

/// Why the service does not start.
#[derive(Clone, Copy, PartialEq, Eq, Structural, Debug)]
pub enum ServiceFault {
    /// It has no ports yet.
    NotInitialized,
}

impl ServiceFault {
    /// The fault in words.
    pub fn message(self) -> (r: &'static str)
        ensures
            r@ == "service not initialized: call initialize() first"@,
    {
        match self {
            ServiceFault::NotInitialized => "service not initialized: call initialize() first",
        }
    }
}

/// Hot-path order-management service.
#[derive(Clone, Copy, PartialEq, Eq, Structural, Debug)]
pub struct HotPathOrderService {
    /// The core that the host pins the service to.
    pub cpu_core: usize,
    /// The host has opened the ports.
    pub initialized: bool,
    pub running: bool,
    pub meter: LoopMeter,
}

impl HotPathOrderService {
    /// A running service has its ports.
    pub open spec fn wf(&self) -> bool {
        self.meter.wf() && (self.running ==> self.initialized)
    }

    /// A service that is neither initialized nor running.
    pub fn new(cpu_core: usize) -> (r: Result<Self, ServiceFault>)
        ensures
            r matches Ok(s) && s.wf() && s == (HotPathOrderService {
                cpu_core,
                initialized: false,
                running: false,
                meter: LoopMeter { batch: METER_BATCH, orders: 0, cycles: 0 },
            }),
    {
        Ok(
            HotPathOrderService {
                cpu_core,
                initialized: false,
                running: false,
                meter: LoopMeter::new(METER_BATCH),
            },
        )
    }

    /// Notes that the host has opened the ports.
    pub fn initialize(&mut self)
        requires
            old(self).wf(),
        ensures
            final(self).wf(),
            *final(self) == (HotPathOrderService { initialized: true, ..*old(self) }),
    {
        self.initialized = true;
    }

    /// Starts the service, with a fresh meter. Without ports it does not start.
    pub fn start(&mut self) -> (r: Result<(), ServiceFault>)
        requires
            old(self).wf(),
        ensures
            final(self).wf(),
            if old(self).initialized {
                &&& r is Ok
                &&& *final(self) == (HotPathOrderService {
                    running: true,
                    meter: LoopMeter { batch: METER_BATCH, orders: 0, cycles: 0 },
                    ..*old(self)
                })
            } else {
                &&& r == Err::<(), ServiceFault>(ServiceFault::NotInitialized)
                &&& *final(self) == *old(self)
            },
    {
        if !self.initialized {
            return Err(ServiceFault::NotInitialized);
        }
        self.running = true;
        self.meter = LoopMeter::new(METER_BATCH);
        Ok(())
    }

    /// Stops the service.
    pub fn stop(&mut self)
        requires
            old(self).wf(),
        ensures
            final(self).wf(),
            *final(self) == (HotPathOrderService { running: false, ..*old(self) }),
    {
        self.running = false;
    }

    /// Processes one order command: an immediate fill, which keeps the transport path
    /// measurable in isolation. `timestamp_ns` is when processing ended.
    pub fn process_order_hot_path(&self, order: &OrderCommand, timestamp_ns: u64) -> (r:
        ExecutionReport)
        ensures
            r == immediate_fill(*order, timestamp_ns),
    {
        ExecutionReport {
            timestamp_ns,
            order_id: order.order_id,
            exchange_order_id: order.order_id,
            executed_price: order.price_ticks,
            executed_quantity: order.quantity,
            remaining_quantity: 0,
            commission: 0,
            status: 2,
            reject_reason: 0,
        }
    }
}

/// The fill of an order is terminal and accounts for all of it.
pub proof fn law_immediate_fill_is_complete(order: OrderCommand, timestamp_ns: u64)
    ensures
        ({
            let r = immediate_fill(order, timestamp_ns);
            &&& r.order_id == order.order_id
            &&& r.executed_quantity + r.remaining_quantity == order.quantity
            &&& r.status == 2
        }),
{
}

/// The report of an order that fills at once says so in every field: the order's own id at
/// both ends, its own price, nothing left, no commission and no reason against it.
pub proof fn law_immediate_fills_are_at_the_orders_price(order: OrderCommand, timestamp_ns: u64)
    ensures
        ({
            let r = immediate_fill(order, timestamp_ns);
            &&& r.exchange_order_id == order.order_id
            &&& r.executed_price == order.price_ticks
            &&& r.remaining_quantity == 0
            &&& r.commission == 0
            &&& r.reject_reason == 0
            &&& r.timestamp_ns == timestamp_ns
        }),
{
}

/// A meter after some orders, given by their first and last reads of the counter.
pub open spec fn after_orders(m: LoopMeter, polls: Seq<(u64, u64)>) -> LoopMeter
    decreases polls.len(),
{
    if polls.len() == 0 {
        m
    } else {
        after_orders(m, polls.drop_last()).counted(polls.last().0, polls.last().1).0
    }
}

/// How long some orders took together, none of them past a turn of the counter.
pub open spec fn time_spent(polls: Seq<(u64, u64)>) -> int
    decreases polls.len(),
{
    if polls.len() == 0 {
        0
    } else {
        time_spent(polls.drop_last()) + (polls.last().1 - polls.last().0)
    }
}

/// The orders of a batch are averaged together: a fresh meter adds up what they took, says
/// nothing before the last one, and then gives the whole part of their average and starts
/// anew.
pub proof fn law_batches_are_averaged(batch: u64, polls: Seq<(u64, u64)>, start: u64, end: u64)
    requires
        polls.len() + 1 <= batch,
        forall|i: int| 0 <= i < polls.len() ==> (#[trigger] polls[i]).0 <= polls[i].1,
        start <= end,
        time_spent(polls) + (end - start) <= u64::MAX,
    ensures
        ({
            let m = after_orders(LoopMeter { batch, orders: 0, cycles: 0 }, polls);
            let (after, average) = m.counted(start, end);
            let total = time_spent(polls) + (end - start);
            &&& m.orders == polls.len() && m.cycles == time_spent(polls) && m.batch == batch
            &&& average is Some <==> polls.len() + 1 == batch
            &&& average matches Some(a) ==> {
                &&& a.orders == batch
                &&& a.cycles_per_order * batch <= total < (a.cycles_per_order + 1) * batch
                &&& after == (LoopMeter { batch, orders: 0, cycles: 0 })
            }
        }),
    decreases polls.len(),
{
    let fresh = LoopMeter { batch, orders: 0, cycles: 0 };
    lemma_time_spent(polls);
    if polls.len() > 0 {
        let front = polls.drop_last();
        let last = polls[polls.len() - 1];
        assert forall|i: int| 0 <= i < front.len() implies (#[trigger] front[i]).0 <= front[i].1 by {
            assert(front[i] == polls[i]);
        }
        law_batches_are_averaged(batch, front, last.0, last.1);
    }
    let total = time_spent(polls) + (end - start);
    let n = batch as int;
    lemma_fundamental_div_mod(total, n);
    let q = total / n;
    assert(0 <= total % n < n) by {
        lemma_mod_bound(total, n);
    }
    assert(q * n <= total < (q + 1) * n) by (nonlinear_arith)
        requires
            total == n * q + total % n,
            0 <= total % n < n,
    ;
    assert(0 <= q <= total) by (nonlinear_arith)
        requires
            total >= 0,
            n >= 1,
            q == total / n,
    ;
}

proof fn lemma_time_spent(polls: Seq<(u64, u64)>)
    requires
        forall|i: int| 0 <= i < polls.len() ==> (#[trigger] polls[i]).0 <= polls[i].1,
    ensures
        time_spent(polls) >= 0,
    decreases polls.len(),
{
    if polls.len() > 0 {
        let front = polls.drop_last();
        assert forall|i: int| 0 <= i < front.len() implies (#[trigger] front[i]).0 <= front[i].1 by {
            assert(front[i] == polls[i]);
        }
        assert(polls[polls.len() - 1].0 <= polls[polls.len() - 1].1);
        lemma_time_spent(front);
    }
}

/// The service averages over ten thousand orders.
pub proof fn law_the_service_averages_often()
    ensures
        METER_BATCH == 10_000,
{
}

} // verus!
