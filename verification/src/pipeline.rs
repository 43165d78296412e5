//! The strategy's and the execution stage's side of the pipeline: the pre-trade risk check
//! that turns a decision into an order, and the correlation of fills with their orders.

use crate::exchange::strategy_order;
use crate::hot_path::{ExecutionReport, MarketTick, OrderCommand};
use crate::num::Num;
use crate::strategy::Side;
use std::collections::HashMap;
use vstd::prelude::*;

verus! {

broadcast use vstd::std_specs::hash::group_hash_axioms;

/// How far an order of so many units (rounded up by the host) moves the position. A
/// fraction of a unit counts as one, so that exposure is never under-counted.
pub fn position_delta(units_rounded_up: Num) -> (r: i64)
    ensures
        r == if units_rounded_up.truncated() < 1 {
            1
        } else if units_rounded_up.truncated() > i64::MAX {
            i64::MAX as int
        } else {
            units_rounded_up.truncated()
        },
{
    let n: i64 = units_rounded_up.to_i64();
    if n < 1 {
        1
    } else {
        n
    }
}

/// The strategy's order book-keeping: its position, its limit and its order style.
#[derive(Clone, Copy, PartialEq, Eq, Structural, Debug)]
pub struct OrderDesk {
    /// Net units the strategy intends to hold.
    pub position: i64,
    /// The position never leaves minus to plus this.
    pub max_position: i64,
    /// How far one order moves the position.
    pub delta: i64,
    /// Quantity of one order, in fixed point.
    pub order_qty: u64,
    /// Post limit orders at the touch instead of crossing the spread.
    pub passive: bool,
    /// A finite run stops after this many orders.
    pub max_orders: Option<u64>,
    /// The id of the last order; the first order gets 1.
    pub order_id: u64,
    /// Orders sent.
    pub sent: u64,
    /// Orders blocked by the position limit.
    pub suppressed: u64,
}

pub open spec fn signed(side: Side, delta: i64) -> int {
    match side {
        Side::Buy => delta as int,
        Side::Sell => -(delta as int),
    }
}

/// The price and the type of an order for `side` at `tick`. A passive order rests at the
/// touch, or at the last price while there is no touch; any other crosses.
pub open spec fn order_terms(passive: bool, side: Side, tick: MarketTick) -> (i64, u8) {
    if passive {
        let touch = match side {
            Side::Buy => tick.bid,
            Side::Sell => tick.ask,
        };
        (
            if touch != 0 {
                touch
            } else {
                tick.price
            },
            1,
        )
    } else {
        (tick.price, 0)
    }
}

impl OrderDesk {
    /// The position is within the limit. Nothing trades under a negative limit.
    pub open spec fn wf(&self) -> bool {
        &&& self.delta >= 1
        &&& self.max_position >= 0 ==> -self.max_position <= self.position <= self.max_position
        &&& self.max_position < 0 ==> self.position == 0
    }

    /// The run is finite and has sent all its orders.
    pub open spec fn finished(self) -> bool {
        self.max_orders matches Some(n) && self.sent >= n
    }

    /// An order for `side` would leave the limit.
    pub open spec fn breaches(self, side: Side) -> bool {
        let moved = self.position + signed(side, self.delta);
        moved > self.max_position || moved < -self.max_position
    }

    /// The order for `side` at `tick`.
    pub open spec fn order(self, side: Side, tick: MarketTick, timestamp_ns: u64) -> OrderCommand {
        OrderCommand {
            timestamp_ns,
            order_id: (self.order_id + 1) as u64,
            price_ticks: order_terms(self.passive, side, tick).0,
            quantity: self.order_qty,
            origin_ts: tick.timestamp_ns,
            symbol_id: tick.symbol_id,
            user_id: 1,
            side: match side {
                Side::Buy => 0,
                Side::Sell => 1,
            },
            order_type: order_terms(self.passive, side, tick).1,
            action: 0,
            flags: 0,
            exchange_id: tick.exchange_id,
            priority: 0,
        }
    }

    /// The desk after a decision for `side`.
    pub open spec fn decided(self, side: Side) -> OrderDesk {
        if self.finished() {
            self
        } else if self.breaches(side) {
            OrderDesk { suppressed: (self.suppressed + 1) as u64, ..self }
        } else {
            OrderDesk {
                position: (self.position + signed(side, self.delta)) as i64,
                order_id: (self.order_id + 1) as u64,
                sent: (self.sent + 1) as u64,
                ..self
            }
        }
    }

    pub fn new(max_position: i64, delta: i64, order_qty: u64, passive: bool) -> (r: Self)
        requires
            delta >= 1,
        ensures
            r.wf(),
            r == (OrderDesk {
                position: 0,
                max_position,
                delta,
                order_qty,
                passive,
                max_orders: None,
                order_id: 0,
                sent: 0,
                suppressed: 0,
            }),
    {
        OrderDesk {
            position: 0,
            max_position,
            delta,
            order_qty,
            passive,
            max_orders: None,
            order_id: 0,
            sent: 0,
            suppressed: 0,
        }
    }

    /// The same desk for a finite run of `max_orders` orders.
    pub fn stopping_after(self, max_orders: u64) -> (r: Self)
        ensures
            r == (OrderDesk { max_orders: Some(max_orders), ..self }),
            self.wf() ==> r.wf(),
    {
        OrderDesk { max_orders: Some(max_orders), ..self }
    }

    /// Whether the run is finite and has sent all its orders.
    pub fn is_finished(&self) -> (r: bool)
        ensures
            r == self.finished(),
    {
        match self.max_orders {
            Some(n) => self.sent >= n,
            None => false,
        }
    }

    /// The pre-trade risk check. A finished desk does nothing. An order that would take the
    /// position beyond its limit is suppressed; any other moves the position by its size and
    /// is built from the tick.
    pub fn trade(&mut self, side: Side, tick: &MarketTick, timestamp_ns: u64) -> (r: Option<
        OrderCommand,
    >)
        requires
            old(self).wf(),
            !old(self).finished() ==> {
                &&& i64::MIN <= old(self).position + signed(side, old(self).delta) <= i64::MAX
                &&& if old(self).breaches(side) {
                    old(self).suppressed < u64::MAX
                } else {
                    old(self).order_id < u64::MAX && old(self).sent < u64::MAX
                }
            },
        ensures
            final(self).wf(),
            *final(self) == old(self).decided(side),
            r == if old(self).finished() || old(self).breaches(side) {
                None::<OrderCommand>
            } else {
                Some(old(self).order(side, *tick, timestamp_ns))
            },
    {
        if self.is_finished() {
            return None;
        }
        let moved: i64 = match side {
            Side::Buy => self.position + self.delta,
            Side::Sell => self.position - self.delta,
        };
        if moved > self.max_position || self.max_position == i64::MIN || moved
            < -self.max_position {
            self.suppressed = self.suppressed + 1;
            return None;
        }
        self.position = moved;
        self.order_id = self.order_id + 1;
        self.sent = self.sent + 1;
        let (price_ticks, order_type): (i64, u8) = if self.passive {
            let touch: i64 = match side {
                Side::Buy => tick.bid,
                Side::Sell => tick.ask,
            };
            (
                if touch != 0 {
                    touch
                } else {
                    tick.price
                },
                1,
            )
        } else {
            (tick.price, 0)
        };
        Some(
            OrderCommand {
                timestamp_ns,
                order_id: self.order_id,
                price_ticks,
                quantity: self.order_qty,
                origin_ts: tick.timestamp_ns,
                symbol_id: tick.symbol_id,
                user_id: 1,
                side: match side {
                    Side::Buy => 0,
                    Side::Sell => 1,
                },
                order_type,
                action: 0,
                flags: 0,
                exchange_id: tick.exchange_id,
                priority: 0,
            },
        )
    }
}

/// A desk after a sequence of decisions.
pub open spec fn after_decisions(desk: OrderDesk, sides: Seq<Side>) -> OrderDesk
    decreases sides.len(),
{
    if sides.len() == 0 {
        desk
    } else {
        after_decisions(desk, sides.drop_last()).decided(sides.last())
    }
}

/// The position never leaves its limit, however many decisions come in and whatever they
/// are; every decision that an endless run takes is either sent or suppressed.
pub proof fn law_position_stays_within_limit(desk: OrderDesk, sides: Seq<Side>)
    requires
        desk.wf(),
        desk.sent + desk.suppressed + sides.len() <= u64::MAX,
    ensures
        ({
            let after = after_decisions(desk, sides);
            &&& after.wf()
            &&& after.max_position == desk.max_position
            &&& after.max_position >= 0 ==> -after.max_position <= after.position
                <= after.max_position
            &&& after.max_orders == desk.max_orders
            &&& after.sent + after.suppressed <= desk.sent + desk.suppressed + sides.len()
            &&& desk.max_orders is None ==> after.sent + after.suppressed == desk.sent
                + desk.suppressed + sides.len()
        }),
    decreases sides.len(),
{
    if sides.len() > 0 {
        law_position_stays_within_limit(desk, sides.drop_last());
    }
}

/// A finite run sends no more orders than it may, however many decisions come in, and once
/// it has sent them nothing changes any more.
pub proof fn law_finite_runs_stop(desk: OrderDesk, sides: Seq<Side>, more: Seq<Side>)
    requires
        desk.max_orders is Some,
        desk.sent <= desk.max_orders->0,
    ensures
        ({
            let after = after_decisions(desk, sides);
            &&& after.sent <= desk.max_orders->0
            &&& after.max_orders == desk.max_orders
            &&& after.finished() <==> after.sent == desk.max_orders->0
            &&& after.finished() ==> after_decisions(after, more) == after
        }),
    decreases sides.len() + more.len(),
{
    if sides.len() > 0 {
        law_finite_runs_stop(desk, sides.drop_last(), seq![]);
    }
    if more.len() > 0 {
        law_finite_runs_stop(desk, sides, more.drop_last());
    }
}

/// What the execution stage remembers of an order: the time stamp of the tick behind it,
/// and its side.
#[derive(Clone, Copy, PartialEq, Eq, Structural, Debug)]
pub struct OrderContext {
    pub origin_ts: u64,
    pub side: u8,
}

/// A fill that moves the books.
#[derive(Clone, Copy, PartialEq, Eq, Structural, Debug)]
pub struct BookedFill {
    pub order_id: u64,
    /// A buy adds to the position and costs cash; a sell does the opposite.
    pub buy: bool,
    pub price: i64,
    pub quantity: u64,
    pub commission: i64,
    /// More of the order is to come.
    pub partial: bool,
    /// Cycles from the origin tick to the terminal fill, where both are known.
    pub tick_to_fill: Option<u64>,
}

/// What a report books for an order with context `ctx`.
pub open spec fn booked(report: ExecutionReport, ctx: OrderContext) -> BookedFill {
    BookedFill {
        order_id: report.order_id,
        buy: ctx.side == 0,
        price: report.executed_price,
        quantity: report.executed_quantity,
        commission: report.commission,
        partial: report.status == 1,
        tick_to_fill: if report.status == 2 && ctx.origin_ts != 0 && report.timestamp_ns
            > ctx.origin_ts {
            Some((report.timestamp_ns - ctx.origin_ts) as u64)
        } else {
            None
        },
    }
}

/// What a report books, and the open orders after it. Only partial and terminal fills of
/// known orders book anything; a terminal fill closes its order.
pub open spec fn reported(
    orders: Map<u64, OrderContext>,
    report: ExecutionReport,
) -> (Option<BookedFill>, Map<u64, OrderContext>) {
    if (report.status == 1 || report.status == 2) && orders.contains_key(report.order_id) {
        (
            Some(booked(report, orders[report.order_id])),
            if report.status == 2 {
                orders.remove(report.order_id)
            } else {
                orders
            },
        )
    } else {
        (None, orders)
    }
}

/// After its terminal fill nothing more is booked for an order, so an order that fills in
/// pieces is timed once.
pub proof fn law_terminal_fill_is_final(
    orders: Map<u64, OrderContext>,
    last: ExecutionReport,
    later: ExecutionReport,
)
    requires
        last.status == 2,
        later.order_id == last.order_id,
    ensures
        ({
            let (_, after) = reported(orders, last);
            reported(after, later).0 is None
        }),
{
}

/// The quantity that a sequence of reports executes.
pub open spec fn executed(reports: Seq<ExecutionReport>) -> nat
    decreases reports.len(),
{
    if reports.len() == 0 {
        0
    } else {
        reports[0].executed_quantity as nat + executed(reports.drop_first())
    }
}

/// The quantity that a sequence of reports books.
pub open spec fn booked_quantity(
    orders: Map<u64, OrderContext>,
    reports: Seq<ExecutionReport>,
) -> nat
    decreases reports.len(),
{
    if reports.len() == 0 {
        0
    } else {
        let (fill, after) = reported(orders, reports[0]);
        booked_quantity(after, reports.drop_first()) + match fill {
            Some(f) => f.quantity as nat,
            None => 0,
        }
    }
}

/// An order that fills in pieces is booked in full: partial fills leave it open, and the
/// terminal one closes it.
pub proof fn law_orders_filled_in_pieces_are_booked_in_full(
    orders: Map<u64, OrderContext>,
    reports: Seq<ExecutionReport>,
    order_id: u64,
)
    requires
        orders.contains_key(order_id),
        forall|i: int| 0 <= i < reports.len() ==> (#[trigger] reports[i]).order_id == order_id,
        forall|i: int|
            0 <= i < reports.len() ==> (#[trigger] reports[i]).status == 1 || reports[i].status
                == 2 && i == reports.len() - 1,
    ensures
        booked_quantity(orders, reports) == executed(reports),
    decreases reports.len(),
{
    if reports.len() > 0 {
        let rest = reports.drop_first();
        assert forall|i: int| 0 <= i < rest.len() implies (#[trigger] rest[i]).order_id == order_id
            && (rest[i].status == 1 || rest[i].status == 2 && i == rest.len() - 1) by {
            assert(rest[i] == reports[i + 1]);
        }
        if reports[0].status == 1 {
            law_orders_filled_in_pieces_are_booked_in_full(orders, rest, order_id);
        } else {
            assert(executed(rest) == 0);
            assert(booked_quantity(reported(orders, reports[0]).1, rest) == 0);
        }
    }
}

/// The orders whose fills are still to come.
pub struct FillLedger {
    orders: HashMap<u64, OrderContext>,
    fills: u64,
    filled_orders: u64,
}

impl FillLedger {
    /// The open orders by id.
    pub closed spec fn view(&self) -> Map<u64, OrderContext> {
        self.orders@
    }

    /// How many fills were booked.
    pub closed spec fn count(&self) -> u64 {
        self.fills
    }

    /// How many orders were filled to the end.
    pub closed spec fn filled(&self) -> u64 {
        self.filled_orders
    }

    pub fn new() -> (r: Self)
        ensures
            r@ == Map::<u64, OrderContext>::empty(),
            r.count() == 0,
            r.filled() == 0,
    {
        FillLedger { orders: HashMap::with_capacity(4096), fills: 0, filled_orders: 0 }
    }

    /// Whether a run of `max_fills` orders is over: as many were filled to the end. A run
    /// without a limit never is.
    pub fn is_finished(&self, max_fills: Option<u64>) -> (r: bool)
        ensures
            r == (max_fills matches Some(n) && self.filled() >= n),
    {
        match max_fills {
            Some(n) => self.filled_orders >= n,
            None => false,
        }
    }

    /// How many orders were filled to the end.
    pub fn orders_filled(&self) -> (r: u64)
        ensures
            r == self.filled(),
    {
        self.filled_orders
    }

    /// How many fills were booked.
    pub fn fills(&self) -> (r: u64)
        ensures
            r == self.count(),
    {
        self.fills
    }

    /// Remembers an order until its terminal fill.
    pub fn note_order(&mut self, cmd: &OrderCommand)
        ensures
            final(self)@ == old(self)@.insert(
                cmd.order_id,
                (OrderContext { origin_ts: cmd.origin_ts, side: cmd.side }),
            ),
            final(self).count() == old(self).count(),
            final(self).filled() == old(self).filled(),
    {
        self.orders.insert(
            cmd.order_id,
            OrderContext { origin_ts: cmd.origin_ts, side: cmd.side },
        );
    }

    /// Books a report. Only partial and terminal fills of known orders move the books; a
    /// terminal fill closes its order, so an order filled in pieces is timed once.
    pub fn on_report(&mut self, report: &ExecutionReport) -> (r: Option<BookedFill>)
        requires
            reported(old(self)@, *report).0 is Some ==> old(self).count() < u64::MAX && old(
                self,
            ).filled() < u64::MAX,
        ensures
            (r, final(self)@) == reported(old(self)@, *report),
            final(self).count() == old(self).count() + if r is Some {
                1int
            } else {
                0int
            },
            final(self).filled() == old(self).filled() + if r is Some && report.status == 2 {
                1int
            } else {
                0int
            },
    {
        if report.status != 1 && report.status != 2 {
            return None;
        }
        let ctx = match self.orders.get(&report.order_id) {
            Some(c) => *c,
            None => {
                return None;
            },
        };
        self.fills = self.fills + 1;
        let mut tick_to_fill: Option<u64> = None;
        if report.status == 2 {
            if ctx.origin_ts != 0 && report.timestamp_ns > ctx.origin_ts {
                tick_to_fill = Some(report.timestamp_ns - ctx.origin_ts);
            }
            self.orders.remove(&report.order_id);
            self.filled_orders = self.filled_orders + 1;
        }
        Some(
            BookedFill {
                order_id: report.order_id,
                buy: ctx.side == 0,
                price: report.executed_price,
                quantity: report.executed_quantity,
                commission: report.commission,
                partial: report.status == 1,
                tick_to_fill,
            },
        )
    }
}

/// The order that is sent is the one that was decided, as the venue reads it: its side, so
/// that it moves the position the way the desk counted it; a limit order exactly where the
/// desk is passive; new, under the desk's next id, for the desk's quantity, and with the
/// time stamp of the tick behind it.
pub proof fn law_orders_say_what_was_decided(
    desk: OrderDesk,
    side: Side,
    tick: MarketTick,
    timestamp_ns: u64,
)
    requires
        desk.order_id < u64::MAX,
    ensures
        ({
            let cmd = desk.order(side, tick, timestamp_ns);
            let read = strategy_order(cmd);
            &&& side is Buy <==> read.side is Buy
            &&& side is Sell <==> read.side is Sell
            &&& side is Buy ==> cmd.side == 0
            &&& side is Sell ==> cmd.side == 1
            &&& read.is_limit <==> desk.passive
            &&& read.order_id == desk.order_id + 1
            &&& read.origin_ts == tick.timestamp_ns
            &&& !read.is_synthetic
            &&& cmd.order_type == if desk.passive {
                1u8
            } else {
                0u8
            }
            &&& cmd.action == 0 && cmd.flags == 0 && cmd.priority == 0
            &&& cmd.user_id == 1
            &&& cmd.quantity == desk.order_qty
            &&& cmd.timestamp_ns == timestamp_ns
            &&& cmd.symbol_id == tick.symbol_id
            &&& cmd.exchange_id == tick.exchange_id
        }),
{
}

/// A passive order rests at the touch of its own side, the bid to buy and the ask to sell,
/// or at the last price while there is no touch. A marketable one carries the last price.
pub proof fn law_passive_orders_join_the_touch(
    desk: OrderDesk,
    side: Side,
    tick: MarketTick,
    timestamp_ns: u64,
)
    ensures
        ({
            let px = desk.order(side, tick, timestamp_ns).price_ticks;
            &&& desk.passive && side is Buy && tick.bid != 0 ==> px == tick.bid
            &&& desk.passive && side is Buy && tick.bid == 0 ==> px == tick.price
            &&& desk.passive && side is Sell && tick.ask != 0 ==> px == tick.ask
            &&& desk.passive && side is Sell && tick.ask == 0 ==> px == tick.price
            &&& !desk.passive ==> px == tick.price
        }),
{
}

/// The risk check, by the position that the order would lead to. A buy moves it up by the
/// size of an order and a sell down. An order is sent exactly where that position is no
/// further from zero than the limit; else it counts as suppressed and nothing else changes.
pub proof fn law_the_limit_decides(desk: OrderDesk, side: Side)
    requires
        desk.wf(),
        !desk.finished(),
        desk.order_id < u64::MAX,
        desk.sent < u64::MAX,
        desk.suppressed < u64::MAX,
    ensures
        ({
            let moved = if side is Buy {
                desk.position + desk.delta
            } else {
                desk.position - desk.delta
            };
            let after = desk.decided(side);
            if -desk.max_position <= moved <= desk.max_position {
                &&& !desk.breaches(side)
                &&& after.position == moved
                &&& after.order_id == desk.order_id + 1
                &&& after.sent == desk.sent + 1
                &&& after.suppressed == desk.suppressed
                &&& after == (OrderDesk {
                    position: after.position,
                    order_id: after.order_id,
                    sent: after.sent,
                    ..desk
                })
            } else {
                &&& desk.breaches(side)
                &&& after.suppressed == desk.suppressed + 1
                &&& after == (OrderDesk { suppressed: after.suppressed, ..desk })
            }
        }),
{
}

/// A run is over exactly when it has a limit and has sent as many orders.
pub proof fn law_a_run_is_over_when_its_orders_are_sent(desk: OrderDesk, n: u64)
    ensures
        desk.max_orders is None ==> !desk.finished(),
        desk.max_orders == Some(n) ==> (desk.finished() <==> n <= desk.sent),
{
}

/// Orders are numbered without gaps: however many decisions come in, the id of the last
/// order has grown by as many orders as were sent.
pub proof fn law_orders_are_numbered_in_turn(desk: OrderDesk, sides: Seq<Side>)
    requires
        desk.wf(),
        desk.order_id + sides.len() <= u64::MAX,
        desk.sent + desk.suppressed + sides.len() <= u64::MAX,
    ensures
        ({
            let after = after_decisions(desk, sides);
            &&& after.order_id - desk.order_id == after.sent - desk.sent
            &&& desk.sent <= after.sent <= desk.sent + sides.len()
        }),
    decreases sides.len(),
{
    if sides.len() > 0 {
        law_orders_are_numbered_in_turn(desk, sides.drop_last());
        law_position_stays_within_limit(desk, sides.drop_last());
    }
}

/// What a fill books is what its report says, for the side of the order as the venue reads
/// it. It is timed where it is terminal, from the tick behind the order to the report, if
/// the tick has a time and the report comes after it.
pub proof fn law_fills_are_booked_as_reported(
    orders: Map<u64, OrderContext>,
    cmd: OrderCommand,
    report: ExecutionReport,
)
    requires
        report.order_id == cmd.order_id,
        report.status == 1 || report.status == 2,
    ensures
        ({
            let noted = orders.insert(
                cmd.order_id,
                OrderContext { origin_ts: cmd.origin_ts, side: cmd.side },
            );
            let (fill, after) = reported(noted, report);
            &&& fill is Some
            &&& fill->0.order_id == cmd.order_id
            &&& fill->0.buy <==> strategy_order(cmd).side is Buy
            &&& fill->0.price == report.executed_price
            &&& fill->0.quantity == report.executed_quantity
            &&& fill->0.commission == report.commission
            &&& fill->0.partial <==> report.status == 1
            &&& fill->0.tick_to_fill is Some <==> report.status == 2 && 0 < cmd.origin_ts
                < report.timestamp_ns
            &&& fill->0.tick_to_fill matches Some(t) ==> t + cmd.origin_ts == report.timestamp_ns
            &&& report.status == 1 ==> after == noted
            &&& report.status == 2 ==> after == noted.remove(cmd.order_id)
        }),
{
}

/// Nothing is booked for an order that was never noted, nor for a report that is no fill.
pub proof fn law_other_reports_book_nothing(
    orders: Map<u64, OrderContext>,
    report: ExecutionReport,
)
    requires
        !orders.contains_key(report.order_id) || report.status == 0 || report.status > 2,
    ensures
        reported(orders, report) == (None::<BookedFill>, orders),
{
}

} // verus!
