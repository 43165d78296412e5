//! A limit order book with price-time priority: the matching engine.
//!
//! The book speaks in plain integers (price ticks, fixed-point quantities) and
//! hands back [`Fill`]s. Matching takes the best price first, and at one price the
//! order that arrived first. A marketable order crosses the spread and fills
//! against resting liquidity, over several price levels where its size asks for
//! it. A passive limit order rests, and gains a queue position that only clears as
//! the orders ahead of it fill or cancel.

use crate::ladder::Ladder;
use crate::matching::{
    lemma_cancel_sizes, lemma_cancel_valid, lemma_cross_suffix, lemma_crossing_needs_no_room,
    lemma_submit_sizes, lemma_submit_valid,
};
use crate::priority::{cross, other, prices, size_at, trade, BookState, Taker};
use std::collections::HashMap;
use vstd::prelude::*;

verus! {

broadcast use vstd::std_specs::hash::group_hash_axioms;

/// Which side of the book an order sits on.
#[derive(Clone, Copy, PartialEq, Eq, Structural, Debug)]
pub enum Side {
    Buy,
    Sell,
}

impl Side {
    /// Decodes the wire `side` byte: 0 is a buy, anything else a sell.
    pub fn from_u8(v: u8) -> (r: Self)
        ensures
            r == if v == 0 {
                Side::Buy
            } else {
                Side::Sell
            },
    {
        if v == 0 {
            Side::Buy
        } else {
            Side::Sell
        }
    }

    /// The side that an order of this side trades against.
    pub fn opposite(self) -> (r: Self)
        ensures
            r == other(self),
    {
        match self {
            Side::Buy => Side::Sell,
            Side::Sell => Side::Buy,
        }
    }
}

/// One resting order in a price level's queue. It carries only what matching needs.
#[derive(Clone, Copy, PartialEq, Eq, Structural, Debug)]
pub struct RestingOrder {
    pub order_id: u64,
    /// Fixed-point quantity still working.
    pub remaining: u64,
    /// Synthetic (participant) orders are not reported.
    pub is_synthetic: bool,
}

/// A single match between an incoming (taker) order and a resting (maker) order.
#[derive(Clone, Copy, PartialEq, Eq, Structural, Debug)]
pub struct Fill {
    pub taker_order_id: u64,
    pub maker_order_id: u64,
    pub price_ticks: i64,
    pub quantity: u64,
    pub taker_origin_ts: u64,
    /// 0 when this was the terminal fill for the taker.
    pub taker_remaining_after: u64,
    /// 0 when this was the terminal fill for the maker.
    pub maker_remaining_after: u64,
    pub taker_is_synthetic: bool,
    pub maker_is_synthetic: bool,
}

/// Why an order did not (fully) execute.
#[derive(Clone, Copy, PartialEq, Eq, Structural, Debug)]
pub enum Reject {
    /// A marketable order with nothing (more) to hit.
    NoLiquidity,
}

impl Reject {
    /// The reason as it goes into an execution report.
    pub open spec fn number(self) -> u8 {
        match self {
            Reject::NoLiquidity => 2,
        }
    }

    /// The reason as it goes into an execution report.
    pub fn code(self) -> (r: u8)
        ensures
            r == self.number(),
    {
        match self {
            Reject::NoLiquidity => 2,
        }
    }
}

/// The outcome of resting or rejecting the remainder of an order.
#[derive(Clone, Copy, PartialEq, Eq, Structural, Debug)]
pub enum Outcome {
    /// Fully filled by crossing; nothing left.
    Filled,
    /// Limit order rested; carries its queue position (size ahead of it) at insert.
    Rested { queue_ahead: u64 },
    /// Marketable remainder with no liquidity left.
    Rejected(Reject),
    /// A cancel resolved (order removed).
    Cancelled,
    /// A cancel for an unknown order.
    CancelRejected,
}

/// The limit order book: bids and asks, and where each order rests so that a cancel
/// need not search for it.
pub struct Book {
    bids: Ladder,
    asks: Ladder,
    locate: HashMap<u64, (Side, i64)>,
}

impl Default for Book {
    fn default() -> (r: Self)
        ensures
            r.wf(),
            r@ == BookState::empty(),
    {
        Self::new()
    }
}

impl Book {
    pub closed spec fn view(&self) -> BookState {
        BookState { bids: self.bids@, asks: self.asks@, located: self.locate@ }
    }

    pub closed spec fn wf(&self) -> bool {
        &&& self.bids.wf()
        &&& self.asks.wf()
        &&& self.bids.book_side() == Side::Buy
        &&& self.asks.book_side() == Side::Sell
        &&& self@.valid()
    }

    /// Every book that the operations below lead to is valid.
    pub proof fn lemma_valid(&self)
        requires
            self.wf(),
        ensures
            self@.valid(),
    {
    }

    /// A book in which nothing rests.
    pub fn new() -> (r: Self)
        ensures
            r.wf(),
            r@ == BookState::empty(),
    {
        let r = Book {
            bids: Ladder::new(Side::Buy),
            asks: Ladder::new(Side::Sell),
            locate: HashMap::new(),
        };
        assert(r@ =~= BookState::empty());
        r
    }

    /// The highest price that a resting buy offers.
    pub fn best_bid(&self) -> (r: Option<i64>)
        requires
            self.wf(),
        ensures
            r == if self@.bids.len() == 0 {
                None::<i64>
            } else {
                Some(self@.bids[0].price)
            },
    {
        self.bids.best()
    }

    /// The lowest price that a resting sell asks.
    pub fn best_ask(&self) -> (r: Option<i64>)
        requires
            self.wf(),
        ensures
            r == if self@.asks.len() == 0 {
                None::<i64>
            } else {
                Some(self@.asks[0].price)
            },
    {
        self.asks.best()
    }

    /// The size resting at one price of one side.
    pub fn size_at(&self, side: Side, px: i64) -> (r: u64)
        requires
            self.wf(),
        ensures
            r == size_at(self@.on(side), px),
    {
        match side {
            Side::Buy => self.bids.size_at(px),
            Side::Sell => self.asks.size_at(px),
        }
    }

    /// Number of distinct bid price levels.
    pub fn bid_level_count(&self) -> (r: usize)
        requires
            self.wf(),
        ensures
            r == prices(self@.bids).len(),
    {
        self.bids.level_count()
    }

    /// Whether an order id can be cancelled.
    pub fn is_resting(&self, order_id: u64) -> (r: bool)
        requires
            self.wf(),
        ensures
            r == self@.located.contains_key(order_id),
    {
        self.locate.contains_key(&order_id)
    }

    /// Whether `quantity` of the order `t` can be submitted: what would rest of it fits the
    /// size of its level. An order that trades on the way finds its level empty.
    pub fn has_room(&self, t: &Taker, quantity: u64) -> (r: bool)
        requires
            self.wf(),
        ensures
            r == self@.fits(*t, quantity as nat),
    {
        if !t.is_limit {
            return true;
        }
        let ahead: u64 = self.size_at(t.side, t.limit_px);
        proof {
            lemma_crossing_needs_no_room(self@, *t, quantity as nat);
        }
        quantity <= u64::MAX - ahead
    }

    /// Both sides are well formed, whatever the crossing has done so far.
    spec fn shaped(&self) -> bool {
        &&& self.bids.wf()
        &&& self.asks.wf()
        &&& self.bids.book_side() == Side::Buy
        &&& self.asks.book_side() == Side::Sell
    }

    /// The best price of one side.
    fn best_of(&self, side: Side) -> (r: Option<i64>)
        requires
            self.shaped(),
        ensures
            r == if self@.on(side).len() == 0 {
                None::<i64>
            } else {
                Some(self@.on(side)[0].price)
            },
    {
        match side {
            Side::Buy => self.bids.best(),
            Side::Sell => self.asks.best(),
        }
    }

    /// The order of one side that trades next.
    fn front_of(&self, side: Side) -> (r: Option<RestingOrder>)
        requires
            self.shaped(),
        ensures
            r == if self@.on(side).len() == 0 {
                None::<RestingOrder>
            } else {
                Some(self@.on(side)[0].order)
            },
    {
        match side {
            Side::Buy => self.bids.front(),
            Side::Sell => self.asks.front(),
        }
    }

    /// Trades `quantity` against the other side from the best price inward, and
    /// returns what is left of it.
    fn cross_orders(
        &mut self,
        order_id: u64,
        side: Side,
        is_limit: bool,
        limit_px: i64,
        quantity: u64,
        origin_ts: u64,
        is_synthetic: bool,
        fills: &mut Vec<Fill>,
    ) -> (left: u64)
        requires
            old(self).shaped(),
        ensures
            ({
                let t = Taker { order_id, side, is_limit, limit_px, origin_ts, is_synthetic };
                let c = cross(t, old(self)@.on(other(side)), quantity as nat);
                &&& final(self).shaped()
                &&& final(self)@.on(other(side)) == c.book
                &&& final(self)@.on(side) == old(self)@.on(side)
                &&& final(self)@.located == old(self)@.located.remove_keys(c.gone)
                &&& final(fills)@ == old(fills)@ + c.fills
                &&& left == c.left
            }),
    {
        let ghost t = Taker { order_id, side, is_limit, limit_px, origin_ts, is_synthetic };
        let opp = side.opposite();
        let ghost before = self@;
        let ghost fills0 = fills@;
        let ghost c = cross(t, before.on(opp), quantity as nat);
        let ghost mut done: Seq<Fill> = seq![];
        let ghost mut gone: Set<u64> = Set::empty();
        let mut remaining = quantity;
        assert(before.located.remove_keys(gone) =~= before.located);
        assert(fills0 + done =~= fills0);
        assert(done + c.fills =~= c.fills);
        assert(gone.union(c.gone) =~= c.gone);
        while remaining > 0
            invariant_except_break
                self.shaped(),
                opp == other(side),
                t == (Taker { order_id, side, is_limit, limit_px, origin_ts, is_synthetic }),
                self@.on(side) == before.on(side),
                self@.located == before.located.remove_keys(gone),
                fills@ == fills0 + done,
                ({
                    let now = cross(t, self@.on(opp), remaining as nat);
                    &&& c.fills == done + now.fills
                    &&& c.book == now.book
                    &&& c.left == now.left
                    &&& c.gone == gone.union(now.gone)
                }),
            ensures
                self.shaped(),
                self@.on(side) == before.on(side),
                self@.on(opp) == c.book,
                self@.located == before.located.remove_keys(c.gone),
                fills@ == fills0 + c.fills,
                remaining == c.left,
            decreases self@.on(opp).len(), remaining,
        {
            let ghost book = self@.on(opp);
            let (maker, best_px) = match (self.front_of(opp), self.best_of(opp)) {
                (Some(o), Some(p)) => (o, p),
                _ => {
                    assert(done + Seq::<Fill>::empty() =~= done);
                    assert(gone.union(Set::<u64>::empty()) =~= gone);
                    break;
                },
            };
            if is_limit {
                let agreed = match side {
                    Side::Buy => best_px <= limit_px,
                    Side::Sell => best_px >= limit_px,
                };
                if !agreed {
                    assert(done + Seq::<Fill>::empty() =~= done);
                    assert(gone.union(Set::<u64>::empty()) =~= gone);
                    break;
                }
            }
            proof {
                match opp {
                    Side::Buy => self.bids.lemma_wf(),
                    Side::Sell => self.asks.lemma_wf(),
                }
                assert(book[0].order.remaining > 0);
            }
            let fill_qty = if remaining < maker.remaining {
                remaining
            } else {
                maker.remaining
            };
            match opp {
                Side::Buy => self.bids.fill_front(fill_qty),
                Side::Sell => self.asks.fill_front(fill_qty),
            }
            let left_now = remaining - fill_qty;
            let fill = Fill {
                taker_order_id: order_id,
                maker_order_id: maker.order_id,
                price_ticks: best_px,
                quantity: fill_qty,
                taker_origin_ts: origin_ts,
                taker_remaining_after: left_now,
                maker_remaining_after: maker.remaining - fill_qty,
                taker_is_synthetic: is_synthetic,
                maker_is_synthetic: maker.is_synthetic,
            };
            fills.push(fill);
            let ghost now = cross(t, book, remaining as nat);
            let ghost next = cross(t, self@.on(opp), left_now as nat);
            assert(fill == trade(t, book[0], fill_qty as nat, left_now as nat));
            if fill_qty == maker.remaining {
                self.locate.remove(&maker.order_id);
                proof {
                    assert(self@.on(opp) == book.drop_first());
                    assert(now.fills == seq![fill] + next.fills);
                    assert(done + now.fills =~= done.push(fill) + next.fills);
                    assert(gone.union(now.gone) =~= gone.insert(maker.order_id).union(next.gone));
                    assert(before.located.remove_keys(gone).remove(maker.order_id)
                        =~= before.located.remove_keys(gone.insert(maker.order_id)));
                    gone = gone.insert(maker.order_id);
                }
            } else {
                proof {
                    assert(now.fills == seq![fill]);
                    assert(done + now.fills =~= done.push(fill) + next.fills);
                    assert(gone.union(now.gone) =~= gone.union(next.gone));
                }
            }
            proof {
                done = done.push(fill);
                assert(fills@ =~= fills0 + done);
            }
            remaining = left_now;
        }
        remaining
    }

    /// Submits a new order. Crossing fills are pushed onto `fills`; the return value
    /// describes what happened to the remainder. A market order crosses what it can
    /// and the rest is rejected; a limit order crosses what its price allows and the
    /// rest of it rests.
    pub fn submit(
        &mut self,
        order_id: u64,
        side: Side,
        is_limit: bool,
        limit_px: i64,
        quantity: u64,
        origin_ts: u64,
        is_synthetic: bool,
        fills: &mut Vec<Fill>,
    ) -> (outcome: Outcome)
        requires
            old(self).wf(),
            old(self)@.fits(
                (Taker { order_id, side, is_limit, limit_px, origin_ts, is_synthetic }),
                quantity as nat,
            ),
        ensures
            final(self).wf(),
            ({
                let t = Taker { order_id, side, is_limit, limit_px, origin_ts, is_synthetic };
                let r = old(self)@.submitted(t, quantity as nat);
                &&& final(self)@ == r.0
                &&& final(fills)@ == old(fills)@ + r.1
                &&& outcome == r.2
            }),
            forall|s: Side, px: i64| #[trigger]
                size_at(final(self)@.on(s), px) <= size_at(old(self)@.on(s), px) + if s == side {
                    quantity as nat
                } else {
                    0
                },
    {
        let ghost t = Taker { order_id, side, is_limit, limit_px, origin_ts, is_synthetic };
        let ghost before = self@;
        proof {
            lemma_submit_valid(before, t, quantity as nat);
            lemma_submit_sizes(before, t, quantity as nat);
            lemma_cross_suffix(t, before.on(other(side)), quantity as nat);
        }
        let remaining = self.cross_orders(
            order_id,
            side,
            is_limit,
            limit_px,
            quantity,
            origin_ts,
            is_synthetic,
            fills,
        );
        if remaining == 0 {
            assert(self@ =~= before.submitted(t, quantity as nat).0);
            return Outcome::Filled;
        }
        if !is_limit {
            assert(self@ =~= before.submitted(t, quantity as nat).0);
            return Outcome::Rejected(Reject::NoLiquidity);
        }
        let order = RestingOrder { order_id, remaining, is_synthetic };
        let queue_ahead = match side {
            Side::Buy => self.bids.rest(limit_px, order),
            Side::Sell => self.asks.rest(limit_px, order),
        };
        self.locate.insert(order_id, (side, limit_px));
        proof {
            assert(self@ =~= before.submitted(t, quantity as nat).0);
        }
        Outcome::Rested { queue_ahead }
    }

    /// Cancels a resting order by id.
    pub fn cancel(&mut self, order_id: u64) -> (outcome: Outcome)
        requires
            old(self).wf(),
        ensures
            final(self).wf(),
            final(self)@ == old(self)@.cancelled(order_id).0,
            outcome == old(self)@.cancelled(order_id).1,
            forall|s: Side, px: i64| #[trigger]
                size_at(final(self)@.on(s), px) <= size_at(old(self)@.on(s), px),
    {
        let ghost before = self@;
        proof {
            lemma_cancel_valid(before, order_id);
            lemma_cancel_sizes(before, order_id);
        }
        let (side, px) = match self.locate.remove(&order_id) {
            Some(v) => v,
            None => {
                assert(self@ =~= before);
                return Outcome::CancelRejected;
            },
        };
        match side {
            Side::Buy => self.bids.remove(px, order_id),
            Side::Sell => self.asks.remove(px, order_id),
        }
        assert(self@ =~= before.cancelled(order_id).0);
        Outcome::Cancelled
    }
}

} // verus!
