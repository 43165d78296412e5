//! Price-time priority as mathematics.
//!
//! One side of a book is a sequence of quotes in the order in which they would
//! trade: best price first, and at one price in order of arrival. Crossing an
//! incoming order consumes a prefix of the other side; resting an order puts it
//! behind every quote that is at least as good.

use crate::order_book::{Fill, Outcome, Reject, RestingOrder, Side};
use vstd::prelude::*;

verus! {

/// A resting order together with the price at which it rests.
pub struct Quote {
    pub price: i64,
    pub order: RestingOrder,
}

/// What an incoming order says about itself, apart from its quantity.
#[derive(Clone, Copy, PartialEq, Eq, Structural, Debug)]
pub struct Taker {
    pub order_id: u64,
    pub side: Side,
    pub is_limit: bool,
    pub limit_px: i64,
    pub origin_ts: u64,
    pub is_synthetic: bool,
}

/// Price `p` is strictly better than `q` for an order resting on `side`.
pub open spec fn better(side: Side, p: i64, q: i64) -> bool {
    match side {
        Side::Buy => p > q,
        Side::Sell => p < q,
    }
}

/// The other side of the book.
pub open spec fn other(side: Side) -> Side {
    match side {
        Side::Buy => Side::Sell,
        Side::Sell => Side::Buy,
    }
}

/// The quotes trade in this order: no quote stands behind a worse price.
pub open spec fn in_priority_order(side: Side, s: Seq<Quote>) -> bool {
    forall|i: int, j: int|
        #![trigger s[i], s[j]]
        0 <= i <= j < s.len() ==> !better(side, s[j].price, s[i].price)
}

/// Every quote still has something to trade.
pub open spec fn all_live(s: Seq<Quote>) -> bool {
    forall|i: int| 0 <= i < s.len() ==> (#[trigger] s[i]).order.remaining > 0
}

/// Size resting at one price.
pub open spec fn size_at(s: Seq<Quote>, px: i64) -> nat
    decreases s.len(),
{
    if s.len() == 0 {
        0
    } else {
        let here: nat = if s[0].price == px {
            s[0].order.remaining as nat
        } else {
            0
        };
        here + size_at(s.drop_first(), px)
    }
}

/// Size resting at any price.
pub open spec fn total_size(s: Seq<Quote>) -> nat
    decreases s.len(),
{
    if s.len() == 0 {
        0
    } else {
        s[0].order.remaining as nat + total_size(s.drop_first())
    }
}

/// The distinct prices at which something rests.
pub open spec fn prices(s: Seq<Quote>) -> Set<i64> {
    s.map_values(|q: Quote| q.price).to_set()
}

/// `order_id` rests at price `px`.
pub open spec fn holds_at(s: Seq<Quote>, px: i64, order_id: u64) -> bool {
    exists|i: int|
        0 <= i < s.len() && (#[trigger] s[i]).price == px && s[i].order.order_id == order_id
}

/// Position of the first order in `s` that rests at `px` under `order_id`.
pub open spec fn find(s: Seq<Quote>, px: i64, order_id: u64) -> int
    decreases s.len(),
{
    if s.len() == 0 {
        0
    } else if s[0].price == px && s[0].order.order_id == order_id {
        0
    } else {
        1 + find(s.drop_first(), px, order_id)
    }
}

/// `s` with `q` behind every quote that is at least as good, and ahead of the
/// rest.
pub open spec fn enqueue(side: Side, s: Seq<Quote>, q: Quote) -> Seq<Quote>
    decreases s.len(),
{
    if s.len() == 0 {
        seq![q]
    } else if better(side, q.price, s[0].price) {
        seq![q] + s
    } else {
        seq![s[0]] + enqueue(side, s.drop_first(), q)
    }
}

/// `q` after `qty` of it traded.
pub open spec fn reduced(q: Quote, qty: nat) -> Quote {
    Quote {
        price: q.price,
        order: RestingOrder { remaining: (q.order.remaining - qty) as u64, ..q.order },
    }
}

/// The taker agrees to trade at `px`. A market order agrees to any price.
pub open spec fn acceptable(t: Taker, px: i64) -> bool {
    !t.is_limit || match t.side {
        Side::Buy => px <= t.limit_px,
        Side::Sell => px >= t.limit_px,
    }
}

/// The trade of `qty` between the taker and the quote `q`, after which `left` of
/// the taker's quantity is still open.
pub open spec fn trade(t: Taker, q: Quote, qty: nat, left: nat) -> Fill {
    Fill {
        taker_order_id: t.order_id,
        maker_order_id: q.order.order_id,
        price_ticks: q.price,
        quantity: qty as u64,
        taker_origin_ts: t.origin_ts,
        taker_remaining_after: left as u64,
        maker_remaining_after: (q.order.remaining - qty) as u64,
        taker_is_synthetic: t.is_synthetic,
        maker_is_synthetic: q.order.is_synthetic,
    }
}

/// What crossing an order against the other side leaves.
pub struct Crossing {
    /// The trades, in the order in which they happened.
    pub fills: Seq<Fill>,
    /// The other side afterwards.
    pub book: Seq<Quote>,
    /// The quantity that found nothing to trade with.
    pub left: nat,
    /// Ids of the makers that traded completely.
    pub gone: Set<u64>,
}

/// Crosses `qty` of a taker against `s`, front to back.
pub open spec fn cross(t: Taker, s: Seq<Quote>, qty: nat) -> Crossing
    decreases s.len(),
{
    if qty == 0 || s.len() == 0 || !acceptable(t, s[0].price) {
        Crossing { fills: seq![], book: s, left: qty, gone: Set::empty() }
    } else if qty < s[0].order.remaining {
        Crossing {
            fills: seq![trade(t, s[0], qty, 0)],
            book: s.update(0, reduced(s[0], qty)),
            left: 0,
            gone: Set::empty(),
        }
    } else {
        let size = s[0].order.remaining as nat;
        let left = (qty - size) as nat;
        let tail = cross(t, s.drop_first(), left);
        Crossing {
            fills: seq![trade(t, s[0], size, left)] + tail.fills,
            book: tail.book,
            left: tail.left,
            gone: tail.gone.insert(s[0].order.order_id),
        }
    }
}

/// A whole book: both sides, and where each order that can be cancelled rests.
#[verifier::ext_equal]
pub struct BookState {
    pub bids: Seq<Quote>,
    pub asks: Seq<Quote>,
    pub located: Map<u64, (Side, i64)>,
}

impl BookState {
    /// A book in which nothing rests.
    pub open spec fn empty() -> BookState {
        BookState { bids: seq![], asks: seq![], located: Map::empty() }
    }

    pub open spec fn on(self, side: Side) -> Seq<Quote> {
        match side {
            Side::Buy => self.bids,
            Side::Sell => self.asks,
        }
    }

    pub open spec fn with(self, side: Side, s: Seq<Quote>) -> BookState {
        match side {
            Side::Buy => BookState { bids: s, ..self },
            Side::Sell => BookState { asks: s, ..self },
        }
    }

    /// Both sides trade in price-time order, nothing that rests is used up, the book
    /// is not crossed, and every order that can be cancelled is where it is said to
    /// be.
    pub open spec fn valid(self) -> bool {
        &&& in_priority_order(Side::Buy, self.bids)
        &&& in_priority_order(Side::Sell, self.asks)
        &&& all_live(self.bids)
        &&& all_live(self.asks)
        &&& uncrossed(self.bids, self.asks)
        &&& forall|id: u64| #[trigger]
            self.located.contains_key(id) ==> holds_at(
                self.on(self.located[id].0),
                self.located[id].1,
                id,
            )
    }

    /// The book, the trades and the outcome of submitting `qty` of the order `t`.
    pub open spec fn submitted(self, t: Taker, qty: nat) -> (BookState, Seq<Fill>, Outcome) {
        let c = cross(t, self.on(other(t.side)), qty);
        let crossed = BookState {
            located: self.located.remove_keys(c.gone),
            ..self.with(other(t.side), c.book)
        };
        if c.left == 0 {
            (crossed, c.fills, Outcome::Filled)
        } else if !t.is_limit {
            (crossed, c.fills, Outcome::Rejected(Reject::NoLiquidity))
        } else {
            let ahead = size_at(self.on(t.side), t.limit_px);
            let own = enqueue(t.side, self.on(t.side), resting_quote(t, c.left));
            (
                BookState {
                    located: crossed.located.insert(t.order_id, (t.side, t.limit_px)),
                    ..crossed.with(t.side, own)
                },
                c.fills,
                Outcome::Rested { queue_ahead: ahead as u64 },
            )
        }
    }

    /// What would rest of `qty` of the order `t` still fits the size of its level: all of
    /// it would, or what is left of it does once it has crossed.
    pub open spec fn fits(self, t: Taker, qty: nat) -> bool {
        let ahead = size_at(self.on(t.side), t.limit_px);
        let left = cross(t, self.on(other(t.side)), qty).left;
        t.is_limit && left > 0 ==> ahead + qty <= u64::MAX || ahead + left <= u64::MAX
    }

    /// The book and the outcome of cancelling `order_id`.
    pub open spec fn cancelled(self, order_id: u64) -> (BookState, Outcome) {
        if self.located.contains_key(order_id) {
            let (side, px) = self.located[order_id];
            let s = self.on(side);
            (
                BookState {
                    located: self.located.remove(order_id),
                    ..self.with(side, s.remove(find(s, px, order_id)))
                },
                Outcome::Cancelled,
            )
        } else {
            (self, Outcome::CancelRejected)
        }
    }
}

/// Every bid is below every ask.
pub open spec fn uncrossed(bids: Seq<Quote>, asks: Seq<Quote>) -> bool {
    forall|i: int, j: int|
        #![trigger bids[i], asks[j]]
        0 <= i < bids.len() && 0 <= j < asks.len() ==> bids[i].price < asks[j].price
}

/// What a limit order leaves in the book when `left` of it did not trade.
pub open spec fn resting_quote(t: Taker, left: nat) -> Quote {
    Quote {
        price: t.limit_px,
        order: RestingOrder {
            order_id: t.order_id,
            remaining: left as u64,
            is_synthetic: t.is_synthetic,
        },
    }
}

} // verus!
