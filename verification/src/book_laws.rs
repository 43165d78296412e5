//! Laws of the order book: what holds of every order submitted to, and every cancel
//! asked of, a valid book.

use crate::matching::{
    lemma_enqueue_insert, lemma_find, lemma_size_remove, lemma_total_insert,
};
use crate::order_book::{Fill, Outcome, RestingOrder, Side};
use crate::priority::{
    acceptable, all_live, better, cross, find, holds_at, in_priority_order, other, resting_quote,
    size_at, total_size, BookState, Quote, Taker,
};
use vstd::prelude::*;

verus! {

/// The quantity that changed hands in `fills`.
pub open spec fn traded(fills: Seq<Fill>) -> nat
    decreases fills.len(),
{
    if fills.len() == 0 {
        0
    } else {
        fills[0].quantity as nat + traded(fills.drop_first())
    }
}

proof fn lemma_live_tail(s: Seq<Quote>)
    requires
        all_live(s),
        s.len() > 0,
    ensures
        all_live(s.drop_first()),
{
    let rest = s.drop_first();
    assert forall|i: int| 0 <= i < rest.len() implies (#[trigger] rest[i]).order.remaining > 0 by {
        assert(rest[i] == s[i + 1]);
    }
}

proof fn lemma_cross_conserves(t: Taker, s: Seq<Quote>, qty: nat)
    requires
        all_live(s),
        qty <= u64::MAX,
    ensures
        ({
            let c = cross(t, s, qty);
            &&& traded(c.fills) + c.left == qty
            &&& total_size(c.book) + traded(c.fills) == total_size(s)
        }),
    decreases s.len(),
{
    let c = cross(t, s, qty);
    reveal_with_fuel(traded, 2);
    if qty == 0 || s.len() == 0 || !acceptable(t, s[0].price) {
    } else if qty < s[0].order.remaining {
        assert(c.book.drop_first() =~= s.drop_first());
    } else {
        let left = (qty - s[0].order.remaining) as nat;
        let tail = cross(t, s.drop_first(), left);
        lemma_live_tail(s);
        lemma_cross_conserves(t, s.drop_first(), left);
        assert(c.fills.drop_first() =~= tail.fills);
    }
}

/// No quantity is lost or made up. What an order trades leaves the other side, what
/// it leaves open rests on its own side (a limit order) or is rejected (a market
/// order), and it is filled exactly when all of it traded.
pub proof fn law_quantity_is_conserved(b: BookState, t: Taker, qty: nat)
    requires
        b.valid(),
        qty <= u64::MAX,
    ensures
        ({
            let (after, fills, outcome) = b.submitted(t, qty);
            &&& traded(fills) <= qty
            &&& outcome is Filled <==> traded(fills) == qty
            &&& outcome is Rested <==> traded(fills) < qty && t.is_limit
            &&& total_size(after.on(other(t.side))) + traded(fills) == total_size(
                b.on(other(t.side)),
            )
            &&& total_size(after.on(t.side)) == total_size(b.on(t.side)) + if outcome is Rested {
                (qty - traded(fills)) as nat
            } else {
                0
            }
        }),
{
    let opp = b.on(other(t.side));
    lemma_cross_conserves(t, opp, qty);
    let c = cross(t, opp, qty);
    if c.left > 0 && t.is_limit {
        let q = resting_quote(t, c.left);
        let p = lemma_enqueue_insert(t.side, b.on(t.side), q);
        lemma_total_insert(b.on(t.side), p, q);
    }
}

proof fn lemma_last_fill(t: Taker, s: Seq<Quote>, qty: nat)
    requires
        qty <= u64::MAX,
    ensures
        ({
            let c = cross(t, s, qty);
            c.left == if c.fills.len() == 0 {
                qty
            } else {
                c.fills.last().taker_remaining_after as nat
            }
        }),
    decreases s.len(),
{
    if qty == 0 || s.len() == 0 || !acceptable(t, s[0].price) {
    } else if qty >= s[0].order.remaining {
        let left = (qty - s[0].order.remaining) as nat;
        lemma_last_fill(t, s.drop_first(), left);
    }
}

/// What is left of an order after it has crossed stands in its last trade; an order
/// without a trade has all of its quantity left.
pub proof fn law_last_fill_tells_what_is_left(b: BookState, t: Taker, qty: nat)
    requires
        b.valid(),
        qty <= u64::MAX,
    ensures
        ({
            let fills = b.submitted(t, qty).1;
            qty - traded(fills) == if fills.len() == 0 {
                qty as int
            } else {
                fills.last().taker_remaining_after as int
            }
        }),
{
    lemma_cross_conserves(t, b.on(other(t.side)), qty);
    lemma_last_fill(t, b.on(other(t.side)), qty);
}

/// The `i`-th trade is with the `i`-th quote in line, at that quote's price, and takes
/// all of it unless the order runs out of quantity there.
pub open spec fn trades_in_line(t: Taker, s: Seq<Quote>, qty: nat, fills: Seq<Fill>) -> bool {
    &&& fills.len() <= s.len()
    &&& forall|i: int|
        0 <= i < fills.len() ==> {
            let f = #[trigger] fills[i];
            &&& f.maker_order_id == s[i].order.order_id
            &&& f.maker_is_synthetic == s[i].order.is_synthetic
            &&& f.price_ticks == s[i].price
            &&& acceptable(t, f.price_ticks)
            &&& 0 < f.quantity <= s[i].order.remaining
            &&& f.maker_remaining_after == s[i].order.remaining - f.quantity
            &&& f.quantity < s[i].order.remaining ==> f.taker_remaining_after == 0
            &&& f.taker_order_id == t.order_id
            &&& f.taker_origin_ts == t.origin_ts
            &&& f.taker_is_synthetic == t.is_synthetic
            &&& f.taker_remaining_after == qty - traded(fills.take(i + 1))
        }
    &&& forall|i: int|
        0 <= i < fills.len() - 1 ==> (#[trigger] fills[i]).taker_remaining_after > 0
            && fills[i].quantity == s[i].order.remaining
}

proof fn lemma_cross_in_line(t: Taker, s: Seq<Quote>, qty: nat)
    requires
        all_live(s),
        qty <= u64::MAX,
    ensures
        trades_in_line(t, s, qty, cross(t, s, qty).fills),
        ({
            let c = cross(t, s, qty);
            c.fills.len() > 0 ==> c.fills.last().taker_remaining_after == c.left
        }),
    decreases s.len(),
{
    let c = cross(t, s, qty);
    reveal_with_fuel(traded, 2);
    if qty == 0 || s.len() == 0 || !acceptable(t, s[0].price) {
    } else if qty < s[0].order.remaining {
        assert(c.fills.take(1) =~= c.fills);
    } else {
        let size = s[0].order.remaining as nat;
        let left = (qty - size) as nat;
        let rest = s.drop_first();
        let tail = cross(t, rest, left);
        lemma_live_tail(s);
        lemma_cross_in_line(t, rest, left);
        assert forall|i: int| 1 <= i < c.fills.len() implies c.fills[i] == tail.fills[i - 1]
            && s[i] == rest[i - 1] && traded(c.fills.take(i + 1)) == size + traded(
            tail.fills.take(i),
        ) by {
            assert(c.fills.take(i + 1).drop_first() =~= tail.fills.take(i));
        }
        assert(traded(c.fills.take(1)) == size) by {
            assert(c.fills.take(1).drop_first() =~= seq![]);
        }
        assert forall|i: int| 0 <= i < c.fills.len() implies {
            let f = #[trigger] c.fills[i];
            &&& f.maker_order_id == s[i].order.order_id
            &&& f.maker_is_synthetic == s[i].order.is_synthetic
            &&& f.price_ticks == s[i].price
            &&& acceptable(t, f.price_ticks)
            &&& 0 < f.quantity <= s[i].order.remaining
            &&& f.maker_remaining_after == s[i].order.remaining - f.quantity
            &&& f.quantity < s[i].order.remaining ==> f.taker_remaining_after == 0
            &&& f.taker_order_id == t.order_id
            &&& f.taker_origin_ts == t.origin_ts
            &&& f.taker_is_synthetic == t.is_synthetic
            &&& f.taker_remaining_after == qty - traded(c.fills.take(i + 1))
        } by {
            if i > 0 {
                assert(c.fills[i] == tail.fills[i - 1]);
            }
        }
        assert forall|i: int| 0 <= i < c.fills.len() - 1 implies (#[trigger]
        c.fills[i]).taker_remaining_after > 0 && c.fills[i].quantity == s[i].order.remaining by {
            if i > 0 {
                assert(c.fills[i] == tail.fills[i - 1]);
            } else {
                assert(tail.fills.len() > 0);
            }
        }
        if tail.fills.len() > 0 {
            assert(c.fills.last() == tail.fills.last());
        } else {
            assert(tail.left == left);
        }
    }
}

/// Price-time priority. An order trades with the quotes of the other side in line: best
/// price first, and at one price in order of arrival. Only the last trade can leave
/// something of its quote. No limit order trades beyond its price. Each trade
/// says how much of the order is still open, which is nothing after the last trade of
/// a filled order and only there.
pub proof fn law_price_time_priority(b: BookState, t: Taker, qty: nat)
    requires
        b.valid(),
        qty <= u64::MAX,
    ensures
        ({
            let (after, fills, outcome) = b.submitted(t, qty);
            let s = b.on(other(t.side));
            &&& trades_in_line(t, s, qty, fills)
            &&& forall|i: int, j: int|
                #![trigger fills[i], fills[j]]
                0 <= i <= j < fills.len() ==> !better(
                    other(t.side),
                    fills[j].price_ticks,
                    fills[i].price_ticks,
                )
            &&& fills.len() > 0 ==> (fills.last().taker_remaining_after == 0
                <==> outcome is Filled)
        }),
{
    let s = b.on(other(t.side));
    lemma_cross_in_line(t, s, qty);
    let fills = cross(t, s, qty).fills;
    assert forall|i: int, j: int| #![trigger fills[i], fills[j]] 0 <= i <= j
        < fills.len() implies !better(
        other(t.side),
        fills[j].price_ticks,
        fills[i].price_ticks,
    ) by {
        assert(in_priority_order(other(t.side), s));
        assert(s[i].price == fills[i].price_ticks && s[j].price == fills[j].price_ticks);
    }
}

proof fn lemma_rest_of_maker(t: Taker, s: Seq<Quote>, qty: nat)
    ensures
        ({
            let c = cross(t, s, qty);
            &&& c.fills.len() <= s.len()
            &&& c.fills.len() > 0 && c.fills.last().maker_remaining_after > 0 ==> {
                let q = s[c.fills.len() - 1];
                &&& c.book.len() > 0
                &&& c.book[0].price == q.price
                &&& c.book[0].order == (RestingOrder {
                    remaining: c.fills.last().maker_remaining_after,
                    ..q.order
                })
            }
        }),
    decreases s.len(),
{
    if qty == 0 || s.len() == 0 || !acceptable(t, s[0].price) {
    } else if qty >= s[0].order.remaining {
        let left = (qty - s[0].order.remaining) as nat;
        let tail = cross(t, s.drop_first(), left);
        lemma_rest_of_maker(t, s.drop_first(), left);
        if tail.fills.len() > 0 {
            let c = cross(t, s, qty);
            assert(c.fills.last() == tail.fills.last());
            assert(s.drop_first()[tail.fills.len() - 1] == s[c.fills.len() - 1]);
        }
    }
}

/// A trade says what is left of the resting order as well. Where something is, that order
/// is now first in line, under its id, at its price and with just that much open.
pub proof fn law_hit_orders_keep_what_is_left(b: BookState, t: Taker, qty: nat)
    requires
        b.valid(),
        qty <= u64::MAX,
        b.submitted(t, qty).1.len() > 0,
        b.submitted(t, qty).1.last().maker_remaining_after > 0,
    ensures
        ({
            let (after, fills, _) = b.submitted(t, qty);
            let q = b.on(other(t.side))[fills.len() - 1];
            let first = after.on(other(t.side))[0];
            &&& after.on(other(t.side)).len() > 0
            &&& first.price == q.price
            &&& first.order == (RestingOrder {
                remaining: fills.last().maker_remaining_after,
                ..q.order
            })
            &&& first.order.order_id == fills.last().maker_order_id
        }),
{
    let s = b.on(other(t.side));
    lemma_cross_in_line(t, s, qty);
    lemma_rest_of_maker(t, s, qty);
    assert(cross(t, s, qty).fills.last() == b.submitted(t, qty).1.last());
}

proof fn lemma_reach(t: Taker, s: Seq<Quote>, qty: nat, p: int)
    requires
        all_live(s),
        0 <= p < s.len(),
        qty <= total_size(s.take(p)),
    ensures
        cross(t, s, qty).fills.len() <= p,
        cross(t, s, qty).book.len() >= s.len() - p,
        cross(t, s, qty).book[p - (s.len() - cross(t, s, qty).book.len())] == s[p],
    decreases s.len(),
{
    if qty == 0 || !acceptable(t, s[0].price) {
    } else if qty < s[0].order.remaining {
        if p == 0 {
            assert(s.take(0) =~= seq![]);
        }
    } else {
        if p == 0 {
            assert(s.take(0) =~= seq![]);
        }
        let rest = s.drop_first();
        let left = (qty - s[0].order.remaining) as nat;
        lemma_live_tail(s);
        assert(s.take(p).drop_first() =~= rest.take(p - 1));
        lemma_reach(t, rest, left, p - 1);
        assert(rest[p - 1] == s[p]);
    }
}

/// Queue position. An order is not touched by any order on the other side that is no
/// larger than what stands ahead of it: it fills only once the queue ahead has cleared.
pub proof fn law_queue_ahead_clears_first(b: BookState, t: Taker, qty: nat, p: int)
    requires
        b.valid(),
        0 <= p < b.on(other(t.side)).len(),
        qty <= total_size(b.on(other(t.side)).take(p)),
    ensures
        ({
            let (after, fills, outcome) = b.submitted(t, qty);
            let s = b.on(other(t.side));
            let now = after.on(other(t.side));
            &&& fills.len() <= p
            &&& s.len() - p <= now.len() <= s.len()
            &&& now[p - (s.len() - now.len())] == s[p]
        }),
{
    crate::matching::lemma_cross_suffix(t, b.on(other(t.side)), qty);
    lemma_reach(t, b.on(other(t.side)), qty, p);
}

proof fn lemma_size_split(s: Seq<Quote>, p: int, px: i64)
    requires
        0 <= p <= s.len(),
        forall|i: int| p <= i < s.len() ==> (#[trigger] s[i]).price != px,
    ensures
        size_at(s.take(p), px) == size_at(s, px),
    decreases s.len(),
{
    if s.len() == 0 {
        assert(s.take(p) =~= s);
    } else if p == 0 {
        let rest = s.drop_first();
        assert forall|i: int| 0 <= i < rest.len() implies (#[trigger] rest[i]).price != px by {
            assert(rest[i] == s[i + 1]);
        }
        lemma_size_split(rest, 0, px);
        assert(s.take(0) =~= seq![] && rest.take(0) =~= seq![]);
        assert(s[0].price != px);
    } else {
        let rest = s.drop_first();
        assert forall|i: int| p - 1 <= i < rest.len() implies (#[trigger] rest[i]).price != px by {
            assert(rest[i] == s[i + 1]);
        }
        lemma_size_split(rest, p - 1, px);
        assert(s.take(p).drop_first() =~= rest.take(p - 1));
    }
}

/// A limit order that rests joins the end of the queue at its price: everything ahead
/// of it is at least as good, everything behind it is worse, and the queue position
/// it is told is the size ahead of it at that price.
pub proof fn law_rests_at_the_end_of_its_queue(b: BookState, t: Taker, qty: nat) -> (p: int)
    requires
        b.valid(),
        b.fits(t, qty),
        qty <= u64::MAX,
        b.submitted(t, qty).2 is Rested,
    ensures
        ({
            let (after, fills, outcome) = b.submitted(t, qty);
            let own = b.on(t.side);
            let q = resting_quote(t, (qty - traded(fills)) as nat);
            &&& 0 <= p <= own.len()
            &&& after.on(t.side) == own.insert(p, q)
            &&& outcome->queue_ahead == size_at(own.take(p), t.limit_px)
            &&& size_at(after.on(t.side), t.limit_px) == outcome->queue_ahead + q.order.remaining
            &&& forall|i: int|
                0 <= i < p ==> !better(t.side, t.limit_px, (#[trigger] own[i]).price)
            &&& forall|i: int|
                p <= i < own.len() ==> better(t.side, t.limit_px, (#[trigger] own[i]).price)
        }),
{
    let own = b.on(t.side);
    let c = cross(t, b.on(other(t.side)), qty);
    lemma_cross_conserves(t, b.on(other(t.side)), qty);
    let q = resting_quote(t, c.left);
    let p = lemma_enqueue_insert(t.side, own, q);
    lemma_size_split(own, p, t.limit_px);
    lemma_total_insert(own, p, q);
    p
}

proof fn lemma_find_inserted(s: Seq<Quote>, p: int, q: Quote)
    requires
        0 <= p <= s.len(),
        !holds_at(s, q.price, q.order.order_id),
    ensures
        find(s.insert(p, q), q.price, q.order.order_id) == p,
    decreases s.len(),
{
    let r = s.insert(p, q);
    if p > 0 {
        assert(s[0].price != q.price || s[0].order.order_id != q.order.order_id);
        let rest = s.drop_first();
        assert(r.drop_first() =~= rest.insert(p - 1, q));
        assert(!holds_at(rest, q.price, q.order.order_id)) by {
            if holds_at(rest, q.price, q.order.order_id) {
                let i = choose|i: int|
                    0 <= i < rest.len() && (#[trigger] rest[i]).price == q.price
                        && rest[i].order.order_id == q.order.order_id;
                assert(s[i + 1] == rest[i]);
            }
        }
        lemma_find_inserted(rest, p - 1, q);
    }
}

/// A cancel undoes a submission that only rested: the book is as it was before, if the id
/// could not be cancelled then and nothing rested under it at the order's price.
pub proof fn law_cancel_undoes_resting(b: BookState, t: Taker, qty: nat)
    requires
        b.valid(),
        !b.located.contains_key(t.order_id),
        !holds_at(b.on(t.side), t.limit_px, t.order_id),
        b.submitted(t, qty).1.len() == 0,
        b.submitted(t, qty).2 is Rested,
    ensures
        b.submitted(t, qty).0.cancelled(t.order_id) == (b, Outcome::Cancelled),
{
    let c = cross(t, b.on(other(t.side)), qty);
    assert(c.book == b.on(other(t.side)) && c.gone =~= Set::empty());
    let own = b.on(t.side);
    let q = resting_quote(t, c.left);
    let p = lemma_enqueue_insert(t.side, own, q);
    lemma_find_inserted(own, p, q);
    assert(own.insert(p, q).remove(p) =~= own);
    let back = b.submitted(t, qty).0.cancelled(t.order_id).0;
    assert(back.located =~= b.located);
    assert(back =~= b);
}

/// A cancel takes exactly one order out of the book, and leaves the others in line.
/// The size at its price falls by what it still had open; the other prices and the
/// other side keep theirs. A cancel for an id that cannot be cancelled changes nothing.
/// A second cancel of the same id is rejected.
pub proof fn law_cancel_removes_one_order(b: BookState, order_id: u64) -> (p: int)
    requires
        b.valid(),
    ensures
        ({
            let (after, outcome) = b.cancelled(order_id);
            if b.located.contains_key(order_id) {
                let (side, px) = b.located[order_id];
                let s = b.on(side);
                &&& outcome is Cancelled
                &&& 0 <= p < s.len()
                &&& s[p].order.order_id == order_id
                &&& s[p].price == px
                &&& after.on(side) == s.remove(p)
                &&& after.on(other(side)) == b.on(other(side))
                &&& size_at(after.on(side), px) + s[p].order.remaining == size_at(s, px)
                &&& forall|x: i64| x != px ==> size_at(after.on(side), x) == size_at(s, x)
                &&& after.cancelled(order_id) == (after, Outcome::CancelRejected)
            } else {
                outcome is CancelRejected && after == b
            }
        }),
{
    if b.located.contains_key(order_id) {
        let (side, px) = b.located[order_id];
        let s = b.on(side);
        lemma_find(s, px, order_id);
        let p = find(s, px, order_id);
        lemma_size_remove(s, p);
        p
    } else {
        0
    }
}

/// The two sides are each other's opposite.
pub proof fn law_sides_are_opposite(side: Side)
    ensures
        side is Buy <==> other(side) is Sell,
        side is Sell <==> other(side) is Buy,
        other(other(side)) == side,
{
}

/// Every valid book is in price order: bids fall, asks rise, and every bid is below every
/// ask. Nothing that rests is used up.
pub proof fn law_books_are_in_price_order(b: BookState)
    requires
        b.valid(),
    ensures
        forall|i: int, j: int|
            #![trigger b.bids[i], b.bids[j]]
            0 <= i <= j < b.bids.len() ==> b.bids[i].price >= b.bids[j].price,
        forall|i: int, j: int|
            #![trigger b.asks[i], b.asks[j]]
            0 <= i <= j < b.asks.len() ==> b.asks[i].price <= b.asks[j].price,
        forall|i: int, j: int|
            #![trigger b.bids[i], b.asks[j]]
            0 <= i < b.bids.len() && 0 <= j < b.asks.len() ==> b.bids[i].price < b.asks[j].price,
        forall|i: int| 0 <= i < b.bids.len() ==> (#[trigger] b.bids[i]).order.remaining > 0,
        forall|i: int| 0 <= i < b.asks.len() ==> (#[trigger] b.asks[i]).order.remaining > 0,
        b.on(Side::Buy) == b.bids,
        b.on(Side::Sell) == b.asks,
{
    assert forall|i: int, j: int| #![trigger b.bids[i], b.bids[j]] 0 <= i <= j
        < b.bids.len() implies b.bids[i].price >= b.bids[j].price by {
        assert(!better(Side::Buy, b.bids[j].price, b.bids[i].price));
    }
    assert forall|i: int, j: int| #![trigger b.asks[i], b.asks[j]] 0 <= i <= j
        < b.asks.len() implies b.asks[i].price <= b.asks[j].price by {
        assert(!better(Side::Sell, b.asks[j].price, b.asks[i].price));
    }
}

/// The size at a price is what the orders there have open, taken together: each order adds
/// its own to its price and to no other, wherever it stands.
pub proof fn law_sizes_add_up(s: Seq<Quote>, p: int, q: Quote, px: i64)
    requires
        0 <= p <= s.len(),
    ensures
        size_at(Seq::<Quote>::empty(), px) == 0,
        size_at(s.insert(p, q), px) == size_at(s, px) + if q.price == px {
            q.order.remaining as nat
        } else {
            0
        },
        total_size(Seq::<Quote>::empty()) == 0,
        total_size(s.insert(p, q)) == total_size(s) + q.order.remaining,
{
    lemma_total_insert(s, p, q);
}

/// The size that a limit price reaches on the other side: of the asks at or below it for a
/// buy, of the bids at or above it for a sell.
pub open spec fn size_within(side: Side, limit_px: i64, s: Seq<Quote>) -> nat
    decreases s.len(),
{
    if s.len() == 0 {
        0
    } else {
        let reached = if side is Buy {
            s[0].price <= limit_px
        } else {
            s[0].price >= limit_px
        };
        size_within(side, limit_px, s.drop_first()) + if reached {
            s[0].order.remaining as nat
        } else {
            0
        }
    }
}

proof fn lemma_nothing_within(side: Side, limit_px: i64, s: Seq<Quote>)
    requires
        in_priority_order(other(side), s),
        s.len() > 0,
        if side is Buy {
            s[0].price > limit_px
        } else {
            s[0].price < limit_px
        },
    ensures
        size_within(side, limit_px, s) == 0,
    decreases s.len(),
{
    let rest = s.drop_first();
    if rest.len() > 0 {
        assert(!better(other(side), s[1].price, s[0].price));
        assert(rest[0] == s[1]);
        lemma_order_tail(other(side), s);
        lemma_nothing_within(side, limit_px, rest);
    } else {
        assert(size_within(side, limit_px, rest) == 0);
    }
}

proof fn lemma_order_tail(side: Side, s: Seq<Quote>)
    requires
        in_priority_order(side, s),
        s.len() > 0,
    ensures
        in_priority_order(side, s.drop_first()),
{
    let rest = s.drop_first();
    assert forall|i: int, j: int| #![trigger rest[i], rest[j]] 0 <= i <= j
        < rest.len() implies !better(side, rest[j].price, rest[i].price) by {
        assert(rest[i] == s[i + 1] && rest[j] == s[j + 1]);
    }
}

proof fn lemma_cross_takes(t: Taker, s: Seq<Quote>, qty: nat)
    requires
        in_priority_order(other(t.side), s),
        all_live(s),
    ensures
        ({
            let there = if t.is_limit {
                size_within(t.side, t.limit_px, s)
            } else {
                total_size(s)
            };
            let c = cross(t, s, qty);
            &&& c.left == if qty <= there {
                0
            } else {
                (qty - there) as nat
            }
            &&& !t.is_limit && c.left > 0 ==> c.book.len() == 0
        }),
    decreases s.len(),
{
    if s.len() > 0 {
        lemma_order_tail(other(t.side), s);
        lemma_live_tail(s);
        let reached = !t.is_limit || if t.side is Buy {
            s[0].price <= t.limit_px
        } else {
            s[0].price >= t.limit_px
        };
        if !reached {
            lemma_nothing_within(t.side, t.limit_px, s);
        } else if qty >= s[0].order.remaining {
            lemma_cross_takes(t, s.drop_first(), (qty - s[0].order.remaining) as nat);
        }
    }
}

/// A market order crosses at any price, whatever price it carries: it trades as much of its
/// quantity as there is on the other side. It is filled where that is all of it; else it is
/// rejected, and the other side is empty. It never rests.
pub proof fn law_market_orders_take_what_there_is(b: BookState, t: Taker, qty: nat)
    requires
        b.valid(),
        !t.is_limit,
        qty <= u64::MAX,
    ensures
        ({
            let (after, fills, outcome) = b.submitted(t, qty);
            let there = total_size(b.on(other(t.side)));
            &&& traded(fills) == if qty <= there {
                qty
            } else {
                there
            }
            &&& qty <= there <==> outcome is Filled
            &&& qty > there <==> outcome is Rejected
            &&& outcome is Rejected ==> after.on(other(t.side)).len() == 0
            &&& after.on(t.side) == b.on(t.side)
        }),
{
    lemma_cross_conserves(t, b.on(other(t.side)), qty);
    lemma_cross_takes(t, b.on(other(t.side)), qty);
}

/// A limit order trades as much of its quantity as its price reaches on the other side: no
/// more, so that it never pays above its bid or sells below its ask, and no less. The rest
/// of it rests; it is never rejected.
pub proof fn law_limit_orders_take_what_their_price_reaches(b: BookState, t: Taker, qty: nat)
    requires
        b.valid(),
        t.is_limit,
        qty <= u64::MAX,
    ensures
        ({
            let (after, fills, outcome) = b.submitted(t, qty);
            let there = size_within(t.side, t.limit_px, b.on(other(t.side)));
            &&& traded(fills) == if qty <= there {
                qty
            } else {
                there
            }
            &&& qty <= there <==> outcome is Filled
            &&& qty > there <==> outcome is Rested
            &&& forall|i: int|
                0 <= i < fills.len() ==> if t.side is Buy {
                    (#[trigger] fills[i]).price_ticks <= t.limit_px
                } else {
                    fills[i].price_ticks >= t.limit_px
                }
            &&& outcome is Filled ==> after.on(t.side) == b.on(t.side)
        }),
{
    let s = b.on(other(t.side));
    lemma_cross_conserves(t, s, qty);
    lemma_cross_takes(t, s, qty);
    lemma_cross_in_line(t, s, qty);
    let fills = b.submitted(t, qty).1;
    assert forall|i: int| 0 <= i < fills.len() implies if t.side is Buy {
        (#[trigger] fills[i]).price_ticks <= t.limit_px
    } else {
        fills[i].price_ticks >= t.limit_px
    } by {
        assert(acceptable(t, fills[i].price_ticks));
    }
}

/// Trades happen one after the other from the front of the other side: the `i`-th trade is
/// with the `i`-th order there, at its price. It names both orders, carries the time stamp
/// of the incoming one, and says what it leaves of either; all but the last take the whole
/// of their order.
pub proof fn law_trades_name_both_orders(b: BookState, t: Taker, qty: nat, i: int)
    requires
        b.valid(),
        qty <= u64::MAX,
        0 <= i < b.submitted(t, qty).1.len(),
    ensures
        ({
            let fills = b.submitted(t, qty).1;
            let f = fills[i];
            let s = b.on(other(t.side));
            &&& fills.len() <= s.len()
            &&& f.taker_order_id == t.order_id
            &&& f.taker_origin_ts == t.origin_ts
            &&& f.taker_is_synthetic == t.is_synthetic
            &&& f.maker_order_id == s[i].order.order_id
            &&& f.maker_is_synthetic == s[i].order.is_synthetic
            &&& f.price_ticks == s[i].price
            &&& f.quantity > 0
            &&& f.quantity + f.maker_remaining_after == s[i].order.remaining
            &&& traded(fills.take(i + 1)) + f.taker_remaining_after == qty
            &&& i < fills.len() - 1 ==> f.maker_remaining_after == 0
        }),
{
    lemma_cross_in_line(t, b.on(other(t.side)), qty);
    let fills = b.submitted(t, qty).1;
    assert(fills[i].taker_order_id == t.order_id);
}

proof fn lemma_cross_book(t: Taker, s: Seq<Quote>, qty: nat)
    requires
        all_live(s),
        qty <= u64::MAX,
    ensures
        ({
            let c = cross(t, s, qty);
            let n = c.fills.len() as int;
            &&& n <= s.len()
            &&& n == 0 ==> c.book == s
            &&& n > 0 && c.fills.last().maker_remaining_after == 0 ==> c.book == s.skip(n)
            &&& n > 0 && c.fills.last().maker_remaining_after > 0 ==> c.book == seq![
                Quote {
                    price: s[n - 1].price,
                    order: RestingOrder {
                        remaining: c.fills.last().maker_remaining_after,
                        ..s[n - 1].order
                    },
                },
            ] + s.skip(n)
            &&& forall|id: u64| #[trigger]
                c.gone.contains(id) <==> exists|i: int|
                    0 <= i < n && (#[trigger] c.fills[i]).maker_order_id == id
                        && c.fills[i].maker_remaining_after == 0
        }),
    decreases s.len(),
{
    let c = cross(t, s, qty);
    if qty == 0 || s.len() == 0 || !acceptable(t, s[0].price) {
    } else if qty < s[0].order.remaining {
        assert(c.book =~= seq![c.book[0]] + s.skip(1));
        assert(c.fills[0].maker_remaining_after > 0);
    } else {
        let left = (qty - s[0].order.remaining) as nat;
        let rest = s.drop_first();
        let tail = cross(t, rest, left);
        lemma_live_tail(s);
        lemma_cross_book(t, rest, left);
        let n = c.fills.len() as int;
        assert(s.skip(n) =~= rest.skip(n - 1));
        assert forall|i: int| 1 <= i < n implies c.fills[i] == tail.fills[i - 1] by {}
        assert(c.fills[0].maker_order_id == s[0].order.order_id);
        assert(c.fills[0].maker_remaining_after == 0);
        if n > 1 {
            assert(c.fills.last() == tail.fills.last());
            assert(s[n - 1] == rest[n - 2]);
        } else {
            assert(rest.skip(0) =~= rest);
        }
        assert forall|id: u64| #[trigger] c.gone.contains(id) <==> exists|i: int|
            0 <= i < n && (#[trigger] c.fills[i]).maker_order_id == id
                && c.fills[i].maker_remaining_after == 0 by {
            if tail.gone.contains(id) {
                let i = choose|i: int|
                    0 <= i < tail.fills.len() && (#[trigger] tail.fills[i]).maker_order_id == id
                        && tail.fills[i].maker_remaining_after == 0;
                assert(c.fills[i + 1] == tail.fills[i]);
            }
            if exists|i: int|
                0 <= i < n && (#[trigger] c.fills[i]).maker_order_id == id
                    && c.fills[i].maker_remaining_after == 0 {
                let i = choose|i: int|
                    0 <= i < n && (#[trigger] c.fills[i]).maker_order_id == id
                        && c.fills[i].maker_remaining_after == 0;
                if i > 0 {
                    assert(tail.fills[i - 1] == c.fills[i]);
                }
            }
        }
    }
}

/// What an order leaves of the other side: the orders that it traded with completely are
/// gone from the front, one that it traded with in part stays first with what is left of
/// it, and all behind stay as they were.
pub proof fn law_the_rest_of_the_side_stays(b: BookState, t: Taker, qty: nat)
    requires
        b.valid(),
        qty <= u64::MAX,
    ensures
        ({
            let (after, fills, _) = b.submitted(t, qty);
            let s = b.on(other(t.side));
            let n = fills.len() as int;
            let now = after.on(other(t.side));
            if n == 0 {
                now == s
            } else if fills[n - 1].maker_remaining_after == 0 {
                now == s.skip(n)
            } else {
                now == seq![
                    Quote {
                        price: s[n - 1].price,
                        order: RestingOrder {
                            remaining: fills[n - 1].maker_remaining_after,
                            ..s[n - 1].order
                        },
                    },
                ] + s.skip(n)
            }
        }),
{
    lemma_cross_book(t, b.on(other(t.side)), qty);
}

/// Which orders can be cancelled afterwards, and where they are: one that traded completely
/// no more, the incoming one where it rests, and every other as before.
pub proof fn law_cancels_find_what_rests(b: BookState, t: Taker, qty: nat, id: u64)
    requires
        b.valid(),
        qty <= u64::MAX,
    ensures
        ({
            let (after, fills, outcome) = b.submitted(t, qty);
            let done = exists|i: int|
                0 <= i < fills.len() && (#[trigger] fills[i]).maker_order_id == id
                    && fills[i].maker_remaining_after == 0;
            if outcome is Rested && id == t.order_id {
                after.located.contains_key(id) && after.located[id] == (t.side, t.limit_px)
            } else if done {
                !after.located.contains_key(id)
            } else {
                &&& after.located.contains_key(id) <==> b.located.contains_key(id)
                &&& b.located.contains_key(id) ==> after.located[id] == b.located[id]
            }
        }),
{
    lemma_cross_book(t, b.on(other(t.side)), qty);
    let c = cross(t, b.on(other(t.side)), qty);
    assert(c.fills == b.submitted(t, qty).1);
}

/// An order that rests keeps its id, its kind and what did not trade of it, and stands at
/// its own price behind every order at that price or a better one, and ahead of every worse
/// one: for a buy the prices ahead are at least its own, for a sell at most. Its queue
/// position is the size ahead of it at its price.
pub proof fn law_resting_orders_queue_up(b: BookState, t: Taker, qty: nat) -> (p: int)
    requires
        b.valid(),
        b.fits(t, qty),
        qty <= u64::MAX,
        b.submitted(t, qty).2 is Rested,
    ensures
        ({
            let (after, fills, outcome) = b.submitted(t, qty);
            let own = b.on(t.side);
            let now = after.on(t.side);
            &&& 0 <= p <= own.len()
            &&& now == own.insert(p, now[p])
            &&& now[p].price == t.limit_px
            &&& now[p].order.order_id == t.order_id
            &&& now[p].order.is_synthetic == t.is_synthetic
            &&& now[p].order.remaining + traded(fills) == qty
            &&& outcome->queue_ahead == size_at(own, t.limit_px)
            &&& forall|i: int|
                0 <= i < p ==> if t.side is Buy {
                    (#[trigger] own[i]).price >= t.limit_px
                } else {
                    own[i].price <= t.limit_px
                }
            &&& forall|i: int|
                p <= i < own.len() ==> if t.side is Buy {
                    (#[trigger] own[i]).price < t.limit_px
                } else {
                    own[i].price > t.limit_px
                }
        }),
{
    let p = law_rests_at_the_end_of_its_queue(b, t, qty);
    let own = b.on(t.side);
    let fills = b.submitted(t, qty).1;
    lemma_cross_conserves(t, b.on(other(t.side)), qty);
    assert forall|i: int| 0 <= i < p implies if t.side is Buy {
        (#[trigger] own[i]).price >= t.limit_px
    } else {
        own[i].price <= t.limit_px
    } by {
        assert(!better(t.side, t.limit_px, own[i].price));
    }
    assert forall|i: int| p <= i < own.len() implies if t.side is Buy {
        (#[trigger] own[i]).price < t.limit_px
    } else {
        own[i].price > t.limit_px
    } by {
        assert(better(t.side, t.limit_px, own[i].price));
    }
    p
}

/// A cancel takes out the first order in line under its id at the price where it is said to
/// rest, and with it the id; everything else can be cancelled as before.
pub proof fn law_cancels_take_the_first(b: BookState, order_id: u64) -> (p: int)
    requires
        b.valid(),
        b.located.contains_key(order_id),
    ensures
        ({
            let after = b.cancelled(order_id).0;
            let (side, px) = b.located[order_id];
            let s = b.on(side);
            &&& 0 <= p < s.len()
            &&& s[p].price == px && s[p].order.order_id == order_id
            &&& forall|i: int|
                0 <= i < p ==> (#[trigger] s[i]).price != px || s[i].order.order_id != order_id
            &&& after.on(side) == s.remove(p)
            &&& after.located == b.located.remove(order_id)
        }),
{
    let (side, px) = b.located[order_id];
    let s = b.on(side);
    lemma_find(s, px, order_id);
    lemma_find_is_first(s, px, order_id);
    find(s, px, order_id)
}

proof fn lemma_find_is_first(s: Seq<Quote>, px: i64, order_id: u64)
    ensures
        forall|i: int|
            0 <= i < find(s, px, order_id) && i < s.len() ==> (#[trigger] s[i]).price != px
                || s[i].order.order_id != order_id,
    decreases s.len(),
{
    if s.len() > 0 && !(s[0].price == px && s[0].order.order_id == order_id) {
        let rest = s.drop_first();
        lemma_find_is_first(rest, px, order_id);
        assert forall|i: int| 0 <= i < find(s, px, order_id) && i < s.len() implies (
        #[trigger] s[i]).price != px || s[i].order.order_id != order_id by {
            if i > 0 {
                assert(rest[i - 1] == s[i]);
            }
        }
    }
}

} // verus!
