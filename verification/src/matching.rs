//! What crossing, resting and cancelling do to a side of the book.

use crate::order_book::Side;
use crate::priority::{
    acceptable, all_live, better, cross, enqueue, find, holds_at, in_priority_order, other,
    resting_quote, size_at, total_size, uncrossed, BookState, Quote, Taker,
};
use vstd::prelude::*;

verus! {

/// Crossing consumes a prefix: what stays is the end of the side, with at most its
/// first quote reduced.
pub proof fn lemma_cross_suffix(t: Taker, s: Seq<Quote>, qty: nat)
    requires
        all_live(s),
    ensures
        ({
            let c = cross(t, s, qty);
            let k = s.len() - c.book.len();
            &&& 0 <= k
            &&& forall|j: int|
                0 <= j < c.book.len() ==> (#[trigger] c.book[j]).price == s[j + k].price
                    && c.book[j].order.order_id == s[j + k].order.order_id
                    && 0 < c.book[j].order.remaining <= s[j + k].order.remaining
            &&& forall|j: int| 1 <= j < c.book.len() ==> #[trigger] c.book[j] == s[j + k]
            &&& forall|i: int| 0 <= i < k ==> c.gone.contains((#[trigger] s[i]).order.order_id)
            &&& c.left > 0 && c.book.len() > 0 ==> !acceptable(t, c.book[0].price)
            &&& c.left <= qty
        }),
    decreases s.len(),
{
    if qty == 0 || s.len() == 0 || !acceptable(t, s[0].price) {
    } else if qty < s[0].order.remaining {
    } else {
        let size = s[0].order.remaining as nat;
        let left = (qty - size) as nat;
        let rest = s.drop_first();
        assert forall|i: int| 0 <= i < rest.len() implies (#[trigger] rest[i]).order.remaining
            > 0 by {
            assert(rest[i] == s[i + 1]);
        }
        lemma_cross_suffix(t, rest, left);
        let c = cross(t, s, qty);
        let tail = cross(t, rest, left);
        let k = s.len() - c.book.len();
        let k1 = rest.len() - tail.book.len();
        assert forall|j: int| 0 <= j < c.book.len() implies rest[j + k1] == #[trigger] s[j + k] by {}
        assert forall|j: int| 0 <= j < c.book.len() implies (#[trigger] c.book[j]).price == s[j
            + k].price && c.book[j].order.order_id == s[j + k].order.order_id && 0
            < c.book[j].order.remaining <= s[j + k].order.remaining by {
            assert(c.book[j] == tail.book[j]);
            assert(rest[j + k1] == s[j + k]);
        }
        assert forall|j: int| 1 <= j < c.book.len() implies #[trigger] c.book[j] == s[j + k] by {
            assert(c.book[j] == tail.book[j]);
            assert(rest[j + k1] == s[j + k]);
        }
        assert forall|i: int| 0 <= i < k implies c.gone.contains(
            (#[trigger] s[i]).order.order_id,
        ) by {
            if i > 0 {
                assert(rest[i - 1] == s[i]);
            }
        }
    }
}

/// Resting an order puts it in at one place, ahead of everything worse and behind
/// everything else.
pub proof fn lemma_enqueue_insert(side: Side, s: Seq<Quote>, q: Quote) -> (p: int)
    requires
        in_priority_order(side, s),
    ensures
        0 <= p <= s.len(),
        enqueue(side, s, q) == s.insert(p, q),
        forall|i: int| 0 <= i < p ==> !better(side, q.price, (#[trigger] s[i]).price),
        forall|i: int| p <= i < s.len() ==> better(side, q.price, (#[trigger] s[i]).price),
    decreases s.len(),
{
    if s.len() == 0 {
        assert(seq![q] =~= s.insert(0, q));
        0
    } else if better(side, q.price, s[0].price) {
        assert(seq![q] + s =~= s.insert(0, q));
        assert forall|i: int| 0 <= i < s.len() implies better(
            side,
            q.price,
            (#[trigger] s[i]).price,
        ) by {
            assert(!better(side, s[i].price, s[0].price));
        }
        0
    } else {
        let rest = s.drop_first();
        assert(in_priority_order(side, rest)) by {
            assert forall|i: int, j: int|
                #![trigger rest[i], rest[j]]
                0 <= i <= j < rest.len() implies !better(side, rest[j].price, rest[i].price) by {
                assert(rest[i] == s[i + 1] && rest[j] == s[j + 1]);
            }
        }
        let p = lemma_enqueue_insert(side, rest, q);
        assert(seq![s[0]] + rest.insert(p, q) =~= s.insert(p + 1, q));
        assert forall|i: int| 0 <= i < p + 1 implies !better(
            side,
            q.price,
            (#[trigger] s[i]).price,
        ) by {
            if i > 0 {
                assert(rest[i - 1] == s[i]);
            }
        }
        assert forall|i: int| p + 1 <= i < s.len() implies better(
            side,
            q.price,
            (#[trigger] s[i]).price,
        ) by {
            assert(rest[i - 1] == s[i]);
        }
        p + 1
    }
}

/// One more quote adds its size, at its price.
pub proof fn lemma_total_insert(s: Seq<Quote>, p: int, q: Quote)
    requires
        0 <= p <= s.len(),
    ensures
        total_size(s.insert(p, q)) == total_size(s) + q.order.remaining,
        forall|px: i64| #[trigger]
            size_at(s.insert(p, q), px) == size_at(s, px) + if px == q.price {
                q.order.remaining as nat
            } else {
                0
            },
    decreases s.len(),
{
    let r = s.insert(p, q);
    if p == 0 {
        assert(r.drop_first() =~= s);
    } else {
        assert(r.drop_first() =~= s.drop_first().insert(p - 1, q));
        lemma_total_insert(s.drop_first(), p - 1, q);
    }
    assert forall|px: i64| #[trigger] size_at(r, px) == size_at(s, px) + if px == q.price {
        q.order.remaining as nat
    } else {
        0
    } by {
        if p > 0 {
            assert(size_at(r.drop_first(), px) == size_at(s.drop_first().insert(p - 1, q), px));
        }
    }
}

/// One quote less takes its size away, at its price.
pub proof fn lemma_size_remove(s: Seq<Quote>, p: int)
    requires
        0 <= p < s.len(),
    ensures
        total_size(s.remove(p)) + s[p].order.remaining == total_size(s),
        size_at(s.remove(p), s[p].price) + s[p].order.remaining == size_at(s, s[p].price),
        forall|px: i64| px != s[p].price ==> size_at(s.remove(p), px) == size_at(s, px),
{
    lemma_total_insert(s.remove(p), p, s[p]);
    assert(s.remove(p).insert(p, s[p]) =~= s);
}

/// Nothing rests at a price that no quote has.
proof fn lemma_size_nowhere(s: Seq<Quote>, px: i64)
    requires
        forall|i: int| 0 <= i < s.len() ==> (#[trigger] s[i]).price != px,
    ensures
        size_at(s, px) == 0,
    decreases s.len(),
{
    if s.len() > 0 {
        let rest = s.drop_first();
        assert forall|i: int| 0 <= i < rest.len() implies (#[trigger] rest[i]).price != px by {
            assert(rest[i] == s[i + 1]);
        }
        lemma_size_nowhere(rest, px);
    }
}

/// A limit order that trades at all finds nothing at its own price on its own side, since
/// the book is not crossed. So it fits exactly when its whole quantity would.
pub proof fn lemma_crossing_needs_no_room(b: BookState, t: Taker, qty: nat)
    requires
        b.valid(),
        t.is_limit,
        qty <= u64::MAX,
        size_at(b.on(t.side), t.limit_px) <= u64::MAX,
    ensures
        b.fits(t, qty) == (size_at(b.on(t.side), t.limit_px) + qty <= u64::MAX),
{
    let opp = b.on(other(t.side));
    let own = b.on(t.side);
    let c = cross(t, opp, qty);
    if qty > 0 && opp.len() > 0 && acceptable(t, opp[0].price) {
        assert forall|i: int| 0 <= i < own.len() implies (#[trigger] own[i]).price
            != t.limit_px by {
            match t.side {
                Side::Buy => assert(b.bids[i].price < b.asks[0].price),
                Side::Sell => assert(b.bids[0].price < b.asks[i].price),
            }
        }
        lemma_size_nowhere(own, t.limit_px);
    } else {
        assert(c.left == qty);
    }
}

/// Crossing makes no price larger.
pub proof fn lemma_cross_sizes(t: Taker, s: Seq<Quote>, qty: nat)
    ensures
        forall|px: i64| #[trigger] size_at(cross(t, s, qty).book, px) <= size_at(s, px),
    decreases s.len(),
{
    let c = cross(t, s, qty);
    let rest = s.drop_first();
    if qty == 0 || s.len() == 0 || !acceptable(t, s[0].price) {
    } else if qty < s[0].order.remaining {
        assert(c.book.drop_first() =~= rest);
    } else {
        let left = (qty - s[0].order.remaining) as nat;
        lemma_cross_sizes(t, rest, left);
        assert forall|px: i64| #[trigger] size_at(c.book, px) <= size_at(s, px) by {
            assert(size_at(cross(t, rest, left).book, px) <= size_at(rest, px));
        }
    }
}

/// An order adds no more than its quantity to the size at any price of its own side, and
/// nothing to the other side.
pub proof fn lemma_submit_sizes(b: BookState, t: Taker, qty: nat)
    requires
        b.valid(),
        qty <= u64::MAX,
    ensures
        forall|side: Side, px: i64| #[trigger]
            size_at(b.submitted(t, qty).0.on(side), px) <= size_at(b.on(side), px) + if side
                == t.side {
                qty
            } else {
                0
            },
{
    let opp = b.on(other(t.side));
    let c = cross(t, opp, qty);
    lemma_cross_sizes(t, opp, qty);
    lemma_cross_suffix(t, opp, qty);
    let after = b.submitted(t, qty).0;
    if c.left > 0 && t.is_limit {
        let q = resting_quote(t, c.left);
        let p = lemma_enqueue_insert(t.side, b.on(t.side), q);
        lemma_total_insert(b.on(t.side), p, q);
        assert(after.on(t.side) == b.on(t.side).insert(p, q));
    } else {
        assert(after.on(t.side) == b.on(t.side));
    }
    assert(after.on(other(t.side)) == c.book);
    assert forall|side: Side, px: i64| #[trigger] size_at(after.on(side), px) <= size_at(
        b.on(side),
        px,
    ) + if side == t.side {
        qty
    } else {
        0
    } by {
        if side != t.side {
            assert(side == other(t.side));
        }
    }
}

/// A cancel makes no price larger.
pub proof fn lemma_cancel_sizes(b: BookState, order_id: u64)
    requires
        b.valid(),
    ensures
        forall|side: Side, px: i64| #[trigger]
            size_at(b.cancelled(order_id).0.on(side), px) <= size_at(b.on(side), px),
{
    if b.located.contains_key(order_id) {
        let (at, price) = b.located[order_id];
        let s = b.on(at);
        lemma_find(s, price, order_id);
        lemma_size_remove(s, find(s, price, order_id));
        let after = b.cancelled(order_id).0;
        assert(after.on(at) == s.remove(find(s, price, order_id)));
        assert(after.on(other(at)) == b.on(other(at)));
        assert forall|side: Side, px: i64| #[trigger] size_at(after.on(side), px) <= size_at(
            b.on(side),
            px,
        ) by {
            if side != at {
                assert(side == other(at));
            }
        }
    }
}

/// A located order is found where it rests.
pub proof fn lemma_find(s: Seq<Quote>, px: i64, order_id: u64)
    requires
        holds_at(s, px, order_id),
    ensures
        0 <= find(s, px, order_id) < s.len(),
        s[find(s, px, order_id)].price == px,
        s[find(s, px, order_id)].order.order_id == order_id,
    decreases s.len(),
{
    let i = choose|i: int|
        0 <= i < s.len() && (#[trigger] s[i]).price == px && s[i].order.order_id == order_id;
    if !(s[0].price == px && s[0].order.order_id == order_id) {
        let rest = s.drop_first();
        assert(rest[i - 1] == s[i]);
        lemma_find(rest, px, order_id);
    }
}

/// The book once an order has crossed, before what is left of it rests.
spec fn crossed(b: BookState, t: Taker, qty: nat) -> BookState {
    let c = cross(t, b.on(other(t.side)), qty);
    BookState { located: b.located.remove_keys(c.gone), ..b.with(other(t.side), c.book) }
}

/// Crossing leaves a valid book.
proof fn lemma_cross_valid(b: BookState, t: Taker, qty: nat)
    requires
        b.valid(),
        qty <= u64::MAX,
    ensures
        crossed(b, t, qty).valid(),
{
    let opp = b.on(other(t.side));
    let c = cross(t, opp, qty);
    let k = opp.len() - c.book.len();
    lemma_cross_suffix(t, opp, qty);
    let mid = crossed(b, t, qty);
    assert forall|i: int, j: int| #![trigger c.book[i], c.book[j]] 0 <= i <= j
        < c.book.len() implies !better(other(t.side), c.book[j].price, c.book[i].price) by {
        assert(!better(other(t.side), opp[j + k].price, opp[i + k].price));
    }
    assert(uncrossed(mid.bids, mid.asks)) by {
        assert forall|i: int, j: int|
            #![trigger mid.bids[i], mid.asks[j]]
            0 <= i < mid.bids.len() && 0 <= j < mid.asks.len() implies mid.bids[i].price
            < mid.asks[j].price by {
            match t.side {
                Side::Buy => {
                    assert(b.bids[i].price < b.asks[j + k].price);
                },
                Side::Sell => {
                    assert(b.bids[i + k].price < b.asks[j].price);
                },
            }
        }
    }
    assert forall|id: u64| #[trigger] mid.located.contains_key(id) implies holds_at(
        mid.on(mid.located[id].0),
        mid.located[id].1,
        id,
    ) by {
        assert(b.located.contains_key(id));
        let (side, px) = b.located[id];
        let s = b.on(side);
        let i = choose|i: int|
            0 <= i < s.len() && (#[trigger] s[i]).price == px && s[i].order.order_id == id;
        if side == other(t.side) {
            assert(i >= k);
            assert(c.book[i - k].price == opp[i - k + k].price);
            assert(mid.on(side)[i - k].price == px);
        } else {
            assert(mid.on(side)[i] == s[i]);
        }
    }
}

/// Submitting an order to a valid book leaves a valid book: price-time order on both
/// sides, nothing used up, not crossed, and every cancel finds its order.
pub proof fn lemma_submit_valid(b: BookState, t: Taker, qty: nat)
    requires
        b.valid(),
        qty <= u64::MAX,
    ensures
        b.submitted(t, qty).0.valid(),
{
    let opp = b.on(other(t.side));
    let c = cross(t, opp, qty);
    let mid = crossed(b, t, qty);
    lemma_cross_suffix(t, opp, qty);
    lemma_cross_valid(b, t, qty);
    if c.left > 0 && t.is_limit {
        let q = resting_quote(t, c.left);
        let own = b.on(t.side);
        let p = lemma_enqueue_insert(t.side, own, q);
        let new = own.insert(p, q);
        let after = b.submitted(t, qty).0;
        assert(after.on(t.side) == new);
        assert(after.on(other(t.side)) == c.book);
        assert forall|i: int, j: int| #![trigger new[i], new[j]] 0 <= i <= j
            < new.len() implies !better(t.side, new[j].price, new[i].price) by {
            let oi = if i < p { i } else { i - 1 };
            let oj = if j < p { j } else { j - 1 };
            if i != p {
                assert(new[i] == own[oi]);
            }
            if j != p {
                assert(new[j] == own[oj]);
            }
            if i != p && j != p {
                assert(!better(t.side, own[oj].price, own[oi].price));
            }
        }
        assert(all_live(new));
        assert forall|j: int| 0 <= j < c.book.len() implies match t.side {
            Side::Buy => t.limit_px < (#[trigger] c.book[j]).price,
            Side::Sell => c.book[j].price < t.limit_px,
        } by {
            assert(!acceptable(t, c.book[0].price));
            assert(!better(other(t.side), c.book[j].price, c.book[0].price));
        }
        assert(uncrossed(after.bids, after.asks)) by {
            assert forall|i: int, j: int|
                #![trigger after.bids[i], after.asks[j]]
                0 <= i < after.bids.len() && 0 <= j < after.asks.len() implies after.bids[i].price
                < after.asks[j].price by {
                match t.side {
                    Side::Buy => {
                        assert(after.asks[j] == c.book[j]);
                        if i != p {
                            let oi = if i < p { i } else { i - 1 };
                            assert(new[i] == own[oi]);
                            assert(mid.bids[oi].price < mid.asks[j].price);
                        }
                    },
                    Side::Sell => {
                        assert(after.bids[i] == c.book[i]);
                        if j != p {
                            let oj = if j < p { j } else { j - 1 };
                            assert(new[j] == own[oj]);
                            assert(mid.bids[i].price < mid.asks[oj].price);
                        }
                    },
                }
            }
        }
        assert forall|id: u64| #[trigger] after.located.contains_key(id) implies holds_at(
            after.on(after.located[id].0),
            after.located[id].1,
            id,
        ) by {
            if id == t.order_id {
                assert(new[p] == q);
            } else {
                assert(mid.located.contains_key(id));
                let (side, px) = mid.located[id];
                let s = mid.on(side);
                let i = choose|i: int|
                    0 <= i < s.len() && (#[trigger] s[i]).price == px && s[i].order.order_id == id;
                if side == t.side {
                    let ni = if i < p { i } else { i + 1 };
                    assert(new[ni] == own[i]);
                } else {
                    assert(after.on(side)[i] == s[i]);
                }
            }
        }
    }
}

/// Cancelling leaves a valid book.
pub proof fn lemma_cancel_valid(b: BookState, order_id: u64)
    requires
        b.valid(),
    ensures
        b.cancelled(order_id).0.valid(),
{
    if b.located.contains_key(order_id) {
        let (side, px) = b.located[order_id];
        let s = b.on(side);
        lemma_find(s, px, order_id);
        let p = find(s, px, order_id);
        let new = s.remove(p);
        let after = b.cancelled(order_id).0;
        assert(after.on(side) == new);
        assert(after.on(other(side)) == b.on(other(side)));
        assert forall|i: int| 0 <= i < new.len() implies (#[trigger] new[i]) == s[if i < p {
            i
        } else {
            i + 1
        }] by {}
        assert forall|i: int, j: int| #![trigger new[i], new[j]] 0 <= i <= j
            < new.len() implies !better(side, new[j].price, new[i].price) by {
            let oi = if i < p { i } else { i + 1 };
            let oj = if j < p { j } else { j + 1 };
            assert(!better(side, s[oj].price, s[oi].price));
        }
        assert(all_live(new));
        assert(uncrossed(after.bids, after.asks)) by {
            assert forall|i: int, j: int|
                #![trigger after.bids[i], after.asks[j]]
                0 <= i < after.bids.len() && 0 <= j < after.asks.len() implies after.bids[i].price
                < after.asks[j].price by {
                let oi = if side == Side::Buy && i >= p { i + 1 } else { i };
                let oj = if side == Side::Sell && j >= p { j + 1 } else { j };
                assert(b.bids[oi].price < b.asks[oj].price);
            }
        }
        assert forall|id: u64| #[trigger] after.located.contains_key(id) implies holds_at(
            after.on(after.located[id].0),
            after.located[id].1,
            id,
        ) by {
            assert(b.located.contains_key(id) && id != order_id);
            let (sd, x) = b.located[id];
            let old = b.on(sd);
            let i = choose|i: int|
                0 <= i < old.len() && (#[trigger] old[i]).price == x && old[i].order.order_id == id;
            if sd == side {
                let ni = if i < p { i } else { i - 1 };
                assert(new[ni] == s[i]);
            } else {
                assert(after.on(sd)[i] == old[i]);
            }
        }
    }
}

} // verus!
