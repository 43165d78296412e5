//! One side of the book: price levels, each a first-in-first-out queue.
//!
//! The levels are kept sorted from the worst price to the best, so that the level
//! which trades next is the last one.

use crate::order_book::{RestingOrder, Side};
use crate::priority::{all_live, better, enqueue, find, holds_at, in_priority_order, prices, reduced, size_at, Quote};
use std::collections::VecDeque;
use vstd::prelude::*;

verus! {

broadcast use vstd::std_specs::vecdeque::group_vec_dequeue_axioms;

/// The queue at a single price. Time priority is queue order.
pub struct PriceLevel {
    price: i64,
    /// Sum of `remaining` over the queue, cached.
    total_size: u64,
    queue: VecDeque<RestingOrder>,
}

/// One side of the book.
pub struct Ladder {
    side: Side,
    levels: Vec<PriceLevel>,
}

spec fn volume(s: Seq<RestingOrder>) -> nat
    decreases s.len(),
{
    if s.len() == 0 {
        0
    } else {
        s[0].remaining as nat + volume(s.drop_first())
    }
}

/// The quotes of one level.
spec fn quotes(price: i64, queue: Seq<RestingOrder>) -> Seq<Quote> {
    queue.map_values(|o: RestingOrder| Quote { price, order: o })
}

/// The quotes of all levels, the last level first.
spec fn flat(levels: Seq<PriceLevel>) -> Seq<Quote>
    decreases levels.len(),
{
    if levels.len() == 0 {
        seq![]
    } else {
        quotes(levels.last().price, levels.last().queue@) + flat(levels.drop_last())
    }
}

impl PriceLevel {
    spec fn wf(self) -> bool {
        &&& self.queue@.len() > 0
        &&& self.total_size == volume(self.queue@)
        &&& forall|i: int| 0 <= i < self.queue@.len() ==> (#[trigger] self.queue@[i]).remaining > 0
    }
}

proof fn lemma_volume_add(a: Seq<RestingOrder>, b: Seq<RestingOrder>)
    ensures
        volume(a + b) == volume(a) + volume(b),
    decreases a.len(),
{
    if a.len() == 0 {
        assert(a + b =~= b);
    } else {
        assert((a + b).drop_first() =~= a.drop_first() + b);
        lemma_volume_add(a.drop_first(), b);
    }
}

proof fn lemma_volume_one(o: RestingOrder)
    ensures
        volume(seq![o]) == o.remaining,
{
    assert(seq![o].drop_first() =~= seq![]);
    assert(volume(seq![o].drop_first()) == 0);
}

proof fn lemma_volume_remove(s: Seq<RestingOrder>, i: int)
    requires
        0 <= i < s.len(),
    ensures
        volume(s) == volume(s.remove(i)) + s[i].remaining,
{
    let a = s.subrange(0, i);
    let b = s.subrange(i + 1, s.len() as int);
    assert(s =~= a + (seq![s[i]] + b));
    assert(s.remove(i) =~= a + b);
    lemma_volume_add(a, seq![s[i]] + b);
    lemma_volume_add(seq![s[i]], b);
    lemma_volume_add(a, b);
    lemma_volume_one(s[i]);
}

proof fn lemma_size_add(a: Seq<Quote>, b: Seq<Quote>, px: i64)
    ensures
        size_at(a + b, px) == size_at(a, px) + size_at(b, px),
    decreases a.len(),
{
    if a.len() == 0 {
        assert(a + b =~= b);
    } else {
        assert((a + b).drop_first() =~= a.drop_first() + b);
        lemma_size_add(a.drop_first(), b, px);
    }
}

proof fn lemma_size_quotes(price: i64, queue: Seq<RestingOrder>, px: i64)
    ensures
        size_at(quotes(price, queue), px) == if px == price {
            volume(queue)
        } else {
            0
        },
    decreases queue.len(),
{
    if queue.len() > 0 {
        assert(quotes(price, queue).drop_first() =~= quotes(price, queue.drop_first()));
        lemma_size_quotes(price, queue.drop_first(), px);
    }
}

/// The quotes split where the levels do.
proof fn lemma_flat_add(a: Seq<PriceLevel>, b: Seq<PriceLevel>)
    ensures
        flat(a + b) == flat(b) + flat(a),
    decreases b.len(),
{
    if b.len() == 0 {
        assert(a + b =~= a);
        assert(flat(b) + flat(a) =~= flat(a));
    } else {
        assert((a + b).drop_last() =~= a + b.drop_last());
        assert((a + b).last() == b.last());
        lemma_flat_add(a, b.drop_last());
        assert(flat(b) + flat(a) =~= quotes(b.last().price, b.last().queue@) + (flat(b.drop_last())
            + flat(a)));
    }
}

proof fn lemma_flat_one(l: PriceLevel)
    ensures
        flat(seq![l]) == quotes(l.price, l.queue@),
{
    assert(seq![l].drop_last() =~= seq![]);
    assert(flat(seq![l].drop_last()) == Seq::<Quote>::empty());
    assert(flat(seq![l]) =~= quotes(l.price, l.queue@));
}

/// Levels below `k`, level `k` and the levels above it.
proof fn lemma_flat_split(levels: Seq<PriceLevel>, k: int)
    requires
        0 <= k < levels.len(),
    ensures
        flat(levels) == flat(levels.skip(k + 1)) + quotes(levels[k].price, levels[k].queue@) + flat(
            levels.take(k),
        ),
{
    let a = levels.take(k);
    let b = levels.skip(k + 1);
    assert(levels =~= a + (seq![levels[k]] + b));
    lemma_flat_add(a, seq![levels[k]] + b);
    lemma_flat_add(seq![levels[k]], b);
    lemma_flat_one(levels[k]);
}

/// Every quote comes from a level.
proof fn lemma_flat_origin(levels: Seq<PriceLevel>, i: int) -> (k: int)
    requires
        0 <= i < flat(levels).len(),
    ensures
        0 <= k < levels.len(),
        flat(levels)[i].price == levels[k].price,
        levels[k].queue@.contains(flat(levels)[i].order),
    decreases levels.len(),
{
    let head = quotes(levels.last().price, levels.last().queue@);
    if i < head.len() {
        assert(flat(levels)[i] == head[i]);
        assert(levels.last().queue@[i] == flat(levels)[i].order);
        levels.len() - 1
    } else {
        assert(flat(levels)[i] == flat(levels.drop_last())[i - head.len()]);
        let k = lemma_flat_origin(levels.drop_last(), i - head.len());
        assert(levels.drop_last()[k] == levels[k]);
        k
    }
}

/// Strictly sorted levels give quotes in priority order.
proof fn lemma_flat_order(side: Side, levels: Seq<PriceLevel>)
    requires
        sorted(side, levels),
    ensures
        in_priority_order(side, flat(levels)),
    decreases levels.len(),
{
    if levels.len() > 0 {
        let rest = levels.drop_last();
        assert(sorted(side, rest));
        lemma_flat_order(side, rest);
        let head = quotes(levels.last().price, levels.last().queue@);
        let s = flat(levels);
        assert forall|i: int, j: int| #![trigger s[i], s[j]] 0 <= i <= j < s.len() implies !better(
            side,
            s[j].price,
            s[i].price,
        ) by {
            if j < head.len() {
                assert(s[i] == head[i] && s[j] == head[j]);
            } else {
                assert(s[j] == flat(rest)[j - head.len()]);
                if i < head.len() {
                    assert(s[i] == head[i]);
                    let k = lemma_flat_origin(rest, j - head.len());
                    assert(rest[k] == levels[k]);
                } else {
                    assert(s[i] == flat(rest)[i - head.len()]);
                }
            }
        }
    }
}

spec fn sorted(side: Side, levels: Seq<PriceLevel>) -> bool {
    forall|i: int, j: int|
        #![trigger levels[i], levels[j]]
        0 <= i < j < levels.len() ==> better(side, levels[j].price, levels[i].price)
}

proof fn lemma_sorted_insert(side: Side, levels: Seq<PriceLevel>, k: int, l: PriceLevel)
    requires
        sorted(side, levels),
        0 <= k <= levels.len(),
        forall|i: int| k <= i < levels.len() ==> better(side, (#[trigger] levels[i]).price, l.price),
        k > 0 ==> better(side, l.price, levels[k - 1].price),
    ensures
        sorted(side, levels.insert(k, l)),
{
    let new = levels.insert(k, l);
    assert forall|i: int, j: int| #![trigger new[i], new[j]] 0 <= i < j < new.len() implies better(
        side,
        new[j].price,
        new[i].price,
    ) by {
        let oi = if i < k { i } else { i - 1 };
        let oj = if j < k { j } else { j - 1 };
        if i != k {
            assert(new[i] == levels[oi]);
        }
        if j != k {
            assert(new[j] == levels[oj]);
        }
        if i != k && j != k {
            assert(better(side, levels[oj].price, levels[oi].price));
        } else if j == k && i < k - 1 {
            assert(better(side, levels[k - 1].price, levels[i].price));
        }
    }
}

proof fn lemma_sorted_remove(side: Side, levels: Seq<PriceLevel>, k: int)
    requires
        sorted(side, levels),
        0 <= k < levels.len(),
    ensures
        sorted(side, levels.remove(k)),
{
    let new = levels.remove(k);
    assert forall|i: int, j: int| #![trigger new[i], new[j]] 0 <= i < j < new.len() implies better(
        side,
        new[j].price,
        new[i].price,
    ) by {
        let oi = if i < k { i } else { i + 1 };
        let oj = if j < k { j } else { j + 1 };
        assert(new[i] == levels[oi] && new[j] == levels[oj]);
        assert(better(side, levels[oj].price, levels[oi].price));
    }
}

/// A quote goes behind everything that is at least as good.
proof fn lemma_enqueue_behind(side: Side, a: Seq<Quote>, b: Seq<Quote>, q: Quote)
    requires
        forall|i: int| 0 <= i < a.len() ==> !better(side, q.price, (#[trigger] a[i]).price),
    ensures
        enqueue(side, a + b, q) == a + enqueue(side, b, q),
    decreases a.len(),
{
    if a.len() == 0 {
        assert(a + b =~= b);
        assert(a + enqueue(side, b, q) =~= enqueue(side, b, q));
    } else {
        assert((a + b).drop_first() =~= a.drop_first() + b);
        assert((a + b)[0] == a[0]);
        assert forall|i: int| 0 <= i < a.drop_first().len() implies !better(
            side,
            q.price,
            (#[trigger] a.drop_first()[i]).price,
        ) by {
            assert(a.drop_first()[i] == a[i + 1]);
        }
        lemma_enqueue_behind(side, a.drop_first(), b, q);
        assert(seq![a[0]] + (a.drop_first() + enqueue(side, b, q)) =~= a + enqueue(side, b, q));
    }
}

/// A quote goes ahead of everything that is worse.
proof fn lemma_enqueue_ahead(side: Side, s: Seq<Quote>, q: Quote)
    requires
        forall|i: int| 0 <= i < s.len() ==> better(side, q.price, (#[trigger] s[i]).price),
    ensures
        enqueue(side, s, q) == seq![q] + s,
{
    if s.len() == 0 {
        assert(seq![q] + s =~= seq![q]);
    } else {
        assert(better(side, q.price, s[0].price));
    }
}

proof fn lemma_find_skip(a: Seq<Quote>, b: Seq<Quote>, px: i64, order_id: u64)
    requires
        forall|i: int| 0 <= i < a.len() ==> (#[trigger] a[i]).price != px,
    ensures
        find(a + b, px, order_id) == a.len() + find(b, px, order_id),
    decreases a.len(),
{
    if a.len() == 0 {
        assert(a + b =~= b);
    } else {
        assert((a + b).drop_first() =~= a.drop_first() + b);
        assert((a + b)[0] == a[0]);
        assert forall|i: int| 0 <= i < a.drop_first().len() implies (
        #[trigger] a.drop_first()[i]).price != px by {
            assert(a.drop_first()[i] == a[i + 1]);
        }
        lemma_find_skip(a.drop_first(), b, px, order_id);
    }
}

proof fn lemma_find_in_queue(
    price: i64,
    queue: Seq<RestingOrder>,
    b: Seq<Quote>,
    order_id: u64,
    pos: int,
)
    requires
        0 <= pos < queue.len(),
        queue[pos].order_id == order_id,
        forall|i: int| 0 <= i < pos ==> (#[trigger] queue[i]).order_id != order_id,
    ensures
        find(quotes(price, queue) + b, price, order_id) == pos,
    decreases pos,
{
    let s = quotes(price, queue) + b;
    assert(s[0] == quotes(price, queue)[0]);
    if pos > 0 {
        assert(queue[0].order_id != order_id);
        assert(s.drop_first() =~= quotes(price, queue.drop_first()) + b);
        assert forall|i: int| 0 <= i < pos - 1 implies (
        #[trigger] queue.drop_first()[i]).order_id != order_id by {
            assert(queue.drop_first()[i] == queue[i + 1]);
        }
        lemma_find_in_queue(price, queue.drop_first(), b, order_id, pos - 1);
    }
}

/// Nothing rests at a price that no level has.
proof fn lemma_size_none(levels: Seq<PriceLevel>, px: i64)
    requires
        forall|i: int| 0 <= i < levels.len() ==> (#[trigger] levels[i]).price != px,
    ensures
        size_at(flat(levels), px) == 0,
    decreases levels.len(),
{
    if levels.len() > 0 {
        assert forall|i: int| 0 <= i < levels.drop_last().len() implies (
        #[trigger] levels.drop_last()[i]).price != px by {
            assert(levels.drop_last()[i] == levels[i]);
        }
        lemma_size_none(levels.drop_last(), px);
        lemma_size_add(
            quotes(levels.last().price, levels.last().queue@),
            flat(levels.drop_last()),
            px,
        );
        lemma_size_quotes(levels.last().price, levels.last().queue@, px);
    }
}

/// The prices of the quotes are the prices of the levels.
proof fn lemma_flat_prices(levels: Seq<PriceLevel>)
    requires
        forall|k: int| 0 <= k < levels.len() ==> (#[trigger] levels[k]).wf(),
    ensures
        prices(flat(levels)) == levels.map_values(|l: PriceLevel| l.price).to_set(),
{
    let a = flat(levels).map_values(|q: Quote| q.price);
    let b = levels.map_values(|l: PriceLevel| l.price);
    assert forall|p: i64| a.to_set().contains(p) <==> b.to_set().contains(p) by {
        if a.contains(p) {
            let i = choose|i: int| 0 <= i < a.len() && a[i] == p;
            let k = lemma_flat_origin(levels, i);
            assert(b[k] == p);
        }
        if b.contains(p) {
            let k = choose|k: int| 0 <= k < b.len() && b[k] == p;
            assert(levels[k].wf());
            lemma_flat_split(levels, k);
            let high = flat(levels.skip(k + 1));
            assert(flat(levels)[high.len() as int] == quotes(levels[k].price, levels[k].queue@)[0]);
            assert(a[high.len() as int] == p);
        }
    }
    assert(a.to_set() =~= b.to_set());
}

/// Position of the first order under `order_id`, or the length of the queue.
fn position(queue: &VecDeque<RestingOrder>, order_id: u64) -> (pos: usize)
    ensures
        pos <= queue@.len(),
        forall|i: int| 0 <= i < pos ==> (#[trigger] queue@[i]).order_id != order_id,
        pos < queue@.len() ==> queue@[pos as int].order_id == order_id,
{
    let mut pos: usize = 0;
    while pos < queue.len() && queue[pos].order_id != order_id
        invariant
            pos <= queue@.len(),
            forall|i: int| 0 <= i < pos ==> (#[trigger] queue@[i]).order_id != order_id,
        decreases queue@.len() - pos,
    {
        pos = pos + 1;
    }
    pos
}

impl Ladder {
    /// The quotes of this side in priority order.
    pub closed spec fn view(&self) -> Seq<Quote> {
        flat(self.levels@)
    }

    /// The side whose prices this ladder ranks.
    pub closed spec fn book_side(&self) -> Side {
        self.side
    }

    pub closed spec fn wf(&self) -> bool {
        &&& sorted(self.side, self.levels@)
        &&& forall|k: int| 0 <= k < self.levels@.len() ==> (#[trigger] self.levels@[k]).wf()
    }

    /// What holds of the quotes of any ladder.
    pub proof fn lemma_wf(&self)
        requires
            self.wf(),
        ensures
            in_priority_order(self.book_side(), self@),
            all_live(self@),
    {
        lemma_flat_order(self.side, self.levels@);
        assert forall|i: int| 0 <= i < self@.len() implies (
        #[trigger] self@[i]).order.remaining > 0 by {
            let k = lemma_flat_origin(self.levels@, i);
            assert(self.levels@[k].wf());
        }
    }

    /// An empty side.
    pub fn new(side: Side) -> (r: Self)
        ensures
            r.wf(),
            r.book_side() == side,
            r@ == Seq::<Quote>::empty(),
    {
        Ladder { side, levels: Vec::new() }
    }

    /// The best price on this side.
    pub fn best(&self) -> (r: Option<i64>)
        requires
            self.wf(),
        ensures
            r == if self@.len() == 0 {
                None::<i64>
            } else {
                Some(self@[0].price)
            },
    {
        let n = self.levels.len();
        if n == 0 {
            None
        } else {
            assert(self.levels@[n - 1].wf());
            assert(self@[0] == quotes(
                self.levels@.last().price,
                self.levels@.last().queue@,
            )[0]);
            Some(self.levels[n - 1].price)
        }
    }

    /// The order that trades next.
    pub fn front(&self) -> (r: Option<RestingOrder>)
        requires
            self.wf(),
        ensures
            r == if self@.len() == 0 {
                None::<RestingOrder>
            } else {
                Some(self@[0].order)
            },
    {
        let n = self.levels.len();
        if n == 0 {
            None
        } else {
            assert(self.levels@[n - 1].wf());
            assert(self@[0] == quotes(
                self.levels@.last().price,
                self.levels@.last().queue@,
            )[0]);
            Some(self.levels[n - 1].queue[0])
        }
    }

    /// Trades `qty` of the order that trades next, and drops it once nothing of it
    /// is left.
    pub fn fill_front(&mut self, qty: u64)
        requires
            old(self).wf(),
            old(self)@.len() > 0,
            0 < qty <= old(self)@[0].order.remaining,
        ensures
            final(self).wf(),
            final(self).book_side() == old(self).book_side(),
            final(self)@ == if qty == old(self)@[0].order.remaining {
                old(self)@.drop_first()
            } else {
                old(self)@.update(0, reduced(old(self)@[0], qty as nat))
            },
    {
        let n = self.levels.len();
        let ghost levels = self.levels@;
        let ghost k = n - 1;
        proof {
            if n == 0 {
                assert(flat(levels).len() == 0);
            }
            assert(levels[k].wf());
            lemma_flat_split(levels, k);
            assert(levels.skip(k + 1) =~= seq![]);
            assert(self@[0] == quotes(levels[k].price, levels[k].queue@)[0]);
        }
        let front = self.levels[n - 1].queue[0];
        let ghost queue = levels[k].queue@;
        let ghost low = flat(levels.take(k));
        proof {
            lemma_volume_remove(queue, 0);
            assert(queue.remove(0) =~= queue.drop_first());
            assert(flat(seq![]) =~= seq![]);
            assert(self@ =~= quotes(levels[k].price, queue) + low);
        }
        let total = self.levels[n - 1].total_size;
        if front.remaining == qty {
            if self.levels[n - 1].queue.len() == 1 {
                self.levels.pop();
                assert(self.levels@ =~= levels.take(k));
                assert(self@ =~= old(self)@.drop_first());
            } else {
                self.levels[n - 1].queue.pop_front();
                self.levels[n - 1].total_size = total - qty;
                proof {
                    assert(self.levels@.take(k) =~= levels.take(k));
                    assert(self.levels@[k].queue@ =~= queue.drop_first());
                    lemma_flat_split(self.levels@, k);
                    assert(self.levels@.skip(k + 1) =~= seq![]);
                    assert(self@ =~= quotes(levels[k].price, queue.drop_first()) + low);
                    assert(self@ =~= old(self)@.drop_first());
                }
            }
        } else {
            let kept = RestingOrder {
                order_id: front.order_id,
                remaining: front.remaining - qty,
                is_synthetic: front.is_synthetic,
            };
            self.levels[n - 1].queue.pop_front();
            self.levels[n - 1].queue.push_front(kept);
            self.levels[n - 1].total_size = total - qty;
            proof {
                assert(self.levels@.take(k) =~= levels.take(k));
                let after = self.levels@[k].queue@;
                assert(after =~= queue.update(0, kept));
                lemma_volume_remove(after, 0);
                assert(after.remove(0) =~= queue.drop_first());
                lemma_flat_split(self.levels@, k);
                assert(self.levels@.skip(k + 1) =~= seq![]);
                assert(self@ =~= quotes(levels[k].price, after) + low);
                assert(self@ =~= old(self)@.update(0, reduced(old(self)@[0], qty as nat)));
            }
        }
        proof {
            assert forall|i: int| 0 <= i < self.levels@.len() implies (
            #[trigger] self.levels@[i]).wf() by {
                assert(levels[i].wf());
            }
        }
    }

    /// The number of levels at the bottom of which `px` separates: every level from
    /// the result on is strictly better than `px`, and the one below it is not.
    fn rank(&self, px: i64) -> (k: usize)
        ensures
            k <= self.levels@.len(),
            forall|i: int|
                k <= i < self.levels@.len() ==> better(
                    self.side,
                    (#[trigger] self.levels@[i]).price,
                    px,
                ),
            k > 0 ==> !better(self.side, self.levels@[k - 1].price, px),
    {
        let mut k: usize = self.levels.len();
        while k > 0
            invariant_except_break
                k <= self.levels@.len(),
                forall|i: int|
                    k <= i < self.levels@.len() ==> better(
                        self.side,
                        (#[trigger] self.levels@[i]).price,
                        px,
                    ),
            ensures
                k <= self.levels@.len(),
                forall|i: int|
                    k <= i < self.levels@.len() ==> better(
                        self.side,
                        (#[trigger] self.levels@[i]).price,
                        px,
                    ),
                k > 0 ==> !better(self.side, self.levels@[k - 1].price, px),
            decreases k,
        {
            let price = self.levels[k - 1].price;
            let ahead = match self.side {
                Side::Buy => price > px,
                Side::Sell => price < px,
            };
            if !ahead {
                break;
            }
            k = k - 1;
        }
        k
    }

    /// The size resting at `px`.
    pub fn size_at(&self, px: i64) -> (r: u64)
        requires
            self.wf(),
        ensures
            r == size_at(self@, px),
    {
        let k = self.rank(px);
        let ghost levels = self.levels@;
        if k > 0 && self.levels[k - 1].price == px {
            proof {
                lemma_flat_split(levels, k - 1);
                let high = flat(levels.skip(k as int));
                let here = quotes(px, levels[k - 1].queue@);
                let low = flat(levels.take(k - 1));
                lemma_size_add(high + here, low, px);
                lemma_size_add(high, here, px);
                lemma_size_quotes(px, levels[k - 1].queue@, px);
                assert forall|i: int| 0 <= i < levels.skip(k as int).len() implies (
                #[trigger] levels.skip(k as int)[i]).price != px by {
                    assert(levels.skip(k as int)[i] == levels[k + i]);
                }
                lemma_size_none(levels.skip(k as int), px);
                assert forall|i: int| 0 <= i < levels.take(k - 1).len() implies (
                #[trigger] levels.take(k - 1)[i]).price != px by {
                    assert(levels.take(k - 1)[i] == levels[i]);
                    assert(better(self.side, levels[k - 1].price, levels[i].price));
                }
                lemma_size_none(levels.take(k - 1), px);
                assert(levels[k - 1].wf());
            }
            self.levels[k - 1].total_size
        } else {
            proof {
                assert forall|i: int| 0 <= i < levels.len() implies (
                #[trigger] levels[i]).price != px by {
                    if i < k - 1 {
                        assert(better(self.side, levels[k - 1].price, levels[i].price));
                    }
                }
                lemma_size_none(levels, px);
            }
            0
        }
    }

    /// The number of distinct prices at which something rests.
    pub fn level_count(&self) -> (r: usize)
        requires
            self.wf(),
        ensures
            r == prices(self@).len(),
    {
        proof {
            lemma_flat_prices(self.levels@);
            let ps = self.levels@.map_values(|l: PriceLevel| l.price);
            assert forall|i: int, j: int| 0 <= i < ps.len() && 0 <= j < ps.len() && i
                != j implies ps[i] != ps[j] by {
                if i < j {
                    assert(better(self.side, self.levels@[j].price, self.levels@[i].price));
                } else {
                    assert(better(self.side, self.levels@[i].price, self.levels@[j].price));
                }
            }
            ps.unique_seq_to_set();
        }
        self.levels.len()
    }

    /// Rests an order at `px` and tells the size that was resting there before.
    #[verifier::rlimit(60)]
    pub fn rest(&mut self, px: i64, order: RestingOrder) -> (ahead: u64)
        requires
            old(self).wf(),
            order.remaining > 0,
            size_at(old(self)@, px) + order.remaining <= u64::MAX,
        ensures
            final(self).wf(),
            final(self).book_side() == old(self).book_side(),
            final(self)@ == enqueue(
                old(self).book_side(),
                old(self)@,
                (Quote { price: px, order }),
            ),
            ahead == size_at(old(self)@, px),
    {
        let before = self.size_at(px);
        let k = self.rank(px);
        let ghost levels = self.levels@;
        let ghost side = self.side;
        let ghost q = Quote { price: px, order };
        let ghost high = flat(levels.skip(k as int));
        proof {
            assert forall|i: int| 0 <= i < high.len() implies !better(
                side,
                px,
                (#[trigger] high[i]).price,
            ) by {
                let j = lemma_flat_origin(levels.skip(k as int), i);
                assert(levels.skip(k as int)[j] == levels[k + j]);
            }
        }
        if k > 0 && self.levels[k - 1].price == px {
            let ghost queue = levels[k - 1].queue@;
            let ghost low = flat(levels.take(k - 1));
            proof {
                lemma_flat_split(levels, k - 1);
                lemma_size_add(high + quotes(px, queue), low, px);
                lemma_size_add(high, quotes(px, queue), px);
                lemma_size_quotes(px, queue, px);
                assert(levels[k - 1].wf());
                assert forall|i: int| 0 <= i < low.len() implies better(
                    side,
                    px,
                    (#[trigger] low[i]).price,
                ) by {
                    let j = lemma_flat_origin(levels.take(k - 1), i);
                    assert(levels.take(k - 1)[j] == levels[j]);
                    assert(better(side, levels[k - 1].price, levels[j].price));
                }
                lemma_enqueue_behind(side, high + quotes(px, queue), low, q);
                lemma_enqueue_ahead(side, low, q);
            }
            let total = self.levels[k - 1].total_size;
            self.levels[k - 1].queue.push_back(order);
            self.levels[k - 1].total_size = total + order.remaining;
            proof {
                let after = self.levels@[k - 1].queue@;
                assert(after =~= queue + seq![order]);
                lemma_volume_add(queue, seq![order]);
                lemma_volume_one(order);
                lemma_flat_split(self.levels@, k - 1);
                assert(self.levels@.skip(k as int) =~= levels.skip(k as int));
                assert(self.levels@.take(k - 1) =~= levels.take(k - 1));
                assert(quotes(px, after) =~= quotes(px, queue) + seq![q]);
                assert(self@ =~= (high + quotes(px, queue)) + (seq![q] + low));
            }
        } else {
            let ghost low = flat(levels.take(k as int));
            proof {
                assert(levels =~= levels.take(k as int) + levels.skip(k as int));
                lemma_flat_add(levels.take(k as int), levels.skip(k as int));
                assert forall|i: int| 0 <= i < low.len() implies better(
                    side,
                    px,
                    (#[trigger] low[i]).price,
                ) by {
                    let j = lemma_flat_origin(levels.take(k as int), i);
                    assert(levels.take(k as int)[j] == levels[j]);
                    if j < k - 1 {
                        assert(better(side, levels[k - 1].price, levels[j].price));
                    }
                }
                lemma_enqueue_behind(side, high, low, q);
                lemma_enqueue_ahead(side, low, q);
            }
            let mut queue: VecDeque<RestingOrder> = VecDeque::with_capacity(16);
            queue.push_back(order);
            let level = PriceLevel { price: px, total_size: order.remaining, queue };
            self.levels.insert(k, level);
            proof {
                assert(queue@ =~= seq![order]);
                lemma_volume_one(order);
                lemma_flat_split(self.levels@, k as int);
                assert(self.levels@.skip(k + 1) =~= levels.skip(k as int));
                assert(self.levels@.take(k as int) =~= levels.take(k as int));
                assert(quotes(px, seq![order]) =~= seq![q]);
                assert(self@ =~= high + (seq![q] + low));
                lemma_sorted_insert(side, levels, k as int, level);
            }
        }
        proof {
            assert forall|i: int| 0 <= i < self.levels@.len() implies (
            #[trigger] self.levels@[i]).wf() by {
                if i < levels.len() {
                    assert(levels[i].wf());
                }
                if 0 < i {
                    assert(levels[i - 1].wf());
                }
            }
        }
        before
    }

    /// Takes out the first order that rests at `px` under `order_id`.
    #[verifier::rlimit(60)]
    pub fn remove(&mut self, px: i64, order_id: u64)
        requires
            old(self).wf(),
            holds_at(old(self)@, px, order_id),
        ensures
            final(self).wf(),
            final(self).book_side() == old(self).book_side(),
            final(self)@ == old(self)@.remove(find(old(self)@, px, order_id)),
    {
        let k1 = self.rank(px);
        let ghost levels = self.levels@;
        let ghost side = self.side;
        proof {
            let i = choose|i: int|
                0 <= i < self@.len() && (#[trigger] self@[i]).price == px
                    && self@[i].order.order_id == order_id;
            let k = lemma_flat_origin(levels, i);
            assert(k < k1);
            if k < k1 - 1 {
                assert(better(side, levels[k1 - 1].price, levels[k].price));
            }
            assert(k == k1 - 1);
        }
        let k: usize = k1 - 1;
        let ghost queue = levels[k as int].queue@;
        let ghost high = flat(levels.skip(k + 1));
        let ghost low = flat(levels.take(k as int));
        let pos = position(&self.levels[k].queue, order_id);
        proof {
            let i = choose|i: int|
                0 <= i < self@.len() && (#[trigger] self@[i]).price == px
                    && self@[i].order.order_id == order_id;
            let kk = lemma_flat_origin(levels, i);
            if kk < k {
                assert(better(side, levels[k as int].price, levels[kk].price));
            }
            assert(kk == k);
            let w = choose|w: int| 0 <= w < queue.len() && queue[w] == self@[i].order;
            assert(queue[w].order_id == order_id);
            assert(pos < queue.len());
            lemma_flat_split(levels, k as int);
            assert(self@ =~= high + (quotes(px, queue) + low));
            assert forall|i: int| 0 <= i < high.len() implies (#[trigger] high[i]).price
                != px by {
                let j = lemma_flat_origin(levels.skip(k + 1), i);
                assert(levels.skip(k + 1)[j] == levels[k + 1 + j]);
            }
            lemma_find_skip(high, quotes(px, queue) + low, px, order_id);
            lemma_find_in_queue(px, queue, low, order_id, pos as int);
            lemma_volume_remove(queue, pos as int);
        }
        let removed = self.levels[k].queue[pos];
        let total = self.levels[k].total_size;
        if self.levels[k].queue.len() == 1 {
            self.levels.remove(k);
            proof {
                assert(self.levels@ =~= levels.take(k as int) + levels.skip(k + 1));
                lemma_flat_add(levels.take(k as int), levels.skip(k + 1));
                assert(self@ =~= old(self)@.remove(high.len() + pos as int));
                lemma_sorted_remove(side, levels, k as int);
                assert(self.levels@ =~= levels.remove(k as int));
            }
        } else {
            self.levels[k].queue.remove(pos);
            self.levels[k].total_size = total - removed.remaining;
            proof {
                let after = self.levels@[k as int].queue@;
                assert(after =~= queue.remove(pos as int));
                lemma_flat_split(self.levels@, k as int);
                assert(self.levels@.skip(k + 1) =~= levels.skip(k + 1));
                assert(self.levels@.take(k as int) =~= levels.take(k as int));
                assert(self@ =~= high + (quotes(px, after) + low));
                assert(self@ =~= old(self)@.remove(high.len() + pos as int));
            }
        }
        proof {
            assert forall|i: int| 0 <= i < self.levels@.len() implies (
            #[trigger] self.levels@[i]).wf() by {
                assert(levels[i].wf());
                if i + 1 < levels.len() {
                    assert(levels[i + 1].wf());
                }
            }
        }
    }
}

} // verus!
