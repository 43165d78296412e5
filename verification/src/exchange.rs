//! The venue: a seeded synthetic market around the order book, the handling of strategy
//! orders, and what the venue publishes.
//!
//! Because a venue's price is whatever its book says, the venue is also the market-data
//! source. Synthetic participants post and cancel orders around a drifting fair value
//! and keep the book two-sided; the top of that book becomes the tick stream. The fair
//! value itself is a real number and stays with the host, which also turns it into
//! price ticks; every random draw behind it comes from here.

use crate::book_laws::{
    law_books_are_in_price_order, law_last_fill_tells_what_is_left, law_quantity_is_conserved,
    law_rests_at_the_end_of_its_queue, law_trades_name_both_orders, traded,
};
use crate::hot_path::{
    exchanges, symbols, ExecutionReport, MarketTick, OrderBookSnapshot, OrderCommand,
};
use crate::matching::lemma_cancel_valid;
use crate::order_book::{Book, Fill, Outcome, Reject, Side};
use crate::priority::{better, prices, resting_quote, size_at, BookState, Taker};
use vstd::prelude::*;
use vstd::wrapping::u64_specs::{wrapping_add, wrapping_mul};

verus! {

/// Fixed-point units of one whole unit.
pub const UNIT: u64 = 100_000_000;

/// Synthetic order ids have the top bit set, so they never collide with the strategy's,
/// which start at 1 and climb.
pub const SYNTHETIC_BIT: u64 = 0x8000_0000_0000_0000;

/// A draw below this one is below 0.35 of the range of draws.
pub const UP_BELOW: u64 = 0xB_3333_3333_3333;

/// A draw below this one is below 0.70 of the range of draws.
pub const DOWN_BELOW: u64 = 0x16_6666_6666_6666;

/// Half the range of draws.
pub const HALF: u64 = 0x10_0000_0000_0000;

/// A quarter of the range of draws.
pub const QUARTER: u64 = 0x8_0000_0000_0000;

/// The generator's next state.
pub open spec fn stirred(x: u64) -> u64 {
    let a = x ^ (x >> 12);
    let b = a ^ (a << 25);
    b ^ (b >> 27)
}

/// What the generator gives out in state `x`.
pub open spec fn output(x: u64) -> u64 {
    wrapping_mul(x, 0x2545_F491_4F6C_DD1D)
}

/// A tiny deterministic generator, reproducible from a seed.
#[derive(Clone, Copy, PartialEq, Eq, Structural, Debug)]
pub struct Rng {
    pub state: u64,
}

impl Rng {
    /// A generator whose state is not zero.
    pub open spec fn wf(self) -> bool {
        self.state != 0
    }

    pub open spec fn seeded(seed: u64) -> Rng {
        Rng { state: seed | 1 }
    }

    pub open spec fn next(self) -> Rng {
        Rng { state: stirred(self.state) }
    }

    /// The next draw.
    pub open spec fn draw(self) -> u64 {
        output(stirred(self.state))
    }

    /// The next draw as one of 2 to the power of 53 equal steps from 0 to 1.
    pub open spec fn fraction(self) -> u64 {
        self.draw() >> 11
    }

    /// The next draw as an integer below `n`; `n` of zero draws nothing.
    pub open spec fn draw_below(self, n: u64) -> u64 {
        if n == 0 {
            0
        } else {
            self.draw() % n
        }
    }

    pub open spec fn after_below(self, n: u64) -> Rng {
        if n == 0 {
            self
        } else {
            self.next()
        }
    }

    pub fn new(seed: u64) -> (r: Self)
        ensures
            r == Rng::seeded(seed),
            r.wf(),
    {
        assert(seed | 1 != 0) by (bit_vector);
        Rng { state: seed | 1 }
    }

    pub fn next_u64(&mut self) -> (r: u64)
        requires
            old(self).wf(),
        ensures
            final(self).wf(),
            *final(self) == old(self).next(),
            r == old(self).draw(),
    {
        let x: u64 = self.state;
        proof {
            lemma_never_zero(x);
        }
        let a: u64 = x ^ (x >> 12);
        let b: u64 = a ^ (a << 25);
        let c: u64 = b ^ (b >> 27);
        self.state = c;
        c.wrapping_mul(0x2545_F491_4F6C_DD1D)
    }

    /// Uniform over 2 to the power of 53 equal steps; the host divides by their number.
    pub fn unit(&mut self) -> (r: u64)
        requires
            old(self).wf(),
        ensures
            final(self).wf(),
            *final(self) == old(self).next(),
            r == old(self).fraction(),
            r < 0x20_0000_0000_0000,
    {
        let x: u64 = self.next_u64();
        assert(x >> 11 < 0x20_0000_0000_0000) by (bit_vector);
        x >> 11
    }

    /// An integer below `n`.
    pub fn below(&mut self, n: u64) -> (r: u64)
        requires
            old(self).wf(),
        ensures
            final(self).wf(),
            *final(self) == old(self).after_below(n),
            r == old(self).draw_below(n),
            n > 0 ==> r < n,
    {
        if n == 0 {
            0
        } else {
            self.next_u64() % n
        }
    }
}

/// The generator never falls into the state zero, where it would stay.
pub proof fn lemma_never_zero(x: u64)
    requires
        x != 0,
    ensures
        stirred(x) != 0,
{
    let a = x ^ (x >> 12);
    let b = a ^ (a << 25);
    assert(a != 0) by (bit_vector)
        requires
            x != 0,
            a == x ^ (x >> 12),
    ;
    assert(b != 0) by (bit_vector)
        requires
            a != 0,
            b == a ^ (a << 25),
    ;
    assert(b ^ (b >> 27) != 0) by (bit_vector)
        requires
            b != 0,
    ;
}

/// A stretch of the fair value: a trend up or down, whose strength is a draw, or none.
#[derive(Clone, Copy, PartialEq, Eq, Structural, Debug)]
pub enum Regime {
    Up(u64),
    Down(u64),
    Flat,
}

/// The draws behind one step of the fair value: a new regime, if the old one is over,
/// and two draws for a normal shock.
#[derive(Clone, Copy, PartialEq, Eq, Structural, Debug)]
pub struct MarketStep {
    pub regime: Option<Regime>,
    pub u1: u64,
    pub u2: u64,
}

/// The participants as mathematics.
#[verifier::ext_equal]
pub struct Crowd {
    pub rng: Rng,
    pub regime_left: u64,
    pub next_id: u64,
    pub live: Seq<u64>,
}

pub open spec fn regime_for(rng: Rng) -> (Regime, Rng) {
    let roll = rng.fraction();
    let after = rng.next();
    if roll < UP_BELOW {
        (Regime::Up(after.fraction()), after.next())
    } else if roll < DOWN_BELOW {
        (Regime::Down(after.fraction()), after.next())
    } else {
        (Regime::Flat, after)
    }
}

/// The id of the next synthetic order.
pub open spec fn synthetic_id(next_id: u64) -> u64 {
    SYNTHETIC_BIT | next_id
}

/// A synthetic limit order.
pub open spec fn quote(id: u64, side: Side, px: i64) -> Taker {
    Taker {
        order_id: id,
        side,
        is_limit: true,
        limit_px: px,
        origin_ts: 0,
        is_synthetic: true,
    }
}

/// A synthetic market order.
pub open spec fn sweep(id: u64, side: Side) -> Taker {
    Taker { order_id: id, side, is_limit: false, limit_px: 0, origin_ts: 0, is_synthetic: true }
}

/// The ids of `live` that still rest.
pub open spec fn resting_ids(live: Seq<u64>, b: BookState) -> Seq<u64>
    decreases live.len(),
{
    if live.len() == 0 {
        seq![]
    } else if b.located.contains_key(live.last()) {
        resting_ids(live.drop_last(), b).push(live.last())
    } else {
        resting_ids(live.drop_last(), b)
    }
}

impl Crowd {
    /// The participants of a seed.
    pub open spec fn fresh(seed: u64) -> Crowd {
        Crowd { rng: Rng::seeded(seed), regime_left: 0, next_id: 1, live: seq![] }
    }

    /// The draws of one step of the fair value, and the participants after it.
    pub open spec fn stepped(self) -> (MarketStep, Crowd) {
        if self.regime_left == 0 {
            let (regime, r1) = regime_for(self.rng);
            let left = 2_000 + r1.draw_below(6_000);
            let r2 = r1.after_below(6_000);
            (
                MarketStep {
                    regime: Some(regime),
                    u1: r2.fraction(),
                    u2: r2.next().fraction(),
                },
                Crowd { rng: r2.next().next(), regime_left: (left - 1) as u64, ..self },
            )
        } else {
            (
                MarketStep {
                    regime: None,
                    u1: self.rng.fraction(),
                    u2: self.rng.next().fraction(),
                },
                Crowd {
                    rng: self.rng.next().next(),
                    regime_left: (self.regime_left - 1) as u64,
                    ..self
                },
            )
        }
    }

    /// The size of the next bid: 1 to 4 units.
    pub open spec fn bid_size(self) -> u64 {
        ((1 + self.rng.draw_below(4)) * UNIT) as u64
    }

    /// The size of the next ask: 1 to 4 units.
    pub open spec fn ask_size(self) -> u64 {
        ((1 + self.rng.after_below(4).draw_below(4)) * UNIT) as u64
    }

    /// Posts a bid and an ask: the participants, the book and the trades afterwards.
    pub open spec fn quoted(self, b: BookState, bid_px: i64, ask_px: i64) -> (
        Crowd,
        BookState,
        Seq<Fill>,
    ) {
        let bid_id = synthetic_id(self.next_id);
        let ask_id = synthetic_id((self.next_id + 1) as u64);
        let (b1, f1, _) = b.submitted(quote(bid_id, Side::Buy, bid_px), self.bid_size() as nat);
        let (b2, f2, _) = b1.submitted(quote(ask_id, Side::Sell, ask_px), self.ask_size() as nat);
        (
            Crowd {
                rng: self.rng.after_below(4).after_below(4),
                next_id: (self.next_id + 2) as u64,
                live: self.live.push(bid_id).push(ask_id),
                ..self
            },
            b2,
            f1 + f2,
        )
    }

    /// The two quotes fit the levels that they would rest at. A quote is for 4 units at
    /// most.
    pub open spec fn quotes_fit(self, b: BookState, bid_px: i64, ask_px: i64) -> bool {
        let bid = quote(synthetic_id(self.next_id), Side::Buy, bid_px);
        let ask = quote(synthetic_id((self.next_id + 1) as u64), Side::Sell, ask_px);
        ||| size_at(b.bids, bid_px) + 4 * UNIT <= u64::MAX && size_at(b.asks, ask_px) + 4 * UNIT
            <= u64::MAX
        ||| {
            &&& b.fits(bid, self.bid_size() as nat)
            &&& b.submitted(bid, self.bid_size() as nat).0.fits(ask, self.ask_size() as nat)
        }
    }

    /// Cancels a random live order every other time.
    pub open spec fn churned(self, b: BookState) -> (Crowd, BookState) {
        if self.live.len() == 0 {
            (self, b)
        } else if self.rng.fraction() < HALF {
            let r1 = self.rng.next();
            let n = self.live.len() as u64;
            let idx = r1.draw_below(n) as int;
            let id = self.live[idx];
            (
                Crowd {
                    rng: r1.after_below(n),
                    live: self.live.update(idx, self.live.last()).drop_last(),
                    ..self
                },
                b.cancelled(id).0,
            )
        } else {
            (Crowd { rng: self.rng.next(), ..self }, b)
        }
    }

    /// Lets a taker cross the spread every fourth time.
    pub open spec fn swept(self, b: BookState) -> (Crowd, BookState, Seq<Fill>) {
        let r1 = self.rng.next();
        if self.rng.fraction() < QUARTER {
            let size = ((1 + r1.draw_below(3)) * UNIT) as u64;
            let r2 = r1.after_below(3);
            let side = if r2.fraction() < HALF {
                Side::Buy
            } else {
                Side::Sell
            };
            let (b1, fills, _) = b.submitted(
                sweep(synthetic_id(self.next_id), side),
                size as nat,
            );
            (
                Crowd { rng: r2.next(), next_id: (self.next_id + 1) as u64, ..self },
                b1,
                fills,
            )
        } else {
            (Crowd { rng: r1, ..self }, b, seq![])
        }
    }

    /// One round: quotes, churn, a taker, and the live orders that are left.
    pub open spec fn acted(self, b: BookState, bid_px: i64, ask_px: i64) -> (
        Crowd,
        BookState,
        Seq<Fill>,
    ) {
        let (c1, b1, f1) = self.quoted(b, bid_px, ask_px);
        let (c2, b2) = c1.churned(b1);
        let (c3, b3, f3) = c2.swept(b2);
        (Crowd { live: resting_ids(c3.live, b3), ..c3 }, b3, f1 + f3)
    }
}

/// Drives the book's synthetic liquidity. Deterministic given a seed.
pub struct Participants {
    rng: Rng,
    regime_left: u64,
    next_syn_id: u64,
    live: Vec<u64>,
}

impl Participants {
    pub closed spec fn view(&self) -> Crowd {
        Crowd {
            rng: self.rng,
            regime_left: self.regime_left,
            next_id: self.next_syn_id,
            live: self.live@,
        }
    }

    pub closed spec fn wf(&self) -> bool {
        self.rng.wf()
    }

    pub fn new(seed: u64) -> (r: Self)
        ensures
            r.wf(),
            r@ == Crowd::fresh(seed),
    {
        let r = Participants {
            rng: Rng::new(seed),
            regime_left: 0,
            next_syn_id: 1,
            live: Vec::with_capacity(256),
        };
        assert(r@ =~= Crowd::fresh(seed));
        r
    }

    /// The number of the next synthetic order.
    pub fn next_id(&self) -> (r: u64)
        ensures
            r == self@.next_id,
    {
        self.next_syn_id
    }

    fn new_syn_id(&mut self) -> (r: u64)
        requires
            old(self)@.next_id < u64::MAX,
            old(self).wf(),
        ensures
            final(self).wf(),
            r == synthetic_id(old(self)@.next_id),
            final(self)@ == (Crowd { next_id: (old(self)@.next_id + 1) as u64, ..old(self)@ }),
    {
        let ghost before = self@;
        let id: u64 = SYNTHETIC_BIT | self.next_syn_id;
        self.next_syn_id = self.next_syn_id + 1;
        assert(self@ =~= (Crowd { next_id: (before.next_id + 1) as u64, ..before }));
        id
    }

    /// Draws one step of the fair value: a regime-switching random walk.
    pub fn step_fair_value(&mut self) -> (r: MarketStep)
        requires
            old(self).wf(),
        ensures
            final(self).wf(),
            (r, final(self)@) == old(self)@.stepped(),
    {
        let ghost before = self@;
        let regime = if self.regime_left == 0 {
            let roll: u64 = self.rng.unit();
            let regime = if roll < UP_BELOW {
                Regime::Up(self.rng.unit())
            } else if roll < DOWN_BELOW {
                Regime::Down(self.rng.unit())
            } else {
                Regime::Flat
            };
            self.regime_left = 2_000 + self.rng.below(6_000);
            Some(regime)
        } else {
            None
        };
        self.regime_left = self.regime_left - 1;
        let u1: u64 = self.rng.unit();
        let u2: u64 = self.rng.unit();
        assert(self@ =~= before.stepped().1);
        MarketStep { regime, u1, u2 }
    }

    /// Draws how many ticks the next quotes keep from the fair value: 1, 2 or 3.
    pub fn half_spread(&mut self) -> (r: u64)
        requires
            old(self).wf(),
        ensures
            final(self).wf(),
            r == 1 + old(self)@.rng.draw_below(3),
            1 <= r <= 3,
            final(self)@ == (Crowd { rng: old(self)@.rng.after_below(3), ..old(self)@ }),
    {
        let ghost before = self@;
        let r: u64 = 1 + self.rng.below(3);
        assert(self@ =~= (Crowd { rng: before.rng.after_below(3), ..before }));
        r
    }

    fn post_quotes(&mut self, book: &mut Book, bid_px: i64, ask_px: i64, sink: &mut Vec<Fill>)
        requires
            old(self).wf(),
            old(book).wf(),
            old(self)@.next_id <= u64::MAX - 2,
            old(self)@.quotes_fit(old(book)@, bid_px, ask_px),
        ensures
            final(self).wf(),
            final(book).wf(),
            ({
                let (c, b, f) = old(self)@.quoted(old(book)@, bid_px, ask_px);
                &&& final(self)@ == c
                &&& final(book)@ == b
                &&& final(sink)@ == old(sink)@ + f
            }),
    {
        let ghost before = self@;
        let ghost sink0 = sink@;
        let bid_sz: u64 = (1 + self.rng.below(4)) * UNIT;
        let ask_sz: u64 = (1 + self.rng.below(4)) * UNIT;
        assert(bid_sz == before.bid_size() && ask_sz == before.ask_size());
        let bid_id: u64 = self.new_syn_id();
        book.submit(bid_id, Side::Buy, true, bid_px, bid_sz, 0, true, sink);
        self.live.push(bid_id);
        let ghost sink1 = sink@;
        let ask_id: u64 = self.new_syn_id();
        book.submit(ask_id, Side::Sell, true, ask_px, ask_sz, 0, true, sink);
        self.live.push(ask_id);
        proof {
            let (c, b, f) = before.quoted(old(book)@, bid_px, ask_px);
            assert(self@ =~= c);
            assert(sink@ =~= sink0 + f);
        }
    }

    fn churn(&mut self, book: &mut Book)
        requires
            old(self).wf(),
            old(book).wf(),
        ensures
            final(self).wf(),
            final(book).wf(),
            (final(self)@, final(book)@) == old(self)@.churned(old(book)@),
    {
        let ghost before = self@;
        if self.live.len() == 0 {
            return;
        }
        if self.rng.unit() < HALF {
            let n: u64 = self.live.len() as u64;
            let idx: usize = self.rng.below(n) as usize;
            let id: u64 = self.live.swap_remove(idx);
            book.cancel(id);
        }
        assert(self@ =~= before.churned(old(book)@).0);
    }

    fn cross(&mut self, book: &mut Book, sink: &mut Vec<Fill>)
        requires
            old(self).wf(),
            old(book).wf(),
            old(self)@.next_id < u64::MAX,
        ensures
            final(self).wf(),
            final(book).wf(),
            ({
                let (c, b, f) = old(self)@.swept(old(book)@);
                &&& final(self)@ == c
                &&& final(book)@ == b
                &&& final(sink)@ == old(sink)@ + f
            }),
    {
        let ghost before = self@;
        if self.rng.unit() < QUARTER {
            let cross_id: u64 = self.new_syn_id();
            let sz: u64 = (1 + self.rng.below(3)) * UNIT;
            let side = if self.rng.unit() < HALF {
                Side::Buy
            } else {
                Side::Sell
            };
            book.submit(cross_id, side, false, 0, sz, 0, true, sink);
        } else {
            assert(sink@ =~= old(sink)@ + Seq::<Fill>::empty());
        }
        assert(self@ =~= before.swept(old(book)@).0);
    }

    /// Keeps the ids that still rest.
    fn prune(&mut self, book: &Book)
        requires
            old(self).wf(),
            book.wf(),
        ensures
            final(self).wf(),
            final(self)@ == (Crowd {
                live: resting_ids(old(self)@.live, book@),
                ..old(self)@
            }),
    {
        let ghost before = self@;
        let mut kept: Vec<u64> = Vec::with_capacity(256);
        let mut k: usize = 0;
        while k < self.live.len()
            invariant
                self.wf(),
                book.wf(),
                self@ == before,
                k <= self.live@.len(),
                kept@ == resting_ids(before.live.take(k as int), book@),
            decreases self.live@.len() - k,
        {
            assert(before.live.take(k + 1).drop_last() =~= before.live.take(k as int));
            let id: u64 = self.live[k];
            if book.is_resting(id) {
                kept.push(id);
            }
            k = k + 1;
        }
        assert(before.live.take(k as int) =~= before.live);
        self.live = kept;
        assert(self@ =~= (Crowd { live: resting_ids(before.live, book@), ..before }));
    }

    /// Runs one round of participant activity against the book: a fresh two-sided quote at
    /// the given prices, now and then a cancel of an older synthetic order, now and then
    /// a synthetic taker that crosses the spread. The trades go to `sink`. The top of the
    /// book may have changed after every round.
    pub fn act(
        &mut self,
        book: &mut Book,
        bid_px: i64,
        ask_px: i64,
        sink: &mut Vec<Fill>,
    ) -> (changed: bool)
        requires
            old(self).wf(),
            old(book).wf(),
            old(self)@.next_id <= u64::MAX - 3,
            old(self)@.quotes_fit(old(book)@, bid_px, ask_px),
        ensures
            changed,
            final(self).wf(),
            final(book).wf(),
            ({
                let (c, b, f) = old(self)@.acted(old(book)@, bid_px, ask_px);
                &&& final(self)@ == c
                &&& final(book)@ == b
                &&& final(sink)@ == old(sink)@ + f
            }),
    {
        let ghost sink0 = sink@;
        self.post_quotes(book, bid_px, ask_px, sink);
        let ghost f1 = old(self)@.quoted(old(book)@, bid_px, ask_px).2;
        self.churn(book);
        let ghost c2 = self@;
        let ghost b2 = book@;
        self.cross(book, sink);
        let ghost f3 = c2.swept(b2).2;
        assert(sink@ =~= sink0 + (f1 + f3));
        self.prune(book);
        true
    }
}

proof fn lemma_resting_ids(live: Seq<u64>, b: BookState)
    ensures
        forall|i: int|
            0 <= i < resting_ids(live, b).len() ==> b.located.contains_key(
                #[trigger] resting_ids(live, b)[i],
            ) && live.contains(resting_ids(live, b)[i]),
    decreases live.len(),
{
    if live.len() > 0 {
        let front = live.drop_last();
        lemma_resting_ids(front, b);
        let all = resting_ids(live, b);
        let rest = resting_ids(front, b);
        assert forall|i: int| 0 <= i < all.len() implies b.located.contains_key(#[trigger] all[i])
            && live.contains(all[i]) by {
            if i < rest.len() {
                assert(all[i] == rest[i]);
                let j = front.index_of(rest[i]);
                assert(live[j] == rest[i]);
            } else {
                assert(live[live.len() - 1] == all[i]);
            }
        }
    }
}

/// After a round every order that the participants remember still rests, so what they
/// remember does not outgrow the book.
pub proof fn law_live_orders_rest(c: Crowd, b: BookState, bid_px: i64, ask_px: i64)
    ensures
        ({
            let (after, book, _) = c.acted(b, bid_px, ask_px);
            forall|i: int|
                0 <= i < after.live.len() ==> book.located.contains_key(#[trigger] after.live[i])
        }),
{
    let (c1, b1, f1) = c.quoted(b, bid_px, ask_px);
    let (c2, b2) = c1.churned(b1);
    let (c3, b3, f3) = c2.swept(b2);
    lemma_resting_ids(c3.live, b3);
}

/// Synthetic ids never collide with each other or with an id below the top bit.
pub proof fn law_synthetic_ids_are_apart(n: u64, m: u64)
    requires
        n < SYNTHETIC_BIT,
        m < SYNTHETIC_BIT,
    ensures
        synthetic_id(n) >= SYNTHETIC_BIT,
        synthetic_id(n) == synthetic_id(m) ==> n == m,
{
    assert(0x8000_0000_0000_0000u64 | n >= 0x8000_0000_0000_0000u64) by (bit_vector);
    assert((0x8000_0000_0000_0000u64 | n) == (0x8000_0000_0000_0000u64 | m) ==> n == m)
        by (bit_vector)
        requires
            n < 0x8000_0000_0000_0000u64,
            m < 0x8000_0000_0000_0000u64,
    ;
}

/// The order that a command asks for.
pub open spec fn strategy_order(cmd: OrderCommand) -> Taker {
    Taker {
        order_id: cmd.order_id,
        side: if cmd.side == 0 {
            Side::Buy
        } else {
            Side::Sell
        },
        is_limit: cmd.order_type == 1,
        limit_px: cmd.price_ticks,
        origin_ts: cmd.origin_ts,
        is_synthetic: false,
    }
}

/// The book that a command's order meets: a modify first cancels what it replaces.
pub open spec fn before_order(b: BookState, cmd: OrderCommand) -> BookState {
    if cmd.action == 2 {
        b.cancelled(cmd.order_id).0
    } else {
        b
    }
}

/// The book after a command, the trades that it made and what became of its order.
pub open spec fn commanded(b: BookState, cmd: OrderCommand) -> (BookState, Seq<Fill>, Outcome) {
    if cmd.action == 1 {
        let (after, outcome) = b.cancelled(cmd.order_id);
        (after, seq![], outcome)
    } else {
        before_order(b, cmd).submitted(strategy_order(cmd), cmd.quantity as nat)
    }
}

/// The order that a command asks for.
pub fn order_of(cmd: &OrderCommand) -> (r: Taker)
    ensures
        r == strategy_order(*cmd),
{
    Taker {
        order_id: cmd.order_id,
        side: Side::from_u8(cmd.side),
        is_limit: cmd.order_type == 1,
        limit_px: cmd.price_ticks,
        origin_ts: cmd.origin_ts,
        is_synthetic: false,
    }
}

/// Matches one strategy command against the book: 1 cancels, 2 cancels and replaces,
/// anything else is a new order. The trades are pushed onto `fills`; the return value
/// describes what became of the order that was cancelled, or of what did not trade of the
/// new one.
pub fn match_strategy_order(
    book: &mut Book,
    cmd: &OrderCommand,
    fills: &mut Vec<Fill>,
) -> (outcome: Outcome)
    requires
        old(book).wf(),
        cmd.action != 1 ==> before_order(old(book)@, *cmd).fits(
            strategy_order(*cmd),
            cmd.quantity as nat,
        ),
    ensures
        final(book).wf(),
        final(book)@ == commanded(old(book)@, *cmd).0,
        final(fills)@ == old(fills)@ + commanded(old(book)@, *cmd).1,
        outcome == commanded(old(book)@, *cmd).2,
{
    if cmd.action == 1 {
        assert(fills@ =~= old(fills)@ + Seq::<Fill>::empty());
        return book.cancel(cmd.order_id);
    }
    if cmd.action == 2 {
        book.cancel(cmd.order_id);
    }
    let t = order_of(cmd);
    book.submit(
        t.order_id,
        t.side,
        t.is_limit,
        t.limit_px,
        cmd.quantity,
        t.origin_ts,
        t.is_synthetic,
        fills,
    )
}

/// Every command is a cancel, a cancel and an order, or an order alone, and does to the
/// book what these do.
pub proof fn law_commands_are_cancels_and_orders(b: BookState, cmd: OrderCommand)
    ensures
        ({
            let (cancelled, outcome) = b.cancelled(cmd.order_id);
            let t = strategy_order(cmd);
            let qty = cmd.quantity as nat;
            commanded(b, cmd) == if cmd.action == 1 {
                (cancelled, Seq::<Fill>::empty(), outcome)
            } else if cmd.action == 2 {
                cancelled.submitted(t, qty)
            } else {
                b.submitted(t, qty)
            }
        }),
{
}

/// A modified order that rests loses its place: it joins the end of the queue at its new
/// price, even where that is the old one. Everything ahead of it is at least as good, and
/// everything behind it is worse.
pub proof fn law_modified_orders_go_to_the_back(b: BookState, cmd: OrderCommand) -> (p: int)
    requires
        b.valid(),
        cmd.action == 2,
        before_order(b, cmd).fits(strategy_order(cmd), cmd.quantity as nat),
        commanded(b, cmd).2 is Rested,
    ensures
        ({
            let t = strategy_order(cmd);
            let own = b.cancelled(cmd.order_id).0.on(t.side);
            let (after, fills, _) = commanded(b, cmd);
            let q = resting_quote(t, (cmd.quantity - traded(fills)) as nat);
            &&& 0 <= p <= own.len()
            &&& after.on(t.side) == own.insert(p, q)
            &&& after.located[cmd.order_id] == (t.side, t.limit_px)
            &&& forall|i: int|
                0 <= i < p ==> !better(t.side, t.limit_px, (#[trigger] own[i]).price)
            &&& forall|i: int|
                p <= i < own.len() ==> better(t.side, t.limit_px, (#[trigger] own[i]).price)
        }),
{
    lemma_cancel_valid(b, cmd.order_id);
    law_rests_at_the_end_of_its_queue(
        before_order(b, cmd),
        strategy_order(cmd),
        cmd.quantity as nat,
    )
}

/// A modify is a cancel followed by a new order.
pub proof fn law_modify_is_cancel_and_new(b: BookState, cmd: OrderCommand)
    requires
        cmd.action == 2,
    ensures
        ({
            let cancel = OrderCommand { action: 1, ..cmd };
            let new = OrderCommand { action: 0, ..cmd };
            let (mid, none, _) = commanded(b, cancel);
            commanded(b, cmd) == commanded(mid, new) && none.len() == 0
        }),
{
}

/// The report to the strategy for a trade in which it was the taker.
pub open spec fn taker_report_of(f: Fill, timestamp_ns: u64, commission: i64) -> ExecutionReport {
    ExecutionReport {
        timestamp_ns,
        order_id: f.taker_order_id,
        exchange_order_id: f.taker_order_id,
        executed_price: f.price_ticks,
        executed_quantity: f.quantity,
        remaining_quantity: f.taker_remaining_after,
        commission,
        status: if f.taker_remaining_after == 0 {
            2
        } else {
            1
        },
        reject_reason: 0,
    }
}

/// The report to the strategy for a trade in which it was the maker.
pub open spec fn maker_report_of(f: Fill, timestamp_ns: u64, commission: i64) -> ExecutionReport {
    ExecutionReport {
        timestamp_ns,
        order_id: f.maker_order_id,
        exchange_order_id: f.maker_order_id,
        executed_price: f.price_ticks,
        executed_quantity: f.quantity,
        remaining_quantity: f.maker_remaining_after,
        commission,
        status: if f.maker_remaining_after == 0 {
            2
        } else {
            1
        },
        reject_reason: 0,
    }
}

/// What a command's trades leave of its quantity: what the last of them says, or all of it.
pub open spec fn left_after(cmd: OrderCommand, fills: Seq<Fill>) -> u64 {
    if fills.len() == 0 {
        cmd.quantity
    } else {
        fills.last().taker_remaining_after
    }
}

/// The report to the strategy for an order of which `left` was rejected: nothing trades
/// any more, and the reason says why.
pub open spec fn reject_report_of(
    cmd: OrderCommand,
    left: u64,
    reason: Reject,
    timestamp_ns: u64,
) -> ExecutionReport {
    ExecutionReport {
        timestamp_ns,
        order_id: cmd.order_id,
        exchange_order_id: cmd.order_id,
        executed_price: 0,
        executed_quantity: 0,
        remaining_quantity: left,
        commission: 0,
        status: 3,
        reject_reason: reason.number(),
    }
}

/// The report for a strategy order that did not, or not fully, execute and cannot rest.
/// `fills` are the trades of the command, `outcome` what became of it; any other outcome
/// gets none.
pub fn reject_report(
    cmd: &OrderCommand,
    fills: &[Fill],
    outcome: Outcome,
    timestamp_ns: u64,
) -> (r: Option<ExecutionReport>)
    ensures
        r == match outcome {
            Outcome::Rejected(reason) => Some(
                reject_report_of(*cmd, left_after(*cmd, fills@), reason, timestamp_ns),
            ),
            _ => None::<ExecutionReport>,
        },
{
    let reason = match outcome {
        Outcome::Rejected(reason) => reason,
        _ => {
            return None;
        },
    };
    let left: u64 = if fills.len() == 0 {
        cmd.quantity
    } else {
        fills[fills.len() - 1].taker_remaining_after
    };
    Some(
        ExecutionReport {
            timestamp_ns,
            order_id: cmd.order_id,
            exchange_order_id: cmd.order_id,
            executed_price: 0,
            executed_quantity: 0,
            remaining_quantity: left,
            commission: 0,
            status: 3,
            reject_reason: reason.code(),
        },
    )
}

/// A rejected order is reported with exactly what did not trade of it, which is more than
/// nothing, and only a market order is rejected.
pub proof fn law_rejects_report_what_is_left(b: BookState, cmd: OrderCommand)
    requires
        b.valid(),
        commanded(b, cmd).2 is Rejected,
    ensures
        ({
            let fills = commanded(b, cmd).1;
            &&& left_after(cmd, fills) == cmd.quantity - traded(fills)
            &&& left_after(cmd, fills) > 0
            &&& cmd.action != 1 && cmd.order_type != 1
        }),
{
    let met = before_order(b, cmd);
    lemma_cancel_valid(b, cmd.order_id);
    law_quantity_is_conserved(met, strategy_order(cmd), cmd.quantity as nat);
    law_last_fill_tells_what_is_left(met, strategy_order(cmd), cmd.quantity as nat);
}

/// The report for a trade of a strategy order that crossed the spread: filled where
/// nothing is left of it, else partial. Synthetic takers get none.
pub fn taker_report(f: &Fill, timestamp_ns: u64, commission: i64) -> (r: Option<ExecutionReport>)
    ensures
        r == if f.taker_is_synthetic {
            None::<ExecutionReport>
        } else {
            Some(taker_report_of(*f, timestamp_ns, commission))
        },
{
    if f.taker_is_synthetic {
        return None;
    }
    let status: u8 = if f.taker_remaining_after == 0 {
        2
    } else {
        1
    };
    Some(
        ExecutionReport {
            timestamp_ns,
            order_id: f.taker_order_id,
            exchange_order_id: f.taker_order_id,
            executed_price: f.price_ticks,
            executed_quantity: f.quantity,
            remaining_quantity: f.taker_remaining_after,
            commission,
            status,
            reject_reason: 0,
        },
    )
}

/// The report for a trade that hit a resting strategy order: filled where nothing is left of
/// it, else partial. Synthetic makers get none.
pub fn maker_report(f: &Fill, timestamp_ns: u64, commission: i64) -> (r: Option<ExecutionReport>)
    ensures
        r == if f.maker_is_synthetic {
            None::<ExecutionReport>
        } else {
            Some(maker_report_of(*f, timestamp_ns, commission))
        },
{
    if f.maker_is_synthetic {
        return None;
    }
    let status: u8 = if f.maker_remaining_after == 0 {
        2
    } else {
        1
    };
    Some(
        ExecutionReport {
            timestamp_ns,
            order_id: f.maker_order_id,
            exchange_order_id: f.maker_order_id,
            executed_price: f.price_ticks,
            executed_quantity: f.quantity,
            remaining_quantity: f.maker_remaining_after,
            commission,
            status,
            reject_reason: 0,
        },
    )
}

/// The best bid of a book, or 0.
pub open spec fn bid_of(b: BookState) -> i64 {
    if b.bids.len() == 0 {
        0
    } else {
        b.bids[0].price
    }
}

/// The best ask of a book, or 0.
pub open spec fn ask_of(b: BookState) -> i64 {
    if b.asks.len() == 0 {
        0
    } else {
        b.asks[0].price
    }
}

/// The price between bid and ask; where one of them is missing, the other.
pub open spec fn mid_of(bid: i64, ask: i64) -> int {
    if bid > 0 && ask > 0 {
        (bid + ask) / 2
    } else if bid >= ask {
        bid as int
    } else {
        ask as int
    }
}

/// What the venue last published of the top of its book.
#[derive(Clone, Copy, PartialEq, Eq, Structural, Debug)]
pub struct TopOfBook {
    pub last_bid: i64,
    pub last_ask: i64,
    pub seq: u64,
}

/// The tick for the top of a book.
pub open spec fn tick_of(b: BookState, timestamp_ns: u64, sequence: u64) -> MarketTick {
    MarketTick {
        timestamp_ns,
        symbol_id: symbols::BTC_USDT,
        exchange_id: exchanges::BINANCE,
        tick_type: 0,
        price: mid_of(bid_of(b), ask_of(b)) as i64,
        quantity: UNIT,
        bid: bid_of(b),
        ask: ask_of(b),
        volume_24h: 0,
        sequence,
    }
}

/// The snapshot for the top of a book.
pub open spec fn snapshot_of(b: BookState, timestamp_ns: u64) -> OrderBookSnapshot {
    let levels = prices(b.bids).len();
    OrderBookSnapshot {
        timestamp_ns,
        symbol_id: symbols::BTC_USDT,
        exchange_id: exchanges::BINANCE,
        depth: if levels < 255 {
            levels as u8
        } else {
            255
        },
        best_bid: bid_of(b),
        best_ask: ask_of(b),
        bid_size: size_at(b.bids, bid_of(b)) as u64,
        ask_size: size_at(b.asks, ask_of(b)) as u64,
        mid_price: mid_of(bid_of(b), ask_of(b)) as i64,
        spread: if ask_of(b) > bid_of(b) {
            (ask_of(b) - bid_of(b)) as i64
        } else {
            0
        },
    }
}

impl TopOfBook {
    pub fn new() -> (r: Self)
        ensures
            r == (TopOfBook { last_bid: 0, last_ask: 0, seq: 0 }),
    {
        TopOfBook { last_bid: 0, last_ask: 0, seq: 0 }
    }

    /// What to publish now: a tick and a snapshot if the best bid or ask moved since the
    /// last time, nothing otherwise.
    pub fn publish(&mut self, book: &Book, timestamp_ns: u64) -> (r: Option<
        (MarketTick, OrderBookSnapshot),
    >)
        requires
            book.wf(),
            bid_of(book@) != old(self).last_bid || ask_of(book@) != old(self).last_ask ==> {
                &&& old(self).seq < u64::MAX
                &&& bid_of(book@) > 0 && ask_of(book@) > 0 ==> bid_of(book@) + ask_of(book@)
                    <= i64::MAX
                &&& i64::MIN <= ask_of(book@) - bid_of(book@) <= i64::MAX
            },
        ensures
            if bid_of(book@) != old(self).last_bid || ask_of(book@) != old(self).last_ask {
                &&& final(self).last_bid == bid_of(book@)
                &&& final(self).last_ask == ask_of(book@)
                &&& final(self).seq == old(self).seq + 1
                &&& r == Some(
                    (
                        tick_of(book@, timestamp_ns, final(self).seq),
                        snapshot_of(book@, timestamp_ns),
                    ),
                )
            } else {
                r is None && *final(self) == *old(self)
            },
    {
        let bid: i64 = match book.best_bid() {
            Some(p) => p,
            None => 0,
        };
        let ask: i64 = match book.best_ask() {
            Some(p) => p,
            None => 0,
        };
        if bid == self.last_bid && ask == self.last_ask {
            return None;
        }
        self.seq = self.seq + 1;
        let mid: i64 = if bid > 0 && ask > 0 {
            (bid + ask) / 2
        } else if bid >= ask {
            bid
        } else {
            ask
        };
        let tick = MarketTick {
            timestamp_ns,
            symbol_id: symbols::BTC_USDT,
            exchange_id: exchanges::BINANCE,
            tick_type: 0,
            price: mid,
            quantity: UNIT,
            bid,
            ask,
            volume_24h: 0,
            sequence: self.seq,
        };
        let levels: usize = book.bid_level_count();
        let gap: i64 = ask - bid;
        let snap = OrderBookSnapshot {
            timestamp_ns,
            symbol_id: symbols::BTC_USDT,
            exchange_id: exchanges::BINANCE,
            depth: if levels < 255 {
                levels as u8
            } else {
                255
            },
            best_bid: bid,
            best_ask: ask,
            bid_size: book.size_at(Side::Buy, bid),
            ask_size: book.size_at(Side::Sell, ask),
            mid_price: mid,
            spread: if gap > 0 {
                gap
            } else {
                0
            },
        };
        self.last_bid = bid;
        self.last_ask = ask;
        Some((tick, snap))
    }
}

/// The mid price of a two-sided book at positive prices lies between its best bid and its
/// best ask, and its spread is positive.
pub proof fn law_mid_lies_inside(b: BookState, timestamp_ns: u64)
    requires
        b.valid(),
        b.bids.len() > 0,
        b.asks.len() > 0,
        b.bids[0].price > 0,
        b.asks[0].price > 0,
        b.bids[0].price + b.asks[0].price <= i64::MAX,
    ensures
        ({
            let s = snapshot_of(b, timestamp_ns);
            s.best_bid <= s.mid_price < s.best_ask && s.spread > 0
        }),
{
    assert(b.bids[0].price < b.asks[0].price);
}

/// What the venue does when it has handled the pending orders.
#[derive(Clone, Copy, PartialEq, Eq, Structural, Debug)]
pub enum Pace {
    /// Run a round of the participants.
    Round,
    /// Go on at once: an order came in.
    GoOn,
    /// Block until an order is signalled, for so many nanoseconds at most.
    Block(u64),
    /// Spin.
    Spin,
}

/// A round is due when its period is over; a period of zero is always over. With no order
/// and no round due, the venue blocks up to the next round, or spins.
pub open spec fn paced(
    period_ns: u64,
    elapsed_ns: u64,
    got_order: bool,
    blocking: bool,
) -> Pace {
    if period_ns == 0 || elapsed_ns >= period_ns {
        Pace::Round
    } else if got_order {
        Pace::GoOn
    } else if blocking {
        Pace::Block((period_ns - elapsed_ns) as u64)
    } else {
        Pace::Spin
    }
}

/// What the venue does next, from the period of the rounds and the time since the last.
pub fn pace(period_ns: u64, elapsed_ns: u64, got_order: bool, blocking: bool) -> (r: Pace)
    ensures
        r == paced(period_ns, elapsed_ns, got_order, blocking),
{
    if period_ns == 0 || elapsed_ns >= period_ns {
        Pace::Round
    } else if got_order {
        Pace::GoOn
    } else if blocking {
        Pace::Block(period_ns - elapsed_ns)
    } else {
        Pace::Spin
    }
}

/// How a command is read: a side byte of 0 buys and any other sells, order type 1 is a limit
/// order and any other a market order; the rest of the order is as the command says.
pub proof fn law_commands_are_read_field_by_field(cmd: OrderCommand)
    ensures
        ({
            let t = strategy_order(cmd);
            &&& t.side is Buy <==> cmd.side == 0
            &&& t.side is Sell <==> cmd.side != 0
            &&& t.is_limit <==> cmd.order_type == 1
            &&& t.limit_px == cmd.price_ticks
            &&& t.order_id == cmd.order_id
            &&& t.origin_ts == cmd.origin_ts
            &&& !t.is_synthetic
        }),
{
}

/// A report of a trade says what was traded: to the incoming order under its own id and to
/// the resting one under its own, both at the price and for the quantity of the trade, and
/// each with what is left of that order. An order is filled where nothing is left, else it
/// is partially filled.
pub proof fn law_reports_say_what_was_traded(f: Fill, timestamp_ns: u64, commission: i64)
    ensures
        ({
            let t = taker_report_of(f, timestamp_ns, commission);
            let m = maker_report_of(f, timestamp_ns, commission);
            &&& t.order_id == f.taker_order_id && t.exchange_order_id == f.taker_order_id
            &&& m.order_id == f.maker_order_id && m.exchange_order_id == f.maker_order_id
            &&& t.executed_price == f.price_ticks && m.executed_price == f.price_ticks
            &&& t.executed_quantity == f.quantity && m.executed_quantity == f.quantity
            &&& t.remaining_quantity == f.taker_remaining_after
            &&& m.remaining_quantity == f.maker_remaining_after
            &&& t.status == 2 <==> f.taker_remaining_after == 0
            &&& t.status == 1 <==> f.taker_remaining_after > 0
            &&& m.status == 2 <==> f.maker_remaining_after == 0
            &&& m.status == 1 <==> f.maker_remaining_after > 0
            &&& t.commission == commission && m.commission == commission
            &&& t.timestamp_ns == timestamp_ns && m.timestamp_ns == timestamp_ns
            &&& t.reject_reason == 0 && m.reject_reason == 0
        }),
{
}

/// A rejection executes nothing. It closes its order, under its id, with the quantity that
/// is left and the reason for it: that there was nothing more to trade with.
pub proof fn law_rejections_execute_nothing(cmd: OrderCommand, left: u64, timestamp_ns: u64)
    ensures
        ({
            let r = reject_report_of(cmd, left, Reject::NoLiquidity, timestamp_ns);
            &&& r.order_id == cmd.order_id && r.exchange_order_id == cmd.order_id
            &&& r.executed_quantity == 0 && r.executed_price == 0 && r.commission == 0
            &&& r.remaining_quantity == left
            &&& r.status == 3
            &&& r.reject_reason == 2
            &&& r.timestamp_ns == timestamp_ns
        }),
{
}

/// The reports of an order that crossed add up: after each, what the reports so far executed
/// and what the report says is left make up the quantity of the order.
pub proof fn law_taker_reports_add_up(b: BookState, cmd: OrderCommand, i: int)
    requires
        b.valid(),
        0 <= i < commanded(b, cmd).1.len(),
    ensures
        ({
            let fills = commanded(b, cmd).1;
            let r = taker_report_of(fills[i], 0, 0);
            &&& r.order_id == cmd.order_id
            &&& traded(fills.take(i + 1)) + r.remaining_quantity == cmd.quantity
            &&& fills[i].taker_origin_ts == cmd.origin_ts
            &&& !fills[i].taker_is_synthetic
        }),
{
    lemma_cancel_valid(b, cmd.order_id);
    law_trades_name_both_orders(before_order(b, cmd), strategy_order(cmd), cmd.quantity as nat, i);
}

/// The generator is linear: its step commutes with exclusive or, and what it gives out with
/// addition. It starts at the odd number of the two that share all but the lowest bit with
/// the seed.
pub proof fn law_the_generator_is_linear(x: u64, y: u64, seed: u64)
    ensures
        stirred(x ^ y) == stirred(x) ^ stirred(y),
        stirred(0) == 0,
        output(wrapping_add(x, y)) == wrapping_add(output(x), output(y)),
        output(1) == 0x2545_F491_4F6C_DD1D,
        Rng::seeded(seed).state == if seed % 2 == 1 {
            seed
        } else {
            (seed + 1) as u64
        },
{
    assert({
        let z = x ^ y;
        let a = z ^ (z >> 12);
        let b = a ^ (a << 25);
        let ax = x ^ (x >> 12);
        let bx = ax ^ (ax << 25);
        let ay = y ^ (y >> 12);
        let by = ay ^ (ay << 25);
        b ^ (b >> 27) == (bx ^ (bx >> 27)) ^ (by ^ (by >> 27))
    }) by (bit_vector);
    assert({
        let a = 0u64 ^ (0u64 >> 12);
        let b = a ^ (a << 25);
        b ^ (b >> 27) == 0
    }) by (bit_vector);
    lemma_output_adds(x, y);
    assert(seed | 1 == if seed % 2 == 1 {
        seed
    } else {
        (seed + 1) as u64
    }) by (bit_vector);
}

proof fn lemma_output_adds(x: u64, y: u64)
    ensures
        output(wrapping_add(x, y)) == wrapping_add(output(x), output(y)),
{
    let k = 0x2545_F491_4F6C_DD1Dint;
    let n = 0x1_0000_0000_0000_0000int;
    let sum = (x + y) % n;
    assert(wrapping_add(x, y) == sum);
    assert(output(x) == (x * k) % n && output(y) == (y * k) % n);
    assert(output(wrapping_add(x, y)) == (sum * k) % n);
    vstd::arithmetic::div_mod::lemma_mul_mod_noop(x + y, k, n);
    vstd::arithmetic::div_mod::lemma_mul_mod_noop(sum, k, n);
    vstd::arithmetic::div_mod::lemma_mod_twice(x + y, n);
    vstd::arithmetic::mul::lemma_mul_is_distributive_add_other_way(k, x as int, y as int);
    vstd::arithmetic::div_mod::lemma_add_mod_noop(x * k, y * k, n);
    assert(wrapping_add(output(x), output(y)) == (output(x) + output(y)) % n);
}

/// A draw is cut down without bias of its own: to a fraction by its upper 53 bits, and to a
/// range by its remainder.
pub proof fn law_draws_are_cut_down(r: Rng, n: u64)
    requires
        n > 0,
    ensures
        r.fraction() * 2048 <= r.draw() < (r.fraction() + 1) * 2048,
        r.draw_below(n) < n,
        (r.draw() - r.draw_below(n)) % (n as int) == 0,
        r.draw() == output(r.next().state),
        r.after_below(n) == r.next(),
        r.after_below(0) == r,
        r.draw_below(0) == 0,
{
    let x = r.draw();
    assert((x >> 11) * 2048 <= x && x < ((x >> 11) + 1) * 2048) by (bit_vector);
    vstd::arithmetic::div_mod::lemma_fundamental_div_mod(x as int, n as int);
    vstd::arithmetic::div_mod::lemma_mod_multiples_basic(x as int / n as int, n as int);
    vstd::arithmetic::mul::lemma_mul_is_commutative(x as int / n as int, n as int);
}

/// A regime is drawn exactly when the old one is over. Of all rolls the lowest 35 in 100
/// give a rise, the next 35 a fall and the others neither. A new regime lasts from 2000 to
/// 7999 steps, and every step uses one of them up. The normal shock takes two more draws,
/// one after the other.
pub proof fn law_regimes_are_drawn_when_due(c: Crowd)
    ensures
        ({
            let (step, after) = c.stepped();
            let roll = c.rng.fraction();
            let all = 0x20_0000_0000_0000int;
            &&& step.regime is Some <==> c.regime_left == 0
            &&& c.regime_left > 0 ==> after.regime_left == c.regime_left - 1
            &&& c.regime_left == 0 ==> 2_000 <= after.regime_left + 1 < 8_000
            &&& c.regime_left == 0 && 100_000 * roll <= 34_999 * all ==> step.regime->0 is Up
            &&& c.regime_left == 0 && 35_001 * all <= 100_000 * roll <= 69_999 * all
                ==> step.regime->0 is Down
            &&& c.regime_left == 0 && 70_001 * all <= 100_000 * roll ==> step.regime->0 is Flat
            &&& c.regime_left == 0 ==> (step.regime->0 is Up <==> roll < 0xB_3333_3333_3333)
            &&& c.regime_left == 0 ==> (step.regime->0 is Flat <==> roll
                >= 0x16_6666_6666_6666)
            &&& c.regime_left == 0 ==> {
                let r = if step.regime->0 is Flat {
                    c.rng.next()
                } else {
                    c.rng.next().next()
                };
                &&& after.regime_left == 1_999 + r.draw() % 6_000
                &&& step.u1 == r.next().fraction()
                &&& step.u2 == r.next().next().fraction()
                &&& after.rng == r.next().next().next()
            }
            &&& step.regime == Some(Regime::Up(c.rng.next().fraction())) <==> step.regime is Some
                && step.regime->0 is Up
            &&& step.regime == Some(Regime::Down(c.rng.next().fraction()))
                <==> step.regime is Some && step.regime->0 is Down
            &&& after.next_id == c.next_id
            &&& after.live == c.live
            &&& c.regime_left > 0 ==> step.u1 == c.rng.fraction() && step.u2
                == c.rng.next().fraction() && after.rng == c.rng.next().next()
        }),
{
}

/// The size of a synthetic order: a whole number of units, from one up.
pub open spec fn whole_units(size: int, most: int) -> bool {
    size % 100_000_000 == 0 && 100_000_000 <= size <= most * 100_000_000
}

/// A round first posts a bid at the one price and an ask at the other, both new synthetic
/// limit orders of 1 to 4 whole units, and remembers them.
pub proof fn law_rounds_quote_both_sides(c: Crowd, b: BookState, bid_px: i64, ask_px: i64)
    requires
        c.next_id <= u64::MAX - 2,
    ensures
        ({
            let (after, book, fills) = c.quoted(b, bid_px, ask_px);
            let bid = Taker {
                order_id: synthetic_id(c.next_id),
                side: Side::Buy,
                is_limit: true,
                limit_px: bid_px,
                origin_ts: 0,
                is_synthetic: true,
            };
            let ask = Taker {
                order_id: synthetic_id((c.next_id + 1) as u64),
                side: Side::Sell,
                limit_px: ask_px,
                ..bid
            };
            let first = b.submitted(bid, c.bid_size() as nat);
            let second = first.0.submitted(ask, c.ask_size() as nat);
            &&& whole_units(c.bid_size() as int, 4) && whole_units(c.ask_size() as int, 4)
            &&& book == second.0
            &&& fills == first.1 + second.1
            &&& after.live == c.live.push(bid.order_id).push(ask.order_id)
            &&& after.next_id == c.next_id + 2
            &&& after.regime_left == c.regime_left
        }),
{
}

/// Then, half of the time, it cancels one of the orders that it remembers and forgets it. No
/// other order is touched, and none where there is none to cancel.
pub proof fn law_churn_cancels_one_live_order(c: Crowd, b: BookState) -> (i: int)
    requires
        c.live.len() <= u64::MAX,
    ensures
        ({
            let (after, book) = c.churned(b);
            let cancels = c.live.len() > 0 && c.rng.fraction() < 0x10_0000_0000_0000;
            &&& !cancels ==> book == b && after.live == c.live
            &&& cancels ==> 0 <= i < c.live.len() && book == b.cancelled(c.live[i]).0
            &&& cancels ==> after.live.len() == c.live.len() - 1 && forall|k: int|
                0 <= k < after.live.len() ==> #[trigger] after.live[k] == if k == i {
                    c.live[c.live.len() - 1]
                } else {
                    c.live[k]
                }
            &&& after.next_id == c.next_id
            &&& after.regime_left == c.regime_left
        }),
{
    c.rng.next().draw_below(c.live.len() as u64) as int
}

/// Then, a quarter of the time, a synthetic taker of 1 to 3 whole units crosses the spread
/// on one side or the other, half of the time each.
pub proof fn law_takers_cross_the_spread(c: Crowd, b: BookState) -> (size: nat)
    requires
        c.next_id < u64::MAX,
    ensures
        ({
            let (after, book, fills) = c.swept(b);
            let crosses = c.rng.fraction() < 0x8_0000_0000_0000;
            let taker = |side: Side|
                Taker {
                    order_id: synthetic_id(c.next_id),
                    side,
                    is_limit: false,
                    limit_px: 0,
                    origin_ts: 0,
                    is_synthetic: true,
                };
            let buys = c.rng.next().next().fraction() < 0x10_0000_0000_0000;
            let done = b.submitted(
                taker(
                    if buys {
                        Side::Buy
                    } else {
                        Side::Sell
                    },
                ),
                size,
            );
            &&& !crosses ==> book == b && fills.len() == 0 && after.next_id == c.next_id
            &&& crosses ==> whole_units(size as int, 3) && book == done.0 && fills == done.1
                && after.next_id == c.next_id + 1
            &&& after.live == c.live
            &&& after.regime_left == c.regime_left
        }),
{
    ((1 + c.rng.next().draw_below(3)) * UNIT) as nat
}

proof fn lemma_resting_complete(live: Seq<u64>, b: BookState, id: u64)
    ensures
        live.contains(id) && b.located.contains_key(id) ==> resting_ids(live, b).contains(id),
    decreases live.len(),
{
    if live.len() > 0 && live.contains(id) && b.located.contains_key(id) {
        let front = live.drop_last();
        let all = resting_ids(live, b);
        lemma_resting_complete(front, b, id);
        let k = live.index_of(id);
        if k < front.len() {
            assert(front[k] == id);
            let r = resting_ids(front, b);
            let j = r.index_of(id);
            assert(all[j] == id);
        } else {
            assert(all[all.len() - 1] == id);
        }
    }
}

/// At the end of a round the participants remember, of the orders that they remembered or
/// posted, those that can still be cancelled: all of them and no others.
pub proof fn law_live_orders_are_kept(c: Crowd, b: BookState, bid_px: i64, ask_px: i64, id: u64)
    ensures
        ({
            let (after, book, fills) = c.acted(b, bid_px, ask_px);
            let (c1, b1, f1) = c.quoted(b, bid_px, ask_px);
            let (c2, b2) = c1.churned(b1);
            let (c3, b3, f3) = c2.swept(b2);
            &&& after.live.contains(id) <==> c2.live.contains(id) && book.located.contains_key(id)
            &&& book == b3
            &&& fills == f1 + f3
            &&& after.next_id == c3.next_id
            &&& after.rng == c3.rng
        }),
{
    let (c1, b1, f1) = c.quoted(b, bid_px, ask_px);
    let (c2, b2) = c1.churned(b1);
    let (c3, b3, f3) = c2.swept(b2);
    lemma_resting_ids(c3.live, b3);
    lemma_resting_complete(c3.live, b3, id);
    let r = resting_ids(c3.live, b3);
    if r.contains(id) {
        let k = r.index_of(id);
        assert(b3.located.contains_key(r[k]) && c3.live.contains(r[k]));
    }
}

/// What is published is the top of the book: the highest bid and the lowest ask, zero where
/// there is none, with the sizes there, their difference, the middle between them, and the
/// number of bid levels as far as a byte goes.
pub proof fn law_market_data_shows_the_top(b: BookState, timestamp_ns: u64, sequence: u64)
    requires
        b.valid(),
        size_at(b.bids, bid_of(b)) <= u64::MAX,
        size_at(b.asks, ask_of(b)) <= u64::MAX,
        bid_of(b) > 0 && ask_of(b) > 0 ==> bid_of(b) + ask_of(b) <= i64::MAX,
        i64::MIN <= ask_of(b) - bid_of(b) <= i64::MAX,
    ensures
        ({
            let t = tick_of(b, timestamp_ns, sequence);
            let s = snapshot_of(b, timestamp_ns);
            let levels = prices(b.bids).len();
            &&& forall|i: int| 0 <= i < b.bids.len() ==> (#[trigger] b.bids[i]).price <= t.bid
            &&& forall|i: int| 0 <= i < b.asks.len() ==> (#[trigger] b.asks[i]).price >= t.ask
            &&& b.bids.len() > 0 ==> t.bid == b.bids[0].price
            &&& b.asks.len() > 0 ==> t.ask == b.asks[0].price
            &&& b.bids.len() == 0 ==> t.bid == 0
            &&& b.asks.len() == 0 ==> t.ask == 0
            &&& t.bid > 0 && t.ask > 0 ==> t.bid + t.ask - 1 <= 2 * t.price <= t.bid + t.ask
            &&& !(t.bid > 0 && t.ask > 0) ==> t.price >= t.bid && t.price >= t.ask && (t.price
                == t.bid || t.price == t.ask)
            &&& s.best_bid == t.bid && s.best_ask == t.ask && s.mid_price == t.price
            &&& s.bid_size == size_at(b.bids, t.bid) && s.ask_size == size_at(b.asks, t.ask)
            &&& t.ask >= t.bid ==> s.spread == t.ask - t.bid
            &&& t.ask < t.bid ==> s.spread == 0
            &&& levels <= 255 ==> s.depth == levels
            &&& levels > 255 ==> s.depth == 255
            &&& t.timestamp_ns == timestamp_ns && s.timestamp_ns == timestamp_ns
            &&& t.sequence == sequence
            &&& t.symbol_id == 1 && s.symbol_id == 1 && t.exchange_id == 1 && s.exchange_id == 1
            &&& t.tick_type == 0 && t.quantity == 100_000_000 && t.volume_24h == 0
        }),
{
    law_books_are_in_price_order(b);
    if b.bids.len() > 0 {
        assert(b.bids[0].price == b.bids[0].price);
    }
    if b.asks.len() > 0 {
        assert(b.asks[0].price == b.asks[0].price);
    }
}

/// The pace of the venue: a round exactly when its period is over, which one of no length
/// always is. Before that, an order that came in keeps it going; else it spins, or blocks
/// for just as long as the period still lasts.
pub proof fn law_rounds_are_paced(
    period_ns: u64,
    elapsed_ns: u64,
    got_order: bool,
    blocking: bool,
)
    ensures
        ({
            let p = paced(period_ns, elapsed_ns, got_order, blocking);
            &&& p is Round <==> elapsed_ns >= period_ns
            &&& p is GoOn <==> elapsed_ns < period_ns && got_order
            &&& p is Block <==> elapsed_ns < period_ns && !got_order && blocking
            &&& p is Spin <==> elapsed_ns < period_ns && !got_order && !blocking
            &&& p matches Pace::Block(ns) ==> ns > 0 && elapsed_ns + ns == period_ns
        }),
{
}

/// The generator loses nothing: its last state follows from its next one, so that no two
/// states lead to the same.
pub proof fn law_the_generator_runs_backwards(x: u64)
    ensures
        ({
            let c = stirred(x);
            let b = c ^ (c >> 27) ^ (c >> 54);
            let a = b ^ (b << 25) ^ (b << 50);
            x == a ^ (a >> 12) ^ (a >> 24) ^ (a >> 36) ^ (a >> 48) ^ (a >> 60)
        }),
{
    assert({
        let p = x ^ (x >> 12);
        let q = p ^ (p << 25);
        let c = q ^ (q >> 27);
        let b = c ^ (c >> 27) ^ (c >> 54);
        let a = b ^ (b << 25) ^ (b << 50);
        x == a ^ (a >> 12) ^ (a >> 24) ^ (a >> 36) ^ (a >> 48) ^ (a >> 60)
    }) by (bit_vector);
}

/// The participants of a seed have its generator, no live orders and no regime yet, and
/// number their orders from 1 on.
pub proof fn law_participants_start_from_their_seed(seed: u64)
    ensures
        ({
            let c = Crowd::fresh(seed);
            &&& c.rng.state == seed | 1
            &&& c.regime_left == 0
            &&& c.next_id == 1
            &&& c.live.len() == 0
        }),
{
}

} // verus!
