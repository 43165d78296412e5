//! A small composite trading strategy that runs on the hot path.
//!
//! The strategy consumes a stream of prices and blends three signals into one score:
//! a trend (fast against slow moving average), a momentum (return over a short
//! lookback) and a mean reversion (how far the price stands from its recent mean).
//! When the score crosses a threshold the strategy buys or sells; inside the band it
//! holds. A cooldown keeps the same signal from firing every tick.
//!
//! The strategy keeps the windows, the running values and the decision. The arithmetic
//! on numbers is the host's, who hands it to [`Strategy::on_price`]. The same tick can be
//! taken in steps: [`Strategy::observe`] says what to bring up to date,
//! [`Strategy::absorb`] takes the values in, [`Strategy::signals`] says what each signal is
//! computed from, and [`Strategy::decide`] turns the blended score into a decision.

use crate::num::Num;
use crate::ring::{slide, Ring};
use vstd::prelude::*;

verus! {

/// Which way to trade.
#[derive(Clone, Copy, PartialEq, Eq, Structural, Debug)]
pub enum Side {
    Buy,
    Sell,
}

/// A strategy decision for one tick.
#[derive(Clone, Copy, PartialEq, Eq, Structural, Debug)]
pub enum Decision {
    /// Emit an order this side, carrying the blended score that triggered it.
    Trade { side: Side, score: Num },
    /// No action.
    Hold,
}

/// Tunable parameters.
#[derive(Clone, Copy, PartialEq, Eq, Structural, Debug)]
pub struct StrategyConfig {
    pub fast_ema_period: usize,
    pub slow_ema_period: usize,
    pub momentum_lookback: usize,
    pub reversion_window: usize,
    /// Weights need not sum to 1: the blended score is divided by the total weight.
    pub weight_trend: Num,
    pub weight_momentum: Num,
    pub weight_reversion: Num,
    /// A blended score at or beyond the threshold buys, at or beyond its negative
    /// sells. Between them: hold.
    pub threshold: Num,
    /// Momentum of this many basis points is a full-scale reading.
    pub momentum_bps_full_scale: Num,
    /// Minimum ticks between two orders in the same direction.
    pub cooldown_ticks: u64,
}

impl StrategyConfig {
    /// Parameters for a fast synthetic feed: weights 0.5, 0.3 and 0.2, a threshold of
    /// 0.35, and full scale at 25 basis points.
    pub open spec fn standard() -> StrategyConfig {
        StrategyConfig {
            fast_ema_period: 12,
            slow_ema_period: 48,
            momentum_lookback: 16,
            reversion_window: 64,
            weight_trend: Num { bits: 0x3FE0_0000_0000_0000 },
            weight_momentum: Num { bits: 0x3FD3_3333_3333_3333 },
            weight_reversion: Num { bits: 0x3FC9_9999_9999_999A },
            threshold: Num { bits: 0x3FD6_6666_6666_6666 },
            momentum_bps_full_scale: Num { bits: 0x4039_0000_0000_0000 },
            cooldown_ticks: 32,
        }
    }

    /// The windows can be built: the lookback has a successor, and the reversion window
    /// holds something.
    pub open spec fn usable(self) -> bool {
        self.momentum_lookback < usize::MAX && self.reversion_window > 0
    }
}

impl Default for StrategyConfig {
    fn default() -> (r: Self)
        ensures
            r == StrategyConfig::standard(),
    {
        StrategyConfig {
            fast_ema_period: 12,
            slow_ema_period: 48,
            momentum_lookback: 16,
            reversion_window: 64,
            weight_trend: Num { bits: 0x3FE0_0000_0000_0000 },
            weight_momentum: Num { bits: 0x3FD3_3333_3333_3333 },
            weight_reversion: Num { bits: 0x3FC9_9999_9999_999A },
            threshold: Num { bits: 0x3FD6_6666_6666_6666 },
            momentum_bps_full_scale: Num { bits: 0x4039_0000_0000_0000 },
            cooldown_ticks: 32,
        }
    }
}

/// A moving average that has to move on: the period it runs over and where it stands.
#[derive(Clone, Copy, PartialEq, Eq, Structural, Debug)]
pub struct EmaStep {
    pub period: usize,
    pub value: Num,
}

/// What a tick brings up to date.
#[derive(Clone, Copy, PartialEq, Eq, Structural, Debug)]
pub struct Update {
    pub price: Num,
    /// The fast average, unless this price is its first value.
    pub fast: Option<EmaStep>,
    /// The slow average, unless this price is its first value.
    pub slow: Option<EmaStep>,
    /// The price that left the reversion window.
    pub evicted: Option<Num>,
    /// The running sum over the window before this tick.
    pub sum: Num,
    /// The running sum of squares over the window before this tick.
    pub sum_sq: Num,
}

/// The values that a tick brought up to date.
#[derive(Clone, Copy, PartialEq, Eq, Structural, Debug)]
pub struct Updated {
    pub fast: Num,
    pub slow: Num,
    pub sum: Num,
    pub sum_sq: Num,
}

/// What the trend is computed from.
#[derive(Clone, Copy, PartialEq, Eq, Structural, Debug)]
pub struct TrendInput {
    pub fast: Num,
    pub slow: Num,
}

/// What the momentum is computed from.
#[derive(Clone, Copy, PartialEq, Eq, Structural, Debug)]
pub struct MomentumInput {
    pub past: Num,
    pub now: Num,
    pub full_scale: Num,
}

/// What the mean reversion is computed from.
#[derive(Clone, Copy, PartialEq, Eq, Structural, Debug)]
pub struct ReversionInput {
    pub count: usize,
    pub sum: Num,
    pub sum_sq: Num,
    pub now: Num,
}

/// What the three signals are computed from. A signal without an input reads zero.
#[derive(Clone, Copy, PartialEq, Eq, Structural, Debug)]
pub struct Signals {
    pub trend: Option<TrendInput>,
    pub momentum: Option<MomentumInput>,
    pub reversion: Option<ReversionInput>,
}

/// All that a strategy remembers.
#[verifier::ext_equal]
pub struct StrategyState {
    pub cfg: StrategyConfig,
    pub fast: Option<Num>,
    pub slow: Option<Num>,
    /// The last `momentum_lookback + 1` prices, oldest first.
    pub recent: Seq<Num>,
    /// The last `reversion_window` prices, oldest first.
    pub window: Seq<Num>,
    pub sum: Num,
    pub sum_sq: Num,
    pub ticks: u64,
    /// The side and the tick of the last trade.
    pub last: Option<(Side, u64)>,
}

pub open spec fn ema_step(period: usize, value: Option<Num>) -> Option<EmaStep> {
    match value {
        Some(v) => Some(EmaStep { period, value: v }),
        None => None,
    }
}

/// A moving average after its first value, if it had none.
pub open spec fn seeded(value: Option<Num>, price: Num) -> Option<Num> {
    match value {
        Some(v) => Some(v),
        None => Some(price),
    }
}

impl StrategyState {
    /// A strategy that has seen nothing.
    pub open spec fn fresh(cfg: StrategyConfig) -> StrategyState {
        StrategyState {
            cfg,
            fast: None,
            slow: None,
            recent: seq![],
            window: seq![],
            sum: Num::zero(),
            sum_sq: Num::zero(),
            ticks: 0,
            last: None,
        }
    }

    /// What the next price brings up to date.
    pub open spec fn update(self, price: Num) -> Update {
        Update {
            price,
            fast: ema_step(self.cfg.fast_ema_period, self.fast),
            slow: ema_step(self.cfg.slow_ema_period, self.slow),
            evicted: if self.window.len() == self.cfg.reversion_window {
                Some(self.window[0])
            } else {
                None
            },
            sum: self.sum,
            sum_sq: self.sum_sq,
        }
    }

    /// The state once a price has arrived.
    pub open spec fn observed(self, price: Num) -> StrategyState {
        StrategyState {
            fast: seeded(self.fast, price),
            slow: seeded(self.slow, price),
            recent: slide(self.recent, (self.cfg.momentum_lookback + 1) as nat, price),
            window: slide(self.window, self.cfg.reversion_window as nat, price),
            ticks: (self.ticks + 1) as u64,
            ..self
        }
    }

    /// The state once the running values are brought up to date.
    pub open spec fn absorbed(self, v: Updated) -> StrategyState {
        StrategyState {
            fast: Some(v.fast),
            slow: Some(v.slow),
            sum: v.sum,
            sum_sq: v.sum_sq,
            ..self
        }
    }

    /// The state once a price has arrived and the running values are up to date.
    pub open spec fn refreshed(self, price: Num, v: Updated) -> StrategyState {
        self.observed(price).absorbed(v)
    }

    /// What the signals are computed from now.
    pub open spec fn inputs(self) -> Signals {
        Signals {
            trend: match (self.fast, self.slow) {
                (Some(fast), Some(slow)) => if !slow.nan() && slow.value() == 0 {
                    None
                } else {
                    Some(TrendInput { fast, slow })
                },
                _ => None,
            },
            momentum: if self.recent.len() <= self.cfg.momentum_lookback {
                None
            } else if !self.recent[0].nan() && self.recent[0].value() == 0 {
                None
            } else {
                Some(
                    MomentumInput {
                        past: self.recent[0],
                        now: self.recent.last(),
                        full_scale: self.cfg.momentum_bps_full_scale,
                    },
                )
            },
            reversion: if self.window.len() < self.cfg.reversion_window {
                None
            } else {
                Some(
                    ReversionInput {
                        count: self.window.len() as usize,
                        sum: self.sum,
                        sum_sq: self.sum_sq,
                        now: self.window.last(),
                    },
                )
            },
        }
    }

    /// The side that a score asks for.
    pub open spec fn wanted(self, score: Num) -> Option<Side> {
        if score.at_least(self.cfg.threshold) {
            Some(Side::Buy)
        } else if self.cfg.threshold.opposite().at_least(score) {
            Some(Side::Sell)
        } else {
            None
        }
    }

    /// The last trade was on the other side, or is far enough back.
    pub open spec fn rested(self, side: Side) -> bool {
        match self.last {
            Some((prev, tick)) => prev == side ==> self.ticks - tick >= self.cfg.cooldown_ticks,
            None => true,
        }
    }

    /// The decision for a total weight and a blended score.
    pub open spec fn decision(self, weight: Num, score: Num) -> Decision {
        if Num::zero().at_least(weight) {
            Decision::Hold
        } else {
            match self.wanted(score) {
                Some(side) => if self.rested(side) {
                    Decision::Trade { side, score }
                } else {
                    Decision::Hold
                },
                None => Decision::Hold,
            }
        }
    }

    /// The state once that decision is taken.
    pub open spec fn decided(self, weight: Num, score: Num) -> StrategyState {
        match self.decision(weight, score) {
            Decision::Trade { side, score } => StrategyState {
                last: Some((side, self.ticks)),
                ..self
            },
            Decision::Hold => self,
        }
    }

    /// The windows hold no more than they may, and the last trade is not in the future.
    pub open spec fn valid(self) -> bool {
        &&& self.cfg.usable()
        &&& self.recent.len() <= self.cfg.momentum_lookback + 1
        &&& self.window.len() <= self.cfg.reversion_window
        &&& self.last matches Some((_, tick)) ==> tick <= self.ticks
        &&& self.ticks > 0 ==> self.fast is Some && self.slow is Some && self.recent.len() > 0
            && self.window.len() > 0
    }
}

/// The composite strategy.
pub struct Strategy {
    cfg: StrategyConfig,
    fast: Option<Num>,
    slow: Option<Num>,
    recent: Ring,
    window: Ring,
    sum: Num,
    sum_sq: Num,
    ticks_seen: u64,
    last: Option<(Side, u64)>,
}

impl Strategy {
    pub closed spec fn view(&self) -> StrategyState {
        StrategyState {
            cfg: self.cfg,
            fast: self.fast,
            slow: self.slow,
            recent: self.recent@,
            window: self.window@,
            sum: self.sum,
            sum_sq: self.sum_sq,
            ticks: self.ticks_seen,
            last: self.last,
        }
    }

    pub closed spec fn wf(&self) -> bool {
        &&& self.recent.wf()
        &&& self.window.wf()
        &&& self.recent.size() == self.cfg.momentum_lookback + 1
        &&& self.window.size() == self.cfg.reversion_window
        &&& self@.valid()
    }

    /// Every state that the operations below lead to is valid.
    pub proof fn lemma_valid(&self)
        requires
            self.wf(),
        ensures
            self@.valid(),
    {
    }

    pub fn new(cfg: StrategyConfig) -> (r: Self)
        requires
            cfg.usable(),
        ensures
            r.wf(),
            r@ == StrategyState::fresh(cfg),
    {
        let r = Strategy {
            cfg,
            fast: None,
            slow: None,
            recent: Ring::new(cfg.momentum_lookback + 1),
            window: Ring::new(cfg.reversion_window),
            sum: Num { bits: 0 },
            sum_sq: Num { bits: 0 },
            ticks_seen: 0,
            last: None,
        };
        assert(r@ =~= StrategyState::fresh(cfg));
        r
    }

    /// Takes in one price, and says which running values it changes.
    pub fn observe(&mut self, price: Num) -> (r: Update)
        requires
            old(self).wf(),
            old(self)@.ticks < u64::MAX,
        ensures
            final(self).wf(),
            r == old(self)@.update(price),
            final(self)@ == old(self)@.observed(price),
    {
        let ghost before = self@;
        let update = Update {
            price,
            fast: match self.fast {
                Some(value) => Some(EmaStep { period: self.cfg.fast_ema_period, value }),
                None => None,
            },
            slow: match self.slow {
                Some(value) => Some(EmaStep { period: self.cfg.slow_ema_period, value }),
                None => None,
            },
            evicted: if self.window.is_full() {
                Some(self.window.oldest())
            } else {
                None
            },
            sum: self.sum,
            sum_sq: self.sum_sq,
        };
        self.ticks_seen = self.ticks_seen + 1;
        if self.fast.is_none() {
            self.fast = Some(price);
        }
        if self.slow.is_none() {
            self.slow = Some(price);
        }
        self.recent.push(price);
        self.window.push(price);
        assert(self@ =~= before.observed(price));
        update
    }

    /// Feeds one price and returns the decision for this tick. The host brings the running
    /// values up to date by `update`, and by `blend` gives the sum of the weights and the
    /// blended score of the signals.
    pub fn on_price<U: Fn(Update) -> Updated, B: Fn(StrategyConfig, Signals) -> (Num, Num)>(
        &mut self,
        price: Num,
        update: U,
        blend: B,
    ) -> (d: Decision)
        requires
            old(self).wf(),
            old(self)@.ticks < u64::MAX,
            forall|u: Update| update.requires((u,)),
            forall|c: StrategyConfig, s: Signals| blend.requires((c, s)),
        ensures
            final(self).wf(),
            exists|v: Updated, weight: Num, score: Num|
                #![trigger old(self)@.refreshed(price, v).decision(weight, score)]
                {
                    let st = old(self)@.refreshed(price, v);
                    &&& update.ensures((old(self)@.update(price),), v)
                    &&& blend.ensures((st.cfg, st.inputs()), (weight, score))
                    &&& d == st.decision(weight, score)
                    &&& final(self)@ == st.decided(weight, score)
                },
    {
        let change = self.observe(price);
        let values = update(change);
        self.absorb(values);
        let (weight, score) = blend(self.cfg, self.signals());
        assert(self@ == old(self)@.refreshed(price, values));
        let d = self.decide(weight, score);
        assert(d == old(self)@.refreshed(price, values).decision(weight, score));
        d
    }

    /// Takes in the running values that the host brought up to date.
    pub fn absorb(&mut self, values: Updated)
        requires
            old(self).wf(),
        ensures
            final(self).wf(),
            final(self)@ == old(self)@.absorbed(values),
    {
        let ghost before = self@;
        self.fast = Some(values.fast);
        self.slow = Some(values.slow);
        self.sum = values.sum;
        self.sum_sq = values.sum_sq;
        assert(self@ =~= before.absorbed(values));
    }

    /// What the three signals for the current price are computed from.
    pub fn signals(&self) -> (r: Signals)
        requires
            self.wf(),
        ensures
            r == self@.inputs(),
    {
        Signals {
            trend: self.trend_signal(),
            momentum: self.momentum_signal(),
            reversion: self.reversion_signal(),
        }
    }

    fn trend_signal(&self) -> (r: Option<TrendInput>)
        requires
            self.wf(),
        ensures
            r == self@.inputs().trend,
    {
        match (self.fast, self.slow) {
            (Some(fast), Some(slow)) => {
                if slow.is_zero() {
                    None
                } else {
                    Some(TrendInput { fast, slow })
                }
            },
            _ => None,
        }
    }

    fn momentum_signal(&self) -> (r: Option<MomentumInput>)
        requires
            self.wf(),
        ensures
            r == self@.inputs().momentum,
    {
        if self.recent.len() <= self.cfg.momentum_lookback {
            return None;
        }
        let past = self.recent.oldest();
        if past.is_zero() {
            return None;
        }
        Some(
            MomentumInput {
                past,
                now: self.recent.newest(),
                full_scale: self.cfg.momentum_bps_full_scale,
            },
        )
    }

    fn reversion_signal(&self) -> (r: Option<ReversionInput>)
        requires
            self.wf(),
        ensures
            r == self@.inputs().reversion,
    {
        let n: usize = self.window.len();
        if n < self.cfg.reversion_window {
            return None;
        }
        Some(
            ReversionInput {
                count: n,
                sum: self.sum,
                sum_sq: self.sum_sq,
                now: self.window.newest(),
            },
        )
    }

    fn cooldown_ok(&self, side: Side) -> (r: bool)
        requires
            self.wf(),
        ensures
            r == self@.rested(side),
    {
        match self.last {
            Some((prev, tick)) => {
                if prev == side {
                    self.ticks_seen.saturating_sub(tick) >= self.cfg.cooldown_ticks
                } else {
                    true
                }
            },
            None => true,
        }
    }

    /// The decision for this tick, from the sum of the weights and the blended score. A
    /// total weight of zero or less never trades.
    pub fn decide(&mut self, weight: Num, score: Num) -> (r: Decision)
        requires
            old(self).wf(),
        ensures
            final(self).wf(),
            r == old(self)@.decision(weight, score),
            final(self)@ == old(self)@.decided(weight, score),
    {
        let ghost before = self@;
        if weight.le(Num { bits: 0 }) {
            return Decision::Hold;
        }
        let side = if score.ge(self.cfg.threshold) {
            Some(Side::Buy)
        } else if score.le(self.cfg.threshold.neg()) {
            Some(Side::Sell)
        } else {
            None
        };
        if let Some(side) = side {
            if self.cooldown_ok(side) {
                self.last = Some((side, self.ticks_seen));
                assert(self@ =~= before.decided(weight, score));
                return Decision::Trade { side, score };
            }
        }
        Decision::Hold
    }
}

/// Two trades on one side with none between them are at least a cooldown apart: after a
/// trade at `then`, whatever happens to the windows, the same side does not trade
/// again before its cooldown is over.
pub proof fn law_cooldown(then: StrategyState, w1: Num, s1: Num, now: StrategyState, w2: Num, s2: Num)
    requires
        then.decision(w1, s1) is Trade,
        now.cfg == then.cfg,
        now.last == then.decided(w1, s1).last,
        now.decision(w2, s2) is Trade,
    ensures
        now.decision(w2, s2)->side == then.decision(w1, s1)->side ==> now.ticks - then.ticks
            >= then.cfg.cooldown_ticks,
{
}

/// The first trade, and a trade in the other direction, need not wait.
pub proof fn law_flip_is_immediate(st: StrategyState, weight: Num, score: Num)
    requires
        !Num::zero().at_least(weight),
        st.wanted(score) is Some,
        st.last matches Some((prev, _)) ==> Some(prev) != st.wanted(score),
    ensures
        st.decision(weight, score) == (Decision::Trade { side: st.wanted(score)->0, score }),
{
}

/// A score strictly inside the band never trades, nor does one that is not a number.
pub proof fn law_inside_the_band_holds(st: StrategyState, weight: Num, score: Num)
    requires
        score.nan() || (!st.cfg.threshold.nan() && st.cfg.threshold.above(score)
            && score.above(st.cfg.threshold.opposite())),
    ensures
        st.decision(weight, score) is Hold,
        st.decided(weight, score) == st,
{
}

/// A window holds the most recent prices: a price leaves it exactly when it has been
/// followed by as many prices as the window is long.
pub proof fn law_window_slides(st: StrategyState, price: Num)
    requires
        st.valid(),
        st.ticks < u64::MAX,
    ensures
        st.observed(price).valid(),
        st.observed(price).window.last() == price,
        st.observed(price).recent.last() == price,
        st.update(price).evicted is Some <==> st.window.len() == st.cfg.reversion_window,
        match st.update(price).evicted {
            Some(old) => seq![old] + st.observed(price).window == st.window.push(price),
            None => st.observed(price).window == st.window.push(price),
        },
{
    if st.window.len() == st.cfg.reversion_window {
        assert(seq![st.window[0]] + st.observed(price).window =~= st.window.push(price));
    }
}

/// The last trade of `side` is at least a cooldown back, or the last trade was on the other
/// side, or there was none.
pub open spec fn waited(st: StrategyState, side: Side) -> bool {
    forall|tick: u64| st.last == Some((side, tick)) ==> st.ticks >= tick + st.cfg.cooldown_ticks
}

/// The cooldown delays a trade and never forbids it, on either side: where the total weight
/// is above zero and the score is at or beyond the threshold of a side, that side trades
/// whenever its last trade is at least the cooldown back. The trade carries the score.
pub proof fn law_a_rested_side_trades(st: StrategyState, weight: Num, score: Num)
    requires
        !weight.nan() && weight.value() > 0,
        !score.nan() && !st.cfg.threshold.nan(),
    ensures
        score.value() >= st.cfg.threshold.value() && waited(st, Side::Buy) ==> st.decision(
            weight,
            score,
        ) == (Decision::Trade { side: Side::Buy, score }),
        score.value() < st.cfg.threshold.value() && score.value() <= -st.cfg.threshold.value()
            && waited(st, Side::Sell) ==> st.decision(weight, score) == (Decision::Trade {
            side: Side::Sell,
            score,
        }),
{
    st.cfg.threshold.law_opposite_negates();
    Num::law_zero_is_nothing();
}

/// Nothing else trades: a trade has a total weight that is not zero or less, a score at or
/// beyond the threshold of its side, and a last trade of that side at least the cooldown
/// back.
pub proof fn law_trades_have_their_reasons(st: StrategyState, weight: Num, score: Num)
    requires
        st.decision(weight, score) is Trade,
    ensures
        weight.nan() || weight.value() > 0,
        !score.nan() && !st.cfg.threshold.nan(),
        st.decision(weight, score)->score == score,
        waited(st, st.decision(weight, score)->side),
        match st.decision(weight, score)->side {
            Side::Buy => score.value() >= st.cfg.threshold.value(),
            Side::Sell => score.value() <= -st.cfg.threshold.value() && score.value()
                < st.cfg.threshold.value(),
        },
{
    st.cfg.threshold.law_opposite_negates();
    Num::law_zero_is_nothing();
}

/// A trade is remembered with its side and its tick, and a tick without one leaves the last
/// trade as it was. Nothing else changes with a decision.
pub proof fn law_trades_are_remembered(st: StrategyState, weight: Num, score: Num)
    ensures
        ({
            let after = st.decided(weight, score);
            &&& after.last == match st.decision(weight, score) {
                Decision::Trade { side, .. } => Some((side, st.ticks)),
                Decision::Hold => st.last,
            }
            &&& after.ticks == st.ticks
            &&& after.cfg == st.cfg
            &&& after.fast == st.fast && after.slow == st.slow
            &&& after.recent == st.recent && after.window == st.window
            &&& after.sum == st.sum && after.sum_sq == st.sum_sq
        }),
{
}

/// A tick asks to move both averages on, each over its own period and from where it stands,
/// and hands over the sums of the window. The first price is the first value of both.
pub proof fn law_ticks_move_the_averages(st: StrategyState, price: Num, v: Updated)
    ensures
        ({
            let u = st.update(price);
            let after = st.refreshed(price, v);
            let first = StrategyState::fresh(st.cfg).observed(price);
            &&& u.price == price
            &&& st.fast matches Some(x) ==> u.fast == Some(
                EmaStep { period: st.cfg.fast_ema_period, value: x },
            )
            &&& st.slow matches Some(x) ==> u.slow == Some(
                EmaStep { period: st.cfg.slow_ema_period, value: x },
            )
            &&& st.fast is None ==> u.fast is None
            &&& st.slow is None ==> u.slow is None
            &&& u.sum == st.sum && u.sum_sq == st.sum_sq
            &&& first.fast == Some(price) && first.slow == Some(price)
            &&& st.fast is Some ==> st.observed(price).fast == st.fast
            &&& st.slow is Some ==> st.observed(price).slow == st.slow
            &&& after.fast == Some(v.fast) && after.slow == Some(v.slow)
            &&& after.sum == v.sum && after.sum_sq == v.sum_sq
            &&& after.cfg == st.cfg && after.last == st.last
            &&& st.ticks < u64::MAX ==> after.ticks == st.ticks + 1
        }),
{
}

/// What the signals are computed from: the trend from the two averages, unless the slow one
/// is zero; the momentum from the newest price and the one a lookback before it, unless
/// that is zero or there is none yet; the mean reversion from the sums of a full window and
/// the newest price.
pub proof fn law_signals_read_the_state(st: StrategyState)
    requires
        st.valid(),
    ensures
        ({
            let i = st.inputs();
            let back = st.cfg.momentum_lookback as int;
            &&& i.trend is Some <==> st.fast is Some && st.slow is Some && (st.slow->0.nan()
                || st.slow->0.value() != 0)
            &&& i.trend matches Some(t) ==> Some(t.fast) == st.fast && Some(t.slow) == st.slow
            &&& i.momentum is Some <==> st.recent.len() > back && (st.recent[st.recent.len() - 1
                - back].nan() || st.recent[st.recent.len() - 1 - back].value() != 0)
            &&& i.momentum matches Some(x) ==> x.past == st.recent[st.recent.len() - 1 - back]
                && x.now == st.recent[st.recent.len() - 1] && x.full_scale
                == st.cfg.momentum_bps_full_scale
            &&& i.reversion is Some <==> st.window.len() == st.cfg.reversion_window
            &&& i.reversion matches Some(x) ==> x.count == st.cfg.reversion_window && x.sum
                == st.sum && x.sum_sq == st.sum_sq && x.now == st.window[st.window.len() - 1]
        }),
{
}

/// The parameters that a strategy has by default: averages over 12 and 48 ticks, the return
/// over 16, the mean of 64, weights of 0.5, 0.3 and 0.2, a threshold of 0.35, full momentum
/// at 25 basis points, and 32 ticks between two trades on one side. The windows can be built.
pub proof fn law_strategies_have_their_defaults()
    ensures
        ({
            let c = StrategyConfig::standard();
            &&& c.fast_ema_period == 12 && c.slow_ema_period == 48
            &&& c.momentum_lookback == 16 && c.reversion_window == 64
            &&& c.weight_trend.bits == 0x3FE0_0000_0000_0000
            &&& c.weight_momentum.bits == 0x3FD3_3333_3333_3333
            &&& c.weight_reversion.bits == 0x3FC9_9999_9999_999A
            &&& c.threshold.bits == 0x3FD6_6666_6666_6666
            &&& c.momentum_bps_full_scale.bits == 0x4039_0000_0000_0000
            &&& c.cooldown_ticks == 32
            &&& c.usable()
        }),
{
}

} // verus!
