//! The benchmark of the bare transport: the messages that a publisher sends at full speed,
//! and the windows in which a subscriber gathers their latencies and their losses.

use crate::hot_path::{exchanges, symbols, MarketTick, OrderCommand};
use crate::latency_window::{summarize, summary_of, WindowSummary};
use crate::text::{decimal, decimal_text, push_decimal, push_right_aligned, right_aligned};
use vstd::prelude::*;
use vstd::string::StringExecFns;
use vstd::wrapping::u64_specs::wrapping_add;

verus! {

/// Messages that the subscriber takes in before it measures.
pub const WARMUP_RECEIVES: u64 = 10_000;

/// Measured messages per window.
pub const REPORT_INTERVAL: usize = 100_000;

/// Messages per average of the publisher.
pub const PUBLISH_BATCH: u64 = 100_000;

/// The message with number `seq`: a limit order whose price, quantity and side go round.
pub open spec fn message_of(seq: u64, timestamp_ns: u64) -> OrderCommand {
    OrderCommand {
        timestamp_ns,
        order_id: seq,
        price_ticks: (5_000_000 + seq % 1000) as i64,
        quantity: (100 + seq % 50) as u64,
        origin_ts: 0,
        symbol_id: symbols::BTC_USDT,
        user_id: 1,
        side: (seq % 2) as u8,
        order_type: 1,
        action: 0,
        flags: 0,
        exchange_id: exchanges::BINANCE,
        priority: 0,
    }
}

/// The message with number `seq`.
pub fn benchmark_order(seq: u64, timestamp_ns: u64) -> (r: OrderCommand)
    ensures
        r == message_of(seq, timestamp_ns),
{
    OrderCommand {
        timestamp_ns,
        order_id: seq,
        price_ticks: 5_000_000 + (seq % 1000) as i64,
        quantity: 100 + (seq % 50),
        origin_ts: 0,
        symbol_id: symbols::BTC_USDT,
        user_id: 1,
        side: (seq % 2) as u8,
        order_type: 1,
        action: 0,
        flags: 0,
        exchange_id: exchanges::BINANCE,
        priority: 0,
    }
}

/// The tick of a feed without a book: a trade of one unit at `price`.
pub fn feed_tick(price: i64, bid: i64, ask: i64, timestamp_ns: u64, sequence: u64) -> (r:
    MarketTick)
    ensures
        r == (MarketTick {
            timestamp_ns,
            symbol_id: symbols::BTC_USDT,
            exchange_id: exchanges::BINANCE,
            tick_type: 0,
            price,
            quantity: 100_000_000,
            bid,
            ask,
            volume_24h: 0,
            sequence,
        }),
{
    MarketTick {
        timestamp_ns,
        symbol_id: symbols::BTC_USDT,
        exchange_id: exchanges::BINANCE,
        tick_type: 0,
        price,
        quantity: 100_000_000,
        bid,
        ask,
        volume_24h: 0,
        sequence,
    }
}

/// A full window, with its loss accounting.
#[derive(Debug)]
pub struct BenchWindow {
    pub latencies: Vec<u64>,
    pub received: u64,
    pub lost: u64,
}

/// A subscriber as mathematics.
#[verifier::ext_equal]
pub struct BenchState {
    /// Messages of the warm-up that came in.
    pub warmed: u64,
    /// The latencies of the current window, in order.
    pub latencies: Seq<u64>,
    /// The number that the next message has if none is lost.
    pub expected: Option<u64>,
    /// Messages lost in the current window.
    pub lost: u64,
}

/// Messages that are missing before number `id`. A message from behind misses none.
pub open spec fn gap(expected: Option<u64>, id: u64) -> nat {
    match expected {
        Some(e) => if id > e {
            (id - e) as nat
        } else {
            0
        },
        None => 0,
    }
}

impl BenchState {
    /// A subscriber that has seen nothing.
    pub open spec fn fresh() -> BenchState {
        BenchState { warmed: 0, latencies: seq![], expected: None, lost: 0 }
    }

    /// The warm-up is over.
    pub open spec fn is_warm(self) -> bool {
        self.warmed >= WARMUP_RECEIVES
    }

    /// The subscriber with one more message, before its window may be handed over. The
    /// messages of the warm-up are only counted.
    pub open spec fn received(self, id: u64, latency_ns: u64) -> BenchState {
        if !self.is_warm() {
            BenchState { warmed: (self.warmed + 1) as u64, ..self }
        } else {
            BenchState {
                latencies: self.latencies.push(latency_ns),
                expected: Some(wrapping_add(id, 1)),
                lost: (self.lost + gap(self.expected, id)) as u64,
                ..self
            }
        }
    }

    /// A fresh window of the same stream.
    pub open spec fn emptied(self) -> BenchState {
        BenchState { latencies: seq![], lost: 0, ..self }
    }
}

/// The measuring end of the benchmark.
pub struct BenchSubscriber {
    warmed: u64,
    latencies: Vec<u64>,
    expected: Option<u64>,
    lost: u64,
}

impl BenchSubscriber {
    pub closed spec fn view(&self) -> BenchState {
        BenchState {
            warmed: self.warmed,
            latencies: self.latencies@,
            expected: self.expected,
            lost: self.lost,
        }
    }

    /// A window is never full between two messages.
    pub open spec fn wf(&self) -> bool {
        self@.latencies.len() < REPORT_INTERVAL
    }

    pub fn new() -> (r: Self)
        ensures
            r.wf(),
            r@ == BenchState::fresh(),
    {
        let r = BenchSubscriber {
            warmed: 0,
            latencies: Vec::with_capacity(REPORT_INTERVAL),
            expected: None,
            lost: 0,
        };
        assert(r@ =~= BenchState::fresh());
        r
    }

    /// Whether a message with number `id` can be taken in: the losses of the window must stay
    /// countable.
    pub fn can_receive(&self, id: u64) -> (r: bool)
        ensures
            r == (self@.is_warm() ==> self@.lost + gap(self@.expected, id) <= u64::MAX),
    {
        self.warmed < WARMUP_RECEIVES || match self.expected {
            Some(expected) => id <= expected || id - expected <= u64::MAX - self.lost,
            None => true,
        }
    }

    /// Takes in one message. The messages of the warm-up are only counted. After it, numbers
    /// only grow on the publisher, so a forward gap counts the messages that overflowed the
    /// queue. A full window is handed over.
    pub fn receive(&mut self, id: u64, latency_ns: u64) -> (r: Option<BenchWindow>)
        requires
            old(self).wf(),
            old(self)@.is_warm() ==> old(self)@.lost + gap(old(self)@.expected, id) <= u64::MAX,
        ensures
            final(self).wf(),
            ({
                let next = old(self)@.received(id, latency_ns);
                if next.latencies.len() == REPORT_INTERVAL {
                    &&& r matches Some(w) && w.latencies@ == next.latencies && w.received
                        == REPORT_INTERVAL && w.lost == next.lost
                    &&& final(self)@ == next.emptied()
                } else {
                    &&& r is None
                    &&& final(self)@ == next
                }
            }),
    {
        let ghost next = self@.received(id, latency_ns);
        if self.warmed < WARMUP_RECEIVES {
            self.warmed = self.warmed + 1;
            assert(self@ =~= next);
            return None;
        }
        self.latencies.push(latency_ns);
        if let Some(expected) = self.expected {
            if id > expected {
                self.lost = self.lost + (id - expected);
            }
        }
        self.expected = Some(id.wrapping_add(1));
        assert(self@ =~= next);
        if self.latencies.len() < REPORT_INTERVAL {
            return None;
        }
        let mut full: Vec<u64> = Vec::with_capacity(REPORT_INTERVAL);
        std::mem::swap(&mut self.latencies, &mut full);
        let lost: u64 = self.lost;
        self.lost = 0;
        assert(self@ =~= next.emptied());
        Some(BenchWindow { received: full.len() as u64, latencies: full, lost })
    }
}

/// A subscriber after messages with these numbers, its windows not handed over.
pub open spec fn after_messages(s: BenchState, ids: Seq<u64>) -> BenchState
    decreases ids.len(),
{
    if ids.len() == 0 {
        s
    } else {
        after_messages(s, ids.drop_last()).received(ids.last(), 0)
    }
}

/// The messages of the warm-up leave no trace but their count.
pub proof fn law_warm_up_measures_nothing(ids: Seq<u64>)
    requires
        ids.len() <= WARMUP_RECEIVES,
    ensures
        after_messages(BenchState::fresh(), ids) == (BenchState {
            warmed: ids.len() as u64,
            ..BenchState::fresh()
        }),
    decreases ids.len(),
{
    if ids.len() > 0 {
        law_warm_up_measures_nothing(ids.drop_last());
    }
}

/// Losses and arrivals account for every message after the warm-up: of a stream with growing
/// numbers, what arrived and what is counted as lost make up all numbers from the first to
/// the last.
pub proof fn law_every_message_is_accounted_for(ids: Seq<u64>)
    requires
        ids.len() > 0,
        forall|i: int, j: int| 0 <= i < j < ids.len() ==> ids[i] < ids[j],
    ensures
        ({
            let warm = BenchState { warmed: WARMUP_RECEIVES, ..BenchState::fresh() };
            let s = after_messages(warm, ids);
            &&& s.is_warm()
            &&& s.latencies.len() == ids.len()
            &&& s.expected == Some(wrapping_add(ids.last(), 1))
            &&& s.latencies.len() + s.lost == ids.last() - ids[0] + 1
        }),
    decreases ids.len(),
{
    let start = BenchState { warmed: WARMUP_RECEIVES, ..BenchState::fresh() };
    let front = ids.drop_last();
    if front.len() > 0 {
        assert(front[0] == ids[0]);
        law_every_message_is_accounted_for(front);
        let mid = after_messages(start, front);
        assert(ids[ids.len() - 2] < ids.last());
        assert(front.last() == ids[ids.len() - 2]);
        assert(mid.lost + gap(mid.expected, ids.last()) <= u64::MAX);
    } else {
        assert(after_messages(start, front) == start);
    }
}

/// The greatest of some samples.
pub open spec fn is_greatest(samples: Seq<u64>, m: u64) -> bool {
    samples.contains(m) && forall|i: int| 0 <= i < samples.len() ==> #[trigger] samples[i] <= m
}

fn greatest(samples: &Vec<u64>) -> (r: u64)
    requires
        samples@.len() > 0,
    ensures
        is_greatest(samples@, r),
{
    let mut m: u64 = samples[0];
    let mut k: usize = 1;
    assert(samples@.contains(m));
    while k < samples.len()
        invariant
            1 <= k <= samples@.len(),
            samples@.contains(m),
            forall|i: int| 0 <= i < k ==> #[trigger] samples@[i] <= m,
        decreases samples@.len() - k,
    {
        if samples[k] > m {
            m = samples[k];
            assert(samples@.contains(m));
        }
        k = k + 1;
    }
    m
}

/// The report line of a window. `loss` is the share of lost messages in percent.
pub open spec fn bench_text(s: WindowSummary, max: u64, loss: Seq<char>, lost: u64) -> Seq<char> {
    "n="@ + right_aligned(decimal(s.count as nat), 8) + "  Min="@ + right_aligned(
        decimal(s.min as nat),
        7,
    ) + " ns  P50="@ + right_aligned(decimal(s.p50 as nat), 7) + " ns  P99="@ + right_aligned(
        decimal(s.p99 as nat),
        7,
    ) + " ns  P99.9="@ + right_aligned(decimal(s.p999 as nat), 7) + " ns  Max="@
        + right_aligned(decimal(max as nat), 7) + " ns  loss="@ + loss + "% ("@ + decimal(
        lost as nat,
    ) + " lost)"@
}

fn push_column(out: &mut String, name: &str, n: u64, width: usize)
    ensures
        final(out)@ == old(out)@ + name@ + right_aligned(decimal(n as nat), width as nat),
{
    out.append(name);
    push_right_aligned(out, decimal_text(n).as_str(), width);
}

/// The report line of a window; an empty one has none. `loss` is the share of lost
/// messages in percent, as the host wrote it.
pub fn bench_line(w: &BenchWindow, loss: &str) -> (r: Option<String>)
    ensures
        match r {
            Some(line) => w.latencies@.len() > 0 && exists|max: u64| #[trigger]
                is_greatest(w.latencies@, max) && line@ == bench_text(
                    summary_of(w.latencies@),
                    max,
                    loss@,
                    w.lost,
                ),
            None => w.latencies@.len() == 0,
        },
{
    let s = match summarize(w.latencies.as_slice()) {
        Some(s) => s,
        None => {
            return None;
        },
    };
    let max: u64 = greatest(&w.latencies);
    let mut out = String::new();
    push_column(&mut out, "n=", s.count as u64, 8);
    push_column(&mut out, "  Min=", s.min, 7);
    push_column(&mut out, " ns  P50=", s.p50, 7);
    push_column(&mut out, " ns  P99=", s.p99, 7);
    push_column(&mut out, " ns  P99.9=", s.p999, 7);
    push_column(&mut out, " ns  Max=", max, 7);
    out.append(" ns  loss=");
    out.append(loss);
    out.append("% (");
    push_decimal(&mut out, w.lost);
    out.append(" lost)");
    assert(out@ =~= bench_text(s, max, loss@, w.lost));
    assert(is_greatest(w.latencies@, max));
    Some(out)
}

/// The messages of the benchmark go round: prices from 5_000_000 on over a thousand ticks,
/// quantities from 100 on over fifty units, and the sides in turn, a buy first. Every message
/// is a new limit order under its own number.
pub proof fn law_messages_go_round(seq: u64, timestamp_ns: u64)
    requires
        seq < u64::MAX,
    ensures
        ({
            let a = message_of(seq, timestamp_ns);
            let b = message_of((seq + 1) as u64, timestamp_ns);
            &&& a.order_id == seq && a.timestamp_ns == timestamp_ns && a.origin_ts == 0
            &&& 5_000_000 <= a.price_ticks < 5_001_000
            &&& (a.price_ticks - 5_000_000 - seq) % 1000 == 0
            &&& 100 <= a.quantity < 150
            &&& (a.quantity - 100 - seq) % 50 == 0
            &&& a.side + b.side == 1
            &&& seq % 2 == 0 ==> a.side == 0
            &&& a.order_type == 1 && a.action == 0 && a.user_id == 1 && a.flags == 0 && a.priority
                == 0
            &&& a.symbol_id == 1 && a.exchange_id == 1
        }),
{
}

/// What is missing is what lies between the number that was expected and the one that came.
pub proof fn law_gaps_are_what_is_missing(expected: u64, id: u64)
    ensures
        id >= expected ==> expected + gap(Some(expected), id) == id,
        id <= expected ==> gap(Some(expected), id) == 0,
        gap(None, id) == 0,
{
}

/// After ten thousand messages of warm-up every message leaves its latency behind the others,
/// adds what was missing before it to the losses, and names the next number. Before that it
/// is only counted.
pub proof fn law_messages_are_measured_when_warm(s: BenchState, id: u64, latency_ns: u64)
    requires
        s.lost + gap(s.expected, id) <= u64::MAX,
    ensures
        ({
            let after = s.received(id, latency_ns);
            &&& s.warmed >= 10_000 ==> {
                &&& after.latencies == s.latencies.push(latency_ns)
                &&& after.lost == s.lost + gap(s.expected, id)
                &&& id < u64::MAX ==> after.expected == Some((id + 1) as u64)
                &&& id == u64::MAX ==> after.expected == Some(0u64)
                &&& after.warmed == s.warmed
            }
            &&& s.warmed < 10_000 ==> {
                &&& after.latencies == s.latencies
                &&& after.lost == s.lost
                &&& after.expected == s.expected
                &&& after.warmed == s.warmed + 1
            }
        }),
{
}

/// A window holds a hundred thousand latencies. The next one starts empty and without losses,
/// and goes on with the number that was expected.
pub proof fn law_windows_go_on_with_the_stream(s: BenchState)
    ensures
        REPORT_INTERVAL == 100_000 && PUBLISH_BATCH == 100_000,
        s.emptied().latencies.len() == 0,
        s.emptied().lost == 0,
        s.emptied().expected == s.expected,
        s.emptied().warmed == s.warmed,
        BenchState::fresh().latencies.len() == 0,
        BenchState::fresh().lost == 0,
        BenchState::fresh().warmed == 0,
        BenchState::fresh().expected is None,
{
}

/// A report line of the benchmark shows, in this order and each behind its name, the count,
/// the smallest latency, the three percentiles, the greatest latency and the losses.
pub proof fn law_bench_lines_name_their_numbers(
    s: WindowSummary,
    max: u64,
    loss: Seq<char>,
    lost: u64,
)
    ensures
        ({
            let column = |n: nat, width: nat| right_aligned(decimal(n), width);
            let counted = "n="@ + column(s.count as nat, 8);
            let least = counted + "  Min="@ + column(s.min as nat, 7);
            let median = least + " ns  P50="@ + column(s.p50 as nat, 7);
            let high = median + " ns  P99="@ + column(s.p99 as nat, 7);
            let higher = high + " ns  P99.9="@ + column(s.p999 as nat, 7);
            let greatest = higher + " ns  Max="@ + column(max as nat, 7);
            bench_text(s, max, loss, lost) == greatest + " ns  loss="@ + loss + "% ("@ + decimal(
                lost as nat,
            ) + " lost)"@
        }),
{
}

/// The greatest sample is the only one that is.
pub proof fn law_one_sample_is_the_greatest(samples: Seq<u64>, a: u64, b: u64)
    requires
        is_greatest(samples, a),
        samples.contains(b),
    ensures
        b <= a,
        is_greatest(samples, b) ==> a == b,
{
    let i = samples.index_of(b);
    assert(samples[i] <= a);
    if is_greatest(samples, b) {
        let j = samples.index_of(a);
        assert(samples[j] <= b);
    }
}

} // verus!
