//! Latency windows that keep the expensive work off the hot path.
//!
//! A stage on the hot path records one sample per event, and [`LatencyWindow::push`] only
//! appends it to a buffer. A window that is full, or old enough, is handed over as a
//! [`Batch`]; sorting it, taking its percentiles and writing its report line happen on a
//! reporter thread of the host.

pub use crate::percentile::percentile_index;
use crate::percentile::{
    ascending, at_most, law_ends_are_the_extremes, law_percentiles_split_the_samples,
    lemma_ascending, less_than, rank_index, sort,
};
use crate::text::{decimal, decimal_text, left_aligned, push_left_aligned};
use vstd::prelude::*;
use vstd::string::StringExecFns;

verus! {

/// Samples to consume before recording begins, so that first-touch outliers do not pollute
/// the distribution.
pub const WARMUP_SAMPLES: u64 = 200;

/// A window is handed over once it reaches this many samples...
pub const FLUSH_SAMPLES: usize = 2_000;

/// ...or this many nanoseconds after it was last handed over, whichever comes first.
pub const FLUSH_INTERVAL_NS: u64 = 1_500_000_000;

/// `b - a`, and 0 where the clock ran backwards.
pub open spec fn elapsed(a: u64, b: u64) -> u64 {
    if b > a {
        (b - a) as u64
    } else {
        0
    }
}

/// The least of the measured costs; the greatest number where there are none.
pub open spec fn least_cost(trials: Seq<(u64, u64)>) -> u64
    decreases trials.len(),
{
    if trials.len() == 0 {
        u64::MAX
    } else {
        let before = least_cost(trials.drop_last());
        let here = elapsed(trials.last().0, trials.last().1);
        if here < before {
            here
        } else {
            before
        }
    }
}

/// The floor of some trials: their least cost, or 0 where no trial is usable.
pub open spec fn floor_cost(trials: Seq<(u64, u64)>) -> u64 {
    if least_cost(trials) == u64::MAX {
        0
    } else {
        least_cost(trials)
    }
}

/// The irreducible cost of a time-stamp read, from trials of two reads back to back: the
/// least difference, which is the one without interference. No usable trial gives 0.
pub fn floor_of(trials: &[(u64, u64)]) -> (r: u64)
    ensures
        r == floor_cost(trials@),
{
    let mut floor: u64 = u64::MAX;
    let mut k: usize = 0;
    while k < trials.len()
        invariant
            k <= trials@.len(),
            floor == least_cost(trials@.take(k as int)),
        decreases trials@.len() - k,
    {
        assert(trials@.take(k + 1).drop_last() =~= trials@.take(k as int));
        let (a, b): (u64, u64) = trials[k];
        let d: u64 = b.saturating_sub(a);
        if d < floor {
            floor = d;
        }
        k = k + 1;
    }
    assert(trials@.take(k as int) =~= trials@);
    if floor == u64::MAX {
        0
    } else {
        floor
    }
}

/// How many reads warm the counter up, and how many trials follow.
pub const FLOOR_WARMUP: usize = 1_000;

pub const FLOOR_TRIALS: usize = 10_000;

/// The trials are the reads of the counter that follow the warm-up, in order, two for each.
/// `read` is told how many reads came before.
pub open spec fn read_by<C: Fn(usize) -> u64>(read: C, trials: Seq<(u64, u64)>) -> bool {
    forall|i: int|
        #![trigger trials[i]]
        0 <= i < trials.len() ==> read.ensures(
            ((FLOOR_WARMUP + 2 * i) as usize,),
            trials[i].0,
        ) && read.ensures(((FLOOR_WARMUP + 2 * i + 1) as usize,), trials[i].1)
}

/// Calibrates the irreducible cost of the time-stamp read `read`: warms it up, reads it
/// back to back many times, and takes the floor of these trials. `read` is told how many
/// reads came before.
pub fn calibrate_rdtsc_floor<C: Fn(usize) -> u64>(read: C) -> (r: u64)
    requires
        forall|k: usize| k < FLOOR_WARMUP + 2 * FLOOR_TRIALS ==> #[trigger] read.requires((k,)),
    ensures
        exists|trials: Seq<(u64, u64)>|
            trials.len() == FLOOR_TRIALS && read_by(read, trials) && r == #[trigger] floor_cost(
                trials,
            ),
{
    let mut k: usize = 0;
    while k < FLOOR_WARMUP
        invariant
            k <= FLOOR_WARMUP,
            forall|k: usize|
                k < FLOOR_WARMUP + 2 * FLOOR_TRIALS ==> #[trigger] read.requires((k,)),
        decreases FLOOR_WARMUP - k,
    {
        let _ = read(k);
        k = k + 1;
    }
    let mut trials: Vec<(u64, u64)> = Vec::with_capacity(FLOOR_TRIALS);
    let mut n: usize = 0;
    while n < FLOOR_TRIALS
        invariant
            n <= FLOOR_TRIALS,
            forall|k: usize|
                k < FLOOR_WARMUP + 2 * FLOOR_TRIALS ==> #[trigger] read.requires((k,)),
            trials@.len() == n,
            read_by(read, trials@),
        decreases FLOOR_TRIALS - n,
    {
        let at: usize = FLOOR_WARMUP + 2 * n;
        let a: u64 = read(at);
        let b: u64 = read(at + 1);
        trials.push((a, b));
        n = n + 1;
    }
    floor_of(trials.as_slice())
}

/// Times a closure by the counter `clock`, which is read once before it and once after it
/// and is told how many reads came before: what it returns, and the ticks it took.
pub fn time_ns<C: Fn(usize) -> u64, F: FnOnce() -> R, R>(clock: C, f: F) -> (r: (R, u64))
    requires
        clock.requires((0,)),
        clock.requires((1,)),
        f.requires(()),
    ensures
        f.ensures((), r.0),
        exists|a: u64, b: u64|
            clock.ensures((0,), a) && clock.ensures((1,), b) && r.1 == #[trigger] elapsed(a, b),
{
    let a: u64 = clock(0);
    let r = f();
    let b: u64 = clock(1);
    assert(b.saturating_sub(a) == elapsed(a, b));
    (r, b.saturating_sub(a))
}

/// The floor is no greater than any measured cost, and is one of them.
pub proof fn law_floor_is_the_least_cost(trials: Seq<(u64, u64)>)
    requires
        trials.len() > 0,
    ensures
        forall|i: int|
            0 <= i < trials.len() ==> least_cost(trials) <= elapsed(
                (#[trigger] trials[i]).0,
                trials[i].1,
            ),
        exists|i: int|
            0 <= i < trials.len() && least_cost(trials) == elapsed(
                (#[trigger] trials[i]).0,
                trials[i].1,
            ),
    decreases trials.len(),
{
    let front = trials.drop_last();
    let last = trials.len() - 1;
    assert(trials[last] == trials.last());
    if front.len() == 0 {
        assert(least_cost(front) == u64::MAX);
        assert(least_cost(trials) == elapsed(trials[last].0, trials[last].1));
    } else {
        law_floor_is_the_least_cost(front);
        let j = choose|i: int|
            0 <= i < front.len() && least_cost(front) == elapsed(
                (#[trigger] front[i]).0,
                front[i].1,
            );
        assert(trials[j] == front[j]);
        assert forall|i: int| 0 <= i < trials.len() implies least_cost(trials) <= elapsed(
            (#[trigger] trials[i]).0,
            trials[i].1,
        ) by {
            if i < front.len() {
                assert(front[i] == trials[i]);
            }
        }
    }
}

/// A window that was handed over.
#[derive(Debug)]
pub struct Batch {
    pub label: &'static str,
    pub samples: Vec<u64>,
}

/// A window as mathematics.
#[verifier::ext_equal]
pub struct WindowState {
    pub label: Seq<char>,
    pub samples: Seq<u64>,
    /// Samples that came in, warm-up ones too.
    pub seen: u64,
    /// When the window was last handed over.
    pub last_flush: u64,
}

impl WindowState {
    /// The window with one more sample, before it may be handed over.
    pub open spec fn recorded(self, ns: u64) -> WindowState {
        WindowState {
            samples: if self.seen < WARMUP_SAMPLES {
                self.samples
            } else {
                self.samples.push(ns)
            },
            seen: (self.seen + 1) as u64,
            ..self
        }
    }

    /// The sample that makes the window `now` full or old hands it over.
    pub open spec fn flushes(self, now: u64) -> bool {
        self.seen >= WARMUP_SAMPLES && (self.samples.len() + 1 >= FLUSH_SAMPLES || elapsed(
            self.last_flush,
            now,
        ) >= FLUSH_INTERVAL_NS)
    }
}

/// A single named latency window.
pub struct LatencyWindow {
    label: &'static str,
    buf: Vec<u64>,
    seen: u64,
    last_flush: u64,
}

impl LatencyWindow {
    pub closed spec fn view(&self) -> WindowState {
        WindowState {
            label: self.label@,
            samples: self.buf@,
            seen: self.seen,
            last_flush: self.last_flush,
        }
    }

    /// An empty window, at the time `now` of the host's clock in nanoseconds.
    pub fn new(label: &'static str, now: u64) -> (r: Self)
        ensures
            r@ == (WindowState { label: label@, samples: seq![], seen: 0, last_flush: now }),
    {
        let r = LatencyWindow {
            label,
            buf: Vec::with_capacity(FLUSH_SAMPLES),
            seen: 0,
            last_flush: now,
        };
        assert(r@ =~= (WindowState { label: label@, samples: seq![], seen: 0, last_flush: now }));
        r
    }

    /// How many samples wait to be handed over.
    pub fn len(&self) -> (r: usize)
        ensures
            r == self@.samples.len(),
    {
        self.buf.len()
    }

    /// Records one sample, already in nanoseconds. Warm-up samples are only counted. The
    /// window is handed over when the sample fills it, or when it has not been for long.
    pub fn push(&mut self, ns: u64, now: u64) -> (r: Option<Batch>)
        requires
            old(self)@.seen < u64::MAX,
        ensures
            if old(self)@.flushes(now) {
                &&& r matches Some(batch) && batch.label@ == old(self)@.label
                    && batch.samples@ == old(self)@.recorded(ns).samples
                &&& final(self)@ == (WindowState {
                    samples: seq![],
                    last_flush: now,
                    ..old(self)@.recorded(ns)
                })
            } else {
                r is None && final(self)@ == old(self)@.recorded(ns)
            },
    {
        let ghost before = self@;
        self.seen = self.seen + 1;
        if self.seen <= WARMUP_SAMPLES {
            assert(self@ =~= before.recorded(ns));
            return None;
        }
        self.buf.push(ns);
        assert(self@ =~= before.recorded(ns));
        if self.buf.len() >= FLUSH_SAMPLES || now.saturating_sub(self.last_flush)
            >= FLUSH_INTERVAL_NS {
            Some(self.flush(now))
        } else {
            None
        }
    }

    /// Hands the window over and starts a fresh one.
    fn flush(&mut self, now: u64) -> (r: Batch)
        ensures
            r.label@ == old(self)@.label,
            r.samples@ == old(self)@.samples,
            final(self)@ == (WindowState { samples: seq![], last_flush: now, ..old(self)@ }),
    {
        let ghost before = self@;
        let mut fresh: Vec<u64> = Vec::with_capacity(FLUSH_SAMPLES);
        std::mem::swap(&mut self.buf, &mut fresh);
        self.last_flush = now;
        assert(self@ =~= (WindowState { samples: seq![], last_flush: now, ..before }));
        Batch { label: self.label, samples: fresh }
    }
}

/// All samples of a sequence of pushes, the ones of the warm-up left out.
pub open spec fn counted(seen: u64, samples: Seq<u64>) -> Seq<u64> {
    if seen >= WARMUP_SAMPLES {
        samples
    } else if samples.len() <= WARMUP_SAMPLES - seen {
        seq![]
    } else {
        samples.skip(WARMUP_SAMPLES - seen)
    }
}

/// A window after pushes of `samples` at the times `times`, with all that it handed over
/// put together.
pub open spec fn after_pushes(w: WindowState, samples: Seq<u64>, times: Seq<u64>) -> (
    WindowState,
    Seq<u64>,
)
    decreases samples.len(),
{
    if samples.len() == 0 {
        (w, seq![])
    } else {
        let (mid, out) = after_pushes(w, samples.drop_last(), times.drop_last());
        let next = mid.recorded(samples.last());
        if mid.flushes(times.last()) {
            (
                WindowState { samples: seq![], last_flush: times.last(), ..next },
                out + next.samples,
            )
        } else {
            (next, out)
        }
    }
}

/// No sample after the warm-up is lost or recorded twice: what a window handed over,
/// followed by what it still holds, is every sample after the warm-up, in order.
pub proof fn law_no_sample_is_lost(w: WindowState, samples: Seq<u64>, times: Seq<u64>)
    requires
        times.len() == samples.len(),
        w.seen + samples.len() <= u64::MAX,
    ensures
        ({
            let (after, out) = after_pushes(w, samples, times);
            &&& out + after.samples == w.samples + counted(w.seen, samples)
            &&& after.seen == w.seen + samples.len()
        }),
    decreases samples.len(),
{
    if samples.len() == 0 {
        assert(w.samples + counted(w.seen, samples) =~= w.samples);
        assert(seq![] + w.samples =~= w.samples);
    } else {
        let front = samples.drop_last();
        law_no_sample_is_lost(w, front, times.drop_last());
        let (mid, out) = after_pushes(w, front, times.drop_last());
        let (after, all) = after_pushes(w, samples, times);
        let next = mid.recorded(samples.last());
        assert(all + after.samples =~= out + next.samples);
        assert(samples =~= front.push(samples.last()));
        if mid.seen < WARMUP_SAMPLES {
            assert(counted(w.seen, samples) =~= seq![]);
            assert(counted(w.seen, front) =~= seq![]);
        } else {
            assert(counted(w.seen, samples) =~= counted(w.seen, front).push(samples.last()));
            assert(out + next.samples =~= (out + mid.samples).push(samples.last()));
            assert(w.samples + counted(w.seen, samples) =~= (w.samples + counted(
                w.seen,
                front,
            )).push(samples.last()));
        }
    }
}

/// The order statistics of a window, in nanoseconds.
#[derive(Clone, Copy, PartialEq, Eq, Structural, Debug)]
pub struct WindowSummary {
    pub count: usize,
    pub min: u64,
    pub p50: u64,
    pub p99: u64,
    pub p999: u64,
}

/// Samples as wide integers.
pub open spec fn widened(samples: Seq<u64>) -> Seq<u128> {
    samples.map_values(|x: u64| x as u128)
}

/// The summary of some samples.
pub open spec fn summary_of(samples: Seq<u64>) -> WindowSummary {
    let s = ascending(widened(samples));
    WindowSummary {
        count: samples.len() as usize,
        min: s[0] as u64,
        p50: s[rank_index(samples.len(), 500) as int] as u64,
        p99: s[rank_index(samples.len(), 990) as int] as u64,
        p999: s[rank_index(samples.len(), 999) as int] as u64,
    }
}

/// The smallest sample and the percentiles 50, 99 and 99.9 of a window; nothing for an
/// empty one.
pub fn summarize(samples: &[u64]) -> (r: Option<WindowSummary>)
    ensures
        r == if samples@.len() == 0 {
            None::<WindowSummary>
        } else {
            Some(summary_of(samples@))
        },
{
    let n: usize = samples.len();
    if n == 0 {
        return None;
    }
    let mut wide: Vec<u128> = Vec::new();
    let mut k: usize = 0;
    while k < n
        invariant
            k <= n,
            n == samples@.len(),
            wide@ == widened(samples@.take(k as int)),
        decreases n - k,
    {
        wide.push(samples[k] as u128);
        k = k + 1;
        assert(wide@ =~= widened(samples@.take(k as int)));
    }
    assert(samples@.take(k as int) =~= samples@);
    sort(&mut wide);
    Some(
        WindowSummary {
            count: n,
            min: wide[0] as u64,
            p50: wide[percentile_index(n, 500)] as u64,
            p99: wide[percentile_index(n, 990)] as u64,
            p999: wide[percentile_index(n, 999)] as u64,
        },
    )
}

/// The report line of a window.
pub open spec fn report_text(label: Seq<char>, s: WindowSummary) -> Seq<char> {
    "LAT "@ + left_aligned(label, 13) + " n="@ + left_aligned(decimal(s.count as nat), 7)
        + " min="@ + left_aligned(decimal(s.min as nat), 5) + " p50="@ + left_aligned(
        decimal(s.p50 as nat),
        5,
    ) + " p99="@ + left_aligned(decimal(s.p99 as nat), 6) + " p999="@ + left_aligned(
        decimal(s.p999 as nat),
        6,
    ) + " ns"@
}

fn push_field(out: &mut String, name: &str, n: u64, width: usize)
    ensures
        final(out)@ == old(out)@ + name@ + left_aligned(decimal(n as nat), width as nat),
{
    out.append(name);
    push_left_aligned(out, decimal_text(n).as_str(), width);
}

/// The report line of a window. The `LAT` prefix is a stable marker that readers of the
/// output look for.
pub fn report_line(label: &str, s: &WindowSummary) -> (r: String)
    ensures
        r@ == report_text(label@, *s),
{
    let mut out = String::new();
    out.append("LAT ");
    push_left_aligned(&mut out, label, 13);
    push_field(&mut out, " n=", s.count as u64, 7);
    push_field(&mut out, " min=", s.min, 5);
    push_field(&mut out, " p50=", s.p50, 5);
    push_field(&mut out, " p99=", s.p99, 6);
    push_field(&mut out, " p999=", s.p999, 6);
    out.append(" ns");
    assert(out@ =~= report_text(label@, *s));
    out
}

/// The time between two reads is their difference, and none where the clock ran backwards.
pub proof fn law_elapsed_is_the_difference(a: u64, b: u64)
    ensures
        a <= b ==> a + elapsed(a, b) == b,
        a >= b ==> elapsed(a, b) == 0,
{
}

/// The floor is the difference of one of the trials and no trial has a smaller one, a read
/// that ran backwards counting as none. Where no trial took less than the greatest time
/// there is, the floor is 0. It is taken over ten thousand trials, after a thousand that do
/// not count.
pub proof fn law_the_floor_is_measured(trials: Seq<(u64, u64)>)
    ensures
        ({
            let floor = floor_cost(trials);
            let usable = exists|i: int|
                0 <= i < trials.len() && (#[trigger] trials[i]).1 - trials[i].0 < u64::MAX;
            &&& usable ==> forall|i: int|
                0 <= i < trials.len() ==> floor + (#[trigger] trials[i]).0 <= trials[i].1
                    || floor == 0
            &&& usable ==> exists|i: int|
                0 <= i < trials.len() && ((#[trigger] trials[i]).0 + floor == trials[i].1
                    || trials[i].0 >= trials[i].1 && floor == 0)
            &&& !usable ==> floor == 0
            &&& FLOOR_WARMUP == 1_000 && FLOOR_TRIALS == 10_000
        }),
{
    if trials.len() > 0 {
        law_floor_is_the_least_cost(trials);
        let i = choose|i: int|
            0 <= i < trials.len() && least_cost(trials) == elapsed(
                (#[trigger] trials[i]).0,
                trials[i].1,
            );
        if exists|j: int|
            0 <= j < trials.len() && (#[trigger] trials[j]).1 - trials[j].0 < u64::MAX {
            let j = choose|j: int|
                0 <= j < trials.len() && (#[trigger] trials[j]).1 - trials[j].0 < u64::MAX;
            assert(least_cost(trials) <= elapsed(trials[j].0, trials[j].1));
        }
        assert(trials[i].0 + floor_cost(trials) == trials[i].1 || trials[i].0 >= trials[i].1
            && floor_cost(trials) == 0 || trials[i].1 - trials[i].0 == u64::MAX);
    }
}

/// A window is handed over with the sample that is its 2000th, or the first to come 1.5
/// seconds or more after the last time; and never in the warm-up, the first 200 samples.
pub proof fn law_windows_are_handed_over_when_due(w: WindowState, ns: u64, now: u64)
    requires
        w.seen < u64::MAX,
    ensures
        w.seen < 200 ==> !w.flushes(now) && w.recorded(ns).samples == w.samples,
        w.seen >= 200 ==> w.recorded(ns).samples == w.samples.push(ns),
        w.seen >= 200 ==> (w.flushes(now) <==> w.recorded(ns).samples.len() >= 2_000 || now
            >= w.last_flush + 1_500_000_000),
        w.recorded(ns).seen == w.seen + 1,
        w.recorded(ns).label == w.label,
        w.recorded(ns).last_flush == w.last_flush,
{
}

/// A window never holds 2000 samples between two pushes, and never hands over more.
pub proof fn law_windows_stay_small(w: WindowState, samples: Seq<u64>, times: Seq<u64>, ns: u64)
    requires
        times.len() == samples.len(),
        w.samples.len() < 2_000,
        w.seen + samples.len() < u64::MAX,
    ensures
        after_pushes(w, samples, times).0.samples.len() < 2_000,
        after_pushes(w, samples, times).0.recorded(ns).samples.len() <= 2_000,
    decreases samples.len(),
{
    if samples.len() > 0 {
        law_windows_stay_small(w, samples.drop_last(), times.drop_last(), samples.last());
        law_no_sample_is_lost(w, samples.drop_last(), times.drop_last());
    }
}

/// What a summary says of its samples: their number, the least of them, and for each
/// percentile one of them, such that at least that share of them is no greater and less
/// than that share is smaller.
pub proof fn law_summaries_describe_their_samples(samples: Seq<u64>)
    requires
        0 < samples.len() <= usize::MAX,
    ensures
        ({
            let s = summary_of(samples);
            let n = samples.len();
            let wide = widened(samples);
            &&& s.count == n
            &&& samples.contains(s.min)
            &&& forall|i: int| 0 <= i < n ==> s.min <= #[trigger] samples[i]
            &&& samples.contains(s.p50) && 1000 * at_most(wide, s.p50 as u128) >= 500 * n && 1000
                * less_than(wide, s.p50 as u128) < 500 * n
            &&& samples.contains(s.p99) && 1000 * at_most(wide, s.p99 as u128) >= 990 * n && 1000
                * less_than(wide, s.p99 as u128) < 990 * n
            &&& samples.contains(s.p999) && 1000 * at_most(wide, s.p999 as u128) >= 999 * n
                && 1000 * less_than(wide, s.p999 as u128) < 999 * n
        }),
{
    let wide = widened(samples);
    let n = samples.len();
    let s = ascending(wide);
    law_ends_are_the_extremes(wide);
    lemma_ascending(wide);
    lemma_narrow(samples, s[0]);
    assert forall|i: int| 0 <= i < n implies s[0] <= #[trigger] samples[i] by {
        assert(wide[i] == samples[i] as u128);
    }
    law_percentiles_split_the_samples(wide, 500);
    law_percentiles_split_the_samples(wide, 990);
    law_percentiles_split_the_samples(wide, 999);
    lemma_narrow(samples, s[rank_index(n, 500) as int]);
    lemma_narrow(samples, s[rank_index(n, 990) as int]);
    lemma_narrow(samples, s[rank_index(n, 999) as int]);
}

proof fn lemma_narrow(samples: Seq<u64>, x: u128)
    requires
        widened(samples).contains(x),
    ensures
        x <= u64::MAX,
        samples.contains(x as u64),
{
    let i = widened(samples).index_of(x);
    assert(samples[i] as u128 == x);
    assert(samples[i] == x as u64);
}

/// A report line begins with its marker and its label, and ends with the unit. In between
/// stand, in this order and each behind its name, the count, the smallest sample and the
/// three percentiles of the window.
pub proof fn law_report_lines_name_their_numbers(label: Seq<char>, s: WindowSummary)
    ensures
        ({
            let line = report_text(label, s);
            let column = |n: nat, width: nat| left_aligned(decimal(n), width);
            let head = "LAT "@ + left_aligned(label, 13);
            let counted = head + " n="@ + column(s.count as nat, 7);
            let least = counted + " min="@ + column(s.min as nat, 5);
            let median = least + " p50="@ + column(s.p50 as nat, 5);
            let high = median + " p99="@ + column(s.p99 as nat, 6);
            line == high + " p999="@ + column(s.p999 as nat, 6) + " ns"@
        }),
{
}

/// The two reads of a trial are consecutive ones, and so are those of two trials: the first
/// trial has the reads behind the thousand of the warm-up.
pub proof fn law_trials_are_read_in_turn<C: Fn(usize) -> u64>(
    read: C,
    trials: Seq<(u64, u64)>,
    i: int,
)
    requires
        read_by(read, trials),
        0 <= i < trials.len(),
    ensures
        read.ensures(((1_000 + 2 * i) as usize,), trials[i].0),
        read.ensures(((1_001 + 2 * i) as usize,), trials[i].1),
{
    assert(trials[i] == trials[i]);
}

} // verus!
