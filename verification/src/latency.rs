//! Percentile statistics per named operation, off the hot path.
//!
//! Times and durations are nanoseconds. The host reads the clock and serialises the
//! callers.

use crate::entries::{
    distinct_keys, key_index, keyed, lemma_key_index, lemma_key_index_is, lemma_put,
    lemma_put_distinct, lemma_same_keys, lookup, position, put, text_pairs,
};
use crate::percentile::{
    ascending, at_most, law_ends_are_the_extremes, law_percentiles_split_the_samples, less_than,
    percentile_index, rank_index, sort,
};
use crate::text::is_word;
use vstd::prelude::*;

pub mod thresholds;

verus! {

/// How many measurements an operation keeps.
pub const MAX_MEASUREMENTS: usize = 10_000;

/// The longest duration: all seconds that a `u64` counts, and one nanosecond less than
/// another.
pub const MAX_DURATION: u128 = 18_446_744_073_709_551_615_999_999_999;

/// Above this a latency is high.
pub const HIGH: u128 = 100_000;

/// Above this a latency is moderate.
pub const MODERATE: u128 = 10_000;

/// Percentile statistics for one named operation.
#[derive(Clone, Copy, PartialEq, Eq, Structural, Debug)]
pub struct LatencyStats {
    pub min: u128,
    pub max: u128,
    pub mean: u128,
    pub median: u128,
    pub p95: u128,
    pub p99: u128,
    pub p999: u128,
    pub count: u64,
    pub total: u128,
}

impl LatencyStats {
    pub open spec fn zero() -> LatencyStats {
        LatencyStats {
            min: 0,
            max: 0,
            mean: 0,
            median: 0,
            p95: 0,
            p99: 0,
            p999: 0,
            count: 0,
            total: 0,
        }
    }
}

impl Default for LatencyStats {
    fn default() -> (r: Self)
        ensures
            r == LatencyStats::zero(),
    {
        LatencyStats {
            min: 0,
            max: 0,
            mean: 0,
            median: 0,
            p95: 0,
            p99: 0,
            p999: 0,
            count: 0,
            total: 0,
        }
    }
}

/// A single measurement.
#[derive(Debug, Clone)]
pub struct LatencyMeasurement {
    pub operation: String,
    pub start_time: u128,
    pub end_time: u128,
    pub duration: u128,
    pub metadata: Vec<(String, String)>,
}

/// A measurement as mathematics.
#[verifier::ext_equal]
pub struct Sample {
    pub operation: Seq<char>,
    pub start_time: u128,
    pub end_time: u128,
    pub duration: u128,
    pub metadata: Seq<(Seq<char>, Seq<char>)>,
}

impl LatencyMeasurement {
    pub open spec fn view(&self) -> Sample {
        Sample {
            operation: self.operation@,
            start_time: self.start_time,
            end_time: self.end_time,
            duration: self.duration,
            metadata: text_pairs(self.metadata@),
        }
    }
}

/// How a latency is to be logged.
#[derive(Clone, Copy, PartialEq, Eq, Structural, Debug)]
pub enum Severity {
    High,
    Moderate,
    Normal,
}

pub open spec fn severity_of(duration: u128) -> Severity {
    if duration > HIGH {
        Severity::High
    } else if duration > MODERATE {
        Severity::Moderate
    } else {
        Severity::Normal
    }
}

pub open spec fn durations(samples: Seq<Sample>) -> Seq<u128> {
    samples.map_values(|s: Sample| s.duration)
}

pub open spec fn sum(s: Seq<u128>) -> nat
    decreases s.len(),
{
    if s.len() == 0 {
        0
    } else {
        sum(s.drop_last()) + s.last() as nat
    }
}

/// The statistics of some durations: nearest-rank percentiles, and a mean rounded down.
pub open spec fn stats_of(ds: Seq<u128>) -> LatencyStats {
    let s = ascending(ds);
    let n = ds.len();
    LatencyStats {
        min: s[0],
        max: s[n - 1],
        mean: (sum(ds) / n) as u128,
        median: s[rank_index(n, 500) as int],
        p95: s[rank_index(n, 950) as int],
        p99: s[rank_index(n, 990) as int],
        p999: s[rank_index(n, 999) as int],
        count: n as u64,
        total: sum(ds) as u128,
    }
}

/// What is known of one operation.
#[verifier::ext_equal]
pub struct Operation {
    /// The latest measurements, oldest first.
    pub samples: Seq<Sample>,
    pub stats: LatencyStats,
}

/// The measurements with one more; the oldest leaves when there are too many.
pub open spec fn appended(samples: Seq<Sample>, s: Sample) -> Seq<Sample> {
    if samples.len() >= MAX_MEASUREMENTS {
        samples.push(s).drop_first()
    } else {
        samples.push(s)
    }
}

/// What is known of the operations once `s` is recorded.
pub open spec fn recorded(m: Seq<(Seq<char>, Operation)>, s: Sample) -> Seq<
    (Seq<char>, Operation),
> {
    let before = match lookup(m, s.operation) {
        Some(op) => op.samples,
        None => seq![],
    };
    let samples = appended(before, s);
    put(m, s.operation, Operation { samples, stats: stats_of(durations(samples)) })
}

/// The sample of a measurement that ended `now`. A start before the clock's origin counts
/// as now.
pub open spec fn sample_of(
    operation: Seq<char>,
    duration: u128,
    now: u128,
    metadata: Seq<(Seq<char>, Seq<char>)>,
) -> Sample {
    Sample {
        operation,
        start_time: if duration <= now {
            (now - duration) as u128
        } else {
            now
        },
        end_time: now,
        duration,
        metadata,
    }
}

struct OperationLog {
    name: String,
    measurements: Vec<LatencyMeasurement>,
    stats: LatencyStats,
}

spec fn sample_views(v: Seq<LatencyMeasurement>) -> Seq<Sample> {
    Seq::new(v.len(), |i: int| v[i]@)
}

spec fn log_view(log: OperationLog) -> (Seq<char>, Operation) {
    (log.name@, Operation { samples: sample_views(log.measurements@), stats: log.stats })
}

spec fn log_views(v: Seq<OperationLog>) -> Seq<(Seq<char>, Operation)> {
    Seq::new(v.len(), |i: int| log_view(v[i]))
}

/// Collects measurements per operation and derives percentile statistics.
pub struct LatencyMonitor {
    operations: Vec<OperationLog>,
}

/// No operation occurs twice. Every operation has measurements, not too many of them and
/// none too long, and its statistics are theirs.
pub open spec fn monitor_valid(m: Seq<(Seq<char>, Operation)>) -> bool {
    &&& distinct_keys(m)
    &&& forall|i: int|
        0 <= i < m.len() ==> {
            let op = (#[trigger] m[i]).1;
            &&& 0 < op.samples.len() <= MAX_MEASUREMENTS
            &&& op.stats == stats_of(durations(op.samples))
            &&& forall|j: int|
                0 <= j < op.samples.len() ==> (#[trigger] op.samples[j]).duration <= MAX_DURATION
        }
}

impl Default for LatencyMonitor {
    fn default() -> (r: Self)
        ensures
            r.wf(),
            r@.len() == 0,
    {
        Self::new()
    }
}

impl LatencyMonitor {
    /// What is known of each operation, by name.
    pub closed spec fn view(&self) -> Seq<(Seq<char>, Operation)> {
        log_views(self.operations@)
    }

    pub open spec fn wf(&self) -> bool {
        monitor_valid(self@)
    }

    pub fn new() -> (r: Self)
        ensures
            r.wf(),
            r@.len() == 0,
    {
        LatencyMonitor { operations: Vec::new() }
    }

    fn find(&self, operation: &str) -> (k: usize)
        ensures
            k == key_index(self@, operation@),
            k <= self@.len(),
    {
        let ghost m = self@;
        let mut k: usize = 0;
        while k < self.operations.len()
            invariant
                k <= self.operations@.len(),
                m == log_views(self.operations@),
                forall|i: int| 0 <= i < k ==> (#[trigger] m[i]).0 != operation@,
            decreases self.operations@.len() - k,
        {
            if is_word(&self.operations[k].name, operation) {
                proof {
                    lemma_key_index_is(m, operation@, k as int);
                }
                return k;
            }
            assert(m[k as int].0 != operation@);
            k = k + 1;
        }
        proof {
            lemma_key_index_is(m, operation@, k as int);
        }
        k
    }

    /// Records a latency for `operation` that ended `now`, and says how to log it.
    pub fn record_operation_latency(&mut self, operation: &str, duration: u128, now: u128) -> (r:
        Severity)
        requires
            old(self).wf(),
            duration <= MAX_DURATION,
        ensures
            final(self).wf(),
            r == severity_of(duration),
            final(self)@ == recorded(
                old(self)@,
                sample_of(operation@, duration, now, seq![]),
            ),
    {
        let none: Vec<(String, String)> = Vec::new();
        assert(text_pairs(none@) =~= seq![]);
        self.record_operation_latency_with_metadata(operation, duration, now, none)
    }

    /// Records a latency with attached metadata.
    pub fn record_operation_latency_with_metadata(
        &mut self,
        operation: &str,
        duration: u128,
        now: u128,
        metadata: Vec<(String, String)>,
    ) -> (r: Severity)
        requires
            old(self).wf(),
            duration <= MAX_DURATION,
        ensures
            final(self).wf(),
            r == severity_of(duration),
            final(self)@ == recorded(
                old(self)@,
                sample_of(
                    operation@,
                    duration,
                    now,
                    text_pairs(metadata@),
                ),
            ),
    {
        let ghost before = self@;
        let measurement = LatencyMeasurement {
            operation: operation.to_owned(),
            start_time: if duration <= now {
                now - duration
            } else {
                now
            },
            end_time: now,
            duration,
            metadata,
        };
        let ghost sample = measurement@;
        let k: usize = self.find(operation);
        if k < self.operations.len() {
            assert(before[k as int] == log_view(self.operations@[k as int]));
            proof {
                lemma_key_index(before, operation@);
            }
            self.add_to(k, measurement);
            assert(self@ =~= recorded(before, sample));
        } else {
            let mut measurements: Vec<LatencyMeasurement> = Vec::new();
            measurements.push(measurement);
            assert(sample_views(measurements@) =~= appended(seq![], sample));
            let stats = recompute_stats(&measurements);
            self.operations.push(
                OperationLog { name: operation.to_owned(), measurements, stats },
            );
            assert(self@ =~= recorded(before, sample));
        }
        proof {
            lemma_put_distinct(before, operation@, recorded(before, sample)[k as int].1);
            let samples = recorded(before, sample)[k as int].1.samples;
            assert forall|j: int| 0 <= j < samples.len() implies (#[trigger] samples[j]).duration
                <= MAX_DURATION by {
                if k < before.len() {
                    let old_samples = before[k as int].1.samples;
                    if old_samples.len() >= MAX_MEASUREMENTS {
                        if j + 1 < old_samples.len() {
                            assert(samples[j] == old_samples[j + 1]);
                        }
                    } else if j < old_samples.len() {
                        assert(samples[j] == old_samples[j]);
                    }
                }
            }
            assert forall|i: int| 0 <= i < self@.len() implies ({
                let op = (#[trigger] self@[i]).1;
                &&& 0 < op.samples.len() <= MAX_MEASUREMENTS
                &&& op.stats == stats_of(durations(op.samples))
                &&& forall|j: int|
                    0 <= j < op.samples.len() ==> (#[trigger] op.samples[j]).duration
                        <= MAX_DURATION
            }) by {
                if i != k {
                    assert(self@[i] == before[i]);
                }
            }
        }
        if duration > HIGH {
            Severity::High
        } else if duration > MODERATE {
            Severity::Moderate
        } else {
            Severity::Normal
        }
    }

    /// Appends a measurement to a known operation and brings its statistics up to date.
    fn add_to(&mut self, k: usize, measurement: LatencyMeasurement)
        requires
            k < old(self).operations@.len(),
            old(self).wf(),
            measurement.duration <= MAX_DURATION,
        ensures
            ({
                let op = log_view(old(self).operations@[k as int]);
                let samples = appended(op.1.samples, measurement@);
                final(self)@ == old(self)@.update(
                    k as int,
                    (op.0, Operation { samples, stats: stats_of(durations(samples)) }),
                )
            }),
    {
        let ghost before = self@;
        let ghost op = log_view(self.operations@[k as int]);
        assert(before[k as int] == op);
        let mut log = self.operations.remove(k);
        let ghost sample = measurement@;
        log.measurements.push(measurement);
        assert(sample_views(log.measurements@) =~= op.1.samples.push(sample));
        if log.measurements.len() > MAX_MEASUREMENTS {
            log.measurements.remove(0);
        }
        assert(sample_views(log.measurements@) =~= appended(op.1.samples, sample));
        proof {
            let samples = appended(op.1.samples, sample);
            assert forall|j: int| 0 <= j < samples.len() implies (#[trigger] samples[j]).duration
                <= MAX_DURATION by {
                if op.1.samples.len() >= MAX_MEASUREMENTS {
                    if j + 1 < op.1.samples.len() {
                        assert(samples[j] == op.1.samples[j + 1]);
                    }
                } else if j < op.1.samples.len() {
                    assert(samples[j] == op.1.samples[j]);
                }
            }
            assert forall|j: int| 0 <= j < log.measurements@.len() implies (
            #[trigger] log.measurements@[j]).duration <= MAX_DURATION by {
                assert(log.measurements@[j]@ == samples[j]);
            }
        }
        log.stats = recompute_stats(&log.measurements);
        self.operations.insert(k, log);
        assert(self@ =~= before.update(
            k as int,
            (
                op.0,
                Operation {
                    samples: appended(op.1.samples, sample),
                    stats: stats_of(durations(appended(op.1.samples, sample))),
                },
            ),
        ));
    }

    /// The statistics of every operation.
    pub fn get_stats(&self) -> (r: Vec<(String, LatencyStats)>)
        ensures
            r@.len() == self@.len(),
            forall|i: int|
                0 <= i < r@.len() ==> (#[trigger] r@[i]).0@ == self@[i].0 && r@[i].1
                    == self@[i].1.stats,
    {
        let mut out: Vec<(String, LatencyStats)> = Vec::new();
        let mut k: usize = 0;
        while k < self.operations.len()
            invariant
                k <= self.operations@.len(),
                out@.len() == k,
                forall|i: int|
                    0 <= i < k ==> (#[trigger] out@[i]).0@ == self@[i].0 && out@[i].1
                        == self@[i].1.stats,
            decreases self.operations@.len() - k,
        {
            out.push((self.operations[k].name.clone(), self.operations[k].stats));
            k = k + 1;
        }
        out
    }

    /// The statistics of one operation.
    pub fn get_operation_stats(&self, operation: &str) -> (r: Option<LatencyStats>)
        ensures
            r == match lookup(self@, operation@) {
                Some(op) => Some(op.stats),
                None => None,
            },
    {
        let k: usize = self.find(operation);
        if k < self.operations.len() {
            Some(self.operations[k].stats)
        } else {
            None
        }
    }

    /// The measurements of one operation, oldest first.
    pub fn get_measurements(&self, operation: &str) -> (r: Option<&Vec<LatencyMeasurement>>)
        ensures
            match (r, lookup(self@, operation@)) {
                (Some(v), Some(op)) => op.samples == Seq::new(v@.len(), |i: int| v@[i]@),
                (None, None) => true,
                _ => false,
            },
    {
        let k: usize = self.find(operation);
        if k < self.operations.len() {
            Some(&self.operations[k].measurements)
        } else {
            None
        }
    }

    /// Forgets everything.
    pub fn clear(&mut self)
        ensures
            final(self).wf(),
            final(self)@.len() == 0,
    {
        self.operations.clear();
    }
}

proof fn lemma_sum_bound(s: Seq<u128>)
    requires
        forall|i: int| 0 <= i < s.len() ==> #[trigger] s[i] <= MAX_DURATION,
    ensures
        sum(s) <= s.len() * MAX_DURATION,
    decreases s.len(),
{
    if s.len() > 0 {
        lemma_sum_bound(s.drop_last());
        assert(s.last() <= MAX_DURATION);
        assert((s.len() - 1) * MAX_DURATION + MAX_DURATION == s.len() * MAX_DURATION)
            by (nonlinear_arith);
    }
}

/// The statistics of one operation from its measurements.
fn recompute_stats(measurements: &Vec<LatencyMeasurement>) -> (r: LatencyStats)
    requires
        0 < measurements@.len() <= MAX_MEASUREMENTS,
        forall|i: int|
            0 <= i < measurements@.len() ==> (#[trigger] measurements@[i]).duration
                <= MAX_DURATION,
    ensures
        r == stats_of(durations(sample_views(measurements@))),
{
    let ghost all = durations(sample_views(measurements@));
    let n: usize = measurements.len();
    let mut ds: Vec<u128> = Vec::new();
    let mut total: u128 = 0;
    let mut k: usize = 0;
    while k < n
        invariant
            k <= n,
            n == measurements@.len(),
            n <= MAX_MEASUREMENTS,
            all == durations(sample_views(measurements@)),
            forall|i: int|
                0 <= i < measurements@.len() ==> (#[trigger] measurements@[i]).duration
                    <= MAX_DURATION,
            ds@ == all.take(k as int),
            total == sum(all.take(k as int)),
        decreases n - k,
    {
        let d: u128 = measurements[k].duration;
        proof {
            assert(all[k as int] == d);
            assert(all.take(k + 1).drop_last() =~= all.take(k as int));
            let next = all.take(k + 1);
            assert forall|i: int| 0 <= i < next.len() implies #[trigger] next[i]
                <= MAX_DURATION by {
                assert(measurements@[i].duration == all[i]);
            }
            lemma_sum_bound(next);
            assert((k + 1) * MAX_DURATION <= 10_000 * MAX_DURATION) by (nonlinear_arith)
                requires
                    k + 1 <= 10_000,
            ;
        }
        total = total + d;
        ds.push(d);
        k = k + 1;
        assert(ds@ =~= all.take(k as int));
    }
    assert(all.take(k as int) =~= all);
    sort(&mut ds);
    LatencyStats {
        min: ds[0],
        max: ds[n - 1],
        mean: total / n as u128,
        median: ds[percentile_index(n, 500)],
        p95: ds[percentile_index(n, 950)],
        p99: ds[percentile_index(n, 990)],
        p999: ds[percentile_index(n, 999)],
        count: n as u64,
        total,
    }
}

/// Measures one operation: start a timer, finish to record.
#[derive(Debug)]
pub struct LatencyMeasurer {
    operation: String,
    start_time: u128,
    metadata: Vec<(String, String)>,
}

impl LatencyMeasurer {
    pub closed spec fn name(&self) -> Seq<char> {
        self.operation@
    }

    pub closed spec fn started(&self) -> u128 {
        self.start_time
    }

    pub closed spec fn notes(&self) -> Seq<(Seq<char>, Seq<char>)> {
        text_pairs(self.metadata@)
    }

    /// Starts a timer at `now`.
    pub fn new(operation: &str, now: u128) -> (r: Self)
        ensures
            r.name() == operation@,
            r.started() == now,
            r.notes() == Seq::<(Seq<char>, Seq<char>)>::empty(),
    {
        let r = LatencyMeasurer {
            operation: operation.to_owned(),
            start_time: now,
            metadata: Vec::new(),
        };
        assert(r.notes() =~= Seq::<(Seq<char>, Seq<char>)>::empty());
        r
    }

    /// Attaches metadata; a key that is there already gets the new value.
    pub fn with_metadata(self, key: &str, value: &str) -> (r: Self)
        ensures
            r.name() == self.name(),
            r.started() == self.started(),
            r.notes() == put(self.notes(), key@, value@),
    {
        let ghost m = self.notes();
        let mut metadata = self.metadata;
        proof {
            lemma_same_keys(m, keyed(metadata@), key@);
        }
        let k: usize = position(metadata.as_slice(), key);
        if k < metadata.len() {
            metadata.set(k, (key.to_owned(), value.to_owned()));
        } else {
            metadata.push((key.to_owned(), value.to_owned()));
        }
        let r = LatencyMeasurer {
            operation: self.operation,
            start_time: self.start_time,
            metadata,
        };
        assert(r.notes() =~= put(m, key@, value@));
        r
    }

    /// Records the time from the start to `now`.
    pub fn finish(self, monitor: &mut LatencyMonitor, now: u128) -> (r: Severity)
        requires
            old(monitor).wf(),
            now - self.started() <= MAX_DURATION,
        ensures
            final(monitor).wf(),
            ({
                let duration = if now > self.started() {
                    (now - self.started()) as u128
                } else {
                    0
                };
                &&& r == severity_of(duration)
                &&& final(monitor)@ == recorded(
                    old(monitor)@,
                    sample_of(self.name(), duration, now, self.notes()),
                )
            }),
    {
        let duration: u128 = if now > self.start_time {
            now - self.start_time
        } else {
            0
        };
        monitor.record_operation_latency_with_metadata(
            self.operation.as_str(),
            duration,
            now,
            self.metadata,
        )
    }
}

/// Recording an operation leaves every other operation as it was.
pub proof fn law_operations_are_independent(
    m: Seq<(Seq<char>, Operation)>,
    s: Sample,
    other: Seq<char>,
)
    requires
        other != s.operation,
    ensures
        lookup(recorded(m, s), other) == lookup(m, other),
{
    let before = match lookup(m, s.operation) {
        Some(op) => op.samples,
        None => seq![],
    };
    let samples = appended(before, s);
    lemma_put(
        m,
        s.operation,
        Operation { samples, stats: stats_of(durations(samples)) },
        other,
    );
}

/// The measurement just recorded is the operation's newest, and its statistics count it.
pub proof fn law_newest_measurement_counts(m: Seq<(Seq<char>, Operation)>, s: Sample)
    requires
        monitor_valid(m),
    ensures
        ({
            let op = lookup(recorded(m, s), s.operation);
            &&& op is Some
            &&& op->0.samples.last() == s
            &&& op->0.stats == stats_of(durations(op->0.samples))
            &&& op->0.samples.len() <= MAX_MEASUREMENTS
        }),
{
    lemma_key_index(m, s.operation);
    let before = match lookup(m, s.operation) {
        Some(op) => op.samples,
        None => seq![],
    };
    let samples = appended(before, s);
    lemma_put(
        m,
        s.operation,
        Operation { samples, stats: stats_of(durations(samples)) },
        s.operation,
    );
}

/// A latency is high above 100 microseconds, moderate above 10 and up to 100, and normal up
/// to 10.
pub proof fn law_severities_are_bands(duration: u128)
    ensures
        severity_of(duration) is High <==> duration > 100_000,
        severity_of(duration) is Moderate <==> 10_000 < duration <= 100_000,
        severity_of(duration) is Normal <==> duration <= 10_000,
{
}

/// What the statistics say of the durations: their number and their sum, the least and the
/// greatest, the mean rounded down, and for each percentile one of them, such that at least
/// that share is no greater and less than that share is smaller.
pub proof fn law_statistics_describe_their_durations(ds: Seq<u128>)
    requires
        0 < ds.len() <= MAX_MEASUREMENTS,
        forall|i: int| 0 <= i < ds.len() ==> #[trigger] ds[i] <= MAX_DURATION,
    ensures
        ({
            let s = stats_of(ds);
            let n = ds.len();
            &&& s.count == n
            &&& s.total == sum(ds)
            &&& s.mean * n <= s.total < (s.mean + 1) * n
            &&& ds.contains(s.min) && ds.contains(s.max)
            &&& forall|i: int| 0 <= i < n ==> s.min <= #[trigger] ds[i] <= s.max
            &&& ds.contains(s.median) && 1000 * at_most(ds, s.median) >= 500 * n && 1000
                * less_than(ds, s.median) < 500 * n
            &&& ds.contains(s.p95) && 1000 * at_most(ds, s.p95) >= 950 * n && 1000 * less_than(
                ds,
                s.p95,
            ) < 950 * n
            &&& ds.contains(s.p99) && 1000 * at_most(ds, s.p99) >= 990 * n && 1000 * less_than(
                ds,
                s.p99,
            ) < 990 * n
            &&& ds.contains(s.p999) && 1000 * at_most(ds, s.p999) >= 999 * n && 1000 * less_than(
                ds,
                s.p999,
            ) < 999 * n
        }),
{
    let n = ds.len();
    lemma_sum_bound(ds);
    law_ends_are_the_extremes(ds);
    law_percentiles_split_the_samples(ds, 500);
    law_percentiles_split_the_samples(ds, 950);
    law_percentiles_split_the_samples(ds, 990);
    law_percentiles_split_the_samples(ds, 999);
    let total = sum(ds) as int;
    let mean = total / n as int;
    vstd::arithmetic::div_mod::lemma_fundamental_div_mod(total, n as int);
    assert(mean * n <= total < (mean + 1) * n) by (nonlinear_arith)
        requires
            total == n * mean + total % n as int,
            0 <= total % n as int,
            total % (n as int) < n,
    ;
    vstd::arithmetic::div_mod::lemma_div_is_ordered_by_denominator(total, 1, n as int);
}

/// The sum of some durations grows by each of them.
pub proof fn law_sums_add_up(ds: Seq<u128>, d: u128)
    ensures
        sum(Seq::<u128>::empty()) == 0,
        sum(ds.push(d)) == sum(ds) + d,
{
    assert(ds.push(d).drop_last() =~= ds);
}

/// An operation keeps its latest measurements in order, 10000 of them at most, each new one
/// behind the others; the oldest one leaves where there would be more.
pub proof fn law_the_latest_measurements_are_kept(samples: Seq<Sample>, s: Sample)
    ensures
        samples.len() < 10_000 ==> appended(samples, s) == samples.push(s),
        samples.len() == 10_000 ==> appended(samples, s) == samples.skip(1).push(s),
{
    if samples.len() == 10_000 {
        assert(appended(samples, s) =~= samples.skip(1).push(s));
    }
}

/// A measurement ends when it is recorded, and began its duration before that where the
/// clock goes back so far.
pub proof fn law_measurements_span_their_duration(
    operation: Seq<char>,
    duration: u128,
    now: u128,
    metadata: Seq<(Seq<char>, Seq<char>)>,
)
    ensures
        ({
            let s = sample_of(operation, duration, now, metadata);
            &&& s.operation == operation && s.metadata == metadata
            &&& s.duration == duration
            &&& s.end_time == now
            &&& duration <= now ==> s.start_time + duration == s.end_time
            &&& duration > now ==> s.start_time == now
        }),
{
}

/// Statistics of nothing are all 0.
pub proof fn law_nothing_measured_is_all_zero()
    ensures
        ({
            let z = LatencyStats::zero();
            &&& z.min == 0 && z.max == 0 && z.mean == 0 && z.median == 0
            &&& z.p95 == 0 && z.p99 == 0 && z.p999 == 0
            &&& z.count == 0 && z.total == 0
        }),
{
}

} // verus!
