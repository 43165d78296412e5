use rust_hotpath_ipc::latency::{thresholds, LatencyMeasurer, LatencyMonitor, LatencyStats, Severity};
use rust_hotpath_ipc::latency_window::{
    calibrate_rdtsc_floor, floor_of, percentile_index, report_line, summarize, time_ns,
    LatencyWindow, FLOOR_TRIALS, FLOOR_WARMUP, FLUSH_INTERVAL_NS, FLUSH_SAMPLES, WARMUP_SAMPLES,
};
use rust_hotpath_ipc::rdtsc::{
    ComponentId, LatencyGuard, LatencyRecord, OperationType, RdtscLatencyRecorder, Stamp,
};
use rust_hotpath_ipc::num::Num;
use rust_hotpath_ipc::tsc_calibration::{measured_cycles, TscCalibration};
use std::time::{Duration, Instant, SystemTime, UNIX_EPOCH};

fn read_clock() -> u64 {
    SystemTime::now().duration_since(UNIX_EPOCH).unwrap_or_default().as_nanos() as u64
}

#[test]
fn percentile_index_bounds() {
    assert_eq!(percentile_index(0, 500), 0);
    assert_eq!(percentile_index(100, 500), 49);
    assert_eq!(percentile_index(100, 990), 98);
    assert_eq!(percentile_index(1, 999), 0);
}

#[test]
fn percentile_index_is_the_nearest_rank() {
    assert_eq!(percentile_index(1000, 999), 998);
    assert_eq!(percentile_index(1001, 999), 999);
    assert_eq!(percentile_index(10, 0), 0);
    assert_eq!(percentile_index(10, 5000), 9);
    assert_eq!(percentile_index(usize::MAX, u64::MAX), usize::MAX - 1);
}

#[test]
fn rdtsc_floor_is_small_and_positive() {
    let floor = calibrate_rdtsc_floor(|_| read_clock());
    // Should be a handful of ns worth of cycles — not zero, not huge.
    // (We only assert it doesn't explode; exact value is hardware-specific.)
    assert!(floor < 100_000, "rdtsc floor implausibly large: {floor}");
}

#[test]
fn the_floor_is_the_least_cost() {
    assert_eq!(floor_of(&[(10, 17), (20, 23), (40, 49)]), 3);
    assert_eq!(floor_of(&[(10, 17), (20, 3)]), 0);
    assert_eq!(floor_of(&[]), 0);
    assert_eq!(floor_of(&[(0, u64::MAX)]), 0);
}

#[test]
fn closures_are_timed() {
    let (r, t) = time_ns(|reads| if reads == 0 { 5 } else { 47 }, || "done");
    assert_eq!((r, t), ("done", 42));
    let (r, t) = time_ns(|reads| 9 - reads as u64, || 1);
    assert_eq!((r, t), (1, 0));
}

#[test]
fn the_floor_is_taken_of_the_reads_after_the_warm_up() {
    // Each read takes five ticks.
    assert_eq!(calibrate_rdtsc_floor(|reads| 5 * reads as u64), 5);
    // The reads of the warm-up, however cheap, do not count.
    let stepped = |reads: usize| if reads < FLOOR_WARMUP { 0 } else { 9 * reads as u64 };
    assert_eq!(calibrate_rdtsc_floor(stepped), 9);
    // One cheap trial among the others gives the floor, and the time between two trials
    // is no trial.
    let cheap = FLOOR_WARMUP + 2 * 700;
    let dear = |reads: usize| {
        let pair = ((reads - reads % 2) * 50) as u64;
        match (reads % 2, reads - reads % 2 == cheap) {
            (0, _) => pair,
            (_, true) => pair + 3,
            _ => pair + 60,
        }
    };
    assert_eq!(calibrate_rdtsc_floor(dear), 3);
    assert_eq!(FLOOR_TRIALS, 10_000);
}

#[test]
fn window_records_after_warmup() {
    let mut w = LatencyWindow::new("test", 0);
    // Below warmup: nothing buffered.
    for _ in 0..WARMUP_SAMPLES {
        w.push(100, 0);
    }
    assert_eq!(w.len(), 0);
    // After warmup: samples accumulate.
    w.push(100, 0);
    assert_eq!(w.len(), 1);
}

#[test]
fn a_window_is_handed_over_when_it_is_full() {
    let mut w = LatencyWindow::new("full", 0);
    for i in 0..WARMUP_SAMPLES {
        assert!(w.push(i, 0).is_none());
    }
    for i in 0..FLUSH_SAMPLES as u64 - 1 {
        assert!(w.push(i, 0).is_none());
    }
    let batch = w.push(7, 0).unwrap();
    assert_eq!(batch.label, "full");
    assert_eq!(batch.samples.len(), FLUSH_SAMPLES);
    assert_eq!(batch.samples[3], 3);
    assert_eq!(batch.samples.last(), Some(&7));
    assert_eq!(w.len(), 0);
}

#[test]
fn a_window_is_handed_over_when_it_is_old() {
    let mut w = LatencyWindow::new("old", 1_000);
    for _ in 0..WARMUP_SAMPLES {
        w.push(1, 1_000 + 9 * FLUSH_INTERVAL_NS);
    }
    assert!(w.push(1, 1_000).is_none());
    assert!(w.push(2, 999 + FLUSH_INTERVAL_NS).is_none());
    let batch = w.push(3, 1_000 + FLUSH_INTERVAL_NS).unwrap();
    assert_eq!(batch.samples, vec![1, 2, 3]);
    assert!(w.push(4, 1_001 + FLUSH_INTERVAL_NS).is_none());
}

#[test]
fn a_summary_sorts_its_samples() {
    let samples: Vec<u64> = (0..2_000u64).map(|i| (i * 7) % 2_000).collect();
    let s = summarize(&samples).unwrap();
    assert_eq!((s.count, s.min, s.p50, s.p99, s.p999), (2_000, 0, 999, 1_979, 1_997));
    assert!(summarize(&[]).is_none());
    assert_eq!(
        report_line("decision-only", &s),
        "LAT decision-only n=2000    min=0     p50=999   p99=1979   p999=1997   ns"
    );
    assert_eq!(
        report_line("vm", &s),
        "LAT vm            n=2000    min=0     p50=999   p99=1979   p999=1997   ns"
    );
}

#[test]
fn records_and_aggregates() {
    let mut monitor = LatencyMonitor::new();
    monitor.record_operation_latency("publish", Duration::from_micros(100).as_nanos(), 1_000_000);
    monitor.record_operation_latency("publish", Duration::from_micros(200).as_nanos(), 2_000_000);
    monitor.record_operation_latency("publish", Duration::from_micros(150).as_nanos(), 3_000_000);

    let stats = monitor.get_operation_stats("publish");
    assert!(stats.is_some());
    let s = stats.unwrap();
    assert_eq!(s.count, 3);
    assert_eq!(s.min, Duration::from_micros(100).as_nanos());
    assert_eq!(s.max, Duration::from_micros(200).as_nanos());
}

#[test]
fn statistics_are_exact() {
    let mut monitor = LatencyMonitor::default();
    for d in [30u128, 10, 20, 41] {
        monitor.record_operation_latency("op", d, 1_000);
    }
    monitor.record_operation_latency("other", 5, 1_000);
    assert_eq!(
        monitor.get_operation_stats("op"),
        Some(LatencyStats {
            min: 10,
            max: 41,
            mean: 25,
            median: 20,
            p95: 41,
            p99: 41,
            p999: 41,
            count: 4,
            total: 101,
        })
    );
    assert_eq!(monitor.get_stats().len(), 2);
    assert_eq!(monitor.get_stats()[1].0, "other");
    assert!(monitor.get_operation_stats("none").is_none());
    monitor.clear();
    assert!(monitor.get_operation_stats("op").is_none());
    assert!(monitor.get_measurements("op").is_none());
    assert_eq!(LatencyStats::default().count, 0);
}

#[test]
fn the_oldest_measurement_leaves_first() {
    let mut monitor = LatencyMonitor::new();
    let total = 10_003usize;
    for i in 0..3 {
        monitor.record_operation_latency("op", 1_000_000 + i, 0);
    }
    for _ in 3..total {
        monitor.record_operation_latency("tail", 7, 0);
    }
    assert_eq!(monitor.get_measurements("tail").unwrap().len(), 10_000);
    assert_eq!(monitor.get_operation_stats("tail").unwrap().total, 70_000);
    assert_eq!(monitor.get_measurements("op").unwrap()[0].duration, 1_000_000);
}

#[test]
fn measurements_carry_times_and_metadata() {
    let mut monitor = LatencyMonitor::new();
    let m = LatencyMeasurer::new("send", 100)
        .with_metadata("venue", "a")
        .with_metadata("venue", "b")
        .with_metadata("size", "3");
    assert_eq!(m.finish(&mut monitor, 150), Severity::Normal);
    let recorded = &monitor.get_measurements("send").unwrap()[0];
    assert_eq!((recorded.start_time, recorded.end_time, recorded.duration), (100, 150, 50));
    assert_eq!(recorded.operation, "send");
    assert_eq!(
        recorded.metadata,
        vec![
            ("venue".to_string(), "b".to_string()),
            ("size".to_string(), "3".to_string())
        ]
    );
    // A start before the clock's origin counts as now.
    monitor.record_operation_latency("early", 500, 20);
    assert_eq!(monitor.get_measurements("early").unwrap()[0].start_time, 20);
}

#[test]
fn severity_follows_the_duration() {
    let mut monitor = LatencyMonitor::new();
    assert_eq!(monitor.record_operation_latency("a", 10_000, 0), Severity::Normal);
    assert_eq!(monitor.record_operation_latency("a", 10_001, 0), Severity::Moderate);
    assert_eq!(monitor.record_operation_latency("a", 100_000, 0), Severity::Moderate);
    assert_eq!(monitor.record_operation_latency("a", 100_001, 0), Severity::High);
    assert_eq!(thresholds::PUBLISH_EXPECTED, 500);
    assert_eq!(thresholds::EVENT_EXPECTED, 200);
}

fn stamp(cycles: u64) -> Stamp {
    Stamp { cycles, ns: cycles / 3, cpu_core: 2 }
}

fn wait(time: Duration) {
    let start = Instant::now();
    while start.elapsed() < time {}
}

#[test]
fn records_entry_and_exit() {
    let mut recorder = RdtscLatencyRecorder::new(100);
    let origin = Instant::now();
    let order_id = [1u8; 16];
    let now = stamp(origin.elapsed().as_nanos() as u64);
    let entry = recorder.record_entry(&order_id, ComponentId::OrderValidation, now);
    wait(Duration::from_micros(10));
    let now = stamp(origin.elapsed().as_nanos() as u64);
    recorder.record_exit(&order_id, ComponentId::OrderValidation, entry, now);
    let records = recorder.drain_records(10);
    assert_eq!(records.len(), 2);
    assert!(records[1].latency_cycles > 0);
}

#[test]
fn a_full_recorder_drops_and_counts() {
    let mut recorder = RdtscLatencyRecorder::new(1);
    recorder.record_entry(&[1; 16], ComponentId::HotPath, stamp(1));
    recorder.record_entry(&[2; 16], ComponentId::HotPath, stamp(2));
    assert_eq!(recorder.stats(), (1, 1));
    let records = recorder.drain_records(9);
    assert_eq!(records.len(), 1);
    assert_eq!(records[0].order_id, [1; 16]);

    let mut recorder = RdtscLatencyRecorder::new(2);
    for i in 0..5u64 {
        assert_eq!(recorder.record_entry(&[i as u8; 16], ComponentId::HotPath, stamp(i)), i);
    }
    recorder.note_contention();
    assert_eq!(recorder.stats(), (2, 4));
    let records = recorder.drain_records(1);
    assert_eq!(records[0].timestamp_cycles, 0);
    // There is room again.
    recorder.record_exit(&[8; 16], ComponentId::HotPath, 1, stamp(4));
    assert_eq!(recorder.stats(), (3, 4));
    let records = recorder.drain_records(9);
    assert_eq!(records.len(), 2);
    assert_eq!((records[0].order_id, records[1].order_id), ([1; 16], [8; 16]));
    assert!(recorder.drain_records(9).is_empty());

    // However records come and go, no drain gives more than the capacity.
    let mut recorder = RdtscLatencyRecorder::new(3);
    for i in 0..50u64 {
        recorder.record_entry(&[i as u8; 16], ComponentId::HotPath, stamp(i));
        if i % 7 == 0 {
            assert!(recorder.drain_records(usize::MAX).len() <= 3);
        } else if i % 5 == 0 {
            assert!(recorder.drain_records(2).len() <= 2);
        }
    }

    let mut shut = RdtscLatencyRecorder::new(0);
    shut.record_entry(&[1; 16], ComponentId::HotPath, stamp(1));
    assert_eq!(shut.stats(), (0, 1));
    assert!(shut.drain_records(9).is_empty());
    assert_eq!(recorder.cycles_to_ns(77, |cycles| num(cycles as f64 / 2.0)), 38);
}

#[test]
fn a_guard_measures_from_entry_to_exit() {
    let mut recorder = RdtscLatencyRecorder::new(10);
    let guard = LatencyGuard::new(&mut recorder, [9; 16], ComponentId::RiskCheck, stamp(100));
    guard.finish(&mut recorder, stamp(140));
    let guard = LatencyGuard::new(&mut recorder, [9; 16], ComponentId::RiskCheck, stamp(100));
    guard.finish(&mut recorder, stamp(60));
    let records = recorder.drain_records(10);
    assert_eq!(records[1].latency_cycles, 40);
    assert_eq!(records[1].operation, OperationType::Exit);
    assert_eq!(records[1].cpu_core, 2);
    assert_eq!(records[3].latency_cycles, 0);
}

#[test]
fn record_numbers_and_defaults() {
    assert_eq!(ComponentId::OrderValidation.code(), 1);
    assert_eq!(ComponentId::HotPath.code(), 8);
    assert_eq!(ComponentId::Total.code(), 100);
    assert_eq!(OperationType::Exit.code(), 1);
    let r = LatencyRecord::default();
    assert_eq!(r.component_id, ComponentId::Total);
    assert_eq!(r.order_id, [0; 16]);
}

fn num(x: f64) -> Num {
    Num { bits: x.to_bits() }
}

fn scale(count: u64, rate: Num) -> Num {
    num(count as f64 * f64::from_bits(rate.bits))
}

fn calibrate() -> TscCalibration {
    let (start, start_clock) = (Instant::now(), read_clock());
    wait(Duration::from_millis(20));
    let elapsed_ns = start.elapsed().as_nanos() as f64;
    let elapsed_cycles = measured_cycles(start_clock, read_clock()) as f64;
    let rate = elapsed_cycles / elapsed_ns;
    let slowness = elapsed_ns / elapsed_cycles;
    TscCalibration::new(num(rate), num(slowness), num(rate * 1e9), 0, 0, 0)
}

#[test]
fn calibration_produces_positive_values() {
    let cal = calibrate();
    assert!(cal.cpu_frequency_hz > 0);
    assert!(f64::from_bits(cal.cycles_per_ns.bits) > 0.0);
    assert!(f64::from_bits(cal.ns_per_cycle.bits) > 0.0);
}

#[test]
fn round_trip_conversion_is_close() {
    let cal = calibrate();
    let original_ns = 1_000_000_000u64;
    let cycles = cal.ns_to_cycles(original_ns, scale);
    let back = cal.cycles_to_ns(cycles, scale);
    let diff = back.abs_diff(original_ns);
    assert!(diff < original_ns / 100);
}

#[test]
fn times_are_distances_from_the_epoch() {
    let cal = TscCalibration::new(num(2.0), num(0.5), num(2e9), 1_000, 5_000_000, 7);
    assert_eq!(cal.cpu_frequency_hz, 2_000_000_000);
    assert_eq!(cal.tsc_to_unix_ns(1_600, scale), 5_000_300);
    assert_eq!(cal.unix_ns_to_tsc(5_000_300, scale), 1_600);
    assert_eq!(cal.cycles_to_ns(601, scale), 300);
    assert_eq!(cal.ns_to_cycles(300, scale), 600);
    assert_eq!(cal.tsc_to_unix_ns(999, scale), 5_000_000);
    assert_eq!(cal.tsc_to_unix_ns(998, scale), 4_999_999);
    assert!(!cal.needs_refresh(60_000_000_007));
    assert!(cal.needs_refresh(60_000_000_008));
    assert!(!cal.needs_refresh(0));
}

#[test]
fn stamps_on_both_sides_of_the_epoch_compare() {
    let cal = TscCalibration::new(num(2.0), num(0.5), num(2e9), 1_000, 5_000, 0);
    assert_eq!(cal.tsc_to_unix_ns(1_000, scale), 5_000);
    assert_eq!(cal.tsc_to_unix_ns(1_200, scale), 5_100);
    assert_eq!(cal.tsc_to_unix_ns(800, scale), 4_900);
    assert_eq!(cal.unix_ns_to_tsc(5_000, scale), 1_000);
    assert_eq!(cal.unix_ns_to_tsc(5_100, scale), 1_200);
    assert_eq!(cal.unix_ns_to_tsc(4_900, scale), 800);
    // Around a counter that wraps.
    let cal = TscCalibration::new(num(1.0), num(1.0), num(1e9), u64::MAX - 9, 5_000, 0);
    assert_eq!(cal.tsc_to_unix_ns(20, scale), 5_030);
    assert_eq!(cal.tsc_to_unix_ns(u64::MAX - 39, scale), 4_970);
    assert_eq!(cal.unix_ns_to_tsc(5_030, scale), 20);
    assert_eq!(cal.unix_ns_to_tsc(4_970, scale), u64::MAX - 39);
}
