use rust_hotpath_ipc::num::Num;
use rust_hotpath_ipc::strategy::{
    Decision, EmaStep, Side, Signals, Strategy, StrategyConfig, Update, Updated,
};

fn num(x: f64) -> Num {
    Num { bits: x.to_bits() }
}

fn val(n: Num) -> f64 {
    f64::from_bits(n.bits)
}

fn update(u: Update) -> Updated {
    let price = val(u.price);
    let step = |e: Option<EmaStep>| match e {
        Some(e) => val(e.value) + 2.0 / (e.period as f64 + 1.0) * (price - val(e.value)),
        None => price,
    };
    let (mut sum, mut sum_sq) = (val(u.sum) + price, val(u.sum_sq) + price * price);
    if let Some(old) = u.evicted {
        sum -= val(old);
        sum_sq -= val(old) * val(old);
    }
    Updated {
        fast: num(step(u.fast)),
        slow: num(step(u.slow)),
        sum: num(sum),
        sum_sq: num(sum_sq),
    }
}

fn readings(s: Signals) -> (f64, f64, f64) {
    let trend = s.trend.map_or(0.0, |t| {
        ((val(t.fast) - val(t.slow)) / val(t.slow) * 200.0).tanh()
    });
    let momentum = s.momentum.map_or(0.0, |m| {
        let bps = (val(m.now) - val(m.past)) / val(m.past) * 10_000.0;
        (bps / val(m.full_scale)).clamp(-1.0, 1.0)
    });
    let reversion = s.reversion.map_or(0.0, |r| {
        let mean = val(r.sum) / r.count as f64;
        let var = val(r.sum_sq) / r.count as f64 - mean * mean;
        if var <= 1e-12 {
            return 0.0;
        }
        let z = (val(r.now) - mean) / var.sqrt();
        (-z / 2.0).clamp(-1.0, 1.0)
    });
    (trend, momentum, reversion)
}

fn blend(cfg: StrategyConfig, s: Signals) -> (Num, Num) {
    let (trend, momentum, reversion) = readings(s);
    let (a, b, c) = (
        val(cfg.weight_trend),
        val(cfg.weight_momentum),
        val(cfg.weight_reversion),
    );
    let w = a + b + c;
    (num(w), num((a * trend + b * momentum + c * reversion) / w))
}

fn feed(s: &mut Strategy, price: f64) -> Decision {
    s.on_price(num(price), update, blend)
}

#[test]
fn ema_tracks_a_constant() {
    let mut s = Strategy::new(StrategyConfig {
        fast_ema_period: 10,
        ..StrategyConfig::default()
    });
    for _ in 0..100 {
        feed(&mut s, 50.0);
    }
    let step = s.observe(num(50.0)).fast.unwrap();
    assert_eq!(step.period, 10);
    assert!((val(step.value) - 50.0).abs() < 1e-9);
}

#[test]
fn steady_price_holds() {
    let mut s = Strategy::new(StrategyConfig::default());
    let mut decisions = 0;
    for _ in 0..500 {
        if let Decision::Trade { .. } = feed(&mut s, 100.0) {
            decisions += 1;
        }
    }
    // A flat price should never trigger a trade.
    assert_eq!(decisions, 0);
}

#[test]
fn strong_uptrend_buys() {
    let mut s = Strategy::new(StrategyConfig::default());
    let mut price = 100.0;
    let mut bought = false;
    // Warm up, then a sustained ramp should eventually buy.
    for _ in 0..300 {
        price *= 1.001; // +10 bps per tick
        bought |= matches!(feed(&mut s, price), Decision::Trade { side: Side::Buy, .. });
    }
    // On a persistent uptrend the trend + momentum signals dominate -> Buy.
    let (trend, momentum, _) = readings(s.signals());
    assert!(trend > 0.0, "trend should be positive on an uptrend");
    assert!(momentum > 0.0, "momentum should be positive on an uptrend");
    assert!(bought);
}

#[test]
fn reversion_fades_a_spike() {
    let mut s = Strategy::new(StrategyConfig::default());
    // Fill the window with a stable price...
    for _ in 0..80 {
        feed(&mut s, 100.0);
    }
    // ...then a sharp spike up. The reversion signal should turn negative
    // (fade the spike -> sell pressure).
    feed(&mut s, 105.0);
    let (_, _, reversion) = readings(s.signals());
    assert!(
        reversion < 0.0,
        "a spike above the mean should read as sell pressure"
    );
}

#[test]
fn cooldown_blocks_repeat_same_side() {
    let cfg = StrategyConfig {
        cooldown_ticks: 50,
        threshold: num(0.0), // fire on any nonzero score
        ..StrategyConfig::default()
    };
    let mut s = Strategy::new(cfg);
    let mut price = 100.0;
    let mut buys = 0;
    for _ in 0..60 {
        price *= 1.001;
        if let Decision::Trade { side: Side::Buy, .. } = feed(&mut s, price) {
            buys += 1;
        }
    }
    // With a 50-tick cooldown over 60 ticks, we can't have fired every tick.
    assert!(
        buys <= 2,
        "cooldown should throttle same-side orders, got {buys}"
    );
}

#[test]
fn default_parameters_are_the_documented_numbers() {
    let cfg = StrategyConfig::default();
    assert_eq!(val(cfg.weight_trend), 0.5);
    assert_eq!(val(cfg.weight_momentum), 0.3);
    assert_eq!(val(cfg.weight_reversion), 0.2);
    assert_eq!(val(cfg.threshold), 0.35);
    assert_eq!(val(cfg.momentum_bps_full_scale), 25.0);
    assert_eq!((cfg.fast_ema_period, cfg.slow_ema_period), (12, 48));
    assert_eq!((cfg.momentum_lookback, cfg.reversion_window), (16, 64));
    assert_eq!(cfg.cooldown_ticks, 32);
}

fn decide(s: &mut Strategy, score: f64) -> Decision {
    let u = s.observe(num(100.0));
    s.absorb(update(u));
    s.decide(num(1.0), num(score))
}

#[test]
fn a_flip_trades_at_once_and_a_repeat_waits() {
    let mut s = Strategy::new(StrategyConfig { cooldown_ticks: 3, ..StrategyConfig::default() });
    let buy = Decision::Trade { side: Side::Buy, score: num(0.9) };
    let sell = Decision::Trade { side: Side::Sell, score: num(-0.9) };
    assert_eq!(decide(&mut s, 0.9), buy);
    assert_eq!(decide(&mut s, 0.9), Decision::Hold);
    assert_eq!(decide(&mut s, -0.9), sell);
    assert_eq!(decide(&mut s, -0.9), Decision::Hold);
    assert_eq!(decide(&mut s, -0.9), Decision::Hold);
    assert_eq!(decide(&mut s, -0.9), sell);
}

#[test]
fn the_threshold_belongs_to_the_trade() {
    let mut s = Strategy::new(StrategyConfig { cooldown_ticks: 0, ..StrategyConfig::default() });
    assert!(matches!(decide(&mut s, 0.35), Decision::Trade { side: Side::Buy, .. }));
    assert!(matches!(decide(&mut s, -0.35), Decision::Trade { side: Side::Sell, .. }));
    assert_eq!(decide(&mut s, 0.349), Decision::Hold);
    assert_eq!(decide(&mut s, f64::NAN), Decision::Hold);
}

#[test]
fn no_weight_no_trade() {
    let mut s = Strategy::new(StrategyConfig { cooldown_ticks: 0, ..StrategyConfig::default() });
    s.observe(num(100.0));
    assert_eq!(s.decide(num(0.0), num(5.0)), Decision::Hold);
    assert_eq!(s.decide(num(-0.0), num(5.0)), Decision::Hold);
    assert_eq!(s.decide(num(-1.0), num(5.0)), Decision::Hold);
    // A weight that is no number is not at or below zero.
    assert!(matches!(s.decide(num(f64::NAN), num(5.0)), Decision::Trade { .. }));
}

#[test]
fn signals_appear_as_their_windows_fill() {
    let mut s = Strategy::new(StrategyConfig {
        momentum_lookback: 2,
        reversion_window: 3,
        ..StrategyConfig::default()
    });
    assert!(s.signals().trend.is_none());
    feed(&mut s, 10.0);
    assert!(s.signals().trend.is_some());
    feed(&mut s, 11.0);
    assert!(s.signals().momentum.is_none() && s.signals().reversion.is_none());
    feed(&mut s, 12.0);
    let m = s.signals().momentum.unwrap();
    assert_eq!((val(m.past), val(m.now), val(m.full_scale)), (10.0, 12.0, 25.0));
    let r = s.signals().reversion.unwrap();
    assert_eq!((r.count, val(r.sum), val(r.sum_sq), val(r.now)), (3, 33.0, 365.0, 12.0));
    // The oldest price leaves.
    let u = s.observe(num(13.0));
    assert_eq!(u.evicted.map(val), Some(10.0));
    s.absorb(update(u));
    assert_eq!(val(s.signals().momentum.unwrap().past), 11.0);
    assert_eq!(val(s.signals().reversion.unwrap().sum), 36.0);
}

#[test]
fn bit_patterns_compare_as_numbers() {
    let xs = [
        f64::NEG_INFINITY, -1e300, -1.5, -1.0, -5e-324, -0.0, 0.0, 5e-324, 0.1, 1.0, 1e300,
        f64::INFINITY, f64::NAN, -f64::NAN,
    ];
    for a in xs {
        assert_eq!(num(a).is_nan(), a.is_nan());
        assert_eq!(num(a).is_zero(), a == 0.0);
        assert_eq!(num(a).is_true(), a > 0.0);
        assert_eq!(num(a).neg().bits, (-a).to_bits());
        for b in xs {
            assert_eq!(num(a).gt(num(b)), a > b, "{a} > {b}");
            assert_eq!(num(a).lt(num(b)), a < b, "{a} < {b}");
            assert_eq!(num(a).ge(num(b)), a >= b, "{a} >= {b}");
            assert_eq!(num(a).le(num(b)), a <= b, "{a} <= {b}");
        }
    }
}

#[test]
fn bit_patterns_truncate_as_casts_do() {
    let xs = [
        0.0, -0.0, 0.5, 0.999, 1.0, 1.5, 2.75, 1e9, 4503599627370497.5, 9007199254740993.0, 1e18,
        9223372036854775807.0, 9223372036854775808.0, 1.8446744073709552e19, 1e300, -0.5, -1.0,
        -2.75, -1e18, -9223372036854775808.0, -1e300, f64::NAN, f64::INFINITY, f64::NEG_INFINITY,
        5e-324,
    ];
    for x in xs {
        assert_eq!(num(x).to_u64(), x as u64, "{x}");
        assert_eq!(num(x).to_i64(), x as i64, "{x}");
        assert_eq!(num(x).to_usize(), x as usize, "{x}");
    }
    assert_eq!(Num::from_bool(true).bits, 1.0f64.to_bits());
    assert_eq!(Num::from_bool(false).bits, 0.0f64.to_bits());
}
