use rust_hotpath_ipc::bytecode::{
    constants, disassemble, program_to_bytes, to_side, Op, Reply, Step, Vm, VmDecision, Work,
};
use rust_hotpath_ipc::num::Num;
use rust_hotpath_ipc::strategy::{Side, Strategy, StrategyConfig, Updated};

fn num(x: f64) -> Num {
    Num { bits: x.to_bits() }
}

fn val(n: Num) -> f64 {
    f64::from_bits(n.bits)
}

fn host(work: Work) -> Reply {
    match work {
        Work::Ema { period, value, price } => {
            let alpha = 2.0 / (period as f64 + 1.0);
            Reply::Value(num(val(value) + alpha * (val(price) - val(value))))
        }
        Work::Momentum { oldest, now } => {
            let bps = (val(now) - val(oldest)) / val(oldest) * 10_000.0;
            Reply::Value(num((bps / 25.0).clamp(-1.0, 1.0)))
        }
        Work::Reversion { evicted, price, sum, sum_sq, window } => {
            let (mut sum, mut sum_sq, price) = (val(sum), val(sum_sq), val(price));
            if let Some(old) = evicted {
                sum -= val(old);
                sum_sq -= val(old) * val(old);
            }
            sum += price;
            sum_sq += price * price;
            let mut reading = 0.0;
            if let Some(n) = window {
                let mean = sum / n as f64;
                let var = sum_sq / n as f64 - mean * mean;
                if var > 1e-12 {
                    reading = (-((price - mean) / var.sqrt()) / 2.0).clamp(-1.0, 1.0);
                }
            }
            Reply::Sums { sum: num(sum), sum_sq: num(sum_sq), reading: num(reading) }
        }
        Work::Near { a, b } => Reply::Truth((val(a) - val(b)).abs() < 1e-10),
    }
}

fn texts(prog: &[Op]) -> Vec<String> {
    constants(prog).iter().map(|c| format!("{}", val(*c))).collect()
}

#[test]
fn push_const_gt_buy_fires_only_when_price_exceeds() {
    // program: if price > 100 -> Buy
    let mut vm = Vm::new(vec![Op::PushPrice, Op::PushConst(num(100.0)), Op::Gt, Op::Buy]);
    assert_eq!(vm.run(num(99.0), host), VmDecision::Hold);
    assert_eq!(vm.run(num(101.0), host), VmDecision::Buy(num(1.0)));
}

#[test]
fn lt_sell() {
    let mut vm = Vm::new(vec![Op::PushPrice, Op::PushConst(num(50.0)), Op::Lt, Op::Sell]);
    assert_eq!(vm.run(num(40.0), host), VmDecision::Sell(num(1.0)));
    assert_eq!(vm.run(num(60.0), host), VmDecision::Hold);
}

#[test]
fn and_or_not_truth_table() {
    // (price > 10) AND (price < 20) -> Buy
    let mut vm = Vm::new(vec![
        Op::PushPrice,
        Op::PushConst(num(10.0)),
        Op::Gt,
        Op::PushPrice,
        Op::PushConst(num(20.0)),
        Op::Lt,
        Op::And,
        Op::Buy,
    ]);
    assert_eq!(vm.run(num(15.0), host), VmDecision::Buy(num(1.0))); // in band
    assert_eq!(vm.run(num(5.0), host), VmDecision::Hold); // below
    assert_eq!(vm.run(num(25.0), host), VmDecision::Hold); // above
}

#[test]
fn ema_converges_to_constant() {
    let mut vm = Vm::new(vec![
        Op::Ema {
            slot: 0,
            period: 10,
        },
        Op::PushConst(num(0.0)),
        Op::Gt,
    ]);
    for _ in 0..200 {
        vm.run(num(50.0), host);
    }
    // stack after run isn't observable, but state should have converged;
    // check via a program that emits the EMA compared to 49.9 -> true.
    let mut vm2 = Vm::new(vec![
        Op::Ema {
            slot: 0,
            period: 10,
        },
        Op::PushConst(num(49.9)),
        Op::Gt,
        Op::Buy,
    ]);
    let mut last = VmDecision::Hold;
    for _ in 0..200 {
        last = vm2.run(num(50.0), host);
    }
    assert_eq!(last, VmDecision::Buy(num(1.0)));
}

#[test]
fn reversion_negative_after_spike() {
    // Emit reversion, compare < 0 -> Sell. Fill window at 100, then spike.
    let mut vm = Vm::new(vec![
        Op::Reversion {
            slot: 0,
            window: 64,
        },
        Op::PushConst(num(0.0)),
        Op::Lt,
        Op::Sell,
    ]);
    for _ in 0..64 {
        vm.run(num(100.0), host);
    }
    let d = vm.run(num(110.0), host); // spike above mean -> reversion negative -> Sell
    assert_eq!(d, VmDecision::Sell(num(1.0)));
}

#[test]
fn to_bytes_and_disassemble_roundtrip_shapes() {
    let prog = vec![Op::PushPrice, Op::PushConst(num(0.25)), Op::Gt, Op::Buy];
    let bytes = program_to_bytes(&prog);
    // PushPrice(1) + PushConst(1+8) + Gt(1) + Buy(1) = 12 bytes
    assert_eq!(bytes.len(), 1 + 9 + 1 + 1);
    assert_eq!(bytes[0], 0x41); // PUSH_PRICE
    assert!(disassemble(&prog, &texts(&prog)).contains("BUY"));
}

#[test]
fn empty_program_holds() {
    let mut vm = Vm::new(vec![]);
    assert!(vm.is_empty());
    assert_eq!(vm.run(num(123.0), host), VmDecision::Hold);
}

#[test]
fn a_listing_shows_position_byte_name_and_operand() {
    let prog = vec![
        Op::Momentum { slot: 0, lookback: 16 },
        Op::PushConst(num(0.15)),
        Op::Gt,
        Op::Buy,
        Op::Reversion { slot: 1, window: 64 },
        Op::PushConst(num(-0.15)),
        Op::Lt,
        Op::Sell,
        Op::Ema { slot: 2, period: 12 },
    ];
    let expected = "  0  0x61  MOMENTUM  lookback=16 slot=0
  1  0x40  PUSH_CONST 0.15
  2  0x50  GT
  3  0x30  BUY
  4  0x62  REVERSION window=64 slot=1
  5  0x40  PUSH_CONST -0.15
  6  0x51  LT
  7  0x31  SELL
  8  0x60  EMA       period=12 slot=2
";
    assert_eq!(disassemble(&prog, &texts(&prog)), expected);
    let listed = texts(&prog);
    assert_eq!(Vm::new(prog).disassemble(&listed), expected);
}

#[test]
fn bytes_hold_immediates_and_low_period_bits() {
    let prog = vec![
        Op::PushConst(num(1.0)),
        Op::Ema { slot: 3, period: 0x1_0203 },
        Op::Eq,
        Op::Not,
        Op::Or,
    ];
    let mut expected = vec![0x40];
    expected.extend_from_slice(&1.0f64.to_le_bytes());
    expected.extend_from_slice(&[0x60, 0x03, 0x02, 0x54, 0x12, 0x11]);
    assert_eq!(program_to_bytes(&prog), expected);
    assert_eq!(Vm::new(prog).to_bytes(), expected);
}

#[test]
fn the_same_bytes_mean_the_same_program() {
    let a = vec![Op::Ema { slot: 0, period: 5 }, Op::Gt];
    let b = vec![Op::Ema { slot: 9, period: 5 + 0x1_0000 }, Op::Gt];
    let c = vec![Op::Ema { slot: 0, period: 6 }, Op::Gt];
    assert_eq!(program_to_bytes(&a), program_to_bytes(&b));
    assert!(program_to_bytes(&a) != program_to_bytes(&c));
}

#[test]
fn the_last_truthy_signal_wins() {
    let mut vm = Vm::new(vec![
        Op::PushConst(num(2.0)),
        Op::Buy,
        Op::PushConst(num(3.0)),
        Op::Sell,
        Op::PushConst(num(-1.0)),
        Op::Buy,
    ]);
    assert_eq!(vm.run(num(1.0), host), VmDecision::Sell(num(3.0)));
    assert_eq!(to_side(VmDecision::Sell(num(3.0))), Some((Side::Sell, num(3.0))));
    assert_eq!(to_side(VmDecision::Buy(num(3.0))), Some((Side::Buy, num(3.0))));
    assert_eq!(to_side(VmDecision::Hold), None);
}

#[test]
fn comparisons_follow_the_numbers() {
    let mut check = |op: Op, a: f64, b: f64, truth: bool| {
        let mut vm = Vm::new(vec![Op::PushConst(num(a)), Op::PushConst(num(b)), op, Op::Buy]);
        let expected = if truth { VmDecision::Buy(num(1.0)) } else { VmDecision::Hold };
        assert_eq!(vm.run(num(0.0), host), expected, "{op:?} {a} {b}");
    };
    check(Op::Gt, 1.0, -1.0, true);
    check(Op::Gt, 0.0, -0.0, false);
    check(Op::Ge, 0.0, -0.0, true);
    check(Op::Lt, -2.0, -1.0, true);
    check(Op::Le, 1.0, f64::NAN, false);
    check(Op::Ge, f64::NAN, 1.0, false);
    check(Op::Eq, 1.0, 1.0 + 1e-12, true);
    check(Op::Eq, 1.0, 1.1, false);
    check(Op::And, 1.0, 0.5, true);
    check(Op::And, 1.0, 0.0, false);
    check(Op::Or, 0.0, 2.0, true);
    check(Op::Or, -1.0, f64::NAN, false);
}

#[test]
fn not_is_true_of_what_is_not_above_zero() {
    for (x, truth) in [(0.0, true), (-3.0, true), (2.0, false), (f64::NAN, false)] {
        let mut vm = Vm::new(vec![Op::PushConst(num(x)), Op::Not, Op::Sell]);
        let expected = if truth { VmDecision::Sell(num(1.0)) } else { VmDecision::Hold };
        assert_eq!(vm.run(num(0.0), host), expected);
    }
}

#[test]
fn a_full_stack_ignores_pushes_and_an_empty_one_pops_zero() {
    let mut prog = vec![Op::PushConst(num(5.0)); 32];
    prog.push(Op::PushConst(num(7.0)));
    prog.push(Op::Buy);
    assert_eq!(Vm::new(prog).run(num(0.0), host), VmDecision::Buy(num(5.0)));
    assert_eq!(Vm::new(vec![Op::Buy]).run(num(0.0), host), VmDecision::Hold);
    assert_eq!(
        Vm::new(vec![Op::Not, Op::Buy]).run(num(0.0), host),
        VmDecision::Buy(num(1.0))
    );
}

#[test]
fn momentum_reads_zero_until_its_window_is_full() {
    let mut vm = Vm::new(vec![
        Op::Momentum { slot: 0, lookback: 2 },
        Op::PushConst(num(0.0)),
        Op::Gt,
        Op::Buy,
    ]);
    assert_eq!(vm.run(num(100.0), host), VmDecision::Hold);
    assert_eq!(vm.run(num(101.0), host), VmDecision::Hold);
    assert_eq!(vm.run(num(102.0), host), VmDecision::Buy(num(1.0)));
    assert_eq!(vm.run(num(50.0), host), VmDecision::Hold);
}

#[test]
fn steps_ask_for_the_work_of_each_indicator() {
    let mut vm = Vm::new(vec![
        Op::Ema { slot: 0, period: 4 },
        Op::Momentum { slot: 1, lookback: 1 },
        Op::Reversion { slot: 2, window: 2 },
    ]);
    vm.begin(num(10.0));
    // The first price seeds the average, and fills neither window.
    let w = Work::Reversion {
        evicted: None,
        price: num(10.0),
        sum: num(0.0),
        sum_sq: num(0.0),
        window: None,
    };
    assert_eq!(vm.step(), Step::Work(w));
    vm.resume(host(w));
    assert_eq!(vm.step(), Step::Done(VmDecision::Hold));
    vm.begin(num(12.0));
    let w = Work::Ema { period: 4, value: num(10.0), price: num(12.0) };
    assert_eq!(vm.step(), Step::Work(w));
    vm.resume(host(w));
    let w = Work::Momentum { oldest: num(10.0), now: num(12.0) };
    assert_eq!(vm.step(), Step::Work(w));
    vm.resume(host(w));
    let w = Work::Reversion {
        evicted: None,
        price: num(12.0),
        sum: num(10.0),
        sum_sq: num(100.0),
        window: Some(2),
    };
    assert_eq!(vm.step(), Step::Work(w));
    vm.resume(host(w));
    vm.step();
    vm.begin(num(11.0));
    vm.step();
    vm.resume(Reply::Value(num(1.0)));
    assert_eq!(vm.step(), Step::Work(Work::Momentum { oldest: num(12.0), now: num(11.0) }));
    vm.resume(Reply::Value(num(0.0)));
    let w = Work::Reversion {
        evicted: Some(num(10.0)),
        price: num(11.0),
        sum: num(22.0),
        sum_sq: num(244.0),
        window: Some(2),
    };
    assert_eq!(vm.step(), Step::Work(w));
}

#[test]
fn an_indicator_of_another_kind_in_its_slot_reads_zero() {
    let mut vm = Vm::new(vec![
        Op::Ema { slot: 0, period: 3 },
        Op::Momentum { slot: 0, lookback: 0 },
        Op::Not,
        Op::Buy,
    ]);
    assert!(vm.is_runnable());
    assert_eq!(vm.run(num(10.0), host), VmDecision::Buy(num(1.0)));
}

#[test]
fn programs_that_cannot_run_are_told() {
    assert!(!Vm::new(vec![Op::Ema { slot: 1, period: 3 }]).is_runnable());
    assert!(!Vm::new(vec![Op::Reversion { slot: 0, window: 0 }]).is_runnable());
    assert!(Vm::new(vec![Op::Reversion { slot: 0, window: 1 }]).is_runnable());
    let vm = Vm::new(vec![Op::PushPrice]);
    assert!(vm.is_runnable());
    assert_eq!(vm.program(), &[Op::PushPrice]);
}

#[test]
fn indicators_agree_with_the_composite_strategy() {
    let cfg = StrategyConfig {
        fast_ema_period: 3,
        momentum_lookback: 2,
        reversion_window: 3,
        ..StrategyConfig::default()
    };
    let mut strat = Strategy::new(cfg);
    let mut vm = Vm::new(vec![
        Op::Ema { slot: 0, period: 3 },
        Op::Momentum { slot: 1, lookback: 2 },
        Op::Reversion { slot: 2, window: 3 },
    ]);
    for price in [10.0, 11.0, 0.0, 12.0, 13.0, 12.5, 14.0] {
        let u = strat.observe(num(price));
        let fast = match u.fast {
            Some(e) => host(Work::Ema { period: e.period, value: e.value, price: u.price }),
            None => Reply::Value(num(price)),
        };
        let Reply::Value(fast) = fast else { unreachable!() };
        strat.absorb(Updated { fast, slow: fast, sum: num(0.0), sum_sq: num(0.0) });
        let signals = strat.signals();

        vm.begin(num(price));
        let mut average = num(price);
        let mut momentum = None;
        let mut reversion = None;
        while let Step::Work(w) = vm.step() {
            let reply = host(w);
            match (w, reply) {
                (Work::Ema { .. }, Reply::Value(v)) => average = v,
                (Work::Momentum { oldest, now }, _) => momentum = Some((oldest, now)),
                (Work::Reversion { evicted, window, .. }, _) => {
                    assert_eq!(evicted, u.evicted);
                    reversion = window;
                }
                _ => unreachable!(),
            }
            vm.resume(reply);
        }
        assert_eq!(average, fast);
        assert_eq!(momentum, signals.momentum.map(|m| (m.past, m.now)));
        assert_eq!(reversion, signals.reversion.map(|r| r.count));
    }
}

#[test]
fn momentum_reads_as_the_strategy_after_every_price() {
    let mut strat = Strategy::new(StrategyConfig::default());
    let mut vm = Vm::new(vec![Op::Momentum { slot: 0, lookback: 16 }, Op::Buy]);
    for i in 0..60u32 {
        let price = num(50_000.0 + 40.0 * (f64::from(i) / 9.0).sin());
        let _ = strat.observe(price);
        strat.absorb(Updated { fast: price, slow: price, sum: num(0.0), sum_sq: num(0.0) });
        let expected = match strat.signals().momentum {
            Some(m) => match host(Work::Momentum { oldest: m.past, now: m.now }) {
                Reply::Value(v) => val(v),
                _ => unreachable!(),
            },
            None => 0.0,
        };
        assert!((-1.0..=1.0).contains(&expected));
        assert_eq!(expected == 0.0, i < 16);
        let decision = vm.run(price, host);
        if expected > 0.0 {
            assert_eq!(decision, VmDecision::Buy(num(expected)));
        } else {
            assert_eq!(decision, VmDecision::Hold);
        }
    }
}

#[test]
fn a_program_without_indicators_decides_by_price_alone() {
    let prog = vec![
        Op::PushPrice,
        Op::PushConst(num(10.0)),
        Op::Gt,
        Op::Buy,
        Op::PushPrice,
        Op::PushConst(num(20.0)),
        Op::Gt,
        Op::Sell,
        Op::PushPrice,
        Op::PushConst(num(30.0)),
        Op::Eq,
        Op::Buy,
        Op::PushPrice,
    ];
    let mut used = Vm::new(prog.clone());
    for price in [15.0, 25.0, 30.0, 5.0, 12.0, 31.0] {
        let decision = used.run(num(price), host);
        assert_eq!(decision, Vm::new(prog.clone()).run(num(price), host));
        assert_eq!(used.program(), prog.as_slice());
        // The last signal that fires decides.
        let expected = if price == 30.0 {
            VmDecision::Buy(num(1.0))
        } else if price > 20.0 {
            VmDecision::Sell(num(1.0))
        } else if price > 10.0 {
            VmDecision::Buy(num(1.0))
        } else {
            VmDecision::Hold
        };
        assert_eq!(decision, expected);
    }
}
