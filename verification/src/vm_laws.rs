//! Laws of the stack machine and of its flat byte form.

use crate::bytecode::{
    answers, can_run, consulted, demand, effect, flat_bytes, fresh_cell, fresh_cells, fresh_tick,
    immediates, listing, near_zero, op_can_run, operand_bytes, run, settle, side_of, Cell,
    Machine, Op, Reply, VmDecision, Work, STACK_CAP,
};
use crate::num::Num;
use crate::ring::slide;
use crate::strategy::{
    MomentumInput, ReversionInput, Side, StrategyConfig, StrategyState, Update, Updated,
};
use crate::text::{decimal, hex_byte, right_aligned};
use vstd::bytes::{
    lemma_auto_spec_u16_to_from_le_bytes, lemma_auto_spec_u64_to_from_le_bytes,
    spec_u16_from_le_bytes, spec_u16_to_le_bytes, spec_u64_from_le_bytes, spec_u64_to_le_bytes,
};
use vstd::prelude::*;

verus! {

/// An empty program holds.
pub proof fn law_empty_program_holds(host: spec_fn(Work) -> Reply, price: Num, m: Machine)
    requires
        m.decision is Hold,
    ensures
        run(host, seq![], price, m, 0).decision is Hold,
        settle(seq![], price, m, 0) == (0nat, m),
{
}

/// Only a signal with a truthy condition decides, and it decides for its side with that
/// condition as the score, whatever was decided before.
pub proof fn law_truthy_signals_decide(op: Op, m: Machine, price: Num, reply: Option<Reply>)
    ensures
        effect(op, m, price, reply).decision == if m.top().above(Num::zero()) && op is Buy {
            VmDecision::Buy(m.top())
        } else if m.top().above(Num::zero()) && op is Sell {
            VmDecision::Sell(m.top())
        } else {
            m.decision
        },
{
}

/// A decided side carries a score above zero.
pub proof fn law_scores_are_positive(
    host: spec_fn(Work) -> Reply,
    prog: Seq<Op>,
    price: Num,
    m: Machine,
    k: nat,
)
    requires
        match m.decision {
            VmDecision::Buy(s) => s.above(Num::zero()),
            VmDecision::Sell(s) => s.above(Num::zero()),
            VmDecision::Hold => true,
        },
    ensures
        match run(host, prog, price, m, k).decision {
            VmDecision::Buy(s) => s.above(Num::zero()),
            VmDecision::Sell(s) => s.above(Num::zero()),
            VmDecision::Hold => true,
        },
    decreases prog.len() - k,
{
    if k < prog.len() {
        let op = prog[k as int];
        let next = effect(op, m, price, consulted(host, op, m, price));
        law_truthy_signals_decide(op, m, price, consulted(host, op, m, price));
        law_scores_are_positive(host, prog, price, next, k + 1);
    }
}

/// A program without indicators.
pub open spec fn stateless(prog: Seq<Op>) -> bool {
    forall|i: int| 0 <= i < prog.len() ==> !(#[trigger] prog[i]).stateful()
}

/// A program without indicators decides by program and price alone: whatever two machines
/// have been through before, the tick leaves both with the same decision and the same
/// stack, and their cells as they were.
pub proof fn law_stateless_programs_decide_by_price(
    host: spec_fn(Work) -> Reply,
    prog: Seq<Op>,
    price: Num,
    m1: Machine,
    m2: Machine,
)
    requires
        stateless(prog),
    ensures
        ({
            let r1 = run(host, prog, price, fresh_tick(m1), 0);
            let r2 = run(host, prog, price, fresh_tick(m2), 0);
            &&& r1.decision == r2.decision
            &&& r1.stack == r2.stack
            &&& r1.cells == m1.cells
        }),
{
    lemma_stateless_runs(host, prog, price, fresh_tick(m1), fresh_tick(m2), 0);
}

proof fn lemma_stateless_runs(
    host: spec_fn(Work) -> Reply,
    prog: Seq<Op>,
    price: Num,
    m1: Machine,
    m2: Machine,
    k: nat,
)
    requires
        stateless(prog),
        m1.stack == m2.stack,
        m1.decision == m2.decision,
    ensures
        ({
            let r1 = run(host, prog, price, m1, k);
            let r2 = run(host, prog, price, m2, k);
            &&& r1.decision == r2.decision
            &&& r1.stack == r2.stack
            &&& r1.cells == m1.cells
        }),
    decreases prog.len() - k,
{
    if k < prog.len() {
        let op = prog[k as int];
        assert(!op.stateful());
        let n1 = effect(op, m1, price, consulted(host, op, m1, price));
        let n2 = effect(op, m2, price, consulted(host, op, m2, price));
        lemma_stateless_runs(host, prog, price, n1, n2, k + 1);
    }
}

/// The machine before the `i`-th operation of a tick.
pub open spec fn reached(
    host: spec_fn(Work) -> Reply,
    prog: Seq<Op>,
    price: Num,
    m: Machine,
    i: nat,
) -> Machine
    decreases i,
{
    if i == 0 {
        m
    } else {
        let before = reached(host, prog, price, m, (i - 1) as nat);
        let op = prog[i - 1];
        effect(op, before, price, consulted(host, op, before, price))
    }
}

/// The `i`-th operation is a signal that pops a number greater than zero.
pub open spec fn fires(
    host: spec_fn(Work) -> Reply,
    prog: Seq<Op>,
    price: Num,
    m: Machine,
    i: nat,
) -> bool {
    (prog[i as int] is Buy || prog[i as int] is Sell) && reached(
        host,
        prog,
        price,
        m,
        i,
    ).top().above(Num::zero())
}

/// The last signal that fires decides, for its side and with the number that it popped as
/// the score. Where none fires, the tick holds.
pub proof fn law_the_last_signal_that_fires_decides(
    host: spec_fn(Work) -> Reply,
    prog: Seq<Op>,
    price: Num,
    m: Machine,
)
    ensures
        ({
            let start = fresh_tick(m);
            let d = run(host, prog, price, start, 0).decision;
            &&& (forall|i: nat|
                i < prog.len() ==> !#[trigger] fires(host, prog, price, start, i)) ==> d is Hold
            &&& forall|i: nat|
                i < prog.len() && #[trigger] fires(host, prog, price, start, i) && (forall|j: nat|
                    i < j < prog.len() ==> !#[trigger] fires(host, prog, price, start, j)) ==> {
                    let score = reached(host, prog, price, start, i).top();
                    d == if prog[i as int] is Buy {
                        VmDecision::Buy(score)
                    } else {
                        VmDecision::Sell(score)
                    }
                }
        }),
{
    let start = fresh_tick(m);
    let n = prog.len();
    lemma_reached_runs(host, prog, price, start, n);
    if forall|i: nat| i < n ==> !#[trigger] fires(host, prog, price, start, i) {
        lemma_decision_stays(host, prog, price, start, 0, n);
    }
    assert forall|i: nat|
        i < n && #[trigger] fires(host, prog, price, start, i) && (forall|j: nat|
            i < j < n ==> !#[trigger] fires(host, prog, price, start, j)) implies {
        let score = reached(host, prog, price, start, i).top();
        run(host, prog, price, start, 0).decision == if prog[i as int] is Buy {
            VmDecision::Buy(score)
        } else {
            VmDecision::Sell(score)
        }
    } by {
        lemma_decision_stays(host, prog, price, start, i + 1, n);
    }
}

proof fn lemma_reached_runs(
    host: spec_fn(Work) -> Reply,
    prog: Seq<Op>,
    price: Num,
    m: Machine,
    i: nat,
)
    requires
        i <= prog.len(),
    ensures
        run(host, prog, price, reached(host, prog, price, m, i), i) == run(
            host,
            prog,
            price,
            m,
            0,
        ),
    decreases i,
{
    if i > 0 {
        lemma_reached_runs(host, prog, price, m, (i - 1) as nat);
    }
}

proof fn lemma_decision_stays(
    host: spec_fn(Work) -> Reply,
    prog: Seq<Op>,
    price: Num,
    m: Machine,
    i: nat,
    n: nat,
)
    requires
        i <= n <= prog.len(),
        forall|j: nat| i <= j < n ==> !#[trigger] fires(host, prog, price, m, j),
    ensures
        reached(host, prog, price, m, n).decision == reached(host, prog, price, m, i).decision,
    decreases n,
{
    if i < n {
        let k = (n - 1) as nat;
        lemma_decision_stays(host, prog, price, m, i, k);
        assert(!fires(host, prog, price, m, k));
    }
}

/// How many numbers an operation takes off the stack.
pub open spec fn takes(op: Op) -> nat {
    match op {
        Op::PushPrice => 0,
        Op::PushConst(_) => 0,
        Op::Ema { .. } => 0,
        Op::Momentum { .. } => 0,
        Op::Reversion { .. } => 0,
        Op::Not => 1,
        Op::Buy => 1,
        Op::Sell => 1,
        _ => 2,
    }
}

/// How many numbers an operation puts onto the stack.
pub open spec fn puts(op: Op) -> nat {
    match op {
        Op::Buy => 0,
        Op::Sell => 0,
        _ => 1,
    }
}

/// An operation that finds its operands takes exactly those and puts its result, if the
/// stack has room for it; what lies below stays.
pub proof fn law_stack_discipline(op: Op, m: Machine, price: Num, reply: Option<Reply>)
    requires
        op_can_run(op, m.cells),
        takes(op) <= m.stack.len(),
        m.stack.len() - takes(op) + puts(op) <= STACK_CAP,
    ensures
        ({
            let after = effect(op, m, price, reply).stack;
            let below = m.stack.len() - takes(op);
            &&& after.len() == below + puts(op)
            &&& after.take(below) == m.stack.take(below)
        }),
{
    let below = m.stack.len() - takes(op);
    assert(effect(op, m, price, reply).stack.take(below) =~= m.stack.take(below));
}

/// 1 for true and 0 for false, as binary64 patterns.
pub open spec fn truth(b: bool) -> Num {
    if b {
        Num { bits: 0x3FF0_0000_0000_0000 }
    } else {
        Num { bits: 0 }
    }
}

/// Neither operand is beyond comparison.
pub open spec fn comparable(a: Num, b: Num) -> bool {
    !a.nan() && !b.nan()
}

/// A comparison takes its two operands, the one pushed first on the left, and leaves 1 where
/// it holds of their values and 0 where it does not; of what is not a number none holds.
/// What lies below, the cells and the decision stay.
pub proof fn law_comparisons_compare_values(
    m: Machine,
    below: Seq<Num>,
    a: Num,
    b: Num,
    price: Num,
    reply: Option<Reply>,
)
    requires
        m.stack == below.push(a).push(b),
        m.stack.len() <= STACK_CAP,
    ensures
        ({
            let leaves = |op: Op, holds: bool|
                effect(op, m, price, reply) == (Machine { stack: below.push(truth(holds)), ..m });
            &&& leaves(Op::Gt, comparable(a, b) && a.value() > b.value())
            &&& leaves(Op::Lt, comparable(a, b) && a.value() < b.value())
            &&& leaves(Op::Ge, comparable(a, b) && a.value() >= b.value())
            &&& leaves(Op::Le, comparable(a, b) && a.value() <= b.value())
        }),
{
    assert(m.stack.drop_last() =~= below.push(a));
    assert(below.push(a).drop_last() =~= below);
}

/// Equality is the host's judgement of the two operands, in the order in which they were
/// pushed.
pub proof fn law_equality_is_judged_by_the_host(
    m: Machine,
    below: Seq<Num>,
    a: Num,
    b: Num,
    price: Num,
    judged: bool,
)
    requires
        m.stack == below.push(a).push(b),
        m.stack.len() <= STACK_CAP,
    ensures
        demand(Op::Eq, m, price) == Some(Work::Near { a, b }),
        effect(Op::Eq, m, price, Some(Reply::Truth(judged))) == (Machine {
            stack: below.push(truth(judged)),
            ..m
        }),
{
    assert(m.stack.drop_last() =~= below.push(a));
    assert(below.push(a).drop_last() =~= below);
}

/// A number is true where it is greater than zero. `And` leaves 1 where both operands are
/// true, `Or` where one of them is, and `Not` where its only operand is a number and not
/// true.
pub proof fn law_gates_combine_truth(
    m: Machine,
    below: Seq<Num>,
    a: Num,
    b: Num,
    price: Num,
    reply: Option<Reply>,
)
    requires
        m.stack == below.push(a).push(b),
        m.stack.len() <= STACK_CAP,
    ensures
        ({
            let yes_a = !a.nan() && a.value() > 0;
            let yes_b = !b.nan() && b.value() > 0;
            &&& effect(Op::And, m, price, reply) == (Machine {
                stack: below.push(truth(yes_a && yes_b)),
                ..m
            })
            &&& effect(Op::Or, m, price, reply) == (Machine {
                stack: below.push(truth(yes_a || yes_b)),
                ..m
            })
            &&& effect(Op::Not, m, price, reply) == (Machine {
                stack: below.push(a).push(truth(!b.nan() && b.value() <= 0)),
                ..m
            })
        }),
{
    Num::law_zero_is_nothing();
    assert(m.stack.drop_last() =~= below.push(a));
    assert(below.push(a).drop_last() =~= below);
}

/// A signal takes its condition off the stack. Where that is a number greater than zero, it
/// decides for its side with that number as the score; else the decision stays.
pub proof fn law_signals_take_their_condition(
    m: Machine,
    below: Seq<Num>,
    a: Num,
    price: Num,
    reply: Option<Reply>,
)
    requires
        m.stack == below.push(a),
    ensures
        ({
            let fires = !a.nan() && a.value() > 0;
            let left = |d: VmDecision|
                Machine {
                    stack: below,
                    decision: if fires {
                        d
                    } else {
                        m.decision
                    },
                    ..m
                };
            &&& effect(Op::Buy, m, price, reply) == left(VmDecision::Buy(a))
            &&& effect(Op::Sell, m, price, reply) == left(VmDecision::Sell(a))
        }),
{
    Num::law_zero_is_nothing();
    assert(m.stack.drop_last() =~= below);
}

/// The price and a constant go on top of the stack as they are. A full stack takes no more.
pub proof fn law_operands_are_pushed(m: Machine, c: Num, price: Num, reply: Option<Reply>)
    ensures
        effect(Op::PushPrice, m, price, reply) == (Machine {
            stack: if m.stack.len() < STACK_CAP {
                m.stack.push(price)
            } else {
                m.stack
            },
            ..m
        }),
        effect(Op::PushConst(c), m, price, reply) == (Machine {
            stack: if m.stack.len() < STACK_CAP {
                m.stack.push(c)
            } else {
                m.stack
            },
            ..m
        }),
{
}

/// An operand that is missing reads as zero.
pub proof fn law_missing_operands_read_zero(m: Machine, price: Num, reply: Option<Reply>, op: Op)
    requires
        m.stack.len() < takes(op),
        !(op is Buy || op is Sell),
    ensures
        ({
            let zero = Num { bits: 0 };
            let padded = if m.stack.len() == 0 {
                if takes(op) == 1 {
                    seq![zero]
                } else {
                    seq![zero, zero]
                }
            } else {
                seq![zero, m.stack[0]]
            };
            effect(op, m, price, reply) == effect(op, Machine { stack: padded, ..m }, price, reply)
        }),
{
    let zero = Num { bits: 0 };
    if m.stack.len() == 1 {
        assert(m.stack.drop_last() =~= seq![]);
        let padded = seq![zero, m.stack[0]];
        assert(padded.drop_last() =~= seq![zero]);
        assert(seq![zero].drop_last() =~= seq![]);
    } else {
        assert(m.stack =~= seq![]);
        assert(seq![zero, zero].drop_last() =~= seq![zero]);
        assert(seq![zero].drop_last() =~= seq![]);
    }
}

/// Whether the operations carry state is a matter of their kind, and each indicator starts
/// with its own parameter and an empty memory.
pub proof fn law_indicators_start_empty(op: Op)
    ensures
        match op {
            Op::Ema { slot, period } => op.stateful() && op.slot() == slot && fresh_cell(op) == (
            Cell::Ema { period, value: None }),
            Op::Momentum { slot, lookback } => op.stateful() && op.slot() == slot && fresh_cell(op)
                == (Cell::Momentum { lookback, prices: seq![] }),
            Op::Reversion { slot, window } => op.stateful() && op.slot() == slot && fresh_cell(op)
                == (Cell::Reversion {
                window,
                prices: seq![],
                sum: Num { bits: 0 },
                sum_sq: Num { bits: 0 },
            }),
            _ => !op.stateful(),
        },
{
}

/// A comparison or a gate leaves 1 or 0.
pub proof fn law_conditions_are_booleans(op: Op, m: Machine, price: Num, reply: Option<Reply>)
    requires
        takes(op) == 2 || op is Not,
        takes(op) <= m.stack.len() <= STACK_CAP,
    ensures
        effect(op, m, price, reply).top() == Num::one() || effect(op, m, price, reply).top()
            == Num::zero(),
{
}

/// A price enters the windows of exactly those indicators that the tick runs, as their
/// newest entry, and pushes out the oldest entry of a full window.
pub proof fn law_indicators_remember(op: Op, m: Machine, price: Num, reply: Option<Reply>)
    requires
        op_can_run(op, m.cells),
        demand(op, m, price) matches Some(w) ==> reply matches Some(r) && answers(w, r),
    ensures
        ({
            let after = effect(op, m, price, reply).cells;
            let k = op.slot() as int;
            match op {
                Op::Momentum { .. } => m.cells[k] matches Cell::Momentum { lookback, prices }
                    ==> after[k] == (Cell::Momentum {
                    lookback,
                    prices: slide(prices, (lookback + 1) as nat, price),
                }),
                Op::Reversion { .. } => m.cells[k] matches Cell::Reversion { window, prices, .. }
                    ==> (after[k] matches Cell::Reversion { window: w2, prices: p2, .. } && w2
                    == window && p2 == slide(prices, window as nat, price)),
                Op::Ema { .. } => m.cells[k] matches Cell::Ema { period, .. } ==> (
                after[k] matches Cell::Ema { period: p2, value } && p2 == period
                    && value is Some),
                _ => after == m.cells,
            }
        }),
{
}

/// The indicator cells for the settings of a composite strategy hold what that strategy
/// holds: the same averages and the same windows.
pub open spec fn mirrors(cell: Cell, st: StrategyState) -> bool {
    match cell {
        Cell::Ema { period, value } => (period == st.cfg.fast_ema_period && value == st.fast) || (
        period == st.cfg.slow_ema_period && value == st.slow),
        Cell::Momentum { lookback, prices } => lookback == st.cfg.momentum_lookback && prices
            == st.recent,
        Cell::Reversion { window, prices, .. } => window == st.cfg.reversion_window && prices
            == st.window,
    }
}

/// An indicator with the settings of a composite strategy starts as the strategy does.
pub proof fn law_indicators_start_as_the_strategy(cfg: StrategyConfig, op: Op)
    requires
        match op {
            Op::Ema { period, .. } => period == cfg.fast_ema_period || period
                == cfg.slow_ema_period,
            Op::Momentum { lookback, .. } => lookback == cfg.momentum_lookback,
            Op::Reversion { window, .. } => window == cfg.reversion_window,
            _ => false,
        },
    ensures
        mirrors(fresh_cell(op), StrategyState::fresh(cfg)),
{
}

/// The momentum operation agrees with the composite strategy's momentum. Fed the same
/// price, it keeps the same window and asks for the return between the same two prices,
/// or for none where the strategy has no momentum either.
pub proof fn law_momentum_mirrors_the_strategy(
    st: StrategyState,
    op: Op,
    m: Machine,
    price: Num,
    reply: Option<Reply>,
)
    requires
        st.valid(),
        op is Momentum,
        op_can_run(op, m.cells),
        m.cells[op.slot() as int] is Momentum,
        mirrors(m.cells[op.slot() as int], st),
    ensures
        mirrors(effect(op, m, price, reply).cells[op.slot() as int], st.observed(price)),
        demand(op, m, price) == match st.observed(price).inputs().momentum {
            Some(i) => Some(Work::Momentum { oldest: i.past, now: i.now }),
            None => None,
        },
{
    let after = st.observed(price);
    assert(after.recent == slide(st.recent, (st.cfg.momentum_lookback + 1) as nat, price));
    assert(after.recent.last() == price);
}

/// The reversion operation agrees with the composite strategy's mean reversion. Fed the
/// same price, it keeps the same window, gives up the same price, and asks for a reading
/// exactly where the strategy has one, over as many prices.
pub proof fn law_reversion_mirrors_the_strategy(
    st: StrategyState,
    op: Op,
    m: Machine,
    price: Num,
    reply: Reply,
)
    requires
        st.valid(),
        op is Reversion,
        op_can_run(op, m.cells),
        m.cells[op.slot() as int] is Reversion,
        mirrors(m.cells[op.slot() as int], st),
        reply is Sums,
    ensures
        mirrors(effect(op, m, price, Some(reply)).cells[op.slot() as int], st.observed(price)),
        demand(op, m, price) matches Some(Work::Reversion { evicted, price: p, window, .. })
            && evicted == st.update(price).evicted && p == price && window == match st.observed(
            price,
        ).inputs().reversion {
            Some(i) => Some(i.count),
            None => None,
        },
{
    let after = st.observed(price);
    assert(after.window == slide(st.window, st.cfg.reversion_window as nat, price));
}

/// The average operation agrees with the composite strategy's averages. Fed the same
/// price, it asks to move the same value on over the same period, or takes the price for
/// its first value where the strategy does.
pub proof fn law_average_mirrors_the_strategy(
    st: StrategyState,
    op: Op,
    m: Machine,
    price: Num,
    fast: bool,
)
    requires
        op is Ema,
        op_can_run(op, m.cells),
        m.cells[op.slot() as int] == if fast {
            (Cell::Ema { period: st.cfg.fast_ema_period, value: st.fast })
        } else {
            (Cell::Ema { period: st.cfg.slow_ema_period, value: st.slow })
        },
    ensures
        ({
            let u: Update = st.update(price);
            let step = if fast {
                u.fast
            } else {
                u.slow
            };
            let after = effect(op, m, price, None).cells[op.slot() as int];
            match step {
                Some(e) => demand(op, m, price) == Some(
                    Work::Ema { period: e.period, value: e.value, price },
                ),
                None => demand(op, m, price) is None && mirrors(after, st.observed(price)),
            }
        }),
{
}

/// What the composite strategy is handed with one tick: the price, and the weight and the
/// score that its signals blend to.
pub struct Tick {
    pub price: Num,
    pub weight: Num,
    pub score: Num,
}

/// The composite strategy after a sequence of ticks. `update` brings its values up to date.
pub open spec fn after_ticks(
    st: StrategyState,
    update: spec_fn(Update) -> Updated,
    ticks: Seq<Tick>,
) -> StrategyState
    decreases ticks.len(),
{
    if ticks.len() == 0 {
        st
    } else {
        let before = after_ticks(st, update, ticks.drop_last());
        let t = ticks.last();
        before.refreshed(t.price, update(before.update(t.price))).decided(t.weight, t.score)
    }
}

/// The machine of a program that is one indicator, in slot 0, after the prices of a sequence
/// of ticks.
pub open spec fn indicator_after(
    op: Op,
    host: spec_fn(Work) -> Reply,
    ticks: Seq<Tick>,
) -> Machine
    decreases ticks.len(),
{
    if ticks.len() == 0 {
        Machine { cells: fresh_cells(seq![op]), stack: seq![], decision: VmDecision::Hold }
    } else {
        run(
            host,
            seq![op],
            ticks.last().price,
            fresh_tick(indicator_after(op, host, ticks.drop_last())),
            0,
        )
    }
}

/// A program of one operation runs that operation.
proof fn lemma_single_op(
    op: Op,
    host: spec_fn(Work) -> Reply,
    price: Num,
    m: Machine,
)
    ensures
        run(host, seq![op], price, m, 0) == effect(op, m, price, consulted(host, op, m, price)),
{
    reveal_with_fuel(run, 2);
    assert(seq![op][0] == op);
}

proof fn lemma_single_cell(op: Op)
    requires
        op.stateful(),
    ensures
        fresh_cells(seq![op]) == seq![fresh_cell(op)],
{
    let prog = seq![op];
    assert(prog.drop_last() =~= seq![]);
    assert(fresh_cells(prog.drop_last()) =~= seq![]);
    assert(fresh_cells(prog) =~= seq![fresh_cell(op)]);
}

/// The last `size` of some numbers, or all of them.
pub open spec fn last_of(all: Seq<Num>, size: nat) -> Seq<Num> {
    if all.len() <= size {
        all
    } else {
        all.skip(all.len() - size)
    }
}

pub open spec fn prices_of(ticks: Seq<Tick>) -> Seq<Num> {
    ticks.map_values(|t: Tick| t.price)
}

proof fn lemma_slide_keeps_the_last(all: Seq<Num>, size: nat, x: Num)
    requires
        size > 0,
    ensures
        slide(last_of(all, size), size, x) == last_of(all.push(x), size),
{
    assert(slide(last_of(all, size), size, x) =~= last_of(all.push(x), size));
}

/// The strategy remembers the last prices, whatever else the ticks bring.
proof fn lemma_windows(
    cfg: StrategyConfig,
    update: spec_fn(Update) -> Updated,
    ticks: Seq<Tick>,
)
    requires
        cfg.usable(),
    ensures
        ({
            let st = after_ticks(StrategyState::fresh(cfg), update, ticks);
            &&& st.cfg == cfg
            &&& st.recent == last_of(prices_of(ticks), (cfg.momentum_lookback + 1) as nat)
            &&& st.window == last_of(prices_of(ticks), cfg.reversion_window as nat)
        }),
    decreases ticks.len(),
{
    if ticks.len() == 0 {
        assert(prices_of(ticks) =~= seq![]);
    } else {
        let front = ticks.drop_last();
        let price = ticks.last().price;
        lemma_windows(cfg, update, front);
        assert(prices_of(ticks) =~= prices_of(front).push(price));
        lemma_slide_keeps_the_last(
            prices_of(front),
            (cfg.momentum_lookback + 1) as nat,
            price,
        );
        lemma_slide_keeps_the_last(prices_of(front), cfg.reversion_window as nat, price);
    }
}

/// What the momentum operation asks for at the end of any sequence of prices: the return
/// from the price a lookback before the newest one, if there is one and it is not zero, and
/// nothing else. What comes back goes on the stack, and zero where nothing was asked.
pub proof fn law_momentum_asks_for_the_return(
    slot: usize,
    lookback: usize,
    host: spec_fn(Work) -> Reply,
    ticks: Seq<Tick>,
    price: Num,
    v: Num,
)
    requires
        lookback < usize::MAX,
        slot == 0,
    ensures
        ({
            let op = Op::Momentum { slot, lookback };
            let m = fresh_tick(indicator_after(op, host, ticks));
            let all = prices_of(ticks).push(price);
            let past = all[all.len() - 1 - lookback];
            &&& demand(op, m, price) == if all.len() > lookback && (past.nan() || past.value()
                != 0) {
                Some(Work::Momentum { oldest: past, now: price })
            } else {
                None
            }
            &&& effect(op, m, price, Some(Reply::Value(v))).stack == seq![v]
            &&& effect(op, m, price, None).stack == seq![Num { bits: 0 }]
        }),
{
    let op = Op::Momentum { slot, lookback };
    let cfg = StrategyConfig { momentum_lookback: lookback, reversion_window: 1, ..StrategyConfig::standard() };
    let size = (lookback + 1) as nat;
    lemma_momentum_cell(cfg, host, ticks);
    lemma_slide_keeps_the_last(prices_of(ticks), size, price);
    let all = prices_of(ticks).push(price);
    let now = last_of(all, size);
    if all.len() > lookback {
        assert(now[0] == all[all.len() - 1 - lookback]);
    }
    let m = fresh_tick(indicator_after(op, host, ticks));
    assert(effect(op, m, price, Some(Reply::Value(v))).stack =~= seq![v]);
    assert(effect(op, m, price, None).stack =~= seq![Num { bits: 0 }]);
}

/// The sums that the reversion operation holds after a sequence of prices: those that the
/// host handed back with the last of them, and zeros before the first.
pub open spec fn sums_after(
    window: usize,
    host: spec_fn(Work) -> Reply,
    prices: Seq<Num>,
) -> (Num, Num)
    decreases prices.len(),
{
    if prices.len() == 0 {
        (Num { bits: 0 }, Num { bits: 0 })
    } else {
        match host(reversion_work(window, host, prices)) {
            Reply::Sums { sum, sum_sq, .. } => (sum, sum_sq),
            _ => (Num { bits: 0 }, Num { bits: 0 }),
        }
    }
}

/// The work for the newest of some prices: the price that falls out of a window of this
/// length, the newest one, the sums so far, and the length of the window where it is full.
pub open spec fn reversion_work(
    window: usize,
    host: spec_fn(Work) -> Reply,
    prices: Seq<Num>,
) -> Work
    decreases prices.len(), 0nat,
    when prices.len() > 0
{
    let n = prices.len();
    let (sum, sum_sq) = sums_after(window, host, prices.drop_last());
    Work::Reversion {
        evicted: if n > window {
            Some(prices[n - 1 - window])
        } else {
            None
        },
        price: prices[n - 1],
        sum,
        sum_sq,
        window: if n >= window {
            Some(window)
        } else {
            None
        },
    }
}

/// What the reversion operation asks for at the end of any sequence of prices, from a host
/// that hands back sums: the price that falls out of the window goes out of the sums and
/// the newest one in, and a reading is asked for once the window is full. That reading goes
/// on the stack, and zero before.
pub proof fn law_reversion_asks_for_the_window(
    window: usize,
    host: spec_fn(Work) -> Reply,
    ticks: Seq<Tick>,
    price: Num,
)
    requires
        window > 0,
        forall|w: Work| #[trigger] host(w) is Sums,
    ensures
        ({
            let op = Op::Reversion { slot: 0, window };
            let m = fresh_tick(indicator_after(op, host, ticks));
            let all = prices_of(ticks).push(price);
            let work = reversion_work(window, host, all);
            &&& demand(op, m, price) == Some(work)
            &&& effect(op, m, price, Some(host(work))).stack == seq![
                if all.len() < window {
                    Num { bits: 0 }
                } else {
                    host(work)->reading
                },
            ]
        }),
{
    let op = Op::Reversion { slot: 0, window };
    let m = fresh_tick(indicator_after(op, host, ticks));
    let all = prices_of(ticks).push(price);
    lemma_reversion_memory(window, host, ticks);
    lemma_slide_keeps_the_last(prices_of(ticks), window as nat, price);
    assert(all.drop_last() =~= prices_of(ticks));
    let old = last_of(prices_of(ticks), window as nat);
    if all.len() > window {
        assert(old[0] == all[all.len() - 1 - window]);
    }
    let work = reversion_work(window, host, all);
    assert(effect(op, m, price, Some(host(work))).stack =~= seq![
        if all.len() < window {
            Num { bits: 0 }
        } else {
            host(work)->reading
        },
    ]);
}

proof fn lemma_reversion_memory(window: usize, host: spec_fn(Work) -> Reply, ticks: Seq<Tick>)
    requires
        window > 0,
        forall|w: Work| #[trigger] host(w) is Sums,
    ensures
        ({
            let cells = indicator_after(Op::Reversion { slot: 0, window }, host, ticks).cells;
            let (sum, sum_sq) = sums_after(window, host, prices_of(ticks));
            &&& cells.len() == 1
            &&& cells[0] == (Cell::Reversion {
                window,
                prices: last_of(prices_of(ticks), window as nat),
                sum,
                sum_sq,
            })
        }),
    decreases ticks.len(),
{
    let op = Op::Reversion { slot: 0, window };
    if ticks.len() == 0 {
        lemma_single_cell(op);
        assert(prices_of(ticks) =~= seq![]);
    } else {
        let front = ticks.drop_last();
        let price = ticks.last().price;
        lemma_reversion_memory(window, host, front);
        let m = fresh_tick(indicator_after(op, host, front));
        lemma_single_op(op, host, price, m);
        let all = prices_of(ticks);
        assert(all =~= prices_of(front).push(price));
        assert(all.drop_last() =~= prices_of(front));
        lemma_slide_keeps_the_last(prices_of(front), window as nat, price);
        let old = last_of(prices_of(front), window as nat);
        if all.len() > window {
            assert(old[0] == all[all.len() - 1 - window]);
        }
        assert(demand(op, m, price) == Some(reversion_work(window, host, all)));
    }
}

/// The average operation takes the first price for its value. From then on it asks to move
/// the last value that came back on by the new price, over its own period, and holds and
/// pushes what comes back.
pub proof fn law_averages_move_on(
    period: usize,
    m: Machine,
    slot: usize,
    value: Option<Num>,
    price: Num,
    v: Num,
)
    requires
        slot < m.cells.len(),
        m.cells[slot as int] == (Cell::Ema { period, value }),
        m.stack.len() == 0,
    ensures
        ({
            let op = Op::Ema { slot, period };
            let asked = demand(op, m, price);
            let now = if value is Some {
                v
            } else {
                price
            };
            let after = effect(
                op,
                m,
                price,
                if asked is Some {
                    Some(Reply::Value(v))
                } else {
                    None
                },
            );
            &&& value matches Some(x) ==> asked == Some(Work::Ema { period, value: x, price })
            &&& value is None ==> asked is None
            &&& after.stack == seq![now]
            &&& after.cells == m.cells.update(slot as int, Cell::Ema { period, value: Some(now) })
            &&& after.decision == m.decision
        }),
{
    let op = Op::Ema { slot, period };
    assert(effect(op, m, price, None).stack =~= seq![price]);
    assert(effect(op, m, price, Some(Reply::Value(v))).stack =~= seq![v]);
}

/// The number lies between minus one and one.
pub open spec fn in_unit_band(x: Num) -> bool {
    Num::one().at_least(x) && x.at_least(Num::one().opposite())
}

/// The momentum operation gives what the composite strategy's momentum gives, after every
/// price of any sequence of prices that both are fed from the start: the same reading
/// between the newest price and the one a lookback before it, and zero while there is none
/// so far back. `reading` is the host's arithmetic, the same for both. Where it stays
/// between minus one and one, so does the operation.
pub proof fn law_momentum_reads_as_the_strategy(
    cfg: StrategyConfig,
    update: spec_fn(Update) -> Updated,
    host: spec_fn(Work) -> Reply,
    reading: spec_fn(MomentumInput) -> Num,
    ticks: Seq<Tick>,
)
    requires
        cfg.usable(),
        forall|oldest: Num, now: Num|
            #[trigger] host(Work::Momentum { oldest, now }) == Reply::Value(
                reading(
                    MomentumInput {
                        past: oldest,
                        now,
                        full_scale: cfg.momentum_bps_full_scale,
                    },
                ),
            ),
        ticks.len() > 0,
    ensures
        ({
            let op = Op::Momentum { slot: 0, lookback: cfg.momentum_lookback };
            let value = indicator_after(op, host, ticks).top();
            let st = after_ticks(StrategyState::fresh(cfg), update, ticks);
            let back = ticks.len() - 1 - cfg.momentum_lookback;
            &&& value == match st.inputs().momentum {
                Some(i) => reading(i),
                None => Num::zero(),
            }
            &&& st.inputs().momentum matches Some(i) ==> i.past == ticks[back].price && i.now
                == ticks.last().price
            &&& ticks.len() <= cfg.momentum_lookback ==> value == Num::zero()
            &&& (forall|i: MomentumInput| in_unit_band(#[trigger] reading(i))) ==> in_unit_band(
                value,
            )
        }),
{
    let op = Op::Momentum { slot: 0, lookback: cfg.momentum_lookback };
    let front = ticks.drop_last();
    let price = ticks.last().price;
    let m = fresh_tick(indicator_after(op, host, front));
    let st = after_ticks(StrategyState::fresh(cfg), update, ticks);
    lemma_momentum_cell(cfg, host, front);
    lemma_windows(cfg, update, ticks);
    lemma_single_op(op, host, price, m);
    let size = (cfg.momentum_lookback + 1) as nat;
    assert(prices_of(ticks) =~= prices_of(front).push(price));
    lemma_slide_keeps_the_last(prices_of(front), size, price);
    let now = slide(last_of(prices_of(front), size), size, price);
    assert(now == st.recent);
    assert(now.last() == price);
    Num::one().law_rank_orders(Num::zero());
    Num::zero().law_rank_orders(Num::one().opposite());
    if ticks.len() > cfg.momentum_lookback {
        assert(now[0] == ticks[ticks.len() - 1 - cfg.momentum_lookback].price);
    }
}

/// The momentum operation remembers the last prices.
proof fn lemma_momentum_cell(cfg: StrategyConfig, host: spec_fn(Work) -> Reply, ticks: Seq<Tick>)
    requires
        cfg.usable(),
    ensures
        ({
            let op = Op::Momentum { slot: 0, lookback: cfg.momentum_lookback };
            let cells = indicator_after(op, host, ticks).cells;
            &&& cells.len() == 1
            &&& cells[0] == (Cell::Momentum {
                lookback: cfg.momentum_lookback,
                prices: last_of(prices_of(ticks), (cfg.momentum_lookback + 1) as nat),
            })
        }),
    decreases ticks.len(),
{
    let op = Op::Momentum { slot: 0, lookback: cfg.momentum_lookback };
    let size = (cfg.momentum_lookback + 1) as nat;
    if ticks.len() == 0 {
        lemma_single_cell(op);
        assert(prices_of(ticks) =~= seq![]);
    } else {
        let front = ticks.drop_last();
        let price = ticks.last().price;
        lemma_momentum_cell(cfg, host, front);
        lemma_single_op(op, host, price, fresh_tick(indicator_after(op, host, front)));
        assert(prices_of(ticks) =~= prices_of(front).push(price));
        lemma_slide_keeps_the_last(prices_of(front), size, price);
    }
}

/// The sums over the reversion window that `update` gives are those that `rolled` gives for
/// the price that leaves, the price that comes, and the sums so far.
pub open spec fn update_rolls(
    update: spec_fn(Update) -> Updated,
    rolled: spec_fn(Option<Num>, Num, Num, Num) -> (Num, Num),
) -> bool {
    forall|u: Update|
        #![trigger update(u)]
        (update(u).sum, update(u).sum_sq) == rolled(u.evicted, u.price, u.sum, u.sum_sq)
}

/// The host gives the same sums, and where it is asked for a reading, that of these sums.
pub open spec fn host_rolls(
    host: spec_fn(Work) -> Reply,
    rolled: spec_fn(Option<Num>, Num, Num, Num) -> (Num, Num),
    reading: spec_fn(ReversionInput) -> Num,
) -> bool {
    forall|evicted: Option<Num>, now: Num, sum: Num, sum_sq: Num, window: Option<usize>|
        #![trigger host(Work::Reversion { evicted, price: now, sum, sum_sq, window })]
        {
            let (next, next_sq) = rolled(evicted, now, sum, sum_sq);
            &&& host(Work::Reversion { evicted, price: now, sum, sum_sq, window }) matches
                Reply::Sums { sum: s, sum_sq: q, reading: r }
            &&& s == next
            &&& q == next_sq
            &&& window matches Some(count) ==> r == reading(
                ReversionInput { count, sum: next, sum_sq: next_sq, now },
            )
        }
}

/// The reversion operation gives what the composite strategy's mean reversion gives, after
/// every price of any sequence of prices that both are fed from the start: it keeps the
/// same running sums, gives the same reading of them, and zero until the window is full.
/// `rolled` and `reading` are the host's arithmetic, the same for both.
pub proof fn law_reversion_reads_as_the_strategy(
    cfg: StrategyConfig,
    update: spec_fn(Update) -> Updated,
    host: spec_fn(Work) -> Reply,
    rolled: spec_fn(Option<Num>, Num, Num, Num) -> (Num, Num),
    reading: spec_fn(ReversionInput) -> Num,
    ticks: Seq<Tick>,
)
    requires
        cfg.usable(),
        update_rolls(update, rolled),
        host_rolls(host, rolled, reading),
        ticks.len() > 0,
    ensures
        ({
            let op = Op::Reversion { slot: 0, window: cfg.reversion_window };
            let value = indicator_after(op, host, ticks).top();
            let st = after_ticks(StrategyState::fresh(cfg), update, ticks);
            &&& value == match st.inputs().reversion {
                Some(i) => reading(i),
                None => Num::zero(),
            }
            &&& ticks.len() < cfg.reversion_window ==> value == Num::zero()
        }),
{
    let op = Op::Reversion { slot: 0, window: cfg.reversion_window };
    let front = ticks.drop_last();
    let price = ticks.last().price;
    lemma_reversion_cell(cfg, update, host, rolled, reading, front);
    lemma_windows(cfg, update, ticks);
    lemma_windows(cfg, update, front);
    lemma_single_op(op, host, price, fresh_tick(indicator_after(op, host, front)));
    let before = after_ticks(StrategyState::fresh(cfg), update, front);
    let st = after_ticks(StrategyState::fresh(cfg), update, ticks);
    assert(st.window == slide(before.window, cfg.reversion_window as nat, price));
    assert(st.window.last() == price);
}

/// The reversion operation remembers what the strategy remembers.
proof fn lemma_reversion_cell(
    cfg: StrategyConfig,
    update: spec_fn(Update) -> Updated,
    host: spec_fn(Work) -> Reply,
    rolled: spec_fn(Option<Num>, Num, Num, Num) -> (Num, Num),
    reading: spec_fn(ReversionInput) -> Num,
    ticks: Seq<Tick>,
)
    requires
        cfg.usable(),
        update_rolls(update, rolled),
        host_rolls(host, rolled, reading),
    ensures
        ({
            let op = Op::Reversion { slot: 0, window: cfg.reversion_window };
            let cells = indicator_after(op, host, ticks).cells;
            let st = after_ticks(StrategyState::fresh(cfg), update, ticks);
            &&& cells.len() == 1
            &&& cells[0] == (Cell::Reversion {
                window: cfg.reversion_window,
                prices: st.window,
                sum: st.sum,
                sum_sq: st.sum_sq,
            })
        }),
    decreases ticks.len(),
{
    let op = Op::Reversion { slot: 0, window: cfg.reversion_window };
    if ticks.len() == 0 {
        lemma_single_cell(op);
    } else {
        let front = ticks.drop_last();
        let price = ticks.last().price;
        lemma_reversion_cell(cfg, update, host, rolled, reading, front);
        lemma_windows(cfg, update, front);
        lemma_single_op(op, host, price, fresh_tick(indicator_after(op, host, front)));
    }
}

/// The average operation gives what the composite strategy's averages give, after every
/// price of any sequence of prices that both are fed from the start. `next` is the host's
/// arithmetic, the same for both.
pub proof fn law_average_reads_as_the_strategy(
    cfg: StrategyConfig,
    update: spec_fn(Update) -> Updated,
    host: spec_fn(Work) -> Reply,
    next: spec_fn(usize, Num, Num) -> Num,
    ticks: Seq<Tick>,
    fast: bool,
)
    requires
        forall|u: Update|
            ({
                let v = #[trigger] update(u);
                &&& v.fast == match u.fast {
                    Some(e) => next(e.period, e.value, u.price),
                    None => u.price,
                }
                &&& v.slow == match u.slow {
                    Some(e) => next(e.period, e.value, u.price),
                    None => u.price,
                }
            }),
        forall|period: usize, value: Num, price: Num|
            #[trigger] host(Work::Ema { period, value, price }) == Reply::Value(
                next(period, value, price),
            ),
    ensures
        ({
            let period = if fast {
                cfg.fast_ema_period
            } else {
                cfg.slow_ema_period
            };
            let m = indicator_after(Op::Ema { slot: 0, period }, host, ticks);
            let st = after_ticks(StrategyState::fresh(cfg), update, ticks);
            let average = if fast {
                st.fast
            } else {
                st.slow
            };
            &&& st.cfg == cfg
            &&& m.cells == seq![Cell::Ema { period, value: average }]
            &&& ticks.len() > 0 ==> average == Some(m.top())
        }),
    decreases ticks.len(),
{
    let period = if fast {
        cfg.fast_ema_period
    } else {
        cfg.slow_ema_period
    };
    let op = Op::Ema { slot: 0, period };
    if ticks.len() == 0 {
        lemma_single_cell(op);
    } else {
        let front = ticks.drop_last();
        let price = ticks.last().price;
        law_average_reads_as_the_strategy(cfg, update, host, next, front, fast);
        lemma_single_op(op, host, price, fresh_tick(indicator_after(op, host, front)));
        let m = indicator_after(op, host, ticks);
        let st = after_ticks(StrategyState::fresh(cfg), update, ticks);
        assert(m.cells =~= seq![
            Cell::Ema {
                period,
                value: if fast {
                    st.fast
                } else {
                    st.slow
                },
            },
        ]);
    }
}

/// What of an operation survives its byte form: slots are not written, and periods keep
/// their low 16 bits.
pub open spec fn on_the_wire(op: Op) -> Op {
    match op {
        Op::Ema { period, .. } => Op::Ema { slot: 0, period: (period % 0x1_0000) as usize },
        Op::Momentum { lookback, .. } => Op::Momentum {
            slot: 0,
            lookback: (lookback % 0x1_0000) as usize,
        },
        Op::Reversion { window, .. } => Op::Reversion {
            slot: 0,
            window: (window % 0x1_0000) as usize,
        },
        _ => op,
    }
}

proof fn lemma_operand_len(op: Op)
    ensures
        operand_bytes(op).len() == match op {
            Op::PushConst(_) => 8nat,
            Op::Ema { .. } => 2,
            Op::Momentum { .. } => 2,
            Op::Reversion { .. } => 2,
            _ => 0,
        },
{
    lemma_auto_spec_u64_to_from_le_bytes();
    lemma_auto_spec_u16_to_from_le_bytes();
}

proof fn lemma_operand_injective(a: Op, b: Op)
    requires
        a.code() == b.code(),
        operand_bytes(a) == operand_bytes(b),
    ensures
        on_the_wire(a) == on_the_wire(b),
{
    lemma_auto_spec_u64_to_from_le_bytes();
    lemma_auto_spec_u16_to_from_le_bytes();
    match (a, b) {
        (Op::PushConst(x), Op::PushConst(y)) => {
            assert(spec_u64_from_le_bytes(spec_u64_to_le_bytes(x.bits)) == x.bits);
            assert(spec_u64_from_le_bytes(spec_u64_to_le_bytes(y.bits)) == y.bits);
        },
        (Op::Ema { period: x, .. }, Op::Ema { period: y, .. }) => lemma_short(x, y),
        (Op::Momentum { lookback: x, .. }, Op::Momentum { lookback: y, .. }) => lemma_short(x, y),
        (Op::Reversion { window: x, .. }, Op::Reversion { window: y, .. }) => lemma_short(x, y),
        _ => {},
    }
}

proof fn lemma_short(x: usize, y: usize)
    requires
        spec_u16_to_le_bytes((x as int % 0x1_0000) as u16) == spec_u16_to_le_bytes(
            (y as int % 0x1_0000) as u16,
        ),
    ensures
        x as int % 0x1_0000 == y as int % 0x1_0000,
{
    lemma_auto_spec_u16_to_from_le_bytes();
    let a = (x as int % 0x1_0000) as u16;
    let b = (y as int % 0x1_0000) as u16;
    assert(spec_u16_to_le_bytes(a).len() == 2 && spec_u16_to_le_bytes(b).len() == 2);
    assert(spec_u16_from_le_bytes(spec_u16_to_le_bytes(a)) == a);
    assert(spec_u16_from_le_bytes(spec_u16_to_le_bytes(b)) == b);
}

/// The byte form is unambiguous: programs with the same bytes are the same program, up to
/// the slots and the high bits of periods, which the bytes do not hold.
pub proof fn law_bytes_are_unambiguous(p: Seq<Op>, q: Seq<Op>)
    requires
        flat_bytes(p) == flat_bytes(q),
    ensures
        p.map_values(|op: Op| on_the_wire(op)) == q.map_values(|op: Op| on_the_wire(op)),
    decreases p.len(),
{
    let wire = |op: Op| on_the_wire(op);
    if p.len() == 0 || q.len() == 0 {
        if p.len() > 0 {
            assert(flat_bytes(p)[0] == p[0].code());
        }
        if q.len() > 0 {
            assert(flat_bytes(q)[0] == q[0].code());
        }
        assert(p.map_values(wire) =~= q.map_values(wire));
    } else {
        let a = p[0];
        let b = q[0];
        assert(flat_bytes(p)[0] == a.code());
        assert(flat_bytes(q)[0] == b.code());
        lemma_operand_len(a);
        lemma_operand_len(b);
        let n = operand_bytes(a).len() as int;
        assert(n == operand_bytes(b).len());
        assert(operand_bytes(a) =~= flat_bytes(p).subrange(1, 1 + n));
        assert(operand_bytes(b) =~= flat_bytes(q).subrange(1, 1 + n));
        lemma_operand_injective(a, b);
        assert(flat_bytes(p.drop_first()) =~= flat_bytes(p).skip(1 + n));
        assert(flat_bytes(q.drop_first()) =~= flat_bytes(q).skip(1 + n));
        law_bytes_are_unambiguous(p.drop_first(), q.drop_first());
        assert(p.map_values(wire) =~= seq![on_the_wire(a)] + p.drop_first().map_values(wire));
        assert(q.map_values(wire) =~= seq![on_the_wire(b)] + q.drop_first().map_values(wire));
    }
}

/// The byte of every operation.
pub proof fn law_operations_have_their_bytes(op: Op)
    ensures
        op is And <==> op.code() == 0x10,
        op is Or <==> op.code() == 0x11,
        op is Not <==> op.code() == 0x12,
        op is Buy <==> op.code() == 0x30,
        op is Sell <==> op.code() == 0x31,
        op is PushConst <==> op.code() == 0x40,
        op is PushPrice <==> op.code() == 0x41,
        op is Gt <==> op.code() == 0x50,
        op is Lt <==> op.code() == 0x51,
        op is Ge <==> op.code() == 0x52,
        op is Le <==> op.code() == 0x53,
        op is Eq <==> op.code() == 0x54,
        op is Ema <==> op.code() == 0x60,
        op is Momentum <==> op.code() == 0x61,
        op is Reversion <==> op.code() == 0x62,
{
}

/// The flat form of a program is that of its operations, one after the other. Each is its
/// byte and its operand: a constant's pattern, or the low 16 bits of an indicator's size,
/// little end first; all others have none.
pub proof fn law_programs_are_written_one_by_one(a: Seq<Op>, b: Seq<Op>, op: Op)
    ensures
        flat_bytes(a + b) == flat_bytes(a) + flat_bytes(b),
        match op {
            Op::PushConst(c) => flat_bytes(seq![op]) == seq![0x40u8] + spec_u64_to_le_bytes(c.bits),
            Op::Ema { period, .. } => flat_bytes(seq![op]) == seq![0x60u8] + spec_u16_to_le_bytes(
                (period as int % 0x1_0000) as u16,
            ),
            Op::Momentum { lookback, .. } => flat_bytes(seq![op]) == seq![0x61u8]
                + spec_u16_to_le_bytes((lookback as int % 0x1_0000) as u16),
            Op::Reversion { window, .. } => flat_bytes(seq![op]) == seq![0x62u8]
                + spec_u16_to_le_bytes((window as int % 0x1_0000) as u16),
            _ => flat_bytes(seq![op]) == seq![op.code()],
        },
    decreases a.len(),
{
    reveal_with_fuel(flat_bytes, 2);
    assert(seq![op].drop_first() =~= seq![]);
    assert(flat_bytes(seq![op]) =~= seq![op.code()] + operand_bytes(op));
    if a.len() == 0 {
        assert(a + b =~= b);
        assert(flat_bytes(a) + flat_bytes(b) =~= flat_bytes(b));
    } else {
        law_programs_are_written_one_by_one(a.drop_first(), b, op);
        assert((a + b).drop_first() =~= a.drop_first() + b);
        assert(flat_bytes(a + b) =~= flat_bytes(a) + flat_bytes(b));
    }
}

/// The immediates of a program are those of its constants, in program order.
pub proof fn law_immediates_are_the_constants(a: Seq<Op>, b: Seq<Op>, op: Op)
    ensures
        immediates(a + b) == immediates(a) + immediates(b),
        match op {
            Op::PushConst(c) => immediates(seq![op]) == seq![c],
            _ => immediates(seq![op]) == Seq::<Num>::empty(),
        },
    decreases b.len(),
{
    reveal_with_fuel(immediates, 2);
    assert(seq![op].drop_last() =~= seq![]);
    if let Op::PushConst(c) = op {
        assert(immediates(seq![op]) =~= seq![c]);
    }
    if b.len() == 0 {
        assert(a + b =~= a);
        assert(immediates(a) + immediates(b) =~= immediates(a));
    } else {
        law_immediates_are_the_constants(a, b.drop_last(), op);
        assert((a + b).drop_last() =~= a + b.drop_last());
        assert(immediates(a + b) =~= immediates(a) + immediates(b));
    }
}

/// An indicator's operand in a listing.
pub open spec fn sized(name: Seq<char>, size: usize, slot: usize) -> Seq<char> {
    name + decimal(size as nat) + " slot="@ + decimal(slot as nat)
}

/// The listing of a longer program is that of the shorter one and one more line: its
/// position in three columns, its byte, its name and its operand, which for a constant is
/// the text of that constant.
pub proof fn law_listings_go_line_by_line(prog: Seq<Op>, op: Op, texts: Seq<String>)
    ensures
        ({
            let line = right_aligned(decimal(prog.len()), 3) + "  0x"@ + hex_byte(op.code())
                + "  "@ + match op {
                Op::PushConst(_) => "PUSH_CONST "@ + texts[immediates(prog).len() as int]@,
                Op::PushPrice => "PUSH_PRICE"@,
                Op::Ema { period, slot } => sized("EMA       period="@, period, slot),
                Op::Momentum { lookback, slot } => sized("MOMENTUM  lookback="@, lookback, slot),
                Op::Reversion { window, slot } => sized("REVERSION window="@, window, slot),
                Op::Gt => "GT"@,
                Op::Lt => "LT"@,
                Op::Ge => "GE"@,
                Op::Le => "LE"@,
                Op::Eq => "EQ"@,
                Op::And => "AND"@,
                Op::Or => "OR"@,
                Op::Not => "NOT"@,
                Op::Buy => "BUY"@,
                Op::Sell => "SELL"@,
            };
            listing(prog.push(op), texts, 0, 0) == listing(prog, texts, 0, 0) + line + seq!['\n']
        }),
{
    lemma_listing_push(prog, op, texts, 0);
    reveal_strlit("PUSH_CONST");
    reveal_strlit("PUSH_CONST ");
    reveal_strlit("EMA");
    reveal_strlit("EMA       period=");
    reveal_strlit(" period=");
    reveal_strlit("MOMENTUM");
    reveal_strlit("MOMENTUM  lookback=");
    reveal_strlit(" lookback=");
    reveal_strlit("REVERSION");
    reveal_strlit("REVERSION window=");
    reveal_strlit(" window=");
    let text = texts[immediates(prog).len() as int]@;
    let before = listing(prog, texts, 0, 0);
    assert(prog.take(0) =~= seq![]);
    let head = right_aligned(decimal(prog.len()), 3) + "  0x"@ + hex_byte(op.code()) + "  "@;
    match op {
        Op::PushConst(_) => {
            assert(crate::bytecode::name_text(op) =~= "PUSH_CONST"@);
            assert("PUSH_CONST"@ + (seq![' '] + text) =~= "PUSH_CONST "@ + text);
            assert(crate::bytecode::listing_line(prog.len(), op, text) =~= head + (
            "PUSH_CONST "@ + text) + seq!['\n']);
        },
        Op::Ema { period, slot } => {
            let operand = crate::bytecode::operand_text(op, seq![]);
            assert(crate::bytecode::name_text(op) + " period="@ =~= "EMA       period="@);
            assert(crate::bytecode::name_text(op) + operand =~= sized(
                "EMA       period="@,
                period,
                slot,
            ));
            assert(crate::bytecode::listing_line(prog.len(), op, seq![]) =~= head + sized(
                "EMA       period="@,
                period,
                slot,
            ) + seq!['\n']);
        },
        Op::Momentum { lookback, slot } => {
            let operand = crate::bytecode::operand_text(op, seq![]);
            assert(crate::bytecode::name_text(op) + " lookback="@ =~= "MOMENTUM  lookback="@);
            assert(crate::bytecode::name_text(op) + operand =~= sized(
                "MOMENTUM  lookback="@,
                lookback,
                slot,
            ));
            assert(crate::bytecode::listing_line(prog.len(), op, seq![]) =~= head + sized(
                "MOMENTUM  lookback="@,
                lookback,
                slot,
            ) + seq!['\n']);
        },
        Op::Reversion { window, slot } => {
            let operand = crate::bytecode::operand_text(op, seq![]);
            assert(crate::bytecode::name_text(op) + " window="@ =~= "REVERSION window="@);
            assert(crate::bytecode::name_text(op) + operand =~= sized(
                "REVERSION window="@,
                window,
                slot,
            ));
            assert(crate::bytecode::listing_line(prog.len(), op, seq![]) =~= head + sized(
                "REVERSION window="@,
                window,
                slot,
            ) + seq!['\n']);
        },
        _ => {
            assert(crate::bytecode::listing_line(prog.len(), op, seq![]) =~= head + op.name()
                + seq!['\n']);
        },
    }
    assert(listing(prog.push(op), texts, 0, 0) =~= before + (listing(prog.push(op), texts, 0, 0).skip(
        before.len() as int,
    )));
}

proof fn lemma_listing_push(prog: Seq<Op>, op: Op, texts: Seq<String>, k: nat)
    requires
        k <= prog.len(),
    ensures
        ({
            let c = immediates(prog.take(k as int)).len();
            let text = if op is PushConst {
                texts[immediates(prog).len() as int]@
            } else {
                seq![]
            };
            listing(prog.push(op), texts, k, c) == listing(prog, texts, k, c)
                + crate::bytecode::listing_line(prog.len(), op, text)
        }),
    decreases prog.len() - k,
{
    let more = prog.push(op);
    let c = immediates(prog.take(k as int)).len();
    let text = if op is PushConst {
        texts[immediates(prog).len() as int]@
    } else {
        seq![]
    };
    let line = crate::bytecode::listing_line(prog.len(), op, text);
    if k == prog.len() {
        assert(prog.take(k as int) =~= prog);
        reveal_with_fuel(listing, 2);
        assert(more[k as int] == op);
        assert(line + seq![] =~= line);
        assert(seq![] + line =~= line);
    } else {
        assert(more[k as int] == prog[k as int]);
        assert(prog.take(k as int + 1).drop_last() =~= prog.take(k as int));
        lemma_listing_push(prog, op, texts, k + 1);
        let here = if prog[k as int] is PushConst {
            crate::bytecode::listing_line(k, prog[k as int], texts[c as int]@)
        } else {
            crate::bytecode::listing_line(k, prog[k as int], seq![])
        };
        let next = immediates(prog.take(k as int + 1)).len();
        assert(here + (listing(prog, texts, k + 1, next) + line) =~= here + listing(
            prog,
            texts,
            k + 1,
            next,
        ) + line);
    }
}

/// A decision to buy or to sell is that side with its score, and to hold is neither.
pub proof fn law_decisions_have_their_sides(score: Num)
    ensures
        side_of(VmDecision::Buy(score)) == Some((Side::Buy, score)),
        side_of(VmDecision::Sell(score)) == Some((Side::Sell, score)),
        side_of(VmDecision::Hold) is None,
{
}

/// A tick starts with an empty stack and no decision, and with what the indicators
/// remember.
pub proof fn law_ticks_start_afresh(m: Machine)
    ensures
        fresh_tick(m).stack.len() == 0,
        fresh_tick(m).decision is Hold,
        fresh_tick(m).cells == m.cells,
{
}

/// A program has one cell per indicator, in program order.
pub proof fn law_cells_are_made_one_by_one(a: Seq<Op>, b: Seq<Op>, op: Op)
    ensures
        fresh_cells(a + b) == fresh_cells(a) + fresh_cells(b),
        match op {
            Op::Ema { period, .. } => fresh_cells(seq![op]) == seq![
                Cell::Ema { period, value: None },
            ],
            Op::Momentum { lookback, .. } => fresh_cells(seq![op]) == seq![
                Cell::Momentum { lookback, prices: seq![] },
            ],
            Op::Reversion { window, .. } => fresh_cells(seq![op]) == seq![
                Cell::Reversion {
                    window,
                    prices: seq![],
                    sum: Num { bits: 0 },
                    sum_sq: Num { bits: 0 },
                },
            ],
            _ => fresh_cells(seq![op]) == Seq::<Cell>::empty(),
        },
    decreases b.len(),
{
    reveal_with_fuel(fresh_cells, 2);
    assert(seq![op].drop_last() =~= seq![]);
    if op.stateful() {
        assert(fresh_cells(seq![op]) =~= seq![fresh_cell(op)]);
    }
    if b.len() == 0 {
        assert(a + b =~= a);
        assert(fresh_cells(a) + fresh_cells(b) =~= fresh_cells(a));
    } else {
        law_cells_are_made_one_by_one(a, b.drop_last(), op);
        assert((a + b).drop_last() =~= a + b.drop_last());
        assert(fresh_cells(a + b) =~= fresh_cells(a) + fresh_cells(b));
    }
}

/// A signal without a condition decides nothing.
pub proof fn law_signals_without_condition_do_nothing(m: Machine, price: Num, reply: Option<Reply>)
    requires
        m.stack.len() == 0,
    ensures
        effect(Op::Buy, m, price, reply) == m,
        effect(Op::Sell, m, price, reply) == m,
{
    Num::law_zero_is_nothing();
}

/// The stack holds 32 numbers; what is pushed onto a full one is lost.
pub proof fn law_full_stacks_take_no_more(m: Machine, v: Num, price: Num, reply: Option<Reply>)
    ensures
        m.stack.len() >= 32 ==> m.pushed(v) == m,
        m.stack.len() < 32 ==> m.pushed(v) == (Machine { stack: m.stack.push(v), ..m }),
        m.stack.len() >= 32 ==> effect(Op::PushPrice, m, price, reply) == m,
        m.stack.len() >= 32 ==> effect(Op::PushConst(v), m, price, reply) == m,
{
}

/// A number counts as zero where it lies strictly between the two numbers of the smallest
/// distance that counts, one on either side of zero.
pub proof fn law_near_zero_is_a_band(x: Num)
    ensures
        ({
            let reach = (Num { bits: 0x3DDB_7CDF_D9D7_BDBB }).value();
            &&& reach > 0
            &&& near_zero(x) <==> !x.nan() && -reach < x.value() < reach
        }),
{
    let reach = Num { bits: 0x3DDB_7CDF_D9D7_BDBB };
    reach.law_opposite_negates();
    reach.law_rank_orders(Num::zero());
    Num::zero().law_rank_orders(reach);
    Num::law_zero_is_nothing();
}

/// A program can be run where each of its indicators has a cell and no reversion works on an
/// empty window.
pub proof fn law_runnable_programs_have_their_cells(prog: Seq<Op>, cells: Seq<Cell>, i: int)
    requires
        can_run(prog, cells),
        0 <= i < prog.len(),
    ensures
        prog[i] matches Op::Ema { slot, .. } ==> slot < cells.len(),
        prog[i] matches Op::Momentum { slot, .. } ==> slot < cells.len(),
        prog[i] matches Op::Reversion { slot, .. } ==> slot < cells.len() && (
        cells[slot as int] matches Cell::Reversion { window, .. } ==> window > 0),
{
    assert(op_can_run(prog[i], cells));
}

/// A program that cannot be run has an indicator without a cell, or a reversion on an empty
/// window.
pub proof fn law_other_programs_lack_a_cell(prog: Seq<Op>, cells: Seq<Cell>) -> (i: int)
    requires
        !can_run(prog, cells),
    ensures
        0 <= i < prog.len(),
        match prog[i] {
            Op::Ema { slot, .. } => slot >= cells.len(),
            Op::Momentum { slot, .. } => slot >= cells.len(),
            Op::Reversion { slot, .. } => slot >= cells.len() || (
            cells[slot as int] matches Cell::Reversion { window, .. } && window == 0),
            _ => false,
        },
{
    choose|i: int| 0 <= i < prog.len() && !op_can_run(#[trigger] prog[i], cells)
}

/// Work is answered in its own kind: averages and returns by a number, windows by their
/// sums, and nearness by a truth.
pub proof fn law_work_is_answered_in_kind(w: Work, r: Reply)
    ensures
        answers(w, r) <==> {
            ||| r is Value && (w is Ema || w is Momentum)
            ||| r is Sums && w is Reversion
            ||| r is Truth && w is Near
        },
{
}

} // verus!
