//! A tiny stack-machine bytecode and interpreter for graph-defined strategies.
//!
//! A drawn strategy is compiled (see [`crate::compiler`]) into a flat program of
//! [`Op`]s, and [`Vm`] executes it once per market tick: a stack of numbers, booleans
//! as 1 and 0, operands pushed before their operator, and a terminal `Buy` or `Sell`
//! that pops a truthy condition. Indicators are stateful: each carries an index
//! (`slot`) into a parallel state vector that persists across ticks.
//!
//! The machine does no arithmetic of its own. [`Vm::step`] runs until an operation
//! needs some and returns it as [`Work`]; the host does the work and hands the
//! [`Reply`] to [`Vm::resume`].

use crate::num::Num;
use crate::ring::{slide, Ring};
use crate::strategy::Side;
use crate::text::{
    decimal, decimal_text, hex_byte, left_aligned, push_decimal, push_hex_byte,
    push_left_aligned, push_right_aligned, right_aligned,
};
use vstd::bytes::{spec_u16_to_le_bytes, spec_u64_to_le_bytes, u16_to_le_bytes, u64_to_le_bytes};
use vstd::prelude::*;
use vstd::string::StringExecFns;

verus! {

/// How many numbers the stack holds.
pub const STACK_CAP: usize = 32;

/// Two numbers less than this far apart count as equal: the bits of 1e-10.
pub const NEAR_BITS: u64 = 0x3DDB_7CDF_D9D7_BDBB;

/// Whether `x` counts as equal to zero.
pub open spec fn near_zero(x: Num) -> bool {
    let reach = Num { bits: NEAR_BITS };
    reach.above(x) && x.above(reach.opposite())
}

/// Whether `x` counts as equal to zero.
pub fn is_near_zero(x: Num) -> (r: bool)
    ensures
        r == near_zero(x),
{
    let reach = Num { bits: NEAR_BITS };
    reach.gt(x) && x.gt(reach.neg())
}

/// One stack-machine instruction.
///
/// Parameters of a stateful indicator (period, lookback, window) are frozen into the
/// op; the running state lives in a parallel vector indexed by `slot`.
#[derive(Clone, Copy, PartialEq, Eq, Structural, Debug)]
pub enum Op {
    /// Push the current tick price.
    PushPrice,
    /// Push an immediate.
    PushConst(Num),
    /// Push the moving average of the price.
    Ema { slot: usize, period: usize },
    /// Push the return over the lookback, as a signal in [-1, 1].
    Momentum { slot: usize, lookback: usize },
    /// Push the negative distance from the mean, as a signal in [-1, 1].
    Reversion { slot: usize, window: usize },
    Gt,
    Lt,
    Ge,
    Le,
    Eq,
    And,
    Or,
    Not,
    /// Pop a condition; buy if it is truthy.
    Buy,
    /// Pop a condition; sell if it is truthy.
    Sell,
}

impl Op {
    /// The operation's byte in a flat program.
    pub open spec fn code(self) -> u8 {
        match self {
            Op::PushPrice => 0x41,
            Op::PushConst(_) => 0x40,
            Op::Ema { .. } => 0x60,
            Op::Momentum { .. } => 0x61,
            Op::Reversion { .. } => 0x62,
            Op::Gt => 0x50,
            Op::Lt => 0x51,
            Op::Ge => 0x52,
            Op::Le => 0x53,
            Op::Eq => 0x54,
            Op::And => 0x10,
            Op::Or => 0x11,
            Op::Not => 0x12,
            Op::Buy => 0x30,
            Op::Sell => 0x31,
        }
    }

    /// The operation's name in a listing.
    pub open spec fn name(self) -> Seq<char> {
        match self {
            Op::PushPrice => "PUSH_PRICE"@,
            Op::PushConst(_) => "PUSH_CONST"@,
            Op::Ema { .. } => "EMA"@,
            Op::Momentum { .. } => "MOMENTUM"@,
            Op::Reversion { .. } => "REVERSION"@,
            Op::Gt => "GT"@,
            Op::Lt => "LT"@,
            Op::Ge => "GE"@,
            Op::Le => "LE"@,
            Op::Eq => "EQ"@,
            Op::And => "AND"@,
            Op::Or => "OR"@,
            Op::Not => "NOT"@,
            Op::Buy => "BUY"@,
            Op::Sell => "SELL"@,
        }
    }

    /// The operation carries state from tick to tick.
    pub open spec fn stateful(self) -> bool {
        self is Ema || self is Momentum || self is Reversion
    }

    /// The state slot of a stateful operation.
    pub open spec fn slot(self) -> usize {
        match self {
            Op::Ema { slot, .. } => slot,
            Op::Momentum { slot, .. } => slot,
            Op::Reversion { slot, .. } => slot,
            _ => 0,
        }
    }

    /// The operation's byte in a flat program. Operands follow in the byte stream; see
    /// [`Vm::to_bytes`].
    pub fn opcode(&self) -> (r: u8)
        ensures
            r == self.code(),
    {
        match self {
            Op::PushPrice => 0x41,
            Op::PushConst(_) => 0x40,
            Op::Ema { .. } => 0x60,
            Op::Momentum { .. } => 0x61,
            Op::Reversion { .. } => 0x62,
            Op::Gt => 0x50,
            Op::Lt => 0x51,
            Op::Ge => 0x52,
            Op::Le => 0x53,
            Op::Eq => 0x54,
            Op::And => 0x10,
            Op::Or => 0x11,
            Op::Not => 0x12,
            Op::Buy => 0x30,
            Op::Sell => 0x31,
        }
    }

    /// The operation's name in a listing.
    pub fn mnemonic(&self) -> (r: &'static str)
        ensures
            r@ == self.name(),
    {
        match self {
            Op::PushPrice => "PUSH_PRICE",
            Op::PushConst(_) => "PUSH_CONST",
            Op::Ema { .. } => "EMA",
            Op::Momentum { .. } => "MOMENTUM",
            Op::Reversion { .. } => "REVERSION",
            Op::Gt => "GT",
            Op::Lt => "LT",
            Op::Ge => "GE",
            Op::Le => "LE",
            Op::Eq => "EQ",
            Op::And => "AND",
            Op::Or => "OR",
            Op::Not => "NOT",
            Op::Buy => "BUY",
            Op::Sell => "SELL",
        }
    }

    /// Whether the operation carries state from tick to tick.
    pub fn is_stateful(&self) -> (r: bool)
        ensures
            r == self.stateful(),
    {
        match self {
            Op::Ema { .. } => true,
            Op::Momentum { .. } => true,
            Op::Reversion { .. } => true,
            _ => false,
        }
    }
}

/// The decision a program produces for one tick.
#[derive(Clone, Copy, PartialEq, Eq, Structural, Debug)]
pub enum VmDecision {
    Buy(Num),
    Sell(Num),
    Hold,
}

/// The decision as a side and a score.
pub open spec fn side_of(d: VmDecision) -> Option<(Side, Num)> {
    match d {
        VmDecision::Buy(s) => Some((Side::Buy, s)),
        VmDecision::Sell(s) => Some((Side::Sell, s)),
        VmDecision::Hold => None,
    }
}

/// The decision as a side and a score, so that a runner can treat it as it treats the
/// composite strategy's.
pub fn to_side(d: VmDecision) -> (r: Option<(Side, Num)>)
    ensures
        r == side_of(d),
{
    match d {
        VmDecision::Buy(s) => Some((Side::Buy, s)),
        VmDecision::Sell(s) => Some((Side::Sell, s)),
        VmDecision::Hold => None,
    }
}

/// Arithmetic that an operation needs done.
#[derive(Clone, Copy, PartialEq, Eq, Structural, Debug)]
pub enum Work {
    /// Move the average `value` over `period` on by `price`.
    Ema { period: usize, value: Num, price: Num },
    /// The return from `oldest` to `now`, squashed into [-1, 1].
    Momentum { oldest: Num, now: Num },
    /// Take `evicted` out of the running sums and `price` into them. `window` is the
    /// length of a window that is full with this price: it asks for the negative
    /// distance of the price from the mean, squashed into [-1, 1].
    Reversion { evicted: Option<Num>, price: Num, sum: Num, sum_sq: Num, window: Option<usize> },
    /// Whether the two lie less than [`NEAR_BITS`] apart.
    Near { a: Num, b: Num },
}

/// The result of [`Work`].
#[derive(Clone, Copy, PartialEq, Eq, Structural, Debug)]
pub enum Reply {
    /// Of [`Work::Ema`] and [`Work::Momentum`].
    Value(Num),
    /// Of [`Work::Reversion`]. The reading counts only where one was asked for.
    Sums { sum: Num, sum_sq: Num, reading: Num },
    /// Of [`Work::Near`].
    Truth(bool),
}

/// The reply is of the kind that the work asks for.
pub open spec fn answers(w: Work, r: Reply) -> bool {
    match w {
        Work::Ema { .. } => r is Value,
        Work::Momentum { .. } => r is Value,
        Work::Reversion { .. } => r is Sums,
        Work::Near { .. } => r is Truth,
    }
}

/// What one stateful operation remembers.
#[verifier::ext_equal]
pub enum Cell {
    Ema { period: usize, value: Option<Num> },
    /// The last `lookback + 1` prices, oldest first.
    Momentum { lookback: usize, prices: Seq<Num> },
    /// The last `window` prices, oldest first, with their sums.
    Reversion { window: usize, prices: Seq<Num>, sum: Num, sum_sq: Num },
}

/// The cell of an operation that has seen nothing.
pub open spec fn fresh_cell(op: Op) -> Cell {
    match op {
        Op::Momentum { lookback, .. } => Cell::Momentum { lookback, prices: seq![] },
        Op::Reversion { window, .. } => Cell::Reversion {
            window,
            prices: seq![],
            sum: Num::zero(),
            sum_sq: Num::zero(),
        },
        Op::Ema { period, .. } => Cell::Ema { period, value: None },
        _ => Cell::Ema { period: 0, value: None },
    }
}

/// One cell per stateful operation of a program, in program order.
pub open spec fn fresh_cells(prog: Seq<Op>) -> Seq<Cell>
    decreases prog.len(),
{
    if prog.len() == 0 {
        seq![]
    } else if prog.last().stateful() {
        fresh_cells(prog.drop_last()).push(fresh_cell(prog.last()))
    } else {
        fresh_cells(prog.drop_last())
    }
}

/// What a machine holds in the middle of a tick.
#[verifier::ext_equal]
pub struct Machine {
    pub cells: Seq<Cell>,
    /// The stack, its top last.
    pub stack: Seq<Num>,
    pub decision: VmDecision,
}

impl Machine {
    /// Pushing onto a full stack has no effect.
    pub open spec fn pushed(self, v: Num) -> Machine {
        if self.stack.len() < STACK_CAP {
            Machine { stack: self.stack.push(v), ..self }
        } else {
            self
        }
    }

    /// The top of the stack; zero where there is none.
    pub open spec fn top(self) -> Num {
        if self.stack.len() > 0 {
            self.stack.last()
        } else {
            Num::zero()
        }
    }

    pub open spec fn popped(self) -> Machine {
        if self.stack.len() > 0 {
            Machine { stack: self.stack.drop_last(), ..self }
        } else {
            self
        }
    }

    pub open spec fn with_cell(self, slot: usize, cell: Cell) -> Machine {
        Machine { cells: self.cells.update(slot as int, cell), ..self }
    }
}

/// The second operand of a binary operation: the one pushed last.
pub open spec fn second(m: Machine) -> Num {
    m.top()
}

/// The first operand of a binary operation.
pub open spec fn first(m: Machine) -> Num {
    m.popped().top()
}

/// The machine after a binary operation that gave `b`.
pub open spec fn folded(m: Machine, b: bool) -> Machine {
    m.popped().popped().pushed(Num::of_bool(b))
}

pub open spec fn is_zero(n: Num) -> bool {
    !n.nan() && n.value() == 0
}

/// The arithmetic that `op` needs on machine `m`, if any.
pub open spec fn demand(op: Op, m: Machine, price: Num) -> Option<Work> {
    match op {
        Op::Ema { slot, .. } => match m.cells[slot as int] {
            Cell::Ema { period, value: Some(value) } => Some(Work::Ema { period, value, price }),
            _ => None,
        },
        Op::Momentum { slot, .. } => match m.cells[slot as int] {
            Cell::Momentum { lookback, prices } => {
                let now = slide(prices, (lookback + 1) as nat, price);
                if now.len() <= lookback || is_zero(now[0]) {
                    None
                } else {
                    Some(Work::Momentum { oldest: now[0], now: price })
                }
            },
            _ => None,
        },
        Op::Reversion { slot, .. } => match m.cells[slot as int] {
            Cell::Reversion { window, prices, sum, sum_sq } => Some(
                Work::Reversion {
                    evicted: if prices.len() == window {
                        Some(prices[0])
                    } else {
                        None
                    },
                    price,
                    sum,
                    sum_sq,
                    window: if slide(prices, window as nat, price).len() < window {
                        None
                    } else {
                        Some(window)
                    },
                },
            ),
            _ => None,
        },
        Op::Eq => Some(Work::Near { a: first(m), b: second(m) }),
        _ => None,
    }
}

/// The machine after `op`, given what came back of its demand.
pub open spec fn effect(op: Op, m: Machine, price: Num, reply: Option<Reply>) -> Machine {
    match op {
        Op::PushPrice => m.pushed(price),
        Op::PushConst(c) => m.pushed(c),
        Op::Ema { slot, .. } => match m.cells[slot as int] {
            Cell::Ema { period, value } => {
                let now = match reply {
                    Some(Reply::Value(v)) => v,
                    _ => price,
                };
                m.with_cell(slot, Cell::Ema { period, value: Some(now) }).pushed(now)
            },
            _ => m.pushed(Num::zero()),
        },
        Op::Momentum { slot, .. } => match m.cells[slot as int] {
            Cell::Momentum { lookback, prices } => {
                let now = slide(prices, (lookback + 1) as nat, price);
                m.with_cell(slot, Cell::Momentum { lookback, prices: now }).pushed(
                    match reply {
                        Some(Reply::Value(v)) => v,
                        _ => Num::zero(),
                    },
                )
            },
            _ => m.pushed(Num::zero()),
        },
        Op::Reversion { slot, .. } => match m.cells[slot as int] {
            Cell::Reversion { window, prices, sum, sum_sq } => {
                let now = slide(prices, window as nat, price);
                match reply {
                    Some(Reply::Sums { sum, sum_sq, reading }) => m.with_cell(
                        slot,
                        Cell::Reversion { window, prices: now, sum, sum_sq },
                    ).pushed(
                        if now.len() < window {
                            Num::zero()
                        } else {
                            reading
                        },
                    ),
                    _ => m.pushed(Num::zero()),
                }
            },
            _ => m.pushed(Num::zero()),
        },
        Op::Gt => folded(m, first(m).above(second(m))),
        Op::Lt => folded(m, second(m).above(first(m))),
        Op::Ge => folded(m, first(m).at_least(second(m))),
        Op::Le => folded(m, second(m).at_least(first(m))),
        Op::Eq => folded(
            m,
            match reply {
                Some(Reply::Truth(b)) => b,
                _ => false,
            },
        ),
        Op::And => folded(m, first(m).above(Num::zero()) && second(m).above(Num::zero())),
        Op::Or => folded(m, first(m).above(Num::zero()) || second(m).above(Num::zero())),
        Op::Not => m.popped().pushed(Num::of_bool(Num::zero().at_least(m.top()))),
        Op::Buy => if m.top().above(Num::zero()) {
            Machine { decision: VmDecision::Buy(m.top()), ..m.popped() }
        } else {
            m.popped()
        },
        Op::Sell => if m.top().above(Num::zero()) {
            Machine { decision: VmDecision::Sell(m.top()), ..m.popped() }
        } else {
            m.popped()
        },
    }
}

/// Runs `prog` from position `k` on, up to the first operation that needs arithmetic:
/// where that is, and the machine there.
pub open spec fn settle(prog: Seq<Op>, price: Num, m: Machine, k: nat) -> (nat, Machine)
    decreases prog.len() - k,
{
    if k >= prog.len() || demand(prog[k as int], m, price) is Some {
        (k, m)
    } else {
        settle(prog, price, effect(prog[k as int], m, price, None), k + 1)
    }
}

/// What comes back of an operation's demand from a host that answers by `host`.
pub open spec fn consulted(
    host: spec_fn(Work) -> Reply,
    op: Op,
    m: Machine,
    price: Num,
) -> Option<Reply> {
    match demand(op, m, price) {
        Some(w) => Some(host(w)),
        None => None,
    }
}

/// The machine at the end of a tick, run from position `k` on with the arithmetic of
/// `host`: every operation once, in program order.
pub open spec fn run(
    host: spec_fn(Work) -> Reply,
    prog: Seq<Op>,
    price: Num,
    m: Machine,
    k: nat,
) -> Machine
    decreases prog.len() - k,
{
    if k >= prog.len() {
        m
    } else {
        let op = prog[k as int];
        run(host, prog, price, effect(op, m, price, consulted(host, op, m, price)), k + 1)
    }
}

/// Running up to the next demand leaves the outcome of the tick as it is: a host that
/// steps and resumes until the program is done arrives where [`run`] does, whatever
/// arithmetic it brings.
pub proof fn law_step_follows_run(
    host: spec_fn(Work) -> Reply,
    prog: Seq<Op>,
    price: Num,
    m: Machine,
    k: nat,
)
    ensures
        ({
            let (at, there) = settle(prog, price, m, k);
            &&& run(host, prog, price, m, k) == run(host, prog, price, there, at)
            &&& at >= prog.len() ==> run(host, prog, price, m, k) == there
            &&& at < prog.len() ==> demand(prog[at as int], there, price) is Some
        }),
    decreases prog.len() - k,
{
    if k < prog.len() && demand(prog[k as int], m, price) is None {
        law_step_follows_run(host, prog, price, effect(prog[k as int], m, price, None), k + 1);
    }
}

/// Resuming with the host's answer goes on as [`run`] does.
pub proof fn law_resume_follows_run(
    host: spec_fn(Work) -> Reply,
    prog: Seq<Op>,
    price: Num,
    m: Machine,
    k: nat,
    w: Work,
)
    requires
        k < prog.len(),
        demand(prog[k as int], m, price) == Some(w),
    ensures
        run(host, prog, price, m, k) == run(
            host,
            prog,
            price,
            effect(prog[k as int], m, price, Some(host(w))),
            k + 1,
        ),
{
}

/// The host answers as `h` says.
pub open spec fn host_is<H: Fn(Work) -> Reply>(host: H, h: spec_fn(Work) -> Reply) -> bool {
    forall|w: Work, r: Reply| #[trigger] host.ensures((w,), r) ==> r == h(w)
}

/// The reply is there exactly where one was asked for, and is one that `host` gives.
pub open spec fn reply_fits<H: Fn(Work) -> Reply>(
    host: H,
    asked: Option<Work>,
    reply: Option<Reply>,
) -> bool {
    match (asked, reply) {
        (None, None) => true,
        (Some(w), Some(r)) => host.ensures((w,), r),
        _ => false,
    }
}

/// The machine after the first operations of a program, given what came back of each
/// one's demand.
pub open spec fn after_replies(
    prog: Seq<Op>,
    price: Num,
    m: Machine,
    replies: Seq<Option<Reply>>,
) -> Machine
    decreases replies.len(),
{
    if replies.len() == 0 {
        m
    } else {
        effect(
            prog[replies.len() - 1],
            after_replies(prog, price, m, replies.drop_last()),
            price,
            replies.last(),
        )
    }
}

/// Each operation got what it asked for, from `host`.
pub open spec fn heard<H: Fn(Work) -> Reply>(
    host: H,
    prog: Seq<Op>,
    price: Num,
    m: Machine,
    replies: Seq<Option<Reply>>,
) -> bool {
    forall|i: int|
        0 <= i < replies.len() ==> reply_fits(
            host,
            demand(prog[i], after_replies(prog, price, m, replies.take(i)), price),
            #[trigger] replies[i],
        )
}

proof fn lemma_heard_push<H: Fn(Work) -> Reply>(
    host: H,
    prog: Seq<Op>,
    price: Num,
    m: Machine,
    replies: Seq<Option<Reply>>,
    reply: Option<Reply>,
)
    requires
        heard(host, prog, price, m, replies),
        reply_fits(
            host,
            demand(
                prog[replies.len() as int],
                after_replies(prog, price, m, replies),
                price,
            ),
            reply,
        ),
    ensures
        heard(host, prog, price, m, replies.push(reply)),
        after_replies(prog, price, m, replies.push(reply)) == effect(
            prog[replies.len() as int],
            after_replies(prog, price, m, replies),
            price,
            reply,
        ),
{
    let more = replies.push(reply);
    assert(more.drop_last() =~= replies);
    assert forall|i: int| 0 <= i < more.len() implies reply_fits(
        host,
        demand(prog[i], after_replies(prog, price, m, more.take(i)), price),
        #[trigger] more[i],
    ) by {
        if i < replies.len() {
            assert(more.take(i) =~= replies.take(i));
            assert(more[i] == replies[i]);
        } else {
            assert(more.take(i) =~= replies);
        }
    }
}

/// Running up to the next demand takes no reply.
proof fn lemma_settle_heard<H: Fn(Work) -> Reply>(
    host: H,
    prog: Seq<Op>,
    price: Num,
    m: Machine,
    replies: Seq<Option<Reply>>,
) -> (more: Seq<Option<Reply>>)
    requires
        heard(host, prog, price, m, replies),
        replies.len() <= prog.len(),
    ensures
        heard(host, prog, price, m, more),
        more.len() <= prog.len(),
        (more.len(), after_replies(prog, price, m, more)) == settle(
            prog,
            price,
            after_replies(prog, price, m, replies),
            replies.len(),
        ),
    decreases prog.len() - replies.len(),
{
    let k = replies.len();
    let here = after_replies(prog, price, m, replies);
    if k >= prog.len() || demand(prog[k as int], here, price) is Some {
        replies
    } else {
        lemma_heard_push(host, prog, price, m, replies, None);
        lemma_settle_heard(host, prog, price, m, replies.push(None))
    }
}

/// Where the host answers by a function, what the machine hears is what [`run`] consults.
pub proof fn law_functions_decide_the_run<H: Fn(Work) -> Reply>(
    host: H,
    h: spec_fn(Work) -> Reply,
    prog: Seq<Op>,
    price: Num,
    m: Machine,
    replies: Seq<Option<Reply>>,
)
    requires
        host_is(host, h),
        replies.len() <= prog.len(),
        heard(host, prog, price, m, replies),
    ensures
        run(h, prog, price, m, 0) == run(
            h,
            prog,
            price,
            after_replies(prog, price, m, replies),
            replies.len(),
        ),
    decreases replies.len(),
{
    if replies.len() > 0 {
        let front = replies.drop_last();
        let k = front.len();
        assert(heard(host, prog, price, m, front)) by {
            assert forall|i: int| 0 <= i < front.len() implies reply_fits(
                host,
                demand(prog[i], after_replies(prog, price, m, front.take(i)), price),
                #[trigger] front[i],
            ) by {
                assert(front.take(i) =~= replies.take(i));
                assert(front[i] == replies[i]);
            }
        }
        law_functions_decide_the_run(host, h, prog, price, m, front);
        let here = after_replies(prog, price, m, front);
        assert(replies.take(k as int) =~= front);
        assert(replies[k as int] == replies.last());
        assert(consulted(h, prog[k as int], here, price) == replies.last());
    }
}

/// A machine at the start of a tick: an empty stack, and no decision yet.
pub open spec fn fresh_tick(m: Machine) -> Machine {
    Machine { stack: seq![], decision: VmDecision::Hold, ..m }
}

proof fn lemma_settle_moves_on(prog: Seq<Op>, price: Num, m: Machine, k: nat)
    ensures
        settle(prog, price, m, k).0 >= k,
    decreases prog.len() - k,
{
    if k < prog.len() && demand(prog[k as int], m, price) is None {
        lemma_settle_moves_on(prog, price, effect(prog[k as int], m, price, None), k + 1);
    }
}

/// The slot of `op` names a cell, and `op` is no reversion over an empty window.
pub open spec fn op_can_run(op: Op, cells: Seq<Cell>) -> bool {
    op.stateful() ==> {
        &&& op.slot() < cells.len()
        &&& op is Reversion ==> (cells[op.slot() as int] matches Cell::Reversion { window, .. }
            ==> window > 0)
    }
}

/// Every slot names a cell, and no reversion runs over an empty window.
pub open spec fn can_run(prog: Seq<Op>, cells: Seq<Cell>) -> bool {
    forall|i: int| 0 <= i < prog.len() ==> op_can_run(#[trigger] prog[i], cells)
}

/// The windows of a cell hold no more than they may.
pub open spec fn cell_valid(c: Cell) -> bool {
    match c {
        Cell::Ema { .. } => true,
        Cell::Momentum { lookback, prices } => lookback < usize::MAX && prices.len() <= lookback
            + 1,
        Cell::Reversion { window, prices, .. } => prices.len() <= window,
    }
}

/// What one stateful operation remembers, in buffers that are allocated once.
enum IndState {
    Ema { period: usize, value: Option<Num> },
    Momentum { lookback: usize, prices: Ring },
    Reversion { window: usize, prices: Ring, sum: Num, sum_sq: Num },
}

impl IndState {
    spec fn cell(&self) -> Cell {
        match self {
            IndState::Ema { period, value } => Cell::Ema { period: *period, value: *value },
            IndState::Momentum { lookback, prices } => Cell::Momentum {
                lookback: *lookback,
                prices: prices@,
            },
            IndState::Reversion { window, prices, sum, sum_sq } => Cell::Reversion {
                window: *window,
                prices: prices@,
                sum: *sum,
                sum_sq: *sum_sq,
            },
        }
    }

    spec fn wf(&self) -> bool {
        match self {
            IndState::Ema { .. } => true,
            IndState::Momentum { lookback, prices } => *lookback < usize::MAX && prices.wf()
                && prices.size() == *lookback + 1,
            IndState::Reversion { window, prices, .. } => prices.wf() && prices.size() == *window,
        }
    }

    /// The state that an operation starts with, if it has any.
    fn for_op(op: &Op) -> (r: Option<IndState>)
        requires
            op matches Op::Momentum { lookback, .. } ==> lookback < usize::MAX,
        ensures
            r is Some <==> op.stateful(),
            r matches Some(s) ==> s.wf() && s.cell() == fresh_cell(*op),
    {
        match *op {
            Op::Ema { period, .. } => Some(IndState::Ema { period, value: None }),
            Op::Momentum { lookback, .. } => Some(
                IndState::Momentum { lookback, prices: Ring::new(lookback + 1) },
            ),
            Op::Reversion { window, .. } => Some(
                IndState::Reversion {
                    window,
                    prices: Ring::new(window),
                    sum: Num { bits: 0 },
                    sum_sq: Num { bits: 0 },
                },
            ),
            _ => None,
        }
    }
}

/// Moves the average on to `next`, or to its first value where there is none yet.
fn ema_update(s: &mut IndState, price: Num, next: Option<Num>) -> (r: Num)
    requires
        old(s).wf(),
    ensures
        final(s).wf(),
        match old(s).cell() {
            Cell::Ema { period, value } => {
                &&& r == match next {
                    Some(v) => v,
                    None => price,
                }
                &&& final(s).cell() == (Cell::Ema { period, value: Some(r) })
            },
            _ => r == Num::zero() && final(s).cell() == old(s).cell(),
        },
{
    match s {
        IndState::Ema { period, value } => {
            let now = match next {
                Some(v) => v,
                None => price,
            };
            *value = Some(now);
            now
        },
        _ => Num { bits: 0 },
    }
}

/// Takes the price into the lookback window.
fn momentum_update(s: &mut IndState, price: Num, reading: Option<Num>) -> (r: Num)
    requires
        old(s).wf(),
    ensures
        final(s).wf(),
        match old(s).cell() {
            Cell::Momentum { lookback, prices } => {
                &&& r == match reading {
                    Some(v) => v,
                    None => Num::zero(),
                }
                &&& final(s).cell() == (Cell::Momentum {
                    lookback,
                    prices: slide(prices, (lookback + 1) as nat, price),
                })
            },
            _ => r == Num::zero() && final(s).cell() == old(s).cell(),
        },
{
    match s {
        IndState::Momentum { lookback, prices } => {
            prices.push(price);
            match reading {
                Some(v) => v,
                None => Num { bits: 0 },
            }
        },
        _ => Num { bits: 0 },
    }
}

/// Takes the price into the window and the sums with it.
fn reversion_update(s: &mut IndState, price: Num, reply: Option<Reply>) -> (r: Num)
    requires
        old(s).wf(),
        old(s).cell() matches Cell::Reversion { window, .. } ==> window > 0,
    ensures
        final(s).wf(),
        match (old(s).cell(), reply) {
            (
                Cell::Reversion { window, prices, .. },
                Some(Reply::Sums { sum, sum_sq, reading }),
            ) => {
                let now = slide(prices, window as nat, price);
                &&& r == if now.len() < window {
                    Num::zero()
                } else {
                    reading
                }
                &&& final(s).cell() == (Cell::Reversion { window, prices: now, sum, sum_sq })
            },
            _ => r == Num::zero() && final(s).cell() == old(s).cell(),
        },
{
    match (s, reply) {
        (
            IndState::Reversion { window, prices, sum, sum_sq },
            Some(Reply::Sums { sum: new_sum, sum_sq: new_sum_sq, reading }),
        ) => {
            prices.push(price);
            *sum = new_sum;
            *sum_sq = new_sum_sq;
            if prices.len() < *window {
                Num { bits: 0 }
            } else {
                reading
            }
        },
        _ => Num { bits: 0 },
    }
}

/// Where a tick stands after [`Vm::step`].
#[derive(Clone, Copy, PartialEq, Eq, Structural, Debug)]
pub enum Step {
    /// The program waits for this arithmetic.
    Work(Work),
    /// The program is through.
    Done(VmDecision),
}

/// A compiled strategy program plus its per-tick execution state.
pub struct Vm {
    prog: Vec<Op>,
    state: Vec<IndState>,
    stack: Vec<Num>,
    decision: VmDecision,
    price: Num,
    pc: usize,
}

impl Vm {
    /// The machine as it stands.
    pub closed spec fn view(&self) -> Machine {
        Machine {
            cells: self.state@.map_values(|s: IndState| s.cell()),
            stack: self.stack@,
            decision: self.decision,
        }
    }

    /// The program.
    pub closed spec fn ops(&self) -> Seq<Op> {
        self.prog@
    }

    /// The price of the current tick.
    pub closed spec fn tick(&self) -> Num {
        self.price
    }

    /// How many operations of the current tick are done.
    pub closed spec fn position(&self) -> nat {
        self.pc as nat
    }

    pub closed spec fn wf(&self) -> bool {
        &&& forall|i: int| 0 <= i < self.state@.len() ==> (#[trigger] self.state@[i]).wf()
        &&& self.stack@.len() <= STACK_CAP
        &&& self.pc <= self.prog@.len()
    }

    /// Whatever a machine has run, its stack has not outgrown its size, no window has
    /// outgrown its own, and the position is within the program.
    pub proof fn law_machines_are_bounded(&self)
        requires
            self.wf(),
        ensures
            self@.stack.len() <= STACK_CAP,
            self.position() <= self.ops().len(),
            forall|i: int| 0 <= i < self@.cells.len() ==> cell_valid(#[trigger] self@.cells[i]),
    {
        assert forall|i: int| 0 <= i < self@.cells.len() implies cell_valid(
            #[trigger] self@.cells[i],
        ) by {
            assert(self.state@[i].wf());
            match self.state@[i] {
                IndState::Momentum { lookback, prices } => prices.lemma_len(),
                IndState::Reversion { window, prices, .. } => prices.lemma_len(),
                _ => {},
            }
        }
    }

    /// Builds a machine from a compiled program. Allocates the indicator state once, one
    /// cell per stateful op, in program order.
    pub fn new(prog: Vec<Op>) -> (r: Self)
        requires
            forall|i: int|
                0 <= i < prog@.len() ==> (#[trigger] prog@[i] matches Op::Momentum { lookback, .. }
                    ==> lookback < usize::MAX),
        ensures
            r.wf(),
            r.ops() == prog@,
            r@ == (Machine {
                cells: fresh_cells(prog@),
                stack: seq![],
                decision: VmDecision::Hold,
            }),
            r.position() == prog@.len(),
    {
        let mut state: Vec<IndState> = Vec::new();
        let mut k: usize = 0;
        while k < prog.len()
            invariant
                k <= prog@.len(),
                forall|i: int|
                    0 <= i < prog@.len() ==> (#[trigger] prog@[i] matches Op::Momentum {
                        lookback,
                        ..
                    } ==> lookback < usize::MAX),
                forall|i: int| 0 <= i < state@.len() ==> (#[trigger] state@[i]).wf(),
                state@.map_values(|s: IndState| s.cell()) == fresh_cells(prog@.take(k as int)),
            decreases prog@.len() - k,
        {
            let ghost before = state@;
            let op = prog[k];
            assert(prog@.take(k + 1).drop_last() =~= prog@.take(k as int));
            assert(prog@.take(k + 1).last() == op);
            if let Some(cell) = IndState::for_op(&op) {
                state.push(cell);
                assert(state@.map_values(|s: IndState| s.cell()) =~= before.map_values(
                    |s: IndState| s.cell(),
                ).push(cell.cell()));
            }
            k = k + 1;
        }
        assert(prog@.take(k as int) =~= prog@);
        let n: usize = prog.len();
        Vm {
            prog,
            state,
            stack: Vec::with_capacity(STACK_CAP),
            decision: VmDecision::Hold,
            price: Num { bits: 0 },
            pc: n,
        }
    }

    /// Whether the program is empty.
    pub fn is_empty(&self) -> (r: bool)
        ensures
            r == (self.ops().len() == 0),
    {
        self.prog.len() == 0
    }

    /// The program.
    pub fn program(&self) -> (r: &[Op])
        ensures
            r@ == self.ops(),
    {
        self.prog.as_slice()
    }

    /// Whether the program can be run: every slot names a cell, and no reversion runs over
    /// an empty window.
    pub fn is_runnable(&self) -> (r: bool)
        requires
            self.wf(),
        ensures
            r == can_run(self.ops(), self@.cells),
    {
        let mut k: usize = 0;
        while k < self.prog.len()
            invariant
                k <= self.prog@.len(),
                forall|i: int|
                    0 <= i < k ==> op_can_run(#[trigger] self.prog@[i], self@.cells),
            decreases self.prog@.len() - k,
        {
            let op = self.prog[k];
            let slot = match op {
                Op::Ema { slot, .. } => Some(slot),
                Op::Momentum { slot, .. } => Some(slot),
                Op::Reversion { slot, .. } => Some(slot),
                _ => None,
            };
            if let Some(slot) = slot {
                if slot >= self.state.len() {
                    assert(!op_can_run(self.ops()[k as int], self@.cells));
                    return false;
                }
                assert(self@.cells[slot as int] == self.state@[slot as int].cell());
                if let Op::Reversion { .. } = op {
                    if let IndState::Reversion { window, .. } = &self.state[slot] {
                        if *window == 0 {
                            assert(!op_can_run(self.ops()[k as int], self@.cells));
                            return false;
                        }
                    }
                }
            }
            k = k + 1;
        }
        true
    }

    /// Begins a tick at `price`: an empty stack, no decision yet, and the indicators as the
    /// last tick left them.
    pub fn begin(&mut self, price: Num)
        requires
            old(self).wf(),
        ensures
            final(self).wf(),
            final(self).ops() == old(self).ops(),
            final(self).tick() == price,
            final(self).position() == 0,
            final(self)@ == fresh_tick(old(self)@),
    {
        let ghost before = self@;
        self.stack.clear();
        self.decision = VmDecision::Hold;
        self.price = price;
        self.pc = 0;
        assert(self@ =~= fresh_tick(before));
    }

    fn push(&mut self, v: Num)
        requires
            old(self).wf(),
        ensures
            final(self).wf(),
            final(self)@ == old(self)@.pushed(v),
            final(self).ops() == old(self).ops(),
            final(self).tick() == old(self).tick(),
            final(self).position() == old(self).position(),
    {
        let ghost before = self@;
        if self.stack.len() < STACK_CAP {
            self.stack.push(v);
        }
        assert(self@ =~= before.pushed(v));
    }

    fn pop(&mut self) -> (r: Num)
        requires
            old(self).wf(),
        ensures
            final(self).wf(),
            r == old(self)@.top(),
            final(self)@ == old(self)@.popped(),
            final(self).ops() == old(self).ops(),
            final(self).tick() == old(self).tick(),
            final(self).position() == old(self).position(),
    {
        let ghost before = self@;
        let r = match self.stack.pop() {
            Some(v) => v,
            None => Num { bits: 0 },
        };
        assert(self@ =~= before.popped());
        r
    }

    /// The number `depth` places below the top of the stack; zero where there is none.
    fn peek(&self, depth: usize) -> (r: Num)
        requires
            self.wf(),
        ensures
            r == if depth < self@.stack.len() {
                self@.stack[self@.stack.len() - 1 - depth]
            } else {
                Num::zero()
            },
    {
        if depth < self.stack.len() {
            self.stack[self.stack.len() - 1 - depth]
        } else {
            Num { bits: 0 }
        }
    }

    /// The arithmetic that `op` needs next.
    fn work_for(&self, op: Op) -> (r: Option<Work>)
        requires
            self.wf(),
            op_can_run(op, self@.cells),
        ensures
            r == demand(op, self@, self.tick()),
    {
        let price = self.price;
        match op {
            Op::Ema { slot, .. } => {
                assert(self@.cells[slot as int] == self.state@[slot as int].cell());
                match &self.state[slot] {
                    IndState::Ema { period, value: Some(value) } => Some(
                        Work::Ema { period: *period, value: *value, price },
                    ),
                    _ => None,
                }
            },
            Op::Momentum { slot, .. } => {
                assert(self@.cells[slot as int] == self.state@[slot as int].cell());
                assert(self.state@[slot as int].wf());
                match &self.state[slot] {
                    IndState::Momentum { lookback, prices } => {
                        let n: usize = prices.len();
                        let ghost now = slide(prices@, (*lookback + 1) as nat, price);
                        proof {
                            prices.lemma_len();
                        }
                        if n < *lookback {
                            return None;
                        }
                        let oldest = if n == *lookback {
                            if n == 0 {
                                price
                            } else {
                                prices.get(0)
                            }
                        } else if n == 1 {
                            price
                        } else {
                            prices.get(1)
                        };
                        assert(oldest == now[0]);
                        if oldest.is_zero() {
                            None
                        } else {
                            Some(Work::Momentum { oldest, now: price })
                        }
                    },
                    _ => None,
                }
            },
            Op::Reversion { slot, .. } => {
                assert(self@.cells[slot as int] == self.state@[slot as int].cell());
                assert(self.state@[slot as int].wf());
                match &self.state[slot] {
                    IndState::Reversion { window, prices, sum, sum_sq } => {
                        proof {
                            prices.lemma_len();
                        }
                        let full = prices.is_full();
                        let evicted = if full && prices.len() > 0 {
                            Some(prices.oldest())
                        } else {
                            None
                        };
                        let whole = if full || prices.len() + 1 == *window {
                            Some(*window)
                        } else {
                            None
                        };
                        Some(
                            Work::Reversion {
                                evicted,
                                price,
                                sum: *sum,
                                sum_sq: *sum_sq,
                                window: whole,
                            },
                        )
                    },
                    _ => None,
                }
            },
            Op::Eq => {
                let b = self.peek(0);
                let a = self.peek(1);
                Some(Work::Near { a, b })
            },
            _ => None,
        }
    }

    /// Two operands off the stack, and their verdict onto it.
    fn fold(&mut self, b: bool)
        requires
            old(self).wf(),
        ensures
            final(self).wf(),
            final(self)@ == folded(old(self)@, b),
            final(self).ops() == old(self).ops(),
            final(self).tick() == old(self).tick(),
            final(self).position() == old(self).position(),
    {
        self.pop();
        self.pop();
        self.push(Num::from_bool(b));
    }

    /// Carries out `op`, given what came back of its demand.
    fn apply(&mut self, op: Op, reply: Option<Reply>)
        requires
            old(self).wf(),
            op_can_run(op, old(self)@.cells),
        ensures
            final(self).wf(),
            final(self)@ == effect(op, old(self)@, old(self).tick(), reply),
            final(self).ops() == old(self).ops(),
            final(self).tick() == old(self).tick(),
            final(self).position() == old(self).position(),
    {
        let ghost before = self@;
        let price = self.price;
        let value = match reply {
            Some(Reply::Value(v)) => Some(v),
            _ => None,
        };
        match op {
            Op::PushPrice => self.push(price),
            Op::PushConst(c) => self.push(c),
            Op::Ema { slot, .. } => {
                assert(before.cells[slot as int] == self.state@[slot as int].cell());
                assert(self.state@[slot as int].wf());
                let v = ema_update(&mut self.state[slot], price, value);
                assert(self@ =~= before.with_cell(slot, self.state@[slot as int].cell()));
                assert(before.with_cell(slot, before.cells[slot as int]) =~= before);
                self.push(v);
            },
            Op::Momentum { slot, .. } => {
                assert(before.cells[slot as int] == self.state@[slot as int].cell());
                assert(self.state@[slot as int].wf());
                let v = momentum_update(&mut self.state[slot], price, value);
                assert(self@ =~= before.with_cell(slot, self.state@[slot as int].cell()));
                assert(before.with_cell(slot, before.cells[slot as int]) =~= before);
                self.push(v);
            },
            Op::Reversion { slot, .. } => {
                assert(before.cells[slot as int] == self.state@[slot as int].cell());
                assert(self.state@[slot as int].wf());
                let v = reversion_update(&mut self.state[slot], price, reply);
                assert(self@ =~= before.with_cell(slot, self.state@[slot as int].cell()));
                assert(before.with_cell(slot, before.cells[slot as int]) =~= before);
                self.push(v);
            },
            Op::Gt => {
                let v = self.peek(1).gt(self.peek(0));
                self.fold(v);
            },
            Op::Lt => {
                let v = self.peek(1).lt(self.peek(0));
                self.fold(v);
            },
            Op::Ge => {
                let v = self.peek(1).ge(self.peek(0));
                self.fold(v);
            },
            Op::Le => {
                let v = self.peek(1).le(self.peek(0));
                self.fold(v);
            },
            Op::Eq => {
                let v = match reply {
                    Some(Reply::Truth(b)) => b,
                    _ => false,
                };
                self.fold(v);
            },
            Op::And => {
                let v = self.peek(1).is_true() && self.peek(0).is_true();
                self.fold(v);
            },
            Op::Or => {
                let v = self.peek(1).is_true() || self.peek(0).is_true();
                self.fold(v);
            },
            Op::Not => {
                let a = self.pop();
                self.push(Num::from_bool(a.le(Num { bits: 0 })));
            },
            Op::Buy => {
                let c = self.pop();
                if c.is_true() {
                    self.decision = VmDecision::Buy(c);
                }
                assert(self@ =~= effect(op, before, price, reply));
            },
            Op::Sell => {
                let c = self.pop();
                if c.is_true() {
                    self.decision = VmDecision::Sell(c);
                }
                assert(self@ =~= effect(op, before, price, reply));
            },
        }
    }

    /// Runs the program on, in a single pass, up to the first operation that needs
    /// arithmetic, or to its end.
    pub fn step(&mut self) -> (r: Step)
        requires
            old(self).wf(),
            can_run(old(self).ops(), old(self)@.cells),
        ensures
            final(self).wf(),
            final(self).ops() == old(self).ops(),
            final(self).tick() == old(self).tick(),
            can_run(final(self).ops(), final(self)@.cells),
            (final(self).position(), final(self)@) == settle(
                old(self).ops(),
                old(self).tick(),
                old(self)@,
                old(self).position(),
            ),
            match r {
                Step::Work(w) => final(self).position() < final(self).ops().len() && demand(
                    final(self).ops()[final(self).position() as int],
                    final(self)@,
                    final(self).tick(),
                ) == Some(w),
                Step::Done(d) => final(self).position() == final(self).ops().len() && d
                    == final(self)@.decision,
            },
    {
        let ghost goal = settle(self.ops(), self.tick(), self@, self.position());
        while self.pc < self.prog.len()
            invariant
                self.wf(),
                self.ops() == old(self).ops(),
                self.tick() == old(self).tick(),
                can_run(self.ops(), self@.cells),
                settle(self.ops(), self.tick(), self@, self.position()) == goal,
                goal == settle(
                    old(self).ops(),
                    old(self).tick(),
                    old(self)@,
                    old(self).position(),
                ),
            decreases self.prog@.len() - self.pc,
        {
            let op = self.prog[self.pc];
            assert(op == self.ops()[self.position() as int]);
            if let Some(w) = self.work_for(op) {
                return Step::Work(w);
            }
            let ghost before = *self;
            self.apply(op, None);
            proof {
                lemma_effect_keeps_running(self.ops(), op, before@, self.tick(), None);
            }
            let ghost applied = self@;
            self.pc = self.pc + 1;
            assert(self@ == applied);
        }
        Step::Done(self.decision)
    }

    /// Hands in the arithmetic that [`Vm::step`] asked for, and carries out the operation
    /// that needed it.
    pub fn resume(&mut self, reply: Reply)
        requires
            old(self).wf(),
            can_run(old(self).ops(), old(self)@.cells),
            old(self).position() < old(self).ops().len(),
            demand(
                old(self).ops()[old(self).position() as int],
                old(self)@,
                old(self).tick(),
            ) matches Some(w) && answers(w, reply),
        ensures
            final(self).wf(),
            final(self).ops() == old(self).ops(),
            final(self).tick() == old(self).tick(),
            can_run(final(self).ops(), final(self)@.cells),
            final(self).position() == old(self).position() + 1,
            final(self)@ == effect(
                old(self).ops()[old(self).position() as int],
                old(self)@,
                old(self).tick(),
                Some(reply),
            ),
    {
        let here: usize = self.pc;
        let op = self.prog[here];
        let ghost before = *self;
        assert(op == self.ops()[self.position() as int]);
        assert(here < self.prog.len());
        self.apply(op, Some(reply));
        proof {
            lemma_effect_keeps_running(self.ops(), op, before@, self.tick(), Some(reply));
        }
        let ghost applied = self@;
        self.pc = here + 1;
        assert(self@ == applied);
    }

    /// Executes the whole program for one price, with the arithmetic of `host`: a single
    /// pass over the operations, each with what the host gave it, which keeps the indicators
    /// for the next tick. With a host that answers by a function, it is the [`run`] of that
    /// function.
    pub fn run<H: Fn(Work) -> Reply>(&mut self, price: Num, host: H) -> (d: VmDecision)
        requires
            old(self).wf(),
            can_run(old(self).ops(), old(self)@.cells),
            forall|w: Work| host.requires((w,)),
            forall|w: Work, r: Reply| host.ensures((w,), r) ==> answers(w, r),
        ensures
            final(self).wf(),
            final(self).ops() == old(self).ops(),
            can_run(final(self).ops(), final(self)@.cells),
            d == final(self)@.decision,
            exists|replies: Seq<Option<Reply>>|
                replies.len() == old(self).ops().len() && #[trigger] heard(
                    host,
                    old(self).ops(),
                    price,
                    fresh_tick(old(self)@),
                    replies,
                ) && final(self)@ == after_replies(
                    old(self).ops(),
                    price,
                    fresh_tick(old(self)@),
                    replies,
                ),
            forall|h: spec_fn(Work) -> Reply|
                host_is(host, h) ==> final(self)@ == #[trigger] run(
                    h,
                    old(self).ops(),
                    price,
                    fresh_tick(old(self)@),
                    0,
                ),
    {
        self.begin(price);
        let ghost start = fresh_tick(old(self)@);
        assert(self@ =~= start);
        let ghost mut replies: Seq<Option<Reply>> = seq![];
        loop
            invariant
                self.wf(),
                self.ops() == old(self).ops(),
                self.tick() == price,
                can_run(self.ops(), self@.cells),
                forall|w: Work| host.requires((w,)),
                forall|w: Work, r: Reply| host.ensures((w,), r) ==> answers(w, r),
                start == fresh_tick(old(self)@),
                replies.len() == self.position(),
                replies.len() <= self.ops().len(),
                heard(host, self.ops(), price, start, replies),
                self@ == after_replies(self.ops(), price, start, replies),
            decreases self.prog@.len() - self.pc,
        {
            let ghost at = self.position();
            let ghost before = self@;
            let step = self.step();
            proof {
                lemma_settle_moves_on(self.ops(), price, before, at);
                replies = lemma_settle_heard(host, self.ops(), price, start, replies);
            }
            match step {
                Step::Done(d) => {
                    assert forall|h: spec_fn(Work) -> Reply| host_is(
                        host,
                        h,
                    ) implies self@ == #[trigger] run(h, self.ops(), price, start, 0) by {
                        law_functions_decide_the_run(host, h, self.ops(), price, start, replies);
                    }
                    return d;
                },
                Step::Work(w) => {
                    let reply = host(w);
                    proof {
                        lemma_heard_push(host, self.ops(), price, start, replies, Some(reply));
                    }
                    self.resume(reply);
                    proof {
                        replies = replies.push(Some(reply));
                    }
                },
            }
        }
    }

    /// The program as flat bytes: each operation's byte, then its operand. Immediates are
    /// little-endian numbers; indicator periods keep their low 16 bits, little-endian.
    pub fn to_bytes(&self) -> (r: Vec<u8>)
        ensures
            r@ == flat_bytes(self.ops()),
    {
        program_to_bytes(self.prog.as_slice())
    }

    /// The program as text, one instruction per line. `texts` writes out the program's
    /// immediates, in program order.
    pub fn disassemble(&self, texts: &[String]) -> (r: String)
        requires
            texts@.len() == immediates(self.ops()).len(),
        ensures
            r@ == listing(self.ops(), texts@, 0, 0),
    {
        disassemble(self.prog.as_slice(), texts)
    }
}

/// Whether two cells belong to the same kind of operation over the same window.
pub open spec fn same_shape(a: Cell, b: Cell) -> bool {
    match (a, b) {
        (Cell::Ema { period: p, .. }, Cell::Ema { period: q, .. }) => p == q,
        (Cell::Momentum { lookback: p, .. }, Cell::Momentum { lookback: q, .. }) => p == q,
        (Cell::Reversion { window: p, .. }, Cell::Reversion { window: q, .. }) => p == q,
        _ => false,
    }
}

/// An operation leaves every cell what it is, and touches only its own.
pub proof fn lemma_effect_cells(op: Op, m: Machine, price: Num, reply: Option<Reply>)
    requires
        op_can_run(op, m.cells),
    ensures
        ({
            let after = effect(op, m, price, reply);
            &&& after.cells.len() == m.cells.len()
            &&& forall|i: int|
                0 <= i < m.cells.len() ==> same_shape(m.cells[i], #[trigger] after.cells[i])
            &&& forall|i: int|
                0 <= i < m.cells.len() && !(op.stateful() && op.slot() == i) ==> m.cells[i]
                    == #[trigger] after.cells[i]
        }),
{
}

/// An operation leaves a program that can run one that can run.
pub proof fn lemma_effect_keeps_running(
    prog: Seq<Op>,
    op: Op,
    m: Machine,
    price: Num,
    reply: Option<Reply>,
)
    requires
        can_run(prog, m.cells),
        op_can_run(op, m.cells),
    ensures
        can_run(prog, effect(op, m, price, reply).cells),
{
    lemma_effect_cells(op, m, price, reply);
    let after = effect(op, m, price, reply);
    assert forall|i: int| 0 <= i < prog.len() implies op_can_run(
        #[trigger] prog[i],
        after.cells,
    ) by {
        assert(op_can_run(prog[i], m.cells));
        if prog[i].stateful() {
            let k = prog[i].slot() as int;
            assert(same_shape(m.cells[k], after.cells[k]));
        }
    }
}

/// The operand of an operation in a flat program.
pub open spec fn operand_bytes(op: Op) -> Seq<u8> {
    match op {
        Op::PushConst(c) => spec_u64_to_le_bytes(c.bits),
        Op::Ema { period, .. } => spec_u16_to_le_bytes((period as int % 0x1_0000) as u16),
        Op::Momentum { lookback, .. } => spec_u16_to_le_bytes((lookback as int % 0x1_0000) as u16),
        Op::Reversion { window, .. } => spec_u16_to_le_bytes((window as int % 0x1_0000) as u16),
        _ => seq![],
    }
}

/// A program as flat bytes.
pub open spec fn flat_bytes(prog: Seq<Op>) -> Seq<u8>
    decreases prog.len(),
{
    if prog.len() == 0 {
        seq![]
    } else {
        seq![prog[0].code()] + operand_bytes(prog[0]) + flat_bytes(prog.drop_first())
    }
}

/// The low 16 bits of an operand, little-endian.
fn short_bytes(n: usize) -> (r: Vec<u8>)
    ensures
        r@ == spec_u16_to_le_bytes((n as int % 0x1_0000) as u16),
{
    u16_to_le_bytes((n % 0x1_0000) as u16)
}

/// The program as flat bytes; see [`Vm::to_bytes`].
pub fn program_to_bytes(prog: &[Op]) -> (r: Vec<u8>)
    ensures
        r@ == flat_bytes(prog@),
{
    let mut out: Vec<u8> = Vec::new();
    let mut k: usize = 0;
    assert(prog@.skip(0) =~= prog@);
    assert(out@ + flat_bytes(prog@) =~= flat_bytes(prog@));
    while k < prog.len()
        invariant
            k <= prog@.len(),
            out@ + flat_bytes(prog@.skip(k as int)) == flat_bytes(prog@),
        decreases prog@.len() - k,
    {
        let ghost before = out@;
        let op = prog[k];
        assert(prog@.skip(k as int).drop_first() =~= prog@.skip(k + 1));
        out.push(op.opcode());
        let mut operand: Vec<u8> = match op {
            Op::PushConst(c) => u64_to_le_bytes(c.bits),
            Op::Ema { period, .. } => short_bytes(period),
            Op::Momentum { lookback, .. } => short_bytes(lookback),
            Op::Reversion { window, .. } => short_bytes(window),
            _ => Vec::new(),
        };
        let ghost tail = flat_bytes(prog@.skip(k + 1));
        out.append(&mut operand);
        assert(out@ + tail =~= before + (seq![op.code()] + operand_bytes(op) + tail));
        k = k + 1;
    }
    assert(flat_bytes(prog@.skip(k as int)) =~= seq![]);
    assert(out@ =~= flat_bytes(prog@));
    out
}

/// The immediates of a program, in program order.
pub open spec fn immediates(prog: Seq<Op>) -> Seq<Num>
    decreases prog.len(),
{
    if prog.len() == 0 {
        seq![]
    } else {
        match prog.last() {
            Op::PushConst(c) => immediates(prog.drop_last()).push(c),
            _ => immediates(prog.drop_last()),
        }
    }
}

/// The immediates of a program, in program order.
pub fn constants(prog: &[Op]) -> (r: Vec<Num>)
    ensures
        r@ == immediates(prog@),
{
    let mut out: Vec<Num> = Vec::new();
    let mut k: usize = 0;
    while k < prog.len()
        invariant
            k <= prog@.len(),
            out@ == immediates(prog@.take(k as int)),
        decreases prog@.len() - k,
    {
        assert(prog@.take(k + 1).drop_last() =~= prog@.take(k as int));
        if let Op::PushConst(c) = prog[k] {
            out.push(c);
        }
        k = k + 1;
    }
    assert(prog@.take(k as int) =~= prog@);
    out
}

/// An operation's operand in a listing. `text` writes out an immediate.
pub open spec fn operand_text(op: Op, text: Seq<char>) -> Seq<char> {
    match op {
        Op::PushConst(_) => seq![' '] + text,
        Op::Ema { period, slot } => " period="@ + decimal(period as nat) + " slot="@ + decimal(
            slot as nat,
        ),
        Op::Momentum { lookback, slot } => " lookback="@ + decimal(lookback as nat) + " slot="@
            + decimal(slot as nat),
        Op::Reversion { window, slot } => " window="@ + decimal(window as nat) + " slot="@
            + decimal(slot as nat),
        _ => seq![],
    }
}

/// How wide the column of the names is on lines that go on with an operand.
pub const NAME_WIDTH: usize = 9;

/// An operation's name in a listing, filled up to its column where an operand follows.
pub open spec fn name_text(op: Op) -> Seq<char> {
    if op.stateful() || op is PushConst {
        left_aligned(op.name(), NAME_WIDTH as nat)
    } else {
        op.name()
    }
}

/// One line of a listing: the position, the byte, the name and the operand.
pub open spec fn listing_line(i: nat, op: Op, text: Seq<char>) -> Seq<char> {
    right_aligned(decimal(i), 3) + "  0x"@ + hex_byte(op.code()) + "  "@ + name_text(op)
        + operand_text(op, text) + seq!['\n']
}

/// The listing of `prog` from position `k` on, after `c` immediates.
pub open spec fn listing(prog: Seq<Op>, texts: Seq<String>, k: nat, c: nat) -> Seq<char>
    decreases prog.len() - k,
{
    if k >= prog.len() {
        seq![]
    } else if prog[k as int] is PushConst {
        listing_line(k, prog[k as int], texts[c as int]@) + listing(prog, texts, k + 1, c + 1)
    } else {
        listing_line(k, prog[k as int], seq![]) + listing(prog, texts, k + 1, c)
    }
}

fn push_operand(out: &mut String, name: &str, n: usize, slot: usize)
    ensures
        final(out)@ == old(out)@ + (name@ + decimal(n as nat) + " slot="@ + decimal(slot as nat)),
{
    out.append(name);
    push_decimal(out, n as u64);
    out.append(" slot=");
    push_decimal(out, slot as u64);
    assert(out@ =~= old(out)@ + (name@ + decimal(n as nat) + " slot="@ + decimal(slot as nat)));
}

proof fn lemma_immediates_prefix(prog: Seq<Op>, k: int)
    requires
        0 <= k <= prog.len(),
    ensures
        immediates(prog.take(k)).len() <= immediates(prog).len(),
    decreases prog.len() - k,
{
    if k < prog.len() {
        lemma_immediates_prefix(prog, k + 1);
        assert(prog.take(k + 1).drop_last() =~= prog.take(k));
    } else {
        assert(prog.take(k) =~= prog);
    }
}

/// Renders a program as text, one instruction per line. `texts` writes out the program's
/// [`constants`], in program order.
pub fn disassemble(prog: &[Op], texts: &[String]) -> (r: String)
    requires
        texts@.len() == immediates(prog@).len(),
    ensures
        r@ == listing(prog@, texts@, 0, 0),
{
    let mut out = String::new();
    let mut k: usize = 0;
    let mut c: usize = 0;
    assert(out@ + listing(prog@, texts@, 0, 0) =~= listing(prog@, texts@, 0, 0));
    while k < prog.len()
        invariant
            k <= prog@.len(),
            c == immediates(prog@.take(k as int)).len(),
            texts@.len() == immediates(prog@).len(),
            out@ + listing(prog@, texts@, k as nat, c as nat) == listing(prog@, texts@, 0, 0),
        decreases prog@.len() - k,
    {
        let ghost before = out@;
        let ghost c0 = c as nat;
        let op = prog[k];
        proof {
            assert(prog@.take(k + 1).drop_last() =~= prog@.take(k as int));
            lemma_immediates_prefix(prog@, k + 1);
        }
        push_right_aligned(&mut out, decimal_text(k as u64).as_str(), 3);
        out.append("  0x");
        push_hex_byte(&mut out, op.opcode());
        out.append("  ");
        let has_operand = match op {
            Op::PushConst(_) => true,
            _ => op.is_stateful(),
        };
        if has_operand {
            push_left_aligned(&mut out, op.mnemonic(), NAME_WIDTH);
        } else {
            out.append(op.mnemonic());
        }
        let ghost head = right_aligned(decimal(k as nat), 3) + "  0x"@ + hex_byte(op.code())
            + "  "@ + name_text(op);
        assert(out@ =~= before + head);
        let ghost text = if op is PushConst {
            texts@[c0 as int]@
        } else {
            seq![]
        };
        match op {
            Op::PushConst(_) => {
                out.push(' ');
                out.append(texts[c].as_str());
                c = c + 1;
                assert(out@ =~= before + head + operand_text(op, text));
            },
            Op::Ema { period, slot } => push_operand(&mut out, " period=", period, slot),
            Op::Momentum { lookback, slot } => push_operand(
                &mut out,
                " lookback=",
                lookback,
                slot,
            ),
            Op::Reversion { window, slot } => push_operand(&mut out, " window=", window, slot),
            _ => {},
        }
        assert(out@ =~= before + head + operand_text(op, text));
        out.push('\n');
        assert(out@ =~= before + listing_line(k as nat, op, text));
        k = k + 1;
        assert(out@ + listing(prog@, texts@, k as nat, c as nat) =~= before + (listing_line(
            (k - 1) as nat,
            op,
            text,
        ) + listing(prog@, texts@, k as nat, c as nat)));
    }
    assert(out@ =~= listing(prog@, texts@, 0, 0));
    out
}

} // verus!
