//! Laws of compiled programs: what holds of every graph that compiles, and which graphs
//! do not.

use crate::bytecode::{
    can_run, consulted, effect, fresh_cell, fresh_cells, fresh_tick, lemma_effect_keeps_running,
    near_zero, op_can_run, run, Machine, Op, Reply, Work, STACK_CAP,
};
use crate::compiler::{
    canvas_of, compiled, edges, emitted, gate_inputs, graph_of, is_signal, list_member, named,
    node_of, numeric_properties, properties, reads_price, single_input, sources, stray_end,
    string_properties, terminals, Fault, Graph, Node,
};
use crate::entries::distinct_keys;
use crate::json::{
    keys_once, law_objects_hold_each_key_once, lemma_keys_once_inside, value_at, Value,
};
use crate::num::Num;
use crate::vm_laws::{law_stack_discipline, puts, takes};
use vstd::prelude::*;
use vstd::utf8::encode_utf8;

verus! {

/// How many operations carry state.
pub open spec fn stateful_count(ops: Seq<Op>) -> nat
    decreases ops.len(),
{
    if ops.len() == 0 {
        0
    } else {
        stateful_count(ops.drop_last()) + if ops.last().stateful() {
            1nat
        } else {
            0nat
        }
    }
}

/// The stateful operations have consecutive slots, from `first` on.
pub open spec fn slots_in_order(ops: Seq<Op>, first: nat) -> bool {
    forall|i: int|
        0 <= i < ops.len() && (#[trigger] ops[i]).stateful() ==> ops[i].slot() == first
            + stateful_count(ops.take(i))
}

/// The height of the stack after `ops`, from height `h` on; none where an operation would
/// miss an operand.
pub open spec fn height(ops: Seq<Op>, h: nat) -> Option<nat>
    decreases ops.len(),
{
    if ops.len() == 0 {
        Some(h)
    } else {
        match height(ops.drop_last(), h) {
            Some(x) => if takes(ops.last()) <= x {
                Some((x - takes(ops.last()) + puts(ops.last())) as nat)
            } else {
                None
            },
            None => None,
        }
    }
}

/// The signals among the operations, in order.
pub open spec fn signal_ops(ops: Seq<Op>) -> Seq<Op>
    decreases ops.len(),
{
    if ops.len() == 0 {
        seq![]
    } else if ops.last() is Buy || ops.last() is Sell {
        signal_ops(ops.drop_last()).push(ops.last())
    } else {
        signal_ops(ops.drop_last())
    }
}

/// The signals that the nodes from the `k`-th on declare, in order.
pub open spec fn declared_signals(nodes: Seq<Node>, k: nat) -> Seq<Op>
    decreases nodes.len() - k,
{
    if k >= nodes.len() {
        seq![]
    } else if nodes[k as int].ntype == "buy_signal"@ {
        seq![Op::Buy] + declared_signals(nodes, k + 1)
    } else if nodes[k as int].ntype == "sell_signal"@ {
        seq![Op::Sell] + declared_signals(nodes, k + 1)
    } else {
        declared_signals(nodes, k + 1)
    }
}

proof fn lemma_concat(a: Seq<Op>, b: Seq<Op>)
    ensures
        stateful_count(a + b) == stateful_count(a) + stateful_count(b),
        signal_ops(a + b) == signal_ops(a) + signal_ops(b),
        forall|h: nat| #[trigger]
            height(a + b, h) == match height(a, h) {
                Some(x) => height(b, x),
                None => None,
            },
    decreases b.len(),
{
    if b.len() == 0 {
        assert(a + b =~= a);
        assert(signal_ops(a) + signal_ops(b) =~= signal_ops(a));
    } else {
        assert((a + b).drop_last() =~= a + b.drop_last());
        lemma_concat(a, b.drop_last());
        assert(signal_ops(a + b) =~= signal_ops(a) + signal_ops(b));
        assert forall|h: nat| #[trigger] height(a + b, h) == match height(a, h) {
            Some(x) => height(b, x),
            None => None,
        } by {
            assert(height((a + b).drop_last(), h) == height(a + b.drop_last(), h));
        }
    }
}

proof fn lemma_slots_concat(a: Seq<Op>, b: Seq<Op>, first: nat)
    requires
        slots_in_order(a, first),
        slots_in_order(b, first + stateful_count(a)),
    ensures
        slots_in_order(a + b, first),
{
    let c = a + b;
    assert forall|i: int| 0 <= i < c.len() && (#[trigger] c[i]).stateful() implies c[i].slot()
        == first + stateful_count(c.take(i)) by {
        if i < a.len() {
            assert(c[i] == a[i]);
            assert(c.take(i) =~= a.take(i));
        } else {
            let j = i - a.len();
            assert(c[i] == b[j]);
            assert(c.take(i) =~= a + b.take(j));
            lemma_concat(a, b.take(j));
        }
    }
}

/// What a piece of program does that leaves one value: it takes nothing from below, it
/// decides nothing, and it takes slots in order.
spec fn leaves_one(ops: Seq<Op>, slot: nat, next: nat) -> bool {
    &&& next == slot + stateful_count(ops)
    &&& next <= usize::MAX ==> slots_in_order(ops, slot)
    &&& forall|h: nat| #[trigger] height(ops, h) == Some(h + 1)
    &&& signal_ops(ops) == Seq::<Op>::empty()
}

proof fn lemma_one_op(ops: Seq<Op>, op: Op)
    requires
        ops == seq![op],
    ensures
        stateful_count(ops) == if op.stateful() {
            1nat
        } else {
            0nat
        },
        op is Buy || op is Sell ==> signal_ops(ops) == ops,
        !(op is Buy || op is Sell) ==> signal_ops(ops) == Seq::<Op>::empty(),
        forall|h: nat| #[trigger]
            height(ops, h) == if takes(op) <= h {
                Some((h - takes(op) + puts(op)) as nat)
            } else {
                None
            },
        !op.stateful() ==> forall|first: nat| #[trigger] slots_in_order(ops, first),
        op.stateful() ==> slots_in_order(ops, op.slot() as nat),
{
    assert(ops.drop_last() =~= seq![]);
    assert(ops.take(0) =~= seq![]);
    reveal_with_fuel(stateful_count, 2);
    reveal_with_fuel(signal_ops, 2);
    reveal_with_fuel(height, 2);
    assert(signal_ops(ops) =~= if op is Buy || op is Sell {
        ops
    } else {
        seq![]
    });
}

proof fn lemma_emitted(nodes: Seq<Node>, es: Seq<(int, int)>, n: int, open: Seq<int>, slot: nat)
    ensures
        emitted(nodes, es, n, open, slot) matches Ok((ops, next)) ==> leaves_one(ops, slot, next),
    decreases crate::compiler::untouched(nodes.len(), open), 0nat, 0nat,
{
    if !open.contains(n) && 0 <= n < nodes.len() {
        crate::compiler::lemma_untouched_push(nodes.len(), open, n);
        let t = nodes[n].ntype;
        let inner = open.push(n);
        if let Ok((ops, next)) = emitted(nodes, es, n, open, slot) {
            if ops.len() == 1 {
                assert(ops =~= seq![ops[0]]);
                lemma_one_op(ops, ops[0]);
            }
            if reads_price(nodes[n]) {
            } else if t == "condition"@ && sources(es, n).len() == 0 {
                let zero = Op::PushConst(Num::zero());
                let c = Op::PushConst(crate::compiler::threshold(nodes[n]));
                let f = crate::compiler::comparison(nodes[n]);
                lemma_one_op(seq![zero], zero);
                lemma_then_fold(seq![zero], c, f, slot, slot);
                assert(seq![zero] + seq![c, f] =~= seq![zero, c, f]);
            } else if t == "condition"@ {
                lemma_single_input(nodes, es, n, inner, slot);
                let (input, mid) = single_input(nodes, es, n, inner, slot)->Ok_0;
                let c = Op::PushConst(crate::compiler::threshold(nodes[n]));
                let f = crate::compiler::comparison(nodes[n]);
                lemma_then_fold(input, c, f, slot, mid);
            } else if t == "and_gate"@ {
                lemma_gate(nodes, es, sources(es, n), 0, inner, slot, Op::And);
            } else if t == "or_gate"@ {
                lemma_gate(nodes, es, sources(es, n), 0, inner, slot, Op::Or);
            } else {
                lemma_single_input(nodes, es, n, inner, slot);
            }
        }
    }
}

/// A value, a constant and a comparison leave one value.
proof fn lemma_then_fold(input: Seq<Op>, c: Op, f: Op, slot: nat, next: nat)
    requires
        leaves_one(input, slot, next),
        c is PushConst,
        takes(f) == 2,
        puts(f) == 1,
        !f.stateful(),
    ensures
        leaves_one(input + seq![c, f], slot, next),
{
    let first = seq![c];
    let second = seq![f];
    let tail = seq![c, f];
    let whole = input + tail;
    lemma_one_op(first, c);
    lemma_one_op(second, f);
    lemma_concat(first, second);
    assert(first + second =~= tail);
    lemma_concat(input, tail);
    assert(signal_ops(tail) =~= seq![]);
    assert(signal_ops(whole) =~= seq![]);
    if next <= usize::MAX {
        lemma_slots_concat(first, second, slot + stateful_count(input));
        lemma_slots_concat(input, tail, slot);
    }
    assert forall|h: nat| #[trigger] height(whole, h) == Some(h + 1) by {
        assert(height(first, h + 1) == Some((h + 2) as nat));
        assert(height(first + second, h + 1) == Some((h + 1) as nat));
    }
}

proof fn lemma_single_input(
    nodes: Seq<Node>,
    es: Seq<(int, int)>,
    n: int,
    open: Seq<int>,
    slot: nat,
)
    ensures
        single_input(nodes, es, n, open, slot) matches Ok((ops, next)) ==> leaves_one(
            ops,
            slot,
            next,
        ),
    decreases crate::compiler::untouched(nodes.len(), open), 1nat, 0nat,
{
    let srcs = sources(es, n);
    if srcs.len() == 1 {
        lemma_emitted(nodes, es, srcs[0], open, slot);
    } else if srcs.len() == 0 {
        let zero = Op::PushConst(Num::zero());
        lemma_one_op(seq![zero], zero);
    }
}

proof fn lemma_gate(
    nodes: Seq<Node>,
    es: Seq<(int, int)>,
    srcs: Seq<int>,
    k: nat,
    open: Seq<int>,
    slot: nat,
    fold: Op,
)
    requires
        fold is And || fold is Or,
    ensures
        gate_inputs(nodes, es, srcs, k, open, slot, fold) matches Ok((ops, next)) ==> {
            &&& k == 0 ==> leaves_one(ops, slot, next)
            &&& k > 0 && srcs.len() > 0 ==> {
                &&& next == slot + stateful_count(ops)
                &&& next <= usize::MAX ==> slots_in_order(ops, slot)
                &&& forall|h: nat| #[trigger] height(ops, h + 1) == Some(h + 1)
                &&& signal_ops(ops) == Seq::<Op>::empty()
            }
        },
    decreases crate::compiler::untouched(nodes.len(), open), 1nat, srcs.len() - k,
{
    if srcs.len() == 0 {
        let zero = Op::PushConst(Num::zero());
        lemma_one_op(seq![zero], zero);
    } else if k < srcs.len() {
        lemma_emitted(nodes, es, srcs[k as int], open, slot);
        if let Ok((ops, mid)) = emitted(nodes, es, srcs[k as int], open, slot) {
            lemma_gate(nodes, es, srcs, k + 1, open, mid, fold);
            if let Ok((rest, next)) = gate_inputs(nodes, es, srcs, k + 1, open, mid, fold) {
                let one = seq![fold];
                lemma_one_op(one, fold);
                lemma_concat(ops, one);
                assert(ops + one =~= ops.push(fold));
                let here = if k == 0 {
                    ops
                } else {
                    ops.push(fold)
                };
                let all = here + rest;
                lemma_concat(here, rest);
                assert(signal_ops(all) =~= seq![]);
                if next <= usize::MAX {
                    lemma_slots_concat(ops, one, slot);
                    lemma_slots_concat(here, rest, slot);
                }
                if k == 0 {
                    assert forall|h: nat| #[trigger] height(all, h) == Some(h + 1) by {
                        assert(height(rest, h + 1) == Some(h + 1));
                    }
                } else {
                    assert forall|h: nat| #[trigger] height(all, h + 1) == Some(h + 1) by {
                        assert(height(ops, h + 1) == Some((h + 2) as nat));
                        assert(height(ops + one, h + 1) == Some((h + 1) as nat));
                        assert(height(rest, h + 1) == Some(h + 1));
                    }
                }
            }
        }
    }
}

proof fn lemma_terminals(g: Graph, k: nat, slot: nat)
    ensures
        terminals(g, k, slot) matches Ok((ops, next)) ==> {
            &&& next == slot + stateful_count(ops)
            &&& next <= usize::MAX ==> slots_in_order(ops, slot)
            &&& forall|h: nat| #[trigger] height(ops, h) == Some(h)
            &&& signal_ops(ops) == declared_signals(g.nodes, k)
        },
    decreases g.nodes.len() - k,
{
    if k < g.nodes.len() {
        let node = g.nodes[k as int];
        if is_signal(node) {
            let n = named(g.nodes, node.id)->0;
            lemma_single_input(g.nodes, edges(g), n, seq![], slot);
            if let Ok((ops, mid)) = single_input(g.nodes, edges(g), n, seq![], slot) {
                let op = if node.ntype == "buy_signal"@ {
                    Op::Buy
                } else {
                    Op::Sell
                };
                lemma_terminals(g, k + 1, mid);
                if let Ok((rest, next)) = terminals(g, k + 1, mid) {
                    let one = seq![op];
                    let here = ops.push(op);
                    let all = here + rest;
                    lemma_one_op(one, op);
                    lemma_concat(ops, one);
                    assert(ops + one =~= here);
                    lemma_concat(here, rest);
                    assert(signal_ops(here) =~= one);
                    if next <= usize::MAX {
                        lemma_slots_concat(ops, one, slot);
                        lemma_slots_concat(here, rest, slot);
                    }
                    assert forall|h: nat| #[trigger] height(all, h) == Some(h) by {
                        assert(height(ops + one, h) == Some(h));
                    }
                }
            }
        } else {
            lemma_terminals(g, k + 1, slot);
        }
    }
}

/// Operands land on the stack before the operator that consumes them. A compiled
/// program, started on a stack of any height, never misses an operand and leaves the
/// stack as high as it found it.
pub proof fn law_compiled_programs_balance(g: Graph, h: nat)
    requires
        compiled(g) is Ok,
    ensures
        height(compiled(g)->Ok_0, h) == Some(h),
{
    lemma_terminals(g, 0, 0);
}

/// The machine's stack is as high as the program says: where no point of a program asks
/// for more than the stack holds, no operand is ever missed or lost.
pub proof fn law_stack_follows_height(
    host: spec_fn(Work) -> Reply,
    prog: Seq<Op>,
    price: Num,
    m: Machine,
    k: nat,
)
    requires
        k <= prog.len(),
        can_run(prog, m.cells),
        height(prog.take(k as int), 0) == Some(m.stack.len()),
        forall|i: int|
            0 <= i <= prog.len() ==> (#[trigger] height(prog.take(i), 0) matches Some(h) && h
                <= STACK_CAP),
    ensures
        height(prog, 0) == Some(run(host, prog, price, m, k).stack.len()),
    decreases prog.len() - k,
{
    if k < prog.len() {
        let op = prog[k as int];
        let reply = consulted(host, op, m, price);
        let next = effect(op, m, price, reply);
        assert(op_can_run(op, m.cells));
        assert(prog.take(k as int + 1).drop_last() =~= prog.take(k as int));
        assert(prog.take(k as int + 1).last() == op);
        assert(height(prog.take(k as int + 1), 0) is Some);
        law_stack_discipline(op, m, price, reply);
        lemma_effect_keeps_running(prog, op, m, price, reply);
        law_stack_follows_height(host, prog, price, next, k + 1);
    } else {
        assert(prog.take(k as int) =~= prog);
    }
}

/// One terminal per signal node, in declared node order, and no other signal.
pub proof fn law_one_terminal_per_signal(g: Graph)
    requires
        compiled(g) is Ok,
    ensures
        signal_ops(compiled(g)->Ok_0) == declared_signals(g.nodes, 0),
{
    lemma_terminals(g, 0, 0);
}

/// The stateful operations of a compiled program have the slots 0, 1, 2, ... in program
/// order, so each has a state cell of its own, made for it.
pub proof fn law_every_indicator_owns_its_cell(g: Graph)
    requires
        compiled(g) matches Ok(prog) && prog.len() <= usize::MAX,
    ensures
        ({
            let prog = compiled(g)->Ok_0;
            &&& slots_in_order(prog, 0)
            &&& fresh_cells(prog).len() == stateful_count(prog)
            &&& forall|i: int|
                0 <= i < prog.len() && (#[trigger] prog[i]).stateful() ==> prog[i].slot()
                    < fresh_cells(prog).len() && fresh_cells(prog)[prog[i].slot() as int]
                    == fresh_cell(prog[i])
        }),
{
    lemma_terminals(g, 0, 0);
    let prog = compiled(g)->Ok_0;
    lemma_count_bound(prog);
    lemma_cells(prog);
    assert forall|i: int| 0 <= i < prog.len() && (#[trigger] prog[i]).stateful() implies prog[i].slot()
        < fresh_cells(prog).len() && fresh_cells(prog)[prog[i].slot() as int] == fresh_cell(
        prog[i],
    ) by {
        lemma_cell_of(prog, i);
    }
}

/// A compiled program can be run exactly when none of its reversion windows is empty.
pub proof fn law_compiled_programs_run(g: Graph)
    requires
        compiled(g) matches Ok(prog) && prog.len() <= usize::MAX,
    ensures
        ({
            let prog = compiled(g)->Ok_0;
            can_run(prog, fresh_cells(prog)) <==> forall|i: int|
                0 <= i < prog.len() ==> (#[trigger] prog[i] matches Op::Reversion { window, .. }
                    ==> window > 0)
        }),
{
    law_every_indicator_owns_its_cell(g);
    let prog = compiled(g)->Ok_0;
    let cells = fresh_cells(prog);
    if can_run(prog, cells) {
        assert forall|i: int| 0 <= i < prog.len() implies (#[trigger] prog[i] matches Op::Reversion {
            window,
            ..
        } ==> window > 0) by {
            assert(op_can_run(prog[i], cells));
        }
    }
    if forall|i: int|
        0 <= i < prog.len() ==> (#[trigger] prog[i] matches Op::Reversion { window, .. } ==> window
            > 0) {
        assert forall|i: int| 0 <= i < prog.len() implies op_can_run(#[trigger] prog[i], cells) by {
            if prog[i].stateful() {
                assert(cells[prog[i].slot() as int] == fresh_cell(prog[i]));
            }
        }
    }
}

proof fn lemma_count_bound(ops: Seq<Op>)
    ensures
        stateful_count(ops) <= ops.len(),
    decreases ops.len(),
{
    if ops.len() > 0 {
        lemma_count_bound(ops.drop_last());
    }
}

proof fn lemma_cells(ops: Seq<Op>)
    ensures
        fresh_cells(ops).len() == stateful_count(ops),
    decreases ops.len(),
{
    if ops.len() > 0 {
        lemma_cells(ops.drop_last());
    }
}

proof fn lemma_cell_of(ops: Seq<Op>, i: int)
    requires
        0 <= i < ops.len(),
        ops[i].stateful(),
    ensures
        stateful_count(ops.take(i)) < fresh_cells(ops).len(),
        fresh_cells(ops)[stateful_count(ops.take(i)) as int] == fresh_cell(ops[i]),
    decreases ops.len(),
{
    lemma_cells(ops.drop_last());
    if i == ops.len() - 1 {
        assert(ops.take(i) =~= ops.drop_last());
    } else {
        lemma_cell_of(ops.drop_last(), i);
        assert(ops.drop_last().take(i) =~= ops.take(i));
    }
}

/// A graph without signal nodes compiles to the empty program, if its connections name
/// known nodes.
pub proof fn law_no_signals_no_program(g: Graph)
    requires
        stray_end(g, 0) is None,
        forall|i: int| 0 <= i < g.nodes.len() ==> !is_signal(#[trigger] g.nodes[i]),
    ensures
        compiled(g) == Ok::<Seq<Op>, Fault>(seq![]),
{
    lemma_no_terminals(g, 0, 0);
}

proof fn lemma_no_terminals(g: Graph, k: nat, slot: nat)
    requires
        forall|i: int| 0 <= i < g.nodes.len() ==> !is_signal(#[trigger] g.nodes[i]),
    ensures
        terminals(g, k, slot) == Ok::<(Seq<Op>, nat), Fault>((seq![], slot)),
    decreases g.nodes.len() - k,
{
    if k < g.nodes.len() {
        assert(!is_signal(g.nodes[k as int]));
        lemma_no_terminals(g, k + 1, slot);
    }
}

/// A node whose inputs become part of the program.
pub open spec fn reads_inputs(node: Node) -> bool {
    node.ntype == "condition"@ || node.ntype == "and_gate"@ || node.ntype == "or_gate"@
        || is_signal(node)
}

/// A node that folds all its inputs into one value. Every other node has one input at most.
pub open spec fn is_gate(node: Node) -> bool {
    node.ntype == "and_gate"@ || node.ntype == "or_gate"@
}

pub open spec fn known_type(node: Node) -> bool {
    reads_inputs(node) || reads_price(node)
}

/// A walk against the wires: each node is followed by one of the inputs that it reads.
pub open spec fn walks(nodes: Seq<Node>, es: Seq<(int, int)>, p: Seq<int>) -> bool {
    forall|i: int|
        0 <= i < p.len() - 1 ==> {
            let n = #[trigger] p[i];
            &&& 0 <= n < nodes.len()
            &&& reads_inputs(nodes[n])
            &&& sources(es, n).contains(p[i + 1])
        }
}

proof fn lemma_gate_input_compiles(
    nodes: Seq<Node>,
    es: Seq<(int, int)>,
    srcs: Seq<int>,
    k: nat,
    open: Seq<int>,
    slot: nat,
    fold: Op,
    j: int,
) -> (at: nat)
    requires
        gate_inputs(nodes, es, srcs, k, open, slot, fold) is Ok,
        k <= j < srcs.len(),
    ensures
        emitted(nodes, es, srcs[j], open, at) is Ok,
    decreases srcs.len() - k,
{
    if j == k {
        slot
    } else {
        let mid = emitted(nodes, es, srcs[k as int], open, slot)->Ok_0.1;
        lemma_gate_input_compiles(nodes, es, srcs, k + 1, open, mid, fold, j)
    }
}

/// Where a node compiles, each input that it reads compiles behind it.
proof fn lemma_input_compiles(
    nodes: Seq<Node>,
    es: Seq<(int, int)>,
    n: int,
    open: Seq<int>,
    slot: nat,
    src: int,
) -> (at: nat)
    requires
        emitted(nodes, es, n, open, slot) is Ok,
        reads_inputs(nodes[n]),
        sources(es, n).contains(src),
    ensures
        emitted(nodes, es, src, open.push(n), at) is Ok,
{
    lemma_words();
    let srcs = sources(es, n);
    let j = srcs.index_of(src);
    let t = nodes[n].ntype;
    if t == "and_gate"@ {
        lemma_gate_input_compiles(nodes, es, srcs, 0, open.push(n), slot, Op::And, j)
    } else if t == "or_gate"@ {
        lemma_gate_input_compiles(nodes, es, srcs, 0, open.push(n), slot, Op::Or, j)
    } else {
        slot
    }
}

/// The node types are different words.
pub proof fn lemma_words()
    ensures
        "data_source"@ != "condition"@,
        "data_source"@ != "and_gate"@,
        "data_source"@ != "or_gate"@,
        "data_source"@ != "buy_signal"@,
        "data_source"@ != "sell_signal"@,
        "ema"@ != "condition"@,
        "ema"@ != "and_gate"@,
        "ema"@ != "or_gate"@,
        "ema"@ != "buy_signal"@,
        "ema"@ != "sell_signal"@,
        "momentum"@ != "condition"@,
        "momentum"@ != "and_gate"@,
        "momentum"@ != "or_gate"@,
        "momentum"@ != "buy_signal"@,
        "momentum"@ != "sell_signal"@,
        "reversion"@ != "condition"@,
        "reversion"@ != "and_gate"@,
        "reversion"@ != "or_gate"@,
        "reversion"@ != "buy_signal"@,
        "reversion"@ != "sell_signal"@,
        "condition"@ != "and_gate"@,
        "condition"@ != "or_gate"@,
        "and_gate"@ != "or_gate"@,
        "and_gate"@ != "buy_signal"@,
        "and_gate"@ != "sell_signal"@,
        "or_gate"@ != "buy_signal"@,
        "or_gate"@ != "sell_signal"@,
        "condition"@ != "buy_signal"@,
        "condition"@ != "sell_signal"@,
{
    reveal_strlit("data_source");
    reveal_strlit("ema");
    reveal_strlit("momentum");
    reveal_strlit("reversion");
    reveal_strlit("condition");
    reveal_strlit("and_gate");
    reveal_strlit("or_gate");
    reveal_strlit("buy_signal");
    reveal_strlit("sell_signal");
    assert("data_source"@[0] == 'd' && "ema"@[0] == 'e' && "momentum"@[0] == 'm'
        && "reversion"@[0] == 'r' && "condition"@[0] == 'c' && "and_gate"@[0] == 'a'
        && "or_gate"@[0] == 'o' && "buy_signal"@[0] == 'b' && "sell_signal"@[0] == 's');
}

/// Every walk from a node that compiles is free of the open nodes and of repetitions, and
/// passes only nodes that are unambiguous and of known types.
proof fn lemma_walk(
    nodes: Seq<Node>,
    es: Seq<(int, int)>,
    n: int,
    open: Seq<int>,
    slot: nat,
    p: Seq<int>,
)
    requires
        emitted(nodes, es, n, open, slot) is Ok,
        p.len() > 0,
        p[0] == n,
        walks(nodes, es, p),
    ensures
        p.no_duplicates(),
        forall|i: int|
            0 <= i < p.len() ==> {
                let m = #[trigger] p[i];
                &&& !open.contains(m)
                &&& 0 <= m < nodes.len()
                &&& known_type(nodes[m])
                &&& !is_gate(nodes[m]) ==> sources(es, m).len() <= 1
            },
    decreases p.len(),
{
    lemma_words();
    if p.len() > 1 {
        assert(reads_inputs(nodes[p[0]]));
        let at = lemma_input_compiles(nodes, es, n, open, slot, p[1]);
        let rest = p.drop_first();
        assert(walks(nodes, es, rest)) by {
            assert forall|i: int| 0 <= i < rest.len() - 1 implies ({
                let m = #[trigger] rest[i];
                &&& 0 <= m < nodes.len()
                &&& reads_inputs(nodes[m])
                &&& sources(es, m).contains(rest[i + 1])
            }) by {
                assert(rest[i] == p[i + 1]);
                assert(rest[i + 1] == p[i + 2]);
            }
        }
        let inner = open.push(n);
        lemma_walk(nodes, es, p[1], inner, at, rest);
        assert(inner[open.len() as int] == n);
        assert forall|i: int| 1 <= i < p.len() implies ({
            let m = #[trigger] p[i];
            &&& !open.contains(m)
            &&& m != n
            &&& 0 <= m < nodes.len()
            &&& known_type(nodes[m])
            &&& !is_gate(nodes[m]) ==> sources(es, m).len() <= 1
        }) by {
            assert(rest[i - 1] == p[i]);
            if open.contains(p[i]) {
                let k = open.index_of(p[i]);
                assert(inner[k] == p[i]);
            }
        }
        assert forall|i: int, j: int| 0 <= i < p.len() && 0 <= j < p.len() && i != j implies p[i]
            != p[j] by {
            if i > 0 && j > 0 {
                assert(rest[i - 1] == p[i] && rest[j - 1] == p[j]);
            }
        }
    }
}

proof fn lemma_terminal_compiles(g: Graph, k: nat, slot: nat, j: int) -> (at: nat)
    requires
        terminals(g, k, slot) is Ok,
        k <= j < g.nodes.len(),
        is_signal(g.nodes[j]),
    ensures
        single_input(g.nodes, edges(g), named(g.nodes, g.nodes[j].id)->0, seq![], at) is Ok,
    decreases g.nodes.len() - k,
{
    if j == k {
        slot
    } else {
        let node = g.nodes[k as int];
        if is_signal(node) {
            let mid = single_input(
                g.nodes,
                edges(g),
                named(g.nodes, node.id)->0,
                seq![],
                slot,
            )->Ok_0.1;
            lemma_terminal_compiles(g, k + 1, mid, j)
        } else {
            lemma_terminal_compiles(g, k + 1, slot, j)
        }
    }
}

/// A graph that compiles has no cycle and no ambiguity where a signal can see it: walking
/// against the wires from what feeds any signal node, no node comes twice, every node is
/// of a known type, and only a gate has more than one input.
pub proof fn law_compiled_graphs_are_sound(g: Graph, j: int, p: Seq<int>)
    requires
        compiled(g) is Ok,
        0 <= j < g.nodes.len(),
        is_signal(g.nodes[j]),
        p.len() > 0,
        sources(edges(g), named(g.nodes, g.nodes[j].id)->0).contains(p[0]),
        walks(g.nodes, edges(g), p),
    ensures
        sources(edges(g), named(g.nodes, g.nodes[j].id)->0).len() == 1,
        p.no_duplicates(),
        forall|i: int|
            0 <= i < p.len() ==> {
                let m = #[trigger] p[i];
                &&& 0 <= m < g.nodes.len()
                &&& known_type(g.nodes[m])
                &&& !is_gate(g.nodes[m]) ==> sources(edges(g), m).len() <= 1
            },
{
    let at = lemma_terminal_compiles(g, 0, 0, j);
    let srcs = sources(edges(g), named(g.nodes, g.nodes[j].id)->0);
    let i = srcs.index_of(p[0]);
    lemma_walk(g.nodes, edges(g), srcs[0], seq![], at, p);
}

/// A signal node with more than one input is never trimmed to one: the graph does not
/// compile.
pub proof fn law_ambiguous_signals_are_rejected(g: Graph, j: int)
    requires
        0 <= j < g.nodes.len(),
        is_signal(g.nodes[j]),
        sources(edges(g), named(g.nodes, g.nodes[j].id)->0).len() > 1,
    ensures
        compiled(g) is Err,
{
    if compiled(g) is Ok {
        let at = lemma_terminal_compiles(g, 0, 0, j);
    }
}

/// Two pieces of program, one after the other, run as the second does on what the first
/// leaves.
pub proof fn lemma_run_concat(
    host: spec_fn(Work) -> Reply,
    a: Seq<Op>,
    b: Seq<Op>,
    price: Num,
    m: Machine,
    k: nat,
)
    requires
        k <= a.len(),
    ensures
        run(host, a + b, price, m, k) == run(host, b, price, run(host, a, price, m, k), 0),
    decreases a.len() - k,
{
    if k < a.len() {
        let op = a[k as int];
        assert((a + b)[k as int] == op);
        lemma_run_concat(
            host,
            a,
            b,
            price,
            effect(op, m, price, consulted(host, op, m, price)),
            k + 1,
        );
    } else {
        lemma_run_behind(host, a, b, price, m, 0);
    }
}

proof fn lemma_run_behind(
    host: spec_fn(Work) -> Reply,
    a: Seq<Op>,
    b: Seq<Op>,
    price: Num,
    m: Machine,
    k: nat,
)
    ensures
        run(host, a + b, price, m, a.len() + k) == run(host, b, price, m, k),
    decreases b.len() - k,
{
    if k < b.len() {
        let op = b[k as int];
        assert((a + b)[(a.len() + k) as int] == op);
        lemma_run_behind(
            host,
            a,
            b,
            price,
            effect(op, m, price, consulted(host, op, m, price)),
            k + 1,
        );
    }
}

/// A condition with nothing wired in.
pub open spec fn idle(nodes: Seq<Node>, es: Seq<(int, int)>, n: int) -> bool {
    &&& 0 <= n < nodes.len()
    &&& nodes[n].ntype == "condition"@
    &&& sources(es, n).len() == 0
}

/// Node `n` is fed by nothing at all, or by nothing but an idle condition.
pub open spec fn fed_by_nothing(nodes: Seq<Node>, es: Seq<(int, int)>, n: int) -> bool {
    let srcs = sources(es, n);
    srcs.len() == 0 || srcs.len() == 1 && idle(nodes, es, srcs[0])
}

/// The host judges nearness to zero as the machine's equality asks for.
pub open spec fn judges_zero(host: spec_fn(Work) -> Reply) -> bool {
    forall|x: Num| #[trigger]
        host(Work::Near { a: Num::zero(), b: x }) == Reply::Truth(near_zero(x))
}

/// A condition with nothing wired in compiles, whatever its comparison and its threshold
/// are, and does not fire: on every price it leaves one value that is not above 0, and
/// nothing else changes.
pub proof fn law_idle_conditions_do_not_fire(
    nodes: Seq<Node>,
    es: Seq<(int, int)>,
    n: int,
    open: Seq<int>,
    slot: nat,
    host: spec_fn(Work) -> Reply,
    price: Num,
    m: Machine,
)
    requires
        judges_zero(host),
        idle(nodes, es, n),
        !open.contains(n),
        m.stack.len() + 2 <= STACK_CAP,
    ensures
        emitted(nodes, es, n, open, slot) matches Ok((ops, next)) && next == slot && {
            let after = run(host, ops, price, m, 0);
            !after.top().above(Num::zero()) && after == m.pushed(after.top())
        },
{
    lemma_words();
    let zero = Num::zero();
    let c = crate::compiler::threshold(nodes[n]);
    let f = crate::compiler::comparison(nodes[n]);
    let ops = emitted(nodes, es, n, open, slot)->Ok_0.0;
    let one = m.pushed(zero);
    let two = one.pushed(c);
    reveal_with_fuel(run, 4);
    Num::law_truth_values(false);
    assert(two.popped().stack =~= one.stack);
    assert(two.popped().popped().stack =~= m.stack);
    if crate::compiler::fails_on_zero(nodes[n]) {
        assert(ops =~= seq![Op::PushConst(zero), Op::PushConst(c), f]);
        let after = run(host, ops, price, m, 0);
        assert(after == effect(f, two, price, consulted(host, f, two, price)));
        assert(after == m.pushed(zero));
    } else {
        assert(ops =~= seq![Op::PushConst(zero)]);
        assert(run(host, ops, price, m, 0) == one);
    }
}

/// A signal that nothing but an idle condition feeds compiles and never fires: on every
/// price it leaves the machine as it was, and with it the decision.
pub proof fn law_idle_signals_do_not_fire(
    nodes: Seq<Node>,
    es: Seq<(int, int)>,
    n: int,
    slot: nat,
    signal: Op,
    host: spec_fn(Work) -> Reply,
    price: Num,
    m: Machine,
)
    requires
        judges_zero(host),
        fed_by_nothing(nodes, es, n),
        signal is Buy || signal is Sell,
        m.stack.len() + 2 <= STACK_CAP,
    ensures
        single_input(nodes, es, n, seq![], slot) matches Ok((ops, next)) && next == slot && run(
            host,
            ops.push(signal),
            price,
            m,
            0,
        ) == m,
{
    let srcs = sources(es, n);
    let ops = single_input(nodes, es, n, seq![], slot)->Ok_0.0;
    Num::law_truth_values(false);
    reveal_with_fuel(run, 2);
    if srcs.len() == 1 {
        law_idle_conditions_do_not_fire(nodes, es, srcs[0], seq![], slot, host, price, m);
    } else {
        assert(ops =~= seq![Op::PushConst(Num::zero())]);
        assert(run(host, ops, price, m, 0) == m.pushed(Num::zero()));
    }
    let after = run(host, ops, price, m, 0);
    let one = seq![signal];
    assert(ops.push(signal) =~= ops + one);
    lemma_run_concat(host, ops, one, price, m, 0);
    assert(one[0] == signal);
    assert(run(host, one, price, after, 0) == effect(
        signal,
        after,
        price,
        consulted(host, signal, after, price),
    ));
    assert(after.popped().stack =~= m.stack);
}

/// A graph whose signals are all fed by nothing but idle conditions compiles, and its
/// program holds on every price.
pub proof fn law_idle_graphs_hold(
    g: Graph,
    host: spec_fn(Work) -> Reply,
    price: Num,
    m: Machine,
)
    requires
        judges_zero(host),
        stray_end(g, 0) is None,
        forall|j: int|
            0 <= j < g.nodes.len() && is_signal(#[trigger] g.nodes[j]) ==> fed_by_nothing(
                g.nodes,
                edges(g),
                named(g.nodes, g.nodes[j].id)->0,
            ),
    ensures
        compiled(g) matches Ok(prog) && run(host, prog, price, fresh_tick(m), 0).decision is Hold,
{
    lemma_idle_terminals(g, 0, 0, host, price, fresh_tick(m));
}

proof fn lemma_idle_terminals(
    g: Graph,
    k: nat,
    slot: nat,
    host: spec_fn(Work) -> Reply,
    price: Num,
    m: Machine,
)
    requires
        judges_zero(host),
        forall|j: int|
            0 <= j < g.nodes.len() && is_signal(#[trigger] g.nodes[j]) ==> fed_by_nothing(
                g.nodes,
                edges(g),
                named(g.nodes, g.nodes[j].id)->0,
            ),
        m.stack.len() + 2 <= STACK_CAP,
    ensures
        terminals(g, k, slot) matches Ok((ops, next)) && run(host, ops, price, m, 0) == m,
    decreases g.nodes.len() - k,
{
    if k < g.nodes.len() {
        let node = g.nodes[k as int];
        if is_signal(node) {
            let n = named(g.nodes, node.id)->0;
            let op = if node.ntype == "buy_signal"@ {
                Op::Buy
            } else {
                Op::Sell
            };
            law_idle_signals_do_not_fire(g.nodes, edges(g), n, slot, op, host, price, m);
            lemma_idle_terminals(g, k + 1, slot, host, price, m);
            let here = single_input(g.nodes, edges(g), n, seq![], slot)->Ok_0.0.push(op);
            let rest = terminals(g, k + 1, slot)->Ok_0.0;
            lemma_run_concat(host, here, rest, price, m, 0);
        } else {
            lemma_idle_terminals(g, k + 1, slot, host, price, m);
        }
    }
}

proof fn lemma_kinds_once(m: Seq<(Seq<char>, Value)>)
    requires
        distinct_keys(m),
    ensures
        distinct_keys(numeric_properties(m)),
        distinct_keys(string_properties(m)),
        forall|i: int|
            #![trigger numeric_properties(m)[i]]
            0 <= i < numeric_properties(m).len() ==> exists|j: int|
                0 <= j < m.len() && (#[trigger] m[j]).0 == numeric_properties(m)[i].0,
        forall|i: int|
            #![trigger string_properties(m)[i]]
            0 <= i < string_properties(m).len() ==> exists|j: int|
                0 <= j < m.len() && (#[trigger] m[j]).0 == string_properties(m)[i].0,
    decreases m.len(),
{
    if m.len() > 0 {
        let front = m.drop_last();
        lemma_kinds_once(front);
        let ns = numeric_properties(m);
        let ss = string_properties(m);
        assert forall|i: int|
            #![trigger ns[i]]
            0 <= i < ns.len() implies exists|j: int|
            0 <= j < m.len() && (#[trigger] m[j]).0 == ns[i].0 by {
            if i < numeric_properties(front).len() {
                let j = choose|j: int|
                    0 <= j < front.len() && (#[trigger] front[j]).0 == numeric_properties(front)[i].0;
                assert(m[j] == front[j]);
            } else {
                assert(m[m.len() - 1].0 == ns[i].0);
            }
        }
        assert forall|i: int|
            #![trigger ss[i]]
            0 <= i < ss.len() implies exists|j: int|
            0 <= j < m.len() && (#[trigger] m[j]).0 == ss[i].0 by {
            if i < string_properties(front).len() {
                let j = choose|j: int|
                    0 <= j < front.len() && (#[trigger] front[j]).0 == string_properties(front)[i].0;
                assert(m[j] == front[j]);
            } else {
                assert(m[m.len() - 1].0 == ss[i].0);
            }
        }
        assert forall|i: int, j: int|
            #![trigger ns[i], ns[j]]
            0 <= i < j < ns.len() implies ns[i].0 != ns[j].0 by {
            let before = numeric_properties(front);
            if j < before.len() {
                assert(before[i].0 != before[j].0);
            } else {
                let k = choose|k: int|
                    0 <= k < front.len() && (#[trigger] front[k]).0 == before[i].0;
                assert(m[k].0 != m[m.len() - 1].0);
            }
        }
        assert forall|i: int, j: int|
            #![trigger ss[i], ss[j]]
            0 <= i < j < ss.len() implies ss[i].0 != ss[j].0 by {
            let before = string_properties(front);
            if j < before.len() {
                assert(before[i].0 != before[j].0);
            } else {
                let k = choose|k: int|
                    0 <= k < front.len() && (#[trigger] front[k]).0 == before[i].0;
                assert(m[k].0 != m[m.len() - 1].0);
            }
        }
    }
}

/// However a text writes a node, a property name of the node that is read stands for one
/// number, and for one string.
pub proof fn law_property_names_occur_once(
    json: Seq<char>,
    numbers: Seq<(Seq<char>, Num)>,
    n: int,
)
    requires
        canvas_of(json) is Ok,
        0 <= n < graph_of(canvas_of(json)->Ok_0, numbers).nodes.len(),
    ensures
        ({
            let node = graph_of(canvas_of(json)->Ok_0, numbers).nodes[n];
            distinct_keys(node.nums) && distinct_keys(node.strs)
        }),
{
    let b = encode_utf8(json);
    law_objects_hold_each_key_once(b, 0);
    let root = value_at(b, 0)->Ok_0.0;
    lemma_keys_once_inside(root->Obj_0, "canvas"@);
    let canvas = canvas_of(json)->Ok_0;
    lemma_keys_once_inside(canvas->Obj_0, "nodes"@);
    let all = list_member(canvas, "nodes"@);
    let v = all[n];
    assert(keys_once(v));
    let m = properties(v);
    if let Value::Obj(inner) = v {
        lemma_keys_once_inside(inner, "properties"@);
    }
    assert(distinct_keys(m));
    lemma_kinds_once(m);
    let node = graph_of(canvas, numbers).nodes[n];
    assert(node == node_of(v, numbers));
    assert forall|i: int, j: int|
        #![trigger node.nums[i], node.nums[j]]
        0 <= i < j < node.nums.len() implies node.nums[i].0 != node.nums[j].0 by {
        assert(numeric_properties(m)[i].0 != numeric_properties(m)[j].0);
    }
}

} // verus!
