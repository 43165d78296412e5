//! Laws of compiled graphs: where each operation of a program comes from, what a compiled
//! program computes on a price, and which graphs compile.

use crate::bytecode::{
    consulted, effect, run, Machine, Op, Reply, VmDecision, Work, STACK_CAP,
};
use crate::compiler::{
    canvas_of, comparison, compiled, connections_of, edges, emitted, fails_on_zero, gate_inputs,
    graph_of, is_signal, lemma_untouched_push, named, node_of, numeric_properties, properties,
    single_input, sources, stray_end, string_properties, terminals, threshold, untouched,
    valued, whole_property, written_numbers, Fault, Graph, Node,
};
use crate::compiler_laws::{idle, judges_zero, lemma_run_concat, lemma_words, reads_inputs, walks};
use crate::entries::{distinct_keys, key_index, lemma_key_index, lemma_key_index_is, lookup};
use crate::json::{value_at, Value};
use crate::num::Num;
use crate::vm_laws::{comparable, truth};
use vstd::prelude::*;
use vstd::utf8::encode_utf8;

verus! {

/// The first entry under `key` holds `v`.
pub open spec fn first_entry<V>(m: Seq<(Seq<char>, V)>, key: Seq<char>, v: V) -> bool {
    exists|k: int|
        #![trigger m[k]]
        0 <= k < m.len() && m[k] == (key, v) && forall|j: int|
            0 <= j < k ==> (#[trigger] m[j]).0 != key
}

/// No entry is under `key`.
pub open spec fn no_entry<V>(m: Seq<(Seq<char>, V)>, key: Seq<char>) -> bool {
    forall|j: int| 0 <= j < m.len() ==> (#[trigger] m[j]).0 != key
}

/// `size` is the whole part of a number, or the greatest size there is where that is
/// greater.
pub open spec fn whole_part(x: Num, size: usize) -> bool {
    size == x.whole() || size == usize::MAX && x.whole() > usize::MAX
}

/// `size` is what the node's property under `key` says, or `default` where it has none.
pub open spec fn property_gives(node: Node, key: Seq<char>, default: usize, size: usize) -> bool {
    ||| exists|x: Num| #[trigger] first_entry(node.nums, key, x) && whole_part(x, size)
    ||| no_entry(node.nums, key) && size == default
}

/// `c` is the node's threshold: its property named value, or 0.
pub open spec fn threshold_is(node: Node, c: Num) -> bool {
    ||| first_entry(node.nums, "value"@, c)
    ||| no_entry(node.nums, "value"@) && c.bits == 0
}

/// `w` is the node's comparison: its property named op, or greater_than.
pub open spec fn comparison_is(node: Node, w: Seq<char>) -> bool {
    ||| first_entry(node.strs, "op"@, w)
    ||| no_entry(node.strs, "op"@) && w == "greater_than"@
}

/// The node's comparison is none of the four that have a word of their own.
pub open spec fn compares_greater(node: Node) -> bool {
    exists|w: Seq<char>| #[trigger]
        comparison_is(node, w) && w != "less_than"@ && w != "greater_equal"@ && w
            != "less_equal"@ && w != "equal"@
}

/// The operation is one that this node asks for.
pub open spec fn asks_for(node: Node, op: Op) -> bool {
    let t = node.ntype;
    match op {
        Op::PushPrice => t == "data_source"@,
        Op::Ema { period, .. } => t == "ema"@ && property_gives(node, "period"@, 12, period),
        Op::Momentum { lookback, .. } => t == "momentum"@ && property_gives(
            node,
            "lookback"@,
            16,
            lookback,
        ),
        Op::Reversion { window, .. } => t == "reversion"@ && property_gives(
            node,
            "window"@,
            64,
            window,
        ),
        Op::PushConst(c) => t == "condition"@ && threshold_is(node, c),
        Op::Gt => t == "condition"@ && compares_greater(node),
        Op::Lt => t == "condition"@ && comparison_is(node, "less_than"@),
        Op::Ge => t == "condition"@ && comparison_is(node, "greater_equal"@),
        Op::Le => t == "condition"@ && comparison_is(node, "less_equal"@),
        Op::Eq => t == "condition"@ && comparison_is(node, "equal"@),
        Op::And => t == "and_gate"@,
        Op::Or => t == "or_gate"@,
        Op::Not => false,
        Op::Buy => t == "buy_signal"@,
        Op::Sell => t == "sell_signal"@,
    }
}

/// Some node asks for the operation, or it is the neutral 0 that stands for a missing
/// input.
pub open spec fn has_origin(nodes: Seq<Node>, op: Op) -> bool {
    ||| op matches Op::PushConst(c) && c.bits == 0
    ||| exists|n: int| 0 <= n < nodes.len() && asks_for(#[trigger] nodes[n], op)
}

spec fn all_have_origins(nodes: Seq<Node>, ops: Seq<Op>) -> bool {
    forall|i: int| 0 <= i < ops.len() ==> has_origin(nodes, #[trigger] ops[i])
}

/// A lookup gives the first entry under a name, or there is none.
pub proof fn law_lookups_give_the_first_entry<V>(m: Seq<(Seq<char>, V)>, key: Seq<char>, v: V)
    ensures
        first_entry(m, key, v) <==> lookup(m, key) == Some(v),
        no_entry(m, key) <==> lookup(m, key) is None,
{
    lemma_key_index(m, key);
    let k = key_index(m, key) as int;
    if k < m.len() {
        assert(m[k].0 == key);
        if lookup(m, key) == Some(v) {
            assert(m[k] == (key, v));
        }
        if first_entry(m, key, v) {
            let f = choose|f: int|
                #![trigger m[f]]
                0 <= f < m.len() && m[f] == (key, v) && forall|j: int|
                    0 <= j < f ==> (#[trigger] m[j]).0 != key;
            assert(f == k);
        }
    }
}

proof fn lemma_node_asks(nodes: Seq<Node>, n: int, slot: usize)
    requires
        0 <= n < nodes.len(),
    ensures
        nodes[n].ntype == "ema"@ ==> has_origin(
            nodes,
            (Op::Ema { slot, period: whole_property(nodes[n], "period"@, 12) }),
        ),
        nodes[n].ntype == "momentum"@ ==> has_origin(
            nodes,
            (Op::Momentum { slot, lookback: whole_property(nodes[n], "lookback"@, 16) }),
        ),
        nodes[n].ntype == "reversion"@ ==> has_origin(
            nodes,
            (Op::Reversion { slot, window: whole_property(nodes[n], "window"@, 64) }),
        ),
        nodes[n].ntype == "data_source"@ ==> has_origin(nodes, Op::PushPrice),
        nodes[n].ntype == "and_gate"@ ==> has_origin(nodes, Op::And),
        nodes[n].ntype == "or_gate"@ ==> has_origin(nodes, Op::Or),
        nodes[n].ntype == "buy_signal"@ ==> has_origin(nodes, Op::Buy),
        nodes[n].ntype == "sell_signal"@ ==> has_origin(nodes, Op::Sell),
        nodes[n].ntype == "condition"@ ==> {
            &&& has_origin(nodes, Op::PushConst(threshold(nodes[n])))
            &&& has_origin(nodes, comparison(nodes[n]))
        },
{
    let node = nodes[n];
    lemma_whole(node, "period"@, 12);
    lemma_whole(node, "lookback"@, 16);
    lemma_whole(node, "window"@, 64);
    let c = threshold(node);
    law_lookups_give_the_first_entry(node.nums, "value"@, c);
    assert(threshold_is(node, c));
    let w = match lookup(node.strs, "op"@) {
        Some(w) => w,
        None => "greater_than"@,
    };
    law_lookups_give_the_first_entry(node.strs, "op"@, w);
    assert(comparison_is(node, w));
}

proof fn lemma_whole(node: Node, key: Seq<char>, default: usize)
    ensures
        property_gives(node, key, default, whole_property(node, key, default)),
{
    match lookup(node.nums, key) {
        Some(x) => {
            law_lookups_give_the_first_entry(node.nums, key, x);
        },
        None => {
            law_lookups_give_the_first_entry(node.nums, key, Num::zero());
        },
    }
}

proof fn lemma_emitted_origins(
    nodes: Seq<Node>,
    es: Seq<(int, int)>,
    n: int,
    open: Seq<int>,
    slot: nat,
)
    ensures
        emitted(nodes, es, n, open, slot) matches Ok((ops, next)) ==> all_have_origins(nodes, ops),
    decreases untouched(nodes.len(), open), 0nat, 0nat,
{
    if !open.contains(n) && 0 <= n < nodes.len() {
        lemma_untouched_push(nodes.len(), open, n);
        lemma_node_asks(nodes, n, slot as usize);
        let t = nodes[n].ntype;
        let inner = open.push(n);
        if t == "condition"@ || is_signal(nodes[n]) {
            lemma_input_origins(nodes, es, n, inner, slot);
        }
        if t == "and_gate"@ {
            lemma_gate_origins(nodes, es, sources(es, n), 0, inner, slot, Op::And);
        }
        if t == "or_gate"@ {
            lemma_gate_origins(nodes, es, sources(es, n), 0, inner, slot, Op::Or);
        }
    }
}

proof fn lemma_input_origins(
    nodes: Seq<Node>,
    es: Seq<(int, int)>,
    n: int,
    open: Seq<int>,
    slot: nat,
)
    ensures
        single_input(nodes, es, n, open, slot) matches Ok((ops, next)) ==> all_have_origins(
            nodes,
            ops,
        ),
    decreases untouched(nodes.len(), open), 1nat, 0nat,
{
    let srcs = sources(es, n);
    if srcs.len() == 1 {
        lemma_emitted_origins(nodes, es, srcs[0], open, slot);
    }
}

proof fn lemma_gate_origins(
    nodes: Seq<Node>,
    es: Seq<(int, int)>,
    srcs: Seq<int>,
    k: nat,
    open: Seq<int>,
    slot: nat,
    fold: Op,
)
    requires
        has_origin(nodes, fold),
    ensures
        gate_inputs(nodes, es, srcs, k, open, slot, fold) matches Ok((ops, next))
            ==> all_have_origins(nodes, ops),
    decreases untouched(nodes.len(), open), 1nat, srcs.len() - k,
{
    if k < srcs.len() {
        lemma_emitted_origins(nodes, es, srcs[k as int], open, slot);
        if let Ok((ops, mid)) = emitted(nodes, es, srcs[k as int], open, slot) {
            lemma_gate_origins(nodes, es, srcs, k + 1, open, mid, fold);
        }
    }
}

proof fn lemma_terminal_origins(g: Graph, k: nat, slot: nat)
    ensures
        terminals(g, k, slot) matches Ok((ops, next)) ==> all_have_origins(g.nodes, ops),
    decreases g.nodes.len() - k,
{
    if k < g.nodes.len() {
        let node = g.nodes[k as int];
        if is_signal(node) {
            let n = named(g.nodes, node.id)->0;
            lemma_node_asks(g.nodes, k as int, 0);
            lemma_input_origins(g.nodes, edges(g), n, seq![], slot);
            if let Ok((ops, mid)) = single_input(g.nodes, edges(g), n, seq![], slot) {
                lemma_terminal_origins(g, k + 1, mid);
            }
        } else {
            lemma_terminal_origins(g, k + 1, slot);
        }
    }
}

/// Every operation of a compiled program comes from a node that asks for it, with the
/// numbers that the node has: a momentum from a momentum node, with the whole part of its
/// property named lookback or 16 where it has none; likewise an average with period and
/// 12, and a reversion with window and 64; a comparison and its threshold from a condition
/// with that word and that value; gates and signals from nodes of their types. Only the
/// neutral 0 of a missing input comes from no node.
pub proof fn law_operations_come_from_nodes(g: Graph, i: int)
    requires
        compiled(g) matches Ok(prog) && 0 <= i < prog.len(),
    ensures
        has_origin(g.nodes, compiled(g)->Ok_0[i]),
{
    lemma_terminal_origins(g, 0, 0);
}

/// The sizes of the indicators, one by one: what a node of the kind says in its own
/// property, or that kind's default.
pub proof fn law_indicators_have_their_nodes_sizes(g: Graph, i: int) -> (n: int)
    requires
        compiled(g) matches Ok(prog) && 0 <= i < prog.len() && prog[i].stateful(),
    ensures
        0 <= n < g.nodes.len(),
        compiled(g)->Ok_0[i] matches Op::Momentum { lookback, .. } ==> {
            &&& g.nodes[n].ntype == "momentum"@
            &&& no_entry(g.nodes[n].nums, "lookback"@) ==> lookback == 16
            &&& forall|x: Num| #[trigger]
                first_entry(g.nodes[n].nums, "lookback"@, x) ==> whole_part(x, lookback)
        },
        compiled(g)->Ok_0[i] matches Op::Ema { period, .. } ==> {
            &&& g.nodes[n].ntype == "ema"@
            &&& no_entry(g.nodes[n].nums, "period"@) ==> period == 12
            &&& forall|x: Num| #[trigger]
                first_entry(g.nodes[n].nums, "period"@, x) ==> whole_part(x, period)
        },
        compiled(g)->Ok_0[i] matches Op::Reversion { window, .. } ==> {
            &&& g.nodes[n].ntype == "reversion"@
            &&& no_entry(g.nodes[n].nums, "window"@) ==> window == 64
            &&& forall|x: Num| #[trigger]
                first_entry(g.nodes[n].nums, "window"@, x) ==> whole_part(x, window)
        },
{
    law_operations_come_from_nodes(g, i);
    let op = compiled(g)->Ok_0[i];
    let n = choose|n: int| 0 <= n < g.nodes.len() && asks_for(#[trigger] g.nodes[n], op);
    lemma_one_entry(g.nodes[n].nums, "lookback"@);
    lemma_one_entry(g.nodes[n].nums, "period"@);
    lemma_one_entry(g.nodes[n].nums, "window"@);
    n
}

/// There is one first entry under a name, or none at all.
proof fn lemma_one_entry(m: Seq<(Seq<char>, Num)>, key: Seq<char>)
    ensures
        forall|x: Num, y: Num|
            #![trigger first_entry(m, key, x), first_entry(m, key, y)]
            first_entry(m, key, x) && first_entry(m, key, y) ==> x == y,
        no_entry(m, key) ==> forall|x: Num| !#[trigger] first_entry(m, key, x),
{
    assert forall|x: Num, y: Num|
        #![trigger first_entry(m, key, x), first_entry(m, key, y)]
        first_entry(m, key, x) && first_entry(m, key, y) implies x == y by {
        law_lookups_give_the_first_entry(m, key, x);
        law_lookups_give_the_first_entry(m, key, y);
    }
}

/// A number counts as true where it is greater than 0.
pub open spec fn yes(x: Num) -> bool {
    !x.nan() && x.value() > 0
}

/// The size of an indicator: the whole part of a property, or a default.
pub open spec fn size(node: Node, key: Seq<char>, default: usize) -> usize {
    match lookup(node.nums, key) {
        Some(x) => if x.whole() > usize::MAX {
            usize::MAX
        } else {
            x.whole() as usize
        },
        None => default,
    }
}

/// Whether a condition with this word holds of `a` on the left and `b` on the right.
pub open spec fn holds(word: Option<Seq<char>>, a: Num, b: Num, host: spec_fn(Work) -> Reply) -> bool {
    if word == Some("equal"@) {
        host(Work::Near { a, b }) == Reply::Truth(true)
    } else if word == Some("less_than"@) {
        comparable(a, b) && a.value() < b.value()
    } else if word == Some("less_equal"@) {
        comparable(a, b) && a.value() <= b.value()
    } else if word == Some("greater_equal"@) {
        comparable(a, b) && a.value() >= b.value()
    } else {
        comparable(a, b) && a.value() > b.value()
    }
}

/// The value of a node on one price, the machine with its indicators moved on, and the next
/// free slot.
pub struct Reading {
    pub value: Num,
    pub after: Machine,
    pub next: nat,
}

/// What an indicator reads.
pub open spec fn indicator(
    op: Op,
    slot: nat,
    host: spec_fn(Work) -> Reply,
    price: Num,
    m: Machine,
) -> Reading {
    let done = effect(op, m, price, consulted(host, op, m, price));
    Reading { value: done.top(), after: done.popped(), next: slot + 1 }
}

/// What a drawn node means on one price. A data source is the price, an indicator is its
/// reading, and a condition is the truth of its comparison of what is wired in with its
/// threshold. A gate of several inputs is true where all of them are, or one of them is; of
/// one input it is that input. A signal is what is wired into it, and where nothing is, a
/// node that wants an input is 0.
pub open spec fn meaning(
    nodes: Seq<Node>,
    es: Seq<(int, int)>,
    n: int,
    depth: nat,
    slot: nat,
    host: spec_fn(Work) -> Reply,
    price: Num,
    m: Machine,
) -> Reading
    decreases depth, 0nat,
{
    let node = nodes[n];
    let t = node.ntype;
    let srcs = sources(es, n);
    if depth == 0 {
        Reading { value: Num { bits: 0 }, after: m, next: slot }
    } else if t == "data_source"@ {
        Reading { value: price, after: m, next: slot }
    } else if t == "ema"@ {
        let op = Op::Ema { slot: slot as usize, period: size(node, "period"@, 12) };
        indicator(op, slot, host, price, m)
    } else if t == "momentum"@ {
        let op = Op::Momentum { slot: slot as usize, lookback: size(node, "lookback"@, 16) };
        indicator(op, slot, host, price, m)
    } else if t == "reversion"@ {
        let op = Op::Reversion { slot: slot as usize, window: size(node, "window"@, 64) };
        indicator(op, slot, host, price, m)
    } else if srcs.len() == 0 {
        Reading { value: Num { bits: 0 }, after: m, next: slot }
    } else if t == "and_gate"@ || t == "or_gate"@ {
        let (values, after, next) = meanings(
            nodes,
            es,
            srcs,
            (depth - 1) as nat,
            slot,
            host,
            price,
            m,
        );
        let value = if values.len() == 1 {
            values[0]
        } else if t == "and_gate"@ {
            truth(forall|i: int| 0 <= i < values.len() ==> yes(#[trigger] values[i]))
        } else {
            truth(exists|i: int| 0 <= i < values.len() && yes(#[trigger] values[i]))
        };
        Reading { value, after, next }
    } else {
        let input = meaning(nodes, es, srcs[0], (depth - 1) as nat, slot, host, price, m);
        if t == "condition"@ {
            let limit = match lookup(node.nums, "value"@) {
                Some(x) => x,
                None => Num { bits: 0 },
            };
            let holding = holds(lookup(node.strs, "op"@), input.value, limit, host);
            Reading { value: truth(holding), ..input }
        } else {
            input
        }
    }
}

/// What the inputs of a gate mean, one after the other.
pub open spec fn meanings(
    nodes: Seq<Node>,
    es: Seq<(int, int)>,
    srcs: Seq<int>,
    depth: nat,
    slot: nat,
    host: spec_fn(Work) -> Reply,
    price: Num,
    m: Machine,
) -> (Seq<Num>, Machine, nat)
    decreases depth, srcs.len(),
{
    if srcs.len() == 0 {
        (seq![], m, slot)
    } else {
        let r = meaning(nodes, es, srcs[0], depth, slot, host, price, m);
        let (rest, after, next) = meanings(
            nodes,
            es,
            srcs.drop_first(),
            depth,
            r.next,
            host,
            price,
            r.after,
        );
        (seq![r.value] + rest, after, next)
    }
}

/// How much room on the stack a node needs.
pub open spec fn need(nodes: Seq<Node>, es: Seq<(int, int)>, n: int, depth: nat) -> nat
    decreases depth, 0nat,
{
    let t = nodes[n].ntype;
    let srcs = sources(es, n);
    if depth == 0 {
        1
    } else if t == "condition"@ {
        let input = if srcs.len() == 0 {
            1
        } else {
            need(nodes, es, srcs[0], (depth - 1) as nat)
        };
        if input < 2 {
            2
        } else {
            input
        }
    } else if t == "and_gate"@ || t == "or_gate"@ {
        needs(nodes, es, srcs, (depth - 1) as nat, 0)
    } else if is_signal(nodes[n]) && srcs.len() > 0 {
        need(nodes, es, srcs[0], (depth - 1) as nat)
    } else {
        1
    }
}

/// How much room on the stack the inputs of a gate need, with `held` values there already.
pub open spec fn needs(
    nodes: Seq<Node>,
    es: Seq<(int, int)>,
    srcs: Seq<int>,
    depth: nat,
    held: nat,
) -> nat
    decreases depth, srcs.len(),
{
    if srcs.len() == 0 {
        1
    } else {
        let here = held + need(nodes, es, srcs[0], depth);
        let rest = needs(nodes, es, srcs.drop_first(), depth, 1);
        if here < rest {
            rest
        } else {
            here
        }
    }
}

/// The operations leave the node's value on the stack, move its indicators on, and do
/// nothing else.
pub open spec fn computes(
    ops: Seq<Op>,
    next: nat,
    r: Reading,
    host: spec_fn(Work) -> Reply,
    price: Num,
    m: Machine,
) -> bool {
    &&& run(host, ops, price, m, 0) == r.after.pushed(r.value)
    &&& r.after.stack == m.stack
    &&& r.after.decision == m.decision
    &&& r.next == next
}

proof fn lemma_run_one(host: spec_fn(Work) -> Reply, op: Op, price: Num, m: Machine)
    ensures
        run(host, seq![op], price, m, 0) == effect(op, m, price, consulted(host, op, m, price)),
{
    reveal_with_fuel(run, 2);
}

proof fn lemma_indicator(
    op: Op,
    slot: nat,
    host: spec_fn(Work) -> Reply,
    price: Num,
    m: Machine,
)
    requires
        op.stateful(),
        m.stack.len() < STACK_CAP,
    ensures
        computes(seq![op], slot + 1, indicator(op, slot, host, price, m), host, price, m),
{
    lemma_run_one(host, op, price, m);
    let done = effect(op, m, price, consulted(host, op, m, price));
    let r = indicator(op, slot, host, price, m);
    assert(done.stack.len() == m.stack.len() + 1);
    assert(r.after.stack =~= m.stack);
    assert(r.after.stack.push(r.value) =~= done.stack);
    assert(r.after.pushed(r.value) == done);
}

/// A value, a threshold and a comparison.
proof fn lemma_compared(
    node: Node,
    input: Reading,
    host: spec_fn(Work) -> Reply,
    price: Num,
)
    requires
        input.after.stack.len() + 2 <= STACK_CAP,
    ensures
        ({
            let limit = match lookup(node.nums, "value"@) {
                Some(x) => x,
                None => Num { bits: 0 },
            };
            run(
                host,
                seq![
                    Op::PushConst(threshold(node)),
                    comparison(node),
                ],
                price,
                input.after.pushed(input.value),
                0,
            ) == input.after.pushed(
                truth(holds(lookup(node.strs, "op"@), input.value, limit, host)),
            )
        }),
{
    let c = threshold(node);
    let f = comparison(node);
    let base = input.after;
    let one = base.pushed(input.value);
    let two = one.pushed(c);
    reveal_with_fuel(run, 3);
    assert(two.popped().stack =~= one.stack);
    assert(one.popped().stack =~= base.stack);
    assert(run(host, seq![Op::PushConst(c), f], price, one, 0) == effect(
        f,
        two,
        price,
        consulted(host, f, two, price),
    ));
    reveal_strlit("equal");
    reveal_strlit("less_than");
    reveal_strlit("less_equal");
    reveal_strlit("greater_equal");
    reveal_strlit("greater_than");
    assert("equal"@[0] == 'e' && "less_than"@[5] == 't' && "less_equal"@[5] == 'e');
    assert("less_than"@[0] == 'l' && "less_equal"@[0] == 'l');
    assert("greater_equal"@[0] == 'g' && "greater_than"@[0] == 'g');
    assert("greater_equal"@[8] == 'e' && "greater_than"@[8] == 't');
}

proof fn lemma_meaning(
    nodes: Seq<Node>,
    es: Seq<(int, int)>,
    n: int,
    open: Seq<int>,
    slot: nat,
    depth: nat,
    host: spec_fn(Work) -> Reply,
    price: Num,
    m: Machine,
)
    requires
        judges_zero(host),
        depth >= untouched(nodes.len(), open),
        m.stack.len() + need(nodes, es, n, depth) <= STACK_CAP,
    ensures
        emitted(nodes, es, n, open, slot) matches Ok((ops, next)) ==> computes(
            ops,
            next,
            meaning(nodes, es, n, depth, slot, host, price, m),
            host,
            price,
            m,
        ),
    decreases untouched(nodes.len(), open), 0nat, 0nat,
{
    if emitted(nodes, es, n, open, slot) is Ok {
        lemma_words();
        lemma_untouched_push(nodes.len(), open, n);
        let node = nodes[n];
        let t = node.ntype;
        let srcs = sources(es, n);
        let inner = open.push(n);
        let (ops, next) = emitted(nodes, es, n, open, slot)->Ok_0;
        let r = meaning(nodes, es, n, depth, slot, host, price, m);
        let less = (depth - 1) as nat;
        lemma_need(nodes, es, n, depth);
        if t == "data_source"@ {
            lemma_run_one(host, Op::PushPrice, price, m);
        } else if t == "ema"@ || t == "momentum"@ || t == "reversion"@ {
            lemma_indicator(ops[0], slot, host, price, m);
            assert(ops =~= seq![ops[0]]);
        } else if t == "condition"@ && srcs.len() == 0 {
            lemma_idle_is_zero(nodes, es, n, open, slot, host, price, m);
        } else if t == "condition"@ {
            lemma_meaning(nodes, es, srcs[0], inner, slot, less, host, price, m);
            let input = meaning(nodes, es, srcs[0], less, slot, host, price, m);
            let first = single_input(nodes, es, n, inner, slot)->Ok_0.0;
            let tail = seq![
                Op::PushConst(threshold(node)),
                comparison(node),
            ];
            lemma_run_concat(host, first, tail, price, m, 0);
            lemma_compared(node, input, host, price);
        } else if t == "and_gate"@ || t == "or_gate"@ {
            let fold = if t == "and_gate"@ {
                Op::And
            } else {
                Op::Or
            };
            if srcs.len() == 0 {
                lemma_run_one(host, Op::PushConst(Num::zero()), price, m);
            } else {
                lemma_gate_meaning(nodes, es, srcs, inner, slot, less, host, price, m, fold);
            }
        } else if srcs.len() == 0 {
            lemma_run_one(host, Op::PushConst(Num::zero()), price, m);
        } else {
            lemma_meaning(nodes, es, srcs[0], inner, slot, less, host, price, m);
        }
    }
}

proof fn lemma_need(nodes: Seq<Node>, es: Seq<(int, int)>, n: int, depth: nat)
    ensures
        need(nodes, es, n, depth) >= 1,
    decreases depth,
{
    let srcs = sources(es, n);
    if depth > 0 && srcs.len() > 0 {
        lemma_need(nodes, es, srcs[0], (depth - 1) as nat);
    }
    if depth > 0 {
        assert(needs(nodes, es, srcs, (depth - 1) as nat, 0) >= 1);
    }
}

/// A condition with nothing wired in leaves just 0.
proof fn lemma_idle_is_zero(
    nodes: Seq<Node>,
    es: Seq<(int, int)>,
    n: int,
    open: Seq<int>,
    slot: nat,
    host: spec_fn(Work) -> Reply,
    price: Num,
    m: Machine,
)
    requires
        judges_zero(host),
        idle(nodes, es, n),
        !open.contains(n),
        m.stack.len() + 2 <= STACK_CAP,
    ensures
        emitted(nodes, es, n, open, slot) matches Ok((ops, next)) && next == slot && run(
            host,
            ops,
            price,
            m,
            0,
        ) == m.pushed(Num { bits: 0 }),
{
    lemma_words();
    let zero = Num::zero();
    let c = threshold(nodes[n]);
    let f = comparison(nodes[n]);
    let ops = emitted(nodes, es, n, open, slot)->Ok_0.0;
    let one = m.pushed(zero);
    let two = one.pushed(c);
    reveal_with_fuel(run, 4);
    Num::law_truth_values(false);
    assert(two.popped().stack =~= one.stack);
    assert(two.popped().popped().stack =~= m.stack);
    if fails_on_zero(nodes[n]) {
        assert(ops =~= seq![Op::PushConst(zero), Op::PushConst(c), f]);
        let after = run(host, ops, price, m, 0);
        assert(after == effect(f, two, price, consulted(host, f, two, price)));
        assert(after == m.pushed(zero));
    } else {
        assert(ops =~= seq![Op::PushConst(zero)]);
        assert(run(host, ops, price, m, 0) == one);
    }
}

/// What a gate makes of one value and all further ones.
pub open spec fn gated(fold: Op, first: Num, rest: Seq<Num>) -> Num {
    if rest.len() == 0 {
        first
    } else if fold is And {
        truth(yes(first) && forall|i: int| 0 <= i < rest.len() ==> yes(#[trigger] rest[i]))
    } else {
        truth(yes(first) || exists|i: int| 0 <= i < rest.len() && yes(#[trigger] rest[i]))
    }
}

proof fn lemma_gated_step(fold: Op, first: Num, v: Num, rest: Seq<Num>)
    requires
        fold is And || fold is Or,
    ensures
        ({
            let step = if fold is And {
                truth(yes(first) && yes(v))
            } else {
                truth(yes(first) || yes(v))
            };
            gated(fold, first, seq![v] + rest) == gated(fold, step, rest)
        }),
{
    Num::law_truth_values(true);
    Num::law_truth_values(false);
    Num::law_zero_is_nothing();
    let all = seq![v] + rest;
    assert(all[0] == v);
    assert forall|i: int| 0 <= i < rest.len() implies all[i + 1] == #[trigger] rest[i] by {}
    assert forall|i: int| 1 <= i < all.len() implies #[trigger] all[i] == rest[i - 1] by {}
    if fold is And {
        if yes(first) && yes(v) && (forall|i: int| 0 <= i < rest.len() ==> yes(#[trigger] rest[i])) {
            assert forall|i: int| 0 <= i < all.len() implies yes(#[trigger] all[i]) by {
                if i > 0 {
                    assert(yes(rest[i - 1]));
                }
            }
        }
        if forall|i: int| 0 <= i < all.len() ==> yes(#[trigger] all[i]) {
            assert(yes(all[0]));
            assert forall|i: int| 0 <= i < rest.len() implies yes(#[trigger] rest[i]) by {
                assert(yes(all[i + 1]));
            }
        }
    } else {
        if exists|i: int| 0 <= i < all.len() && yes(#[trigger] all[i]) {
            let i = choose|i: int| 0 <= i < all.len() && yes(#[trigger] all[i]);
            if i > 0 {
                assert(yes(rest[i - 1]));
            }
        }
        if exists|i: int| 0 <= i < rest.len() && yes(#[trigger] rest[i]) {
            let i = choose|i: int| 0 <= i < rest.len() && yes(#[trigger] rest[i]);
            assert(yes(all[i + 1]));
        }
        if yes(v) {
            assert(yes(all[0]));
        }
    }
}

/// The further inputs of a gate, folded into the value that is there.
proof fn lemma_fold_meaning(
    nodes: Seq<Node>,
    es: Seq<(int, int)>,
    srcs: Seq<int>,
    k: nat,
    open: Seq<int>,
    slot: nat,
    depth: nat,
    host: spec_fn(Work) -> Reply,
    price: Num,
    m: Machine,
    held: Num,
    fold: Op,
)
    requires
        judges_zero(host),
        fold is And || fold is Or,
        0 < k <= srcs.len(),
        depth >= untouched(nodes.len(), open),
        m.stack.len() + needs(nodes, es, srcs.skip(k as int), depth, 1) <= STACK_CAP,
    ensures
        gate_inputs(nodes, es, srcs, k, open, slot, fold) matches Ok((ops, next)) ==> {
            let (values, after, last) = meanings(
                nodes,
                es,
                srcs.skip(k as int),
                depth,
                slot,
                host,
                price,
                m,
            );
            &&& run(host, ops, price, m.pushed(held), 0) == after.pushed(gated(fold, held, values))
            &&& after.stack == m.stack
            &&& after.decision == m.decision
            &&& last == next
        },
    decreases untouched(nodes.len(), open), 1nat, srcs.len() - k,
{
    let left = srcs.skip(k as int);
    if k < srcs.len() && gate_inputs(nodes, es, srcs, k, open, slot, fold) is Ok {
        assert(left[0] == srcs[k as int]);
        assert(left.drop_first() =~= srcs.skip(k as int + 1));
        lemma_need(nodes, es, left[0], depth);
        let (ops, mid) = emitted(nodes, es, srcs[k as int], open, slot)->Ok_0;
        let (rest, next) = gate_inputs(nodes, es, srcs, k + 1, open, mid, fold)->Ok_0;
        let start = m.pushed(held);
        lemma_meaning(nodes, es, srcs[k as int], open, slot, depth, host, price, start);
        lemma_meaning_ignores_the_stack(nodes, es, srcs[k as int], depth, slot, host, price, start, m);
        let r0 = meaning(nodes, es, srcs[k as int], depth, slot, host, price, start);
        let r = meaning(nodes, es, srcs[k as int], depth, slot, host, price, m);
        let step = if fold is And {
            truth(yes(held) && yes(r.value))
        } else {
            truth(yes(held) || yes(r.value))
        };
        let here = ops.push(fold);
        assert(here =~= ops + seq![fold]);
        lemma_run_concat(host, ops, seq![fold], price, start, 0);
        let mid_machine = r0.after.pushed(r.value);
        lemma_run_one(host, fold, price, mid_machine);
        Num::law_zero_is_nothing();
        assert(mid_machine.popped().stack =~= start.stack);
        assert(start.stack.drop_last() =~= m.stack);
        assert(mid_machine.popped().popped() == r.after);
        assert(run(host, here, price, start, 0) == r.after.pushed(step));
        lemma_fold_meaning(
            nodes,
            es,
            srcs,
            k + 1,
            open,
            mid,
            depth,
            host,
            price,
            r.after,
            step,
            fold,
        );
        lemma_run_concat(host, here, rest, price, start, 0);
        let values = meanings(nodes, es, srcs.skip(k as int + 1), depth, r.next, host, price, r.after).0;
        lemma_gated_step(fold, held, r.value, values);
    } else if k == srcs.len() {
        assert(left =~= seq![]);
    }
}

proof fn lemma_gate_meaning(
    nodes: Seq<Node>,
    es: Seq<(int, int)>,
    srcs: Seq<int>,
    open: Seq<int>,
    slot: nat,
    depth: nat,
    host: spec_fn(Work) -> Reply,
    price: Num,
    m: Machine,
    fold: Op,
)
    requires
        judges_zero(host),
        fold is And || fold is Or,
        srcs.len() > 0,
        depth >= untouched(nodes.len(), open),
        m.stack.len() + needs(nodes, es, srcs, depth, 0) <= STACK_CAP,
    ensures
        gate_inputs(nodes, es, srcs, 0, open, slot, fold) matches Ok((ops, next)) ==> {
            let (values, after, last) = meanings(nodes, es, srcs, depth, slot, host, price, m);
            let value = if values.len() == 1 {
                values[0]
            } else if fold is And {
                truth(forall|i: int| 0 <= i < values.len() ==> yes(#[trigger] values[i]))
            } else {
                truth(exists|i: int| 0 <= i < values.len() && yes(#[trigger] values[i]))
            };
            &&& run(host, ops, price, m, 0) == after.pushed(value)
            &&& after.stack == m.stack
            &&& after.decision == m.decision
            &&& last == next
        },
    decreases untouched(nodes.len(), open), 2nat, 0nat,
{
    if gate_inputs(nodes, es, srcs, 0, open, slot, fold) is Ok {
        let (ops, mid) = emitted(nodes, es, srcs[0], open, slot)->Ok_0;
        let (rest, next) = gate_inputs(nodes, es, srcs, 1, open, mid, fold)->Ok_0;
        lemma_meaning(nodes, es, srcs[0], open, slot, depth, host, price, m);
        let r = meaning(nodes, es, srcs[0], depth, slot, host, price, m);
        assert(srcs.drop_first() =~= srcs.skip(1));
        lemma_fold_meaning(
            nodes,
            es,
            srcs,
            1,
            open,
            mid,
            depth,
            host,
            price,
            r.after,
            r.value,
            fold,
        );
        lemma_run_concat(host, ops, rest, price, m, 0);
        let values = meanings(nodes, es, srcs.skip(1), depth, r.next, host, price, r.after).0;
        let all = seq![r.value] + values;
        assert(all[0] == r.value);
        assert forall|i: int| 0 <= i < values.len() implies all[i + 1] == #[trigger] values[i] by {}
        assert forall|i: int| 1 <= i < all.len() implies #[trigger] all[i] == values[i - 1] by {}
        if fold is And {
            if forall|i: int| 0 <= i < all.len() ==> yes(#[trigger] all[i]) {
                assert(yes(all[0]));
                assert forall|i: int| 0 <= i < values.len() implies yes(#[trigger] values[i]) by {
                    assert(yes(all[i + 1]));
                }
            }
        } else {
            if exists|i: int| 0 <= i < values.len() && yes(#[trigger] values[i]) {
                let i = choose|i: int| 0 <= i < values.len() && yes(#[trigger] values[i]);
                assert(yes(all[i + 1]));
            }
            if yes(r.value) {
                assert(yes(all[0]));
            }
        }
    }
}

/// What a node means rests on the indicators alone, not on the stack.
proof fn lemma_meaning_ignores_the_stack(
    nodes: Seq<Node>,
    es: Seq<(int, int)>,
    n: int,
    depth: nat,
    slot: nat,
    host: spec_fn(Work) -> Reply,
    price: Num,
    a: Machine,
    b: Machine,
)
    requires
        a.cells == b.cells,
        a.decision == b.decision,
        a.stack.len() < STACK_CAP,
        b.stack.len() < STACK_CAP,
    ensures
        ({
            let x = meaning(nodes, es, n, depth, slot, host, price, a);
            let y = meaning(nodes, es, n, depth, slot, host, price, b);
            &&& x.value == y.value
            &&& x.next == y.next
            &&& x.after == (Machine { stack: a.stack, ..y.after })
            &&& y.after.stack == b.stack
        }),
    decreases depth, 0nat,
{
    let node = nodes[n];
    let t = node.ntype;
    let srcs = sources(es, n);
    if depth > 0 {
        let less = (depth - 1) as nat;
        if t == "data_source"@ {
        } else if t == "ema"@ {
            let op = Op::Ema { slot: slot as usize, period: size(node, "period"@, 12) };
            lemma_indicator(op, slot, host, price, a);
            lemma_indicator(op, slot, host, price, b);
        } else if t == "momentum"@ {
            let op = Op::Momentum { slot: slot as usize, lookback: size(node, "lookback"@, 16) };
            lemma_indicator(op, slot, host, price, a);
            lemma_indicator(op, slot, host, price, b);
        } else if t == "reversion"@ {
            let op = Op::Reversion { slot: slot as usize, window: size(node, "window"@, 64) };
            lemma_indicator(op, slot, host, price, a);
            lemma_indicator(op, slot, host, price, b);
        } else if srcs.len() == 0 {
        } else if t == "and_gate"@ || t == "or_gate"@ {
            lemma_meanings_ignore_the_stack(nodes, es, srcs, less, slot, host, price, a, b);
        } else {
            lemma_meaning_ignores_the_stack(nodes, es, srcs[0], less, slot, host, price, a, b);
        }
    }
}

proof fn lemma_meanings_ignore_the_stack(
    nodes: Seq<Node>,
    es: Seq<(int, int)>,
    srcs: Seq<int>,
    depth: nat,
    slot: nat,
    host: spec_fn(Work) -> Reply,
    price: Num,
    a: Machine,
    b: Machine,
)
    requires
        a.cells == b.cells,
        a.decision == b.decision,
        a.stack.len() < STACK_CAP,
        b.stack.len() < STACK_CAP,
    ensures
        ({
            let (xs, x, p) = meanings(nodes, es, srcs, depth, slot, host, price, a);
            let (ys, y, q) = meanings(nodes, es, srcs, depth, slot, host, price, b);
            &&& xs == ys
            &&& p == q
            &&& x == (Machine { stack: a.stack, ..y })
            &&& y.stack == b.stack
        }),
    decreases depth, srcs.len(),
{
    if srcs.len() > 0 {
        lemma_meaning_ignores_the_stack(nodes, es, srcs[0], depth, slot, host, price, a, b);
        let x = meaning(nodes, es, srcs[0], depth, slot, host, price, a);
        let y = meaning(nodes, es, srcs[0], depth, slot, host, price, b);
        lemma_meanings_ignore_the_stack(
            nodes,
            es,
            srcs.drop_first(),
            depth,
            x.next,
            host,
            price,
            x.after,
            y.after,
        );
    }
}

/// What a drawing decides on one price, from its `k`-th node on: each signal, in declared
/// order, decides for its side with the value of what is wired into it, where that is true.
pub open spec fn decides(
    g: Graph,
    k: nat,
    slot: nat,
    host: spec_fn(Work) -> Reply,
    price: Num,
    m: Machine,
) -> Machine
    decreases g.nodes.len() - k,
{
    if k >= g.nodes.len() {
        m
    } else if g.nodes[k as int].ntype == "buy_signal"@ || g.nodes[k as int].ntype
        == "sell_signal"@ {
        let n = named(g.nodes, g.nodes[k as int].id)->0;
        let srcs = sources(edges(g), n);
        let r = if srcs.len() == 0 {
            Reading { value: Num { bits: 0 }, after: m, next: slot }
        } else {
            meaning(g.nodes, edges(g), srcs[0], g.nodes.len(), slot, host, price, m)
        };
        let decided = if !yes(r.value) {
            r.after
        } else if g.nodes[k as int].ntype == "buy_signal"@ {
            Machine { decision: VmDecision::Buy(r.value), ..r.after }
        } else {
            Machine { decision: VmDecision::Sell(r.value), ..r.after }
        };
        decides(g, k + 1, r.next, host, price, decided)
    } else {
        decides(g, k + 1, slot, host, price, m)
    }
}

/// What every signal of the graph needs has room on a stack of height `h`.
pub open spec fn has_room(g: Graph, h: nat) -> bool {
    &&& h < STACK_CAP
    &&& forall|j: int|
        0 <= j < g.nodes.len() && is_signal(#[trigger] g.nodes[j]) ==> {
            let srcs = sources(edges(g), named(g.nodes, g.nodes[j].id)->0);
            srcs.len() > 0 ==> h + need(g.nodes, edges(g), srcs[0], g.nodes.len()) <= STACK_CAP
        }
}

proof fn lemma_untouched_bound(len: nat, open: Seq<int>)
    ensures
        untouched(len, open) <= len,
    decreases len,
{
    if len > 0 {
        lemma_untouched_bound((len - 1) as nat, open);
    }
}

proof fn lemma_decides(
    g: Graph,
    k: nat,
    slot: nat,
    host: spec_fn(Work) -> Reply,
    price: Num,
    m: Machine,
)
    requires
        judges_zero(host),
        has_room(g, m.stack.len()),
    ensures
        terminals(g, k, slot) matches Ok((ops, next)) ==> run(host, ops, price, m, 0) == decides(
            g,
            k,
            slot,
            host,
            price,
            m,
        ),
    decreases g.nodes.len() - k,
{
    if k < g.nodes.len() && terminals(g, k, slot) is Ok {
        let node = g.nodes[k as int];
        if is_signal(node) {
            let es = edges(g);
            let n = named(g.nodes, node.id)->0;
            let srcs = sources(es, n);
            let (ops, mid) = single_input(g.nodes, es, n, seq![], slot)->Ok_0;
            let op = if node.ntype == "buy_signal"@ {
                Op::Buy
            } else {
                Op::Sell
            };
            let (rest, next) = terminals(g, k + 1, mid)->Ok_0;
            let r = if srcs.len() == 0 {
                Reading { value: Num { bits: 0 }, after: m, next: slot }
            } else {
                meaning(g.nodes, es, srcs[0], g.nodes.len(), slot, host, price, m)
            };
            if srcs.len() == 0 {
                lemma_run_one(host, Op::PushConst(Num::zero()), price, m);
            } else {
                lemma_untouched_bound(g.nodes.len(), seq![]);
                lemma_need(g.nodes, es, srcs[0], g.nodes.len());
                lemma_meaning(
                    g.nodes,
                    es,
                    srcs[0],
                    seq![],
                    slot,
                    g.nodes.len(),
                    host,
                    price,
                    m,
                );
            }
            let there = r.after.pushed(r.value);
            assert(run(host, ops, price, m, 0) == there);
            let here = ops.push(op);
            assert(here =~= ops + seq![op]);
            lemma_run_concat(host, ops, seq![op], price, m, 0);
            lemma_run_one(host, op, price, there);
            Num::law_zero_is_nothing();
            assert(there.popped().stack =~= m.stack);
            let decided = run(host, here, price, m, 0);
            lemma_decides(g, k + 1, mid, host, price, decided);
            lemma_run_concat(host, here, rest, price, m, 0);
        } else {
            lemma_decides(g, k + 1, slot, host, price, m);
        }
    }
}

/// A compiled program does on every price what its drawing means: it leaves the decision,
/// the indicators and the stack just as the signals of the drawing do, one after the other,
/// wherever the stack has the room that they need.
pub proof fn law_programs_mean_their_graphs(
    g: Graph,
    host: spec_fn(Work) -> Reply,
    price: Num,
    m: Machine,
)
    requires
        judges_zero(host),
        has_room(g, m.stack.len()),
        compiled(g) is Ok,
    ensures
        run(host, compiled(g)->Ok_0, price, m, 0) == decides(g, 0, 0, host, price, m),
{
    lemma_decides(g, 0, 0, host, price, m);
}

/// The inputs of a node are the sources of the wires that end in it, in the order of the
/// wires.
pub proof fn law_inputs_are_the_wires(
    a: Seq<(int, int)>,
    b: Seq<(int, int)>,
    from: int,
    to: int,
    n: int,
)
    ensures
        sources(a + b, n) == sources(a, n) + sources(b, n),
        sources(seq![(from, n)], n) == seq![from],
        to != n ==> sources(seq![(from, to)], n) == Seq::<int>::empty(),
    decreases b.len(),
{
    reveal_with_fuel(sources, 2);
    let one = seq![(from, n)];
    let other = seq![(from, to)];
    assert(one.drop_last() =~= seq![]);
    assert(other.drop_last() =~= seq![]);
    assert(sources(one, n) =~= seq![from]);
    if b.len() == 0 {
        assert(a + b =~= a);
        assert(sources(a, n) + sources(b, n) =~= sources(a, n));
    } else {
        law_inputs_are_the_wires(a, b.drop_last(), from, to, n);
        assert((a + b).drop_last() =~= a + b.drop_last());
        assert(sources(a + b, n) =~= sources(a, n) + sources(b, n));
    }
}

/// No node from the `k`-th on has this id.
pub open spec fn unnamed_from(nodes: Seq<Node>, id: Seq<char>, k: int) -> bool {
    forall|j: int| k <= j < nodes.len() ==> (#[trigger] nodes[j]).id != id
}

/// An id names the last node that has it, and nothing where none has.
pub proof fn law_ids_name_the_last_node(nodes: Seq<Node>, id: Seq<char>)
    ensures
        match named(nodes, id) {
            Some(n) => 0 <= n < nodes.len() && nodes[n].id == id && unnamed_from(nodes, id, n + 1),
            None => unnamed_from(nodes, id, 0),
        },
    decreases nodes.len(),
{
    if nodes.len() > 0 {
        let front = nodes.drop_last();
        law_ids_name_the_last_node(front, id);
        assert forall|j: int| 0 <= j < front.len() implies #[trigger] nodes[j] == front[j] by {}
        if nodes.last().id != id {
            let from = match named(front, id) {
                Some(n) => n + 1,
                None => 0,
            };
            assert forall|j: int| from <= j < nodes.len() implies (#[trigger] nodes[j]).id != id by {
                if j < front.len() {
                    assert(front[j].id != id);
                }
            }
        }
    }
}

/// The `i`-th connection has an end under this id, and no node has.
pub open spec fn stray_in(g: Graph, i: int, id: Seq<char>) -> bool {
    &&& 0 <= i < g.connections.len()
    &&& g.connections[i].0 == id || g.connections[i].1 == id
    &&& unnamed_from(g.nodes, id, 0)
}

/// Some connection has an end under this id, and no node has.
pub open spec fn is_stray(g: Graph, id: Seq<char>) -> bool {
    exists|i: int| #[trigger] stray_in(g, i, id)
}

/// A connection that ends nowhere is found wherever it stands, and only where there is one.
pub proof fn law_stray_ends_are_found(g: Graph, i: int, id: Seq<char>)
    ensures
        stray_in(g, i, id) ==> stray_end(g, 0) is Some && compiled(g) matches Err(
            Fault::UnknownNode(_),
        ),
        stray_end(g, 0) is Some ==> is_stray(g, stray_end(g, 0)->0),
{
    lemma_stray(g, 0, i, id);
}

proof fn lemma_stray(g: Graph, k: nat, i: int, id: Seq<char>)
    ensures
        stray_in(g, i, id) && k <= i ==> stray_end(g, k) is Some,
        stray_end(g, k) is Some ==> is_stray(g, stray_end(g, k)->0),
    decreases g.connections.len() - k,
{
    if k < g.connections.len() {
        let (from, to) = g.connections[k as int];
        law_ids_name_the_last_node(g.nodes, from);
        law_ids_name_the_last_node(g.nodes, to);
        lemma_stray(g, k + 1, i, id);
        if named(g.nodes, from) is None {
            assert(stray_in(g, k as int, from));
            assert(stray_end(g, k) == Some(from));
        } else if named(g.nodes, to) is None {
            assert(stray_in(g, k as int, to));
            assert(stray_end(g, k) == Some(to));
        } else {
            assert(stray_end(g, k) == stray_end(g, k + 1));
        }
        if stray_in(g, i, id) && i == k {
            if id == from {
                assert(named(g.nodes, from) is None) by {
                    if let Some(n) = named(g.nodes, from) {
                        assert(g.nodes[n].id == from);
                    }
                }
            } else {
                assert(named(g.nodes, to) is None) by {
                    if let Some(n) = named(g.nodes, to) {
                        assert(g.nodes[n].id == to);
                    }
                }
            }
        }
    }
}

/// A wire joins the nodes that the ends of its connection name, from the first to the
/// second, each the last node under its id.
pub proof fn law_wires_join_named_nodes(g: Graph, i: int)
    requires
        stray_end(g, 0) is None,
        0 <= i < g.connections.len(),
    ensures
        ({
            let (a, b) = edges(g)[i];
            &&& edges(g).len() == g.connections.len()
            &&& 0 <= a < g.nodes.len() && g.nodes[a].id == g.connections[i].0
            &&& 0 <= b < g.nodes.len() && g.nodes[b].id == g.connections[i].1
            &&& unnamed_from(g.nodes, g.connections[i].0, a + 1)
            &&& unnamed_from(g.nodes, g.connections[i].1, b + 1)
        }),
{
    let (from, to) = g.connections[i];
    law_ids_name_the_last_node(g.nodes, from);
    law_ids_name_the_last_node(g.nodes, to);
    if named(g.nodes, from) is None {
        lemma_stray(g, 0, i, from);
        assert(stray_in(g, i, from));
    }
    if named(g.nodes, to) is None {
        lemma_stray(g, 0, i, to);
        assert(stray_in(g, i, to));
    }
}

/// The words of the node types.
pub open spec fn is_known(t: Seq<char>) -> bool {
    ||| t == "data_source"@
    ||| t == "ema"@
    ||| t == "momentum"@
    ||| t == "reversion"@
    ||| t == "condition"@
    ||| t == "and_gate"@
    ||| t == "or_gate"@
    ||| t == "buy_signal"@
    ||| t == "sell_signal"@
}

/// The walk comes back to where it began.
pub open spec fn comes_back(nodes: Seq<Node>, es: Seq<(int, int)>, p: Seq<int>) -> bool {
    walks(nodes, es, p) && p.len() > 1 && p[0] == p.last()
}

/// The fault is there to see: a connection to no node, a node of no known type, a node that
/// takes one input and has this many, or a way round in a circle. A node takes one input
/// that is no gate, or that bears the id of a signal.
pub open spec fn is_there(g: Graph, f: Fault) -> bool {
    match f {
        Fault::UnknownNode(id) => is_stray(g, id),
        Fault::UnknownType(t) => !is_known(t) && exists|n: int|
            0 <= n < g.nodes.len() && (#[trigger] g.nodes[n]).ntype == t,
        Fault::TooManyInputs { node, ntype, got } => {
            &&& got > 1
            &&& ntype != "and_gate"@ && ntype != "or_gate"@ || exists|j: int|
                0 <= j < g.nodes.len() && is_signal(#[trigger] g.nodes[j]) && g.nodes[j].id == node
            &&& exists|n: int|
                0 <= n < g.nodes.len() && (#[trigger] g.nodes[n]).id == node && g.nodes[n].ntype
                    == ntype && sources(edges(g), n).len() == got
        },
        Fault::Cycle => exists|p: Seq<int>| #[trigger] comes_back(g.nodes, edges(g), p),
    }
}

/// The wires start at nodes.
spec fn wired(g: Graph) -> bool {
    forall|n: int, i: int|
        #![trigger sources(edges(g), n)[i]]
        0 <= i < sources(edges(g), n).len() ==> 0 <= sources(edges(g), n)[i] < g.nodes.len()
}

proof fn lemma_sources_within(es: Seq<(int, int)>, n: int, len: nat)
    requires
        forall|i: int| 0 <= i < es.len() ==> 0 <= (#[trigger] es[i]).0 < len,
    ensures
        forall|i: int|
            0 <= i < sources(es, n).len() ==> 0 <= #[trigger] sources(es, n)[i] < len,
    decreases es.len(),
{
    if es.len() > 0 {
        assert forall|i: int| 0 <= i < es.drop_last().len() implies 0 <= (
        #[trigger] es.drop_last()[i]).0 < len by {
            assert(es.drop_last()[i] == es[i]);
        }
        lemma_sources_within(es.drop_last(), n, len);
        let front = sources(es.drop_last(), n);
        let all = sources(es, n);
        assert forall|i: int| 0 <= i < all.len() implies 0 <= #[trigger] all[i] < len by {
            if i < front.len() {
                assert(all[i] == front[i]);
            } else {
                assert(all[i] == es[es.len() - 1].0);
            }
        }
    }
}

proof fn lemma_wired(g: Graph)
    requires
        stray_end(g, 0) is None,
    ensures
        wired(g),
{
    let es = edges(g);
    assert forall|i: int| 0 <= i < es.len() implies 0 <= (#[trigger] es[i]).0 < g.nodes.len() by {
        law_wires_join_named_nodes(g, i);
    }
    assert forall|n: int, i: int|
        #![trigger sources(es, n)[i]]
        0 <= i < sources(es, n).len() implies 0 <= sources(es, n)[i] < g.nodes.len() by {
        lemma_sources_within(es, n, g.nodes.len());
    }
}

proof fn lemma_walk_on(g: Graph, way: Seq<int>, src: int)
    requires
        way.len() > 0,
        walks(g.nodes, edges(g), way),
        0 <= way.last() < g.nodes.len(),
        reads_inputs(g.nodes[way.last()]),
        sources(edges(g), way.last()).contains(src),
    ensures
        walks(g.nodes, edges(g), way.push(src)),
{
    let p = way.push(src);
    assert forall|i: int| 0 <= i < p.len() - 1 implies ({
        let n = #[trigger] p[i];
        &&& 0 <= n < g.nodes.len()
        &&& reads_inputs(g.nodes[n])
        &&& sources(edges(g), n).contains(p[i + 1])
    }) by {
        assert(p[i] == way[i]);
        if i + 1 < way.len() {
            assert(p[i + 1] == way[i + 1]);
        }
    }
}

proof fn lemma_emitted_fault(g: Graph, n: int, open: Seq<int>, slot: nat)
    requires
        wired(g),
        0 <= n < g.nodes.len(),
        walks(g.nodes, edges(g), open.push(n)),
    ensures
        emitted(g.nodes, edges(g), n, open, slot) matches Err(f) ==> is_there(g, f),
    decreases untouched(g.nodes.len(), open), 0nat, 0nat,
{
    let es = edges(g);
    let way = open.push(n);
    lemma_words();
    if open.contains(n) {
        let k = open.index_of(n);
        let p = way.skip(k);
        assert(comes_back(g.nodes, es, p)) by {
            assert(p[0] == way[k]);
            assert forall|i: int| 0 <= i < p.len() - 1 implies ({
                let x = #[trigger] p[i];
                &&& 0 <= x < g.nodes.len()
                &&& reads_inputs(g.nodes[x])
                &&& sources(es, x).contains(p[i + 1])
            }) by {
                assert(p[i] == way[k + i]);
                assert(p[i + 1] == way[k + i + 1]);
            }
        }
    } else {
        lemma_untouched_push(g.nodes.len(), open, n);
        let t = g.nodes[n].ntype;
        if t == "condition"@ || is_signal(g.nodes[n]) {
            lemma_input_fault(g, n, way, slot);
        } else if t == "and_gate"@ {
            lemma_gate_fault(g, n, 0, way, slot, Op::And);
        } else if t == "or_gate"@ {
            lemma_gate_fault(g, n, 0, way, slot, Op::Or);
        }
        assert(g.nodes[n].id == g.nodes[n].id);
    }
}

proof fn lemma_input_fault(g: Graph, n: int, way: Seq<int>, slot: nat)
    requires
        wired(g),
        0 <= n < g.nodes.len(),
        g.nodes[n].ntype == "condition"@ || is_signal(g.nodes[n]),
        way.len() == 0 || way.last() == n,
        walks(g.nodes, edges(g), way),
    ensures
        single_input(g.nodes, edges(g), n, way, slot) matches Err(f) ==> is_there(g, f),
    decreases untouched(g.nodes.len(), way), 1nat, 0nat,
{
    let es = edges(g);
    let srcs = sources(es, n);
    lemma_words();
    if srcs.len() == 1 {
        assert(0 <= srcs[0] < g.nodes.len());
        if way.len() > 0 {
            assert(srcs.contains(srcs[0]));
            lemma_walk_on(g, way, srcs[0]);
        }
        lemma_emitted_fault(g, srcs[0], way, slot);
    }
    assert(g.nodes[n].id == g.nodes[n].id);
}

proof fn lemma_gate_fault(g: Graph, n: int, k: nat, way: Seq<int>, slot: nat, fold: Op)
    requires
        wired(g),
        0 <= n < g.nodes.len(),
        reads_inputs(g.nodes[n]),
        way.len() > 0 && way.last() == n,
        walks(g.nodes, edges(g), way),
    ensures
        gate_inputs(g.nodes, edges(g), sources(edges(g), n), k, way, slot, fold) matches Err(f)
            ==> is_there(g, f),
    decreases untouched(g.nodes.len(), way), 1nat, sources(edges(g), n).len() - k,
{
    let es = edges(g);
    let srcs = sources(es, n);
    if k < srcs.len() {
        assert(0 <= srcs[k as int] < g.nodes.len());
        assert(srcs.contains(srcs[k as int]));
        lemma_walk_on(g, way, srcs[k as int]);
        lemma_emitted_fault(g, srcs[k as int], way, slot);
        if let Ok((ops, mid)) = emitted(g.nodes, es, srcs[k as int], way, slot) {
            lemma_gate_fault(g, n, k + 1, way, mid, fold);
        }
    }
}

proof fn lemma_terminals_fault(g: Graph, k: nat, slot: nat)
    requires
        wired(g),
    ensures
        terminals(g, k, slot) matches Err(f) ==> is_there(g, f),
    decreases g.nodes.len() - k,
{
    if k < g.nodes.len() {
        let node = g.nodes[k as int];
        if is_signal(node) {
            law_ids_name_the_last_node(g.nodes, node.id);
            let n = named(g.nodes, node.id)->0;
            lemma_terminal_fault(g, k as int, n, slot);
            if let Ok((ops, mid)) = single_input(g.nodes, edges(g), n, seq![], slot) {
                lemma_terminals_fault(g, k + 1, mid);
            }
        } else {
            lemma_terminals_fault(g, k + 1, slot);
        }
    }
}

/// What feeds a signal, under the node that its id names.
proof fn lemma_terminal_fault(g: Graph, j: int, n: int, slot: nat)
    requires
        wired(g),
        0 <= n < g.nodes.len(),
        0 <= j < g.nodes.len(),
        is_signal(g.nodes[j]),
        g.nodes[j].id == g.nodes[n].id,
    ensures
        single_input(g.nodes, edges(g), n, seq![], slot) matches Err(f) ==> is_there(g, f),
{
    let srcs = sources(edges(g), n);
    let none: Seq<int> = seq![];
    if srcs.len() == 1 {
        assert(0 <= srcs[0] < g.nodes.len());
        lemma_emitted_fault(g, srcs[0], none, slot);
    }
    assert(g.nodes[n].id == g.nodes[n].id);
}

/// A graph is rejected for a fault that it has, and the error names it: so a graph with no
/// stray connection, no unknown type, no ambiguity and no circle compiles.
pub proof fn law_only_faulty_graphs_are_rejected(g: Graph)
    ensures
        compiled(g) matches Err(f) ==> is_there(g, f),
{
    if let Some(id) = stray_end(g, 0) {
        law_stray_ends_are_found(g, 0, id);
        assert(compiled(g) == Err::<Seq<Op>, Fault>(Fault::UnknownNode(id)));
    } else {
        lemma_wired(g);
        lemma_terminals_fault(g, 0, 0);
    }
}

/// The text under a key of an object, or an empty one where there is none.
pub open spec fn text_under(m: Seq<(Seq<char>, Value)>, key: Seq<char>, t: Seq<char>) -> bool {
    match lookup(m, key) {
        Some(Value::Str(s)) => t == s,
        _ => t.len() == 0,
    }
}

/// What an entry more changes: a name without an entry gets one, and every other name keeps
/// what it stands for.
proof fn lemma_lookup_push<V>(m: Seq<(Seq<char>, V)>, e: (Seq<char>, V), key: Seq<char>)
    ensures
        lookup(m.push(e), key) == if lookup(m, key) is Some {
            lookup(m, key)
        } else if e.0 == key {
            Some(e.1)
        } else {
            None
        },
{
    let all = m.push(e);
    law_lookups_give_the_first_entry(m, key, e.1);
    lemma_key_index(m, key);
    let k = key_index(m, key) as int;
    assert forall|j: int| 0 <= j < m.len() implies #[trigger] all[j] == m[j] by {}
    if lookup(m, key) is Some {
        assert(all[k] == m[k]);
        assert forall|j: int| 0 <= j < k implies (#[trigger] all[j]).0 != key by {
            assert(m[j].0 != key);
        }
        lemma_key_index_is(all, key, k);
    } else if e.0 == key {
        assert(all[m.len() as int] == e);
        assert forall|j: int| 0 <= j < m.len() implies (#[trigger] all[j]).0 != key by {
            assert(m[j].0 != key);
        }
        lemma_key_index_is(all, key, m.len() as int);
    } else {
        assert forall|j: int| 0 <= j < all.len() implies (#[trigger] all[j]).0 != key by {
            if j < m.len() {
                assert(m[j].0 != key);
            } else {
                assert(all[j] == e);
            }
        }
        lemma_key_index_is(all, key, all.len() as int);
    }
}

/// A property that is a number is one of the node's numbers, with the value that was given
/// for how it is written; a property that is a string is one of its strings; any other is
/// neither.
pub proof fn law_properties_are_read_by_kind(
    ps: Seq<(Seq<char>, Value)>,
    key: Seq<char>,
    numbers: Seq<(Seq<char>, Num)>,
)
    requires
        distinct_keys(ps),
    ensures
        ({
            let nums = valued(numeric_properties(ps), numbers);
            let strs = string_properties(ps);
            match lookup(ps, key) {
                Some(Value::Num(t)) => lookup(nums, key) == Some(lookup(numbers, t)->0) && lookup(
                    strs,
                    key,
                ) is None,
                Some(Value::Str(x)) => lookup(strs, key) == Some(x) && lookup(nums, key) is None,
                _ => lookup(nums, key) is None && lookup(strs, key) is None,
            }
        }),
    decreases ps.len(),
{
    let nums = valued(numeric_properties(ps), numbers);
    let strs = string_properties(ps);
    if ps.len() == 0 {
        assert(nums =~= seq![]);
        assert(strs =~= seq![]);
    } else {
        let front = ps.drop_last();
        let e = ps.last();
        assert forall|i: int, j: int|
            #![trigger front[i], front[j]]
            0 <= i < j < front.len() implies front[i].0 != front[j].0 by {
            assert(ps[i].0 != ps[j].0);
        }
        law_properties_are_read_by_kind(front, key, numbers);
        assert(ps =~= front.push(e));
        lemma_lookup_push(front, e, key);
        let nums0 = valued(numeric_properties(front), numbers);
        let strs0 = string_properties(front);
        if e.0 == key {
            law_lookups_give_the_first_entry(front, key, e.1);
            assert(lookup(front, key) is None) by {
                assert forall|j: int| 0 <= j < front.len() implies (#[trigger] front[j]).0 != key by {
                    assert(ps[j].0 != ps[ps.len() - 1].0);
                }
            }
        }
        match e.1 {
            Value::Num(t) => {
                let x = lookup(numbers, t)->0;
                assert(nums =~= nums0.push((e.0, x)));
                lemma_lookup_push(nums0, (e.0, x), key);
            },
            Value::Str(t) => {
                lemma_lookup_push(strs0, (e.0, t), key);
            },
            _ => {},
        }
    }
}

/// Every element of the drawing's node list is a node, in order, with the id and the type
/// that stand under those names, and with the properties that stand under theirs.
pub proof fn law_nodes_are_read_as_drawn(
    c: Seq<(Seq<char>, Value)>,
    a: Seq<Value>,
    i: int,
    m: Seq<(Seq<char>, Value)>,
    numbers: Seq<(Seq<char>, Num)>,
)
    requires
        lookup(c, "nodes"@) == Some(Value::Arr(a)),
        0 <= i < a.len(),
        a[i] == Value::Obj(m),
    ensures
        ({
            let nodes = graph_of(Value::Obj(c), numbers).nodes;
            &&& nodes.len() == a.len()
            &&& text_under(m, "id"@, nodes[i].id)
            &&& text_under(m, "type"@, nodes[i].ntype)
            &&& lookup(m, "properties"@) matches Some(Value::Obj(ps)) ==> {
                &&& nodes[i].nums == valued(numeric_properties(ps), numbers)
                &&& nodes[i].strs == string_properties(ps)
            }
            &&& lookup(m, "properties"@) is None ==> {
                &&& nodes[i].nums.len() == 0
                &&& nodes[i].strs.len() == 0
            }
        }),
{
    let nodes = graph_of(Value::Obj(c), numbers).nodes;
    assert(nodes[i] == node_of(a[i], numbers));
}

/// A drawing without a node list, or with something else in its place, has no nodes; the
/// same goes for its connections.
pub proof fn law_missing_lists_are_empty(canvas: Value, numbers: Seq<(Seq<char>, Num)>)
    ensures
        !(canvas is Obj) ==> graph_of(canvas, numbers).nodes.len() == 0 && graph_of(
            canvas,
            numbers,
        ).connections.len() == 0,
        canvas matches Value::Obj(c) ==> {
            &&& !(lookup(c, "nodes"@) matches Some(Value::Arr(_))) ==> graph_of(
                canvas,
                numbers,
            ).nodes.len() == 0
            &&& !(lookup(c, "connections"@) matches Some(Value::Arr(_))) ==> graph_of(
                canvas,
                numbers,
            ).connections.len() == 0
        },
{
}

/// The connections of a drawing are those of its list, in order, from what stands under one
/// name to what stands under the other; one that lacks an end is none.
pub proof fn law_connections_are_read_as_drawn(
    c: Seq<(Seq<char>, Value)>,
    list: Seq<Value>,
    numbers: Seq<(Seq<char>, Num)>,
    a: Seq<Value>,
    b: Seq<Value>,
    m: Seq<(Seq<char>, Value)>,
    from: Seq<char>,
    to: Seq<char>,
)
    requires
        lookup(c, "connections"@) == Some(Value::Arr(list)),
        text_under(m, "from"@, from),
        text_under(m, "to"@, to),
    ensures
        graph_of(Value::Obj(c), numbers).connections == connections_of(list),
        connections_of(a + b) == connections_of(a) + connections_of(b),
        connections_of(seq![Value::Obj(m)]) == if from.len() > 0 && to.len() > 0 {
            seq![(from, to)]
        } else {
            seq![]
        },
    decreases b.len(),
{
    reveal_with_fuel(connections_of, 2);
    let one = seq![Value::Obj(m)];
    assert(one.drop_last() =~= seq![]);
    assert(crate::compiler::text_member(Value::Obj(m), "from"@) =~= from);
    assert(crate::compiler::text_member(Value::Obj(m), "to"@) =~= to);
    if from.len() > 0 && to.len() > 0 {
        assert(connections_of(one) =~= seq![(from, to)]);
    }
    if b.len() == 0 {
        assert(a + b =~= a);
        assert(connections_of(a) + connections_of(b) =~= connections_of(a));
    } else {
        law_connections_are_read_as_drawn(c, list, numbers, a, b.drop_last(), m, from, to);
        assert((a + b).drop_last() =~= a + b.drop_last());
        assert(connections_of(a + b) =~= connections_of(a) + connections_of(b));
    }
}

/// The drawing is what stands under its name in the text; a text without it is refused.
pub proof fn law_the_canvas_is_the_drawing(json: Seq<char>)
    ensures
        match value_at(encode_utf8(json), 0) {
            Err(e) => canvas_of(json) == Err::<Value, Seq<char>>(e),
            Ok((Value::Obj(m), _)) => match lookup(m, "canvas"@) {
                Some(c) => canvas_of(json) == Ok::<Value, Seq<char>>(c),
                None => canvas_of(json) == Err::<Value, Seq<char>>("missing canvas"@),
            },
            Ok(_) => canvas_of(json) == Err::<Value, Seq<char>>("missing canvas"@),
        },
{
}

/// The numerals of a drawing are those of its nodes, one node after the other, and of a node
/// those of its properties that are numbers, in order.
pub proof fn law_numerals_are_those_of_the_properties(
    a: Seq<Value>,
    b: Seq<Value>,
    v: Value,
    x: Seq<(Seq<char>, Value)>,
    y: Seq<(Seq<char>, Value)>,
    key: Seq<char>,
    t: Seq<char>,
)
    ensures
        written_numbers(a + b) == written_numbers(a) + written_numbers(b),
        written_numbers(seq![v]) == numeric_properties(properties(v)).map_values(
            |e: (Seq<char>, Seq<char>)| e.1,
        ),
        numeric_properties(x + y) == numeric_properties(x) + numeric_properties(y),
        numeric_properties(seq![(key, Value::Num(t))]) == seq![(key, t)],
        !(v is Num) ==> numeric_properties(seq![(key, v)]).len() == 0,
    decreases b.len() + y.len(),
{
    reveal_with_fuel(written_numbers, 2);
    reveal_with_fuel(numeric_properties, 2);
    assert(seq![v].drop_last() =~= seq![]);
    assert(seq![(key, Value::Num(t))].drop_last() =~= seq![]);
    assert(seq![(key, v)].drop_last() =~= seq![]);
    let pick = |e: (Seq<char>, Seq<char>)| e.1;
    assert(written_numbers(seq![v]) =~= numeric_properties(properties(v)).map_values(pick));
    assert(numeric_properties(seq![(key, Value::Num(t))]) =~= seq![(key, t)]);
    if b.len() == 0 {
        assert(a + b =~= a);
        assert(written_numbers(a) + written_numbers(b) =~= written_numbers(a));
    } else {
        law_numerals_are_those_of_the_properties(a, b.drop_last(), v, x, y, key, t);
        assert((a + b).drop_last() =~= a + b.drop_last());
        assert(written_numbers(a + b) =~= written_numbers(a) + written_numbers(b));
    }
    if y.len() == 0 {
        assert(x + y =~= x);
        assert(numeric_properties(x) + numeric_properties(y) =~= numeric_properties(x));
    } else {
        law_numerals_are_those_of_the_properties(a, b, v, x, y.drop_last(), key, t);
        assert((x + y).drop_last() =~= x + y.drop_last());
        assert(numeric_properties(x + y) =~= numeric_properties(x) + numeric_properties(y));
    }
}

} // verus!
