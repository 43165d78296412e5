//! Compiles a strategy graph (nodes and connections) into a flat bytecode program for
//! [`crate::bytecode::Vm`].
//!
//! The graph JSON looks like:
//! ```json
//! { "canvas": { "nodes": [ {"id","type","properties":{...}}, ... ],
//!               "connections": [ {"from","to"}, ... ] } }
//! ```
//! Each terminal signal node's input sub-graph is emitted in dependency order: a node's
//! inputs come before the node itself, so operands land on the stack before the
//! operator that consumes them. Ambiguous graphs are rejected, never trimmed.

use crate::bytecode::{is_near_zero, near_zero, Op};
use crate::entries::{keyed, lemma_same_keys, lookup, position, text_pairs};
use crate::json::{all_views, entry_views, value_at, Json, Value};
use crate::num::Num;
use crate::text::{decimal, is_word, push_decimal};
use vstd::prelude::*;
use vstd::string::StringExecFns;
use vstd::utf8::encode_utf8;

verus! {

/// A parsed graph node. A property name occurs once; where it does not, its first entry
/// counts.
#[derive(Debug, Clone)]
pub struct GNode {
    pub id: String,
    pub ntype: String,
    /// Numeric properties (period, lookback, window, value).
    pub nums: Vec<(String, Num)>,
    /// String properties (op).
    pub strs: Vec<(String, String)>,
}

/// A parsed graph: nodes plus directed `from -> to` connections.
#[derive(Debug, Clone)]
pub struct GraphSpec {
    pub nodes: Vec<GNode>,
    pub connections: Vec<(String, String)>,
}

/// A node as mathematics.
#[verifier::ext_equal]
pub struct Node {
    pub id: Seq<char>,
    pub ntype: Seq<char>,
    pub nums: Seq<(Seq<char>, Num)>,
    pub strs: Seq<(Seq<char>, Seq<char>)>,
}

/// A graph as mathematics.
#[verifier::ext_equal]
pub struct Graph {
    pub nodes: Seq<Node>,
    pub connections: Seq<(Seq<char>, Seq<char>)>,
}

pub open spec fn node_views(s: Seq<GNode>) -> Seq<Node> {
    Seq::new(s.len(), |i: int| s[i]@)
}

impl GNode {
    pub open spec fn view(&self) -> Node {
        Node {
            id: self.id@,
            ntype: self.ntype@,
            nums: keyed(self.nums@),
            strs: text_pairs(self.strs@),
        }
    }
}

impl GraphSpec {
    pub open spec fn view(&self) -> Graph {
        Graph {
            nodes: node_views(self.nodes@),
            connections: text_pairs(self.connections@),
        }
    }
}

impl Default for GraphSpec {
    fn default() -> (r: Self)
        ensures
            r@.nodes.len() == 0,
            r@.connections.len() == 0,
    {
        GraphSpec { nodes: Vec::new(), connections: Vec::new() }
    }
}

/// Why a graph does not compile.
#[derive(Debug)]
pub enum CompileError {
    Cycle,
    UnknownNode(String),
    UnknownType(String),
    /// A node that produces a single value has more than one input wired: the graph is
    /// ambiguous. Combine the inputs through a logic gate instead. No input is ever
    /// dropped to make a graph compile.
    TooManyInputs { node: String, ntype: String, got: usize },
}

/// A compile error as mathematics.
#[verifier::ext_equal]
pub enum Fault {
    Cycle,
    UnknownNode(Seq<char>),
    UnknownType(Seq<char>),
    TooManyInputs { node: Seq<char>, ntype: Seq<char>, got: nat },
}

impl CompileError {
    pub open spec fn view(&self) -> Fault {
        match self {
            CompileError::Cycle => Fault::Cycle,
            CompileError::UnknownNode(id) => Fault::UnknownNode(id@),
            CompileError::UnknownType(t) => Fault::UnknownType(t@),
            CompileError::TooManyInputs { node, ntype, got } => Fault::TooManyInputs {
                node: node@,
                ntype: ntype@,
                got: *got as nat,
            },
        }
    }

    /// The error in words.
    pub fn message(&self) -> (r: String)
        ensures
            r@ == match self@ {
                Fault::Cycle => "strategy graph has a cycle"@,
                Fault::UnknownNode(id) => "connection references unknown node "@ + id,
                Fault::UnknownType(t) => "unknown node type "@ + t,
                Fault::TooManyInputs { node, ntype, got } => ntype + " node '"@ + node
                    + "' has "@ + decimal(got)
                    + " inputs but takes one; combine inputs with a gate"@,
            },
    {
        let mut out = String::new();
        match self {
            CompileError::Cycle => out.append("strategy graph has a cycle"),
            CompileError::UnknownNode(id) => {
                out.append("connection references unknown node ");
                out.append(id.as_str());
            },
            CompileError::UnknownType(t) => {
                out.append("unknown node type ");
                out.append(t.as_str());
            },
            CompileError::TooManyInputs { node, ntype, got } => {
                out.append(ntype.as_str());
                out.append(" node '");
                out.append(node.as_str());
                out.append("' has ");
                push_decimal(&mut out, *got as u64);
                out.append(" inputs but takes one; combine inputs with a gate");
            },
        }
        assert(out@ =~= match self@ {
            Fault::Cycle => "strategy graph has a cycle"@,
            Fault::UnknownNode(id) => "connection references unknown node "@ + id,
            Fault::UnknownType(t) => "unknown node type "@ + t,
            Fault::TooManyInputs { node, ntype, got } => ntype + " node '"@ + node + "' has "@
                + decimal(got) + " inputs but takes one; combine inputs with a gate"@,
        });
        out
    }
}

/// The node that an id names: the last one declared under it.
pub open spec fn named(nodes: Seq<Node>, id: Seq<char>) -> Option<int>
    decreases nodes.len(),
{
    if nodes.len() == 0 {
        None
    } else if nodes.last().id == id {
        Some(nodes.len() - 1)
    } else {
        named(nodes.drop_last(), id)
    }
}

/// The first end of a connection, from the `k`-th connection on, that names no node.
pub open spec fn stray_end(g: Graph, k: nat) -> Option<Seq<char>>
    decreases g.connections.len() - k,
{
    if k >= g.connections.len() {
        None
    } else {
        let (from, to) = g.connections[k as int];
        if named(g.nodes, from) is None {
            Some(from)
        } else if named(g.nodes, to) is None {
            Some(to)
        } else {
            stray_end(g, k + 1)
        }
    }
}

/// The connections, by the nodes that their ends name.
pub open spec fn edges(g: Graph) -> Seq<(int, int)> {
    Seq::new(
        g.connections.len(),
        |i: int|
            (named(g.nodes, g.connections[i].0)->0, named(g.nodes, g.connections[i].1)->0),
    )
}

/// The nodes wired into node `n`, in connection order.
pub open spec fn sources(es: Seq<(int, int)>, n: int) -> Seq<int>
    decreases es.len(),
{
    if es.len() == 0 {
        seq![]
    } else if es.last().1 == n {
        sources(es.drop_last(), n).push(es.last().0)
    } else {
        sources(es.drop_last(), n)
    }
}

/// How many of the first `len` nodes are not in `open`.
pub open spec fn untouched(len: nat, open: Seq<int>) -> nat
    decreases len,
{
    if len == 0 {
        0
    } else {
        untouched((len - 1) as nat, open) + if open.contains(len - 1) {
            0nat
        } else {
            1nat
        }
    }
}

/// A numeric property cut down to a whole number, or its default.
pub open spec fn whole_property(node: Node, key: Seq<char>, default: usize) -> usize {
    match lookup(node.nums, key) {
        Some(v) => if v.whole() <= usize::MAX {
            v.whole() as usize
        } else {
            usize::MAX
        },
        None => default,
    }
}

/// The threshold of a condition.
pub open spec fn threshold(node: Node) -> Num {
    match lookup(node.nums, "value"@) {
        Some(v) => v,
        None => Num::zero(),
    }
}

/// The comparison of a condition.
pub open spec fn comparison(node: Node) -> Op {
    let word = match lookup(node.strs, "op"@) {
        Some(w) => w,
        None => "greater_than"@,
    };
    if word == "less_than"@ {
        Op::Lt
    } else if word == "greater_equal"@ {
        Op::Ge
    } else if word == "less_equal"@ {
        Op::Le
    } else if word == "equal"@ {
        Op::Eq
    } else {
        Op::Gt
    }
}

pub open spec fn is_signal(node: Node) -> bool {
    node.ntype == "buy_signal"@ || node.ntype == "sell_signal"@
}

/// A node that works on the price itself. It may be wired to one node upstream, which adds
/// nothing to its program.
pub open spec fn reads_price(node: Node) -> bool {
    node.ntype == "data_source"@ || node.ntype == "ema"@ || node.ntype == "momentum"@
        || node.ntype == "reversion"@
}

/// Node `n` has more inputs than the one that it may have.
pub open spec fn too_many_inputs(nodes: Seq<Node>, es: Seq<(int, int)>, n: int) -> Fault {
    Fault::TooManyInputs {
        node: nodes[n].id,
        ntype: nodes[n].ntype,
        got: sources(es, n).len(),
    }
}

/// Whether the comparison of a condition fails on the neutral 0.
pub open spec fn fails_on_zero(node: Node) -> bool {
    match comparison(node) {
        Op::Gt => !Num::zero().above(threshold(node)),
        Op::Lt => !threshold(node).above(Num::zero()),
        Op::Ge => !Num::zero().at_least(threshold(node)),
        Op::Le => !threshold(node).at_least(Num::zero()),
        _ => !near_zero(threshold(node)),
    }
}

/// The operations of a condition with nothing wired in, which does not fire: the
/// comparison of a neutral 0 where it fails, else the neutral 0 alone.
pub open spec fn idle_condition(node: Node) -> Seq<Op> {
    if fails_on_zero(node) {
        seq![Op::PushConst(Num::zero()), Op::PushConst(threshold(node)), comparison(node)]
    } else {
        seq![Op::PushConst(Num::zero())]
    }
}

/// The operations that leave the value of node `n` on the stack, and the first slot that
/// they leave free. `open` holds the nodes that wait for this one.
pub open spec fn emitted(
    nodes: Seq<Node>,
    es: Seq<(int, int)>,
    n: int,
    open: Seq<int>,
    slot: nat,
) -> Result<(Seq<Op>, nat), Fault>
    decreases untouched(nodes.len(), open), 0nat, 0nat,
    via emitted_decreases
{
    if open.contains(n) || !(0 <= n < nodes.len()) {
        Err(Fault::Cycle)
    } else {
        let node = nodes[n];
        let t = node.ntype;
        if reads_price(node) && sources(es, n).len() > 1 {
            Err(too_many_inputs(nodes, es, n))
        } else if t == "data_source"@ {
            Ok((seq![Op::PushPrice], slot))
        } else if t == "ema"@ {
            let period = whole_property(node, "period"@, 12);
            Ok((seq![Op::Ema { slot: slot as usize, period }], slot + 1))
        } else if t == "momentum"@ {
            let lookback = whole_property(node, "lookback"@, 16);
            Ok((seq![Op::Momentum { slot: slot as usize, lookback }], slot + 1))
        } else if t == "reversion"@ {
            let window = whole_property(node, "window"@, 64);
            Ok((seq![Op::Reversion { slot: slot as usize, window }], slot + 1))
        } else if t == "condition"@ && sources(es, n).len() == 0 {
            Ok((idle_condition(node), slot))
        } else if t == "condition"@ {
            match single_input(nodes, es, n, open.push(n), slot) {
                Ok((ops, next)) => Ok(
                    (ops + seq![Op::PushConst(threshold(node)), comparison(node)], next),
                ),
                Err(e) => Err(e),
            }
        } else if t == "and_gate"@ {
            gate_inputs(nodes, es, sources(es, n), 0, open.push(n), slot, Op::And)
        } else if t == "or_gate"@ {
            gate_inputs(nodes, es, sources(es, n), 0, open.push(n), slot, Op::Or)
        } else if is_signal(node) {
            single_input(nodes, es, n, open.push(n), slot)
        } else {
            Err(Fault::UnknownType(t))
        }
    }
}

/// The operations for the one input of node `n`: a neutral 0 where it has none.
pub open spec fn single_input(
    nodes: Seq<Node>,
    es: Seq<(int, int)>,
    n: int,
    open: Seq<int>,
    slot: nat,
) -> Result<(Seq<Op>, nat), Fault>
    decreases untouched(nodes.len(), open), 1nat, 0nat,
{
    let srcs = sources(es, n);
    if srcs.len() > 1 {
        Err(too_many_inputs(nodes, es, n))
    } else if srcs.len() == 1 {
        emitted(nodes, es, srcs[0], open, slot)
    } else {
        Ok((seq![Op::PushConst(Num::zero())], slot))
    }
}

/// The operations for the inputs of a gate from the `k`-th on: the first as it is, each
/// further one followed by `fold`.
pub open spec fn gate_inputs(
    nodes: Seq<Node>,
    es: Seq<(int, int)>,
    srcs: Seq<int>,
    k: nat,
    open: Seq<int>,
    slot: nat,
    fold: Op,
) -> Result<(Seq<Op>, nat), Fault>
    decreases untouched(nodes.len(), open), 1nat, srcs.len() - k,
{
    if srcs.len() == 0 {
        Ok((seq![Op::PushConst(Num::zero())], slot))
    } else if k >= srcs.len() {
        Ok((seq![], slot))
    } else {
        match emitted(nodes, es, srcs[k as int], open, slot) {
            Err(e) => Err(e),
            Ok((ops, mid)) => {
                let here = if k == 0 {
                    ops
                } else {
                    ops.push(fold)
                };
                match gate_inputs(nodes, es, srcs, k + 1, open, mid, fold) {
                    Err(e) => Err(e),
                    Ok((rest, next)) => Ok((here + rest, next)),
                }
            },
        }
    }
}

#[via_fn]
proof fn emitted_decreases(
    nodes: Seq<Node>,
    es: Seq<(int, int)>,
    n: int,
    open: Seq<int>,
    slot: nat,
) {
    if !open.contains(n) && 0 <= n < nodes.len() {
        lemma_untouched_push(nodes.len(), open, n);
    }
}

/// Entering one more node leaves one less untouched.
pub proof fn lemma_untouched_push(len: nat, open: Seq<int>, n: int)
    requires
        !open.contains(n),
        0 <= n,
    ensures
        n < len ==> untouched(len, open.push(n)) == untouched(len, open) - 1,
        n >= len ==> untouched(len, open.push(n)) == untouched(len, open),
    decreases len,
{
    if len > 0 {
        lemma_untouched_push((len - 1) as nat, open, n);
        let last = len - 1;
        assert(open.push(n).contains(last) == (open.contains(last) || last == n)) by {
            if open.contains(last) {
                let i = open.index_of(last);
                assert(open.push(n)[i] == last);
            }
            if last == n {
                assert(open.push(n)[open.len() as int] == n);
            }
        }
    }
}

/// The program of the signal nodes from the `k`-th node on.
pub open spec fn terminals(g: Graph, k: nat, slot: nat) -> Result<(Seq<Op>, nat), Fault>
    decreases g.nodes.len() - k,
{
    if k >= g.nodes.len() {
        Ok((seq![], slot))
    } else {
        let node = g.nodes[k as int];
        if is_signal(node) {
            match single_input(g.nodes, edges(g), named(g.nodes, node.id)->0, seq![], slot) {
                Err(e) => Err(e),
                Ok((ops, mid)) => {
                    let op = if node.ntype == "buy_signal"@ {
                        Op::Buy
                    } else {
                        Op::Sell
                    };
                    match terminals(g, k + 1, mid) {
                        Err(e) => Err(e),
                        Ok((rest, next)) => Ok((ops.push(op) + rest, next)),
                    }
                },
            }
        } else {
            terminals(g, k + 1, slot)
        }
    }
}

/// The program of a graph: one terminal per signal node, in declared node order.
pub open spec fn compiled(g: Graph) -> Result<Seq<Op>, Fault> {
    match stray_end(g, 0) {
        Some(id) => Err(Fault::UnknownNode(id)),
        None => match terminals(g, 0, 0) {
            Ok((ops, next)) => Ok(ops),
            Err(e) => Err(e),
        },
    }
}

/// Indices as mathematical integers.
spec fn ints(s: Seq<usize>) -> Seq<int> {
    s.map_values(|n: usize| n as int)
}

/// Edges as pairs of mathematical integers.
spec fn int_edges(s: Seq<(usize, usize)>) -> Seq<(int, int)> {
    Seq::new(s.len(), |i: int| (s[i].0 as int, s[i].1 as int))
}

/// The lowering of one graph: its nodes and edges, the program so far, the next free
/// slot, and the nodes that wait for an input.
struct Lowerer<'a> {
    nodes: &'a Vec<GNode>,
    edges: &'a Vec<(usize, usize)>,
    prog: Vec<Op>,
    next_slot: usize,
    on_stack: Vec<usize>,
}

impl<'a> Lowerer<'a> {
    spec fn graph(&self) -> Seq<Node> {
        node_views(self.nodes@)
    }

    spec fn wires(&self) -> Seq<(int, int)> {
        int_edges(self.edges@)
    }

    spec fn open(&self) -> Seq<int> {
        ints(self.on_stack@)
    }

    spec fn wf(&self) -> bool {
        &&& self.next_slot <= self.prog@.len()
        &&& forall|i: int|
            0 <= i < self.edges@.len() ==> (#[trigger] self.edges@[i]).0 < self.nodes@.len()
    }

    /// The lowering went on from `before` by `ops`, and everything else is as it was.
    spec fn follows(&self, before: Lowerer<'a>, ops: Seq<Op>, next: nat) -> bool {
        &&& self.wf()
        &&& self.nodes == before.nodes
        &&& self.edges == before.edges
        &&& self.on_stack@ == before.on_stack@
        &&& self.prog@ == before.prog@ + ops
        &&& self.next_slot == next
    }

    /// The nodes wired into node `n`, in connection order.
    fn inputs(&self, n: usize) -> (r: Vec<usize>)
        requires
            self.wf(),
        ensures
            ints(r@) == sources(self.wires(), n as int),
            forall|i: int| 0 <= i < r@.len() ==> #[trigger] r@[i] < self.nodes@.len(),
    {
        let mut out: Vec<usize> = Vec::new();
        let mut k: usize = 0;
        let ghost es = self.wires();
        assert(ints(out@) =~= seq![]);
        while k < self.edges.len()
            invariant
                self.wf(),
                k <= self.edges@.len(),
                es == self.wires(),
                ints(out@) == sources(es.take(k as int), n as int),
                forall|i: int| 0 <= i < out@.len() ==> #[trigger] out@[i] < self.nodes@.len(),
            decreases self.edges@.len() - k,
        {
            let (from, to) = self.edges[k];
            let ghost before = out@;
            assert(es.take(k + 1).drop_last() =~= es.take(k as int));
            assert(es.take(k + 1).last() == (from as int, to as int));
            if to == n {
                out.push(from);
                assert(ints(out@) =~= ints(before).push(from as int));
            }
            k = k + 1;
        }
        assert(es.take(k as int) =~= es);
        out
    }

    /// Emits the single input that feeds node `n`, leaving one value on the stack. More
    /// than one input is ambiguous and an error; none pushes a neutral 0, so that the
    /// consumer simply does not fire.
    fn emit_unary_input(&mut self, n: usize) -> (r: Result<(), CompileError>)
        requires
            old(self).wf(),
            n < old(self).nodes@.len(),
        ensures
            match single_input(
                old(self).graph(),
                old(self).wires(),
                n as int,
                old(self).open(),
                old(self).next_slot as nat,
            ) {
                Ok((ops, next)) => r is Ok && final(self).follows(*old(self), ops, next),
                Err(e) => r matches Err(x) && x@ == e,
            },
        decreases untouched(old(self).nodes@.len(), old(self).open()), 1nat, 0nat,
    {
        let srcs = self.inputs(n);
        assert(ints(srcs@).len() == srcs@.len());
        if srcs.len() > 1 {
            return Err(
                CompileError::TooManyInputs {
                    node: self.nodes[n].id.clone(),
                    ntype: self.nodes[n].ntype.clone(),
                    got: srcs.len(),
                },
            );
        }
        if srcs.len() == 1 {
            assert(ints(srcs@)[0] == srcs@[0] as int);
            self.emit_node(srcs[0])
        } else {
            self.prog.push(Op::PushConst(Num { bits: 0 }));
            assert(self.prog@ =~= old(self).prog@ + seq![Op::PushConst(Num::zero())]);
            Ok(())
        }
    }

    /// Emits the inputs of a gate: the first as it is, each further one with a fold.
    fn emit_gate(&mut self, srcs: &Vec<usize>, fold: Op) -> (r: Result<(), CompileError>)
        requires
            old(self).wf(),
            forall|i: int| 0 <= i < srcs@.len() ==> #[trigger] srcs@[i] < old(self).nodes@.len(),
        ensures
            match gate_inputs(
                old(self).graph(),
                old(self).wires(),
                ints(srcs@),
                0,
                old(self).open(),
                old(self).next_slot as nat,
                fold,
            ) {
                Ok((ops, next)) => r is Ok && final(self).follows(*old(self), ops, next),
                Err(e) => r matches Err(x) && x@ == e,
            },
        decreases untouched(old(self).nodes@.len(), old(self).open()), 1nat, srcs@.len(),
    {
        let ghost start = *self;
        let ghost all = ints(srcs@);
        let ghost goal = gate_inputs(
            self.graph(),
            self.wires(),
            all,
            0,
            self.open(),
            self.next_slot as nat,
            fold,
        );
        if srcs.len() == 0 {
            self.prog.push(Op::PushConst(Num { bits: 0 }));
            assert(self.prog@ =~= start.prog@ + seq![Op::PushConst(Num::zero())]);
            return Ok(());
        }
        let mut k: usize = 0;
        let ghost mut done: Seq<Op> = seq![];
        assert(start.prog@ + done =~= start.prog@);
        assert(goal matches Ok((ops, next)) ==> done + ops =~= ops);
        while k < srcs.len()
            invariant
                self.wf(),
                start == *old(self),
                all == ints(srcs@),
                0 < srcs@.len(),
                k <= srcs@.len(),
                forall|i: int|
                    0 <= i < srcs@.len() ==> #[trigger] srcs@[i] < self.nodes@.len(),
                self.follows(start, done, self.next_slot as nat),
                goal == gate_inputs(
                    start.graph(),
                    start.wires(),
                    all,
                    0,
                    start.open(),
                    start.next_slot as nat,
                    fold,
                ),
                match gate_inputs(
                    self.graph(),
                    self.wires(),
                    all,
                    k as nat,
                    self.open(),
                    self.next_slot as nat,
                    fold,
                ) {
                    Ok((rest, next)) => goal == Ok::<(Seq<Op>, nat), Fault>((done + rest, next)),
                    Err(e) => goal == Err::<(Seq<Op>, nat), Fault>(e),
                },
            decreases srcs@.len() - k,
        {
            let ghost before = *self;
            assert(all[k as int] == srcs@[k as int] as int);
            match self.emit_node(srcs[k]) {
                Ok(()) => {},
                Err(e) => {
                    return Err(e);
                },
            }
            let ghost made = emitted(
                before.graph(),
                before.wires(),
                all[k as int],
                before.open(),
                before.next_slot as nat,
            )->Ok_0.0;
            let ghost here = if k == 0 {
                made
            } else {
                made.push(fold)
            };
            if k > 0 {
                self.prog.push(fold);
            }
            assert(self.prog@ =~= before.prog@ + here);
            assert(self.prog@ =~= start.prog@ + (done + here));
            k = k + 1;
            proof {
                if let Ok((rest, next)) = gate_inputs(
                    self.graph(),
                    self.wires(),
                    all,
                    k as nat,
                    self.open(),
                    self.next_slot as nat,
                    fold,
                ) {
                    assert(done + (here + rest) =~= (done + here) + rest);
                }
                done = done + here;
            }
        }
        assert(done + seq![] =~= done);
        Ok(())
    }

    /// Emits a stateful operation in the next free slot.
    fn emit_stateful(&mut self, op: Op)
        requires
            old(self).wf(),
        ensures
            final(self).follows(*old(self), seq![op], (old(self).next_slot + 1) as nat),
    {
        let ghost before = *self;
        self.prog.push(op);
        assert(self.prog.len() == before.prog@.len() + 1);
        self.next_slot = self.next_slot + 1;
        assert(self.prog@ =~= before.prog@ + seq![op]);
    }

    /// Emits node `n` so that it leaves exactly one value on the stack.
    fn emit_node(&mut self, n: usize) -> (r: Result<(), CompileError>)
        requires
            old(self).wf(),
            n < old(self).nodes@.len(),
        ensures
            match emitted(
                old(self).graph(),
                old(self).wires(),
                n as int,
                old(self).open(),
                old(self).next_slot as nat,
            ) {
                Ok((ops, next)) => r is Ok && final(self).follows(*old(self), ops, next),
                Err(e) => r matches Err(x) && x@ == e,
            },
        decreases untouched(old(self).nodes@.len(), old(self).open()), 0nat, 0nat,
    {
        if self.is_open(n) {
            return Err(CompileError::Cycle);
        }
        proof {
            lemma_untouched_push(self.nodes@.len(), self.open(), n as int);
        }
        let ghost before = *self;
        self.on_stack.push(n);
        assert(self.open() =~= before.open().push(n as int));
        let node = &self.nodes[n];
        let ghost model = before.graph()[n as int];
        assert(model == node@);
        let slot: usize = self.next_slot;
        let srcs = self.inputs(n);
        assert(ints(srcs@).len() == srcs@.len());
        assert(before.wires() == self.wires());
        if reads_the_price(node) && srcs.len() > 1 {
            return Err(
                CompileError::TooManyInputs {
                    node: node.id.clone(),
                    ntype: node.ntype.clone(),
                    got: srcs.len(),
                },
            );
        }
        if is_word(&node.ntype, "data_source") {
            self.prog.push(Op::PushPrice);
            assert(self.prog@ =~= before.prog@ + seq![Op::PushPrice]);
        } else if is_word(&node.ntype, "ema") {
            let period: usize = whole_number(node, "period", 12);
            self.emit_stateful(Op::Ema { slot, period });
        } else if is_word(&node.ntype, "momentum") {
            let lookback: usize = whole_number(node, "lookback", 16);
            self.emit_stateful(Op::Momentum { slot, lookback });
        } else if is_word(&node.ntype, "reversion") {
            let window: usize = whole_number(node, "window", 64);
            self.emit_stateful(Op::Reversion { slot, window });
        } else if is_word(&node.ntype, "condition") && srcs.len() == 0 {
            let value = threshold_of(node);
            let op = comparison_of(node);
            self.prog.push(Op::PushConst(Num { bits: 0 }));
            if fails_at_zero(node) {
                self.prog.push(Op::PushConst(value));
                self.prog.push(op);
            }
            assert(self.prog@ =~= before.prog@ + idle_condition(model));
        } else if is_word(&node.ntype, "condition") {
            let value = threshold_of(node);
            let op = comparison_of(node);
            match self.emit_unary_input(n) {
                Ok(()) => {},
                Err(e) => {
                    return Err(e);
                },
            }
            let ghost mid = self.prog@;
            self.prog.push(Op::PushConst(value));
            self.prog.push(op);
            assert(self.prog@ =~= mid + seq![Op::PushConst(value), op]);
            proof {
                let ops = single_input(
                    before.graph(),
                    before.wires(),
                    n as int,
                    before.open().push(n as int),
                    before.next_slot as nat,
                )->Ok_0.0;
                assert(before.prog@ + ops + seq![Op::PushConst(value), op] =~= before.prog@ + (ops
                    + seq![Op::PushConst(value), op]));
            }
        } else if is_word(&node.ntype, "and_gate") || is_word(&node.ntype, "or_gate") {
            let fold = if is_word(&node.ntype, "and_gate") {
                Op::And
            } else {
                Op::Or
            };
            match self.emit_gate(&srcs, fold) {
                Ok(()) => {},
                Err(e) => {
                    return Err(e);
                },
            }
        } else if is_word(&node.ntype, "buy_signal") || is_word(&node.ntype, "sell_signal") {
            match self.emit_unary_input(n) {
                Ok(()) => {},
                Err(e) => {
                    return Err(e);
                },
            }
        } else {
            return Err(CompileError::UnknownType(node.ntype.clone()));
        }
        self.on_stack.pop();
        assert(self.on_stack@ =~= before.on_stack@);
        Ok(())
    }

    /// Whether node `n` waits for an input.
    fn is_open(&self, n: usize) -> (r: bool)
        ensures
            r == self.open().contains(n as int),
    {
        let mut k: usize = 0;
        while k < self.on_stack.len()
            invariant
                k <= self.on_stack@.len(),
                forall|i: int| 0 <= i < k ==> #[trigger] self.on_stack@[i] != n,
            decreases self.on_stack@.len() - k,
        {
            if self.on_stack[k] == n {
                assert(self.open()[k as int] == n as int);
                return true;
            }
            k = k + 1;
        }
        assert(!self.open().contains(n as int)) by {
            if self.open().contains(n as int) {
                let i = self.open().index_of(n as int);
                assert(self.on_stack@[i] == n);
            }
        }
        false
    }
}

/// A numeric property.
fn number(node: &GNode, key: &str) -> (r: Option<Num>)
    ensures
        r == lookup(node@.nums, key@),
{
    let k: usize = position(node.nums.as_slice(), key);
    if k < node.nums.len() {
        Some(node.nums[k].1)
    } else {
        None
    }
}

fn whole_number(node: &GNode, key: &str, default: usize) -> (r: usize)
    ensures
        r == whole_property(node@, key@, default),
{
    match number(node, key) {
        Some(v) => v.to_usize(),
        None => default,
    }
}

fn reads_the_price(node: &GNode) -> (r: bool)
    ensures
        r == reads_price(node@),
{
    is_word(&node.ntype, "data_source") || is_word(&node.ntype, "ema") || is_word(
        &node.ntype,
        "momentum",
    ) || is_word(&node.ntype, "reversion")
}

fn fails_at_zero(node: &GNode) -> (r: bool)
    ensures
        r == fails_on_zero(node@),
{
    let zero = Num { bits: 0 };
    let value = threshold_of(node);
    match comparison_of(node) {
        Op::Gt => !zero.gt(value),
        Op::Lt => !zero.lt(value),
        Op::Ge => !zero.ge(value),
        Op::Le => !zero.le(value),
        _ => !is_near_zero(value),
    }
}

fn threshold_of(node: &GNode) -> (r: Num)
    ensures
        r == threshold(node@),
{
    match number(node, "value") {
        Some(v) => v,
        None => Num { bits: 0 },
    }
}

fn comparison_of(node: &GNode) -> (r: Op)
    ensures
        r == comparison(node@),
{
    proof {
        lemma_same_keys(node@.strs, keyed(node.strs@), "op"@);
    }
    let k: usize = position(node.strs.as_slice(), "op");
    if k < node.strs.len() {
        comparison_word(&node.strs[k].1)
    } else {
        comparison_word(&"greater_than".to_owned())
    }
}

fn comparison_word(word: &String) -> (r: Op)
    ensures
        r == if word@ == "less_than"@ {
            Op::Lt
        } else if word@ == "greater_equal"@ {
            Op::Ge
        } else if word@ == "less_equal"@ {
            Op::Le
        } else if word@ == "equal"@ {
            Op::Eq
        } else {
            Op::Gt
        },
{
    if is_word(word, "less_than") {
        Op::Lt
    } else if is_word(word, "greater_equal") {
        Op::Ge
    } else if is_word(word, "less_equal") {
        Op::Le
    } else if is_word(word, "equal") {
        Op::Eq
    } else {
        Op::Gt
    }
}

/// The node that an id names: the last one declared under it.
fn find(nodes: &Vec<GNode>, id: &String) -> (r: Option<usize>)
    ensures
        match r {
            Some(n) => named(node_views(nodes@), id@) == Some(n as int) && n < nodes@.len(),
            None => named(node_views(nodes@), id@) is None,
        },
{
    let ghost all = node_views(nodes@);
    let mut k: usize = nodes.len();
    assert(all.take(k as int) =~= all);
    while k > 0
        invariant
            k <= nodes@.len(),
            all == node_views(nodes@),
            named(all.take(k as int), id@) == named(all, id@),
        decreases k,
    {
        assert(all.take(k as int).drop_last() =~= all.take(k - 1));
        if nodes[k - 1].id == *id {
            return Some(k - 1);
        }
        k = k - 1;
    }
    None
}

/// Resolves the connections, or names the first end that names no node.
fn resolve(spec: &GraphSpec) -> (r: Result<Vec<(usize, usize)>, CompileError>)
    ensures
        match stray_end(spec@, 0) {
            None => r matches Ok(es) && int_edges(es@) == edges(spec@) && forall|i: int|
                0 <= i < es@.len() ==> (#[trigger] es@[i]).0 < spec.nodes@.len(),
            Some(id) => r matches Err(x) && x@ == Fault::UnknownNode(id),
        },
{
    let ghost g = spec@;
    let mut es: Vec<(usize, usize)> = Vec::new();
    let mut k: usize = 0;
    while k < spec.connections.len()
        invariant
            k <= spec.connections@.len(),
            g == spec@,
            es@.len() == k,
            stray_end(g, k as nat) == stray_end(g, 0),
            forall|i: int| 0 <= i < k ==> (#[trigger] es@[i]).0 < spec.nodes@.len(),
            forall|i: int|
                0 <= i < k ==> ((#[trigger] es@[i]).0 as int, es@[i].1 as int) == edges(g)[i],
        decreases spec.connections@.len() - k,
    {
        assert(g.connections[k as int] == (
            spec.connections@[k as int].0@,
            spec.connections@[k as int].1@,
        ));
        let from = match find(&spec.nodes, &spec.connections[k].0) {
            Some(n) => n,
            None => {
                return Err(CompileError::UnknownNode(spec.connections[k].0.clone()));
            },
        };
        let to = match find(&spec.nodes, &spec.connections[k].1) {
            Some(n) => n,
            None => {
                return Err(CompileError::UnknownNode(spec.connections[k].1.clone()));
            },
        };
        es.push((from, to));
        k = k + 1;
    }
    assert(int_edges(es@) =~= edges(g));
    Ok(es)
}

proof fn lemma_named_self(nodes: Seq<Node>, k: int)
    requires
        0 <= k < nodes.len(),
    ensures
        named(nodes, nodes[k].id) is Some,
    decreases nodes.len(),
{
    if nodes.last().id != nodes[k].id {
        lemma_named_self(nodes.drop_last(), k);
    }
}

/// Compiles a graph: one terminal per signal node, in declared node order, each after
/// the sub-graph that feeds it.
pub fn compile(spec: &GraphSpec) -> (r: Result<Vec<Op>, CompileError>)
    ensures
        match compiled(spec@) {
            Ok(ops) => r matches Ok(prog) && prog@ == ops,
            Err(e) => r matches Err(x) && x@ == e,
        },
{
    let es = match resolve(spec) {
        Ok(es) => es,
        Err(e) => {
            return Err(e);
        },
    };
    let mut lo = Lowerer {
        nodes: &spec.nodes,
        edges: &es,
        prog: Vec::new(),
        next_slot: 0,
        on_stack: Vec::new(),
    };
    let ghost g = spec@;
    let ghost goal = terminals(g, 0, 0);
    let mut k: usize = 0;
    assert(goal matches Ok((ops, next)) ==> lo.prog@ + ops =~= ops);
    while k < spec.nodes.len()
        invariant
            lo.wf(),
            k <= spec.nodes@.len(),
            lo.nodes == &spec.nodes,
            lo.edges == &es,
            lo.on_stack@.len() == 0,
            g == spec@,
            int_edges(es@) == edges(g),
            stray_end(g, 0) is None,
            goal == terminals(g, 0, 0),
            match terminals(g, k as nat, lo.next_slot as nat) {
                Ok((rest, next)) => goal == Ok::<(Seq<Op>, nat), Fault>((lo.prog@ + rest, next)),
                Err(e) => goal == Err::<(Seq<Op>, nat), Fault>(e),
            },
        decreases spec.nodes@.len() - k,
    {
        let node = &spec.nodes[k];
        assert(g.nodes[k as int] == node@);
        let buys = is_word(&node.ntype, "buy_signal");
        if buys || is_word(&node.ntype, "sell_signal") {
            proof {
                lemma_named_self(g.nodes, k as int);
            }
            let ghost before = lo;
            assert(lo.open() =~= seq![]);
            if let Some(n) = find(&spec.nodes, &node.id) {
                match lo.emit_unary_input(n) {
                    Ok(()) => {},
                    Err(e) => {
                        return Err(e);
                    },
                }
                let ghost ops = single_input(g.nodes, edges(g), n as int, seq![], before.next_slot as nat)->Ok_0.0;
                let op = if buys {
                    Op::Buy
                } else {
                    Op::Sell
                };
                lo.prog.push(op);
                assert(lo.prog@ =~= before.prog@ + ops.push(op));
                proof {
                    if let Ok((rest, next)) = terminals(g, (k + 1) as nat, lo.next_slot as nat) {
                        assert(before.prog@ + (ops.push(op) + rest) =~= lo.prog@ + rest);
                    }
                }
            }
        }
        k = k + 1;
    }
    assert(lo.prog@ + seq![] =~= lo.prog@);
    Ok(lo.prog)
}

/// What `key` stands for in an object.
pub open spec fn member(v: Value, key: Seq<char>) -> Option<Value> {
    match v {
        Value::Obj(m) => lookup(m, key),
        _ => None,
    }
}

/// The text that `key` stands for in an object, or none.
pub open spec fn text_member(v: Value, key: Seq<char>) -> Seq<char> {
    match member(v, key) {
        Some(Value::Str(s)) => s,
        _ => seq![],
    }
}

/// The elements of the array that `key` stands for in an object, or none.
pub open spec fn list_member(v: Value, key: Seq<char>) -> Seq<Value> {
    match member(v, key) {
        Some(Value::Arr(a)) => a,
        _ => seq![],
    }
}

/// A node's properties.
pub open spec fn properties(v: Value) -> Seq<(Seq<char>, Value)> {
    match member(v, "properties"@) {
        Some(Value::Obj(m)) => m,
        _ => seq![],
    }
}

/// The properties that are numbers, as they were written.
pub open spec fn numeric_properties(m: Seq<(Seq<char>, Value)>) -> Seq<(Seq<char>, Seq<char>)>
    decreases m.len(),
{
    if m.len() == 0 {
        seq![]
    } else {
        match m.last().1 {
            Value::Num(t) => numeric_properties(m.drop_last()).push((m.last().0, t)),
            _ => numeric_properties(m.drop_last()),
        }
    }
}

/// The properties that are strings.
pub open spec fn string_properties(m: Seq<(Seq<char>, Value)>) -> Seq<(Seq<char>, Seq<char>)>
    decreases m.len(),
{
    if m.len() == 0 {
        seq![]
    } else {
        match m.last().1 {
            Value::Str(t) => string_properties(m.drop_last()).push((m.last().0, t)),
            _ => string_properties(m.drop_last()),
        }
    }
}

/// Every number among the properties of the nodes, as it was written.
pub open spec fn written_numbers(nodes: Seq<Value>) -> Seq<Seq<char>>
    decreases nodes.len(),
{
    if nodes.len() == 0 {
        seq![]
    } else {
        written_numbers(nodes.drop_last()) + numeric_properties(
            properties(nodes.last()),
        ).map_values(|e: (Seq<char>, Seq<char>)| e.1)
    }
}

/// Numbers as written, with what they are.
pub open spec fn valued(
    entries: Seq<(Seq<char>, Seq<char>)>,
    numbers: Seq<(Seq<char>, Num)>,
) -> Seq<(Seq<char>, Num)> {
    Seq::new(entries.len(), |i: int| (entries[i].0, lookup(numbers, entries[i].1)->0))
}

/// A node of the builder's JSON.
pub open spec fn node_of(v: Value, numbers: Seq<(Seq<char>, Num)>) -> Node {
    Node {
        id: text_member(v, "id"@),
        ntype: text_member(v, "type"@),
        nums: valued(numeric_properties(properties(v)), numbers),
        strs: string_properties(properties(v)),
    }
}

/// The connections of the builder's JSON: those with two named ends.
pub open spec fn connections_of(a: Seq<Value>) -> Seq<(Seq<char>, Seq<char>)>
    decreases a.len(),
{
    if a.len() == 0 {
        seq![]
    } else {
        let from = text_member(a.last(), "from"@);
        let to = text_member(a.last(), "to"@);
        if from.len() > 0 && to.len() > 0 {
            connections_of(a.drop_last()).push((from, to))
        } else {
            connections_of(a.drop_last())
        }
    }
}

/// The drawing in a JSON text.
pub open spec fn canvas_of(json: Seq<char>) -> Result<Value, Seq<char>> {
    match value_at(encode_utf8(json), 0) {
        Err(e) => Err(e),
        Ok((v, end)) => match member(v, "canvas"@) {
            None => Err("missing canvas"@),
            Some(canvas) => Ok(canvas),
        },
    }
}

/// The graph of a drawing.
pub open spec fn graph_of(canvas: Value, numbers: Seq<(Seq<char>, Num)>) -> Graph {
    Graph {
        nodes: list_member(canvas, "nodes"@).map_values(|v: Value| node_of(v, numbers)),
        connections: connections_of(list_member(canvas, "connections"@)),
    }
}

/// The value of every number that a drawing uses is listed.
pub open spec fn covers(numbers: Seq<(Seq<char>, Num)>, canvas: Value) -> bool {
    forall|i: int|
        #![trigger written_numbers(list_member(canvas, "nodes"@))[i]]
        0 <= i < written_numbers(list_member(canvas, "nodes"@)).len() ==> lookup(
            numbers,
            written_numbers(list_member(canvas, "nodes"@))[i],
        ) is Some
}

pub open spec fn texts(s: Seq<String>) -> Seq<Seq<char>> {
    Seq::new(s.len(), |i: int| s[i]@)
}

/// The text that `key` stands for in an object, or an empty one.
fn member_text(v: &Json, key: &str) -> (r: String)
    ensures
        r@ == text_member(v@, key@),
{
    match v.get(key) {
        Some(x) => match x.as_str() {
            Some(s) => s.clone(),
            None => {
                let r = String::new();
                assert(r@ =~= text_member(v@, key@));
                r
            },
        },
        None => {
            let r = String::new();
            assert(r@ =~= text_member(v@, key@));
            r
        },
    }
}

/// The drawing in a JSON text.
fn read_canvas(doc: &Json) -> (r: Result<&Json, String>)
    ensures
        match member(doc@, "canvas"@) {
            Some(canvas) => r matches Ok(c) && c@ == canvas,
            None => r matches Err(e) && e@ == "missing canvas"@,
        },
{
    match doc.get("canvas") {
        Some(c) => Ok(c),
        None => Err("missing canvas".to_owned()),
    }
}

/// Appends the numbers among a node's properties, as they were written.
fn collect_numbers(out: &mut Vec<String>, node: &Json)
    ensures
        texts(final(out)@) == texts(old(out)@) + numeric_properties(properties(node@)).map_values(
            |e: (Seq<char>, Seq<char>)| e.1,
        ),
{
    let ghost start = texts(out@);
    let ghost pick = |e: (Seq<char>, Seq<char>)| e.1;
    if let Some(p) = node.get("properties") {
        if let Some(m) = p.as_object() {
            let ghost all = entry_views(m@);
            let mut k: usize = 0;
            assert(all.take(0) =~= seq![]);
            assert(texts(out@) =~= start + numeric_properties(all.take(0)).map_values(pick));
            while k < m.len()
                invariant
                    k <= m@.len(),
                    all == entry_views(m@),
                    texts(out@) == start + numeric_properties(all.take(k as int)).map_values(pick),
                    pick == (|e: (Seq<char>, Seq<char>)| e.1),
                decreases m@.len() - k,
            {
                let ghost before = texts(out@);
                assert(all.take(k + 1).drop_last() =~= all.take(k as int));
                assert(all.take(k + 1).last() == (m@[k as int].0@, m@[k as int].1@));
                if let Some(t) = m[k].1.as_number() {
                    out.push(t.clone());
                    assert(texts(out@) =~= before.push(t@));
                    assert(numeric_properties(all.take(k + 1)).map_values(pick)
                        =~= numeric_properties(all.take(k as int)).map_values(pick).push(t@));
                    assert(texts(out@) =~= start + numeric_properties(all.take(k + 1)).map_values(
                        pick,
                    ));
                }
                k = k + 1;
            }
            assert(all.take(k as int) =~= all);
            return;
        }
    }
    assert(properties(node@) =~= seq![]);
    assert(numeric_properties(properties(node@)).map_values(pick) =~= seq![]);
    assert(texts(out@) =~= start + seq![]);
}

/// The numbers that a drawing uses, as they were written. [`parse`] wants the value of each.
pub fn numerals(json: &str) -> (r: Result<Vec<String>, String>)
    ensures
        match canvas_of(json@) {
            Ok(canvas) => r matches Ok(v) && texts(v@) == written_numbers(
                list_member(canvas, "nodes"@),
            ),
            Err(e) => r matches Err(x) && x@ == e,
        },
{
    let doc = match crate::json::parse(json) {
        Ok(v) => v,
        Err(e) => {
            return Err(e);
        },
    };
    let canvas = match read_canvas(&doc) {
        Ok(c) => c,
        Err(e) => {
            return Err(e);
        },
    };
    let mut out: Vec<String> = Vec::new();
    assert(texts(out@) =~= seq![]);
    if let Some(list) = canvas.get("nodes") {
        if let Some(nodes) = list.as_array() {
            let ghost all = all_views(nodes@);
            let mut k: usize = 0;
            assert(all.take(0) =~= seq![]);
            while k < nodes.len()
                invariant
                    k <= nodes@.len(),
                    all == all_views(nodes@),
                    texts(out@) == written_numbers(all.take(k as int)),
                decreases nodes@.len() - k,
            {
                assert(all.take(k + 1).drop_last() =~= all.take(k as int));
                assert(all.take(k + 1).last() == nodes@[k as int]@);
                collect_numbers(&mut out, &nodes[k]);
                k = k + 1;
            }
            assert(all.take(k as int) =~= all);
            return Ok(out);
        }
    }
    assert(list_member(canvas@, "nodes"@) =~= seq![]);
    Ok(out)
}

/// What a number is that was written as `text`.
fn value_of(numbers: &[(String, Num)], text: &String) -> (r: Num)
    requires
        lookup(keyed(numbers@), text@) is Some,
    ensures
        Some(r) == lookup(keyed(numbers@), text@),
{
    let k: usize = position(numbers, text.as_str());
    numbers[k].1
}

/// Reads one node.
fn read_node(v: &Json, numbers: &[(String, Num)]) -> (r: GNode)
    requires
        forall|i: int|
            0 <= i < numeric_properties(properties(v@)).len() ==> lookup(
                keyed(numbers@),
                (#[trigger] numeric_properties(properties(v@))[i]).1,
            ) is Some,
    ensures
        r@ == node_of(v@, keyed(numbers@)),
{
    let ghost table = keyed(numbers@);
    let ghost props = properties(v@);
    let id = member_text(v, "id");
    let ntype = member_text(v, "type");
    let mut nums: Vec<(String, Num)> = Vec::new();
    let mut strs: Vec<(String, String)> = Vec::new();
    if let Some(p) = v.get("properties") {
        if let Some(m) = p.as_object() {
            assert(props == entry_views(m@));
            let mut k: usize = 0;
            assert(props.take(0) =~= seq![]);
            assert(keyed(nums@) =~= valued(numeric_properties(props.take(0)), table));
            assert(text_pairs(strs@) =~= string_properties(props.take(0)));
            while k < m.len()
                invariant
                    k <= m@.len(),
                    props == entry_views(m@),
                    table == keyed(numbers@),
                    forall|i: int|
                        0 <= i < numeric_properties(props).len() ==> lookup(
                            table,
                            (#[trigger] numeric_properties(props)[i]).1,
                        ) is Some,
                    keyed(nums@) == valued(numeric_properties(props.take(k as int)), table),
                    text_pairs(strs@) == string_properties(props.take(k as int)),
                decreases m@.len() - k,
            {
                let ghost nums0 = keyed(nums@);
                let ghost strs0 = text_pairs(strs@);
                let ghost now = props.take(k + 1);
                assert(now.drop_last() =~= props.take(k as int));
                assert(now.last() == (m@[k as int].0@, m@[k as int].1@));
                if let Some(t) = m[k].1.as_number() {
                    proof {
                        lemma_numeric_prefix(props, k + 1);
                        let j = numeric_properties(now).len() - 1;
                        assert(numeric_properties(now)[j] == (m@[k as int].0@, t@));
                        assert(numeric_properties(props)[j].1 == t@);
                    }
                    let x = value_of(numbers, t);
                    nums.push((m[k].0.clone(), x));
                    assert(keyed(nums@) =~= nums0.push((m@[k as int].0@, x)));
                    assert(keyed(nums@) =~= valued(numeric_properties(now), table));
                } else if let Some(t) = m[k].1.as_str() {
                    strs.push((m[k].0.clone(), t.clone()));
                    assert(text_pairs(strs@) =~= strs0.push((m@[k as int].0@, t@)));
                }
                k = k + 1;
            }
            assert(props.take(k as int) =~= props);
            return GNode { id, ntype, nums, strs };
        }
    }
    assert(props =~= seq![]);
    assert(keyed(nums@) =~= valued(numeric_properties(props), table));
    assert(text_pairs(strs@) =~= string_properties(props));
    GNode { id, ntype, nums, strs }
}

/// The numbers among the first properties are the first of the numbers.
proof fn lemma_numeric_prefix(m: Seq<(Seq<char>, Value)>, k: int)
    requires
        0 <= k <= m.len(),
    ensures
        numeric_properties(m.take(k)).len() <= numeric_properties(m).len(),
        forall|i: int|
            0 <= i < numeric_properties(m.take(k)).len() ==> #[trigger] numeric_properties(
                m.take(k),
            )[i] == numeric_properties(m)[i],
    decreases m.len() - k,
{
    if k < m.len() {
        lemma_numeric_prefix(m, k + 1);
        assert(m.take(k + 1).drop_last() =~= m.take(k));
        let small = numeric_properties(m.take(k));
        let big = numeric_properties(m.take(k + 1));
        assert forall|i: int| 0 <= i < small.len() implies #[trigger] small[i]
            == numeric_properties(m)[i] by {
            assert(small[i] == big[i]);
        }
    } else {
        assert(m.take(k) =~= m);
    }
}

/// The numbers of one node are among those of all nodes.
proof fn lemma_written_member(nodes: Seq<Value>, k: int, i: int) -> (at: int)
    requires
        0 <= k < nodes.len(),
        0 <= i < numeric_properties(properties(nodes[k])).len(),
    ensures
        0 <= at < written_numbers(nodes).len(),
        written_numbers(nodes)[at] == numeric_properties(properties(nodes[k]))[i].1,
    decreases nodes.len(),
{
    let front = written_numbers(nodes.drop_last());
    if k == nodes.len() - 1 {
        front.len() + i
    } else {
        lemma_written_member(nodes.drop_last(), k, i)
    }
}

/// Parses the builder's graph JSON. It understands only the shape the builder emits.
/// `numbers` lists what each of the drawing's [`numerals`] is.
pub fn parse(json: &str, numbers: &[(String, Num)]) -> (r: Result<GraphSpec, String>)
    requires
        canvas_of(json@) matches Ok(canvas) ==> covers(keyed(numbers@), canvas),
    ensures
        match canvas_of(json@) {
            Ok(canvas) => r matches Ok(spec) && spec@ == graph_of(canvas, keyed(numbers@)),
            Err(e) => r matches Err(x) && x@ == e,
        },
{
    let doc = match crate::json::parse(json) {
        Ok(v) => v,
        Err(e) => {
            return Err(e);
        },
    };
    let canvas = match read_canvas(&doc) {
        Ok(c) => c,
        Err(e) => {
            return Err(e);
        },
    };
    let ghost table = keyed(numbers@);
    let ghost drawn = list_member(canvas@, "nodes"@);
    let ghost wired = list_member(canvas@, "connections"@);
    let mut nodes: Vec<GNode> = Vec::new();
    let mut connections: Vec<(String, String)> = Vec::new();
    assert(drawn.take(0) =~= seq![] && wired.take(0) =~= seq![]);
    if let Some(list) = canvas.get("nodes") {
        if let Some(items) = list.as_array() {
            assert(drawn == all_views(items@));
            let mut k: usize = 0;
            while k < items.len()
                invariant
                    k <= items@.len(),
                    drawn == all_views(items@),
                    drawn == list_member(canvas@, "nodes"@),
                    table == keyed(numbers@),
                    covers(table, canvas@),
                    node_views(nodes@) == drawn.take(k as int).map_values(
                        |v: Value| node_of(v, table),
                    ),
                decreases items@.len() - k,
            {
                let ghost before = node_views(nodes@);
                assert(drawn[k as int] == items@[k as int]@);
                assert forall|i: int|
                    0 <= i < numeric_properties(properties(items@[k as int]@)).len() implies lookup(
                    table,
                    (#[trigger] numeric_properties(properties(items@[k as int]@))[i]).1,
                ) is Some by {
                    let at = lemma_written_member(drawn, k as int, i);
                    assert(lookup(table, written_numbers(drawn)[at]) is Some);
                }
                let node = read_node(&items[k], numbers);
                let ghost seen = node@;
                nodes.push(node);
                k = k + 1;
                assert(node_views(nodes@) =~= before.push(seen));
                assert(node_views(nodes@) =~= drawn.take(k as int).map_values(
                    |v: Value| node_of(v, table),
                ));
            }
            assert(drawn.take(k as int) =~= drawn);
        } else {
            assert(drawn =~= seq![]);
        }
    } else {
        assert(drawn =~= seq![]);
    }
    assert(node_views(nodes@) =~= drawn.map_values(|v: Value| node_of(v, table)));
    if let Some(list) = canvas.get("connections") {
        if let Some(items) = list.as_array() {
            assert(wired == all_views(items@));
            let mut k: usize = 0;
            while k < items.len()
                invariant
                    k <= items@.len(),
                    wired == all_views(items@),
                    text_pairs(connections@) == connections_of(wired.take(k as int)),
                decreases items@.len() - k,
            {
                let ghost before = text_pairs(connections@);
                assert(wired.take(k + 1).drop_last() =~= wired.take(k as int));
                assert(wired.take(k + 1).last() == items@[k as int]@);
                let from = member_text(&items[k], "from");
                let to = member_text(&items[k], "to");
                let ghost pair = (from@, to@);
                if !from.as_str().is_empty() && !to.as_str().is_empty() {
                    connections.push((from, to));
                    assert(text_pairs(connections@) =~= before.push(pair));
                }
                k = k + 1;
            }
            assert(wired.take(k as int) =~= wired);
        } else {
            assert(wired =~= seq![]);
        }
    } else {
        assert(wired =~= seq![]);
    }
    assert(text_pairs(connections@) =~= connections_of(wired));
    Ok(GraphSpec { nodes, connections })
}

} // verus!
