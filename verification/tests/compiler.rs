use rust_hotpath_ipc::bytecode::{is_near_zero, Op, Reply, Vm, VmDecision, Work};
use rust_hotpath_ipc::compiler::{compile, numerals, parse, CompileError, GNode, GraphSpec};
use rust_hotpath_ipc::json::{self, Json};
use rust_hotpath_ipc::num::Num;

fn num(x: f64) -> Num {
    Num { bits: x.to_bits() }
}

fn read(json: &str) -> Result<GraphSpec, String> {
    let mut numbers = Vec::new();
    for text in numerals(json)? {
        let x: f64 = text.parse().unwrap();
        numbers.push((text, num(x)));
    }
    parse(json, &numbers)
}

const SAMPLE: &str = r#"
{ "canvas": {
    "nodes": [
      {"id":"d","type":"data_source","properties":{"symbol":"BTC/USDT"}},
      {"id":"e","type":"ema","properties":{"period":12}},
      {"id":"c","type":"condition","properties":{"op":"greater_than","value":50000}},
      {"id":"b","type":"buy_signal","properties":{}}
    ],
    "connections": [
      {"from":"d","to":"e"},
      {"from":"e","to":"c"},
      {"from":"c","to":"b"}
    ]
}}"#;

#[test]
fn parses_and_compiles_sample() {
    let spec = read(SAMPLE).unwrap();
    assert_eq!(spec.nodes.len(), 4);
    assert_eq!(spec.connections.len(), 3);
    let prog = compile(&spec).unwrap();
    // ema(price) -> push 50000 -> Gt -> Buy
    assert_eq!(
        prog,
        vec![
            Op::Ema {
                slot: 0,
                period: 12
            },
            Op::PushConst(num(50000.0)),
            Op::Gt,
            Op::Buy,
        ]
    );
}

#[test]
fn deterministic() {
    let a = compile(&read(SAMPLE).unwrap()).unwrap();
    let b = compile(&read(SAMPLE).unwrap()).unwrap();
    assert_eq!(a, b);
}

#[test]
fn cycle_is_rejected() {
    // Two conditions feeding each other (each with exactly one input, so it's
    // a genuine cycle, not an ambiguous-input error), reachable from a buy.
    let json = r#"{"canvas":{
        "nodes":[{"id":"a","type":"condition","properties":{"value":1}},
                 {"id":"b","type":"condition","properties":{"value":1}},
                 {"id":"s","type":"buy_signal","properties":{}}],
        "connections":[{"from":"a","to":"b"},{"from":"b","to":"a"},{"from":"b","to":"s"}]
    }}"#;
    let spec = read(json).unwrap();
    // emit from s -> b -> a -> b: revisits b -> cycle.
    assert!(matches!(compile(&spec), Err(CompileError::Cycle)));
}

#[test]
fn empty_graph_empty_program() {
    let prog = compile(&GraphSpec::default()).unwrap();
    assert!(prog.is_empty());
}

#[test]
fn multi_input_and_gate_compiles_all_inputs() {
    // (momentum > 0.1) AND (reversion < -0.1) -> buy. Both indicators must
    // appear in the program, folded by AND.
    let json = r#"{"canvas":{"nodes":[
        {"id":"d","type":"data_source","properties":{}},
        {"id":"m","type":"momentum","properties":{"lookback":16}},
        {"id":"cm","type":"condition","properties":{"op":"greater_than","value":0.1}},
        {"id":"r","type":"reversion","properties":{"window":64}},
        {"id":"cr","type":"condition","properties":{"op":"less_than","value":-0.1}},
        {"id":"g","type":"and_gate","properties":{}},
        {"id":"b","type":"buy_signal","properties":{}}
    ],"connections":[
        {"from":"d","to":"m"},{"from":"m","to":"cm"},
        {"from":"d","to":"r"},{"from":"r","to":"cr"},
        {"from":"cm","to":"g"},{"from":"cr","to":"g"},
        {"from":"g","to":"b"}
    ]}}"#;
    let prog = compile(&read(json).unwrap()).unwrap();
    assert_eq!(
        prog,
        vec![
            Op::Momentum {
                slot: 0,
                lookback: 16
            },
            Op::PushConst(num(0.1)),
            Op::Gt,
            Op::Reversion {
                slot: 1,
                window: 64
            },
            Op::PushConst(num(-0.1)),
            Op::Lt,
            Op::And,
            Op::Buy,
        ]
    );
}

#[test]
fn ambiguous_condition_is_rejected_not_dropped() {
    // Two indicators wired straight into one condition is ambiguous — this
    // must error, NOT silently drop one input.
    let json = r#"{"canvas":{"nodes":[
        {"id":"d","type":"data_source","properties":{}},
        {"id":"m","type":"momentum","properties":{"lookback":16}},
        {"id":"r","type":"reversion","properties":{"window":64}},
        {"id":"c","type":"condition","properties":{"op":"greater_than","value":0.1}},
        {"id":"b","type":"buy_signal","properties":{}}
    ],"connections":[
        {"from":"d","to":"m"},{"from":"d","to":"r"},
        {"from":"m","to":"c"},{"from":"r","to":"c"},
        {"from":"c","to":"b"}
    ]}}"#;
    let spec = read(json).unwrap();
    assert!(matches!(
        compile(&spec),
        Err(CompileError::TooManyInputs { .. })
    ));
}

fn node(id: &str, ntype: &str) -> GNode {
    GNode { id: id.to_string(), ntype: ntype.to_string(), nums: vec![], strs: vec![] }
}

fn graph(nodes: Vec<GNode>, wires: &[(&str, &str)]) -> GraphSpec {
    GraphSpec {
        nodes,
        connections: wires.iter().map(|(a, b)| (a.to_string(), b.to_string())).collect(),
    }
}

#[test]
fn errors_name_what_is_wrong() {
    let g = graph(vec![node("b", "buy_signal")], &[("x", "b")]);
    let e = compile(&g).unwrap_err();
    assert_eq!(e.message(), "connection references unknown node x");
    let g = graph(vec![node("b", "buy_signal")], &[("b", "y")]);
    assert!(matches!(compile(&g), Err(CompileError::UnknownNode(id)) if id == "y"));

    let g = graph(vec![node("b", "buy_signal"), node("m", "magic")], &[("m", "b")]);
    let e = compile(&g).unwrap_err();
    assert_eq!(e.message(), "unknown node type magic");

    let g = graph(vec![node("b", "buy_signal"), node("c", "condition")], &[("c", "c"), ("c", "b")]);
    assert_eq!(compile(&g).unwrap_err().message(), "strategy graph has a cycle");

    let g = graph(
        vec![node("b", "sell_signal"), node("d", "data_source"), node("e", "ema")],
        &[("d", "b"), ("e", "b")],
    );
    assert_eq!(
        compile(&g).unwrap_err().message(),
        "sell_signal node 'b' has 2 inputs but takes one; combine inputs with a gate"
    );
}

#[test]
fn unwired_nodes_read_zero_and_defaults_apply() {
    let g = graph(vec![node("b", "buy_signal")], &[]);
    assert_eq!(compile(&g).unwrap(), vec![Op::PushConst(num(0.0)), Op::Buy]);

    let g = graph(
        vec![
            node("e", "ema"),
            node("m", "momentum"),
            node("r", "reversion"),
            node("g", "or_gate"),
            node("c", "condition"),
            node("s", "sell_signal"),
        ],
        &[("e", "g"), ("m", "g"), ("r", "g"), ("g", "c"), ("c", "s")],
    );
    assert_eq!(
        compile(&g).unwrap(),
        vec![
            Op::Ema { slot: 0, period: 12 },
            Op::Momentum { slot: 1, lookback: 16 },
            Op::Or,
            Op::Reversion { slot: 2, window: 64 },
            Op::Or,
            Op::PushConst(num(0.0)),
            Op::Gt,
            Op::Sell,
        ]
    );
}

#[test]
fn indicators_with_two_inputs_are_rejected_not_dropped() {
    let mut m = node("m", "momentum");
    m.nums.push(("lookback".to_string(), num(16.0)));
    for kind in ["ema", "momentum", "reversion", "data_source"] {
        let g = graph(
            vec![node("d", "data_source"), m.clone(), node("e", kind), node("b", "buy_signal")],
            &[("d", "e"), ("m", "e"), ("e", "b")],
        );
        match compile(&g) {
            Err(CompileError::TooManyInputs { node, ntype, got }) => {
                assert_eq!((node.as_str(), ntype.as_str(), got), ("e", kind, 2));
            }
            other => panic!("{other:?}"),
        }
        // One wire is no ambiguity.
        let g = graph(
            vec![node("d", "data_source"), node("e", kind), node("b", "buy_signal")],
            &[("d", "e"), ("e", "b")],
        );
        assert_eq!(compile(&g).unwrap().len(), 2);
    }
}

fn near(work: Work) -> Reply {
    match work {
        Work::Near { a, b } => {
            Reply::Truth((f64::from_bits(a.bits) - f64::from_bits(b.bits)).abs() < 1e-10)
        }
        _ => unreachable!(),
    }
}

#[test]
fn unwired_conditions_do_not_fire() {
    let words = ["less_than", "greater_equal", "less_equal", "equal", "greater_than"];
    for word in words {
        for value in [
            -1.0, 0.0, 1.0, 1e-10, -1e-10, 9e-11, -0.0, f64::NAN, f64::INFINITY,
            f64::NEG_INFINITY,
        ] {
            let mut c = node("c", "condition");
            c.strs.push(("op".to_string(), word.to_string()));
            c.nums.push(("value".to_string(), num(value)));
            let g = graph(vec![c, node("b", "buy_signal")], &[("c", "b")]);
            let mut vm = Vm::new(compile(&g).unwrap());
            assert_eq!(vm.run(num(100.0), near), VmDecision::Hold);
        }
    }
    // The default comparison fails on the neutral 0, and stays.
    let g = graph(vec![node("c", "condition"), node("s", "sell_signal")], &[("c", "s")]);
    assert_eq!(
        compile(&g).unwrap(),
        vec![Op::PushConst(num(0.0)), Op::PushConst(num(0.0)), Op::Gt, Op::Sell]
    );
    // One that would hold of it gives way to the neutral 0 alone.
    let mut c = node("c", "condition");
    c.strs.push(("op".to_string(), "less_than".to_string()));
    c.nums.push(("value".to_string(), num(1.0)));
    let g = graph(vec![c, node("b", "buy_signal")], &[("c", "b")]);
    assert_eq!(compile(&g).unwrap(), vec![Op::PushConst(num(0.0)), Op::Buy]);
    // An equality stays where its threshold is away from 0.
    for (value, stays) in
        [(2.5, true), (-1.0, true), (1e-10, true), (f64::NAN, true), (9e-11, false), (-0.0, false)]
    {
        let mut c = node("c", "condition");
        c.strs.push(("op".to_string(), "equal".to_string()));
        c.nums.push(("value".to_string(), num(value)));
        let g = graph(vec![c, node("b", "buy_signal")], &[("c", "b")]);
        let expected = if stays {
            vec![Op::PushConst(num(0.0)), Op::PushConst(num(value)), Op::Eq, Op::Buy]
        } else {
            vec![Op::PushConst(num(0.0)), Op::Buy]
        };
        assert_eq!(compile(&g).unwrap(), expected);
        assert_eq!(is_near_zero(num(value)), !stays);
    }
}

#[test]
fn comparisons_are_named_by_words() {
    for (word, op) in [
        ("less_than", Op::Lt),
        ("greater_equal", Op::Ge),
        ("less_equal", Op::Le),
        ("equal", Op::Eq),
        ("greater_than", Op::Gt),
        ("whatever", Op::Gt),
    ] {
        let mut c = node("c", "condition");
        c.strs.push(("op".to_string(), word.to_string()));
        c.nums.push(("value".to_string(), num(2.5)));
        let g = graph(vec![node("d", "data_source"), c, node("b", "buy_signal")], &[("d", "c"), ("c", "b")]);
        assert_eq!(
            compile(&g).unwrap(),
            vec![Op::PushPrice, Op::PushConst(num(2.5)), op, Op::Buy]
        );
    }
}

#[test]
fn every_signal_gets_its_terminal_in_node_order() {
    let g = graph(
        vec![
            node("s", "sell_signal"),
            node("d", "data_source"),
            node("b", "buy_signal"),
            node("e", "ema"),
        ],
        &[("e", "s"), ("e", "b")],
    );
    assert_eq!(
        compile(&g).unwrap(),
        vec![
            Op::Ema { slot: 0, period: 12 },
            Op::Sell,
            Op::Ema { slot: 1, period: 12 },
            Op::Buy,
        ]
    );
}

#[test]
fn periods_are_cut_down_to_whole_numbers() {
    for (x, period) in [(7.9, 7), (-3.0, 0), (f64::NAN, 0), (1e300, usize::MAX), (0.2, 0)] {
        let mut e = node("e", "ema");
        e.nums.push(("period".to_string(), num(x)));
        let g = graph(vec![e, node("b", "buy_signal")], &[("e", "b")]);
        assert_eq!(compile(&g).unwrap()[0], Op::Ema { slot: 0, period });
    }
}

#[test]
fn the_last_node_under_an_id_counts() {
    let g = graph(
        vec![node("x", "data_source"), node("x", "ema"), node("b", "buy_signal")],
        &[("x", "b")],
    );
    assert_eq!(compile(&g).unwrap()[0], Op::Ema { slot: 0, period: 12 });
}

#[test]
fn reading_reports_what_it_misses() {
    assert_eq!(read("").unwrap_err(), "unexpected end");
    assert_eq!(read("{\"a\":1}").unwrap_err(), "missing canvas");
    assert_eq!(read("{\"canvas\" 1}").unwrap_err(), "expected :");
    assert_eq!(read("{canvas:1}").unwrap_err(), "expected string");
    assert_eq!(read("{\"canvas\":1e}").unwrap_err(), "bad number");
    assert_eq!(read("[1,2").unwrap_err(), "unexpected end");
    let empty = read("{\"canvas\":null}").unwrap();
    assert!(empty.nodes.is_empty() && empty.connections.is_empty());
}

#[test]
fn properties_are_split_by_kind_and_the_last_of_a_name_counts() {
    let g = read(
        "{\"canvas\":{\"nodes\":[{\"id\":\"a\",\"type\":\"t\",\"properties\":
          {\"p\":1,\"p\":2,\"q\":3,\"q\":\"x\",\"r\":true}}],
          \"connections\":[{\"from\":\"a\",\"to\":\"\"},{\"from\":\"a\",\"to\":\"b\"}]}}",
    )
    .unwrap();
    assert_eq!(g.nodes[0].nums, vec![("p".to_string(), num(2.0))]);
    assert_eq!(g.nodes[0].strs, vec![("q".to_string(), "x".to_string())]);
    assert_eq!(g.connections, vec![("a".to_string(), "b".to_string())]);
}

#[test]
fn values_are_read_leniently() {
    let v = json::parse(" { \"a\" : [1 -2.5e+3, true false,null] \"b\":\"x\\n\\ty\\q\" } rest").unwrap();
    let a = v.get("a").unwrap().as_array().unwrap();
    assert_eq!(a.len(), 5);
    assert_eq!(a[0].as_number().unwrap(), "1");
    assert_eq!(a[1].as_number().unwrap(), "-2.5e+3");
    assert!(matches!(a[2], Json::Bool(true)));
    assert!(matches!(a[3], Json::Bool(false)));
    assert!(matches!(a[4], Json::Null));
    assert_eq!(v.get("b").unwrap().as_str().unwrap(), "x\n\tyq");
    assert!(v.get("c").is_none());
    assert!(a[0].get("x").is_none() && a[0].as_object().is_none() && a[0].as_array().is_none());
    assert_eq!(v.as_object().unwrap().len(), 2);
}

#[test]
fn numbers_have_digits() {
    for good in ["0", "1.", ".5", "-1", "+2", "1e5", "1.5E-3", "00"] {
        let v = json::parse(good).unwrap();
        let text = v.as_number().unwrap();
        assert_eq!(text, good);
        assert!(text.parse::<f64>().is_ok());
    }
    for bad in [".", "-", "1e", "1e+", "1-2", "--1", "e5", "1.2.3", "x"] {
        assert_eq!(json::parse(bad).unwrap_err(), "bad number");
        assert!(bad.parse::<f64>().is_err());
    }
}
