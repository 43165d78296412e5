use rust_hotpath_ipc::console::{
    event_message, failure_answer, launch_plan, parameter_texts, route, tagged_line, KnobTexts,
    ParameterValues, Route, StrategyParams, Verb,
};
use rust_hotpath_ipc::num::Num;

fn num(x: f64) -> Num {
    Num { bits: x.to_bits() }
}

#[test]
fn requests_are_routed_by_method_and_path() {
    assert_eq!(route(Verb::Get, "/"), Route::Index);
    assert_eq!(route(Verb::Get, "/index.html?x=1"), Route::Index);
    assert_eq!(route(Verb::Get, "/events"), Route::Events);
    assert_eq!(route(Verb::Post, "/run?now"), Route::Run);
    assert_eq!(route(Verb::Post, "/stop"), Route::Stop);
    assert_eq!(route(Verb::Get, "/run"), Route::NotFound);
    assert_eq!(route(Verb::Post, "/"), Route::NotFound);
    assert_eq!(route(Verb::Other, "/"), Route::NotFound);
    assert_eq!(route(Verb::Get, "/runs"), Route::NotFound);
    assert_eq!(route(Verb::Get, ""), Route::NotFound);
}

const NOTHING: ParameterValues = ParameterValues {
    weight_trend: None,
    weight_momentum: None,
    weight_reversion: None,
    threshold: None,
    max_position: None,
    vol: None,
    tick_us: None,
};

#[test]
fn knobs_are_found_in_a_flat_object() {
    let t = parameter_texts(
        "{\"weight_trend\": 0.75 ,\"threshold\":\"0.1\",\"vol\" :\t12\u{a0}, \"max_position\":5}",
    );
    assert_eq!(t.weight_trend.as_deref(), Some("0.75"));
    assert_eq!(t.threshold.as_deref(), Some("0.1"));
    assert_eq!(t.vol.as_deref(), Some("12"));
    assert_eq!(t.max_position.as_deref(), Some("5"));
    assert!(t.tick_us.is_none() && t.weight_momentum.is_none());
    // The last knob may run to the end.
    assert_eq!(parameter_texts("\"tick_us\": 7").tick_us.as_deref(), Some("7"));
    assert!(parameter_texts("\"tick_us\" 7").tick_us.is_none());
}

#[test]
fn knobs_without_a_value_keep_their_defaults() {
    let p = StrategyParams::from_params_json("{}", &NOTHING);
    assert_eq!(p, StrategyParams::default());
    assert_eq!(p.weight_trend, num(0.5));
    assert_eq!(p.weight_momentum, num(0.3));
    assert_eq!(p.weight_reversion, num(0.2));
    assert_eq!(p.threshold, num(0.25));
    assert_eq!(p.vol, num(8.0));
    assert_eq!((p.max_position, p.tick_us, p.gates), (3, 40, false));
}

#[test]
fn whole_knobs_are_cut_down() {
    let values = ParameterValues {
        max_position: Some(num(-2.9)),
        tick_us: Some(num(-5.0)),
        vol: Some(num(9.5)),
        ..NOTHING
    };
    let p = StrategyParams::from_params_json("{\"strategy\":\"gates\"}", &values);
    assert_eq!((p.max_position, p.tick_us, p.gates), (-2, 0, true));
    assert_eq!(p.vol, num(9.5));
    let values = ParameterValues { max_position: Some(num(1e30)), ..NOTHING };
    assert_eq!(StrategyParams::from_params_json("gates", &values).max_position, i64::MAX);
    assert!(!StrategyParams::from_params_json("gates", &values).gates);
}

fn texts() -> KnobTexts {
    KnobTexts {
        weight_trend: "0.50".to_string(),
        weight_momentum: "0.30".to_string(),
        weight_reversion: "0.20".to_string(),
        threshold: "0.25".to_string(),
        vol: "8.0".to_string(),
    }
}

#[test]
fn runs_are_described_in_one_line() {
    let mut p = StrategyParams::default();
    assert_eq!(
        p.describe(&texts()),
        "composite trend=0.50 mom=0.30 rev=0.20 thr=0.25 maxpos=3 vol=8.0 tick=40us"
    );
    p.gates = true;
    p.max_position = i64::MIN;
    assert_eq!(
        p.describe(&texts()),
        "gate strategy (AND/OR bytecode) maxpos=-9223372036854775808 vol=8.0 tick=40us"
    );
}

#[test]
fn consumers_start_before_the_exchange() {
    let mut p = StrategyParams::default();
    let plan = launch_plan(&p, &texts(), "g.json");
    let programs: Vec<&str> = plan.iter().map(|s| s.program).collect();
    assert_eq!(programs, ["execution", "strategy", "exchange"]);
    let tags: Vec<&str> = plan.iter().map(|s| s.tag).collect();
    assert_eq!(tags, ["exec", "strat", "exch"]);
    let pair = |k: &'static str, v: &str| (k, v.to_string());
    assert_eq!(plan[0].env, vec![pair("CPU_CORE", "3"), pair("MAX_FILLS", "300")]);
    assert_eq!(
        plan[1].env,
        vec![
            pair("CPU_CORE", "2"),
            pair("THRESHOLD", "0.25"),
            pair("WEIGHT_TREND", "0.50"),
            pair("WEIGHT_MOMENTUM", "0.30"),
            pair("WEIGHT_REVERSION", "0.20"),
            pair("MAX_POSITION", "3"),
            pair("MAX_ORDERS", "300"),
        ]
    );
    assert_eq!(
        plan[2].env,
        vec![
            pair("CPU_CORE", "1"),
            pair("VOL", "8.0"),
            pair("TICK_US", "40"),
            pair("SEED", "42"),
        ]
    );
    p.gates = true;
    let plan = launch_plan(&p, &texts(), "g.json");
    assert_eq!(plan[1].env.last(), Some(&pair("STRATEGY_JSON", "g.json")));
}

#[test]
fn lines_are_tagged_and_sent_as_events() {
    assert_eq!(tagged_line("exec", "fill"), "[exec] fill");
    assert_eq!(event_message("a\nb\n"), "data: a b \n\n");
    assert_eq!(failure_answer("no such file"), "{\"ok\":false,\"error\":\"no such file\"}");
}
