//! The control plane of the strategy console: which request does what, which knobs the
//! browser set, and which processes to start with them.

use crate::num::Num;
use crate::text::{
    chars_of, decimal, find, find_word, law_searches_find_the_first_place, matches_at,
    push_decimal, signed_decimal, signed_text, stands_at, text_of, trim, without_blanks,
    without_quotes,
};
use vstd::prelude::*;
use vstd::string::StringExecFns;

verus! {

/// A studio run is finite: the strategy stops after this many orders, and the execution
/// stage once as many are filled.
pub const STUDIO_ORDERS: u64 = 300;

/// How long the launcher lets a consumer settle before it starts the next stage.
pub const SETTLE_MS: u64 = 400;

/// The request methods that the console tells apart.
#[derive(Clone, Copy, PartialEq, Eq, Structural, Debug)]
pub enum Verb {
    Get,
    Post,
    Other,
}

/// What a request asks for.
#[derive(Clone, Copy, PartialEq, Eq, Structural, Debug)]
pub enum Route {
    Index,
    Events,
    Run,
    Stop,
    NotFound,
}

/// The part of an address before its query.
pub open spec fn path_of(url: Seq<char>) -> Seq<char> {
    match find_word(url, seq!['?'], 0) {
        Some(k) => url.take(k),
        None => url,
    }
}

pub open spec fn routed(verb: Verb, url: Seq<char>) -> Route {
    let path = path_of(url);
    if verb is Get && (path == "/"@ || path == "/index.html"@) {
        Route::Index
    } else if verb is Get && path == "/events"@ {
        Route::Events
    } else if verb is Post && path == "/run"@ {
        Route::Run
    } else if verb is Post && path == "/stop"@ {
        Route::Stop
    } else {
        Route::NotFound
    }
}

/// What a request asks for, by its method and the path of its address.
pub fn route(verb: Verb, url: &str) -> (r: Route)
    ensures
        r == routed(verb, url@),
{
    let chars = chars_of(url);
    let mut mark: Vec<char> = Vec::new();
    mark.push('?');
    assert(mark@ =~= seq!['?']);
    let end: usize = match find(&chars, &mark, 0) {
        Some(k) => k,
        None => chars.len(),
    };
    let path = text_of(&chars, 0, end);
    assert(path@ =~= path_of(url@));
    let is_get = verb == Verb::Get;
    let is_post = verb == Verb::Post;
    if is_get && (crate::text::is_word(&path, "/") || crate::text::is_word(&path, "/index.html")) {
        Route::Index
    } else if is_get && crate::text::is_word(&path, "/events") {
        Route::Events
    } else if is_post && crate::text::is_word(&path, "/run") {
        Route::Run
    } else if is_post && crate::text::is_word(&path, "/stop") {
        Route::Stop
    } else {
        Route::NotFound
    }
}

/// Every change of the pipeline takes a post: a get never runs or stops anything.
pub proof fn law_get_changes_nothing(url: Seq<char>)
    ensures
        !(routed(Verb::Get, url) is Run || routed(Verb::Get, url) is Stop),
        routed(Verb::Other, url) is NotFound,
{
}

/// `key` in quotes.
pub open spec fn quoted_key(key: Seq<char>) -> Seq<char> {
    seq!['"'] + key + seq!['"']
}

/// The first position from `i` on that ends a value: a comma or a closing brace, or the
/// end of the text.
pub open spec fn value_end(s: Seq<char>, i: int) -> int
    decreases s.len() - i,
{
    if i >= s.len() || s[i] == ',' || s[i] == '}' {
        i
    } else {
        value_end(s, i + 1)
    }
}

/// The text that a body gives for `key`: what stands behind the first colon after the
/// first quoted `key`, up to the next comma or closing brace, without blanks and quotes.
pub open spec fn parameter(body: Seq<char>, key: Seq<char>) -> Option<Seq<char>> {
    match find_word(body, quoted_key(key), 0) {
        None => None,
        Some(k) => match find_word(body, seq![':'], k + quoted_key(key).len()) {
            None => None,
            Some(c) => Some(
                without_quotes(without_blanks(body.subrange(c + 1, value_end(body, c + 1)))),
            ),
        },
    }
}

fn quote_key(key: &str) -> (r: Vec<char>)
    ensures
        r@ == quoted_key(key@),
{
    let mut out: Vec<char> = Vec::new();
    out.push('"');
    let mut inner = chars_of(key);
    out.append(&mut inner);
    out.push('"');
    assert(out@ =~= quoted_key(key@));
    out
}

/// The text that a body gives for `key`.
fn read_parameter(body: &Vec<char>, key: &str) -> (r: Option<String>)
    ensures
        match r {
            Some(t) => parameter(body@, key@) == Some(t@),
            None => parameter(body@, key@) is None,
        },
{
    let pattern = quote_key(key);
    let at: usize = match find(body, &pattern, 0) {
        Some(k) => k,
        None => {
            return None;
        },
    };
    let mut colon: Vec<char> = Vec::new();
    colon.push(':');
    assert(colon@ =~= seq![':']);
    assert(at + pattern@.len() <= body.len());
    let c: usize = match find(body, &colon, at + pattern.len()) {
        Some(k) => k,
        None => {
            return None;
        },
    };
    let start: usize = c + 1;
    let mut end: usize = start;
    let ghost goal = value_end(body@, start as int);
    while end < body.len() && body[end] != ',' && body[end] != '}'
        invariant
            start <= end <= body@.len(),
            value_end(body@, end as int) == goal,
        decreases body@.len() - end,
    {
        end = end + 1;
    }
    let (a, b): (usize, usize) = trim(body, start, end, false);
    let (x, y): (usize, usize) = trim(body, a, b, true);
    Some(text_of(body, x, y))
}

/// The knobs as the browser wrote them.
#[derive(Debug)]
pub struct ParameterTexts {
    pub weight_trend: Option<String>,
    pub weight_momentum: Option<String>,
    pub weight_reversion: Option<String>,
    pub threshold: Option<String>,
    pub max_position: Option<String>,
    pub vol: Option<String>,
    pub tick_us: Option<String>,
}

pub open spec fn is_parameter(t: Option<String>, body: Seq<char>, key: Seq<char>) -> bool {
    match t {
        Some(s) => parameter(body, key) == Some(s@),
        None => parameter(body, key) is None,
    }
}

/// The knobs as the browser wrote them. A light scan: the browser sends a flat object.
pub fn parameter_texts(body: &str) -> (r: ParameterTexts)
    ensures
        is_parameter(r.weight_trend, body@, "weight_trend"@),
        is_parameter(r.weight_momentum, body@, "weight_momentum"@),
        is_parameter(r.weight_reversion, body@, "weight_reversion"@),
        is_parameter(r.threshold, body@, "threshold"@),
        is_parameter(r.max_position, body@, "max_position"@),
        is_parameter(r.vol, body@, "vol"@),
        is_parameter(r.tick_us, body@, "tick_us"@),
{
    let chars = chars_of(body);
    ParameterTexts {
        weight_trend: read_parameter(&chars, "weight_trend"),
        weight_momentum: read_parameter(&chars, "weight_momentum"),
        weight_reversion: read_parameter(&chars, "weight_reversion"),
        threshold: read_parameter(&chars, "threshold"),
        max_position: read_parameter(&chars, "max_position"),
        vol: read_parameter(&chars, "vol"),
        tick_us: read_parameter(&chars, "tick_us"),
    }
}

/// The knobs as numbers, where they are given and are numbers.
#[derive(Clone, Copy, PartialEq, Eq, Structural, Debug)]
pub struct ParameterValues {
    pub weight_trend: Option<Num>,
    pub weight_momentum: Option<Num>,
    pub weight_reversion: Option<Num>,
    pub threshold: Option<Num>,
    pub max_position: Option<Num>,
    pub vol: Option<Num>,
    pub tick_us: Option<Num>,
}

/// The knobs of a run.
#[derive(Clone, Copy, PartialEq, Eq, Structural, Debug)]
pub struct StrategyParams {
    pub weight_trend: Num,
    pub weight_momentum: Num,
    pub weight_reversion: Num,
    pub threshold: Num,
    pub max_position: i64,
    pub vol: Num,
    pub tick_us: u64,
    /// Run the graph of gates on the bytecode machine instead of the composite blend.
    pub gates: bool,
}

pub open spec fn or_default(v: Option<Num>, default: Num) -> Num {
    match v {
        Some(x) => x,
        None => default,
    }
}

pub open spec fn clamped_i64(n: int) -> i64 {
    if n > i64::MAX {
        i64::MAX
    } else if n < i64::MIN {
        i64::MIN
    } else {
        n as i64
    }
}

impl StrategyParams {
    /// Weights 0.5, 0.3 and 0.2, threshold 0.25, volatility 8.
    pub open spec fn standard() -> StrategyParams {
        StrategyParams {
            weight_trend: Num { bits: 0x3FE0_0000_0000_0000 },
            weight_momentum: Num { bits: 0x3FD3_3333_3333_3333 },
            weight_reversion: Num { bits: 0x3FC9_9999_9999_999A },
            threshold: Num { bits: 0x3FD0_0000_0000_0000 },
            max_position: 3,
            vol: Num { bits: 0x4020_0000_0000_0000 },
            tick_us: 40,
            gates: false,
        }
    }

    /// The knobs of a body with these values; a knob without one keeps its default.
    pub open spec fn of(body: Seq<char>, v: ParameterValues) -> StrategyParams {
        let d = StrategyParams::standard();
        StrategyParams {
            weight_trend: or_default(v.weight_trend, d.weight_trend),
            weight_momentum: or_default(v.weight_momentum, d.weight_momentum),
            weight_reversion: or_default(v.weight_reversion, d.weight_reversion),
            threshold: or_default(v.threshold, d.threshold),
            max_position: match v.max_position {
                Some(x) => clamped_i64(x.truncated()),
                None => d.max_position,
            },
            vol: or_default(v.vol, d.vol),
            tick_us: match v.tick_us {
                Some(x) => crate::tsc_calibration::as_count(x),
                None => d.tick_us,
            },
            gates: find_word(body, quoted_key("gates"@), 0) is Some,
        }
    }

    /// The knobs of a body. `values` holds what [`parameter_texts`] found, as numbers. The
    /// browser asks for the graph of gates by the word "gates" in quotes.
    pub fn from_params_json(body: &str, values: &ParameterValues) -> (r: Self)
        ensures
            r == StrategyParams::of(body@, *values),
    {
        let mut p = StrategyParams::default();
        if let Some(v) = values.weight_trend {
            p.weight_trend = v;
        }
        if let Some(v) = values.weight_momentum {
            p.weight_momentum = v;
        }
        if let Some(v) = values.weight_reversion {
            p.weight_reversion = v;
        }
        if let Some(v) = values.threshold {
            p.threshold = v;
        }
        if let Some(v) = values.max_position {
            p.max_position = v.to_i64();
        }
        if let Some(v) = values.vol {
            p.vol = v;
        }
        if let Some(v) = values.tick_us {
            p.tick_us = v.to_u64();
        }
        let chars = chars_of(body);
        let word = quote_key("gates");
        p.gates = find(&chars, &word, 0).is_some();
        p
    }
}

impl Default for StrategyParams {
    fn default() -> (r: Self)
        ensures
            r == StrategyParams::standard(),
    {
        StrategyParams {
            weight_trend: Num { bits: 0x3FE0_0000_0000_0000 },
            weight_momentum: Num { bits: 0x3FD3_3333_3333_3333 },
            weight_reversion: Num { bits: 0x3FC9_9999_9999_999A },
            threshold: Num { bits: 0x3FD0_0000_0000_0000 },
            max_position: 3,
            vol: Num { bits: 0x4020_0000_0000_0000 },
            tick_us: 40,
            gates: false,
        }
    }
}

/// The real-valued knobs of a run, written out by the host.
#[derive(Debug)]
pub struct KnobTexts {
    pub weight_trend: String,
    pub weight_momentum: String,
    pub weight_reversion: String,
    pub threshold: String,
    pub vol: String,
}

pub open spec fn description(p: StrategyParams, t: KnobTexts) -> Seq<char> {
    let tail = " maxpos="@ + signed_decimal(p.max_position as int) + " vol="@ + t.vol@ + " tick="@
        + decimal(p.tick_us as nat) + "us"@;
    if p.gates {
        "gate strategy (AND/OR bytecode)"@ + tail
    } else {
        "composite trend="@ + t.weight_trend@ + " mom="@ + t.weight_momentum@ + " rev="@
            + t.weight_reversion@ + " thr="@ + t.threshold@ + tail
    }
}

impl StrategyParams {
    /// The run in one line. `shown` holds the knobs as they are to be shown.
    pub fn describe(&self, shown: &KnobTexts) -> (r: String)
        ensures
            r@ == description(*self, *shown),
    {
        let mut out = String::new();
        if self.gates {
            out.append("gate strategy (AND/OR bytecode)");
        } else {
            out.append("composite trend=");
            out.append(shown.weight_trend.as_str());
            out.append(" mom=");
            out.append(shown.weight_momentum.as_str());
            out.append(" rev=");
            out.append(shown.weight_reversion.as_str());
            out.append(" thr=");
            out.append(shown.threshold.as_str());
        }
        out.append(" maxpos=");
        out.append(signed_text(self.max_position).as_str());
        out.append(" vol=");
        out.append(shown.vol.as_str());
        out.append(" tick=");
        push_decimal(&mut out, self.tick_us);
        out.append("us");
        assert(out@ =~= description(*self, *shown));
        out
    }
}

/// One process of the pipeline: its program, the tag of its output lines, and its
/// environment.
#[derive(Debug)]
pub struct Stage {
    pub program: &'static str,
    pub tag: &'static str,
    pub env: Vec<(&'static str, String)>,
}

/// A stage as mathematics.
#[verifier::ext_equal]
pub struct StagePlan {
    pub program: Seq<char>,
    pub tag: Seq<char>,
    pub env: Seq<(Seq<char>, Seq<char>)>,
}

impl Stage {
    pub open spec fn view(&self) -> StagePlan {
        StagePlan {
            program: self.program@,
            tag: self.tag@,
            env: Seq::new(self.env@.len(), |i: int| (self.env@[i].0@, self.env@[i].1@)),
        }
    }
}

pub open spec fn execution_plan() -> StagePlan {
    StagePlan {
        program: "execution"@,
        tag: "exec"@,
        env: seq![("CPU_CORE"@, "3"@), ("MAX_FILLS"@, decimal(STUDIO_ORDERS as nat))],
    }
}

/// The strategy runs the graph of gates only where the run asks for it.
pub open spec fn strategy_plan(p: StrategyParams, t: KnobTexts, graph: Seq<char>) -> StagePlan {
    let common = seq![
        ("CPU_CORE"@, "2"@),
        ("THRESHOLD"@, t.threshold@),
        ("WEIGHT_TREND"@, t.weight_trend@),
        ("WEIGHT_MOMENTUM"@, t.weight_momentum@),
        ("WEIGHT_REVERSION"@, t.weight_reversion@),
        ("MAX_POSITION"@, signed_decimal(p.max_position as int)),
        ("MAX_ORDERS"@, decimal(STUDIO_ORDERS as nat)),
    ];
    StagePlan {
        program: "strategy"@,
        tag: "strat"@,
        env: if p.gates {
            common.push(("STRATEGY_JSON"@, graph))
        } else {
            common
        },
    }
}

pub open spec fn exchange_plan(p: StrategyParams, t: KnobTexts) -> StagePlan {
    StagePlan {
        program: "exchange"@,
        tag: "exch"@,
        env: seq![
            ("CPU_CORE"@, "1"@),
            ("VOL"@, t.vol@),
            ("TICK_US"@, decimal(p.tick_us as nat)),
            ("SEED"@, "42"@),
        ],
    }
}

/// The processes of a run, in the order in which they are to be started: consumers first,
/// so that they are attached before the exchange starts producing. `full` holds the knobs
/// in full precision, `graph` is where the graph of gates lies.
pub fn launch_plan(p: &StrategyParams, full: &KnobTexts, graph: &str) -> (r: Vec<Stage>)
    ensures
        r@.len() == 3,
        r@[0]@ == execution_plan(),
        r@[1]@ == strategy_plan(*p, *full, graph@),
        r@[2]@ == exchange_plan(*p, *full),
{
    let mut orders = String::new();
    push_decimal(&mut orders, STUDIO_ORDERS);
    assert(orders@ =~= decimal(STUDIO_ORDERS as nat));
    let mut ticks = String::new();
    push_decimal(&mut ticks, p.tick_us);
    assert(ticks@ =~= decimal(p.tick_us as nat));

    let mut env: Vec<(&'static str, String)> = Vec::new();
    env.push(("CPU_CORE", "3".to_owned()));
    env.push(("MAX_FILLS", orders.clone()));
    let execution = Stage { program: "execution", tag: "exec", env };
    assert(execution@ =~= execution_plan());

    let mut env: Vec<(&'static str, String)> = Vec::new();
    env.push(("CPU_CORE", "2".to_owned()));
    env.push(("THRESHOLD", full.threshold.clone()));
    env.push(("WEIGHT_TREND", full.weight_trend.clone()));
    env.push(("WEIGHT_MOMENTUM", full.weight_momentum.clone()));
    env.push(("WEIGHT_REVERSION", full.weight_reversion.clone()));
    env.push(("MAX_POSITION", signed_text(p.max_position)));
    env.push(("MAX_ORDERS", orders));
    if p.gates {
        env.push(("STRATEGY_JSON", graph.to_owned()));
    }
    let strategy = Stage { program: "strategy", tag: "strat", env };
    assert(strategy@ =~= strategy_plan(*p, *full, graph@));

    let mut env: Vec<(&'static str, String)> = Vec::new();
    env.push(("CPU_CORE", "1".to_owned()));
    env.push(("VOL", full.vol.clone()));
    env.push(("TICK_US", ticks));
    env.push(("SEED", "42".to_owned()));
    let exchange = Stage { program: "exchange", tag: "exch", env };
    assert(exchange@ =~= exchange_plan(*p, *full));

    let mut stages: Vec<Stage> = Vec::new();
    stages.push(execution);
    stages.push(strategy);
    stages.push(exchange);
    stages
}

/// A line of a stage, with its tag.
pub fn tagged_line(tag: &str, line: &str) -> (r: String)
    ensures
        r@ == seq!['['] + tag@ + "] "@ + line@,
{
    let mut out = String::new();
    out.push('[');
    out.append(tag);
    out.append("] ");
    out.append(line);
    assert(out@ =~= seq!['['] + tag@ + "] "@ + line@);
    out
}

/// `line` with every line break as a blank.
pub open spec fn on_one_line(line: Seq<char>) -> Seq<char> {
    line.map_values(
        |c: char|
            if c == '\n' {
                ' '
            } else {
                c
            },
    )
}

/// A server-sent event that carries one line.
pub fn event_message(line: &str) -> (r: String)
    ensures
        r@ == "data: "@ + on_one_line(line@) + seq!['\n', '\n'],
{
    let chars = chars_of(line);
    let mut out = String::new();
    out.append("data: ");
    let ghost head = out@;
    let mut k: usize = 0;
    assert(out@ =~= head + on_one_line(line@.take(0)));
    while k < chars.len()
        invariant
            k <= chars@.len(),
            chars@ == line@,
            out@ == head + on_one_line(line@.take(k as int)),
        decreases chars@.len() - k,
    {
        let c: char = chars[k];
        if c == '\n' {
            out.push(' ');
        } else {
            out.push(c);
        }
        k = k + 1;
        assert(out@ =~= head + on_one_line(line@.take(k as int)));
    }
    assert(line@.take(k as int) =~= line@);
    out.push('\n');
    out.push('\n');
    assert(out@ =~= "data: "@ + on_one_line(line@) + seq!['\n', '\n']);
    out
}

/// A line cannot break out of its event: the message has no line break before its end.
pub proof fn law_events_are_single_lines(line: Seq<char>)
    ensures
        forall|i: int| 0 <= i < on_one_line(line).len() ==> #[trigger] on_one_line(line)[i] != '\n',
        on_one_line(line).len() == line.len(),
{
}

/// The answer to a launch that failed.
pub fn failure_answer(error: &str) -> (r: String)
    ensures
        r@ == "{\"ok\":false,\"error\":\""@ + error@ + "\"}"@,
{
    let mut out = String::new();
    out.append("{\"ok\":false,\"error\":\"");
    out.append(error);
    out.append("\"}");
    assert(out@ =~= "{\"ok\":false,\"error\":\""@ + error@ + "\"}"@);
    out
}

/// The path of an address is all of it up to its first question mark.
pub proof fn law_paths_end_at_the_query(url: Seq<char>)
    ensures
        ({
            let path = path_of(url);
            &&& path.len() <= url.len()
            &&& url.take(path.len() as int) == path
            &&& forall|i: int| 0 <= i < path.len() ==> #[trigger] path[i] != '?'
            &&& path.len() < url.len() ==> url[path.len() as int] == '?'
        }),
{
    let mark = seq!['?'];
    law_searches_find_the_first_place(url, mark, 0);
    let path = path_of(url);
    assert(url.take(url.len() as int) =~= url);
    assert forall|i: int| 0 <= i < path.len() implies #[trigger] path[i] != '?' by {
        assert(!matches_at(url, mark, i));
        assert(path[i] == url[i]);
        if url[i] == '?' {
            assert forall|j: int| 0 <= j < mark.len() implies url[i + j] == #[trigger] mark[j] by {}
        }
    }
    if let Some(k) = find_word(url, mark, 0) {
        assert(url[k + 0] == mark[0]);
    }
}

/// Where a request goes: the two names of the page and the events are got, a run and a stop
/// are posted, each by its own path; everything else is not found.
pub proof fn law_routes_are_by_method_and_path(verb: Verb, url: Seq<char>)
    ensures
        ({
            let path = path_of(url);
            let r = routed(verb, url);
            &&& r is Index <==> verb is Get && (path == "/"@ || path == "/index.html"@)
            &&& r is Events <==> verb is Get && path == "/events"@
            &&& r is Run <==> verb is Post && path == "/run"@
            &&& r is Stop <==> verb is Post && path == "/stop"@
        }),
{
    reveal_strlit("/");
    reveal_strlit("/index.html");
    reveal_strlit("/events");
    reveal_strlit("/run");
    reveal_strlit("/stop");
    assert("/events"@.len() == 7 && "/"@.len() == 1 && "/index.html"@.len() == 11);
    assert("/run"@.len() == 4 && "/stop"@.len() == 5);
}

/// A knob reads back from a flat object: the text between its colon and the comma or brace
/// behind it, without the blanks around it and the quotes around that, from wherever in the
/// object the knob first stands.
pub proof fn law_knobs_read_back(
    head: Seq<char>,
    key: Seq<char>,
    value: Seq<char>,
    tail: Seq<char>,
)
    requires
        find_word(head + quoted_key(key) + seq![':'] + value + tail, quoted_key(key), 0) == Some(
            head.len() as int,
        ),
        forall|i: int| 0 <= i < value.len() ==> #[trigger] value[i] != ',' && value[i] != '}',
        tail.len() > 0 ==> tail[0] == ',' || tail[0] == '}',
    ensures
        parameter(head + quoted_key(key) + seq![':'] + value + tail, key) == Some(
            without_quotes(without_blanks(value)),
        ),
        quoted_key(key)[0] == '"',
        quoted_key(key)[key.len() as int + 1] == '"',
        quoted_key(key).len() == key.len() + 2,
        quoted_key(key).subrange(1, key.len() as int + 1) == key,
{
    let q = quoted_key(key);
    assert(q.subrange(1, key.len() as int + 1) =~= key);
    let body = head + q + seq![':'] + value + tail;
    let c = head.len() as int + q.len();
    assert(body[c] == ':');
    assert(body.subrange(c, c + 1) =~= seq![':']);
    assert(stands_at(body, seq![':'], c));
    lemma_value_end(body, c + 1, c + 1 + value.len());
    assert(body.subrange(c + 1, c + 1 + value.len()) =~= value);
}

proof fn lemma_value_end(s: Seq<char>, i: int, end: int)
    requires
        0 <= i <= end <= s.len(),
        forall|k: int| i <= k < end ==> #[trigger] s[k] != ',' && s[k] != '}',
        end < s.len() ==> s[end] == ',' || s[end] == '}',
    ensures
        value_end(s, i) == end,
    decreases end - i,
{
    if i < end {
        lemma_value_end(s, i + 1, end);
    }
}

/// A knob that the browser does not give has no text.
pub proof fn law_missing_knobs_have_no_text(body: Seq<char>, key: Seq<char>)
    requires
        forall|e: int| 0 <= e ==> !#[trigger] matches_at(body, quoted_key(key), e),
    ensures
        parameter(body, key) is None,
{
    law_searches_find_the_first_place(body, quoted_key(key), 0);
    if let Some(k) = find_word(body, quoted_key(key), 0) {
        assert(matches_at(body, quoted_key(key), k));
    }
}

/// A run takes every knob that is given and the default of every other. The position limit
/// and the tick are cut down to whole numbers that fit. The graph of gates runs where the
/// body has the word in quotes.
pub proof fn law_runs_take_their_knobs(body: Seq<char>, v: ParameterValues)
    ensures
        ({
            let p = StrategyParams::of(body, v);
            &&& v.weight_trend matches Some(x) ==> p.weight_trend == x
            &&& v.weight_momentum matches Some(x) ==> p.weight_momentum == x
            &&& v.weight_reversion matches Some(x) ==> p.weight_reversion == x
            &&& v.threshold matches Some(x) ==> p.threshold == x
            &&& v.vol matches Some(x) ==> p.vol == x
            &&& v.max_position matches Some(x) ==> {
                &&& i64::MIN <= x.truncated() <= i64::MAX ==> p.max_position == x.truncated()
                &&& x.truncated() > i64::MAX ==> p.max_position == i64::MAX
                &&& x.truncated() < i64::MIN ==> p.max_position == i64::MIN
            }
            &&& v.tick_us matches Some(x) ==> {
                &&& x.whole() <= u64::MAX ==> p.tick_us == x.whole()
                &&& x.whole() > u64::MAX ==> p.tick_us == u64::MAX
            }
            &&& v.weight_trend is None ==> p.weight_trend.bits == 0x3FE0_0000_0000_0000
            &&& v.weight_momentum is None ==> p.weight_momentum.bits == 0x3FD3_3333_3333_3333
            &&& v.weight_reversion is None ==> p.weight_reversion.bits == 0x3FC9_9999_9999_999A
            &&& v.threshold is None ==> p.threshold.bits == 0x3FD0_0000_0000_0000
            &&& v.vol is None ==> p.vol.bits == 0x4020_0000_0000_0000
            &&& v.max_position is None ==> p.max_position == 3
            &&& v.tick_us is None ==> p.tick_us == 40
            &&& p.gates <==> exists|e: int| 0 <= e && #[trigger] matches_at(
                body,
                quoted_key("gates"@),
                e,
            )
        }),
{
    let word = quoted_key("gates"@);
    law_searches_find_the_first_place(body, word, 0);
    if let Some(k) = find_word(body, word, 0) {
        assert(matches_at(body, word, k));
    }
}

/// The processes of a run get the knobs of the run: the strategy its weights, its threshold
/// and its limits, and the graph exactly where the run asks for it; the venue its
/// volatility and its tick. Each runs on a core of its own, the run is finite, and a stage
/// has 400 ms to settle.
pub proof fn law_plans_hand_the_knobs_over(p: StrategyParams, t: KnobTexts, graph: Seq<char>)
    ensures
        ({
            let s = strategy_plan(p, t, graph).env;
            let e = exchange_plan(p, t).env;
            let x = execution_plan().env;
            &&& gives(s, "THRESHOLD"@, t.threshold@)
            &&& gives(s, "WEIGHT_TREND"@, t.weight_trend@)
            &&& gives(s, "WEIGHT_MOMENTUM"@, t.weight_momentum@)
            &&& gives(s, "WEIGHT_REVERSION"@, t.weight_reversion@)
            &&& gives(s, "MAX_POSITION"@, signed_decimal(p.max_position as int))
            &&& gives(s, "MAX_ORDERS"@, decimal(300))
            &&& gives(x, "MAX_FILLS"@, decimal(300))
            &&& gives(e, "VOL"@, t.vol@)
            &&& gives(e, "TICK_US"@, decimal(p.tick_us as nat))
            &&& gives(e, "SEED"@, "42"@)
            &&& gives(e, "CPU_CORE"@, "1"@)
            &&& gives(s, "CPU_CORE"@, "2"@)
            &&& gives(x, "CPU_CORE"@, "3"@)
            &&& p.gates ==> gives(s, "STRATEGY_JSON"@, graph) && s.len() == 8
            &&& !p.gates ==> s.len() == 7
            &&& e.len() == 4
            &&& x.len() == 2
            &&& SETTLE_MS == 400
            &&& execution_plan().program == "execution"@ && execution_plan().tag == "exec"@
            &&& strategy_plan(p, t, graph).program == "strategy"@ && strategy_plan(
                p,
                t,
                graph,
            ).tag == "strat"@
            &&& exchange_plan(p, t).program == "exchange"@ && exchange_plan(p, t).tag == "exch"@
        }),
{
    let s = strategy_plan(p, t, graph).env;
    let e = exchange_plan(p, t).env;
    let x = execution_plan().env;
    assert(s[0].1 == "2"@ && s[1].1 == t.threshold@ && s[2].1 == t.weight_trend@);
    assert(s[3].1 == t.weight_momentum@ && s[4].1 == t.weight_reversion@);
    assert(s[5].1 == signed_decimal(p.max_position as int) && s[6].1 == decimal(300));
    if p.gates {
        assert(s[7].1 == graph);
    }
    assert(e[0].1 == "1"@ && e[1].1 == t.vol@ && e[2].1 == decimal(p.tick_us as nat));
    assert(e[3].1 == "42"@);
    assert(x[0].1 == "3"@ && x[1].1 == decimal(300));
}

/// The environment gives this value to this name.
pub open spec fn gives(env: Seq<(Seq<char>, Seq<char>)>, name: Seq<char>, value: Seq<char>) -> bool {
    exists|i: int| 0 <= i < env.len() && (#[trigger] env[i]).0 == name && env[i].1 == value
}

/// An event keeps its line but for the line breaks, which become blanks.
pub proof fn law_events_keep_their_text(line: Seq<char>, i: int)
    requires
        0 <= i < line.len(),
    ensures
        line[i] != '\n' ==> on_one_line(line)[i] == line[i],
        line[i] == '\n' ==> on_one_line(line)[i] == ' ',
{
}

/// The description of a run names the kind of strategy and, in order, all the knobs that it
/// uses.
pub proof fn law_descriptions_name_the_knobs(p: StrategyParams, t: KnobTexts)
    ensures
        p.gates ==> description(p, t) == "gate strategy (AND/OR bytecode)"@ + (" maxpos="@
            + signed_decimal(p.max_position as int) + " vol="@ + t.vol@ + " tick="@ + decimal(
            p.tick_us as nat,
        ) + "us"@),
        !p.gates ==> description(p, t) == "composite trend="@ + t.weight_trend@ + " mom="@
            + t.weight_momentum@ + " rev="@ + t.weight_reversion@ + " thr="@ + t.threshold@ + (
        " maxpos="@ + signed_decimal(p.max_position as int) + " vol="@ + t.vol@ + " tick="@
            + decimal(p.tick_us as nat) + "us"@),
{
}

/// A knob's text is there exactly where the body gives the knob, and is what it gives.
pub proof fn law_knob_texts_are_what_is_given(t: Option<String>, body: Seq<char>, key: Seq<char>)
    requires
        is_parameter(t, body, key),
    ensures
        t is Some <==> parameter(body, key) is Some,
        t matches Some(s) ==> s@ == parameter(body, key)->0,
{
}

} // verus!
