use microknot_core::api::{failure_reply, guess_content_type, invalid_body_message, not_found_message, StoreCall};
use microknot_core::engine::topo_order;
use microknot_core::error::Error;
use microknot_core::item::Item;
use microknot_core::json::{JsonMap, JsonValue};
use microknot_core::knot::{KnotDescriptor, KnotFactory, Registry};
use microknot_core::knots::filter::{self, Operator};
use microknot_core::knots::http::{HttpFailure, HttpReply, HttpStage, MAX_BODY};
use microknot_core::model::{Connection, Knot, Workflow};
use microknot_core::number::{FloatNumber, JsonNumber};
use microknot_core::run::{Action, Event, Run, RunResult};
use microknot_core::json::to_json_string;
use microknot_core::templ::{render_param, render_string, resolve, Env};
use microknot_core::knots::ai::ai_output;
use microknot_core::validate::{find_cycle, validate, ValidationError};
use serde_json::Value;

fn to_number(n: &serde_json::Number) -> JsonNumber {
    if let Some(u) = n.as_u64() {
        JsonNumber::PosInt(u)
    } else if let Some(i) = n.as_i64() {
        JsonNumber::NegInt(i)
    } else {
        let f = n.as_f64().unwrap();
        let bits = f.to_bits();
        let negative = bits >> 63 == 1;
        let exp = ((bits >> 52) & 0x7ff) as i32;
        let frac = bits & ((1u64 << 52) - 1);
        let (mantissa, exponent) = if exp == 0 { (frac, -1074) } else { (frac | (1u64 << 52), exp - 1075) };
        JsonNumber::Float(FloatNumber { negative, mantissa, exponent, text: n.to_string() })
    }
}

fn to_lib(v: &Value) -> JsonValue {
    match v {
        Value::Null => JsonValue::Null,
        Value::Bool(b) => JsonValue::Bool(*b),
        Value::Number(n) => JsonValue::Number(to_number(n)),
        Value::String(s) => JsonValue::String(s.clone()),
        Value::Array(a) => JsonValue::Array(a.iter().map(to_lib).collect()),
        Value::Object(m) => {
            JsonValue::Object(JsonMap::from_pairs(m.iter().map(|(k, v)| (k.clone(), to_lib(v))).collect()))
        }
    }
}

fn to_serde(v: &JsonValue) -> Value {
    match v {
        JsonValue::Null => Value::Null,
        JsonValue::Bool(b) => Value::Bool(*b),
        JsonValue::Number(JsonNumber::PosInt(u)) => Value::from(*u),
        JsonValue::Number(JsonNumber::NegInt(i)) => Value::from(*i),
        JsonValue::Number(JsonNumber::Float(f)) => {
            // Two half steps keep subnormal values exact: 2^-1074 alone underflows.
            let half = f.exponent / 2;
            let m = f.mantissa as f64 * 2f64.powi(half) * 2f64.powi(f.exponent - half);
            Value::from(if f.negative { -m } else { m })
        }
        JsonValue::String(s) => Value::String(s.clone()),
        JsonValue::Array(a) => Value::Array(a.iter().map(to_serde).collect()),
        JsonValue::Object(m) => {
            Value::Object(m.entries.iter().map(|(k, v)| (k.clone(), to_serde(v))).collect())
        }
    }
}

fn j(text: &str) -> JsonValue {
    to_lib(&serde_json::from_str::<Value>(text).unwrap())
}

fn v(text: &str) -> Value {
    serde_json::from_str::<Value>(text).unwrap()
}

fn item(text: &str) -> Item {
    Item::new(j(text))
}

fn conn(from: &str, out: usize, to: &str) -> Connection {
    Connection { from: from.to_string(), from_output: out, to: to.to_string(), to_input: 0 }
}

fn wf(knots: Vec<(&str, &str, &str)>, connections: Vec<Connection>) -> Workflow {
    Workflow {
        id: "wf".to_string(),
        name: "W".to_string(),
        knots: knots.into_iter().map(|(id, kind, params)| Knot::new(id, kind, j(params))).collect(),
        connections,
        active: false,
    }
}

fn messages(errors: Vec<ValidationError>) -> Vec<String> {
    errors.into_iter().map(|e| e.message).collect()
}

/// Runs a workflow, recording the printed lines and the requests, with no
/// environment and no replies.
fn drive_log(w: Workflow, body: Option<JsonValue>) -> (Result<RunResult, Error>, Vec<String>) {
    let registry = Registry::default();
    let mut run = match Run::start(w, &registry, body, Env::empty()) {
        Ok(r) => r,
        Err(e) => return (Err(e), Vec::new()),
    };
    let mut lines = Vec::new();
    let mut event = Event::Done;
    loop {
        match run.step(event) {
            Action::Finish(r) => return (r, lines),
            Action::Print(l) => {
                lines.extend(l);
                event = Event::Done;
            }
            Action::ReadEnv(_) => event = Event::Env(None),
            Action::Send(_) => event = Event::Replies(Vec::new()),
            _ => event = Event::Done,
        }
    }
}

// ---------------------------------------------------------------------------
// Run order
// ---------------------------------------------------------------------------

#[test]
fn run_order_starts_with_sources_by_id_and_keeps_connections() {
    let w = wf(
        vec![("d", "notify.log", "{}"), ("b", "notify.log", "{}"), ("c", "notify.log", "{}"), ("a", "notify.log", "{}")],
        vec![conn("b", 0, "d"), conn("a", 0, "c"), conn("c", 0, "d")],
    );
    let order = topo_order(&w).ok().unwrap();
    assert_eq!(order, vec!["a", "b", "c", "d"]);
}

#[test]
fn run_order_refuses_unknown_knots_first() {
    let w = wf(vec![("a", "notify.log", "{}"), ("a", "notify.log", "{}")], vec![conn("a", 0, "zz")]);
    let err = topo_order(&w).err().unwrap();
    assert_eq!(err.message(), "invalid workflow: connection references unknown knot: `a` -> `zz`");
}

#[test]
fn run_order_refuses_repeated_ids_as_a_cycle() {
    let w = wf(vec![("a", "notify.log", "{}"), ("a", "notify.log", "{}")], vec![]);
    let err = topo_order(&w).err().unwrap();
    assert_eq!(err.message(), "invalid workflow: workflow contains a cycle");
}

#[test]
fn run_order_refuses_self_loops() {
    let w = wf(vec![("a", "notify.log", "{}")], vec![conn("a", 0, "a")]);
    assert!(topo_order(&w).is_err());
}

// ---------------------------------------------------------------------------
// Validation
// ---------------------------------------------------------------------------

#[test]
fn validation_reports_every_problem_in_order() {
    let mut w = wf(
        vec![("a", "transform.filter", "{}"), ("a", "nope", "{}"), (" ", "notify.log", "{}")],
        vec![conn("a", 2, "x"), conn("a", 2, "x")],
    );
    w.name = "".to_string();
    let msgs = messages(validate(&w).err().unwrap());
    assert_eq!(
        msgs,
        vec![
            "workflow name must not be empty",
            "duplicate knot id 'a'",
            "knot id must not be empty",
            "connection references unknown knot 'x' (to)",
            "connection references unknown knot 'x' (to)",
            "duplicate connection a (output 2) -> x (input 0)",
            "unknown knot type 'nope'",
        ]
    );
}

#[test]
fn validation_reports_missing_outputs() {
    let w = wf(vec![("a", "notify.log", "{}"), ("b", "notify.log", "{}")], vec![conn("a", 1, "b")]);
    let msgs = messages(validate(&w).err().unwrap());
    assert_eq!(msgs, vec!["knot 'a' (type notify.log) has no output 1, only 1 output(s)"]);
}

#[test]
fn filter_has_two_outputs() {
    let w = wf(vec![("a", "transform.filter", "{}"), ("b", "notify.log", "{}")], vec![conn("a", 1, "b")]);
    assert!(validate(&w).is_ok());
}

#[test]
fn cycle_lists_knots_behind_the_cycle() {
    let w = wf(
        vec![("s", "notify.log", "{}"), ("a", "notify.log", "{}"), ("b", "notify.log", "{}"), ("t", "notify.log", "{}")],
        vec![conn("s", 0, "a"), conn("a", 0, "b"), conn("b", 0, "a"), conn("b", 0, "t")],
    );
    assert_eq!(find_cycle(&w), Some(vec!["a".to_string(), "b".to_string(), "t".to_string()]));
    let msgs = messages(validate(&w).err().unwrap());
    assert_eq!(msgs, vec!["cycle detected involving knots: a, b, t"]);
}

#[test]
fn self_loops_are_listed_after_the_rest() {
    let w = wf(vec![("a", "notify.log", "{}"), ("b", "notify.log", "{}")], vec![conn("b", 0, "b"), conn("zz", 0, "zz")]);
    assert_eq!(find_cycle(&w), Some(vec!["b".to_string(), "zz".to_string()]));
}

#[test]
fn acyclic_workflows_have_no_cycle() {
    let w = wf(
        vec![("a", "notify.log", "{}"), ("b", "notify.log", "{}"), ("c", "notify.log", "{}")],
        vec![conn("a", 0, "b"), conn("a", 0, "c"), conn("b", 0, "c")],
    );
    assert_eq!(find_cycle(&w), None);
}

// ---------------------------------------------------------------------------
// Runs
// ---------------------------------------------------------------------------

#[test]
fn webhook_seeds_the_run_and_items_flow_downstream() {
    let w = wf(
        vec![
            ("hook", "trigger.webhook", "{}"),
            ("set", "transform.set", r#"{ "assignments": [{ "field": "greeting", "value": "hi {{ $json.name }}" }] }"#),
            ("log", "notify.log", r#"{ "message": "{{ $json.greeting }}" }"#),
        ],
        vec![conn("hook", 0, "set"), conn("set", 0, "log")],
    );
    let (result, lines) = drive_log(w, Some(j(r#"{ "name": "ada" }"#)));
    let result = result.ok().unwrap();
    assert_eq!(lines, vec!["[wf] hi ada"]);
    let steps: Vec<(String, String, String, usize)> =
        result.steps.iter().map(|s| (s.knot.clone(), s.kind.clone(), s.status.clone(), s.items)).collect();
    assert_eq!(
        steps,
        vec![
            ("hook".to_string(), "trigger.webhook".to_string(), "ok".to_string(), 1),
            ("set".to_string(), "transform.set".to_string(), "ok".to_string(), 1),
            ("log".to_string(), "notify.log".to_string(), "ok".to_string(), 1),
        ]
    );
}

#[test]
fn filter_branches_reach_their_own_knots() {
    let w = wf(
        vec![
            ("f", "transform.filter", r#"{ "conditions": [{ "field": "age", "operator": "gte", "value": 18 }] }"#),
            ("adult", "notify.log", r#"{ "message": "adult {{ $json.age }}" }"#),
            ("minor", "notify.log", r#"{ "message": "minor {{ $json.age }}" }"#),
        ],
        vec![conn("f", 0, "adult"), conn("f", 1, "minor")],
    );
    let registry = Registry::default();
    let mut run = Run::start(w, &registry, None, Env::empty()).ok().unwrap();
    // The filter's input is the seed, an empty object: it has no age, so it goes to output 1.
    assert!(matches!(run.step(Event::Done), Action::Continue));
    match run.step(Event::Done) {
        Action::Print(lines) => assert!(lines.is_empty()),
        _ => panic!("expected the adult log to print nothing"),
    }
    assert!(matches!(run.step(Event::Done), Action::Continue));
    match run.step(Event::Done) {
        Action::Print(lines) => assert_eq!(lines, vec!["[wf] minor "]),
        _ => panic!("expected the minor log to print"),
    }
    assert!(matches!(run.step(Event::Done), Action::Continue));
    match run.step(Event::Done) {
        Action::Finish(Ok(result)) => {
            let counts: Vec<usize> = result.steps.iter().map(|s| s.items).collect();
            assert_eq!(counts, vec![1, 0, 1]);
        }
        _ => panic!("expected the run to finish"),
    }
    assert!(run.is_over());
}

#[test]
fn an_empty_delivery_is_not_replaced_by_the_seed() {
    let w = wf(
        vec![
            ("f", "transform.filter", r#"{ "conditions": [{ "field": "x", "operator": "exists" }] }"#),
            ("log", "notify.log", "{}"),
        ],
        vec![conn("f", 0, "log")],
    );
    let (result, lines) = drive_log(w, None);
    assert!(lines.is_empty());
    let counts: Vec<usize> = result.ok().unwrap().steps.iter().map(|s| s.items).collect();
    assert_eq!(counts, vec![1, 0]);
}

#[test]
fn delay_asks_for_a_sleep() {
    let w = wf(vec![("d", "transform.delay", r#"{ "milliseconds": 25 }"#)], vec![]);
    let registry = Registry::default();
    let mut run = Run::start(w, &registry, None, Env::empty()).ok().unwrap();
    assert!(matches!(run.step(Event::Done), Action::Sleep(25)));
    assert!(matches!(run.step(Event::Done), Action::Continue));
    assert!(matches!(run.step(Event::Done), Action::Finish(Ok(_))));
}

#[test]
fn http_requests_are_templated_and_replies_become_items() {
    let w = wf(
        vec![
            ("h", "http.request", r#"{ "method": "POST", "url": "https://x.dev/{{ $json.id }}", "headers": { "X-Id": "{{ $json.id }}" }, "body": { "n": "{{ $json.id }}" } }"#),
            ("log", "notify.log", r#"{ "message": "{{ $json.status }} {{ $json.body.ok }}" }"#),
        ],
        vec![conn("h", 0, "log")],
    );
    let registry = Registry::default();
    let mut run = Run::start(w, &registry, Some(j(r#"{ "id": 7 }"#)), Env::empty()).ok().unwrap();
    match run.step(Event::Done) {
        Action::Send(calls) => {
            assert_eq!(calls.len(), 1);
            assert_eq!(calls[0].method, "POST");
            assert_eq!(calls[0].url, "https://x.dev/7");
            assert_eq!(calls[0].headers, vec![("X-Id".to_string(), "7".to_string())]);
            assert_eq!(calls[0].body, r#"{"n":7}"#);
        }
        _ => panic!("expected a request"),
    }
    let reply = HttpReply {
        status: 201,
        headers: vec![("content-type".to_string(), "application/json".to_string())],
        body_text: r#"{"ok":true}"#.to_string(),
        body_json: Some(j(r#"{"ok":true}"#)),
    };
    assert!(matches!(run.step(Event::Replies(vec![Ok(reply)])), Action::Continue));
    match run.step(Event::Done) {
        Action::Print(lines) => assert_eq!(lines, vec!["[wf] 201 true"]),
        _ => panic!("expected the log to print"),
    }
}

#[test]
fn http_failure_ends_the_run() {
    let w = wf(vec![("h", "http.request", r#"{ "url": "https://x.dev" }"#)], vec![]);
    let registry = Registry::default();
    let mut run = Run::start(w, &registry, None, Env::empty()).ok().unwrap();
    assert!(matches!(run.step(Event::Done), Action::Send(_)));
    let failure = HttpFailure { stage: HttpStage::Send, message: "connection refused".to_string() };
    match run.step(Event::Replies(vec![Err(failure)])) {
        Action::Finish(Err(e)) => assert_eq!(
            e.message(),
            "knot execution failed: knot `h` (http.request) failed: knot execution failed: connection refused"
        ),
        _ => panic!("expected the run to fail"),
    }
}

#[test]
fn email_key_from_the_environment_and_reply() {
    let w = wf(
        vec![("m", "notify.resend", r#"{ "from": "a@x.dev", "to": "{{ $json.to }}", "subject": "hi" }"#)],
        vec![],
    );
    let registry = Registry::default();
    let mut run = Run::start(w, &registry, Some(j(r#"{ "to": "b@x.dev" }"#)), Env::empty()).ok().unwrap();
    match run.step(Event::Done) {
        Action::ReadEnv(name) => assert_eq!(name, "RESEND_API_KEY"),
        _ => panic!("expected an environment read"),
    }
    match run.step(Event::Env(Some("re_123".to_string()))) {
        Action::Send(calls) => {
            assert_eq!(calls[0].url, "https://api.resend.com/emails");
            assert_eq!(calls[0].max_body, None);
            assert_eq!(calls[0].headers[0], ("Authorization".to_string(), "Bearer re_123".to_string()));
            assert_eq!(calls[0].body, r#"{"from":"a@x.dev","subject":"hi","to":"b@x.dev"}"#);
        }
        _ => panic!("expected a request"),
    }
    let failure = HttpFailure { stage: HttpStage::Send, message: "timeout".to_string() };
    match run.step(Event::Replies(vec![Err(failure)])) {
        Action::Finish(Err(e)) => assert!(e.message().ends_with("resend request failed: timeout")),
        _ => panic!("expected the run to fail"),
    }
}

#[test]
fn unknown_type_fails_after_earlier_knots_ran() {
    let w = wf(vec![("a", "notify.log", "{}"), ("b", "no.such", "{}")], vec![conn("a", 0, "b")]);
    let (result, lines) = drive_log(w, None);
    assert_eq!(lines, vec!["[wf] {}"]);
    assert_eq!(result.err().unwrap().message(), "invalid workflow: unknown knot type `no.such`");
}

// ---------------------------------------------------------------------------
// Registry
// ---------------------------------------------------------------------------

#[test]
fn default_registry_is_sorted_by_kind() {
    let registry = Registry::default();
    let kinds: Vec<&str> = registry.kinds().iter().map(|d| d.kind).collect();
    assert_eq!(
        kinds,
        vec![
            "http.request",
            "notify.log",
            "notify.resend",
            "transform.delay",
            "transform.filter",
            "transform.set",
            "trigger.schedule",
            "trigger.webhook"
        ]
    );
    assert_eq!(registry.catalog().len(), 8);
    assert!(registry.descriptor("ai.call").is_none());
}

#[test]
fn register_replaces_a_kind_and_keeps_order() {
    let mut registry = Registry::default();
    registry.register(
        KnotDescriptor { kind: "notify.log", name: "Quiet", description: "", output_count: 3, input_count: 1 },
        KnotFactory::Log,
        Vec::new(),
    );
    registry.register(
        KnotDescriptor { kind: "a.first", name: "First", description: "", output_count: 1, input_count: 1 },
        KnotFactory::Log,
        Vec::new(),
    );
    let kinds: Vec<&str> = registry.kinds().iter().map(|d| d.kind).collect();
    assert_eq!(kinds.len(), 9);
    assert_eq!(kinds[0], "a.first");
    assert_eq!(registry.descriptor("notify.log").unwrap().name, "Quiet");
    assert_eq!(registry.descriptor("notify.log").unwrap().output_count, 3);
    assert_eq!(registry.schema("notify.log").unwrap().len(), 0);
}

// ---------------------------------------------------------------------------
// Knots
// ---------------------------------------------------------------------------

#[test]
fn invalid_regex_fails_the_filter() {
    let knot = filter::factory(&j(r#"{ "conditions": [{ "field": "name", "operator": "regex", "value": "(" }] }"#));
    match knot.run(vec![item(r#"{ "name": "x" }"#)], &Env::empty()) {
        Err(Error::Knot(m)) => assert!(m.contains("regex parse error"), "{m}"),
        _ => panic!("expected the regex to be refused"),
    }
}

#[test]
fn numbers_compare_as_doubles() {
    let knot = filter::factory(&j(r#"{ "conditions": [{ "field": "n", "operator": "lt", "value": 2.5 }] }"#));
    let out = knot.run(vec![item(r#"{ "n": 2 }"#), item(r#"{ "n": 3 }"#), item(r#"{ "n": -1 }"#)], &Env::empty()).ok().unwrap();
    let yes: Vec<Value> = out[0].iter().map(|i| to_serde(&i.json)).collect();
    assert_eq!(yes, vec![v(r#"{ "n": 2 }"#), v(r#"{ "n": -1 }"#)]);
}

#[test]
fn operators_parse_by_name() {
    assert!(matches!(Operator::parse("gte"), Some(Operator::Gte)));
    assert!(matches!(Operator::parse("regex"), Some(Operator::Regex)));
    assert!(Operator::parse("approx").is_none());
}

// ---------------------------------------------------------------------------
// Builder
// ---------------------------------------------------------------------------

#[test]
fn builder_ids_are_hyphenated_uuids() {
    let b = Workflow::new("x").knot("a", "notify.log", j("{}")).build().ok().unwrap();
    assert_eq!(b.id.len(), 36);
    for (i, c) in b.id.chars().enumerate() {
        if [8, 13, 18, 23].contains(&i) {
            assert_eq!(c, '-');
        } else {
            assert!(c.is_ascii_hexdigit() && !c.is_ascii_uppercase());
        }
    }
    let chars: Vec<char> = b.id.chars().collect();
    assert_eq!(chars[14], '4');
    assert!(['8', '9', 'a', 'b'].contains(&chars[19]));
    let other = Workflow::new("x").knot("a", "notify.log", j("{}")).build().ok().unwrap();
    assert_ne!(b.id, other.id);
}

// ---------------------------------------------------------------------------
// Errors and the API's rules
// ---------------------------------------------------------------------------

#[test]
fn error_texts() {
    assert_eq!(Error::Serde("x".to_string()).message(), "JSON error: x");
    assert_eq!(Error::Sql("x".to_string()).message(), "SQLite error: x");
    assert_eq!(Error::Io("x".to_string()).message(), "I/O error: x");
    assert_eq!(Error::InvalidWorkflow("x".to_string()).message(), "invalid workflow: x");
    assert_eq!(Error::Knot("x".to_string()).message(), "knot execution failed: x");
    assert_eq!(Error::NotFound { id: "w".to_string() }.message(), "workflow with id 'w' not found");
    assert_eq!(Error::Duplicate { id: "w".to_string() }.message(), "workflow with id 'w' already exists");
}

#[test]
fn store_failures_map_to_statuses() {
    let dup = Error::Duplicate { id: "w".to_string() };
    assert_eq!(failure_reply(StoreCall::Create, &dup), (409, "workflow 'w' already exists".to_string()));
    assert_eq!(
        failure_reply(StoreCall::Update, &dup),
        (500, "internal error: workflow with id 'w' already exists".to_string())
    );
    let missing = Error::NotFound { id: "w".to_string() };
    assert_eq!(failure_reply(StoreCall::Update, &missing), (404, "workflow 'w' not found".to_string()));
    assert_eq!(failure_reply(StoreCall::Get, &Error::Sql("busy".to_string())).0, 500);
    assert_eq!(not_found_message("w"), "workflow 'w' not found");
    assert_eq!(invalid_body_message("eof"), "invalid JSON body: eof");
}

#[test]
fn content_types_follow_the_last_extension() {
    assert_eq!(guess_content_type("index.html"), "text/html; charset=utf-8");
    assert_eq!(guess_content_type("assets/app.min.js"), "application/javascript; charset=utf-8");
    assert_eq!(guess_content_type("logo.svg"), "image/svg+xml");
    assert_eq!(guess_content_type("photo.JPG"), "application/octet-stream");
    assert_eq!(guess_content_type("favicon.ico"), "image/x-icon");
    assert_eq!(guess_content_type("README"), "application/octet-stream");
    assert_eq!(guess_content_type("json"), "application/json");
    assert_eq!(guess_content_type("fonts/a.woff2"), "font/woff2");
}

// ---------------------------------------------------------------------------
// Set and filter laws on concrete values
// ---------------------------------------------------------------------------

#[test]
fn a_set_path_reads_back() {
    let root = j(r#"{ "a": { "b": 1 }, "z": [1, 2] }"#);
    let out = microknot_core::knots::set::set_path(root, "a.c.d", j("[true]"));
    let got = resolve("$json.a.c.d", &Item::new(out), &Env::empty()).unwrap();
    assert_eq!(to_serde(&got), v("[true]"));
}

#[test]
fn a_set_path_through_a_scalar_leaves_it() {
    let root = j(r#"{ "a": 5 }"#);
    let out = microknot_core::knots::set::set_path(root, "a.b", j("1"));
    assert_eq!(to_serde(&out), v(r#"{ "a": 5 }"#));
    let deeper = microknot_core::knots::set::set_path(j(r#"{ "a": 5 }"#), "a.b.c", j("1"));
    assert_eq!(to_serde(&deeper), v(r#"{ "a": { "b": { "c": 1 } } }"#));
}

#[test]
fn filter_sends_each_item_to_one_output() {
    let knot = filter::factory(&j(r#"{ "mode": "any", "conditions": [
        { "field": "a", "operator": "eq", "value": 1 },
        { "field": "b", "operator": "exists" }
    ] }"#));
    let input = vec![
        item(r#"{ "a": 1 }"#),
        item(r#"{ "a": 2 }"#),
        item(r#"{ "a": 2, "b": null }"#),
        item(r#"{ "c": 0 }"#),
    ];
    let out = knot.run(input, &Env::empty()).ok().unwrap();
    let yes: Vec<Value> = out[0].iter().map(|i| to_serde(&i.json)).collect();
    let no: Vec<Value> = out[1].iter().map(|i| to_serde(&i.json)).collect();
    assert_eq!(yes, vec![v(r#"{ "a": 1 }"#), v(r#"{ "a": 2, "b": null }"#)]);
    assert_eq!(no, vec![v(r#"{ "a": 2 }"#), v(r#"{ "c": 0 }"#)]);
}

// ---------------------------------------------------------------------------
// Templates, JSON text and numbers
// ---------------------------------------------------------------------------

#[test]
fn unclosed_template_stays_as_it_is() {
    let it = item(r#"{ "a": 1 }"#);
    assert_eq!(render_string("x {{ $json.a", &it, &Env::empty()), "x {{ $json.a");
    assert_eq!(render_string("{{ $json.a }} and {{ $json.a", &it, &Env::empty()), "1 and {{ $json.a");
}

#[test]
fn non_string_values_render_as_json_text() {
    let it = item(r#"{ "user": { "name": "ada" }, "list": [1, "x"] }"#);
    assert_eq!(render_string("u={{ $json.user }} l={{ $json.list }}", &it, &Env::empty()), r#"u={"name":"ada"} l=[1,"x"]"#);
    assert_eq!(render_string("{{$json}}", &item(r#"{"k":null}"#), &Env::empty()), r#"{"k":null}"#);
    assert_eq!(render_string("{{ $env.HOME }}", &it, &Env::empty()), "");
}

#[test]
fn whole_templates_keep_their_type_after_trimming() {
    let it = item(r#"{ "n": [1, 2] }"#);
    let r = render_param(&j(r#""  {{ $json.n }}  ""#), &it, &Env::empty());
    assert_eq!(to_serde(&r), v("[1, 2]"));
    let missing = render_param(&j(r#""{{ $json.none }}""#), &it, &Env::empty());
    assert_eq!(to_serde(&missing), v(r#""""#));
}

#[test]
fn json_text_escapes_like_serde_json() {
    let text = "q\"b\\n\nt\tc\u{1}é";
    let value = JsonValue::String(text.to_string());
    assert_eq!(to_json_string(&value), serde_json::to_string(&Value::String(text.to_string())).unwrap());
    let nested = j(r#"{ "b": [true, null, -3, 18446744073709551615], "a": {} }"#);
    assert_eq!(to_json_string(&nested), r#"{"a":{},"b":[true,null,-3,18446744073709551615]}"#);
}

#[test]
fn integer_and_float_numbers_differ_for_eq() {
    let knot = filter::factory(&j(r#"{ "conditions": [{ "field": "n", "operator": "eq", "value": 1.0 }] }"#));
    let out = knot.run(vec![item(r#"{ "n": 1 }"#), item(r#"{ "n": 1.0 }"#)], &Env::empty()).ok().unwrap();
    assert_eq!(out[0].len(), 1);
    assert_eq!(to_serde(&out[0][0].json), v(r#"{ "n": 1.0 }"#));
    let gt = filter::factory(&j(r#"{ "conditions": [{ "field": "n", "operator": "gt", "value": "0" }] }"#));
    let out = gt.run(vec![item(r#"{ "n": 1 }"#)], &Env::empty()).ok().unwrap();
    assert_eq!(out[1].len(), 1);
}

#[test]
fn large_integers_compare_as_rounded_doubles() {
    let knot = filter::factory(&j(r#"{ "conditions": [{ "field": "n", "operator": "gte", "value": 9007199254740993 }] }"#));
    let out = knot.run(vec![item(r#"{ "n": 9007199254740992 }"#)], &Env::empty()).ok().unwrap();
    // Both round to 2^53 as doubles, so they compare equal.
    assert_eq!(out[0].len(), 1);
}

// ---------------------------------------------------------------------------
// The caller's own knots
// ---------------------------------------------------------------------------

fn custom_registry() -> Registry {
    let mut registry = Registry::default();
    registry.register(
        KnotDescriptor { kind: "custom.split", name: "Split", description: "", output_count: 2, input_count: 1 },
        KnotFactory::Custom(7),
        Vec::new(),
    );
    registry
}

#[test]
fn a_custom_knot_is_run_by_the_caller() {
    let w = wf(
        vec![
            ("hook", "trigger.webhook", "{}"),
            ("c", "custom.split", r#"{ "mode": "x" }"#),
            ("log", "notify.log", r#"{ "message": "got {{ $json.n }}" }"#),
        ],
        vec![conn("hook", 0, "c"), conn("c", 1, "log")],
    );
    let registry = custom_registry();
    let mut run = Run::start(w, &registry, Some(j(r#"{ "n": 1 }"#)), Env::empty()).ok().unwrap();
    assert!(matches!(run.step(Event::Done), Action::Continue));
    match run.step(Event::Done) {
        Action::RunKnot { knot, params, ctx, input } => {
            assert_eq!(knot, 7);
            assert_eq!(to_serde(&params), v(r#"{ "mode": "x" }"#));
            assert_eq!(ctx.workflow_id, "wf");
            assert_eq!(input.len(), 1);
            assert_eq!(to_serde(&input[0].json), v(r#"{ "n": 1 }"#));
        }
        _ => panic!("expected the caller to run its knot"),
    }
    let outputs = vec![vec![item(r#"{ "n": 2 }"#)], vec![item(r#"{ "n": 3 }"#), item(r#"{ "n": 4 }"#)]];
    assert!(matches!(run.step(Event::Outputs(Ok(outputs))), Action::Continue));
    match run.step(Event::Done) {
        Action::Print(lines) => assert_eq!(lines, vec!["[wf] got 3", "[wf] got 4"]),
        _ => panic!("expected the log to print what output 1 delivered"),
    }
    assert!(matches!(run.step(Event::Done), Action::Continue));
    match run.step(Event::Done) {
        Action::Finish(Ok(result)) => {
            let counts: Vec<usize> = result.steps.iter().map(|s| s.items).collect();
            assert_eq!(counts, vec![1, 3, 2]);
        }
        _ => panic!("expected the run to finish"),
    }
}

#[test]
fn a_custom_knot_error_ends_the_run() {
    let w = wf(vec![("c", "custom.split", "{}")], vec![]);
    let registry = custom_registry();
    let mut run = Run::start(w, &registry, None, Env::empty()).ok().unwrap();
    assert!(matches!(run.step(Event::Done), Action::RunKnot { .. }));
    match run.step(Event::Outputs(Err(Error::InvalidWorkflow("bad input".to_string())))) {
        Action::Finish(Err(e)) => {
            assert!(matches!(e, Error::Knot(_)));
            assert_eq!(e.message(), "knot execution failed: knot `c` (custom.split) failed: invalid workflow: bad input");
        }
        _ => panic!("expected the run to fail"),
    }
    assert!(run.is_over());
}

#[test]
fn a_custom_knot_with_no_outputs_delivers_nothing() {
    let w = wf(vec![("c", "custom.split", "{}"), ("log", "notify.log", "{}")], vec![conn("c", 0, "log")]);
    let registry = custom_registry();
    let mut run = Run::start(w, &registry, None, Env::empty()).ok().unwrap();
    assert!(matches!(run.step(Event::Done), Action::RunKnot { .. }));
    assert!(matches!(run.step(Event::Outputs(Ok(Vec::new()))), Action::Continue));
    // Nothing was delivered to the log, so it gets the seed.
    match run.step(Event::Done) {
        Action::Print(lines) => assert_eq!(lines, vec!["[wf] {}"]),
        _ => panic!("expected the log to print the seed"),
    }
}

// ---------------------------------------------------------------------------
// Environment variables in templates
// ---------------------------------------------------------------------------

fn env_of(vars: &[(&str, &str)]) -> Env {
    Env { vars: vars.iter().map(|(k, v)| (k.to_string(), v.to_string())).collect() }
}

#[test]
fn env_templates_read_the_environment() {
    let it = item(r#"{ "a": 1 }"#);
    let env = env_of(&[("HOME", "/home/ada"), ("TOKEN", "t0k")]);
    assert_eq!(render_string("home={{ $env.HOME }} a={{ $json.a }}", &it, &env), "home=/home/ada a=1");
    assert_eq!(render_string("{{ $env.MISSING }}", &it, &env), "");
    assert_eq!(to_serde(&resolve(" $env.TOKEN ", &it, &env).unwrap()), v(r#""t0k""#));
    assert!(resolve("$env.MISSING", &it, &env).is_none());
    assert_eq!(to_serde(&render_param(&j(r#"{ "auth": "Bearer {{ $env.TOKEN }}" }"#), &it, &env)), v(r#"{ "auth": "Bearer t0k" }"#));
}

#[test]
fn env_templates_reach_the_knots_of_a_run() {
    let w = wf(vec![("log", "notify.log", r#"{ "message": "key {{ $env.KEY }}" }"#)], vec![]);
    let registry = Registry::default();
    let mut run = Run::start(w, &registry, None, env_of(&[("KEY", "k1")])).ok().unwrap();
    match run.step(Event::Done) {
        Action::Print(lines) => assert_eq!(lines, vec!["[wf] key k1"]),
        _ => panic!("expected the log to print"),
    }
}

// ---------------------------------------------------------------------------
// The response body cap
// ---------------------------------------------------------------------------

fn reply_with_body(len: usize) -> HttpReply {
    HttpReply { status: 200, headers: Vec::new(), body_text: "a".repeat(len), body_json: None }
}

#[test]
fn http_bodies_over_five_megabytes_fail() {
    assert_eq!(MAX_BODY, 5 * 1024 * 1024);
    let w = wf(vec![("h", "http.request", r#"{ "url": "https://x.dev" }"#)], vec![]);
    let registry = Registry::default();
    let mut run = Run::start(w, &registry, None, Env::empty()).ok().unwrap();
    assert!(matches!(run.step(Event::Done), Action::Send(_)));
    match run.step(Event::Replies(vec![Ok(reply_with_body(MAX_BODY + 1))])) {
        Action::Finish(Err(e)) => assert_eq!(
            e.message(),
            "knot execution failed: knot `h` (http.request) failed: knot execution failed: response body exceeds 5 MB"
        ),
        _ => panic!("expected the run to fail"),
    }
}

#[test]
fn http_bodies_of_five_megabytes_pass() {
    let w = wf(vec![("h", "http.request", r#"{ "url": "https://x.dev" }"#)], vec![]);
    let registry = Registry::default();
    let mut run = Run::start(w, &registry, None, Env::empty()).ok().unwrap();
    assert!(matches!(run.step(Event::Done), Action::Send(_)));
    assert!(matches!(run.step(Event::Replies(vec![Ok(reply_with_body(MAX_BODY))])), Action::Continue));
    assert!(matches!(run.step(Event::Done), Action::Finish(Ok(_))));
}

// ---------------------------------------------------------------------------
// ai.call
// ---------------------------------------------------------------------------

#[test]
fn ai_knot_reads_its_parameters() {
    let params = j(r#"{ "apiKey": "k", "model": "m1", "endpoint": "https://ai.dev/v1", "systemPrompt": "s", "userPrompt": "u", "maxTokens": 4294967297 }"#);
    let k = microknot_core::knots::ai::factory(&params, Some(j("0.5")));
    assert_eq!(k.api_key, "k");
    assert_eq!(k.model, "m1");
    assert_eq!(k.endpoint, "https://ai.dev/v1");
    assert_eq!(k.max_tokens, Some(1));
    assert_eq!(to_serde(k.temperature.as_ref().unwrap()), v("0.5"));
    let none = microknot_core::knots::ai::factory(&j(r#"{ "maxTokens": 1.5 }"#), None);
    assert_eq!(none.max_tokens, None);
    assert_eq!(none.model, "");
}

#[test]
fn ai_request_renders_both_prompts() {
    let params = j(r#"{ "apiKey": "k", "model": "m1", "endpoint": "https://ai.dev/v1", "systemPrompt": "be {{ $json.tone }}", "userPrompt": "say {{ $json.word }}", "maxTokens": 64 }"#);
    let k = microknot_core::knots::ai::factory(&params, None);
    let call = k.request(&item(r#"{ "tone": "brief", "word": "hi" }"#), &Env::empty());
    assert_eq!(call.method, "POST");
    assert_eq!(call.url, "https://ai.dev/v1");
    assert_eq!(
        call.headers,
        vec![
            ("Authorization".to_string(), "Bearer k".to_string()),
            ("Content-Type".to_string(), "application/json".to_string())
        ]
    );
    assert_eq!(
        call.body,
        r#"{"max_tokens":64,"messages":[{"content":"be brief","role":"system"},{"content":"say hi","role":"user"}],"model":"m1"}"#
    );
    let body = microknot_core::knots::ai::ai_request_body("m", "a", "b", None, Some(j("0.25")), &item("{}"), &Env::empty());
    assert_eq!(to_serde(&body), v(r#"{"model":"m","messages":[{"role":"system","content":"a"},{"role":"user","content":"b"}],"temperature":0.25}"#));
}

#[test]
fn ai_output_takes_the_content_or_reports_the_status() {
    let ok = ai_output(200, "x", Some(j(r#"{ "choices": [{ "message": { "content": "hello" } }], "usage": { "t": 3 } }"#)), "m1");
    assert_eq!(
        to_serde(&ok),
        v(r#"{ "content": "hello", "model": "m1", "usage": { "t": 3 }, "raw": { "choices": [{ "message": { "content": "hello" } }], "usage": { "t": 3 } } }"#)
    );
    let empty = ai_output(200, "nope", None, "m1");
    assert_eq!(
        to_serde(&empty),
        v(r#"{ "content": "", "model": "m1", "usage": null, "raw": { "error": "Invalid JSON", "raw": "nope" } }"#)
    );
    let failed = ai_output(404, "gone", None, "m1");
    assert_eq!(
        to_serde(&failed),
        v(r#"{ "error": "HTTP 404 Not Found", "message": "gone", "raw": { "error": "Invalid JSON", "raw": "gone" } }"#)
    );
    assert_eq!(microknot_core::knots::ai::send_failure("boom"), "AI request failed: boom");
    assert_eq!(microknot_core::knots::ai::read_failure("cut"), "Failed to read response: cut");
}

#[test]
fn catalog_agrees_with_descriptor_schema_and_kinds() {
    let registry = custom_registry();
    let catalog = registry.catalog();
    let kinds: Vec<&str> = registry.kinds().iter().map(|d| d.kind).collect();
    let catalog_kinds: Vec<&str> = catalog.iter().map(|(d, _)| d.kind).collect();
    assert_eq!(catalog_kinds, kinds);
    for (d, s) in &catalog {
        let found = registry.descriptor(d.kind).unwrap();
        assert_eq!(found.name, d.name);
        assert_eq!(found.output_count, d.output_count);
        let schema = registry.schema(d.kind).unwrap();
        let keys: Vec<&String> = schema.iter().map(|f| &f.key).collect();
        let catalog_keys: Vec<&String> = s.iter().map(|f| &f.key).collect();
        assert_eq!(keys, catalog_keys);
    }
}

#[test]
fn resolve_path_follows_parts_in_turn() {
    let doc = j(r#"{ "a": { "b": [10, { "c": "x" }] } }"#);
    let parts = |ps: &[&str]| ps.iter().map(|p| p.to_string()).collect::<Vec<String>>();
    assert_eq!(to_serde(&microknot_core::templ::resolve_path(&doc, &parts(&[])).unwrap()), to_serde(&doc));
    let mid = microknot_core::templ::resolve_path(&doc, &parts(&["a", "b"])).unwrap();
    let whole = microknot_core::templ::resolve_path(&doc, &parts(&["a", "b", "1", "c"])).unwrap();
    let stepped = microknot_core::templ::resolve_path(&mid, &parts(&["1", "c"])).unwrap();
    assert_eq!(to_serde(&whole), to_serde(&stepped));
    assert_eq!(to_serde(&whole), v(r#""x""#));
    assert!(microknot_core::templ::resolve_path(&doc, &parts(&["a", "x", "c"])).is_none());
}

#[test]
fn put_takes_the_id_of_the_path() {
    let w = wf(vec![("a", "notify.log", "{}")], vec![]);
    let updated = microknot_core::api::with_path_id(w, "from-path");
    assert_eq!(updated.id, "from-path");
    assert_eq!(updated.name, "W");
    assert_eq!(updated.knots.len(), 1);
}

#[test]
fn the_body_cap_counts_bytes() {
    let w = wf(vec![("h", "http.request", r#"{ "url": "https://x.dev" }"#)], vec![]);
    let registry = Registry::default();
    let mut run = Run::start(w, &registry, None, Env::empty()).ok().unwrap();
    match run.step(Event::Done) {
        Action::Send(calls) => assert_eq!(calls[0].max_body, Some(MAX_BODY)),
        _ => panic!("expected a request"),
    }
    // Two bytes per character: fewer characters than the cap, more bytes.
    let reply = HttpReply { status: 200, headers: Vec::new(), body_text: "é".repeat(MAX_BODY / 2 + 1), body_json: None };
    match run.step(Event::Replies(vec![Ok(reply)])) {
        Action::Finish(Err(e)) => assert!(e.message().ends_with("response body exceeds 5 MB")),
        _ => panic!("expected the run to fail"),
    }
}

#[test]
fn subnormal_floats_convert_exactly() {
    let tiny = j("5e-324");
    assert_eq!(to_serde(&tiny), v("5e-324"));
    let small = j("-2.5e-310");
    assert_eq!(to_serde(&small), v("-2.5e-310"));
}
