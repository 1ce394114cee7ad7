use microknot_core::error::Error;
use microknot_core::item::Item;
use microknot_core::json::{JsonMap, JsonValue};
use microknot_core::knot::{Ctx, Registry};
use microknot_core::knots::filter;
use microknot_core::knots::log;
use microknot_core::knots::trigger::Webhook;
use microknot_core::model::{Connection, Knot, Workflow};
use microknot_core::number::{FloatNumber, JsonNumber};
use microknot_core::run::{Action, Event, Run, RunResult};
use microknot_core::templ::{render_param, render_string, Env};
use microknot_core::validate::{validate, ValidationError};
use serde_json::Value;

// ---------------------------------------------------------------------------
// Helpers: JSON values written as text, and compared as serde_json values.
// ---------------------------------------------------------------------------

fn to_number(n: &serde_json::Number) -> JsonNumber {
    if let Some(u) = n.as_u64() {
        JsonNumber::PosInt(u)
    } else if let Some(i) = n.as_i64() {
        JsonNumber::NegInt(i)
    } else {
        let f = n.as_f64().unwrap();
        let bits = f.to_bits();
        let negative = bits >> 63 == 1;
        let exp = ((bits >> 52) & 0x7ff) as i32;
        let frac = bits & ((1u64 << 52) - 1);
        let (mantissa, exponent) = if exp == 0 { (frac, -1074) } else { (frac | (1u64 << 52), exp - 1075) };
        JsonNumber::Float(FloatNumber { negative, mantissa, exponent, text: n.to_string() })
    }
}

fn to_lib(v: &Value) -> JsonValue {
    match v {
        Value::Null => JsonValue::Null,
        Value::Bool(b) => JsonValue::Bool(*b),
        Value::Number(n) => JsonValue::Number(to_number(n)),
        Value::String(s) => JsonValue::String(s.clone()),
        Value::Array(a) => JsonValue::Array(a.iter().map(to_lib).collect()),
        Value::Object(m) => {
            JsonValue::Object(JsonMap::from_pairs(m.iter().map(|(k, v)| (k.clone(), to_lib(v))).collect()))
        }
    }
}

fn to_serde(v: &JsonValue) -> Value {
    match v {
        JsonValue::Null => Value::Null,
        JsonValue::Bool(b) => Value::Bool(*b),
        JsonValue::Number(JsonNumber::PosInt(u)) => Value::from(*u),
        JsonValue::Number(JsonNumber::NegInt(i)) => Value::from(*i),
        JsonValue::Number(JsonNumber::Float(f)) => {
            let m = f.mantissa as f64 * 2f64.powi(f.exponent);
            Value::from(if f.negative { -m } else { m })
        }
        JsonValue::String(s) => Value::String(s.clone()),
        JsonValue::Array(a) => Value::Array(a.iter().map(to_serde).collect()),
        JsonValue::Object(m) => {
            Value::Object(m.entries.iter().map(|(k, v)| (k.clone(), to_serde(v))).collect())
        }
    }
}

fn j(text: &str) -> JsonValue {
    to_lib(&serde_json::from_str::<Value>(text).unwrap())
}

fn v(text: &str) -> Value {
    serde_json::from_str::<Value>(text).unwrap()
}

fn item(text: &str) -> Item {
    Item::new(j(text))
}

fn ctx() -> Ctx {
    Ctx { workflow_id: "w".to_string() }
}

/// Runs a workflow to its end, answering every action as done, with no
/// environment variables and no replies.
fn drive(wf: Workflow, body: Option<JsonValue>) -> Result<RunResult, Error> {
    let registry = Registry::default();
    let mut run = Run::start(wf, &registry, body, Env::empty())?;
    let mut event = Event::Done;
    loop {
        match run.step(event) {
            Action::Finish(r) => return r,
            Action::ReadEnv(_) => event = Event::Env(None),
            Action::Send(_) => event = Event::Replies(Vec::new()),
            _ => event = Event::Done,
        }
    }
}

fn messages(errors: Vec<ValidationError>) -> Vec<String> {
    errors.into_iter().map(|e| e.message).collect()
}

fn vworkflow(knots: Vec<(&str, &str)>, edges: &[(&str, &str)]) -> Workflow {
    Workflow {
        id: "wf".to_string(),
        name: "Test".to_string(),
        knots: knots.into_iter().map(|(id, kind)| Knot::new(id, kind, j("{}"))).collect(),
        connections: edges
            .iter()
            .map(|(f, t)| Connection { from: f.to_string(), from_output: 0, to: t.to_string(), to_input: 0 })
            .collect(),
        active: false,
    }
}

fn errors(wf: &Workflow) -> Vec<String> {
    validate(wf).err().map(messages).unwrap_or_default()
}

// ---------------------------------------------------------------------------
// Builder
// ---------------------------------------------------------------------------

#[test]
fn builds_valid_workflow() {
    let wf = Workflow::new("Test")
        .knot("a", "trigger.schedule", j(r#"{ "cron": "* * * * *" }"#))
        .knot("b", "http.request", j(r#"{ "url": "https://x.dev" }"#))
        .connect("a", "b")
        .active(true)
        .build()
        .ok()
        .unwrap();

    assert_eq!(wf.name, "Test");
    assert!(wf.active);
    assert_eq!(wf.knots.len(), 2);
    assert_eq!(wf.connections.len(), 1);
    assert!(wf.validate().is_ok());
}

#[test]
fn build_rejects_invalid() {
    let err = Workflow::new("Bad").knot("a", "http.request", j("{}")).connect("a", "missing").build();
    assert!(err.is_err());
    assert_eq!(err.err().unwrap().len(), 1);
}

#[test]
fn explicit_id_and_outputs() {
    let wf = Workflow::new("T")
        .id("custom")
        .knot("a", "transform.filter", j("{}"))
        .knot("b", "notify.log", j("{}"))
        .connect_output("a", 1, "b", 0)
        .build()
        .ok()
        .unwrap();
    assert_eq!(wf.id, "custom");
    assert_eq!(wf.connections[0].from_output, 1);
}

// ---------------------------------------------------------------------------
// Engine
// ---------------------------------------------------------------------------

fn two_knots(a: &str, b: &str) -> Workflow {
    Workflow {
        id: "wf".to_string(),
        name: "test".to_string(),
        knots: vec![Knot::new("a", a, j("{}")), Knot::new("b", b, j("{}"))],
        connections: vec![Connection { from: "a".to_string(), from_output: 0, to: "b".to_string(), to_input: 0 }],
        active: false,
    }
}

#[test]
fn runs_linear_workflow() {
    let wf = two_knots("notify.log", "notify.log");
    let result = drive(wf, None).ok().unwrap();
    assert_eq!(result.status, "ok");
    assert_eq!(result.steps.len(), 2);
}

#[test]
fn fails_on_unknown_knot() {
    let wf = Workflow {
        id: "wf".to_string(),
        name: "test".to_string(),
        knots: vec![Knot::new("a", "nope.nope", j("{}"))],
        connections: vec![],
        active: false,
    };
    let err = drive(wf, None).err().unwrap();
    assert!(err.message().contains("unknown knot type"));
}

#[test]
fn detects_cycles() {
    let wf = Workflow {
        id: "wf".to_string(),
        name: "cycle".to_string(),
        knots: vec![Knot::new("a", "notify.log", j("{}")), Knot::new("b", "notify.log", j("{}"))],
        connections: vec![
            Connection { from: "a".to_string(), from_output: 0, to: "b".to_string(), to_input: 0 },
            Connection { from: "b".to_string(), from_output: 0, to: "a".to_string(), to_input: 0 },
        ],
        active: false,
    };
    let err = drive(wf, None).err().unwrap();
    assert!(err.message().contains("cycle"));
}

#[test]
fn schedule_trigger_errors_on_manual_run() {
    let wf = two_knots("trigger.schedule", "notify.log");
    let err = drive(wf, None).err().unwrap();
    assert!(err.message().contains("schedule trigger cannot be executed manually"));
}

// ---------------------------------------------------------------------------
// Knots
// ---------------------------------------------------------------------------

fn run_filter(conditions: &str, items: Vec<&str>) -> (Vec<Value>, Vec<Value>) {
    let params = j(&format!(r#"{{ "conditions": {conditions} }}"#));
    let knot = filter::factory(&params);
    let input: Vec<Item> = items.into_iter().map(item).collect();
    let out = knot.run(input, &Env::empty()).ok().unwrap();
    let to_json = |v: &[Item]| v.iter().map(|i| to_serde(&i.json)).collect::<Vec<_>>();
    (to_json(&out[0]), to_json(&out[1]))
}

#[test]
fn routes_matching_to_output_zero() {
    let (match_, no_match) = run_filter(
        r#"[{ "field": "age", "operator": "gt", "value": 18 }]"#,
        vec![r#"{ "age": 20 }"#, r#"{ "age": 15 }"#],
    );
    assert_eq!(match_, vec![v(r#"{ "age": 20 }"#)]);
    assert_eq!(no_match, vec![v(r#"{ "age": 15 }"#)]);
}

#[test]
fn contains_and_regex() {
    let (match_, no_match) = run_filter(
        r#"[{ "field": "email", "operator": "contains", "value": "@example.com" }]"#,
        vec![r#"{ "email": "a@example.com" }"#, r#"{ "email": "b@other.org" }"#],
    );
    assert_eq!(match_.len(), 1);
    assert_eq!(no_match.len(), 1);

    let (match_, _) =
        run_filter(r#"[{ "field": "name", "operator": "regex", "value": "^a" }]"#, vec![r#"{ "name": "ada" }"#]);
    assert_eq!(match_.len(), 1);
}

#[test]
fn all_mode_and_any_mode() {
    let knot = filter::factory(&j(r#"{ "mode": "all", "conditions": [
        { "field": "a", "operator": "eq", "value": 1 },
        { "field": "b", "operator": "eq", "value": 2 }
    ] }"#));
    let input = vec![item(r#"{ "a": 1, "b": 2 }"#), item(r#"{ "a": 1, "b": 3 }"#)];
    let out = knot.run(input, &Env::empty()).ok().unwrap();
    assert_eq!(out[0].len(), 1);
    assert_eq!(out[1].len(), 1);
}

#[test]
fn passes_items_through() {
    let knot = log::factory(&j("{}"));
    let items = vec![item(r#"{ "a": 1 }"#)];
    let (_, out) = knot.run(&ctx(), items, &Env::empty());
    assert_eq!(out.len(), 1);
    assert_eq!(out[0].len(), 1);
    assert_eq!(to_serde(&out[0][0].json), v(r#"{ "a": 1 }"#));
}

fn resend_workflow(params: &str) -> Workflow {
    Workflow {
        id: "wf".to_string(),
        name: "mail".to_string(),
        knots: vec![Knot::new("a", "notify.resend", j(params))],
        connections: vec![],
        active: false,
    }
}

#[test]
fn missing_key_is_a_fail_fast_error() {
    let wf = resend_workflow(r#"{ "from": "a@example.com", "to": "b@example.com", "subject": "hi" }"#);
    let result = drive(wf, Some(j("{}")));
    assert!(result.is_err());
    assert!(result.err().unwrap().message().contains("apiKey"));
}

#[test]
fn no_api_key_and_no_env_var_errors() {
    let wf = resend_workflow("{}");
    let result = drive(wf, Some(j("{}")));
    assert!(result.is_err());
}

#[test]
fn registered_in_default_registry() {
    let registry = Registry::default();
    let descriptor = registry.descriptor("notify.resend").expect("notify.resend registered");
    assert_eq!(descriptor.output_count, 1);
    assert!(registry.create("notify.resend", &j("{}")).is_some());
}

#[test]
fn sets_flat_and_nested_fields() {
    let knot = microknot_core::knots::set::factory(&j(r#"{ "assignments": [
        { "field": "title", "value": "Hello {{ $json.user }}" },
        { "field": "meta.count", "value": "{{ $json.n }}" }
    ] }"#));
    let items = vec![item(r#"{ "user": "ada", "n": 5 }"#)];
    let out = knot.run(items, &Env::empty());
    assert_eq!(
        to_serde(&out[0][0].json),
        v(r#"{ "user": "ada", "n": 5, "title": "Hello ada", "meta": { "count": 5 } }"#)
    );
}

#[test]
fn webhook_seeds_empty_item() {
    let out = Webhook.run(vec![]);
    assert_eq!(to_serde(&out[0][0].json), v("{}"));
}

// ---------------------------------------------------------------------------
// Model and schema
// ---------------------------------------------------------------------------

#[test]
fn knot_new_sets_defaults() {
    let k = Knot::new("a", "trigger.webhook", j("{}"));
    assert_eq!(k.name, "a");
    assert_eq!(k.position, (0.0f32.to_bits(), 0.0f32.to_bits()));
    assert_eq!(to_serde(&k.params), v("{}"));
}

#[test]
fn schemas_cover_factory_params() {
    let registry = Registry::default();
    let expected: &[(&str, &[&str])] = &[
        ("http.request", &["method", "url", "headers", "body"]),
        ("transform.set", &["assignments"]),
        ("transform.delay", &["milliseconds"]),
        ("transform.filter", &["conditions", "mode"]),
        ("notify.log", &["message"]),
        ("notify.resend", &["apiKey", "from", "to", "subject", "html", "text"]),
        ("trigger.webhook", &[]),
        ("trigger.schedule", &[]),
    ];
    for (kind, params) in expected {
        let schema = registry.schema(kind).unwrap_or_else(|| panic!("registry missing knot {kind}"));
        let declared: Vec<&str> = schema.iter().map(|f| f.key.as_str()).collect();
        for p in *params {
            assert!(
                declared.contains(p),
                "{kind} factory reads param '{p}' but schema does not declare it (schema: {declared:?})"
            );
        }
    }
}

// ---------------------------------------------------------------------------
// Templates
// ---------------------------------------------------------------------------

fn templ_item() -> Item {
    item(r#"{ "user": { "name": "ada", "tags": ["x", "y"] }, "count": 3 }"#)
}

#[test]
fn interpolates_nested_path() {
    let s = "hello {{ $json.user.name }}!";
    assert_eq!(render_string(s, &templ_item(), &Env::empty()), "hello ada!");
}

#[test]
fn missing_field_renders_empty() {
    assert_eq!(render_string("{{ $json.missing }}", &templ_item(), &Env::empty()), "");
}

#[test]
fn array_index_access() {
    assert_eq!(render_string("{{ $json.user.tags.1 }}", &templ_item(), &Env::empty()), "y");
}

#[test]
fn full_interpolation_keeps_type() {
    let r = render_param(&j(r#""{{ $json.count }}""#), &templ_item(), &Env::empty());
    assert_eq!(to_serde(&r), v("3"));
}

#[test]
fn no_interpolation_passthrough() {
    let r = render_param(&j(r#""plain""#), &templ_item(), &Env::empty());
    assert_eq!(to_serde(&r), v(r#""plain""#));
}

#[test]
fn renders_nested_objects() {
    let r = render_param(&j(r#"{ "path": "{{ $json.user.name }}", "n": [1, "{{ $json.count }}"] }"#), &templ_item(), &Env::empty());
    assert_eq!(to_serde(&r), v(r#"{ "path": "ada", "n": [1, 3] }"#));
}

// ---------------------------------------------------------------------------
// Validation
// ---------------------------------------------------------------------------

#[test]
fn valid_workflow() {
    let wf = vworkflow(vec![("a", "trigger.schedule"), ("b", "http.request")], &[("a", "b")]);
    assert!(validate(&wf).is_ok());
}

#[test]
fn empty_name() {
    let mut wf = vworkflow(vec![("a", "trigger.schedule")], &[]);
    wf.name = "   ".to_string();
    let msgs = errors(&wf);
    assert!(msgs.iter().any(|m| m.contains("name")));
}

#[test]
fn no_knots() {
    let wf = vworkflow(vec![], &[]);
    assert!(errors(&wf).iter().any(|m| m.contains("at least one knot")));
}

#[test]
fn duplicate_knot_id() {
    let wf = vworkflow(vec![("a", "x"), ("a", "y")], &[]);
    assert!(errors(&wf).iter().any(|m| m.contains("duplicate knot id 'a'")));
}

#[test]
fn dangling_connection() {
    let wf = vworkflow(vec![("a", "x")], &[("a", "missing")]);
    let msgs = errors(&wf);
    assert!(msgs.iter().any(|m| m.contains("unknown knot 'missing'")));
}

#[test]
fn duplicate_connection() {
    let wf = vworkflow(vec![("a", "x"), ("b", "y")], &[("a", "b"), ("a", "b")]);
    assert!(errors(&wf).iter().any(|m| m.contains("duplicate connection")));
}

#[test]
fn cycle_detected() {
    let wf = vworkflow(vec![("a", "x"), ("b", "y"), ("c", "z")], &[("a", "b"), ("b", "c"), ("c", "a")]);
    let msgs = errors(&wf);
    assert!(msgs.iter().any(|m| m.contains("cycle")));
}

#[test]
fn self_loop_detected() {
    let wf = vworkflow(vec![("a", "x")], &[("a", "a")]);
    assert!(errors(&wf).iter().any(|m| m.contains("cycle")));
}

#[test]
fn diamond_is_valid() {
    let wf = vworkflow(
        vec![("a", "notify.log"), ("b", "transform.set"), ("c", "transform.filter"), ("d", "transform.delay")],
        &[("a", "b"), ("a", "c"), ("b", "d"), ("c", "d")],
    );
    assert!(validate(&wf).is_ok());
}
