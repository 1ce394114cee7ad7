//! `ai.call`: calls an AI chat API with templated prompts. It is not part
//! of the default registry. The request for each item and the item each
//! reply becomes are here; the caller sends the request.
use vstd::prelude::*;
use crate::item::Item;
use crate::json::{Json, JsonValue, entries_insert_all, entries_model, items_model, json_as_str, json_get, json_text, lemma_entries_model, lemma_items_model, to_json_string};
use crate::knot::KnotDescriptor;
use crate::knots::http::{HttpCall, copy_str};
use crate::number::{JsonNumber, NumberModel};
use crate::schema::{FieldModel, KnotSchema, ParamField, plain_field, schema_view};
use crate::templ::{Env, render_string, render_text};
use crate::text::push_str;

verus! {

/// The descriptor of `ai.call`.
pub fn descriptor() -> (d: KnotDescriptor)
    ensures
        d.kind@ == "ai.call"@,
        d.output_count == 1,
        d.input_count == 1,
        d.name@ == "AI Request"@,
        d.description@ == "Call an AI API with templated prompt"@,
{
    KnotDescriptor {
        kind: "ai.call",
        name: "AI Request",
        description: "Call an AI API with templated prompt",
        output_count: 1,
        input_count: 1,
    }
}

/// The parameter fields of `ai.call`.
pub open spec fn schema_model() -> Seq<FieldModel> {
    seq![
        FieldModel { secret: Some(true), ..plain_field("apiKey"@, "API Key"@, "text"@) },
        FieldModel {
            required: Some(true),
            placeholder: Some("gemini-3.5-flash"@),
            ..plain_field("model"@, "Model"@, "text"@)
        },
        FieldModel { required: Some(true), ..plain_field("endpoint"@, "Endpoint"@, "text"@) },
        FieldModel { required: Some(true), ..plain_field("systemPrompt"@, "System Prompt"@, "textarea"@) },
        FieldModel { required: Some(true), ..plain_field("userPrompt"@, "User Prompt"@, "textarea"@) },
        plain_field("maxTokens"@, "Max Tokens"@, "number"@),
        plain_field("temperature"@, "Temperature"@, "number"@),
    ]
}

/// The parameters of `ai.call`.
pub fn schema() -> (s: KnotSchema)
    ensures
        schema_view(s@) == schema_model(),
        s@.len() == 7,
        s@[0].key@ == "apiKey"@,
        s@[1].key@ == "model"@,
        s@[2].key@ == "endpoint"@,
        s@[3].key@ == "systemPrompt"@,
        s@[4].key@ == "userPrompt"@,
        s@[5].key@ == "maxTokens"@,
        s@[6].key@ == "temperature"@,
{
    let mut s: KnotSchema = Vec::new();
    s.push(ParamField::text("apiKey", "API Key").secret());
    s.push(ParamField::text("model", "Model").required().placeholder("gemini-3.5-flash"));
    s.push(ParamField::text("endpoint", "Endpoint").required());
    s.push(ParamField::textarea("systemPrompt", "System Prompt").required());
    s.push(ParamField::textarea("userPrompt", "User Prompt").required());
    s.push(ParamField::number("maxTokens", "Max Tokens"));
    s.push(ParamField::number("temperature", "Temperature"));
    assert(schema_view(s@) =~= schema_model());
    s
}

/// An `ai.call` knot.
pub struct Ai {
    pub api_key: String,
    pub model: String,
    pub endpoint: String,
    pub system_prompt: String,
    pub user_prompt: String,
    pub max_tokens: Option<i32>,
    /// The `temperature` parameter as the request carries it.
    pub temperature: Option<JsonValue>,
}

/// The string parameter `key`, or the empty string.
pub open spec fn str_param(params: Json, key: Seq<char>) -> Seq<char> {
    match json_as_str(json_get(params, key)) {
        Some(s) => s,
        None => Seq::empty(),
    }
}

/// The integer parameter `key`, cut to 32 bits as `as i32` does, when it is
/// an integer that fits in an `i64`.
pub open spec fn int_param(params: Json, key: Seq<char>) -> Option<i32> {
    match json_get(params, key) {
        Some(Json::Number(NumberModel::PosInt(u))) => if u <= i64::MAX {
            Some(u as i32)
        } else {
            None
        },
        Some(Json::Number(NumberModel::NegInt(i))) => Some(i as i32),
        _ => None,
    }
}

/// The string parameter `key`, or the empty string.
fn string_param(params: &JsonValue, key: &str) -> (r: String)
    ensures
        r@ == str_param(params@, key@),
{
    match params.get(key) {
        Some(JsonValue::String(s)) => copy_str(s.as_str()),
        _ => String::new(),
    }
}

/// An `ai.call` knot made from `params`; `temperature` is the
/// `temperature` parameter as the request carries it.
pub fn factory(params: &JsonValue, temperature: Option<JsonValue>) -> (k: Ai)
    ensures
        k.api_key@ == str_param(params@, "apiKey"@),
        k.model@ == str_param(params@, "model"@),
        k.endpoint@ == str_param(params@, "endpoint"@),
        k.system_prompt@ == str_param(params@, "systemPrompt"@),
        k.user_prompt@ == str_param(params@, "userPrompt"@),
        k.max_tokens == int_param(params@, "maxTokens"@),
        k.temperature == temperature,
{
    let max_tokens = match params.get("maxTokens") {
        Some(JsonValue::Number(JsonNumber::PosInt(u))) => if *u <= 9223372036854775807u64 {
            Some(*u as i32)
        } else {
            None
        },
        Some(JsonValue::Number(JsonNumber::NegInt(i))) => Some(*i as i32),
        _ => None,
    };
    Ai {
        api_key: string_param(params, "apiKey"),
        model: string_param(params, "model"),
        endpoint: string_param(params, "endpoint"),
        system_prompt: string_param(params, "systemPrompt"),
        user_prompt: string_param(params, "userPrompt"),
        max_tokens,
        temperature,
    }
}

/// A 32-bit integer as a JSON number.
pub open spec fn int_json(n: i32) -> Json {
    if n >= 0 {
        Json::Number(NumberModel::PosInt(n as u64))
    } else {
        Json::Number(NumberModel::NegInt(n as i64))
    }
}

/// A chat message: `{"role": role, "content": content}`.
pub open spec fn message_json(role: Seq<char>, content: Seq<char>) -> Json {
    Json::Object(entries_insert_all(Seq::empty(), seq![("role"@, Json::Str(role)), ("content"@, Json::Str(content))]))
}

/// The chat request body: the model, the system and user messages, and
/// `max_tokens` and `temperature` when they are given.
pub open spec fn ai_body(
    model: Seq<char>,
    system: Seq<char>,
    user: Seq<char>,
    max_tokens: Option<i32>,
    temperature: Option<Json>,
) -> Json {
    let base = seq![
        ("model"@, Json::Str(model)),
        ("messages"@, Json::Array(seq![message_json("system"@, system), message_json("user"@, user)])),
    ];
    let with_tokens = match max_tokens {
        Some(n) => base.push(("max_tokens"@, int_json(n))),
        None => base,
    };
    let all = match temperature {
        Some(t) => with_tokens.push(("temperature"@, t)),
        None => with_tokens,
    };
    Json::Object(entries_insert_all(Seq::empty(), all))
}

/// The model of an optional value.
pub open spec fn opt_json(o: Option<JsonValue>) -> Option<Json> {
    match o {
        Some(v) => Some(v@),
        None => None,
    }
}

fn message(role: &str, content: String) -> (m: JsonValue)
    ensures
        m@ == message_json(role@, content@),
{
    let mut pairs: Vec<(String, JsonValue)> = Vec::new();
    pairs.push((copy_str("role"), JsonValue::String(copy_str(role))));
    pairs.push((copy_str("content"), JsonValue::String(content)));
    proof {
        lemma_entries_model(pairs@);
        assert(entries_model(pairs@) =~= seq![("role"@, Json::Str(role@)), ("content"@, Json::Str(content@))]);
    }
    JsonValue::object(pairs)
}

/// The chat request body for `item`: both prompts rendered against it.
pub fn ai_request_body(
    model: &str,
    system_prompt: &str,
    user_prompt: &str,
    max_tokens: Option<i32>,
    temperature: Option<JsonValue>,
    item: &Item,
    env: &Env,
) -> (b: JsonValue)
    ensures
        b@ == ai_body(
            model@,
            render_text(system_prompt@, item@, env@),
            render_text(user_prompt@, item@, env@),
            max_tokens,
            opt_json(temperature),
        ),
{
    let system = message("system", render_string(system_prompt, item, env));
    let user = message("user", render_string(user_prompt, item, env));
    let mut messages: Vec<JsonValue> = Vec::new();
    messages.push(system);
    messages.push(user);
    proof {
        lemma_items_model(messages@);
        assert(items_model(messages@) =~= seq![messages@[0]@, messages@[1]@]);
    }
    let mut pairs: Vec<(String, JsonValue)> = Vec::new();
    pairs.push((copy_str("model"), JsonValue::String(copy_str(model))));
    pairs.push((copy_str("messages"), JsonValue::Array(messages)));
    match max_tokens {
        Some(n) => {
            let v = if n >= 0 {
                JsonNumber::PosInt(n as u64)
            } else {
                JsonNumber::NegInt(n as i64)
            };
            pairs.push((copy_str("max_tokens"), JsonValue::Number(v)));
        },
        None => {},
    }
    match temperature {
        Some(t) => {
            pairs.push((copy_str("temperature"), t));
        },
        None => {},
    }
    proof {
        lemma_entries_model(pairs@);
        let base = seq![
            ("model"@, Json::Str(model@)),
            ("messages"@, Json::Array(seq![
                message_json("system"@, render_text(system_prompt@, item@, env@)),
                message_json("user"@, render_text(user_prompt@, item@, env@)),
            ])),
        ];
        let with_tokens = match max_tokens {
            Some(n) => base.push(("max_tokens"@, int_json(n))),
            None => base,
        };
        let all = match opt_json(temperature) {
            Some(t) => with_tokens.push(("temperature"@, t)),
            None => with_tokens,
        };
        assert(entries_model(pairs@) =~= all);
    }
    JsonValue::object(pairs)
}

/// `Bearer ` and the key.
pub open spec fn bearer(key: Seq<char>) -> Seq<char> {
    "Bearer "@ + key
}

impl Ai {
    /// The request sent for `item`: a `POST` to the endpoint with the key as
    /// a bearer token and the chat body as JSON text.
    pub fn request(&self, item: &Item, env: &Env) -> (call: HttpCall)
        ensures
            call.method@ == "POST"@,
            call.url@ == self.endpoint@,
            call.headers@.len() == 2,
            call.headers@[0].0@ == "Authorization"@,
            call.headers@[0].1@ == bearer(self.api_key@),
            call.headers@[1].0@ == "Content-Type"@,
            call.headers@[1].1@ == "application/json"@,
            call.max_body is None,
            call.body@ == json_text(
                ai_body(
                    self.model@,
                    render_text(self.system_prompt@, item@, env@),
                    render_text(self.user_prompt@, item@, env@),
                    self.max_tokens,
                    opt_json(self.temperature),
                ),
            ),
    {
        let temperature = match &self.temperature {
            Some(t) => Some(t.copy()),
            None => None,
        };
        let body = ai_request_body(
            self.model.as_str(),
            self.system_prompt.as_str(),
            self.user_prompt.as_str(),
            self.max_tokens,
            temperature,
            item,
            env,
        );
        let mut auth = String::new();
        push_str(&mut auth, "Bearer ");
        push_str(&mut auth, self.api_key.as_str());
        assert(auth@ =~= bearer(self.api_key@));
        let mut headers: Vec<(String, String)> = Vec::new();
        headers.push((copy_str("Authorization"), auth));
        headers.push((copy_str("Content-Type"), copy_str("application/json")));
        HttpCall {
            method: copy_str("POST"),
            url: copy_str(self.endpoint.as_str()),
            headers,
            body: to_json_string(&body),
            max_body: None,
        }
    }
}

/// The error of an `ai.call` request that could not be sent.
pub open spec fn send_failure_text(m: Seq<char>) -> Seq<char> {
    "AI request failed: "@ + m
}

/// The error of an `ai.call` response that could not be read.
pub open spec fn read_failure_text(m: Seq<char>) -> Seq<char> {
    "Failed to read response: "@ + m
}

/// The text of a request that could not be sent.
pub fn send_failure(m: &str) -> (t: String)
    ensures
        t@ == send_failure_text(m@),
{
    let mut t = String::new();
    push_str(&mut t, "AI request failed: ");
    push_str(&mut t, m);
    t
}

/// The text of a response that could not be read.
pub fn read_failure(m: &str) -> (t: String)
    ensures
        t@ == read_failure_text(m@),
{
    let mut t = String::new();
    push_str(&mut t, "Failed to read response: ");
    push_str(&mut t, m);
    t
}

/// The text that `http::StatusCode` shows for `code`: the number and its
/// reason phrase.
pub uninterp spec fn status_code_text(code: u16) -> Seq<char>;

/// The text of a status code (`http::StatusCode`'s `Display`).
#[verifier::external_body]
fn status_text(code: u16) -> (s: String)
    requires
        100 <= code <= 999,
    ensures
        s@ == status_code_text(code),
{
    match ureq::http::StatusCode::from_u16(code) {
        Ok(c) => c.to_string(),
        Err(e) => e.to_string(),
    }
}

/// The response as JSON: the parsed body, or an object that says the body
/// is not JSON and holds it as text.
pub open spec fn response_value(body_text: Seq<char>, body_json: Option<Json>) -> Json {
    match body_json {
        Some(j) => j,
        None => Json::Object(
            entries_insert_all(Seq::empty(), seq![("error"@, Json::Str("Invalid JSON"@)), ("raw"@, Json::Str(body_text))]),
        ),
    }
}

/// `choices[0].message.content` of a response, when it is a string; else
/// the empty string.
pub open spec fn ai_content(rj: Json) -> Seq<char> {
    match json_get(rj, "choices"@) {
        Some(Json::Array(xs)) => if xs.len() > 0 {
            match json_as_str(
                match json_get(xs[0], "message"@) {
                    Some(m) => json_get(m, "content"@),
                    None => None,
                },
            ) {
                Some(c) => c,
                None => Seq::empty(),
            }
        } else {
            Seq::empty()
        },
        _ => Seq::empty(),
    }
}

/// The item a response becomes: on a 2xx status the content, the model,
/// the usage (null when there is none) and the raw response; else the
/// status as an error, the body text and the raw response.
pub open spec fn ai_output_model(status: u16, body_text: Seq<char>, body_json: Option<Json>, model: Seq<char>) -> Json {
    let rj = response_value(body_text, body_json);
    if 200 <= status < 300 {
        Json::Object(entries_insert_all(Seq::empty(), seq![
            ("content"@, Json::Str(ai_content(rj))),
            ("model"@, Json::Str(model)),
            ("usage"@, match json_get(rj, "usage"@) {
                Some(u) => u,
                None => Json::Null,
            }),
            ("raw"@, rj),
        ]))
    } else {
        Json::Object(entries_insert_all(Seq::empty(), seq![
            ("error"@, Json::Str("HTTP "@ + status_code_text(status))),
            ("message"@, Json::Str(body_text)),
            ("raw"@, rj),
        ]))
    }
}

/// The item a response with `status`, body `body_text` (parsed as
/// `body_json` when it is JSON) becomes.
pub fn ai_output(status: u16, body_text: &str, body_json: Option<JsonValue>, model: &str) -> (o: JsonValue)
    requires
        100 <= status <= 999,
    ensures
        o@ == ai_output_model(status, body_text@, opt_json(body_json), model@),
{
    let rj = match body_json {
        Some(j) => j,
        None => {
            let mut pairs: Vec<(String, JsonValue)> = Vec::new();
            pairs.push((copy_str("error"), JsonValue::String(copy_str("Invalid JSON"))));
            pairs.push((copy_str("raw"), JsonValue::String(copy_str(body_text))));
            proof {
                lemma_entries_model(pairs@);
                assert(entries_model(pairs@) =~= seq![("error"@, Json::Str("Invalid JSON"@)), ("raw"@, Json::Str(body_text@))]);
            }
            JsonValue::object(pairs)
        },
    };
    assert(rj@ == response_value(body_text@, opt_json(body_json)));
    let mut pairs: Vec<(String, JsonValue)> = Vec::new();
    if 200 <= status && status < 300 {
        let content = match rj.get("choices") {
            Some(JsonValue::Array(xs)) => {
                proof {
                    lemma_items_model(xs@);
                }
                if xs.len() > 0 {
                    let c = match xs[0].get("message") {
                        Some(m) => m.get("content"),
                        None => None,
                    };
                    match c {
                        Some(JsonValue::String(t)) => copy_str(t.as_str()),
                        _ => String::new(),
                    }
                } else {
                    String::new()
                }
            },
            _ => String::new(),
        };
        assert(content@ == ai_content(rj@));
        let usage = match rj.get("usage") {
            Some(u) => u.copy(),
            None => JsonValue::Null,
        };
        pairs.push((copy_str("content"), JsonValue::String(content)));
        pairs.push((copy_str("model"), JsonValue::String(copy_str(model))));
        pairs.push((copy_str("usage"), usage));
        pairs.push((copy_str("raw"), rj));
        proof {
            lemma_entries_model(pairs@);
            assert(entries_model(pairs@) =~= seq![
                ("content"@, Json::Str(ai_content(rj@))),
                ("model"@, Json::Str(model@)),
                ("usage"@, match json_get(rj@, "usage"@) {
                    Some(u) => u,
                    None => Json::Null,
                }),
                ("raw"@, rj@),
            ]);
        }
    } else {
        let code = status_text(status);
        let mut e = String::new();
        push_str(&mut e, "HTTP ");
        push_str(&mut e, code.as_str());
        pairs.push((copy_str("error"), JsonValue::String(e)));
        pairs.push((copy_str("message"), JsonValue::String(copy_str(body_text))));
        pairs.push((copy_str("raw"), rj));
        proof {
            lemma_entries_model(pairs@);
            assert(e@ =~= "HTTP "@ + status_code_text(status));
            assert(entries_model(pairs@) =~= seq![
                ("error"@, Json::Str("HTTP "@ + status_code_text(status))),
                ("message"@, Json::Str(body_text@)),
                ("raw"@, rj@),
            ]);
        }
    }
    let o = JsonValue::object(pairs);
    assert(o@ =~= ai_output_model(status, body_text@, opt_json(body_json), model@));
    o
}

} // verus!
