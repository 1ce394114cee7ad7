//! `http.request`: one HTTP request per item; the response becomes the item.
//! The requests themselves are sent by the caller of the engine; this module
//! says what is sent and what the responses become.
use vstd::prelude::*;
use vstd::utf8::encode_utf8;
use crate::item::Item;
use crate::json::{
    Json, JsonMap, JsonValue, entries_insert_all, entries_model, json_as_str, json_get, json_text,
    lemma_entries_model, to_json_string,
};
use crate::knot::KnotDescriptor;
use crate::number::{JsonNumber, NumberModel};
use crate::schema::{FieldModel, KnotSchema, ParamField, options, plain_field, schema_view};
use crate::templ::{Env, render_json, render_param, render_string, render_text};
use crate::text::{chars_of, string_from};

verus! {

/// A request to send.
pub struct HttpCall {
    pub method: String,
    pub url: String,
    pub headers: Vec<(String, String)>,
    pub body: String,
    /// The most bytes of the response body to read; `None` leaves it to
    /// the client.
    pub max_body: Option<usize>,
}

/// Where sending a request failed.
#[derive(Clone, Copy)]
pub enum HttpStage {
    /// The request could not be built (bad method, URL or header).
    Build,
    /// The request could not be sent, or no response came.
    Send,
    /// The response body could not be read.
    Read,
}

/// A request that failed, with the text of the failure.
pub struct HttpFailure {
    pub stage: HttpStage,
    pub message: String,
}

/// A response: its status, headers (values that are not visible ASCII read
/// as empty), body text, and the body parsed as JSON when it is JSON.
pub struct HttpReply {
    pub status: u16,
    pub headers: Vec<(String, String)>,
    pub body_text: String,
    pub body_json: Option<JsonValue>,
}

/// The descriptor of `http.request`.
pub fn descriptor() -> (d: KnotDescriptor)
    ensures
        d.kind@ == "http.request"@,
        d.output_count == 1,
        d.input_count == 1,
        d.name@ == "HTTP Request"@,
        d.description@ == "Makes an HTTP request per item and emits the response"@,
{
    KnotDescriptor {
        kind: "http.request",
        name: "HTTP Request",
        description: "Makes an HTTP request per item and emits the response",
        output_count: 1,
        input_count: 1,
    }
}

/// The parameter fields of `http.request`.
pub open spec fn schema_model() -> Seq<FieldModel> {
    seq![
        FieldModel {
            options: Some(
                seq![
                    ("GET"@, "GET"@),
                    ("POST"@, "POST"@),
                    ("PUT"@, "PUT"@),
                    ("PATCH"@, "PATCH"@),
                    ("DELETE"@, "DELETE"@),
                ],
            ),
            default: Some(Json::Str("GET"@)),
            ..plain_field("method"@, "Method"@, "select"@)
        },
        FieldModel {
            required: Some(true),
            placeholder: Some("https://api.example.com/items"@),
            ..plain_field("url"@, "URL"@, "text"@)
        },
        FieldModel {
            kv_key_placeholder: Some("header name"@),
            kv_value_placeholder: Some("value"@),
            ..plain_field("headers"@, "Headers"@, "kv"@)
        },
        FieldModel {
            help: Some("JSON, or a plain string. Supports {{ $json.field }} templates."@),
            ..plain_field("body"@, "Body (JSON)"@, "jsonish"@)
        },
    ]
}

/// The parameters of `http.request`.
pub fn schema() -> (s: KnotSchema)
    ensures
        schema_view(s@) == schema_model(),
        s@.len() == 4,
        s@[0].key@ == "method"@,
        s@[1].key@ == "url"@,
        s@[2].key@ == "headers"@,
        s@[3].key@ == "body"@,
{
    let methods = options(
        &[("GET", "GET"), ("POST", "POST"), ("PUT", "PUT"), ("PATCH", "PATCH"), ("DELETE", "DELETE")],
    );
    assert(methods@.map_values(|x: crate::schema::FieldOption| crate::schema::option_view(x))
        =~= schema_model()[0].options->0);
    let mut s: KnotSchema = Vec::new();
    s.push(ParamField::select("method", "Method").options(methods).default(JsonValue::string("GET")));
    s.push(ParamField::text("url", "URL").required().placeholder("https://api.example.com/items"));
    s.push(
        ParamField::kv("headers", "Headers").kv_key_placeholder("header name").kv_value_placeholder(
            "value",
        ),
    );
    s.push(
        ParamField::jsonish("body", "Body (JSON)").help(
            "JSON, or a plain string. Supports {{ $json.field }} templates.",
        ),
    );
    assert(schema_view(s@) =~= schema_model());
    s
}

/// A configured request knot.
pub struct HttpRequest {
    pub method: String,
    pub url: String,
    pub headers: Vec<(String, String)>,
    pub body: JsonValue,
}

/// The members of an object whose values are strings, in order.
pub open spec fn string_members(e: Seq<(Seq<char>, Json)>) -> Seq<(Seq<char>, Seq<char>)>
    decreases e.len(),
{
    if e.len() == 0 {
        Seq::empty()
    } else {
        let r = string_members(e.drop_last());
        match e.last().1 {
            Json::Str(s) => r.push((e.last().0, s)),
            _ => r,
        }
    }
}

/// The headers a request knot's parameters give: the string members of the
/// `headers` object.
pub open spec fn headers_of(params: Json) -> Seq<(Seq<char>, Seq<char>)> {
    match json_get(params, "headers"@) {
        Some(Json::Object(e)) => string_members(e),
        _ => Seq::empty(),
    }
}

/// A string parameter, or a default.
pub open spec fn str_or(params: Json, key: Seq<char>, default: Seq<char>) -> Seq<char> {
    match json_as_str(json_get(params, key)) {
        Some(s) => s,
        None => default,
    }
}

/// The model of pairs of strings.
pub open spec fn pairs_view(p: Seq<(String, String)>) -> Seq<(Seq<char>, Seq<char>)> {
    p.map_values(|x: (String, String)| (x.0@, x.1@))
}

pub fn copy_str(s: &str) -> (r: String)
    ensures
        r@ == s@,
{
    let c = chars_of(s);
    string_from(&c)
}

/// The string parameter `key`, or `default`.
pub fn str_param_or(params: &JsonValue, key: &str, default: &str) -> (r: String)
    ensures
        r@ == str_or(params@, key@, default@),
{
    match params.get(key) {
        Some(JsonValue::String(s)) => copy_str(s.as_str()),
        _ => copy_str(default),
    }
}

/// A request knot with the method (default `GET`), URL (default empty),
/// string headers and body (default null) of `params`.
pub fn factory(params: &JsonValue) -> (k: HttpRequest)
    ensures
        k.method@ == str_or(params@, "method"@, "GET"@),
        k.url@ == str_or(params@, "url"@, ""@),
        pairs_view(k.headers@) == headers_of(params@),
        k.body@ == match json_get(params@, "body"@) {
            Some(b) => b,
            None => Json::Null,
        },
{
    let method = str_param_or(params, "method", "GET");
    let url = str_param_or(params, "url", "");
    let mut headers: Vec<(String, String)> = Vec::new();
    match params.get("headers") {
        Some(JsonValue::Object(m)) => {
            let ghost ms = entries_model(m.entries@);
            proof {
                lemma_entries_model(m.entries@);
            }
            let mut i: usize = 0;
            while i < m.entries.len()
                invariant
                    i <= m.entries@.len(),
                    ms.len() == m.entries@.len(),
                    forall|k: int| 0 <= k < ms.len() ==> #[trigger] ms[k] == (m.entries@[k].0@, m.entries@[k].1@),
                    pairs_view(headers@) == string_members(ms.take(i as int)),
                decreases m.entries@.len() - i,
            {
                proof {
                    assert(ms.take(i + 1).drop_last() == ms.take(i as int));
                    assert(ms.take(i + 1).last() == ms[i as int]);
                }
                match &m.entries[i].1 {
                    JsonValue::String(v) => {
                        let ghost before = headers@;
                        headers.push((copy_str(m.entries[i].0.as_str()), copy_str(v.as_str())));
                        assert(pairs_view(headers@) =~= pairs_view(before).push(
                            (m.entries@[i as int].0@, v@),
                        ));
                    },
                    _ => {},
                }
                i = i + 1;
            }
            assert(ms.take(m.entries.len() as int) == ms);
        },
        _ => {},
    }
    let body = match params.get("body") {
        Some(b) => b.copy(),
        None => JsonValue::Null,
    };
    HttpRequest { method, url, headers, body }
}

/// The text sent as a request body: a string as it is, null as nothing,
/// other values as JSON text.
pub open spec fn body_text(v: Json) -> Seq<char> {
    match v {
        Json::Str(s) => s,
        Json::Null => Seq::empty(),
        other => json_text(other),
    }
}

/// Whether `call` is the request a knot with these settings sends for `item`.
pub open spec fn is_request_for(
    call: HttpCall,
    method: Seq<char>,
    url: Seq<char>,
    headers: Seq<(Seq<char>, Seq<char>)>,
    body: Json,
    item: Json,
    env: Seq<(Seq<char>, Seq<char>)>,
) -> bool {
    &&& call.method@ == method
    &&& call.url@ == render_text(url, item, env)
    &&& pairs_view(call.headers@) == headers.map_values(
        |h: (Seq<char>, Seq<char>)| (h.0, render_text(h.1, item, env)),
    )
    &&& call.body@ == body_text(render_json(body, item, env))
    &&& call.max_body == Some(MAX_BODY)
}

/// The request for an item uses the knot's method, its URL and header
/// values with their templates rendered against the item (header names as
/// they are, in order), and its body rendered against the item: a string as
/// it is, null as no body, anything else as JSON text. Its body is read up
/// to `MAX_BODY` bytes.
pub proof fn lemma_request_rendered(
    call: HttpCall,
    method: Seq<char>,
    url: Seq<char>,
    headers: Seq<(Seq<char>, Seq<char>)>,
    body: Json,
    item: Json,
    env: Seq<(Seq<char>, Seq<char>)>,
)
    requires
        is_request_for(call, method, url, headers, body, item, env),
    ensures
        call.method@ == method,
        call.url@ == render_text(url, item, env),
        call.headers@.len() == headers.len(),
        forall|i: int|
            0 <= i < headers.len() ==> (#[trigger] call.headers@[i]).0@ == headers[i].0 && call.headers@[i].1@
                == render_text(headers[i].1, item, env),
        render_json(body, item, env) is Str ==> call.body@ == render_json(body, item, env)->Str_0,
        render_json(body, item, env) is Null ==> call.body@.len() == 0,
        !(render_json(body, item, env) is Str) && !(render_json(body, item, env) is Null) ==> call.body@ == json_text(
            render_json(body, item, env),
        ),
        call.max_body == Some(MAX_BODY),
{
    let rendered = headers.map_values(|h: (Seq<char>, Seq<char>)| (h.0, render_text(h.1, item, env)));
    assert(pairs_view(call.headers@) == rendered);
    assert(pairs_view(call.headers@).len() == call.headers@.len());
    assert(rendered.len() == headers.len());
    assert forall|i: int| 0 <= i < headers.len() implies (#[trigger] call.headers@[i]).0@ == headers[i].0
        && call.headers@[i].1@ == render_text(headers[i].1, item, env) by {
        assert(pairs_view(call.headers@)[i] == (call.headers@[i].0@, call.headers@[i].1@));
        assert(rendered[i] == (headers[i].0, render_text(headers[i].1, item, env)));
    }
}

/// The members of the item a response becomes: `status`, `headers` and
/// `body`, with the body as JSON when it parses and as text otherwise.
pub open spec fn response_entries(
    status: u16,
    headers: Seq<(Seq<char>, Seq<char>)>,
    body_text: Seq<char>,
    body_json: Option<Json>,
) -> Seq<(Seq<char>, Json)> {
    seq![
        ("status"@, Json::Number(NumberModel::PosInt(status as u64))),
        ("headers"@, Json::Object(entries_insert_all(Seq::empty(), header_entries(headers)))),
        ("body"@, match body_json {
            Some(j) => j,
            None => Json::Str(body_text),
        }),
    ]
}

/// The item a response becomes (a header repeated keeps its last value).
pub open spec fn response_json(
    status: u16,
    headers: Seq<(Seq<char>, Seq<char>)>,
    body_text: Seq<char>,
    body_json: Option<Json>,
) -> Json {
    Json::Object(entries_insert_all(Seq::empty(), response_entries(status, headers, body_text, body_json)))
}

/// Header pairs as object entries with string values.
pub open spec fn header_entries(headers: Seq<(Seq<char>, Seq<char>)>) -> Seq<(Seq<char>, Json)> {
    headers.map_values(|h: (Seq<char>, Seq<char>)| (h.0, Json::Str(h.1)))
}

/// The model of a reply's parsed body.
pub open spec fn reply_json(r: HttpReply) -> Option<Json> {
    match r.body_json {
        Some(j) => Some(j@),
        None => None,
    }
}

/// An object from string pairs, inserted in turn.
pub fn object_of_strings(pairs: &Vec<(String, String)>) -> (v: JsonValue)
    ensures
        v@ == Json::Object(
            entries_insert_all(
                Seq::empty(),
                header_entries(pairs_view(pairs@)),
            ),
        ),
{
    let ghost all = header_entries(pairs_view(pairs@));
    let mut m = JsonMap::new();
    let mut i: usize = 0;
    while i < pairs.len()
        invariant
            i <= pairs@.len(),
            all == header_entries(pairs_view(pairs@)),
            m@ == entries_insert_all(Seq::empty(), all.take(i as int)),
        decreases pairs@.len() - i,
    {
        proof {
            assert(all.take(i + 1).drop_last() == all.take(i as int));
            assert(all.take(i + 1).last() == (pairs@[i as int].0@, Json::Str(pairs@[i as int].1@)));
        }
        m.insert(copy_str(pairs[i].0.as_str()), JsonValue::String(copy_str(pairs[i].1.as_str())));
        i = i + 1;
    }
    assert(all.take(pairs.len() as int) == all);
    JsonValue::Object(m)
}

/// The largest response body that `http.request` takes, in bytes: 5 MB.
pub const MAX_BODY: usize = 5242880;

/// The number of bytes of a text in UTF-8.
pub open spec fn utf8_len(s: Seq<char>) -> nat {
    encode_utf8(s).len()
}

/// The failure of a request whose response body is larger than `MAX_BODY`.
pub open spec fn body_too_large_message() -> Seq<char> {
    "response body exceeds 5 MB"@
}

/// The item a response becomes; a failure when its body is more than
/// `MAX_BODY` bytes long.
pub fn response_item(reply: &HttpReply) -> (r: Result<Item, String>)
    ensures
        utf8_len(reply.body_text@) > MAX_BODY ==> (r matches Err(t) && t@ == body_too_large_message()),
        utf8_len(reply.body_text@) <= MAX_BODY ==> (r matches Ok(item) && item@ == response_json(
            reply.status,
            pairs_view(reply.headers@),
            reply.body_text@,
            reply_json(*reply),
        )),
{
    let bytes = reply.body_text.as_str().as_bytes();
    if bytes.len() > MAX_BODY {
        return Err(copy_str("response body exceeds 5 MB"));
    }
    let mut pairs: Vec<(String, JsonValue)> = Vec::new();
    pairs.push((copy_str("status"), JsonValue::Number(JsonNumber::PosInt(reply.status as u64))));
    pairs.push((copy_str("headers"), object_of_strings(&reply.headers)));
    let body = match &reply.body_json {
        Some(j) => j.copy(),
        None => JsonValue::String(copy_str(reply.body_text.as_str())),
    };
    pairs.push((copy_str("body"), body));
    proof {
        crate::json::lemma_entries_model(pairs@);
        assert(entries_model(pairs@) =~= seq![
            ("status"@, Json::Number(NumberModel::PosInt(reply.status as u64))),
            ("headers"@, Json::Object(entries_insert_all(Seq::empty(), header_entries(pairs_view(reply.headers@))))),
            ("body"@, match reply_json(*reply) {
                Some(j) => j,
                None => Json::Str(reply.body_text@),
            }),
        ]);
    }
    let ghost pm = entries_model(pairs@);
    let v = JsonValue::object(pairs);
    assert(v@ == Json::Object(entries_insert_all(Seq::empty(), pm)));
    assert(pm =~= response_entries(reply.status, pairs_view(reply.headers@), reply.body_text@, reply_json(*reply)));
    Ok(Item::new(v))
}

impl HttpRequest {
    /// The request sent for each item, in order.
    pub fn requests(&self, input: &Vec<Item>, env: &Env) -> (out: Vec<HttpCall>)
        ensures
            out@.len() == input@.len(),
            forall|i: int|
                0 <= i < input@.len() ==> is_request_for(
                    #[trigger] out@[i],
                    self.method@,
                    self.url@,
                    pairs_view(self.headers@),
                    self.body@,
                    input@[i]@, env@),
    {
        let mut out: Vec<HttpCall> = Vec::new();
        let mut i: usize = 0;
        while i < input.len()
            invariant
                i <= input@.len(),
                out@.len() == i,
                forall|k: int|
                    0 <= k < i ==> is_request_for(
                        #[trigger] out@[k],
                        self.method@,
                        self.url@,
                        pairs_view(self.headers@),
                        self.body@,
                        input@[k]@, env@),
            decreases input@.len() - i,
        {
            let item = &input[i];
            let url = render_string(self.url.as_str(), item, env);
            let rendered = render_param(&self.body, item, env);
            let body = match &rendered {
                JsonValue::String(s) => copy_str(s.as_str()),
                JsonValue::Null => String::new(),
                v => to_json_string(v),
            };
            let mut headers: Vec<(String, String)> = Vec::new();
            let mut k: usize = 0;
            while k < self.headers.len()
                invariant
                    k <= self.headers@.len(),
                    pairs_view(headers@) == pairs_view(self.headers@).take(k as int).map_values(
                        |h: (Seq<char>, Seq<char>)| (h.0, render_text(h.1, item@, env@)),
                    ),
                decreases self.headers@.len() - k,
            {
                let ghost before = headers@;
                headers.push(
                    (
                        copy_str(self.headers[k].0.as_str()),
                        render_string(self.headers[k].1.as_str(), item, env),
                    ),
                );
                proof {
                    let f = |h: (Seq<char>, Seq<char>)| (h.0, render_text(h.1, item@, env@));
                    let t = pairs_view(self.headers@).take(k + 1);
                    assert(t.drop_last() =~= pairs_view(self.headers@).take(k as int));
                    assert(t.last() == (self.headers@[k as int].0@, self.headers@[k as int].1@));
                    assert(t.map_values(f) =~= t.drop_last().map_values(f).push(f(t.last())));
                    assert(pairs_view(headers@) =~= pairs_view(before).push(
                        (headers@.last().0@, headers@.last().1@),
                    ));
                }
                k = k + 1;
            }
            assert(pairs_view(self.headers@).take(self.headers.len() as int) == pairs_view(
                self.headers@,
            ));
            let call = HttpCall { method: copy_str(self.method.as_str()), url, headers, body, max_body: Some(MAX_BODY) };
            out.push(call);
            i = i + 1;
        }
        out
    }
}

} // verus!
