//! `notify.resend`: sends one email per item through the Resend API. The
//! requests are sent by the caller of the engine; this module says what is
//! sent and what the responses become.
use vstd::prelude::*;
use crate::item::Item;
use crate::json::{
    Json, JsonValue, entries_get, entries_insert_all, entries_model, json_as_str, json_get, json_text,
    lemma_entries_model, to_json_string,
};
use crate::knot::KnotDescriptor;
use crate::knots::http::{HttpCall, HttpReply, copy_str, pairs_view, reply_json, str_or, str_param_or};
use crate::number::{JsonNumber, NumberModel};
use crate::schema::{FieldModel, KnotSchema, ParamField, plain_field, schema_view};
use crate::templ::{Env, render_string, render_text};
use crate::text::push_str;
use crate::knots::set::lemma_get_insert_all;

verus! {

/// The descriptor of `notify.resend`.
pub fn descriptor() -> (d: KnotDescriptor)
    ensures
        d.kind@ == "notify.resend"@,
        d.output_count == 1,
        d.input_count == 1,
        d.name@ == "Resend Email"@,
        d.description@ == "Send an email via the Resend API"@,
{
    KnotDescriptor {
        kind: "notify.resend",
        name: "Resend Email",
        description: "Send an email via the Resend API",
        output_count: 1,
        input_count: 1,
    }
}

/// The parameter fields of `notify.resend`.
pub open spec fn schema_model() -> Seq<FieldModel> {
    seq![
        FieldModel { secret: Some(true), placeholder: Some("re_..."@), ..plain_field("apiKey"@, "API Key"@, "text"@) },
        FieldModel {
            required: Some(true),
            placeholder: Some("you@example.com"@),
            ..plain_field("from"@, "From"@, "text"@)
        },
        FieldModel {
            required: Some(true),
            placeholder: Some("them@example.com"@),
            ..plain_field("to"@, "To"@, "text"@)
        },
        FieldModel { required: Some(true), ..plain_field("subject"@, "Subject"@, "text"@) },
        plain_field("html"@, "HTML body"@, "textarea"@),
        plain_field("text"@, "Plain text body"@, "textarea"@),
    ]
}

/// The parameters of `notify.resend`.
pub fn schema() -> (s: KnotSchema)
    ensures
        schema_view(s@) == schema_model(),
        s@.len() == 6,
        s@[0].key@ == "apiKey"@,
        s@[1].key@ == "from"@,
        s@[2].key@ == "to"@,
        s@[3].key@ == "subject"@,
        s@[4].key@ == "html"@,
        s@[5].key@ == "text"@,
{
    let mut s: KnotSchema = Vec::new();
    s.push(ParamField::text("apiKey", "API Key").secret().placeholder("re_..."));
    s.push(ParamField::text("from", "From").required().placeholder("you@example.com"));
    s.push(ParamField::text("to", "To").required().placeholder("them@example.com"));
    s.push(ParamField::text("subject", "Subject").required());
    s.push(ParamField::textarea("html", "HTML body"));
    s.push(ParamField::textarea("text", "Plain text body"));
    assert(schema_view(s@) =~= schema_model());
    s
}

/// The endpoint emails are sent to.
pub open spec fn resend_url() -> Seq<char> {
    "https://api.resend.com/emails"@
}

/// The environment variable read when the knot has no `apiKey`.
pub open spec fn key_variable() -> Seq<char> {
    "RESEND_API_KEY"@
}

/// The error when there is no API key at all.
pub open spec fn missing_key_message() -> Seq<char> {
    "notify.resend requires an `apiKey` param or RESEND_API_KEY env var"@
}

/// A configured email knot.
pub struct Resend {
    pub api_key: String,
    pub from: String,
    pub to: String,
    pub subject: String,
    pub html: Option<String>,
    pub text: Option<String>,
}

fn opt_param(params: &JsonValue, key: &str) -> (r: Option<String>)
    ensures
        match r {
            Some(s) => json_as_str(json_get(params@, key@)) == Some(s@),
            None => json_as_str(json_get(params@, key@)) is None,
        },
{
    match params.get(key) {
        Some(JsonValue::String(s)) => Some(copy_str(s.as_str())),
        _ => None,
    }
}

/// The model of an optional string.
pub open spec fn opt_view(o: Option<String>) -> Option<Seq<char>> {
    match o {
        Some(s) => Some(s@),
        None => None,
    }
}

/// An email knot: `apiKey`, `from`, `to` and `subject` default to empty,
/// `html` and `text` are optional.
pub fn factory(params: &JsonValue) -> (k: Resend)
    ensures
        k.api_key@ == str_or(params@, "apiKey"@, ""@),
        k.from@ == str_or(params@, "from"@, ""@),
        k.to@ == str_or(params@, "to"@, ""@),
        k.subject@ == str_or(params@, "subject"@, ""@),
        opt_view(k.html) == json_as_str(json_get(params@, "html"@)),
        opt_view(k.text) == json_as_str(json_get(params@, "text"@)),
{
    Resend {
        api_key: str_param_or(params, "apiKey", ""),
        from: str_param_or(params, "from", ""),
        to: str_param_or(params, "to", ""),
        subject: str_param_or(params, "subject", ""),
        html: opt_param(params, "html"),
        text: opt_param(params, "text"),
    }
}

/// The JSON body of the email for an item: `from`, `to` and `subject`, then
/// `html` and `text` when set, all rendered against the item.
pub open spec fn email_entries(k: Resend, item: Json, env: Seq<(Seq<char>, Seq<char>)>) -> Seq<(Seq<char>, Json)> {
    let base = seq![
        ("from"@, Json::Str(render_text(k.from@, item, env))),
        ("to"@, Json::Str(render_text(k.to@, item, env))),
        ("subject"@, Json::Str(render_text(k.subject@, item, env))),
    ];
    let with_html = match k.html {
        Some(h) => base.push(("html"@, Json::Str(render_text(h@, item, env)))),
        None => base,
    };
    match k.text {
        Some(t) => with_html.push(("text"@, Json::Str(render_text(t@, item, env)))),
        None => with_html,
    }
}

/// The email body for an item holds `from`, `to` and `subject`, and `html`
/// and `text` when they are set, each the knot's text with its templates
/// rendered against the item; it holds no other member.
pub proof fn lemma_email_members(k: Resend, item: Json, env: Seq<(Seq<char>, Seq<char>)>)
    ensures
        ({
            let o = entries_insert_all(Seq::empty(), email_entries(k, item, env));
            &&& entries_get(o, "from"@) == Some(Json::Str(render_text(k.from@, item, env)))
            &&& entries_get(o, "to"@) == Some(Json::Str(render_text(k.to@, item, env)))
            &&& entries_get(o, "subject"@) == Some(Json::Str(render_text(k.subject@, item, env)))
            &&& entries_get(o, "html"@) == match k.html {
                Some(h) => Some(Json::Str(render_text(h@, item, env))),
                None => None,
            }
            &&& entries_get(o, "text"@) == match k.text {
                Some(t) => Some(Json::Str(render_text(t@, item, env))),
                None => None,
            }
            &&& forall|key: Seq<char>|
                key != "from"@ && key != "to"@ && key != "subject"@ && key != "html"@ && key != "text"@
                    ==> #[trigger] entries_get(o, key) is None
        }),
{
    reveal_strlit("from");
    reveal_strlit("to");
    reveal_strlit("subject");
    reveal_strlit("html");
    reveal_strlit("text");
    let es = email_entries(k, item, env);
    let base = seq![
        ("from"@, Json::Str(render_text(k.from@, item, env))),
        ("to"@, Json::Str(render_text(k.to@, item, env))),
        ("subject"@, Json::Str(render_text(k.subject@, item, env))),
    ];
    let hs: Seq<(Seq<char>, Json)> = match k.html {
        Some(h) => seq![("html"@, Json::Str(render_text(h@, item, env)))],
        None => Seq::empty(),
    };
    let ts: Seq<(Seq<char>, Json)> = match k.text {
        Some(t) => seq![("text"@, Json::Str(render_text(t@, item, env)))],
        None => Seq::empty(),
    };
    assert(es =~= base + hs + ts);
    assert forall|i: int| 0 <= i < es.len() implies {
        ||| es[i].0 == "from"@ && i == 0
        ||| es[i].0 == "to"@ && i == 1
        ||| es[i].0 == "subject"@ && i == 2
        ||| es[i].0 == "html"@ && i == 3 && k.html is Some
        ||| es[i].0 == "text"@ && i == es.len() - 1 && k.text is Some
    } by {
        if i >= 3 {
            if k.html is Some && i == 3 {
            } else {
                assert(k.text is Some);
            }
        }
    }
    assert forall|i: int, j: int| 0 <= i < j < es.len() implies es[i].0 != es[j].0 by {
        assert(es[i].0.len() != es[j].0.len() || es[i].0[0] != es[j].0[0]);
    }
    if k.html is None {
        assert forall|i: int| 0 <= i < es.len() implies es[i].0 != "html"@ by {
            assert(es[i].0[0] != "html"@[0]);
        }
    }
    if k.text is None {
        assert forall|i: int| 0 <= i < es.len() implies es[i].0 != "text"@ by {
            assert(es[i].0.len() != "text"@.len() || es[i].0[0] != "text"@[0]);
        }
    }
    lemma_get_insert_all(es, "from"@);
    lemma_get_insert_all(es, "to"@);
    lemma_get_insert_all(es, "subject"@);
    lemma_get_insert_all(es, "html"@);
    lemma_get_insert_all(es, "text"@);
    assert(es[0] == base[0] && es[1] == base[1] && es[2] == base[2]);
    if k.html is Some {
        assert(es[3] == hs[0]);
    }
    if k.text is Some {
        assert(es[es.len() - 1] == ts[0]);
    }
    assert forall|key: Seq<char>|
        key != "from"@ && key != "to"@ && key != "subject"@ && key != "html"@ && key != "text"@
            implies #[trigger] entries_get(entries_insert_all(Seq::empty(), es), key) is None by {
        lemma_get_insert_all(es, key);
    }
}

/// Whether `call` is the request that sends the email for `item` with `key`.
pub open spec fn is_email_request(call: HttpCall, k: Resend, key: Seq<char>, item: Json, env: Seq<(Seq<char>, Seq<char>)>) -> bool {
    &&& call.method@ == "POST"@
    &&& call.url@ == resend_url()
    &&& pairs_view(call.headers@) == seq![
        ("Authorization"@, "Bearer "@ + key),
        ("Content-Type"@, "application/json"@),
    ]
    &&& call.body@ == json_text(Json::Object(entries_insert_all(Seq::empty(), email_entries(k, item, env))))
    &&& call.max_body is None
}

/// The members of the item a response becomes: the response body (as JSON
/// when it parses, else as text) and the status.
pub open spec fn email_result_entries(status: u16, body_text: Seq<char>, body_json: Option<Json>) -> Seq<(Seq<char>, Json)> {
    seq![
        ("status"@, Json::Number(NumberModel::PosInt(status as u64))),
        ("response"@, match body_json {
            Some(j) => j,
            None => Json::Str(body_text),
        }),
    ]
}

/// The error text of a request that could not be sent.
pub open spec fn send_failure_message(m: Seq<char>) -> Seq<char> {
    "resend request failed: "@ + m
}

impl Resend {
    /// Whether the key must come from the environment.
    pub fn needs_env_key(&self) -> (r: bool)
        ensures
            r == (self.api_key@.len() == 0),
    {
        self.api_key.as_str().is_empty()
    }

    /// The email request for each item, in order.
    pub fn requests(&self, key: &str, input: &Vec<Item>, env: &Env) -> (out: Vec<HttpCall>)
        ensures
            out@.len() == input@.len(),
            forall|i: int| 0 <= i < input@.len() ==> is_email_request(#[trigger] out@[i], *self, key@, input@[i]@, env@),
    {
        let mut out: Vec<HttpCall> = Vec::new();
        let mut i: usize = 0;
        while i < input.len()
            invariant
                i <= input@.len(),
                out@.len() == i,
                forall|k: int| 0 <= k < i ==> is_email_request(#[trigger] out@[k], *self, key@, input@[k]@, env@),
            decreases input@.len() - i,
        {
            let item = &input[i];
            let mut pairs: Vec<(String, JsonValue)> = Vec::new();
            pairs.push((copy_str("from"), JsonValue::String(render_string(self.from.as_str(), item, env))));
            pairs.push((copy_str("to"), JsonValue::String(render_string(self.to.as_str(), item, env))));
            pairs.push((copy_str("subject"), JsonValue::String(render_string(self.subject.as_str(), item, env))));
            match &self.html {
                Some(h) => pairs.push((copy_str("html"), JsonValue::String(render_string(h.as_str(), item, env)))),
                None => {},
            }
            match &self.text {
                Some(t) => pairs.push((copy_str("text"), JsonValue::String(render_string(t.as_str(), item, env)))),
                None => {},
            }
            proof {
                lemma_entries_model(pairs@);
                assert(entries_model(pairs@) =~= email_entries(*self, item@, env@));
            }
            let body = to_json_string(&JsonValue::object(pairs));
            let mut auth = String::new();
            push_str(&mut auth, "Bearer ");
            push_str(&mut auth, key);
            let mut headers: Vec<(String, String)> = Vec::new();
            headers.push((copy_str("Authorization"), auth));
            headers.push((copy_str("Content-Type"), copy_str("application/json")));
            assert(pairs_view(headers@) =~= seq![
                ("Authorization"@, "Bearer "@ + key@),
                ("Content-Type"@, "application/json"@),
            ]);
            let call = HttpCall {
                method: copy_str("POST"),
                url: copy_str("https://api.resend.com/emails"),
                headers,
                body,
                max_body: None,
            };
            out.push(call);
            i = i + 1;
        }
        out
    }
}

/// The item a response becomes: `{ response, status }`.
pub fn email_result(reply: &HttpReply) -> (item: Item)
    ensures
        item@ == Json::Object(
            entries_insert_all(
                Seq::empty(),
                email_result_entries(reply.status, reply.body_text@, reply_json(*reply)),
            ),
        ),
{
    let mut pairs: Vec<(String, JsonValue)> = Vec::new();
    pairs.push((copy_str("status"), JsonValue::Number(JsonNumber::PosInt(reply.status as u64))));
    let info = match &reply.body_json {
        Some(j) => j.copy(),
        None => JsonValue::String(copy_str(reply.body_text.as_str())),
    };
    pairs.push((copy_str("response"), info));
    proof {
        lemma_entries_model(pairs@);
        assert(entries_model(pairs@) =~= email_result_entries(
            reply.status,
            reply.body_text@,
            reply_json(*reply),
        ));
    }
    Item::new(JsonValue::object(pairs))
}

} // verus!
