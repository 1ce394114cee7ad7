//! `notify.log`: writes a line per item and passes the items on.
use vstd::prelude::*;
use crate::item::Item;
use crate::json::{JsonValue, json_as_str, json_get, json_text, to_json_string};
use crate::knot::{Ctx, KnotDescriptor};
use crate::schema::{FieldModel, KnotSchema, ParamField, plain_field, schema_view};
use crate::templ::{Env, render_string, render_text};
use crate::text::{chars_of, push_str, string_from};

verus! {

/// The descriptor of `notify.log`.
pub fn descriptor() -> (d: KnotDescriptor)
    ensures
        d.kind@ == "notify.log"@,
        d.output_count == 1,
        d.input_count == 1,
        d.name@ == "Log"@,
        d.description@ == "Logs each item to the console"@,
{
    KnotDescriptor {
        kind: "notify.log",
        name: "Log",
        description: "Logs each item to the console",
        output_count: 1,
        input_count: 1,
    }
}

/// The parameter fields of `notify.log`.
pub open spec fn schema_model() -> Seq<FieldModel> {
    seq![
        FieldModel {
            placeholder: Some("Log {{ $json.field }}"@),
            help: Some("Blank logs the whole item as JSON."@),
            ..plain_field("message"@, "Message"@, "textarea"@)
        },
    ]
}

/// The parameters of `notify.log`.
pub fn schema() -> (s: KnotSchema)
    ensures
        s@.len() == 1,
        s@[0].key@ == "message"@,
        schema_view(s@) == schema_model(),
{
    let mut s: KnotSchema = Vec::new();
    s.push(
        ParamField::textarea("message", "Message").placeholder("Log {{ $json.field }}").help(
            "Blank logs the whole item as JSON.",
        ),
    );
    assert(schema_view(s@) =~= schema_model());
    s
}

/// A configured log knot.
pub struct Log {
    pub message: Option<String>,
}

/// A log knot: its message is the `message` parameter when that is a string.
pub fn factory(params: &JsonValue) -> (k: Log)
    ensures
        k.message is Some == json_as_str(json_get(params@, "message"@)) is Some,
        k.message is Some ==> k.message->0@ == json_as_str(json_get(params@, "message"@))->0,
{
    match params.get("message") {
        Some(JsonValue::String(m)) => {
            let c = chars_of(m.as_str());
            Log { message: Some(string_from(&c)) }
        },
        _ => Log { message: None },
    }
}

/// The line written for one item: `[workflow] message`, with the message
/// rendered against the item, or the item's JSON when there is no message.
pub open spec fn log_line(message: Option<Seq<char>>, workflow_id: Seq<char>, item: crate::json::Json, env: Seq<(Seq<char>, Seq<char>)>) -> Seq<char> {
    "["@ + workflow_id + "] "@ + match message {
        Some(m) => render_text(m, item, env),
        None => json_text(item),
    }
}

impl Log {
    /// The lines to write, one per item.
    pub fn lines(&self, ctx: &Ctx, input: &Vec<Item>, env: &Env) -> (out: Vec<String>)
        ensures
            out@.len() == input@.len(),
            forall|i: int|
                0 <= i < input@.len() ==> (#[trigger] out@[i])@ == log_line(
                    match self.message {
                        Some(m) => Some(m@),
                        None => None,
                    },
                    ctx.workflow_id@,
                    input@[i]@, env@),
    {
        let mut out: Vec<String> = Vec::new();
        let mut i: usize = 0;
        while i < input.len()
            invariant
                i <= input@.len(),
                out@.len() == i,
                forall|k: int|
                    0 <= k < i ==> (#[trigger] out@[k])@ == log_line(
                        match self.message {
                            Some(m) => Some(m@),
                            None => None,
                        },
                        ctx.workflow_id@,
                        input@[k]@, env@),
            decreases input@.len() - i,
        {
            let mut line = String::new();
            push_str(&mut line, "[");
            push_str(&mut line, ctx.workflow_id.as_str());
            push_str(&mut line, "] ");
            let text = match &self.message {
                Some(m) => render_string(m.as_str(), &input[i], env),
                None => to_json_string(&input[i].json),
            };
            push_str(&mut line, text.as_str());
            assert(line@ =~= log_line(
                match self.message {
                    Some(m) => Some(m@),
                    None => None,
                },
                ctx.workflow_id@,
                input@[i as int]@, env@));
            out.push(line);
            i = i + 1;
        }
        out
    }
}

impl Log {
    /// The lines to write, one per item, and its one output: the items,
    /// unchanged.
    pub fn run(&self, ctx: &Ctx, input: Vec<Item>, env: &Env) -> (r: (Vec<String>, Vec<Vec<Item>>))
        ensures
            r.0@.len() == input@.len(),
            forall|i: int|
                0 <= i < input@.len() ==> (#[trigger] r.0@[i])@ == log_line(
                    match self.message {
                        Some(m) => Some(m@),
                        None => None,
                    },
                    ctx.workflow_id@,
                    input@[i]@, env@),
            r.1@.len() == 1,
            r.1@[0] == input,
    {
        let lines = self.lines(ctx, &input, env);
        let mut out: Vec<Vec<Item>> = Vec::new();
        out.push(input);
        (lines, out)
    }
}

} // verus!
