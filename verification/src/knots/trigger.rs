//! `trigger.webhook` and `trigger.schedule`: the knots that start a run.
use vstd::prelude::*;
use crate::error::Error;
use crate::item::Item;
use crate::json::{Json, JsonValue};
use crate::knot::{Ctx, KnotDescriptor};
use crate::schema::KnotSchema;
use crate::text::push_str;

verus! {

/// The descriptor of `trigger.webhook`.
pub fn webhook_descriptor() -> (d: KnotDescriptor)
    ensures
        d.kind@ == "trigger.webhook"@,
        d.output_count == 1,
        d.input_count == 0,
        d.name@ == "Webhook"@,
        d.description@ == "Starts a workflow from an incoming HTTP request"@,
{
    KnotDescriptor {
        kind: "trigger.webhook",
        name: "Webhook",
        description: "Starts a workflow from an incoming HTTP request",
        output_count: 1,
        input_count: 0,
    }
}

/// The descriptor of `trigger.schedule`.
pub fn schedule_descriptor() -> (d: KnotDescriptor)
    ensures
        d.kind@ == "trigger.schedule"@,
        d.output_count == 1,
        d.input_count == 0,
        d.name@ == "Schedule"@,
        d.description@ == "Starts a workflow on a schedule"@,
{
    KnotDescriptor {
        kind: "trigger.schedule",
        name: "Schedule",
        description: "Starts a workflow on a schedule",
        input_count: 0,
        output_count: 1,
    }
}

/// The parameters of `trigger.webhook`: none.
pub fn webhook_schema() -> (s: KnotSchema)
    ensures
        s@.len() == 0,
{
    Vec::new()
}

/// The parameters of `trigger.schedule`: none.
pub fn schedule_schema() -> (s: KnotSchema)
    ensures
        s@.len() == 0,
{
    Vec::new()
}

/// The webhook trigger.
pub struct Webhook;

/// The schedule trigger.
pub struct Schedule;

/// A webhook trigger; it takes no parameters.
pub fn webhook_factory(_params: &JsonValue) -> (k: Webhook) {
    Webhook
}

/// A schedule trigger; it takes no parameters.
pub fn schedule_factory(_params: &JsonValue) -> (k: Schedule) {
    Schedule
}

impl Webhook {
    /// Its one output: the input items, or one empty object when there are none.
    pub fn run(&self, input: Vec<Item>) -> (out: Vec<Vec<Item>>)
        ensures
            out@.len() == 1,
            input@.len() > 0 ==> out@[0] == input,
            input@.len() == 0 ==> out@[0]@.len() == 1 && out@[0]@[0]@ == Json::Object(Seq::empty()),
    {
        let output = if input.len() == 0 {
            let mut v: Vec<Item> = Vec::new();
            v.push(Item::new(JsonValue::empty_object()));
            v
        } else {
            input
        };
        let mut out: Vec<Vec<Item>> = Vec::new();
        out.push(output);
        out
    }
}

/// The message of a schedule trigger run by hand.
pub open spec fn schedule_message(workflow_id: Seq<char>) -> Seq<char> {
    "schedule trigger cannot be executed manually (workflow `"@ + workflow_id + "`)"@
}

impl Schedule {
    /// Always fails: there is no scheduler to run it.
    pub fn run(&self, ctx: &Ctx) -> (r: Result<Vec<Vec<Item>>, Error>)
        ensures
            r matches Err(Error::Knot(m)) && m@ == schedule_message(ctx.workflow_id@),
    {
        let mut m = String::new();
        push_str(&mut m, "schedule trigger cannot be executed manually (workflow `");
        push_str(&mut m, ctx.workflow_id.as_str());
        push_str(&mut m, "`)");
        Err(Error::Knot(m))
    }
}

} // verus!
