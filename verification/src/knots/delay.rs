//! `transform.delay`: waits, then passes the items on.
use vstd::prelude::*;
use crate::json::{Json, JsonValue, json_as_u64, json_get};
use crate::knot::KnotDescriptor;
use crate::number::{JsonNumber, NumberModel};
use crate::schema::{FieldModel, KnotSchema, ParamField, plain_field, schema_view};

verus! {

/// The descriptor of `transform.delay`.
pub fn descriptor() -> (d: KnotDescriptor)
    ensures
        d.kind@ == "transform.delay"@,
        d.output_count == 1,
        d.input_count == 1,
        d.name@ == "Delay"@,
        d.description@ == "Waits for a number of milliseconds before continuing"@,
{
    KnotDescriptor {
        kind: "transform.delay",
        name: "Delay",
        description: "Waits for a number of milliseconds before continuing",
        output_count: 1,
        input_count: 1,
    }
}

/// The parameter fields of `transform.delay`.
pub open spec fn schema_model() -> Seq<FieldModel> {
    seq![
        FieldModel {
            default: Some(Json::Number(NumberModel::PosInt(0))),
            ..plain_field("milliseconds"@, "Milliseconds"@, "number"@)
        },
    ]
}

/// The parameters of `transform.delay`.
pub fn schema() -> (s: KnotSchema)
    ensures
        s@.len() == 1,
        s@[0].key@ == "milliseconds"@,
        schema_view(s@) == schema_model(),
{
    let mut s: KnotSchema = Vec::new();
    s.push(ParamField::number("milliseconds", "Milliseconds").default(JsonValue::Number(JsonNumber::PosInt(0))));
    assert(schema_view(s@) =~= schema_model());
    s
}

/// A configured delay knot.
pub struct Delay {
    pub milliseconds: u64,
}

/// The wait in milliseconds that `params` asks for: its `milliseconds` member
/// when that is a non-negative integer, else 0.
pub open spec fn delay_of(params: Json) -> u64 {
    match json_get(params, "milliseconds"@) {
        Some(v) => match json_as_u64(v) {
            Some(u) => u,
            None => 0,
        },
        None => 0,
    }
}

/// A delay knot.
pub fn factory(params: &JsonValue) -> (k: Delay)
    ensures
        k.milliseconds == delay_of(params@),
{
    let milliseconds = match params.get("milliseconds") {
        Some(v) => match v.as_u64() {
            Some(u) => u,
            None => 0,
        },
        None => 0,
    };
    Delay { milliseconds }
}

} // verus!
