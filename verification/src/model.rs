//! Workflows: knots and the connections between their ports.
use vstd::prelude::*;
use crate::json::{Json, JsonValue};
use crate::text::{chars_of, string_from};

verus! {

/// A workflow definition.
pub struct Workflow {
    pub id: String,
    pub name: String,
    pub knots: Vec<Knot>,
    pub connections: Vec<Connection>,
    pub active: bool,
}

/// One knot of a workflow: its id, display name, type and parameters.
/// `position` holds the bit patterns of the two `f32` canvas coordinates.
pub struct Knot {
    pub id: String,
    pub name: String,
    pub kind: String,
    pub params: JsonValue,
    pub position: (u32, u32),
}

/// A wire from output `from_output` of knot `from` to input `to_input` of
/// knot `to`.
pub struct Connection {
    pub from: String,
    pub from_output: usize,
    pub to: String,
    pub to_input: usize,
}

/// The parameters a knot gets when none are given: an empty object.
pub fn default_params() -> (v: JsonValue)
    ensures
        v@ == Json::Object(Seq::empty()),
{
    JsonValue::empty_object()
}

impl Knot {
    /// A knot whose name is its id, at position (0, 0).
    pub fn new(id: &str, kind: &str, params: JsonValue) -> (k: Knot)
        ensures
            k.id@ == id@,
            k.name@ == id@,
            k.kind@ == kind@,
            k.params@ == params@,
            k.position == (0u32, 0u32),
    {
        let i = chars_of(id);
        let t = chars_of(kind);
        Knot {
            id: string_from(&i),
            name: string_from(&i),
            kind: string_from(&t),
            params,
            position: (0, 0),
        }
    }
}

impl Connection {
    /// A copy of the connection.
    pub fn copy(&self) -> (c: Connection)
        ensures
            c.from@ == self.from@,
            c.to@ == self.to@,
            c.from_output == self.from_output,
            c.to_input == self.to_input,
    {
        Connection {
            from: crate::json::copy_string(&self.from),
            from_output: self.from_output,
            to: crate::json::copy_string(&self.to),
            to_input: self.to_input,
        }
    }
}

} // verus!
