//! Building a workflow step by step, checked by `validate` at the end.
use vstd::prelude::*;
use crate::json::JsonValue;
use crate::model::{Connection, Knot, Workflow};
use crate::text::{chars_of, string_from};
use crate::validate::{ValidationError, messages, validate, validation_errors};

verus! {

/// The positions of the hyphens in a hyphenated UUID.
pub open spec fn uuid_hyphen(i: int) -> bool {
    i == 8 || i == 13 || i == 18 || i == 23
}

/// A lowercase hexadecimal digit.
pub open spec fn is_lower_hex(c: char) -> bool {
    ('0' <= c && c <= '9') || ('a' <= c && c <= 'f')
}

/// `s` is a random (version 4) UUID in hyphenated lowercase form: the
/// version digit is `4` and the variant digit one of `8`, `9`, `a`, `b`.
pub open spec fn is_uuid_text(s: Seq<char>) -> bool {
    &&& s.len() == 36
    &&& forall|i: int| 0 <= i < 36 && uuid_hyphen(i) ==> s[i] == '-'
    &&& forall|i: int| 0 <= i < 36 && !uuid_hyphen(i) ==> is_lower_hex(#[trigger] s[i])
    &&& s[14] == '4'
    &&& (s[19] == '8' || s[19] == '9' || s[19] == 'a' || s[19] == 'b')
}

/// A fresh random id: `uuid::Uuid::new_v4().to_string()`, which the uuid
/// crate writes as 36 characters, lowercase hexadecimal digits with hyphens
/// at positions 8, 13, 18 and 23; `new_v4` sets the version digit (14) to
/// `4` and the variant digit (19) to one of `8`, `9`, `a`, `b`. Which other
/// digits come is chance, and is not stated.
#[verifier::external_body]
fn new_uuid() -> (s: String)
    ensures
        s@.len() == 36,
        forall|i: int| 0 <= i < 36 && uuid_hyphen(i) ==> s@[i] == '-',
        forall|i: int| 0 <= i < 36 && !uuid_hyphen(i) ==> is_lower_hex(#[trigger] s@[i]),
        s@[14] == '4',
        s@[19] == '8' || s@[19] == '9' || s@[19] == 'a' || s@[19] == 'b',
{
    uuid::Uuid::new_v4().to_string()
}

/// A workflow under construction.
pub struct WorkflowBuilder {
    id: String,
    name: String,
    knots: Vec<Knot>,
    connections: Vec<Connection>,
    active: bool,
}

/// A string of the same text.
fn own(s: &str) -> (r: String)
    ensures
        r@ == s@,
{
    let c = chars_of(s);
    string_from(&c)
}

impl WorkflowBuilder {
    /// The workflow that `build` checks and gives.
    pub closed spec fn draft(&self) -> Workflow {
        Workflow {
            id: self.id,
            name: self.name,
            knots: self.knots,
            connections: self.connections,
            active: self.active,
        }
    }

    /// An empty, inactive workflow named `name`, with a fresh random id.
    pub(crate) fn new(name: String) -> (b: WorkflowBuilder)
        ensures
            b.draft().name@ == name@,
            is_uuid_text(b.draft().id@),
            b.draft().knots@.len() == 0,
            b.draft().connections@.len() == 0,
            !b.draft().active,
    {
        WorkflowBuilder { id: new_uuid(), name, knots: Vec::new(), connections: Vec::new(), active: false }
    }

    /// Sets the id.
    pub fn id(self, id: &str) -> (b: WorkflowBuilder)
        ensures
            b.draft() == (Workflow { id: b.draft().id, ..self.draft() }),
            b.draft().id@ == id@,
    {
        WorkflowBuilder { id: own(id), ..self }
    }

    /// Sets whether the workflow is active.
    pub fn active(self, active: bool) -> (b: WorkflowBuilder)
        ensures
            b.draft() == (Workflow { active, ..self.draft() }),
    {
        WorkflowBuilder { active, ..self }
    }

    /// Adds a knot with this id, type and parameters; its name is its id.
    pub fn knot(self, id: &str, kind: &str, params: JsonValue) -> (b: WorkflowBuilder)
        ensures
            b.draft() == (Workflow { knots: b.draft().knots, ..self.draft() }),
            b.draft().knots@.len() == self.draft().knots@.len() + 1,
            b.draft().knots@.drop_last() == self.draft().knots@,
            b.draft().knots@.last().id@ == id@,
            b.draft().knots@.last().name@ == id@,
            b.draft().knots@.last().kind@ == kind@,
            b.draft().knots@.last().params@ == params@,
            b.draft().knots@.last().position == (0u32, 0u32),
    {
        let mut b = self;
        b.knots.push(Knot::new(id, kind, params));
        b
    }

    /// Connects output 0 of knot `from` to input 0 of knot `to`.
    pub fn connect(self, from: &str, to: &str) -> (b: WorkflowBuilder)
        ensures
            b.draft() == (Workflow { connections: b.draft().connections, ..self.draft() }),
            b.draft().connections@.len() == self.draft().connections@.len() + 1,
            b.draft().connections@.drop_last() == self.draft().connections@,
            b.draft().connections@.last().from@ == from@,
            b.draft().connections@.last().from_output == 0,
            b.draft().connections@.last().to@ == to@,
            b.draft().connections@.last().to_input == 0,
    {
        self.connect_output(from, 0, to, 0)
    }

    /// Connects output `from_output` of knot `from` to input `to_input` of
    /// knot `to`.
    pub fn connect_output(self, from: &str, from_output: usize, to: &str, to_input: usize) -> (b: WorkflowBuilder)
        ensures
            b.draft() == (Workflow { connections: b.draft().connections, ..self.draft() }),
            b.draft().connections@.len() == self.draft().connections@.len() + 1,
            b.draft().connections@.drop_last() == self.draft().connections@,
            b.draft().connections@.last().from@ == from@,
            b.draft().connections@.last().from_output == from_output,
            b.draft().connections@.last().to@ == to@,
            b.draft().connections@.last().to_input == to_input,
    {
        let mut b = self;
        b.connections.push(Connection { from: own(from), from_output, to: own(to), to_input });
        assert(b.connections@.drop_last() =~= self.connections@);
        b
    }

    /// The workflow, when `validate` finds nothing wrong with it; else every
    /// problem found.
    pub fn build(self) -> (r: Result<Workflow, Vec<ValidationError>>)
        ensures
            match r {
                Ok(wf) => wf == self.draft() && validation_errors(wf).len() == 0,
                Err(es) => es@.len() > 0 && messages(es@) == validation_errors(self.draft()),
            },
    {
        let wf = Workflow {
            id: self.id,
            name: self.name,
            knots: self.knots,
            connections: self.connections,
            active: self.active,
        };
        match validate(&wf) {
            Ok(()) => Ok(wf),
            Err(es) => Err(es),
        }
    }
}

impl Workflow {
    /// Starts building a workflow named `name`.
    pub fn new(name: &str) -> (b: WorkflowBuilder)
        ensures
            b.draft().name@ == name@,
            is_uuid_text(b.draft().id@),
            b.draft().knots@.len() == 0,
            b.draft().connections@.len() == 0,
            !b.draft().active,
    {
        WorkflowBuilder::new(own(name))
    }
}

} // verus!
