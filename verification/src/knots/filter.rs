//! `transform.filter`: routes items to output 0 (match) or 1 (no match).
use vstd::prelude::*;
use crate::error::Error;
use crate::item::Item;
use crate::json::{
    Json, JsonValue, json_as_str, json_eq, json_equal, json_get, items_model, lemma_items_model,
};
use crate::knot::KnotDescriptor;
use crate::number::{NumberModel, compare_numbers, int_value, is_exact_int, lemma_num_order_ints, num_order};
use crate::schema::{FieldModel, FieldOption, KnotSchema, ListRowField, ParamField, RowModel, options, plain_field, schema_view};
use crate::templ::{Env, json_mark, render_json, render_param, resolve, resolve_expr};
use crate::text::{chars_of, find, find_from, push_str, str_equal, string_from};

verus! {

/// The descriptor of `transform.filter`.
pub fn descriptor() -> (d: KnotDescriptor)
    ensures
        d.kind@ == "transform.filter"@,
        d.output_count == 2,
        d.input_count == 1,
        d.name@ == "Filter"@,
        d.description@ == "Routes items to output 0 (match) or output 1 (no match)"@,
{
    KnotDescriptor {
        kind: "transform.filter",
        name: "Filter",
        description: "Routes items to output 0 (match) or output 1 (no match)",
        output_count: 2,
        input_count: 1,
    }
}

/// The parameter fields of `transform.filter`.
pub open spec fn schema_model() -> Seq<FieldModel> {
    seq![
        FieldModel {
            rows: Some(
                seq![
                    RowModel {
                        key: "field"@,
                        label: "Field"@,
                        field_type: "text"@,
                        placeholder: Some("age"@),
                        options: None,
                    },
                    RowModel {
                        key: "operator"@,
                        label: "Op"@,
                        field_type: "select"@,
                        placeholder: None,
                        options: Some(
                            seq![
                                ("eq"@, "EQ"@),
                                ("neq"@, "NEQ"@),
                                ("contains"@, "CONTAINS"@),
                                ("regex"@, "REGEX"@),
                                ("gt"@, "GT"@),
                                ("gte"@, "GTE"@),
                                ("lt"@, "LT"@),
                                ("lte"@, "LTE"@),
                                ("exists"@, "EXISTS"@),
                            ],
                        ),
                    },
                    RowModel {
                        key: "value"@,
                        label: "Value"@,
                        field_type: "jsonish"@,
                        placeholder: Some("18"@),
                        options: None,
                    },
                ],
            ),
            ..plain_field("conditions"@, "Conditions"@, "list"@)
        },
        FieldModel {
            options: Some(seq![("all"@, "ALL"@), ("any"@, "ANY"@)]),
            default: Some(Json::Str("all"@)),
            ..plain_field("mode"@, "Mode"@, "select"@)
        },
    ]
}

/// The parameters of `transform.filter`.
pub fn schema() -> (s: KnotSchema)
    ensures
        schema_view(s@) == schema_model(),
        s@.len() == 2,
        s@[0].key@ == "conditions"@,
        s@[1].key@ == "mode"@,
{
    let operators = options(
        &[
            ("eq", "EQ"),
            ("neq", "NEQ"),
            ("contains", "CONTAINS"),
            ("regex", "REGEX"),
            ("gt", "GT"),
            ("gte", "GTE"),
            ("lt", "LT"),
            ("lte", "LTE"),
            ("exists", "EXISTS"),
        ],
    );
    assert(operators@.map_values(|x: FieldOption| crate::schema::option_view(x))
        =~= schema_model()[0].rows->0[1].options->0);
    let mut rows: Vec<ListRowField> = Vec::new();
    rows.push(ListRowField::text("field", "Field").placeholder("age"));
    rows.push(ListRowField::select("operator", "Op").options(operators));
    rows.push(ListRowField::jsonish("value", "Value").placeholder("18"));
    assert(rows@.map_values(|r: ListRowField| crate::schema::row_view(r)) =~= schema_model()[0].rows->0);
    let modes = options(&[("all", "ALL"), ("any", "ANY")]);
    assert(modes@.map_values(|x: FieldOption| crate::schema::option_view(x)) =~= schema_model()[1].options->0);
    let mut s: KnotSchema = Vec::new();
    s.push(ParamField::list("conditions", "Conditions").rows(rows));
    s.push(ParamField::select("mode", "Mode").options(modes).default(JsonValue::string("all")));
    assert(schema_view(s@) =~= schema_model());
    s
}

// ---------------------------------------------------------------------------
// Regular expressions
// ---------------------------------------------------------------------------

#[verifier::external_type_specification]
#[verifier::external_body]
pub struct ExRegex(regex::Regex);

/// What `regex::Regex::new(pattern)` gives: `None` when it compiles, else the
/// text of its error.
pub uninterp spec fn regex_compile_error(pattern: Seq<char>) -> Option<Seq<char>>;

/// Whether the compiled `pattern` matches somewhere in `haystack`
/// (`Regex::is_match`).
pub uninterp spec fn regex_is_match(pattern: Seq<char>, haystack: Seq<char>) -> bool;

/// A compiled regular expression and its source. Its fields are private
/// and only `compile_pattern` makes one, so `source` is always the text
/// that `regex` was compiled from.
pub struct Pattern {
    source: String,
    regex: regex::Regex,
}

/// Compiles `pattern` with `regex::Regex::new`. The contract names the
/// outcome; which patterns compile, and the error text, are the regex
/// crate's and are not stated here.
#[verifier::external_body]
fn compile_pattern(pattern: &str) -> (r: Result<Pattern, String>)
    ensures
        match r {
            Ok(p) => p.source@ == pattern@ && regex_compile_error(pattern@) is None,
            Err(m) => regex_compile_error(pattern@) == Some(m@),
        },
{
    match regex::Regex::new(pattern) {
        Ok(regex) => Ok(Pattern { source: pattern.to_string(), regex }),
        Err(e) => Err(e.to_string()),
    }
}

/// `Regex::is_match` of the compiled pattern on `haystack`.
#[verifier::external_body]
fn pattern_is_match(p: &Pattern, haystack: &str) -> (r: bool)
    ensures
        r == regex_is_match(p.source@, haystack@),
{
    p.regex.is_match(haystack)
}

// ---------------------------------------------------------------------------
// Conditions
// ---------------------------------------------------------------------------

/// A comparison operator.
#[derive(Clone, Copy)]
pub enum Operator {
    Eq,
    Neq,
    Contains,
    Regex,
    Gt,
    Gte,
    Lt,
    Lte,
    Exists,
}

/// The operator of a name.
pub open spec fn operator_named(s: Seq<char>) -> Option<Operator> {
    if s == "eq"@ {
        Some(Operator::Eq)
    } else if s == "neq"@ {
        Some(Operator::Neq)
    } else if s == "contains"@ {
        Some(Operator::Contains)
    } else if s == "regex"@ {
        Some(Operator::Regex)
    } else if s == "gt"@ {
        Some(Operator::Gt)
    } else if s == "gte"@ {
        Some(Operator::Gte)
    } else if s == "lt"@ {
        Some(Operator::Lt)
    } else if s == "lte"@ {
        Some(Operator::Lte)
    } else if s == "exists"@ {
        Some(Operator::Exists)
    } else {
        None
    }
}

impl Operator {
    /// The operator named `op`.
    pub fn parse(op: &str) -> (r: Option<Operator>)
        ensures
            r == operator_named(op@),
    {
        if str_equal(op, "eq") {
            Some(Operator::Eq)
        } else if str_equal(op, "neq") {
            Some(Operator::Neq)
        } else if str_equal(op, "contains") {
            Some(Operator::Contains)
        } else if str_equal(op, "regex") {
            Some(Operator::Regex)
        } else if str_equal(op, "gt") {
            Some(Operator::Gt)
        } else if str_equal(op, "gte") {
            Some(Operator::Gte)
        } else if str_equal(op, "lt") {
            Some(Operator::Lt)
        } else if str_equal(op, "lte") {
            Some(Operator::Lte)
        } else if str_equal(op, "exists") {
            Some(Operator::Exists)
        } else {
            None
        }
    }
}

/// One condition: a field path, an operator and the value to compare with.
pub struct Condition {
    pub field: String,
    pub operator: Operator,
    pub value: JsonValue,
}

/// The model of a condition.
pub struct ConditionModel {
    pub field: Seq<char>,
    pub operator: Operator,
    pub value: Json,
}

impl Condition {
    pub open spec fn model(&self) -> ConditionModel {
        ConditionModel { field: self.field@, operator: self.operator, value: self.value@ }
    }
}

/// The condition an element of `conditions` describes: a string `field`, a
/// known `operator`, and a `value` (null when absent).
pub open spec fn condition_of(v: Json) -> Option<ConditionModel> {
    match (json_as_str(json_get(v, "field"@)), json_as_str(json_get(v, "operator"@))) {
        (Some(f), Some(o)) => match operator_named(o) {
            Some(op) => Some(
                ConditionModel {
                    field: f,
                    operator: op,
                    value: match json_get(v, "value"@) {
                        Some(x) => x,
                        None => Json::Null,
                    },
                },
            ),
            None => None,
        },
        _ => None,
    }
}

/// The conditions that the elements describe, in order.
pub open spec fn conditions_in(xs: Seq<Json>) -> Seq<ConditionModel>
    decreases xs.len(),
{
    if xs.len() == 0 {
        Seq::empty()
    } else {
        let r = conditions_in(xs.drop_last());
        match condition_of(xs.last()) {
            Some(c) => r.push(c),
            None => r,
        }
    }
}

/// The conditions of a filter's parameters.
pub open spec fn conditions_of(params: Json) -> Seq<ConditionModel> {
    match json_get(params, "conditions"@) {
        Some(Json::Array(xs)) => conditions_in(xs),
        _ => Seq::empty(),
    }
}

/// Whether the filter needs all conditions: unless `mode` is `"any"`.
pub open spec fn require_all_of(params: Json) -> bool {
    json_as_str(json_get(params, "mode"@)) != Some("any"@)
}

impl Condition {
    /// The condition an element of `conditions` describes.
    pub fn from_value(value: &JsonValue) -> (r: Option<Condition>)
        ensures
            match r {
                Some(c) => condition_of(value@) == Some(c.model()),
                None => condition_of(value@) is None,
            },
    {
        let field = match value.get("field") {
            Some(JsonValue::String(f)) => f,
            _ => return None,
        };
        let op = match value.get("operator") {
            Some(JsonValue::String(o)) => o,
            _ => return None,
        };
        let operator = match Operator::parse(op.as_str()) {
            Some(o) => o,
            None => return None,
        };
        let v = match value.get("value") {
            Some(x) => x.copy(),
            None => JsonValue::Null,
        };
        let c = chars_of(field.as_str());
        Some(Condition { field: string_from(&c), operator, value: v })
    }
}

/// A configured filter knot.
pub struct Filter {
    pub conditions: Vec<Condition>,
    pub require_all: bool,
}

impl Filter {
    pub open spec fn conditions_model(&self) -> Seq<ConditionModel> {
        self.conditions@.map_values(|c: Condition| c.model())
    }
}

/// A filter knot with the conditions and mode of `params`.
pub fn factory(params: &JsonValue) -> (k: Filter)
    ensures
        k.conditions_model() == conditions_of(params@),
        k.require_all == require_all_of(params@),
{
    let mut conditions: Vec<Condition> = Vec::new();
    match params.get("conditions") {
        Some(JsonValue::Array(xs)) => {
            let ghost ms = items_model(xs@);
            proof {
                lemma_items_model(xs@);
            }
            let mut i: usize = 0;
            while i < xs.len()
                invariant
                    i <= xs.len(),
                    ms.len() == xs.len(),
                    forall|k: int| 0 <= k < xs.len() ==> #[trigger] ms[k] == xs@[k]@,
                    conditions@.map_values(|c: Condition| c.model()) == conditions_in(
                        ms.take(i as int),
                    ),
                decreases xs.len() - i,
            {
                proof {
                    assert(ms.take(i + 1).drop_last() == ms.take(i as int));
                    assert(ms.take(i + 1).last() == xs@[i as int]@);
                }
                match Condition::from_value(&xs[i]) {
                    Some(c) => {
                        let ghost before = conditions@;
                        conditions.push(c);
                        assert(conditions@.map_values(|c: Condition| c.model()) =~= before.map_values(
                            |c: Condition| c.model(),
                        ).push(conditions@.last().model()));
                    },
                    None => {},
                }
                i = i + 1;
            }
            assert(ms.take(xs.len() as int) == ms);
        },
        _ => {},
    }
    let require_all = match params.get("mode") {
        Some(JsonValue::String(m)) => !str_equal(m.as_str(), "any"),
        _ => true,
    };
    Filter { conditions, require_all }
}

/// Compares two optional values as numbers, when both are numbers.
pub open spec fn numeric(actual: Option<Json>, expected: Json, op: Operator) -> bool {
    match (actual, expected) {
        (Some(Json::Number(a)), Json::Number(b)) => {
            let c = num_order(a, b);
            match op {
                Operator::Gt => c > 0,
                Operator::Gte => c >= 0,
                Operator::Lt => c < 0,
                Operator::Lte => c <= 0,
                _ => false,
            }
        },
        _ => false,
    }
}

/// The outcome of one condition on an item: the value at the field is
/// compared with the condition's value rendered against the item. `Err`
/// carries the text of a regular expression that does not compile.
pub open spec fn evaluate_spec(c: ConditionModel, item: Json, env: Seq<(Seq<char>, Seq<char>)>) -> Result<bool, Seq<char>> {
    let actual = resolve_expr(json_mark() + seq!['.'] + c.field, item, env);
    let expected = render_json(c.value, item, env);
    match c.operator {
        Operator::Exists => Ok(actual is Some),
        Operator::Eq => Ok(actual is Some && json_eq(actual->0, expected)),
        Operator::Neq => Ok(actual is Some && !json_eq(actual->0, expected)),
        Operator::Contains => match (actual, expected) {
            (Some(Json::Str(h)), Json::Str(n)) => Ok(find(h, n) is Some),
            _ => Ok(false),
        },
        Operator::Regex => match expected {
            Json::Str(p) => match regex_compile_error(p) {
                Some(m) => Err(m),
                None => match actual {
                    Some(Json::Str(s)) => Ok(regex_is_match(p, s)),
                    _ => Ok(false),
                },
            },
            _ => Ok(false),
        },
        _ => Ok(numeric(actual, expected, c.operator)),
    }
}

/// A numeric condition compares the number at the field with the
/// condition's (rendered) number as doubles: `gt`, `gte`, `lt` and `lte`
/// pass exactly when the first is greater than, at least, less than, or at
/// most the second. For integers that doubles hold exactly, that is the
/// comparison of the integers themselves.
pub proof fn lemma_numeric_condition(
    c: ConditionModel,
    item: Json,
    env: Seq<(Seq<char>, Seq<char>)>,
    a: NumberModel,
    b: NumberModel,
)
    requires
        resolve_expr(json_mark() + seq!['.'] + c.field, item, env) == Some(Json::Number(a)),
        render_json(c.value, item, env) == Json::Number(b),
    ensures
        c.operator is Gt ==> evaluate_spec(c, item, env) == Ok::<bool, Seq<char>>(num_order(a, b) > 0),
        c.operator is Gte ==> evaluate_spec(c, item, env) == Ok::<bool, Seq<char>>(num_order(a, b) >= 0),
        c.operator is Lt ==> evaluate_spec(c, item, env) == Ok::<bool, Seq<char>>(num_order(a, b) < 0),
        c.operator is Lte ==> evaluate_spec(c, item, env) == Ok::<bool, Seq<char>>(num_order(a, b) <= 0),
        is_exact_int(a) && is_exact_int(b) ==> {
            &&& c.operator is Gt ==> evaluate_spec(c, item, env) == Ok::<bool, Seq<char>>(int_value(a) > int_value(b))
            &&& c.operator is Gte ==> evaluate_spec(c, item, env) == Ok::<bool, Seq<char>>(int_value(a) >= int_value(b))
            &&& c.operator is Lt ==> evaluate_spec(c, item, env) == Ok::<bool, Seq<char>>(int_value(a) < int_value(b))
            &&& c.operator is Lte ==> evaluate_spec(c, item, env) == Ok::<bool, Seq<char>>(int_value(a) <= int_value(b))
        },
{
    if is_exact_int(a) && is_exact_int(b) {
        lemma_num_order_ints(a, b);
    }
}

/// Whether an item passes the conditions from `k` on, given the mode: in
/// order, the first decisive condition decides; with all of them passed (in
/// "all" mode) or none (in "any" mode) the mode decides.
pub open spec fn matches_from(cs: Seq<ConditionModel>, require_all: bool, item: Json, k: int, env: Seq<(Seq<char>, Seq<char>)>) -> Result<bool, Seq<char>>
    decreases cs.len() - k,
{
    if k >= cs.len() || k < 0 {
        Ok(require_all)
    } else {
        match evaluate_spec(cs[k], item, env) {
            Err(m) => Err(m),
            Ok(passed) => if !require_all && passed {
                Ok(true)
            } else if require_all && !passed {
                Ok(false)
            } else {
                matches_from(cs, require_all, item, k + 1, env)
            },
        }
    }
}

/// Whether an item passes the filter: always, when there are no conditions.
pub open spec fn matches_spec(cs: Seq<ConditionModel>, require_all: bool, item: Json, env: Seq<(Seq<char>, Seq<char>)>) -> Result<bool, Seq<char>> {
    if cs.len() == 0 {
        Ok(true)
    } else {
        matches_from(cs, require_all, item, 0, env)
    }
}

/// `find` finds a pattern exactly when it occurs somewhere in the text.
pub proof fn lemma_find_occurs(s: Seq<char>, p: Seq<char>)
    ensures
        find(s, p) is Some <==> exists|i: int| 0 <= i && i + p.len() <= s.len() && #[trigger] s.subrange(i, i + p.len()) == p,
    decreases s.len(),
{
    crate::templ::lemma_find_bounds(s, p);
    if let Some(i) = find(s, p) {
        assert(s.skip(i).take(p.len() as int) =~= s.subrange(i, i + p.len()));
    } else {
        if exists|i: int| 0 <= i && i + p.len() <= s.len() && #[trigger] s.subrange(i, i + p.len()) == p {
            let i = choose|i: int| 0 <= i && i + p.len() <= s.len() && #[trigger] s.subrange(i, i + p.len()) == p;
            if i == 0 {
                assert(s.take(p.len() as int) =~= s.subrange(0, p.len() as int));
            } else {
                lemma_find_occurs(s.drop_first(), p);
                assert(s.drop_first().subrange(i - 1, i - 1 + p.len()) =~= s.subrange(i, i + p.len()));
            }
        }
    }
}

/// `exists` passes exactly when the item has a value at the field, and
/// `contains` exactly when that value is a string in which the condition's
/// (rendered) string occurs.
pub proof fn lemma_presence_conditions(c: ConditionModel, item: Json, env: Seq<(Seq<char>, Seq<char>)>)
    ensures
        c.operator is Exists ==> evaluate_spec(c, item, env) == Ok::<bool, Seq<char>>(
            resolve_expr(json_mark() + seq!['.'] + c.field, item, env) is Some,
        ),
        c.operator is Contains ==> evaluate_spec(c, item, env) == Ok::<bool, Seq<char>>(
            match (resolve_expr(json_mark() + seq!['.'] + c.field, item, env), render_json(c.value, item, env)) {
                (Some(Json::Str(h)), Json::Str(n)) => exists|i: int|
                    0 <= i && i + n.len() <= h.len() && #[trigger] h.subrange(i, i + n.len()) == n,
                _ => false,
            },
        ),
{
    match (resolve_expr(json_mark() + seq!['.'] + c.field, item, env), render_json(c.value, item, env)) {
        (Some(Json::Str(h)), Json::Str(n)) => {
            lemma_find_occurs(h, n);
        },
        _ => {},
    }
}

proof fn lemma_matches_from_modes(cs: Seq<ConditionModel>, require_all: bool, item: Json, k: int, env: Seq<(Seq<char>, Seq<char>)>)
    requires
        0 <= k <= cs.len(),
        forall|j: int| 0 <= j < cs.len() ==> (#[trigger] evaluate_spec(cs[j], item, env)) is Ok,
    ensures
        require_all ==> matches_from(cs, require_all, item, k, env) == Ok::<bool, Seq<char>>(
            forall|j: int| k <= j < cs.len() ==> #[trigger] evaluate_spec(cs[j], item, env) == Ok::<bool, Seq<char>>(true),
        ),
        !require_all ==> matches_from(cs, require_all, item, k, env) == Ok::<bool, Seq<char>>(
            exists|j: int| k <= j < cs.len() && #[trigger] evaluate_spec(cs[j], item, env) == Ok::<bool, Seq<char>>(true),
        ),
    decreases cs.len() - k,
{
    if k < cs.len() {
        lemma_matches_from_modes(cs, require_all, item, k + 1, env);
        assert(evaluate_spec(cs[k], item, env) is Ok);
        if require_all {
            if evaluate_spec(cs[k], item, env) == Ok::<bool, Seq<char>>(true) {
                assert((forall|j: int| k <= j < cs.len() ==> #[trigger] evaluate_spec(cs[j], item, env) == Ok::<bool, Seq<char>>(true))
                    == (forall|j: int| k + 1 <= j < cs.len() ==> #[trigger] evaluate_spec(cs[j], item, env) == Ok::<bool, Seq<char>>(true)));
            }
        } else {
            if evaluate_spec(cs[k], item, env) != Ok::<bool, Seq<char>>(true) {
                assert((exists|j: int| k <= j < cs.len() && #[trigger] evaluate_spec(cs[j], item, env) == Ok::<bool, Seq<char>>(true))
                    == (exists|j: int| k + 1 <= j < cs.len() && #[trigger] evaluate_spec(cs[j], item, env) == Ok::<bool, Seq<char>>(true)));
            }
        }
    }
}

/// How the mode decides, when no condition fails with an error: with no
/// conditions an item matches; in "all" mode it matches exactly when every
/// condition passes, and in "any" mode exactly when some condition passes.
pub proof fn lemma_filter_modes(cs: Seq<ConditionModel>, require_all: bool, item: Json, env: Seq<(Seq<char>, Seq<char>)>)
    requires
        forall|j: int| 0 <= j < cs.len() ==> (#[trigger] evaluate_spec(cs[j], item, env)) is Ok,
    ensures
        cs.len() == 0 ==> matches_spec(cs, require_all, item, env) == Ok::<bool, Seq<char>>(true),
        cs.len() > 0 && require_all ==> matches_spec(cs, require_all, item, env) == Ok::<bool, Seq<char>>(
            forall|j: int| 0 <= j < cs.len() ==> #[trigger] evaluate_spec(cs[j], item, env) == Ok::<bool, Seq<char>>(true),
        ),
        cs.len() > 0 && !require_all ==> matches_spec(cs, require_all, item, env) == Ok::<bool, Seq<char>>(
            exists|j: int| 0 <= j < cs.len() && #[trigger] evaluate_spec(cs[j], item, env) == Ok::<bool, Seq<char>>(true),
        ),
{
    lemma_matches_from_modes(cs, require_all, item, 0, env);
}

/// The outcome of filtering `items`: the matching and the other items, in
/// order, or the error of the first item whose matching fails.
pub open spec fn filter_spec(cs: Seq<ConditionModel>, require_all: bool, items: Seq<Json>, env: Seq<(Seq<char>, Seq<char>)>) -> Result<(Seq<Json>, Seq<Json>), Seq<char>>
    decreases items.len(),
{
    if items.len() == 0 {
        Ok((Seq::empty(), Seq::empty()))
    } else {
        match filter_spec(cs, require_all, items.drop_last(), env) {
            Err(m) => Err(m),
            Ok((yes, no)) => match matches_spec(cs, require_all, items.last(), env) {
                Err(m) => Err(m),
                Ok(true) => Ok((yes.push(items.last()), no)),
                Ok(false) => Ok((yes, no.push(items.last()))),
            },
        }
    }
}

fn compare_values(actual: &Option<JsonValue>, expected: &JsonValue, op: Operator) -> (r: bool)
    ensures
        r == numeric(
            match actual {
                Some(a) => Some(a@),
                None => None,
            },
            expected@,
            op,
        ),
{
    match (actual, expected) {
        (Some(JsonValue::Number(a)), JsonValue::Number(b)) => {
            let c = compare_numbers(a, b);
            match op {
                Operator::Gt => c > 0,
                Operator::Gte => c >= 0,
                Operator::Lt => c < 0,
                Operator::Lte => c <= 0,
                _ => false,
            }
        },
        _ => false,
    }
}

fn contains_str(haystack: &str, needle: &str) -> (r: bool)
    ensures
        r == find(haystack@, needle@) is Some,
{
    let h = chars_of(haystack);
    let n = chars_of(needle);
    let r = find_from(&h, &n, 0);
    assert(h@.skip(0) == h@);
    r.is_some()
}

impl Condition {
    /// Evaluates the condition on an item; `Err` carries the text of a
    /// regular expression that does not compile.
    pub fn evaluate(&self, item: &Item, env: &Env) -> (r: Result<bool, String>)
        ensures
            match r {
                Ok(b) => evaluate_spec(self.model(), item@, env@) == Ok::<bool, Seq<char>>(b),
                Err(m) => evaluate_spec(self.model(), item@, env@) == Err::<bool, Seq<char>>(m@),
            },
    {
        let mut expr = String::new();
        push_str(&mut expr, "$json.");
        push_str(&mut expr, self.field.as_str());
        proof {
            reveal_strlit("$json.");
            assert(expr@ =~= json_mark() + seq!['.'] + self.field@);
        }
        let actual = resolve(expr.as_str(), item, env);
        let expected = render_param(&self.value, item, env);
        let ghost am = match &actual {
            Some(a) => Some(a@),
            None => None::<Json>,
        };
        assert(am == resolve_expr(json_mark() + seq!['.'] + self.field@, item@, env@));
        match self.operator {
            Operator::Exists => Ok(actual.is_some()),
            Operator::Eq => Ok(
                match &actual {
                    Some(a) => json_equal(a, &expected),
                    None => false,
                },
            ),
            Operator::Neq => Ok(
                match &actual {
                    Some(a) => !json_equal(a, &expected),
                    None => false,
                },
            ),
            Operator::Contains => Ok(
                match (&actual, &expected) {
                    (Some(JsonValue::String(h)), JsonValue::String(n)) => contains_str(
                        h.as_str(),
                        n.as_str(),
                    ),
                    _ => false,
                },
            ),
            Operator::Regex => match &expected {
                JsonValue::String(p) => {
                    let pattern = match compile_pattern(p.as_str()) {
                        Ok(pattern) => pattern,
                        Err(m) => return Err(m),
                    };
                    match &actual {
                        Some(JsonValue::String(s)) => Ok(pattern_is_match(&pattern, s.as_str())),
                        _ => Ok(false),
                    }
                },
                _ => Ok(false),
            },
            _ => Ok(compare_values(&actual, &expected, self.operator)),
        }
    }
}

impl Filter {
    /// Whether an item passes the filter.
    pub fn matches(&self, item: &Item, env: &Env) -> (r: Result<bool, String>)
        ensures
            match r {
                Ok(b) => matches_spec(self.conditions_model(), self.require_all, item@, env@) == Ok::<bool, Seq<char>>(b),
                Err(m) => matches_spec(self.conditions_model(), self.require_all, item@, env@) == Err::<bool, Seq<char>>(m@),
            },
    {
        if self.conditions.len() == 0 {
            return Ok(true);
        }
        let ghost cs = self.conditions_model();
        let mut k: usize = 0;
        while k < self.conditions.len()
            invariant
                k <= self.conditions@.len(),
                cs == self.conditions_model(),
                matches_spec(cs, self.require_all, item@, env@) == matches_from(cs, self.require_all, item@, k as int, env@),
            decreases self.conditions@.len() - k,
        {
            let passed = match self.conditions[k].evaluate(item, env) {
                Ok(b) => b,
                Err(m) => return Err(m),
            };
            if !self.require_all && passed {
                return Ok(true);
            }
            if self.require_all && !passed {
                return Ok(false);
            }
            k = k + 1;
        }
        Ok(self.require_all)
    }

    /// Two outputs: the matching items and the others, in order; or the
    /// error of the first item whose matching fails.
    #[verifier::loop_isolation(false)]
    pub fn run(&self, input: Vec<Item>, env: &Env) -> (r: Result<Vec<Vec<Item>>, Error>)
        ensures
            match filter_spec(self.conditions_model(), self.require_all, input@.map_values(|i: Item| i@), env@) {
                Ok((yes, no)) => r matches Ok(out) && out@.len() == 2
                    && out@[0]@.map_values(|i: Item| i@) == yes
                    && out@[1]@.map_values(|i: Item| i@) == no,
                Err(m) => r matches Err(Error::Knot(e)) && e@ == m,
            },
    {
        let ghost all = input@.map_values(|i: Item| i@);
        let mut matching: Vec<Item> = Vec::new();
        let mut non_matching: Vec<Item> = Vec::new();
        let mut rest = input;
        let n = rest.len();
        let mut i: usize = 0;
        assert(all.take(0) =~= Seq::<Json>::empty());
        assert(matching@.map_values(|i: Item| i@) =~= Seq::<Json>::empty());
        while rest.len() > 0
            invariant
                rest@.len() + i == n,
                all.len() == n,
                forall|j: int| 0 <= j < rest@.len() ==> (#[trigger] rest@[j])@ == all[i + j],
                filter_spec(self.conditions_model(), self.require_all, all.take(i as int), env@)
                    == Ok::<(Seq<Json>, Seq<Json>), Seq<char>>(
                    (
                        matching@.map_values(|i: Item| i@),
                        non_matching@.map_values(|i: Item| i@),
                    ),
                ),
            decreases rest@.len(),
        {
            let item = rest.remove(0);
            proof {
                assert(all.take(i + 1).drop_last() == all.take(i as int));
                assert(all.take(i + 1).last() == item@);
            }
            let m = self.matches(&item, env);
            match m {
                Ok(true) => {
                    let ghost before = matching@;
                    matching.push(item);
                    assert(matching@.map_values(|i: Item| i@) =~= before.map_values(|i: Item| i@).push(all[i as int]));
                },
                Ok(false) => {
                    let ghost before = non_matching@;
                    non_matching.push(item);
                    assert(non_matching@.map_values(|i: Item| i@) =~= before.map_values(|i: Item| i@).push(all[i as int]));
                },
                Err(e) => {
                    proof {
                        lemma_filter_error(self.conditions_model(), self.require_all, all, i as int, e@, env@);
                    }
                    return Err(Error::Knot(e));
                },
            }
            i = i + 1;
        }
        assert(all.take(n as int) == all);
        let mut out: Vec<Vec<Item>> = Vec::new();
        out.push(matching);
        out.push(non_matching);
        Ok(out)
    }
}

/// A filter that succeeds sends each item to exactly one output: the
/// matching items to the first, in order, and the others to the second.
pub proof fn lemma_filter_partition(cs: Seq<ConditionModel>, require_all: bool, items: Seq<Json>, env: Seq<(Seq<char>, Seq<char>)>)
    ensures
        filter_spec(cs, require_all, items, env) matches Ok((yes, no)) ==> {
            &&& yes.len() + no.len() == items.len()
            &&& forall|i: int| 0 <= i < yes.len() ==> matches_spec(cs, require_all, #[trigger] yes[i], env) == Ok::<bool, Seq<char>>(true)
            &&& forall|i: int| 0 <= i < no.len() ==> matches_spec(cs, require_all, #[trigger] no[i], env) == Ok::<bool, Seq<char>>(false)
        },
    decreases items.len(),
{
    if items.len() > 0 {
        lemma_filter_partition(cs, require_all, items.drop_last(), env);
    }
}

/// An error at item `i` is the error of the whole filter.
proof fn lemma_filter_error(cs: Seq<ConditionModel>, require_all: bool, all: Seq<Json>, i: int, m: Seq<char>, env: Seq<(Seq<char>, Seq<char>)>)
    requires
        0 <= i < all.len(),
        filter_spec(cs, require_all, all.take(i), env) is Ok,
        matches_spec(cs, require_all, all[i], env) == Err::<bool, Seq<char>>(m),
    ensures
        filter_spec(cs, require_all, all, env) == Err::<(Seq<Json>, Seq<Json>), Seq<char>>(m),
    decreases all.len() - i,
{
    if i + 1 == all.len() {
        assert(all.take(i) == all.drop_last());
    } else {
        assert(all.drop_last().take(i) == all.take(i));
        assert(all.drop_last()[i] == all[i]);
        lemma_filter_error(cs, require_all, all.drop_last(), i, m, env);
    }
}

} // verus!
