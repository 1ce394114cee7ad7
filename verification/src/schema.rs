//! Declarative parameter schemas: what the inspector form of each knot shows.
use vstd::prelude::*;
use crate::json::JsonValue;
use crate::text::{chars_of, string_from};

verus! {

/// One choice of a select field.
pub struct FieldOption {
    pub value: String,
    pub label: String,
}

/// One column of a list field's rows.
pub struct ListRowField {
    pub key: String,
    pub label: String,
    pub field_type: String,
    pub placeholder: Option<String>,
    pub options: Option<Vec<FieldOption>>,
}

/// One parameter field of a knot.
pub struct ParamField {
    pub key: String,
    pub label: String,
    pub field_type: String,
    pub required: Option<bool>,
    pub placeholder: Option<String>,
    pub help: Option<String>,
    pub secret: Option<bool>,
    pub default: Option<JsonValue>,
    pub options: Option<Vec<FieldOption>>,
    pub rows: Option<Vec<ListRowField>>,
    pub kv_key_placeholder: Option<String>,
    pub kv_value_placeholder: Option<String>,
}

/// A knot's parameter fields.
pub type KnotSchema = Vec<ParamField>;

/// A select option as plain values: value and label.
pub open spec fn option_view(o: FieldOption) -> (Seq<char>, Seq<char>) {
    (o.value@, o.label@)
}

/// An optional string as plain values.
pub open spec fn opt_text(o: Option<String>) -> Option<Seq<char>> {
    match o {
        Some(s) => Some(s@),
        None => None,
    }
}

/// Optional select options as plain values.
pub open spec fn options_view(o: Option<Vec<FieldOption>>) -> Option<Seq<(Seq<char>, Seq<char>)>> {
    match o {
        Some(v) => Some(v@.map_values(|x: FieldOption| option_view(x))),
        None => None,
    }
}

/// A list column as plain values.
pub struct RowModel {
    pub key: Seq<char>,
    pub label: Seq<char>,
    pub field_type: Seq<char>,
    pub placeholder: Option<Seq<char>>,
    pub options: Option<Seq<(Seq<char>, Seq<char>)>>,
}

/// The model of a list column.
pub open spec fn row_view(r: ListRowField) -> RowModel {
    RowModel {
        key: r.key@,
        label: r.label@,
        field_type: r.field_type@,
        placeholder: opt_text(r.placeholder),
        options: options_view(r.options),
    }
}

/// A parameter field as plain values.
pub struct FieldModel {
    pub key: Seq<char>,
    pub label: Seq<char>,
    pub field_type: Seq<char>,
    pub required: Option<bool>,
    pub placeholder: Option<Seq<char>>,
    pub help: Option<Seq<char>>,
    pub secret: Option<bool>,
    pub default: Option<crate::json::Json>,
    pub options: Option<Seq<(Seq<char>, Seq<char>)>>,
    pub rows: Option<Seq<RowModel>>,
    pub kv_key_placeholder: Option<Seq<char>>,
    pub kv_value_placeholder: Option<Seq<char>>,
}

/// The model of a parameter field.
pub open spec fn field_view(f: ParamField) -> FieldModel {
    FieldModel {
        key: f.key@,
        label: f.label@,
        field_type: f.field_type@,
        required: f.required,
        placeholder: opt_text(f.placeholder),
        help: opt_text(f.help),
        secret: f.secret,
        default: match f.default {
            Some(v) => Some(v@),
            None => None,
        },
        options: options_view(f.options),
        rows: match f.rows {
            Some(v) => Some(v@.map_values(|r: ListRowField| row_view(r))),
            None => None,
        },
        kv_key_placeholder: opt_text(f.kv_key_placeholder),
        kv_value_placeholder: opt_text(f.kv_value_placeholder),
    }
}

/// A field of type `ty` with only its key and label set.
pub open spec fn plain_field(key: Seq<char>, label: Seq<char>, ty: Seq<char>) -> FieldModel {
    FieldModel {
        key,
        label,
        field_type: ty,
        required: None,
        placeholder: None,
        help: None,
        secret: None,
        default: None,
        options: None,
        rows: None,
        kv_key_placeholder: None,
        kv_value_placeholder: None,
    }
}

/// The model of a schema.
pub open spec fn schema_view(s: Seq<ParamField>) -> Seq<FieldModel> {
    s.map_values(|f: ParamField| field_view(f))
}

fn own(s: &str) -> (r: String)
    ensures
        r@ == s@,
{
    let c = chars_of(s);
    string_from(&c)
}

/// Select options from `(value, label)` pairs.
pub fn options(pairs: &[(&str, &str)]) -> (out: Vec<FieldOption>)
    ensures
        out@.len() == pairs@.len(),
        forall|i: int|
            0 <= i < pairs@.len() ==> (#[trigger] out@[i]).value@ == pairs@[i].0@ && out@[i].label@
                == pairs@[i].1@,
{
    let mut out: Vec<FieldOption> = Vec::new();
    let mut i: usize = 0;
    while i < pairs.len()
        invariant
            i <= pairs@.len(),
            out@.len() == i,
            forall|k: int|
                0 <= k < i ==> (#[trigger] out@[k]).value@ == pairs@[k].0@ && out@[k].label@
                    == pairs@[k].1@,
        decreases pairs@.len() - i,
    {
        let (v, l) = pairs[i];
        out.push(FieldOption { value: own(v), label: own(l) });
        i = i + 1;
    }
    out
}

impl FieldOption {
    /// A copy of the option.
    pub fn copy(&self) -> (r: FieldOption)
        ensures
            r.value@ == self.value@,
            r.label@ == self.label@,
    {
        FieldOption { value: own(self.value.as_str()), label: own(self.label.as_str()) }
    }
}

fn copy_opt_string(s: &Option<String>) -> (r: Option<String>)
    ensures
        r is Some == s is Some,
        r is Some ==> r->0@ == s->0@,
        opt_text(r) == opt_text(*s),
{
    match s {
        Some(t) => Some(own(t.as_str())),
        None => None,
    }
}

fn copy_options(o: &Option<Vec<FieldOption>>) -> (r: Option<Vec<FieldOption>>)
    ensures
        r is Some == o is Some,
        r is Some ==> r->0@.len() == o->0@.len() && forall|i: int|
            0 <= i < o->0@.len() ==> (#[trigger] r->0@[i]).value@ == o->0@[i].value@
                && r->0@[i].label@ == o->0@[i].label@,
        options_view(r) == options_view(*o),
{
    match o {
        Some(v) => {
            let mut out: Vec<FieldOption> = Vec::new();
            let mut i: usize = 0;
            while i < v.len()
                invariant
                    i <= v@.len(),
                    out@.len() == i,
                    forall|k: int|
                        0 <= k < i ==> (#[trigger] out@[k]).value@ == v@[k].value@ && out@[k].label@
                            == v@[k].label@,
                decreases v@.len() - i,
            {
                out.push(v[i].copy());
                i = i + 1;
            }
            assert(out@.map_values(|x: FieldOption| option_view(x)) =~= v@.map_values(
                |x: FieldOption| option_view(x),
            ));
            Some(out)
        },
        None => None,
    }
}

impl ListRowField {
    /// A text column.
    pub fn text(key: &str, label: &str) -> (f: ListRowField)
        ensures
            f.key@ == key@,
            f.label@ == label@,
            f.field_type@ == "text"@,
            f.placeholder is None,
            f.options is None,
    {
        ListRowField {
            key: own(key),
            label: own(label),
            field_type: own("text"),
            placeholder: None,
            options: None,
        }
    }

    /// A select column.
    pub fn select(key: &str, label: &str) -> (f: ListRowField)
        ensures
            f.key@ == key@,
            f.label@ == label@,
            f.field_type@ == "select"@,
            f.placeholder is None,
            f.options is None,
    {
        Self::text(key, label).with_type("select")
    }

    /// A column that takes JSON or plain text.
    pub fn jsonish(key: &str, label: &str) -> (f: ListRowField)
        ensures
            f.key@ == key@,
            f.label@ == label@,
            f.field_type@ == "jsonish"@,
            f.placeholder is None,
            f.options is None,
    {
        Self::text(key, label).with_type("jsonish")
    }

    /// The same column with another type.
    pub fn with_type(self, field_type: &str) -> (f: ListRowField)
        ensures
            f.field_type@ == field_type@,
            f.key == self.key,
            f.label == self.label,
            f.placeholder == self.placeholder,
            f.options == self.options,
    {
        ListRowField { field_type: own(field_type), ..self }
    }

    /// The same column with a placeholder.
    pub fn placeholder(self, value: &str) -> (f: ListRowField)
        ensures
            f.placeholder is Some && f.placeholder->0@ == value@,
            f.key == self.key,
            f.label == self.label,
            f.field_type == self.field_type,
            f.options == self.options,
    {
        ListRowField { placeholder: Some(own(value)), ..self }
    }

    /// The same column with select options.
    pub fn options(self, value: Vec<FieldOption>) -> (f: ListRowField)
        ensures
            f.options == Some(value),
            f.key == self.key,
            f.label == self.label,
            f.field_type == self.field_type,
            f.placeholder == self.placeholder,
    {
        ListRowField { options: Some(value), ..self }
    }

    /// A copy of the column.
    pub fn copy(&self) -> (r: ListRowField)
        ensures
            r.key@ == self.key@,
            r.label@ == self.label@,
            r.field_type@ == self.field_type@,
            r.placeholder is Some == self.placeholder is Some,
            r.placeholder is Some ==> r.placeholder->0@ == self.placeholder->0@,
            r.options is Some == self.options is Some,
            row_view(r) == row_view(*self),
    {
        ListRowField {
            key: own(self.key.as_str()),
            label: own(self.label.as_str()),
            field_type: own(self.field_type.as_str()),
            placeholder: copy_opt_string(&self.placeholder),
            options: copy_options(&self.options),
        }
    }
}

impl ParamField {
    /// A text field with nothing else set.
    pub fn text(key: &str, label: &str) -> (f: ParamField)
        ensures
            f.key@ == key@,
            f.label@ == label@,
            f.field_type@ == "text"@,
            field_view(f) == plain_field(key@, label@, "text"@),
            f.required is None,
            f.placeholder is None,
            f.help is None,
            f.secret is None,
            f.default is None,
            f.options is None,
            f.rows is None,
            f.kv_key_placeholder is None,
            f.kv_value_placeholder is None,
    {
        ParamField {
            key: own(key),
            label: own(label),
            field_type: own("text"),
            required: None,
            placeholder: None,
            help: None,
            secret: None,
            default: None,
            options: None,
            rows: None,
            kv_key_placeholder: None,
            kv_value_placeholder: None,
        }
    }

    /// A number field.
    pub fn number(key: &str, label: &str) -> (f: ParamField)
        ensures
            f.key@ == key@,
            f.label@ == label@,
            f.field_type@ == "number"@,
            field_view(f) == plain_field(key@, label@, "number"@),
            f.default is None,
            f.options is None,
            f.rows is None,
    {
        Self::text(key, label).with_type("number")
    }

    /// A select field.
    pub fn select(key: &str, label: &str) -> (f: ParamField)
        ensures
            f.key@ == key@,
            f.label@ == label@,
            f.field_type@ == "select"@,
            field_view(f) == plain_field(key@, label@, "select"@),
            f.default is None,
            f.options is None,
            f.rows is None,
    {
        Self::text(key, label).with_type("select")
    }

    /// A multi-line text field.
    pub fn textarea(key: &str, label: &str) -> (f: ParamField)
        ensures
            f.key@ == key@,
            f.label@ == label@,
            f.field_type@ == "textarea"@,
            field_view(f) == plain_field(key@, label@, "textarea"@),
            f.default is None,
            f.options is None,
            f.rows is None,
    {
        Self::text(key, label).with_type("textarea")
    }

    /// A field that takes JSON or plain text.
    pub fn jsonish(key: &str, label: &str) -> (f: ParamField)
        ensures
            f.key@ == key@,
            f.label@ == label@,
            f.field_type@ == "jsonish"@,
            field_view(f) == plain_field(key@, label@, "jsonish"@),
            f.default is None,
            f.options is None,
            f.rows is None,
    {
        Self::text(key, label).with_type("jsonish")
    }

    /// A key/value field.
    pub fn kv(key: &str, label: &str) -> (f: ParamField)
        ensures
            f.key@ == key@,
            f.label@ == label@,
            f.field_type@ == "kv"@,
            field_view(f) == plain_field(key@, label@, "kv"@),
            f.default is None,
            f.options is None,
            f.rows is None,
    {
        Self::text(key, label).with_type("kv")
    }

    /// A list field.
    pub fn list(key: &str, label: &str) -> (f: ParamField)
        ensures
            f.key@ == key@,
            f.label@ == label@,
            f.field_type@ == "list"@,
            field_view(f) == plain_field(key@, label@, "list"@),
            f.default is None,
            f.options is None,
            f.rows is None,
    {
        Self::text(key, label).with_type("list")
    }

    /// The same field with another type.
    pub fn with_type(self, field_type: &str) -> (f: ParamField)
        ensures
            f.field_type@ == field_type@,
            f == (ParamField { field_type: f.field_type, ..self }),
    {
        ParamField { field_type: own(field_type), ..self }
    }

    /// The same field, marked required.
    pub fn required(self) -> (f: ParamField)
        ensures
            f == (ParamField { required: Some(true), ..self }),
    {
        ParamField { required: Some(true), ..self }
    }

    /// The same field with a placeholder.
    pub fn placeholder(self, value: &str) -> (f: ParamField)
        ensures
            f.placeholder is Some && f.placeholder->0@ == value@,
            f == (ParamField { placeholder: f.placeholder, ..self }),
    {
        ParamField { placeholder: Some(own(value)), ..self }
    }

    /// The same field with a help text.
    pub fn help(self, value: &str) -> (f: ParamField)
        ensures
            f.help is Some && f.help->0@ == value@,
            f == (ParamField { help: f.help, ..self }),
    {
        ParamField { help: Some(own(value)), ..self }
    }

    /// The same field, marked secret.
    pub fn secret(self) -> (f: ParamField)
        ensures
            f == (ParamField { secret: Some(true), ..self }),
    {
        ParamField { secret: Some(true), ..self }
    }

    /// The same field with a default value.
    pub fn default(self, value: JsonValue) -> (f: ParamField)
        ensures
            f == (ParamField { default: Some(value), ..self }),
    {
        ParamField { default: Some(value), ..self }
    }

    /// The same field with select options.
    pub fn options(self, value: Vec<FieldOption>) -> (f: ParamField)
        ensures
            f == (ParamField { options: Some(value), ..self }),
    {
        ParamField { options: Some(value), ..self }
    }

    /// The same field with list columns.
    pub fn rows(self, value: Vec<ListRowField>) -> (f: ParamField)
        ensures
            f == (ParamField { rows: Some(value), ..self }),
    {
        ParamField { rows: Some(value), ..self }
    }

    /// The same field with a placeholder for keys.
    pub fn kv_key_placeholder(self, value: &str) -> (f: ParamField)
        ensures
            f.kv_key_placeholder is Some && f.kv_key_placeholder->0@ == value@,
            f == (ParamField { kv_key_placeholder: f.kv_key_placeholder, ..self }),
    {
        ParamField { kv_key_placeholder: Some(own(value)), ..self }
    }

    /// The same field with a placeholder for values.
    pub fn kv_value_placeholder(self, value: &str) -> (f: ParamField)
        ensures
            f.kv_value_placeholder is Some && f.kv_value_placeholder->0@ == value@,
            f == (ParamField { kv_value_placeholder: f.kv_value_placeholder, ..self }),
    {
        ParamField { kv_value_placeholder: Some(own(value)), ..self }
    }

    /// A copy of the field.
    pub fn copy(&self) -> (r: ParamField)
        ensures
            r.key@ == self.key@,
            r.label@ == self.label@,
            r.field_type@ == self.field_type@,
            r.required == self.required,
            r.secret == self.secret,
            r.placeholder is Some == self.placeholder is Some,
            r.placeholder is Some ==> r.placeholder->0@ == self.placeholder->0@,
            r.default is Some == self.default is Some,
            r.default is Some ==> r.default->0@ == self.default->0@,
            field_view(r) == field_view(*self),
    {
        let rows = match &self.rows {
            Some(v) => {
                let mut out: Vec<ListRowField> = Vec::new();
                let mut i: usize = 0;
                while i < v.len()
                    invariant
                        i <= v@.len(),
                        out@.len() == i,
                        forall|k: int| 0 <= k < i ==> row_view(#[trigger] out@[k]) == row_view(v@[k]),
                    decreases v@.len() - i,
                {
                    out.push(v[i].copy());
                    i = i + 1;
                }
                assert(out@.map_values(|r: ListRowField| row_view(r)) =~= v@.map_values(
                    |r: ListRowField| row_view(r),
                ));
                Some(out)
            },
            None => None,
        };
        ParamField {
            key: own(self.key.as_str()),
            label: own(self.label.as_str()),
            field_type: own(self.field_type.as_str()),
            required: self.required,
            placeholder: copy_opt_string(&self.placeholder),
            help: copy_opt_string(&self.help),
            secret: self.secret,
            default: match &self.default {
                Some(v) => Some(v.copy()),
                None => None,
            },
            options: copy_options(&self.options),
            rows,
            kv_key_placeholder: copy_opt_string(&self.kv_key_placeholder),
            kv_value_placeholder: copy_opt_string(&self.kv_value_placeholder),
        }
    }
}

/// Copies of all fields of a schema.
pub fn copy_schema(s: &KnotSchema) -> (r: KnotSchema)
    ensures
        r@.len() == s@.len(),
        forall|i: int| 0 <= i < s@.len() ==> (#[trigger] r@[i]).key@ == s@[i].key@,
        schema_view(r@) == schema_view(s@),
{
    let mut out: Vec<ParamField> = Vec::new();
    let mut i: usize = 0;
    while i < s.len()
        invariant
            i <= s@.len(),
            out@.len() == i,
            forall|k: int| 0 <= k < i ==> (#[trigger] out@[k]).key@ == s@[k].key@,
            forall|k: int| 0 <= k < i ==> field_view(#[trigger] out@[k]) == field_view(s@[k]),
        decreases s@.len() - i,
    {
        out.push(s[i].copy());
        i = i + 1;
    }
    assert(schema_view(out@) =~= schema_view(s@));
    out
}

} // verus!
