//! `transform.set`: sets fields of each item at dot-separated paths.
use vstd::prelude::*;
use crate::item::Item;
use crate::json::{
    Json, JsonMap, JsonValue, entries_get, entries_insert, entries_insert_all, json_as_str, json_get, items_model,
    lemma_items_model,
};
use crate::knot::KnotDescriptor;
use crate::schema::{FieldModel, KnotSchema, ListRowField, ParamField, RowModel, plain_field, schema_view};
use crate::templ::{Env, path_lookup, render_json, render_param};
use crate::text::{chars_of, seq_less, split_chars, split_on, string_from};

verus! {

/// The descriptor of `transform.set`.
pub fn descriptor() -> (d: KnotDescriptor)
    ensures
        d.kind@ == "transform.set"@,
        d.output_count == 1,
        d.input_count == 1,
        d.name@ == "Set"@,
        d.description@ == "Sets or modifies JSON fields on each item"@,
{
    KnotDescriptor {
        kind: "transform.set",
        name: "Set",
        description: "Sets or modifies JSON fields on each item",
        output_count: 1,
        input_count: 1,
    }
}

/// The parameter fields of `transform.set`.
pub open spec fn schema_model() -> Seq<FieldModel> {
    seq![
        FieldModel {
            rows: Some(
                seq![
                    RowModel {
                        key: "field"@,
                        label: "Field"@,
                        field_type: "text"@,
                        placeholder: Some("user.name"@),
                        options: None,
                    },
                    RowModel {
                        key: "value"@,
                        label: "Value"@,
                        field_type: "jsonish"@,
                        placeholder: Some("value or {{ $json.field }}"@),
                        options: None,
                    },
                ],
            ),
            ..plain_field("assignments"@, "Assignments"@, "list"@)
        },
    ]
}

/// The parameters of `transform.set`.
pub fn schema() -> (s: KnotSchema)
    ensures
        schema_view(s@) == schema_model(),
        s@.len() == 1,
        s@[0].key@ == "assignments"@,
{
    let mut rows: Vec<ListRowField> = Vec::new();
    rows.push(ListRowField::text("field", "Field").placeholder("user.name"));
    rows.push(ListRowField::jsonish("value", "Value").placeholder("value or {{ $json.field }}"));
    assert(rows@.map_values(|r: ListRowField| crate::schema::row_view(r)) =~= schema_model()[0].rows->0);
    let mut s: KnotSchema = Vec::new();
    s.push(ParamField::list("assignments", "Assignments").rows(rows));
    assert(schema_view(s@) =~= schema_model());
    s
}

/// The assignment an element of `assignments` describes: a string `field`
/// and a `value`, both required.
pub open spec fn assignment_of(a: Json) -> Option<(Seq<char>, Json)> {
    match (json_as_str(json_get(a, "field"@)), json_get(a, "value"@)) {
        (Some(f), Some(v)) => Some((f, v)),
        _ => None,
    }
}

/// The assignments that the elements describe, in order.
pub open spec fn assignments_in(xs: Seq<Json>) -> Seq<(Seq<char>, Json)>
    decreases xs.len(),
{
    if xs.len() == 0 {
        Seq::empty()
    } else {
        let r = assignments_in(xs.drop_last());
        match assignment_of(xs.last()) {
            Some(p) => r.push(p),
            None => r,
        }
    }
}

/// The assignments of a set knot's parameters.
pub open spec fn assignments_of(params: Json) -> Seq<(Seq<char>, Json)> {
    match json_get(params, "assignments"@) {
        Some(Json::Array(xs)) => assignments_in(xs),
        _ => Seq::empty(),
    }
}

/// The non-empty pieces, in order.
pub open spec fn nonempty_pieces(ps: Seq<Seq<char>>) -> Seq<Seq<char>>
    decreases ps.len(),
{
    if ps.len() == 0 {
        Seq::empty()
    } else {
        let r = nonempty_pieces(ps.drop_last());
        if ps.last().len() > 0 {
            r.push(ps.last())
        } else {
            r
        }
    }
}

/// `root` with `value` stored at the path `parts`: missing or non-object
/// intermediate members become objects; the last member is stored only where
/// its parent is an object.
pub open spec fn set_at(root: Json, parts: Seq<Seq<char>>, value: Json) -> Json
    decreases parts.len(),
{
    if parts.len() == 0 {
        root
    } else if parts.len() == 1 {
        match root {
            Json::Object(e) => Json::Object(entries_insert(e, parts[0], value)),
            _ => root,
        }
    } else {
        let e = match root {
            Json::Object(e) => e,
            _ => Seq::empty(),
        };
        let child = match entries_get(e, parts[0]) {
            Some(c) => c,
            None => Json::Object(Seq::empty()),
        };
        Json::Object(entries_insert(e, parts[0], set_at(child, parts.drop_first(), value)))
    }
}

/// `root` with `value` stored at the dot-separated `path` (empty pieces are
/// skipped; a path with none leaves `root` as it is).
pub open spec fn set_path_spec(root: Json, path: Seq<char>, value: Json) -> Json {
    set_at(root, nonempty_pieces(split_on(path, '.')), value)
}

/// Every member along `parts` that exists, starting with `root`, is an
/// object (the last member itself may be anything).
pub open spec fn open_path(root: Json, parts: Seq<Seq<char>>) -> bool
    decreases parts.len(),
{
    if parts.len() == 0 {
        true
    } else {
        match root {
            Json::Object(e) => if parts.len() == 1 {
                true
            } else {
                match entries_get(e, parts[0]) {
                    Some(c) => open_path(c, parts.drop_first()),
                    None => true,
                }
            },
            _ => false,
        }
    }
}

/// After inserting `v` under `k`, looking `k` up gives `v`.
pub proof fn lemma_get_after_insert(e: Seq<(Seq<char>, Json)>, k: Seq<char>, v: Json)
    ensures
        entries_get(entries_insert(e, k, v), k) == Some(v),
    decreases e.len(),
{
    if e.len() > 0 && e[0].0 != k && !seq_less(k, e[0].0) {
        lemma_get_after_insert(e.drop_first(), k, v);
        let r = seq![e[0]] + entries_insert(e.drop_first(), k, v);
        assert(r.drop_first() =~= entries_insert(e.drop_first(), k, v));
    } else if e.len() > 0 && e[0].0 != k {
        let r = seq![(k, v)] + e;
        assert(r[0] == (k, v));
    } else if e.len() > 0 {
        let r = seq![(k, v)] + e.drop_first();
        assert(r[0] == (k, v));
    }
}

/// Inserting under `k` leaves every other key's value as it was.
pub proof fn lemma_get_other_after_insert(e: Seq<(Seq<char>, Json)>, k: Seq<char>, v: Json, k2: Seq<char>)
    requires
        k2 != k,
    ensures
        entries_get(entries_insert(e, k, v), k2) == entries_get(e, k2),
    decreases e.len(),
{
    if e.len() == 0 {
        let r = seq![(k, v)];
        assert(entries_insert(e, k, v) == r);
        assert(r.drop_first() =~= Seq::<(Seq<char>, Json)>::empty());
        assert(entries_get(r, k2) == entries_get(r.drop_first(), k2));
    } else if e[0].0 == k {
        let r = seq![(k, v)] + e.drop_first();
        assert(entries_insert(e, k, v) == r);
        assert(r.drop_first() =~= e.drop_first());
        assert(entries_get(r, k2) == entries_get(r.drop_first(), k2));
    } else if seq_less(k, e[0].0) {
        let r = seq![(k, v)] + e;
        assert(entries_insert(e, k, v) == r);
        assert(r.drop_first() =~= e);
        assert(entries_get(r, k2) == entries_get(r.drop_first(), k2));
    } else {
        let r = seq![e[0]] + entries_insert(e.drop_first(), k, v);
        assert(entries_insert(e, k, v) == r);
        assert(r[0] == e[0]);
        assert(r.drop_first() =~= entries_insert(e.drop_first(), k, v));
        if e[0].0 != k2 {
            lemma_get_other_after_insert(e.drop_first(), k, v, k2);
            assert(entries_get(r, k2) == entries_get(r.drop_first(), k2));
        }
    }
}

/// An object built by inserting pairs with distinct keys holds each pair's
/// value under its key, and nothing under any other key.
pub proof fn lemma_get_insert_all(pairs: Seq<(Seq<char>, Json)>, k: Seq<char>)
    requires
        forall|i: int, j: int| 0 <= i < j < pairs.len() ==> pairs[i].0 != pairs[j].0,
    ensures
        forall|i: int| 0 <= i < pairs.len() && pairs[i].0 == k ==> entries_get(entries_insert_all(Seq::empty(), pairs), k)
            == Some(pairs[i].1),
        (forall|i: int| 0 <= i < pairs.len() ==> pairs[i].0 != k) ==> entries_get(
            entries_insert_all(Seq::empty(), pairs),
            k,
        ) is None,
    decreases pairs.len(),
{
    if pairs.len() > 0 {
        let init = pairs.drop_last();
        lemma_get_insert_all(init, k);
        let last = pairs.last();
        let before = entries_insert_all(Seq::empty(), init);
        if last.0 == k {
            lemma_get_after_insert(before, k, last.1);
        } else {
            lemma_get_other_after_insert(before, last.0, last.1, k);
            assert forall|i: int| 0 <= i < pairs.len() && pairs[i].0 == k implies entries_get(
                entries_insert_all(Seq::empty(), pairs),
                k,
            ) == Some(pairs[i].1) by {
                assert(i < pairs.len() - 1);
                assert(init[i] == pairs[i]);
            }
            assert((forall|i: int| 0 <= i < pairs.len() ==> pairs[i].0 != k) ==> (forall|i: int|
                0 <= i < init.len() ==> init[i].0 != k)) by {
                assert forall|i: int| 0 <= i < init.len() implies init[i] == pairs[i] by {}
            }
        }
    }
}

/// Storing a value at the path `p` leaves every other member as it was:
/// looking up any path `q` that parts from `p` somewhere (it is neither a
/// prefix of `p` nor an extension of it) gives what it gave before, when
/// every member along `p` that exists is an object.
pub proof fn lemma_set_keeps_others(root: Json, p: Seq<Seq<char>>, q: Seq<Seq<char>>, value: Json)
    requires
        open_path(root, p),
        exists|i: int| 0 <= i < p.len() && i < q.len() && p[i] != q[i],
    ensures
        path_lookup(set_at(root, p, value), q) == path_lookup(root, q),
    decreases p.len(),
{
    let i = choose|i: int| 0 <= i < p.len() && i < q.len() && p[i] != q[i];
    let e = match root {
        Json::Object(e) => e,
        _ => Seq::empty(),
    };
    assert(root == Json::Object(e));
    if p[0] != q[0] {
        if p.len() == 1 {
            lemma_get_other_after_insert(e, p[0], value, q[0]);
        } else {
            let child = match entries_get(e, p[0]) {
                Some(c) => c,
                None => Json::Object(Seq::empty()),
            };
            lemma_get_other_after_insert(e, p[0], set_at(child, p.drop_first(), value), q[0]);
        }
    } else {
        assert(i >= 1);
        let child = match entries_get(e, p[0]) {
            Some(c) => c,
            None => Json::Object(Seq::empty()),
        };
        lemma_empty_open(p.drop_first());
        assert(open_path(child, p.drop_first()));
        assert(p.drop_first()[i - 1] == p[i] && q.drop_first()[i - 1] == q[i]);
        lemma_set_keeps_others(child, p.drop_first(), q.drop_first(), value);
        let inner = set_at(child, p.drop_first(), value);
        lemma_get_after_insert(e, p[0], inner);
        assert(set_at(root, p, value) == Json::Object(entries_insert(e, p[0], inner)));
        assert(q.drop_first().len() > 0);
    }
}

/// Setting a dot-path leaves every other member as it was: any path `q`
/// that parts from the path's pieces somewhere looks up the same value
/// before and after.
pub proof fn lemma_set_path_keeps_others(root: Json, path: Seq<char>, q: Seq<Seq<char>>, value: Json)
    requires
        open_path(root, nonempty_pieces(split_on(path, '.'))),
        exists|i: int|
            0 <= i < nonempty_pieces(split_on(path, '.')).len() && i < q.len() && nonempty_pieces(split_on(path, '.'))[i]
                != q[i],
    ensures
        path_lookup(set_path_spec(root, path, value), q) == path_lookup(root, q),
{
    lemma_set_keeps_others(root, nonempty_pieces(split_on(path, '.')), q, value);
}

/// A fresh object has an open path everywhere.
proof fn lemma_empty_open(parts: Seq<Seq<char>>)
    ensures
        open_path(Json::Object(Seq::empty()), parts),
{
}

/// Storing a value at a path and reading the path back gives the value,
/// when every member along the path that exists is an object.
pub proof fn lemma_set_then_read(root: Json, parts: Seq<Seq<char>>, value: Json)
    requires
        parts.len() >= 1,
        open_path(root, parts),
    ensures
        path_lookup(set_at(root, parts, value), parts) == Some(value),
    decreases parts.len(),
{
    let e = match root {
        Json::Object(e) => e,
        _ => Seq::empty(),
    };
    assert(root == Json::Object(e));
    if parts.len() == 1 {
        lemma_get_after_insert(e, parts[0], value);
        assert(parts.drop_first().len() == 0);
        let r = set_at(root, parts, value);
        assert(r == Json::Object(entries_insert(e, parts[0], value)));
        assert(path_lookup(value, parts.drop_first()) == Some(value));
    } else {
        let child = match entries_get(e, parts[0]) {
            Some(c) => c,
            None => Json::Object(Seq::empty()),
        };
        lemma_empty_open(parts.drop_first());
        assert(open_path(child, parts.drop_first()));
        lemma_set_then_read(child, parts.drop_first(), value);
        let inner = set_at(child, parts.drop_first(), value);
        lemma_get_after_insert(e, parts[0], inner);
        assert(set_at(root, parts, value) == Json::Object(entries_insert(e, parts[0], inner)));
    }
}

/// Setting a value at a dot-path without empty pieces, and reading the same
/// path back, gives the value, when every member along the path that exists
/// is an object.
pub proof fn lemma_set_path_then_read(root: Json, path: Seq<char>, value: Json)
    requires
        forall|i: int| 0 <= i < split_on(path, '.').len() ==> (#[trigger] split_on(path, '.')[i]).len() > 0,
        open_path(root, split_on(path, '.')),
    ensures
        path_lookup(set_path_spec(root, path, value), split_on(path, '.')) == Some(value),
{
    lemma_nonempty_pieces_same(split_on(path, '.'));
    crate::text::lemma_split_nonempty(path, '.');
    lemma_set_then_read(root, split_on(path, '.'), value);
}

/// Without empty pieces, `nonempty_pieces` keeps them all.
proof fn lemma_nonempty_pieces_same(ps: Seq<Seq<char>>)
    requires
        forall|i: int| 0 <= i < ps.len() ==> (#[trigger] ps[i]).len() > 0,
    ensures
        nonempty_pieces(ps) == ps,
    decreases ps.len(),
{
    if ps.len() > 0 {
        assert forall|i: int| 0 <= i < ps.drop_last().len() implies (#[trigger] ps.drop_last()[i]).len() > 0 by {
            assert(ps.drop_last()[i] == ps[i]);
        }
        lemma_nonempty_pieces_same(ps.drop_last());
        assert(ps.last() == ps[ps.len() - 1]);
        assert(ps.drop_last().push(ps.last()) =~= ps);
    }
}

/// An item after the assignments, applied in turn; each value is rendered
/// against the item as it stands at that point.
pub open spec fn apply_assignments(json: Json, asg: Seq<(Seq<char>, Json)>, env: Seq<(Seq<char>, Seq<char>)>) -> Json
    decreases asg.len(),
{
    if asg.len() == 0 {
        json
    } else {
        let j = apply_assignments(json, asg.drop_last(), env);
        set_path_spec(j, asg.last().0, render_json(asg.last().1, j, env))
    }
}

/// A configured set knot.
pub struct SetKnot {
    pub assignments: Vec<(String, JsonValue)>,
}

impl SetKnot {
    /// The model of the assignments.
    pub open spec fn assignments_model(&self) -> Seq<(Seq<char>, Json)> {
        self.assignments@.map_values(|p: (String, JsonValue)| (p.0@, p.1@))
    }
}

/// A set knot with the assignments of `params`.
pub fn factory(params: &JsonValue) -> (k: SetKnot)
    ensures
        k.assignments_model() == assignments_of(params@),
{
    let mut assignments: Vec<(String, JsonValue)> = Vec::new();
    match params.get("assignments") {
        Some(JsonValue::Array(xs)) => {
            let ghost ms = items_model(xs@);
            proof {
                lemma_items_model(xs@);
            }
            let mut i: usize = 0;
            while i < xs.len()
                invariant
                    i <= xs.len(),
                    ms.len() == xs.len(),
                    forall|k: int| 0 <= k < xs.len() ==> #[trigger] ms[k] == xs@[k]@,
                    assignments@.map_values(|p: (String, JsonValue)| (p.0@, p.1@))
                        == assignments_in(ms.take(i as int)),
                decreases xs.len() - i,
            {
                let a = &xs[i];
                proof {
                    assert(ms.take(i + 1).drop_last() == ms.take(i as int));
                    assert(ms.take(i + 1).last() == a@);
                }
                match (a.get("field"), a.get("value")) {
                    (Some(JsonValue::String(f)), Some(v)) => {
                        let c = chars_of(f.as_str());
                        let ghost before = assignments@;
                        assignments.push((string_from(&c), v.copy()));
                        assert(assignments@.map_values(|p: (String, JsonValue)| (p.0@, p.1@))
                            =~= before.map_values(|p: (String, JsonValue)| (p.0@, p.1@)).push(
                            (f@, v@),
                        ));
                    },
                    _ => {},
                }
                i = i + 1;
            }
            assert(ms.take(xs.len() as int) == ms);
        },
        _ => {},
    }
    SetKnot { assignments }
}

fn nonempty_pieces_exec(ps: Vec<Vec<char>>) -> (out: Vec<Vec<char>>)
    ensures
        out@.map_values(|p: Vec<char>| p@) == nonempty_pieces(ps@.map_values(|p: Vec<char>| p@)),
{
    let ghost all = ps@.map_values(|p: Vec<char>| p@);
    let mut out: Vec<Vec<char>> = Vec::new();
    let mut rest = ps;
    let n = rest.len();
    let mut i: usize = 0;
    while rest.len() > 0
        invariant
            rest@.len() + i == n,
            all.len() == n,
            forall|j: int| 0 <= j < rest@.len() ==> (#[trigger] rest@[j])@ == all[i + j],
            out@.map_values(|p: Vec<char>| p@) == nonempty_pieces(all.take(i as int)),
        decreases rest@.len(),
    {
        let p = rest.remove(0);
        proof {
            assert(all.take(i + 1).drop_last() == all.take(i as int));
            assert(all.take(i + 1).last() == p@);
        }
        if p.len() > 0 {
            let ghost before = out@;
            out.push(p);
            assert(out@.map_values(|p: Vec<char>| p@) =~= before.map_values(|p: Vec<char>| p@).push(
                all[i as int],
            ));
        }
        i = i + 1;
    }
    assert(all.take(n as int) == all);
    out
}

fn set_at_exec(root: JsonValue, parts: &Vec<Vec<char>>, i: usize, value: JsonValue) -> (r: JsonValue)
    requires
        i <= parts.len(),
    ensures
        r@ == set_at(root@, parts@.map_values(|p: Vec<char>| p@).skip(i as int), value@),
    decreases parts.len() - i,
{
    let ghost ps = parts@.map_values(|p: Vec<char>| p@).skip(i as int);
    if i == parts.len() {
        return root;
    }
    assert(ps[0] == parts@[i as int]@);
    let key = string_from(&parts[i]);
    if i + 1 == parts.len() {
        match root {
            JsonValue::Object(mut m) => {
                m.insert(key, value);
                JsonValue::Object(m)
            },
            other => other,
        }
    } else {
        let mut m = match root {
            JsonValue::Object(m) => m,
            _ => JsonMap::new(),
        };
        let child = match m.get(key.as_str()) {
            Some(c) => c.copy(),
            None => JsonValue::empty_object(),
        };
        assert(ps.drop_first() == parts@.map_values(|p: Vec<char>| p@).skip(i + 1));
        let new_child = set_at_exec(child, parts, i + 1, value);
        m.insert(key, new_child);
        JsonValue::Object(m)
    }
}

/// Stores `value` at the dot-separated `path` inside `root`.
pub fn set_path(root: JsonValue, path: &str, value: JsonValue) -> (r: JsonValue)
    ensures
        r@ == set_path_spec(root@, path@, value@),
{
    let chars = chars_of(path);
    let pieces = split_chars(&chars, '.');
    assert(pieces@.map_values(|p: Vec<char>| p@) =~= split_on(path@, '.'));
    let parts = nonempty_pieces_exec(pieces);
    assert(parts@.map_values(|p: Vec<char>| p@).skip(0) == parts@.map_values(|p: Vec<char>| p@));
    set_at_exec(root, &parts, 0, value)
}

impl SetKnot {
    /// Its one output: each item with the assignments applied.
    pub fn run(&self, input: Vec<Item>, env: &Env) -> (out: Vec<Vec<Item>>)
        ensures
            out@.len() == 1,
            out@[0]@.len() == input@.len(),
            forall|i: int|
                0 <= i < input@.len() ==> (#[trigger] out@[0]@[i])@ == apply_assignments(
                    input@[i]@,
                    self.assignments_model(), env@),
    {
        let mut items: Vec<Item> = Vec::new();
        let mut rest = input;
        let ghost all = rest@;
        let n = rest.len();
        let mut i: usize = 0;
        while rest.len() > 0
            invariant
                rest@.len() + i == n,
                all.len() == n,
                forall|j: int| 0 <= j < rest@.len() ==> #[trigger] rest@[j] == all[i + j],
                items@.len() == i,
                forall|j: int|
                    0 <= j < i ==> (#[trigger] items@[j])@ == apply_assignments(
                        all[j]@,
                        self.assignments_model(), env@),
            decreases rest@.len(),
        {
            let item = rest.remove(0);
            let mut json = item.json;
            let ghost start = json@;
            let mut k: usize = 0;
            while k < self.assignments.len()
                invariant
                    k <= self.assignments@.len(),
                    json@ == apply_assignments(start, self.assignments_model().take(k as int), env@),
                decreases self.assignments@.len() - k,
            {
                let current = Item::new(json.copy());
                let rendered = render_param(&self.assignments[k].1, &current, env);
                json = set_path(json, self.assignments[k].0.as_str(), rendered);
                proof {
                    let t = self.assignments_model().take(k + 1);
                    assert(t.drop_last() == self.assignments_model().take(k as int));
                    assert(t.last() == (self.assignments@[k as int].0@, self.assignments@[k as int].1@));
                }
                k = k + 1;
            }
            assert(self.assignments_model().take(self.assignments.len() as int)
                == self.assignments_model());
            items.push(Item::new(json));
            i = i + 1;
        }
        let mut out: Vec<Vec<Item>> = Vec::new();
        out.push(items);
        out
    }
}

} // verus!
