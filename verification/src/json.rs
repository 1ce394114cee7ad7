//! JSON values: the data that items carry and that knot parameters are made
//! of. Objects keep their entries ordered by key, as serde_json's default map
//! does, so equal objects have equal entry lists.
use vstd::prelude::*;
use crate::number::{JsonNumber, NumberModel, num_eq, numbers_equal, num_text, number_text};
use crate::text::{
    chars_of, chars_less, chars_equal, seq_less, push_char, push_chars, push_str, string_from, lemma_seq_less_asym, lemma_seq_less_total, lemma_seq_less_trans,
};

verus! {

/// A JSON object: its entries, in increasing key order.
pub struct JsonMap {
    pub entries: Vec<(String, JsonValue)>,
}

/// A JSON value.
pub enum JsonValue {
    Null,
    Bool(bool),
    Number(JsonNumber),
    String(String),
    Array(Vec<JsonValue>),
    Object(JsonMap),
}

/// The mathematical model of a JSON value.
pub enum Json {
    Null,
    Bool(bool),
    Number(NumberModel),
    Str(Seq<char>),
    Array(Seq<Json>),
    Object(Seq<(Seq<char>, Json)>),
}

/// The model of a value.
pub open spec fn json_model(v: JsonValue) -> Json
    decreases v,
{
    match v {
        JsonValue::Null => Json::Null,
        JsonValue::Bool(b) => Json::Bool(b),
        JsonValue::Number(n) => Json::Number(n@),
        JsonValue::String(s) => Json::Str(s@),
        JsonValue::Array(items) => Json::Array(items_model(items@)),
        JsonValue::Object(m) => Json::Object(entries_model(m.entries@)),
    }
}

/// The models of a sequence of values.
pub open spec fn items_model(s: Seq<JsonValue>) -> Seq<Json>
    decreases s,
{
    if s.len() == 0 {
        Seq::empty()
    } else {
        seq![json_model(s[0])] + items_model(s.drop_first())
    }
}

/// The models of a sequence of object entries.
pub open spec fn entries_model(s: Seq<(String, JsonValue)>) -> Seq<(Seq<char>, Json)>
    decreases s,
{
    if s.len() == 0 {
        Seq::empty()
    } else {
        seq![(s[0].0@, json_model(s[0].1))] + entries_model(s.drop_first())
    }
}

impl View for JsonValue {
    type V = Json;

    open spec fn view(&self) -> Json {
        json_model(*self)
    }
}

impl View for JsonMap {
    type V = Seq<(Seq<char>, Json)>;

    open spec fn view(&self) -> Seq<(Seq<char>, Json)> {
        entries_model(self.entries@)
    }
}

pub proof fn lemma_items_model(s: Seq<JsonValue>)
    ensures
        items_model(s).len() == s.len(),
        forall|i: int| 0 <= i < s.len() ==> #[trigger] items_model(s)[i] == json_model(s[i]),
    decreases s.len(),
{
    if s.len() > 0 {
        lemma_items_model(s.drop_first());
        assert forall|i: int| 0 <= i < s.len() implies #[trigger] items_model(s)[i] == json_model(
            s[i],
        ) by {
            if i > 0 {
                assert(s.drop_first()[i - 1] == s[i]);
            }
        }
    }
}

pub proof fn lemma_entries_model(s: Seq<(String, JsonValue)>)
    ensures
        entries_model(s).len() == s.len(),
        forall|i: int|
            0 <= i < s.len() ==> #[trigger] entries_model(s)[i] == (s[i].0@, json_model(s[i].1)),
    decreases s.len(),
{
    if s.len() > 0 {
        lemma_entries_model(s.drop_first());
        assert forall|i: int| 0 <= i < s.len() implies #[trigger] entries_model(s)[i] == (
            s[i].0@,
            json_model(s[i].1),
        ) by {
            if i > 0 {
                assert(s.drop_first()[i - 1] == s[i]);
            }
        }
    }
}

/// The models of a sequence of values, given element by element.
pub proof fn lemma_items_model_ext(s: Seq<JsonValue>, m: Seq<Json>)
    requires
        s.len() == m.len(),
        forall|i: int| 0 <= i < s.len() ==> json_model(#[trigger] s[i]) == m[i],
    ensures
        items_model(s) == m,
{
    lemma_items_model(s);
    assert(items_model(s) =~= m);
}

/// The models of a sequence of entries, given entry by entry.
pub proof fn lemma_entries_model_ext(s: Seq<(String, JsonValue)>, m: Seq<(Seq<char>, Json)>)
    requires
        s.len() == m.len(),
        forall|i: int| 0 <= i < s.len() ==> (#[trigger] s[i]).0@ == m[i].0 && json_model(s[i].1) == m[i].1,
    ensures
        entries_model(s) == m,
{
    lemma_entries_model(s);
    assert(entries_model(s) =~= m);
}

// ---------------------------------------------------------------------------
// Equality
// ---------------------------------------------------------------------------

/// Equality of JSON values as serde_json defines it: structural, with numbers
/// compared by `num_eq`.
pub open spec fn json_eq(a: Json, b: Json) -> bool
    decreases a,
{
    match (a, b) {
        (Json::Null, Json::Null) => true,
        (Json::Bool(x), Json::Bool(y)) => x == y,
        (Json::Number(x), Json::Number(y)) => num_eq(x, y),
        (Json::Str(x), Json::Str(y)) => x == y,
        (Json::Array(x), Json::Array(y)) => items_eq(x, y),
        (Json::Object(x), Json::Object(y)) => entries_eq(x, y),
        _ => false,
    }
}

/// Element-wise `json_eq` of two sequences.
pub open spec fn items_eq(x: Seq<Json>, y: Seq<Json>) -> bool
    decreases x,
{
    if x.len() != y.len() {
        false
    } else if x.len() == 0 {
        true
    } else {
        json_eq(x[0], y[0]) && items_eq(x.drop_first(), y.drop_first())
    }
}

/// Entry-wise equality of two entry lists: equal keys, `json_eq` values.
pub open spec fn entries_eq(x: Seq<(Seq<char>, Json)>, y: Seq<(Seq<char>, Json)>) -> bool
    decreases x,
{
    if x.len() != y.len() {
        false
    } else if x.len() == 0 {
        true
    } else {
        x[0].0 == y[0].0 && json_eq(x[0].1, y[0].1) && entries_eq(x.drop_first(), y.drop_first())
    }
}

/// Whether two values are equal (serde_json's `==` on values).
#[verifier::loop_isolation(false)]
pub fn json_equal(a: &JsonValue, b: &JsonValue) -> (r: bool)
    ensures
        r == json_eq(a@, b@),
    decreases a,
{
    match (a, b) {
        (JsonValue::Null, JsonValue::Null) => true,
        (JsonValue::Bool(x), JsonValue::Bool(y)) => *x == *y,
        (JsonValue::Number(x), JsonValue::Number(y)) => numbers_equal(x, y),
        (JsonValue::String(x), JsonValue::String(y)) => {
            let p = chars_of(x.as_str());
            let q = chars_of(y.as_str());
            chars_equal(&p, &q)
        },
        (JsonValue::Array(x), JsonValue::Array(y)) => {
            if x.len() != y.len() {
                proof {
                    lemma_items_model(x@);
                    lemma_items_model(y@);
                }
                return false;
            }
            let mut i: usize = x.len();
            let mut acc = true;
            proof {
                lemma_items_model(x@);
                lemma_items_model(y@);
                assert(items_model(x@).skip(x.len() as int) =~= Seq::<Json>::empty());
                assert(items_model(y@).skip(x.len() as int) =~= Seq::<Json>::empty());
            }
            while i > 0
                invariant
                    i <= x.len(),
                    x.len() == y.len(),
                    items_model(x@).len() == x.len(),
                    items_model(y@).len() == y.len(),
                    forall|k: int| 0 <= k < x.len() ==> #[trigger] items_model(x@)[k] == json_model(x@[k]),
                    forall|k: int| 0 <= k < y.len() ==> #[trigger] items_model(y@)[k] == json_model(y@[k]),
                    acc == items_eq(items_model(x@).skip(i as int), items_model(y@).skip(i as int)),
                decreases i,
            {
                i = i - 1;
                assert(decreases_to!(*a => x@[i as int]));
                let e = json_equal(&x[i], &y[i]);
                proof {
                    let sx = items_model(x@).skip(i as int);
                    let sy = items_model(y@).skip(i as int);
                    assert(sx.drop_first() =~= items_model(x@).skip(i + 1));
                    assert(sy.drop_first() =~= items_model(y@).skip(i + 1));
                    assert(sx[0] == json_model(x@[i as int]));
                    assert(sy[0] == json_model(y@[i as int]));
                }
                acc = e && acc;
            }
            assert(items_model(x@).skip(0) == items_model(x@));
            assert(items_model(y@).skip(0) == items_model(y@));
            acc
        },
        (JsonValue::Object(x), JsonValue::Object(y)) => {
            let xe = &x.entries;
            let ye = &y.entries;
            proof {
                lemma_entries_model(xe@);
                lemma_entries_model(ye@);
            }
            if xe.len() != ye.len() {
                return false;
            }
            let mut i: usize = xe.len();
            let mut acc = true;
            proof {
                assert(entries_model(xe@).skip(xe.len() as int) =~= Seq::<(Seq<char>, Json)>::empty());
                assert(entries_model(ye@).skip(xe.len() as int) =~= Seq::<(Seq<char>, Json)>::empty());
            }
            while i > 0
                invariant
                    i <= xe.len(),
                    xe.len() == ye.len(),
                    entries_model(xe@).len() == xe.len(),
                    entries_model(ye@).len() == ye.len(),
                    forall|k: int| 0 <= k < xe.len() ==> #[trigger] entries_model(xe@)[k] == (xe@[k].0@, json_model(xe@[k].1)),
                    forall|k: int| 0 <= k < ye.len() ==> #[trigger] entries_model(ye@)[k] == (ye@[k].0@, json_model(ye@[k].1)),
                    acc == entries_eq(entries_model(xe@).skip(i as int), entries_model(ye@).skip(i as int)),
                decreases i,
            {
                i = i - 1;
                assert(decreases_to!(*a => xe@[i as int].1));
                let e = json_equal(&xe[i].1, &ye[i].1);
                let p = chars_of(xe[i].0.as_str());
                let q = chars_of(ye[i].0.as_str());
                let k = chars_equal(&p, &q);
                proof {
                    let sx = entries_model(xe@).skip(i as int);
                    let sy = entries_model(ye@).skip(i as int);
                    assert(sx.drop_first() =~= entries_model(xe@).skip(i + 1));
                    assert(sy.drop_first() =~= entries_model(ye@).skip(i + 1));
                    assert(sx[0] == entries_model(xe@)[i as int]);
                    assert(sy[0] == entries_model(ye@)[i as int]);
                }
                acc = k && e && acc;
            }
            assert(entries_model(xe@).skip(0) == entries_model(xe@));
            assert(entries_model(ye@).skip(0) == entries_model(ye@));
            acc
        },
        _ => false,
    }
}

// ---------------------------------------------------------------------------
// Copies
// ---------------------------------------------------------------------------

/// A copy of a string.
pub fn copy_string(s: &String) -> (r: String)
    ensures
        r@ == s@,
{
    let c = chars_of(s.as_str());
    string_from(&c)
}

impl JsonNumber {
    /// A copy of the number.
    pub fn copy(&self) -> (r: JsonNumber)
        ensures
            r@ == self@,
    {
        match self {
            JsonNumber::PosInt(u) => JsonNumber::PosInt(*u),
            JsonNumber::NegInt(i) => JsonNumber::NegInt(*i),
            JsonNumber::Float(f) => JsonNumber::Float(
                crate::number::FloatNumber {
                    negative: f.negative,
                    mantissa: f.mantissa,
                    exponent: f.exponent,
                    text: copy_string(&f.text),
                },
            ),
        }
    }
}

impl JsonValue {
    /// A copy of the value.
    #[verifier::loop_isolation(false)]
    pub fn copy(&self) -> (r: JsonValue)
        ensures
            r@ == self@,
        decreases self,
    {
        match self {
            JsonValue::Null => JsonValue::Null,
            JsonValue::Bool(b) => JsonValue::Bool(*b),
            JsonValue::Number(n) => JsonValue::Number(n.copy()),
            JsonValue::String(s) => JsonValue::String(copy_string(s)),
            JsonValue::Array(items) => {
                let mut out: Vec<JsonValue> = Vec::new();
                let mut i: usize = 0;
                while i < items.len()
                    invariant
                        i <= items.len(),
                        out@.len() == i,
                        forall|k: int| 0 <= k < i ==> json_model(#[trigger] out@[k]) == json_model(items@[k]),
                    decreases items.len() - i,
                {
                    assert(decreases_to!(*self => items@[i as int]));
                    let c = items[i].copy();
                    out.push(c);
                    i = i + 1;
                }
                proof {
                    lemma_items_model(items@);
                    lemma_items_model_ext(out@, items_model(items@));
                }
                JsonValue::Array(out)
            },
            JsonValue::Object(m) => {
                let mut out: Vec<(String, JsonValue)> = Vec::new();
                let mut i: usize = 0;
                while i < m.entries.len()
                    invariant
                        i <= m.entries.len(),
                        out@.len() == i,
                        forall|k: int| 0 <= k < i ==> (#[trigger] out@[k]).0@ == m.entries@[k].0@ && json_model(out@[k].1) == json_model(m.entries@[k].1),
                    decreases m.entries.len() - i,
                {
                    assert(decreases_to!(*self => m.entries@[i as int].1));
                    let v = m.entries[i].1.copy();
                    let k = copy_string(&m.entries[i].0);
                    out.push((k, v));
                    i = i + 1;
                }
                proof {
                    lemma_entries_model(m.entries@);
                    lemma_entries_model_ext(out@, entries_model(m.entries@));
                }
                JsonValue::Object(JsonMap { entries: out })
            },
        }
    }
}

// ---------------------------------------------------------------------------
// Objects
// ---------------------------------------------------------------------------

/// The member `k` of an object value (`Value::get`); `None` for other values.
pub open spec fn json_get(v: Json, k: Seq<char>) -> Option<Json> {
    match v {
        Json::Object(e) => entries_get(e, k),
        _ => None,
    }
}

/// The string of a string value (`Value::as_str`).
pub open spec fn json_as_str(v: Option<Json>) -> Option<Seq<char>> {
    match v {
        Some(Json::Str(s)) => Some(s),
        _ => None,
    }
}

/// The integer of a non-negative integer value (`Value::as_u64`).
pub open spec fn json_as_u64(v: Json) -> Option<u64> {
    match v {
        Json::Number(NumberModel::PosInt(u)) => Some(u),
        _ => None,
    }
}

/// The value of the first entry with key `k`.
pub open spec fn entries_get(e: Seq<(Seq<char>, Json)>, k: Seq<char>) -> Option<Json>
    decreases e.len(),
{
    if e.len() == 0 {
        None
    } else if e[0].0 == k {
        Some(e[0].1)
    } else {
        entries_get(e.drop_first(), k)
    }
}

/// The entries after `BTreeMap::insert(k, v)`: the value of an entry with key
/// `k` is replaced, or a new entry goes in before the first greater key.
pub open spec fn entries_insert(e: Seq<(Seq<char>, Json)>, k: Seq<char>, v: Json) -> Seq<
    (Seq<char>, Json),
>
    decreases e.len(),
{
    if e.len() == 0 {
        seq![(k, v)]
    } else if e[0].0 == k {
        seq![(k, v)] + e.drop_first()
    } else if seq_less(k, e[0].0) {
        seq![(k, v)] + e
    } else {
        seq![e[0]] + entries_insert(e.drop_first(), k, v)
    }
}

/// The entries after inserting each pair in turn.
pub open spec fn entries_insert_all(e: Seq<(Seq<char>, Json)>, pairs: Seq<(Seq<char>, Json)>) -> Seq<
    (Seq<char>, Json),
>
    decreases pairs.len(),
{
    if pairs.len() == 0 {
        e
    } else {
        entries_insert(entries_insert_all(e, pairs.drop_last()), pairs.last().0, pairs.last().1)
    }
}

/// Whether the keys are strictly increasing.
pub open spec fn keys_sorted(e: Seq<(Seq<char>, Json)>) -> bool {
    forall|i: int, j: int| 0 <= i < j < e.len() ==> seq_less(#[trigger] e[i].0, #[trigger] e[j].0)
}

proof fn lemma_insert_prefix(e: Seq<(Seq<char>, Json)>, k: Seq<char>, v: Json, i: int)
    requires
        0 <= i <= e.len(),
        forall|j: int| 0 <= j < i ==> seq_less(#[trigger] e[j].0, k),
    ensures
        entries_insert(e, k, v) == e.take(i) + entries_insert(e.skip(i), k, v),
    decreases i,
{
    if i == 0 {
        assert(e.skip(0) == e);
        assert(e.take(0) + entries_insert(e, k, v) =~= entries_insert(e, k, v));
    } else {
        lemma_seq_less_asym(e[0].0, k);
        lemma_insert_prefix(e.drop_first(), k, v, i - 1);
        assert(e.drop_first().skip(i - 1) == e.skip(i));
        assert(seq![e[0]] + (e.drop_first().take(i - 1) + entries_insert(e.skip(i), k, v))
            =~= e.take(i) + entries_insert(e.skip(i), k, v));
    }
}

/// Inserting keeps the keys strictly increasing.
pub proof fn lemma_insert_sorted(e: Seq<(Seq<char>, Json)>, k: Seq<char>, v: Json)
    requires
        keys_sorted(e),
    ensures
        keys_sorted(entries_insert(e, k, v)),
    decreases e.len(),
{
    let r = entries_insert(e, k, v);
    if e.len() == 0 {
    } else if e[0].0 == k {
        assert forall|i: int, j: int| 0 <= i < j < r.len() implies seq_less(
            #[trigger] r[i].0,
            #[trigger] r[j].0,
        ) by {
            if i == 0 {
                assert(r[j] == e[j]);
                assert(seq_less(e[0].0, e[j].0));
            } else {
                assert(r[i] == e[i] && r[j] == e[j]);
            }
        }
    } else if seq_less(k, e[0].0) {
        assert forall|i: int, j: int| 0 <= i < j < r.len() implies seq_less(
            #[trigger] r[i].0,
            #[trigger] r[j].0,
        ) by {
            if i == 0 {
                assert(r[j] == e[j - 1]);
                if j > 1 {
                    assert(seq_less(e[0].0, e[j - 1].0));
                    lemma_seq_less_trans(k, e[0].0, e[j - 1].0);
                }
            } else {
                assert(r[i] == e[i - 1] && r[j] == e[j - 1]);
            }
        }
    } else {
        lemma_seq_less_total(k, e[0].0);
        let t = e.drop_first();
        assert(keys_sorted(t)) by {
            assert forall|i: int, j: int| 0 <= i < j < t.len() implies seq_less(
                #[trigger] t[i].0,
                #[trigger] t[j].0,
            ) by {
                assert(t[i] == e[i + 1] && t[j] == e[j + 1]);
            }
        }
        lemma_insert_sorted(t, k, v);
        let rt = entries_insert(t, k, v);
        lemma_insert_keys(t, k, v);
        assert forall|i: int, j: int| 0 <= i < j < r.len() implies seq_less(
            #[trigger] r[i].0,
            #[trigger] r[j].0,
        ) by {
            if i == 0 {
                assert(r[j] == rt[j - 1]);
                let kj = rt[j - 1].0;
                if kj == k {
                } else {
                    let m = choose|m: int| 0 <= m < t.len() && t[m].0 == kj;
                    assert(t[m] == e[m + 1]);
                }
            } else {
                assert(r[i] == rt[i - 1] && r[j] == rt[j - 1]);
            }
        }
    }
}

/// Every key after an insertion is the new key or an old key.
pub proof fn lemma_insert_keys(e: Seq<(Seq<char>, Json)>, k: Seq<char>, v: Json)
    ensures
        entries_insert(e, k, v).len() >= 1,
        forall|i: int|
            0 <= i < entries_insert(e, k, v).len() ==> #[trigger] entries_insert(e, k, v)[i].0 == k
                || exists|m: int| 0 <= m < e.len() && e[m].0 == entries_insert(e, k, v)[i].0,
    decreases e.len(),
{
    let r = entries_insert(e, k, v);
    if e.len() == 0 {
    } else if e[0].0 == k {
        assert forall|i: int| 0 <= i < r.len() implies #[trigger] r[i].0 == k || exists|m: int|
            0 <= m < e.len() && e[m].0 == r[i].0 by {
            if i > 0 {
                assert(e[i].0 == r[i].0);
            }
        }
    } else if seq_less(k, e[0].0) {
        assert forall|i: int| 0 <= i < r.len() implies #[trigger] r[i].0 == k || exists|m: int|
            0 <= m < e.len() && e[m].0 == r[i].0 by {
            if i > 0 {
                assert(e[i - 1].0 == r[i].0);
            }
        }
    } else {
        let t = e.drop_first();
        lemma_insert_keys(t, k, v);
        let rt = entries_insert(t, k, v);
        assert forall|i: int| 0 <= i < r.len() implies #[trigger] r[i].0 == k || exists|m: int|
            0 <= m < e.len() && e[m].0 == r[i].0 by {
            if i == 0 {
                assert(e[0].0 == r[0].0);
            } else {
                assert(r[i] == rt[i - 1]);
                if rt[i - 1].0 != k {
                    let m = choose|m: int| 0 <= m < t.len() && t[m].0 == rt[i - 1].0;
                    assert(e[m + 1].0 == r[i].0);
                }
            }
        }
    }
}

impl JsonMap {
    /// An empty object.
    pub fn new() -> (m: JsonMap)
        ensures
            m@ == Seq::<(Seq<char>, Json)>::empty(),
    {
        JsonMap { entries: Vec::new() }
    }

    /// The number of entries.
    pub fn len(&self) -> (n: usize)
        ensures
            n == self@.len(),
    {
        proof {
            lemma_entries_model(self.entries@);
        }
        self.entries.len()
    }

    /// The value stored under `key`.
    pub fn get(&self, key: &str) -> (r: Option<&JsonValue>)
        ensures
            match r {
                Some(v) => entries_get(self@, key@) == Some(v@),
                None => entries_get(self@, key@) is None,
            },
    {
        let k = chars_of(key);
        let mut i: usize = 0;
        proof {
            lemma_entries_model(self.entries@);
            assert(self@.skip(0) == self@);
        }
        while i < self.entries.len()
            invariant
                i <= self.entries.len(),
                entries_model(self.entries@).len() == self.entries.len(),
                forall|j: int|
                    0 <= j < self.entries.len() ==> #[trigger] entries_model(self.entries@)[j] == (
                        self.entries@[j].0@,
                        json_model(self.entries@[j].1),
                    ),
                entries_get(self@, key@) == entries_get(self@.skip(i as int), key@),
                k@ == key@,
            decreases self.entries.len() - i,
        {
            let name = chars_of(self.entries[i].0.as_str());
            proof {
                assert(self@[i as int] == entries_model(self.entries@)[i as int]);
                assert(self@.skip(i as int)[0] == self@[i as int]);
                assert(self@.skip(i as int).drop_first() == self@.skip(i + 1));
            }
            if chars_equal(&name, &k) {
                return Some(&self.entries[i].1);
            }
            i = i + 1;
        }
        None
    }

    /// Inserts `value` under `key`, replacing an existing value
    /// (`BTreeMap::insert`).
    pub fn insert(&mut self, key: String, value: JsonValue)
        ensures
            final(self)@ == entries_insert(old(self)@, key@, value@),
    {
        let k = chars_of(key.as_str());
        let n = self.entries.len();
        let mut i: usize = 0;
        proof {
            lemma_entries_model(self.entries@);
        }
        while i < n
            invariant
                i <= n,
                n == self.entries.len(),
                self.entries@ == old(self).entries@,
                entries_model(self.entries@).len() == n,
                forall|j: int|
                    0 <= j < n ==> #[trigger] entries_model(self.entries@)[j] == (
                        self.entries@[j].0@,
                        json_model(self.entries@[j].1),
                    ),
                forall|j: int| 0 <= j < i ==> seq_less(#[trigger] self@[j].0, k@),
            ensures
                i <= n,
                self.entries@ == old(self).entries@,
                forall|j: int| 0 <= j < i ==> seq_less(#[trigger] self@[j].0, k@),
                i < n ==> !seq_less(self@[i as int].0, k@),
            decreases n - i,
        {
            let name = chars_of(self.entries[i].0.as_str());
            assert(self@[i as int] == entries_model(self.entries@)[i as int]);
            if !chars_less(&name, &k) {
                break;
            }
            i = i + 1;
        }
        let ghost e = self@;
        let ghost m = value@;
        proof {
            lemma_insert_prefix(e, k@, m, i as int);
        }
        if i < n {
            let name = chars_of(self.entries[i].0.as_str());
            if chars_equal(&name, &k) {
                let ghost old_entries = self.entries@;
                self.entries.set(i, (key, value));
                proof {
                    assert(e.skip(i as int)[0] == e[i as int]);
                    assert(e.skip(i as int).drop_first() == e.skip(i + 1));
                    lemma_entries_model_ext(
                        self.entries@,
                        e.take(i as int) + (seq![(k@, m)] + e.skip(i + 1)),
                    );
                }
                return;
            }
            proof {
                assert(e[i as int] == entries_model(self.entries@)[i as int]);
                lemma_seq_less_total(k@, name@);
                assert(e.skip(i as int)[0] == e[i as int]);
            }
        }
        self.entries.insert(i, (key, value));
        proof {
            if i < n {
                lemma_entries_model_ext(self.entries@, e.take(i as int) + (seq![(k@, m)] + e.skip(i as int)));
            } else {
                assert(e.skip(i as int) =~= Seq::<(Seq<char>, Json)>::empty());
                lemma_entries_model_ext(self.entries@, e.take(i as int) + seq![(k@, m)]);
            }
        }
    }

    /// An object holding the given pairs, inserted in turn.
    pub fn from_pairs(pairs: Vec<(String, JsonValue)>) -> (m: JsonMap)
        ensures
            m@ == entries_insert_all(Seq::empty(), entries_model(pairs@)),
    {
        let mut m = JsonMap::new();
        let mut rest = pairs;
        proof {
            lemma_entries_model(pairs@);
        }
        let ghost all = entries_model(pairs@);
        let mut i: usize = 0;
        let n = rest.len();
        while rest.len() > 0
            invariant
                n == pairs@.len(),
                all.len() == n,
                rest@.len() + i == n,
                forall|j: int| 0 <= j < rest@.len() ==> (#[trigger] rest@[j]).0@ == all[i + j].0 && json_model(rest@[j].1) == all[i + j].1,
                m@ == entries_insert_all(Seq::empty(), all.take(i as int)),
            decreases rest@.len(),
        {
            let (k, v) = rest.remove(0);
            proof {
                assert(all.take(i + 1).drop_last() == all.take(i as int));
                assert(all.take(i + 1).last() == all[i as int]);
            }
            m.insert(k, v);
            i = i + 1;
        }
        assert(all.take(n as int) == all);
        m
    }
}

impl JsonValue {
    /// An object value holding the given pairs, inserted in turn.
    pub fn object(pairs: Vec<(String, JsonValue)>) -> (v: JsonValue)
        ensures
            v@ == Json::Object(entries_insert_all(Seq::empty(), entries_model(pairs@))),
    {
        JsonValue::Object(JsonMap::from_pairs(pairs))
    }

    /// An empty object value.
    pub fn empty_object() -> (v: JsonValue)
        ensures
            v@ == Json::Object(Seq::empty()),
    {
        JsonValue::Object(JsonMap::new())
    }

    /// A string value.
    pub fn string(s: &str) -> (v: JsonValue)
        ensures
            v@ == Json::Str(s@),
    {
        let c = chars_of(s);
        JsonValue::String(string_from(&c))
    }

    /// The value under `key`, when this is an object that has one
    /// (`Value::get`).
    pub fn get(&self, key: &str) -> (r: Option<&JsonValue>)
        ensures
            match r {
                Some(v) => json_get(self@, key@) == Some(v@),
                None => json_get(self@, key@) is None,
            },
    {
        match self {
            JsonValue::Object(m) => m.get(key),
            _ => None,
        }
    }

    /// The number held, when this is a non-negative integer (`Value::as_u64`).
    pub fn as_u64(&self) -> (r: Option<u64>)
        ensures
            r == json_as_u64(self@),
    {
        match self {
            JsonValue::Number(JsonNumber::PosInt(u)) => Some(*u),
            _ => None,
        }
    }

    /// The string held, when this is a string.
    pub fn as_str(&self) -> (r: Option<&str>)
        ensures
            match r {
                Some(s) => self@ == Json::Str(s@),
                None => !(self@ is Str),
            },
    {
        match self {
            JsonValue::String(s) => Some(s.as_str()),
            _ => None,
        }
    }
}

// ---------------------------------------------------------------------------
// JSON text
// ---------------------------------------------------------------------------

/// The lower-case hexadecimal digit of `d` (0..15).
pub open spec fn hex_digit(d: int) -> char {
    if d < 10 {
        ((d + 48) as u32) as char
    } else {
        ((d + 87) as u32) as char
    }
}

/// How serde_json writes one character inside a string literal.
pub open spec fn escape_char(c: char) -> Seq<char> {
    let n = c as u32;
    if c == '"' {
        seq!['\\', '"']
    } else if c == '\\' {
        seq!['\\', '\\']
    } else if n == 8 {
        seq!['\\', 'b']
    } else if n == 12 {
        seq!['\\', 'f']
    } else if n == 10 {
        seq!['\\', 'n']
    } else if n == 13 {
        seq!['\\', 'r']
    } else if n == 9 {
        seq!['\\', 't']
    } else if n < 32 {
        seq!['\\', 'u', '0', '0', hex_digit((n / 16) as int), hex_digit((n % 16) as int)]
    } else {
        seq![c]
    }
}

/// The escaped characters of a string literal.
pub open spec fn escaped(s: Seq<char>) -> Seq<char>
    decreases s.len(),
{
    if s.len() == 0 {
        Seq::empty()
    } else {
        escaped(s.drop_last()) + escape_char(s.last())
    }
}

/// A string literal, as serde_json writes it: the characters between
/// double quotes, with the quote and the backslash escaped by a backslash,
/// `\b \t \n \f \r` for those controls, and `\u00XX` (lower-case hex) for the other
/// characters below 0x20.
pub open spec fn quoted(s: Seq<char>) -> Seq<char> {
    seq!['"'] + escaped(s) + seq!['"']
}

/// The JSON string literal of `s` (`serde_json::to_string` of a string).
#[verifier::external_body]
fn quote(s: &str) -> (t: String)
    ensures
        t@ == quoted(s@),
{
    match serde_json::to_string(s) {
        Ok(t) => t,
        Err(e) => e.to_string(),
    }
}

/// The compact JSON text of a value, as serde_json's `to_string` writes it.
pub open spec fn json_text(v: Json) -> Seq<char>
    decreases v,
{
    match v {
        Json::Null => seq!['n', 'u', 'l', 'l'],
        Json::Bool(b) => if b {
            seq!['t', 'r', 'u', 'e']
        } else {
            seq!['f', 'a', 'l', 's', 'e']
        },
        Json::Number(n) => num_text(n),
        Json::Str(s) => quoted(s),
        Json::Array(items) => seq!['['] + items_text(items) + seq![']'],
        Json::Object(e) => seq!['{'] + entries_text(e) + seq!['}'],
    }
}

/// The texts of values, separated by commas.
pub open spec fn items_text(s: Seq<Json>) -> Seq<char>
    decreases s,
{
    if s.len() == 0 {
        Seq::empty()
    } else if s.len() == 1 {
        json_text(s[0])
    } else {
        items_text(s.drop_last()) + seq![','] + json_text(s.last())
    }
}

/// The texts of object entries (`"key":value`), separated by commas.
pub open spec fn entries_text(s: Seq<(Seq<char>, Json)>) -> Seq<char>
    decreases s,
{
    if s.len() == 0 {
        Seq::empty()
    } else if s.len() == 1 {
        quoted(s[0].0) + seq![':'] + json_text(s[0].1)
    } else {
        entries_text(s.drop_last()) + seq![','] + quoted(s.last().0) + seq![':'] + json_text(
            s.last().1,
        )
    }
}

/// Writes a string literal.
pub fn write_quoted(out: &mut String, s: &str)
    ensures
        final(out)@ == old(out)@ + quoted(s@),
{
    let q = quote(s);
    push_str(out, q.as_str());
}

/// Appends the literal characters of `lit` (given as a char vector).
fn write_chars(out: &mut String, lit: Vec<char>)
    ensures
        final(out)@ == old(out)@ + lit@,
{
    push_chars(out, &lit);
}

/// Writes the compact JSON text of `v`.
#[verifier::loop_isolation(false)]
#[verifier::rlimit(40)]
pub fn write_json(out: &mut String, v: &JsonValue)
    ensures
        final(out)@ == old(out)@ + json_text(v@),
    decreases v,
{
    match v {
        JsonValue::Null => {
            write_chars(out, vec!['n', 'u', 'l', 'l']);
        },
        JsonValue::Bool(b) => {
            if *b {
                write_chars(out, vec!['t', 'r', 'u', 'e']);
            } else {
                write_chars(out, vec!['f', 'a', 'l', 's', 'e']);
            }
        },
        JsonValue::Number(n) => {
            let t = number_text(n);
            push_chars(out, &t);
        },
        JsonValue::String(s) => {
            write_quoted(out, s.as_str());
        },
        JsonValue::Array(items) => {
            push_char(out, '[');
            let ghost start = out@;
            let ghost ms = items_model(items@);
            proof {
                lemma_items_model(items@);
            }
            let mut i: usize = 0;
            while i < items.len()
                invariant
                    i <= items.len(),
                    ms.len() == items.len(),
                    out@ == start + items_text(ms.take(i as int)),
                decreases items.len() - i,
            {
                if i > 0 {
                    push_char(out, ',');
                }
                assert(decreases_to!(*v => items@[i as int]));
                write_json(out, &items[i]);
                proof {
                    let t = ms.take(i + 1);
                    assert(t.drop_last() == ms.take(i as int));
                    assert(t.last() == json_model(items@[i as int]));
                    if i == 0 {
                        assert(items_text(ms.take(0)) == Seq::<char>::empty());
                    }
                }
                i = i + 1;
            }
            assert(ms.take(items.len() as int) == ms);
            push_char(out, ']');
            assert(final(out)@ =~= old(out)@ + json_text(v@));
        },
        JsonValue::Object(m) => {
            push_char(out, '{');
            let ghost start = out@;
            let ghost ms = entries_model(m.entries@);
            proof {
                lemma_entries_model(m.entries@);
            }
            let mut i: usize = 0;
            while i < m.entries.len()
                invariant
                    i <= m.entries.len(),
                    ms.len() == m.entries.len(),
                    out@ == start + entries_text(ms.take(i as int)),
                decreases m.entries.len() - i,
            {
                if i > 0 {
                    push_char(out, ',');
                }
                write_quoted(out, m.entries[i].0.as_str());
                push_char(out, ':');
                assert(decreases_to!(*v => m.entries@[i as int].1));
                write_json(out, &m.entries[i].1);
                proof {
                    let t = ms.take(i + 1);
                    assert(t.drop_last() == ms.take(i as int));
                    assert(t.last() == ms[i as int]);
                    if i == 0 {
                        assert(entries_text(ms.take(0)) == Seq::<char>::empty());
                    }
                }
                i = i + 1;
            }
            assert(ms.take(m.entries.len() as int) == ms);
            push_char(out, '}');
            assert(final(out)@ =~= old(out)@ + json_text(v@));
        },
    }
}

/// The compact JSON text of `v` (`serde_json::to_string`, `Value::to_string`).
pub fn to_json_string(v: &JsonValue) -> (s: String)
    ensures
        s@ == json_text(v@),
{
    let mut s = String::new();
    write_json(&mut s, v);
    assert(s@ =~= json_text(v@));
    s
}

} // verus!
