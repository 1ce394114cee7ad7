//! Templates: `{{ $json.path }}` and `{{ $env.VAR }}` expressions inside
//! parameter values, resolved against the current item and the
//! environment variables the caller read.
use vstd::prelude::*;
use crate::item::Item;
use crate::json::{
    Json, JsonMap, JsonValue, entries_get, entries_insert_all, entries_model,
    items_model, json_model, json_text, lemma_entries_model, lemma_items_model,
    lemma_items_model_ext, to_json_string,
};
use crate::text::{
    is_ws, trim_start, trim_end, chars_of, ends_with, find, find_from, parse_index, parse_usize,
    push_chars, split_chars, split_on, starts_with, string_from, trim, trim_chars,
};

verus! {

/// `{{`
pub open spec fn open_mark() -> Seq<char> {
    seq!['{', '{']
}

/// `}}`
pub open spec fn close_mark() -> Seq<char> {
    seq!['}', '}']
}

/// `$json`
pub open spec fn json_mark() -> Seq<char> {
    seq!['$', 'j', 's', 'o', 'n']
}

/// `s` without its leading dots (`trim_start_matches('.')`).
pub open spec fn trim_dots(s: Seq<char>) -> Seq<char>
    decreases s.len(),
{
    if s.len() > 0 && s[0] == '.' {
        trim_dots(s.drop_first())
    } else {
        s
    }
}

/// The value found by following `parts` from `json`: object members by
/// name, array elements by decimal index.
pub open spec fn path_lookup(json: Json, parts: Seq<Seq<char>>) -> Option<Json>
    decreases parts.len(),
{
    if parts.len() == 0 {
        Some(json)
    } else {
        match json {
            Json::Object(e) => match entries_get(e, parts[0]) {
                Some(v) => path_lookup(v, parts.drop_first()),
                None => None,
            },
            Json::Array(items) => match parse_usize(parts[0]) {
                Some(i) => if i < items.len() {
                    path_lookup(items[i as int], parts.drop_first())
                } else {
                    None
                },
                None => None,
            },
            _ => None,
        }
    }
}

/// Following no parts gives the value itself, and following `p` then `q`
/// is following `p` and, from what it reaches, `q`.
pub proof fn lemma_path_lookup_concat(json: Json, p: Seq<Seq<char>>, q: Seq<Seq<char>>)
    ensures
        path_lookup(json, Seq::empty()) == Some(json),
        path_lookup(json, p + q) == match path_lookup(json, p) {
            Some(v) => path_lookup(v, q),
            None => None,
        },
    decreases p.len(),
{
    if p.len() > 0 {
        assert((p + q).drop_first() =~= p.drop_first() + q);
        assert((p + q)[0] == p[0]);
        match json {
            Json::Object(e) => match entries_get(e, p[0]) {
                Some(v) => lemma_path_lookup_concat(v, p.drop_first(), q),
                None => {},
            },
            Json::Array(items) => match parse_usize(p[0]) {
                Some(i) => if i < items.len() {
                    lemma_path_lookup_concat(items[i as int], p.drop_first(), q);
                },
                None => {},
            },
            _ => {},
        }
    } else {
        assert(p + q =~= q);
    }
}

/// `$env.`
pub open spec fn env_mark() -> Seq<char> {
    seq!['$', 'e', 'n', 'v', '.']
}

/// The value of the environment variable `name`: the first pair of `env`
/// with that name.
pub open spec fn env_lookup(env: Seq<(Seq<char>, Seq<char>)>, name: Seq<char>) -> Option<Seq<char>>
    decreases env.len(),
{
    if env.len() == 0 {
        None
    } else if env[0].0 == name {
        Some(env[0].1)
    } else {
        env_lookup(env.drop_first(), name)
    }
}

/// What a template expression stands for: `$json` is the item, `$json.a.b`
/// the value at path `a.b` in it, and `$env.VAR` the value of the
/// environment variable `VAR`, as a string.
pub open spec fn resolve_expr(expr: Seq<char>, item: Json, env: Seq<(Seq<char>, Seq<char>)>) -> Option<Json> {
    let e = trim(expr);
    if starts_with(e, env_mark()) {
        match env_lookup(env, e.skip(5)) {
            Some(v) => Some(Json::Str(v)),
            None => None,
        }
    } else if !starts_with(e, json_mark()) {
        None
    } else {
        let path = trim_dots(e.skip(5));
        if path.len() == 0 {
            Some(item)
        } else {
            path_lookup(item, split_on(path, '.'))
        }
    }
}

/// `$env.NAME` stands for the value of the environment variable `NAME`,
/// as a string, and for nothing when `NAME` is not set; inside a string it
/// is replaced by that value, or by nothing.
pub proof fn lemma_env_expr(name: Seq<char>, item: Json, env: Seq<(Seq<char>, Seq<char>)>)
    requires
        name.len() > 0 ==> !is_ws(name.last()),
    ensures
        resolve_expr(env_mark() + name, item, env) == match env_lookup(env, name) {
            Some(v) => Some(Json::Str(v)),
            None => None,
        },
        replacement(env_mark() + name, item, env) == match env_lookup(env, name) {
            Some(v) => v,
            None => Seq::<char>::empty(),
        },
{
    let e = env_mark() + name;
    assert(!is_ws('$'));
    assert(!is_ws('.'));
    assert(e[0] == '$');
    assert(trim_start(e) == e);
    if name.len() > 0 {
        assert(e.last() == name.last());
    } else {
        assert(e.last() == '.');
    }
    assert(trim_end(e) == e);
    assert(starts_with(e, env_mark())) by {
        assert(e.take(5) =~= env_mark());
    }
    assert(e.skip(5) =~= name);
}

/// The text that an expression is replaced by inside a string: a string
/// value as it is, another value as JSON text, nothing when it does not resolve.
pub open spec fn replacement(expr: Seq<char>, item: Json, env: Seq<(Seq<char>, Seq<char>)>) -> Seq<char> {
    match resolve_expr(expr, item, env) {
        Some(Json::Str(t)) => t,
        Some(v) => json_text(v),
        None => Seq::empty(),
    }
}

/// Where `find` finds a pattern, the pattern is there.
pub proof fn lemma_find_bounds(s: Seq<char>, p: Seq<char>)
    ensures
        match find(s, p) {
            Some(i) => 0 <= i && i + p.len() <= s.len() && starts_with(s.skip(i), p),
            None => true,
        },
    decreases s.len(),
{
    if !starts_with(s, p) && s.len() > 0 {
        lemma_find_bounds(s.drop_first(), p);
        match find(s.drop_first(), p) {
            Some(i) => {
                assert(s.drop_first().skip(i) == s.skip(i + 1));
            },
            None => {},
        }
    } else if starts_with(s, p) {
        assert(s.skip(0) == s);
    }
}

/// A string with every `{{ expr }}` replaced by its `replacement`; an
/// unclosed `{{` and what follows it stay as they are.
pub open spec fn render_text(s: Seq<char>, item: Json, env: Seq<(Seq<char>, Seq<char>)>) -> Seq<char>
    decreases s.len(),
{
    match find(s, open_mark()) {
        None => s,
        Some(o) => {
            proof {
                lemma_find_bounds(s, open_mark());
            }
            match find(s.skip(o + 2), close_mark()) {
                None => s,
                Some(c) => {
                    proof {
                        lemma_find_bounds(s.skip(o + 2), close_mark());
                    }
                    s.take(o) + replacement(s.subrange(o + 2, o + 2 + c), item, env) + render_text(
                        s.skip(o + 2 + c + 2),
                        item, env)
                },
            }
        },
    }
}

/// The value a string parameter renders to: a string that is one whole
/// `{{ expr }}` (after trimming) becomes the value it resolves to (the empty
/// string when it does not), any other string is rendered as text.
pub open spec fn render_str_value(s: Seq<char>, item: Json, env: Seq<(Seq<char>, Seq<char>)>) -> Json {
    let t = trim(s);
    if starts_with(t, open_mark()) && ends_with(t, close_mark()) {
        match resolve_expr(t.subrange(2, t.len() - 2), item, env) {
            Some(v) => v,
            None => Json::Str(Seq::empty()),
        }
    } else {
        Json::Str(render_text(s, item, env))
    }
}

/// A parameter value with its templates rendered: strings as
/// `render_str_value`, arrays and objects element by element, other values
/// unchanged.
pub open spec fn render_json(v: Json, item: Json, env: Seq<(Seq<char>, Seq<char>)>) -> Json
    decreases v,
{
    match v {
        Json::Str(s) => render_str_value(s, item, env),
        Json::Array(xs) => Json::Array(render_items(xs, item, env)),
        Json::Object(e) => Json::Object(
            entries_insert_all(Seq::empty(), render_entries(e, item, env)),
        ),
        other => other,
    }
}

/// `render_json` of each element.
pub open spec fn render_items(xs: Seq<Json>, item: Json, env: Seq<(Seq<char>, Seq<char>)>) -> Seq<Json>
    decreases xs,
{
    if xs.len() == 0 {
        Seq::empty()
    } else {
        render_items(xs.drop_last(), item, env).push(render_json(xs.last(), item, env))
    }
}

/// `render_json` of each entry's value.
pub open spec fn render_entries(e: Seq<(Seq<char>, Json)>, item: Json, env: Seq<(Seq<char>, Seq<char>)>) -> Seq<(Seq<char>, Json)>
    decreases e,
{
    if e.len() == 0 {
        Seq::empty()
    } else {
        render_entries(e.drop_last(), item, env).push((e.last().0, render_json(e.last().1, item, env)))
    }
}

// ---------------------------------------------------------------------------
// Executable functions
// ---------------------------------------------------------------------------

/// Environment variables, each a name and its value, as the caller read
/// them.
pub struct Env {
    pub vars: Vec<(String, String)>,
}

impl View for Env {
    type V = Seq<(Seq<char>, Seq<char>)>;

    open spec fn view(&self) -> Seq<(Seq<char>, Seq<char>)> {
        self.vars@.map_values(|p: (String, String)| (p.0@, p.1@))
    }
}

impl Env {
    /// No variables.
    pub fn empty() -> (e: Env)
        ensures
            e@ == Seq::<(Seq<char>, Seq<char>)>::empty(),
    {
        let e = Env { vars: Vec::new() };
        assert(e@ =~= Seq::<(Seq<char>, Seq<char>)>::empty());
        e
    }

    /// The value of the variable named by `name`.
    pub fn lookup(&self, name: &Vec<char>) -> (r: Option<String>)
        ensures
            match r {
                Some(v) => env_lookup(self@, name@) == Some(v@),
                None => env_lookup(self@, name@) is None,
            },
    {
        let ghost all = self@;
        let mut i: usize = 0;
        assert(all.skip(0) == all);
        while i < self.vars.len()
            invariant
                i <= self.vars@.len(),
                all == self@,
                all.len() == self.vars@.len(),
                env_lookup(all, name@) == env_lookup(all.skip(i as int), name@),
            decreases self.vars@.len() - i,
        {
            assert(all.skip(i as int)[0] == all[i as int]);
            assert(all.skip(i as int).drop_first() == all.skip(i + 1));
            let n = chars_of(self.vars[i].0.as_str());
            if crate::text::chars_equal(&n, name) {
                return Some(crate::json::copy_string(&self.vars[i].1));
            }
            i = i + 1;
        }
        None
    }
}

fn env_chars() -> (v: Vec<char>)
    ensures
        v@ == env_mark(),
{
    let v = vec!['$', 'e', 'n', 'v', '.'];
    assert(v@ =~= env_mark());
    v
}

fn open_chars() -> (v: Vec<char>)
    ensures
        v@ == open_mark(),
{
    let v = vec!['{', '{'];
    assert(v@ =~= open_mark());
    v
}

fn close_chars() -> (v: Vec<char>)
    ensures
        v@ == close_mark(),
{
    let v = vec!['}', '}'];
    assert(v@ =~= close_mark());
    v
}

fn json_chars() -> (v: Vec<char>)
    ensures
        v@ == json_mark(),
{
    let v = vec!['$', 'j', 's', 'o', 'n'];
    assert(v@ =~= json_mark());
    v
}

/// The characters of `s` from `lo` up to `hi`.
pub fn slice_chars(s: &Vec<char>, lo: usize, hi: usize) -> (out: Vec<char>)
    requires
        lo <= hi <= s.len(),
    ensures
        out@ == s@.subrange(lo as int, hi as int),
{
    let mut out: Vec<char> = Vec::new();
    let mut i = lo;
    while i < hi
        invariant
            lo <= i <= hi <= s.len(),
            out@ == s@.subrange(lo as int, i as int),
        decreases hi - i,
    {
        out.push(s[i]);
        i = i + 1;
        assert(s@.subrange(lo as int, i as int) == s@.subrange(lo as int, i - 1 as int).push(
            s@[i - 1],
        ));
    }
    out
}

/// Follows `parts` from `json`.
fn lookup_path(json: &JsonValue, parts: &Vec<Vec<char>>) -> (r: Option<JsonValue>)
    ensures
        match r {
            Some(v) => path_lookup(json@, parts@.map_values(|p: Vec<char>| p@)) == Some(v@),
            None => path_lookup(json@, parts@.map_values(|p: Vec<char>| p@)) is None,
        },
{
    let ghost ps = parts@.map_values(|p: Vec<char>| p@);
    let mut current: &JsonValue = json;
    let mut i: usize = 0;
    assert(ps.skip(0) == ps);
    while i < parts.len()
        invariant
            i <= parts.len(),
            ps == parts@.map_values(|p: Vec<char>| p@),
            path_lookup(json@, ps) == path_lookup(current@, ps.skip(i as int)),
        decreases parts.len() - i,
    {
        let ghost rest = ps.skip(i as int);
        assert(rest[0] == parts@[i as int]@);
        assert(rest.drop_first() == ps.skip(i + 1));
        match current {
            JsonValue::Object(m) => {
                let key = string_from(&parts[i]);
                match m.get(key.as_str()) {
                    Some(v) => {
                        current = v;
                    },
                    None => {
                        return None;
                    },
                }
            },
            JsonValue::Array(items) => {
                proof {
                    lemma_items_model(items@);
                }
                match parse_index(&parts[i]) {
                    Some(k) => {
                        if k < items.len() {
                            current = &items[k];
                        } else {
                            return None;
                        }
                    },
                    None => {
                        return None;
                    },
                }
            },
            _ => {
                return None;
            },
        }
        i = i + 1;
    }
    assert(ps.skip(i as int).len() == 0);
    Some(current.copy())
}

/// The value at `parts` inside `json`, following object members by name and
/// array elements by decimal index.
pub fn resolve_path(json: &JsonValue, parts: &Vec<String>) -> (r: Option<JsonValue>)
    ensures
        match r {
            Some(v) => path_lookup(json@, parts@.map_values(|p: String| p@)) == Some(v@),
            None => path_lookup(json@, parts@.map_values(|p: String| p@)) is None,
        },
{
    let mut cs: Vec<Vec<char>> = Vec::new();
    let mut i: usize = 0;
    while i < parts.len()
        invariant
            i <= parts.len(),
            cs@.len() == i,
            forall|k: int| 0 <= k < i ==> (#[trigger] cs@[k])@ == parts@[k]@,
        decreases parts.len() - i,
    {
        cs.push(chars_of(parts[i].as_str()));
        i = i + 1;
    }
    assert(cs@.map_values(|p: Vec<char>| p@) =~= parts@.map_values(|p: String| p@));
    lookup_path(json, &cs)
}

fn trim_dots_chars(s: &Vec<char>, from: usize) -> (out: Vec<char>)
    requires
        from <= s.len(),
    ensures
        out@ == trim_dots(s@.skip(from as int)),
{
    let mut i = from;
    while i < s.len() && s[i] == '.'
        invariant
            from <= i <= s.len(),
            trim_dots(s@.skip(from as int)) == trim_dots(s@.skip(i as int)),
        decreases s.len() - i,
    {
        assert(s@.skip(i as int).drop_first() == s@.skip(i + 1));
        i = i + 1;
    }
    let out = slice_chars(s, i, s.len());
    assert(out@ == s@.skip(i as int));
    out
}

/// What an expression given as characters stands for.
fn resolve_chars(expr: &Vec<char>, item: &Item, env: &Env) -> (r: Option<JsonValue>)
    ensures
        match r {
            Some(v) => resolve_expr(expr@, item@, env@) == Some(v@),
            None => resolve_expr(expr@, item@, env@) is None,
        },
{
    let e = trim_chars(expr);
    let em = env_chars();
    assert(e@.skip(0) == e@);
    if crate::text::starts_with_at(&e, &em, 0) {
        let name = slice_chars(&e, 5, e.len());
        return match env.lookup(&name) {
            Some(v) => Some(JsonValue::String(v)),
            None => None,
        };
    }
    let mark = json_chars();
    if !crate::text::starts_with_at(&e, &mark, 0) {
        assert(e@.skip(0) == e@);
        return None;
    }
    assert(e@.skip(0) == e@);
    let path = trim_dots_chars(&e, 5);
    if path.len() == 0 {
        return Some(item.json.copy());
    }
    let parts = split_chars(&path, '.');
    assert(parts@.map_values(|p: Vec<char>| p@) =~= split_on(path@, '.'));
    lookup_path(&item.json, &parts)
}

/// What a template expression such as `$json.user.name` stands for in `item`.
pub fn resolve(expr: &str, item: &Item, env: &Env) -> (r: Option<JsonValue>)
    ensures
        match r {
            Some(v) => resolve_expr(expr@, item@, env@) == Some(v@),
            None => resolve_expr(expr@, item@, env@) is None,
        },
{
    let e = chars_of(expr);
    resolve_chars(&e, item, env)
}

/// The text that `{{ expr }}` is replaced by.
fn replacement_chars(expr: &Vec<char>, item: &Item, env: &Env) -> (out: Vec<char>)
    ensures
        out@ == replacement(expr@, item@, env@),
{
    match resolve_chars(expr, item, env) {
        Some(JsonValue::String(t)) => chars_of(t.as_str()),
        Some(v) => {
            let t = to_json_string(&v);
            chars_of(t.as_str())
        },
        None => Vec::new(),
    }
}

/// `s` with each `{{ expr }}` replaced by what the expression stands for.
pub fn render_string(s: &str, item: &Item, env: &Env) -> (out: String)
    ensures
        out@ == render_text(s@, item@, env@),
{
    let chars = chars_of(s);
    let open = open_chars();
    let close = close_chars();
    let mut out = String::new();
    let mut i: usize = 0;
    assert(chars@.skip(0) == chars@);
    loop
        invariant
            i <= chars.len(),
            chars@ == s@,
            open@ == open_mark(),
            close@ == close_mark(),
            render_text(chars@, item@, env@) == out@ + render_text(chars@.skip(i as int), item@, env@),
        decreases chars.len() - i,
    {
        let ghost rest = chars@.skip(i as int);
        proof {
            lemma_find_bounds(rest, open_mark());
        }
        match find_from(&chars, &open, i) {
            Some(o) => {
                let ghost ro = (o - i) as int;
                assert(find(rest, open_mark()) == Some(ro));
                assert(rest.skip(ro + 2) == chars@.skip(o + 2));
                proof {
                    lemma_find_bounds(chars@.skip(o + 2), close_mark());
                }
                let before = slice_chars(&chars, i, o);
                assert(before@ == rest.take(ro));
                push_chars(&mut out, &before);
                match find_from(&chars, &close, o + 2) {
                    Some(c) => {
                        let ghost rc = (c - (o + 2)) as int;
                        let expr = slice_chars(&chars, o + 2, c);
                        assert(expr@ == rest.subrange(ro + 2, ro + 2 + rc));
                        assert(find(rest.skip(ro + 2), close_mark()) == Some(rc));
                        assert(render_text(rest, item@, env@) == rest.take(ro) + replacement(
                            rest.subrange(ro + 2, ro + 2 + rc),
                            item@, env@) + render_text(rest.skip(ro + 2 + rc + 2), item@, env@));
                        let rep = replacement_chars(&expr, item, env);
                        push_chars(&mut out, &rep);
                        assert(rest.skip(ro + 2 + rc + 2) == chars@.skip(c + 2));
                        i = c + 2;
                    },
                    None => {
                        assert(find(rest.skip(ro + 2), close_mark()) is None);
                        assert(render_text(rest, item@, env@) == rest);
                        let after = slice_chars(&chars, o, chars.len());
                        push_chars(&mut out, &after);
                        assert(rest.take(ro) + rest.skip(ro) =~= rest);
                        assert(after@ == rest.skip(ro));
                        assert(out@ =~= render_text(chars@, item@, env@));
                        return out;
                    },
                }
            },
            None => {
                assert(find(rest, open_mark()) is None);
                assert(render_text(rest, item@, env@) == rest);
                let after = slice_chars(&chars, i, chars.len());
                push_chars(&mut out, &after);
                assert(after@ == rest);
                return out;
            },
        }
    }
}

/// The value a string parameter renders to.
fn render_string_value(s: &String, item: &Item, env: &Env) -> (r: JsonValue)
    ensures
        r@ == render_str_value(s@, item@, env@),
{
    let chars = chars_of(s.as_str());
    let t = trim_chars(&chars);
    let open = open_chars();
    let close = close_chars();
    if t.len() >= 2 && crate::text::starts_with_at(&t, &open, 0) && crate::text::starts_with_at(
        &t,
        &close,
        t.len() - 2,
    ) {
        assert(t@.skip(0) == t@);
        assert(t@.skip(t@.len() - 2).take(2) == t@.skip(t@.len() - 2));
        assert(t@[0] == '{' && t@[1] == '{');
        assert(t@[t@.len() - 2] == t@.skip(t@.len() - 2)[0]);
        assert(t@[t@.len() - 1] == t@.skip(t@.len() - 2)[1]);
        assert(t@[t@.len() - 1] == '}' && t@[t@.len() - 2] == '}');
        assert(t.len() >= 4);
        assert(starts_with(t@, open_mark()) && ends_with(t@, close_mark()));
        let inner = slice_chars(&t, 2, t.len() - 2);
        match resolve_chars(&inner, item, env) {
            Some(v) => v,
            None => JsonValue::String(String::new()),
        }
    } else {
        proof {
            assert(t@.skip(0) == t@);
            if t@.len() >= 2 {
                assert(t@.skip(t@.len() - 2).take(2) == t@.skip(t@.len() - 2));
            }
        }
        JsonValue::String(render_string(s.as_str(), item, env))
    }
}

/// `value` with every template in it rendered against `item`.
#[verifier::loop_isolation(false)]
pub fn render_param(value: &JsonValue, item: &Item, env: &Env) -> (r: JsonValue)
    ensures
        r@ == render_json(value@, item@, env@),
    decreases value,
{
    match value {
        JsonValue::String(s) => render_string_value(s, item, env),
        JsonValue::Array(xs) => {
            let ghost ms = items_model(xs@);
            proof {
                lemma_items_model(xs@);
            }
            let mut out: Vec<JsonValue> = Vec::new();
            let mut i: usize = 0;
            while i < xs.len()
                invariant
                    i <= xs.len(),
                    ms.len() == xs.len(),
                    items_model(out@) == render_items(ms.take(i as int), item@, env@),
                decreases xs.len() - i,
            {
                assert(decreases_to!(*value => xs@[i as int]));
                let r = render_param(&xs[i], item, env);
                let ghost before = out@;
                out.push(r);
                proof {
                    lemma_items_model(before);
                    lemma_items_model(out@);
                    let t = ms.take(i + 1);
                    assert(t.drop_last() == ms.take(i as int));
                    assert(t.last() == json_model(xs@[i as int]));
                    lemma_items_model_ext(out@, render_items(t, item@, env@));
                }
                i = i + 1;
            }
            assert(ms.take(xs.len() as int) == ms);
            JsonValue::Array(out)
        },
        JsonValue::Object(m) => {
            let ghost ms = entries_model(m.entries@);
            proof {
                lemma_entries_model(m.entries@);
            }
            let mut out = JsonMap::new();
            let mut i: usize = 0;
            while i < m.entries.len()
                invariant
                    i <= m.entries.len(),
                    ms.len() == m.entries.len(),
                    out@ == entries_insert_all(Seq::empty(), render_entries(ms.take(i as int), item@, env@)),
                decreases m.entries.len() - i,
            {
                assert(decreases_to!(*value => m.entries@[i as int].1));
                let r = render_param(&m.entries[i].1, item, env);
                let k = crate::json::copy_string(&m.entries[i].0);
                out.insert(k, r);
                proof {
                    let t = ms.take(i + 1);
                    assert(t.drop_last() == ms.take(i as int));
                    assert(t.last() == ms[i as int]);
                    let re = render_entries(t, item@, env@);
                    assert(re.drop_last() == render_entries(ms.take(i as int), item@, env@));
                }
                i = i + 1;
            }
            assert(ms.take(m.entries.len() as int) == ms);
            JsonValue::Object(out)
        },
        _ => value.copy(),
    }
}

} // verus!
