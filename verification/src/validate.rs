//! Checks on a workflow before it is stored or run: names and ids,
//! connections, cycles, and the knot types of the default registry.
use vstd::prelude::*;
use crate::graph::{
    edges_within, has_cycle, kahn, kahn_order, lemma_distinct_full, lemma_kahn, lemma_kahn_acyclic,
    lemma_sources_queue, sources, sources_upto,
};
use crate::knot::{Registry, default_kinds, default_output_counts, first_index, lemma_first_index};
use crate::model::{Connection, Knot, Workflow};
use crate::text::{decimal, decimal_chars, is_blank, push_chars, push_str, str_equal, trim};

verus! {

/// One problem found in a workflow.
pub struct ValidationError {
    pub message: String,
}

impl ValidationError {
    /// An error with the given message.
    pub fn new(message: String) -> (e: ValidationError)
        ensures
            e.message@ == message@,
    {
        ValidationError { message }
    }
}

/// The messages of a list of errors.
pub open spec fn messages(es: Seq<ValidationError>) -> Seq<Seq<char>> {
    es.map_values(|e: ValidationError| e.message@)
}

/// The texts of a list of strings.
pub open spec fn strs_view(s: Seq<String>) -> Seq<Seq<char>> {
    s.map_values(|x: String| x@)
}

/// A connection as plain values: from, output, to, input.
pub open spec fn conn_view(c: Connection) -> (Seq<char>, usize, Seq<char>, usize) {
    (c.from@, c.from_output, c.to@, c.to_input)
}

/// The connections as plain values.
pub open spec fn conns_view(cs: Seq<Connection>) -> Seq<(Seq<char>, usize, Seq<char>, usize)> {
    cs.map_values(|c: Connection| conn_view(c))
}

/// The ids of the knots, in order.
pub open spec fn ids_of(ks: Seq<Knot>) -> Seq<Seq<char>> {
    ks.map_values(|k: Knot| k.id@)
}

/// The types of the knots, in order.
pub open spec fn kinds_of(ks: Seq<Knot>) -> Seq<Seq<char>> {
    ks.map_values(|k: Knot| k.kind@)
}

/// The last position of `id` among `ids`: the knot that a lookup by id
/// finds when ids repeat.
pub open spec fn last_index(ids: Seq<Seq<char>>, id: Seq<char>) -> Option<int>
    decreases ids.len(),
{
    if ids.len() == 0 {
        None
    } else if ids.last() == id {
        Some(ids.len() - 1)
    } else {
        last_index(ids.drop_last(), id)
    }
}

/// `parts` joined with `sep` between them.
pub open spec fn join(parts: Seq<Seq<char>>, sep: Seq<char>) -> Seq<char>
    decreases parts.len(),
{
    if parts.len() == 0 {
        Seq::empty()
    } else if parts.len() == 1 {
        parts[0]
    } else {
        join(parts.drop_last(), sep) + sep + parts.last()
    }
}

// ---------------------------------------------------------------------------
// The messages
// ---------------------------------------------------------------------------

pub open spec fn duplicate_id_message(id: Seq<char>) -> Seq<char> {
    "duplicate knot id '"@ + id + "'"@
}

pub open spec fn unknown_from_message(id: Seq<char>) -> Seq<char> {
    "connection references unknown knot '"@ + id + "' (from)"@
}

pub open spec fn unknown_to_message(id: Seq<char>) -> Seq<char> {
    "connection references unknown knot '"@ + id + "' (to)"@
}

pub open spec fn duplicate_connection_message(c: (Seq<char>, usize, Seq<char>, usize)) -> Seq<char> {
    "duplicate connection "@ + c.0 + " (output "@ + decimal(c.1 as nat) + ") -> "@ + c.2 + " (input "@
        + decimal(c.3 as nat) + ")"@
}

pub open spec fn cycle_message(ids: Seq<Seq<char>>) -> Seq<char> {
    "cycle detected involving knots: "@ + join(ids, ", "@)
}

pub open spec fn unknown_kind_message(kind: Seq<char>) -> Seq<char> {
    "unknown knot type '"@ + kind + "'"@
}

pub open spec fn missing_output_message(from: Seq<char>, kind: Seq<char>, output: usize, count: usize) -> Seq<
    char,
> {
    "knot '"@ + from + "' (type "@ + kind + ") has no output "@ + decimal(output as nat) + ", only "@
        + decimal(count as nat) + " output(s)"@
}

// ---------------------------------------------------------------------------
// The checks, each as the list of messages it gives
// ---------------------------------------------------------------------------

/// The name must not be blank.
pub open spec fn name_errors(name: Seq<char>) -> Seq<Seq<char>> {
    if trim(name).len() == 0 {
        seq!["workflow name must not be empty"@]
    } else {
        Seq::empty()
    }
}

/// There must be a knot.
pub open spec fn count_errors(n: nat) -> Seq<Seq<char>> {
    if n == 0 {
        seq!["workflow must contain at least one knot"@]
    } else {
        Seq::empty()
    }
}

/// A knot before position `i` has the same id.
pub open spec fn seen_before(ids: Seq<Seq<char>>, i: int) -> bool {
    exists|j: int| 0 <= j < i && ids[j] == ids[i]
}

/// The id checks of the first `k` knots: no id is blank, none repeats.
pub open spec fn id_errors(ids: Seq<Seq<char>>, k: nat) -> Seq<Seq<char>>
    decreases k,
{
    if k == 0 {
        Seq::empty()
    } else {
        let i = k - 1;
        id_errors(ids, (k - 1) as nat) + if trim(ids[i]).len() == 0 {
            seq!["knot id must not be empty"@]
        } else if seen_before(ids, i) {
            seq![duplicate_id_message(ids[i])]
        } else {
            Seq::empty()
        }
    }
}

/// The checks of one connection: both ends are knots, and no connection
/// before it is the same.
pub open spec fn connection_error(ids: Seq<Seq<char>>, cs: Seq<(Seq<char>, usize, Seq<char>, usize)>, i: int) -> Seq<
    Seq<char>,
> {
    let c = cs[i];
    (if !ids.contains(c.0) {
        seq![unknown_from_message(c.0)]
    } else {
        Seq::empty()
    }) + (if !ids.contains(c.2) {
        seq![unknown_to_message(c.2)]
    } else {
        Seq::empty()
    }) + (if exists|j: int| 0 <= j < i && cs[j] == c {
        seq![duplicate_connection_message(c)]
    } else {
        Seq::empty()
    })
}

/// The checks of the first `k` connections.
pub open spec fn connection_errors(ids: Seq<Seq<char>>, cs: Seq<(Seq<char>, usize, Seq<char>, usize)>, k: nat) -> Seq<
    Seq<char>,
>
    decreases k,
{
    if k == 0 {
        Seq::empty()
    } else {
        connection_errors(ids, cs, (k - 1) as nat) + connection_error(ids, cs, k - 1)
    }
}

/// The graph that the cycle check walks: an edge for each connection
/// between two different known knots, each id standing for the last knot
/// that has it.
pub open spec fn cycle_edges(ids: Seq<Seq<char>>, cs: Seq<(Seq<char>, usize, Seq<char>, usize)>) -> Seq<
    (usize, usize),
>
    decreases cs.len(),
{
    if cs.len() == 0 {
        Seq::empty()
    } else {
        let e = cycle_edges(ids, cs.drop_last());
        let a = last_index(ids, cs.last().0);
        let b = last_index(ids, cs.last().2);
        if a is Some && b is Some && a->0 != b->0 {
            e.push((a->0 as usize, b->0 as usize))
        } else {
            e
        }
    }
}

/// The ids of the first `k` knots whose node still has edges left into it
/// when Kahn's algorithm ends with counts `d`.
pub open spec fn stuck_ids(ids: Seq<Seq<char>>, d: Seq<usize>, k: nat) -> Seq<Seq<char>>
    decreases k,
{
    if k == 0 {
        Seq::empty()
    } else {
        let s = stuck_ids(ids, d, (k - 1) as nat);
        let i = last_index(ids, ids[k - 1])->0;
        if d[i] > 0 {
            s.push(ids[k - 1])
        } else {
            s
        }
    }
}

/// `list`, followed by the source of each of the first `k` connections that
/// leads from a knot to itself, where it is not listed yet.
pub open spec fn with_self_loops(list: Seq<Seq<char>>, cs: Seq<(Seq<char>, usize, Seq<char>, usize)>, k: nat) -> Seq<
    Seq<char>,
>
    decreases k,
{
    if k == 0 {
        list
    } else {
        let l = with_self_loops(list, cs, (k - 1) as nat);
        let c = cs[k - 1];
        if c.0 == c.2 && !l.contains(c.0) {
            l.push(c.0)
        } else {
            l
        }
    }
}

/// What the cycle check finds: the knots left over by Kahn's algorithm and
/// the knots that connect to themselves, or nothing when every knot is taken
/// and none connects to itself.
pub open spec fn cycle_of(ids: Seq<Seq<char>>, cs: Seq<(Seq<char>, usize, Seq<char>, usize)>) -> Option<
    Seq<Seq<char>>,
> {
    let n = ids.len();
    let es = cycle_edges(ids, cs);
    let r = kahn(n, es, sources_upto(es, n));
    let list = with_self_loops(stuck_ids(ids, r.1, n), cs, cs.len());
    if r.0.len() == n && list.len() == 0 {
        None
    } else {
        Some(list)
    }
}

/// The cycle check as messages.
pub open spec fn cycle_errors(ids: Seq<Seq<char>>, cs: Seq<(Seq<char>, usize, Seq<char>, usize)>) -> Seq<Seq<char>> {
    match cycle_of(ids, cs) {
        Some(list) => seq![cycle_message(list)],
        None => Seq::empty(),
    }
}

/// The type checks of the first `k` knots: each type is registered.
pub open spec fn kind_errors(kinds: Seq<Seq<char>>, k: nat) -> Seq<Seq<char>>
    decreases k,
{
    if k == 0 {
        Seq::empty()
    } else {
        kind_errors(kinds, (k - 1) as nat) + if !default_kinds().contains(kinds[k - 1]) {
            seq![unknown_kind_message(kinds[k - 1])]
        } else {
            Seq::empty()
        }
    }
}

/// The output check of one connection: the knot it leaves has that output.
pub open spec fn output_error(ids: Seq<Seq<char>>, kinds: Seq<Seq<char>>, c: (Seq<char>, usize, Seq<char>, usize)) -> Seq<
    Seq<char>,
> {
    match last_index(ids, c.0) {
        None => Seq::empty(),
        Some(k) => match first_index(default_kinds(), kinds[k]) {
            None => Seq::empty(),
            Some(t) => if c.1 >= default_output_counts()[t] {
                seq![missing_output_message(c.0, kinds[k], c.1, default_output_counts()[t])]
            } else {
                Seq::empty()
            },
        },
    }
}

/// The output checks of the first `k` connections.
pub open spec fn output_errors(
    ids: Seq<Seq<char>>,
    kinds: Seq<Seq<char>>,
    cs: Seq<(Seq<char>, usize, Seq<char>, usize)>,
    k: nat,
) -> Seq<Seq<char>>
    decreases k,
{
    if k == 0 {
        Seq::empty()
    } else {
        output_errors(ids, kinds, cs, (k - 1) as nat) + output_error(ids, kinds, cs[k - 1])
    }
}

/// Every problem of a workflow, in the order the checks report them.
pub open spec fn validation_errors(wf: Workflow) -> Seq<Seq<char>> {
    let ids = ids_of(wf.knots@);
    let kinds = kinds_of(wf.knots@);
    let cs = conns_view(wf.connections@);
    name_errors(wf.name@) + count_errors(ids.len()) + id_errors(ids, ids.len()) + connection_errors(
        ids,
        cs,
        cs.len(),
    ) + cycle_errors(ids, cs) + kind_errors(kinds, kinds.len()) + output_errors(ids, kinds, cs, cs.len())
}

// ---------------------------------------------------------------------------
// Lookups
// ---------------------------------------------------------------------------

/// Where `last_index` finds `id`, it is there and not after.
pub proof fn lemma_last_index(ids: Seq<Seq<char>>, id: Seq<char>)
    ensures
        match last_index(ids, id) {
            Some(i) => 0 <= i < ids.len() && ids[i] == id && forall|j: int| i < j < ids.len() ==> ids[j] != id,
            None => !ids.contains(id),
        },
    decreases ids.len(),
{
    if ids.len() > 0 && ids.last() != id {
        lemma_last_index(ids.drop_last(), id);
        match last_index(ids.drop_last(), id) {
            Some(i) => {
                assert(ids.drop_last()[i] == ids[i]);
                assert forall|j: int| i < j < ids.len() implies ids[j] != id by {
                    if j < ids.len() - 1 {
                        assert(ids.drop_last()[j] == ids[j]);
                    }
                }
            },
            None => {
                if ids.contains(id) {
                    let j = choose|j: int| 0 <= j < ids.len() && ids[j] == id;
                    assert(ids.drop_last()[j] == id);
                }
            },
        }
    }
}

/// The position of the last knot with id `id`.
pub(crate) fn last_index_of(knots: &Vec<Knot>, id: &str) -> (r: Option<usize>)
    ensures
        match r {
            Some(i) => last_index(ids_of(knots@), id@) == Some(i as int) && i < knots@.len(),
            None => last_index(ids_of(knots@), id@) is None,
        },
{
    let ghost ids = ids_of(knots@);
    let mut i: usize = knots.len();
    assert(ids.take(i as int) =~= ids);
    while i > 0
        invariant
            i <= knots@.len(),
            ids == ids_of(knots@),
            last_index(ids, id@) == last_index(ids.take(i as int), id@),
        decreases i,
    {
        let k = i - 1;
        assert(ids.take(i as int).last() == ids[k as int]);
        assert(ids.take(i as int).drop_last() =~= ids.take(k as int));
        if str_equal(knots[k].id.as_str(), id) {
            return Some(k);
        }
        i = k;
    }
    None
}

/// Copies a string.
pub(crate) fn copy_text(s: &str) -> (r: String)
    ensures
        r@ == s@,
{
    let mut r = String::new();
    push_str(&mut r, s);
    r
}

/// Whether one of `list` equals `s`.
fn list_contains(list: &Vec<String>, s: &str) -> (r: bool)
    ensures
        r == strs_view(list@).contains(s@),
{
    let mut i: usize = 0;
    while i < list.len()
        invariant
            i <= list@.len(),
            forall|j: int| 0 <= j < i ==> list@[j]@ != s@,
        decreases list@.len() - i,
    {
        if str_equal(list[i].as_str(), s) {
            assert(strs_view(list@)[i as int] == s@);
            return true;
        }
        i = i + 1;
    }
    proof {
        if strs_view(list@).contains(s@) {
            let j = choose|j: int| 0 <= j < strs_view(list@).len() && strs_view(list@)[j] == s@;
            assert(list@[j]@ == s@);
        }
    }
    false
}

/// The parts joined with `sep` between them.
fn join_strs(parts: &Vec<String>, sep: &str) -> (r: String)
    ensures
        r@ == join(strs_view(parts@), sep@),
{
    let ghost ps = strs_view(parts@);
    let mut r = String::new();
    if parts.len() == 0 {
        return r;
    }
    push_str(&mut r, parts[0].as_str());
    assert(ps.take(1).len() == 1);
    assert(ps.take(1)[0] == ps[0]);
    let mut i: usize = 1;
    while i < parts.len()
        invariant
            1 <= i <= parts@.len(),
            ps == strs_view(parts@),
            r@ == join(ps.take(i as int), sep@),
        decreases parts@.len() - i,
    {
        push_str(&mut r, sep);
        push_str(&mut r, parts[i].as_str());
        assert(ps.take(i + 1).drop_last() =~= ps.take(i as int));
        assert(ps.take(i + 1).last() == ps[i as int]);
        assert(r@ =~= join(ps.take(i as int), sep@) + sep@ + ps[i as int]);
        i = i + 1;
    }
    assert(ps.take(parts@.len() as int) =~= ps);
    r
}

// ---------------------------------------------------------------------------
// The cycle check
// ---------------------------------------------------------------------------

/// The edges of the cycle check's graph.
fn cycle_graph(wf: &Workflow) -> (edges: Vec<(usize, usize)>)
    ensures
        edges@ == cycle_edges(ids_of(wf.knots@), conns_view(wf.connections@)),
        edges_within(wf.knots@.len() as nat, edges@),
{
    let ghost ids = ids_of(wf.knots@);
    let ghost cs = conns_view(wf.connections@);
    let n = wf.knots.len();
    let mut edges: Vec<(usize, usize)> = Vec::new();
    let mut i: usize = 0;
    assert(cs.take(0) =~= Seq::<(Seq<char>, usize, Seq<char>, usize)>::empty());
    while i < wf.connections.len()
        invariant
            i <= cs.len(),
            cs == conns_view(wf.connections@),
            ids == ids_of(wf.knots@),
            n == ids.len(),
            edges@ == cycle_edges(ids, cs.take(i as int)),
            edges_within(n as nat, edges@),
        decreases cs.len() - i,
    {
        let c = &wf.connections[i];
        let a = last_index_of(&wf.knots, c.from.as_str());
        let b = last_index_of(&wf.knots, c.to.as_str());
        proof {
            assert(cs.take(i + 1).drop_last() =~= cs.take(i as int));
            assert(cs.take(i + 1).last() == cs[i as int]);
            assert(cs[i as int] == conn_view(wf.connections@[i as int]));
        }
        if let Some(x) = a {
            if let Some(y) = b {
                if x != y {
                    edges.push((x, y));
                }
            }
        }
        i = i + 1;
    }
    assert(cs.take(cs.len() as int) =~= cs);
    edges
}

/// The knots on or behind a cycle, in knot order, then those connected to
/// themselves; `None` when Kahn's algorithm takes every knot and no knot is
/// connected to itself.
pub fn find_cycle(wf: &Workflow) -> (r: Option<Vec<String>>)
    ensures
        match r {
            Some(list) => cycle_of(ids_of(wf.knots@), conns_view(wf.connections@)) == Some(strs_view(list@)),
            None => cycle_of(ids_of(wf.knots@), conns_view(wf.connections@)) is None,
        },
{
    let ghost ids = ids_of(wf.knots@);
    let ghost cs = conns_view(wf.connections@);
    let n = wf.knots.len();
    let edges = cycle_graph(wf);
    let init = sources(n, &edges);
    let (order, d) = kahn_order(n, &edges, init);
    let mut list: Vec<String> = Vec::new();
    let mut k: usize = 0;
    while k < n
        invariant
            k <= n,
            n == ids.len(),
            ids == ids_of(wf.knots@),
            d@.len() == n,
            strs_view(list@) == stuck_ids(ids, d@, k as nat),
        decreases n - k,
    {
        let idx = last_index_of(&wf.knots, wf.knots[k].id.as_str());
        proof {
            lemma_last_index(ids, ids[k as int]);
            assert(ids[k as int] == wf.knots@[k as int].id@);
            assert(ids.contains(ids[k as int]));
        }
        if let Some(t) = idx {
            if d[t] > 0 {
                let ghost before = list@;
                list.push(copy_text(wf.knots[k].id.as_str()));
                assert(strs_view(list@) =~= strs_view(before).push(ids[k as int]));
            }
        }
        k = k + 1;
    }
    let mut j: usize = 0;
    while j < wf.connections.len()
        invariant
            j <= cs.len(),
            cs == conns_view(wf.connections@),
            strs_view(list@) == with_self_loops(stuck_ids(ids, d@, n as nat), cs, j as nat),
        decreases cs.len() - j,
    {
        let c = &wf.connections[j];
        assert(cs[j as int] == conn_view(wf.connections@[j as int]));
        if str_equal(c.from.as_str(), c.to.as_str()) && !list_contains(&list, c.from.as_str()) {
            let ghost before = list@;
            list.push(copy_text(c.from.as_str()));
            assert(strs_view(list@) =~= strs_view(before).push(cs[j as int].0));
        }
        j = j + 1;
    }
    if order.len() == n && list.len() == 0 {
        None
    } else {
        Some(list)
    }
}

// ---------------------------------------------------------------------------
// Building the messages
// ---------------------------------------------------------------------------

fn push_decimal(out: &mut String, x: usize)
    ensures
        final(out)@ == old(out)@ + decimal(x as nat),
{
    let digits = decimal_chars(x as u64);
    push_chars(out, &digits);
}

fn duplicate_id_text(id: &str) -> (s: String)
    ensures
        s@ == duplicate_id_message(id@),
{
    let mut s = String::new();
    push_str(&mut s, "duplicate knot id '");
    push_str(&mut s, id);
    push_str(&mut s, "'");
    assert(s@ =~= duplicate_id_message(id@));
    s
}

fn unknown_end_text(id: &str, from: bool) -> (s: String)
    ensures
        s@ == if from {
            unknown_from_message(id@)
        } else {
            unknown_to_message(id@)
        },
{
    let mut s = String::new();
    push_str(&mut s, "connection references unknown knot '");
    push_str(&mut s, id);
    if from {
        push_str(&mut s, "' (from)");
        assert(s@ =~= unknown_from_message(id@));
    } else {
        push_str(&mut s, "' (to)");
        assert(s@ =~= unknown_to_message(id@));
    }
    s
}

fn duplicate_connection_text(c: &Connection) -> (s: String)
    ensures
        s@ == duplicate_connection_message(conn_view(*c)),
{
    let mut s = String::new();
    push_str(&mut s, "duplicate connection ");
    push_str(&mut s, c.from.as_str());
    push_str(&mut s, " (output ");
    push_decimal(&mut s, c.from_output);
    push_str(&mut s, ") -> ");
    push_str(&mut s, c.to.as_str());
    push_str(&mut s, " (input ");
    push_decimal(&mut s, c.to_input);
    push_str(&mut s, ")");
    assert(s@ =~= duplicate_connection_message(conn_view(*c)));
    s
}

fn cycle_text(list: &Vec<String>) -> (s: String)
    ensures
        s@ == cycle_message(strs_view(list@)),
{
    let mut s = String::new();
    push_str(&mut s, "cycle detected involving knots: ");
    let joined = join_strs(list, ", ");
    push_str(&mut s, joined.as_str());
    assert(s@ =~= cycle_message(strs_view(list@)));
    s
}

fn unknown_kind_text(kind: &str) -> (s: String)
    ensures
        s@ == unknown_kind_message(kind@),
{
    let mut s = String::new();
    push_str(&mut s, "unknown knot type '");
    push_str(&mut s, kind);
    push_str(&mut s, "'");
    assert(s@ =~= unknown_kind_message(kind@));
    s
}

fn missing_output_text(from: &str, kind: &str, output: usize, count: usize) -> (s: String)
    ensures
        s@ == missing_output_message(from@, kind@, output, count),
{
    let mut s = String::new();
    push_str(&mut s, "knot '");
    push_str(&mut s, from);
    push_str(&mut s, "' (type ");
    push_str(&mut s, kind);
    push_str(&mut s, ") has no output ");
    push_decimal(&mut s, output);
    push_str(&mut s, ", only ");
    push_decimal(&mut s, count);
    push_str(&mut s, " output(s)");
    assert(s@ =~= missing_output_message(from@, kind@, output, count));
    s
}

/// Whether a knot before position `i` has the same id as knot `i`.
pub(crate) fn id_seen_before(knots: &Vec<Knot>, i: usize) -> (r: bool)
    requires
        i < knots@.len(),
    ensures
        r == seen_before(ids_of(knots@), i as int),
{
    let ghost ids = ids_of(knots@);
    let mut j: usize = 0;
    while j < i
        invariant
            i < knots@.len(),
            j <= i,
            ids == ids_of(knots@),
            forall|t: int| 0 <= t < j ==> ids[t] != ids[i as int],
        decreases i - j,
    {
        if str_equal(knots[j].id.as_str(), knots[i].id.as_str()) {
            assert(ids[j as int] == ids[i as int]);
            return true;
        }
        j = j + 1;
    }
    false
}

/// Whether a connection before position `i` is the same as connection `i`.
fn connection_seen_before(conns: &Vec<Connection>, i: usize) -> (r: bool)
    requires
        i < conns@.len(),
    ensures
        r == exists|j: int| 0 <= j < i && conns_view(conns@)[j] == conns_view(conns@)[i as int],
{
    let ghost cs = conns_view(conns@);
    let c = &conns[i];
    let mut j: usize = 0;
    while j < i
        invariant
            i < conns@.len(),
            j <= i,
            cs == conns_view(conns@),
            *c == conns@[i as int],
            forall|t: int| 0 <= t < j ==> cs[t] != cs[i as int],
        decreases i - j,
    {
        let o = &conns[j];
        if str_equal(o.from.as_str(), c.from.as_str()) && o.from_output == c.from_output && str_equal(
            o.to.as_str(),
            c.to.as_str(),
        ) && o.to_input == c.to_input {
            assert(cs[j as int] == cs[i as int]);
            return true;
        }
        j = j + 1;
    }
    false
}

// ---------------------------------------------------------------------------
// The checks
// ---------------------------------------------------------------------------

fn report(errors: &mut Vec<ValidationError>, message: String)
    ensures
        messages(final(errors)@) == messages(old(errors)@).push(message@),
{
    let ghost before = errors@;
    errors.push(ValidationError::new(message));
    assert(messages(errors@) =~= messages(before).push(message@));
}

fn check_ids(wf: &Workflow, errors: &mut Vec<ValidationError>)
    ensures
        messages(final(errors)@) == messages(old(errors)@) + id_errors(ids_of(wf.knots@), wf.knots@.len()),
{
    let ghost ids = ids_of(wf.knots@);
    let ghost start = messages(errors@);
    let mut i: usize = 0;
    while i < wf.knots.len()
        invariant
            i <= wf.knots@.len(),
            ids == ids_of(wf.knots@),
            messages(errors@) == start + id_errors(ids, i as nat),
        decreases wf.knots@.len() - i,
    {
        let id = wf.knots[i].id.as_str();
        assert(ids[i as int] == id@);
        if is_blank(id) {
            report(errors, copy_text("knot id must not be empty"));
        } else if id_seen_before(&wf.knots, i) {
            report(errors, duplicate_id_text(id));
        }
        i = i + 1;
        assert(messages(errors@) =~= start + id_errors(ids, i as nat));
    }
}

fn check_connections(wf: &Workflow, errors: &mut Vec<ValidationError>)
    ensures
        messages(final(errors)@) == messages(old(errors)@) + connection_errors(
            ids_of(wf.knots@),
            conns_view(wf.connections@),
            wf.connections@.len(),
        ),
{
    let ghost ids = ids_of(wf.knots@);
    let ghost cs = conns_view(wf.connections@);
    let ghost start = messages(errors@);
    let mut i: usize = 0;
    while i < wf.connections.len()
        invariant
            i <= wf.connections@.len(),
            ids == ids_of(wf.knots@),
            cs == conns_view(wf.connections@),
            messages(errors@) == start + connection_errors(ids, cs, i as nat),
        decreases wf.connections@.len() - i,
    {
        let c = &wf.connections[i];
        assert(cs[i as int] == conn_view(*c));
        let ghost mid = messages(errors@);
        proof {
            lemma_last_index(ids, c.from@);
            lemma_last_index(ids, c.to@);
        }
        if last_index_of(&wf.knots, c.from.as_str()).is_none() {
            report(errors, unknown_end_text(c.from.as_str(), true));
        }
        let ghost after_from = messages(errors@);
        if last_index_of(&wf.knots, c.to.as_str()).is_none() {
            report(errors, unknown_end_text(c.to.as_str(), false));
        }
        let ghost after_to = messages(errors@);
        if connection_seen_before(&wf.connections, i) {
            report(errors, duplicate_connection_text(c));
        }
        proof {
            let e1: Seq<Seq<char>> = if !ids.contains(c.from@) {
                seq![unknown_from_message(c.from@)]
            } else {
                Seq::empty()
            };
            let e2: Seq<Seq<char>> = if !ids.contains(c.to@) {
                seq![unknown_to_message(c.to@)]
            } else {
                Seq::empty()
            };
            assert(after_from =~= mid + e1);
            assert(after_to =~= mid + e1 + e2);
        }
        i = i + 1;
        assert(messages(errors@) =~= start + connection_errors(ids, cs, i as nat));
    }
}

/// The registry that validation checks knot types against.
pub open spec fn is_default_registry(r: Registry) -> bool {
    &&& r.kinds_of() == default_kinds()
    &&& r.entries_of().len() == 8
    &&& forall|i: int| 0 <= i < 8 ==> (#[trigger] r.entries_of()[i]).descriptor.output_count == default_output_counts()[i]
}

fn check_kinds(wf: &Workflow, registry: &Registry, errors: &mut Vec<ValidationError>)
    requires
        is_default_registry(*registry),
    ensures
        messages(final(errors)@) == messages(old(errors)@) + kind_errors(kinds_of(wf.knots@), wf.knots@.len()),
{
    let ghost kinds = kinds_of(wf.knots@);
    let ghost start = messages(errors@);
    let mut i: usize = 0;
    while i < wf.knots.len()
        invariant
            i <= wf.knots@.len(),
            kinds == kinds_of(wf.knots@),
            is_default_registry(*registry),
            messages(errors@) == start + kind_errors(kinds, i as nat),
        decreases wf.knots@.len() - i,
    {
        let kind = wf.knots[i].kind.as_str();
        assert(kinds[i as int] == kind@);
        proof {
            lemma_first_index(default_kinds(), kind@);
        }
        if registry.descriptor(kind).is_none() {
            report(errors, unknown_kind_text(kind));
        }
        i = i + 1;
        assert(messages(errors@) =~= start + kind_errors(kinds, i as nat));
    }
}

fn check_outputs(wf: &Workflow, registry: &Registry, errors: &mut Vec<ValidationError>)
    requires
        is_default_registry(*registry),
    ensures
        messages(final(errors)@) == messages(old(errors)@) + output_errors(
            ids_of(wf.knots@),
            kinds_of(wf.knots@),
            conns_view(wf.connections@),
            wf.connections@.len(),
        ),
{
    let ghost ids = ids_of(wf.knots@);
    let ghost kinds = kinds_of(wf.knots@);
    let ghost cs = conns_view(wf.connections@);
    let ghost start = messages(errors@);
    let mut i: usize = 0;
    while i < wf.connections.len()
        invariant
            i <= wf.connections@.len(),
            ids == ids_of(wf.knots@),
            kinds == kinds_of(wf.knots@),
            cs == conns_view(wf.connections@),
            is_default_registry(*registry),
            messages(errors@) == start + output_errors(ids, kinds, cs, i as nat),
        decreases wf.connections@.len() - i,
    {
        let c = &wf.connections[i];
        assert(cs[i as int] == conn_view(*c));
        if let Some(k) = last_index_of(&wf.knots, c.from.as_str()) {
            let kind = wf.knots[k].kind.as_str();
            assert(kinds[k as int] == kind@);
            proof {
                lemma_first_index(default_kinds(), kind@);
            }
            if let Some(d) = registry.descriptor(kind) {
                if c.from_output >= d.output_count {
                    report(errors, missing_output_text(c.from.as_str(), kind, c.from_output, d.output_count));
                }
            }
        }
        i = i + 1;
        assert(messages(errors@) =~= start + output_errors(ids, kinds, cs, i as nat));
    }
}

/// Checks a workflow: its name and knot ids, its connections, cycles, and
/// the knot types and outputs against the default registry. `Ok` when
/// nothing is wrong, else every problem found, in order.
pub fn validate(wf: &Workflow) -> (r: Result<(), Vec<ValidationError>>)
    ensures
        match r {
            Ok(()) => validation_errors(*wf).len() == 0,
            Err(es) => es@.len() > 0 && messages(es@) == validation_errors(*wf),
        },
{
    let ghost ids = ids_of(wf.knots@);
    let ghost cs = conns_view(wf.connections@);
    let mut errors: Vec<ValidationError> = Vec::new();
    assert(messages(errors@) =~= Seq::<Seq<char>>::empty());
    if is_blank(wf.name.as_str()) {
        report(&mut errors, copy_text("workflow name must not be empty"));
    }
    assert(messages(errors@) =~= name_errors(wf.name@));
    if wf.knots.len() == 0 {
        report(&mut errors, copy_text("workflow must contain at least one knot"));
    }
    assert(messages(errors@) =~= name_errors(wf.name@) + count_errors(ids.len()));
    check_ids(wf, &mut errors);
    check_connections(wf, &mut errors);
    let ghost before_cycle = messages(errors@);
    if let Some(list) = find_cycle(wf) {
        report(&mut errors, cycle_text(&list));
    }
    assert(messages(errors@) =~= before_cycle + cycle_errors(ids, cs));
    let registry = Registry::default();
    proof {
        registry.lemma_kinds();
    }
    check_kinds(wf, &registry, &mut errors);
    check_outputs(wf, &registry, &mut errors);
    assert(messages(errors@) =~= validation_errors(*wf));
    if errors.len() == 0 {
        Ok(())
    } else {
        Err(errors)
    }
}

impl Workflow {
    /// Checks the workflow; see `validate`.
    pub fn validate(&self) -> (r: Result<(), Vec<ValidationError>>)
        ensures
            match r {
                Ok(()) => validation_errors(*self).len() == 0,
                Err(es) => es@.len() > 0 && messages(es@) == validation_errors(*self),
            },
    {
        validate(self)
    }
}

// ---------------------------------------------------------------------------
// What the cycle check finds
// ---------------------------------------------------------------------------

proof fn lemma_cycle_edges_within(ids: Seq<Seq<char>>, cs: Seq<(Seq<char>, usize, Seq<char>, usize)>)
    requires
        ids.len() <= usize::MAX,
    ensures
        edges_within(ids.len(), cycle_edges(ids, cs)),
        cycle_edges(ids, cs).len() <= cs.len(),
    decreases cs.len(),
{
    if cs.len() > 0 {
        lemma_cycle_edges_within(ids, cs.drop_last());
        lemma_last_index(ids, cs.last().0);
        lemma_last_index(ids, cs.last().2);
        let e = cycle_edges(ids, cs.drop_last());
        let t = cycle_edges(ids, cs);
        assert forall|i: int| 0 <= i < t.len() implies (#[trigger] t[i]).0 < ids.len() && t[i].1 < ids.len() by {
            if i < e.len() {
                assert(t[i] == e[i]);
            }
        }
    }
}

proof fn lemma_stuck_empty(ids: Seq<Seq<char>>, d: Seq<usize>, k: nat)
    requires
        k <= ids.len(),
        d.len() == ids.len(),
        forall|v: int| 0 <= v < ids.len() ==> d[v] == 0,
    ensures
        stuck_ids(ids, d, k).len() == 0,
    decreases k,
{
    if k > 0 {
        lemma_stuck_empty(ids, d, (k - 1) as nat);
        lemma_last_index(ids, ids[k - 1]);
        assert(ids.contains(ids[k - 1]));
    }
}

proof fn lemma_self_loops(list: Seq<Seq<char>>, cs: Seq<(Seq<char>, usize, Seq<char>, usize)>, k: nat)
    requires
        k <= cs.len(),
    ensures
        with_self_loops(list, cs, k).len() == 0 <==> (list.len() == 0 && forall|i: int| 0 <= i < k ==> cs[i].0 != cs[i].2),
    decreases k,
{
    if k > 0 {
        lemma_self_loops(list, cs, (k - 1) as nat);
        let l = with_self_loops(list, cs, (k - 1) as nat);
        let c = cs[k - 1];
        if c.0 == c.2 && l.contains(c.0) {
            assert(l.len() > 0);
        }
    }
}

/// The cycle check reports something exactly when the connections between
/// different known knots form a cycle, or a connection leads from a knot to
/// itself.
pub proof fn lemma_cycle_reported(wf: Workflow)
    requires
        wf.knots@.len() <= usize::MAX,
        wf.connections@.len() <= usize::MAX,
    ensures
        cycle_errors(ids_of(wf.knots@), conns_view(wf.connections@)).len() > 0 <==> (has_cycle(
            cycle_edges(ids_of(wf.knots@), conns_view(wf.connections@)),
        ) || exists|i: int|
            0 <= i < wf.connections@.len() && (#[trigger] wf.connections@[i]).from@ == wf.connections@[i].to@),
{
    let ids = ids_of(wf.knots@);
    let cs = conns_view(wf.connections@);
    let n = ids.len();
    let es = cycle_edges(ids, cs);
    lemma_cycle_edges_within(ids, cs);
    lemma_sources_queue(es, n);
    lemma_kahn(n, es, sources_upto(es, n));
    let r = kahn(n, es, sources_upto(es, n));
    lemma_kahn_acyclic(n, es, r.0, r.1);
    lemma_self_loops(stuck_ids(ids, r.1, n), cs, cs.len());
    if r.0.len() == n {
        assert forall|v: int| 0 <= v < ids.len() implies r.1[v] == 0 by {
            lemma_distinct_full(r.0, n, v as usize);
            assert(r.1[(v as usize) as int] == 0);
        }
        lemma_stuck_empty(ids, r.1, n);
        if exists|i: int| 0 <= i < wf.connections@.len() && (#[trigger] wf.connections@[i]).from@ == wf.connections@[i].to@ {
            let i = choose|i: int| 0 <= i < wf.connections@.len() && (#[trigger] wf.connections@[i]).from@ == wf.connections@[i].to@;
            assert(cs[i].0 == cs[i].2);
        }
        if !(forall|i: int| 0 <= i < cs.len() ==> cs[i].0 != cs[i].2) {
            let i = choose|i: int| 0 <= i < cs.len() && cs[i].0 == cs[i].2;
            assert(wf.connections@[i].from@ == wf.connections@[i].to@);
        }
    }
}

/// Where the checks of the first `k` connections find nothing, each of
/// those connections passes its own checks.
proof fn lemma_connection_errors_empty(ids: Seq<Seq<char>>, cs: Seq<(Seq<char>, usize, Seq<char>, usize)>, k: nat)
    requires
        connection_errors(ids, cs, k).len() == 0,
    ensures
        forall|i: int| 0 <= i < k ==> (#[trigger] connection_error(ids, cs, i)).len() == 0,
    decreases k,
{
    if k > 0 {
        lemma_connection_errors_empty(ids, cs, (k - 1) as nat);
    }
}

/// A workflow that validation finds nothing wrong with has no dangling
/// connection: both ends of every connection are ids of its knots.
pub proof fn lemma_valid_connections_known(wf: Workflow)
    requires
        validation_errors(wf).len() == 0,
    ensures
        forall|i: int|
            0 <= i < wf.connections@.len() ==> (exists|a: int|
                0 <= a < wf.knots@.len() && wf.knots@[a].id@ == (#[trigger] wf.connections@[i]).from@)
                && (exists|b: int| 0 <= b < wf.knots@.len() && wf.knots@[b].id@ == wf.connections@[i].to@),
{
    let ids = ids_of(wf.knots@);
    let cs = conns_view(wf.connections@);
    lemma_connection_errors_empty(ids, cs, cs.len());
    assert forall|i: int| 0 <= i < wf.connections@.len() implies (exists|a: int|
        0 <= a < wf.knots@.len() && wf.knots@[a].id@ == (#[trigger] wf.connections@[i]).from@)
        && (exists|b: int| 0 <= b < wf.knots@.len() && wf.knots@[b].id@ == wf.connections@[i].to@) by {
        assert(cs[i] == conn_view(wf.connections@[i]));
        assert(connection_error(ids, cs, i).len() == 0);
        assert(ids.contains(cs[i].0));
        assert(ids.contains(cs[i].2));
        let a = choose|a: int| 0 <= a < ids.len() && ids[a] == cs[i].0;
        let b = choose|b: int| 0 <= b < ids.len() && ids[b] == cs[i].2;
        assert(wf.knots@[a].id@ == ids[a]);
        assert(wf.knots@[b].id@ == ids[b]);
    }
}

proof fn lemma_id_errors_empty(ids: Seq<Seq<char>>, k: nat)
    requires
        id_errors(ids, k).len() == 0,
        k <= ids.len(),
    ensures
        forall|i: int| 0 <= i < k ==> trim(#[trigger] ids[i]).len() > 0 && !seen_before(ids, i),
    decreases k,
{
    if k > 0 {
        lemma_id_errors_empty(ids, (k - 1) as nat);
    }
}

proof fn lemma_kind_errors_empty(kinds: Seq<Seq<char>>, k: nat)
    requires
        kind_errors(kinds, k).len() == 0,
        k <= kinds.len(),
    ensures
        forall|i: int| 0 <= i < k ==> default_kinds().contains(#[trigger] kinds[i]),
    decreases k,
{
    if k > 0 {
        lemma_kind_errors_empty(kinds, (k - 1) as nat);
    }
}

proof fn lemma_output_errors_empty(
    ids: Seq<Seq<char>>,
    kinds: Seq<Seq<char>>,
    cs: Seq<(Seq<char>, usize, Seq<char>, usize)>,
    k: nat,
)
    requires
        output_errors(ids, kinds, cs, k).len() == 0,
        k <= cs.len(),
    ensures
        forall|i: int| 0 <= i < k ==> (#[trigger] output_error(ids, kinds, cs[i])).len() == 0,
    decreases k,
{
    if k > 0 {
        lemma_output_errors_empty(ids, kinds, cs, (k - 1) as nat);
    }
}

/// What a workflow that validation finds nothing wrong with is like: its
/// name is not blank; it has a knot; every knot id is non-blank and no two
/// knots share one; every knot's type is a registered kind; both ends of
/// every connection are knots; no two connections are the same; every
/// connection leaves from an output that its knot's type has; no
/// connection leads from a knot to itself; and the connections form no
/// cycle.
pub proof fn lemma_valid_workflow(wf: Workflow)
    requires
        validation_errors(wf).len() == 0,
    ensures
        trim(wf.name@).len() > 0,
        wf.knots@.len() > 0,
        forall|a: int| 0 <= a < wf.knots@.len() ==> trim((#[trigger] wf.knots@[a]).id@).len() > 0,
        forall|a: int, b: int| 0 <= a < b < wf.knots@.len() ==> (#[trigger] wf.knots@[a]).id@ != (#[trigger] wf.knots@[b]).id@,
        forall|a: int| 0 <= a < wf.knots@.len() ==> default_kinds().contains((#[trigger] wf.knots@[a]).kind@),
        forall|i: int|
            0 <= i < wf.connections@.len() ==> (exists|a: int|
                0 <= a < wf.knots@.len() && wf.knots@[a].id@ == (#[trigger] wf.connections@[i]).from@)
                && (exists|b: int| 0 <= b < wf.knots@.len() && wf.knots@[b].id@ == wf.connections@[i].to@),
        forall|i: int, j: int|
            0 <= i < j < wf.connections@.len() ==> conn_view(#[trigger] wf.connections@[i]) != conn_view(#[trigger] wf.connections@[j]),
        forall|i: int, a: int|
            0 <= i < wf.connections@.len() && 0 <= a < wf.knots@.len() && (#[trigger] wf.knots@[a]).id@ == (
            #[trigger] wf.connections@[i]).from@ ==> (first_index(default_kinds(), wf.knots@[a].kind@) matches Some(t)
                && wf.connections@[i].from_output < default_output_counts()[t]),
        forall|i: int| 0 <= i < wf.connections@.len() ==> (#[trigger] wf.connections@[i]).from@ != wf.connections@[i].to@,
        !has_cycle(cycle_edges(ids_of(wf.knots@), conns_view(wf.connections@))),
{
    let ids = ids_of(wf.knots@);
    let kinds = kinds_of(wf.knots@);
    let cs = conns_view(wf.connections@);
    lemma_valid_connections_known(wf);
    lemma_connection_errors_empty(ids, cs, cs.len());
    lemma_id_errors_empty(ids, ids.len());
    lemma_kind_errors_empty(kinds, kinds.len());
    lemma_output_errors_empty(ids, kinds, cs, cs.len());
    assert forall|a: int| 0 <= a < wf.knots@.len() implies trim((#[trigger] wf.knots@[a]).id@).len() > 0 by {
        assert(ids[a] == wf.knots@[a].id@);
    }
    assert forall|a: int, b: int| 0 <= a < b < wf.knots@.len() implies (#[trigger] wf.knots@[a]).id@ != (
    #[trigger] wf.knots@[b]).id@ by {
        assert(ids[a] == wf.knots@[a].id@ && ids[b] == wf.knots@[b].id@);
        assert(!seen_before(ids, b));
    }
    assert forall|a: int| 0 <= a < wf.knots@.len() implies default_kinds().contains((#[trigger] wf.knots@[a]).kind@) by {
        assert(kinds[a] == wf.knots@[a].kind@);
    }
    assert forall|i: int, j: int| 0 <= i < j < wf.connections@.len() implies conn_view(#[trigger] wf.connections@[i])
        != conn_view(#[trigger] wf.connections@[j]) by {
        assert(cs[i] == conn_view(wf.connections@[i]) && cs[j] == conn_view(wf.connections@[j]));
        assert(connection_error(ids, cs, j).len() == 0);
    }
    assert forall|i: int, a: int|
        0 <= i < wf.connections@.len() && 0 <= a < wf.knots@.len() && (#[trigger] wf.knots@[a]).id@ == (
        #[trigger] wf.connections@[i]).from@ implies (first_index(default_kinds(), wf.knots@[a].kind@) matches Some(t)
        && wf.connections@[i].from_output < default_output_counts()[t]) by {
        let c = cs[i];
        assert(c == conn_view(wf.connections@[i]));
        assert(ids[a] == wf.knots@[a].id@);
        lemma_last_index(ids, c.0);
        let k = last_index(ids, c.0)->0;
        assert(k == a) by {
            if k != a {
                if a < k {
                    assert(!seen_before(ids, k));
                } else {
                    assert(!seen_before(ids, a));
                }
            }
        }
        assert(kinds[a] == wf.knots@[a].kind@);
        assert(default_kinds().contains(kinds[a]));
        lemma_first_index(default_kinds(), kinds[a]);
        assert(output_error(ids, kinds, cs[i]).len() == 0);
    }
    assert(wf.knots@.len() == wf.knots.len());
    assert(wf.connections@.len() == wf.connections.len());
    lemma_cycle_reported(wf);
}

} // verus!
