//! Running a workflow: the knots run one after another in topological
//! order, each on the items that its incoming connections delivered.
use vstd::prelude::*;
use crate::error::Error;
use crate::graph::{
    edges_within, has_cycle, kahn, kahn_order, lemma_kahn,
    lemma_kahn_acyclic, lemma_kahn_edge_order, lemma_sources_queue, live_in, sources, sources_queue,
    sources_upto,
};
use crate::model::{Knot, Workflow};
use crate::text::{push_str, seq_less, str_less, lemma_seq_less_asym, lemma_seq_less_total, lemma_seq_less_trans};
use crate::validate::{
    conns_view, copy_text, id_seen_before, ids_of, last_index, last_index_of, lemma_last_index, seen_before,
    strs_view,
};

verus! {

/// The ids are all different.
pub open spec fn distinct_ids(ids: Seq<Seq<char>>) -> bool {
    forall|i: int, j: int| 0 <= i < j < ids.len() ==> ids[i] != ids[j]
}

/// A connection whose source or target is not a knot.
pub open spec fn dangling(ids: Seq<Seq<char>>, c: (Seq<char>, usize, Seq<char>, usize)) -> bool {
    !ids.contains(c.0) || !ids.contains(c.2)
}

/// The first of the first `k` connections that is dangling.
pub open spec fn first_dangling(ids: Seq<Seq<char>>, cs: Seq<(Seq<char>, usize, Seq<char>, usize)>, k: nat) -> Option<
    int,
>
    decreases k,
{
    if k == 0 {
        None
    } else {
        match first_dangling(ids, cs, (k - 1) as nat) {
            Some(i) => Some(i),
            None => if dangling(ids, cs[k - 1]) {
                Some(k - 1)
            } else {
                None
            },
        }
    }
}

/// The graph the run order is taken on: an edge for each of the first `k`
/// connections, from the knot with its source id to the knot with its target
/// id.
pub open spec fn run_edges(ids: Seq<Seq<char>>, cs: Seq<(Seq<char>, usize, Seq<char>, usize)>, k: nat) -> Seq<
    (usize, usize),
>
    decreases k,
{
    if k == 0 {
        Seq::empty()
    } else {
        run_edges(ids, cs, (k - 1) as nat).push(
            (last_index(ids, cs[k - 1].0)->0 as usize, last_index(ids, cs[k - 1].2)->0 as usize),
        )
    }
}

/// `s` lists knots in increasing order of id.
pub open spec fn sorted_by_id(ids: Seq<Seq<char>>, s: Seq<usize>) -> bool {
    forall|i: int, j: int| 0 <= i < j < s.len() ==> seq_less(ids[s[i] as int], ids[s[j] as int])
}

/// `a` and `b` hold the same nodes.
pub open spec fn same_nodes(a: Seq<usize>, b: Seq<usize>) -> bool {
    forall|x: usize| a.contains(x) <==> b.contains(x)
}

/// A queue of the knots without incoming connections, in increasing order
/// of id.
pub open spec fn is_start_queue(ids: Seq<Seq<char>>, es: Seq<(usize, usize)>, s: Seq<usize>) -> bool {
    &&& sorted_by_id(ids, s)
    &&& s.no_duplicates()
    &&& same_nodes(s, sources_upto(es, ids.len()))
}

/// The queue the run order starts from: the knots without incoming
/// connections, in increasing order of id (there is one such queue when the
/// ids are distinct).
pub open spec fn start_queue(ids: Seq<Seq<char>>, es: Seq<(usize, usize)>) -> Seq<usize> {
    choose|s: Seq<usize>| is_start_queue(ids, es, s)
}

pub open spec fn cycle_error_message() -> Seq<char> {
    "workflow contains a cycle"@
}

pub open spec fn dangling_message(c: (Seq<char>, usize, Seq<char>, usize)) -> Seq<char> {
    "connection references unknown knot: `"@ + c.0 + "` -> `"@ + c.2 + "`"@
}

/// The order the knots run in, as knot positions, or why there is none: the
/// first connection to an unknown knot; repeated ids or a cycle.
pub open spec fn run_order(ids: Seq<Seq<char>>, cs: Seq<(Seq<char>, usize, Seq<char>, usize)>) -> Result<
    Seq<usize>,
    Seq<char>,
> {
    match first_dangling(ids, cs, cs.len()) {
        Some(i) => Err(dangling_message(cs[i])),
        None => if !distinct_ids(ids) {
            Err(cycle_error_message())
        } else {
            let es = run_edges(ids, cs, cs.len());
            let order = kahn(ids.len(), es, start_queue(ids, es)).0;
            if order.len() == ids.len() {
                Ok(order)
            } else {
                Err(cycle_error_message())
            }
        },
    }
}

// ---------------------------------------------------------------------------
// Sorting by id
// ---------------------------------------------------------------------------

/// Two queues sorted by distinct ids that hold the same nodes are equal.
pub proof fn lemma_sorted_unique(ids: Seq<Seq<char>>, a: Seq<usize>, b: Seq<usize>)
    requires
        distinct_ids(ids),
        sorted_by_id(ids, a),
        sorted_by_id(ids, b),
        a.no_duplicates(),
        b.no_duplicates(),
        same_nodes(a, b),
        forall|i: int| 0 <= i < a.len() ==> (#[trigger] a[i]) < ids.len(),
        forall|i: int| 0 <= i < b.len() ==> (#[trigger] b[i]) < ids.len(),
    ensures
        a == b,
    decreases a.len(),
{
    if a.len() == 0 {
        if b.len() > 0 {
            assert(b.contains(b[0]));
        }
        assert(a =~= b);
    } else {
        assert(a.contains(a[0]));
        assert(b.contains(a[0]));
        assert(b.len() > 0);
        assert(b.contains(b[0]));
        assert(a.contains(b[0]));
        let j = choose|j: int| 0 <= j < b.len() && b[j] == a[0];
        let i = choose|i: int| 0 <= i < a.len() && a[i] == b[0];
        if a[0] != b[0] {
            assert(j > 0 && i > 0);
            assert(seq_less(ids[b[0] as int], ids[b[j] as int]));
            assert(seq_less(ids[a[0] as int], ids[a[i] as int]));
            lemma_seq_less_asym(ids[a[0] as int], ids[b[0] as int]);
        }
        let a1 = a.drop_first();
        let b1 = b.drop_first();
        assert(same_nodes(a1, b1)) by {
            assert forall|x: usize| a1.contains(x) <==> b1.contains(x) by {
                if a1.contains(x) {
                    let k = choose|k: int| 0 <= k < a1.len() && a1[k] == x;
                    assert(a[k + 1] == x);
                    assert(a.contains(x));
                    let m = choose|m: int| 0 <= m < b.len() && b[m] == x;
                    assert(m != 0);
                    assert(b1[m - 1] == x);
                }
                if b1.contains(x) {
                    let k = choose|k: int| 0 <= k < b1.len() && b1[k] == x;
                    assert(b[k + 1] == x);
                    assert(b.contains(x));
                    let m = choose|m: int| 0 <= m < a.len() && a[m] == x;
                    assert(m != 0);
                    assert(a1[m - 1] == x);
                }
            }
        }
        assert(sorted_by_id(ids, a1)) by {
            assert forall|p: int, q: int| 0 <= p < q < a1.len() implies seq_less(
                ids[a1[p] as int],
                ids[a1[q] as int],
            ) by {
                assert(a1[p] == a[p + 1] && a1[q] == a[q + 1]);
            }
        }
        assert(sorted_by_id(ids, b1)) by {
            assert forall|p: int, q: int| 0 <= p < q < b1.len() implies seq_less(
                ids[b1[p] as int],
                ids[b1[q] as int],
            ) by {
                assert(b1[p] == b[p + 1] && b1[q] == b[q + 1]);
            }
        }
        lemma_sorted_unique(ids, a1, b1);
        assert(a =~= b) by {
            assert forall|k: int| 0 <= k < a.len() implies a[k] == b[k] by {
                if k > 0 {
                    assert(a[k] == a1[k - 1]);
                    assert(b[k] == b1[k - 1]);
                }
            }
        }
    }
}

/// The items in increasing order of the ids of their knots.
fn sort_by_id(knots: &Vec<Knot>, items: &Vec<usize>) -> (r: Vec<usize>)
    requires
        distinct_ids(ids_of(knots@)),
        items@.no_duplicates(),
        forall|i: int| 0 <= i < items@.len() ==> (#[trigger] items@[i]) < knots@.len(),
    ensures
        sorted_by_id(ids_of(knots@), r@),
        r@.no_duplicates(),
        same_nodes(r@, items@),
        forall|i: int| 0 <= i < r@.len() ==> (#[trigger] r@[i]) < knots@.len(),
{
    let ghost ids = ids_of(knots@);
    let mut r: Vec<usize> = Vec::new();
    let mut i: usize = 0;
    while i < items.len()
        invariant
            ids == ids_of(knots@),
            distinct_ids(ids),
            items@.no_duplicates(),
            forall|t: int| 0 <= t < items@.len() ==> (#[trigger] items@[t]) < knots@.len(),
            i <= items@.len(),
            sorted_by_id(ids, r@),
            r@.no_duplicates(),
            same_nodes(r@, items@.take(i as int)),
            forall|t: int| 0 <= t < r@.len() ==> (#[trigger] r@[t]) < knots@.len(),
        decreases items@.len() - i,
    {
        let x = items[i];
        assert(!r@.contains(x)) by {
            if r@.contains(x) {
                assert(items@.take(i as int).contains(x));
                let t = choose|t: int| 0 <= t < i && items@.take(i as int)[t] == x;
                assert(items@[t] == items@[i as int]);
            }
        }
        let mut p: usize = 0;
        while p < r.len() && !str_less(knots[x].id.as_str(), knots[r[p]].id.as_str())
            invariant
                ids == ids_of(knots@),
                distinct_ids(ids),
                x < knots@.len(),
                !r@.contains(x),
                p <= r@.len(),
                forall|t: int| 0 <= t < r@.len() ==> (#[trigger] r@[t]) < knots@.len(),
                forall|q: int| 0 <= q < p ==> seq_less(ids[r@[q] as int], ids[x as int]),
            decreases r@.len() - p,
        {
            proof {
                assert(ids[x as int] == knots@[x as int].id@);
                let y = r@[p as int];
                assert(ids[y as int] == knots@[y as int].id@);
                assert(r@.contains(y));
                assert(y != x);
                if y < x {
                    assert(ids[y as int] != ids[x as int]);
                } else {
                    assert(ids[x as int] != ids[y as int]);
                }
                lemma_seq_less_total(ids[x as int], ids[y as int]);
            }
            p = p + 1;
        }
        proof {
            if p < r@.len() {
                assert(ids[x as int] == knots@[x as int].id@);
                assert(ids[r@[p as int] as int] == knots@[r@[p as int] as int].id@);
                assert(seq_less(ids[x as int], ids[r@[p as int] as int]));
            }
        }
        let ghost before = r@;
        r.insert(p, x);
        proof {
            assert(r@ == before.insert(p as int, x));
            assert forall|a: int, b: int| 0 <= a < b < r@.len() implies seq_less(
                ids[r@[a] as int],
                ids[r@[b] as int],
            ) by {
                if a < p && b < p {
                    assert(r@[a] == before[a] && r@[b] == before[b]);
                } else if a < p && b == p {
                    assert(r@[a] == before[a]);
                } else if a < p {
                    assert(r@[a] == before[a] && r@[b] == before[b - 1]);
                    if b - 1 > a {
                        assert(seq_less(ids[before[a] as int], ids[before[b - 1] as int]));
                    } else {
                        assert(seq_less(ids[before[a] as int], ids[x as int]));
                        assert(seq_less(ids[x as int], ids[before[p as int] as int]));
                        lemma_seq_less_trans(ids[before[a] as int], ids[x as int], ids[before[p as int] as int]);
                    }
                } else if a == p {
                    assert(r@[b] == before[b - 1]);
                    if b - 1 > p {
                        assert(seq_less(ids[before[p as int] as int], ids[before[b - 1] as int]));
                        lemma_seq_less_trans(ids[x as int], ids[before[p as int] as int], ids[before[b - 1] as int]);
                    }
                } else {
                    assert(r@[a] == before[a - 1] && r@[b] == before[b - 1]);
                }
            }
            assert forall|a: int, b: int| 0 <= a < r@.len() && 0 <= b < r@.len() && a != b implies r@[a]
                != r@[b] by {
                if a == p {
                    if b < p {
                        assert(r@[b] == before[b]);
                        assert(before.contains(before[b]));
                    } else {
                        assert(r@[b] == before[b - 1]);
                        assert(before.contains(before[b - 1]));
                    }
                } else if b == p {
                    if a < p {
                        assert(r@[a] == before[a]);
                        assert(before.contains(before[a]));
                    } else {
                        assert(r@[a] == before[a - 1]);
                        assert(before.contains(before[a - 1]));
                    }
                } else {
                    let a0 = if a < p { a } else { a - 1 };
                    let b0 = if b < p { b } else { b - 1 };
                    assert(r@[a] == before[a0] && r@[b] == before[b0]);
                }
            }
            assert forall|y: usize| r@.contains(y) <==> items@.take(i + 1).contains(y) by {
                assert(items@.take(i + 1) =~= items@.take(i as int).push(x));
                if r@.contains(y) {
                    let t = choose|t: int| 0 <= t < r@.len() && r@[t] == y;
                    if t != p {
                        let t0 = if t < p { t } else { t - 1 };
                        assert(before[t0] == y);
                        assert(before.contains(y));
                        assert(items@.take(i as int).contains(y));
                        let s = choose|s: int| 0 <= s < i && items@.take(i as int)[s] == y;
                        assert(items@.take(i + 1)[s] == y);
                    } else {
                        assert(items@.take(i + 1)[i as int] == y);
                    }
                }
                let ext = items@.take(i + 1);
                if ext.contains(y) {
                    let s = choose|s: int| 0 <= s < ext.len() && ext[s] == y;
                    if s < i {
                        assert(items@.take(i as int)[s] == y);
                        assert(items@.take(i as int).contains(y));
                        assert(before.contains(y));
                        let t = choose|t: int| 0 <= t < before.len() && before[t] == y;
                        if t < p {
                            assert(r@[t] == y);
                        } else {
                            assert(r@[t + 1] == y);
                        }
                    } else {
                        assert(r@[p as int] == y);
                    }
                }
            }
            assert forall|t: int| 0 <= t < r@.len() implies (#[trigger] r@[t]) < knots@.len() by {
                if t < p {
                    assert(r@[t] == before[t]);
                } else if t > p {
                    assert(r@[t] == before[t - 1]);
                }
            }
        }
        i = i + 1;
    }
    assert(items@.take(items@.len() as int) =~= items@);
    r
}

/// Where `x` goes in a queue sorted by id: before the first knot with a
/// greater id.
pub open spec fn insert_position(ids: Seq<Seq<char>>, t: Seq<usize>, x: usize) -> nat
    decreases t.len(),
{
    if t.len() == 0 || seq_less(ids[x as int], ids[t[0] as int]) {
        0
    } else {
        1 + insert_position(ids, t.drop_first(), x)
    }
}

proof fn lemma_insert_position(ids: Seq<Seq<char>>, t: Seq<usize>, x: usize)
    requires
        distinct_ids(ids),
        sorted_by_id(ids, t),
        !t.contains(x),
        x < ids.len(),
        forall|i: int| 0 <= i < t.len() ==> (#[trigger] t[i]) < ids.len(),
    ensures
        insert_position(ids, t, x) <= t.len(),
        forall|q: int| 0 <= q < insert_position(ids, t, x) ==> seq_less(ids[t[q] as int], ids[x as int]),
        forall|q: int| insert_position(ids, t, x) <= q < t.len() ==> seq_less(ids[x as int], ids[t[q] as int]),
    decreases t.len(),
{
    if t.len() > 0 {
        assert(t.contains(t[0]));
        assert(ids[x as int] != ids[t[0] as int]) by {
            if x < t[0] {
                assert(ids[x as int] != ids[t[0] as int]);
            } else {
                assert(ids[t[0] as int] != ids[x as int]);
            }
        }
        if seq_less(ids[x as int], ids[t[0] as int]) {
            assert forall|q: int| 0 <= q < t.len() implies seq_less(ids[x as int], ids[t[q] as int]) by {
                if q > 0 {
                    lemma_seq_less_trans(ids[x as int], ids[t[0] as int], ids[t[q] as int]);
                }
            }
        } else {
            lemma_seq_less_total(ids[x as int], ids[t[0] as int]);
            let t1 = t.drop_first();
            assert(!t1.contains(x)) by {
                if t1.contains(x) {
                    let k = choose|k: int| 0 <= k < t1.len() && t1[k] == x;
                    assert(t[k + 1] == x);
                }
            }
            assert(sorted_by_id(ids, t1)) by {
                assert forall|p: int, q: int| 0 <= p < q < t1.len() implies seq_less(
                    ids[t1[p] as int],
                    ids[t1[q] as int],
                ) by {
                    assert(t1[p] == t[p + 1] && t1[q] == t[q + 1]);
                }
            }
            lemma_insert_position(ids, t1, x);
            let k = insert_position(ids, t1, x);
            assert forall|q: int| 0 <= q < k + 1 implies seq_less(ids[t[q] as int], ids[x as int]) by {
                if q > 0 {
                    assert(t[q] == t1[q - 1]);
                }
            }
            assert forall|q: int| k + 1 <= q < t.len() implies seq_less(ids[x as int], ids[t[q] as int]) by {
                assert(t[q] == t1[q - 1]);
            }
        }
    }
}

/// The knots of `s` in increasing order of id, by insertion.
pub open spec fn sorted_spec(ids: Seq<Seq<char>>, s: Seq<usize>) -> Seq<usize>
    decreases s.len(),
{
    if s.len() == 0 {
        Seq::empty()
    } else {
        let t = sorted_spec(ids, s.drop_last());
        t.insert(insert_position(ids, t, s.last()) as int, s.last())
    }
}

proof fn lemma_sorted_spec(ids: Seq<Seq<char>>, s: Seq<usize>)
    requires
        distinct_ids(ids),
        s.no_duplicates(),
        forall|i: int| 0 <= i < s.len() ==> (#[trigger] s[i]) < ids.len(),
    ensures
        sorted_by_id(ids, sorted_spec(ids, s)),
        sorted_spec(ids, s).no_duplicates(),
        same_nodes(sorted_spec(ids, s), s),
        forall|i: int| 0 <= i < sorted_spec(ids, s).len() ==> (#[trigger] sorted_spec(ids, s)[i]) < ids.len(),
    decreases s.len(),
{
    if s.len() > 0 {
        let s0 = s.drop_last();
        let x = s.last();
        assert(s0.no_duplicates()) by {
            assert forall|i: int, j: int| 0 <= i < s0.len() && 0 <= j < s0.len() && i != j implies s0[i] != s0[j] by {
                assert(s0[i] == s[i] && s0[j] == s[j]);
            }
        }
        assert forall|i: int| 0 <= i < s0.len() implies (#[trigger] s0[i]) < ids.len() by {
            assert(s0[i] == s[i]);
        }
        assert(s[s.len() - 1] == x);
        lemma_sorted_spec(ids, s0);
        let t = sorted_spec(ids, s0);
        assert(!t.contains(x)) by {
            if t.contains(x) {
                assert(s0.contains(x));
                let k = choose|k: int| 0 <= k < s0.len() && s0[k] == x;
                assert(s[k] == s[s.len() - 1]);
            }
        }
        lemma_insert_position(ids, t, x);
        let p = insert_position(ids, t, x) as int;
        let r = t.insert(p, x);
        assert(r == sorted_spec(ids, s));
        assert forall|a: int, b: int| 0 <= a < b < r.len() implies seq_less(ids[r[a] as int], ids[r[b] as int]) by {
            if a < p && b < p {
                assert(r[a] == t[a] && r[b] == t[b]);
            } else if a < p && b == p {
                assert(r[a] == t[a]);
            } else if a < p {
                assert(r[a] == t[a] && r[b] == t[b - 1]);
            } else if a == p {
                assert(r[b] == t[b - 1]);
            } else {
                assert(r[a] == t[a - 1] && r[b] == t[b - 1]);
            }
        }
        assert forall|a: int, b: int| 0 <= a < r.len() && 0 <= b < r.len() && a != b implies r[a] != r[b] by {
            if a == p {
                let b0 = if b < p { b } else { b - 1 };
                assert(r[b] == t[b0]);
                assert(t.contains(t[b0]));
            } else if b == p {
                let a0 = if a < p { a } else { a - 1 };
                assert(r[a] == t[a0]);
                assert(t.contains(t[a0]));
            } else {
                let a0 = if a < p { a } else { a - 1 };
                let b0 = if b < p { b } else { b - 1 };
                assert(r[a] == t[a0] && r[b] == t[b0]);
            }
        }
        assert forall|y: usize| r.contains(y) <==> s.contains(y) by {
            if r.contains(y) {
                let k = choose|k: int| 0 <= k < r.len() && r[k] == y;
                if k == p {
                    assert(s[s.len() - 1] == y);
                } else {
                    let k0 = if k < p { k } else { k - 1 };
                    assert(t[k0] == y);
                    assert(t.contains(y));
                    assert(s0.contains(y));
                    let m = choose|m: int| 0 <= m < s0.len() && s0[m] == y;
                    assert(s[m] == y);
                }
            }
            if s.contains(y) {
                let m = choose|m: int| 0 <= m < s.len() && s[m] == y;
                if m == s.len() - 1 {
                    assert(r[p] == y);
                } else {
                    assert(s0[m] == y);
                    assert(s0.contains(y));
                    assert(t.contains(y));
                    let k = choose|k: int| 0 <= k < t.len() && t[k] == y;
                    if k < p {
                        assert(r[k] == y);
                    } else {
                        assert(r[k + 1] == y);
                    }
                }
            }
        }
        assert forall|i: int| 0 <= i < r.len() implies (#[trigger] r[i]) < ids.len() by {
            if i < p {
                assert(r[i] == t[i]);
            } else if i > p {
                assert(r[i] == t[i - 1]);
            }
        }
    }
}

/// With distinct ids, the start queue is the one queue of the sources in
/// increasing order of id, and Kahn's algorithm can start from it.
pub proof fn lemma_start_queue(ids: Seq<Seq<char>>, es: Seq<(usize, usize)>, s: Seq<usize>)
    requires
        distinct_ids(ids),
        ids.len() <= usize::MAX,
        is_start_queue(ids, es, s),
        forall|i: int| 0 <= i < s.len() ==> (#[trigger] s[i]) < ids.len(),
    ensures
        start_queue(ids, es) == s,
        sources_queue(ids.len(), es, s),
{
    let n = ids.len();
    crate::graph::lemma_sources_upto(es, n, n);
    let t = start_queue(ids, es);
    assert(is_start_queue(ids, es, t));
    assert forall|i: int| 0 <= i < t.len() implies (#[trigger] t[i]) < ids.len() by {
        assert(t.contains(t[i]));
        assert(sources_upto(es, n).contains(t[i]));
        let k = choose|k: int| 0 <= k < sources_upto(es, n).len() && sources_upto(es, n)[k] == t[i];
    }
    assert(same_nodes(s, t)) by {
        assert forall|x: usize| s.contains(x) <==> t.contains(x) by {
            assert(s.contains(x) <==> sources_upto(es, n).contains(x));
            assert(t.contains(x) <==> sources_upto(es, n).contains(x));
        }
    }
    lemma_sorted_unique(ids, s, t);
    assert forall|v: usize| v < n implies (s.contains(v) <==> live_in(es, v, Seq::empty()) == 0) by {
        assert(s.contains(v) <==> sources_upto(es, n).contains(v));
    }
}

/// A start queue exists.
pub proof fn lemma_start_queue_exists(ids: Seq<Seq<char>>, es: Seq<(usize, usize)>)
    requires
        distinct_ids(ids),
        ids.len() <= usize::MAX,
    ensures
        is_start_queue(ids, es, start_queue(ids, es)),
        start_queue(ids, es) == sorted_spec(ids, sources_upto(es, ids.len())),
        sources_queue(ids.len(), es, start_queue(ids, es)),
{
    let n = ids.len();
    let src = sources_upto(es, n);
    lemma_sources_queue(es, n);
    crate::graph::lemma_sources_upto(es, n, n);
    lemma_sorted_spec(ids, src);
    lemma_start_queue(ids, es, sorted_spec(ids, src));
}

// ---------------------------------------------------------------------------
// The run order
// ---------------------------------------------------------------------------

proof fn lemma_first_dangling_stays(ids: Seq<Seq<char>>, cs: Seq<(Seq<char>, usize, Seq<char>, usize)>, i: nat, k: nat)
    requires
        i < k,
        first_dangling(ids, cs, i + 1) == Some(i as int),
    ensures
        first_dangling(ids, cs, k) == Some(i as int),
    decreases k,
{
    if k > i + 1 {
        lemma_first_dangling_stays(ids, cs, i, (k - 1) as nat);
    }
}

fn dangling_text(from: &str, to: &str) -> (s: String)
    ensures
        s@ == dangling_message((from@, 0usize, to@, 0usize)),
{
    let mut s = String::new();
    push_str(&mut s, "connection references unknown knot: `");
    push_str(&mut s, from);
    push_str(&mut s, "` -> `");
    push_str(&mut s, to);
    push_str(&mut s, "`");
    assert(s@ =~= dangling_message((from@, 0usize, to@, 0usize)));
    s
}

/// The positions of the knots in the order they run, or the error that
/// stops the run before any knot.
pub fn run_order_of(wf: &Workflow) -> (r: Result<Vec<usize>, Error>)
    ensures
        match r {
            Ok(o) => run_order(ids_of(wf.knots@), conns_view(wf.connections@)) == Ok::<Seq<usize>, Seq<char>>(o@),
            Err(e) => e matches Error::InvalidWorkflow(m) && run_order(ids_of(wf.knots@), conns_view(wf.connections@))
                == Err::<Seq<usize>, Seq<char>>(m@),
        },
{
    let ghost ids = ids_of(wf.knots@);
    let ghost cs = conns_view(wf.connections@);
    let n = wf.knots.len();
    let mut i: usize = 0;
    while i < wf.connections.len()
        invariant
            i <= cs.len(),
            ids == ids_of(wf.knots@),
            cs == conns_view(wf.connections@),
            first_dangling(ids, cs, i as nat) is None,
        decreases cs.len() - i,
    {
        let c = &wf.connections[i];
        assert(cs[i as int] == (c.from@, c.from_output, c.to@, c.to_input));
        proof {
            lemma_last_index(ids, c.from@);
            lemma_last_index(ids, c.to@);
        }
        if last_index_of(&wf.knots, c.from.as_str()).is_none() || last_index_of(&wf.knots, c.to.as_str()).is_none() {
            proof {
                lemma_first_dangling_stays(ids, cs, i as nat, cs.len());
                assert(dangling_message(cs[i as int]) == dangling_message((c.from@, 0usize, c.to@, 0usize)));
            }
            return Err(Error::InvalidWorkflow(dangling_text(c.from.as_str(), c.to.as_str())));
        }
        i = i + 1;
    }
    let mut k: usize = 0;
    while k < n
        invariant
            k <= n,
            n == ids.len(),
            ids == ids_of(wf.knots@),
            cs == conns_view(wf.connections@),
            first_dangling(ids, cs, cs.len()) is None,
            forall|t: int| 0 <= t < k ==> !seen_before(ids, t),
        decreases n - k,
    {
        if id_seen_before(&wf.knots, k) {
            proof {
                let j = choose|j: int| 0 <= j < k && ids[j] == ids[k as int];
                assert(!distinct_ids(ids));
            }
            return Err(Error::InvalidWorkflow(copy_text("workflow contains a cycle")));
        }
        k = k + 1;
    }
    assert(distinct_ids(ids)) by {
        assert forall|a: int, b: int| 0 <= a < b < ids.len() implies ids[a] != ids[b] by {
            assert(!seen_before(ids, b));
        }
    }
    let mut edges: Vec<(usize, usize)> = Vec::new();
    let mut j: usize = 0;
    while j < wf.connections.len()
        invariant
            j <= cs.len(),
            ids == ids_of(wf.knots@),
            cs == conns_view(wf.connections@),
            n == ids.len(),
            first_dangling(ids, cs, cs.len()) is None,
            edges@ == run_edges(ids, cs, j as nat),
            edges_within(n as nat, edges@),
        decreases cs.len() - j,
    {
        let c = &wf.connections[j];
        assert(cs[j as int] == (c.from@, c.from_output, c.to@, c.to_input));
        proof {
            lemma_first_dangling_prefix(ids, cs, (j + 1) as nat, cs.len());
            lemma_last_index(ids, c.from@);
            lemma_last_index(ids, c.to@);
        }
        let a = last_index_of(&wf.knots, c.from.as_str());
        let b = last_index_of(&wf.knots, c.to.as_str());
        match (a, b) {
            (Some(x), Some(y)) => {
                edges.push((x, y));
            },
            _ => {},
        }
        j = j + 1;
    }
    let ghost es = edges@;
    let srcs = sources(n, &edges);
    proof {
        crate::graph::lemma_sources_upto(es, n as nat, n as nat);
    }
    let q = sort_by_id(&wf.knots, &srcs);
    proof {
        assert(same_nodes(q@, sources_upto(es, n as nat))) by {
            assert forall|x: usize| q@.contains(x) <==> sources_upto(es, n as nat).contains(x) by {
                assert(q@.contains(x) <==> srcs@.contains(x));
            }
        }
        lemma_start_queue(ids, es, q@);
    }
    let (order, _) = kahn_order(n, &edges, q);
    if order.len() != n {
        return Err(Error::InvalidWorkflow(copy_text("workflow contains a cycle")));
    }
    Ok(order)
}

pub proof fn lemma_first_dangling_prefix(ids: Seq<Seq<char>>, cs: Seq<(Seq<char>, usize, Seq<char>, usize)>, j: nat, k: nat)
    requires
        j <= k,
        first_dangling(ids, cs, k) is None,
    ensures
        first_dangling(ids, cs, j) is None,
        forall|i: int| 0 <= i < j ==> !dangling(ids, #[trigger] cs[i]),
    decreases k,
{
    if k > 0 {
        if j < k {
            lemma_first_dangling_prefix(ids, cs, j, (k - 1) as nat);
        } else {
            lemma_first_dangling_prefix(ids, cs, (k - 1) as nat, (k - 1) as nat);
        }
    }
}

/// The ids of the knots in the order they run, or the error that stops the
/// run before any knot.
pub fn topo_order(wf: &Workflow) -> (r: Result<Vec<String>, Error>)
    ensures
        match r {
            Ok(v) => run_order(ids_of(wf.knots@), conns_view(wf.connections@)) matches Ok(o)
                && strs_view(v@) == o.map_values(|k: usize| ids_of(wf.knots@)[k as int]),
            Err(e) => e matches Error::InvalidWorkflow(m) && run_order(ids_of(wf.knots@), conns_view(wf.connections@))
                == Err::<Seq<usize>, Seq<char>>(m@),
        },
{
    match run_order_of(wf) {
        Err(e) => Err(e),
        Ok(order) => {
            let ghost ids = ids_of(wf.knots@);
            proof {
                assert(wf.knots@.len() == wf.knots.len());
                assert(wf.connections@.len() == wf.connections.len());
                lemma_run_order_valid(*wf);
            }
            let mut out: Vec<String> = Vec::new();
            let mut i: usize = 0;
            while i < order.len()
                invariant
                    i <= order@.len(),
                    ids == ids_of(wf.knots@),
                    forall|t: int| 0 <= t < order@.len() ==> (#[trigger] order@[t]) < ids.len(),
                    strs_view(out@) == order@.take(i as int).map_values(|k: usize| ids[k as int]),
                decreases order@.len() - i,
            {
                let k = order[i];
                let ghost before = out@;
                out.push(copy_text(wf.knots[k].id.as_str()));
                proof {
                    assert(order@.take(i + 1) =~= order@.take(i as int).push(k));
                    assert(strs_view(out@) =~= strs_view(before).push(ids[k as int]));
                }
                i = i + 1;
            }
            assert(order@.take(order@.len() as int) =~= order@);
            Ok(out)
        },
    }
}

// ---------------------------------------------------------------------------
// What the run order is
// ---------------------------------------------------------------------------

proof fn lemma_run_edges_within(ids: Seq<Seq<char>>, cs: Seq<(Seq<char>, usize, Seq<char>, usize)>, k: nat)
    requires
        k <= cs.len(),
        first_dangling(ids, cs, k) is None,
        ids.len() <= usize::MAX,
    ensures
        edges_within(ids.len(), run_edges(ids, cs, k)),
        run_edges(ids, cs, k).len() == k,
        forall|i: int| 0 <= i < k ==> ids[(#[trigger] run_edges(ids, cs, k)[i]).0 as int] == cs[i].0 && ids[run_edges(
            ids,
            cs,
            k,
        )[i].1 as int] == cs[i].2,
    decreases k,
{
    if k > 0 {
        lemma_first_dangling_prefix(ids, cs, (k - 1) as nat, k);
        lemma_run_edges_within(ids, cs, (k - 1) as nat);
        lemma_last_index(ids, cs[k - 1].0);
        lemma_last_index(ids, cs[k - 1].2);
        let e = run_edges(ids, cs, (k - 1) as nat);
        let t = run_edges(ids, cs, k);
        assert forall|i: int| 0 <= i < t.len() implies (#[trigger] t[i]).0 < ids.len() && t[i].1 < ids.len() by {
            if i < e.len() {
                assert(t[i] == e[i]);
            }
        }
        assert forall|i: int| 0 <= i < k implies ids[(#[trigger] t[i]).0 as int] == cs[i].0 && ids[t[i].1 as int]
            == cs[i].2 by {
            if i < e.len() {
                assert(t[i] == e[i]);
            }
        }
    }
}

/// When there is a run order, it lists every knot once, and the source of
/// every connection runs before its target.
pub proof fn lemma_run_order_valid(wf: Workflow)
    requires
        wf.knots@.len() <= usize::MAX,
        wf.connections@.len() <= usize::MAX,
        run_order(ids_of(wf.knots@), conns_view(wf.connections@)) is Ok,
    ensures
        ({
            let ids = ids_of(wf.knots@);
            let cs = conns_view(wf.connections@);
            let o = run_order(ids, cs)->Ok_0;
            &&& o.len() == ids.len()
            &&& o.no_duplicates()
            &&& forall|t: int| 0 <= t < o.len() ==> (#[trigger] o[t]) < ids.len()
            &&& forall|i: int|
                0 <= i < cs.len() ==> exists|a: int, b: int|
                    0 <= a < b < o.len() && ids[o[a] as int] == (#[trigger] cs[i]).0 && ids[o[b] as int] == cs[i].2
        }),
{
    let ids = ids_of(wf.knots@);
    let cs = conns_view(wf.connections@);
    let n = ids.len();
    let es = run_edges(ids, cs, cs.len());
    lemma_run_edges_within(ids, cs, cs.len());
    lemma_start_queue_exists(ids, es);
    lemma_kahn(n, es, start_queue(ids, es));
    let r = kahn(n, es, start_queue(ids, es));
    let o = r.0;
    assert forall|i: int| 0 <= i < cs.len() implies exists|a: int, b: int|
        0 <= a < b < o.len() && ids[o[a] as int] == (#[trigger] cs[i]).0 && ids[o[b] as int] == cs[i].2 by {
        let e = es[i];
        assert(ids[e.0 as int] == cs[i].0 && ids[e.1 as int] == cs[i].2);
        crate::graph::lemma_distinct_full(o, n, e.1);
        let b = choose|b: int| 0 <= b < o.len() && o[b] == e.1;
        lemma_kahn_edge_order(n, es, o, r.1, i, b);
        let a = choose|a: int| 0 <= a < b && o[a] == es[i].0;
        assert(ids[o[a] as int] == cs[i].0 && ids[o[b] as int] == cs[i].2);
    }
}

/// There is a run order exactly when every connection joins two knots, the
/// ids are distinct, and the connections form no cycle.
pub proof fn lemma_run_order_exists(wf: Workflow)
    requires
        wf.knots@.len() <= usize::MAX,
        wf.connections@.len() <= usize::MAX,
    ensures
        ({
            let ids = ids_of(wf.knots@);
            let cs = conns_view(wf.connections@);
            run_order(ids, cs) is Ok <==> (first_dangling(ids, cs, cs.len()) is None && distinct_ids(ids)
                && !has_cycle(run_edges(ids, cs, cs.len())))
        }),
{
    let ids = ids_of(wf.knots@);
    let cs = conns_view(wf.connections@);
    if first_dangling(ids, cs, cs.len()) is None && distinct_ids(ids) {
        let n = ids.len();
        let es = run_edges(ids, cs, cs.len());
        lemma_run_edges_within(ids, cs, cs.len());
        lemma_start_queue_exists(ids, es);
        lemma_kahn(n, es, start_queue(ids, es));
        let r = kahn(n, es, start_queue(ids, es));
        lemma_kahn_acyclic(n, es, r.0, r.1);
    }
}

} // verus!
