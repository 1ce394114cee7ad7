//! Directed graphs on the nodes `0..n`, given as a list of edges, and
//! Kahn's algorithm over them: nodes leave a first-in first-out queue, and a
//! node joins the queue once every edge into it has been taken.
use vstd::prelude::*;

verus! {

/// Every edge joins two nodes below `n`.
pub open spec fn edges_within(n: nat, es: Seq<(usize, usize)>) -> bool {
    forall|i: int| 0 <= i < es.len() ==> (#[trigger] es[i]).0 < n && es[i].1 < n
}

/// The targets of the edges that leave `u`, in edge order.
pub open spec fn targets_of(es: Seq<(usize, usize)>, u: usize) -> Seq<usize>
    decreases es.len(),
{
    if es.len() == 0 {
        Seq::empty()
    } else {
        let t = targets_of(es.drop_last(), u);
        if es.last().0 == u {
            t.push(es.last().1)
        } else {
            t
        }
    }
}

/// The number of edges that enter `v` from a node not in `done`.
pub open spec fn live_in(es: Seq<(usize, usize)>, v: usize, done: Seq<usize>) -> nat
    decreases es.len(),
{
    if es.len() == 0 {
        0
    } else {
        live_in(es.drop_last(), v, done) + if es.last().1 == v && !done.contains(es.last().0) {
            1nat
        } else {
            0nat
        }
    }
}

/// How many times `v` occurs in `s`.
pub open spec fn occurrences(s: Seq<usize>, v: usize) -> nat
    decreases s.len(),
{
    if s.len() == 0 {
        0
    } else {
        occurrences(s.drop_last(), v) + if s.last() == v {
            1nat
        } else {
            0nat
        }
    }
}

/// The out-lists of the nodes `0..n`.
pub open spec fn adjacency(n: nat, es: Seq<(usize, usize)>) -> Seq<Seq<usize>> {
    Seq::new(n, |u: int| targets_of(es, u as usize))
}

/// The in-degrees of the nodes `0..n`.
pub open spec fn in_degrees(n: nat, es: Seq<(usize, usize)>) -> Seq<usize> {
    Seq::new(n, |v: int| live_in(es, v as usize, Seq::empty()) as usize)
}

/// Takes the edges from one node to `ts`, in order: each lowers the count of
/// its target, and a target whose count reaches zero joins the queue.
pub open spec fn relax(q: Seq<usize>, d: Seq<usize>, ts: Seq<usize>) -> (Seq<usize>, Seq<usize>)
    decreases ts.len(),
{
    if ts.len() == 0 {
        (q, d)
    } else {
        let v = ts[0];
        let d2 = d.update(v as int, (d[v as int] - 1) as usize);
        let q2 = if d2[v as int] == 0 {
            q.push(v)
        } else {
            q
        };
        relax(q2, d2, ts.drop_first())
    }
}

/// Kahn's loop from queue `q`, of which the first `head` nodes are done, and
/// counts `d`: at most `fuel` more nodes are taken from the queue.
pub open spec fn kahn_loop(
    adj: Seq<Seq<usize>>,
    q: Seq<usize>,
    head: nat,
    d: Seq<usize>,
    fuel: nat,
) -> (Seq<usize>, Seq<usize>)
    decreases fuel,
{
    if fuel == 0 || head >= q.len() {
        (q, d)
    } else {
        let r = relax(q, d, adj[q[head as int] as int]);
        kahn_loop(adj, r.0, head + 1, r.1, (fuel - 1) as nat)
    }
}

/// The order in which Kahn's algorithm takes the nodes, starting from the
/// queue `init`, and the counts of edges left into each node at the end.
pub open spec fn kahn(n: nat, es: Seq<(usize, usize)>, init: Seq<usize>) -> (Seq<usize>, Seq<usize>) {
    kahn_loop(adjacency(n, es), init, 0, in_degrees(n, es), n)
}

/// `init` holds each node without incoming edges once, and nothing else.
pub open spec fn sources_queue(n: nat, es: Seq<(usize, usize)>, init: Seq<usize>) -> bool {
    &&& init.no_duplicates()
    &&& forall|i: int| 0 <= i < init.len() ==> (#[trigger] init[i]) < n
    &&& forall|v: usize| v < n ==> (init.contains(v) <==> live_in(es, v, Seq::empty()) == 0)
}

/// There is an edge from `u` to `v`.
pub open spec fn is_edge(es: Seq<(usize, usize)>, u: usize, v: usize) -> bool {
    exists|j: int| 0 <= j < es.len() && es[j] == (u, v)
}

/// `w` follows edges from its first node to its last.
pub open spec fn is_walk(es: Seq<(usize, usize)>, w: Seq<usize>) -> bool {
    forall|i: int| 0 <= i < w.len() - 1 ==> is_edge(es, #[trigger] w[i], w[i + 1])
}

/// Some walk of at least one edge comes back to where it started.
pub open spec fn has_cycle(es: Seq<(usize, usize)>) -> bool {
    exists|w: Seq<usize>| w.len() >= 2 && is_walk(es, w) && w[0] == w.last()
}

// ---------------------------------------------------------------------------
// Counting lemmas
// ---------------------------------------------------------------------------

proof fn lemma_live_in_bound(es: Seq<(usize, usize)>, v: usize, done: Seq<usize>)
    ensures
        live_in(es, v, done) <= es.len(),
    decreases es.len(),
{
    if es.len() > 0 {
        lemma_live_in_bound(es.drop_last(), v, done);
    }
}

/// Taking node `u` out removes exactly the edges from `u`.
proof fn lemma_live_in_take(es: Seq<(usize, usize)>, v: usize, done: Seq<usize>, u: usize)
    requires
        !done.contains(u),
    ensures
        live_in(es, v, done) == occurrences(targets_of(es, u), v) + live_in(es, v, done.push(u)),
    decreases es.len(),
{
    if es.len() > 0 {
        lemma_live_in_take(es.drop_last(), v, done, u);
        let e = es.last();
        assert(done.push(u).contains(e.0) <==> (done.contains(e.0) || e.0 == u)) by {
            if e.0 == u {
                assert(done.push(u)[done.len() as int] == u);
            }
            if done.push(u).contains(e.0) {
                let k = choose|k: int| 0 <= k < done.push(u).len() && done.push(u)[k] == e.0;
                if k < done.len() {
                    assert(done[k] == e.0);
                }
            }
            if done.contains(e.0) {
                let k = choose|k: int| 0 <= k < done.len() && done[k] == e.0;
                assert(done.push(u)[k] == e.0);
            }
        }
        let t = targets_of(es.drop_last(), u);
        if e.0 == u {
            assert(targets_of(es, u) == t.push(e.1));
            assert(t.push(e.1).drop_last() == t);
        }
    }
}

/// With no edge left into `v`, every edge into `v` comes from `done`.
proof fn lemma_live_in_zero(es: Seq<(usize, usize)>, v: usize, done: Seq<usize>, j: int)
    requires
        live_in(es, v, done) == 0,
        0 <= j < es.len(),
        es[j].1 == v,
    ensures
        done.contains(es[j].0),
    decreases es.len(),
{
    if j < es.len() - 1 {
        lemma_live_in_zero(es.drop_last(), v, done, j);
        assert(es.drop_last()[j] == es[j]);
    }
}

/// With an edge left into `v`, one of them comes from outside `done`.
proof fn lemma_live_in_some(es: Seq<(usize, usize)>, v: usize, done: Seq<usize>) -> (j: int)
    requires
        live_in(es, v, done) > 0,
    ensures
        0 <= j < es.len(),
        es[j].1 == v,
        !done.contains(es[j].0),
    decreases es.len(),
{
    let e = es.last();
    if e.1 == v && !done.contains(e.0) {
        es.len() - 1
    } else {
        let j = lemma_live_in_some(es.drop_last(), v, done);
        assert(es.drop_last()[j] == es[j]);
        j
    }
}

proof fn lemma_occurrences_take(s: Seq<usize>, v: usize, k: int)
    requires
        0 <= k < s.len(),
    ensures
        occurrences(s.take(k + 1), v) == occurrences(s.take(k), v) + if s[k] == v {
            1nat
        } else {
            0nat
        },
{
    assert(s.take(k + 1).drop_last() == s.take(k));
}

proof fn lemma_occurrences_split(s: Seq<usize>, v: usize, k: int)
    requires
        0 <= k <= s.len(),
    ensures
        occurrences(s.take(k), v) + occurrences(s.skip(k), v) == occurrences(s, v),
    decreases s.len() - k,
{
    if k < s.len() {
        lemma_occurrences_split(s, v, k + 1);
        lemma_occurrences_take(s, v, k);
        lemma_occurrences_front(s.skip(k), v);
        assert(s.skip(k).drop_first() == s.skip(k + 1));
    } else {
        assert(s.take(k) == s);
        assert(s.skip(k).len() == 0);
    }
}

proof fn lemma_occurrences_front(s: Seq<usize>, v: usize)
    requires
        s.len() > 0,
    ensures
        occurrences(s, v) == occurrences(s.drop_first(), v) + if s[0] == v {
            1nat
        } else {
            0nat
        },
    decreases s.len(),
{
    if s.len() > 1 {
        lemma_occurrences_front(s.drop_last(), v);
        assert(s.drop_last().drop_first() == s.drop_first().drop_last());
        assert(s.drop_first().last() == s.last());
        assert(s.drop_last()[0] == s[0]);
        let a: nat = if s.last() == v { 1 } else { 0 };
        let b: nat = if s[0] == v { 1 } else { 0 };
        assert(occurrences(s, v) == occurrences(s.drop_last(), v) + a);
        assert(occurrences(s.drop_first(), v) == occurrences(s.drop_first().drop_last(), v) + a);
        assert(occurrences(s.drop_last(), v) == occurrences(s.drop_last().drop_first(), v) + b);
        assert(occurrences(s, v) == occurrences(s.drop_first(), v) + b);
    } else {
        assert(s.drop_first().len() == 0);
        assert(s.drop_last().len() == 0);
        assert(s.last() == s[0]);
        assert(occurrences(s.drop_first(), v) == 0);
        assert(occurrences(s.drop_last(), v) == 0);
    }
}

/// Every target in the out-list of `u` is a node below `n`.
proof fn lemma_targets_within(n: nat, es: Seq<(usize, usize)>, u: usize)
    requires
        edges_within(n, es),
    ensures
        forall|i: int| 0 <= i < targets_of(es, u).len() ==> (#[trigger] targets_of(es, u)[i]) < n,
    decreases es.len(),
{
    if es.len() > 0 {
        let t = targets_of(es.drop_last(), u);
        assert(edges_within(n, es.drop_last())) by {
            assert forall|i: int| 0 <= i < es.drop_last().len() implies (#[trigger] es.drop_last()[i]).0 < n
                && es.drop_last()[i].1 < n by {
                assert(es.drop_last()[i] == es[i]);
            }
        }
        lemma_targets_within(n, es.drop_last(), u);
        assert(es[es.len() - 1] == es.last());
    }
}

/// The targets of `u` are exactly the edges from `u`.
proof fn lemma_targets_edge(es: Seq<(usize, usize)>, u: usize, i: int)
    requires
        0 <= i < targets_of(es, u).len(),
    ensures
        is_edge(es, u, targets_of(es, u)[i]),
    decreases es.len(),
{
    let t = targets_of(es.drop_last(), u);
    if es.last().0 == u && i == t.len() {
        assert(es[es.len() - 1] == (u, targets_of(es, u)[i]));
    } else {
        lemma_targets_edge(es.drop_last(), u, i);
        let j = choose|j: int| 0 <= j < es.drop_last().len() && es.drop_last()[j] == (u, t[i]);
        assert(es[j] == (u, targets_of(es, u)[i]));
    }
}

// ---------------------------------------------------------------------------
// The state of Kahn's loop
// ---------------------------------------------------------------------------

/// The queue holds distinct nodes, every edge into a queued node comes from
/// a node before it in the queue, a node is queued exactly when no edge is
/// left into it, and `d` counts the edges into each node from nodes that are
/// not yet done (the first `head` of the queue are done).
pub open spec fn kahn_state(n: nat, es: Seq<(usize, usize)>, q: Seq<usize>, head: nat, d: Seq<usize>) -> bool {
    &&& head <= q.len()
    &&& q.no_duplicates()
    &&& forall|i: int| 0 <= i < q.len() ==> (#[trigger] q[i]) < n
    &&& d.len() == n
    &&& forall|v: usize| v < n ==> (#[trigger] d[v as int]) == live_in(es, v, q.take(head as int))
    &&& forall|v: usize| v < n ==> (q.contains(v) <==> d[v as int] == 0)
    &&& forall|i: int, j: int|
        0 <= i < q.len() && 0 <= j < es.len() && (#[trigger] es[j]).1 == #[trigger] q[i] ==> q.take(i).contains(
            es[j].0,
        )
}

/// The state part-way through the out-list of the node at `head`, of which
/// the first `k` targets are taken.
pub open spec fn relax_state(
    n: nat,
    es: Seq<(usize, usize)>,
    q: Seq<usize>,
    head: nat,
    d: Seq<usize>,
    k: nat,
) -> bool {
    let ts = targets_of(es, q[head as int]);
    &&& head < q.len()
    &&& k <= ts.len()
    &&& q.no_duplicates()
    &&& forall|i: int| 0 <= i < q.len() ==> (#[trigger] q[i]) < n
    &&& d.len() == n
    &&& forall|v: usize|
        v < n ==> (#[trigger] d[v as int]) + occurrences(ts.take(k as int), v) == live_in(
            es,
            v,
            q.take(head as int),
        )
    &&& forall|v: usize| v < n ==> (q.contains(v) <==> d[v as int] == 0)
    &&& forall|i: int, j: int|
        0 <= i < q.len() && 0 <= j < es.len() && (#[trigger] es[j]).1 == #[trigger] q[i] ==> q.take(i).contains(
            es[j].0,
        )
}

/// Distinct nodes below `n` number at most `n`.
pub proof fn lemma_distinct_bound(q: Seq<usize>, n: nat)
    requires
        q.no_duplicates(),
        forall|i: int| 0 <= i < q.len() ==> (#[trigger] q[i]) < n,
    ensures
        q.len() <= n,
{
    let r = Set::new(|x: usize| x < n);
    lemma_usize_range(n);
    q.unique_seq_to_set();
    assert(q.to_set().subset_of(r)) by {
        assert forall|x: usize| q.to_set().contains(x) implies r.contains(x) by {
            let i = choose|i: int| 0 <= i < q.len() && q[i] == x;
        }
    }
    vstd::set_lib::lemma_len_subset(q.to_set(), r);
}

/// With as many distinct nodes below `n` as there are nodes, every node is
/// among them.
pub proof fn lemma_distinct_full(q: Seq<usize>, n: nat, v: usize)
    requires
        q.no_duplicates(),
        forall|i: int| 0 <= i < q.len() ==> (#[trigger] q[i]) < n,
        q.len() == n,
        v < n,
    ensures
        q.contains(v),
{
    let r = Set::new(|x: usize| x < n);
    lemma_usize_range(n);
    q.unique_seq_to_set();
    assert(q.to_set().subset_of(r)) by {
        assert forall|x: usize| q.to_set().contains(x) implies r.contains(x) by {
            let i = choose|i: int| 0 <= i < q.len() && q[i] == x;
        }
    }
    vstd::set_lib::lemma_len_subset(q.to_set(), r);
    vstd::set_lib::lemma_subset_equality(q.to_set(), r);
    assert(r.contains(v));
}

proof fn lemma_usize_range(n: nat)
    ensures
        Set::new(|x: usize| x < n).finite(),
        Set::new(|x: usize| x < n).len() == if n <= usize::MAX + 1 {
            n
        } else {
            (usize::MAX + 1) as nat
        },
    decreases n,
{
    if n == 0 {
        assert(Set::new(|x: usize| x < n) =~= Set::empty());
    } else {
        lemma_usize_range((n - 1) as nat);
        if n <= usize::MAX + 1 {
            let x = (n - 1) as usize;
            assert(Set::new(|y: usize| y < (n - 1) as nat).insert(x) =~= Set::new(|y: usize| y < n));
        } else {
            assert(Set::new(|y: usize| y < (n - 1) as nat) =~= Set::new(|y: usize| y < n));
        }
    }
}

proof fn lemma_take_contains(q: Seq<usize>, a: int, b: int, x: usize)
    requires
        0 <= a <= b <= q.len(),
        q.take(a).contains(x),
    ensures
        q.take(b).contains(x),
{
    let i = choose|i: int| 0 <= i < a && q.take(a)[i] == x;
    assert(q.take(b)[i] == x);
}

/// The state holds before the first node is taken.
pub proof fn lemma_kahn_start(n: nat, es: Seq<(usize, usize)>, init: Seq<usize>)
    requires
        edges_within(n, es),
        sources_queue(n, es, init),
        es.len() <= usize::MAX,
    ensures
        kahn_state(n, es, init, 0, in_degrees(n, es)),
{
    let d = in_degrees(n, es);
    assert(init.take(0) =~= Seq::<usize>::empty());
    assert forall|v: usize| v < n implies (#[trigger] d[v as int]) == live_in(es, v, init.take(0)) by {
        lemma_live_in_bound(es, v, Seq::empty());
    }
    assert forall|i: int, j: int|
        0 <= i < init.len() && 0 <= j < es.len() && (#[trigger] es[j]).1 == #[trigger] init[i] implies init.take(
            i,
        ).contains(es[j].0) by {
        assert(init.contains(init[i]));
        lemma_live_in_zero(es, init[i], Seq::empty(), j);
    }
}

/// One target taken: the counts and the queue move as `relax` says, and
/// the state carries over to the next target.
proof fn lemma_relax_step(n: nat, es: Seq<(usize, usize)>, q: Seq<usize>, head: nat, d: Seq<usize>, k: nat)
    requires
        relax_state(n, es, q, head, d, k),
        edges_within(n, es),
        k < targets_of(es, q[head as int]).len(),
    ensures
        ({
            let ts = targets_of(es, q[head as int]);
            let v = ts[k as int];
            let d2 = d.update(v as int, (d[v as int] - 1) as usize);
            let q2 = if d2[v as int] == 0 {
                q.push(v)
            } else {
                q
            };
            &&& v < n
            &&& d[v as int] >= 1
            &&& relax_state(n, es, q2, head, d2, k + 1)
            &&& q2[head as int] == q[head as int]
            &&& relax(q2, d2, ts.skip((k + 1) as int)) == relax(q, d, ts.skip(k as int))
        }),
{
    let u = q[head as int];
    let ts = targets_of(es, u);
    let v = ts[k as int];
    let d2 = d.update(v as int, (d[v as int] - 1) as usize);
    let q2 = if d2[v as int] == 0 {
        q.push(v)
    } else {
        q
    };
    lemma_targets_within(n, es, u);
    let p = q.take(head as int);
    assert(!p.contains(u)) by {
        if p.contains(u) {
            let i = choose|i: int| 0 <= i < p.len() && p[i] == u;
            assert(q[i] == q[head as int]);
        }
    }
    assert(q.take((head + 1) as int) =~= p.push(u));
    lemma_live_in_take(es, v, p, u);
    lemma_occurrences_take(ts, v, k as int);
    lemma_occurrences_split(ts, v, (k + 1) as int);
    assert(d[v as int] >= 1);
    assert forall|x: usize| x < n implies (#[trigger] d2[x as int]) + occurrences(ts.take((k + 1) as int), x) == live_in(
        es,
        x,
        q2.take(head as int),
    ) by {
        lemma_occurrences_take(ts, x, k as int);
        assert(q2.take(head as int) =~= p);
    }
    assert(!q.contains(v));
    assert forall|x: usize| x < n implies (q2.contains(x) <==> d2[x as int] == 0) by {
        if d2[v as int] == 0 {
            if q2.contains(x) && x != v {
                let i = choose|i: int| 0 <= i < q2.len() && q2[i] == x;
                assert(q[i] == x);
            }
            if q.contains(x) {
                let i = choose|i: int| 0 <= i < q.len() && q[i] == x;
                assert(q2[i] == x);
            }
            if x == v {
                assert(q2[q.len() as int] == v);
            }
        }
    }
    assert(q2.no_duplicates()) by {
        if d2[v as int] == 0 {
            assert forall|i: int, j: int| 0 <= i < q2.len() && 0 <= j < q2.len() && i != j implies q2[i]
                != q2[j] by {
                if i == q.len() {
                    assert(q.contains(q[j]));
                } else if j == q.len() {
                    assert(q.contains(q[i]));
                }
            }
        }
    }
    assert forall|i: int, j: int|
        0 <= i < q2.len() && 0 <= j < es.len() && (#[trigger] es[j]).1 == #[trigger] q2[i] implies q2.take(
            i,
        ).contains(es[j].0) by {
        if i < q.len() {
            assert(q2.take(i) =~= q.take(i));
        } else {
            assert(live_in(es, v, q.take((head + 1) as int)) == 0);
            lemma_live_in_zero(es, v, q.take((head + 1) as int), j);
            assert(q2.take(i) =~= q);
            assert(q.take(q.len() as int) =~= q);
            lemma_take_contains(q, (head + 1) as int, q.len() as int, es[j].0);
        }
    }
    assert(ts.skip(k as int)[0] == v);
    assert(ts.skip(k as int).drop_first() =~= ts.skip((k + 1) as int));
}

/// The out-lists and the in-degrees of the nodes `0..n`.
fn build(n: usize, edges: &Vec<(usize, usize)>) -> (r: (Vec<Vec<usize>>, Vec<usize>))
    requires
        edges_within(n as nat, edges@),
    ensures
        r.0@.len() == n,
        forall|u: usize| u < n ==> (#[trigger] r.0@[u as int])@ == targets_of(edges@, u),
        r.1@ == in_degrees(n as nat, edges@),
{
    let mut adj: Vec<Vec<usize>> = Vec::new();
    let mut deg: Vec<usize> = Vec::new();
    let mut u: usize = 0;
    while u < n
        invariant
            u <= n,
            adj@.len() == u,
            deg@.len() == u,
            forall|i: int| 0 <= i < u ==> (#[trigger] adj@[i])@ == Seq::<usize>::empty(),
            forall|i: int| 0 <= i < u ==> #[trigger] deg@[i] == 0,
        decreases n - u,
    {
        adj.push(Vec::new());
        deg.push(0);
        u = u + 1;
    }
    let ghost es = edges@;
    let mut j: usize = 0;
    while j < edges.len()
        invariant
            es == edges@,
            edges_within(n as nat, es),
            j <= es.len(),
            adj@.len() == n,
            deg@.len() == n,
            forall|x: usize| x < n ==> (#[trigger] adj@[x as int])@ == targets_of(es.take(j as int), x),
            forall|x: usize| x < n ==> #[trigger] deg@[x as int] == live_in(es.take(j as int), x, Seq::empty()),
        decreases es.len() - j,
    {
        let (a, b) = edges[j];
        assert(es[j as int].0 < n && es[j as int].1 < n);
        proof {
            lemma_live_in_bound(es.take(j as int), b, Seq::empty());
        }
        adj[a].push(b);
        let nd = deg[b] + 1;
        deg.set(b, nd);
        proof {
            assert(es.take(j + 1).drop_last() =~= es.take(j as int));
            assert(es.take(j + 1).last() == es[j as int]);
        }
        j = j + 1;
    }
    assert(es.take(es.len() as int) =~= es);
    assert(deg@ =~= in_degrees(n as nat, es)) by {
        assert forall|i: int| 0 <= i < n implies deg@[i] == in_degrees(n as nat, es)[i] by {
            let x = i as usize;
            assert(deg@[x as int] == live_in(es, x, Seq::empty()));
        }
    }
    (adj, deg)
}

/// Runs Kahn's algorithm from the queue `init` of the nodes without incoming
/// edges: the order in which the nodes leave the queue, and the number of
/// edges left into each node, which is positive for exactly the nodes that
/// never left it.
pub fn kahn_order(n: usize, edges: &Vec<(usize, usize)>, init: Vec<usize>) -> (r: (Vec<usize>, Vec<usize>))
    requires
        edges_within(n as nat, edges@),
        sources_queue(n as nat, edges@, init@),
    ensures
        (r.0@, r.1@) == kahn(n as nat, edges@, init@),
        kahn_state(n as nat, edges@, r.0@, r.0@.len(), r.1@),
{
    let ghost es = edges@;
    let (adj, mut d) = build(n, edges);
    let mut q = init;
    let mut head: usize = 0;
    proof {
        assert(es.len() == edges.len());
        lemma_kahn_start(n as nat, es, init@);
    }
    while head < q.len()
        invariant
            es == edges@,
            edges_within(n as nat, es),
            adj@.len() == n,
            forall|u: usize| u < n ==> (#[trigger] adj@[u as int])@ == targets_of(es, u),
            kahn_state(n as nat, es, q@, head as nat, d@),
            head <= n,
            kahn_loop(adjacency(n as nat, es), q@, head as nat, d@, (n - head) as nat) == kahn(n as nat, es, init@),
        decreases n - head,
    {
        proof {
            lemma_distinct_bound(q@, n as nat);
        }
        let u = q[head];
        let ts = &adj[u];
        let ghost q0 = q@;
        let ghost d0 = d@;
        assert(ts@ == targets_of(es, u));
        assert(ts@.take(0) =~= Seq::<usize>::empty());
        assert(ts@.skip(0) =~= ts@);
        let mut k: usize = 0;
        while k < ts.len()
            invariant
                es == edges@,
                edges_within(n as nat, es),
                ts@ == targets_of(es, u),
                q@[head as int] == u,
                relax_state(n as nat, es, q@, head as nat, d@, k as nat),
                relax(q@, d@, ts@.skip(k as int)) == relax(q0, d0, ts@),
                q0.len() <= q@.len(),
                q@.take(head as int) == q0.take(head as int),
            decreases ts@.len() - k,
        {
            proof {
                lemma_relax_step(n as nat, es, q@, head as nat, d@, k as nat);
            }
            let v = ts[k];
            let nd = d[v] - 1;
            d.set(v, nd);
            if nd == 0 {
                let ghost qb = q@;
                q.push(v);
                assert(q@.take(head as int) =~= qb.take(head as int));
            }
            k = k + 1;
        }
        proof {
            assert(ts@.skip(k as int) =~= Seq::<usize>::empty());
            assert(u < n);
            assert(adjacency(n as nat, es)[u as int] == targets_of(es, u));
            lemma_relax_done(n as nat, es, q@, head as nat, d@);
        }
        head = head + 1;
    }
    (q, d)
}

// ---------------------------------------------------------------------------
// What the finished loop tells of the graph
// ---------------------------------------------------------------------------

/// Walking back from the last node of a walk through the finished order
/// moves at least one place towards the front per edge.
proof fn lemma_walk_positions(n: nat, es: Seq<(usize, usize)>, q: Seq<usize>, d: Seq<usize>, w: Seq<usize>, a: int)
    requires
        kahn_state(n, es, q, q.len(), d),
        w.len() >= 1,
        is_walk(es, w),
        0 <= a < q.len(),
        q[a] == w.last(),
    ensures
        exists|b: int| 0 <= b <= a - (w.len() - 1) && q[b] == w[0],
    decreases w.len(),
{
    if w.len() == 1 {
        assert(q[a] == w[0]);
    } else {
        let m = w.len() - 2;
        assert(is_edge(es, w[m], w[m + 1]));
        let j = choose|j: int| 0 <= j < es.len() && es[j] == (w[m], w[m + 1]);
        assert(w[m + 1] == w.last());
        assert(q.take(a).contains(es[j].0));
        let c = choose|c: int| 0 <= c < a && q.take(a)[c] == es[j].0;
        let w2 = w.drop_last();
        assert(is_walk(es, w2)) by {
            assert forall|i: int| 0 <= i < w2.len() - 1 implies is_edge(es, #[trigger] w2[i], w2[i + 1]) by {
                assert(is_edge(es, w[i], w[i + 1]));
            }
        }
        assert(w2.last() == w[m]);
        lemma_walk_positions(n, es, q, d, w2, c);
        let b = choose|b: int| 0 <= b <= c - (w2.len() - 1) && q[b] == w2[0];
        assert(q[b] == w[0]);
    }
}

/// From a node that never left the queue, a walk of `k` edges ends there,
/// through nodes that never left it either.
proof fn lemma_back_walk(n: nat, es: Seq<(usize, usize)>, q: Seq<usize>, d: Seq<usize>, v: usize, k: nat) -> (w: Seq<usize>)
    requires
        kahn_state(n, es, q, q.len(), d),
        edges_within(n, es),
        v < n,
        !q.contains(v),
    ensures
        w.len() == k + 1,
        w.last() == v,
        is_walk(es, w),
        forall|i: int| 0 <= i < w.len() ==> (#[trigger] w[i]) < n && !q.contains(w[i]),
    decreases k,
{
    if k == 0 {
        seq![v]
    } else {
        assert(q.take(q.len() as int) =~= q);
        assert(d[v as int] > 0);
        let j = lemma_live_in_some(es, v, q);
        let u = es[j].0;
        assert(u < n);
        let w1 = lemma_back_walk(n, es, q, d, u, (k - 1) as nat);
        let w = w1.push(v);
        assert forall|i: int| 0 <= i < w.len() - 1 implies is_edge(es, #[trigger] w[i], w[i + 1]) by {
            if i < w1.len() - 1 {
                assert(is_edge(es, w1[i], w1[i + 1]));
            } else {
                assert(w[i] == u && w[i + 1] == v);
                assert(es[j] == (u, v));
            }
        }
        assert forall|i: int| 0 <= i < w.len() implies (#[trigger] w[i]) < n && !q.contains(w[i]) by {
            if i < w1.len() {
                assert(w[i] == w1[i]);
            }
        }
        w
    }
}

/// Kahn's algorithm takes every node exactly when the graph has no cycle.
pub proof fn lemma_kahn_acyclic(n: nat, es: Seq<(usize, usize)>, q: Seq<usize>, d: Seq<usize>)
    requires
        kahn_state(n, es, q, q.len(), d),
        edges_within(n, es),
        n <= usize::MAX,
    ensures
        q.len() == n <==> !has_cycle(es),
{
    lemma_distinct_bound(q, n);
    if q.len() == n {
        if has_cycle(es) {
            let w = choose|w: Seq<usize>| w.len() >= 2 && is_walk(es, w) && w[0] == w.last();
            let m = w.len() - 2;
            assert(is_edge(es, w[m], w[m + 1]));
            let j = choose|j: int| 0 <= j < es.len() && es[j] == (w[m], w[m + 1]);
            assert(w.last() < n);
            lemma_distinct_full(q, n, w.last());
            let a = choose|a: int| 0 <= a < q.len() && q[a] == w.last();
            lemma_walk_positions(n, es, q, d, w, a);
            let b = choose|b: int| 0 <= b <= a - (w.len() - 1) && q[b] == w[0];
            assert(q[a] == q[b]);
        }
    } else {
        let v = lemma_missing_node(q, n);
        let w = lemma_back_walk(n, es, q, d, v, n);
        if w.no_duplicates() {
            lemma_distinct_bound(w, n);
        }
        let (i, k) = choose|i: int, k: int| 0 <= i < w.len() && 0 <= k < w.len() && i != k && w[i] == w[k];
        let lo = if i < k { i } else { k };
        let hi = if i < k { k } else { i };
        let c = w.subrange(lo, hi + 1);
        assert forall|t: int| 0 <= t < c.len() - 1 implies is_edge(es, #[trigger] c[t], c[t + 1]) by {
            assert(c[t] == w[lo + t] && c[t + 1] == w[lo + t + 1]);
            assert(is_edge(es, w[lo + t], w[lo + t + 1]));
        }
        assert(c[0] == c.last());
        assert(c.len() >= 2 && is_walk(es, c) && c[0] == c.last());
    }
}

/// Fewer distinct nodes than `n` leave some node below `n` out.
proof fn lemma_missing_node(q: Seq<usize>, n: nat) -> (v: usize)
    requires
        q.no_duplicates(),
        forall|i: int| 0 <= i < q.len() ==> (#[trigger] q[i]) < n,
        q.len() < n,
        n <= usize::MAX,
    ensures
        v < n,
        !q.contains(v),
{
    let r = Set::new(|x: usize| x < n);
    lemma_usize_range(n);
    q.unique_seq_to_set();
    if forall|x: usize| x < n ==> q.contains(x) {
        assert(r.subset_of(q.to_set())) by {
            assert forall|x: usize| r.contains(x) implies q.to_set().contains(x) by {
                assert(q.contains(x));
            }
        }
        vstd::set_lib::lemma_len_subset(r, q.to_set());
        assert(false);
    }
    choose|x: usize| x < n && !q.contains(x)
}

/// In the finished order every edge into a taken node comes from a node
/// taken before it.
pub proof fn lemma_kahn_edge_order(n: nat, es: Seq<(usize, usize)>, q: Seq<usize>, d: Seq<usize>, j: int, b: int)
    requires
        kahn_state(n, es, q, q.len(), d),
        0 <= j < es.len(),
        0 <= b < q.len(),
        q[b] == es[j].1,
    ensures
        exists|a: int| 0 <= a < b && q[a] == es[j].0,
{
    assert(q.take(b).contains(es[j].0));
    let a = choose|a: int| 0 <= a < b && q.take(b)[a] == es[j].0;
    assert(q[a] == es[j].0);
}

/// The nodes below `k` without incoming edges, in increasing order.
pub open spec fn sources_upto(es: Seq<(usize, usize)>, k: nat) -> Seq<usize>
    decreases k,
{
    if k == 0 {
        Seq::empty()
    } else {
        let s = sources_upto(es, (k - 1) as nat);
        if live_in(es, (k - 1) as usize, Seq::empty()) == 0 {
            s.push((k - 1) as usize)
        } else {
            s
        }
    }
}

/// The in-degrees of the nodes `0..n`.
pub fn degrees(n: usize, edges: &Vec<(usize, usize)>) -> (d: Vec<usize>)
    requires
        edges_within(n as nat, edges@),
    ensures
        d@ == in_degrees(n as nat, edges@),
{
    let (_, d) = build(n, edges);
    d
}

/// The nodes without incoming edges, in increasing order: a queue that
/// Kahn's algorithm can start from.
pub fn sources(n: usize, edges: &Vec<(usize, usize)>) -> (init: Vec<usize>)
    requires
        edges_within(n as nat, edges@),
    ensures
        init@ == sources_upto(edges@, n as nat),
        sources_queue(n as nat, edges@, init@),
{
    let ghost es = edges@;
    let deg = degrees(n, edges);
    let mut init: Vec<usize> = Vec::new();
    let mut v: usize = 0;
    while v < n
        invariant
            es == edges@,
            es.len() == edges.len(),
            v <= n,
            deg@ == in_degrees(n as nat, es),
            init@ == sources_upto(es, v as nat),
            forall|i: int, j: int| 0 <= i < j < init@.len() ==> init@[i] < init@[j],
            forall|i: int| 0 <= i < init@.len() ==> (#[trigger] init@[i]) < v,
            forall|x: usize| x < v ==> (init@.contains(x) <==> live_in(es, x, Seq::empty()) == 0),
        decreases n - v,
    {
        proof {
            lemma_live_in_bound(es, v, Seq::empty());
        }
        assert(deg@[v as int] == live_in(es, v, Seq::empty()));
        if deg[v] == 0 {
            let ghost before = init@;
            init.push(v);
            proof {
                assert forall|x: usize| x < v + 1 implies (init@.contains(x) <==> live_in(es, x, Seq::empty())
                    == 0) by {
                    if x < v {
                        if init@.contains(x) {
                            let i = choose|i: int| 0 <= i < init@.len() && init@[i] == x;
                            assert(i < before.len());
                            assert(before[i] == x);
                        }
                        if before.contains(x) {
                            let i = choose|i: int| 0 <= i < before.len() && before[i] == x;
                            assert(init@[i] == x);
                        }
                    } else {
                        assert(init@[before.len() as int] == v);
                    }
                }
            }
        } else {
            proof {
                assert forall|x: usize| x < v + 1 implies (init@.contains(x) <==> live_in(es, x, Seq::empty())
                    == 0) by {
                    if x == v && init@.contains(x) {
                        let i = choose|i: int| 0 <= i < init@.len() && init@[i] == x;
                    }
                }
            }
        }
        v = v + 1;
    }
    assert(init@.no_duplicates()) by {
        assert forall|i: int, j: int| 0 <= i < init@.len() && 0 <= j < init@.len() && i != j implies init@[i]
            != init@[j] by {
            if i < j {
                assert(init@[i] < init@[j]);
            } else {
                assert(init@[j] < init@[i]);
            }
        }
    }
    init
}

/// When the whole out-list of the node at `head` is taken, that node is done.
proof fn lemma_relax_done(n: nat, es: Seq<(usize, usize)>, q: Seq<usize>, head: nat, d: Seq<usize>)
    requires
        relax_state(n, es, q, head, d, targets_of(es, q[head as int]).len()),
    ensures
        kahn_state(n, es, q, head + 1, d),
{
    let u = q[head as int];
    let ts = targets_of(es, u);
    let p = q.take(head as int);
    assert(!p.contains(u)) by {
        if p.contains(u) {
            let i = choose|i: int| 0 <= i < p.len() && p[i] == u;
            assert(q[i] == q[head as int]);
        }
    }
    assert(q.take((head + 1) as int) =~= p.push(u));
    assert forall|x: usize| x < n implies (#[trigger] d[x as int]) == live_in(es, x, q.take((head + 1) as int)) by {
        lemma_live_in_take(es, x, p, u);
        assert(ts.take(ts.len() as int) =~= ts);
    }
}

/// Taking the rest of an out-list keeps the state.
proof fn lemma_relax_all(n: nat, es: Seq<(usize, usize)>, q: Seq<usize>, head: nat, d: Seq<usize>, k: nat)
    requires
        relax_state(n, es, q, head, d, k),
        edges_within(n, es),
    ensures
        ({
            let ts = targets_of(es, q[head as int]);
            let r = relax(q, d, ts.skip(k as int));
            &&& r.0[head as int] == q[head as int]
            &&& relax_state(n, es, r.0, head, r.1, ts.len())
        }),
    decreases targets_of(es, q[head as int]).len() - k,
{
    let ts = targets_of(es, q[head as int]);
    if k < ts.len() {
        lemma_relax_step(n, es, q, head, d, k);
        let v = ts[k as int];
        let d2 = d.update(v as int, (d[v as int] - 1) as usize);
        let q2 = if d2[v as int] == 0 {
            q.push(v)
        } else {
            q
        };
        lemma_relax_all(n, es, q2, head, d2, k + 1);
    } else {
        assert(ts.skip(k as int) =~= Seq::<usize>::empty());
    }
}

/// Kahn's loop, given enough fuel, ends in a finished state.
proof fn lemma_kahn_loop(n: nat, es: Seq<(usize, usize)>, q: Seq<usize>, head: nat, d: Seq<usize>, fuel: nat)
    requires
        kahn_state(n, es, q, head, d),
        edges_within(n, es),
        head + fuel >= n,
    ensures
        ({
            let r = kahn_loop(adjacency(n, es), q, head, d, fuel);
            kahn_state(n, es, r.0, r.0.len(), r.1)
        }),
    decreases fuel,
{
    lemma_distinct_bound(q, n);
    if head < q.len() {
        let u = q[head as int];
        assert(u < n);
        assert(adjacency(n, es)[u as int] == targets_of(es, u));
        let ts = targets_of(es, u);
        assert(ts.take(0) =~= Seq::<usize>::empty());
        assert(ts.skip(0) =~= ts);
        assert(relax_state(n, es, q, head, d, 0));
        lemma_relax_all(n, es, q, head, d, 0);
        let r = relax(q, d, ts);
        lemma_relax_done(n, es, r.0, head, r.1);
        lemma_kahn_loop(n, es, r.0, head + 1, r.1, (fuel - 1) as nat);
    }
}

/// The spec of Kahn's algorithm ends in a finished state.
pub proof fn lemma_kahn(n: nat, es: Seq<(usize, usize)>, init: Seq<usize>)
    requires
        edges_within(n, es),
        sources_queue(n, es, init),
        es.len() <= usize::MAX,
    ensures
        kahn_state(n, es, kahn(n, es, init).0, kahn(n, es, init).0.len(), kahn(n, es, init).1),
{
    lemma_kahn_start(n, es, init);
    lemma_kahn_loop(n, es, init, 0, in_degrees(n, es), n);
}

/// The queue that `sources_upto` gives is one Kahn's algorithm can start
/// from.
pub proof fn lemma_sources_upto(es: Seq<(usize, usize)>, n: nat, k: nat)
    requires
        k <= n,
        n <= usize::MAX,
    ensures
        forall|i: int, j: int| 0 <= i < j < sources_upto(es, k).len() ==> sources_upto(es, k)[i] < sources_upto(
            es,
            k,
        )[j],
        forall|i: int| 0 <= i < sources_upto(es, k).len() ==> (#[trigger] sources_upto(es, k)[i]) < k,
        forall|x: usize| x < k ==> (sources_upto(es, k).contains(x) <==> live_in(es, x, Seq::empty()) == 0),
    decreases k,
{
    if k > 0 {
        lemma_sources_upto(es, n, (k - 1) as nat);
        let s = sources_upto(es, (k - 1) as nat);
        let v = (k - 1) as usize;
        let t = sources_upto(es, k);
        assert forall|x: usize| x < k implies (t.contains(x) <==> live_in(es, x, Seq::empty()) == 0) by {
            if t.contains(x) {
                let i = choose|i: int| 0 <= i < t.len() && t[i] == x;
                if i < s.len() {
                    assert(s[i] == x);
                }
            }
            if x < v && s.contains(x) {
                let i = choose|i: int| 0 <= i < s.len() && s[i] == x;
                assert(t[i] == x);
            }
            if x == v && live_in(es, x, Seq::empty()) == 0 {
                assert(t[s.len() as int] == v);
            }
        }
    }
}

/// `sources_upto` over all nodes is a starting queue.
pub proof fn lemma_sources_queue(es: Seq<(usize, usize)>, n: nat)
    requires
        n <= usize::MAX,
    ensures
        sources_queue(n, es, sources_upto(es, n)),
{
    lemma_sources_upto(es, n, n);
    let s = sources_upto(es, n);
    assert forall|i: int, j: int| 0 <= i < s.len() && 0 <= j < s.len() && i != j implies s[i] != s[j] by {
        if i < j {
            assert(s[i] < s[j]);
        } else {
            assert(s[j] < s[i]);
        }
    }
}

} // verus!
