//! A workflow run as a state machine. The caller starts a run and then
//! feeds it events; each step answers with the next action: write lines,
//! wait, read an environment variable, send HTTP requests, run one of the
//! caller's own knots, go on, or finish with the result. The knots run in the order of `engine::run_order`, each
//! on the items its incoming connections delivered.
use vstd::prelude::*;
use crate::engine::{
    dangling, distinct_ids, lemma_first_dangling_prefix, lemma_run_order_valid, run_order,
    run_order_of,
};
use crate::error::{Error, error_text};
use crate::item::{Item, copy_items, items_view};
use crate::json::{Json, JsonValue};
use crate::knot::{Ctx, KnotInstance, Registry, first_index, made_by};
use crate::knots::filter::filter_spec;
use crate::knots::http::{
    HttpCall, HttpFailure, HttpReply, HttpStage, MAX_BODY, body_too_large_message, utf8_len, is_request_for, pairs_view, reply_json, response_item, response_json,
};
use crate::knots::log::log_line;
use crate::knots::resend::{
    email_result, email_result_entries, is_email_request, key_variable, missing_key_message, opt_view,
    send_failure_message,
};
use crate::knots::set::apply_assignments;
use crate::json::entries_insert_all;
use crate::model::Workflow;
use crate::templ::Env;
use crate::text::push_str;
use crate::validate::{conns_view, copy_text, ids_of, kinds_of, last_index_of, lemma_last_index};

verus! {

/// What one knot did in a run.
pub struct RunStep {
    pub knot: String,
    pub kind: String,
    pub status: String,
    pub items: usize,
}

/// The result of a finished run.
pub struct RunResult {
    pub status: String,
    pub steps: Vec<RunStep>,
}

/// What the caller does next for the run.
pub enum Action {
    /// Nothing outside the run: step again.
    Continue,
    /// Write these lines to the log, then step again.
    Print(Vec<String>),
    /// Wait this many milliseconds, then step again.
    Sleep(u64),
    /// Read this environment variable and step with its value.
    ReadEnv(String),
    /// Send these requests in order, stopping at the first that fails
    /// (reading no more of a body than its `max_body`), and step with the
    /// replies.
    Send(Vec<HttpCall>),
    /// Run the caller's knot of number `knot`, made from `params`, on
    /// `input`, and step with its outputs.
    RunKnot { knot: u64, params: JsonValue, ctx: Ctx, input: Vec<Item> },
    /// The run is over, with this result.
    Finish(Result<RunResult, Error>),
}

/// What the caller hands the run at a step.
pub enum Event {
    /// The last action is done (or there was nothing to do).
    Done,
    /// The value of the environment variable asked for, when it is set.
    Env(Option<String>),
    /// The replies to the requests, in order; a failure ends the list.
    Replies(Vec<Result<HttpReply, HttpFailure>>),
    /// What the caller's knot gave: one list of items per output, or its
    /// error.
    Outputs(Result<Vec<Vec<Item>>, Error>),
}

/// Where the run stands.
pub enum Stage {
    /// About to start the knot at the current position.
    Ready,
    /// The current knot passes these items on once its action is done.
    Pass(Vec<Item>),
    /// The current email knot waits for the API key, with these items.
    Key(Vec<Item>),
    /// The current HTTP knot waits for its replies.
    Http,
    /// The current email knot waits for its replies.
    Email,
    /// The current knot is the caller's, and the run waits for its outputs.
    Custom,
    /// The run is over.
    Over,
}

// ---------------------------------------------------------------------------
// Deliveries and inputs
// ---------------------------------------------------------------------------

/// Both deliveries, the first before the second; nothing when neither
/// delivered anything.
pub open spec fn join_opt(a: Option<Seq<Json>>, b: Option<Seq<Json>>) -> Option<Seq<Json>> {
    match (a, b) {
        (None, None) => None,
        (Some(x), None) => Some(x),
        (None, Some(y)) => Some(y),
        (Some(x), Some(y)) => Some(x + y),
    }
}

/// What output `p` of knot `from`, holding `items`, delivers to knot `to`
/// over the first `j` connections, in connection order.
pub open spec fn port_deliveries(
    cs: Seq<(Seq<char>, usize, Seq<char>, usize)>,
    from: Seq<char>,
    p: int,
    to: Seq<char>,
    items: Seq<Json>,
    j: nat,
) -> Option<Seq<Json>>
    decreases j,
{
    if j == 0 {
        None
    } else {
        let c = cs[j - 1];
        join_opt(
            port_deliveries(cs, from, p, to, items, (j - 1) as nat),
            if c.0 == from && c.1 == p && c.2 == to {
                Some(items)
            } else {
                None
            },
        )
    }
}

/// What the first `q` outputs of knot `from` deliver to knot `to`.
pub open spec fn knot_deliveries(
    cs: Seq<(Seq<char>, usize, Seq<char>, usize)>,
    from: Seq<char>,
    outs: Seq<Seq<Json>>,
    to: Seq<char>,
    q: nat,
) -> Option<Seq<Json>>
    decreases q,
{
    if q == 0 {
        None
    } else {
        join_opt(
            knot_deliveries(cs, from, outs, to, (q - 1) as nat),
            port_deliveries(cs, from, q - 1, to, outs[q - 1], cs.len()),
        )
    }
}

/// What the first `k` knots of the run, with outputs `outs`, delivered to
/// the knot with id `to`, in the order they ran; nothing when no connection
/// from an output they have leads there.
pub open spec fn delivered(
    ids: Seq<Seq<char>>,
    cs: Seq<(Seq<char>, usize, Seq<char>, usize)>,
    order: Seq<usize>,
    outs: Seq<Seq<Seq<Json>>>,
    k: nat,
    to: Seq<char>,
) -> Option<Seq<Json>>
    decreases k,
{
    if k == 0 {
        None
    } else {
        join_opt(
            delivered(ids, cs, order, outs, (k - 1) as nat, to),
            knot_deliveries(cs, ids[order[k - 1] as int], outs[k - 1], to, outs[k - 1].len()),
        )
    }
}

/// The items of an optional delivery: none when nothing was delivered.
pub open spec fn opt_seq(o: Option<Seq<Json>>) -> Seq<Json> {
    match o {
        Some(x) => x,
        None => Seq::empty(),
    }
}

/// Joining two deliveries keeps both, the first before the second; it is
/// nothing only when both are.
pub proof fn lemma_join_concat(a: Option<Seq<Json>>, b: Option<Seq<Json>>)
    ensures
        opt_seq(join_opt(a, b)) == opt_seq(a) + opt_seq(b),
        join_opt(a, b) is None <==> (a is None && b is None),
{
    match (a, b) {
        (None, None) => {
            assert(Seq::<Json>::empty() + Seq::<Json>::empty() =~= Seq::<Json>::empty());
        },
        (Some(x), None) => {
            assert(x + Seq::<Json>::empty() =~= x);
        },
        (None, Some(y)) => {
            assert(Seq::<Json>::empty() + y =~= y);
        },
        _ => {},
    }
}

/// Each connection adds to what an output delivers: over the first `j + 1`
/// connections, output `p` of `from` delivers to `to` what it delivered
/// over the first `j`, followed by its items when connection `j` leads from
/// that output to `to`. Nothing delivered before is dropped or replaced.
pub proof fn lemma_port_deliveries_step(
    cs: Seq<(Seq<char>, usize, Seq<char>, usize)>,
    from: Seq<char>,
    p: int,
    to: Seq<char>,
    items: Seq<Json>,
    j: nat,
)
    requires
        j < cs.len(),
    ensures
        opt_seq(port_deliveries(cs, from, p, to, items, j + 1)) == opt_seq(port_deliveries(cs, from, p, to, items, j))
            + if cs[j as int].0 == from && cs[j as int].1 == p && cs[j as int].2 == to {
            items
        } else {
            Seq::<Json>::empty()
        },
{
    let c = cs[j as int];
    lemma_join_concat(
        port_deliveries(cs, from, p, to, items, j),
        if c.0 == from && c.1 == p && c.2 == to {
            Some(items)
        } else {
            None
        },
    );
}

/// Each output adds to what a knot delivers: over its first `q + 1`
/// outputs, knot `from` delivers to `to` what its first `q` outputs did,
/// followed by what output `q` delivers.
pub proof fn lemma_knot_deliveries_step(
    cs: Seq<(Seq<char>, usize, Seq<char>, usize)>,
    from: Seq<char>,
    outs: Seq<Seq<Json>>,
    to: Seq<char>,
    q: nat,
)
    ensures
        opt_seq(knot_deliveries(cs, from, outs, to, q + 1)) == opt_seq(knot_deliveries(cs, from, outs, to, q))
            + opt_seq(port_deliveries(cs, from, q as int, to, outs[q as int], cs.len())),
{
    lemma_join_concat(
        knot_deliveries(cs, from, outs, to, q),
        port_deliveries(cs, from, q as int, to, outs[q as int], cs.len()),
    );
}

/// Each finished knot adds to what a knot is delivered: after the first
/// `k + 1` knots of the run, knot `to` has what the first `k` delivered to
/// it, followed by everything knot `k` delivers to it. A knot's input is
/// thus the concatenation, in run order, of every delivery on its incoming
/// connections; a later delivery never replaces an earlier one, and the
/// number of items is the sum of the deliveries' lengths.
pub proof fn lemma_delivered_step(
    ids: Seq<Seq<char>>,
    cs: Seq<(Seq<char>, usize, Seq<char>, usize)>,
    order: Seq<usize>,
    outs: Seq<Seq<Seq<Json>>>,
    k: nat,
    to: Seq<char>,
)
    ensures
        opt_seq(delivered(ids, cs, order, outs, k + 1, to)) == opt_seq(delivered(ids, cs, order, outs, k, to))
            + opt_seq(knot_deliveries(cs, ids[order[k as int] as int], outs[k as int], to, outs[k as int].len())),
        opt_seq(delivered(ids, cs, order, outs, k + 1, to)).len() == opt_seq(delivered(ids, cs, order, outs, k, to)).len()
            + opt_seq(knot_deliveries(cs, ids[order[k as int] as int], outs[k as int], to, outs[k as int].len())).len(),
{
    lemma_join_concat(
        delivered(ids, cs, order, outs, k, to),
        knot_deliveries(cs, ids[order[k as int] as int], outs[k as int], to, outs[k as int].len()),
    );
}

/// The input of a knot of type `kind`: a webhook gets the seed; another
/// knot gets what was delivered to it, or the seed when nothing was.
pub open spec fn input_for(kind: Seq<char>, got: Option<Seq<Json>>, seed: Json) -> Seq<Json> {
    if kind == "trigger.webhook"@ {
        seq![seed]
    } else {
        match got {
            Some(items) => items,
            None => seq![seed],
        }
    }
}

/// The input of the knot at run position `k`.
pub open spec fn run_input(wf: Workflow, order: Seq<usize>, outs: Seq<Seq<Seq<Json>>>, seed: Json, k: nat) -> Seq<Json> {
    let ids = ids_of(wf.knots@);
    let v = order[k as int] as int;
    input_for(kinds_of(wf.knots@)[v], delivered(ids, conns_view(wf.connections@), order, outs, k, ids[v]), seed)
}

// ---------------------------------------------------------------------------
// What knots give
// ---------------------------------------------------------------------------

/// The number of items over all outputs.
pub open spec fn total_items(outs: Seq<Seq<Json>>) -> nat
    decreases outs.len(),
{
    if outs.len() == 0 {
        0
    } else {
        total_items(outs.drop_last()) + outs.last().len()
    }
}

/// Each item with the assignments applied.
pub open spec fn assigned(items: Seq<Json>, asg: Seq<(Seq<char>, Json)>, env: Seq<(Seq<char>, Seq<char>)>) -> Seq<Json> {
    items.map_values(|j: Json| apply_assignments(j, asg, env))
}

/// What a knot that needs nothing from outside gives for `input`; `None`
/// for the knots that do.
pub open spec fn immediate_outcome(inst: KnotInstance, workflow_id: Seq<char>, input: Seq<Json>, env: Seq<(Seq<char>, Seq<char>)>) -> Option<
    Result<Seq<Seq<Json>>, Seq<char>>,
> {
    match inst {
        KnotInstance::SetFields(k) => Some(Ok(seq![assigned(input, k.assignments_model(), env)])),
        KnotInstance::Filter(k) => Some(
            match filter_spec(k.conditions_model(), k.require_all, input, env) {
                Ok((yes, no)) => Ok(seq![yes, no]),
                Err(m) => Err(m),
            },
        ),
        KnotInstance::Webhook(_) => Some(
            Ok(
                seq![
                    if input.len() == 0 {
                        seq![Json::Object(Seq::empty())]
                    } else {
                        input
                    },
                ],
            ),
        ),
        KnotInstance::Schedule(_) => Some(Err(crate::knots::trigger::schedule_message(workflow_id))),
        _ => None,
    }
}

/// The text of a failed request.
pub open spec fn failure_text(f: HttpFailure, email: bool) -> Seq<char> {
    if email && f.stage == HttpStage::Send {
        send_failure_message(f.message@)
    } else {
        f.message@
    }
}

/// The item a reply becomes.
pub open spec fn reply_item(r: HttpReply, email: bool) -> Json {
    if email {
        Json::Object(entries_insert_all(Seq::empty(), email_result_entries(r.status, r.body_text@, reply_json(r))))
    } else {
        response_json(r.status, pairs_view(r.headers@), r.body_text@, reply_json(r))
    }
}

/// The items the replies become, or the text of the first failure; for
/// `http.request`, a response body of more than `MAX_BODY` bytes is a
/// failure.
pub open spec fn replies_outcome(rs: Seq<Result<HttpReply, HttpFailure>>, email: bool) -> Result<Seq<Json>, Seq<char>>
    decreases rs.len(),
{
    if rs.len() == 0 {
        Ok(Seq::empty())
    } else {
        match replies_outcome(rs.drop_last(), email) {
            Err(m) => Err(m),
            Ok(items) => match rs.last() {
                Ok(r) => if !email && utf8_len(r.body_text@) > MAX_BODY {
                    Err(body_too_large_message())
                } else {
                    Ok(items.push(reply_item(r, email)))
                },
                Err(f) => Err(failure_text(f, email)),
            },
        }
    }
}

/// The replies an event carries; none for another event.
pub open spec fn replies_of(e: Event) -> Seq<Result<HttpReply, HttpFailure>> {
    match e {
        Event::Replies(rs) => rs@,
        _ => Seq::empty(),
    }
}

/// The text of the run's error when a knot fails with an error whose text
/// is `text`.
pub open spec fn failure_of(id: Seq<char>, kind: Seq<char>, text: Seq<char>) -> Seq<char> {
    "knot `"@ + id + "` ("@ + kind + ") failed: "@ + text
}

/// The text of the run's error when a bundled knot fails with `m`.
pub open spec fn knot_failure(id: Seq<char>, kind: Seq<char>, m: Seq<char>) -> Seq<char> {
    failure_of(id, kind, "knot execution failed: "@ + m)
}

/// What the caller's knot gave, as an event carries it; no outputs for
/// another event.
pub open spec fn outputs_of(e: Event) -> Result<Seq<Seq<Json>>, Error> {
    match e {
        Event::Outputs(Ok(outs)) => Ok(outs_view(outs@)),
        Event::Outputs(Err(x)) => Err(x),
        _ => Ok(Seq::empty()),
    }
}

/// An item count, stopping at the largest `usize`.
pub open spec fn capped(t: nat) -> nat {
    if t <= usize::MAX {
        t
    } else {
        usize::MAX as nat
    }
}

/// The text of the error for a knot type the registry does not have.
pub open spec fn unknown_type_message(kind: Seq<char>) -> Seq<char> {
    "unknown knot type `"@ + kind + "`"@
}

/// What the registry makes for a knot of type `kind`: the knot its factory
/// makes from `params`, or nothing when the type is not registered.
pub open spec fn created(registry: Registry, kind: Seq<char>, params: Json, inst: Option<KnotInstance>) -> bool {
    match first_index(registry.kinds_of(), kind) {
        Some(i) => inst matches Some(x) && made_by(registry.entries_of()[i].factory, params, x),
        None => inst is None,
    }
}

/// The seed item: the body, or an empty object.
pub open spec fn seed_of(body: Option<JsonValue>) -> Json {
    match body {
        Some(b) => b@,
        None => Json::Object(Seq::empty()),
    }
}

/// The result of a run whose knots at `order` gave `outs`: status `ok` and
/// a step per knot with its id, type and item count.
pub open spec fn is_run_result(r: RunResult, wf: Workflow, order: Seq<usize>, outs: Seq<Seq<Seq<Json>>>) -> bool {
    &&& r.status@ == "ok"@
    &&& r.steps@.len() == order.len()
    &&& forall|i: int|
        0 <= i < order.len() ==> step_is(#[trigger] r.steps@[i], wf, order[i], outs[i])
}

/// `s` records knot `v` giving `o`.
pub open spec fn step_is(s: RunStep, wf: Workflow, v: usize, o: Seq<Seq<Json>>) -> bool {
    &&& s.knot@ == ids_of(wf.knots@)[v as int]
    &&& s.kind@ == kinds_of(wf.knots@)[v as int]
    &&& s.status@ == "ok"@
    &&& s.items == capped(total_items(o))
}

// ---------------------------------------------------------------------------
// Streams
// ---------------------------------------------------------------------------

/// The items of a stream, if there is one.
pub open spec fn opt_items(o: Option<Vec<Item>>) -> Option<Seq<Json>> {
    match o {
        Some(v) => Some(items_view(v@)),
        None => None,
    }
}

/// The items of each output.
pub open spec fn outs_view(outs: Seq<Vec<Item>>) -> Seq<Seq<Json>> {
    outs.map_values(|v: Vec<Item>| items_view(v@))
}

proof fn lemma_join_assoc(a: Option<Seq<Json>>, b: Option<Seq<Json>>, c: Option<Seq<Json>>)
    ensures
        join_opt(join_opt(a, b), c) == join_opt(a, join_opt(b, c)),
{
    match (a, b, c) {
        (Some(x), Some(y), Some(z)) => {
            assert(x + y + z =~= x + (y + z));
        },
        _ => {},
    }
}

/// A stream with `items` added at its end.
fn appended(base: &Option<Vec<Item>>, items: &Vec<Item>) -> (r: Vec<Item>)
    ensures
        Some(items_view(r@)) == join_opt(opt_items(*base), Some(items_view(items@))),
{
    let mut r = match base {
        Some(v) => copy_items(v),
        None => Vec::new(),
    };
    let ghost start = r@;
    assert(items_view(r@) == match base {
        Some(v) => items_view(v@),
        None => Seq::empty(),
    }) by {
        assert(items_view(r@) =~= match base {
            Some(v) => items_view(v@),
            None => Seq::<Json>::empty(),
        });
    }
    let mut i: usize = 0;
    while i < items.len()
        invariant
            i <= items@.len(),
            items_view(r@) == items_view(start) + items_view(items@).take(i as int),
        decreases items@.len() - i,
    {
        let ghost before = r@;
        r.push(items[i].copy());
        assert(items_view(r@) =~= items_view(before).push(items@[i as int]@));
        assert(items_view(items@).take(i + 1) =~= items_view(items@).take(i as int).push(items@[i as int]@));
        i = i + 1;
    }
    assert(items_view(items@).take(items@.len() as int) =~= items_view(items@));
    assert(items_view(r@) =~= items_view(start) + items_view(items@));
    r
}

/// Delivers the outputs of knot `from` along its connections.
fn deliver(wf: &Workflow, streams: &mut Vec<Option<Vec<Item>>>, from: usize, outs: &Vec<Vec<Item>>)
    requires
        distinct_ids(ids_of(wf.knots@)),
        forall|i: int| 0 <= i < wf.connections@.len() ==> !dangling(ids_of(wf.knots@), #[trigger] conns_view(wf.connections@)[i]),
        old(streams)@.len() == wf.knots@.len(),
        from < wf.knots@.len(),
    ensures
        final(streams)@.len() == wf.knots@.len(),
        forall|v: int|
            0 <= v < wf.knots@.len() ==> opt_items(#[trigger] final(streams)@[v]) == join_opt(
                opt_items(old(streams)@[v]),
                knot_deliveries(
                    conns_view(wf.connections@),
                    ids_of(wf.knots@)[from as int],
                    outs_view(outs@),
                    ids_of(wf.knots@)[v],
                    outs@.len(),
                ),
            ),
{
    let ghost ids = ids_of(wf.knots@);
    let ghost cs = conns_view(wf.connections@);
    let ghost base = streams@;
    let ghost ov = outs_view(outs@);
    let ghost n = wf.knots@.len();
    let ghost fid = ids[from as int];
    let mut p: usize = 0;
    while p < outs.len()
        invariant
            ids == ids_of(wf.knots@),
            cs == conns_view(wf.connections@),
            ov == outs_view(outs@),
            distinct_ids(ids),
            forall|i: int| 0 <= i < cs.len() ==> !dangling(ids, #[trigger] cs[i]),
            n == wf.knots@.len(),
            fid == ids[from as int],
            from < n,
            p <= outs@.len(),
            streams@.len() == n,
            forall|v: int|
                0 <= v < n ==> opt_items(#[trigger] streams@[v]) == join_opt(
                    opt_items(base[v]),
                    knot_deliveries(cs, fid, ov, ids[v], p as nat),
                ),
        decreases outs@.len() - p,
    {
        let ghost mid = streams@;
        let mut j: usize = 0;
        while j < wf.connections.len()
            invariant
                ids == ids_of(wf.knots@),
                cs == conns_view(wf.connections@),
                ov == outs_view(outs@),
                distinct_ids(ids),
                forall|i: int| 0 <= i < cs.len() ==> !dangling(ids, #[trigger] cs[i]),
                n == wf.knots@.len(),
                fid == ids[from as int],
                from < n,
                p < outs@.len(),
                j <= cs.len(),
                streams@.len() == n,
                forall|v: int|
                    0 <= v < n ==> opt_items(#[trigger] streams@[v]) == join_opt(
                        opt_items(mid[v]),
                        port_deliveries(cs, fid, p as int, ids[v], ov[p as int], j as nat),
                    ),
            decreases cs.len() - j,
        {
            let c = &wf.connections[j];
            assert(cs[j as int] == (c.from@, c.from_output, c.to@, c.to_input));
            assert(ids[from as int] == wf.knots@[from as int].id@);
            if crate::text::str_equal(c.from.as_str(), wf.knots[from].id.as_str()) && c.from_output == p {
                proof {
                    lemma_last_index(ids, c.to@);
                    assert(!dangling(ids, cs[j as int]));
                }
                if let Some(t) = last_index_of(&wf.knots, c.to.as_str()) {
                    let ghost before = streams@;
                    let added = appended(&streams[t], &outs[p]);
                    streams.set(t, Some(added));
                    proof {
                        assert(ov[p as int] == items_view(outs@[p as int]@));
                        assert forall|v: int| 0 <= v < n implies opt_items(#[trigger] streams@[v]) == join_opt(
                            opt_items(mid[v]),
                            port_deliveries(cs, fid, p as int, ids[v], ov[p as int], (j + 1) as nat),
                        ) by {
                            lemma_join_assoc(
                                opt_items(mid[v]),
                                port_deliveries(cs, fid, p as int, ids[v], ov[p as int], j as nat),
                                if c.to@ == ids[v] {
                                    Some(ov[p as int])
                                } else {
                                    None
                                },
                            );
                            if v != t {
                                assert(streams@[v] == before[v]);
                                assert(ids[v] != ids[t as int]) by {
                                    if v < t {
                                        assert(ids[v] != ids[t as int]);
                                    } else {
                                        assert(ids[t as int] != ids[v]);
                                    }
                                }
                            }
                        }
                    }
                }
            } else {
                proof {
                    assert forall|v: int| 0 <= v < n implies opt_items(#[trigger] streams@[v]) == join_opt(
                        opt_items(mid[v]),
                        port_deliveries(cs, fid, p as int, ids[v], ov[p as int], (j + 1) as nat),
                    ) by {
                        assert(!(c.from@ == fid && c.from_output == p));
                    }
                }
            }
            j = j + 1;
        }
        proof {
            assert forall|v: int| 0 <= v < n implies opt_items(#[trigger] streams@[v]) == join_opt(
                opt_items(base[v]),
                knot_deliveries(cs, fid, ov, ids[v], (p + 1) as nat),
            ) by {
                lemma_join_assoc(
                    opt_items(base[v]),
                    knot_deliveries(cs, fid, ov, ids[v], p as nat),
                    port_deliveries(cs, fid, p as int, ids[v], ov[p as int], cs.len()),
                );
            }
        }
        p = p + 1;
    }
}

// ---------------------------------------------------------------------------
// The run
// ---------------------------------------------------------------------------

/// A workflow being run.
pub struct Run {
    wf: Workflow,
    seed: JsonValue,
    env: Env,
    order: Vec<usize>,
    instances: Vec<Option<KnotInstance>>,
    pos: usize,
    streams: Vec<Option<Vec<Item>>>,
    steps: Vec<RunStep>,
    stage: Stage,
    outs: Ghost<Seq<Seq<Seq<Json>>>>,
}

/// What starting a knot comes to.
enum Begun {
    /// It waits for the caller to do something.
    Wait(Stage, Action),
    /// It is done, with these outputs.
    Done(Vec<Vec<Item>>),
    /// It failed with this text.
    Fail(String),
}

impl Run {
    /// The workflow being run.
    pub closed spec fn workflow(&self) -> Workflow {
        self.wf
    }

    /// The seed item.
    pub closed spec fn seed(&self) -> Json {
        self.seed@
    }

    /// The environment variables that templates read.
    pub closed spec fn env(&self) -> Seq<(Seq<char>, Seq<char>)> {
        self.env@
    }

    /// The positions of the knots in the order they run.
    pub closed spec fn order(&self) -> Seq<usize> {
        self.order@
    }

    /// The knot made for each run position, if its type is registered.
    pub closed spec fn instances(&self) -> Seq<Option<KnotInstance>> {
        self.instances@
    }

    /// How many knots have finished.
    pub closed spec fn position(&self) -> nat {
        self.pos as nat
    }

    /// The outputs of the knots that have finished, in run order.
    pub closed spec fn outputs(&self) -> Seq<Seq<Seq<Json>>> {
        self.outs@
    }

    /// Where the run stands.
    pub closed spec fn stage(&self) -> Stage {
        self.stage
    }

    /// The run's state is consistent.
    pub closed spec fn inv(&self) -> bool {
        let ids = ids_of(self.wf.knots@);
        let cs = conns_view(self.wf.connections@);
        let n = ids.len();
        let order = self.order@;
        &&& n <= usize::MAX
        &&& cs.len() <= usize::MAX
        &&& run_order(ids, cs) == Ok::<Seq<usize>, Seq<char>>(order)
        &&& distinct_ids(ids)
        &&& forall|i: int| 0 <= i < cs.len() ==> !dangling(ids, #[trigger] cs[i])
        &&& order.len() == n
        &&& order.no_duplicates()
        &&& forall|t: int| 0 <= t < order.len() ==> (#[trigger] order[t]) < n
        &&& self.instances@.len() == n
        &&& self.pos <= n
        &&& self.outs@.len() == self.pos
        &&& self.streams@.len() == n
        &&& forall|v: int|
            0 <= v < n && !order.take(self.pos as int).contains(v as usize) ==> opt_items(
                #[trigger] self.streams@[v],
            ) == delivered(ids, cs, order, self.outs@, self.pos as nat, ids[v])
        &&& self.steps@.len() == self.pos
        &&& forall|i: int| 0 <= i < self.pos ==> step_is(#[trigger] self.steps@[i], self.wf, order[i], self.outs@[i])
        &&& match self.stage {
            Stage::Pass(inp) => self.pos < n && items_view(inp@) == run_input(
                self.wf,
                order,
                self.outs@,
                self.seed@,
                self.pos as nat,
            ),
            Stage::Key(inp) => self.pos < n && items_view(inp@) == run_input(
                self.wf,
                order,
                self.outs@,
                self.seed@,
                self.pos as nat,
            ) && self.instances@[self.pos as int] matches Some(KnotInstance::Resend(_)),
            Stage::Http => self.pos < n,
            Stage::Email => self.pos < n,
            Stage::Custom => self.pos < n,
            _ => true,
        }
    }
}

proof fn lemma_delivered_push(
    ids: Seq<Seq<char>>,
    cs: Seq<(Seq<char>, usize, Seq<char>, usize)>,
    order: Seq<usize>,
    outs: Seq<Seq<Seq<Json>>>,
    x: Seq<Seq<Json>>,
    k: nat,
    to: Seq<char>,
)
    requires
        k <= outs.len(),
    ensures
        delivered(ids, cs, order, outs.push(x), k, to) == delivered(ids, cs, order, outs, k, to),
    decreases k,
{
    if k > 0 {
        lemma_delivered_push(ids, cs, order, outs, x, (k - 1) as nat, to);
        assert(outs.push(x)[k - 1] == outs[k - 1]);
    }
}

proof fn lemma_total_single(o: Seq<Seq<Json>>)
    requires
        o.len() == 1,
    ensures
        total_items(o) == o[0].len(),
{
    assert(o.drop_last() =~= Seq::<Seq<Json>>::empty());
    assert(o.last() == o[0]);
    assert(total_items(o.drop_last()) == 0);
}

fn total_of(outs: &Vec<Vec<Item>>) -> (t: usize)
    ensures
        t == capped(total_items(outs_view(outs@))),
{
    let ghost ov = outs_view(outs@);
    let mut t: usize = 0;
    let mut p: usize = 0;
    while p < outs.len()
        invariant
            p <= outs@.len(),
            ov == outs_view(outs@),
            t == capped(total_items(ov.take(p as int))),
        decreases outs@.len() - p,
    {
        proof {
            assert(ov.take(p + 1).drop_last() =~= ov.take(p as int));
            assert(ov.take(p + 1).last() == ov[p as int]);
        }
        t = t.saturating_add(outs[p].len());
        p = p + 1;
    }
    assert(ov.take(outs@.len() as int) =~= ov);
    t
}

impl Run {
    /// Starts a run of `wf` with the knots of `registry`, seeded with `body`
    /// (or an empty object), its templates reading the variables of `env`: the knots get their run order and are made
    /// from their parameters; nothing has run yet. Fails as `run_order`
    /// says when there is no run order.
    pub fn start(wf: Workflow, registry: &Registry, body: Option<JsonValue>, env: Env) -> (r: Result<Run, Error>)
        ensures
            match r {
                Ok(run) => {
                    &&& run.inv()
                    &&& run.workflow() == wf
                    &&& run.seed() == seed_of(body)
                    &&& run.env() == env@
                    &&& run_order(ids_of(wf.knots@), conns_view(wf.connections@)) == Ok::<Seq<usize>, Seq<char>>(
                        run.order(),
                    )
                    &&& run.position() == 0
                    &&& run.outputs() == Seq::<Seq<Seq<Json>>>::empty()
                    &&& run.stage() is Ready
                    &&& run.instances().len() == run.order().len()
                    &&& forall|k: int|
                        0 <= k < run.order().len() ==> created(
                            *registry,
                            kinds_of(wf.knots@)[run.order()[k] as int],
                            wf.knots@[run.order()[k] as int].params@,
                            #[trigger] run.instances()[k],
                        )
                },
                Err(e) => e matches Error::InvalidWorkflow(m) && run_order(ids_of(wf.knots@), conns_view(wf.connections@))
                    == Err::<Seq<usize>, Seq<char>>(m@),
            },
    {
        let order = match run_order_of(&wf) {
            Ok(o) => o,
            Err(e) => {
                return Err(e);
            },
        };
        let ghost ids = ids_of(wf.knots@);
        let ghost cs = conns_view(wf.connections@);
        proof {
            assert(wf.knots@.len() == wf.knots.len());
            assert(wf.connections@.len() == wf.connections.len());
            lemma_run_order_valid(wf);
            lemma_first_dangling_prefix(ids, cs, cs.len(), cs.len());
            assert(distinct_ids(ids));
        }
        let n = wf.knots.len();
        let mut instances: Vec<Option<KnotInstance>> = Vec::new();
        let mut k: usize = 0;
        while k < n
            invariant
                k <= n,
                n == wf.knots@.len(),
                order@.len() == n,
                forall|t: int| 0 <= t < order@.len() ==> (#[trigger] order@[t]) < n,
                instances@.len() == k,
                forall|t: int|
                    0 <= t < k ==> created(
                        *registry,
                        kinds_of(wf.knots@)[order@[t] as int],
                        wf.knots@[order@[t] as int].params@,
                        #[trigger] instances@[t],
                    ),
            decreases n - k,
        {
            let v = order[k];
            let inst = registry.create(wf.knots[v].kind.as_str(), &wf.knots[v].params);
            instances.push(inst);
            k = k + 1;
        }
        let mut streams: Vec<Option<Vec<Item>>> = Vec::new();
        let mut j: usize = 0;
        while j < n
            invariant
                j <= n,
                streams@.len() == j,
                forall|t: int| 0 <= t < j ==> #[trigger] streams@[t] is None,
            decreases n - j,
        {
            streams.push(None);
            j = j + 1;
        }
        let seed = match body {
            Some(b) => b,
            None => JsonValue::empty_object(),
        };
        let run = Run {
            wf,
            seed,
            env,
            order,
            instances,
            pos: 0,
            streams,
            steps: Vec::new(),
            stage: Stage::Ready,
            outs: Ghost(Seq::empty()),
        };
        proof {
            assert forall|v: int|
                0 <= v < n && !run.order@.take(0).contains(v as usize) implies opt_items(
                #[trigger] run.streams@[v],
            ) == delivered(ids, cs, run.order@, run.outs@, 0, ids[v]) by {}
        }
        Ok(run)
    }

    /// The input of the knot about to run.
    fn current_input(&self) -> (r: Vec<Item>)
        requires
            self.inv(),
            self.pos < self.order@.len(),
        ensures
            items_view(r@) == run_input(self.wf, self.order@, self.outs@, self.seed@, self.pos as nat),
    {
        let ghost ids = ids_of(self.wf.knots@);
        let v = self.order[self.pos];
        assert(!self.order@.take(self.pos as int).contains(v)) by {
            if self.order@.take(self.pos as int).contains(v) {
                let t = choose|t: int| 0 <= t < self.pos && self.order@.take(self.pos as int)[t] == v;
                assert(self.order@[t] == self.order@[self.pos as int]);
            }
        }
        assert(kinds_of(self.wf.knots@)[v as int] == self.wf.knots@[v as int].kind@);
        if crate::text::str_equal(self.wf.knots[v].kind.as_str(), "trigger.webhook") {
            let mut r: Vec<Item> = Vec::new();
            r.push(Item::new(self.seed.copy()));
            assert(items_view(r@) =~= seq![self.seed@]);
            r
        } else {
            assert(opt_items(self.streams@[v as int]) == delivered(
                ids,
                conns_view(self.wf.connections@),
                self.order@,
                self.outs@,
                self.pos as nat,
                ids[v as int],
            ));
            match &self.streams[v] {
                Some(items) => {
                    let r = copy_items(items);
                    assert(items_view(r@) =~= items_view(items@));
                    r
                },
                None => {
                    let mut r: Vec<Item> = Vec::new();
                    r.push(Item::new(self.seed.copy()));
                    assert(items_view(r@) =~= seq![self.seed@]);
                    r
                },
            }
        }
    }

    /// Records that the current knot finished with `outs`, and delivers
    /// them.
    fn record(&mut self, outs: Vec<Vec<Item>>)
        requires
            old(self).inv(),
            old(self).pos < old(self).order@.len(),
            old(self).stage is Ready,
        ensures
            final(self).inv(),
            final(self).stage is Ready,
            final(self).pos == old(self).pos + 1,
            final(self).outs@ == old(self).outs@.push(outs_view(outs@)),
            final(self).wf == old(self).wf,
            final(self).seed == old(self).seed,
            final(self).env == old(self).env,
            final(self).order == old(self).order,
            final(self).instances == old(self).instances,
    {
        let ghost ids = ids_of(self.wf.knots@);
        let ghost cs = conns_view(self.wf.connections@);
        let ghost old_streams = self.streams@;
        let ghost old_outs = self.outs@;
        let u = self.order[self.pos];
        deliver(&self.wf, &mut self.streams, u, &outs);
        let items = total_of(&outs);
        assert(ids[u as int] == self.wf.knots@[u as int].id@);
        assert(kinds_of(self.wf.knots@)[u as int] == self.wf.knots@[u as int].kind@);
        let step = RunStep {
            knot: copy_text(self.wf.knots[u].id.as_str()),
            kind: copy_text(self.wf.knots[u].kind.as_str()),
            status: copy_text("ok"),
            items,
        };
        self.steps.push(step);
        let ghost new_outs = old_outs.push(outs_view(outs@));
        self.outs = Ghost(new_outs);
        let ghost k = self.pos;
        self.pos = self.pos + 1;
        proof {
            let order = self.order@;
            assert forall|v: int|
                0 <= v < ids.len() && !order.take(self.pos as int).contains(v as usize) implies opt_items(
                #[trigger] self.streams@[v],
            ) == delivered(ids, cs, order, new_outs, self.pos as nat, ids[v]) by {
                assert(!order.take(k as int).contains(v as usize)) by {
                    if order.take(k as int).contains(v as usize) {
                        let t = choose|t: int| 0 <= t < k && order.take(k as int)[t] == v as usize;
                        assert(order.take(self.pos as int)[t] == v as usize);
                    }
                }
                lemma_delivered_push(ids, cs, order, old_outs, outs_view(outs@), k as nat, ids[v]);
                assert(new_outs[k as int] == outs_view(outs@));
            }
            assert forall|i: int| 0 <= i < self.pos implies step_is(
                #[trigger] self.steps@[i],
                self.wf,
                order[i],
                new_outs[i],
            ) by {
                if i < k {
                    assert(new_outs[i] == old_outs[i]);
                }
            }
        }
    }

    /// Ends the run with the failure `m` of the current knot.
    fn fail(&mut self, m: String) -> (act: Action)
        requires
            old(self).inv(),
            old(self).pos < old(self).order@.len(),
            !(old(self).stage is Key),
            !(old(self).stage is Pass),
        ensures
            final(self).inv(),
            final(self).stage is Over,
            final(self).pos == old(self).pos,
            final(self).outs == old(self).outs,
            final(self).wf == old(self).wf,
            final(self).seed == old(self).seed,
            final(self).env == old(self).env,
            final(self).order == old(self).order,
            final(self).instances == old(self).instances,
            act matches Action::Finish(Err(Error::Knot(t))) && t@ == knot_failure(
                ids_of(old(self).wf.knots@)[old(self).order@[old(self).pos as int] as int],
                kinds_of(old(self).wf.knots@)[old(self).order@[old(self).pos as int] as int],
                m@,
            ),
    {
        let v = self.order[self.pos];
        assert(ids_of(self.wf.knots@)[v as int] == self.wf.knots@[v as int].id@);
        assert(kinds_of(self.wf.knots@)[v as int] == self.wf.knots@[v as int].kind@);
        let mut t = String::new();
        push_str(&mut t, "knot `");
        push_str(&mut t, self.wf.knots[v].id.as_str());
        push_str(&mut t, "` (");
        push_str(&mut t, self.wf.knots[v].kind.as_str());
        push_str(&mut t, ") failed: ");
        push_str(&mut t, "knot execution failed: ");
        push_str(&mut t, m.as_str());
        assert(t@ =~= knot_failure(self.wf.knots@[v as int].id@, self.wf.knots@[v as int].kind@, m@));
        self.stage = Stage::Over;
        Action::Finish(Err(Error::Knot(t)))
    }

    /// Ends the run with the error `e` of the current knot.
    fn fail_error(&mut self, e: Error) -> (act: Action)
        requires
            old(self).inv(),
            old(self).pos < old(self).order@.len(),
            !(old(self).stage is Key),
            !(old(self).stage is Pass),
        ensures
            final(self).inv(),
            final(self).stage is Over,
            final(self).pos == old(self).pos,
            final(self).outs == old(self).outs,
            final(self).wf == old(self).wf,
            final(self).seed == old(self).seed,
            final(self).env == old(self).env,
            final(self).order == old(self).order,
            final(self).instances == old(self).instances,
            act matches Action::Finish(Err(Error::Knot(t))) && t@ == failure_of(
                ids_of(old(self).wf.knots@)[old(self).order@[old(self).pos as int] as int],
                kinds_of(old(self).wf.knots@)[old(self).order@[old(self).pos as int] as int],
                error_text(e),
            ),
    {
        let v = self.order[self.pos];
        assert(ids_of(self.wf.knots@)[v as int] == self.wf.knots@[v as int].id@);
        assert(kinds_of(self.wf.knots@)[v as int] == self.wf.knots@[v as int].kind@);
        let text = e.message();
        let mut t = String::new();
        push_str(&mut t, "knot `");
        push_str(&mut t, self.wf.knots[v].id.as_str());
        push_str(&mut t, "` (");
        push_str(&mut t, self.wf.knots[v].kind.as_str());
        push_str(&mut t, ") failed: ");
        push_str(&mut t, text.as_str());
        assert(t@ =~= failure_of(self.wf.knots@[v as int].id@, self.wf.knots@[v as int].kind@, error_text(e)));
        self.stage = Stage::Over;
        Action::Finish(Err(Error::Knot(t)))
    }
}

// ---------------------------------------------------------------------------
// Steps
// ---------------------------------------------------------------------------

/// The run waits on the same knot, with nothing new finished.
pub open spec fn waits(b: Run, a: Run) -> bool {
    a.position() == b.position() && a.outputs() == b.outputs()
}

/// The current knot finished with outputs `o`; the next one is up.
pub open spec fn recorded(b: Run, a: Run, o: Seq<Seq<Json>>) -> bool {
    &&& a.stage() is Ready
    &&& a.position() == b.position() + 1
    &&& a.outputs() == b.outputs().push(o)
}

/// The run ended with the failure `m` of the current knot.
pub open spec fn failed(b: Run, a: Run, act: Action, m: Seq<char>) -> bool {
    let v = b.order()[b.position() as int] as int;
    &&& a.stage() is Over
    &&& waits(b, a)
    &&& act matches Action::Finish(Err(Error::Knot(t))) && t@ == knot_failure(
        ids_of(b.workflow().knots@)[v],
        kinds_of(b.workflow().knots@)[v],
        m,
    )
}

/// The run ended with the error `e` of the current knot, which is the
/// caller's.
pub open spec fn failed_error(b: Run, a: Run, act: Action, e: Error) -> bool {
    let v = b.order()[b.position() as int] as int;
    &&& a.stage() is Over
    &&& waits(b, a)
    &&& act matches Action::Finish(Err(Error::Knot(t))) && t@ == failure_of(
        ids_of(b.workflow().knots@)[v],
        kinds_of(b.workflow().knots@)[v],
        error_text(e),
    )
}

/// What a finished knot or a failure comes to.
pub open spec fn concluded(b: Run, a: Run, act: Action, o: Result<Seq<Json>, Seq<char>>) -> bool {
    match o {
        Ok(items) => act is Continue && recorded(b, a, seq![items]),
        Err(m) => failed(b, a, act, m),
    }
}

/// What starting knot `inst` on `input` comes to.
pub open spec fn started(b: Run, a: Run, act: Action, inst: KnotInstance, input: Seq<Json>) -> bool {
    let wf_id = b.workflow().id@;
    let env = b.env();
    match inst {
        KnotInstance::Log(l) => {
            &&& waits(b, a)
            &&& a.stage() matches Stage::Pass(inp) && items_view(inp@) == input
            &&& act matches Action::Print(lines) && lines@.len() == input.len() && forall|i: int|
                0 <= i < input.len() ==> (#[trigger] lines@[i])@ == log_line(opt_view(l.message), wf_id, input[i], env)
        },
        KnotInstance::Delay(d) => {
            &&& waits(b, a)
            &&& a.stage() matches Stage::Pass(inp) && items_view(inp@) == input
            &&& act == Action::Sleep(d.milliseconds)
        },
        KnotInstance::Http(h) => {
            &&& waits(b, a)
            &&& a.stage() is Http
            &&& act matches Action::Send(calls) && calls@.len() == input.len() && forall|i: int|
                0 <= i < input.len() ==> is_request_for(
                    #[trigger] calls@[i],
                    h.method@,
                    h.url@,
                    pairs_view(h.headers@),
                    h.body@,
                    input[i], env)
        },
        KnotInstance::Resend(r) => if r.api_key@.len() == 0 {
            &&& waits(b, a)
            &&& a.stage() matches Stage::Key(inp) && items_view(inp@) == input
            &&& act matches Action::ReadEnv(name) && name@ == key_variable()
        } else {
            &&& waits(b, a)
            &&& a.stage() is Email
            &&& act matches Action::Send(calls) && calls@.len() == input.len() && forall|i: int|
                0 <= i < input.len() ==> is_email_request(#[trigger] calls@[i], r, r.api_key@, input[i], env)
        },
        KnotInstance::Custom(n, p) => {
            &&& waits(b, a)
            &&& a.stage() is Custom
            &&& act matches Action::RunKnot { knot, params, ctx, input: inp } && knot == n && params@ == p@
                && ctx.workflow_id@ == wf_id && items_view(inp@) == input
        },
        other => match immediate_outcome(other, wf_id, input, env) {
            Some(Ok(o)) => act is Continue && recorded(b, a, o),
            Some(Err(m)) => failed(b, a, act, m),
            None => false,
        },
    }
}

/// One step of the run from `b` to `a` on `event`, answering `act`.
pub open spec fn step_taken(b: Run, event: Event, a: Run, act: Action) -> bool {
    let env = b.env();
    let k = b.position();
    let order = b.order();
    match b.stage() {
        Stage::Ready => if k >= order.len() {
            &&& a.stage() is Over
            &&& waits(b, a)
            &&& act matches Action::Finish(Ok(res)) && is_run_result(res, b.workflow(), order, b.outputs())
        } else {
            let v = order[k as int] as int;
            let input = run_input(b.workflow(), order, b.outputs(), b.seed(), k);
            match b.instances()[k as int] {
                None => {
                    &&& a.stage() is Over
                    &&& waits(b, a)
                    &&& act matches Action::Finish(Err(Error::InvalidWorkflow(m))) && m@ == unknown_type_message(
                        kinds_of(b.workflow().knots@)[v],
                    )
                },
                Some(inst) => started(b, a, act, inst, input),
            }
        },
        Stage::Pass(inp) => act is Continue && recorded(b, a, seq![items_view(inp@)]),
        Stage::Key(inp) => match event {
            Event::Env(Some(key)) => {
                &&& waits(b, a)
                &&& a.stage() is Email
                &&& b.instances()[k as int] matches Some(KnotInstance::Resend(r)) && act matches Action::Send(calls)
                    && calls@.len() == inp@.len() && forall|i: int|
                    0 <= i < inp@.len() ==> is_email_request(#[trigger] calls@[i], r, key@, inp@[i]@, env)
            },
            _ => failed(b, a, act, missing_key_message()),
        },
        Stage::Http => concluded(b, a, act, replies_outcome(replies_of(event), false)),
        Stage::Email => concluded(b, a, act, replies_outcome(replies_of(event), true)),
        Stage::Custom => match outputs_of(event) {
            Ok(o) => act is Continue && recorded(b, a, o),
            Err(e) => failed_error(b, a, act, e),
        },
        Stage::Over => false,
    }
}

proof fn lemma_replies_error(rs: Seq<Result<HttpReply, HttpFailure>>, email: bool, i: int, m: Seq<char>)
    requires
        0 <= i < rs.len(),
        replies_outcome(rs.take(i + 1), email) == Err::<Seq<Json>, Seq<char>>(m),
    ensures
        replies_outcome(rs, email) == Err::<Seq<Json>, Seq<char>>(m),
    decreases rs.len() - i,
{
    if i + 1 == rs.len() {
        assert(rs.take(i + 1) =~= rs);
    } else {
        assert(rs.drop_last().take(i + 1) =~= rs.take(i + 1));
        lemma_replies_error(rs.drop_last(), email, i, m);
    }
}

/// The items the replies become, or the text of the first failure.
fn replies_items(rs: &Vec<Result<HttpReply, HttpFailure>>, email: bool) -> (r: Result<Vec<Item>, String>)
    ensures
        match replies_outcome(rs@, email) {
            Ok(items) => r matches Ok(v) && items_view(v@) == items,
            Err(m) => r matches Err(t) && t@ == m,
        },
{
    let mut out: Vec<Item> = Vec::new();
    let mut i: usize = 0;
    assert(rs@.take(0) =~= Seq::<Result<HttpReply, HttpFailure>>::empty());
    assert(items_view(out@) =~= Seq::<Json>::empty());
    while i < rs.len()
        invariant
            i <= rs@.len(),
            replies_outcome(rs@.take(i as int), email) == Ok::<Seq<Json>, Seq<char>>(items_view(out@)),
        decreases rs@.len() - i,
    {
        assert(rs@.take(i + 1).drop_last() =~= rs@.take(i as int));
        assert(rs@.take(i + 1).last() == rs@[i as int]);
        match &rs[i] {
            Ok(reply) => {
                let item = if email {
                    email_result(reply)
                } else {
                    match response_item(reply) {
                        Ok(item) => item,
                        Err(t) => {
                            proof {
                                lemma_replies_error(rs@, email, i as int, t@);
                            }
                            return Err(t);
                        },
                    }
                };
                let ghost before = out@;
                out.push(item);
                assert(items_view(out@) =~= items_view(before).push(reply_item(*reply, email)));
            },
            Err(f) => {
                let t = if email {
                    match f.stage {
                        HttpStage::Send => {
                            let mut t = String::new();
                            push_str(&mut t, "resend request failed: ");
                            push_str(&mut t, f.message.as_str());
                            assert(t@ =~= send_failure_message(f.message@));
                            t
                        },
                        _ => copy_text(f.message.as_str()),
                    }
                } else {
                    copy_text(f.message.as_str())
                };
                proof {
                    lemma_replies_error(rs@, email, i as int, t@);
                }
                return Err(t);
            },
        }
        i = i + 1;
    }
    assert(rs@.take(rs@.len() as int) =~= rs@);
    Ok(out)
}

impl Run {
    /// Starts the current knot on `input`.
    fn begin_knot(&self, input: Vec<Item>) -> (r: Begun)
        requires
            self.inv(),
            self.pos < self.order@.len(),
            self.instances@[self.pos as int] is Some,
        ensures
            ({
                let inp = items_view(input@);
                let wf_id = self.wf.id@;
                let env = self.env@;
                match self.instances@[self.pos as int]->0 {
                    KnotInstance::Log(l) => r matches Begun::Wait(Stage::Pass(v), Action::Print(lines)) && items_view(v@)
                        == inp && lines@.len() == inp.len() && forall|i: int|
                        0 <= i < inp.len() ==> (#[trigger] lines@[i])@ == log_line(opt_view(l.message), wf_id, inp[i], env),
                    KnotInstance::Delay(d) => r matches Begun::Wait(Stage::Pass(v), act) && items_view(v@) == inp && act
                        == Action::Sleep(d.milliseconds),
                    KnotInstance::Http(h) => r matches Begun::Wait(Stage::Http, Action::Send(calls)) && calls@.len()
                        == inp.len() && forall|i: int|
                        0 <= i < inp.len() ==> is_request_for(
                            #[trigger] calls@[i],
                            h.method@,
                            h.url@,
                            pairs_view(h.headers@),
                            h.body@,
                            inp[i], env),
                    KnotInstance::Resend(rs) => if rs.api_key@.len() == 0 {
                        r matches Begun::Wait(Stage::Key(v), Action::ReadEnv(name)) && items_view(v@) == inp && name@
                            == key_variable()
                    } else {
                        r matches Begun::Wait(Stage::Email, Action::Send(calls)) && calls@.len() == inp.len() && forall|
                            i: int,
                        |
                            0 <= i < inp.len() ==> is_email_request(#[trigger] calls@[i], rs, rs.api_key@, inp[i], env)
                    },
                    KnotInstance::Custom(n, p) => r matches Begun::Wait(
                        Stage::Custom,
                        Action::RunKnot { knot, params, ctx, input: v },
                    ) && knot == n && params@ == p@ && ctx.workflow_id@ == wf_id && items_view(v@) == inp,
                    other => match immediate_outcome(other, wf_id, inp, env) {
                        Some(Ok(o)) => r matches Begun::Done(outs) && outs_view(outs@) == o && total_items(o)
                            <= usize::MAX,
                        Some(Err(m)) => r matches Begun::Fail(t) && t@ == m,
                        None => false,
                    },
                }
            }),
    {
        let ghost inp = items_view(input@);
        match &self.instances[self.pos] {
            Some(KnotInstance::Log(l)) => {
                let ctx = Ctx { workflow_id: copy_text(self.wf.id.as_str()) };
                let lines = l.lines(&ctx, &input, &self.env);
                Begun::Wait(Stage::Pass(input), Action::Print(lines))
            },
            Some(KnotInstance::Delay(d)) => Begun::Wait(Stage::Pass(input), Action::Sleep(d.milliseconds)),
            Some(KnotInstance::Http(h)) => {
                let calls = h.requests(&input, &self.env);
                Begun::Wait(Stage::Http, Action::Send(calls))
            },
            Some(KnotInstance::Resend(rs)) => {
                if rs.needs_env_key() {
                    Begun::Wait(Stage::Key(input), Action::ReadEnv(copy_text("RESEND_API_KEY")))
                } else {
                    let calls = rs.requests(rs.api_key.as_str(), &input, &self.env);
                    Begun::Wait(Stage::Email, Action::Send(calls))
                }
            },
            Some(KnotInstance::Custom(n, p)) => {
                let ctx = Ctx { workflow_id: copy_text(self.wf.id.as_str()) };
                Begun::Wait(Stage::Custom, Action::RunKnot { knot: *n, params: p.copy(), ctx, input })
            },
            Some(KnotInstance::SetFields(k)) => {
                let outs = k.run(input, &self.env);
                let count = outs[0].len();
                proof {
                    assert(outs_view(outs@) =~= seq![assigned(inp, k.assignments_model(), self.env@)]) by {
                        assert(items_view(outs@[0]@) =~= assigned(inp, k.assignments_model(), self.env@));
                    }
                    lemma_total_single(outs_view(outs@));
                }
                Begun::Done(outs)
            },
            Some(KnotInstance::Filter(f)) => {
                proof {
                    crate::knots::filter::lemma_filter_partition(f.conditions_model(), f.require_all, inp, self.env@);
                }
                let n_in = input.len();
                match f.run(input, &self.env) {
                    Ok(outs) => {
                        proof {
                            let ov = outs_view(outs@);
                            assert(ov =~= seq![ov[0], ov[1]]);
                            assert(ov.drop_last() =~= seq![ov[0]]);
                            assert(ov.drop_last().drop_last() =~= Seq::<Seq<Json>>::empty());
                            lemma_total_single(ov.drop_last());
                            assert(total_items(ov) == ov[0].len() + ov[1].len());
                            assert(ov[0].len() + ov[1].len() == n_in);
                        }
                        Begun::Done(outs)
                    },
                    Err(e) => match e {
                        Error::Knot(m) => Begun::Fail(m),
                        _ => {
                            proof {
                                assert(false);
                            }
                            Begun::Fail(String::new())
                        },
                    },
                }
            },
            Some(KnotInstance::Webhook(w)) => {
                let outs = w.run(input);
                let count = outs[0].len();
                proof {
                    let expected = if inp.len() == 0 {
                        seq![Json::Object(Seq::empty())]
                    } else {
                        inp
                    };
                    assert(items_view(outs@[0]@) =~= expected);
                    assert(outs_view(outs@) =~= seq![expected]);
                    lemma_total_single(outs_view(outs@));
                }
                Begun::Done(outs)
            },
            Some(KnotInstance::Schedule(s)) => {
                let ctx = Ctx { workflow_id: copy_text(self.wf.id.as_str()) };
                match s.run(&ctx) {
                    Err(Error::Knot(m)) => Begun::Fail(m),
                    _ => {
                        proof {
                            assert(false);
                        }
                        Begun::Fail(String::new())
                    },
                }
            },
            None => {
                proof {
                    assert(false);
                }
                Begun::Fail(String::new())
            },
        }
    }

    /// The result of the finished run.
    fn result(&self) -> (r: RunResult)
        requires
            self.inv(),
            self.pos == self.order@.len(),
        ensures
            is_run_result(r, self.wf, self.order@, self.outs@),
    {
        let mut steps: Vec<RunStep> = Vec::new();
        let mut i: usize = 0;
        while i < self.steps.len()
            invariant
                self.inv(),
                self.pos == self.order@.len(),
                i <= self.steps@.len(),
                steps@.len() == i,
                forall|t: int| 0 <= t < i ==> step_is(#[trigger] steps@[t], self.wf, self.order@[t], self.outs@[t]),
            decreases self.steps@.len() - i,
        {
            let s = &self.steps[i];
            assert(step_is(self.steps@[i as int], self.wf, self.order@[i as int], self.outs@[i as int]));
            steps.push(
                RunStep {
                    knot: copy_text(s.knot.as_str()),
                    kind: copy_text(s.kind.as_str()),
                    status: copy_text(s.status.as_str()),
                    items: s.items,
                },
            );
            i = i + 1;
        }
        RunResult { status: copy_text("ok"), steps }
    }

    /// Whether the run is over.
    pub fn is_over(&self) -> (r: bool)
        ensures
            r == (self.stage() is Over),
    {
        match self.stage {
            Stage::Over => true,
            _ => false,
        }
    }

    /// Takes one step on `event`: starts the next knot, or finishes the one
    /// that waits, and says what the caller does next.
    pub fn step(&mut self, event: Event) -> (act: Action)
        requires
            old(self).inv(),
            !(old(self).stage() is Over),
        ensures
            final(self).inv(),
            final(self).workflow() == old(self).workflow(),
            final(self).seed() == old(self).seed(),
            final(self).env() == old(self).env(),
            final(self).order() == old(self).order(),
            final(self).instances() == old(self).instances(),
            step_taken(*old(self), event, *final(self), act),
    {
        let ghost b = *self;
        let mut stage = Stage::Ready;
        std::mem::swap(&mut stage, &mut self.stage);
        match stage {
            Stage::Ready => {
                if self.pos == self.order.len() {
                    let res = self.result();
                    self.stage = Stage::Over;
                    return Action::Finish(Ok(res));
                }
                let v = self.order[self.pos];
                assert(kinds_of(self.wf.knots@)[v as int] == self.wf.knots@[v as int].kind@);
                if self.instances[self.pos].is_none() {
                    let mut m = String::new();
                    push_str(&mut m, "unknown knot type `");
                    push_str(&mut m, self.wf.knots[v].kind.as_str());
                    push_str(&mut m, "`");
                    assert(m@ =~= unknown_type_message(self.wf.knots@[v as int].kind@));
                    self.stage = Stage::Over;
                    return Action::Finish(Err(Error::InvalidWorkflow(m)));
                }
                let input = self.current_input();
                match self.begin_knot(input) {
                    Begun::Wait(st, act) => {
                        self.stage = st;
                        act
                    },
                    Begun::Done(outs) => {
                        self.record(outs);
                        Action::Continue
                    },
                    Begun::Fail(m) => self.fail(m),
                }
            },
            Stage::Pass(inp) => {
                let ghost iv = items_view(inp@);
                let count = inp.len();
                let mut outs: Vec<Vec<Item>> = Vec::new();
                outs.push(inp);
                proof {
                    assert(outs_view(outs@) =~= seq![iv]);
                    lemma_total_single(outs_view(outs@));
                }
                self.record(outs);
                Action::Continue
            },
            Stage::Key(inp) => {
                match event {
                    Event::Env(Some(key)) => {
                        match &self.instances[self.pos] {
                            Some(KnotInstance::Resend(r)) => {
                                let calls = r.requests(key.as_str(), &inp, &self.env);
                                self.stage = Stage::Email;
                                Action::Send(calls)
                            },
                            _ => {
                                proof {
                                    assert(false);
                                }
                                Action::Continue
                            },
                        }
                    },
                    _ => self.fail(
                        copy_text("notify.resend requires an `apiKey` param or RESEND_API_KEY env var"),
                    ),
                }
            },
            Stage::Http => {
                let rs = match event {
                    Event::Replies(rs) => rs,
                    _ => Vec::new(),
                };
                match replies_items(&rs, false) {
                    Ok(items) => {
                        let count = items.len();
                        let mut outs: Vec<Vec<Item>> = Vec::new();
                        outs.push(items);
                        proof {
                            assert(outs_view(outs@) =~= seq![items_view(outs@[0]@)]);
                            lemma_total_single(outs_view(outs@));
                        }
                        self.record(outs);
                        Action::Continue
                    },
                    Err(m) => self.fail(m),
                }
            },
            Stage::Email => {
                let rs = match event {
                    Event::Replies(rs) => rs,
                    _ => Vec::new(),
                };
                match replies_items(&rs, true) {
                    Ok(items) => {
                        let count = items.len();
                        let mut outs: Vec<Vec<Item>> = Vec::new();
                        outs.push(items);
                        proof {
                            assert(outs_view(outs@) =~= seq![items_view(outs@[0]@)]);
                            lemma_total_single(outs_view(outs@));
                        }
                        self.record(outs);
                        Action::Continue
                    },
                    Err(m) => self.fail(m),
                }
            },
            Stage::Custom => match event {
                Event::Outputs(Ok(outs)) => {
                    self.record(outs);
                    Action::Continue
                },
                Event::Outputs(Err(e)) => self.fail_error(e),
                _ => {
                    let outs: Vec<Vec<Item>> = Vec::new();
                    assert(outs_view(outs@) =~= Seq::<Seq<Json>>::empty());
                    self.record(outs);
                    Action::Continue
                },
            },
            Stage::Over => {
                proof {
                    assert(false);
                }
                Action::Continue
            },
        }
    }
}

// ---------------------------------------------------------------------------
// What holds of every run
// ---------------------------------------------------------------------------

/// Every knot runs once: the order is the workflow's run order, lists each
/// knot once, and the finished knots are its first `position` entries.
pub proof fn lemma_run_state(run: Run)
    requires
        run.inv(),
    ensures
        run_order(ids_of(run.workflow().knots@), conns_view(run.workflow().connections@)) == Ok::<
            Seq<usize>,
            Seq<char>,
        >(run.order()),
        run.order().len() == run.workflow().knots@.len(),
        run.order().no_duplicates(),
        forall|t: int| 0 <= t < run.order().len() ==> (#[trigger] run.order()[t]) < run.workflow().knots@.len(),
        run.position() <= run.order().len(),
        run.outputs().len() == run.position(),
        run.instances().len() == run.order().len(),
        !(run.stage() is Ready) && !(run.stage() is Over) ==> run.position() < run.order().len(),
{
}

/// When a knot starts, every knot with a connection into it has finished,
/// so its input holds everything they deliver to it.
pub proof fn lemma_upstream_finished(run: Run, i: int)
    requires
        run.inv(),
        run.position() < run.order().len(),
        0 <= i < run.workflow().connections@.len(),
        run.workflow().connections@[i].to@ == ids_of(run.workflow().knots@)[run.order()[run.position() as int] as int],
    ensures
        exists|a: int|
            0 <= a < run.position() && ids_of(run.workflow().knots@)[run.order()[a] as int]
                == run.workflow().connections@[i].from@,
{
    let wf = run.workflow();
    let ids = ids_of(wf.knots@);
    let cs = conns_view(wf.connections@);
    let o = run.order();
    let k = run.position() as int;
    lemma_run_order_valid(wf);
    assert(cs[i] == conn_view_of(wf, i));
    let (a, b) = choose|a: int, b: int| 0 <= a < b < o.len() && ids[o[a] as int] == cs[i].0 && ids[o[b] as int] == cs[i].2;
    assert(o[b] == o[k]) by {
        if o[b] != o[k] {
            if o[b] < o[k] {
                assert(ids[o[b] as int] != ids[o[k] as int]);
            } else {
                assert(ids[o[k] as int] != ids[o[b] as int]);
            }
        }
    }
    assert(b == k);
}

spec fn conn_view_of(wf: Workflow, i: int) -> (Seq<char>, usize, Seq<char>, usize) {
    (wf.connections@[i].from@, wf.connections@[i].from_output, wf.connections@[i].to@, wf.connections@[i].to_input)
}

} // verus!
