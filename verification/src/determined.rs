//! What fixes a run: its recording, its schedule and a deterministic agent.
//! Whatever else a store holds makes no difference.

use crate::canon::{digest_of, identity_of};
use crate::cas::{keeps, Contents};
use crate::event::{EffectKind, EventModel, RequestModel};
use crate::explore::{
    batch_starts, behaviour_of, deed, depends_at, first_apart, may_depend, may_do, may_end,
    may_settle, reordering, shown_at, Asking, OrderDependence,
};
use crate::fault::{is_order, scheduling, PointModel};
use crate::oracle::{answered, fresh_oracle, recorded_answers};
use crate::record::{outcome_json, request_json};
use crate::replay::batch_tag;
use crate::replayer::{
    batch_begun, batch_performed, completion_order, injected, last_clock, performed, policy,
    replay_start, resolved_free, scheduled_at, stepped, steps_run, ModeModel, ReplayState, Step,
};
use crate::trace::TraceModel;
use vstd::prelude::*;

verus! {

/// Whether a store holds every payload that a recording names.
pub open spec fn complete(events: Seq<EventModel>, contents: Contents) -> bool {
    forall|i: int|
        0 <= i < events.len() ==> contents.dom().contains((#[trigger] events[i]).request)
            && contents.dom().contains(events[i].outcome)
}

/// Whether two replays are the same but for what their stores hold.
pub open spec fn same_course(a: ReplayState, b: ReplayState) -> bool {
    a == (ReplayState { contents: a.contents, ..b })
}

/// Whether an agent asks the same of replays of a recording that answer it the
/// same: that are the same but for what their stores hold beyond `first`.
pub open spec fn deterministic(asks: Asking, trace: TraceModel, first: Contents) -> bool {
    forall|p: (ReplayState, Seq<Step>), q: (ReplayState, Seq<Step>)|
        #[trigger] asks.contains(p) && #[trigger] asks.contains(q) && p.0.trace == trace
            && same_course(p.0, q.0) && keeps(first, p.0.contents) && keeps(first, q.0.contents)
            ==> p.1 == q.1
}

proof fn lemma_same_clock(events: Seq<EventModel>, first: Contents, held: Contents)
    requires
        complete(events, first),
        keeps(first, held),
    ensures
        last_clock(events, held) == last_clock(events, first),
    decreases events.len(),
{
    if events.len() > 0 {
        let e = events[events.len() - 1];
        assert(first.dom().contains(e.outcome));
        assert(complete(events.drop_last(), first)) by {
            assert forall|i: int| 0 <= i < events.drop_last().len() implies first.dom().contains(
                (#[trigger] events.drop_last()[i]).request,
            ) && first.dom().contains(events.drop_last()[i].outcome) by {
                assert(events.drop_last()[i] == events[i]);
            }
        }
        lemma_same_clock(events.drop_last(), first, held);
    }
}

proof fn lemma_same_answers(
    events: Seq<EventModel>,
    first: Contents,
    held: Contents,
    identity: Seq<char>,
)
    requires
        complete(events, first),
        keeps(first, held),
    ensures
        recorded_answers(events, held, identity) == recorded_answers(events, first, identity),
        answered(events, held) == answered(events, first),
    decreases events.len(),
{
    if events.len() > 0 {
        let e = events[events.len() - 1];
        assert(first.dom().contains(e.outcome));
        assert(complete(events.drop_last(), first)) by {
            assert forall|i: int| 0 <= i < events.drop_last().len() implies first.dom().contains(
                (#[trigger] events.drop_last()[i]).request,
            ) && first.dom().contains(events.drop_last()[i].outcome) by {
                assert(events.drop_last()[i] == events[i]);
            }
        }
        lemma_same_answers(events.drop_last(), first, held, identity);
    }
}

/// Replays of a recording start the same, whatever a store holds beyond the
/// recording's payloads.
pub proof fn lemma_same_start(
    trace: TraceModel,
    first: Contents,
    a: Contents,
    b: Contents,
    mode: ModeModel,
)
    requires
        complete(trace.events, first),
        keeps(first, a),
        keeps(first, b),
    ensures
        same_course(replay_start(trace, a, mode), replay_start(trace, b, mode)),
{
    lemma_same_clock(trace.events, first, a);
    lemma_same_clock(trace.events, first, b);
    let x = fresh_oracle(trace.events, a);
    let y = fresh_oracle(trace.events, b);
    assert forall|id: Seq<char>| #[trigger] (x.answers)(id) == (y.answers)(id) by {
        lemma_same_answers(trace.events, first, a, id);
        lemma_same_answers(trace.events, first, b, id);
    }
    lemma_same_answers(trace.events, first, a, seq![]);
    lemma_same_answers(trace.events, first, b, seq![]);
    assert(x.answers =~= y.answers);
    assert(x.next =~= y.next);
    assert(x == y);
}

/// Replays that are the same but for what their stores hold answer an effect
/// the same, and stay the same.
pub proof fn lemma_performed_same(
    first: Contents,
    a: ReplayState,
    b: ReplayState,
    r: RequestModel,
    batch: Option<u64>,
)
    requires
        complete(a.trace.events, first),
        same_course(a, b),
        keeps(first, a.contents),
        keeps(first, b.contents),
    ensures
        performed(a, r, batch).0 == performed(b, r, batch).0,
        same_course(performed(a, r, batch).1, performed(b, r, batch).1),
        performed(a, r, batch).1.trace == a.trace,
        keeps(first, performed(a, r, batch).1.contents),
        keeps(first, performed(b, r, batch).1.contents),
{
    crate::replayer::lemma_performed_keeps(a, r, batch);
    crate::replayer::lemma_performed_keeps(b, r, batch);
    if !a.free && a.cursor < a.trace.events.len() {
        let e = a.trace.events[a.cursor as int];
        assert(first.dom().contains(e.request) && first.dom().contains(e.outcome));
    }
}

pub(crate) proof fn lemma_batch_same(
    first: Contents,
    a: ReplayState,
    b: ReplayState,
    requests: Seq<RequestModel>,
    order: Seq<usize>,
    k: nat,
    batch: Option<u64>,
)
    requires
        complete(a.trace.events, first),
        same_course(a, b),
        keeps(first, a.contents),
        keeps(first, b.contents),
    ensures
        ({
            let x = batch_performed(a, requests, order, k, batch);
            let y = batch_performed(b, requests, order, k, batch);
            &&& x.0 == y.0
            &&& same_course(x.1, y.1)
            &&& x.1.trace == a.trace
            &&& keeps(first, x.1.contents)
            &&& keeps(first, y.1.contents)
        }),
    decreases k,
{
    if k > 0 {
        lemma_batch_same(first, a, b, requests, order, (k - 1) as nat, batch);
        lemma_performed_same(
            first,
            batch_performed(a, requests, order, (k - 1) as nat, batch).1,
            batch_performed(b, requests, order, (k - 1) as nat, batch).1,
            requests[order[k - 1] as int],
            batch,
        );
    }
}

/// Replays that are the same but for what their stores hold stay so, whatever
/// the agent asks of both.
pub proof fn lemma_steps_same(
    first: Contents,
    a: ReplayState,
    b: ReplayState,
    steps: Seq<Step>,
)
    requires
        complete(a.trace.events, first),
        same_course(a, b),
        keeps(first, a.contents),
        keeps(first, b.contents),
    ensures
        same_course(steps_run(a, steps), steps_run(b, steps)),
        steps_run(a, steps).trace == a.trace,
        keeps(first, steps_run(a, steps).contents),
        keeps(first, steps_run(b, steps).contents),
    decreases steps.len(),
{
    if steps.len() > 0 {
        reveal(stepped);
        lemma_steps_same(first, a, b, steps.drop_last());
        let x = steps_run(a, steps.drop_last());
        let y = steps_run(b, steps.drop_last());
        match steps.last() {
            Step::One { request } => {
                lemma_performed_same(first, x, y, request, None);
            },
            Step::Batch { requests } => {
                let n = requests.len();
                lemma_batch_same(
                    first,
                    batch_begun(x, n),
                    batch_begun(y, n),
                    requests,
                    completion_order(x, n),
                    n,
                    batch_tag(x.next_batch, n),
                );
            },
        }
    }
}

/// A deterministic agent has one course through a recording under a schedule,
/// whatever a store holds beyond the recording's payloads.
pub proof fn lemma_course_fixed(
    trace: TraceModel,
    first: Contents,
    a: Contents,
    b: Contents,
    schedule: Seq<PointModel>,
    x: ReplayState,
    y: ReplayState,
    asks: Asking,
)
    requires
        complete(trace.events, first),
        deterministic(asks, trace, first),
        keeps(first, a),
        keeps(first, b),
        may_end(trace, a, schedule, x, asks),
        may_end(trace, b, schedule, y, asks),
    ensures
        same_course(x, y),
        x.branch == y.branch,
{
    let mode = ModeModel::Counterfactual { schedule };
    let s = replay_start(trace, a, mode);
    let t = replay_start(trace, b, mode);
    lemma_same_start(trace, first, a, b, mode);
    let p = choose|steps: Seq<Step>|
        asks.contains((s, steps)) && x == #[trigger] steps_run(s, steps);
    let q = choose|steps: Seq<Step>|
        asks.contains((t, steps)) && y == #[trigger] steps_run(t, steps);
    assert(asks.contains((s, p)) && asks.contains((t, q)));
    lemma_steps_same(first, s, t, p);
}

/// What a deterministic agent does under a schedule is fixed.
pub proof fn lemma_deed_fixed(
    trace: TraceModel,
    first: Contents,
    schedule: Seq<PointModel>,
    done: Seq<Seq<char>>,
    other: Seq<Seq<char>>,
    asks: Asking,
)
    requires
        complete(trace.events, first),
        deterministic(asks, trace, first),
        may_do(trace, first, schedule, done, asks),
        may_do(trace, first, schedule, other, asks),
    ensures
        done == other,
{
    let (a, x) = choose|before: Contents, end: ReplayState|
        keeps(first, before) && #[trigger] may_end(trace, before, schedule, end, asks) && done
            == behaviour_of(end.branch);
    let (b, y) = choose|before: Contents, end: ReplayState|
        keeps(first, before) && #[trigger] may_end(trace, before, schedule, end, asks) && other
            == behaviour_of(end.branch);
    lemma_course_fixed(trace, first, a, b, schedule, x, y, asks);
}

/// Whether all that a run may do under a schedule is this.
pub open spec fn does_only(
    trace: TraceModel,
    first: Contents,
    schedule: Seq<PointModel>,
    done: Seq<Seq<char>>,
    asks: Asking,
) -> bool {
    forall|other: Seq<Seq<char>>| #[trigger]
        may_do(trace, first, schedule, other, asks) ==> other == done
}

/// Whether an order dependence is the first there is, by the batches in the
/// order they appear and then by seed: the earlier ones do what the run
/// usually does, and this one differs, first where the finding says.
pub open spec fn is_first_dependence(
    trace: TraceModel,
    first: Contents,
    baseline: Seq<EventModel>,
    from: u64,
    to: u64,
    f: OrderDependence,
    b: int,
    asks: Asking,
) -> bool {
    let starts = batch_starts(baseline);
    let usual = behaviour_of(baseline);
    &&& 0 <= b < starts.len()
    &&& starts[b] == (f.batch, f.at_seq)
    &&& from <= f.seed < to
    &&& forall|k: int, seed: u64|
        0 <= k < b && from <= seed < to ==> #[trigger] does_only(
            trace,
            first,
            reordering(starts[k].1, seed),
            usual,
            asks,
        )
    &&& forall|seed: u64|
        from <= seed < f.seed ==> #[trigger] does_only(
            trace,
            first,
            reordering(f.at_seq, seed),
            usual,
            asks,
        )
    &&& exists|done: Seq<Seq<char>>| #[trigger]
        may_do(trace, first, reordering(f.at_seq, f.seed), done, asks)
    &&& forall|done: Seq<Seq<char>>| #[trigger]
        may_do(trace, first, reordering(f.at_seq, f.seed), done, asks) ==> {
            &&& done != usual
            &&& first_apart(usual, done, Some(f.diverged_at))
            &&& f.baseline@ == shown_at(usual, f.diverged_at as int)
            &&& f.reordered@ == shown_at(done, f.diverged_at as int)
        }
}

/// Whether no batch matters: under each seed, a run with any one batch
/// reordered does what the run usually does.
pub open spec fn order_free(
    trace: TraceModel,
    first: Contents,
    baseline: Seq<EventModel>,
    from: u64,
    to: u64,
    asks: Asking,
) -> bool {
    forall|k: int, seed: u64|
        0 <= k < batch_starts(baseline).len() && from <= seed < to ==> #[trigger] does_only(
            trace,
            first,
            reordering(batch_starts(baseline)[k].1, seed),
            behaviour_of(baseline),
            asks,
        )
}

/// Whether a search for an order dependence came out exactly, where `end` is
/// the run in request order: with nothing exactly where no order matters, and
/// else with the first that does.
pub open spec fn settled_exactly(
    trace: TraceModel,
    first: Contents,
    from: u64,
    to: u64,
    r: Option<OrderDependence>,
    asks: Asking,
    end: ReplayState,
) -> bool {
    &&& may_end(trace, first, seq![], end, asks)
    &&& does_only(trace, first, seq![], behaviour_of(end.branch), asks)
    &&& r is None <==> order_free(trace, first, end.branch, from, to, asks)
    &&& r matches Some(f) ==> exists|b: int| #[trigger]
        is_first_dependence(trace, first, end.branch, from, to, f, b, asks)
}

/// For a deterministic agent and a store that holds the recording, a search
/// for an order dependence is exact: it finds nothing exactly where every
/// batch under every seed leaves what the run does as it is, and else it finds
/// the first batch and then the first seed that does not.
pub proof fn lemma_search_exact(
    trace: TraceModel,
    first: Contents,
    from: u64,
    to: u64,
    r: Option<OrderDependence>,
    asks: Asking,
) -> (end: ReplayState)
    requires
        complete(trace.events, first),
        deterministic(asks, trace, first),
        may_settle(trace, first, from, to, r, asks),
    ensures
        settled_exactly(trace, first, from, to, r, asks, end),
{
    let end = choose|end: ReplayState| #[trigger]
        may_end(trace, first, seq![], end, asks) && may_depend(
            trace,
            first,
            end.branch,
            from,
            to,
            r,
            asks,
        );
    let usual = behaviour_of(end.branch);
    let starts = batch_starts(end.branch);
    assert(keeps(first, first));
    assert(may_do(trace, first, seq![], usual, asks));
    assert forall|schedule: Seq<PointModel>| #[trigger]
        may_do(trace, first, schedule, usual, asks) implies does_only(
        trace,
        first,
        schedule,
        usual,
        asks,
    ) by {
        assert forall|other: Seq<Seq<char>>| #[trigger]
            may_do(trace, first, schedule, other, asks) implies other == usual by {
            lemma_deed_fixed(trace, first, schedule, other, usual, asks);
        }
    }
    match r {
        None => {
            assert forall|k: int, seed: u64|
                0 <= k < starts.len() && from <= seed < to implies #[trigger] does_only(
                trace,
                first,
                reordering(starts[k].1, seed),
                usual,
                asks,
            ) by {
                assert(may_do(trace, first, reordering(starts[k].1, seed), usual, asks));
            }
        },
        Some(f) => {
            let (b, done) = choose|b: int, done: Seq<Seq<char>>| #[trigger]
                depends_at(trace, first, end.branch, from, to, f, b, done, asks);
            let here = reordering(f.at_seq, f.seed);
            assert(may_do(trace, first, here, done, asks));
            assert(done != usual);
            assert forall|other: Seq<Seq<char>>| #[trigger]
                may_do(trace, first, here, other, asks) implies other == done by {
                lemma_deed_fixed(trace, first, here, other, done, asks);
            }
            assert forall|k: int, seed: u64|
                0 <= k < b && from <= seed < to implies #[trigger] does_only(
                trace,
                first,
                reordering(starts[k].1, seed),
                usual,
                asks,
            ) by {
                assert(may_do(trace, first, reordering(starts[k].1, seed), usual, asks));
            }
            assert forall|seed: u64| from <= seed < f.seed implies #[trigger] does_only(
                trace,
                first,
                reordering(f.at_seq, seed),
                usual,
                asks,
            ) by {
                assert(may_do(trace, first, reordering(f.at_seq, seed), usual, asks));
            }
            assert(is_first_dependence(trace, first, end.branch, from, to, f, b, asks));
            assert(!order_free(trace, first, end.branch, from, to, asks)) by {
                assert(!does_only(trace, first, reordering(starts[b].1, f.seed), usual, asks));
            }
        },
    }
    end
}

/// `lemma_search_exact`, as an implication.
pub(crate) proof fn lemma_settles(
    trace: TraceModel,
    first: Contents,
    from: u64,
    to: u64,
    r: Option<OrderDependence>,
    asks: Asking,
)
    requires
        may_settle(trace, first, from, to, r, asks),
    ensures
        complete(trace.events, first) && deterministic(asks, trace, first) ==> exists|
            end: ReplayState,
        | #[trigger] settled_exactly(trace, first, from, to, r, asks, end),
{
    if complete(trace.events, first) && deterministic(asks, trace, first) {
        let end = lemma_search_exact(trace, first, from, to, r, asks);
        assert(settled_exactly(trace, first, from, to, r, asks, end));
    }
}

/// Whether the calls of a batch can be told apart, and are answered by content:
/// models and tools, no two of the same identity.
pub open spec fn told_apart(s: ReplayState, requests: Seq<RequestModel>) -> bool {
    &&& forall|i: int|
        0 <= i < requests.len() ==> (#[trigger] requests[i]).kind == EffectKind::Model
            || requests[i].kind == EffectKind::Tool
    &&& forall|i: int, j: int|
        0 <= i < j < requests.len() ==> identity_of(policy(s), #[trigger] requests[i])
            != identity_of(policy(s), #[trigger] requests[j])
}

/// Whether no outcome of the next `n` effects is tampered with.
pub open spec fn untouched(s: ReplayState, n: nat) -> bool {
    forall|k: nat|
        k < n ==> ((#[trigger] scheduled_at(s.mode, (s.branch.len() + k) as u64)) matches Some(f)
            ==> scheduling(f))
}

/// Whether an event answers a request as the recording does by content.
pub open spec fn answers_by_content(
    e: EventModel,
    s: ReplayState,
    r: RequestModel,
    batch: Option<u64>,
) -> bool {
    let seen = resolved_free(s, r).0;
    &&& e.kind == r.kind
    &&& e.name == r.name
    &&& e.identity == identity_of(policy(s), r)
    &&& e.request == digest_of(request_json(r))
    &&& e.outcome == match seen.1 {
        Some(d) => d,
        None => digest_of(outcome_json(seen.0)),
    }
    &&& e.fault is None
    &&& e.shadow is None
    &&& e.batch == batch
}

proof fn lemma_batch_by_content(
    s: ReplayState,
    requests: Seq<RequestModel>,
    order: Seq<usize>,
    k: nat,
    batch: Option<u64>,
)
    requires
        s.free,
        told_apart(s, requests),
        untouched(s, requests.len()),
        is_order(order, requests.len()),
        k <= requests.len(),
    ensures
        ({
            let out = batch_performed(s, requests, order, k, batch);
            let n = s.branch.len() as int;
            &&& out.0.len() == k
            &&& out.1.free
            &&& out.1.mode == s.mode
            &&& out.1.trace == s.trace
            &&& out.1.branch.len() == n + k
            &&& forall|j: int|
                0 <= j < k ==> #[trigger] out.0[j] == resolved_free(
                    s,
                    requests[order[j] as int],
                ).0.0
            &&& forall|j: int|
                0 <= j < k ==> answers_by_content(
                    #[trigger] out.1.branch[n + j],
                    s,
                    requests[order[j] as int],
                    batch,
                )
            &&& out.1.oracle.answers == s.oracle.answers
            &&& forall|i: int|
                0 <= i < requests.len() && (forall|j: int| 0 <= j < k ==> order[j] != i)
                    ==> (out.1.oracle.next)(identity_of(policy(s), #[trigger] requests[i])) == (
                s.oracle.next)(identity_of(policy(s), requests[i]))
        }),
    decreases k,
{
    if k > 0 {
        let j = (k - 1) as nat;
        lemma_batch_by_content(s, requests, order, j, batch);
        let before = batch_performed(s, requests, order, j, batch);
        let out = batch_performed(s, requests, order, k, batch);
        let n = s.branch.len() as int;
        let r = requests[order[j as int] as int];
        assert(scheduled_at(s.mode, (s.branch.len() + j) as u64) matches Some(f) ==> scheduling(
            f,
        ));
        assert(injected(before.1, r) is None);
        assert forall|i: int| 0 <= i < j implies order[i] != order[j as int] by {}
        assert((before.1.oracle.next)(identity_of(policy(s), requests[order[j as int] as int]))
            == (s.oracle.next)(identity_of(policy(s), r)));
        assert(resolved_free(before.1, r).0 == resolved_free(s, r).0);
        assert(out.0 =~= before.0.push(resolved_free(s, r).0.0));
        assert forall|i: int| 0 <= i < k implies answers_by_content(
            #[trigger] out.1.branch[n + i],
            s,
            requests[order[i] as int],
            batch,
        ) by {
            if i < j {
                assert(out.1.branch[n + i] == before.1.branch[n + i]);
            }
        }
        assert forall|i: int|
            0 <= i < requests.len() && (forall|a: int| 0 <= a < k ==> order[a] != i) implies (
        out.1.oracle.next)(identity_of(policy(s), #[trigger] requests[i])) == (s.oracle.next)(
            identity_of(policy(s), requests[i]),
        ) by {
            assert(order[j as int] != i);
            assert(identity_of(policy(s), requests[i]) != identity_of(policy(s), r));
        }
    }
}

/// An agent that collects the results of a batch by request is unaffected by
/// the order in which they come: off-script, where the calls can be told apart
/// and no outcome is tampered with, each call has the same outcome and leaves
/// the same event, but for its position, under every order.
pub proof fn lemma_order_by_request(
    s: ReplayState,
    requests: Seq<RequestModel>,
    order: Seq<usize>,
    other: Seq<usize>,
    batch: Option<u64>,
    a: int,
    b: int,
)
    requires
        s.free,
        told_apart(s, requests),
        untouched(s, requests.len()),
        is_order(order, requests.len()),
        is_order(other, requests.len()),
        0 <= a < requests.len(),
        0 <= b < requests.len(),
        order[a] == other[b],
    ensures
        ({
            let n = requests.len();
            let at = s.branch.len() as int;
            let x = batch_performed(s, requests, order, n, batch);
            let y = batch_performed(s, requests, other, n, batch);
            &&& x.0[a] == y.0[b]
            &&& deed(x.1.branch[at + a]) == deed(y.1.branch[at + b])
            &&& x.1.branch[at + a].outcome == y.1.branch[at + b].outcome
        }),
{
    let n = requests.len();
    let at = s.branch.len() as int;
    lemma_batch_by_content(s, requests, order, n, batch);
    lemma_batch_by_content(s, requests, other, n, batch);
    let x = batch_performed(s, requests, order, n, batch);
    let y = batch_performed(s, requests, other, n, batch);
    assert(x.0[a] == y.0[b]);
    assert(answers_by_content(x.1.branch[at + a], s, requests[order[a] as int], batch));
    assert(answers_by_content(y.1.branch[at + b], s, requests[other[b] as int], batch));
}

} // verus!
