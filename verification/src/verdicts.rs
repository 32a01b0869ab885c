//! What a search and a minimisation say of a deterministic agent: what it
//! breaks under a schedule is fixed, so the first seed that breaks something is
//! found, and what is left of its schedule breaks the same.

use crate::canon::digest_of;
use crate::cas::{found, keeps, lemma_stored_keeps, stored, Cas, Contents};
use crate::config::{spec_breaches, Checker, SpecModel};
use crate::determined::{complete, deterministic, lemma_course_fixed};
use crate::event::{EventModel, RequestModel};
use crate::explore::{
    agrees, broken_names, lemma_between_wider, may_break_between, may_come_out, may_end,
    may_find, may_minimise, may_reproduce, reduced_by, seed_is_clean, Asking, Finding, Trial,
};
use crate::fault::{applied, generated, FaultModel, PointModel};
use crate::hash::blake3_hex;
use crate::invariants::{
    after_failures, all_breaches, budget_breach, duplicates, failed_at, first_effect,
    first_landing, tokens_total, Invariant, ViolationModel,
};
use crate::model::views;
use crate::oracle::{asked, recorded_answers};
use crate::record::outcome_json;
use crate::replay::{batch_tag, outcome_bytes, request_bytes};
use crate::replayer::{
    batch_begun, batch_performed, branch_of, completion_order, emitted, injected, observed,
    performed, replay_start, resolved_free, stepped, steps_run, ModeModel, ReplayState, Resolved,
    Step,
};
use crate::shrink::{minimal, sublist, Shrunk, Verdict};
use crate::trace::{faultable_positions, TraceModel};
use vstd::prelude::*;

verus! {

// ---------------------------------------------------------------------------
// What a check reads
// ---------------------------------------------------------------------------

/// Whether two stores find the same under every digest that some events name.
pub open spec fn same_found(events: Seq<EventModel>, a: Contents, b: Contents) -> bool {
    forall|i: int|
        0 <= i < events.len() ==> {
            let e = #[trigger] events[i];
            &&& found(a, e.request) == found(b, e.request)
            &&& found(a, e.outcome) == found(b, e.outcome)
            &&& e.shadow matches Some(d) ==> found(a, d) == found(b, d)
        }
}

/// Whether what invariants find in a run depends on nothing in a store but what
/// the run names.
pub open spec fn reads_named<C: Cas, I: Invariant<C>>(invariants: Seq<I>) -> bool {
    forall|t: TraceModel, a: Contents, b: Contents|
        same_found(t.events, a, b) ==> #[trigger] all_breaches::<C, I>(invariants, t, a)
            == #[trigger] all_breaches::<C, I>(invariants, t, b)
}

proof fn lemma_same_found_before(events: Seq<EventModel>, a: Contents, b: Contents)
    requires
        same_found(events, a, b),
        events.len() > 0,
    ensures
        same_found(events.drop_last(), a, b),
{
    let front = events.drop_last();
    assert forall|i: int| 0 <= i < front.len() implies {
        let e = #[trigger] front[i];
        &&& found(a, e.request) == found(b, e.request)
        &&& found(a, e.outcome) == found(b, e.outcome)
        &&& e.shadow matches Some(d) ==> found(a, d) == found(b, d)
    } by {
        assert(front[i] == events[i]);
    }
}

proof fn lemma_same_duplicates(
    tools: Seq<Seq<char>>,
    field: Option<Seq<char>>,
    events: Seq<EventModel>,
    a: Contents,
    b: Contents,
)
    requires
        same_found(events, a, b),
    ensures
        duplicates(tools, field, events, a) == duplicates(tools, field, events, b),
        forall|identity: Seq<char>| #[trigger]
            first_landing(tools, field, events, a, identity) == first_landing(
                tools,
                field,
                events,
                b,
                identity,
            ),
    decreases events.len(),
{
    if events.len() > 0 {
        let front = events.drop_last();
        let e = events[events.len() - 1];
        lemma_same_found_before(events, a, b);
        lemma_same_duplicates(tools, field, front, a, b);
        assert forall|identity: Seq<char>| #[trigger]
            first_landing(tools, field, events, a, identity) == first_landing(
                tools,
                field,
                events,
                b,
                identity,
            ) by {
            assert(first_landing(tools, field, front, a, identity) == first_landing(
                tools,
                field,
                front,
                b,
                identity,
            ));
            assert(events.last() == e);
        }
        let first = first_landing(tools, field, front, a, e.identity);
        assert(first == first_landing(tools, field, front, b, e.identity));
        if 0 <= first < front.len() {
            assert(events[first] == front[first]);
        }
    }
}

proof fn lemma_same_tokens(events: Seq<EventModel>, a: Contents, b: Contents, budget: u64)
    requires
        same_found(events, a, b),
    ensures
        tokens_total(events, a) == tokens_total(events, b),
        budget_breach(events, a, budget) == budget_breach(events, b, budget),
    decreases events.len(),
{
    if events.len() > 0 {
        let e = events[events.len() - 1];
        lemma_same_found_before(events, a, b);
        lemma_same_tokens(events.drop_last(), a, b, budget);
        assert(events.last() == e);
    }
}

proof fn lemma_same_failures(
    events: Seq<EventModel>,
    a: Contents,
    b: Contents,
    tool: Seq<char>,
    after: Seq<char>,
)
    requires
        same_found(events, a, b),
    ensures
        failed_at(events, a, after) == failed_at(events, b, after),
        after_failures(events, a, tool, after) == after_failures(events, b, tool, after),
    decreases events.len(),
{
    if events.len() > 0 {
        let e = events[events.len() - 1];
        lemma_same_found_before(events, a, b);
        lemma_same_failures(events.drop_last(), a, b, tool, after);
        assert(events.last() == e);
    }
}

proof fn lemma_same_effects(events: Seq<EventModel>, a: Contents, b: Contents, tool: Seq<char>)
    requires
        same_found(events, a, b),
    ensures
        first_effect(events, a, tool) == first_effect(events, b, tool),
    decreases events.len(),
{
    if events.len() > 0 {
        let e = events[events.len() - 1];
        lemma_same_found_before(events, a, b);
        lemma_same_effects(events.drop_last(), a, b, tool);
        assert(events.last() == e);
    }
}

proof fn lemma_same_spec(s: SpecModel, t: TraceModel, a: Contents, b: Contents)
    requires
        same_found(t.events, a, b),
    ensures
        spec_breaches(s, t, a) == spec_breaches(s, t, b),
{
    match s {
        SpecModel::NoDuplicateEffects { tools, idempotency_key } => {
            lemma_same_duplicates(tools, idempotency_key, t.events, a, b);
        },
        SpecModel::TokenBudget { tokens } => {
            lemma_same_tokens(t.events, a, b, tokens);
        },
        SpecModel::NeverAfterFailure { tool, after } => {
            lemma_same_failures(t.events, a, b, tool, after);
        },
        SpecModel::Requires { tool, then } => {
            lemma_same_effects(t.events, a, b, tool);
            assert(crate::invariants::may_have_landed(t.events, a, then)
                == crate::invariants::may_have_landed(t.events, b, then)) by {
                assert forall|i: int| 0 <= i < t.events.len() implies
                    crate::invariants::landing_of(#[trigger] t.events[i], a)
                    == crate::invariants::landing_of(t.events[i], b) by {}
            }
        },
        _ => {},
    }
}

/// Declared properties read nothing of a store but what a run names.
pub proof fn lemma_declared_read_named<C: Cas>(invariants: Seq<Checker>)
    ensures
        reads_named::<C, Checker>(invariants),
{
    assert forall|t: TraceModel, a: Contents, b: Contents| same_found(
        t.events,
        a,
        b,
    ) implies #[trigger] all_breaches::<C, Checker>(invariants, t, a)
        == #[trigger] all_breaches::<C, Checker>(invariants, t, b) by {
        lemma_same_breaches::<C>(invariants, t, a, b);
    }
}

proof fn lemma_same_breaches<C: Cas>(
    invariants: Seq<Checker>,
    t: TraceModel,
    a: Contents,
    b: Contents,
)
    requires
        same_found(t.events, a, b),
    ensures
        all_breaches::<C, Checker>(invariants, t, a) == all_breaches::<C, Checker>(
            invariants,
            t,
            b,
        ),
    decreases invariants.len(),
{
    if invariants.len() > 0 {
        lemma_same_breaches::<C>(invariants.drop_last(), t, a, b);
        lemma_same_spec(crate::config::checked_property(invariants.last()), t, a, b);
    }
}

// ---------------------------------------------------------------------------
// What a run leaves in a store
// ---------------------------------------------------------------------------

/// Whether a store holds every payload that some events name.
pub open spec fn names_held(events: Seq<EventModel>, contents: Contents) -> bool {
    forall|i: int|
        0 <= i < events.len() ==> {
            let e = #[trigger] events[i];
            &&& contents.dom().contains(e.request)
            &&& contents.dom().contains(e.outcome)
            &&& e.shadow matches Some(d) ==> contents.dom().contains(d)
        }
}

/// Whether a replay's store holds what its branch names, and what it may still
/// answer.
spec fn replay_held(s: ReplayState) -> bool {
    &&& complete(s.trace.events, s.contents)
    &&& names_held(s.branch, s.contents)
    &&& forall|id: Seq<char>|
        #![trigger (s.oracle.answers)(id)]
        #![trigger (s.oracle.next)(id)]
        (s.oracle.answers)(id).len() > 0 ==> (s.oracle.next)(id) < (s.oracle.answers)(id).len()
    &&& forall|id: Seq<char>, i: int|
        0 <= i < (s.oracle.answers)(id).len() ==> s.contents.dom().contains(
            (#[trigger] (s.oracle.answers)(id)[i]).0,
        )
}

proof fn lemma_held_wider(s: ReplayState, contents: Contents)
    requires
        replay_held(s),
        keeps(s.contents, contents),
    ensures
        replay_held(ReplayState { contents, ..s }),
{
    let t = ReplayState { contents, ..s };
    assert forall|i: int| 0 <= i < t.trace.events.len() implies contents.dom().contains(
        (#[trigger] t.trace.events[i]).request,
    ) && contents.dom().contains(t.trace.events[i].outcome) by {
        assert(s.contents.dom().contains(s.trace.events[i].request));
        assert(s.contents.dom().contains(s.trace.events[i].outcome));
    }
    assert forall|i: int| 0 <= i < t.branch.len() implies {
        let e = #[trigger] t.branch[i];
        &&& contents.dom().contains(e.request)
        &&& contents.dom().contains(e.outcome)
        &&& e.shadow matches Some(d) ==> contents.dom().contains(d)
    } by {
        let e = s.branch[i];
        assert(s.contents.dom().contains(e.request));
        assert(s.contents.dom().contains(e.outcome));
        if let Some(d) = e.shadow {
            assert(s.contents.dom().contains(d));
        }
    }
    assert forall|id: Seq<char>, i: int|
        0 <= i < (t.oracle.answers)(id).len() implies t.contents.dom().contains(
        (#[trigger] (t.oracle.answers)(id)[i]).0,
    ) by {
        assert(s.contents.dom().contains((s.oracle.answers)(id)[i].0));
    }
}

proof fn lemma_stored_has(contents: Contents, bytes: Seq<u8>)
    ensures
        keeps(contents, stored(contents, bytes)),
        stored(contents, bytes).dom().contains(blake3_hex(bytes)),
{
    lemma_stored_keeps(contents, bytes);
}

proof fn lemma_free_held(s: ReplayState, r: RequestModel)
    requires
        replay_held(s),
    ensures
        replay_held(resolved_free(s, r).1),
        resolved_free(s, r).1.contents == s.contents,
        resolved_free(s, r).0.1 matches Some(d) ==> s.contents.dom().contains(d),
{
    let id = crate::canon::identity_of(crate::replayer::policy(s), r);
    let after = asked(s.oracle, id).1;
    let all = (s.oracle.answers)(id);
    let i = (s.oracle.next)(id);
    if all.len() > 0 {
        assert(i < all.len());
        assert(s.contents.dom().contains(all[i as int].0));
    }
    let end = resolved_free(s, r).1;
    assert(end.oracle.answers == s.oracle.answers);
    assert forall|other: Seq<char>|
        (end.oracle.answers)(other).len() > 0 implies #[trigger] (end.oracle.next)(other) < (
    end.oracle.answers)(other).len() by {
        assert((s.oracle.next)(other) < (s.oracle.answers)(other).len());
    }
}

proof fn lemma_observed_held(s: ReplayState, r: RequestModel)
    requires
        replay_held(s),
    ensures
        replay_held(observed(s, r).1),
        observed(s, r).1.contents == s.contents,
        observed(s, r).0.1 matches Some(d) ==> s.contents.dom().contains(d),
{
    if s.free {
        lemma_free_held(s, r);
    } else if s.cursor < s.trace.events.len() {
        let e = s.trace.events[s.cursor as int];
        assert(s.contents.dom().contains(e.outcome));
        match crate::replayer::mismatch(e, r, crate::replayer::policy(s), s.contents) {
            Some(kind) => {
                lemma_free_held(crate::replayer::diverged(s, kind), r);
            },
            None => {},
        }
    } else {
        lemma_free_held(
            crate::replayer::diverged(
                s,
                crate::divergence::DivergenceKindModel::PastEnd {
                    recorded: s.trace.events.len() as u64,
                },
            ),
            r,
        );
    }
}

proof fn lemma_emitted_held(
    s: ReplayState,
    r: RequestModel,
    outcome: Resolved,
    fault: Option<FaultModel>,
    shadow: Option<Seq<char>>,
    batch: Option<u64>,
)
    requires
        replay_held(s),
        outcome.1 matches Some(d) ==> s.contents.dom().contains(d),
        shadow matches Some(d) ==> s.contents.dom().contains(d),
    ensures
        replay_held(emitted(s, r, outcome, fault, shadow, batch)),
        keeps(s.contents, emitted(s, r, outcome, fault, shadow, batch).contents),
{
    let mid = stored(s.contents, request_bytes(r));
    let end = emitted(s, r, outcome, fault, shadow, batch);
    lemma_stored_has(s.contents, request_bytes(r));
    lemma_stored_has(mid, outcome_bytes(outcome.0));
    assert(keeps(s.contents, end.contents));
    lemma_held_wider(s, end.contents);
    let wide = ReplayState { contents: end.contents, ..s };
    assert forall|i: int| 0 <= i < end.branch.len() implies {
        let e = #[trigger] end.branch[i];
        &&& end.contents.dom().contains(e.request)
        &&& end.contents.dom().contains(e.outcome)
        &&& e.shadow matches Some(d) ==> end.contents.dom().contains(d)
    } by {
        if i < s.branch.len() {
            assert(end.branch[i] == wide.branch[i]);
        } else {
            assert(mid.dom().contains(blake3_hex(request_bytes(r))));
        }
    }
}

proof fn lemma_performed_held(s: ReplayState, r: RequestModel, batch: Option<u64>)
    requires
        replay_held(s),
    ensures
        replay_held(performed(s, r, batch).1),
{
    let (seen, after) = observed(s, r);
    lemma_observed_held(s, r);
    match injected(s, r) {
        Some(f) => {
            let hidden = match seen.1 {
                Some(_) => after.contents,
                None => stored(after.contents, outcome_bytes(seen.0)),
            };
            let shadow = match seen.1 {
                Some(d) => d,
                None => digest_of(outcome_json(seen.0)),
            };
            lemma_stored_has(after.contents, outcome_bytes(seen.0));
            lemma_held_wider(after, hidden);
            let lied = ReplayState { contents: hidden, free: true, ..after };
            assert(replay_held(lied));
            lemma_emitted_held(
                lied,
                r,
                (applied(f, seen.0), None),
                Some(f),
                Some(shadow),
                batch,
            );
        },
        None => {
            lemma_emitted_held(after, r, seen, None, None, batch);
        },
    }
}

proof fn lemma_batch_held(
    s: ReplayState,
    requests: Seq<RequestModel>,
    order: Seq<usize>,
    k: nat,
    batch: Option<u64>,
)
    requires
        replay_held(s),
    ensures
        replay_held(batch_performed(s, requests, order, k, batch).1),
    decreases k,
{
    if k > 0 {
        lemma_batch_held(s, requests, order, (k - 1) as nat, batch);
        lemma_performed_held(
            batch_performed(s, requests, order, (k - 1) as nat, batch).1,
            requests[order[k - 1] as int],
            batch,
        );
    }
}

proof fn lemma_steps_held(s: ReplayState, steps: Seq<Step>)
    requires
        replay_held(s),
    ensures
        replay_held(steps_run(s, steps)),
    decreases steps.len(),
{
    if steps.len() > 0 {
        reveal(stepped);
        lemma_steps_held(s, steps.drop_last());
        let before = steps_run(s, steps.drop_last());
        match steps.last() {
            Step::One { request } => {
                lemma_performed_held(before, request, None);
            },
            Step::Batch { requests } => {
                let n = requests.len();
                assert(replay_held(batch_begun(before, n)));
                lemma_batch_held(
                    batch_begun(before, n),
                    requests,
                    completion_order(before, n),
                    n,
                    batch_tag(before.next_batch, n),
                );
            },
        }
    }
}

proof fn lemma_answers_held(
    events: Seq<EventModel>,
    contents: Contents,
    identity: Seq<char>,
    i: int,
)
    requires
        0 <= i < recorded_answers(events, contents, identity).len(),
    ensures
        contents.dom().contains(recorded_answers(events, contents, identity)[i].0),
    decreases events.len(),
{
    let front = recorded_answers(events.drop_last(), contents, identity);
    if i < front.len() {
        lemma_answers_held(events.drop_last(), contents, identity, i);
    }
}

/// A run's store holds every payload that the run names, where it held the
/// recording's.
pub proof fn lemma_end_held(
    trace: TraceModel,
    before: Contents,
    schedule: Seq<PointModel>,
    end: ReplayState,
    asks: Asking,
)
    requires
        complete(trace.events, before),
        may_end(trace, before, schedule, end, asks),
    ensures
        names_held(end.branch, end.contents),
{
    let start = replay_start(trace, before, ModeModel::Counterfactual { schedule });
    let steps = choose|steps: Seq<Step>|
        asks.contains((start, steps)) && end == #[trigger] steps_run(start, steps);
    assert forall|id: Seq<char>, i: int|
        0 <= i < (start.oracle.answers)(id).len() implies start.contents.dom().contains(
        (#[trigger] (start.oracle.answers)(id)[i]).0,
    ) by {
        lemma_answers_held(trace.events, before, id, i);
    }
    assert(replay_held(start));
    lemma_steps_held(start, steps);
}

// ---------------------------------------------------------------------------
// The laws
// ---------------------------------------------------------------------------

/// What a deterministic agent breaks under a schedule is fixed, whichever of
/// the stores between two it is replayed over.
pub proof fn lemma_breaks_fixed<C: Cas, I: Invariant<C>>(
    trace: TraceModel,
    first: Contents,
    last: Contents,
    schedule: Seq<PointModel>,
    invariants: Seq<I>,
    one: Seq<ViolationModel>,
    other: Seq<ViolationModel>,
    asks: Asking,
)
    requires
        complete(trace.events, first),
        deterministic(asks, trace, first),
        reads_named::<C, I>(invariants),
        may_break_between::<C, I>(trace, first, last, schedule, invariants, one, asks),
        may_break_between::<C, I>(trace, first, last, schedule, invariants, other, asks),
    ensures
        one == other,
{
    let (a, x) = choose|before: Contents, end: ReplayState|
        keeps(first, before) && #[trigger] may_end(trace, before, schedule, end, asks) && keeps(
            end.contents,
            last,
        ) && one == all_breaches::<C, I>(
            invariants,
            branch_of(end, "counterfactual"@),
            end.contents,
        );
    let (b, y) = choose|before: Contents, end: ReplayState|
        keeps(first, before) && #[trigger] may_end(trace, before, schedule, end, asks) && keeps(
            end.contents,
            last,
        ) && other == all_breaches::<C, I>(
            invariants,
            branch_of(end, "counterfactual"@),
            end.contents,
        );
    lemma_course_fixed(trace, first, a, b, schedule, x, y, asks);
    lemma_complete_wider(trace.events, first, a);
    lemma_complete_wider(trace.events, first, b);
    lemma_end_held(trace, a, schedule, x, asks);
    lemma_end_held(trace, b, schedule, y, asks);
    let t = branch_of(x, "counterfactual"@);
    assert(t == branch_of(y, "counterfactual"@));
    lemma_within_agree(t.events, x.contents, y.contents, last);
}

proof fn lemma_complete_wider(events: Seq<EventModel>, first: Contents, held: Contents)
    requires
        complete(events, first),
        keeps(first, held),
    ensures
        complete(events, held),
{
    assert forall|i: int| 0 <= i < events.len() implies held.dom().contains(
        (#[trigger] events[i]).request,
    ) && held.dom().contains(events[i].outcome) by {
        assert(first.dom().contains(events[i].request));
        assert(first.dom().contains(events[i].outcome));
    }
}

proof fn lemma_within_agree(events: Seq<EventModel>, a: Contents, b: Contents, last: Contents)
    requires
        names_held(events, a),
        names_held(events, b),
        keeps(a, last),
        keeps(b, last),
    ensures
        same_found(events, a, b),
{
    assert forall|i: int| 0 <= i < events.len() implies {
        let e = #[trigger] events[i];
        &&& found(a, e.request) == found(b, e.request)
        &&& found(a, e.outcome) == found(b, e.outcome)
        &&& e.shadow matches Some(d) ==> found(a, d) == found(b, d)
    } by {
        let e = events[i];
        assert(a.dom().contains(e.request) && b.dom().contains(e.request));
        assert(a.dom().contains(e.outcome) && b.dom().contains(e.outcome));
    }
}

/// Evaluating a schedule again breaks what it broke before, for a deterministic
/// agent and a store that holds the recording, whatever was replayed between.
pub proof fn lemma_evaluation_repeats<C: Cas, I: Invariant<C>>(
    trace: TraceModel,
    first: Contents,
    last: Contents,
    later: Contents,
    latest: Contents,
    schedule: Seq<PointModel>,
    invariants: Seq<I>,
    one: Seq<ViolationModel>,
    other: Seq<ViolationModel>,
    asks: Asking,
)
    requires
        complete(trace.events, first),
        deterministic(asks, trace, first),
        reads_named::<C, I>(invariants),
        keeps(first, later),
        keeps(last, latest),
        may_break_between::<C, I>(trace, first, last, schedule, invariants, one, asks),
        may_break_between::<C, I>(trace, later, latest, schedule, invariants, other, asks),
    ensures
        one == other,
{
    lemma_between_wider::<C, I>(
        trace,
        first,
        first,
        last,
        latest,
        schedule,
        invariants,
        one,
        asks,
    );
    lemma_between_wider::<C, I>(
        trace,
        first,
        later,
        latest,
        latest,
        schedule,
        invariants,
        other,
        asks,
    );
    lemma_breaks_fixed::<C, I>(
        trace,
        first,
        latest,
        schedule,
        invariants,
        one,
        other,
        asks,
    );
}

/// Whether the schedule of a seed holds a fault and breaks an invariant.
pub open spec fn seed_breaks<C: Cas, I: Invariant<C>>(
    trace: TraceModel,
    first: Contents,
    last: Contents,
    seed: u64,
    max_faults: nat,
    invariants: Seq<I>,
    asks: Asking,
) -> bool {
    let schedule = generated(seed, faultable_positions(trace.events), max_faults);
    schedule.len() > 0 && exists|v: Seq<ViolationModel>| #[trigger]
        may_break_between::<C, I>(trace, first, last, schedule, invariants, v, asks) && v.len() > 0
}

/// Whether replaying a run under a schedule breaks this and nothing else.
pub open spec fn breaks_exactly<C: Cas, I: Invariant<C>>(
    trace: TraceModel,
    first: Contents,
    last: Contents,
    schedule: Seq<PointModel>,
    invariants: Seq<I>,
    found: Seq<ViolationModel>,
    asks: Asking,
) -> bool {
    &&& may_break_between::<C, I>(trace, first, last, schedule, invariants, found, asks)
    &&& forall|v: Seq<ViolationModel>| #[trigger]
        may_break_between::<C, I>(trace, first, last, schedule, invariants, v, asks) ==> v == found
}

/// Whether a search found the first seed that breaks an invariant, with what it
/// breaks, or none where no seed does.
pub open spec fn found_first<C: Cas, I: Invariant<C>>(
    trace: TraceModel,
    first: Contents,
    last: Contents,
    from: u64,
    to: u64,
    max_faults: nat,
    invariants: Seq<I>,
    r: Option<Finding>,
    asks: Asking,
) -> bool {
    &&& r is None <==> forall|seed: u64|
        from <= seed < to ==> !#[trigger] seed_breaks::<C, I>(
            trace,
            first,
            last,
            seed,
            max_faults,
            invariants,
            asks,
        )
    &&& r matches Some(f) ==> {
        &&& from <= f.seed < to
        &&& f.schedule@ == generated(f.seed, faultable_positions(trace.events), max_faults)
        &&& f.schedule@.len() > 0
        &&& f.violations@.len() > 0
        &&& breaks_exactly::<C, I>(
            trace,
            first,
            last,
            f.schedule@,
            invariants,
            views(f.violations@),
            asks,
        )
        &&& forall|seed: u64|
            from <= seed < f.seed ==> !#[trigger] seed_breaks::<C, I>(
                trace,
                first,
                last,
                seed,
                max_faults,
                invariants,
                asks,
            )
    }
}

proof fn lemma_clean_breaks_nothing<C: Cas, I: Invariant<C>>(
    trace: TraceModel,
    first: Contents,
    last: Contents,
    seed: u64,
    max_faults: nat,
    invariants: Seq<I>,
    asks: Asking,
)
    requires
        complete(trace.events, first),
        deterministic(asks, trace, first),
        reads_named::<C, I>(invariants),
        seed_is_clean::<C, I>(trace, first, last, seed, max_faults, invariants, asks),
    ensures
        !seed_breaks::<C, I>(trace, first, last, seed, max_faults, invariants, asks),
{
    let schedule = generated(seed, faultable_positions(trace.events), max_faults);
    if schedule.len() > 0 {
        assert forall|v: Seq<ViolationModel>| #[trigger]
            may_break_between::<C, I>(trace, first, last, schedule, invariants, v, asks) implies
            v.len() == 0 by {
            lemma_breaks_fixed::<C, I>(
                trace,
                first,
                last,
                schedule,
                invariants,
                v,
                seq![],
                asks,
            );
        }
    }
}

/// For a deterministic agent and a store that holds the recording, a search is
/// exact: it finds nothing exactly where no seed with a fault breaks an
/// invariant, and else the first seed that does, with what it breaks.
pub proof fn lemma_search_first<C: Cas, I: Invariant<C>>(
    trace: TraceModel,
    first: Contents,
    last: Contents,
    from: u64,
    to: u64,
    max_faults: nat,
    invariants: Seq<I>,
    r: Option<Finding>,
    asks: Asking,
)
    requires
        complete(trace.events, first),
        deterministic(asks, trace, first),
        reads_named::<C, I>(invariants),
        may_find::<C, I>(trace, first, last, from, to, max_faults, invariants, r, asks),
    ensures
        found_first::<C, I>(trace, first, last, from, to, max_faults, invariants, r, asks),
{
    let end = match r {
        Some(f) => f.seed,
        None => to,
    };
    assert forall|seed: u64| from <= seed < end implies !#[trigger] seed_breaks::<C, I>(
        trace,
        first,
        last,
        seed,
        max_faults,
        invariants,
        asks,
    ) by {
        assert(seed_is_clean::<C, I>(trace, first, last, seed, max_faults, invariants, asks));
        lemma_clean_breaks_nothing::<C, I>(
            trace,
            first,
            last,
            seed,
            max_faults,
            invariants,
            asks,
        );
    }
    if let Some(f) = r {
        assert forall|v: Seq<ViolationModel>| #[trigger]
            may_break_between::<C, I>(trace, first, last, f.schedule@, invariants, v, asks) implies
            v == views(f.violations@) by {
            lemma_breaks_fixed::<C, I>(
                trace,
                first,
                last,
                f.schedule@,
                invariants,
                v,
                views(f.violations@),
                asks,
            );
        }
        assert(views(f.violations@).len() == f.violations@.len());
        assert(seed_breaks::<C, I>(trace, first, last, f.seed, max_faults, invariants, asks));
    }
}

/// Whether replaying a run under a schedule breaks exactly the invariants of
/// these names.
pub open spec fn reproduces<C: Cas, I: Invariant<C>>(
    trace: TraceModel,
    first: Contents,
    last: Contents,
    invariants: Seq<I>,
    target: Seq<Seq<char>>,
    asks: Asking,
) -> Verdict {
    |schedule: Seq<PointModel>|
        exists|v: Seq<ViolationModel>| #[trigger]
            may_break_between::<C, I>(trace, first, last, schedule, invariants, v, asks)
                && broken_names(v) == target
}

/// Whether a schedule is what `ddmin` leaves of a finding's, and breaks the same
/// invariants: the same failure, not merely some failure.
pub open spec fn same_failure<C: Cas, I: Invariant<C>>(
    trace: TraceModel,
    first: Contents,
    last: Contents,
    invariants: Seq<I>,
    finding: Finding,
    r: Shrunk,
    asks: Asking,
) -> bool {
    let target = broken_names(views(finding.violations@));
    &&& r.started_with == finding.schedule@.len()
    &&& sublist(r.schedule@, finding.schedule@)
    &&& r.schedule@ == minimal(
        reproduces::<C, I>(trace, first, last, invariants, target, asks),
        finding.schedule@,
    ).0
    &&& exists|v: Seq<ViolationModel>| #[trigger]
        breaks_exactly::<C, I>(trace, first, last, r.schedule@, invariants, v, asks)
            && broken_names(v) == target
}

/// For a deterministic agent and a store that holds the recording, minimising a
/// finding keeps the failure: what is left of its schedule breaks the same
/// invariants, and is what `ddmin` leaves of it.
pub proof fn lemma_minimise_same_failure<C: Cas, I: Invariant<C>>(
    trace: TraceModel,
    base: Contents,
    first: Contents,
    last: Contents,
    invariants: Seq<I>,
    finding: Finding,
    r: Shrunk,
    asks: Asking,
)
    requires
        complete(trace.events, base),
        deterministic(asks, trace, base),
        reads_named::<C, I>(invariants),
        keeps(base, first),
        may_break_between::<C, I>(
            trace,
            base,
            last,
            finding.schedule@,
            invariants,
            views(finding.violations@),
            asks,
        ),
        may_minimise::<C, I>(trace, first, last, invariants, finding, r, asks),
    ensures
        same_failure::<C, I>(trace, base, last, invariants, finding, r, asks),
{
    let target = broken_names(views(finding.violations@));
    let fails = reproduces::<C, I>(trace, base, last, invariants, target, asks);
    let trials = choose|trials: Seq<Trial>|
        {
            &&& #[trigger] may_come_out::<C, I>(
                trace,
                first,
                last,
                invariants,
                target,
                trials,
                asks,
            )
            &&& trials.len() > 0
            &&& r.evaluations == crate::shrink::capped(trials.len())
            &&& reduced_by(trials, finding.schedule@, r.schedule@, r.evaluations as nat)
            &&& r.schedule@ != finding.schedule@ ==> exists|i: int|
                0 <= i < trials.len() && (#[trigger] trials[i]).schedule == r.schedule@
                    && trials[i].failed
        };
    assert forall|i: int| 0 <= i < trials.len() implies fails((#[trigger] trials[i]).schedule)
        == trials[i].failed by {
        let schedule = trials[i].schedule;
        assert(may_reproduce::<C, I>(
            trace,
            first,
            last,
            invariants,
            target,
            schedule,
            trials[i].failed,
            asks,
        ));
        let v = choose|v: Seq<ViolationModel>| #[trigger]
            may_break_between::<C, I>(trace, first, last, schedule, invariants, v, asks)
                && trials[i].failed == (broken_names(v) == target);
        lemma_between_wider::<C, I>(
            trace,
            base,
            first,
            last,
            last,
            schedule,
            invariants,
            v,
            asks,
        );
        assert forall|w: Seq<ViolationModel>| #[trigger]
            may_break_between::<C, I>(trace, base, last, schedule, invariants, w, asks) implies w
            == v by {
            lemma_breaks_fixed::<C, I>(
                trace,
                base,
                last,
                schedule,
                invariants,
                w,
                v,
                asks,
            );
        }
    }
    assert(agrees(fails, trials));
    assert(fails(r.schedule@)) by {
        if r.schedule@ != finding.schedule@ {
            let i = choose|i: int|
                0 <= i < trials.len() && (#[trigger] trials[i]).schedule == r.schedule@
                    && trials[i].failed;
            assert(fails(trials[i].schedule));
        }
    }
    let v = choose|v: Seq<ViolationModel>| #[trigger]
        may_break_between::<C, I>(trace, base, last, r.schedule@, invariants, v, asks)
            && broken_names(v) == target;
    assert forall|w: Seq<ViolationModel>| #[trigger]
        may_break_between::<C, I>(trace, base, last, r.schedule@, invariants, w, asks) implies w
        == v by {
        lemma_breaks_fixed::<C, I>(trace, base, last, r.schedule@, invariants, w, v, asks);
    }
    assert(breaks_exactly::<C, I>(trace, base, last, r.schedule@, invariants, v, asks));
}

/// `lemma_search_first`, as an implication.
pub(crate) proof fn lemma_search_comes_out<C: Cas, I: Invariant<C>>(
    trace: TraceModel,
    first: Contents,
    last: Contents,
    from: u64,
    to: u64,
    max_faults: nat,
    invariants: Seq<I>,
    r: Option<Finding>,
    asks: Asking,
)
    requires
        may_find::<C, I>(trace, first, last, from, to, max_faults, invariants, r, asks),
    ensures
        complete(trace.events, first) && deterministic(asks, trace, first) && reads_named::<C, I>(
            invariants,
        ) ==> found_first::<C, I>(
            trace,
            first,
            last,
            from,
            to,
            max_faults,
            invariants,
            r,
            asks,
        ),
{
    if complete(trace.events, first) && deterministic(asks, trace, first) && reads_named::<C, I>(
        invariants,
    ) {
        lemma_search_first::<C, I>(
            trace,
            first,
            last,
            from,
            to,
            max_faults,
            invariants,
            r,
            asks,
        );
    }
}

/// `lemma_minimise_same_failure` over one store, as an implication.
pub(crate) proof fn lemma_minimise_comes_out<C: Cas, I: Invariant<C>>(
    trace: TraceModel,
    first: Contents,
    last: Contents,
    invariants: Seq<I>,
    finding: Finding,
    r: Shrunk,
    asks: Asking,
)
    requires
        may_minimise::<C, I>(trace, first, last, invariants, finding, r, asks),
    ensures
        complete(trace.events, first) && deterministic(asks, trace, first) && reads_named::<C, I>(
            invariants,
        ) && may_break_between::<C, I>(
            trace,
            first,
            last,
            finding.schedule@,
            invariants,
            views(finding.violations@),
            asks,
        ) ==> same_failure::<C, I>(trace, first, last, invariants, finding, r, asks),
{
    if complete(trace.events, first) && deterministic(asks, trace, first) && reads_named::<C, I>(
        invariants,
    ) && may_break_between::<C, I>(
        trace,
        first,
        last,
        finding.schedule@,
        invariants,
        views(finding.violations@),
        asks,
    ) {
        lemma_minimise_same_failure::<C, I>(
            trace,
            first,
            first,
            last,
            invariants,
            finding,
            r,
            asks,
        );
    }
}

} // verus!
