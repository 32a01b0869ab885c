//! Where a replay leaves its recording, what is reported of that, and how the
//! run is answered from there on.

use crate::canon::{digest_of, identity_of};
use crate::cas::Contents;
use crate::divergence::{divergence_report, DivergenceKindModel};
use crate::event::{kind_name, EffectKind, EventModel, OutcomeModel, RequestModel};
use crate::fault::{FaultModel, PointModel};
use crate::json::{JsonModel, NumberModel};
use crate::oracle::{asked, outcome_at, recorded_answers};
use crate::record::{outcome_json, request_json};
use crate::replay::{batch_after, batch_tag, recorded, RecordState};
use crate::replayer::{
    batch_order, branch_of, completion_order, final_divergences, mismatch, observed, performed,
    policy, replay_start, resolved_free, ModeModel, ReplayState,
};
use crate::text::decimal;
use crate::trace::{run_id, TraceModel};
use vstd::prelude::*;

verus! {

/// A request is the recorded effect exactly where it is of the same kind, has
/// the same target and the same identity under the recording's policy. Else what
/// is reported is the first of these that differs, with what was recorded and
/// what was asked.
pub proof fn lemma_same_effect(
    e: EventModel,
    r: RequestModel,
    paths: Seq<Seq<char>>,
    contents: Contents,
)
    ensures
        mismatch(e, r, paths, contents) is None <==> e.kind == r.kind && e.name == r.name
            && e.identity == identity_of(paths, r),
        e.kind != r.kind ==> mismatch(e, r, paths, contents) == Some(
            DivergenceKindModel::Kind { expected: e.kind, found: r.kind },
        ),
        e.kind == r.kind && e.name != r.name ==> mismatch(e, r, paths, contents) == Some(
            DivergenceKindModel::Name { expected: e.name, found: r.name },
        ),
        e.kind == r.kind && e.name == r.name && e.identity != identity_of(paths, r) ==> (mismatch(
            e,
            r,
            paths,
            contents,
        ) matches Some(DivergenceKindModel::Identity { expected, found, .. }) && expected
            == e.identity && found == identity_of(paths, r)),
{
}

/// An agent in lockstep that asks for anything else than was recorded next is
/// reported once, at that position, and answered off-script from there on. One
/// that asks for just that is answered with what was recorded, and stays in
/// lockstep.
pub proof fn lemma_leaving_lockstep(s: ReplayState, r: RequestModel)
    requires
        !s.free,
    ensures
        ({
            let (seen, after) = observed(s, r);
            if s.cursor < s.trace.events.len() {
                let e = s.trace.events[s.cursor as int];
                if e.kind == r.kind && e.name == r.name && e.identity == identity_of(
                    s.trace.header.canonicalizer,
                    r,
                ) {
                    &&& outcome_at(s.contents, e.outcome) matches Some(o) ==> seen.0 == o
                    &&& outcome_at(s.contents, e.outcome) is None ==> seen.0 is Failure
                    &&& seen.1 == Some(e.outcome)
                    &&& after == (ReplayState { cursor: s.cursor + 1, ..s })
                } else {
                    &&& after.free
                    &&& after.divergences.len() == s.divergences.len() + 1
                    &&& after.divergences.last().at_seq == s.branch.len() as u64
                    &&& e.kind != r.kind ==> after.divergences.last().kind is Kind
                    &&& e.kind == r.kind && e.name != r.name
                        ==> after.divergences.last().kind is Name
                    &&& e.kind == r.kind && e.name == r.name
                        ==> after.divergences.last().kind is Identity
                }
            } else {
                &&& after.free
                &&& after.divergences.len() == s.divergences.len() + 1
                &&& after.divergences.last().at_seq == s.branch.len() as u64
                &&& after.divergences.last().kind == (DivergenceKindModel::PastEnd {
                    recorded: s.trace.events.len() as u64,
                })
            }
        }),
{
}

/// A run that has left lockstep reports no more divergences: all that follows is
/// downstream of the first.
pub proof fn lemma_one_divergence(s: ReplayState, r: RequestModel, batch: Option<u64>)
    requires
        s.free,
    ensures
        performed(s, r, batch).1.divergences == s.divergences,
        performed(s, r, batch).1.free,
        performed(s, r, batch).1.cursor == s.cursor,
{
}

/// A strict replay that stops before the recording ends is reported where it
/// stopped, with how far it came. A counterfactual one may stop where it likes,
/// and one that came to the end is not reported.
pub proof fn lemma_stopping_short(s: ReplayState)
    ensures
        s.mode is Strict && s.cursor < s.trace.events.len() ==> {
            let all = final_divergences(s);
            &&& all.len() == s.divergences.len() + 1
            &&& all.drop_last() == s.divergences
            &&& all.last().at_seq == s.cursor as u64
            &&& all.last().kind == (DivergenceKindModel::StoppedShort {
                recorded: s.trace.events.len() as u64,
                performed: s.cursor as u64,
            })
        },
        s.mode is Counterfactual || s.cursor >= s.trace.events.len() ==> final_divergences(s)
            == s.divergences,
{
    assert(final_divergences(s).len() > s.divergences.len() ==> final_divergences(s).drop_last()
        =~= s.divergences);
}

/// Off-script the clock still only runs forward: each read is later than the one
/// before, and the store's word on the time is not asked.
pub proof fn lemma_free_clock(s: ReplayState, r: RequestModel)
    requires
        r.kind == EffectKind::Clock,
    ensures
        ({
            let (seen, after) = resolved_free(s, r);
            &&& seen.0 == (OutcomeModel::Success {
                value: JsonModel::Number(NumberModel::Unsigned(after.clock)),
            })
            &&& s.clock < after.clock || s.clock == u64::MAX
            &&& s.clock <= after.clock
            &&& s.clock <= u64::MAX - 25 ==> after.clock == s.clock + 25
            &&& after == (ReplayState { clock: after.clock, ..s })
        }),
{
}

/// Off-script a call is answered with what the recording holds for the same
/// effect, in the order in which it was recorded and then with the last. What
/// the recording holds nothing for fails, and is listed as a hole, where it was
/// asked and what it was.
pub proof fn lemma_free_calls(s: ReplayState, r: RequestModel)
    requires
        r.kind == EffectKind::Model || r.kind == EffectKind::Tool,
    ensures
        ({
            let (seen, after) = resolved_free(s, r);
            let id = identity_of(s.trace.header.canonicalizer, r);
            let all = (s.oracle.answers)(id);
            let at = (s.oracle.next)(id);
            if all.len() > 0 {
                &&& seen.0 == all[at as int].1
                &&& seen.1 == Some(all[at as int].0)
                &&& after.holes == s.holes
                &&& (after.oracle.next)(id) == if at + 1 < all.len() {
                    at + 1
                } else {
                    at
                }
                &&& forall|other: Seq<char>|
                    other != id ==> #[trigger] (after.oracle.next)(other) == (s.oracle.next)(other)
            } else {
                &&& seen.0 is Failure
                &&& seen.1 is None
                &&& after.holes.len() == s.holes.len() + 1
                &&& after.holes.drop_last() == s.holes
                &&& after.holes.last().seq == s.branch.len() as u64
                &&& after.holes.last().kind == r.kind
                &&& after.holes.last().name == r.name
                &&& after.holes.last().identity == id
            }
        }),
{
    let after = resolved_free(s, r).1;
    if after.holes.len() > s.holes.len() {
        assert(after.holes.drop_last() =~= s.holes);
    }
}

/// The recording's answers to an effect are the outcomes that the effect had, in
/// order: an event adds its outcome to those of its own identity, where the store
/// holds it, and to no others.
pub proof fn lemma_answers_recorded(
    events: Seq<EventModel>,
    e: EventModel,
    contents: Contents,
    identity: Seq<char>,
)
    ensures
        recorded_answers(seq![], contents, identity).len() == 0,
        recorded_answers(events.push(e), contents, identity) == if e.identity == identity
            && outcome_at(contents, e.outcome) is Some {
            recorded_answers(events, contents, identity).push(
                (e.outcome, outcome_at(contents, e.outcome)->0),
            )
        } else {
            recorded_answers(events, contents, identity)
        },
{
    assert(events.push(e).drop_last() =~= events);
}

/// A replay starts in lockstep at the recording's first effect, with nothing
/// done, nothing reported and every answer still to give.
pub proof fn lemma_fresh_replay(
    trace: TraceModel,
    contents: Contents,
    mode: ModeModel,
    identity: Seq<char>,
)
    ensures
        ({
            let s = replay_start(trace, contents, mode);
            &&& !s.free
            &&& s.cursor == 0
            &&& s.branch.len() == 0
            &&& s.divergences.len() == 0
            &&& s.holes.len() == 0
            &&& s.trace == trace
            &&& s.mode == mode
            &&& s.contents == contents
            &&& (s.oracle.next)(identity) == 0
            &&& (s.oracle.answers)(identity) == recorded_answers(trace.events, contents, identity)
        }),
{
}

/// Every effect is appended to the run as it was asked: with its kind, its
/// target, its identity under the recording's policy, its position and its group.
/// The store then holds the request, and what the agent saw. A fault is kept with
/// it, and takes the run out of lockstep.
pub proof fn lemma_effect_noted(s: ReplayState, r: RequestModel, batch: Option<u64>)
    ensures
        ({
            let end = performed(s, r, batch).1;
            let e = end.branch.last();
            &&& end.branch.len() == s.branch.len() + 1
            &&& end.branch.drop_last() == s.branch
            &&& e.seq == s.branch.len() as u64
            &&& e.logical_time == s.branch.len() as u64
            &&& e.kind == r.kind
            &&& e.name == r.name
            &&& e.identity == identity_of(s.trace.header.canonicalizer, r)
            &&& e.request == digest_of(request_json(r))
            &&& e.batch == batch
            &&& end.contents.dom().contains(e.request)
            &&& e.fault is Some ==> end.free && e.shadow is Some && e.outcome == digest_of(
                outcome_json(performed(s, r, batch).0),
            ) && end.contents.dom().contains(e.outcome)
            &&& e.fault is None ==> e.shadow is None
        }),
{
    let end = performed(s, r, batch).1;
    assert(end.branch.drop_last() =~= s.branch);
}

/// A branch says where it came from: the recording it was forked from, the
/// faults it ran under, and the recording's identity policy. Its events are what
/// the agent did.
pub proof fn lemma_branch_lineage(s: ReplayState, label: Seq<char>)
    ensures
        ({
            let t = branch_of(s, label);
            &&& t.events == s.branch
            &&& t.header.label == label
            &&& t.header.parent == Some(run_id(s.trace.events))
            &&& t.header.canonicalizer == s.trace.header.canonicalizer
            &&& s.mode is Strict ==> t.header.schedule is None
            &&& s.mode matches ModeModel::Counterfactual { schedule } ==> t.header.schedule == Some(
                schedule,
            )
        }),
{
}

/// A recorder appends each effect as it passes: its kind, its target, its
/// identity under the policy in force, its position and its group, without a
/// fault. The store then holds what was asked and what came back.
pub proof fn lemma_effect_recorded(
    s: RecordState,
    r: RequestModel,
    o: OutcomeModel,
    batch: Option<u64>,
)
    ensures
        ({
            let t = recorded(s, r, o, batch);
            let e = t.events.last();
            &&& t.events.len() == s.events.len() + 1
            &&& t.events.drop_last() == s.events
            &&& e.seq == s.events.len() as u64
            &&& e.kind == r.kind
            &&& e.name == r.name
            &&& e.identity == identity_of(s.paths, r)
            &&& e.request == digest_of(request_json(r))
            &&& e.outcome == digest_of(outcome_json(o))
            &&& e.batch == batch
            &&& e.fault is None
            &&& e.shadow is None
            &&& t.contents.dom().contains(e.request)
            &&& t.contents.dom().contains(e.outcome)
            &&& t.paths == s.paths
        }),
{
    let t = recorded(s, r, o, batch);
    assert(t.events.drop_last() =~= s.events);
}

/// Calls issued together are one group, and no two groups have the same number.
/// A call issued alone is in none.
pub proof fn lemma_groups_apart(next: u64, n: nat, later: nat)
    requires
        next < u64::MAX,
    ensures
        n < 2 ==> batch_tag(next, n) is None && batch_after(next, n) == next,
        n >= 2 ==> batch_tag(next, n) == Some(next) && batch_after(next, n) > next,
        n >= 2 && later >= 2 ==> batch_tag(next, n) != batch_tag(batch_after(next, n), later),
{
}

/// A batch completes in the order in which it was asked, unless a fault on its
/// first position changes that: an exact order is used as it is.
pub proof fn lemma_batch_orders(s: ReplayState, n: nat, order: Seq<usize>)
    requires
        2 <= n,
        s.branch.len() <= u64::MAX,
    ensures
        s.mode is Strict ==> completion_order(s, n) == Seq::new(n, |i: int| i as usize),
        s.mode matches ModeModel::Counterfactual { schedule } && schedule == seq![
            PointModel { seq: s.branch.len() as u64, fault: FaultModel::Exact { order } },
        ] && crate::fault::is_order(order, n) ==> completion_order(s, n) == order,
        batch_order(s, n) is None ==> completion_order(s, n) == Seq::new(n, |i: int| i as usize),
{
    if let ModeModel::Counterfactual { schedule } = s.mode {
        if schedule == seq![
            PointModel { seq: s.branch.len() as u64, fault: FaultModel::Exact { order } },
        ] {
            crate::injected::lemma_first_named(schedule, 0);
        }
    }
}

// ---------------------------------------------------------------------------
// Reports
// ---------------------------------------------------------------------------

/// Whether a text holds another.
pub open spec fn mentions(text: Seq<char>, part: Seq<char>) -> bool {
    exists|a: Seq<char>, b: Seq<char>| text == #[trigger] ((a + part) + b)
}

/// A report on a divergence says at which effect it was, what was recorded and
/// what the agent did instead.
pub proof fn lemma_reports_say(at: u64, kind: DivergenceKindModel)
    ensures
        ({
            let text = divergence_report(
                crate::divergence::DivergenceModel { at_seq: at, kind },
            );
            match kind {
                DivergenceKindModel::Kind { expected, found } => mentions(
                    text,
                    decimal(at as nat),
                ) && mentions(text, kind_name(expected)) && mentions(text, kind_name(found)),
                DivergenceKindModel::Name { expected, found } => mentions(text, decimal(at as nat))
                    && mentions(text, expected) && mentions(text, found),
                DivergenceKindModel::Identity { first_difference, .. } => mentions(
                    text,
                    decimal(at as nat),
                ) && (first_difference matches Some(d) ==> mentions(text, d)),
                DivergenceKindModel::PastEnd { recorded } => mentions(text, decimal(at as nat))
                    && mentions(text, decimal(recorded as nat)),
                DivergenceKindModel::StoppedShort { recorded, performed } => mentions(
                    text,
                    decimal(recorded as nat),
                ) && mentions(text, decimal(performed as nat)),
            }
        }),
{
    let d = crate::divergence::DivergenceModel { at_seq: at, kind };
    let text = divergence_report(d);
    let head = "divergence at effect #"@;
    let n = decimal(at as nat);
    match kind {
        DivergenceKindModel::Kind { expected, found } => {
            let (a, b, c) = (": expected a "@, " effect, agent performed a "@, " effect"@);
            let (e, f) = (kind_name(expected), kind_name(found));
            assert(text =~= (head + n) + (a + e + b + f + c));
            assert(text =~= ((head + n + a) + e) + (b + f + c));
            assert(text =~= ((head + n + a + e + b) + f) + c);
        },
        DivergenceKindModel::Name { expected, found } => {
            let (a, b, c) = (": expected `"@, "`, agent called `"@, "`"@);
            assert(text =~= (head + n) + (a + expected + b + found + c));
            assert(text =~= ((head + n + a) + expected) + (b + found + c));
            assert(text =~= ((head + n + a + expected + b) + found) + c);
        },
        DivergenceKindModel::Identity { expected, found, first_difference } => {
            let a = ": same call, different arguments\n  recorded "@;
            let b = "\n  replayed "@;
            let c = "\n  first difference at "@;
            let (e, f) = (crate::hash::short_of(expected), crate::hash::short_of(found));
            let rest = a + e + b + f;
            match first_difference {
                Some(d) => {
                    assert(text =~= (head + n) + (rest + c + d));
                    assert(text =~= ((head + n + rest + c) + d) + Seq::<char>::empty());
                },
                None => {
                    assert(text =~= (head + n) + rest);
                },
            }
        },
        DivergenceKindModel::PastEnd { recorded } => {
            let (a, b) = (": recording holds "@, " effects, agent wanted more"@);
            let m = decimal(recorded as nat);
            assert(text =~= (head + n) + (a + m + b));
            assert(text =~= ((head + n + a) + m) + b);
        },
        DivergenceKindModel::StoppedShort { recorded, performed } => {
            let (a, b) = (
                "divergence: agent stopped after "@,
                " effects, recording holds "@,
            );
            let (m, k) = (decimal(recorded as nat), decimal(performed as nat));
            assert(text =~= (a + k) + (b + m));
            assert(text =~= ((a + k + b) + m) + Seq::<char>::empty());
        },
    }
}

} // verus!
