//! What replay promises of every run.

use crate::canon::digest_of;
use crate::cas::{found, lemma_stored_keeps, stored, Contents};
use crate::event::{EffectKind, EventModel, OutcomeModel, RequestModel};
use crate::fault::{applied, fault_at, faultable, scheduling, FaultModel, PointModel};
use crate::oracle::{asked, outcome_at, OracleModel};
use crate::record::outcome_json;
use crate::replay::{
    batch_tag, outcome_bytes, reads_back, recorded, recorded_event, request_bytes, RecordState,
};
use crate::replayer::{
    all_followed, batch_begun, batch_performed, clock_reading, completion_order,
    final_divergences, injected, last_clock, mismatch, observed, performed, policy, replay_start,
    resolved_free, scheduled_at, stepped, steps_run, ticked, ModeModel, ReplayState, Step,
};
use crate::trace::{run_id, TraceModel};
use vstd::prelude::*;

verus! {

/// An effect as it was performed: the request, what the agent observed, and
/// the batch it belonged to.
pub struct Call {
    pub request: RequestModel,
    pub outcome: OutcomeModel,
    pub batch: Option<u64>,
}

/// The events that record some calls.
pub open spec fn recorded_events(paths: Seq<Seq<char>>, calls: Seq<Call>) -> Seq<EventModel> {
    Seq::new(
        calls.len(),
        |i: int| recorded_event(paths, i as nat, calls[i].request, calls[i].outcome, calls[i].batch),
    )
}

/// A recorder once it has recorded some calls.
pub open spec fn record_run(s: RecordState, calls: Seq<Call>) -> RecordState
    decreases calls.len(),
{
    if calls.len() == 0 {
        s
    } else {
        let last = calls.last();
        recorded(record_run(s, calls.drop_last()), last.request, last.outcome, last.batch)
    }
}

/// What a replayer answers to the requests of some calls in turn, and the
/// replay after them.
pub open spec fn replay_run(s: ReplayState, calls: Seq<Call>) -> (Seq<OutcomeModel>, ReplayState)
    decreases calls.len(),
{
    if calls.len() == 0 {
        (seq![], s)
    } else {
        let before = replay_run(s, calls.drop_last());
        let now = performed(before.1, calls.last().request, calls.last().batch);
        (before.0.push(now.0), now.1)
    }
}

/// The outcomes of some calls.
pub open spec fn outcomes_of(calls: Seq<Call>) -> Seq<OutcomeModel> {
    Seq::new(calls.len(), |i: int| calls[i].outcome)
}

/// Whether a store gives back the outcome of each call.
pub open spec fn payloads_held(contents: Contents, calls: Seq<Call>) -> bool {
    forall|i: int|
        0 <= i < calls.len() ==> outcome_at(
            contents,
            digest_of(outcome_json((#[trigger] calls[i]).outcome)),
        ) == Some(calls[i].outcome)
}

/// Recording calls appends exactly their events.
pub proof fn lemma_recording(s: RecordState, calls: Seq<Call>)
    requires
        s.events.len() == 0,
    ensures
        record_run(s, calls).events == recorded_events(s.paths, calls),
        record_run(s, calls).paths == s.paths,
    decreases calls.len(),
{
    if calls.len() > 0 {
        lemma_recording(s, calls.drop_last());
        assert(recorded_events(s.paths, calls) =~= recorded_events(
            s.paths,
            calls.drop_last(),
        ).push(
            recorded_event(
                s.paths,
                (calls.len() - 1) as nat,
                calls.last().request,
                calls.last().outcome,
                calls.last().batch,
            ),
        ));
    } else {
        assert(recorded_events(s.paths, calls) =~= s.events);
    }
}

/// What a store holds, it holds after more is put into it.
proof fn lemma_stored_found(contents: Contents, bytes: Seq<u8>, digest: Seq<char>)
    requires
        found(contents, digest) is Some,
    ensures
        found(stored(contents, bytes), digest) == found(contents, digest),
{
}

/// Recording puts every outcome into the store, where reading it back is
/// exact and no other bytes are found under its digest.
pub proof fn lemma_recording_holds(s: RecordState, calls: Seq<Call>)
    requires
        forall|i: int| 0 <= i < calls.len() ==> reads_back((#[trigger] calls[i]).outcome),
        forall|i: int|
            0 <= i < calls.len() ==> (#[trigger] calls[i]).outcome
                == crate::record::ordered_outcome(calls[i].outcome),
        forall|i: int|
            0 <= i < calls.len() ==> {
                let bytes = outcome_bytes((#[trigger] calls[i]).outcome);
                found(record_run(s, calls).contents, crate::hash::blake3_hex(bytes)) is Some
                    ==> found(record_run(s, calls).contents, crate::hash::blake3_hex(bytes))
                    == Some(bytes)
            },
    ensures
        payloads_held(record_run(s, calls).contents, calls),
{
    assert forall|i: int| 0 <= i < calls.len() implies outcome_at(
        record_run(s, calls).contents,
        digest_of(outcome_json((#[trigger] calls[i]).outcome)),
    ) == Some(calls[i].outcome) by {
        lemma_recorded_present(s, calls, i);
        assert(reads_back(calls[i].outcome));
    }
}

proof fn lemma_recorded_present(s: RecordState, calls: Seq<Call>, i: int)
    requires
        0 <= i < calls.len(),
    ensures
        found(
            record_run(s, calls).contents,
            crate::hash::blake3_hex(outcome_bytes(calls[i].outcome)),
        ) is Some,
    decreases calls.len(),
{
    let before = record_run(s, calls.drop_last());
    let digest = crate::hash::blake3_hex(outcome_bytes(calls[i].outcome));
    if i < calls.len() - 1 {
        lemma_recorded_present(s, calls.drop_last(), i);
        lemma_stored_found(before.contents, request_bytes(calls.last().request), digest);
        lemma_stored_found(
            stored(before.contents, request_bytes(calls.last().request)),
            outcome_bytes(calls.last().outcome),
            digest,
        );
    }
}

/// Whether a replay has followed a recording exactly for its first `k`
/// effects.
pub open spec fn lockstep(s: ReplayState, trace: TraceModel, k: nat) -> bool {
    &&& s.trace == trace
    &&& s.cursor == k
    &&& !s.free
    &&& s.divergences.len() == 0
    &&& s.holes.len() == 0
    &&& s.branch == trace.events.take(k as int)
}

/// Whether a mode schedules no fault for the first `k` positions.
pub open spec fn quiet(mode: ModeModel, k: nat) -> bool {
    forall|i: nat| i < k ==> #[trigger] scheduled_at(mode, i as u64) is None
}

/// Replay is faithful up to the first fault: fed its recorded answers, an
/// agent that asks the same questions observes the same outcomes, and the
/// branch is the recording.
pub proof fn lemma_faithful_prefix(
    paths: Seq<Seq<char>>,
    calls: Seq<Call>,
    trace: TraceModel,
    contents: Contents,
    mode: ModeModel,
    k: nat,
)
    requires
        trace.header.canonicalizer == paths,
        trace.events == recorded_events(paths, calls),
        payloads_held(contents, calls),
        calls.len() <= u64::MAX,
        k <= calls.len(),
        quiet(mode, k),
    ensures
        ({
            let out = replay_run(replay_start(trace, contents, mode), calls.take(k as int));
            &&& out.0 == outcomes_of(calls).take(k as int)
            &&& lockstep(out.1, trace, k)
            &&& out.1.mode == mode
            &&& forall|i: int|
                0 <= i < calls.len() ==> outcome_at(
                    out.1.contents,
                    digest_of(outcome_json((#[trigger] calls[i]).outcome)),
                ) == Some(calls[i].outcome)
        }),
    decreases k,
{
    let start = replay_start(trace, contents, mode);
    if k == 0 {
        assert(calls.take(0) =~= seq![]);
        assert(outcomes_of(calls).take(0) =~= seq![]);
        assert(trace.events.take(0) =~= seq![]);
    } else {
        let j = (k - 1) as nat;
        assert(quiet(mode, j));
        lemma_faithful_prefix(paths, calls, trace, contents, mode, j);
        assert(calls.take(k as int).drop_last() =~= calls.take(j as int));
        let before = replay_run(start, calls.take(j as int));
        let s = before.1;
        let call = calls[j as int];
        let e = trace.events[j as int];
        assert(e == recorded_event(paths, j, call.request, call.outcome, call.batch));
        assert(mismatch(e, call.request, policy(s), s.contents) is None);
        assert(outcome_at(s.contents, e.outcome) == Some(call.outcome));
        assert(scheduled_at(mode, j as u64) is None);
        assert(s.branch.len() == j);
        assert(injected(s, call.request) is None);
        let now = performed(s, call.request, call.batch);
        assert(now.0 == call.outcome);
        assert(now.1.branch =~= trace.events.take(k as int));
        assert(outcomes_of(calls).take(k as int) =~= outcomes_of(calls).take(j as int).push(
            call.outcome,
        ));
        assert forall|i: int| 0 <= i < calls.len() implies outcome_at(
            now.1.contents,
            digest_of(outcome_json((#[trigger] calls[i]).outcome)),
        ) == Some(calls[i].outcome) by {
            let digest = digest_of(outcome_json(calls[i].outcome));
            assert(outcome_at(s.contents, digest) == Some(calls[i].outcome));
            lemma_stored_found(s.contents, request_bytes(call.request), digest);
        }
    }
}

/// Replaying a recording strictly repeats it: the same outcomes, no
/// divergence, no hole, and a branch with the recording's identity.
pub proof fn lemma_strict_replay_repeats(
    paths: Seq<Seq<char>>,
    calls: Seq<Call>,
    trace: TraceModel,
    contents: Contents,
)
    requires
        trace.header.canonicalizer == paths,
        trace.events == recorded_events(paths, calls),
        payloads_held(contents, calls),
        calls.len() <= u64::MAX,
    ensures
        ({
            let out = replay_run(replay_start(trace, contents, ModeModel::Strict), calls);
            &&& out.0 == outcomes_of(calls)
            &&& out.1.branch == trace.events
            &&& final_divergences(out.1).len() == 0
            &&& out.1.holes.len() == 0
            &&& all_followed(out.1)
            &&& run_id(out.1.branch) == run_id(trace.events)
        }),
{
    let n = calls.len();
    lemma_faithful_prefix(paths, calls, trace, contents, ModeModel::Strict, n);
    assert(calls.take(n as int) =~= calls);
    assert(outcomes_of(calls).take(n as int) =~= outcomes_of(calls));
    assert(trace.events.take(n as int) =~= trace.events);
}

/// An agent: what it asks next, given what it has observed, until it stops.
pub type Agent = spec_fn(Seq<OutcomeModel>) -> Option<(RequestModel, Option<u64>)>;

/// Whether some calls are a complete run of an agent.
pub open spec fn is_run(agent: Agent, calls: Seq<Call>) -> bool {
    &&& forall|i: int|
        0 <= i < calls.len() ==> agent(#[trigger] outcomes_of(calls).take(i)) == Some(
            (calls[i].request, calls[i].batch),
        )
    &&& agent(outcomes_of(calls)) is None
}

/// What an agent observes in its first `k` effects against a replayer, and
/// the replay after them.
pub open spec fn agent_run(agent: Agent, s: ReplayState, k: nat) -> (
    Seq<OutcomeModel>,
    ReplayState,
)
    decreases k,
{
    if k == 0 {
        (seq![], s)
    } else {
        let before = agent_run(agent, s, (k - 1) as nat);
        match agent(before.0) {
            Some(next) => {
                let now = performed(before.1, next.0, next.1);
                (before.0.push(now.0), now.1)
            },
            None => before,
        }
    }
}

/// A deterministic agent repeats its recorded run: it asks the same
/// questions, observes the same outcomes, and stops where it stopped.
pub proof fn lemma_agent_repeats(
    agent: Agent,
    paths: Seq<Seq<char>>,
    calls: Seq<Call>,
    trace: TraceModel,
    contents: Contents,
    k: nat,
)
    requires
        is_run(agent, calls),
        trace.header.canonicalizer == paths,
        trace.events == recorded_events(paths, calls),
        payloads_held(contents, calls),
        calls.len() <= u64::MAX,
        k <= calls.len(),
    ensures
        agent_run(agent, replay_start(trace, contents, ModeModel::Strict), k) == replay_run(
            replay_start(trace, contents, ModeModel::Strict),
            calls.take(k as int),
        ),
        k == calls.len() ==> agent(
            agent_run(agent, replay_start(trace, contents, ModeModel::Strict), k).0,
        ) is None,
    decreases k,
{
    let start = replay_start(trace, contents, ModeModel::Strict);
    lemma_faithful_prefix(paths, calls, trace, contents, ModeModel::Strict, k);
    if k > 0 {
        let j = (k - 1) as nat;
        lemma_agent_repeats(agent, paths, calls, trace, contents, j);
        lemma_faithful_prefix(paths, calls, trace, contents, ModeModel::Strict, j);
        assert(calls.take(k as int).drop_last() =~= calls.take(j as int));
        assert(agent(outcomes_of(calls).take(j as int)) == Some(
            (calls[j as int].request, calls[j as int].batch),
        ));
    } else {
        assert(calls.take(0) =~= seq![]);
    }
    if k == calls.len() {
        assert(outcomes_of(calls).take(k as int) =~= outcomes_of(calls));
    }
}

/// An agent that asks something else in lockstep is reported at that very
/// position.
pub proof fn lemma_deviation_reported(
    s: ReplayState,
    trace: TraceModel,
    k: nat,
    r: RequestModel,
    batch: Option<u64>,
)
    requires
        lockstep(s, trace, k),
        k < trace.events.len(),
        mismatch(trace.events[k as int], r, policy(s), s.contents) is Some,
    ensures
        ({
            let after = performed(s, r, batch).1;
            &&& after.divergences.len() == 1
            &&& after.divergences[0].at_seq == k as u64
            &&& Some(after.divergences[0].kind) == mismatch(
                trace.events[k as int],
                r,
                policy(s),
                s.contents,
            )
            &&& after.free
        }),
{
    assert(s.branch.len() == k);
}

/// Every scheduled fault fires: faults are keyed by the position in the branch,
/// so however far the agent has strayed from its recording, the one that is
/// scheduled for its next model or tool call is applied to it. What the agent
/// was prevented from seeing is kept as the shadow of the event, and the store
/// has it.
pub proof fn lemma_fault_fires(
    s: ReplayState,
    schedule: Seq<PointModel>,
    f: FaultModel,
    r: RequestModel,
    batch: Option<u64>,
)
    requires
        s.mode == (ModeModel::Counterfactual { schedule }),
        fault_at(schedule, s.branch.len() as u64) == Some(f),
        !scheduling(f),
        faultable(r.kind),
    ensures
        ({
            let (seen, after) = observed(s, r);
            let (shown, end) = performed(s, r, batch);
            let e = end.branch.last();
            &&& shown == applied(f, seen.0)
            &&& e.fault == Some(f)
            &&& e.shadow == Some(
                match seen.1 {
                    Some(d) => d,
                    None => digest_of(outcome_json(seen.0)),
                },
            )
            &&& seen.1 is None ==> end.contents.dom().contains(e.shadow->0)
        }),
{
    let (seen, after) = observed(s, r);
    let hidden = stored(after.contents, outcome_bytes(seen.0));
    lemma_stored_keeps(hidden, request_bytes(r));
    lemma_stored_keeps(
        stored(hidden, request_bytes(r)),
        outcome_bytes(applied(f, seen.0)),
    );
    if seen.1 is None {
        assert(hidden.dom().contains(digest_of(outcome_json(seen.0))));
    }
}

/// Clock reads and random draws are never tampered with.
pub proof fn lemma_clock_and_random_untouched(s: ReplayState, r: RequestModel)
    requires
        r.kind == EffectKind::Clock || r.kind == EffectKind::Random,
    ensures
        injected(s, r) is None,
{
}

/// A fault that reorders a batch tampers with no outcome: no event of it
/// carries a fault or a shadow.
pub proof fn lemma_reordering_hides_nothing(s: ReplayState, r: RequestModel, batch: Option<u64>)
    requires
        scheduled_at(s.mode, s.branch.len() as u64) matches Some(f) ==> scheduling(f),
    ensures
        performed(s, r, batch).1.branch.last().fault is None,
        performed(s, r, batch).1.branch.last().shadow is None,
{
}

/// Every effect appends one event to the branch, numbered by its position.
pub proof fn lemma_branch_grows(s: ReplayState, r: RequestModel, batch: Option<u64>)
    ensures
        performed(s, r, batch).1.branch.len() == s.branch.len() + 1,
        performed(s, r, batch).1.branch.drop_last() == s.branch,
        performed(s, r, batch).1.branch.last().seq == s.branch.len() as u64,
{
    let after = performed(s, r, batch).1.branch;
    assert(after.drop_last() =~= s.branch);
}

/// The clock of a branch starts no earlier than any time the recording
/// observed, and never runs backwards.
pub proof fn lemma_clock_never_backwards(events: Seq<EventModel>, contents: Contents, i: int)
    requires
        0 <= i < events.len(),
        clock_reading(events[i], contents) is Some,
    ensures
        clock_reading(events[i], contents)->0 <= last_clock(events, contents),
        last_clock(events, contents) <= ticked(last_clock(events, contents)),
    decreases events.len(),
{
    if i < events.len() - 1 {
        lemma_clock_never_backwards(events.drop_last(), contents, i);
    }
}

/// An oracle once it was asked for one identity several times.
pub open spec fn asked_times(o: OracleModel, identity: Seq<char>, times: nat) -> OracleModel
    decreases times,
{
    if times == 0 {
        o
    } else {
        asked(asked_times(o, identity, (times - 1) as nat), identity).1
    }
}

/// Repeated questions walk through the recorded outcomes, then hold on the
/// last one.
pub proof fn lemma_oracle_holds_last(o: OracleModel, identity: Seq<char>, times: nat)
    requires
        (o.answers)(identity).len() > 0,
        (o.next)(identity) == 0,
    ensures
        asked(asked_times(o, identity, times), identity).0 == Some(
            (o.answers)(identity)[if times < (o.answers)(identity).len() {
                times as int
            } else {
                (o.answers)(identity).len() - 1
            }],
        ),
{
    lemma_asked_times(o, identity, times);
}

proof fn lemma_asked_times(o: OracleModel, identity: Seq<char>, times: nat)
    requires
        (o.answers)(identity).len() > 0,
        (o.next)(identity) == 0,
    ensures
        asked_times(o, identity, times).answers == o.answers,
        (asked_times(o, identity, times).next)(identity) == if times < (o.answers)(identity).len() {
            times as int
        } else {
            (o.answers)(identity).len() - 1
        },
    decreases times,
{
    if times > 0 {
        lemma_asked_times(o, identity, (times - 1) as nat);
    }
}

/// A retry is answered off-script: an identity that the recording answers is
/// never a hole.
pub proof fn lemma_retry_answered(s: ReplayState, r: RequestModel)
    requires
        r.kind == EffectKind::Model || r.kind == EffectKind::Tool,
        (s.oracle.answers)(crate::canon::identity_of(policy(s), r)).len() > 0,
    ensures
        resolved_free(s, r).1.holes == s.holes,
        resolved_free(s, r).0.1 is Some,
{
}

/// Whether an event of a branch is that of the recording: the same effect, by
/// its identity, with the recorded outcome, and without a fault.
pub open spec fn follows(e: EventModel, recorded: EventModel) -> bool {
    &&& e.kind == recorded.kind
    &&& e.name == recorded.name
    &&& e.identity == recorded.identity
    &&& e.outcome == recorded.outcome
    &&& e.fault is None
    &&& e.shadow is None
}

/// Whether a replay that does not run free has followed its recording so far.
pub open spec fn in_step(s: ReplayState) -> bool {
    !s.free ==> {
        &&& s.cursor == s.branch.len()
        &&& s.branch.len() <= s.trace.events.len()
        &&& s.divergences.len() == 0
        &&& s.holes.len() == 0
        &&& forall|i: int|
            0 <= i < s.branch.len() ==> follows(#[trigger] s.branch[i], s.trace.events[i])
    }
}

proof fn lemma_performed_in_step(s: ReplayState, r: RequestModel, batch: Option<u64>)
    requires
        in_step(s),
    ensures
        in_step(performed(s, r, batch).1),
        performed(s, r, batch).1.trace == s.trace,
        performed(s, r, batch).1.mode == s.mode,
        s.free ==> performed(s, r, batch).1.free,
{
    let end = performed(s, r, batch).1;
    if !end.free {
        assert forall|i: int| 0 <= i < end.branch.len() implies follows(
            #[trigger] end.branch[i],
            end.trace.events[i],
        ) by {
            if i < s.branch.len() {
                assert(end.branch[i] == s.branch[i]);
            }
        }
    }
}

proof fn lemma_batch_in_step(
    s: ReplayState,
    requests: Seq<RequestModel>,
    order: Seq<usize>,
    k: nat,
    batch: Option<u64>,
)
    requires
        in_step(s),
    ensures
        in_step(batch_performed(s, requests, order, k, batch).1),
        batch_performed(s, requests, order, k, batch).1.trace == s.trace,
        batch_performed(s, requests, order, k, batch).1.mode == s.mode,
        s.free ==> batch_performed(s, requests, order, k, batch).1.free,
    decreases k,
{
    if k > 0 {
        lemma_batch_in_step(s, requests, order, (k - 1) as nat, batch);
        let before = batch_performed(s, requests, order, (k - 1) as nat, batch);
        lemma_performed_in_step(before.1, requests[order[k - 1] as int], batch);
    }
}

proof fn lemma_steps_in_step(s: ReplayState, steps: Seq<Step>)
    requires
        in_step(s),
    ensures
        in_step(steps_run(s, steps)),
        steps_run(s, steps).trace == s.trace,
        steps_run(s, steps).mode == s.mode,
        s.free ==> steps_run(s, steps).free,
    decreases steps.len(),
{
    if steps.len() > 0 {
        reveal(stepped);
        lemma_steps_in_step(s, steps.drop_last());
        let before = steps_run(s, steps.drop_last());
        match steps.last() {
            Step::One { request } => {
                lemma_performed_in_step(before, request, None);
            },
            Step::Batch { requests } => {
                let n = requests.len();
                lemma_batch_in_step(
                    batch_begun(before, n),
                    requests,
                    completion_order(before, n),
                    n,
                    batch_tag(before.next_batch, n),
                );
            },
        }
    }
}

/// A replay that followed its recording to the end is the recording, whatever
/// the agent asked and under either mode: the same effects in the same order,
/// with the recorded outcomes, no fault, no divergence and no hole.
pub proof fn lemma_followed_is_the_recording(
    trace: TraceModel,
    contents: Contents,
    mode: ModeModel,
    steps: Seq<Step>,
)
    ensures
        ({
            let end = steps_run(replay_start(trace, contents, mode), steps);
            all_followed(end) ==> {
                &&& end.branch.len() == trace.events.len()
                &&& forall|i: int|
                    0 <= i < trace.events.len() ==> follows(
                        #[trigger] end.branch[i],
                        trace.events[i],
                    )
                &&& final_divergences(end).len() == 0
                &&& end.holes.len() == 0
            }
        }),
{
    lemma_steps_in_step(replay_start(trace, contents, mode), steps);
}

/// A run that a fault was injected into is not faithful: no event of a replay
/// that is still in lockstep carries one.
pub proof fn lemma_fault_breaks_lockstep(
    trace: TraceModel,
    contents: Contents,
    mode: ModeModel,
    steps: Seq<Step>,
    i: int,
)
    requires
        0 <= i < steps_run(replay_start(trace, contents, mode), steps).branch.len(),
        steps_run(replay_start(trace, contents, mode), steps).branch[i].fault is Some,
    ensures
        steps_run(replay_start(trace, contents, mode), steps).free,
{
    let end = steps_run(replay_start(trace, contents, mode), steps);
    lemma_steps_in_step(replay_start(trace, contents, mode), steps);
    if !end.free {
        assert(follows(end.branch[i], end.trace.events[i]));
    }
}

} // verus!
