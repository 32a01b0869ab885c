//! Replaying a recording gives the recording: the same agent, run over a
//! strict replay of what was recorded of it, asks the same, is told the same,
//! and leaves the same trace.

use crate::cas::{found, keeps, Contents};
use crate::event::{OutcomeModel, RequestModel};
use crate::faithful::{
    lemma_faithful_prefix, lemma_recording, outcomes_of, payloads_held, record_run,
    recorded_events, replay_run, Call,
};
use crate::fault::unchanged;
use crate::hash::blake3_hex;
use crate::record::ordered_outcome;
use crate::replay::{
    batch_after, batch_tag, outcome_bytes, reads_back, recorded, recorded_all, Exchange,
    RecordState,
};
use crate::replayer::{
    all_followed, batch_begun, batch_performed, branch_of, completion_order, final_divergences,
    performed, replay_start, stepped, steps_run, ModeModel, ReplayState, Step,
};
use crate::trace::{run_id, TraceModel};
use vstd::prelude::*;

verus! {

/// What an agent is told of what it asked at once: the outcomes, in the order
/// of the requests.
pub type Told = Seq<OutcomeModel>;

/// An agent that is fixed by what it is told: what it asks next, given what it
/// was told of all that it asked before, until it stops.
pub type Asker = spec_fn(Seq<Told>) -> Option<Step>;

/// How many effects are asked for at once.
pub open spec fn size_of_step(step: Step) -> nat {
    match step {
        Step::One { .. } => 1,
        Step::Batch { requests } => requests.len(),
    }
}

/// The exchanges of a batch that completes in the order of its requests.
pub open spec fn in_turn(requests: Seq<RequestModel>, told: Told) -> Seq<Exchange> {
    Seq::new(requests.len(), |i: int| Exchange { request: requests[i], outcome: told[i] })
}

/// A recorder once it has recorded what was asked at once.
pub open spec fn record_step(s: RecordState, step: Step, told: Told) -> RecordState {
    match step {
        Step::One { request } => recorded(s, request, told[0], None),
        Step::Batch { requests } => RecordState {
            next_batch: batch_after(s.next_batch, requests.len()),
            ..recorded_all(s, in_turn(requests, told), batch_tag(s.next_batch, requests.len()))
        },
    }
}

/// A recorder once it has recorded all that was asked.
pub open spec fn record_steps(s: RecordState, steps: Seq<Step>, told: Seq<Told>) -> RecordState
    decreases steps.len(),
{
    if steps.len() == 0 {
        s
    } else {
        record_step(
            record_steps(s, steps.drop_last(), told.drop_last()),
            steps.last(),
            told.last(),
        )
    }
}

/// Whether an agent that is told this asks this, and then stops.
pub open spec fn asks_so(asker: Asker, steps: Seq<Step>, told: Seq<Told>) -> bool {
    &&& steps.len() == told.len()
    &&& forall|k: int|
        0 <= k < steps.len() ==> (#[trigger] told[k]).len() == size_of_step(steps[k])
    &&& forall|k: int| 0 <= k < steps.len() ==> asker(#[trigger] told.take(k)) == Some(steps[k])
    &&& asker(told) is None
}

/// What a replay tells of what is asked at once.
pub open spec fn told_by(s: ReplayState, step: Step) -> Told {
    match step {
        Step::One { request } => seq![performed(s, request, None).0],
        Step::Batch { requests } => {
            let n = requests.len();
            batch_performed(
                batch_begun(s, n),
                requests,
                completion_order(s, n),
                n,
                batch_tag(s.next_batch, n),
            ).0
        },
    }
}

/// An agent on its way through a replay: what it asked, what it was told, and
/// the replay.
pub struct Course {
    pub steps: Seq<Step>,
    pub told: Seq<Told>,
    pub state: ReplayState,
}

/// An agent's first `k` steps through a replay.
pub open spec fn course(asker: Asker, s: ReplayState, k: nat) -> Course
    decreases k,
{
    if k == 0 {
        Course { steps: seq![], told: seq![], state: s }
    } else {
        let before = course(asker, s, (k - 1) as nat);
        match asker(before.told) {
            Some(step) => Course {
                steps: before.steps.push(step),
                told: before.told.push(told_by(before.state, step)),
                state: stepped(before.state, step),
            },
            None => before,
        }
    }
}

/// The number of the next batch after some steps.
pub open spec fn next_after(next: u64, steps: Seq<Step>) -> u64
    decreases steps.len(),
{
    if steps.len() == 0 {
        next
    } else {
        let before = next_after(next, steps.drop_last());
        match steps.last() {
            Step::One { .. } => before,
            Step::Batch { requests } => batch_after(before, requests.len()),
        }
    }
}

/// The calls of what is asked at once.
pub open spec fn calls_of(step: Step, told: Told, next: u64) -> Seq<Call> {
    match step {
        Step::One { request } => seq![Call { request, outcome: told[0], batch: None }],
        Step::Batch { requests } => Seq::new(
            requests.len(),
            |i: int|
                Call {
                    request: requests[i],
                    outcome: told[i],
                    batch: batch_tag(next, requests.len()),
                },
        ),
    }
}

/// The calls of all that is asked.
pub open spec fn all_calls(steps: Seq<Step>, told: Seq<Told>) -> Seq<Call>
    decreases steps.len(),
{
    if steps.len() == 0 {
        seq![]
    } else {
        all_calls(steps.drop_last(), told.drop_last()) + calls_of(
            steps.last(),
            told.last(),
            next_after(0, steps.drop_last()),
        )
    }
}

proof fn lemma_record_more(s: RecordState, a: Seq<Call>, b: Seq<Call>)
    ensures
        record_run(s, a + b) == record_run(record_run(s, a), b),
    decreases b.len(),
{
    if b.len() == 0 {
        assert(a + b =~= a);
    } else {
        assert((a + b).drop_last() =~= a + b.drop_last());
        lemma_record_more(s, a, b.drop_last());
    }
}

/// Recording a batch is recording its calls.
proof fn lemma_batch_recorded(s: RecordState, requests: Seq<RequestModel>, told: Told, k: nat)
    requires
        k <= requests.len(),
    ensures
        recorded_all(
            s,
            in_turn(requests, told).take(k as int),
            batch_tag(s.next_batch, requests.len()),
        ) == record_run(
            s,
            calls_of(Step::Batch { requests }, told, s.next_batch).take(k as int),
        ),
    decreases k,
{
    let run = in_turn(requests, told);
    let calls = calls_of(Step::Batch { requests }, told, s.next_batch);
    if k > 0 {
        let j = (k - 1) as nat;
        lemma_batch_recorded(s, requests, told, j);
        assert(run.take(k as int).drop_last() =~= run.take(j as int));
        assert(calls.take(k as int).drop_last() =~= calls.take(j as int));
    }
}

proof fn lemma_next_kept(s: RecordState, next: u64, calls: Seq<Call>)
    ensures
        record_run(RecordState { next_batch: next, ..s }, calls) == (RecordState {
            next_batch: next,
            ..record_run(s, calls)
        }),
        record_run(s, calls).next_batch == s.next_batch,
    decreases calls.len(),
{
    if calls.len() > 0 {
        lemma_next_kept(s, next, calls.drop_last());
    }
}

/// Recording steps is recording their calls.
proof fn lemma_steps_recorded(s: RecordState, steps: Seq<Step>, told: Seq<Told>)
    requires
        s.next_batch == 0,
        steps.len() == told.len(),
    ensures
        record_steps(s, steps, told) == (RecordState {
            next_batch: next_after(0, steps),
            ..record_run(s, all_calls(steps, told))
        }),
    decreases steps.len(),
{
    if steps.len() > 0 {
        let (front, heard) = (steps.drop_last(), told.drop_last());
        let before = record_steps(s, front, heard);
        let next = next_after(0, front);
        let flat = all_calls(front, heard);
        let calls = calls_of(steps.last(), told.last(), next);
        lemma_steps_recorded(s, front, heard);
        lemma_record_more(s, flat, calls);
        lemma_next_kept(record_run(s, flat), next, calls);
        match steps.last() {
            Step::One { request } => {
                assert(calls.drop_last() =~= seq![]);
                assert(record_run(before, calls.drop_last()) == before);
                let outcome = told.last()[0];
                assert(record_run(before, calls) == recorded(before, request, outcome, None));
            },
            Step::Batch { requests } => {
                let n = requests.len();
                lemma_batch_recorded(before, requests, told.last(), n);
                assert(in_turn(requests, told.last()).take(n as int) =~= in_turn(
                    requests,
                    told.last(),
                ));
                assert(calls.take(n as int) =~= calls);
            },
        }
    }
}

proof fn lemma_replay_more(s: ReplayState, a: Seq<Call>, b: Seq<Call>)
    ensures
        replay_run(s, a + b).1 == replay_run(replay_run(s, a).1, b).1,
        replay_run(s, a + b).0 == replay_run(s, a).0 + replay_run(replay_run(s, a).1, b).0,
    decreases b.len(),
{
    if b.len() == 0 {
        assert(a + b =~= a);
        assert(replay_run(s, a).0 + seq![] =~= replay_run(s, a).0);
    } else {
        assert((a + b).drop_last() =~= a + b.drop_last());
        lemma_replay_more(s, a, b.drop_last());
        let mid = replay_run(s, a);
        let rest = replay_run(mid.1, b.drop_last());
        let now = performed(rest.1, b.last().request, b.last().batch);
        assert(mid.0 + rest.0.push(now.0) =~= (mid.0 + rest.0).push(now.0));
    }
}

proof fn lemma_batch_replayed(
    s: ReplayState,
    requests: Seq<RequestModel>,
    told: Told,
    next: u64,
    k: nat,
)
    requires
        k <= requests.len() <= usize::MAX,
    ensures
        batch_performed(
            s,
            requests,
            unchanged(requests.len()),
            k,
            batch_tag(next, requests.len()),
        ) == replay_run(s, calls_of(Step::Batch { requests }, told, next).take(k as int)),
    decreases k,
{
    let calls = calls_of(Step::Batch { requests }, told, next);
    if k > 0 {
        let j = (k - 1) as nat;
        lemma_batch_replayed(s, requests, told, next, j);
        assert(calls.take(k as int).drop_last() =~= calls.take(j as int));
        assert(unchanged(requests.len())[k - 1] == k - 1);
    } else {
        assert(calls.take(0) =~= seq![]);
    }
}

proof fn lemma_next_idle(s: ReplayState, next: u64, calls: Seq<Call>)
    ensures
        replay_run(ReplayState { next_batch: next, ..s }, calls).0 == replay_run(s, calls).0,
        replay_run(ReplayState { next_batch: next, ..s }, calls).1 == (ReplayState {
            next_batch: next,
            ..replay_run(s, calls).1
        }),
        replay_run(s, calls).1.next_batch == s.next_batch,
    decreases calls.len(),
{
    if calls.len() > 0 {
        lemma_next_idle(s, next, calls.drop_last());
    }
}

/// What a strict replay tells of a step, and the replay after it, is what it
/// tells of the step's calls.
proof fn lemma_step_replayed(s: ReplayState, step: Step, told: Told)
    requires
        s.mode is Strict,
        size_of_step(step) <= usize::MAX,
    ensures
        ({
            let calls = calls_of(step, told, s.next_batch);
            &&& told_by(s, step) == replay_run(s, calls).0
            &&& stepped(s, step) == (ReplayState {
                next_batch: next_after(s.next_batch, seq![step]),
                ..replay_run(s, calls).1
            })
        }),
{
    reveal(stepped);
    let calls = calls_of(step, told, s.next_batch);
    assert(seq![step].drop_last() =~= seq![]);
    reveal_with_fuel(next_after, 2);
    lemma_next_idle(s, s.next_batch, calls);
    match step {
        Step::One { request } => {
            assert(calls.drop_last() =~= seq![]);
            reveal_with_fuel(replay_run, 2);
            assert(replay_run(s, calls).0 =~= seq![performed(s, request, None).0]);
        },
        Step::Batch { requests } => {
            let n = requests.len();
            lemma_batch_replayed(s, requests, told, s.next_batch, n);
            assert(calls.take(n as int) =~= calls);
        },
    }
}

/// A step's calls are as many as it asks for.
proof fn lemma_calls_counted(steps: Seq<Step>, told: Seq<Told>, k: int)
    requires
        steps.len() == told.len(),
        0 <= k < steps.len(),
    ensures
        ({
            let m = all_calls(steps.take(k), told.take(k)).len();
            let calls = calls_of(steps[k], told[k], next_after(0, steps.take(k)));
            &&& all_calls(steps.take(k + 1), told.take(k + 1)) == all_calls(
                steps.take(k),
                told.take(k),
            ) + calls
            &&& calls.len() == size_of_step(steps[k])
            &&& next_after(0, steps.take(k + 1)) == next_after(
                next_after(0, steps.take(k)),
                seq![steps[k]],
            )
        }),
{
    assert(steps.take(k + 1).drop_last() =~= steps.take(k));
    assert(told.take(k + 1).drop_last() =~= told.take(k));
    assert(seq![steps[k]].drop_last() =~= seq![]);
    reveal_with_fuel(next_after, 2);
}

/// The calls of the first steps come first.
proof fn lemma_calls_begin(steps: Seq<Step>, told: Seq<Told>, k: int)
    requires
        steps.len() == told.len(),
        0 <= k <= steps.len(),
    ensures
        ({
            let part = all_calls(steps.take(k), told.take(k));
            let all = all_calls(steps, told);
            part.len() <= all.len() && all.take(part.len() as int) == part
        }),
    decreases steps.len() - k,
{
    let part = all_calls(steps.take(k), told.take(k));
    let all = all_calls(steps, told);
    if k == steps.len() {
        assert(steps.take(k) =~= steps && told.take(k) =~= told);
        assert(all.take(part.len() as int) =~= part);
    } else {
        lemma_calls_begin(steps, told, k + 1);
        lemma_calls_counted(steps, told, k);
        let more = all_calls(steps.take(k + 1), told.take(k + 1));
        assert(more.take(part.len() as int) =~= part);
        assert(all.take(more.len() as int).take(part.len() as int) =~= all.take(
            part.len() as int,
        ));
    }
}

/// Whether a replay tells an agent what it was told when it was recorded, and
/// is in lockstep with the recording.
spec fn on_course(
    c: Course,
    start: ReplayState,
    steps: Seq<Step>,
    told: Seq<Told>,
    k: int,
) -> bool {
    &&& c.steps == steps.take(k)
    &&& c.told == told.take(k)
    &&& c.state == (ReplayState {
        next_batch: next_after(0, steps.take(k)),
        ..replay_run(start, all_calls(steps.take(k), told.take(k))).1
    })
}

#[verifier::rlimit(60)]
proof fn lemma_on_course(
    asker: Asker,
    steps: Seq<Step>,
    told: Seq<Told>,
    trace: TraceModel,
    contents: Contents,
    k: nat,
)
    requires
        asks_so(asker, steps, told),
        trace.events == recorded_events(
            trace.header.canonicalizer,
            all_calls(steps, told),
        ),
        payloads_held(contents, all_calls(steps, told)),
        all_calls(steps, told).len() <= u64::MAX,
        forall|i: int| 0 <= i < steps.len() ==> size_of_step(#[trigger] steps[i]) <= usize::MAX,
        k <= steps.len(),
    ensures
        on_course(
            course(asker, replay_start(trace, contents, ModeModel::Strict), k),
            replay_start(trace, contents, ModeModel::Strict),
            steps,
            told,
            k as int,
        ),
    decreases k,
{
    let start = replay_start(trace, contents, ModeModel::Strict);
    if k == 0 {
        assert(steps.take(0) =~= seq![]);
        assert(told.take(0) =~= seq![]);
    } else {
        let j = k - 1;
        let all = all_calls(steps, told);
        lemma_on_course(asker, steps, told, trace, contents, j as nat);
        let before = course(asker, start, j as nat);
        let part = all_calls(steps.take(j), told.take(j));
        let more = all_calls(steps.take(k as int), told.take(k as int));
        let next = next_after(0, steps.take(j));
        let step = steps[j];
        let calls = calls_of(step, told[j], next);
        lemma_calls_counted(steps, told, j);
        lemma_calls_begin(steps, told, j);
        lemma_calls_begin(steps, told, k as int);
        assert(asker(told.take(j)) == Some(step));
        let s = replay_run(start, part).1;
        lemma_faithful_prefix(
            trace.header.canonicalizer,
            all,
            trace,
            contents,
            ModeModel::Strict,
            part.len(),
        );
        lemma_faithful_prefix(
            trace.header.canonicalizer,
            all,
            trace,
            contents,
            ModeModel::Strict,
            more.len(),
        );
        lemma_step_replayed(before.state, step, told[j]);
        lemma_next_idle(s, next, calls);
        lemma_replay_more(start, part, calls);
        let heard = told_by(before.state, step);
        assert(heard == replay_run(s, calls).0);
        assert(replay_run(start, more).0 == replay_run(start, part).0 + heard);
        assert(told[j].len() == size_of_step(step));
        assert(heard =~= told[j]) by {
            let m = part.len() as int;
            assert(replay_run(start, more).0 == outcomes_of(all).take(more.len() as int));
            assert(replay_run(start, part).0 == outcomes_of(all).take(m));
            assert(more =~= part + calls);
            assert(more.len() <= all.len());
            assert(replay_run(start, part).0.len() == part.len());
            assert(replay_run(start, more).0.len() == part.len() + calls.len());
            assert(heard.len() == calls.len());
            assert forall|i: int| 0 <= i < heard.len() implies heard[i] == told[j][i] by {
                assert(replay_run(start, more).0[m + i] == heard[i]);
                assert(all.take(more.len() as int)[m + i] == more[m + i]);
                assert(more[m + i] == calls[i]);
            }
        }
        assert(told.take(k as int) =~= told.take(j).push(told[j]));
        assert(steps.take(k as int) =~= steps.take(j).push(step));
    }
}

/// What was recorded of an agent is what a strict replay of it gives.
///
/// An agent that is fixed by what it is told was recorded: it asked `steps`,
/// was told `told`, and stopped. Replayed strictly from a store that holds what
/// the recorder stored, it asks the same, is told the same, and stops where it
/// stopped. The branch is the recording, event by event and so by its identity,
/// names the recording as its parent, and nothing diverged, was missing or was
/// left over.
///
/// An outcome that does not read back from its bytes as it was, as a fraction
/// may not, is told otherwise on replay, and so is one under whose digest the
/// store held other bytes already.
pub proof fn lemma_replay_is_the_recording(
    asker: Asker,
    s: RecordState,
    steps: Seq<Step>,
    told: Seq<Told>,
    trace: TraceModel,
    contents: Contents,
    label: Seq<char>,
)
    requires
        s.events.len() == 0,
        s.next_batch == 0,
        asks_so(asker, steps, told),
        trace.header.canonicalizer == s.paths,
        trace.events == record_steps(s, steps, told).events,
        trace.events.len() <= u64::MAX,
        forall|i: int| 0 <= i < steps.len() ==> size_of_step(#[trigger] steps[i]) <= usize::MAX,
        keeps(record_steps(s, steps, told).contents, contents),
        forall|k: int, i: int|
            0 <= k < told.len() && 0 <= i < told[k].len() ==> faithful_payload(
                #[trigger] told[k][i],
                contents,
            ),
    ensures
        ({
            let out = course(
                asker,
                replay_start(trace, contents, ModeModel::Strict),
                steps.len(),
            );
            &&& out.steps == steps
            &&& out.told == told
            &&& asker(out.told) is None
            &&& out.state == steps_run(replay_start(trace, contents, ModeModel::Strict), steps)
            &&& out.state.branch == trace.events
            &&& final_divergences(out.state).len() == 0
            &&& out.state.holes.len() == 0
            &&& all_followed(out.state)
            &&& branch_of(out.state, label).events == trace.events
            &&& branch_of(out.state, label).header.parent == Some(run_id(trace.events))
            &&& run_id(branch_of(out.state, label).events) == run_id(trace.events)
        }),
{
    let n = steps.len();
    let all = all_calls(steps, told);
    let start = replay_start(trace, contents, ModeModel::Strict);
    lemma_steps_recorded(s, steps, told);
    lemma_recording(s, all);
    lemma_calls_told(steps, told, contents);
    assert forall|i: int| 0 <= i < all.len() implies crate::oracle::outcome_at(
        contents,
        crate::canon::digest_of(crate::record::outcome_json((#[trigger] all[i]).outcome)),
    ) == Some(all[i].outcome) by {
        assert(faithful_payload(all[i].outcome, contents));
        lemma_call_present(s, all, i);
    }
    assert(payloads_held(contents, all));
    lemma_on_course(asker, steps, told, trace, contents, n);
    lemma_faithful_prefix(
        trace.header.canonicalizer,
        all,
        trace,
        contents,
        ModeModel::Strict,
        all.len(),
    );
    assert(all.take(all.len() as int) =~= all);
    assert(steps.take(n as int) =~= steps);
    assert(told.take(n as int) =~= told);
    assert(trace.events.take(all.len() as int) =~= trace.events);
    lemma_course_steps(asker, start, n);
}

/// Whether an outcome is told as it was from the store: it reads back from its
/// bytes, and the store finds no others under their digest.
pub open spec fn faithful_payload(o: OutcomeModel, contents: Contents) -> bool {
    &&& reads_back(o)
    &&& o == ordered_outcome(o)
    &&& found(contents, blake3_hex(outcome_bytes(o))) matches Some(bytes) ==> bytes
        == outcome_bytes(o)
}

proof fn lemma_course_steps(asker: Asker, s: ReplayState, k: nat)
    ensures
        course(asker, s, k).state == steps_run(s, course(asker, s, k).steps),
    decreases k,
{
    if k > 0 {
        lemma_course_steps(asker, s, (k - 1) as nat);
        let before = course(asker, s, (k - 1) as nat);
        if let Some(step) = asker(before.told) {
            assert(before.steps.push(step).drop_last() =~= before.steps);
        }
    }
}

/// Every call is told what some step was told.
proof fn lemma_calls_told(steps: Seq<Step>, told: Seq<Told>, contents: Contents)
    requires
        steps.len() == told.len(),
        forall|k: int|
            0 <= k < steps.len() ==> (#[trigger] told[k]).len() == size_of_step(steps[k]),
        forall|k: int, i: int|
            0 <= k < told.len() && 0 <= i < told[k].len() ==> faithful_payload(
                #[trigger] told[k][i],
                contents,
            ),
    ensures
        forall|i: int|
            0 <= i < all_calls(steps, told).len() ==> faithful_payload(
                (#[trigger] all_calls(steps, told)[i]).outcome,
                contents,
            ),
    decreases steps.len(),
{
    if steps.len() > 0 {
        let (front, heard) = (steps.drop_last(), told.drop_last());
        let last = steps.len() - 1;
        assert forall|k: int| 0 <= k < front.len() implies (#[trigger] heard[k]).len()
            == size_of_step(front[k]) by {
            assert(heard[k] == told[k]);
        }
        assert forall|k: int, i: int|
            0 <= k < heard.len() && 0 <= i < heard[k].len() implies faithful_payload(
            #[trigger] heard[k][i],
            contents,
        ) by {
            assert(heard[k][i] == told[k][i]);
        }
        lemma_calls_told(front, heard, contents);
        let before = all_calls(front, heard);
        let calls = calls_of(steps.last(), told.last(), next_after(0, front));
        assert(told[last].len() == size_of_step(steps[last]));
        assert forall|i: int| 0 <= i < all_calls(steps, told).len() implies faithful_payload(
            (#[trigger] all_calls(steps, told)[i]).outcome,
            contents,
        ) by {
            if i < before.len() {
                assert(all_calls(steps, told)[i] == before[i]);
            } else {
                let j = i - before.len();
                assert(all_calls(steps, told)[i] == calls[j]);
                assert(calls[j].outcome == told[last][j]);
            }
        }
    }
}

/// A recorder's store finds something under the digest of each outcome.
proof fn lemma_call_present(s: RecordState, calls: Seq<Call>, i: int)
    requires
        0 <= i < calls.len(),
    ensures
        record_run(s, calls).contents.dom().contains(
            blake3_hex(outcome_bytes(calls[i].outcome)),
        ),
    decreases calls.len(),
{
    if i < calls.len() - 1 {
        lemma_call_present(s, calls.drop_last(), i);
    }
}

} // verus!
