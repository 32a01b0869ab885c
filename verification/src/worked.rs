//! The worked agents are deterministic: what they ask of a replay is fixed by
//! what it answers, so what is found of them is exact.

use crate::cas::{keeps, Contents};
use crate::demo::{agent_asks, assembler_asked, assembly_asks, blank, taped_assembly};
use crate::determined::{
    complete, deterministic, lemma_batch_same, lemma_performed_same, lemma_steps_same, same_course,
};
use crate::event::{clock_request, random_request, Outcome, OutcomeModel, RequestModel};
use crate::explore::Asking;
use crate::fault::is_order;
use crate::replay::{
    batch_tag, completion, exchanges, recorded, recorded_all, Exchange, RecordState,
};
use crate::replayer::{
    batch_begun, completion_order, performed, steps_run, ReplayState, Step,
};
use crate::testkit::{
    agent_ran, as_arrived, assembled, assembler_drove, assembler_steps, delete_request,
    in_request_order, lemma_placing_ignores_arrival, once_planned, one_by_one, plan_request,
    planned_path, render_requests, rendered_so, replayed, save_request, sections_of,
    sections_request, summary_request, tried_in_vain, Assembly, Report, Style, MAX_ATTEMPTS,
};
use crate::trace::TraceModel;
use vstd::prelude::*;

verus! {

/// What the agent asks for at a position of its run, by what came before it.
spec fn asked_at(style: Style, run: Seq<Exchange>, k: int) -> RequestModel {
    if k == 0 {
        plan_request()
    } else if k == 1 + 3 * MAX_ATTEMPTS {
        summary_request(false)
    } else if k % 3 == 1 {
        delete_request(style, planned_path(run[0].outcome))
    } else if k % 3 == 2 {
        if run[k - 1].outcome is Success {
            summary_request(true)
        } else {
            random_request()
        }
    } else {
        clock_request()
    }
}

/// Whether a position of its run is the agent's last.
spec fn ends_at(run: Seq<Exchange>, k: int) -> bool {
    k == 1 + 3 * MAX_ATTEMPTS || (k % 3 == 2 && run[k - 1].outcome is Success)
}

proof fn lemma_asked_at(style: Style, run: Seq<Exchange>, report: Report, k: int)
    requires
        agent_ran(style, run, report),
        0 <= k < run.len(),
    ensures
        run[k].request == asked_at(style, run, k),
        k == run.len() - 1 <==> ends_at(run, k),
{
    let n = report.attempts as int;
    let request = delete_request(style, planned_path(run[0].outcome));
    let tries = if report.succeeded {
        n - 1
    } else {
        n
    };
    assert(run.last() == run[run.len() - 1]);
    assert(tried_in_vain(run, request, tries));
    if k > 0 {
        let a = (k - 1) / 3;
        assert(k == 1 + 3 * a || k == 2 + 3 * a || k == 3 + 3 * a);
        if a < tries {
            assert(run[1 + 3 * a].request == request);
        }
    }
}

proof fn lemma_asked_same(style: Style, run: Seq<Exchange>, other: Seq<Exchange>, k: int)
    requires
        0 <= k < run.len(),
        k < other.len(),
        run.take(k) == other.take(k),
    ensures
        asked_at(style, run, k) == asked_at(style, other, k),
{
    if k > 0 {
        assert(run[0] == run.take(k)[0] && other[0] == other.take(k)[0]);
        assert(run[k - 1] == run.take(k)[k - 1] && other[k - 1] == other.take(k)[k - 1]);
    }
}

proof fn lemma_same_steps(run: Seq<Exchange>, other: Seq<Exchange>, j: int)
    requires
        0 <= j <= run.len(),
        j <= other.len(),
        run.take(j) == other.take(j),
    ensures
        one_by_one(run).take(j) == one_by_one(other).take(j),
{
    assert forall|i: int| 0 <= i < j implies run[i] == other[i] by {
        assert(run[i] == run.take(j)[i] && other[i] == other.take(j)[i]);
    }
    assert(one_by_one(run).take(j) =~= one_by_one(other).take(j));
}

/// Replays that answer the same do so after the same questions.
proof fn lemma_same_answer(
    first: Contents,
    s: ReplayState,
    t: ReplayState,
    steps: Seq<Step>,
    request: RequestModel,
)
    requires
        complete(s.trace.events, first),
        same_course(s, t),
        keeps(first, s.contents),
        keeps(first, t.contents),
    ensures
        performed(steps_run(s, steps), request, None).0 == performed(
            steps_run(t, steps),
            request,
            None,
        ).0,
{
    lemma_steps_same(first, s, t, steps);
    lemma_performed_same(first, steps_run(s, steps), steps_run(t, steps), request, None);
}

/// Replays that answer the same do so at a position, where the runs are the
/// same before it.
proof fn lemma_same_at(
    first: Contents,
    s: ReplayState,
    t: ReplayState,
    run: Seq<Exchange>,
    other: Seq<Exchange>,
    j: int,
)
    requires
        complete(s.trace.events, first),
        same_course(s, t),
        keeps(first, s.contents),
        keeps(first, t.contents),
        replayed(s, run),
        replayed(t, other),
        0 <= j < run.len(),
        j < other.len(),
        run.take(j) == other.take(j),
        run[j].request == other[j].request,
    ensures
        run[j] == other[j],
{
    lemma_same_steps(run, other, j);
    lemma_same_answer(first, s, t, one_by_one(run).take(j), run[j].request);
}

/// Whether an agent ran twice, against replays that answer the same.
#[verifier::opaque]
spec fn ran_alike(
    style: Style,
    first: Contents,
    s: ReplayState,
    t: ReplayState,
    run: Seq<Exchange>,
    report: Report,
    other: Seq<Exchange>,
    other_report: Report,
) -> bool {
    &&& complete(s.trace.events, first)
    &&& same_course(s, t)
    &&& keeps(first, s.contents)
    &&& keeps(first, t.contents)
    &&& agent_ran(style, run, report)
    &&& agent_ran(style, other, other_report)
    &&& replayed(s, run)
    &&& replayed(t, other)
}

/// Runs that are the same so far ask the same next.
proof fn lemma_same_request(
    style: Style,
    run: Seq<Exchange>,
    report: Report,
    other: Seq<Exchange>,
    other_report: Report,
    j: int,
)
    requires
        agent_ran(style, run, report),
        agent_ran(style, other, other_report),
        0 <= j < run.len(),
        j < other.len(),
        run.take(j) == other.take(j),
    ensures
        run[j].request == other[j].request,
{
    lemma_asked_at(style, run, report, j);
    lemma_asked_at(style, other, other_report, j);
    lemma_asked_same(style, run, other, j);
}

/// Runs that are the same so far go on the same.
proof fn lemma_same_next(
    style: Style,
    first: Contents,
    s: ReplayState,
    t: ReplayState,
    run: Seq<Exchange>,
    report: Report,
    other: Seq<Exchange>,
    other_report: Report,
    j: int,
)
    requires
        ran_alike(style, first, s, t, run, report, other, other_report),
        0 <= j < run.len(),
        j < other.len(),
        run.take(j) == other.take(j),
    ensures
        run[j] == other[j],
{
    reveal(ran_alike);
    assert(run[j].request == other[j].request) by {
        lemma_same_request(style, run, report, other, other_report, j);
    }
    lemma_same_at(first, s, t, run, other, j);
}

/// Runs against replays that answer the same are the same so far.
proof fn lemma_same_so_far(
    style: Style,
    first: Contents,
    s: ReplayState,
    t: ReplayState,
    run: Seq<Exchange>,
    report: Report,
    other: Seq<Exchange>,
    other_report: Report,
    k: int,
)
    requires
        ran_alike(style, first, s, t, run, report, other, other_report),
        0 <= k <= run.len(),
        k <= other.len(),
    ensures
        run.take(k) == other.take(k),
    decreases k,
{
    if k == 0 {
        assert(run.take(0) =~= other.take(0));
    } else {
        let j = k - 1;
        lemma_same_so_far(style, first, s, t, run, report, other, other_report, j);
        lemma_same_next(style, first, s, t, run, report, other, other_report, j);
        assert(run.take(k) =~= run.take(j).push(run[j]));
        assert(other.take(k) =~= other.take(j).push(other[j]));
    }
}

proof fn lemma_same_run(
    style: Style,
    first: Contents,
    s: ReplayState,
    t: ReplayState,
    run: Seq<Exchange>,
    report: Report,
    other: Seq<Exchange>,
    other_report: Report,
)
    requires
        complete(s.trace.events, first),
        same_course(s, t),
        keeps(first, s.contents),
        keeps(first, t.contents),
        agent_ran(style, run, report),
        agent_ran(style, other, other_report),
        replayed(s, run),
        replayed(t, other),
    ensures
        run == other,
{
    let k = if run.len() <= other.len() {
        run.len() as int
    } else {
        other.len() as int
    };
    assert(run.take(k) == other.take(k)) by {
        reveal(ran_alike);
        lemma_same_so_far(style, first, s, t, run, report, other, other_report, k);
    }
    lemma_asked_at(style, run, report, k - 1);
    lemma_asked_at(style, other, other_report, k - 1);
    assert(run.take(k)[k - 1] == other.take(k)[k - 1]);
    if k >= 2 {
        assert(run.take(k)[k - 2] == other.take(k)[k - 2]);
    }
    assert(run.len() == k && other.len() == k);
    assert(run =~= run.take(k));
    assert(other =~= other.take(k));
}

/// The agent that deletes a report is deterministic.
pub proof fn lemma_agent_deterministic(style: Style, trace: TraceModel, first: Contents)
    requires
        complete(trace.events, first),
    ensures
        deterministic(agent_asks(style), trace, first),
{
    let asks = agent_asks(style);
    assert forall|p: (ReplayState, Seq<Step>), q: (ReplayState, Seq<Step>)|
        #[trigger] asks.contains(p) && #[trigger] asks.contains(q) && p.0.trace == trace
            && same_course(p.0, q.0) && keeps(first, p.0.contents) && keeps(
            first,
            q.0.contents,
        ) implies p.1 == q.1 by {
        let (run, report) = lemma_own_run(style, p);
        let (other, other_report) = lemma_own_run(style, q);
        lemma_same_run(style, first, p.0, q.0, run, report, other, other_report);
    }
}

proof fn lemma_own_run(style: Style, p: (ReplayState, Seq<Step>)) -> (r: (Seq<Exchange>, Report))
    requires
        agent_asks(style).contains(p),
    ensures
        agent_ran(style, r.0, r.1),
        replayed(p.0, r.0),
        p.1 == one_by_one(r.0),
{
    choose|run: Seq<Exchange>, report: Report| #[trigger]
        agent_ran(style, run, report) && replayed(p.0, run) && p.1 == one_by_one(run)
}

proof fn lemma_same_rendered(
    first: Contents,
    s: ReplayState,
    t: ReplayState,
    done: Seq<(usize, Outcome)>,
    other: Seq<(usize, Outcome)>,
)
    requires
        complete(s.trace.events, first),
        same_course(s, t),
        keeps(first, s.contents),
        keeps(first, t.contents),
        rendered_so(s, done),
        rendered_so(t, other),
    ensures
        done.len() == 3,
        completion(done) == completion(other),
        is_order(completion(done), 3),
        as_arrived(done) == as_arrived(other),
{
    reveal(rendered_so);
    reveal(once_planned);
    lemma_performed_same(first, s, t, sections_request(), None);
    let (a, b) = (once_planned(s), once_planned(t));
    let order = completion_order(a, 3);
    lemma_batch_same(
        first,
        batch_begun(a, 3),
        batch_begun(b, 3),
        render_requests(),
        order,
        3,
        batch_tag(a.next_batch, 3),
    );
    assert(completion(done).len() == done.len() && completion(other).len() == other.len());
    assert(as_arrived(done) =~= Seq::new(3, |k: int| done[k].1@));
    assert(as_arrived(other) =~= Seq::new(3, |k: int| other[k].1@));
}

proof fn lemma_same_document(
    assembly: Assembly,
    done: Seq<(usize, Outcome)>,
    other: Seq<(usize, Outcome)>,
    document: Seq<Seq<char>>,
    others: Seq<Seq<char>>,
)
    requires
        done.len() == 3,
        completion(done) == completion(other),
        is_order(completion(done), 3),
        as_arrived(done) == as_arrived(other),
        assembled(assembly, done, document),
        assembled(assembly, other, others),
    ensures
        document == others,
{
    if assembly is ByRequestOrder {
        let x = choose|outcomes: Seq<OutcomeModel>| #[trigger]
            in_request_order(done, outcomes) && document == sections_of(outcomes);
        let y = choose|outcomes: Seq<OutcomeModel>| #[trigger]
            in_request_order(other, outcomes) && others == sections_of(outcomes);
        assert(other.len() == completion(other).len());
        assert forall|j: int, k: int|
            0 <= j < done.len() && 0 <= k < other.len() && (#[trigger] done[j]).0 == (
            #[trigger] other[k]).0 implies done[j].1@ == other[k].1@ by {
            assert(completion(done)[j] == done[j].0);
            assert(completion(other)[k] == other[k].0);
            assert(as_arrived(done)[j] == done[j].1@);
            assert(as_arrived(other)[k] == other[k].1@);
            assert(j == k);
        }
        lemma_placing_ignores_arrival(done, other, x, y);
    }
}

/// The agent that assembles a document is deterministic.
pub proof fn lemma_assembler_deterministic(
    assembly: Assembly,
    trace: TraceModel,
    first: Contents,
)
    requires
        complete(trace.events, first),
    ensures
        deterministic(assembly_asks(assembly), trace, first),
{
    let asks = assembly_asks(assembly);
    assert forall|p: (ReplayState, Seq<Step>), q: (ReplayState, Seq<Step>)|
        #[trigger] asks.contains(p) && #[trigger] asks.contains(q) && p.0.trace == trace
            && same_course(p.0, q.0) && keeps(first, p.0.contents) && keeps(
            first,
            q.0.contents,
        ) implies p.1 == q.1 by {
        assert(assembler_asked(assembly, p.0, p.1) && assembler_asked(assembly, q.0, q.1));
        let (done, document) = choose|done: Seq<(usize, Outcome)>, document: Seq<Seq<char>>|
            #[trigger] assembler_drove(p.0, assembly, done, document) && p.1 == assembler_steps(
                document,
            );
        let (other, others) = choose|done: Seq<(usize, Outcome)>, document: Seq<Seq<char>>|
            #[trigger] assembler_drove(q.0, assembly, done, document) && q.1 == assembler_steps(
                document,
            );
        lemma_same_rendered(first, p.0, q.0, done, other);
        lemma_same_document(assembly, done, other, document, others);
    }
}

/// The agents are deterministic where a store holds the recording, whichever
/// of their questions are asked.
pub(crate) proof fn lemma_worked_fixed(
    style: Style,
    assembly: Assembly,
    trace: TraceModel,
    first: Contents,
)
    ensures
        complete(trace.events, first) ==> forall|asks: Asking|
            #![trigger asks.subset_of(agent_asks(style))]
            asks.subset_of(agent_asks(style)) ==> deterministic(asks, trace, first),
        complete(trace.events, first) ==> forall|asks: Asking|
            #![trigger asks.subset_of(assembly_asks(assembly))]
            asks.subset_of(assembly_asks(assembly)) ==> deterministic(asks, trace, first),
{
    if complete(trace.events, first) {
        lemma_agent_deterministic(style, trace, first);
        lemma_assembler_deterministic(assembly, trace, first);
    }
}

proof fn lemma_recorded_one(s: RecordState, e: Exchange, batch: Option<u64>)
    requires
        complete(s.events, s.contents),
    ensures
        ({
            let t = recorded(s, e.request, e.outcome, batch);
            complete(t.events, t.contents)
        }),
{
    let t = recorded(s, e.request, e.outcome, batch);
    assert forall|i: int| 0 <= i < t.events.len() implies t.contents.dom().contains(
        (#[trigger] t.events[i]).request,
    ) && t.contents.dom().contains(t.events[i].outcome) by {
        if i < s.events.len() {
            assert(t.events[i] == s.events[i]);
        }
    }
}

/// The store of a recorder holds every payload that its trace names.
pub proof fn lemma_recorded_complete(s: RecordState, run: Seq<Exchange>, batch: Option<u64>)
    requires
        complete(s.events, s.contents),
    ensures
        ({
            let t = recorded_all(s, run, batch);
            complete(t.events, t.contents)
        }),
    decreases run.len(),
{
    if run.len() > 0 {
        lemma_recorded_complete(s, run.drop_last(), batch);
        lemma_recorded_one(recorded_all(s, run.drop_last(), batch), run.last(), batch);
    }
}

/// The store of a recording of the agent that assembles a document holds every
/// payload that its trace names.
pub proof fn lemma_assembly_complete(
    plan: OutcomeModel,
    done: Seq<(usize, Outcome)>,
    document: Seq<Seq<char>>,
    saved: OutcomeModel,
)
    ensures
        ({
            let t = taped_assembly(plan, done, document, saved);
            complete(t.events, t.contents)
        }),
{
    let first = Exchange { request: sections_request(), outcome: plan };
    let last = Exchange { request: save_request(document), outcome: saved };
    let planned = recorded(blank(), sections_request(), plan, None);
    let rendered = RecordState {
        next_batch: 1,
        ..recorded_all(planned, exchanges(render_requests(), done), Some(0))
    };
    lemma_recorded_one(blank(), first, None);
    lemma_recorded_complete(planned, exchanges(render_requests(), done), Some(0));
    lemma_recorded_one(rendered, last, None);
}

} // verus!
