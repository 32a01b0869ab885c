//! The worked examples, as sessions to explore.
//!
//! One agent deletes a report, and retries when that fails. Another renders
//! the sections of a document together, and saves what it assembled. A session
//! records one uneventful run against a deterministic backend, and then asks
//! what the agent would have done under faults.

use crate::canon::{default_paths, identity_of, Canonicalizer};
use crate::cas::{keeps, Cas, Contents, MemCas};
use crate::certificate::{issued, Certificate, CertificateModel};
use crate::config::{checked_property, Checker, SpecModel};
use crate::coverage::{may_sweep, sweep, CoverageModel};
use crate::determined::{complete, settled_exactly};
use crate::event::{EffectKind, EventModel, Outcome, OutcomeModel, RequestModel};
use crate::explore::{
    evaluate, lemma_declared_checkable, may_break, may_break_between, may_find, may_minimise,
    may_replay, may_settle, minimise, replay_under, search, search_order_dependence, Asking,
    Finding, OrderDependence,
};
use crate::fault::{unchanged, Fault, FaultModel, FaultPoint, FaultSchedule, PointModel};
use crate::hash::{is_full, lemma_full_has_short};
use crate::invariants::{all_breaches, check_all, identities_shown, Invariant, Violation};
use crate::json::{printed, JsonModel};
use crate::model::views;
use crate::orderings::{interleavings, may_interleave, InterleavingsModel};
use crate::record::{lemma_lookup_put, lemma_lookup_put_some, ordered_outcome, put};
use crate::replay::{
    answered_through, answers_so, completion, exchanges, recorded, recorded_all, Effects, Exchange,
    RecordState, Recorder,
};
use crate::replayer::{
    lemma_steps_keep, replay_start, result_of, steps_run, Mode, ModeModel, ReplayResult,
    ReplayState, Replayer, ResultModel, Step,
};
use crate::report::{command_checkers, command_properties};
use crate::shrink::Shrunk;
use crate::testkit::{
    agent_at, agent_ran, answered, ask_plan, ask_save, ask_sections, assemble, assembled,
    assembler_drove, assembler_run, assembler_steps, calm, delete_request, deleted, drive_agent,
    drive_assembler, lemma_agent_goes_on, one_by_one, planned_path, question_of, render_requests,
    replayed, save_request, sections_request, text_under, turns_left, Agent, Assembly,
    BackendModel, FakeBackend, Report, Style, WorldAccess, WorldModel,
};
use crate::text::{same, texts, times_in};
use crate::timeline::{
    fork, may_fork, may_show, run_view, schedule_for_seed, schedule_read, show_run, show_search,
    style_named,
};
use crate::trace::{run_id, HeaderModel, Trace, TraceHeader, TraceModel};
use crate::verdicts::{found_first, lemma_declared_read_named, same_failure};
use crate::worked::{lemma_assembly_complete, lemma_recorded_complete, lemma_worked_fixed};
use vstd::prelude::*;

verus! {

// ---------------------------------------------------------------------------
// Recording
// ---------------------------------------------------------------------------

/// A backend, once it has answered the requests of a run.
pub open spec fn backend_after(b: BackendModel, run: Seq<Exchange>) -> BackendModel
    decreases run.len(),
{
    if run.len() == 0 {
        b
    } else {
        answered(backend_after(b, run.drop_last()), run.last().request).1
    }
}

/// Whether the outcomes of a run are those of a backend.
pub open spec fn answers(b: BackendModel, run: Seq<Exchange>) -> bool {
    forall|k: int|
        0 <= k < run.len() ==> (#[trigger] run[k]).outcome == ordered_outcome(
            answered(backend_after(b, run.take(k)), run[k].request).0,
        )
}

proof fn lemma_answers_more(b: BackendModel, run: Seq<Exchange>, e: Exchange)
    requires
        answers(b, run),
        e.outcome == ordered_outcome(answered(backend_after(b, run), e.request).0),
    ensures
        answers(b, run.push(e)),
        backend_after(b, run.push(e)) == answered(backend_after(b, run), e.request).1,
{
    let next = run.push(e);
    assert(next.drop_last() =~= run);
    assert forall|k: int| 0 <= k < next.len() implies (#[trigger] next[k]).outcome
        == ordered_outcome(answered(backend_after(b, next.take(k)), next[k].request).0) by {
        if k < run.len() {
            assert(next[k] == run[k]);
            assert(next.take(k) =~= run.take(k));
        } else {
            assert(next.take(k) =~= run);
        }
    }
}

proof fn lemma_answers_batch(
    b: BackendModel,
    run: Seq<Exchange>,
    states: Seq<FakeBackend>,
    requests: Seq<RequestModel>,
    done: Seq<(usize, Outcome)>,
    n: nat,
)
    requires
        answers(b, run),
        answered_through(states, requests, done),
        states[0]@ == backend_after(b, run),
        requests.len() == done.len(),
        completion(done) == unchanged(done.len()),
        n <= done.len() <= usize::MAX,
    ensures
        answers(b, run + exchanges(requests, done).take(n as int)),
        states[n as int]@ == backend_after(b, run + exchanges(requests, done).take(n as int)),
    decreases n,
{
    let all = exchanges(requests, done);
    if n == 0 {
        assert(run + all.take(0) =~= run);
    } else {
        let k = n - 1;
        lemma_answers_batch(b, run, states, requests, done, k as nat);
        assert(completion(done)[k] == k);
        let e = all[k];
        assert(answers_so(states[k], requests[k], done[k].1@, states[k + 1]));
        lemma_answers_more(b, run + all.take(k), e);
        assert(run + all.take(n as int) =~= (run + all.take(k)).push(e));
    }
}

/// The agent asks its backend for nothing but the delete, plans and summaries
/// aside.
proof fn lemma_agent_requests(style: Style, run: Seq<Exchange>, report: Report, i: int)
    requires
        agent_ran(style, run, report),
        0 <= i < run.len(),
    ensures
        run[i].request.kind == EffectKind::Tool ==> run[i].request == delete_request(
            style,
            planned_path(run[0].outcome),
        ),
{
    let n = report.attempts as int;
    if 0 < i < run.len() - 1 {
        let k = (i - 1) / 3;
        assert(i == 1 + 3 * k || i == 2 + 3 * k || i == 3 + 3 * k);
        assert(run[1 + 3 * k].request == delete_request(style, planned_path(run[0].outcome)));
    }
}

/// A world as the keyed agent may leave it: as it was, or with one more delete
/// and the key of it.
spec fn deleted_once(before: WorldModel, path: Seq<char>, after: WorldModel) -> bool {
    ||| after == before
    ||| after.deletes == before.deletes.push(path) && after.applied.contains("delete:"@ + path)
}

proof fn lemma_keyed_prefix(b: BackendModel, run: Seq<Exchange>, report: Report, k: nat)
    requires
        agent_ran(Style::Idempotent, run, report),
        k <= run.len(),
    ensures
        deleted_once(
            b.world,
            planned_path(run[0].outcome),
            backend_after(b, run.take(k as int)).world,
        ),
    decreases k,
{
    if k > 0 {
        let path = planned_path(run[0].outcome);
        let before = run.take(k - 1);
        lemma_keyed_prefix(b, run, report, (k - 1) as nat);
        assert(run.take(k as int).drop_last() =~= before);
        assert(run.take(k as int).last() == run[k - 1]);
        lemma_agent_requests(Style::Idempotent, run, report, k - 1);
        let known = backend_after(b, before);
        let request = run[k - 1].request;
        reveal(answered);
        if request.kind == EffectKind::Tool {
            lemma_delete_keyed(path);
            let after = deleted(known.world, request.body).1;
            if after != known.world {
                assert(after.applied[known.world.applied.len() as int] == "delete:"@ + path);
                assert(after.applied.contains("delete:"@ + path));
            }
        }
    }
}

proof fn lemma_delete_keyed(path: Seq<char>)
    ensures
        ({
            let body = delete_request(Style::Idempotent, path).body;
            &&& text_under(body, "idempotency_key"@) == Some("delete:"@ + path)
            &&& text_under(body, "path"@) == Some(path)
        }),
{
    reveal_strlit("path");
    reveal_strlit("idempotency_key");
    assert("path"@ != "idempotency_key"@) by {
        assert("path"@.len() != "idempotency_key"@.len());
    }
    let key = Some(JsonModel::Text("delete:"@ + path));
    let fields = put(seq![], "path"@, JsonModel::Text(path));
    lemma_lookup_put(seq![], "path"@, JsonModel::Text(path), "path"@);
    lemma_lookup_put_some(fields, "idempotency_key"@, key, "path"@);
    lemma_lookup_put_some(fields, "idempotency_key"@, key, "idempotency_key"@);
}

proof fn lemma_success_applied(b: BackendModel, path: Seq<char>)
    requires
        answered(b, delete_request(Style::Idempotent, path)).0 is Success,
    ensures
        answered(b, delete_request(Style::Idempotent, path)).1.world.applied.contains(
            "delete:"@ + path,
        ),
{
    let request = delete_request(Style::Idempotent, path);
    lemma_delete_keyed(path);
    let after = deleted(b.world, request.body).1;
    if !b.world.applied.contains("delete:"@ + path) {
        assert(after.applied[b.world.applied.len() as int] == "delete:"@ + path);
    }
    assert(after.applied.contains("delete:"@ + path));
    reveal(answered);
    assert(answered(b, request).1.world == after);
}

/// Where the agent reports success, its last try was answered with one, and
/// only the summary followed.
proof fn lemma_success_last(b: BackendModel, run: Seq<Exchange>, report: Report)
    requires
        agent_ran(Style::Idempotent, run, report),
        answers(b, run),
        report.succeeded,
    ensures
        backend_after(b, run).world.applied.contains(
            "delete:"@ + planned_path(run[0].outcome),
        ),
{
    let path = planned_path(run[0].outcome);
    let at = 3 * report.attempts - 2;
    let known = backend_after(b, run.take(at));
    assert(run[at].request == delete_request(Style::Idempotent, path));
    assert(run[at].outcome == ordered_outcome(answered(known, run[at].request).0));
    lemma_success_applied(known, path);
    assert(run.take(at + 1).drop_last() =~= run.take(at));
    assert(run.take(at + 1).last() == run[at]);
    assert(run.drop_last() =~= run.take(at + 1));
    assert(answered(backend_after(b, run.take(at + 1)), run.last().request).1 == backend_after(
        b,
        run.take(at + 1),
    )) by {
        reveal(answered);
    }
}

/// The agent that sends a key deletes at most once, however often it tries, and
/// whatever its backend refuses or loses on the way. Where it reports success
/// on a key that is new to the world, it deleted exactly once.
pub proof fn lemma_keyed_agent_deletes_once(b: BackendModel, run: Seq<Exchange>, report: Report)
    requires
        agent_ran(Style::Idempotent, run, report),
    ensures
        ({
            let path = planned_path(run[0].outcome);
            let before = b.world.deletes;
            let after = backend_after(b, run).world.deletes;
            &&& after == before || after == before.push(path)
            &&& answers(b, run) && report.succeeded && !b.world.applied.contains("delete:"@ + path)
                ==> after == before.push(path)
        }),
{
    assert(run.take(run.len() as int) =~= run);
    lemma_keyed_prefix(b, run, report, run.len());
    if answers(b, run) && report.succeeded {
        lemma_success_last(b, run, report);
    }
}

/// Whether the identities of recorded effects are whole digests.
pub open spec fn all_full(s: RecordState) -> bool {
    forall|i: int| 0 <= i < s.events.len() ==> is_full((#[trigger] s.events[i]).identity)
}

proof fn lemma_recorded_full(s: RecordState, run: Seq<Exchange>, batch: Option<u64>)
    requires
        all_full(s),
        forall|k: int|
            0 <= k < run.len() ==> is_full(identity_of(s.paths, (#[trigger] run[k]).request)),
    ensures
        all_full(recorded_all(s, run, batch)),
        recorded_all(s, run, batch).paths == s.paths,
    decreases run.len(),
{
    if run.len() > 0 {
        let before = run.drop_last();
        assert forall|k: int| 0 <= k < before.len() implies is_full(
            identity_of(s.paths, (#[trigger] before[k]).request),
        ) by {
            assert(before[k] == run[k]);
        }
        lemma_recorded_full(s, before, batch);
        let known = recorded_all(s, before, batch);
        let last = run.last();
        assert(last == run[run.len() - 1]);
        let next = recorded_all(s, run, batch);
        assert forall|i: int| 0 <= i < next.events.len() implies is_full(
            (#[trigger] next.events[i]).identity,
        ) by {
            if i < known.events.len() {
                assert(next.events[i] == known.events[i]);
            }
        }
    }
}

/// A recorder that has recorded nothing, into an empty store.
pub open spec fn blank() -> RecordState {
    RecordState {
        paths: default_paths(),
        contents: Map::empty(),
        events: seq![],
        next_batch: 0,
    }
}

/// The trace of what a recorder has recorded.
pub open spec fn taped(label: Seq<char>, s: RecordState) -> TraceModel {
    TraceModel {
        header: HeaderModel {
            label,
            canonicalizer: s.paths,
            ..crate::trace::default_header()
        },
        events: s.events,
    }
}

/// The file that the agent is to delete.
pub open spec fn target() -> Seq<char> {
    "/var/reports/stale.csv"@
}

/// A run of the agent, as it was recorded.
pub struct Recording {
    pub trace: Trace,
    pub cas: MemCas,
    /// What the agent reported.
    pub report: Report,
    /// How often the file was really deleted.
    pub deletes: usize,
}

/// Whether a run of the agent against a backend may have been recorded so.
pub open spec fn may_record(
    b: BackendModel,
    style: Style,
    label: Seq<char>,
    run: Seq<Exchange>,
    report: Report,
    trace: TraceModel,
    contents: Contents,
) -> bool {
    &&& agent_ran(style, run, report)
    &&& answers(b, run)
    &&& trace == taped(label, recorded_all(blank(), run, None))
    &&& contents == recorded_all(blank(), run, None).contents
}

/// Records a run of the agent against a backend.
pub fn record_agent(backend: FakeBackend, style: Style, label: &str) -> (r: Recording)
    ensures
        identities_shown(r.trace@),
        exists|run: Seq<Exchange>| #[trigger]
            may_record(backend@, style, label@, run, r.report, r.trace@, r.cas.contents())
                && r.deletes == times_in(backend_after(backend@, run).world.deletes, target()),
{
    let ghost b = backend@;
    let mut cas = MemCas::new();
    let mut recorder = Recorder::new(backend, &mut cas, Canonicalizer::default());
    let mut agent = Agent::new(style);
    let ghost mut run: Seq<Exchange> = seq![];
    loop
        invariant
            recorder.ready(),
            after_borrow(cas) == *final(recorder.cas),
            recorder@ == recorded_all(blank(), run, None),
            recorder.backend@ == backend_after(b, run),
            answers(b, run),
            agent@.style == style,
            agent_at(agent@, run),
            forall|i: int|
                0 <= i < recorder@.events.len() ==> is_full(
                    (#[trigger] recorder@.events[i]).identity,
                ),
        ensures
            question_of(agent@) is None,
        decreases turns_left(agent@),
    {
        let request = match agent.question() {
            Some(request) => request,
            None => {
                break;
            },
        };
        let ghost before = agent@;
        let ghost known = recorder@;
        let outcome = recorder.perform(request);
        agent.hear(&outcome);
        proof {
            let e = Exchange { request: question_of(before)->0, outcome: outcome@ };
            lemma_agent_goes_on(before, run, outcome@);
            lemma_answers_more(b, run, e);
            assert(run.push(e).drop_last() =~= run);
            assert forall|i: int| 0 <= i < recorder@.events.len() implies is_full(
                (#[trigger] recorder@.events[i]).identity,
            ) by {
                if i < known.events.len() {
                    assert(recorder@.events[i] == known.events[i]);
                }
            }
            run = run.push(e);
        }
    }
    let report = agent.report();
    let deletes: usize = recorder.world().delete_count("/var/reports/stale.csv");
    let ghost end = recorder@;
    let trace = recorder.finish(label);
    proof {
        assert forall|i: int| 0 <= i < trace@.events.len() implies crate::hash::has_short(
            (#[trigger] trace@.events[i]).identity,
        ) by {
            lemma_full_has_short(end.events[i].identity);
        }
    }
    let out = Recording { trace, cas, report, deletes };
    assert(out.deletes == times_in(backend_after(b, run).world.deletes, target()));
    assert(may_record(b, style, label@, run, out.report, out.trace@, out.cas.contents()));
    out
}

// ---------------------------------------------------------------------------
// Exploring the agent that deletes a report
// ---------------------------------------------------------------------------

/// What the examples are held to: the report is deleted once, and the run
/// ends.
pub open spec fn demo_properties() -> Seq<SpecModel> {
    command_properties(seq!["delete_file"@], Some("idempotency_key"@), 24, None)
}

/// Whether these checkers check what the examples are held to.
pub open spec fn are_demo(invariants: Seq<Checker>) -> bool {
    Seq::new(invariants.len(), |i: int| checked_property(invariants[i])) == demo_properties()
}

/// What the examples are held to.
pub fn demo_checkers() -> (r: Vec<Checker>)
    ensures
        are_demo(r@),
{
    let mut effectful: Vec<String> = Vec::new();
    effectful.push("delete_file".to_owned());
    assert(texts(effectful@) =~= seq!["delete_file"@]);
    command_checkers(effectful, Some("idempotency_key"), 24, None)
}

/// The questions that the agent may ask of a replay.
pub open spec fn agent_asks(style: Style) -> Asking {
    Set::new(
        |p: (ReplayState, Seq<Step>)|
            exists|run: Seq<Exchange>, report: Report| #[trigger]
                agent_ran(style, run, report) && replayed(p.0, run) && p.1 == one_by_one(run),
    )
}

/// What drives a replay with the agent.
fn driver(style: Style) -> (r: impl FnMut(&mut Replayer<'_, MemCas>) + Copy)
    ensures
        forall|x: &mut Replayer<'_, MemCas>|
            (*x).ready() ==> #[trigger] call_requires(r, (x,)),
        forall|x: &mut Replayer<'_, MemCas>| #[trigger]
            call_ensures(r, (x,), ()) ==> {
                &&& (*final(x)).ready()
                &&& (*final(x)).start == (*x).start
                &&& *final((*final(x)).cas) == *final((*x).cas)
                &&& (*x).steps@.len() == 0 ==> agent_asks(style).contains(
                    ((*x).start@, (*final(x)).steps@),
                )
            },
{
    move |x: &mut Replayer<'_, MemCas>|
        requires
            old(x).ready(),
        ensures
            final(x).ready(),
            final(x).start == old(x).start,
            *final(final(x).cas) == *final(old(x).cas),
            old(x).steps@.len() == 0 ==> agent_asks(style).contains(
                (old(x).start@, final(x).steps@),
            ),
        {
            let ghost first = x.steps@;
            let report = drive_agent(x, style);
            proof {
                if first.len() == 0 {
                    let run = choose|run: Seq<Exchange>| #[trigger]
                        agent_ran(style, run, report) && x.steps@ == first + one_by_one(run)
                            && replayed(x.start@, run);
                    assert(x.steps@ =~= one_by_one(run));
                }
            }
        }
}

/// Whether a sweep of a recording and of its orders may have found this, against
/// an agent that asks so.
pub open spec fn found_so<C: Cas, I: Invariant<C>>(
    trace: TraceModel,
    first: Contents,
    invariants: Seq<I>,
    pairs: bool,
    max_replays: nat,
    coverage: CoverageModel,
    asks: Asking,
    later: Contents,
    reports: Seq<InterleavingsModel>,
    others: Asking,
) -> bool {
    &&& may_sweep::<C, I>(trace, first, invariants, max_replays, pairs, coverage, asks)
    &&& keeps(first, later)
    &&& may_interleave(trace, later, reports, others)
}

/// Whether this may be the certificate of a recording that was swept with an
/// agent that asks nothing but these questions.
pub open spec fn may_certify<C: Cas, I: Invariant<C>>(
    trace: TraceModel,
    first: Contents,
    invariants: Seq<I>,
    pairs: bool,
    max_replays: nat,
    own: Asking,
    r: CertificateModel,
) -> bool {
    exists|
        coverage: CoverageModel,
        asks: Asking,
        later: Contents,
        reports: Seq<InterleavingsModel>,
        others: Asking,
    |
        {
            &&& #[trigger] found_so::<C, I>(
                trace,
                first,
                invariants,
                pairs,
                max_replays,
                coverage,
                asks,
                later,
                reports,
                others,
            )
            &&& asks.subset_of(own)
            &&& others.subset_of(own)
            &&& r == issued(
                run_id(trace.events),
                trace.header.label,
                seq!["no_duplicate_effects"@, "terminates_within"@],
                coverage,
                reports,
            )
        }
}

proof fn lemma_may_certify<C: Cas, I: Invariant<C>>(
    trace: TraceModel,
    first: Contents,
    invariants: Seq<I>,
    pairs: bool,
    max_replays: nat,
    coverage: CoverageModel,
    later: Contents,
    reports: Seq<InterleavingsModel>,
    own: Asking,
)
    requires
        exists|asks: Asking| #[trigger]
            may_sweep::<C, I>(trace, first, invariants, max_replays, pairs, coverage, asks)
                && asks.subset_of(own),
        keeps(first, later),
        exists|others: Asking| #[trigger]
            may_interleave(trace, later, reports, others) && others.subset_of(own),
    ensures
        may_certify::<C, I>(
            trace,
            first,
            invariants,
            pairs,
            max_replays,
            own,
            issued(
                run_id(trace.events),
                trace.header.label,
                seq!["no_duplicate_effects"@, "terminates_within"@],
                coverage,
                reports,
            ),
        ),
{
    let asks = choose|asks: Asking| #[trigger]
        may_sweep::<C, I>(trace, first, invariants, max_replays, pairs, coverage, asks)
            && asks.subset_of(own);
    let others = choose|others: Asking| #[trigger]
        may_interleave(trace, later, reports, others) && others.subset_of(own);
    assert(found_so::<C, I>(
        trace,
        first,
        invariants,
        pairs,
        max_replays,
        coverage,
        asks,
        later,
        reports,
        others,
    ));
}

/// The position of the first effect of a name, or the one after the start where
/// none has it.
pub open spec fn first_called(events: Seq<EventModel>, name: Seq<char>) -> u64
    decreases events.len(),
{
    if events.len() == 0 {
        1
    } else if events[0].name == name {
        events[0].seq
    } else {
        first_called(events.drop_first(), name)
    }
}

/// A recorded run of the agent, ready to be explored.
pub struct Session {
    pub trace: Trace,
    pub cas: MemCas,
    pub style: Style,
}

impl Session {
    /// Whether the identities of the recording have a head to show.
    pub open spec fn well_formed(&self) -> bool {
        identities_shown(self.trace@)
    }

    /// Whether this is the same recording, with a store that has lost nothing.
    pub open spec fn goes_on(&self, before: Session) -> bool {
        &&& self.trace == before.trace
        &&& self.style == before.style
        &&& keeps(before.cas.contents(), self.cas.contents())
    }

    /// Records an uneventful run of the agent in a style.
    pub fn of(style: Style) -> (r: Session)
        ensures
            r.well_formed(),
            r.style == style,
            complete(r.trace@.events, r.cas.contents()),
            exists|run: Seq<Exchange>, report: Report| #[trigger]
                may_record(
                    calm(1),
                    style,
                    "delete-stale-report"@,
                    run,
                    report,
                    r.trace@,
                    r.cas.contents(),
                ),
    {
        let recording = record_agent(FakeBackend::new(1), style, "delete-stale-report");
        let ghost run = choose|run: Seq<Exchange>| #[trigger]
            may_record(
                calm(1),
                style,
                "delete-stale-report"@,
                run,
                recording.report,
                recording.trace@,
                recording.cas.contents(),
            );
        let ghost report = recording.report;
        let session = Session { trace: recording.trace, cas: recording.cas, style };
        assert(may_record(
            calm(1),
            style,
            "delete-stale-report"@,
            run,
            report,
            session.trace@,
            session.cas.contents(),
        ));
        proof {
            lemma_recorded_complete(blank(), run, None);
        }
        session
    }

    /// Records an uneventful run of the agent in the style that a word names.
    pub fn new(style: &str) -> (r: Session)
        ensures
            r.well_formed(),
            complete(r.trace@.events, r.cas.contents()),
            r.style == if style@ == "idempotent"@ {
                Style::Idempotent
            } else {
                Style::Naive
            },
            exists|run: Seq<Exchange>, report: Report| #[trigger]
                may_record(
                    calm(1),
                    r.style,
                    "delete-stale-report"@,
                    run,
                    report,
                    r.trace@,
                    r.cas.contents(),
                ),
    {
        Session::of(style_named(style))
    }

    /// The recording, checked and shown.
    pub fn recording(&self) -> (r: String)
        requires
            self.well_formed(),
        ensures
            exists|invariants: Seq<Checker>| #[trigger]
                are_demo(invariants) && r@ == printed(
                    run_view(
                        self.trace@,
                        self.cas.contents(),
                        all_breaches::<MemCas, Checker>(
                            invariants,
                            self.trace@,
                            self.cas.contents(),
                        ),
                        0,
                    ),
                ),
    {
        let invariants = demo_checkers();
        proof {
            lemma_declared_checkable::<MemCas>(invariants@);
        }
        let violations = check_all(&self.trace, &self.cas, &invariants);
        show_run(&self.trace, &self.cas, &violations, 0)
    }

    /// Replay under a schedule that is given as text, and show the run that
    /// results.
    pub fn fork(&mut self, schedule: &str) -> (r: String)
        ensures
            final(self).goes_on(*old(self)),
            match schedule_read(schedule@) {
                None => r@ == printed(
                    crate::timeline::error_json(crate::timeline::schedule_trouble(schedule@)),
                ),
                Some(points) => exists|invariants: Seq<Checker>, asks: Asking|
                    are_demo(invariants) && #[trigger] may_fork::<MemCas, Checker>(
                        old(self).trace@,
                        old(self).cas.contents(),
                        points,
                        invariants,
                        r@,
                        asks,
                    ) && asks.subset_of(agent_asks(old(self).style)),
            },
    {
        let invariants = demo_checkers();
        proof {
            lemma_declared_checkable::<MemCas>(invariants@);
        }
        let drive = driver(self.style);
        fork(&self.trace, &mut self.cas, schedule, &invariants, drive)
    }

    /// Search seeds for a schedule that breaks an invariant, minimise it, and
    /// show both.
    pub fn search(&mut self, seeds: u32, max_faults: usize) -> (r: String)
        ensures
            final(self).goes_on(*old(self)),
            exists|
                invariants: Seq<Checker>,
                found: Option<Finding>,
                asks: Asking,
                others: Asking,
            |
                are_demo(invariants) && #[trigger] may_find::<MemCas, Checker>(
                    old(self).trace@,
                    old(self).cas.contents(),
                    final(self).cas.contents(),
                    0,
                    seeds as u64,
                    max_faults as nat,
                    invariants,
                    found,
                    asks,
                ) && #[trigger] may_show::<MemCas, Checker>(
                    old(self).trace@,
                    old(self).cas.contents(),
                    final(self).cas.contents(),
                    invariants,
                    found,
                    r@,
                    others,
                ) && asks.subset_of(agent_asks(old(self).style)) && others.subset_of(
                    agent_asks(old(self).style),
                ),
    {
        let invariants = demo_checkers();
        proof {
            lemma_declared_checkable::<MemCas>(invariants@);
        }
        let drive = driver(self.style);
        show_search(
            &self.trace,
            &mut self.cas,
            seeds as u64,
            max_faults,
            &invariants,
            drive,
        )
    }

    /// The schedule that a seed gives for the recording, as text.
    pub fn schedule_for_seed(&self, seed: u64, max_faults: usize) -> (r: String)
        ensures
            r@ == printed(
                crate::record::schedule_json(
                    crate::fault::generated(
                        seed,
                        crate::trace::faultable_positions(self.trace@.events),
                        max_faults as nat,
                    ),
                ),
            ),
    {
        schedule_for_seed(&self.trace, seed, max_faults)
    }

    /// The first of the seeds whose schedule breaks an invariant. Where the
    /// store holds the recording, that is exact.
    pub fn find(&mut self, seeds: u64, max_faults: usize) -> (r: Option<Finding>)
        ensures
            final(self).goes_on(*old(self)),
            exists|invariants: Seq<Checker>, asks: Asking|
                are_demo(invariants) && #[trigger] may_find::<MemCas, Checker>(
                    old(self).trace@,
                    old(self).cas.contents(),
                    final(self).cas.contents(),
                    0,
                    seeds,
                    max_faults as nat,
                    invariants,
                    r,
                    asks,
                ) && asks.subset_of(agent_asks(old(self).style)) && (complete(
                    old(self).trace@.events,
                    old(self).cas.contents(),
                ) ==> found_first::<MemCas, Checker>(
                    old(self).trace@,
                    old(self).cas.contents(),
                    final(self).cas.contents(),
                    0,
                    seeds,
                    max_faults as nat,
                    invariants,
                    r,
                    asks,
                )),
    {
        let invariants = demo_checkers();
        proof {
            lemma_declared_checkable::<MemCas>(invariants@);
            lemma_declared_read_named::<MemCas>(invariants@);
            lemma_worked_fixed(
                self.style,
                Assembly::AsTheyArrive,
                self.trace@,
                self.cas.contents(),
            );
        }
        let drive = driver(self.style);
        search(&self.trace, &mut self.cas, 0..seeds, max_faults, &invariants, drive)
    }

    /// Whichever invariants a schedule breaks.
    pub fn evaluate(&mut self, schedule: FaultSchedule) -> (r: Vec<Violation>)
        ensures
            final(self).goes_on(*old(self)),
            exists|invariants: Seq<Checker>, asks: Asking|
                are_demo(invariants) && #[trigger] may_break::<MemCas, Checker>(
                    old(self).trace@,
                    old(self).cas.contents(),
                    schedule@,
                    invariants,
                    views(r@),
                    asks,
                ) && may_break_between::<MemCas, Checker>(
                    old(self).trace@,
                    old(self).cas.contents(),
                    final(self).cas.contents(),
                    schedule@,
                    invariants,
                    views(r@),
                    asks,
                ) && asks.subset_of(agent_asks(old(self).style)),
    {
        let invariants = demo_checkers();
        proof {
            lemma_declared_checkable::<MemCas>(invariants@);
        }
        let drive = driver(self.style);
        evaluate(&self.trace, &mut self.cas, schedule, &invariants, drive)
    }

    /// The faults of a finding that actually matter. Where the store holds the
    /// recording, they break the same invariants as the finding.
    pub fn minimise(&mut self, finding: &Finding) -> (r: Shrunk)
        ensures
            final(self).goes_on(*old(self)),
            exists|invariants: Seq<Checker>, asks: Asking|
                are_demo(invariants) && #[trigger] may_minimise::<MemCas, Checker>(
                    old(self).trace@,
                    old(self).cas.contents(),
                    final(self).cas.contents(),
                    invariants,
                    *finding,
                    r,
                    asks,
                ) && asks.subset_of(agent_asks(old(self).style)) && (complete(
                    old(self).trace@.events,
                    old(self).cas.contents(),
                ) && may_break_between::<MemCas, Checker>(
                    old(self).trace@,
                    old(self).cas.contents(),
                    final(self).cas.contents(),
                    finding.schedule@,
                    invariants,
                    views(finding.violations@),
                    asks,
                ) ==> same_failure::<MemCas, Checker>(
                    old(self).trace@,
                    old(self).cas.contents(),
                    final(self).cas.contents(),
                    invariants,
                    *finding,
                    r,
                    asks,
                )),
    {
        let invariants = demo_checkers();
        proof {
            lemma_declared_checkable::<MemCas>(invariants@);
            lemma_declared_read_named::<MemCas>(invariants@);
            lemma_worked_fixed(
                self.style,
                Assembly::AsTheyArrive,
                self.trace@,
                self.cas.contents(),
            );
        }
        let drive = driver(self.style);
        minimise(&self.trace, &mut self.cas, finding, &invariants, drive)
    }

    /// The schedule in which the recorded delete times out.
    pub fn timed_out(&self) -> (r: FaultSchedule)
        ensures
            r@ == seq![
                PointModel {
                    seq: first_called(self.trace@.events, "delete_file"@),
                    fault: FaultModel::Timeout,
                },
            ],
    {
        let ghost events = self.trace@.events;
        let mut seq: u64 = 1;
        let mut found = false;
        let mut i: usize = 0;
        assert(events.skip(0) =~= events);
        while i < self.trace.events.len() && !found
            invariant
                i <= self.trace.events@.len(),
                events == self.trace@.events,
                found ==> seq == first_called(events, "delete_file"@),
                !found ==> seq == 1 && first_called(events.skip(i as int), "delete_file"@)
                    == first_called(events, "delete_file"@),
            decreases self.trace.events@.len() - i,
        {
            let event = &self.trace.events[i];
            assert(event@ == events[i as int]);
            assert(events.skip(i as int).drop_first() =~= events.skip(i + 1));
            if same(event.name.as_str(), "delete_file") {
                seq = event.seq;
                found = true;
            }
            i += 1;
        }
        let mut points: Vec<FaultPoint> = Vec::new();
        points.push(FaultPoint { seq, fault: Fault::Timeout });
        let schedule = FaultSchedule::of(points);
        assert(schedule@ =~= seq![PointModel { seq, fault: FaultModel::Timeout }]);
        schedule
    }

    /// The run that a schedule makes of the recording.
    pub fn replay(&mut self, schedule: FaultSchedule, label: &str) -> (r: ReplayResult)
        ensures
            final(self).goes_on(*old(self)),
            identities_shown(r.branch@),
            may_replay(
                old(self).trace@,
                old(self).cas.contents(),
                schedule@,
                label@,
                r@,
                final(self).cas.contents(),
                agent_asks(old(self).style),
            ),
    {
        let mut drive = driver(self.style);
        replay_under(&self.trace, &mut self.cas, schedule, label, &mut drive)
    }

    /// Sweeps the faults of the recording, and certifies what was found.
    pub fn certify(&mut self, pairs: bool, max_replays: usize) -> (r: Certificate)
        ensures
            final(self).goes_on(*old(self)),
            exists|invariants: Seq<Checker>| #[trigger]
                may_certify::<MemCas, Checker>(
                    old(self).trace@,
                    old(self).cas.contents(),
                    invariants,
                    pairs,
                    max_replays as nat,
                    agent_asks(old(self).style),
                    r@,
                ) && are_demo(invariants),
    {
        let ghost first = self.cas.contents();
        let invariants = demo_checkers();
        proof {
            lemma_declared_checkable::<MemCas>(invariants@);
        }
        let drive = driver(self.style);
        let coverage = sweep(
            &self.trace,
            &mut self.cas,
            &invariants,
            max_replays,
            pairs,
            drive,
        );
        let ghost later = self.cas.contents();
        let reports = interleavings(&self.trace, &mut self.cas, drive);
        let ghost covered = coverage@;
        let ghost orders = views(reports@);
        let certificate = Certificate::new(
            self.trace.id(),
            self.trace.header.label.clone(),
            name_demo(),
            coverage,
            reports,
        );
        proof {
            lemma_may_certify::<MemCas, Checker>(
                self.trace@,
                first,
                invariants@,
                pairs,
                max_replays as nat,
                covered,
                later,
                orders,
                agent_asks(self.style),
            );
        }
        certificate
    }
}

/// The names of what the examples are held to.
fn name_demo() -> (r: Vec<String>)
    ensures
        texts(r@) == seq!["no_duplicate_effects"@, "terminates_within"@],
{
    let mut names: Vec<String> = Vec::new();
    names.push("no_duplicate_effects".to_owned());
    names.push("terminates_within".to_owned());
    assert(texts(names@) =~= seq!["no_duplicate_effects"@, "terminates_within"@]);
    names
}

// ---------------------------------------------------------------------------
// Exploring the agent that assembles a document
// ---------------------------------------------------------------------------

/// What recording the agent that assembles a document leaves with a recorder.
pub open spec fn taped_assembly(
    plan: OutcomeModel,
    done: Seq<(usize, Outcome)>,
    document: Seq<Seq<char>>,
    saved: OutcomeModel,
) -> RecordState {
    let planned = recorded(blank(), sections_request(), plan, None);
    let rendered = RecordState {
        next_batch: 1,
        ..recorded_all(planned, exchanges(render_requests(), done), Some(0))
    };
    recorded(rendered, save_request(document), saved, None)
}

/// Whether an uneventful run of the agent may have been recorded so.
pub open spec fn may_assemble(
    assembly: Assembly,
    plan: OutcomeModel,
    done: Seq<(usize, Outcome)>,
    saved: OutcomeModel,
    document: Seq<Seq<char>>,
    trace: TraceModel,
    contents: Contents,
) -> bool {
    &&& completion(done) == unchanged(3)
    &&& assembled(assembly, done, document)
    &&& answers(calm(1), assembler_run(plan, done, document, saved))
    &&& trace == taped("assemble-report"@, taped_assembly(plan, done, document, saved))
    &&& contents == taped_assembly(plan, done, document, saved).contents
}

/// Whether the agent may ask these questions of a replay that starts so.
pub open spec fn assembler_asked(assembly: Assembly, start: ReplayState, steps: Seq<Step>) -> bool {
    exists|done: Seq<(usize, Outcome)>, document: Seq<Seq<char>>| #[trigger]
        assembler_drove(start, assembly, done, document) && steps == assembler_steps(document)
}

/// The questions that the agent may ask of a replay.
pub open spec fn assembly_asks(assembly: Assembly) -> Asking {
    Set::new(|p: (ReplayState, Seq<Step>)| assembler_asked(assembly, p.0, p.1))
}

/// What drives a replay with the agent.
fn assembler(assembly: Assembly) -> (r: impl FnMut(&mut Replayer<'_, MemCas>) + Copy)
    ensures
        forall|x: &mut Replayer<'_, MemCas>|
            (*x).ready() ==> #[trigger] call_requires(r, (x,)),
        forall|x: &mut Replayer<'_, MemCas>| #[trigger]
            call_ensures(r, (x,), ()) ==> {
                &&& (*final(x)).ready()
                &&& (*final(x)).start == (*x).start
                &&& *final((*final(x)).cas) == *final((*x).cas)
                &&& (*x).ready() && (*x).steps@.len() == 0 ==> assembly_asks(assembly).contains(
                    ((*x).start@, (*final(x)).steps@),
                )
            },
{
    move |x: &mut Replayer<'_, MemCas>|
        requires
            old(x).ready(),
        ensures
            final(x).ready(),
            final(x).start == old(x).start,
            *final(final(x).cas) == *final(old(x).cas),
            old(x).steps@.len() == 0 ==> assembly_asks(assembly).contains(
                (old(x).start@, final(x).steps@),
            ),
        {
            let ghost first = x.steps@;
            let ghost start = x.start@;
            assert(first.len() == 0 ==> x@ == start);
            let document = drive_assembler(x, assembly);
            proof {
                if first.len() == 0 {
                    assert(x.steps@ =~= assembler_steps(texts(document@)));
                    let done = choose|done: Seq<(usize, Outcome)>| #[trigger]
                        assembler_drove(start, assembly, done, texts(document@));
                    assert(assembler_drove(start, assembly, done, texts(document@)));
                    assert(assembler_asked(assembly, start, x.steps@));
                }
            }
        }
}

/// Whether the agent may assemble a document under a replay that starts so, and
/// leave this result and this store.
pub open spec fn assembled_under(
    start: ReplayState,
    assembly: Assembly,
    label: Seq<char>,
    document: Seq<Seq<char>>,
    result: ResultModel,
    after: Contents,
) -> bool {
    let end = steps_run(start, assembler_steps(document));
    &&& exists|done: Seq<(usize, Outcome)>| #[trigger]
        assembler_drove(start, assembly, done, document)
    &&& result == result_of(end, label)
    &&& after == end.contents
}

/// Runs the agent against a replay under a schedule.
fn assemble_under(
    trace: &Trace,
    cas: &mut MemCas,
    schedule: FaultSchedule,
    label: &str,
    assembly: Assembly,
) -> (r: (Vec<String>, ReplayResult))
    ensures
        identities_shown(r.1.branch@),
        keeps(old(cas).contents(), final(cas).contents()),
        assembled_under(
            replay_start(
                trace@,
                old(cas).contents(),
                ModeModel::Counterfactual { schedule: schedule@ },
            ),
            assembly,
            label@,
            texts(r.0@),
            r.1@,
            final(cas).contents(),
        ),
{
    let mut replayer = match Replayer::new(trace, cas, Mode::Counterfactual { schedule }) {
        Ok(replayer) => replayer,
        Err(_) => return (
            Vec::new(),
            ReplayResult {
                branch: Trace::new(TraceHeader::default()),
                divergences: Vec::new(),
                holes: Vec::new(),
                followed: false,
            },
        ),
    };
    let document = drive_assembler(&mut replayer, assembly);
    let ghost end = replayer@;
    let ghost start = replayer.start@;
    let ghost steps = replayer.steps@;
    let result = replayer.finish(label);
    proof {
        assert(steps =~= assembler_steps(texts(document@)));
        lemma_steps_keep(start, steps);
        assert forall|i: int| 0 <= i < result.branch@.events.len() implies crate::hash::has_short(
            (#[trigger] result.branch@.events[i]).identity,
        ) by {
            lemma_full_has_short(end.branch[i].identity);
        }
    }
    (document, result)
}

/// A recorded run of the agent that assembles a document, ready to be explored.
pub struct Assembling {
    pub trace: Trace,
    pub cas: MemCas,
    pub assembly: Assembly,
    /// The document that was assembled.
    pub document: Vec<String>,
}

impl Assembling {
    /// Whether this is the same recording, with a store that has lost nothing.
    pub open spec fn goes_on(&self, before: Assembling) -> bool {
        &&& self.trace == before.trace
        &&& self.assembly == before.assembly
        &&& self.document == before.document
        &&& keeps(before.cas.contents(), self.cas.contents())
    }

    /// Records an uneventful run of the agent.
    pub fn of(assembly: Assembly) -> (r: Assembling)
        ensures
            r.assembly == assembly,
            identities_shown(r.trace@),
            complete(r.trace@.events, r.cas.contents()),
            exists|plan: OutcomeModel, done: Seq<(usize, Outcome)>, saved: OutcomeModel| #[trigger]
                may_assemble(
                    assembly,
                    plan,
                    done,
                    saved,
                    texts(r.document@),
                    r.trace@,
                    r.cas.contents(),
                ),
    {
        let mut cas = MemCas::new();
        let mut recorder = Recorder::new(FakeBackend::new(1), &mut cas, Canonicalizer::default());
        assert(recorder@ == blank());
        let plan = recorder.perform(ask_plan());
        let ghost planned = recorder@;
        let ghost asked = seq![Exchange { request: sections_request(), outcome: plan@ }];
        proof {
            let e = asked[0];
            lemma_answers_more(calm(1), seq![], e);
            assert(Seq::<Exchange>::empty().push(e) =~= asked);
            lemma_recorded_full(blank(), asked, None);
            assert(asked.drop_last() =~= seq![]);
            reveal_with_fuel(recorded_all, 2);
            assert(recorded_all(blank(), asked, None) == planned);
        }
        let requests = ask_sections();
        let ghost all = views(requests@);
        assert(all == render_requests());
        assert(all.len() == 3);
        let done = recorder.perform_batch(requests);
        let ghost rendered = recorder@;
        assert(completion(done@).len() == 3);
        let ghost states = choose|states: Seq<FakeBackend>| #[trigger]
            answered_through(states, all, done@) && states.last() == recorder.backend
                && states.first()@ == backend_after(calm(1), asked);
        proof {
            lemma_answers_batch(calm(1), asked, states, all, done@, 3);
            assert(exchanges(all, done@).take(3) =~= exchanges(all, done@));
            assert forall|k: int| 0 <= k < exchanges(all, done@).len() implies is_full(
                identity_of(planned.paths, (#[trigger] exchanges(all, done@)[k]).request),
            ) by {
                assert(completion(done@)[k] == k);
                assert(all[k] == requests@[k]@);
            }
            lemma_recorded_full(planned, exchanges(all, done@), Some(0));
            assert(all_full(rendered));
        }
        let document = assemble(assembly, &done);
        let saved = recorder.perform(ask_save(&document));
        let ghost end = recorder@;
        proof {
            let run = asked + exchanges(all, done@);
            let e = Exchange { request: save_request(texts(document@)), outcome: saved@ };
            lemma_answers_more(calm(1), run, e);
            assert(run.push(e) =~= assembler_run(plan@, done@, texts(document@), saved@));
            assert forall|i: int| 0 <= i < end.events.len() implies crate::hash::has_short(
                (#[trigger] end.events[i]).identity,
            ) by {
                if i < rendered.events.len() {
                    assert(end.events[i] == rendered.events[i]);
                }
                lemma_full_has_short(end.events[i].identity);
            }
            assert(end == taped_assembly(plan@, done@, texts(document@), saved@));
        }
        let trace = recorder.finish("assemble-report");
        let session = Assembling { trace, cas, assembly, document };
        assert(may_assemble(
            assembly,
            plan@,
            done@,
            saved@,
            texts(session.document@),
            session.trace@,
            session.cas.contents(),
        ));
        proof {
            lemma_assembly_complete(plan@, done@, texts(session.document@), saved@);
        }
        session
    }

    /// The first order of a batch that changes what the agent does. Where the
    /// store holds the recording, that is exact.
    pub fn find_order(&mut self, seeds: u64) -> (r: Option<OrderDependence>)
        ensures
            final(self).goes_on(*old(self)),
            exists|asks: Asking| #[trigger]
                may_settle(old(self).trace@, old(self).cas.contents(), 0, seeds, r, asks)
                    && asks.subset_of(assembly_asks(old(self).assembly)) && (complete(
                    old(self).trace@.events,
                    old(self).cas.contents(),
                ) ==> exists|end: ReplayState| #[trigger]
                    settled_exactly(
                        old(self).trace@,
                        old(self).cas.contents(),
                        0,
                        seeds,
                        r,
                        asks,
                        end,
                    )),
    {
        proof {
            lemma_worked_fixed(
                Style::Naive,
                self.assembly,
                self.trace@,
                self.cas.contents(),
            );
        }
        let drive = assembler(self.assembly);
        search_order_dependence(&self.trace, &mut self.cas, 0..seeds, drive)
    }

    /// What the agent assembles under a schedule, and the run that it makes of
    /// the recording.
    pub fn replay(&mut self, schedule: FaultSchedule, label: &str) -> (r: (
        Vec<String>,
        ReplayResult,
    ))
        ensures
            final(self).goes_on(*old(self)),
            identities_shown(r.1.branch@),
            assembled_under(
                replay_start(
                    old(self).trace@,
                    old(self).cas.contents(),
                    ModeModel::Counterfactual { schedule: schedule@ },
                ),
                old(self).assembly,
                label@,
                texts(r.0@),
                r.1@,
                final(self).cas.contents(),
            ),
    {
        assemble_under(&self.trace, &mut self.cas, schedule, label, self.assembly)
    }

    /// Sweeps the faults of the recording, and certifies what was found.
    pub fn certify(&mut self, pairs: bool, max_replays: usize) -> (r: Certificate)
        ensures
            final(self).goes_on(*old(self)),
            exists|invariants: Seq<Checker>| #[trigger]
                may_certify::<MemCas, Checker>(
                    old(self).trace@,
                    old(self).cas.contents(),
                    invariants,
                    pairs,
                    max_replays as nat,
                    assembly_asks(old(self).assembly),
                    r@,
                ) && are_demo(invariants),
    {
        let ghost first = self.cas.contents();
        let invariants = demo_checkers();
        proof {
            lemma_declared_checkable::<MemCas>(invariants@);
        }
        let drive = assembler(self.assembly);
        let coverage = sweep(
            &self.trace,
            &mut self.cas,
            &invariants,
            max_replays,
            pairs,
            drive,
        );
        let ghost later = self.cas.contents();
        let reports = interleavings(&self.trace, &mut self.cas, drive);
        let ghost covered = coverage@;
        let ghost orders = views(reports@);
        let certificate = Certificate::new(
            self.trace.id(),
            self.trace.header.label.clone(),
            name_demo(),
            coverage,
            reports,
        );
        proof {
            lemma_may_certify::<MemCas, Checker>(
                self.trace@,
                first,
                invariants@,
                pairs,
                max_replays as nat,
                covered,
                later,
                orders,
                assembly_asks(self.assembly),
            );
        }
        certificate
    }
}

/// Which worked example to sweep.
#[derive(Clone, Copy, Debug, PartialEq, Eq)]
pub enum Subject {
    /// The retrying agent and its duplicate delete.
    Retry,
    /// The assembling agent and its order dependence.
    Order,
    /// The retrying agent, with the fix applied.
    Fixed,
}

impl Subject {
    /// Records a worked example, sweeps it, and certifies what was found.
    pub fn sweep(&self, pairs: bool, max_replays: usize) -> (r: Certificate)
        ensures
            *self is Order ==> exists|
                plan: OutcomeModel,
                done: Seq<(usize, Outcome)>,
                saved: OutcomeModel,
                document: Seq<Seq<char>>,
                trace: TraceModel,
                contents: Contents,
                invariants: Seq<Checker>,
            |
                {
                    &&& #[trigger] may_assemble(
                        Assembly::AsTheyArrive,
                        plan,
                        done,
                        saved,
                        document,
                        trace,
                        contents,
                    )
                    &&& are_demo(invariants)
                    &&& #[trigger] may_certify::<MemCas, Checker>(
                        trace,
                        contents,
                        invariants,
                        pairs,
                        max_replays as nat,
                        assembly_asks(Assembly::AsTheyArrive),
                        r@,
                    )
                },
            !(*self is Order) ==> exists|
                run: Seq<Exchange>,
                report: Report,
                trace: TraceModel,
                contents: Contents,
                invariants: Seq<Checker>,
            |
                {
                    &&& #[trigger] may_record(
                        calm(1),
                        self.style(),
                        "delete-stale-report"@,
                        run,
                        report,
                        trace,
                        contents,
                    )
                    &&& are_demo(invariants)
                    &&& #[trigger] may_certify::<MemCas, Checker>(
                        trace,
                        contents,
                        invariants,
                        pairs,
                        max_replays as nat,
                        agent_asks(self.style()),
                        r@,
                    )
                },
    {
        match self {
            Subject::Retry => {
                let mut session = Session::of(Style::Naive);
                session.certify(pairs, max_replays)
            },
            Subject::Fixed => {
                let mut session = Session::of(Style::Idempotent);
                session.certify(pairs, max_replays)
            },
            Subject::Order => {
                let mut session = Assembling::of(Assembly::AsTheyArrive);
                session.certify(pairs, max_replays)
            },
        }
    }

    /// How the agent of the example retries.
    pub open spec fn style(&self) -> Style {
        if *self is Fixed {
            Style::Idempotent
        } else {
            Style::Naive
        }
    }
}

/// The version of the engine.
pub fn version() -> (r: String)
    ensures
        r@ == "0.1.0"@,
{
    "0.1.0".to_owned()
}

} // verus!
