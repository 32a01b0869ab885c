//! Feeding an agent its recorded answers.
//!
//! While in lockstep, answers come by position. Once a fault is injected or
//! the agent asks something else, they come by content, with a clock and a
//! randomness derived from the recording, so that a branch is determined by
//! the trace and the schedule alone.

use crate::canon::{canonical, digest_of, identity_of};
use crate::cas::{keeps, stored, Cas, Contents, StoreError};
use crate::divergence::{
    difference, first_difference, Divergence, DivergenceKind, DivergenceKindModel, DivergenceModel,
};
use crate::event::{
    value_of, EffectKind, EffectRequest, Event, EventModel, Outcome, OutcomeModel, RequestModel,
};
use crate::fault::{
    applied, fault_at, faultable, is_order, permutation_of, scheduling, unchanged, Fault, FaultModel,
    FaultSchedule, PointModel,
};
use crate::hash::{is_full, Digest};
use crate::json::{whole, Json, JsonModel, Number, NumberModel};
use crate::model::{viewed, views};
use crate::oracle::{
    asked, fetch_outcome, fresh_oracle, outcome_at, OracleModel, ResponseOracle,
};
use crate::record::{number, outcome_json, request_json};
use crate::replay::{
    batch_after, batch_tag, completion, exchanges, outcome_bytes, put_outcome, put_request,
    request_at, request_bytes, Effects, Exchange,
};
use crate::rng::{drawn_fraction, moved, Rng, RngModel};
use crate::text::same;
use crate::trace::{
    default_header, run_id, HeaderModel, Trace, TraceHeader, TraceModel, FORMAT_VERSION,
};
use vstd::prelude::*;
use vstd::utf8::encode_utf8;

verus! {

/// How to replay.
#[derive(Debug, PartialEq, Eq)]
pub enum Mode {
    /// Every effect must match the recording.
    Strict,
    /// Replay faithfully, applying `schedule`, and tolerate divergence
    /// afterwards.
    Counterfactual { schedule: FaultSchedule },
}

/// What a mode is, for contracts.
pub enum ModeModel {
    Strict,
    Counterfactual { schedule: Seq<PointModel> },
}

impl View for Mode {
    type V = ModeModel;

    open spec fn view(&self) -> ModeModel {
        match *self {
            Mode::Strict => ModeModel::Strict,
            Mode::Counterfactual { schedule } => ModeModel::Counterfactual {
                schedule: schedule@,
            },
        }
    }
}

/// An effect that the recording could not answer: not at this position, and
/// not anywhere else.
#[derive(Debug, PartialEq, Eq)]
pub struct Hole {
    pub seq: u64,
    pub kind: EffectKind,
    pub name: String,
    pub identity: Digest,
}

/// What a hole is, for contracts.
pub struct HoleModel {
    pub seq: u64,
    pub kind: EffectKind,
    pub name: Seq<char>,
    pub identity: Seq<char>,
}

impl View for Hole {
    type V = HoleModel;

    open spec fn view(&self) -> HoleModel {
        HoleModel {
            seq: self.seq,
            kind: self.kind,
            name: self.name@,
            identity: self.identity@,
        }
    }
}

/// How far the clock advances per read once the run is off-script.
pub const FREE_CLOCK_TICK_MS: u64 = 25;

// ---------------------------------------------------------------------------
// The states of a replay
// ---------------------------------------------------------------------------

/// What a replayer is, for contracts.
#[verifier::ext_equal]
pub struct ReplayState {
    pub trace: TraceModel,
    pub mode: ModeModel,
    /// What the store holds.
    pub contents: Contents,
    pub oracle: OracleModel,
    /// Position in the recording while in lockstep.
    pub cursor: nat,
    /// Whether the run has left lockstep.
    pub free: bool,
    pub divergences: Seq<DivergenceModel>,
    pub holes: Seq<HoleModel>,
    /// What the agent really did.
    pub branch: Seq<EventModel>,
    /// The clock, once off-script.
    pub clock: u64,
    /// The randomness, once off-script.
    pub rng: RngModel,
    pub next_batch: u64,
}

/// The latest time that the clock reads of a recording observed.
pub open spec fn last_clock(events: Seq<EventModel>, contents: Contents) -> u64
    decreases events.len(),
{
    if events.len() == 0 {
        0
    } else {
        let front = last_clock(events.drop_last(), contents);
        match clock_reading(events.last(), contents) {
            Some(n) => if n > front {
                n
            } else {
                front
            },
            None => front,
        }
    }
}

/// The time that a clock read observed.
pub open spec fn clock_reading(e: EventModel, contents: Contents) -> Option<u64> {
    if e.kind != EffectKind::Clock {
        None
    } else {
        match outcome_at(contents, e.outcome) {
            Some(o) => match value_of(o) {
                Some(v) => whole(v),
                None => None,
            },
            None => None,
        }
    }
}

/// The bytes that seed the randomness of a branch: the head of the
/// recording's identity.
pub open spec fn branch_seed(events: Seq<EventModel>) -> Seq<u8> {
    encode_utf8(run_id(events)).take(32)
}

/// A replay that has performed nothing yet.
pub open spec fn replay_start(
    trace: TraceModel,
    contents: Contents,
    mode: ModeModel,
) -> ReplayState {
    ReplayState {
        trace,
        mode,
        contents,
        oracle: fresh_oracle(trace.events, contents),
        cursor: 0,
        free: false,
        divergences: seq![],
        holes: seq![],
        branch: seq![],
        clock: last_clock(trace.events, contents),
        rng: RngModel { seed: branch_seed(trace.events), at: 0 },
        next_batch: 0,
    }
}

/// The identity policy of a replay.
pub open spec fn policy(s: ReplayState) -> Seq<Seq<char>> {
    s.trace.header.canonicalizer
}

/// The clock after one more read off-script. It never runs backwards.
pub open spec fn ticked(clock: u64) -> u64 {
    if clock <= u64::MAX - FREE_CLOCK_TICK_MS {
        (clock + FREE_CLOCK_TICK_MS) as u64
    } else {
        u64::MAX
    }
}

/// What an effect is answered that nothing in the recording answers.
pub open spec fn unresolved(name: Seq<char>) -> OutcomeModel {
    OutcomeModel::Failure {
        code: "samsara_unresolved"@,
        message: "no recorded response for `"@ + name
            + "`; re-record with a live backend to cover this path"@,
    }
}

/// An answer, with the digest of its original bytes where it has some.
pub type Resolved = (OutcomeModel, Option<Seq<char>>);

/// How an effect is answered off-script, and the replay after it. Clock and
/// randomness are generated, everything else comes from the oracle.
pub open spec fn resolved_free(s: ReplayState, r: RequestModel) -> (Resolved, ReplayState) {
    match r.kind {
        EffectKind::Clock => {
            let clock = ticked(s.clock);
            (
                (OutcomeModel::Success { value: number(clock) }, None),
                ReplayState { clock, ..s },
            )
        },
        EffectKind::Random => {
            let d = drawn_fraction(s.rng.seed, s.rng.at);
            (
                (
                    OutcomeModel::Success { value: JsonModel::Number(NumberModel::Float(d.0)) },
                    None,
                ),
                ReplayState { rng: moved(s.rng, d.1), ..s },
            )
        },
        _ => {
            let identity = identity_of(policy(s), r);
            let answer = asked(s.oracle, identity);
            match answer.0 {
                Some(a) => ((a.1, Some(a.0)), ReplayState { oracle: answer.1, ..s }),
                None => (
                    (unresolved(r.name), None),
                    ReplayState {
                        holes: s.holes.push(
                            HoleModel {
                                seq: s.branch.len() as u64,
                                kind: r.kind,
                                name: r.name,
                                identity,
                            },
                        ),
                        ..s
                    },
                ),
            }
        },
    }
}

/// How a request differs from a recorded one, if it does.
pub open spec fn mismatch(
    recorded: EventModel,
    r: RequestModel,
    paths: Seq<Seq<char>>,
    contents: Contents,
) -> Option<DivergenceKindModel> {
    let identity = identity_of(paths, r);
    if recorded.kind != r.kind {
        Some(DivergenceKindModel::Kind { expected: recorded.kind, found: r.kind })
    } else if recorded.name != r.name {
        Some(DivergenceKindModel::Name { expected: recorded.name, found: r.name })
    } else if recorded.identity != identity {
        Some(
            DivergenceKindModel::Identity {
                expected: recorded.identity,
                found: identity,
                first_difference: match request_at(contents, recorded.request) {
                    Some(old) => difference(
                        canonical(paths, old.body),
                        canonical(paths, r.body),
                        ""@,
                    ),
                    None => None,
                },
            },
        )
    } else {
        None
    }
}

/// The recorded outcome of an event, or a failure where the store lost it.
pub open spec fn recorded_outcome(e: EventModel, contents: Contents) -> OutcomeModel {
    match outcome_at(contents, e.outcome) {
        Some(o) => o,
        None => OutcomeModel::Failure {
            code: "samsara_missing_payload"@,
            message: "outcome not in store"@,
        },
    }
}

/// A replay that has left lockstep for a reason.
pub open spec fn diverged(s: ReplayState, kind: DivergenceKindModel) -> ReplayState {
    ReplayState {
        divergences: s.divergences.push(
            DivergenceModel { at_seq: s.branch.len() as u64, kind },
        ),
        free: true,
        ..s
    }
}

/// How an effect is answered before any fault, and the replay after it.
pub open spec fn observed(s: ReplayState, r: RequestModel) -> (Resolved, ReplayState) {
    if s.free {
        resolved_free(s, r)
    } else if s.cursor < s.trace.events.len() {
        let e = s.trace.events[s.cursor as int];
        match mismatch(e, r, policy(s), s.contents) {
            Some(kind) => resolved_free(diverged(s, kind), r),
            None => (
                (recorded_outcome(e, s.contents), Some(e.outcome)),
                ReplayState { cursor: s.cursor + 1, ..s },
            ),
        }
    } else {
        resolved_free(
            diverged(
                s,
                DivergenceKindModel::PastEnd { recorded: s.trace.events.len() as u64 },
            ),
            r,
        )
    }
}

/// The fault that a mode schedules for a position.
pub open spec fn scheduled_at(mode: ModeModel, at: u64) -> Option<FaultModel> {
    match mode {
        ModeModel::Strict => None,
        ModeModel::Counterfactual { schedule } => fault_at(schedule, at),
    }
}

/// The fault that is injected into an effect, if any: faults are keyed by
/// position in this run, not in the recording.
pub open spec fn injected(s: ReplayState, r: RequestModel) -> Option<FaultModel> {
    match scheduled_at(s.mode, s.branch.len() as u64) {
        Some(f) => if faultable(r.kind) && !scheduling(f) {
            Some(f)
        } else {
            None
        },
        None => None,
    }
}

/// A replay once an effect is appended to its branch. A digest that came with
/// the outcome is kept: it names bytes that were preserved, and regenerated
/// bytes may differ.
pub open spec fn emitted(
    s: ReplayState,
    r: RequestModel,
    outcome: Resolved,
    fault: Option<FaultModel>,
    shadow: Option<Seq<char>>,
    batch: Option<u64>,
) -> ReplayState {
    let asked = stored(s.contents, request_bytes(r));
    ReplayState {
        contents: if outcome.1 is Some {
            asked
        } else {
            stored(asked, outcome_bytes(outcome.0))
        },
        branch: s.branch.push(
            EventModel {
                seq: s.branch.len() as u64,
                kind: r.kind,
                name: r.name,
                identity: identity_of(policy(s), r),
                request: digest_of(request_json(r)),
                outcome: match outcome.1 {
                    Some(d) => d,
                    None => digest_of(outcome_json(outcome.0)),
                },
                fault,
                shadow,
                logical_time: s.branch.len() as u64,
                batch,
            },
        ),
        ..s
    }
}

/// What the agent observes of an effect, and the replay after it.
pub open spec fn performed(s: ReplayState, r: RequestModel, batch: Option<u64>) -> (
    OutcomeModel,
    ReplayState,
) {
    let (seen, after) = observed(s, r);
    match injected(s, r) {
        Some(f) => {
            let hidden = match seen.1 {
                Some(_) => after.contents,
                None => stored(after.contents, outcome_bytes(seen.0)),
            };
            let shadow = match seen.1 {
                Some(d) => d,
                None => digest_of(outcome_json(seen.0)),
            };
            let shown = applied(f, seen.0);
            (
                shown,
                emitted(
                    ReplayState { contents: hidden, free: true, ..after },
                    r,
                    (shown, None),
                    Some(f),
                    Some(shadow),
                    batch,
                ),
            )
        },
        None => (seen.0, emitted(after, r, seen, None, None, batch)),
    }
}

/// The order in which a batch of `n` calls completes, where a fault changes
/// it.
pub open spec fn batch_order(s: ReplayState, n: nat) -> Option<Seq<usize>> {
    match scheduled_at(s.mode, s.branch.len() as u64) {
        Some(f) => permutation_of(f, n),
        None => None,
    }
}

/// What the agent observes of the first `k` calls of a batch to complete, and
/// the replay after them.
pub open spec fn batch_performed(
    s: ReplayState,
    requests: Seq<RequestModel>,
    order: Seq<usize>,
    k: nat,
    batch: Option<u64>,
) -> (Seq<OutcomeModel>, ReplayState)
    decreases k,
{
    if k == 0 {
        (seq![], s)
    } else {
        let before = batch_performed(s, requests, order, (k - 1) as nat, batch);
        let now = performed(before.1, requests[order[k - 1] as int], batch);
        (before.0.push(now.0), now.1)
    }
}

/// The replay once a batch is begun in an order of its own: it leaves
/// lockstep.
pub open spec fn batch_begun(s: ReplayState, n: nat) -> ReplayState {
    if batch_order(s, n) is Some {
        ReplayState { free: true, ..s }
    } else {
        s
    }
}

/// The order in which a batch of `n` calls completes.
pub open spec fn completion_order(s: ReplayState, n: nat) -> Seq<usize> {
    match batch_order(s, n) {
        Some(order) => order,
        None => unchanged(n),
    }
}

/// What an agent asks at once: one effect, or several issued together.
pub enum Step {
    One { request: RequestModel },
    Batch { requests: Seq<RequestModel> },
}

/// A replay once the agent has asked something.
#[verifier::opaque]
pub open spec fn stepped(s: ReplayState, step: Step) -> ReplayState {
    match step {
        Step::One { request } => performed(s, request, None).1,
        Step::Batch { requests } => {
            let n = requests.len();
            ReplayState {
                next_batch: batch_after(s.next_batch, n),
                ..batch_performed(
                    batch_begun(s, n),
                    requests,
                    completion_order(s, n),
                    n,
                    batch_tag(s.next_batch, n),
                ).1
            }
        },
    }
}

/// A replay once the agent has asked several things in turn.
pub open spec fn steps_run(s: ReplayState, steps: Seq<Step>) -> ReplayState
    decreases steps.len(),
{
    if steps.len() == 0 {
        s
    } else {
        stepped(steps_run(s, steps.drop_last()), steps.last())
    }
}

/// An effect loses nothing from the store.
pub proof fn lemma_performed_keeps(s: ReplayState, r: RequestModel, batch: Option<u64>)
    ensures
        keeps(s.contents, performed(s, r, batch).1.contents),
{
}

proof fn lemma_batch_keeps(
    s: ReplayState,
    requests: Seq<RequestModel>,
    order: Seq<usize>,
    k: nat,
    batch: Option<u64>,
)
    ensures
        keeps(s.contents, batch_performed(s, requests, order, k, batch).1.contents),
    decreases k,
{
    if k > 0 {
        lemma_batch_keeps(s, requests, order, (k - 1) as nat, batch);
        let before = batch_performed(s, requests, order, (k - 1) as nat, batch);
        lemma_performed_keeps(before.1, requests[order[k - 1] as int], batch);
    }
}

/// A replay loses nothing from the store, whatever the agent asks.
pub proof fn lemma_steps_keep(s: ReplayState, steps: Seq<Step>)
    ensures
        keeps(s.contents, steps_run(s, steps).contents),
    decreases steps.len(),
{
    if steps.len() > 0 {
        reveal(stepped);
        let before = steps_run(s, steps.drop_last());
        lemma_steps_keep(s, steps.drop_last());
        match steps.last() {
            Step::One { request } => {
                lemma_performed_keeps(before, request, None);
            },
            Step::Batch { requests } => {
                let n = requests.len();
                lemma_batch_keeps(
                    batch_begun(before, n),
                    requests,
                    completion_order(before, n),
                    n,
                    batch_tag(before.next_batch, n),
                );
            },
        }
    }
}

/// The divergences of a finished replay: a strict one must have consumed the
/// whole recording.
pub open spec fn final_divergences(s: ReplayState) -> Seq<DivergenceModel> {
    if s.mode is Strict && s.cursor < s.trace.events.len() {
        s.divergences.push(
            DivergenceModel {
                at_seq: s.cursor as u64,
                kind: DivergenceKindModel::StoppedShort {
                    recorded: s.trace.events.len() as u64,
                    performed: s.cursor as u64,
                },
            },
        )
    } else {
        s.divergences
    }
}

/// Whether a finished replay was in lockstep with its recording to the end: a
/// replay that strays from it, or that a fault is injected into, runs free from
/// there on.
pub open spec fn all_followed(s: ReplayState) -> bool {
    !s.free && s.cursor == s.trace.events.len()
}

/// The branch of a finished replay, as a trace.
pub open spec fn branch_of(s: ReplayState, label: Seq<char>) -> TraceModel {
    TraceModel {
        header: HeaderModel {
            label,
            canonicalizer: policy(s),
            schedule: match s.mode {
                ModeModel::Strict => None,
                ModeModel::Counterfactual { schedule } => Some(schedule),
            },
            parent: Some(run_id(s.trace.events)),
            ..default_header()
        },
        events: s.branch,
    }
}

// ---------------------------------------------------------------------------
// The replayer
// ---------------------------------------------------------------------------

/// Feeds an agent its recorded answers.
pub struct Replayer<'a, C: Cas> {
    pub trace: &'a Trace,
    pub cas: &'a mut C,
    pub mode: Mode,
    pub oracle: ResponseOracle,
    pub cursor: usize,
    pub free_running: bool,
    pub diverged: Vec<Divergence>,
    pub missing: Vec<Hole>,
    pub branch: Vec<Event>,
    pub free_clock_ms: u64,
    pub free_rng: Rng,
    pub next_batch: u64,
    pub log: Ghost<Seq<Exchange>>,
    /// The state this replay started from.
    pub start: Ghost<ReplayState>,
    /// What the agent asked since.
    pub steps: Ghost<Seq<Step>>,
}

impl<'a, C: Cas> View for Replayer<'a, C> {
    type V = ReplayState;

    open spec fn view(&self) -> ReplayState {
        ReplayState {
            trace: self.trace@,
            mode: self.mode@,
            contents: (*self.cas).contents(),
            oracle: self.oracle@,
            cursor: self.cursor as nat,
            free: self.free_running,
            divergences: views(self.diverged@),
            holes: views(self.missing@),
            branch: views(self.branch@),
            clock: self.free_clock_ms,
            rng: self.free_rng@,
            next_batch: self.next_batch,
        }
    }
}

/// What a replay produced.
#[derive(Debug, PartialEq, Eq)]
pub struct ReplayResult {
    /// The run as it happened this time.
    pub branch: Trace,
    pub divergences: Vec<Divergence>,
    pub holes: Vec<Hole>,
    /// Whether the run was the recording from its first effect to its last: no
    /// fault was injected, and nothing else was asked, added or left out.
    pub followed: bool,
}

/// What a finished replay is, for contracts.
pub struct ResultModel {
    pub branch: TraceModel,
    pub divergences: Seq<DivergenceModel>,
    pub holes: Seq<HoleModel>,
    pub followed: bool,
}

impl View for ReplayResult {
    type V = ResultModel;

    open spec fn view(&self) -> ResultModel {
        ResultModel {
            branch: self.branch@,
            divergences: views(self.divergences@),
            holes: views(self.holes@),
            followed: self.followed,
        }
    }
}

/// What a replay has produced when it is finished in a state.
pub open spec fn result_of(s: ReplayState, label: Seq<char>) -> ResultModel {
    ResultModel {
        branch: branch_of(s, label),
        divergences: final_divergences(s),
        holes: s.holes,
        followed: all_followed(s),
    }
}

impl ReplayResult {
    /// True when the agent followed the recording exactly.
    pub fn is_faithful(&self) -> (r: bool)
        ensures
            r == (self.followed && self.divergences@.len() == 0 && self.holes@.len() == 0),
    {
        self.followed && self.divergences.is_empty() && self.holes.is_empty()
    }

    /// The first divergence: everything after it is downstream of it.
    pub fn first_divergence(&self) -> (r: Option<&Divergence>)
        ensures
            r is Some <==> self.divergences@.len() > 0,
            r is Some ==> *r->0 == self.divergences@[0],
    {
        if self.divergences.is_empty() {
            None
        } else {
            Some(&self.divergences[0])
        }
    }
}

/// The first thirty-two bytes of a full digest.
fn seed_of(id: &Digest) -> (r: [u8; 32])
    requires
        crate::hash::is_full(id@),
    ensures
        r@ == encode_utf8(id@).take(32),
{
    let text = id.as_str();
    proof {
        assert(vstd::utf8::is_ascii_chars(text@));
        vstd::utf8::is_ascii_chars_encode_utf8(text@);
    }
    let bytes = text.as_bytes();
    let mut seed: [u8; 32] = [0;32];
    let mut i: usize = 0;
    while i < 32
        invariant
            i <= 32,
            bytes@.len() >= 32,
            seed@.len() == 32,
            forall|j: int| 0 <= j < i ==> seed@[j] == bytes@[j],
        decreases 32 - i,
    {
        seed[i] = bytes[i];
        i += 1;
    }
    assert(seed@ =~= bytes@.take(32));
    seed
}

/// `last_clock`, computed.
fn latest_clock<C: Cas>(trace: &Trace, cas: &C) -> (r: u64)
    ensures
        r == last_clock(trace@.events, cas.contents()),
{
    let ghost all = trace@.events;
    let mut last: u64 = 0;
    let mut i: usize = 0;
    assert(all.take(0) =~= seq![]);
    while i < trace.events.len()
        invariant
            i <= trace.events@.len(),
            all == views(trace.events@),
            last == last_clock(all.take(i as int), cas.contents()),
        decreases trace.events@.len() - i,
    {
        let event = &trace.events[i];
        assert(all.take(i + 1).drop_last() =~= all.take(i as int));
        assert(all.take(i + 1).last() == event@);
        if event.kind == EffectKind::Clock {
            if let Some(outcome) = fetch_outcome(cas, &event.outcome) {
                if let Some(v) = outcome.value() {
                    if let Some(n) = v.as_u64() {
                        if n > last {
                            last = n;
                        }
                    }
                }
            }
        }
        i += 1;
    }
    assert(all.take(i as int) =~= all);
    last
}

/// Whether every identity in a branch is a full digest.
pub open spec fn full_identities(branch: Seq<EventModel>) -> bool {
    forall|i: int| 0 <= i < branch.len() ==> is_full((#[trigger] branch[i]).identity)
}

impl<'a, C: Cas> Replayer<'a, C> {
    /// Whether the replayer can perform effects.
    pub open spec fn able(&self) -> bool {
        &&& (*self.cas).works()
        &&& self.oracle.well_formed()
        &&& self.next_batch <= self.branch@.len()
        &&& full_identities(views(self.branch@))
    }

    /// A replayer at the start of a recording. Fails where the store cannot be
    /// read.
    pub fn new(trace: &'a Trace, cas: &'a mut C, mode: Mode) -> (r: Result<Self, StoreError>)
        ensures
            old(cas).works() ==> r is Ok,
            r matches Ok(replayer) ==> {
                &&& replayer@ == replay_start(trace@, old(cas).contents(), mode@)
                &&& *replayer.cas == *old(cas)
                &&& *final(replayer.cas) == *final(cas)
                &&& replayer.log@ == Seq::<Exchange>::empty()
                &&& replayer.start@ == replay_start(trace@, old(cas).contents(), mode@)
                &&& replayer.steps@ == Seq::<Step>::empty()
                &&& old(cas).works() ==> replayer.ready()
            },
    {
        let ghost start_contents = (*cas).contents();
        let ghost start_mode = mode@;
        let last_clock = latest_clock(trace, &*cas);
        let id = trace.id();
        let oracle = match ResponseOracle::build(trace, &*cas) {
            Ok(oracle) => oracle,
            Err(e) => return Err(e),
        };
        let diverged: Vec<Divergence> = Vec::new();
        let missing: Vec<Hole> = Vec::new();
        let branch: Vec<Event> = Vec::new();
        assert(views(diverged@) =~= seq![]);
        assert(views(missing@) =~= seq![]);
        assert(views(branch@) =~= seq![]);
        Ok(
            Replayer {
                trace,
                cas,
                mode,
                oracle,
                cursor: 0,
                free_running: false,
                diverged,
                missing,
                branch,
                free_clock_ms: last_clock,
                free_rng: Rng::from_bytes(seed_of(&id)),
                next_batch: 0,
                log: Ghost(Seq::empty()),
                start: Ghost(replay_start(trace@, start_contents, start_mode)),
                steps: Ghost(Seq::empty()),
            },
        )
    }

    /// Divergences observed. A faithful strict replay has none.
    pub fn divergences(&self) -> (r: &Vec<Divergence>)
        ensures
            views(r@) == self@.divergences,
    {
        &self.diverged
    }

    /// Effects the recording could not answer.
    pub fn holes(&self) -> (r: &Vec<Hole>)
        ensures
            views(r@) == self@.holes,
    {
        &self.missing
    }

    /// Whether replay stayed in lockstep with the recording throughout.
    pub fn is_faithful(&self) -> (r: bool)
        ensures
            r == (!self@.free && self@.divergences.len() == 0 && self@.holes.len() == 0),
    {
        !self.free_running && self.diverged.is_empty() && self.missing.is_empty()
    }

    /// Finish, checking that a strict replay consumed the whole recording.
    pub fn finish(self, label: &str) -> (r: ReplayResult)
        ensures
            r@ == result_of(self@, label@),
            *final(self.cas) == *old(self.cas),
    {
        let followed = !self.free_running && self.cursor == self.trace.events.len();
        let parent = self.trace.id();
        let mut divergences = self.diverged;
        let ghost before = divergences@;
        let recorded: usize = self.trace.events.len();
        let schedule = match self.mode {
            Mode::Strict => {
                if self.cursor < recorded {
                    divergences.push(
                        Divergence {
                            at_seq: self.cursor as u64,
                            kind: DivergenceKind::StoppedShort {
                                recorded: recorded as u64,
                                performed: self.cursor as u64,
                            },
                        },
                    );
                    assert(views(divergences@) =~= views(before).push(
                        divergences@[before.len() as int]@,
                    ));
                }
                None
            },
            Mode::Counterfactual { schedule } => Some(schedule),
        };
        let header = TraceHeader {
            format_version: FORMAT_VERSION,
            engine: "samsara/0.1.0".to_owned(),
            label: label.to_owned(),
            recorded_at_ms: 0,
            canonicalizer: self.trace.header.canonicalizer.clone(),
            seed: None,
            schedule,
            parent: Some(parent),
        };
        ReplayResult {
            branch: Trace { header, events: self.branch },
            divergences,
            holes: self.missing,
            followed,
        }
    }

    /// Append an effect to the branch. `digest` names the original bytes of
    /// the outcome, where it came from the recording.
    fn emit(
        &mut self,
        request: &EffectRequest,
        outcome: &Outcome,
        digest: Option<Digest>,
        fault: Option<Fault>,
        shadow: Option<Digest>,
        batch: Option<u64>,
    )
        requires
            old(self).able(),
        ensures
            final(self).able(),
            *final(final(self).cas) == *final(old(self).cas),
            final(self).log == old(self).log,
            final(self).start == old(self).start,
            final(self).steps == old(self).steps,
            final(self)@ == emitted(
                old(self)@,
                request@,
                (outcome@, viewed(digest)),
                viewed(fault),
                viewed(shadow),
                batch,
            ),
    {
        let identity = request.identity(&self.trace.header.canonicalizer);
        let request_digest = put_request(self.cas, request);
        let ghost kept = viewed(digest);
        let outcome_digest = match digest {
            Some(d) => d,
            None => put_outcome(self.cas, outcome),
        };
        let at: u64 = self.branch.len() as u64;
        let ghost before = self.branch@;
        self.branch.push(
            Event {
                seq: at,
                kind: request.kind,
                name: request.name.clone(),
                identity,
                request: request_digest,
                outcome: outcome_digest,
                fault,
                shadow,
                logical_time: at,
                batch,
            },
        );
        assert(views(self.branch@) =~= views(before).push(self.branch@[before.len() as int]@));
        assert(self@ =~= emitted(
            old(self)@,
            request@,
            (outcome@, kept),
            viewed(fault),
            viewed(shadow),
            batch,
        ));
    }

    /// Compare an incoming effect against a recorded one.
    fn check(&self, recorded: &Event, request: &EffectRequest, identity: &Digest) -> (r: Option<
        DivergenceKind,
    >)
        requires
            identity@ == identity_of(policy(self@), request@),
        ensures
            viewed(r) == mismatch(recorded@, request@, policy(self@), self@.contents),
    {
        if recorded.kind != request.kind {
            return Some(
                DivergenceKind::Kind { expected: recorded.kind, found: request.kind },
            );
        }
        if !same(recorded.name.as_str(), request.name.as_str()) {
            return Some(
                DivergenceKind::Name {
                    expected: recorded.name.clone(),
                    found: request.name.clone(),
                },
            );
        }
        if !recorded.identity.same(identity) {
            let canon = &self.trace.header.canonicalizer;
            let first = match crate::replay::fetch_request(&*self.cas, &recorded.request) {
                Some(old) => {
                    let before = canon.canonicalize(&old.body);
                    let now = canon.canonicalize(&request.body);
                    first_difference(&before, &now, "")
                },
                None => None,
            };
            return Some(
                DivergenceKind::Identity {
                    expected: recorded.identity.clone(),
                    found: identity.clone(),
                    first_difference: first,
                },
            );
        }
        None
    }

    /// Resolve an effect off-script. Gives the outcome and, where it came from
    /// the recording, the digest of its original bytes.
    fn resolve_free(&mut self, request: &EffectRequest, identity: &Digest) -> (r: (
        Outcome,
        Option<Digest>,
    ))
        requires
            old(self).able(),
            identity@ == identity_of(policy(old(self)@), request@),
        ensures
            final(self).able(),
            *final(final(self).cas) == *final(old(self).cas),
            final(self).log == old(self).log,
            final(self).start == old(self).start,
            final(self).steps == old(self).steps,
            ((r.0@, viewed(r.1)), final(self)@) == resolved_free(old(self)@, request@),
    {
        match request.kind {
            EffectKind::Clock => {
                self.free_clock_ms = if self.free_clock_ms <= u64::MAX - FREE_CLOCK_TICK_MS {
                    self.free_clock_ms + FREE_CLOCK_TICK_MS
                } else {
                    u64::MAX
                };
                (Outcome::ok(Json::whole(self.free_clock_ms)), None)
            },
            EffectKind::Random => {
                let drawn = self.free_rng.fraction();
                (Outcome::ok(Json::Number(Number::Float(drawn))), None)
            },
            _ => match self.oracle.answer(identity) {
                Some((digest, outcome)) => (outcome, Some(digest)),
                None => {
                    let ghost before = self.missing@;
                    self.missing.push(
                        Hole {
                            seq: self.branch.len() as u64,
                            kind: request.kind,
                            name: request.name.clone(),
                            identity: identity.clone(),
                        },
                    );
                    assert(views(self.missing@) =~= views(before).push(
                        self.missing@[before.len() as int]@,
                    ));
                    let mut message = "no recorded response for `".to_owned();
                    message.append(request.name.as_str());
                    message.append("`; re-record with a live backend to cover this path");
                    (Outcome::err("samsara_unresolved", message.as_str()), None)
                },
            },
        }
    }

    /// Leave lockstep for a reason.
    fn diverge(&mut self, kind: DivergenceKind)
        requires
            old(self).able(),
        ensures
            final(self).able(),
            *final(final(self).cas) == *final(old(self).cas),
            final(self).log == old(self).log,
            final(self).start == old(self).start,
            final(self).steps == old(self).steps,
            final(self)@ == diverged(old(self)@, kind@),
    {
        let ghost before = self.diverged@;
        let ghost view = kind@;
        self.diverged.push(Divergence { at_seq: self.branch.len() as u64, kind });
        self.free_running = true;
        assert(views(self.diverged@) =~= views(before).push(
            DivergenceModel { at_seq: self.branch@.len() as u64, kind: view },
        ));
    }

    /// What would happen absent any fault.
    fn observe(&mut self, request: &EffectRequest, identity: &Digest) -> (r: (
        Outcome,
        Option<Digest>,
    ))
        requires
            old(self).able(),
            identity@ == identity_of(policy(old(self)@), request@),
        ensures
            final(self).able(),
            *final(final(self).cas) == *final(old(self).cas),
            final(self).log == old(self).log,
            final(self).start == old(self).start,
            final(self).steps == old(self).steps,
            ((r.0@, viewed(r.1)), final(self)@) == observed(old(self)@, request@),
    {
        if self.free_running {
            return self.resolve_free(request, identity);
        }
        let count: usize = self.trace.events.len();
        if self.cursor < count {
            let trace = self.trace;
            let recorded = &trace.events[self.cursor];
            assert(self@.trace.events[self.cursor as int] == recorded@);
            match self.check(recorded, request, identity) {
                Some(kind) => {
                    self.diverge(kind);
                    self.resolve_free(request, identity)
                },
                None => {
                    let outcome = match fetch_outcome(&*self.cas, &recorded.outcome) {
                        Some(outcome) => outcome,
                        None => Outcome::err("samsara_missing_payload", "outcome not in store"),
                    };
                    self.cursor = self.cursor + 1;
                    (outcome, Some(recorded.outcome.clone()))
                },
            }
        } else {
            self.diverge(DivergenceKind::PastEnd { recorded: count as u64 });
            self.resolve_free(request, identity)
        }
    }

    /// The fault scheduled for a position.
    fn scheduled(&self, at: u64) -> (r: Option<Fault>)
        ensures
            viewed(r) == scheduled_at(self@.mode, at),
    {
        match &self.mode {
            Mode::Strict => None,
            Mode::Counterfactual { schedule } => match schedule.at(at) {
                Some(f) => Some(f.clone()),
                None => None,
            },
        }
    }

    /// Perform one effect as part of a batch, or alone.
    fn perform_tagged(&mut self, request: EffectRequest, batch: Option<u64>) -> (r: Outcome)
        requires
            old(self).able(),
        ensures
            final(self).able(),
            *final(final(self).cas) == *final(old(self).cas),
            (r@, final(self)@) == performed(old(self)@, request@, batch),
            final(self).start == old(self).start,
            final(self).steps == old(self).steps,
            final(self).log@ == old(self).log@.push(Exchange { request: request@, outcome: r@ }),
    {
        let ghost start = self@;
        let identity = request.identity(&self.trace.header.canonicalizer);
        let position: u64 = self.branch.len() as u64;
        let fault = match self.scheduled(position) {
            Some(f) => if f.applies_to(request.kind) && !f.is_scheduling() {
                Some(f)
            } else {
                None
            },
            None => None,
        };
        assert(viewed(fault) == injected(start, request@));
        let (seen, digest) = self.observe(&request, &identity);
        let shown = match fault {
            Some(fault) => {
                self.free_running = true;
                let shown = fault.apply(&seen);
                let shadow = match digest {
                    Some(d) => d,
                    None => put_outcome(self.cas, &seen),
                };
                self.emit(&request, &shown, None, Some(fault), Some(shadow), batch);
                shown
            },
            None => {
                self.emit(&request, &seen, digest, None, None, batch);
                seen
            },
        };
        self.log = Ghost(self.log@.push(Exchange { request: request@, outcome: shown@ }));
        assert(self@ =~= performed(start, request@, batch).1);
        shown
    }
}

/// Numbers from zero up.
pub(crate) fn counted(n: usize) -> (r: Vec<usize>)
    ensures
        r@ == unchanged(n as nat),
{
    let mut out: Vec<usize> = Vec::new();
    let mut i: usize = 0;
    while i < n
        invariant
            i <= n,
            out@ == unchanged(i as nat),
        decreases n - i,
    {
        out.push(i);
        assert(out@ =~= unchanged((i + 1) as nat));
        i += 1;
    }
    out
}

impl<'a, C: Cas> Effects for Replayer<'a, C> {
    open spec fn ready(&self) -> bool {
        self.able() && self@ == steps_run(self.start@, self.steps@)
    }

    open spec fn history(&self) -> Seq<Exchange> {
        self.log@
    }

    open spec fn may_observe(
        &self,
        request: RequestModel,
        outcome: OutcomeModel,
        after: Self,
    ) -> bool {
        &&& (outcome, after@) == performed(self@, request, None)
        &&& after.start == self.start
        &&& after.steps@ == self.steps@.push(Step::One { request })
    }

    open spec fn may_complete(
        &self,
        requests: Seq<RequestModel>,
        done: Seq<(usize, Outcome)>,
        after: Self,
    ) -> bool {
        let n = requests.len();
        let s = self@;
        &&& completion(done) == completion_order(s, n)
        &&& Seq::new(n, |k: int| done[k].1@) == batch_performed(
            batch_begun(s, n),
            requests,
            completion_order(s, n),
            n,
            batch_tag(s.next_batch, n),
        ).0
        &&& after@ == stepped(s, Step::Batch { requests })
        &&& after.start == self.start
        &&& after.steps@ == self.steps@.push(Step::Batch { requests })
    }

    fn perform(&mut self, request: EffectRequest) -> (r: Outcome)
        ensures
            *final(final(self).cas) == *final(old(self).cas),
            (r@, final(self)@) == performed(old(self)@, request@, None),
            final(self).start == old(self).start,
            final(self).steps@ == old(self).steps@.push(Step::One { request: request@ }),
    {
        let ghost before = self.steps@;
        let ghost asked = Step::One { request: request@ };
        let outcome = self.perform_tagged(request, None);
        self.steps = Ghost(before.push(asked));
        proof {
            reveal(stepped);
            assert(self.steps@.drop_last() =~= before);
        }
        outcome
    }

    fn perform_batch(&mut self, requests: Vec<EffectRequest>) -> (r: Vec<(usize, Outcome)>)
        ensures
            *final(final(self).cas) == *final(old(self).cas),
            final(self).start == old(self).start,
            final(self).steps@ == old(self).steps@.push(
                Step::Batch { requests: views(requests@) },
            ),
            completion(r@) == completion_order(old(self)@, requests@.len()),
            ({
                let n = requests@.len();
                let s = old(self)@;
                let all = batch_performed(
                    batch_begun(s, n),
                    views(requests@),
                    completion_order(s, n),
                    n,
                    batch_tag(s.next_batch, n),
                );
                &&& Seq::new(n, |k: int| r@[k].1@) == all.0
                &&& final(self)@ == (ReplayState {
                    next_batch: batch_after(s.next_batch, n),
                    ..all.1
                })
            }),
    {
        let n: usize = requests.len();
        let ghost start = self@;
        let ghost asked = views(requests@);
        let batch = if n >= 2 {
            Some(self.next_batch)
        } else {
            None
        };
        let position: u64 = self.branch.len() as u64;
        let permutation = match self.scheduled(position) {
            Some(f) => f.permutation(n),
            None => None,
        };
        let order = match permutation {
            Some(order) => {
                self.free_running = true;
                order
            },
            None => counted(n),
        };
        proof {
            assert(order@ == completion_order(start, n as nat));
            assert(is_order(order@, n as nat));
            assert(self@ =~= batch_begun(start, n as nat));
        }
        let ghost begun = *self;
        let mut out: Vec<(usize, Outcome)> = Vec::new();
        let mut k: usize = 0;
        proof {
            assert(exchanges(asked, out@) =~= seq![]);
            assert(begun.log@ + exchanges(asked, out@) =~= begun.log@);
            assert(Seq::new(0, |j: int| out@[j].1@) =~= seq![]);
        }
        while k < n
            invariant
                k <= n,
                n == requests@.len(),
                asked == views(requests@),
                is_order(order@, n as nat),
                batch == batch_tag(start.next_batch, n as nat),
                self.able(),
                self.start == begun.start,
                self.steps == begun.steps,
                *final(self.cas) == *final(begun.cas),
                self.next_batch == begun.next_batch,
                self.branch@.len() == begun.branch@.len() + k,
                out@.len() == k,
                forall|j: int| 0 <= j < k ==> (#[trigger] out@[j]).0 == order@[j],
                self.log@ == begun.log@ + exchanges(asked, out@),
                ({
                    let all = batch_performed(begun@, asked, order@, k as nat, batch);
                    &&& Seq::new(k as nat, |j: int| out@[j].1@) == all.0
                    &&& self@ == all.1
                }),
            decreases n - k,
        {
            let ghost mid = *self;
            let ghost before = out@;
            let i: usize = order[k];
            let outcome = self.perform_tagged(requests[i].clone(), batch);
            out.push((i, outcome));
            proof {
                assert(asked[i as int] == requests@[i as int]@);
                let e = Exchange { request: asked[i as int], outcome: outcome@ };
                assert(exchanges(asked, out@) =~= exchanges(asked, before).push(e));
                assert(begun.log@ + exchanges(asked, out@) =~= mid.log@.push(e));
                assert(Seq::new((k + 1) as nat, |j: int| out@[j].1@) =~= Seq::new(
                    k as nat,
                    |j: int| before[j].1@,
                ).push(outcome@));
                assert(self@.branch.len() == mid@.branch.len() + 1);
                assert(self@.next_batch == mid@.next_batch);
            }
            k += 1;
        }
        let count: usize = self.branch.len();
        if n >= 2 {
            assert(self.next_batch < count);
            self.next_batch = self.next_batch + 1;
        }
        self.steps = Ghost(begun.steps@.push(Step::Batch { requests: asked }));
        proof {
            assert(completion(out@) =~= order@);
            reveal(stepped);
            assert(self.steps@.drop_last() =~= begun.steps@);
        }
        out
    }
}

} // verus!
