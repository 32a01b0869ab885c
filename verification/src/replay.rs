//! Recording, replay, and counterfactual branching.
//!
//! Strict replay asserts that the agent, fed its recorded answers, asks the
//! same questions in the same order. Counterfactual replay is faithful up to
//! a fork point, injects a fault, and then lets the agent run free, answering
//! by content what can no longer be answered by position.

use crate::canon::{digest_of, identity_of, Canonicalizer};
use crate::cas::{found, stored, Cas, Contents};
use crate::event::{
    clock_request, random_request, value_of, EffectRequest, Event, EventModel, Outcome,
    OutcomeModel, RequestModel,
};
use crate::fault::{is_order, unchanged};
use crate::hash::Digest;
use crate::json::{exact, json_read, printed, Json, JsonModel, Number, NumberModel};
use crate::model::{viewed, views};
use crate::oracle::asked;
use crate::record::{
    number, ordered_outcome, outcome_json, request_from, request_json,
};
use crate::text::same;
use crate::trace::{HeaderModel, Trace, TraceHeader, TraceModel, FORMAT_VERSION};
use vstd::prelude::*;
use vstd::utf8::encode_utf8;

verus! {

// ---------------------------------------------------------------------------
// Capabilities
// ---------------------------------------------------------------------------

/// A request, and the outcome the agent observed.
pub struct Exchange {
    pub request: RequestModel,
    pub outcome: OutcomeModel,
}

/// The requests of a batch with their outcomes, in the order of completion.
pub open spec fn exchanges(requests: Seq<RequestModel>, done: Seq<(usize, Outcome)>) -> Seq<
    Exchange,
> {
    Seq::new(
        done.len(),
        |k: int| Exchange { request: requests[done[k].0 as int], outcome: done[k].1@ },
    )
}

/// The indices of the requests of a batch, in the order of completion.
pub open spec fn completion(done: Seq<(usize, Outcome)>) -> Seq<usize> {
    Seq::new(done.len(), |k: int| done[k].0)
}

/// The number that a random draw stands for.
pub open spec fn drawn_number(o: OutcomeModel) -> NumberModel {
    match value_of(o) {
        Some(JsonModel::Number(n)) => n,
        _ => NumberModel::Float("0.0"@),
    }
}

/// The milliseconds that a clock read stands for.
pub open spec fn clock_value(o: OutcomeModel) -> u64 {
    match value_of(o) {
        Some(v) => match crate::json::whole(v) {
            Some(n) => n,
            None => 0,
        },
        None => 0,
    }
}

/// The capability an agent under test is given. Every external interaction
/// goes through here; nothing else is observable.
pub trait Effects: Sized {
    /// Whether effects can be performed.
    spec fn ready(&self) -> bool;

    /// What was asked and observed so far.
    spec fn history(&self) -> Seq<Exchange>;

    /// Whether an effect may be observed so, and leave all as it is then.
    spec fn may_observe(&self, request: RequestModel, outcome: OutcomeModel, after: Self) -> bool;

    /// Whether effects that are issued together may complete so, and leave all
    /// as it is then.
    spec fn may_complete(
        &self,
        requests: Seq<RequestModel>,
        done: Seq<(usize, Outcome)>,
        after: Self,
    ) -> bool;

    /// Perform an effect and return what the agent observes.
    fn perform(&mut self, request: EffectRequest) -> (r: Outcome)
        requires
            old(self).ready(),
        ensures
            final(self).ready(),
            final(self).history() == old(self).history().push(
                Exchange { request: request@, outcome: r@ },
            ),
            old(self).may_observe(request@, r@, *final(self)),
    ;

    /// Perform effects that were issued together. Each outcome comes with the
    /// index of its request, in the order in which the effects complete.
    fn perform_batch(&mut self, requests: Vec<EffectRequest>) -> (r: Vec<(usize, Outcome)>)
        requires
            old(self).ready(),
        ensures
            final(self).ready(),
            is_order(completion(r@), requests@.len()),
            final(self).history() == old(self).history() + exchanges(views(requests@), r@),
            old(self).may_complete(views(requests@), r@, *final(self)),
    ;

    /// Wall-clock milliseconds, recorded and replayed like any other effect.
    fn now_ms(&mut self) -> (r: u64)
        requires
            old(self).ready(),
        ensures
            final(self).ready(),
            exists|o: OutcomeModel|
                #![trigger clock_value(o)]
                r == clock_value(o) && final(self).history() == old(self).history().push(
                    Exchange { request: clock_request(), outcome: o },
                ) && old(self).may_observe(clock_request(), o, *final(self)),
    {
        let outcome = self.perform(EffectRequest::clock());
        let r: u64 = match outcome.value() {
            Some(v) => match v.as_u64() {
                Some(n) => n,
                None => 0,
            },
            None => 0,
        };
        assert(r == clock_value(outcome@));
        r
    }

    /// A uniform draw in `[0, 1)`, recorded and replayed like any other
    /// effect, which is what makes jittered backoff reproducible.
    fn random(&mut self) -> (r: Number)
        requires
            old(self).ready(),
        ensures
            final(self).ready(),
            exists|o: OutcomeModel|
                #![trigger drawn_number(o)]
                r@ == drawn_number(o) && final(self).history() == old(self).history().push(
                    Exchange { request: random_request(), outcome: o },
                ) && old(self).may_observe(random_request(), o, *final(self)),
    {
        let outcome = self.perform(EffectRequest::random());
        let r = match outcome.value() {
            Some(Json::Number(n)) => n.clone(),
            _ => Number::Float("0.0".to_owned()),
        };
        assert(r@ == drawn_number(outcome@));
        r
    }
}

/// Whether one effect after another may have been observed so, by what went
/// through these states.
pub open spec fn observed_through<E: Effects>(states: Seq<E>, run: Seq<Exchange>) -> bool {
    &&& states.len() == run.len() + 1
    &&& forall|k: int|
        0 <= k < run.len() ==> states[k].may_observe(
            (#[trigger] run[k]).request,
            run[k].outcome,
            states[k + 1],
        )
}

/// A source of real effects: the live model API, the real tools, the real
/// clock, or a deterministic fake of them.
pub trait Backend: Sized {
    /// Whether it can be called.
    spec fn ready(&self) -> bool;

    /// Whether a call may have this outcome, and leave the backend so.
    spec fn may_answer(&self, request: RequestModel, outcome: OutcomeModel, after: Self) -> bool;

    /// Really perform an effect.
    fn call(&mut self, request: &EffectRequest) -> (r: Outcome)
        requires
            old(self).ready(),
        ensures
            final(self).ready(),
            old(self).may_answer(request@, r@, *final(self)),
    ;
}

/// Whether one call after another may have led a backend through these states
/// and given these outcomes, as they are recorded.
pub open spec fn answered_through<B: Backend>(
    states: Seq<B>,
    requests: Seq<RequestModel>,
    done: Seq<(usize, Outcome)>,
) -> bool {
    &&& states.len() == done.len() + 1
    &&& forall|k: int|
        0 <= k < done.len() ==> answers_so(
            states[k],
            requests[k],
            (#[trigger] done[k]).1@,
            states[k + 1],
        )
}

/// Whether a call of a backend may be recorded with this outcome.
pub open spec fn answers_so<B: Backend>(
    before: B,
    request: RequestModel,
    outcome: OutcomeModel,
    after: B,
) -> bool {
    exists|o: OutcomeModel|
        before.may_answer(request, o, after) && outcome == #[trigger] ordered_outcome(o)
}

// ---------------------------------------------------------------------------
// Payloads
// ---------------------------------------------------------------------------

/// The bytes of a request in the store.
pub open spec fn request_bytes(r: RequestModel) -> Seq<u8> {
    encode_utf8(printed(request_json(r)))
}

/// The bytes of an outcome in the store.
pub open spec fn outcome_bytes(o: OutcomeModel) -> Seq<u8> {
    encode_utf8(printed(outcome_json(o)))
}

/// The request a store holds under a digest.
pub open spec fn request_at(contents: Contents, digest: Seq<char>) -> Option<RequestModel> {
    match found(contents, digest) {
        Some(bytes) => match json_read(bytes) {
            Some(m) => request_from(m),
            None => None,
        },
        None => None,
    }
}

/// The request a store holds under a digest, a failed read counting as
/// nothing.
pub fn fetch_request<C: Cas>(cas: &C, digest: &Digest) -> (r: Option<EffectRequest>)
    ensures
        viewed(r) == request_at(cas.contents(), digest@),
{
    match crate::cas::fetch(cas, digest) {
        Some(bytes) => match Json::read(bytes.as_slice()) {
            Some(json) => EffectRequest::from_json(&json),
            None => None,
        },
        None => None,
    }
}

/// Whether an outcome is read back from its bytes as it was.
pub open spec fn reads_back(o: OutcomeModel) -> bool {
    crate::oracle::outcome_in(outcome_bytes(o)) == Some(ordered_outcome(o))
}

/// Puts a text into a store that works.
fn put_text<C: Cas>(cas: &mut C, text: &str) -> (r: Digest)
    requires
        old(cas).works(),
    ensures
        final(cas).works(),
        final(cas).contents() == stored(old(cas).contents(), encode_utf8(text@)),
        r@ == crate::hash::blake3_hex(encode_utf8(text@)),
{
    match cas.put(text.as_bytes()) {
        Ok(digest) => digest,
        Err(_) => Digest::of(text.as_bytes()),
    }
}

/// Puts a request into a store that works.
pub fn put_request<C: Cas>(cas: &mut C, request: &EffectRequest) -> (r: Digest)
    requires
        old(cas).works(),
    ensures
        final(cas).works(),
        final(cas).contents() == stored(old(cas).contents(), request_bytes(request@)),
        r@ == digest_of(request_json(request@)),
{
    let text = request.to_json().print();
    put_text(cas, text.as_str())
}

/// Puts an outcome into a store that works. One without fractions that does
/// not nest too deep is read back as it was.
pub fn put_outcome<C: Cas>(cas: &mut C, outcome: &Outcome) -> (r: Digest)
    requires
        old(cas).works(),
    ensures
        final(cas).works(),
        final(cas).contents() == stored(old(cas).contents(), outcome_bytes(outcome@)),
        r@ == digest_of(outcome_json(outcome@)),
        crate::record::exact_outcome(outcome@, 126) ==> reads_back(outcome@),
{
    let json = outcome.to_json();
    let text = json.print();
    proof {
        crate::record::lemma_outcome_back(outcome@);
        if crate::record::exact_outcome(outcome@, 126) {
            assert(exact(outcome_json(outcome@), 126nat + 1));
        }
    }
    put_text(cas, text.as_str())
}

// ---------------------------------------------------------------------------
// Recording
// ---------------------------------------------------------------------------

/// What a recorder is, for contracts.
#[verifier::ext_equal]
pub struct RecordState {
    pub paths: Seq<Seq<char>>,
    pub contents: Contents,
    pub events: Seq<EventModel>,
    pub next_batch: u64,
}

/// The event that records an exchange at a position.
pub open spec fn recorded_event(
    paths: Seq<Seq<char>>,
    at: nat,
    r: RequestModel,
    o: OutcomeModel,
    batch: Option<u64>,
) -> EventModel {
    EventModel {
        seq: at as u64,
        kind: r.kind,
        name: r.name,
        identity: identity_of(paths, r),
        request: digest_of(request_json(r)),
        outcome: digest_of(outcome_json(o)),
        fault: None,
        shadow: None,
        logical_time: at as u64,
        batch,
    }
}

/// A recorder once it has recorded an exchange.
pub open spec fn recorded(
    s: RecordState,
    r: RequestModel,
    o: OutcomeModel,
    batch: Option<u64>,
) -> RecordState {
    RecordState {
        contents: stored(stored(s.contents, request_bytes(r)), outcome_bytes(o)),
        events: s.events.push(recorded_event(s.paths, s.events.len(), r, o, batch)),
        ..s
    }
}

/// A recorder once it has recorded several exchanges of one batch.
pub open spec fn recorded_all(s: RecordState, run: Seq<Exchange>, batch: Option<u64>) -> RecordState
    decreases run.len(),
{
    if run.len() == 0 {
        s
    } else {
        recorded(
            recorded_all(s, run.drop_last(), batch),
            run.last().request,
            run.last().outcome,
            batch,
        )
    }
}

/// The group that the calls of a batch of `n` belong to: a call issued alone
/// belongs to none.
pub open spec fn batch_tag(next_batch: u64, n: nat) -> Option<u64> {
    if n >= 2 {
        Some(next_batch)
    } else {
        None
    }
}

/// The number of the batch that follows one of `n` calls.
pub open spec fn batch_after(next_batch: u64, n: nat) -> u64 {
    if n >= 2 {
        (next_batch + 1) as u64
    } else {
        next_batch
    }
}

/// Wraps a backend, writing every effect to a trace as it passes through.
pub struct Recorder<'a, C: Cas, B: Backend> {
    pub backend: B,
    pub cas: &'a mut C,
    pub canon: Canonicalizer,
    pub events: Vec<Event>,
    pub next_batch: u64,
    pub log: Ghost<Seq<Exchange>>,
}

impl<'a, C: Cas, B: Backend> View for Recorder<'a, C, B> {
    type V = RecordState;

    open spec fn view(&self) -> RecordState {
        RecordState {
            paths: self.canon@,
            contents: (*self.cas).contents(),
            events: views(self.events@),
            next_batch: self.next_batch,
        }
    }
}

impl<'a, C: Cas, B: Backend> Recorder<'a, C, B> {
    /// A recorder that has recorded nothing yet.
    pub fn new(backend: B, cas: &'a mut C, canon: Canonicalizer) -> (r: Self)
        ensures
            r@ == (RecordState {
                paths: canon@,
                contents: old(cas).contents(),
                events: seq![],
                next_batch: 0,
            }),
            r.backend == backend,
            *r.cas == *old(cas),
            *final(r.cas) == *final(cas),
            r.log@ == Seq::<Exchange>::empty(),
            old(cas).works() && backend.ready() ==> r.ready(),
    {
        let events: Vec<Event> = Vec::new();
        assert(views(events@) =~= seq![]);
        Recorder { backend, cas, canon, events, next_batch: 0, log: Ghost(Seq::empty()) }
    }

    /// Borrow the backend, to inspect the world the agent really changed.
    pub fn backend(&self) -> (r: &B)
        ensures
            *r == self.backend,
    {
        &self.backend
    }

    /// Finish recording and produce the trace.
    pub fn finish(self, label: &str) -> (r: Trace)
        ensures
            *final(self.cas) == *old(self.cas),
            r@ == (TraceModel {
                header: HeaderModel {
                    label: label@,
                    canonicalizer: self@.paths,
                    ..crate::trace::default_header()
                },
                events: self@.events,
            }),
    {
        let header = TraceHeader {
            format_version: FORMAT_VERSION,
            engine: "samsara/0.1.0".to_owned(),
            label: label.to_owned(),
            recorded_at_ms: 0,
            canonicalizer: self.canon,
            seed: None,
            schedule: None,
            parent: None,
        };
        Trace { header, events: self.events }
    }

    /// Perform one effect and record it as part of a batch, or alone.
    fn perform_tagged(&mut self, request: EffectRequest, batch: Option<u64>) -> (r: Outcome)
        requires
            old(self).ready(),
        ensures
            final(self).ready(),
            *final(final(self).cas) == *final(old(self).cas),
            final(self)@ == recorded(old(self)@, request@, r@, batch),
            final(self).log@ == old(self).log@.push(Exchange { request: request@, outcome: r@ }),
            answers_so(old(self).backend, request@, r@, final(self).backend),
            crate::record::exact_outcome(r@, 126) ==> reads_back(r@),
            crate::hash::is_full(identity_of(old(self)@.paths, request@)),
    {
        let raw = self.backend.call(&request);
        let outcome = raw.ordered();
        let identity = request.identity(&self.canon);
        let request_digest = put_request(self.cas, &request);
        let outcome_digest = put_outcome(self.cas, &outcome);
        let ghost before = self.events@;
        let at: u64 = self.events.len() as u64;
        let ghost asked = request@;
        self.events.push(
            Event {
                seq: at,
                kind: request.kind,
                name: request.name.clone(),
                identity,
                request: request_digest,
                outcome: outcome_digest,
                fault: None,
                shadow: None,
                logical_time: at,
                batch,
            },
        );
        self.log = Ghost(self.log@.push(Exchange { request: asked, outcome: outcome@ }));
        assert(views(self.events@) =~= views(before).push(
            recorded_event(self.canon@, before.len(), asked, outcome@, batch),
        ));
        outcome
    }
}

impl Outcome {
    /// This outcome with its value in key order.
    pub fn ordered(&self) -> (r: Outcome)
        ensures
            r@ == ordered_outcome(self@),
    {
        match self {
            Outcome::Success { value } => Outcome::Success { value: value.ordered() },
            Outcome::Failure { .. } => self.clone(),
        }
    }
}

impl<'a, C: Cas, B: Backend> Effects for Recorder<'a, C, B> {
    open spec fn ready(&self) -> bool {
        &&& (*self.cas).works()
        &&& self.backend.ready()
        &&& self.next_batch <= self.events@.len()
    }

    open spec fn history(&self) -> Seq<Exchange> {
        self.log@
    }

    open spec fn may_observe(
        &self,
        request: RequestModel,
        outcome: OutcomeModel,
        after: Self,
    ) -> bool {
        &&& after@ == recorded(self@, request, outcome, None)
        &&& answers_so(self.backend, request, outcome, after.backend)
    }

    open spec fn may_complete(
        &self,
        requests: Seq<RequestModel>,
        done: Seq<(usize, Outcome)>,
        after: Self,
    ) -> bool {
        &&& completion(done) == unchanged(requests.len())
        &&& after@ == (RecordState {
            next_batch: batch_after(self@.next_batch, requests.len()),
            ..recorded_all(
                self@,
                exchanges(requests, done),
                batch_tag(self@.next_batch, requests.len()),
            )
        })
        &&& exists|states: Seq<B>| #[trigger]
            answered_through(states, requests, done) && states.first() == self.backend
                && states.last() == after.backend
    }

    fn perform(&mut self, request: EffectRequest) -> (r: Outcome)
        ensures
            *final(final(self).cas) == *final(old(self).cas),
            final(self)@ == recorded(old(self)@, request@, r@, None),
            answers_so(old(self).backend, request@, r@, final(self).backend),
            crate::record::exact_outcome(r@, 126) ==> reads_back(r@),
            crate::hash::is_full(identity_of(old(self)@.paths, request@)),
    {
        self.perform_tagged(request, None)
    }

    fn perform_batch(&mut self, requests: Vec<EffectRequest>) -> (r: Vec<(usize, Outcome)>)
        ensures
            *final(final(self).cas) == *final(old(self).cas),
            completion(r@) == unchanged(requests@.len()),
            forall|k: int|
                0 <= k < requests@.len() ==> crate::hash::is_full(
                    identity_of(old(self)@.paths, (#[trigger] requests@[k])@),
                ),
            exists|states: Seq<B>| #[trigger]
                answered_through(states, views(requests@), r@) && states.first() == old(
                    self,
                ).backend && states.last() == final(self).backend,
            final(self)@ == (RecordState {
                next_batch: batch_after(old(self)@.next_batch, requests@.len()),
                ..recorded_all(
                    old(self)@,
                    exchanges(views(requests@), r@),
                    batch_tag(old(self)@.next_batch, requests@.len()),
                )
            }),
    {
        let n: usize = requests.len();
        let batch = if n >= 2 {
            Some(self.next_batch)
        } else {
            None
        };
        let ghost start = *self;
        let ghost all = views(requests@);
        let mut out: Vec<(usize, Outcome)> = Vec::new();
        let mut i: usize = 0;
        let ghost mut states: Seq<B> = seq![self.backend];
        proof {
            assert(exchanges(all, out@) =~= seq![]);
            assert(start.log@ + exchanges(all, out@) =~= start.log@);
        }
        while i < n
            invariant
                i <= n,
                n == requests@.len(),
                all == views(requests@),
                batch == batch_tag(start@.next_batch, n as nat),
                self.ready(),
                *final(self.cas) == *final(start.cas),
                self.next_batch == start.next_batch,
                self.events@.len() == start.events@.len() + i,
                out@.len() == i,
                forall|k: int| 0 <= k < i ==> (#[trigger] out@[k]).0 == k,
                self.canon@ == start.canon@,
                forall|k: int|
                    0 <= k < i ==> crate::hash::is_full(
                        identity_of(start@.paths, (#[trigger] requests@[k])@),
                    ),
                answered_through(states, all, out@),
                states.first() == start.backend,
                states.last() == self.backend,
                self.log@ == start.log@ + exchanges(all, out@),
                self@ == recorded_all(start@, exchanges(all, out@), batch),
            decreases n - i,
        {
            let ghost mid = *self;
            let ghost before = out@;
            let outcome = self.perform_tagged(requests[i].clone(), batch);
            out.push((i, outcome));
            proof {
                let known = states;
                states = states.push(self.backend);
                assert forall|k: int| 0 <= k < out@.len() implies answers_so(
                    states[k],
                    all[k],
                    (#[trigger] out@[k]).1@,
                    states[k + 1],
                ) by {
                    if k < i {
                        assert(before[k] == out@[k]);
                        assert(states[k] == known[k]);
                        assert(states[k + 1] == known[k + 1]);
                    }
                }
                let e = Exchange { request: all[i as int], outcome: outcome@ };
                assert(exchanges(all, out@) =~= exchanges(all, before).push(e));
                assert(exchanges(all, out@).drop_last() =~= exchanges(all, before));
                assert(start.log@ + exchanges(all, out@) =~= mid.log@.push(e));
                assert(self@.events.len() == mid@.events.len() + 1);
            }
            i += 1;
        }
        let ghost last = self.backend;
        let count: usize = self.events.len();
        if n >= 2 {
            assert(self.next_batch < count);
            self.next_batch = self.next_batch + 1;
        }
        assert(self.backend == last);
        proof {
            assert(completion(out@) =~= unchanged(n as nat));
            assert(is_order(completion(out@), n as nat)) by {
                let order = completion(out@);
                assert forall|a: int, b: int| 0 <= a < b < order.len() implies order[a]
                    != order[b] by {
                    assert(out@[a].0 == a && out@[b].0 == b);
                }
                assert forall|a: int| 0 <= a < order.len() implies (#[trigger] order[a]) < n by {
                    assert(out@[a].0 == a);
                }
            }
        }
        out
    }
}

/// What a recorder holds once it went through a run of single effects: the
/// run's exchanges, recorded one after another, and nothing else.
pub proof fn lemma_recorded_through<'a, C: Cas, B: Backend>(
    states: Seq<Recorder<'a, C, B>>,
    run: Seq<Exchange>,
)
    requires
        observed_through(states, run),
    ensures
        states.last()@ == recorded_all(states.first()@, run, None),
    decreases run.len(),
{
    if run.len() > 0 {
        let front = states.drop_last();
        let most = run.drop_last();
        let last = run.len() - 1;
        assert forall|k: int| 0 <= k < most.len() implies front[k].may_observe(
            (#[trigger] most[k]).request,
            most[k].outcome,
            front[k + 1],
        ) by {
            assert(most[k] == run[k]);
        }
        lemma_recorded_through(front, most);
        assert(states[last].may_observe(run[last].request, run[last].outcome, states[last + 1]));
        assert(front.last() == states[last]);
    }
}

} // verus!
