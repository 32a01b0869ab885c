//! Invariants: the properties an agent must hold under every fault schedule.
//!
//! Fault injection alone shows that an agent crashed. Invariants show that it
//! stayed up and quietly did the wrong thing.

use crate::cas::{Cas, Contents};
use crate::event::{EffectKind, Event, EventModel, Outcome, OutcomeModel};
use crate::hash::{has_short, short_of};
use crate::json::{get, whole, Json, JsonModel};
use crate::model::views;
use crate::oracle::{fetch_outcome, outcome_at};
use crate::replay::{fetch_request, request_at};
use crate::text::{decimal, eq_ignore_case, holds, same, same_ignoring_case, show, show_size, texts};
use crate::trace::{Trace, TraceModel};
use vstd::prelude::*;

verus! {

/// A breach of an invariant, located in the run.
#[derive(Debug, PartialEq, Eq)]
pub struct Violation {
    /// Which invariant was broken.
    pub invariant: String,
    /// Where, if the breach has a single location.
    pub at_seq: Option<u64>,
    /// What went wrong, phrased for a bug report.
    pub detail: String,
}

/// What a violation is, for contracts.
pub struct ViolationModel {
    pub invariant: Seq<char>,
    pub at_seq: Option<u64>,
    pub detail: Seq<char>,
}

impl View for Violation {
    type V = ViolationModel;

    open spec fn view(&self) -> ViolationModel {
        ViolationModel {
            invariant: self.invariant@,
            at_seq: self.at_seq,
            detail: self.detail@,
        }
    }
}

impl Clone for Violation {
    fn clone(&self) -> (r: Self)
        ensures
            r@ == self@,
    {
        Violation {
            invariant: self.invariant.clone(),
            at_seq: self.at_seq,
            detail: self.detail.clone(),
        }
    }
}

/// The report on a violation.
pub open spec fn violation_report(v: ViolationModel) -> Seq<char> {
    match v.at_seq {
        Some(seq) => "["@ + v.invariant + "] at effect #"@ + decimal(seq as nat) + ": "@ + v.detail,
        None => "["@ + v.invariant + "] "@ + v.detail,
    }
}

impl Violation {
    /// Which invariant broke where, and how.
    pub fn report(&self) -> (r: String)
        ensures
            r@ == violation_report(self@),
    {
        let mut out = "[".to_owned();
        out.append(self.invariant.as_str());
        match self.at_seq {
            Some(seq) => {
                out.append("] at effect #");
                out.append(show(seq).as_str());
                out.append(": ");
            },
            None => {
                out.append("] ");
            },
        }
        out.append(self.detail.as_str());
        out
    }
}

/// A property checked against a completed run.
pub trait Invariant<C: Cas> {
    /// Its name.
    spec fn title(&self) -> Seq<char>;

    /// Whether it can be checked on a run, with the payloads that a store
    /// holds.
    spec fn checkable(&self, trace: TraceModel, contents: Contents) -> bool;

    /// Every breach in a run, with the payloads that a store holds.
    spec fn breaches(&self, trace: TraceModel, contents: Contents) -> Seq<ViolationModel>;

    /// Its name.
    fn name(&self) -> (r: &str)
        ensures
            r@ == self.title(),
    ;

    /// Return every breach found. An empty list means the run is clean.
    fn check(&self, trace: &Trace, cas: &C) -> (r: Vec<Violation>)
        requires
            self.checkable(trace@, cas.contents()),
        ensures
            views(r@) == self.breaches(trace@, cas.contents()),
    ;
}

// ---------------------------------------------------------------------------
// Landing
// ---------------------------------------------------------------------------

/// Whether a call's side effect took place. A timeout is not a failure, it is
/// an absence of information.
#[derive(Clone, Copy, Debug, PartialEq, Eq, Structural)]
pub enum Landing {
    /// The side effect definitely happened.
    Yes,
    /// It may have happened; the response was lost, not refused.
    Maybe,
    /// It definitely did not: the call was refused before doing anything.
    No,
}

/// Whether an error code leaves it open if anything happened.
pub open spec fn ambiguous(code: Seq<char>) -> bool {
    ||| same_ignoring_case(code, "timeout"@)
    ||| same_ignoring_case(code, "connection_reset"@)
    ||| same_ignoring_case(code, "connection_refused"@)
    ||| same_ignoring_case(code, "unknown"@)
    ||| same_ignoring_case(code, "502"@)
    ||| same_ignoring_case(code, "503"@)
    ||| same_ignoring_case(code, "504"@)
}

/// Whether the side effect of a call with this outcome landed: a refusal did
/// nothing, and where the outcome is not known, or leaves it open, it may have.
pub open spec fn outcome_landed(o: Option<OutcomeModel>) -> Landing {
    match o {
        Some(OutcomeModel::Success { .. }) => Landing::Yes,
        Some(OutcomeModel::Failure { code, .. }) => if ambiguous(code) {
            Landing::Maybe
        } else {
            Landing::No
        },
        None => Landing::Maybe,
    }
}

/// Whether an event's side effect landed: where a fault was injected, the
/// shadow holds the truth.
pub open spec fn landing_of(e: EventModel, contents: Contents) -> Landing {
    if e.fault is Some {
        match e.shadow {
            Some(shadow) => outcome_landed(outcome_at(contents, shadow)),
            None => Landing::Maybe,
        }
    } else {
        outcome_landed(outcome_at(contents, e.outcome))
    }
}

/// `ambiguous`, decided.
fn is_ambiguous(code: &str) -> (r: bool)
    ensures
        r == ambiguous(code@),
{
    eq_ignore_case(code, "timeout") || eq_ignore_case(code, "connection_reset")
        || eq_ignore_case(code, "connection_refused") || eq_ignore_case(code, "unknown")
        || eq_ignore_case(code, "502") || eq_ignore_case(code, "503") || eq_ignore_case(
        code,
        "504",
    )
}

/// Decide whether the side effect of a call with this outcome landed.
fn judge(outcome: Option<Outcome>) -> (r: Landing)
    ensures
        r == outcome_landed(crate::model::viewed(outcome)),
{
    match outcome {
        Some(Outcome::Success { .. }) => Landing::Yes,
        Some(Outcome::Failure { code, .. }) => if is_ambiguous(code.as_str()) {
            Landing::Maybe
        } else {
            Landing::No
        },
        None => Landing::Maybe,
    }
}

/// Decide whether an event's side effect landed.
pub fn landing<C: Cas>(event: &Event, cas: &C) -> (r: Landing)
    ensures
        r == landing_of(event@, cas.contents()),
{
    if event.fault.is_some() {
        match &event.shadow {
            Some(shadow) => judge(fetch_outcome(cas, shadow)),
            None => Landing::Maybe,
        }
    } else {
        judge(fetch_outcome(cas, &event.outcome))
    }
}

// ---------------------------------------------------------------------------
// No side effect happens twice
// ---------------------------------------------------------------------------

/// No side effect happens twice.
///
/// A tool times out, the agent retries, and the first call had succeeded, so
/// the file is deleted twice. Timeouts count as possible successes, and calls
/// that declare an idempotency key are exempt: retrying those is correct.
#[derive(Debug)]
pub struct NoDuplicateEffects {
    /// Restrict to these tool names. Empty means every tool.
    pub tools: Vec<String>,
    /// Argument name carrying an idempotency key.
    pub idempotency_field: Option<String>,
}

/// Whether a list of tools to watch includes a tool.
pub open spec fn watched(tools: Seq<Seq<char>>, name: Seq<char>) -> bool {
    tools.len() == 0 || tools.contains(name)
}

/// Whether a call declares an idempotency key.
pub open spec fn declares_key(
    field: Option<Seq<char>>,
    e: EventModel,
    contents: Contents,
) -> bool {
    match field {
        None => false,
        Some(key) => match request_at(contents, e.request) {
            None => false,
            Some(request) => match get(request.body, key) {
                Some(v) => v != JsonModel::Null,
                None => false,
            },
        },
    }
}

/// Whether an event may have changed the world in a way that must not repeat.
pub open spec fn relevant(
    tools: Seq<Seq<char>>,
    field: Option<Seq<char>>,
    e: EventModel,
    contents: Contents,
) -> bool {
    &&& e.kind == EffectKind::Tool
    &&& watched(tools, e.name)
    &&& !declares_key(field, e, contents)
    &&& landing_of(e, contents) != Landing::No
}

/// The first of some events that is relevant and has this identity, or -1.
pub open spec fn first_landing(
    tools: Seq<Seq<char>>,
    field: Option<Seq<char>>,
    events: Seq<EventModel>,
    contents: Contents,
    identity: Seq<char>,
) -> int
    decreases events.len(),
{
    if events.len() == 0 {
        -1
    } else {
        let front = first_landing(tools, field, events.drop_last(), contents, identity);
        if front >= 0 {
            front
        } else if relevant(tools, field, events.last(), contents) && events.last().identity
            == identity {
            events.len() - 1
        } else {
            -1
        }
    }
}

/// The violation that an event repeats an earlier one.
pub open spec fn duplicate_violation(
    first: EventModel,
    again: EventModel,
    contents: Contents,
) -> ViolationModel {
    let certain = landing_of(first, contents) == Landing::Yes && landing_of(again, contents)
        == Landing::Yes;
    ViolationModel {
        invariant: "no_duplicate_effects"@,
        at_seq: Some(again.seq),
        detail: if certain {
            "`"@ + again.name + "` took effect at #"@ + decimal(first.seq as nat)
                + " and again at #"@ + decimal(again.seq as nat) + " with identical arguments ("@
                + short_of(again.identity) + ") \u{2014} the side effect happened twice"@
        } else {
            "`"@ + again.name + "` at #"@ + decimal(first.seq as nat)
                + " returned an ambiguous failure, so it may already have taken effect; #"@
                + decimal(again.seq as nat) + " repeated it with identical arguments ("@
                + short_of(again.identity)
                + "). Supply an idempotency key or reconcile before retrying."@
        },
    }
}

/// The violations among some events: each relevant one that repeats an
/// earlier relevant one of its identity.
pub open spec fn duplicates(
    tools: Seq<Seq<char>>,
    field: Option<Seq<char>>,
    events: Seq<EventModel>,
    contents: Contents,
) -> Seq<ViolationModel>
    decreases events.len(),
{
    if events.len() == 0 {
        seq![]
    } else {
        let front = events.drop_last();
        let earlier = duplicates(tools, field, front, contents);
        let e = events.last();
        let first = first_landing(tools, field, front, contents, e.identity);
        if relevant(tools, field, e, contents) && 0 <= first < front.len() {
            earlier.push(duplicate_violation(front[first], e, contents))
        } else {
            earlier
        }
    }
}

/// Whether each event that repeats an earlier one has an identity with a head
/// to show.
pub open spec fn repeats_shown(
    tools: Seq<Seq<char>>,
    field: Option<Seq<char>>,
    events: Seq<EventModel>,
    contents: Contents,
) -> bool {
    forall|j: int|
        0 <= j < events.len() && relevant(tools, field, #[trigger] events[j], contents)
            && first_landing(tools, field, events.take(j), contents, events[j].identity) >= 0
            ==> has_short(events[j].identity)
}

/// Whether every identity in a run has a head to show.
pub open spec fn identities_shown(trace: TraceModel) -> bool {
    forall|i: int| 0 <= i < trace.events.len() ==> has_short((#[trigger] trace.events[i]).identity)
}

proof fn lemma_first_landing(
    tools: Seq<Seq<char>>,
    field: Option<Seq<char>>,
    events: Seq<EventModel>,
    contents: Contents,
    identity: Seq<char>,
)
    ensures
        ({
            let first = first_landing(tools, field, events, contents, identity);
            &&& -1 <= first < events.len()
            &&& first >= 0 ==> relevant(tools, field, events[first], contents)
                && events[first].identity == identity
            &&& forall|k: int|
                0 <= k < events.len() && (first < 0 || k < first) ==> !(relevant(
                    tools,
                    field,
                    #[trigger] events[k],
                    contents,
                ) && events[k].identity == identity)
        }),
    decreases events.len(),
{
    if events.len() > 0 {
        lemma_first_landing(tools, field, events.drop_last(), contents, identity);
        let front = events.drop_last();
        assert forall|k: int|
            0 <= k < events.len() && (first_landing(tools, field, events, contents, identity) < 0
                || k < first_landing(tools, field, events, contents, identity)) implies !(relevant(
            tools,
            field,
            #[trigger] events[k],
            contents,
        ) && events[k].identity == identity) by {
            if k < front.len() {
                assert(front[k] == events[k]);
            }
        }
    }
}

/// Whether two events are the same effect, and both may have changed the world.
pub open spec fn happened_twice(
    tools: Seq<Seq<char>>,
    field: Option<Seq<char>>,
    events: Seq<EventModel>,
    contents: Contents,
    i: int,
    j: int,
) -> bool {
    &&& 0 <= i < j < events.len()
    &&& relevant(tools, field, events[i], contents)
    &&& relevant(tools, field, events[j], contents)
    &&& events[i].identity == events[j].identity
}

/// A duplicate is reported exactly where some effect may have happened twice.
pub proof fn lemma_duplicates_complete(
    tools: Seq<Seq<char>>,
    field: Option<Seq<char>>,
    events: Seq<EventModel>,
    contents: Contents,
)
    ensures
        duplicates(tools, field, events, contents).len() > 0 <==> exists|i: int, j: int| #[trigger]
            happened_twice(tools, field, events, contents, i, j),
    decreases events.len(),
{
    if events.len() > 0 {
        let front = events.drop_last();
        let last = events.len() - 1;
        let e = events.last();
        lemma_duplicates_complete(tools, field, front, contents);
        lemma_first_landing(tools, field, front, contents, e.identity);
        let first = first_landing(tools, field, front, contents, e.identity);
        if duplicates(tools, field, front, contents).len() > 0 {
            let (i, j) = choose|i: int, j: int| #[trigger]
                happened_twice(tools, field, front, contents, i, j);
            assert(happened_twice(tools, field, events, contents, i, j));
        } else if duplicates(tools, field, events, contents).len() > 0 {
            assert(happened_twice(tools, field, events, contents, first, last));
        }
        if exists|i: int, j: int| #[trigger]
            happened_twice(tools, field, events, contents, i, j) {
            let (i, j) = choose|i: int, j: int| #[trigger]
                happened_twice(tools, field, events, contents, i, j);
            if j < last {
                assert(happened_twice(tools, field, front, contents, i, j));
            } else {
                assert(front[i] == events[i]);
                assert(first >= 0);
            }
        }
    }
}

/// Calls that declare a key are exempt: where every watched call declares one,
/// nothing is reported, however often it is repeated.
pub proof fn lemma_declared_keys_exempt(
    tools: Seq<Seq<char>>,
    field: Option<Seq<char>>,
    events: Seq<EventModel>,
    contents: Contents,
)
    requires
        forall|i: int|
            0 <= i < events.len() && (#[trigger] events[i]).kind == EffectKind::Tool && watched(
                tools,
                events[i].name,
            ) ==> declares_key(field, events[i], contents),
    ensures
        duplicates(tools, field, events, contents) == Seq::<ViolationModel>::empty(),
{
    lemma_duplicates_complete(tools, field, events, contents);
    if duplicates(tools, field, events, contents).len() > 0 {
        let (i, j) = choose|i: int, j: int| #[trigger]
            happened_twice(tools, field, events, contents, i, j);
        assert(declares_key(field, events[i], contents));
    }
}

impl NoDuplicateEffects {
    /// The argument name carrying an idempotency key.
    pub open spec fn field(&self) -> Option<Seq<char>> {
        crate::model::viewed(self.idempotency_field)
    }

    /// Watch every tool.
    pub fn all() -> (r: Self)
        ensures
            texts(r.tools@).len() == 0,
            r.field() is None,
    {
        NoDuplicateEffects { tools: Vec::new(), idempotency_field: None }
    }

    /// Watch only the named tools, the ones that really change something.
    pub fn only(tools: Vec<String>) -> (r: Self)
        ensures
            texts(r.tools@) == texts(tools@),
            r.field() is None,
    {
        NoDuplicateEffects { tools, idempotency_field: None }
    }

    /// Exempt calls that carry an idempotency key in this argument.
    pub fn exempting_idempotent(self, field: &str) -> (r: Self)
        ensures
            texts(r.tools@) == texts(self.tools@),
            r.field() == Some(field@),
    {
        NoDuplicateEffects { tools: self.tools, idempotency_field: Some(field.to_owned()) }
    }

    /// Whether calls of this tool are watched.
    fn watches(&self, name: &str) -> (r: bool)
        ensures
            r == watched(texts(self.tools@), name@),
    {
        self.tools.is_empty() || holds(&self.tools, name)
    }

    /// Whether this call declares an idempotency key.
    fn is_declared_idempotent<C: Cas>(&self, event: &Event, cas: &C) -> (r: bool)
        ensures
            r == declares_key(self.field(), event@, cas.contents()),
    {
        match &self.idempotency_field {
            None => false,
            Some(key) => match fetch_request(cas, &event.request) {
                None => false,
                Some(request) => match request.body.get(key.as_str()) {
                    Some(v) => !v.is_null(),
                    None => false,
                },
            },
        }
    }
}

/// Words the violation that an event repeats an earlier one.
fn report_duplicate(first: &Event, again: &Event, certain: bool) -> (r: Violation)
    requires
        has_short(again.identity@),
    ensures
        forall|contents: Contents|
            certain == (landing_of(first@, contents) == Landing::Yes && landing_of(again@, contents)
                == Landing::Yes) ==> r@ == #[trigger] duplicate_violation(first@, again@, contents),
{
    let mut detail = "`".to_owned();
    detail.append(again.name.as_str());
    if certain {
        detail.append("` took effect at #");
        detail.append(show(first.seq).as_str());
        detail.append(" and again at #");
        detail.append(show(again.seq).as_str());
        detail.append(" with identical arguments (");
        detail.append(again.identity.short());
        detail.append(") \u{2014} the side effect happened twice");
    } else {
        detail.append("` at #");
        detail.append(show(first.seq).as_str());
        detail.append(" returned an ambiguous failure, so it may already have taken effect; #");
        detail.append(show(again.seq).as_str());
        detail.append(" repeated it with identical arguments (");
        detail.append(again.identity.short());
        detail.append("). Supply an idempotency key or reconcile before retrying.");
    }
    Violation {
        invariant: "no_duplicate_effects".to_owned(),
        at_seq: Some(again.seq),
        detail,
    }
}

impl<C: Cas> Invariant<C> for NoDuplicateEffects {
    open spec fn title(&self) -> Seq<char> {
        "no_duplicate_effects"@
    }

    open spec fn checkable(&self, trace: TraceModel, contents: Contents) -> bool {
        repeats_shown(texts(self.tools@), self.field(), trace.events, contents)
    }

    open spec fn breaches(&self, trace: TraceModel, contents: Contents) -> Seq<ViolationModel> {
        duplicates(texts(self.tools@), self.field(), trace.events, contents)
    }

    fn name(&self) -> (r: &str) {
        "no_duplicate_effects"
    }

    fn check(&self, trace: &Trace, cas: &C) -> (r: Vec<Violation>) {
        let ghost tools = texts(self.tools@);
        let ghost field = self.field();
        let ghost all = trace@.events;
        let ghost contents = cas.contents();
        // The relevant events so far, with how sure their landing is.
        let mut landed: Vec<(usize, Landing)> = Vec::new();
        let mut out: Vec<Violation> = Vec::new();
        let mut j: usize = 0;
        assert(all.take(0) =~= seq![]);
        assert(views(out@) =~= seq![]);
        while j < trace.events.len()
            invariant
                j <= trace.events@.len(),
                all == views(trace.events@),
                contents == cas.contents(),
                tools == texts(self.tools@),
                field == self.field(),
                repeats_shown(tools, field, all, contents),
                trace@.events == all,
                views(out@) == duplicates(tools, field, all.take(j as int), contents),
                forall|k: int|
                    0 <= k < landed@.len() ==> {
                        &&& (#[trigger] landed@[k]).0 < j
                        &&& relevant(tools, field, all[landed@[k].0 as int], contents)
                        &&& landed@[k].1 == landing_of(all[landed@[k].0 as int], contents)
                    },
                forall|k: int, l: int| 0 <= k < l < landed@.len() ==> landed@[k].0 < landed@[l].0,
                forall|i: int|
                    0 <= i < j && relevant(tools, field, #[trigger] all[i], contents) ==> exists|
                        k: int,
                    |
                        0 <= k < landed@.len() && (#[trigger] landed@[k]).0 == i,
            decreases trace.events@.len() - j,
        {
            let event = &trace.events[j];
            let ghost front = all.take(j as int);
            let ghost before = out@;
            let ghost seen = landed@;
            proof {
                assert(all.take(j + 1).drop_last() =~= front);
                assert(all.take(j + 1).last() == all[j as int]);
                assert(all[j as int] == event@);
                lemma_first_landing(tools, field, front, contents, event@.identity);
            }
            if event.kind.is_effectful() && self.watches(event.name.as_str())
                && !self.is_declared_idempotent(event, cas) {
                let this = landing(event, cas);
                if this != Landing::No {
                    let mut found: bool = false;
                    let mut k: usize = 0;
                    let mut at: usize = 0;
                    while k < landed.len() && !found
                        invariant
                            k <= landed@.len(),
                            all == views(trace.events@),
                            j < trace.events@.len(),
                            event@ == all[j as int],
                            forall|l: int|
                                0 <= l < landed@.len() ==> (#[trigger] landed@[l]).0 < j,
                            !found ==> forall|l: int|
                                0 <= l < k ==> all[(#[trigger] landed@[l]).0 as int].identity
                                    != event@.identity,
                            found ==> {
                                &&& at < landed@.len()
                                &&& all[landed@[at as int].0 as int].identity == event@.identity
                                &&& forall|l: int|
                                    0 <= l < at ==> all[(#[trigger] landed@[l]).0 as int].identity
                                        != event@.identity
                            },
                        decreases landed@.len() - k, if found { 0int } else { 1int },
                    {
                        let i: usize = landed[k].0;
                        assert(all[i as int] == trace.events@[i as int]@);
                        if trace.events[i].identity.same(&event.identity) {
                            found = true;
                            at = k;
                        } else {
                            k += 1;
                        }
                    }
                    if found {
                        let i: usize = landed[at].0;
                        let certain = landed[at].1 == Landing::Yes && this == Landing::Yes;
                        assert(all[i as int] == trace.events@[i as int]@);
                        proof {
                            let first = first_landing(
                                tools,
                                field,
                                front,
                                contents,
                                event@.identity,
                            );
                            assert(front[i as int] == all[i as int]);
                            assert(first >= 0 && first <= i);
                            assert(front[first] == all[first]);
                            if first < i {
                                let l = choose|l: int|
                                    0 <= l < landed@.len() && (#[trigger] landed@[l]).0 == first;
                                if l >= at {
                                    assert(landed@[at as int].0 <= landed@[l].0);
                                }
                                assert(false);
                            }
                        }
                        out.push(report_duplicate(&trace.events[i], event, certain));
                        assert(views(out@) =~= views(before).push(
                            duplicate_violation(all[i as int], event@, contents),
                        ));
                    } else {
                        proof {
                            let first = first_landing(
                                tools,
                                field,
                                front,
                                contents,
                                event@.identity,
                            );
                            if first >= 0 {
                                assert(front[first] == all[first]);
                                let l = choose|l: int|
                                    0 <= l < landed@.len() && (#[trigger] landed@[l]).0 == first;
                                assert(all[landed@[l].0 as int].identity != event@.identity);
                            }
                        }
                    }
                    landed.push((j, this));
                    proof {
                        assert forall|i: int|
                            0 <= i < j + 1 && relevant(
                                tools,
                                field,
                                #[trigger] all[i],
                                contents,
                            ) implies exists|k: int|
                            0 <= k < landed@.len() && (#[trigger] landed@[k]).0 == i by {
                            if i < j {
                                let k = choose|k: int|
                                    0 <= k < seen.len() && (#[trigger] seen[k]).0 == i;
                                assert(landed@[k].0 == i);
                            } else {
                                assert(landed@[seen.len() as int].0 == i);
                            }
                        }
                    }
                }
            }
            j += 1;
        }
        assert(all.take(j as int) =~= all);
        out
    }
}

// ---------------------------------------------------------------------------
// Budgets
// ---------------------------------------------------------------------------

/// A list that holds one violation.
fn only_one(v: Violation) -> (r: Vec<Violation>)
    ensures
        views(r@) == seq![v@],
{
    let mut out: Vec<Violation> = Vec::new();
    out.push(v);
    assert(views(out@) =~= seq![v@]);
    out
}

/// A list that holds no violation.
fn nothing_found() -> (r: Vec<Violation>)
    ensures
        views(r@) == Seq::<ViolationModel>::empty(),
{
    let out: Vec<Violation> = Vec::new();
    assert(views(out@) =~= seq![]);
    out
}

/// The agent finishes within a bounded number of effects.
#[derive(Debug)]
pub struct TerminatesWithin(pub usize);

/// The breach of a bound on the number of effects.
pub open spec fn length_breaches(limit: usize, trace: TraceModel) -> Seq<ViolationModel> {
    if trace.events.len() > limit {
        seq![
            ViolationModel {
                invariant: "terminates_within"@,
                at_seq: Some(limit as u64),
                detail: "run performed "@ + decimal(trace.events.len())
                    + " effects, budget is "@ + decimal(limit as nat),
            },
        ]
    } else {
        seq![]
    }
}

impl<C: Cas> Invariant<C> for TerminatesWithin {
    open spec fn title(&self) -> Seq<char> {
        "terminates_within"@
    }

    open spec fn checkable(&self, trace: TraceModel, contents: Contents) -> bool {
        true
    }

    open spec fn breaches(&self, trace: TraceModel, contents: Contents) -> Seq<ViolationModel> {
        length_breaches(self.0, trace)
    }

    fn name(&self) -> (r: &str) {
        "terminates_within"
    }

    fn check(&self, trace: &Trace, cas: &C) -> (r: Vec<Violation>) {
        if trace.len() > self.0 {
            let mut detail = "run performed ".to_owned();
            detail.append(show_size(trace.len()).as_str());
            detail.append(" effects, budget is ");
            detail.append(show_size(self.0).as_str());
            only_one(
                Violation {
                    invariant: "terminates_within".to_owned(),
                    at_seq: Some(self.0 as u64),
                    detail,
                },
            )
        } else {
            nothing_found()
        }
    }
}

/// Total model tokens stay under budget. Responses without a usage block
/// count nothing.
#[derive(Debug)]
pub struct TokenBudget(pub u64);

/// A sum as far as the machine can hold it.
pub open spec fn capped_sum(a: u64, b: u64) -> u64 {
    if a + b <= u64::MAX {
        (a + b) as u64
    } else {
        u64::MAX
    }
}

/// `capped_sum`, computed.
fn add_capped(a: u64, b: u64) -> (r: u64)
    ensures
        r == capped_sum(a, b),
{
    if b <= u64::MAX - a {
        a + b
    } else {
        u64::MAX
    }
}

/// One count of a response's usage block.
pub open spec fn usage_count(value: JsonModel, key: Seq<char>) -> u64 {
    match get(value, "usage"@) {
        Some(usage) => match get(usage, key) {
            Some(v) => match whole(v) {
                Some(n) => n,
                None => 0,
            },
            None => 0,
        },
        None => 0,
    }
}

/// The tokens an event consumed, where it is a model call that succeeded.
pub open spec fn tokens_of(e: EventModel, contents: Contents) -> Option<u64> {
    if e.kind != EffectKind::Model {
        None
    } else {
        match outcome_at(contents, e.outcome) {
            Some(OutcomeModel::Success { value }) => Some(
                capped_sum(
                    usage_count(value, "input_tokens"@),
                    usage_count(value, "output_tokens"@),
                ),
            ),
            _ => None,
        }
    }
}

/// The tokens that some events consumed together.
pub open spec fn tokens_total(events: Seq<EventModel>, contents: Contents) -> u64
    decreases events.len(),
{
    if events.len() == 0 {
        0
    } else {
        let front = tokens_total(events.drop_last(), contents);
        match tokens_of(events.last(), contents) {
            Some(n) => capped_sum(front, n),
            None => front,
        }
    }
}

/// Where the tokens of some events first go over a budget.
pub open spec fn budget_breach(events: Seq<EventModel>, contents: Contents, budget: u64) -> Option<
    u64,
>
    decreases events.len(),
{
    if events.len() == 0 {
        None
    } else {
        match budget_breach(events.drop_last(), contents, budget) {
            Some(seq) => Some(seq),
            None => if tokens_of(events.last(), contents) is Some && tokens_total(events, contents)
                > budget {
                Some(events.last().seq)
            } else {
                None
            },
        }
    }
}

/// `usage_count`, read.
fn count_usage(value: &Json, key: &str) -> (r: u64)
    ensures
        r == usage_count(value@, key@),
{
    match value.get("usage") {
        Some(usage) => match usage.get(key) {
            Some(v) => match v.as_u64() {
                Some(n) => n,
                None => 0,
            },
            None => 0,
        },
        None => 0,
    }
}

/// `tokens_of`, read.
fn count_tokens<C: Cas>(event: &Event, cas: &C) -> (r: Option<u64>)
    ensures
        r == tokens_of(event@, cas.contents()),
{
    if event.kind != EffectKind::Model {
        return None;
    }
    match fetch_outcome(cas, &event.outcome) {
        Some(Outcome::Success { value }) => Some(
            add_capped(count_usage(&value, "input_tokens"), count_usage(&value, "output_tokens")),
        ),
        _ => None,
    }
}

/// The breach of a token budget.
pub open spec fn token_breaches(budget: u64, trace: TraceModel, contents: Contents) -> Seq<
    ViolationModel,
> {
    match budget_breach(trace.events, contents, budget) {
        Some(seq) => seq![
            ViolationModel {
                invariant: "token_budget"@,
                at_seq: Some(seq),
                detail: "run consumed "@ + decimal(
                    tokens_total(trace.events, contents) as nat,
                ) + " tokens, budget is "@ + decimal(budget as nat),
            },
        ],
        None => seq![],
    }
}

impl<C: Cas> Invariant<C> for TokenBudget {
    open spec fn title(&self) -> Seq<char> {
        "token_budget"@
    }

    open spec fn checkable(&self, trace: TraceModel, contents: Contents) -> bool {
        true
    }

    open spec fn breaches(&self, trace: TraceModel, contents: Contents) -> Seq<ViolationModel> {
        token_breaches(self.0, trace, contents)
    }

    fn name(&self) -> (r: &str) {
        "token_budget"
    }

    fn check(&self, trace: &Trace, cas: &C) -> (r: Vec<Violation>) {
        let ghost all = trace@.events;
        let ghost contents = cas.contents();
        let mut total: u64 = 0;
        let mut breached: Option<u64> = None;
        let mut i: usize = 0;
        assert(all.take(0) =~= seq![]);
        while i < trace.events.len()
            invariant
                i <= trace.events@.len(),
                all == views(trace.events@),
                contents == cas.contents(),
                total == tokens_total(all.take(i as int), contents),
                breached == budget_breach(all.take(i as int), contents, self.0),
            decreases trace.events@.len() - i,
        {
            let event = &trace.events[i];
            assert(all.take(i + 1).drop_last() =~= all.take(i as int));
            assert(all.take(i + 1).last() == event@);
            if let Some(n) = count_tokens(event, cas) {
                total = add_capped(total, n);
                if total > self.0 && breached.is_none() {
                    breached = Some(event.seq);
                }
            }
            i += 1;
        }
        assert(all.take(i as int) =~= all);
        match breached {
            Some(seq) => {
                let mut detail = "run consumed ".to_owned();
                detail.append(show(total).as_str());
                detail.append(" tokens, budget is ");
                detail.append(show(self.0).as_str());
                only_one(
                    Violation { invariant: "token_budget".to_owned(), at_seq: Some(seq), detail },
                )
            },
            None => nothing_found(),
        }
    }
}

/// Whether an event calls a tool of this name.
pub open spec fn calls(e: EventModel, tool: Seq<char>) -> bool {
    e.kind == EffectKind::Tool && e.name == tool
}

/// `calls`, decided.
fn is_call(event: &Event, tool: &str) -> (r: bool)
    ensures
        r == calls(event@, tool@),
{
    event.kind == EffectKind::Tool && same(event.name.as_str(), tool)
}

/// A tool is called at most so many times: a ceiling per tool, for the
/// runaway that a budget for the whole run is too coarse to see.
#[derive(Debug)]
pub struct MaxCalls {
    pub tool: String,
    pub max: usize,
}

/// How many of some events call a tool.
pub open spec fn call_count(events: Seq<EventModel>, tool: Seq<char>) -> nat
    decreases events.len(),
{
    if events.len() == 0 {
        0
    } else {
        call_count(events.drop_last(), tool) + if calls(events.last(), tool) {
            1nat
        } else {
            0nat
        }
    }
}

/// Where a tool is first called more often than it may be.
pub open spec fn first_excess(events: Seq<EventModel>, tool: Seq<char>, max: nat) -> Option<u64>
    decreases events.len(),
{
    if events.len() == 0 {
        None
    } else {
        match first_excess(events.drop_last(), tool, max) {
            Some(seq) => Some(seq),
            None => if calls(events.last(), tool) && call_count(events, tool) > max {
                Some(events.last().seq)
            } else {
                None
            },
        }
    }
}

/// The breach of a ceiling on the calls of a tool.
pub open spec fn excess_breaches(tool: Seq<char>, max: usize, trace: TraceModel) -> Seq<
    ViolationModel,
> {
    match first_excess(trace.events, tool, max as nat) {
        Some(seq) => seq![
            ViolationModel {
                invariant: "max_calls"@,
                at_seq: Some(seq),
                detail: "`"@ + tool + "` was called "@ + decimal(
                    call_count(trace.events, tool),
                ) + " times, limit is "@ + decimal(max as nat),
            },
        ],
        None => seq![],
    }
}

impl<C: Cas> Invariant<C> for MaxCalls {
    open spec fn title(&self) -> Seq<char> {
        "max_calls"@
    }

    open spec fn checkable(&self, trace: TraceModel, contents: Contents) -> bool {
        true
    }

    open spec fn breaches(&self, trace: TraceModel, contents: Contents) -> Seq<ViolationModel> {
        excess_breaches(self.tool@, self.max, trace)
    }

    fn name(&self) -> (r: &str) {
        "max_calls"
    }

    fn check(&self, trace: &Trace, cas: &C) -> (r: Vec<Violation>) {
        let ghost all = trace@.events;
        let mut count: usize = 0;
        let mut excess: Option<u64> = None;
        let mut i: usize = 0;
        assert(all.take(0) =~= seq![]);
        while i < trace.events.len()
            invariant
                i <= trace.events@.len(),
                all == views(trace.events@),
                count <= i,
                count == call_count(all.take(i as int), self.tool@),
                excess == first_excess(all.take(i as int), self.tool@, self.max as nat),
            decreases trace.events@.len() - i,
        {
            let event = &trace.events[i];
            assert(all.take(i + 1).drop_last() =~= all.take(i as int));
            assert(all.take(i + 1).last() == event@);
            if is_call(event, self.tool.as_str()) {
                count += 1;
                if count > self.max && excess.is_none() {
                    excess = Some(event.seq);
                }
            }
            i += 1;
        }
        assert(all.take(i as int) =~= all);
        match excess {
            Some(seq) => {
                let mut detail = "`".to_owned();
                detail.append(self.tool.as_str());
                detail.append("` was called ");
                detail.append(show_size(count).as_str());
                detail.append(" times, limit is ");
                detail.append(show_size(self.max).as_str());
                only_one(
                    Violation { invariant: "max_calls".to_owned(), at_seq: Some(seq), detail },
                )
            },
            None => nothing_found(),
        }
    }
}

// ---------------------------------------------------------------------------
// Order and company
// ---------------------------------------------------------------------------

/// After one tool fails, another must not be called. A later success of the
/// first lifts the ban.
#[derive(Debug)]
pub struct NeverAfterFailure {
    pub tool: String,
    pub after: String,
}

/// Whether the agent saw an event fail.
pub open spec fn seen_failing(e: EventModel, contents: Contents) -> bool {
    outcome_at(contents, e.outcome) matches Some(OutcomeModel::Failure { .. })
}

/// Whether the agent saw an event succeed.
pub open spec fn seen_working(e: EventModel, contents: Contents) -> bool {
    outcome_at(contents, e.outcome) matches Some(OutcomeModel::Success { .. })
}

/// Where the latest attempt of a tool failed, if it did.
pub open spec fn failed_at(events: Seq<EventModel>, contents: Contents, tool: Seq<char>) -> Option<
    u64,
>
    decreases events.len(),
{
    if events.len() == 0 {
        None
    } else {
        let e = events.last();
        if calls(e, tool) && seen_failing(e, contents) {
            Some(e.seq)
        } else if calls(e, tool) && seen_working(e, contents) {
            None
        } else {
            failed_at(events.drop_last(), contents, tool)
        }
    }
}

/// The violations among some events: each call that follows a failure it must
/// not follow.
pub open spec fn after_failures(
    events: Seq<EventModel>,
    contents: Contents,
    tool: Seq<char>,
    after: Seq<char>,
) -> Seq<ViolationModel>
    decreases events.len(),
{
    if events.len() == 0 {
        seq![]
    } else {
        let front = events.drop_last();
        let earlier = after_failures(front, contents, tool, after);
        let e = events.last();
        match failed_at(front, contents, after) {
            Some(failed) => if calls(e, tool) {
                earlier.push(
                    ViolationModel {
                        invariant: "never_after_failure"@,
                        at_seq: Some(e.seq),
                        detail: "`"@ + tool + "` was called after `"@ + after + "` failed at #"@
                            + decimal(failed as nat),
                    },
                )
            } else {
                earlier
            },
            None => earlier,
        }
    }
}

impl<C: Cas> Invariant<C> for NeverAfterFailure {
    open spec fn title(&self) -> Seq<char> {
        "never_after_failure"@
    }

    open spec fn checkable(&self, trace: TraceModel, contents: Contents) -> bool {
        true
    }

    open spec fn breaches(&self, trace: TraceModel, contents: Contents) -> Seq<ViolationModel> {
        after_failures(trace.events, contents, self.tool@, self.after@)
    }

    fn name(&self) -> (r: &str) {
        "never_after_failure"
    }

    fn check(&self, trace: &Trace, cas: &C) -> (r: Vec<Violation>) {
        let ghost all = trace@.events;
        let ghost contents = cas.contents();
        let mut failed: Option<u64> = None;
        let mut out = nothing_found();
        let mut i: usize = 0;
        assert(all.take(0) =~= seq![]);
        while i < trace.events.len()
            invariant
                i <= trace.events@.len(),
                all == views(trace.events@),
                contents == cas.contents(),
                failed == failed_at(all.take(i as int), contents, self.after@),
                views(out@) == after_failures(
                    all.take(i as int),
                    contents,
                    self.tool@,
                    self.after@,
                ),
            decreases trace.events@.len() - i,
        {
            let event = &trace.events[i];
            let ghost before = out@;
            assert(all.take(i + 1).drop_last() =~= all.take(i as int));
            assert(all.take(i + 1).last() == event@);
            if is_call(event, self.tool.as_str()) {
                if let Some(seq) = failed {
                    let mut detail = "`".to_owned();
                    detail.append(self.tool.as_str());
                    detail.append("` was called after `");
                    detail.append(self.after.as_str());
                    detail.append("` failed at #");
                    detail.append(show(seq).as_str());
                    out.push(
                        Violation {
                            invariant: "never_after_failure".to_owned(),
                            at_seq: Some(event.seq),
                            detail,
                        },
                    );
                    assert(views(out@) =~= views(before).push(out@[before.len() as int]@));
                }
            }
            if is_call(event, self.after.as_str()) {
                match fetch_outcome(cas, &event.outcome) {
                    Some(Outcome::Failure { .. }) => {
                        failed = Some(event.seq);
                    },
                    Some(Outcome::Success { .. }) => {
                        failed = None;
                    },
                    None => {},
                }
            }
            i += 1;
        }
        assert(all.take(i as int) =~= all);
        out
    }
}

/// If one tool takes effect, another must too.
#[derive(Debug)]
pub struct Requires {
    pub tool: String,
    pub then: String,
}

impl Requires {
    /// The tool that must take effect too.
    pub open spec fn companion(&self) -> Seq<char> {
        match *self {
            Requires { tool, then } => then@,
        }
    }

    /// The tool that must take effect too.
    fn companion_name(&self) -> (r: &str)
        ensures
            r@ == self.companion(),
    {
        match self {
            Requires { tool, then } => then.as_str(),
        }
    }
}

/// Where a tool first took effect for certain.
pub open spec fn first_effect(
    events: Seq<EventModel>,
    contents: Contents,
    tool: Seq<char>,
) -> Option<u64>
    decreases events.len(),
{
    if events.len() == 0 {
        None
    } else {
        match first_effect(events.drop_last(), contents, tool) {
            Some(seq) => Some(seq),
            None => if calls(events.last(), tool) && landing_of(events.last(), contents)
                == Landing::Yes {
                Some(events.last().seq)
            } else {
                None
            },
        }
    }
}

/// Whether a tool may have taken effect among some events.
pub open spec fn may_have_landed(
    events: Seq<EventModel>,
    contents: Contents,
    tool: Seq<char>,
) -> bool {
    exists|i: int|
        0 <= i < events.len() && calls(#[trigger] events[i], tool) && landing_of(
            events[i],
            contents,
        ) != Landing::No
}

/// The breach that one tool took effect without another.
pub open spec fn company_breaches(
    tool: Seq<char>,
    companion: Seq<char>,
    trace: TraceModel,
    contents: Contents,
) -> Seq<ViolationModel> {
    match first_effect(trace.events, contents, tool) {
        Some(seq) => if may_have_landed(trace.events, contents, companion) {
            seq![]
        } else {
            seq![
                ViolationModel {
                    invariant: "requires"@,
                    at_seq: Some(seq),
                    detail: "`"@ + tool + "` took effect but `"@ + companion
                        + "` never did"@,
                },
            ]
        },
        None => seq![],
    }
}

impl<C: Cas> Invariant<C> for Requires {
    open spec fn title(&self) -> Seq<char> {
        "requires"@
    }

    open spec fn checkable(&self, trace: TraceModel, contents: Contents) -> bool {
        true
    }

    open spec fn breaches(&self, trace: TraceModel, contents: Contents) -> Seq<ViolationModel> {
        company_breaches(self.tool@, self.companion(), trace, contents)
    }

    fn name(&self) -> (r: &str) {
        "requires"
    }

    fn check(&self, trace: &Trace, cas: &C) -> (r: Vec<Violation>) {
        let ghost all = trace@.events;
        let ghost contents = cas.contents();
        let mut effect: Option<u64> = None;
        let mut company: bool = false;
        let mut i: usize = 0;
        assert(all.take(0) =~= seq![]);
        while i < trace.events.len()
            invariant
                i <= trace.events@.len(),
                all == views(trace.events@),
                contents == cas.contents(),
                effect == first_effect(all.take(i as int), contents, self.tool@),
                company == exists|k: int|
                    0 <= k < i && calls(#[trigger] all[k], self.companion()) && landing_of(
                        all[k],
                        contents,
                    ) != Landing::No,
            decreases trace.events@.len() - i,
        {
            let event = &trace.events[i];
            assert(all.take(i + 1).drop_last() =~= all.take(i as int));
            assert(all.take(i + 1).last() == event@);
            assert(all[i as int] == event@);
            if is_call(event, self.tool.as_str()) && effect.is_none() {
                if landing(event, cas) == Landing::Yes {
                    effect = Some(event.seq);
                }
            }
            if is_call(event, self.companion_name()) {
                if landing(event, cas) != Landing::No {
                    company = true;
                }
            }
            i += 1;
        }
        assert(all.take(i as int) =~= all);
        match effect {
            Some(seq) => {
                if company {
                    nothing_found()
                } else {
                    let mut detail = "`".to_owned();
                    detail.append(self.tool.as_str());
                    detail.append("` took effect but `");
                    detail.append(self.companion_name());
                    detail.append("` never did");
                    only_one(
                        Violation { invariant: "requires".to_owned(), at_seq: Some(seq), detail },
                    )
                }
            },
            None => nothing_found(),
        }
    }
}

// ---------------------------------------------------------------------------
// All of them
// ---------------------------------------------------------------------------

impl<C: Cas> Invariant<C> for Box<dyn Invariant<C>> {
    open spec fn title(&self) -> Seq<char> {
        (**self).title()
    }

    open spec fn checkable(&self, trace: TraceModel, contents: Contents) -> bool {
        (**self).checkable(trace, contents)
    }

    open spec fn breaches(&self, trace: TraceModel, contents: Contents) -> Seq<ViolationModel> {
        (**self).breaches(trace, contents)
    }

    fn name(&self) -> (r: &str) {
        (**self).name()
    }

    fn check(&self, trace: &Trace, cas: &C) -> (r: Vec<Violation>) {
        (**self).check(trace, cas)
    }
}

/// Every breach of every invariant, in the order of the list.
pub open spec fn all_breaches<C: Cas, I: Invariant<C>>(
    invariants: Seq<I>,
    trace: TraceModel,
    contents: Contents,
) -> Seq<ViolationModel>
    decreases invariants.len(),
{
    if invariants.len() == 0 {
        seq![]
    } else {
        all_breaches::<C, I>(invariants.drop_last(), trace, contents) + invariants.last().breaches(
            trace,
            contents,
        )
    }
}

/// Whether every invariant of a list can be checked on a run.
pub open spec fn all_checkable<C: Cas, I: Invariant<C>>(
    invariants: Seq<I>,
    trace: TraceModel,
    contents: Contents,
) -> bool {
    forall|i: int|
        0 <= i < invariants.len() ==> (#[trigger] invariants[i]).checkable(trace, contents)
}

/// Check a run against a set of invariants.
pub fn check_all<C: Cas, I: Invariant<C>>(
    trace: &Trace,
    cas: &C,
    invariants: &Vec<I>,
) -> (r: Vec<Violation>)
    requires
        all_checkable::<C, I>(invariants@, trace@, cas.contents()),
    ensures
        views(r@) == all_breaches::<C, I>(invariants@, trace@, cas.contents()),
{
    let mut out = nothing_found();
    let mut i: usize = 0;
    assert(invariants@.take(0) =~= seq![]);
    while i < invariants.len()
        invariant
            i <= invariants@.len(),
            all_checkable::<C, I>(invariants@, trace@, cas.contents()),
            views(out@) == all_breaches::<C, I>(invariants@.take(i as int), trace@, cas.contents()),
        decreases invariants@.len() - i,
    {
        let ghost before = out@;
        assert(invariants@.take(i + 1).drop_last() =~= invariants@.take(i as int));
        assert(invariants@[i as int].checkable(trace@, cas.contents()));
        let mut more = invariants[i].check(trace, cas);
        let ghost added = more@;
        out.append(&mut more);
        assert(views(out@) =~= views(before) + views(added));
        i += 1;
    }
    assert(invariants@.take(i as int) =~= invariants@);
    out
}

} // verus!
