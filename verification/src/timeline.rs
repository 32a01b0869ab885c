//! Runs as documents for a timeline.
//!
//! A viewer shows a run with its payloads beside each effect, forks it under
//! faults, and searches for a schedule that breaks it. It shows what the
//! engine does, because it is the engine that does it.

use crate::cas::{fetch, found, keeps, Cas, Contents};
use crate::certificate::{violations_json, write_violations};
use crate::event::{kind_name, Event, EventModel};
use crate::explore::{
    checkable_on_branches, lemma_find_wider, may_end, may_find, may_minimise, may_replay,
    minimise, replay_under, search, Asking, Finding,
};
use crate::fault::{description, FaultSchedule, PointModel};
use crate::hash::{has_short, short_of, Digest};
use crate::invariants::{
    all_breaches, check_all, identities_shown, Invariant, Violation, ViolationModel,
};
use crate::json::{items_of, json_read, ordered, printed, reason, tidy, Json, JsonModel};
use crate::model::views;
use crate::record::{
    lemma_lookup_put, lemma_tidy_put, no_fields, number, put, put_field, schedule_from,
    schedule_json, Fields,
};
use crate::replay::Effects;
use crate::replayer::{branch_of, result_of, ReplayState, Replayer, Step};
use crate::shrink::Shrunk;
use crate::testkit::Style;
use crate::text::same;
use crate::trace::{faultable_positions, Trace, TraceModel};
use vstd::prelude::*;
use vstd::utf8::encode_utf8;

verus! {

// ---------------------------------------------------------------------------
// Events
// ---------------------------------------------------------------------------

/// The payload under a digest, or `null` where there is none.
pub open spec fn payload_at(contents: Contents, digest: Seq<char>) -> JsonModel {
    match found(contents, digest) {
        Some(bytes) => match json_read(bytes) {
            Some(m) => ordered(m),
            None => JsonModel::Null,
        },
        None => JsonModel::Null,
    }
}

/// The payload under a digest, or `null` where there is none.
pub fn payload<C: Cas>(cas: &C, digest: &Digest) -> (r: Json)
    ensures
        r@ == payload_at(cas.contents(), digest@),
{
    match fetch(cas, digest) {
        Some(bytes) => match Json::parse(bytes.as_slice()) {
            Some(json) => json,
            None => Json::Null,
        },
        None => Json::Null,
    }
}

/// What a fault hid, or `null` where it hid nothing.
pub open spec fn shadow_json(e: EventModel, contents: Contents) -> JsonModel {
    match e.shadow {
        Some(d) => payload_at(contents, d),
        None => JsonModel::Null,
    }
}

/// The label of an event's fault, or `null`.
pub open spec fn fault_label_json(e: EventModel) -> JsonModel {
    match e.fault {
        Some(f) => JsonModel::Text(crate::fault::label_of(f)),
        None => JsonModel::Null,
    }
}

/// The fields that show an event, with its payloads.
pub open spec fn event_view_fields(e: EventModel, contents: Contents) -> Fields {
    let f1 = put(seq![], "seq"@, number(e.seq));
    let f2 = put(f1, "kind"@, JsonModel::Text(kind_name(e.kind)));
    let f3 = put(f2, "name"@, JsonModel::Text(e.name));
    let f4 = put(f3, "identity"@, JsonModel::Text(e.identity));
    let f5 = put(f4, "id_short"@, JsonModel::Text(short_of(e.identity)));
    let f6 = put(f5, "request"@, payload_at(contents, e.request));
    let f7 = put(f6, "outcome"@, payload_at(contents, e.outcome));
    let f8 = put(f7, "shadow"@, shadow_json(e, contents));
    let f9 = put(f8, "fault"@, fault_label_json(e));
    put(f9, "logical_time"@, number(e.logical_time))
}

/// An event with its payloads.
pub open spec fn event_view(e: EventModel, contents: Contents) -> JsonModel {
    JsonModel::Object(event_view_fields(e, contents))
}

/// Events with their payloads.
pub open spec fn event_views(events: Seq<EventModel>, contents: Contents) -> JsonModel {
    JsonModel::Array(Seq::new(events.len(), |i: int| event_view(events[i], contents)))
}

/// Positions as a document.
pub open spec fn positions_json(list: Seq<u64>) -> JsonModel {
    JsonModel::Array(Seq::new(list.len(), |i: int| number(list[i])))
}

/// Stands for each key, so that different keys have different numbers.
spec fn view_key(key: Seq<char>) -> int {
    key.len() * 0x100_0000 + key[2] as int
}

proof fn lemma_view_keys()
    ensures
        view_key("seq"@) == 3 * 0x100_0000 + 'q' as int,
        view_key("kind"@) == 4 * 0x100_0000 + 'n' as int,
        view_key("name"@) == 4 * 0x100_0000 + 'm' as int,
        view_key("identity"@) == 8 * 0x100_0000 + 'e' as int,
        view_key("id_short"@) == 8 * 0x100_0000 + '_' as int,
        view_key("request"@) == 7 * 0x100_0000 + 'q' as int,
        view_key("outcome"@) == 7 * 0x100_0000 + 't' as int,
        view_key("shadow"@) == 6 * 0x100_0000 + 'a' as int,
        view_key("fault"@) == 5 * 0x100_0000 + 'u' as int,
        view_key("logical_time"@) == 12 * 0x100_0000 + 'g' as int,
{
    reveal_strlit("seq");
    reveal_strlit("kind");
    reveal_strlit("name");
    reveal_strlit("identity");
    reveal_strlit("id_short");
    reveal_strlit("request");
    reveal_strlit("outcome");
    reveal_strlit("shadow");
    reveal_strlit("fault");
    reveal_strlit("logical_time");
}

proof fn lemma_payload_tidy(contents: Contents, digest: Seq<char>)
    ensures
        tidy(payload_at(contents, digest)),
{
    if let Some(bytes) = found(contents, digest) {
        if let Some(m) = json_read(bytes) {
            crate::json::lemma_ordered_tidy(m);
        }
    }
}

proof fn lemma_event_view_tidy(e: EventModel, contents: Contents)
    ensures
        tidy(event_view(e, contents)),
{
    broadcast use lemma_lookup_put;

    lemma_view_keys();
    lemma_payload_tidy(contents, e.request);
    lemma_payload_tidy(contents, e.outcome);
    if e.shadow is Some {
        lemma_payload_tidy(contents, e.shadow->0);
    }
    let f0 = Seq::<(Seq<char>, JsonModel)>::empty();
    let f1 = put(f0, "seq"@, number(e.seq));
    let f2 = put(f1, "kind"@, JsonModel::Text(kind_name(e.kind)));
    let f3 = put(f2, "name"@, JsonModel::Text(e.name));
    let f4 = put(f3, "identity"@, JsonModel::Text(e.identity));
    let f5 = put(f4, "id_short"@, JsonModel::Text(short_of(e.identity)));
    let f6 = put(f5, "request"@, payload_at(contents, e.request));
    let f7 = put(f6, "outcome"@, payload_at(contents, e.outcome));
    let f8 = put(f7, "shadow"@, shadow_json(e, contents));
    let f9 = put(f8, "fault"@, fault_label_json(e));
    lemma_tidy_put(f0, "seq"@, number(e.seq));
    lemma_tidy_put(f1, "kind"@, JsonModel::Text(kind_name(e.kind)));
    lemma_tidy_put(f2, "name"@, JsonModel::Text(e.name));
    lemma_tidy_put(f3, "identity"@, JsonModel::Text(e.identity));
    lemma_tidy_put(f4, "id_short"@, JsonModel::Text(short_of(e.identity)));
    lemma_tidy_put(f5, "request"@, payload_at(contents, e.request));
    lemma_tidy_put(f6, "outcome"@, payload_at(contents, e.outcome));
    lemma_tidy_put(f7, "shadow"@, shadow_json(e, contents));
    lemma_tidy_put(f8, "fault"@, fault_label_json(e));
    lemma_tidy_put(f9, "logical_time"@, number(e.logical_time));
}

/// An event with its payloads.
fn view_event<C: Cas>(event: &Event, cas: &C) -> (r: Json)
    requires
        has_short(event@.identity),
    ensures
        r@ == event_view(event@, cas.contents()),
{
    let mut fields = no_fields();
    put_field(&mut fields, "seq", Json::whole(event.seq));
    put_field(&mut fields, "kind", Json::text(event.kind.as_str()));
    put_field(&mut fields, "name", Json::text(event.name.as_str()));
    put_field(&mut fields, "identity", Json::text(event.identity.as_str()));
    put_field(&mut fields, "id_short", Json::text(event.identity.short()));
    put_field(&mut fields, "request", payload(cas, &event.request));
    put_field(&mut fields, "outcome", payload(cas, &event.outcome));
    let shadow = match &event.shadow {
        Some(d) => payload(cas, d),
        None => Json::Null,
    };
    put_field(&mut fields, "shadow", shadow);
    let label = match &event.fault {
        Some(f) => Json::text(f.label().as_str()),
        None => Json::Null,
    };
    put_field(&mut fields, "fault", label);
    put_field(&mut fields, "logical_time", Json::whole(event.logical_time));
    Json::object(fields)
}

// ---------------------------------------------------------------------------
// Runs
// ---------------------------------------------------------------------------

/// The fields that show a run.
pub open spec fn run_view_fields(
    t: TraceModel,
    contents: Contents,
    violations: Seq<ViolationModel>,
    holes: nat,
) -> Fields {
    let f1 = put(seq![], "events"@, event_views(t.events, contents));
    let f2 = put(f1, "violations"@, violations_json(violations));
    let f3 = put(f2, "holes"@, number(holes as u64));
    put(f3, "faultable"@, positions_json(faultable_positions(t.events)))
}

/// A run with what it broke, and where a fault can be attached.
pub open spec fn run_view(
    t: TraceModel,
    contents: Contents,
    violations: Seq<ViolationModel>,
    holes: nat,
) -> JsonModel {
    JsonModel::Object(run_view_fields(t, contents, violations, holes))
}

/// Stands for each key, so that different keys have different numbers.
spec fn run_key(key: Seq<char>) -> int {
    key.len() * 0x100_0000 + key[0] as int
}

proof fn lemma_run_keys()
    ensures
        run_key("events"@) == 6 * 0x100_0000 + 'e' as int,
        run_key("violations"@) == 10 * 0x100_0000 + 'v' as int,
        run_key("holes"@) == 5 * 0x100_0000 + 'h' as int,
        run_key("faultable"@) == 9 * 0x100_0000 + 'f' as int,
{
    reveal_strlit("events");
    reveal_strlit("violations");
    reveal_strlit("holes");
    reveal_strlit("faultable");
}

proof fn lemma_run_tidy(
    t: TraceModel,
    contents: Contents,
    violations: Seq<ViolationModel>,
    holes: nat,
)
    ensures
        tidy(run_view(t, contents, violations, holes)),
{
    broadcast use lemma_lookup_put;

    lemma_run_keys();
    let shown = event_views(t.events, contents)->Array_0;
    assert forall|i: int| 0 <= i < shown.len() implies tidy(#[trigger] shown[i]) by {
        lemma_event_view_tidy(t.events[i], contents);
    }
    crate::certificate::lemma_violations_back(violations);
    let spots = positions_json(faultable_positions(t.events))->Array_0;
    assert forall|i: int| 0 <= i < spots.len() implies tidy(#[trigger] spots[i]) by {}
    assert(tidy(positions_json(faultable_positions(t.events))));
    let f0 = Seq::<(Seq<char>, JsonModel)>::empty();
    let f1 = put(f0, "events"@, event_views(t.events, contents));
    let f2 = put(f1, "violations"@, violations_json(violations));
    let f3 = put(f2, "holes"@, number(holes as u64));
    lemma_tidy_put(f0, "events"@, event_views(t.events, contents));
    lemma_tidy_put(f1, "violations"@, violations_json(violations));
    lemma_tidy_put(f2, "holes"@, number(holes as u64));
    lemma_tidy_put(f3, "faultable"@, positions_json(faultable_positions(t.events)));
}

/// Positions as a document.
fn write_positions(list: &Vec<u64>) -> (r: Json)
    ensures
        r@ == positions_json(list@),
{
    let mut items: Vec<Json> = Vec::new();
    let mut i: usize = 0;
    while i < list.len()
        invariant
            i <= list@.len(),
            items@.len() == i,
            forall|k: int| 0 <= k < i ==> (#[trigger] items@[k])@ == number(list@[k]),
        decreases list@.len() - i,
    {
        items.push(Json::whole(list[i]));
        i += 1;
    }
    assert(items_of(items@) =~= positions_json(list@)->Array_0);
    Json::array(items)
}

/// A run with what it broke, as text.
pub fn show_run<C: Cas>(trace: &Trace, cas: &C, violations: &Vec<Violation>, holes: usize) -> (r:
    String)
    requires
        identities_shown(trace@),
    ensures
        r@ == printed(run_view(trace@, cas.contents(), views(violations@), holes as nat)),
{
    let ghost contents = cas.contents();
    let mut items: Vec<Json> = Vec::new();
    let mut i: usize = 0;
    while i < trace.events.len()
        invariant
            i <= trace.events@.len(),
            contents == cas.contents(),
            identities_shown(trace@),
            items@.len() == i,
            forall|k: int|
                0 <= k < i ==> (#[trigger] items@[k])@ == event_view(trace@.events[k], contents),
        decreases trace.events@.len() - i,
    {
        assert(trace@.events[i as int] == trace.events@[i as int]@);
        items.push(view_event(&trace.events[i], cas));
        i += 1;
    }
    assert(items_of(items@) =~= event_views(trace@.events, contents)->Array_0);
    let mut fields = no_fields();
    put_field(&mut fields, "events", Json::array(items));
    put_field(&mut fields, "violations", write_violations(violations));
    put_field(&mut fields, "holes", Json::whole(holes as u64));
    put_field(&mut fields, "faultable", write_positions(&trace.faultable()));
    proof {
        lemma_run_tidy(trace@, contents, views(violations@), holes as nat);
    }
    Json::object(fields).print()
}

/// What went wrong, as a document.
pub open spec fn error_json(message: Seq<char>) -> JsonModel {
    JsonModel::Object(put(seq![], "error"@, JsonModel::Text(message)))
}

/// What went wrong, as text.
fn show_error(message: &str) -> (r: String)
    ensures
        r@ == printed(error_json(message@)),
{
    broadcast use lemma_lookup_put;

    let mut fields = no_fields();
    put_field(&mut fields, "error", Json::text(message));
    proof {
        lemma_tidy_put(
            Seq::<(Seq<char>, JsonModel)>::empty(),
            "error"@,
            JsonModel::Text(message@),
        );
    }
    Json::object(fields).print()
}

/// The schedule that a text describes.
pub open spec fn schedule_read(text: Seq<char>) -> Option<Seq<PointModel>> {
    match json_read(encode_utf8(text)) {
        Some(m) => schedule_from(m),
        None => None,
    }
}

/// Why a text describes no schedule.
pub open spec fn schedule_trouble(text: Seq<char>) -> Seq<char> {
    reason(encode_utf8(text), "expected a fault schedule"@)
}

/// The schedule that a text describes, or why it describes none.
pub fn read_schedule(text: &str) -> (r: Result<FaultSchedule, String>)
    ensures
        match r {
            Ok(schedule) => schedule_read(text@) == Some(schedule@),
            Err(trouble) => schedule_read(text@) is None && trouble@ == schedule_trouble(text@),
        },
{
    match Json::try_read(text.as_bytes()) {
        Ok(json) => match FaultSchedule::from_json(&json) {
            Some(schedule) => Ok(schedule),
            None => Err("expected a fault schedule".to_owned()),
        },
        Err(trouble) => Err(trouble),
    }
}

/// A schedule as text.
pub fn show_schedule(schedule: &FaultSchedule) -> (r: String)
    ensures
        r@ == printed(schedule_json(schedule@)),
        schedule_read(r@) == Some(schedule@),
{
    proof {
        crate::record::lemma_schedule_back(schedule@);
        crate::json::lemma_exact_grows(
            schedule_json(schedule@),
            5,
            crate::json::depth_limit(),
        );
    }
    schedule.to_json().print()
}

/// Whether a replay of a run under a schedule may be shown so.
pub open spec fn may_fork<C: Cas, I: Invariant<C>>(
    trace: TraceModel,
    before: Contents,
    points: Seq<PointModel>,
    invariants: Seq<I>,
    shown: Seq<char>,
    asks: Asking,
) -> bool {
    exists|end: ReplayState|
        {
            let branch = branch_of(end, "counterfactual"@);
            &&& #[trigger] may_end(trace, before, points, end, asks)
            &&& shown == printed(
                run_view(
                    branch,
                    end.contents,
                    all_breaches::<C, I>(invariants, branch, end.contents),
                    end.holes.len(),
                ),
            )
        }
}

/// Replay a run under a schedule, and show the run that results.
fn show_branch<C, I, F>(
    trace: &Trace,
    cas: &mut C,
    schedule: FaultSchedule,
    invariants: &Vec<I>,
    drive: &mut F,
) -> (r: String) where C: Cas, I: Invariant<C>, F: FnMut(&mut Replayer<'_, C>)
    requires
        old(cas).works(),
        checkable_on_branches::<C, I>(invariants@),
        forall|x: &mut Replayer<'_, C>|
            (*x).ready() ==> #[trigger] call_requires(*old(drive), (x,)),
        forall|x: &mut Replayer<'_, C>| #[trigger]
            call_ensures(*old(drive), (x,), ()) ==> {
                &&& (*final(x)).ready()
                &&& (*final(x)).start == (*x).start
                &&& *final((*final(x)).cas) == *final((*x).cas)
            },
    ensures
        final(cas).works(),
        keeps(old(cas).contents(), final(cas).contents()),
        forall|asks: Asking|
            (forall|x: &mut Replayer<'_, C>| #[trigger]
                call_ensures(*old(drive), (x,), ()) && (*x).ready() && (*x).steps@.len() == 0
                    ==> asks.contains(((*x).start@, (*final(x)).steps@))) ==> #[trigger] may_fork::<C, I>(
                trace@,
                old(cas).contents(),
                schedule@,
                invariants@,
                r@,
                asks,
            ),
{
    let ghost held = cas.contents();
    let ghost points = schedule@;
    let result = replay_under(trace, cas, schedule, "counterfactual", drive);
    let violations = check_all(&result.branch, cas, invariants);
    let out = show_run(&result.branch, cas, &violations, result.holes.len());
    proof {
        assert(views(result.holes@).len() == result.holes@.len());
        assert forall|asks: Asking|
            (forall|x: &mut Replayer<'_, C>| #[trigger]
                call_ensures(*old(drive), (x,), ()) && (*x).ready() && (*x).steps@.len() == 0
                    ==> asks.contains(((*x).start@, (*final(x)).steps@))) implies #[trigger] may_fork::<C, I>(
            trace@,
            held,
            points,
            invariants@,
            out@,
            asks,
        ) by {
            assert(may_replay(
                trace@,
                held,
                points,
                "counterfactual"@,
                result@,
                cas.contents(),
                asks,
            ));
            let end = choose|end: ReplayState| #[trigger]
                may_end(trace@, held, points, end, asks) && result@ == result_of(
                    end,
                    "counterfactual"@,
                ) && cas.contents() == end.contents;
            assert(may_end(trace@, held, points, end, asks));
        }
    }
    out
}

/// Replay a run under a schedule that is given as text, and show the run that
/// results.
pub fn fork<C, I, F>(
    trace: &Trace,
    cas: &mut C,
    schedule: &str,
    invariants: &Vec<I>,
    drive: F,
) -> (r: String) where C: Cas, I: Invariant<C>, F: FnMut(&mut Replayer<'_, C>)
    requires
        old(cas).works(),
        checkable_on_branches::<C, I>(invariants@),
        forall|x: &mut Replayer<'_, C>|
            (*x).ready() ==> #[trigger] call_requires(drive, (x,)),
        forall|x: &mut Replayer<'_, C>| #[trigger]
            call_ensures(drive, (x,), ()) ==> {
                &&& (*final(x)).ready()
                &&& (*final(x)).start == (*x).start
                &&& *final((*final(x)).cas) == *final((*x).cas)
            },
    ensures
        final(cas).works(),
        keeps(old(cas).contents(), final(cas).contents()),
        match schedule_read(schedule@) {
            None => r@ == printed(error_json(schedule_trouble(schedule@)))
                && final(cas).contents() == old(cas).contents(),
            Some(points) => exists|asks: Asking|
                {
                    &&& #[trigger] may_fork::<C, I>(
                        trace@,
                        old(cas).contents(),
                        points,
                        invariants@,
                        r@,
                        asks,
                    )
                    &&& forall|p: (ReplayState, Seq<Step>)| #[trigger]
                        asks.contains(p) <==> exists|x: &mut Replayer<'_, C>| #[trigger]
                            call_ensures(drive, (x,), ()) && (*x).ready() && (*x).start@ == p.0
                                && (*x).steps@.len() == 0 && (*final(x)).steps@ == p.1
                },
        },
{
    let ghost asks = Set::new(
        |p: (ReplayState, Seq<Step>)|
            exists|x: &mut Replayer<'_, C>| #[trigger]
                call_ensures(drive, (x,), ()) && (*x).ready() && (*x).start@ == p.0
                    && (*x).steps@.len() == 0 && (*final(x)).steps@ == p.1,
    );
    let mut drive = drive;
    match read_schedule(schedule) {
        Ok(points) => {
            let ghost held = cas.contents();
            let ghost asked = points@;
            let out = show_branch(trace, cas, points, invariants, &mut drive);
            proof {
                let read = schedule_read(schedule@);
                assert(read == Some(asked));
                assert(may_fork::<C, I>(trace@, held, read->0, invariants@, out@, asks));
            }
            out
        },
        Err(trouble) => show_error(trouble.as_str()),
    }
}

// ---------------------------------------------------------------------------
// Findings
// ---------------------------------------------------------------------------

/// The fields that show a finding, and what it was minimised to.
pub open spec fn finding_view_fields(f: Finding, s: Shrunk) -> Fields {
    let f1 = put(seq![], "seed"@, number(f.seed));
    let f2 = put(f1, "schedule"@, schedule_json(f.schedule@));
    let f3 = put(f2, "description"@, JsonModel::Text(description(f.schedule@)));
    let f4 = put(f3, "violations"@, violations_json(views(f.violations@)));
    let f5 = put(f4, "shrunk"@, schedule_json(s.schedule@));
    let f6 = put(f5, "shrunk_description"@, JsonModel::Text(description(s.schedule@)));
    let f7 = put(f6, "evaluations"@, number(s.evaluations as u64));
    put(f7, "started_with"@, number(s.started_with as u64))
}

/// A finding, and what it was minimised to.
pub open spec fn finding_view(f: Finding, s: Shrunk) -> JsonModel {
    JsonModel::Object(finding_view_fields(f, s))
}

/// Stands for each key, so that different keys have different numbers.
spec fn finding_key(key: Seq<char>) -> int {
    key.len() * 0x100_0000 + key[0] as int
}

proof fn lemma_finding_keys()
    ensures
        finding_key("seed"@) == 4 * 0x100_0000 + 's' as int,
        finding_key("schedule"@) == 8 * 0x100_0000 + 's' as int,
        finding_key("description"@) == 11 * 0x100_0000 + 'd' as int,
        finding_key("violations"@) == 10 * 0x100_0000 + 'v' as int,
        finding_key("shrunk"@) == 6 * 0x100_0000 + 's' as int,
        finding_key("shrunk_description"@) == 18 * 0x100_0000 + 's' as int,
        finding_key("evaluations"@) == 11 * 0x100_0000 + 'e' as int,
        finding_key("started_with"@) == 12 * 0x100_0000 + 's' as int,
{
    reveal_strlit("seed");
    reveal_strlit("schedule");
    reveal_strlit("description");
    reveal_strlit("violations");
    reveal_strlit("shrunk");
    reveal_strlit("shrunk_description");
    reveal_strlit("evaluations");
    reveal_strlit("started_with");
}

proof fn lemma_finding_tidy(f: Finding, s: Shrunk)
    ensures
        tidy(finding_view(f, s)),
{
    broadcast use lemma_lookup_put;

    lemma_finding_keys();
    crate::record::lemma_schedule_back(f.schedule@);
    crate::record::lemma_schedule_back(s.schedule@);
    crate::certificate::lemma_violations_back(views(f.violations@));
    let f0 = Seq::<(Seq<char>, JsonModel)>::empty();
    let f1 = put(f0, "seed"@, number(f.seed));
    let f2 = put(f1, "schedule"@, schedule_json(f.schedule@));
    let f3 = put(f2, "description"@, JsonModel::Text(description(f.schedule@)));
    let f4 = put(f3, "violations"@, violations_json(views(f.violations@)));
    let f5 = put(f4, "shrunk"@, schedule_json(s.schedule@));
    let f6 = put(f5, "shrunk_description"@, JsonModel::Text(description(s.schedule@)));
    let f7 = put(f6, "evaluations"@, number(s.evaluations as u64));
    lemma_tidy_put(f0, "seed"@, number(f.seed));
    lemma_tidy_put(f1, "schedule"@, schedule_json(f.schedule@));
    lemma_tidy_put(f2, "description"@, JsonModel::Text(description(f.schedule@)));
    lemma_tidy_put(f3, "violations"@, violations_json(views(f.violations@)));
    lemma_tidy_put(f4, "shrunk"@, schedule_json(s.schedule@));
    lemma_tidy_put(f5, "shrunk_description"@, JsonModel::Text(description(s.schedule@)));
    lemma_tidy_put(f6, "evaluations"@, number(s.evaluations as u64));
    lemma_tidy_put(f7, "started_with"@, number(s.started_with as u64));
}

/// A finding, and what it was minimised to, as text.
fn show_finding(f: &Finding, s: &Shrunk) -> (r: String)
    ensures
        r@ == printed(finding_view(*f, *s)),
{
    let mut fields = no_fields();
    put_field(&mut fields, "seed", Json::whole(f.seed));
    put_field(&mut fields, "schedule", f.schedule.to_json());
    put_field(&mut fields, "description", Json::text(f.schedule.describe().as_str()));
    put_field(&mut fields, "violations", write_violations(&f.violations));
    put_field(&mut fields, "shrunk", s.schedule.to_json());
    put_field(&mut fields, "shrunk_description", Json::text(s.schedule.describe().as_str()));
    put_field(&mut fields, "evaluations", Json::whole(s.evaluations as u64));
    put_field(&mut fields, "started_with", Json::whole(s.started_with as u64));
    proof {
        lemma_finding_tidy(*f, *s);
    }
    Json::object(fields).print()
}

/// Whether a search may be shown so.
pub open spec fn may_show<C: Cas, I: Invariant<C>>(
    trace: TraceModel,
    first: Contents,
    last: Contents,
    invariants: Seq<I>,
    found: Option<Finding>,
    shown: Seq<char>,
    asks: Asking,
) -> bool {
    match found {
        None => shown == "null"@,
        Some(f) => exists|later: Contents, s: Shrunk|
            keeps(first, later) && #[trigger] may_minimise::<C, I>(
                trace,
                later,
                last,
                invariants,
                f,
                s,
                asks,
            ) && shown == printed(finding_view(f, s)),
    }
}

/// Search seeds for a schedule that breaks an invariant, minimise it, and show
/// both: `null` where the agent survived every seed.
pub fn show_search<C, I, F>(
    trace: &Trace,
    cas: &mut C,
    seeds: u64,
    max_faults: usize,
    invariants: &Vec<I>,
    drive: F,
) -> (r: String) where C: Cas, I: Invariant<C>, F: FnMut(&mut Replayer<'_, C>) + Copy
    requires
        old(cas).works(),
        checkable_on_branches::<C, I>(invariants@),
        forall|x: &mut Replayer<'_, C>|
            (*x).ready() ==> #[trigger] call_requires(drive, (x,)),
        forall|x: &mut Replayer<'_, C>| #[trigger]
            call_ensures(drive, (x,), ()) ==> {
                &&& (*final(x)).ready()
                &&& (*final(x)).start == (*x).start
                &&& *final((*final(x)).cas) == *final((*x).cas)
            },
    ensures
        final(cas).works(),
        keeps(old(cas).contents(), final(cas).contents()),
        exists|found: Option<Finding>, asks: Asking, others: Asking|
            {
                &&& #[trigger] may_find::<C, I>(
                    trace@,
                    old(cas).contents(),
                    final(cas).contents(),
                    0,
                    seeds,
                    max_faults as nat,
                    invariants@,
                    found,
                    asks,
                )
                &&& #[trigger] may_show::<C, I>(
                    trace@,
                    old(cas).contents(),
                    final(cas).contents(),
                    invariants@,
                    found,
                    r@,
                    others,
                )
                &&& forall|p: (ReplayState, Seq<Step>)| #[trigger]
                    asks.contains(p) <==> exists|x: &mut Replayer<'_, C>| #[trigger]
                        call_ensures(drive, (x,), ()) && (*x).ready() && (*x).start@ == p.0
                            && (*x).steps@.len() == 0 && (*final(x)).steps@ == p.1
                &&& forall|p: (ReplayState, Seq<Step>)| #[trigger]
                    others.contains(p) <==> exists|x: &mut Replayer<'_, C>| #[trigger]
                        call_ensures(drive, (x,), ()) && (*x).ready() && (*x).start@ == p.0
                            && (*x).steps@.len() == 0 && (*final(x)).steps@ == p.1
            },
{
    let ghost asks = Set::new(
        |p: (ReplayState, Seq<Step>)|
            exists|x: &mut Replayer<'_, C>| #[trigger]
                call_ensures(drive, (x,), ()) && (*x).ready() && (*x).start@ == p.0
                    && (*x).steps@.len() == 0 && (*final(x)).steps@ == p.1,
    );
    let ghost first = cas.contents();
    let found = search(trace, cas, 0..seeds, max_faults, invariants, drive);
    match found {
        None => {
            let none = "null".to_owned();
            assert(may_show::<C, I>(
                trace@,
                first,
                cas.contents(),
                invariants@,
                found,
                none@,
                asks,
            ));
            none
        },
        Some(finding) => {
            let ghost later = cas.contents();
            let ghost whole = Some(finding);
            let shrunk = minimise(trace, cas, &finding, invariants, drive);
            let out = show_finding(&finding, &shrunk);
            proof {
                assert(whole->0 == finding);
                let others = choose|asks: Asking|
                    {
                        &&& #[trigger] may_minimise::<C, I>(
                            trace@,
                            later,
                            cas.contents(),
                            invariants@,
                            finding,
                            shrunk,
                            asks,
                        )
                        &&& forall|p: (ReplayState, Seq<Step>)| #[trigger]
                            asks.contains(p) <==> exists|x: &mut Replayer<'_, C>| #[trigger]
                                call_ensures(drive, (x,), ()) && (*x).ready() && (*x).start@ == p.0
                                    && (*x).steps@.len() == 0 && (*final(x)).steps@ == p.1
                    };
                assert(may_minimise::<C, I>(
                    trace@,
                    later,
                    cas.contents(),
                    invariants@,
                    whole->0,
                    shrunk,
                    others,
                ));
                assert(may_show::<C, I>(
                    trace@,
                    first,
                    cas.contents(),
                    invariants@,
                    whole,
                    out@,
                    others,
                ));
                let known = choose|asks: Asking|
                    {
                        &&& #[trigger] may_find::<C, I>(
                            trace@,
                            first,
                            later,
                            0,
                            seeds,
                            max_faults as nat,
                            invariants@,
                            whole,
                            asks,
                        )
                        &&& forall|p: (ReplayState, Seq<Step>)| #[trigger]
                            asks.contains(p) <==> exists|x: &mut Replayer<'_, C>| #[trigger]
                                call_ensures(drive, (x,), ()) && (*x).ready() && (*x).start@ == p.0
                                    && (*x).steps@.len() == 0 && (*final(x)).steps@ == p.1
                    };
                lemma_find_wider::<C, I>(
                    trace@,
                    first,
                    later,
                    cas.contents(),
                    0,
                    seeds,
                    max_faults as nat,
                    invariants@,
                    whole,
                    known,
                );
            }
            out
        },
    }
}

/// The schedule that a seed gives for a run, as text.
pub fn schedule_for_seed(trace: &Trace, seed: u64, max_faults: usize) -> (r: String)
    ensures
        r@ == printed(
            schedule_json(
                crate::fault::generated(
                    seed,
                    faultable_positions(trace@.events),
                    max_faults as nat,
                ),
            ),
        ),
{
    let eligible = trace.faultable();
    show_schedule(&FaultSchedule::generate(seed, &eligible, max_faults))
}

/// The style of agent that a word names.
pub fn style_named(word: &str) -> (r: Style)
    ensures
        r == if word@ == "idempotent"@ {
            Style::Idempotent
        } else {
            Style::Naive
        },
{
    if same(word, "idempotent") {
        Style::Idempotent
    } else {
        Style::Naive
    }
}

} // verus!
