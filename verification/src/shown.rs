//! What a reader is shown: faults and schedules in words, violations, shared
//! recordings, and the documents that a timeline is drawn from.

use crate::bundle::{all_references, bundle_json, collected, lossy_text};
use crate::cas::{found, Contents};
use crate::config::SpecModel;
use crate::divergence::{divergence_report, DivergenceModel};
use crate::event::{kind_name, EventModel, OutcomeModel};
use crate::explore::{finding_report, violation_lines};
use crate::fault::{description, label_of, point_label, FaultModel, PointModel};
use crate::hash::{is_full, short_of};
use crate::invariants::{violation_report, ViolationModel};
use crate::json::{get, json_read, lookup, ordered, JsonModel, NumberModel};
use crate::offscript::mentions;
use crate::record::{event_json, lemma_lookup_put};
use crate::replayer::{recorded_outcome, unresolved};
use crate::report::{check_lines, command_properties, divergence_line, hole_lines, LineModel};
use crate::shrink::shrink_report;
use crate::text::{aligned, decimal, joined, padded, shortened};
use crate::timeline::{event_view, run_view};
use crate::trace::{faultable_positions, header_json, TraceModel};
use vstd::prelude::*;

verus! {

proof fn lemma_inside(text: Seq<char>, a: Seq<char>, part: Seq<char>, b: Seq<char>)
    requires
        text == (a + part) + b,
    ensures
        mentions(text, part),
{
}

/// A text that holds another still holds it once something is put before or
/// behind it.
pub proof fn lemma_inside_both(head: Seq<char>, tail: Seq<char>, part: Seq<char>)
    ensures
        mentions(head, part) ==> mentions(head + tail, part),
        mentions(tail, part) ==> mentions(head + tail, part),
{
    if mentions(head, part) {
        let (a, b) = choose|a: Seq<char>, b: Seq<char>| head == #[trigger] ((a + part) + b);
        assert(head + tail =~= (a + part) + (b + tail));
    }
    if mentions(tail, part) {
        let (a, b) = choose|a: Seq<char>, b: Seq<char>| tail == #[trigger] ((a + part) + b);
        assert(head + tail =~= ((head + a) + part) + b);
    }
}

/// A text holds itself.
pub proof fn lemma_inside_self(part: Seq<char>)
    ensures
        mentions(part, part),
{
    let none = Seq::<char>::empty();
    assert(part =~= (none + part) + none);
}

// ---------------------------------------------------------------------------
// Faults in words
// ---------------------------------------------------------------------------

/// A fault in words begins with the word for its family, and names what tells it
/// from others of that family.
pub proof fn lemma_label_tells(f: FaultModel)
    ensures
        match f {
            FaultModel::Timeout => label_of(f) == "timeout"@,
            FaultModel::Duplicate => label_of(f) == "duplicate"@,
            FaultModel::Malformed => label_of(f) == "malformed"@,
            FaultModel::Error { code } => mentions(label_of(f), "error("@ + code),
            FaultModel::Truncate { keep } => mentions(
                label_of(f),
                "truncate("@ + decimal(keep as nat),
            ),
            FaultModel::Delay { ms } => mentions(label_of(f), "delay("@ + decimal(ms as nat)),
            FaultModel::Reorder { seed } => mentions(
                label_of(f),
                "reorder("@ + decimal(seed as nat),
            ),
            FaultModel::Exact { order } => forall|i: int|
                0 <= i < order.len() ==> mentions(
                    label_of(f),
                    decimal(#[trigger] order[i] as nat),
                ),
        },
{
    let none = Seq::<char>::empty();
    let text = label_of(f);
    match f {
        FaultModel::Error { code } => {
            assert(text =~= (none + ("error("@ + code)) + ")"@);
        },
        FaultModel::Truncate { keep } => {
            assert(text =~= (none + ("truncate("@ + decimal(keep as nat))) + "B)"@);
        },
        FaultModel::Delay { ms } => {
            assert(text =~= (none + ("delay("@ + decimal(ms as nat))) + "ms)"@);
        },
        FaultModel::Reorder { seed } => {
            assert(text =~= (none + ("reorder("@ + decimal(seed as nat))) + ")"@);
        },
        FaultModel::Exact { order } => {
            let list = crate::fault::decimals(order);
            let all = joined(list, ","@);
            assert forall|i: int| 0 <= i < order.len() implies mentions(
                text,
                decimal(#[trigger] order[i] as nat),
            ) by {
                lemma_joined_mentions(list, ","@, i);
                lemma_inside_both("order("@, all, list[i]);
                lemma_inside_both("order("@ + all, ")"@, list[i]);
            }
        },
        _ => {},
    }
}

/// A list of texts, joined, holds each of them.
pub proof fn lemma_joined_mentions(list: Seq<Seq<char>>, sep: Seq<char>, i: int)
    requires
        0 <= i < list.len(),
    ensures
        mentions(joined(list, sep), list[i]),
    decreases list.len(),
{
    if list.len() == 1 {
        lemma_inside_self(list[0]);
    } else {
        let head = joined(list.drop_last(), sep);
        if i < list.len() - 1 {
            lemma_joined_mentions(list.drop_last(), sep, i);
            lemma_inside_both(head, sep, list[i]);
            lemma_inside_both(head + sep, list.last(), list[i]);
        } else {
            lemma_inside_self(list.last());
            lemma_inside_both(head + sep, list.last(), list[i]);
        }
    }
}

/// A schedule in words names each of its points, by its position and its fault.
pub proof fn lemma_description_tells(points: Seq<PointModel>, i: int)
    requires
        0 <= i < points.len(),
    ensures
        mentions(description(points), point_label(points[i])),
        mentions(point_label(points[i]), "#"@ + decimal(points[i].seq as nat)),
        mentions(point_label(points[i]), label_of(points[i].fault)),
{
    let list = Seq::new(points.len(), |k: int| point_label(points[k]));
    lemma_joined_mentions(list, ", "@, i);
    let none = Seq::<char>::empty();
    let at = "#"@ + decimal(points[i].seq as nat);
    let text = point_label(points[i]);
    assert(text =~= (none + at) + (" "@ + label_of(points[i].fault)));
    assert(text =~= ((at + " "@) + label_of(points[i].fault)) + none);
}

/// A violation in words names the invariant, the effect where there is one, and
/// what happened.
pub proof fn lemma_violation_tells(v: ViolationModel)
    ensures
        mentions(violation_report(v), v.invariant),
        mentions(violation_report(v), v.detail),
        v.at_seq is Some ==> mentions(violation_report(v), "#"@ + decimal(v.at_seq->0 as nat)),
{
    let none = Seq::<char>::empty();
    let text = violation_report(v);
    match v.at_seq {
        Some(seq) => {
            let n = decimal(seq as nat);
            assert(text =~= ("["@ + v.invariant) + ("] at effect #"@ + n + ": "@ + v.detail));
            assert(text =~= (("["@ + v.invariant + "] at effect #"@ + n + ": "@) + v.detail)
                + none);
            lemma_hash_ends();
            let before = "["@ + v.invariant + "] at effect "@;
            assert(text =~= (before + ("#"@ + n)) + (": "@ + v.detail));
        },
        None => {
            assert(text =~= ("["@ + v.invariant) + ("] "@ + v.detail));
            assert(text =~= (("["@ + v.invariant + "] "@) + v.detail) + none);
        },
    }
}

proof fn lemma_hash_ends()
    ensures
        "] at effect #"@ == "] at effect "@ + "#"@,
{
    reveal_strlit("] at effect #");
    reveal_strlit("] at effect ");
    reveal_strlit("#");
    assert("] at effect #"@ =~= "] at effect "@ + "#"@);
}

/// A finding in words names its seed, its schedule, and each violation.
pub proof fn lemma_finding_tells(
    seed: u64,
    schedule: Seq<PointModel>,
    violations: Seq<ViolationModel>,
    i: int,
)
    requires
        0 <= i < violations.len(),
    ensures
        mentions(finding_report(seed, schedule, violations), decimal(seed as nat)),
        mentions(finding_report(seed, schedule, violations), decimal(violations.len())),
        mentions(finding_report(seed, schedule, violations), description(schedule)),
        mentions(
            finding_report(seed, schedule, violations),
            violation_report(violations[i]),
        ),
{
    let text = finding_report(seed, schedule, violations);
    let n = decimal(seed as nat);
    let k = decimal(violations.len());
    let words = description(schedule);
    let rest = violation_lines(violations);
    let mid = " invariant(s)\n"@ + "  schedule: "@;
    assert(text =~= ("seed "@ + n) + (" broke "@ + k + mid + words + "\n"@ + rest));
    assert(text =~= (("seed "@ + n + " broke "@) + k) + (mid + words + "\n"@ + rest));
    assert(text =~= (("seed "@ + n + " broke "@ + k + mid) + words) + ("\n"@ + rest));
    lemma_lines_mention(violations, i);
    let head = "seed "@ + n + " broke "@ + k + " invariant(s)\n"@ + "  schedule: "@ + words
        + "\n"@;
    lemma_inside_both(head, rest, violation_report(violations[i]));
}

proof fn lemma_lines_mention(violations: Seq<ViolationModel>, i: int)
    requires
        0 <= i < violations.len(),
    ensures
        mentions(violation_lines(violations), violation_report(violations[i])),
    decreases violations.len(),
{
    let before = violation_lines(violations.drop_last());
    let last = violation_report(violations.last());
    let one = violation_report(violations[i]);
    if i < violations.len() - 1 {
        lemma_lines_mention(violations.drop_last(), i);
        lemma_inside_both(before, "  "@, one);
        lemma_inside_both(before + "  "@, last, one);
        lemma_inside_both(before + "  "@ + last, "\n"@, one);
    } else {
        lemma_inside(violation_lines(violations), before + "  "@, last, "\n"@);
    }
}

/// What a reduction came to is told with the number of faults before and after,
/// the replays it took, and what is left.
pub proof fn lemma_reduction_tells(started_with: nat, left: Seq<PointModel>, evaluations: nat)
    ensures
        mentions(shrink_report(started_with, left, evaluations), decimal(started_with)),
        mentions(shrink_report(started_with, left, evaluations), decimal(left.len())),
        mentions(shrink_report(started_with, left, evaluations), decimal(evaluations)),
        mentions(shrink_report(started_with, left, evaluations), description(left)),
{
    let text = shrink_report(started_with, left, evaluations);
    let a = decimal(started_with);
    let b = decimal(left.len());
    let c = decimal(evaluations);
    let d = description(left);
    assert(text =~= ("shrank "@ + a) + (" faults to "@ + b + " in "@ + c + " replays\n  "@ + d));
    assert(text =~= (("shrank "@ + a + " faults to "@) + b) + (" in "@ + c + " replays\n  "@ + d));
    assert(text =~= (("shrank "@ + a + " faults to "@ + b + " in "@) + c) + (" replays\n  "@ + d));
    assert(text =~= (("shrank "@ + a + " faults to "@ + b + " in "@ + c + " replays\n  "@) + d)
        + Seq::<char>::empty());
}

/// A call that the recording has no answer for fails under a code of its own, and
/// says which call it was.
pub proof fn lemma_unresolved_tells(name: Seq<char>)
    ensures
        unresolved(name) matches OutcomeModel::Failure { code, message } && code
            == "samsara_unresolved"@ && mentions(message, name),
{
    if let OutcomeModel::Failure { code, message } = unresolved(name) {
        assert(message == ("no recorded response for `"@ + name)
            + "`; re-record with a live backend to cover this path"@);
    }
}

/// An effect whose recorded outcome is in the store is answered with it. One
/// whose outcome is missing fails under a code of its own.
pub proof fn lemma_missing_payload_told(e: EventModel, contents: Contents)
    ensures
        crate::oracle::outcome_at(contents, e.outcome) matches Some(o) ==> recorded_outcome(
            e,
            contents,
        ) == o,
        crate::oracle::outcome_at(contents, e.outcome) is None ==> (recorded_outcome(
            e,
            contents,
        ) matches OutcomeModel::Failure { code, .. } && code == "samsara_missing_payload"@),
{
}

// ---------------------------------------------------------------------------
// Lines of a report
// ---------------------------------------------------------------------------

/// A check is good news exactly where there are no violations, and then tells how
/// many effects there were. Else each violation is a line of bad news, in order.
pub proof fn lemma_check_told(effects: nat, violations: Seq<ViolationModel>)
    ensures
        violations.len() == 0 ==> check_lines(effects, violations).len() == 1 && check_lines(
            effects,
            violations,
        )[0] is Good && mentions(check_lines(effects, violations)[0]->Good_text, decimal(effects)),
        violations.len() > 0 ==> check_lines(effects, violations).len() == violations.len(),
        forall|i: int|
            0 <= i < violations.len() ==> #[trigger] check_lines(effects, violations)[i] == (
            LineModel::Bad { text: violation_report(violations[i]) }),
{
    if violations.len() == 0 {
        let text = check_lines(effects, violations)[0]->Good_text;
        assert(text =~= (Seq::<char>::empty() + decimal(effects)) + " effects, no violations"@);
    }
}

/// A replay is good news exactly where it did not diverge. The first divergence
/// is reported, the others are counted, and it is bad news where the replay was
/// to be strict.
pub proof fn lemma_divergence_told(divergences: Seq<DivergenceModel>, strict: bool)
    ensures
        divergences.len() == 0 <==> divergence_line(divergences, strict) is Good,
        divergences.len() > 0 && strict ==> (divergence_line(divergences, strict) matches
            LineModel::Bad { text } && mentions(text, divergence_report(divergences[0]))),
        divergences.len() > 0 && !strict ==> (divergence_line(divergences, strict) matches
            LineModel::Note { text } && mentions(text, divergence_report(divergences[0]))),
        divergences.len() > 1 && strict ==> (divergence_line(divergences, strict) matches
            LineModel::Bad { text } && mentions(text, decimal((divergences.len() - 1) as nat))),
{
    if divergences.len() > 0 {
        let first = divergence_report(divergences[0]);
        let n = decimal((divergences.len() - 1) as nat);
        let rest: Seq<char> = if divergences.len() > 1 {
            " (+"@ + n + " more, all downstream)"@
        } else {
            seq![]
        };
        lemma_inside_self(first);
        lemma_inside_both(first, rest, first);
        if divergences.len() > 1 {
            lemma_inside(rest, " (+"@, n, " more, all downstream)"@);
            lemma_inside_both(first, rest, n);
        }
    }
}

/// Effects without a recorded answer are told of, and counted, where there are
/// any.
pub proof fn lemma_holes_told(holes: nat)
    ensures
        holes == 0 ==> hole_lines(holes).len() == 0,
        holes > 0 ==> hole_lines(holes).len() == 1 && hole_lines(holes)[0] is Note && mentions(
            hole_lines(holes)[0]->Note_text,
            decimal(holes),
        ),
{
    if holes > 0 {
        let text = hole_lines(holes)[0]->Note_text;
        assert(text =~= (Seq::<char>::empty() + decimal(holes))
            + " effect(s) had no recorded answer; re-record to cover that path"@);
    }
}

/// What is declared on a command line always forbids repeated effects and bounds
/// the run, and keeps a budget exactly where one is given.
pub proof fn lemma_command_declares(
    effectful: Seq<Seq<char>>,
    key: Option<Seq<char>>,
    max_effects: usize,
    budget: Option<u64>,
)
    ensures
        ({
            let all = command_properties(effectful, key, max_effects, budget);
            &&& all.contains(
                SpecModel::NoDuplicateEffects { tools: effectful, idempotency_key: key },
            )
            &&& all.contains(SpecModel::TerminatesWithin { effects: max_effects })
            &&& forall|tokens: u64|
                all.contains(#[trigger] spec_budget(tokens)) <==> budget == Some(tokens)
            &&& all.len() == if budget is Some {
                3nat
            } else {
                2
            }
        }),
{
    let all = command_properties(effectful, key, max_effects, budget);
    assert(all[0] == (SpecModel::NoDuplicateEffects { tools: effectful, idempotency_key: key }));
    assert(all[1] == (SpecModel::TerminatesWithin { effects: max_effects }));
    if budget is Some {
        assert(all[2] == spec_budget(budget->0));
    }
    assert forall|tokens: u64| all.contains(#[trigger] spec_budget(tokens)) implies budget == Some(
        tokens,
    ) by {
        let i = choose|i: int| 0 <= i < all.len() && all[i] == spec_budget(tokens);
        assert(i == 2);
    }
}

/// A budget of so many tokens.
pub open spec fn spec_budget(tokens: u64) -> SpecModel {
    SpecModel::TokenBudget { tokens }
}

// ---------------------------------------------------------------------------
// Texts in columns
// ---------------------------------------------------------------------------

/// A text in a column fills it: it stands at the start or at the end, spaces fill
/// the rest, and a text that is too wide is left as it is.
pub proof fn lemma_columns(s: Seq<char>, width: nat)
    ensures
        padded(s, width).len() == aligned(s, width).len(),
        padded(s, width).len() == if s.len() < width {
            width
        } else {
            s.len()
        },
        padded(s, width).take(s.len() as int) == s,
        aligned(s, width).skip(aligned(s, width).len() - s.len()) == s,
        forall|i: int| s.len() <= i < width ==> #[trigger] padded(s, width)[i] == ' ',
        forall|i: int| 0 <= i < width - s.len() ==> #[trigger] aligned(s, width)[i] == ' ',
{
    assert(padded(s, width).take(s.len() as int) =~= s);
    assert(aligned(s, width).skip(aligned(s, width).len() - s.len()) =~= s);
}

/// A text that is cut to a width fits it, keeps its start, and ends in a mark
/// that it was cut; one that fits is left as it is.
pub proof fn lemma_cut_to_width(s: Seq<char>, max: nat)
    requires
        max > 0,
    ensures
        shortened(s, max).len() <= max,
        s.len() <= max ==> shortened(s, max) == s,
        s.len() > max ==> {
            &&& shortened(s, max).len() == max
            &&& shortened(s, max).last() == '\u{2026}'
            &&& shortened(s, max).drop_last() == s.take(max - 1)
        },
{
    if s.len() > max {
        assert(shortened(s, max).drop_last() =~= s.take(max - 1));
    }
}

// ---------------------------------------------------------------------------
// Shared recordings
// ---------------------------------------------------------------------------

/// A shared recording refers to what each of its events refers to: the request,
/// the outcome, and the outcome that a fault hid, where there is one. It refers to
/// nothing else.
pub proof fn lemma_references_complete(events: Seq<EventModel>, i: int, d: Seq<char>)
    ensures
        0 <= i < events.len() ==> {
            &&& all_references(events).contains(events[i].request)
            &&& all_references(events).contains(events[i].outcome)
            &&& events[i].shadow is Some ==> all_references(events).contains(events[i].shadow->0)
        },
        all_references(events).contains(d) ==> exists|k: int|
            0 <= k < events.len() && ((#[trigger] events[k]).request == d || events[k].outcome == d
                || events[k].shadow == Some(d)),
    decreases events.len(),
{
    if events.len() > 0 {
        let front = all_references(events.drop_last());
        let last = crate::bundle::references(events.last());
        let all = all_references(events);
        assert(all == front + last);
        lemma_references_complete(events.drop_last(), i, d);
        assert forall|x: Seq<char>| front.contains(x) implies all.contains(x) by {
            let k = choose|k: int| 0 <= k < front.len() && front[k] == x;
            assert(all[k] == x);
        }
        if i == events.len() - 1 {
            assert(all[front.len() as int] == events.last().request);
            assert(all[front.len() + 1int] == events.last().outcome);
            if events.last().shadow is Some {
                assert(all[front.len() + 2int] == events.last().shadow->0);
            }
        }
        if all.contains(d) {
            let k = choose|k: int| 0 <= k < all.len() && all[k] == d;
            if k < front.len() {
                assert(front[k] == d);
                let j = choose|j: int|
                    0 <= j < events.drop_last().len() && ((#[trigger] events.drop_last()[j]).request
                        == d || events.drop_last()[j].outcome == d || events.drop_last()[j].shadow
                        == Some(d));
                assert(events[j] == events.drop_last()[j]);
            } else {
                assert(last[k - front.len()] == d);
                assert(events[events.len() - 1] == events.last());
            }
        }
    }
}

/// So every payload that an event refers to and the store holds is shared with
/// it, under its digest.
pub proof fn lemma_payloads_shared(events: Seq<EventModel>, contents: Contents, i: int)
    requires
        0 <= i < events.len(),
    ensures
        ({
            let objects = collected(contents, all_references(events)).objects;
            &&& found(contents, events[i].request) matches Some(bytes) ==> lookup(
                objects,
                events[i].request,
            ) == Some(JsonModel::Text(lossy_text(bytes)))
            &&& found(contents, events[i].outcome) matches Some(bytes) ==> lookup(
                objects,
                events[i].outcome,
            ) == Some(JsonModel::Text(lossy_text(bytes)))
            &&& events[i].shadow is Some && found(contents, events[i].shadow->0) is Some ==> lookup(
                objects,
                events[i].shadow->0,
            ) == Some(JsonModel::Text(lossy_text(found(contents, events[i].shadow->0)->0)))
        }),
{
    let all = all_references(events);
    lemma_references_complete(events, i, events[i].request);
    let a = choose|k: int| 0 <= k < all.len() && all[k] == events[i].request;
    crate::bundle::lemma_collected(contents, all, a);
    let b = choose|k: int| 0 <= k < all.len() && all[k] == events[i].outcome;
    crate::bundle::lemma_collected(contents, all, b);
    if events[i].shadow is Some {
        let c = choose|k: int| 0 <= k < all.len() && all[k] == events[i].shadow->0;
        crate::bundle::lemma_collected(contents, all, c);
    }
}

/// A shared recording is written with its version, its header and events, and
/// its payloads.
pub proof fn lemma_bundle_written(t: TraceModel, objects: crate::record::Fields)
    ensures
        ({
            let m = bundle_json(t, objects);
            &&& get(m, "bundle_version"@) == Some(JsonModel::Number(NumberModel::Unsigned(1)))
            &&& get(m, "objects"@) == Some(ordered(JsonModel::Object(objects)))
            &&& get(m, "trace"@) is Some
            &&& get(get(m, "trace"@)->0, "header"@) == Some(header_json(t.header))
            &&& get(get(m, "trace"@)->0, "events"@) == Some(
                JsonModel::Array(Seq::new(t.events.len(), |i: int| event_json(t.events[i]))),
            )
        }),
{
    broadcast use lemma_lookup_put;

    reveal_strlit("bundle_version");
    reveal_strlit("trace");
    reveal_strlit("objects");
    reveal_strlit("header");
    reveal_strlit("events");
    assert("bundle_version"@.len() == 14 && "trace"@.len() == 5 && "objects"@.len() == 7);
    assert("header"@[0] == 'h' && "events"@[0] == 'e');
}

// ---------------------------------------------------------------------------
// The timeline
// ---------------------------------------------------------------------------

/// A text by its length and the letter that it begins with.
spec fn shape(key: Seq<char>) -> int {
    key.len() * 0x100_0000 + key[0] as int
}

proof fn lemma_view_shapes()
    ensures
        shape("seq"@) == 3 * 0x100_0000 + 's' as int,
        shape("kind"@) == 4 * 0x100_0000 + 'k' as int,
        shape("name"@) == 4 * 0x100_0000 + 'n' as int,
        shape("identity"@) == 8 * 0x100_0000 + 'i' as int,
        shape("id_short"@) == 8 * 0x100_0000 + 'i' as int,
        shape("request"@) == 7 * 0x100_0000 + 'r' as int,
        shape("outcome"@) == 7 * 0x100_0000 + 'o' as int,
        shape("fault"@) == 5 * 0x100_0000 + 'f' as int,
        shape("shadow"@) == 6 * 0x100_0000 + 's' as int,
        shape("logical_time"@) == 12 * 0x100_0000 + 'l' as int,
        "identity"@ != "id_short"@,
{
    reveal_strlit("seq");
    reveal_strlit("kind");
    reveal_strlit("name");
    reveal_strlit("identity");
    reveal_strlit("id_short");
    reveal_strlit("request");
    reveal_strlit("outcome");
    reveal_strlit("fault");
    reveal_strlit("shadow");
    reveal_strlit("logical_time");
    assert("identity"@[2] == 'e' && "id_short"@[2] == '_');
}

/// An event on a timeline shows what was asked and what was observed, as the
/// store holds them, and what a fault hid; the fault itself is shown in words.
pub proof fn lemma_event_shown(e: EventModel, contents: Contents)
    ensures
        ({
            let m = event_view(e, contents);
            &&& get(m, "seq"@) == Some(JsonModel::Number(NumberModel::Unsigned(e.seq)))
            &&& get(m, "kind"@) == Some(JsonModel::Text(kind_name(e.kind)))
            &&& get(m, "name"@) == Some(JsonModel::Text(e.name))
            &&& get(m, "identity"@) == Some(JsonModel::Text(e.identity))
            &&& get(m, "id_short"@) == Some(JsonModel::Text(short_of(e.identity)))
            &&& get(m, "logical_time"@) == Some(
                JsonModel::Number(NumberModel::Unsigned(e.logical_time)),
            )
            &&& get(m, "fault"@) == Some(
                match e.fault {
                    Some(f) => JsonModel::Text(label_of(f)),
                    None => JsonModel::Null,
                },
            )
            &&& shows(get(m, "request"@), contents, e.request)
            &&& shows(get(m, "outcome"@), contents, e.outcome)
            &&& e.shadow is Some ==> shows(get(m, "shadow"@), contents, e.shadow->0)
            &&& e.shadow is None ==> get(m, "shadow"@) == Some(JsonModel::Null)
        }),
{
    broadcast use lemma_lookup_put;

    lemma_view_shapes();
}

/// Whether what is shown is the document that a store holds under a digest, or
/// nothing where it holds none.
pub open spec fn shows(m: Option<JsonModel>, contents: Contents, digest: Seq<char>) -> bool {
    &&& m is Some
    &&& found(contents, digest) is None ==> m == Some(JsonModel::Null)
    &&& found(contents, digest) is Some && json_read(found(contents, digest)->0) is Some ==> m
        == Some(ordered(json_read(found(contents, digest)->0)->0))
}

/// A run on a timeline shows each of its events in order, its violations, how
/// many effects had no recorded answer, and where a fault can strike.
pub proof fn lemma_run_shown(
    t: TraceModel,
    contents: Contents,
    violations: Seq<ViolationModel>,
    holes: nat,
)
    ensures
        ({
            let m = run_view(t, contents, violations, holes);
            &&& get(m, "events"@) == Some(
                JsonModel::Array(
                    Seq::new(t.events.len(), |i: int| event_view(t.events[i], contents)),
                ),
            )
            &&& get(m, "violations"@) == Some(crate::certificate::violations_json(violations))
            &&& get(m, "holes"@) == Some(JsonModel::Number(NumberModel::Unsigned(holes as u64)))
            &&& get(m, "faultable"@) is Some
            &&& get(m, "faultable"@)->0 is Array
            &&& get(m, "faultable"@)->0->Array_0.len() == faultable_positions(t.events).len()
            &&& forall|i: int|
                0 <= i < faultable_positions(t.events).len() ==> (
                #[trigger] get(m, "faultable"@)->0->Array_0[i]) == JsonModel::Number(
                    NumberModel::Unsigned(faultable_positions(t.events)[i]),
                )
        }),
{
    broadcast use lemma_lookup_put;

    reveal_strlit("events");
    reveal_strlit("violations");
    reveal_strlit("holes");
    reveal_strlit("faultable");
    assert("events"@.len() == 6 && "violations"@.len() == 10 && "holes"@.len() == 5
        && "faultable"@.len() == 9);
}

/// An identity is shown by its first twelve digits, and a payload is shelved
/// under the first two, so that the file's name behind them is the rest.
pub proof fn lemma_digest_shown(hex: Seq<char>)
    requires
        is_full(hex),
    ensures
        short_of(hex).len() == 12,
        hex.take(12) == short_of(hex),
        crate::cas::shelved(hex).0.len() == 2,
        crate::cas::shelved(hex).0 + crate::cas::shelved(hex).1 == hex,
{
    crate::hash::lemma_full_has_short(hex);
    crate::text::lemma_fitting_narrow(hex, 2);
    let (a, b) = crate::cas::shelved(hex);
    assert(a + b =~= hex);
}

} // verus!
