//! What reaches a reader or a file letter by letter: strings in documents, rows
//! of a listing, refusals of a declaration, and the schedules that a seed gives.

use crate::bundle::lossy_text;
use crate::cas::{found, Contents};
use crate::command::objects_name;
use crate::config::{
    config_from, config_in, config_refusal, config_trouble, declares, first_undeclared, spec_from,
    ConfigError, SpecModel,
};
use crate::demo::{demo_properties, first_called, target};
use crate::event::{kind_name, summary_of, EventModel};
use crate::fault::{description, generated, label_of};
use crate::hash::short_of;
use crate::json::{escaped_char, get, holds_null, JsonModel};
use crate::offscript::mentions;
use crate::report::{effect_rows, event_rows, flattened, shown_payload, trace_rows, RowModel};
use crate::rng::{drawn_size, seeded};
use crate::shown::{lemma_inside_both, lemma_inside_self};
use crate::testkit::{model_reply, plan_request, planned_path};
use crate::text::{aligned, decimal, padded, shortened, spaces, without_suffix};
use crate::trace::{default_header, TraceModel};
use vstd::prelude::*;

verus! {

// ---------------------------------------------------------------------------
// Strings in documents
// ---------------------------------------------------------------------------

/// What a string holds is written as it is, but for quotes, backslashes and
/// control characters: those stand behind a backslash, by a letter or by number.
pub proof fn lemma_escapes(c: char)
    ensures
        c as int >= 0x20 && c != '"' && c != '\\' ==> escaped_char(c) == seq![c],
        c == '"' || c == '\\' ==> escaped_char(c) == seq!['\\', c],
        c == '\n' ==> escaped_char(c) == seq!['\\', 'n'],
        c == '\r' ==> escaped_char(c) == seq!['\\', 'r'],
        c == '\t' ==> escaped_char(c) == seq!['\\', 't'],
        c == '\u{8}' ==> escaped_char(c) == seq!['\\', 'b'],
        c == '\u{c}' ==> escaped_char(c) == seq!['\\', 'f'],
        (c as int) < 0x20 ==> escaped_char(c)[0] == '\\',
        forall|i: int|
            0 <= i < escaped_char(c).len() ==> (#[trigger] escaped_char(c)[i]) as int >= 0x20,
{
}

// ---------------------------------------------------------------------------
// Rows of a listing
// ---------------------------------------------------------------------------

/// An event is listed in a row, marked where a fault struck it, with the fault
/// behind it, and with its payloads only where they are asked for.
pub proof fn lemma_event_listed(contents: Contents, e: EventModel, payloads: bool)
    ensures
        ({
            let rows = event_rows(contents, e, payloads);
            let faults: int = if e.fault is Some {
                1
            } else {
                0
            };
            &&& rows[0] == (RowModel::Effect { text: summary_of(e), faulted: e.fault is Some })
            &&& e.fault matches Some(f) ==> rows[1] == (RowModel::Injected { text: label_of(f) })
            &&& !payloads ==> rows.len() == 1 + faults
            &&& payloads && found(contents, e.request) is Some && found(contents, e.outcome)
                is Some ==> {
                &&& rows.len() == 3 + faults
                &&& rows[1 + faults] matches RowModel::Payload { side, text } && side == "req"@
                    && text == shown_payload(lossy_text(found(contents, e.request)->0), 160)
                &&& rows[2 + faults] matches RowModel::Payload { side, text } && side == "res"@
                    && text == shown_payload(lossy_text(found(contents, e.outcome)->0), 160)
            }
            &&& payloads && found(contents, e.request) is None && found(contents, e.outcome)
                is None ==> rows.len() == 1 + faults
        }),
{
}

proof fn lemma_row_holds(
    mark: Seq<char>,
    number: Seq<char>,
    kind: Seq<char>,
    name: Seq<char>,
    id: Seq<char>,
    gap: Seq<char>,
    part: Seq<char>,
)
    requires
        mentions(number, part) || mentions(kind, part) || mentions(name, part) || mentions(
            id,
            part,
        ),
    ensures
        mentions(mark + number + gap + kind + gap + name + gap + id, part),
{
    lemma_inside_both(mark, number, part);
    lemma_inside_both(mark + number, gap, part);
    lemma_inside_both(mark + number + gap, kind, part);
    lemma_inside_both(mark + number + gap + kind, gap, part);
    lemma_inside_both(mark + number + gap + kind + gap, name, part);
    lemma_inside_both(mark + number + gap + kind + gap + name, gap, part);
    lemma_inside_both(mark + number + gap + kind + gap + name + gap, id, part);
}

proof fn lemma_column_holds(s: Seq<char>, width: nat)
    ensures
        mentions(padded(s, width), s),
        mentions(aligned(s, width), s),
{
    lemma_inside_self(s);
    if s.len() < width {
        lemma_inside_both(s, spaces((width - s.len()) as nat), s);
        lemma_inside_both(spaces((width - s.len()) as nat), s, s);
    }
}

/// A summary of an event marks a fault, and names the effect's number, kind and
/// identity, and its target where that fits the column.
pub proof fn lemma_summary_of_event(e: EventModel)
    ensures
        e.fault is Some <==> summary_of(e)[0] == '!',
        mentions(summary_of(e), decimal(e.seq as nat)),
        mentions(summary_of(e), kind_name(e.kind)),
        mentions(summary_of(e), short_of(e.identity)),
        e.name.len() <= 24 ==> mentions(summary_of(e), e.name),
{
    let mark = if e.fault is Some {
        "!"@
    } else {
        " "@
    };
    let number = aligned(decimal(e.seq as nat), 4);
    let kind = padded(kind_name(e.kind), 7);
    let name = padded(shortened(e.name, 24), 24);
    let id = short_of(e.identity);
    lemma_column_holds(decimal(e.seq as nat), 4);
    lemma_column_holds(kind_name(e.kind), 7);
    lemma_column_holds(shortened(e.name, 24), 24);
    lemma_inside_self(id);
    lemma_row_holds(mark, number, kind, name, id, " "@, decimal(e.seq as nat));
    lemma_row_holds(mark, number, kind, name, id, " "@, kind_name(e.kind));
    lemma_row_holds(mark, number, kind, name, id, " "@, shortened(e.name, 24));
    lemma_row_holds(mark, number, kind, name, id, " "@, id);
    assert(summary_of(e)[0] == mark[0] && mark.len() == 1) by {
        reveal_strlit("!");
        reveal_strlit(" ");
    }
    assert("!"@[0] == '!' && " "@[0] == ' ') by {
        reveal_strlit("!");
        reveal_strlit(" ");
    }
}

/// A trace is listed under its label and engine with the number of its effects,
/// then its faults where it has a schedule, then its events in order.
pub proof fn lemma_trace_listed(t: TraceModel, contents: Contents, payloads: bool, e: EventModel)
    ensures
        trace_rows(t, contents, payloads)[0] == (RowModel::Title {
            label: t.header.label,
            engine: t.header.engine,
            effects: t.events.len(),
        }),
        t.header.schedule matches Some(points) ==> trace_rows(t, contents, payloads)[1] == (
        RowModel::Schedule { text: description(points) }),
        t.header.schedule is None ==> trace_rows(t, contents, payloads).skip(1) == effect_rows(
            contents,
            t.events,
            payloads,
        ),
        effect_rows(contents, t.events.push(e), payloads) == effect_rows(
            contents,
            t.events,
            payloads,
        ) + event_rows(contents, e, payloads),
        effect_rows(contents, Seq::<EventModel>::empty(), payloads).len() == 0,
{
    assert(t.events.push(e).drop_last() =~= t.events);
    if t.header.schedule is None {
        assert(trace_rows(t, contents, payloads).skip(1) =~= effect_rows(
            contents,
            t.events,
            payloads,
        ));
    }
}

/// A payload is shown on one line, and cut to its width with a mark that it was.
pub proof fn lemma_payload_shown(s: Seq<char>, max: nat)
    ensures
        !shown_payload(s, max).contains('\n'),
        s.len() <= max ==> shown_payload(s, max).len() == s.len(),
        s.len() > max ==> shown_payload(s, max).len() == max + 1,
        forall|i: int|
            0 <= i < s.len() && i < max && s[i] != '\n' ==> #[trigger] shown_payload(s, max)[i]
                == s[i],
        forall|i: int|
            0 <= i < s.len() && i < max && s[i] == '\n' ==> #[trigger] shown_payload(s, max)[i]
                == ' ',
{
    reveal_strlit("\u{2026}");
    assert("\u{2026}"@[0] == '\u{2026}');
    let shown = shown_payload(s, max);
    assert forall|i: int| 0 <= i < shown.len() implies shown[i] != '\n' by {
        if s.len() <= max || i < max {
            assert(shown[i] == flattened(s)[i]);
        }
    }
}

// ---------------------------------------------------------------------------
// Declarations that are refused
// ---------------------------------------------------------------------------

proof fn lemma_first_undeclared(items: Seq<JsonModel>, i: nat)
    requires
        i <= items.len(),
    ensures
        i <= first_undeclared(items, i) <= items.len(),
        first_undeclared(items, i) < items.len() ==> !declares(
            items[first_undeclared(items, i) as int],
        ),
        forall|k: int| i <= k < first_undeclared(items, i) ==> declares(#[trigger] items[k]),
    decreases items.len() - i,
{
    if i < items.len() && declares(items[i as int]) {
        lemma_first_undeclared(items, i + 1);
    }
}

/// A file with an entry that declares nothing is refused by the number of the
/// first such entry, counted from one.
pub proof fn lemma_bad_entry_told(m: JsonModel, items: Seq<JsonModel>, bad: int)
    requires
        m is Object,
        get(m, "invariant"@) == Some(JsonModel::Array(items)),
        get(m, "label"@) is None,
        0 <= bad < items.len(),
        !declares(items[bad]),
        forall|k: int| 0 <= k < bad ==> declares(#[trigger] items[k]),
    ensures
        mentions(config_refusal(m), decimal((bad + 1) as nat)),
{
    lemma_first_undeclared(items, 0);
    let at = first_undeclared(items, 0);
    if at < bad {
        assert(declares(items[at as int]));
    }
    if at > bad {
        assert(declares(items[bad]));
    }
    let text = config_refusal(m);
    assert(text == ("invariant "@ + decimal((bad + 1) as nat)) + " is unknown or malformed"@);
}

/// What declares a property reads as one and holds no `null`; a file that holds
/// one in its label or its entries is refused, and any other is what it reads as.
pub proof fn lemma_nulls_refused(m: JsonModel)
    ensures
        declares(m) ==> spec_from(m) is Some && !holds_null(m),
        get(m, "label"@) == Some(JsonModel::Null) ==> config_in(m) is None,
        (get(m, "invariant"@) matches Some(v) && holds_null(v)) ==> config_in(m) is None,
        get(m, "label"@) is None && (get(m, "invariant"@) matches Some(v) ==> !holds_null(v))
            ==> config_in(m) == config_from(m),
{
}

/// What is wrong with a file is told with its path and the reason.
pub proof fn lemma_config_trouble_told(e: ConfigError, path: Seq<char>)
    ensures
        mentions(config_trouble(e, path), path),
        e matches ConfigError::Toml { message } ==> mentions(config_trouble(e, path), message@),
        e matches ConfigError::Malformed { reason } ==> mentions(
            config_trouble(e, path),
            reason@,
        ),
{
    let none = Seq::<char>::empty();
    let text = config_trouble(e, path);
    match e {
        ConfigError::Toml { message } => {
            assert(text =~= (none + path) + (": "@ + message@));
            assert(text =~= ((path + ": "@) + message@) + none);
        },
        ConfigError::Malformed { reason } => {
            assert(text =~= (none + path) + (": "@ + reason@));
            assert(text =~= ((path + ": "@) + reason@) + none);
        },
        ConfigError::Empty => {
            assert(text =~= (none + path)
                + " declares no invariants; a sweep against no properties always passes"@);
        },
    }
}

// ---------------------------------------------------------------------------
// Schedules that a seed gives
// ---------------------------------------------------------------------------

/// A seed gives no faults where there is nowhere to put them or none are allowed.
/// Else the number of them is drawn, from one to as many as are allowed and fit.
pub proof fn lemma_faults_allowed(seed: u64, eligible: Seq<u64>, max_faults: nat)
    ensures
        eligible.len() == 0 || max_faults == 0 ==> generated(seed, eligible, max_faults).len()
            == 0,
        eligible.len() > 0 && max_faults > 0 ==> ({
            let most: nat = if max_faults < eligible.len() {
                max_faults
            } else {
                eligible.len()
            };
            generated(seed, eligible, max_faults).len() == drawn_size(
                seeded(seed),
                1,
                most as usize,
            ).0
        }),
{
    if eligible.len() > 0 && max_faults > 0 {
        let start = seeded(seed);
        let cap = crate::fault::fault_cap(eligible.len(), max_faults);
        let d = drawn_size(start, 1, cap as usize);
        let rng = crate::rng::moved(start, d.1);
        let picks = crate::fault::drawn_picks(rng, eligible.len(), d.0 as nat);
        let faults = crate::fault::drawn_faults(rng, eligible.len(), d.0 as nat);
        let seqs = crate::fault::taken(eligible, picks);
        crate::fault::lemma_sorted_points(
            Seq::new(
                picks.len(),
                |k: int| crate::fault::PointModel { seq: seqs[k], fault: faults[k] },
            ),
        );
    }
}

// ---------------------------------------------------------------------------
// The demonstration
// ---------------------------------------------------------------------------

/// The demonstration deletes what its model plans, forbids deleting it twice but
/// under a key, and bounds the run.
pub proof fn lemma_demo_declared()
    ensures
        target() == planned_path(model_reply(plan_request().body)),
        demo_properties().contains(
            SpecModel::NoDuplicateEffects {
                tools: seq!["delete_file"@],
                idempotency_key: Some("idempotency_key"@),
            },
        ),
        demo_properties().contains(SpecModel::TerminatesWithin { effects: 24 }),
        demo_properties().len() == 2,
{
    crate::enacted::lemma_plan_followed(model_reply(plan_request().body), target());
    assert(demo_properties()[0] == (SpecModel::NoDuplicateEffects {
        tools: seq!["delete_file"@],
        idempotency_key: Some("idempotency_key"@),
    }));
    assert(demo_properties()[1] == (SpecModel::TerminatesWithin { effects: 24 }));
}

/// The first call of a name is found where it stands: one more event in front is
/// the first call where it has the name, and changes nothing where it has not.
pub proof fn lemma_first_called(events: Seq<EventModel>, e: EventModel, name: Seq<char>)
    ensures
        e.name == name ==> first_called(seq![e] + events, name) == e.seq,
        e.name != name ==> first_called(seq![e] + events, name) == first_called(events, name),
{
    let more = seq![e] + events;
    assert(more[0] == e);
    assert(more.drop_first() =~= events);
}

/// The payloads of a recording stand beside it, under its own name.
pub proof fn lemma_objects_beside(stem: Seq<char>)
    ensures
        objects_name(Some(stem + ".jsonl"@)) == stem + ".objects"@,
        objects_name(None) == objects_name(Some("trace"@ + ".jsonl"@)),
{
    let name = stem + ".jsonl"@;
    let n = ".jsonl"@.len();
    assert(name.skip(name.len() - n) =~= ".jsonl"@);
    assert(name.take(name.len() - n) =~= stem);
    let usual = "trace"@ + ".jsonl"@;
    assert(usual.skip(usual.len() - n) =~= ".jsonl"@);
    assert(usual.take(usual.len() - n) =~= "trace"@);
    reveal_strlit("trace");
    reveal_strlit(".jsonl");
    assert("trace"@.len() == 5 && ".jsonl"@.len() == 6);
    assert(without_suffix("trace"@, ".jsonl"@) == "trace"@);
}

/// A plain recording has no seed, no schedule and no parent, and is of the
/// version that is read.
pub proof fn lemma_plain_header(t: TraceModel)
    requires
        t.header == default_header(),
    ensures
        t.header.seed is None,
        t.header.schedule is None,
        t.header.parent is None,
        t.header.format_version == 1,
        t.header.label.len() == 0,
        t.header.recorded_at_ms == 0,
        t.header.canonicalizer == crate::canon::default_paths(),
{
}

} // verus!
