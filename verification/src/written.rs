//! The written form of what is recorded: the names that fields go under, what
//! is left out, and what a damaged recording is answered.

use crate::event::{kind_name, EventModel, OutcomeModel, RequestModel};
use crate::fault::{FaultModel, PointModel};
use crate::json::{get, ordered, JsonModel, NumberModel};
use crate::offscript::mentions;
use crate::record::{
    event_json, fault_json, lemma_lookup_put, lemma_lookup_put_some, outcome_json, request_json,
    schedule_json,
};
use crate::text::{all_space, decimal, lines};
use crate::trace::{
    contiguous, event_on, events_on, header_json, header_on, parsed, trouble, HeaderModel,
    TraceModel, TroubleModel,
};
use vstd::prelude::*;

verus! {

/// A text by its length and the letter that it begins with.
spec fn mark(key: Seq<char>) -> int {
    key.len() * 0x100_0000 + key[0] as int
}

/// A whole number as a document.
pub open spec fn written_number(n: u64) -> JsonModel {
    JsonModel::Number(NumberModel::Unsigned(n))
}

proof fn lemma_record_marks()
    ensures
        mark("seq"@) == 3 * 0x100_0000 + 's' as int,
        mark("kind"@) == 4 * 0x100_0000 + 'k' as int,
        mark("name"@) == 4 * 0x100_0000 + 'n' as int,
        mark("identity"@) == 8 * 0x100_0000 + 'i' as int,
        mark("request"@) == 7 * 0x100_0000 + 'r' as int,
        mark("outcome"@) == 7 * 0x100_0000 + 'o' as int,
        mark("fault"@) == 5 * 0x100_0000 + 'f' as int,
        mark("shadow"@) == 6 * 0x100_0000 + 's' as int,
        mark("logical_time"@) == 12 * 0x100_0000 + 'l' as int,
        mark("batch"@) == 5 * 0x100_0000 + 'b' as int,
        mark("body"@) == 4 * 0x100_0000 + 'b' as int,
{
    reveal_strlit("seq");
    reveal_strlit("kind");
    reveal_strlit("name");
    reveal_strlit("identity");
    reveal_strlit("request");
    reveal_strlit("outcome");
    reveal_strlit("fault");
    reveal_strlit("shadow");
    reveal_strlit("logical_time");
    reveal_strlit("batch");
    reveal_strlit("body");
}

/// The fields of a written event. What an event does not have is left out.
pub proof fn lemma_event_written(e: EventModel)
    ensures
        ({
            let m = event_json(e);
            &&& get(m, "seq"@) == Some(written_number(e.seq))
            &&& get(m, "kind"@) == Some(JsonModel::Text(kind_name(e.kind)))
            &&& get(m, "name"@) == Some(JsonModel::Text(e.name))
            &&& get(m, "identity"@) == Some(JsonModel::Text(e.identity))
            &&& get(m, "request"@) == Some(JsonModel::Text(e.request))
            &&& get(m, "outcome"@) == Some(JsonModel::Text(e.outcome))
            &&& get(m, "logical_time"@) == Some(written_number(e.logical_time))
            &&& get(m, "fault"@) == match e.fault {
                Some(f) => Some(fault_json(f)),
                None => None,
            }
            &&& get(m, "shadow"@) == match e.shadow {
                Some(digest) => Some(JsonModel::Text(digest)),
                None => None,
            }
            &&& get(m, "batch"@) == match e.batch {
                Some(b) => Some(written_number(b)),
                None => None,
            }
        }),
{
    broadcast use lemma_lookup_put, lemma_lookup_put_some;

    lemma_record_marks();
}

/// The fields of a written request: its kind, its target, and its body in key
/// order.
pub proof fn lemma_request_written(r: RequestModel)
    ensures
        get(request_json(r), "kind"@) == Some(JsonModel::Text(kind_name(r.kind))),
        get(request_json(r), "name"@) == Some(JsonModel::Text(r.name)),
        get(request_json(r), "body"@) == Some(ordered(r.body)),
{
    broadcast use lemma_lookup_put;

    lemma_record_marks();
}

/// The fields of a written outcome: whether it is a success, and its value, or
/// its code and message.
pub proof fn lemma_outcome_written(o: OutcomeModel)
    ensures
        match o {
            OutcomeModel::Success { value } => {
                &&& get(outcome_json(o), "status"@) == Some(JsonModel::Text("ok"@))
                &&& get(outcome_json(o), "value"@) == Some(ordered(value))
                &&& get(outcome_json(o), "code"@) is None
            },
            OutcomeModel::Failure { code, message } => {
                &&& get(outcome_json(o), "status"@) == Some(JsonModel::Text("err"@))
                &&& get(outcome_json(o), "code"@) == Some(JsonModel::Text(code))
                &&& get(outcome_json(o), "message"@) == Some(JsonModel::Text(message))
                &&& get(outcome_json(o), "value"@) is None
            },
        },
{
    broadcast use lemma_lookup_put;

    reveal_strlit("status");
    reveal_strlit("value");
    reveal_strlit("code");
    reveal_strlit("message");
    assert("status"@.len() == 6 && "value"@.len() == 5 && "code"@.len() == 4 && "message"@.len()
        == 7);
}

proof fn lemma_fault_keys()
    ensures
        "type"@ != "code"@,
        "type"@ != "keep"@,
        "type"@ != "ms"@,
        "type"@ != "seed"@,
        "type"@ != "order"@,
{
    reveal_strlit("type");
    reveal_strlit("code");
    reveal_strlit("keep");
    reveal_strlit("ms");
    reveal_strlit("seed");
    reveal_strlit("order");
    assert("type"@[0] == 't' && "code"@[0] == 'c' && "keep"@[0] == 'k' && "ms"@[0] == 'm'
        && "seed"@[0] == 's' && "order"@[0] == 'o');
}

/// A written fault names its type, and holds what that type is told by.
pub proof fn lemma_fault_written(f: FaultModel)
    ensures
        get(fault_json(f), "type"@) == Some(
            JsonModel::Text(
                match f {
                    FaultModel::Timeout => "timeout"@,
                    FaultModel::Error { .. } => "error"@,
                    FaultModel::Truncate { .. } => "truncate"@,
                    FaultModel::Duplicate => "duplicate"@,
                    FaultModel::Malformed => "malformed"@,
                    FaultModel::Delay { .. } => "delay"@,
                    FaultModel::Reorder { .. } => "reorder"@,
                    FaultModel::Exact { .. } => "exact"@,
                },
            ),
        ),
        f matches FaultModel::Error { code } ==> get(fault_json(f), "code"@) == Some(
            JsonModel::Text(code),
        ),
        f matches FaultModel::Truncate { keep } ==> get(fault_json(f), "keep"@) == Some(
            written_number(keep as u64),
        ),
        f matches FaultModel::Delay { ms } ==> get(fault_json(f), "ms"@) == Some(
            written_number(ms),
        ),
        f matches FaultModel::Reorder { seed } ==> get(fault_json(f), "seed"@) == Some(
            written_number(seed),
        ),
        f matches FaultModel::Exact { order } ==> get(fault_json(f), "order"@) == Some(
            JsonModel::Array(Seq::new(order.len(), |i: int| written_number(order[i] as u64))),
        ),
{
    broadcast use lemma_lookup_put;

    lemma_fault_keys();
    if let FaultModel::Exact { order } = f {
        assert(Seq::new(order.len(), |i: int| written_number(order[i] as u64)) =~= Seq::new(
            order.len(),
            |i: int| crate::record::number(order[i] as u64),
        ));
    }
}

/// A written schedule is the list of its points, each with its position and its
/// fault.
pub proof fn lemma_schedule_written(points: Seq<PointModel>, i: int)
    requires
        0 <= i < points.len(),
    ensures
        get(schedule_json(points), "points"@) is Some,
        get(schedule_json(points), "points"@)->0 is Array,
        ({
            let items = get(schedule_json(points), "points"@)->0->Array_0;
            &&& items.len() == points.len()
            &&& get(items[i], "seq"@) == Some(written_number(points[i].seq))
            &&& get(items[i], "fault"@) == Some(fault_json(points[i].fault))
        }),
{
    broadcast use lemma_lookup_put;

    lemma_record_marks();
}

proof fn lemma_header_marks()
    ensures
        mark("format_version"@) == 14 * 0x100_0000 + 'f' as int,
        mark("engine"@) == 6 * 0x100_0000 + 'e' as int,
        mark("label"@) == 5 * 0x100_0000 + 'l' as int,
        mark("recorded_at_ms"@) == 14 * 0x100_0000 + 'r' as int,
        mark("canonicalizer"@) == 13 * 0x100_0000 + 'c' as int,
        mark("seed"@) == 4 * 0x100_0000 + 's' as int,
        mark("schedule"@) == 8 * 0x100_0000 + 's' as int,
        mark("parent"@) == 6 * 0x100_0000 + 'p' as int,
{
    reveal_strlit("format_version");
    reveal_strlit("engine");
    reveal_strlit("label");
    reveal_strlit("recorded_at_ms");
    reveal_strlit("canonicalizer");
    reveal_strlit("seed");
    reveal_strlit("schedule");
    reveal_strlit("parent");
}

/// The fields of a written header. A seed, a schedule and a parent that it does
/// not have are left out.
pub proof fn lemma_header_written(h: HeaderModel)
    ensures
        ({
            let m = header_json(h);
            &&& get(m, "format_version"@) == Some(written_number(h.format_version as u64))
            &&& get(m, "engine"@) == Some(JsonModel::Text(h.engine))
            &&& get(m, "label"@) == Some(JsonModel::Text(h.label))
            &&& get(m, "recorded_at_ms"@) == Some(written_number(h.recorded_at_ms))
            &&& get(m, "canonicalizer"@) is Some
            &&& get(get(m, "canonicalizer"@)->0, "volatile"@) == Some(
                JsonModel::Array(
                    Seq::new(
                        h.canonicalizer.len(),
                        |i: int| JsonModel::Text(h.canonicalizer[i]),
                    ),
                ),
            )
            &&& get(m, "seed"@) == match h.seed {
                Some(n) => Some(written_number(n)),
                None => None,
            }
            &&& get(m, "schedule"@) == match h.schedule {
                Some(points) => Some(schedule_json(points)),
                None => None,
            }
            &&& get(m, "parent"@) == match h.parent {
                Some(digest) => Some(JsonModel::Text(digest)),
                None => None,
            }
        }),
{
    broadcast use lemma_lookup_put, lemma_lookup_put_some;

    lemma_header_marks();
}

// ---------------------------------------------------------------------------
// Damaged recordings
// ---------------------------------------------------------------------------

proof fn lemma_events_numbered(all: Seq<Seq<char>>, i: nat, done: Seq<EventModel>)
    requires
        contiguous(done),
    ensures
        events_on(all, i, done) matches Ok(events) ==> contiguous(events) && done.len()
            <= events.len() && events.take(done.len() as int) == done,
    decreases all.len() - i,
{
    if i >= all.len() {
        assert(done.take(done.len() as int) =~= done);
    } else if all_space(all[i as int]) {
        lemma_events_numbered(all, i + 1, done);
    } else {
        match event_on(all[i as int]) {
            None => {},
            Some(e) => {
                if e.seq == done.len() {
                    lemma_events_numbered(all, i + 1, done.push(e));
                    if let Ok(events) = events_on(all, i, done) {
                        assert(done =~= done.push(e).take(done.len() as int));
                        assert(events.take(done.len() as int) =~= events.take(
                            done.len() + 1int,
                        ).take(done.len() as int));
                    }
                }
            },
        }
    }
}

/// A recording that is read is sound: its events are numbered from zero without a
/// gap, and it is of the first version of the format. So a fault at a position
/// strikes the effect at that position.
pub proof fn lemma_read_is_sound(s: Seq<char>)
    ensures
        parsed(s) matches Ok(t) ==> contiguous(t.events) && t.header.format_version == 1
            && lines(s).len() > 0 && header_on(lines(s)[0]) == Some(t.header),
{
    lemma_events_numbered(lines(s), 1, seq![]);
}

/// A recording without lines is empty, one whose first line is no header is
/// malformed there, and one of another version is refused with its version.
pub proof fn lemma_bad_start_refused(s: Seq<char>)
    ensures
        lines(s).len() == 0 ==> parsed(s) == Err::<TraceModel, TroubleModel>(TroubleModel::Empty),
        lines(s).len() > 0 && header_on(lines(s)[0]) is None ==> (parsed(s) matches Err(e)
            && e is Parse && e->Parse_line == 1),
        lines(s).len() > 0 && header_on(lines(s)[0]) is Some && header_on(
            lines(s)[0],
        )->0.format_version != 1 ==> parsed(s) == Err::<TraceModel, TroubleModel>(
            TroubleModel::Version {
                found: header_on(lines(s)[0])->0.format_version,
                expected: 1,
            },
        ),
{
}

/// The line behind good ones decides: a blank line is passed over, a line that is
/// no event is malformed, an event with another number than the next one is out
/// of order, each told with its line, counted from one; and the next event is
/// taken.
pub proof fn lemma_next_line(all: Seq<Seq<char>>, i: nat, done: Seq<EventModel>)
    requires
        i < all.len(),
    ensures
        all_space(all[i as int]) ==> events_on(all, i, done) == events_on(all, i + 1, done),
        !all_space(all[i as int]) && event_on(all[i as int]) is None ==> (events_on(
            all,
            i,
            done,
        ) matches Err(e) && e is Parse && e->Parse_line == i + 1),
        !all_space(all[i as int]) && event_on(all[i as int]) is Some && event_on(
            all[i as int],
        )->0.seq != done.len() ==> events_on(all, i, done) == Err::<
            Seq<EventModel>,
            TroubleModel,
        >(
            TroubleModel::Sequence {
                expected: done.len(),
                found: event_on(all[i as int])->0.seq,
                line: i + 1,
            },
        ),
        !all_space(all[i as int]) && event_on(all[i as int]) is Some && event_on(
            all[i as int],
        )->0.seq == done.len() ==> events_on(all, i, done) == events_on(
            all,
            i + 1,
            done.push(event_on(all[i as int])->0),
        ),
{
}

proof fn lemma_within(text: Seq<char>, a: Seq<char>, part: Seq<char>, b: Seq<char>)
    requires
        text == (a + part) + b,
    ensures
        mentions(text, part),
{
}

/// What is wrong with a recording is told with its particulars: the line and the
/// reason, the two versions, or the number that was due, the one that was found
/// and the line.
pub proof fn lemma_trouble_told(e: TroubleModel)
    ensures
        match e {
            TroubleModel::Parse { line, reason } => mentions(trouble(e), decimal(line))
                && mentions(trouble(e), reason),
            TroubleModel::Empty => true,
            TroubleModel::Version { found, expected } => mentions(
                trouble(e),
                decimal(found as nat),
            ) && mentions(trouble(e), decimal(expected as nat)),
            TroubleModel::Sequence { expected, found, line } => mentions(
                trouble(e),
                decimal(expected),
            ) && mentions(trouble(e), decimal(found as nat)) && mentions(
                trouble(e),
                decimal(line),
            ),
        },
{
    let text = trouble(e);
    let none = Seq::<char>::empty();
    match e {
        TroubleModel::Parse { line, reason } => {
            let head = "malformed trace at line "@;
            assert(text =~= (head + decimal(line)) + (": "@ + reason));
            lemma_within(text, head, decimal(line), ": "@ + reason);
            assert(text =~= ((head + decimal(line) + ": "@) + reason) + none);
            lemma_within(text, head + decimal(line) + ": "@, reason, none);
        },
        TroubleModel::Empty => {},
        TroubleModel::Version { found, expected } => {
            let head = "unsupported trace format version "@;
            let tail = " (this build reads "@ + decimal(expected as nat) + ")"@;
            assert(text =~= (head + decimal(found as nat)) + tail);
            lemma_within(text, head, decimal(found as nat), tail);
            lemma_within(
                text,
                head + decimal(found as nat) + " (this build reads "@,
                decimal(expected as nat),
                ")"@,
            );
        },
        TroubleModel::Sequence { expected, found, line } => {
            let head = "event sequence numbers are not contiguous from 0: expected "@;
            let tail = ", found "@ + decimal(found as nat) + " at line "@ + decimal(line);
            assert(text =~= (head + decimal(expected)) + tail);
            lemma_within(text, head, decimal(expected), tail);
            let more = head + decimal(expected) + ", found "@;
            assert(text =~= (more + decimal(found as nat)) + (" at line "@ + decimal(line)));
            lemma_within(text, more, decimal(found as nat), " at line "@ + decimal(line));
            assert(text =~= ((more + decimal(found as nat) + " at line "@) + decimal(line)) + none);
            lemma_within(
                text,
                more + decimal(found as nat) + " at line "@,
                decimal(line),
                none,
            );
        },
    }
}

} // verus!
