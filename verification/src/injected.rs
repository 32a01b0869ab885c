//! What a fault does to what an agent sees, and how often each fault is drawn.

use crate::event::{EffectKind, OutcomeModel, RequestModel};
use crate::fault::{
    applied, drawn_fault, fault_at, label_of, weighted, FaultModel, PointModel,
};
use crate::invariants::{outcome_landed, Landing};
use crate::json::{json_text, ordered, plain, printed, JsonModel};
use crate::layout::{lemma_text_whole, outside, scanned};
use crate::replayer::{observed, performed, ModeModel, ReplayState};
use crate::rng::{drawn_u32, RngModel};
use crate::text::{cut, fitting, width};
use vstd::prelude::*;
use vstd::utf8::{encode_scalar, encode_utf8};

verus! {

/// Whether a text opens a bracket outside of strings that it never closes.
pub open spec fn left_open(t: Seq<char>) -> bool {
    scanned(t, outside(0)).depth > 0
}

/// No document's text leaves a bracket open.
pub proof fn lemma_documents_close(m: JsonModel)
    requires
        plain(m),
    ensures
        !left_open(json_text(m)),
{
    lemma_text_whole(m, 0);
}

proof fn lemma_broken_off(t: Seq<char>)
    requires
        t == "{\"truncated\": tru"@,
    ensures
        left_open(t),
{
    reveal_strlit("{\"truncated\": tru");
    assert(t.len() == 17);
    reveal_with_fuel(scanned, 18);
    assert(scanned(t.take(1), outside(0)) == outside(1)) by {
        assert(t.take(1).drop_last() =~= seq![]);
    }
    assert(t.take(17) =~= t);
    let quoted = t.take(12);
    assert(quoted.drop_last() =~= t.take(11));
    assert(t.take(11).drop_last() =~= t.take(10));
    assert(t.take(10).drop_last() =~= t.take(9));
    assert(t.take(9).drop_last() =~= t.take(8));
    assert(t.take(8).drop_last() =~= t.take(7));
    assert(t.take(7).drop_last() =~= t.take(6));
    assert(t.take(6).drop_last() =~= t.take(5));
    assert(t.take(5).drop_last() =~= t.take(4));
    assert(t.take(4).drop_last() =~= t.take(3));
    assert(t.take(3).drop_last() =~= t.take(2));
    assert(t.take(2).drop_last() =~= t.take(1));
    assert(scanned(quoted, outside(0)) == outside(1));
    assert(t.drop_last() =~= t.take(16));
    assert(t.take(16).drop_last() =~= t.take(15));
    assert(t.take(15).drop_last() =~= t.take(14));
    assert(t.take(14).drop_last() =~= t.take(13));
    assert(t.take(13).drop_last() =~= quoted);
}

/// A malformed result is a success that carries a text which is no JSON,
/// whatever the call really gave: it opens an object and never closes it, so it
/// is the text of no document, and no result that is a well-formed document, or
/// the text of one, is seen as it was.
pub proof fn lemma_malformed_is_no_json(truth: OutcomeModel)
    ensures
        applied(FaultModel::Malformed, truth) matches OutcomeModel::Success {
            value: JsonModel::Text(t),
        } && left_open(t) && forall|m: JsonModel| plain(m) ==> t != #[trigger] json_text(m),
        truth matches OutcomeModel::Success { value } && !(value matches JsonModel::Text(t)
            && left_open(t)) ==> applied(FaultModel::Malformed, truth) != truth,
        truth is Failure ==> applied(FaultModel::Malformed, truth) != truth,
{
    let t = applied(FaultModel::Malformed, truth)->value->Text_0;
    lemma_broken_off(t);
    assert forall|m: JsonModel| plain(m) implies t != #[trigger] json_text(m) by {
        lemma_documents_close(m);
    }
}

/// Only a late or repeated delivery and a changed order leave every outcome as
/// it was.
pub proof fn lemma_what_faults_leave(f: FaultModel)
    ensures
        (forall|truth: OutcomeModel| #[trigger] applied(f, truth) == truth) <==> (f is Duplicate
            || f is Delay || f is Reorder || f is Exact),
{
    let nothing = OutcomeModel::Success { value: JsonModel::Null };
    if !(f is Duplicate || f is Delay || f is Reorder || f is Exact) {
        assert(applied(f, nothing) != nothing);
    }
}

/// A timeout shows a failure that tells nothing of what was done, and the same
/// one whatever the call really gave. An error shows a failure with exactly its
/// code. Neither ever shows a success.
pub proof fn lemma_failures_shown(truth: OutcomeModel, other: OutcomeModel, code: Seq<char>)
    ensures
        applied(FaultModel::Timeout, truth) is Failure,
        applied(FaultModel::Timeout, truth) == applied(FaultModel::Timeout, other),
        outcome_landed(Some(applied(FaultModel::Timeout, truth))) == Landing::Maybe,
        applied(FaultModel::Timeout, truth)->Failure_code == label_of(FaultModel::Timeout),
        applied(FaultModel::Error { code }, truth) matches OutcomeModel::Failure { code: shown, .. }
            && shown == code,
        applied(FaultModel::Error { code }, truth) == applied(FaultModel::Error { code }, other),
{
}

proof fn lemma_scalar_bytes(c: char)
    ensures
        encode_scalar(c as u32).len() == width(c),
{
}

proof fn lemma_bytes_on(s: Seq<char>, c: char)
    ensures
        encode_utf8(s.push(c)).len() == encode_utf8(s).len() + width(c),
    decreases s.len(),
{
    reveal_with_fuel(encode_utf8, 2);
    lemma_scalar_bytes(c);
    let all = s.push(c);
    if s.len() == 0 {
        assert(all.drop_first() =~= seq![]);
    } else {
        assert(all.drop_first() =~= s.drop_first().push(c));
        lemma_bytes_on(s.drop_first(), c);
    }
}

proof fn lemma_bytes_front(c: char, s: Seq<char>)
    ensures
        encode_utf8(seq![c] + s).len() == width(c) + encode_utf8(s).len(),
{
    lemma_scalar_bytes(c);
    assert((seq![c] + s).drop_first() =~= s);
}

/// Cutting a text keeps as much of its start as fits into so many bytes.
pub proof fn lemma_cut_fits(s: Seq<char>, n: nat)
    ensures
        cut(s, n).len() <= s.len(),
        cut(s, n) == s.take(cut(s, n).len() as int),
        encode_utf8(cut(s, n)).len() <= n,
        cut(s, n).len() < s.len() ==> encode_utf8(cut(s, n).push(s[cut(s, n).len() as int])).len()
            > n,
    decreases s.len(),
{
    crate::text::lemma_fitting(s, n);
    let k = fitting(s, n);
    if s.len() > 0 && width(s[0]) <= n {
        let rest = s.skip(1);
        let left = (n - width(s[0])) as nat;
        lemma_cut_fits(rest, left);
        assert(cut(s, n) =~= seq![s[0]] + cut(rest, left));
        lemma_bytes_front(s[0], cut(rest, left));
        if cut(s, n).len() < s.len() {
            let next = s[cut(s, n).len() as int];
            assert(next == rest[cut(rest, left).len() as int]);
            assert(cut(s, n).push(next) =~= seq![s[0]] + cut(rest, left).push(next));
            lemma_bytes_front(s[0], cut(rest, left).push(next));
        }
    } else {
        assert(cut(s, n) =~= seq![]);
        if s.len() > 0 {
            lemma_bytes_on(Seq::<char>::empty(), s[0]);
        }
    }
}

/// A result that is cut short is seen as the start of its own text: as much of
/// it as fits into so many bytes, and no more. A failure has nothing to cut.
pub proof fn lemma_truncation_keeps_the_start(keep: usize, truth: OutcomeModel)
    ensures
        truth is Failure ==> applied(FaultModel::Truncate { keep }, truth) == truth,
        truth matches OutcomeModel::Success { value } ==> {
            let whole = printed(ordered(value));
            &&& applied(FaultModel::Truncate { keep }, truth) matches OutcomeModel::Success {
                value: JsonModel::Text(t),
            }
            &&& t.len() <= whole.len()
            &&& t == whole.take(t.len() as int)
            &&& encode_utf8(t).len() <= keep
            &&& t.len() < whole.len() ==> encode_utf8(t.push(whole[t.len() as int])).len() > keep
        },
{
    if truth is Success {
        lemma_cut_fits(printed(ordered(truth->value)), keep as nat);
    }
}

/// Nothing is left of a result that is cut to nothing, so whatever survives of
/// it when more is kept goes beyond it.
pub proof fn lemma_cut_to_nothing(value: JsonModel)
    ensures
        applied(FaultModel::Truncate { keep: 0 }, OutcomeModel::Success { value }) == (
        OutcomeModel::Success { value: JsonModel::Text(seq![]) }),
{
    let whole = printed(ordered(value));
    lemma_cut_fits(whole, 0);
    let t = cut(whole, 0);
    if t.len() > 0 {
        assert(t =~= t.drop_last().push(t.last()));
        lemma_bytes_on(t.drop_last(), t.last());
    }
    assert(t =~= seq![]);
}

/// What the agent sees of a model or tool call that a schedule puts a fault on:
/// nothing of what the call gave but what the fault lets through. The position
/// is that of the call in the run, and the first fault named for it counts.
pub proof fn lemma_scheduled_fault_seen(
    s: ReplayState,
    schedule: Seq<PointModel>,
    at: int,
    r: RequestModel,
    batch: Option<u64>,
)
    requires
        s.mode == (ModeModel::Counterfactual { schedule }),
        0 <= at < schedule.len(),
        schedule[at].seq == s.branch.len(),
        forall|i: int| 0 <= i < at ==> (#[trigger] schedule[i]).seq != schedule[at].seq,
        s.branch.len() <= u64::MAX,
        r.kind == EffectKind::Model || r.kind == EffectKind::Tool,
    ensures
        ({
            let shown = performed(s, r, batch).0;
            let truth = observed(s, r).0.0;
            let f = schedule[at].fault;
            &&& f is Timeout ==> shown is Failure && outcome_landed(Some(shown)) == Landing::Maybe
            &&& f is Error ==> shown is Failure && shown->Failure_code == f->code
            &&& f is Malformed ==> shown is Success && shown->value is Text && left_open(
                shown->value->Text_0,
            )
            &&& f is Truncate && truth is Success ==> shown is Success && shown->value is Text
                && encode_utf8(shown->value->Text_0).len() <= f->keep
            &&& f is Delay || f is Duplicate || f is Reorder || f is Exact ==> shown == truth
            &&& performed(s, r, batch).1.branch.last().fault == if f is Reorder || f is Exact {
                None
            } else {
                Some(f)
            }
        }),
{
    lemma_first_named(schedule, at);
    let truth = observed(s, r).0.0;
    lemma_malformed_is_no_json(truth);
    lemma_failures_shown(truth, truth, seq![]);
    if schedule[at].fault is Truncate {
        lemma_truncation_keeps_the_start(schedule[at].fault->keep, truth);
    }
}

/// A schedule names for a position the first fault it has for it, and none
/// where it has none.
pub proof fn lemma_first_named(schedule: Seq<PointModel>, at: int)
    requires
        0 <= at < schedule.len(),
        forall|i: int| 0 <= i < at ==> (#[trigger] schedule[i]).seq != schedule[at].seq,
    ensures
        fault_at(schedule, schedule[at].seq) == Some(schedule[at].fault),
    decreases schedule.len(),
{
    if at > 0 {
        let rest = schedule.skip(1);
        assert(schedule[0].seq != schedule[at].seq);
        assert forall|i: int| 0 <= i < at - 1 implies (#[trigger] rest[i]).seq != rest[at
            - 1].seq by {
            assert(schedule[i + 1].seq != schedule[at].seq);
        }
        lemma_first_named(rest, at - 1);
    }
}

/// A position that a schedule does not name has no fault.
pub proof fn lemma_unnamed(schedule: Seq<PointModel>, seq: u64)
    requires
        forall|i: int| 0 <= i < schedule.len() ==> (#[trigger] schedule[i]).seq != seq,
    ensures
        fault_at(schedule, seq) is None,
    decreases schedule.len(),
{
    if schedule.len() > 0 {
        assert(schedule[0].seq != seq);
        assert forall|i: int| 0 <= i < schedule.skip(1).len() implies (#[trigger] schedule.skip(
            1,
        )[i]).seq != seq by {
            assert(schedule[i + 1].seq != seq);
        }
        lemma_unnamed(schedule.skip(1), seq);
    }
}

/// A call that no schedule puts a fault on is seen as it was, and so is every
/// clock read and every random draw, whatever is scheduled.
pub proof fn lemma_unfaulted_seen(s: ReplayState, r: RequestModel, batch: Option<u64>)
    ensures
        s.mode is Strict || r.kind == EffectKind::Clock || r.kind == EffectKind::Random
            || (s.mode matches ModeModel::Counterfactual { schedule } && fault_at(
            schedule,
            s.branch.len() as u64,
        ) is None) ==> {
            &&& performed(s, r, batch).0 == observed(s, r).0.0
            &&& performed(s, r, batch).1.branch.last().fault is None
            &&& performed(s, r, batch).1.branch.last().shadow is None
        },
{
}

// ---------------------------------------------------------------------------
// Rolls
// ---------------------------------------------------------------------------

/// How many of the first `n` rolls stand for a fault of some sort, with a
/// detail for each roll.
pub open spec fn rolls_for(
    sort: spec_fn(FaultModel) -> bool,
    details: spec_fn(u32) -> u64,
    n: nat,
) -> nat
    decreases n,
{
    if n == 0 {
        0
    } else {
        let roll = (n - 1) as u32;
        rolls_for(sort, details, (n - 1) as nat) + if sort(weighted(roll, details(roll))) {
            1nat
        } else {
            0nat
        }
    }
}

proof fn lemma_rolls_between(
    sort: spec_fn(FaultModel) -> bool,
    details: spec_fn(u32) -> u64,
    from: int,
    to: int,
    n: nat,
)
    requires
        0 <= from <= to <= 100,
        n <= 100,
        forall|roll: u32|
            roll < 100 ==> (sort(#[trigger] weighted(roll, details(roll))) <==> from <= roll < to),
    ensures
        rolls_for(sort, details, n) == if n <= from {
            0
        } else if n <= to {
            n - from
        } else {
            to - from
        },
    decreases n,
{
    if n > 0 {
        let roll = (n - 1) as u32;
        lemma_rolls_between(sort, details, from, to, (n - 1) as nat);
        assert(sort(weighted(roll, details(roll))) <==> from <= roll < to);
    }
}

/// Of a hundred rolls forty stand for a timeout, twenty for an error, fifteen
/// for a cut, ten each for a repeated delivery and for a malformed result, three
/// for a delay and two for another order. So a timeout is drawn twice as often
/// as anything else.
pub proof fn lemma_weights(details: spec_fn(u32) -> u64)
    ensures
        rolls_for(|f: FaultModel| f is Timeout, details, 100) == 40,
        rolls_for(|f: FaultModel| f is Error, details, 100) == 20,
        rolls_for(|f: FaultModel| f is Truncate, details, 100) == 15,
        rolls_for(|f: FaultModel| f is Duplicate, details, 100) == 10,
        rolls_for(|f: FaultModel| f is Malformed, details, 100) == 10,
        rolls_for(|f: FaultModel| f is Delay, details, 100) == 3,
        rolls_for(|f: FaultModel| f is Reorder, details, 100) == 2,
{
    lemma_rolls_between(|f: FaultModel| f is Timeout, details, 0, 40, 100);
    lemma_rolls_between(|f: FaultModel| f is Error, details, 40, 60, 100);
    lemma_rolls_between(|f: FaultModel| f is Truncate, details, 60, 75, 100);
    lemma_rolls_between(|f: FaultModel| f is Duplicate, details, 75, 85, 100);
    lemma_rolls_between(|f: FaultModel| f is Malformed, details, 85, 95, 100);
    lemma_rolls_between(|f: FaultModel| f is Delay, details, 95, 98, 100);
    lemma_rolls_between(|f: FaultModel| f is Reorder, details, 98, 100, 100);
}

/// The rolls of each sort of fault lie together, the more frequent sorts first:
/// a roll never stands for a rarer fault than a higher one of those that change
/// an outcome.
pub proof fn lemma_rolls_in_order(roll: u32, detail: u64, drawn: RngModel)
    requires
        roll < 100,
    ensures
        weighted(roll, detail) is Timeout <==> roll < 40,
        weighted(roll, detail) is Error <==> 40 <= roll < 60,
        weighted(roll, detail) is Truncate <==> 60 <= roll < 75,
        weighted(roll, detail) is Duplicate <==> 75 <= roll < 85,
        weighted(roll, detail) is Malformed <==> 85 <= roll < 95,
        weighted(roll, detail) is Delay <==> 95 <= roll < 98,
        weighted(roll, detail) is Reorder <==> 98 <= roll,
        drawn_u32(drawn.seed, drawn.at, 0, 99).0 == roll ==> {
            &&& drawn_fault(drawn).0 is Timeout <==> roll < 40
            &&& drawn_fault(drawn).0 is Error <==> 40 <= roll < 60
            &&& drawn_fault(drawn).0 is Truncate <==> 60 <= roll < 75
            &&& drawn_fault(drawn).0 is Duplicate <==> 75 <= roll < 85
            &&& drawn_fault(drawn).0 is Malformed <==> 85 <= roll < 95
        },
{
}

/// The detail of a fault that has one is the detail drawn for it: the bytes
/// kept, the delay, the seed of an order. An error has the code of an internal
/// failure, of an unavailable service or of too many requests, in turn.
pub proof fn lemma_details_drawn(roll: u32, detail: u64)
    requires
        roll < 100,
        detail <= usize::MAX,
    ensures
        weighted(roll, detail) matches FaultModel::Truncate { keep } ==> keep == detail,
        weighted(roll, detail) matches FaultModel::Delay { ms } ==> ms == detail,
        weighted(roll, detail) matches FaultModel::Reorder { seed } ==> seed == detail,
        weighted(roll, detail) matches FaultModel::Error { code } ==> code.len() == 3 && (detail
            == 0 ==> code == seq!['5', '0', '0']) && (detail == 1 ==> code == seq!['5', '0', '3'])
            && (detail >= 2 ==> code == seq!['4', '2', '9']),
{
    reveal_strlit("500");
    reveal_strlit("503");
    reveal_strlit("429");
    assert("500"@ =~= seq!['5', '0', '0']);
    assert("503"@ =~= seq!['5', '0', '3']);
    assert("429"@ =~= seq!['4', '2', '9']);
}

} // verus!
