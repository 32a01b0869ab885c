//! What the invariants say of a run: which failures leave it open if anything
//! happened, and what each invariant reports, and where.

use crate::cas::{Cas, Contents};
use crate::event::{EffectKind, EventModel, OutcomeModel};
use crate::invariants::{
    after_failures, budget_breach, call_count, calls, company_breaches, duplicates,
    excess_breaches, failed_at, first_effect, first_excess, first_landing, landing_of,
    length_breaches, may_have_landed, outcome_landed, relevant, seen_failing, seen_working,
    token_breaches, tokens_of, tokens_total, Invariant, Landing, MaxCalls, NeverAfterFailure,
    NoDuplicateEffects, Requires, TerminatesWithin, TokenBudget,
};
use crate::json::{get, whole, JsonModel};
use crate::oracle::outcome_at;
use crate::replay::request_at;
use crate::text::{lower, same_ignoring_case};
use crate::trace::TraceModel;
use vstd::prelude::*;

verus! {

// ---------------------------------------------------------------------------
// What may have happened
// ---------------------------------------------------------------------------

/// A failure that lost the answer leaves it open whether the call did anything:
/// a timeout, a connection that was reset or refused, an unknown trouble, and a
/// gateway that got no good answer, had none to ask or waited too long. The code
/// may be written in any case.
pub proof fn lemma_lost_answers(code: Seq<char>, message: Seq<char>)
    requires
        same_ignoring_case(code, "timeout"@) || same_ignoring_case(code, "connection_reset"@)
            || same_ignoring_case(code, "connection_refused"@) || same_ignoring_case(
            code,
            "unknown"@,
        ) || same_ignoring_case(code, "502"@) || same_ignoring_case(code, "503"@)
            || same_ignoring_case(code, "504"@),
    ensures
        outcome_landed(Some(OutcomeModel::Failure { code, message })) == Landing::Maybe,
{
}

/// Whether a text is made of decimal digits.
pub open spec fn all_digits(s: Seq<char>) -> bool {
    forall|i: int| 0 <= i < s.len() ==> '0' as int <= (#[trigger] s[i]) as int <= '9' as int
}

proof fn lemma_digits_are_no_word(code: Seq<char>, word: Seq<char>)
    requires
        all_digits(code),
        word.len() > 0,
        'a' as int <= word[0] as int <= 'z' as int,
    ensures
        !same_ignoring_case(code, word),
{
    if same_ignoring_case(code, word) {
        assert(lower(code[0]) == lower(word[0]));
    }
}

proof fn lemma_same_digits(code: Seq<char>, other: Seq<char>)
    requires
        all_digits(code),
        all_digits(other),
    ensures
        same_ignoring_case(code, other) <==> code == other,
{
    if same_ignoring_case(code, other) {
        assert forall|i: int| 0 <= i < code.len() implies code[i] == other[i] by {
            assert(lower(code[i]) == lower(other[i]));
        }
        assert(code =~= other);
    }
}

/// A refusal did nothing: of the codes that are numbers, only those of a
/// gateway leave it open. In particular a server that understood a call and
/// rejected it did not do what it was asked.
pub proof fn lemma_refusals_did_nothing(code: Seq<char>, message: Seq<char>)
    requires
        all_digits(code),
    ensures
        outcome_landed(Some(OutcomeModel::Failure { code, message })) == if code == seq![
            '5',
            '0',
            '2',
        ] || code == seq!['5', '0', '3'] || code == seq!['5', '0', '4'] {
            Landing::Maybe
        } else {
            Landing::No
        },
        code.len() == 3 && code[0] == '4' ==> outcome_landed(
            Some(OutcomeModel::Failure { code, message }),
        ) == Landing::No,
{
    reveal_strlit("timeout");
    reveal_strlit("connection_reset");
    reveal_strlit("connection_refused");
    reveal_strlit("unknown");
    reveal_strlit("502");
    reveal_strlit("503");
    reveal_strlit("504");
    lemma_digits_are_no_word(code, "timeout"@);
    lemma_digits_are_no_word(code, "connection_reset"@);
    lemma_digits_are_no_word(code, "connection_refused"@);
    lemma_digits_are_no_word(code, "unknown"@);
    assert("502"@ =~= seq!['5', '0', '2']);
    assert("503"@ =~= seq!['5', '0', '3']);
    assert("504"@ =~= seq!['5', '0', '4']);
    lemma_same_digits(code, "502"@);
    lemma_same_digits(code, "503"@);
    lemma_same_digits(code, "504"@);
}

/// A success happened, and of an outcome that is not there nothing is known.
pub proof fn lemma_successes_happened(value: JsonModel)
    ensures
        outcome_landed(Some(OutcomeModel::Success { value })) == Landing::Yes,
        outcome_landed(None) == Landing::Maybe,
{
}

/// Where a fault was injected, what the agent was shown says nothing of what
/// happened: the outcome that was hidden from it does. Elsewhere the outcome
/// that it saw does.
pub proof fn lemma_hidden_outcome_counts(e: EventModel, shown: Seq<char>, contents: Contents)
    ensures
        e.fault is Some ==> landing_of(e, contents) == landing_of(
            EventModel { outcome: shown, ..e },
            contents,
        ),
        e.fault is Some && e.shadow is None ==> landing_of(e, contents) == Landing::Maybe,
        e.fault is Some && e.shadow is Some ==> landing_of(e, contents) == outcome_landed(
            outcome_at(contents, e.shadow->0),
        ),
        e.fault is None ==> landing_of(e, contents) == outcome_landed(
            outcome_at(contents, e.outcome),
        ),
{
}

// ---------------------------------------------------------------------------
// No side effect happens twice
// ---------------------------------------------------------------------------

/// Whether an event is a call of a watched tool that declares no key.
pub open spec fn guarded(
    tools: Seq<Seq<char>>,
    field: Option<Seq<char>>,
    e: EventModel,
    contents: Contents,
) -> bool {
    &&& e.kind == EffectKind::Tool
    &&& tools.len() == 0 || exists|i: int| 0 <= i < tools.len() && #[trigger] tools[i] == e.name
    &&& !(field matches Some(key) && request_at(contents, e.request) matches Some(request) && get(
        request.body,
        key,
    ) matches Some(v) && v != JsonModel::Null)
}

/// Whether an event is a guarded call that may have taken effect.
#[verifier::opaque]
pub open spec fn may_count(
    tools: Seq<Seq<char>>,
    field: Option<Seq<char>>,
    e: EventModel,
    contents: Contents,
) -> bool {
    guarded(tools, field, e, contents) && landing_of(e, contents) != Landing::No
}

proof fn lemma_may_count(
    tools: Seq<Seq<char>>,
    field: Option<Seq<char>>,
    e: EventModel,
    contents: Contents,
)
    ensures
        relevant(tools, field, e, contents) <==> may_count(tools, field, e, contents),
{
    reveal(may_count);
    if tools.contains(e.name) {
        let i = choose|i: int| 0 <= i < tools.len() && tools[i] == e.name;
        assert(tools[i] == e.name);
    }
}

proof fn lemma_first_landing_there(
    tools: Seq<Seq<char>>,
    field: Option<Seq<char>>,
    events: Seq<EventModel>,
    contents: Contents,
    identity: Seq<char>,
)
    ensures
        first_landing(tools, field, events, contents, identity) < events.len(),
        first_landing(tools, field, events, contents, identity) >= 0 <==> exists|i: int|
            0 <= i < events.len() && may_count(tools, field, #[trigger] events[i], contents)
                && events[i].identity == identity,
    decreases events.len(),
{
    if events.len() > 0 {
        let front = events.drop_last();
        let last = events.len() - 1;
        lemma_first_landing_there(tools, field, front, contents, identity);
        lemma_may_count(tools, field, events[last], contents);
        if first_landing(tools, field, front, contents, identity) >= 0 {
            let i = choose|i: int|
                0 <= i < front.len() && may_count(tools, field, #[trigger] front[i], contents)
                    && front[i].identity == identity;
            assert(events[i] == front[i]);
        }
        if exists|i: int|
            0 <= i < events.len() && may_count(tools, field, #[trigger] events[i], contents)
                && events[i].identity == identity {
            let i = choose|i: int|
                0 <= i < events.len() && may_count(tools, field, #[trigger] events[i], contents)
                    && events[i].identity == identity;
            if i < last {
                assert(front[i] == events[i]);
            }
        }
    }
}

/// A repeated side effect is reported where it is repeated, and nothing else
/// is: an effect adds a violation, at its own number, exactly where it is a
/// guarded call that may have taken effect though an earlier one with the same
/// arguments may have too. A run without effects repeats nothing.
pub proof fn lemma_repeats_reported(
    tools: Seq<Seq<char>>,
    field: Option<Seq<char>>,
    events: Seq<EventModel>,
    e: EventModel,
    contents: Contents,
)
    ensures
        duplicates(tools, field, seq![], contents).len() == 0,
        ({
            let before = duplicates(tools, field, events, contents);
            let after = duplicates(tools, field, events.push(e), contents);
            if may_count(tools, field, e, contents) && exists|i: int|
                0 <= i < events.len() && may_count(tools, field, #[trigger] events[i], contents)
                    && events[i].identity == e.identity {
                &&& after.len() == before.len() + 1
                &&& after.drop_last() == before
                &&& after.last().at_seq == Some(e.seq)
            } else {
                after == before
            }
        }),
{
    assert(events.push(e).drop_last() =~= events);
    lemma_may_count(tools, field, e, contents);
    lemma_first_landing_there(tools, field, events, contents, e.identity);
    let before = duplicates(tools, field, events, contents);
    let after = duplicates(tools, field, events.push(e), contents);
    if after.len() > before.len() {
        assert(after.drop_last() =~= before);
    }
}

/// What is reported of the start of a run is reported of the run.
pub proof fn lemma_reports_stay(
    tools: Seq<Seq<char>>,
    field: Option<Seq<char>>,
    events: Seq<EventModel>,
    contents: Contents,
    n: int,
)
    requires
        0 <= n <= events.len(),
    ensures
        ({
            let early = duplicates(tools, field, events.take(n), contents);
            let all = duplicates(tools, field, events, contents);
            early.len() <= all.len() && early == all.take(early.len() as int)
        }),
    decreases events.len() - n,
{
    let early = duplicates(tools, field, events.take(n), contents);
    if n == events.len() {
        assert(events.take(n) =~= events);
        assert(early =~= early.take(early.len() as int));
    } else {
        lemma_reports_stay(tools, field, events, contents, n + 1);
        lemma_repeats_reported(tools, field, events.take(n), events[n], contents);
        assert(events.take(n + 1) =~= events.take(n).push(events[n]));
        let next = duplicates(tools, field, events.take(n + 1), contents);
        let all = duplicates(tools, field, events, contents);
        if next.len() > early.len() {
            assert(early =~= next.take(early.len() as int));
        }
        assert(early =~= all.take(early.len() as int));
    }
}

/// A retry after a lost answer is the dangerous one: where a watched call
/// without a key was answered with a code that leaves it open, and the same call
/// then succeeded, that is reported at the second.
pub proof fn lemma_retry_after_lost_answer(
    tools: Seq<Seq<char>>,
    field: Option<Seq<char>>,
    events: Seq<EventModel>,
    contents: Contents,
    i: int,
    j: int,
    code: Seq<char>,
    message: Seq<char>,
    value: JsonModel,
)
    requires
        0 <= i < j < events.len(),
        guarded(tools, field, events[i], contents),
        guarded(tools, field, events[j], contents),
        events[i].identity == events[j].identity,
        events[i].fault is None,
        events[j].fault is None,
        outcome_at(contents, events[i].outcome) == Some(OutcomeModel::Failure { code, message }),
        outcome_at(contents, events[j].outcome) == Some(OutcomeModel::Success { value }),
        same_ignoring_case(code, "timeout"@) || same_ignoring_case(code, "connection_reset"@)
            || same_ignoring_case(code, "connection_refused"@) || same_ignoring_case(
            code,
            "unknown"@,
        ) || same_ignoring_case(code, "502"@) || same_ignoring_case(code, "503"@)
            || same_ignoring_case(code, "504"@),
    ensures
        exists|k: int|
            0 <= k < duplicates(tools, field, events, contents).len() && (#[trigger] duplicates(
                tools,
                field,
                events,
                contents,
            )[k]).at_seq == Some(events[j].seq),
{
    lemma_lost_answers(code, message);
    let early = events.take(j);
    assert(early[i] == events[i]);
    assert(may_count(tools, field, early[i], contents)) by {
        reveal(may_count);
    }
    assert(may_count(tools, field, events[j], contents)) by {
        reveal(may_count);
    }
    lemma_repeats_reported(tools, field, early, events[j], contents);
    assert(events.take(j + 1) =~= early.push(events[j]));
    lemma_reports_stay(tools, field, events, contents, j + 1);
    let found = duplicates(tools, field, events.take(j + 1), contents);
    let all = duplicates(tools, field, events, contents);
    assert(all[found.len() - 1] == found.last());
}

/// A retry after a refusal is harmless: where every earlier attempt of a call
/// was refused, the one that follows is not reported.
pub proof fn lemma_retry_after_refusal(
    tools: Seq<Seq<char>>,
    field: Option<Seq<char>>,
    events: Seq<EventModel>,
    e: EventModel,
    contents: Contents,
)
    requires
        forall|i: int|
            0 <= i < events.len() && (#[trigger] events[i]).identity == e.identity ==> landing_of(
                events[i],
                contents,
            ) == Landing::No,
    ensures
        duplicates(tools, field, events.push(e), contents) == duplicates(
            tools,
            field,
            events,
            contents,
        ),
{
    lemma_repeats_reported(tools, field, events, e, contents);
    reveal(may_count);
}

// ---------------------------------------------------------------------------
// Bounds
// ---------------------------------------------------------------------------

/// A run is too long exactly where it has more effects than it may have, and
/// that is reported once, at the first effect beyond the bound.
pub proof fn lemma_length_bound(limit: usize, trace: TraceModel)
    ensures
        length_breaches(limit, trace).len() == if trace.events.len() > limit {
            1nat
        } else {
            0
        },
        trace.events.len() > limit ==> length_breaches(limit, trace)[0].at_seq == Some(
            limit as u64,
        ),
{
}

/// What a model call consumed: what its answer's usage block says went in and
/// what it says came out. Calls of anything else, failures and answers without a
/// usage block consume nothing.
pub proof fn lemma_tokens_counted(
    e: EventModel,
    contents: Contents,
    value: JsonModel,
    usage: JsonModel,
    n: u64,
    m: u64,
)
    requires
        e.kind == EffectKind::Model,
        outcome_at(contents, e.outcome) == Some(OutcomeModel::Success { value }),
        n + m <= u64::MAX,
    ensures
        get(value, "usage"@) == Some(usage) && (get(usage, "input_tokens"@) matches Some(a)
            && whole(a) == Some(n)) && (get(usage, "output_tokens"@) matches Some(b) && whole(b)
            == Some(m)) ==> tokens_of(e, contents) == Some((n + m) as u64),
        get(value, "usage"@) == Some(usage) && (get(usage, "input_tokens"@) matches Some(a)
            && whole(a) == Some(n)) && get(usage, "output_tokens"@) is None ==> tokens_of(
            e,
            contents,
        ) == Some(n),
        get(value, "usage"@) == Some(usage) && (get(usage, "output_tokens"@) matches Some(b)
            && whole(b) == Some(m)) && get(usage, "input_tokens"@) is None ==> tokens_of(
            e,
            contents,
        ) == Some(m),
        get(value, "usage"@) is None ==> tokens_of(e, contents) == Some(0u64),
{
}

/// Only the answers that model calls really got count.
pub proof fn lemma_tokens_of_models_only(e: EventModel, contents: Contents)
    ensures
        e.kind != EffectKind::Model ==> tokens_of(e, contents) is None,
        !(outcome_at(contents, e.outcome) matches Some(OutcomeModel::Success { .. })) ==> tokens_of(
            e,
            contents,
        ) is None,
{
}

/// The tokens of a run, without a limit to how many there can be.
pub open spec fn tokens_in_all(events: Seq<EventModel>, contents: Contents) -> nat
    decreases events.len(),
{
    if events.len() == 0 {
        0
    } else {
        tokens_in_all(events.drop_last(), contents) + match tokens_of(events.last(), contents) {
            Some(n) => n as nat,
            None => 0,
        }
    }
}

proof fn lemma_total(events: Seq<EventModel>, contents: Contents)
    ensures
        tokens_total(events, contents) == if tokens_in_all(events, contents) <= u64::MAX {
            tokens_in_all(events, contents)
        } else {
            u64::MAX as nat
        },
    decreases events.len(),
{
    if events.len() > 0 {
        lemma_total(events.drop_last(), contents);
    }
}

proof fn lemma_breach(events: Seq<EventModel>, contents: Contents, budget: u64)
    requires
        budget < u64::MAX,
    ensures
        budget_breach(events, contents, budget) is Some <==> tokens_in_all(events, contents)
            > budget,
        budget_breach(events, contents, budget) matches Some(seq) ==> exists|j: int|
            0 <= j < events.len() && (#[trigger] events[j]).seq == seq && tokens_in_all(
                events.take(j),
                contents,
            ) <= budget < tokens_in_all(events.take(j + 1), contents),
    decreases events.len(),
{
    if events.len() > 0 {
        let front = events.drop_last();
        let last = events.len() - 1;
        lemma_breach(front, contents, budget);
        lemma_total(events, contents);
        match budget_breach(front, contents, budget) {
            Some(seq) => {
                let j = choose|j: int|
                    0 <= j < front.len() && (#[trigger] front[j]).seq == seq && tokens_in_all(
                        front.take(j),
                        contents,
                    ) <= budget < tokens_in_all(front.take(j + 1), contents);
                assert(events[j] == front[j]);
                assert(events.take(j) =~= front.take(j));
                assert(events.take(j + 1) =~= front.take(j + 1));
            },
            None => {
                assert(events.take(last) =~= front);
                assert(events.take(last + 1) =~= events);
                assert(events[last].seq == events.last().seq);
            },
        }
    }
}

/// A budget is overrun exactly where the tokens of all model calls together are
/// more than it, and that is reported once, at the call that went over it.
pub proof fn lemma_budget_bound(budget: u64, trace: TraceModel, contents: Contents)
    requires
        budget < u64::MAX,
    ensures
        token_breaches(budget, trace, contents).len() == if tokens_in_all(trace.events, contents)
            > budget {
            1nat
        } else {
            0
        },
        tokens_in_all(trace.events, contents) > budget ==> exists|j: int|
            0 <= j < trace.events.len() && token_breaches(budget, trace, contents)[0].at_seq
                == Some((#[trigger] trace.events[j]).seq) && tokens_in_all(
                trace.events.take(j),
                contents,
            ) <= budget < tokens_in_all(trace.events.take(j + 1), contents),
{
    lemma_breach(trace.events, contents, budget);
}

proof fn lemma_excess(events: Seq<EventModel>, tool: Seq<char>, max: nat)
    ensures
        first_excess(events, tool, max) is Some <==> call_count(events, tool) > max,
        first_excess(events, tool, max) matches Some(seq) ==> exists|j: int|
            0 <= j < events.len() && (#[trigger] events[j]).seq == seq && events[j].kind
                == EffectKind::Tool && events[j].name == tool && call_count(events.take(j), tool)
                == max,
    decreases events.len(),
{
    if events.len() > 0 {
        let front = events.drop_last();
        let last = events.len() - 1;
        lemma_excess(front, tool, max);
        match first_excess(front, tool, max) {
            Some(seq) => {
                let j = choose|j: int|
                    0 <= j < front.len() && (#[trigger] front[j]).seq == seq && front[j].kind
                        == EffectKind::Tool && front[j].name == tool && call_count(
                        front.take(j),
                        tool,
                    ) == max;
                assert(events[j] == front[j]);
                assert(events.take(j) =~= front.take(j));
            },
            None => {
                assert(events.take(last) =~= front);
                assert(events[last] == events.last());
            },
        }
    }
}

/// How many of some events are calls of a tool, counted by picking them out.
pub proof fn lemma_calls_counted(events: Seq<EventModel>, tool: Seq<char>)
    ensures
        call_count(events, tool) == events.filter(
            |e: EventModel| e.kind == EffectKind::Tool && e.name == tool,
        ).len(),
    decreases events.len(),
{
    reveal(Seq::filter);
    if events.len() > 0 {
        lemma_calls_counted(events.drop_last(), tool);
    }
}

/// A ceiling is broken exactly where a tool is called more often than it may be,
/// and that is reported once, at the first call beyond it: the one before which
/// the tool had been called as often as it may.
pub proof fn lemma_ceiling(tool: Seq<char>, max: usize, trace: TraceModel)
    ensures
        excess_breaches(tool, max, trace).len() == if call_count(trace.events, tool) > max {
            1nat
        } else {
            0
        },
        call_count(trace.events, tool) > max ==> exists|j: int|
            0 <= j < trace.events.len() && excess_breaches(tool, max, trace)[0].at_seq == Some(
                (#[trigger] trace.events[j]).seq,
            ) && trace.events[j].kind == EffectKind::Tool && trace.events[j].name == tool
                && call_count(trace.events.take(j), tool) == max,
{
    lemma_excess(trace.events, tool, max as nat);
}

// ---------------------------------------------------------------------------
// Order and company
// ---------------------------------------------------------------------------

/// Whether an event is a call of a tool that the agent saw fail.
#[verifier::opaque]
pub open spec fn saw_failure(e: EventModel, contents: Contents, tool: Seq<char>) -> bool {
    e.kind == EffectKind::Tool && e.name == tool && outcome_at(contents, e.outcome) is Some
        && outcome_at(contents, e.outcome)->0 is Failure
}

/// Whether an event is a call of a tool that the agent saw succeed.
#[verifier::opaque]
pub open spec fn saw_success(e: EventModel, contents: Contents, tool: Seq<char>) -> bool {
    e.kind == EffectKind::Tool && e.name == tool && outcome_at(contents, e.outcome) is Some
        && outcome_at(contents, e.outcome)->0 is Success
}

/// Whether a tool was seen to fail among some events, and not to succeed since.
pub open spec fn left_failing(
    events: Seq<EventModel>,
    contents: Contents,
    tool: Seq<char>,
) -> bool {
    exists|i: int|
        0 <= i < events.len() && #[trigger] saw_failure(events[i], contents, tool) && forall|k: int|
            i < k < events.len() ==> !#[trigger] saw_success(events[k], contents, tool)
}

proof fn lemma_failed_at(events: Seq<EventModel>, contents: Contents, tool: Seq<char>)
    ensures
        failed_at(events, contents, tool) is Some <==> left_failing(events, contents, tool),
    decreases events.len(),
{
    if events.len() > 0 {
        let n = events.len() as int;
        let front = events.drop_last();
        let e = events.last();
        lemma_failed_at(front, contents, tool);
        assert(events[n - 1] == e);
        assert(saw_failure(e, contents, tool) == (calls(e, tool) && seen_failing(e, contents))) by {
            reveal(saw_failure);
        }
        assert(saw_success(e, contents, tool) == (calls(e, tool) && seen_working(e, contents))) by {
            reveal(saw_success);
        }
        if saw_failure(e, contents, tool) {
            assert(saw_failure(events[n - 1], contents, tool));
            assert(left_failing(events, contents, tool));
        } else if saw_success(e, contents, tool) {
            assert(saw_success(events[n - 1], contents, tool));
        } else {
            if left_failing(front, contents, tool) {
                let i = choose|i: int|
                    0 <= i < front.len() && #[trigger] saw_failure(front[i], contents, tool)
                        && forall|k: int|
                        i < k < front.len() ==> !#[trigger] saw_success(front[k], contents, tool);
                assert(events[i] == front[i]);
                assert(saw_failure(events[i], contents, tool));
                assert forall|k: int| i < k < n implies !#[trigger] saw_success(
                    events[k],
                    contents,
                    tool,
                ) by {
                    if k < n - 1 {
                        assert(front[k] == events[k]);
                        assert(!saw_success(front[k], contents, tool));
                    }
                }
            }
            if left_failing(events, contents, tool) {
                let i = choose|i: int|
                    0 <= i < n && #[trigger] saw_failure(events[i], contents, tool) && forall|
                        k: int,
                    |
                        i < k < n ==> !#[trigger] saw_success(events[k], contents, tool);
                assert(front[i] == events[i]);
                assert(saw_failure(front[i], contents, tool));
                assert forall|k: int| i < k < front.len() implies !#[trigger] saw_success(
                    front[k],
                    contents,
                    tool,
                ) by {
                    assert(front[k] == events[k]);
                    assert(!saw_success(events[k], contents, tool));
                }
            }
        }
    }
}

/// A ban is broken where it is broken, and nowhere else: an effect adds a
/// violation, at its own number, exactly where it is a call of the banned tool
/// while the other tool was left failing. A success of the other lifts the ban.
pub proof fn lemma_bans(
    events: Seq<EventModel>,
    e: EventModel,
    contents: Contents,
    tool: Seq<char>,
    after: Seq<char>,
)
    ensures
        after_failures(seq![], contents, tool, after).len() == 0,
        ({
            let before = after_failures(events, contents, tool, after);
            let now = after_failures(events.push(e), contents, tool, after);
            if e.kind == EffectKind::Tool && e.name == tool && left_failing(
                events,
                contents,
                after,
            ) {
                &&& now.len() == before.len() + 1
                &&& now.drop_last() == before
                &&& now.last().at_seq == Some(e.seq)
            } else {
                now == before
            }
        }),
{
    assert(events.push(e).drop_last() =~= events);
    lemma_failed_at(events, contents, after);
    let before = after_failures(events, contents, tool, after);
    let now = after_failures(events.push(e), contents, tool, after);
    if now.len() > before.len() {
        assert(now.drop_last() =~= before);
    }
}

proof fn lemma_first_effect(events: Seq<EventModel>, contents: Contents, tool: Seq<char>)
    ensures
        first_effect(events, contents, tool) is Some <==> exists|i: int|
            0 <= i < events.len() && (#[trigger] events[i]).kind == EffectKind::Tool
                && events[i].name == tool && landing_of(events[i], contents) == Landing::Yes,
    decreases events.len(),
{
    if events.len() > 0 {
        let front = events.drop_last();
        let last = events.len() - 1;
        lemma_first_effect(front, contents, tool);
        assert(events[last] == events.last());
        if first_effect(front, contents, tool) is Some {
            let i = choose|i: int|
                0 <= i < front.len() && (#[trigger] front[i]).kind == EffectKind::Tool
                    && front[i].name == tool && landing_of(front[i], contents) == Landing::Yes;
            assert(events[i] == front[i]);
        }
        if exists|i: int|
            0 <= i < events.len() && (#[trigger] events[i]).kind == EffectKind::Tool
                && events[i].name == tool && landing_of(events[i], contents) == Landing::Yes {
            let i = choose|i: int|
                0 <= i < events.len() && (#[trigger] events[i]).kind == EffectKind::Tool
                    && events[i].name == tool && landing_of(events[i], contents) == Landing::Yes;
            if i < last {
                assert(front[i] == events[i]);
            }
        }
    }
}

/// A tool lacks its companion exactly where it surely took effect and every
/// call of the companion was surely refused, and that is reported once.
pub proof fn lemma_company(
    tool: Seq<char>,
    companion: Seq<char>,
    trace: TraceModel,
    contents: Contents,
)
    ensures
        company_breaches(tool, companion, trace, contents).len() == if (exists|i: int|
            0 <= i < trace.events.len() && (#[trigger] trace.events[i]).kind == EffectKind::Tool
                && trace.events[i].name == tool && landing_of(trace.events[i], contents)
                == Landing::Yes) && (forall|i: int|
            0 <= i < trace.events.len() && (#[trigger] trace.events[i]).kind == EffectKind::Tool
                && trace.events[i].name == companion ==> landing_of(trace.events[i], contents)
                == Landing::No) {
            1nat
        } else {
            0
        },
{
    lemma_first_effect(trace.events, contents, tool);
    if may_have_landed(trace.events, contents, companion) {
        let i = choose|i: int|
            0 <= i < trace.events.len() && calls(#[trigger] trace.events[i], companion)
                && landing_of(trace.events[i], contents) != Landing::No;
        assert(trace.events[i].name == companion);
    } else {
        assert forall|i: int|
            0 <= i < trace.events.len() && (#[trigger] trace.events[i]).kind == EffectKind::Tool
                && trace.events[i].name == companion implies landing_of(trace.events[i], contents)
            == Landing::No by {
            assert(calls(trace.events[i], companion));
        }
    }
}

// ---------------------------------------------------------------------------
// Names
// ---------------------------------------------------------------------------

proof fn lemma_duplicates_named(
    tools: Seq<Seq<char>>,
    field: Option<Seq<char>>,
    events: Seq<EventModel>,
    contents: Contents,
)
    ensures
        forall|k: int|
            0 <= k < duplicates(tools, field, events, contents).len() ==> (#[trigger] duplicates(
                tools,
                field,
                events,
                contents,
            )[k]).invariant == "no_duplicate_effects"@,
    decreases events.len(),
{
    if events.len() > 0 {
        lemma_duplicates_named(tools, field, events.drop_last(), contents);
    }
}

proof fn lemma_bans_named(
    events: Seq<EventModel>,
    contents: Contents,
    tool: Seq<char>,
    after: Seq<char>,
)
    ensures
        forall|k: int|
            0 <= k < after_failures(events, contents, tool, after).len() ==> (
            #[trigger] after_failures(events, contents, tool, after)[k]).invariant
                == "never_after_failure"@,
    decreases events.len(),
{
    if events.len() > 0 {
        lemma_bans_named(events.drop_last(), contents, tool, after);
    }
}

/// A violation goes by the name of the invariant that it breaks.
pub proof fn lemma_violations_named<C: Cas>(
    one: NoDuplicateEffects,
    two: NeverAfterFailure,
    trace: TraceModel,
    contents: Contents,
)
    ensures
        forall|k: int|
            0 <= k < <NoDuplicateEffects as Invariant<C>>::breaches(&one, trace, contents).len()
                ==> (#[trigger] <NoDuplicateEffects as Invariant<C>>::breaches(
                &one,
                trace,
                contents,
            )[k]).invariant == <NoDuplicateEffects as Invariant<C>>::title(&one),
        forall|k: int|
            0 <= k < <NeverAfterFailure as Invariant<C>>::breaches(&two, trace, contents).len()
                ==> (#[trigger] <NeverAfterFailure as Invariant<C>>::breaches(
                &two,
                trace,
                contents,
            )[k]).invariant == <NeverAfterFailure as Invariant<C>>::title(&two),
{
    let tools = crate::text::texts(one.tools@);
    lemma_duplicates_named(tools, one.field(), trace.events, contents);
    lemma_bans_named(trace.events, contents, two.tool@, two.after@);
}

/// A violation of a bound or of company goes by the name of the invariant that
/// it breaks.
pub proof fn lemma_bounds_named<C: Cas>(
    length: TerminatesWithin,
    budget: TokenBudget,
    ceiling: MaxCalls,
    company: Requires,
    trace: TraceModel,
    contents: Contents,
)
    ensures
        forall|k: int|
            0 <= k < <TerminatesWithin as Invariant<C>>::breaches(&length, trace, contents).len()
                ==> (#[trigger] <TerminatesWithin as Invariant<C>>::breaches(
                &length,
                trace,
                contents,
            )[k]).invariant == <TerminatesWithin as Invariant<C>>::title(&length),
        forall|k: int|
            0 <= k < <TokenBudget as Invariant<C>>::breaches(&budget, trace, contents).len() ==> (
            #[trigger] <TokenBudget as Invariant<C>>::breaches(&budget, trace, contents)[k]).invariant
                == <TokenBudget as Invariant<C>>::title(&budget),
        forall|k: int|
            0 <= k < <MaxCalls as Invariant<C>>::breaches(&ceiling, trace, contents).len() ==> (
            #[trigger] <MaxCalls as Invariant<C>>::breaches(&ceiling, trace, contents)[k]).invariant
                == <MaxCalls as Invariant<C>>::title(&ceiling),
        forall|k: int|
            0 <= k < <Requires as Invariant<C>>::breaches(&company, trace, contents).len() ==> (
            #[trigger] <Requires as Invariant<C>>::breaches(&company, trace, contents)[k]).invariant
                == <Requires as Invariant<C>>::title(&company),
{
}

} // verus!
