//! What a certificate attests: when it is clean, what its claims say, which
//! orders were run, and which differences between certificates are reported how.

use crate::certificate::{coverage_lines, issued, Verdict};
use crate::coverage::{
    coverage_claim, failing_with, pairs_claim, singles_claim, CaseModel, CoverageModel,
};
use crate::event::{kind_name, EventModel};
use crate::explore::{batch_starts, broken_names, deed};
use crate::fault::{is_order, permutation_of, unchanged, FaultModel};
use crate::hash::short_of;
use crate::invariants::ViolationModel;
use crate::offscript::mentions;
use crate::orderings::{
    agreeing, arrangements, differing, factorial, faults_of, lemma_orders_complete,
    lemma_orders_count, lemma_orders_distinct, lemma_orders_first, lemma_orders_sound, neighbours,
    order_claim, order_report, orders, Arranged, InterleavingsModel,
};
use crate::text::decimal;
use crate::trace::default_header;
use vstd::prelude::*;

verus! {

// ---------------------------------------------------------------------------
// The verdict
// ---------------------------------------------------------------------------

/// A certificate is clean exactly where no schedule broke anything and no order
/// of any batch changed what the agent did. It is about the run it was made for,
/// by the engine that traces name, and holds what was found as it was found.
pub proof fn lemma_verdict(
    trace: Seq<char>,
    label: Seq<char>,
    invariants: Seq<Seq<char>>,
    coverage: CoverageModel,
    reports: Seq<InterleavingsModel>,
)
    ensures
        ({
            let c = issued(trace, label, invariants, coverage, reports);
            &&& c.verdict == Verdict::Clean <==> coverage.failures.len() == 0 && forall|i: int|
                0 <= i < reports.len() ==> (#[trigger] reports[i]).divergent.len() == 0
            &&& c.verdict != Verdict::Clean ==> c.verdict == Verdict::Broken
            &&& c.trace == trace
            &&& c.label == label
            &&& c.invariants == invariants
            &&& c.coverage == coverage
            &&& c.interleavings == reports
            &&& c.engine == default_header().engine
            &&& c.claims.len() == 1 + reports.len()
            &&& c.claims[0] == coverage_claim(coverage)
            &&& forall|i: int|
                0 <= i < reports.len() ==> c.claims[1 + i] == order_claim(#[trigger] reports[i])
        }),
{
    let c = issued(trace, label, invariants, coverage, reports);
    assert forall|i: int| 0 <= i < reports.len() implies c.claims[1 + i] == order_claim(
        #[trigger] reports[i],
    ) by {}
}

// ---------------------------------------------------------------------------
// Claims
// ---------------------------------------------------------------------------

/// How many failures come from schedules of so many faults, counted by picking
/// them out.
pub proof fn lemma_failures_counted(failures: Seq<CaseModel>, faults: nat)
    ensures
        failing_with(failures, faults) == failures.filter(
            |c: CaseModel| c.schedule.len() == faults,
        ).len(),
    decreases failures.len(),
{
    reveal(Seq::filter);
    if failures.len() > 0 {
        lemma_failures_counted(failures.drop_last(), faults);
    }
}

proof fn lemma_mentions(text: Seq<char>, a: Seq<char>, part: Seq<char>, b: Seq<char>)
    requires
        text == (a + part) + b,
    ensures
        mentions(text, part),
{
}

proof fn lemma_mentions_on(head: Seq<char>, tail: Seq<char>, part: Seq<char>)
    ensures
        mentions(head, part) ==> mentions(head + tail, part),
        mentions(tail, part) ==> mentions(head + tail, part),
{
    if mentions(head, part) {
        let (a, b) = choose|a: Seq<char>, b: Seq<char>| head == #[trigger] ((a + part) + b);
        assert(head + tail =~= (a + part) + (b + tail));
    }
    if mentions(tail, part) {
        let (a, b) = choose|a: Seq<char>, b: Seq<char>| tail == #[trigger] ((a + part) + b);
        assert(head + tail =~= ((head + a) + part) + b);
    }
}

proof fn lemma_said_of_singles()
    ensures
        mentions(" single faults \u{2014} not exhaustive"@, "not exhaustive"@),
        mentions(" single faults break it \u{2014} not exhaustive"@, "not exhaustive"@),
        mentions(
            "no single fault breaks this agent \u{2014} all "@,
            "no single fault breaks this agent"@,
        ),
{
    reveal_strlit(" single faults \u{2014} not exhaustive");
    reveal_strlit(" single faults break it \u{2014} not exhaustive");
    reveal_strlit("not exhaustive");
    reveal_strlit("no single fault breaks this agent \u{2014} all ");
    reveal_strlit("no single fault breaks this agent");
    let said = "not exhaustive"@;
    let none = Seq::<char>::empty();
    let x = " single faults \u{2014} not exhaustive"@;
    assert(x =~= (x.take(x.len() - said.len()) + said) + none);
    let y = " single faults break it \u{2014} not exhaustive"@;
    assert(y =~= (y.take(y.len() - said.len()) + said) + none);
    let z = "no single fault breaks this agent \u{2014} all "@;
    let clean = "no single fault breaks this agent"@;
    assert(z =~= (none + clean) + z.skip(clean.len() as int));
}

proof fn lemma_said_of_pairs()
    ensures
        mentions(" pairs do \u{2014} not exhaustive"@, "not exhaustive"@),
{
    reveal_strlit(" pairs do \u{2014} not exhaustive");
    reveal_strlit("not exhaustive");
    let said = "not exhaustive"@;
    let none = Seq::<char>::empty();
    let x = " pairs do \u{2014} not exhaustive"@;
    assert(x =~= (x.take(x.len() - said.len()) + said) + none);
}

proof fn lemma_singles_say(c: CoverageModel)
    ensures
        mentions(singles_claim(c), decimal(c.singles_checked as nat)),
        failing_with(c.failures, 1) > 0 ==> mentions(
            singles_claim(c),
            decimal(failing_with(c.failures, 1)),
        ),
        !c.singles_exhaustive ==> mentions(singles_claim(c), "not exhaustive"@),
        c.singles_exhaustive && failing_with(c.failures, 1) == 0 ==> mentions(
            singles_claim(c),
            "no single fault breaks this agent"@,
        ),
{
    let text = singles_claim(c);
    let n = decimal(c.singles_checked as nat);
    let k = decimal(failing_with(c.failures, 1));
    let none = Seq::<char>::empty();
    lemma_said_of_singles();
    if !c.singles_exhaustive {
        if failing_with(c.failures, 1) == 0 {
            let (a, b) = ("no failure in "@, " single faults \u{2014} not exhaustive"@);
            lemma_mentions(text, a, n, b);
            lemma_mentions_on(a + n, b, "not exhaustive"@);
        } else {
            let (a, b) = (" of "@, " single faults break it \u{2014} not exhaustive"@);
            lemma_mentions(text, k + a, n, b);
            assert(text =~= (none + k) + (a + n + b));
            lemma_mentions(text, none, k, a + n + b);
            lemma_mentions_on(k + a + n, b, "not exhaustive"@);
        }
    } else if failing_with(c.failures, 1) == 0 {
        let (a, b) = ("no single fault breaks this agent \u{2014} all "@, " were checked"@);
        lemma_mentions(text, a, n, b);
        lemma_mentions_on(a, n, "no single fault breaks this agent"@);
        lemma_mentions_on(a + n, b, "no single fault breaks this agent"@);
    } else {
        let (a, b) = (" of "@, " single faults break it"@);
        lemma_mentions(text, k + a, n, b);
        assert(text =~= (none + k) + (a + n + b));
        lemma_mentions(text, none, k, a + n + b);
    }
}

proof fn lemma_pairs_say(c: CoverageModel)
    requires
        c.pairs_checked > 0,
    ensures
        mentions(pairs_claim(c), decimal(c.pairs_checked as nat)),
        !c.pairs_exhaustive ==> mentions(pairs_claim(c), "not exhaustive"@),
        failing_with(c.failures, 2) > 0 ==> mentions(
            pairs_claim(c),
            decimal(failing_with(c.failures, 2)),
        ),
{
    let text = pairs_claim(c);
    let m = decimal(c.pairs_checked as nat);
    let j = decimal(failing_with(c.failures, 2));
    let none = Seq::<char>::empty();
    lemma_said_of_pairs();
    if c.pairs_exhaustive {
        if failing_with(c.failures, 2) > 0 {
            let (a, b) = ("; "@, " pairs do, across all "@);
            assert(text =~= (a + j) + (b + m));
            lemma_mentions(text, a, j, b + m);
            assert(text =~= ((a + j + b) + m) + none);
            lemma_mentions(text, a + j + b, m, none);
        } else if failing_with(c.failures, 1) == 0 {
            let a = "; no pair does either, across all "@;
            assert(text =~= (a + m) + none);
            lemma_mentions(text, a, m, none);
        } else {
            let a = "; no pair does, across all "@;
            assert(text =~= (a + m) + none);
            lemma_mentions(text, a, m, none);
        }
    } else {
        let (a, b, e) = ("; "@, " of "@, " pairs do \u{2014} not exhaustive"@);
        assert(text =~= (a + j) + (b + m + e));
        lemma_mentions(text, a, j, b + m + e);
        lemma_mentions(text, a + j + b, m, e);
        lemma_mentions_on(a + j + b + m, e, "not exhaustive"@);
    }
}

/// A claim says how many single faults were checked, and how many of them broke
/// the agent where some did. It says that it does not cover all of them wherever
/// it does not. Of pairs, where any were checked, it says the same.
pub proof fn lemma_claim_says(c: CoverageModel)
    ensures
        mentions(coverage_claim(c), decimal(c.singles_checked as nat)),
        failing_with(c.failures, 1) > 0 ==> mentions(
            coverage_claim(c),
            decimal(failing_with(c.failures, 1)),
        ),
        !c.singles_exhaustive ==> mentions(coverage_claim(c), "not exhaustive"@),
        c.singles_exhaustive && failing_with(c.failures, 1) == 0 ==> mentions(
            coverage_claim(c),
            "no single fault breaks this agent"@,
        ),
        c.pairs_checked > 0 ==> mentions(coverage_claim(c), decimal(c.pairs_checked as nat)),
        c.pairs_checked > 0 && !c.pairs_exhaustive ==> mentions(
            coverage_claim(c),
            "not exhaustive"@,
        ),
        c.pairs_checked > 0 && failing_with(c.failures, 2) > 0 ==> mentions(
            coverage_claim(c),
            decimal(failing_with(c.failures, 2)),
        ),
{
    let (head, tail) = (singles_claim(c), pairs_claim(c));
    lemma_singles_say(c);
    lemma_mentions_on(head, tail, decimal(c.singles_checked as nat));
    lemma_mentions_on(head, tail, decimal(failing_with(c.failures, 1)));
    lemma_mentions_on(head, tail, "not exhaustive"@);
    lemma_mentions_on(head, tail, "no single fault breaks this agent"@);
    if c.pairs_checked > 0 {
        lemma_pairs_say(c);
        lemma_mentions_on(head, tail, decimal(c.pairs_checked as nat));
        lemma_mentions_on(head, tail, decimal(failing_with(c.failures, 2)));
    }
}

/// A claim on a batch names it, and says how many orders it covers and how many
/// of them changed what the agent did where some did. A sample says that it is
/// one.
pub proof fn lemma_order_claim_says(i: InterleavingsModel)
    ensures
        mentions(order_claim(i), decimal(i.batch as nat)),
        i.exhaustive ==> mentions(order_claim(i), decimal(i.total as nat)),
        !i.exhaustive ==> mentions(order_claim(i), decimal(i.checked as nat)),
        i.divergent.len() > 0 ==> mentions(order_claim(i), decimal(i.divergent.len())),
        !i.exhaustive && i.divergent.len() == 0 ==> mentions(order_claim(i), "not exhaustive"@),
        !i.exhaustive && i.divergent.len() > 0 ==> mentions(order_claim(i), "sampled"@),
{
    let text = order_claim(i);
    let none = Seq::<char>::empty();
    let start = "batch #"@;
    let b = decimal(i.batch as nat);
    let (total, checked, d) = (
        decimal(i.total as nat),
        decimal(i.checked as nat),
        decimal(i.divergent.len()),
    );
    if i.divergent.len() == 0 {
        if i.exhaustive {
            let (p, q) = (" is order-independent across all "@, " orderings"@);
            assert(text =~= (start + b) + (p + total + q));
            assert(text =~= ((start + b + p) + total) + q);
        } else {
            reveal_strlit(" orderings \u{2014} not exhaustive");
            reveal_strlit("not exhaustive");
            let said = "not exhaustive"@;
            let (p, q, r) = (
                " showed no order dependence in "@,
                " of "@,
                " orderings \u{2014} not exhaustive"@,
            );
            assert(r =~= r.take(r.len() - said.len()) + said);
            assert(text =~= (start + b) + (p + checked + q + total + r));
            assert(text =~= ((start + b + p) + checked) + (q + total + r));
            assert(text =~= ((start + b + p + checked + q + total + r.take(r.len() - said.len()))
                + said) + none);
        }
    } else {
        let p = " behaves differently under "@;
        if i.exhaustive {
            let (q, r) = (" of all "@, " orderings"@);
            assert(text =~= (start + b) + (p + d + q + total + r));
            assert(text =~= ((start + b + p) + d) + (q + total + r));
            assert(text =~= ((start + b + p + d + q) + total) + r);
        } else {
            reveal_strlit(" sampled orderings");
            reveal_strlit("sampled");
            let said = "sampled"@;
            let (q, r) = (" of "@, " sampled orderings"@);
            assert(r =~= seq![' '] + said + r.skip(8));
            assert(text =~= (start + b) + (p + d + q + checked + r));
            assert(text =~= ((start + b + p) + d) + (q + checked + r));
            assert(text =~= ((start + b + p + d + q) + checked) + r);
            assert(text =~= ((start + b + p + d + q + checked + seq![' ']) + said) + r.skip(8));
        }
    }
}

// ---------------------------------------------------------------------------
// Differences
// ---------------------------------------------------------------------------

/// Coverage that changes is reported with what it was and what it is, in that
/// order; a sweep that was complete and is not any more is reported as such, and
/// so is one that has become complete.
pub proof fn lemma_coverage_reported(before: CoverageModel, after: CoverageModel)
    ensures
        before.singles_checked != after.singles_checked ==> coverage_lines(before, after).contains(
            "single-fault coverage "@ + decimal(before.singles_checked as nat) + " \u{2192} "@
                + decimal(after.singles_checked as nat),
        ),
        before.pairs_checked != after.pairs_checked ==> coverage_lines(before, after).contains(
            "pair coverage "@ + decimal(before.pairs_checked as nat) + " \u{2192} "@ + decimal(
                after.pairs_checked as nat,
            ),
        ),
        before.singles_exhaustive && !after.singles_exhaustive ==> coverage_lines(
            before,
            after,
        ).contains("single-fault sweep is no longer exhaustive"@),
        before.pairs_exhaustive && !after.pairs_exhaustive ==> coverage_lines(
            before,
            after,
        ).contains("pair sweep is no longer exhaustive"@),
        before.failures.len() != after.failures.len() ==> coverage_lines(before, after).contains(
            "failing schedules "@ + decimal(before.failures.len()) + " \u{2192} "@ + decimal(
                after.failures.len(),
            ),
        ),
{
    let all = coverage_lines(before, after);
    let one: int = if before.singles_checked != after.singles_checked {
        1
    } else {
        0
    };
    let two: int = if before.pairs_checked != after.pairs_checked {
        1
    } else {
        0
    };
    let three: int = if before.singles_exhaustive != after.singles_exhaustive {
        1
    } else {
        0
    };
    let four: int = if before.pairs_exhaustive != after.pairs_exhaustive {
        1
    } else {
        0
    };
    if one == 1 {
        assert(all.contains(all[0]));
    }
    if two == 1 {
        assert(all.contains(all[one]));
    }
    if three == 1 {
        assert(all.contains(all[one + two]));
    }
    if four == 1 {
        assert(all.contains(all[one + two + three]));
    }
    if before.failures.len() != after.failures.len() {
        assert(all.contains(all[one + two + three + four]));
    }
}

// ---------------------------------------------------------------------------
// Orders
// ---------------------------------------------------------------------------

/// Of a batch of at most seven calls every order but the recorded one is run,
/// and none twice; of a wider one two hundred drawn orders are.
pub proof fn lemma_orders_run(n: nat, order: Seq<usize>)
    requires
        n >= 1,
    ensures
        n <= 7 ==> {
            &&& is_order(order, n) && order != Seq::new(n, |i: int| i as usize) ==> exists|k: int|
                0 <= k < arrangements(n).len() && #[trigger] arrangements(n)[k] == (
                FaultModel::Exact { order })
            &&& arrangements(n).len() + 1 == factorial(n)
            &&& forall|j: int, k: int|
                0 <= j < k < arrangements(n).len() ==> #[trigger] arrangements(n)[j]
                    != #[trigger] arrangements(n)[k]
        },
        n > 7 ==> arrangements(n).len() == 200 && forall|k: int|
            0 <= k < 200 ==> #[trigger] arrangements(n)[k] == (FaultModel::Reorder {
                seed: k as u64,
            }),
{
    if n <= 7 {
        lemma_orders_count(n);
        lemma_orders_first(n);
        if is_order(order, n) && order != Seq::new(n, |i: int| i as usize) {
            lemma_orders_complete(order, n);
            let m = choose|m: int| 0 <= m < orders(n).len() && orders(n)[m] == order;
            assert(m != 0);
            assert(arrangements(n)[m - 1] == (FaultModel::Exact { order }));
        }
        assert forall|j: int, k: int|
            0 <= j < k < arrangements(n).len() implies #[trigger] arrangements(n)[j]
            != #[trigger] arrangements(n)[k] by {
            lemma_orders_distinct(n, j + 1, k + 1);
        }
    }
}

/// The neighbours that are exchanged are all there are: each call with the next.
pub proof fn lemma_neighbours_exchanged(n: nat, i: int)
    requires
        n >= 1,
        0 <= i < n - 1,
        n <= usize::MAX,
    ensures
        neighbours(n).len() == n - 1,
        neighbours(n)[i] matches FaultModel::Exact { order } && order.len() == n && order[i] == i
            + 1 && order[i + 1] == i && forall|k: int|
            0 <= k < n && k != i && k != i + 1 ==> (#[trigger] order[k]) == k,
{
}

proof fn lemma_differing_run(runs: Seq<Arranged>, usual: Seq<Seq<char>>, n: nat)
    requires
        forall|i: int|
            0 <= i < runs.len() ==> permutation_of((#[trigger] runs[i]).fault, n) is Some,
    ensures
        differing(runs, usual, n).len() == 0 <==> forall|i: int|
            0 <= i < runs.len() ==> (#[trigger] runs[i]).done == usual,
        differing(runs, usual, n).len() + agreeing(runs, usual) == runs.len(),
    decreases runs.len(),
{
    if runs.len() > 0 {
        let front = runs.drop_last();
        let last = runs.len() - 1;
        assert forall|i: int| 0 <= i < front.len() implies permutation_of(
            (#[trigger] front[i]).fault,
            n,
        ) is Some by {
            assert(front[i] == runs[i]);
        }
        lemma_differing_run(front, usual, n);
        assert(permutation_of(runs[last].fault, n) is Some);
        if forall|i: int| 0 <= i < front.len() ==> (#[trigger] front[i]).done == usual {
            if runs[last].done == usual {
                assert forall|i: int| 0 <= i < runs.len() implies (#[trigger] runs[i]).done
                    == usual by {
                    if i < last {
                        assert(front[i] == runs[i]);
                    }
                }
            }
        }
        if forall|i: int| 0 <= i < runs.len() ==> (#[trigger] runs[i]).done == usual {
            assert forall|i: int| 0 <= i < front.len() implies (#[trigger] front[i]).done
                == usual by {
                assert(front[i] == runs[i]);
            }
            assert(runs[last].done == usual);
        }
    }
}

/// A batch is reported independent of its order exactly where every order that
/// was run left what the agent did as it was in request order, and each one that
/// did not is listed. A report says that it is exhaustive only of a batch whose
/// every order was run.
pub proof fn lemma_orders_reported(
    baseline: Seq<EventModel>,
    batch: u64,
    runs: Seq<Arranged>,
    swapped: Seq<Arranged>,
)
    requires
        2 <= crate::orderings::batch_width(baseline, batch) <= usize::MAX,
        faults_of(runs) == arrangements(crate::orderings::batch_width(baseline, batch)),
        faults_of(swapped) == neighbours(crate::orderings::batch_width(baseline, batch)),
    ensures
        ({
            let n = crate::orderings::batch_width(baseline, batch);
            let usual = crate::explore::behaviour_of(baseline);
            let r = order_report(baseline, batch, runs, swapped);
            &&& r.batch == batch
            &&& r.width == n
            &&& r.divergent.len() == 0 <==> forall|i: int|
                0 <= i < runs.len() ==> (#[trigger] runs[i]).done == usual
            &&& r.divergent.len() <= runs.len()
            &&& r.exhaustive <==> n <= 7
            &&& r.exhaustive ==> r.total == factorial(n) && r.checked == factorial(n)
            &&& r.adjacent_pairs == n - 1
            &&& r.commuting_pairs <= r.adjacent_pairs
            &&& r.commuting_pairs == r.adjacent_pairs <==> forall|i: int|
                0 <= i < swapped.len() ==> (#[trigger] swapped[i]).done == usual
        }),
{
    let n = crate::orderings::batch_width(baseline, batch);
    let usual = crate::explore::behaviour_of(baseline);
    assert(faults_of(runs).len() == runs.len());
    assert(faults_of(swapped).len() == swapped.len());
    assert forall|i: int| 0 <= i < runs.len() implies permutation_of(
        (#[trigger] runs[i]).fault,
        n,
    ) is Some by {
        assert(faults_of(runs)[i] == runs[i].fault);
        if n <= 7 {
            lemma_orders_first(n);
            assert(runs.len() == arrangements(n).len());
            lemma_orders_sound(n, i + 1);
        }
    }
    assert forall|i: int| 0 <= i < swapped.len() implies permutation_of(
        (#[trigger] swapped[i]).fault,
        n,
    ) is Some by {
        assert(faults_of(swapped)[i] == swapped[i].fault);
        crate::fault::lemma_exchanged(unchanged(n), n, i, i + 1);
    }
    lemma_differing_run(runs, usual, n);
    lemma_differing_run(swapped, usual, n);
    lemma_orders_run(n, unchanged(n));
    if n <= 7 {
        lemma_small_factorial(n);
    }
}

proof fn lemma_small_factorial(n: nat)
    requires
        n <= 7,
    ensures
        1 <= factorial(n) <= 5040,
{
    assert(factorial(0) == 1);
    assert(factorial(1) == 1);
    assert(factorial(2) == 2);
    assert(factorial(3) == 6);
    assert(factorial(4) == 24);
    assert(factorial(5) == 120);
    assert(factorial(6) == 720);
    assert(factorial(7) == 5040);
}

// ---------------------------------------------------------------------------
// Deeds
// ---------------------------------------------------------------------------

/// What an event did tells events apart: the same tool asked for something else
/// is another deed, and so is the same request of another tool or kind.
pub proof fn lemma_deeds_tell_apart(a: EventModel, b: EventModel)
    ensures
        a.kind == b.kind && a.name == b.name && short_of(a.identity) != short_of(b.identity)
            ==> deed(a) != deed(b),
        a.kind == b.kind && a.name.len() == b.name.len() && a.name != b.name ==> deed(a) != deed(b),
        a.kind != b.kind ==> deed(a) != deed(b),
        a.kind == b.kind && a.name == b.name && a.identity == b.identity ==> deed(a) == deed(b),
{
    let (x, y) = (deed(a), deed(b));
    let (p, q) = (kind_name(a.kind), kind_name(b.kind));
    reveal_strlit(":");
    if a.kind != b.kind {
        reveal_strlit("model");
        reveal_strlit("tool");
        reveal_strlit("clock");
        reveal_strlit("random");
        assert(x[0] == p[0] && y[0] == q[0]);
        assert(p[0] != q[0]);
    } else if a.name == b.name {
        let head = p + ":"@ + a.name + ":"@;
        let (i, j) = (short_of(a.identity), short_of(b.identity));
        assert(x =~= head + i && y =~= head + j);
        if x == y {
            assert(i =~= x.skip(head.len() as int));
            assert(j =~= y.skip(head.len() as int));
        }
    } else if a.name.len() == b.name.len() && x == y {
        let n = p.len() as int + 1;
        let m = n + a.name.len();
        assert(a.name =~= x.subrange(n, m));
        assert(b.name =~= y.subrange(n, m));
    }
}

proof fn lemma_start_known(events: Seq<EventModel>, batch: u64)
    ensures
        (exists|k: int|
            0 <= k < batch_starts(events).len() && (#[trigger] batch_starts(events)[k]).0 == batch)
            <==> exists|i: int|
            0 <= i < events.len() && (#[trigger] events[i]).batch == Some(batch),
    decreases events.len(),
{
    if events.len() > 0 {
        let front = events.drop_last();
        let last = events.len() - 1;
        let before = batch_starts(front);
        let all = batch_starts(events);
        lemma_start_known(front, batch);
        if exists|k: int| 0 <= k < before.len() && (#[trigger] before[k]).0 == batch {
            let k = choose|k: int| 0 <= k < before.len() && (#[trigger] before[k]).0 == batch;
            assert(all[k] == before[k]);
            let i = choose|i: int|
                0 <= i < front.len() && (#[trigger] front[i]).batch == Some(batch);
            assert(events[i] == front[i]);
        } else {
            if exists|k: int| 0 <= k < all.len() && (#[trigger] all[k]).0 == batch {
                let k = choose|k: int| 0 <= k < all.len() && (#[trigger] all[k]).0 == batch;
                if k < before.len() {
                    assert(before[k] == all[k]);
                }
                assert(events[last].batch == Some(batch));
            }
            if exists|i: int| 0 <= i < events.len() && (#[trigger] events[i]).batch == Some(batch) {
                let i = choose|i: int|
                    0 <= i < events.len() && (#[trigger] events[i]).batch == Some(batch);
                if i < last {
                    assert(front[i] == events[i]);
                }
                assert(i == last);
                assert(all[before.len() as int].0 == batch);
            }
        }
    }
}

/// Every concurrent batch of a run is listed once, with the number of its first
/// call, in the order in which they begin: an event adds its batch exactly where
/// it is the first of it.
pub proof fn lemma_batches_listed(events: Seq<EventModel>, e: EventModel)
    ensures
        batch_starts(seq![]).len() == 0,
        batch_starts(events.push(e)) == if e.batch is Some && forall|i: int|
            0 <= i < events.len() ==> (#[trigger] events[i]).batch != e.batch {
            batch_starts(events).push((e.batch->0, e.seq))
        } else {
            batch_starts(events)
        },
{
    assert(events.push(e).drop_last() =~= events);
    if e.batch is Some {
        lemma_start_known(events, e.batch->0);
    }
}

/// What breaks is told by the names of the invariants, whatever else the
/// violations say and however often.
pub proof fn lemma_names_told(violations: Seq<ViolationModel>, name: Seq<char>)
    ensures
        broken_names(violations).contains(name) <==> exists|i: int|
            0 <= i < violations.len() && (#[trigger] violations[i]).invariant == name,
{
    let all = Seq::new(violations.len(), |i: int| violations[i].invariant);
    crate::text::lemma_distinct(all);
    if all.contains(name) {
        let i = choose|i: int| 0 <= i < all.len() && all[i] == name;
        assert(violations[i].invariant == name);
    }
    if exists|i: int|
        0 <= i < violations.len() && (#[trigger] violations[i]).invariant == name {
        let i = choose|i: int|
            0 <= i < violations.len() && (#[trigger] violations[i]).invariant == name;
        assert(all[i] == name);
    }
}

} // verus!
