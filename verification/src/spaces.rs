//! What a sweep tries, and what a clean one therefore means.

use crate::cas::{Cas, Contents};
use crate::coverage::{
    failing, kinds_model, least, lemma_pairs_complete, lemma_single_count, lemma_singles_complete,
    may_sweep, may_turn_out, pair_schedules, pairs_at, schedules_of, single_schedules, singles_at,
    sweep_space, swept, CoverageModel, Tried,
};
use crate::event::{EffectKind, EventModel, OutcomeModel};
use crate::explore::{may_break_later, Asking};
use crate::fault::{applied, FaultModel, PointModel};
use crate::invariants::{outcome_landed, Invariant, Landing, ViolationModel};
use crate::trace::{faultable_positions, TraceModel};
use vstd::prelude::*;

verus! {

/// Whether two faults are of one family: they do the same, to more or less of a
/// result or with another code.
pub open spec fn of_one_family(a: FaultModel, b: FaultModel) -> bool {
    ||| a is Timeout && b is Timeout
    ||| a is Error && b is Error
    ||| a is Truncate && b is Truncate
    ||| a is Duplicate && b is Duplicate
    ||| a is Malformed && b is Malformed
}

/// Every family of faults that a result can suffer from is swept, and by its
/// worst: a result that is cut is cut to nothing, and an error leaves it open
/// whether the call did anything. No family is swept twice.
pub proof fn lemma_families_swept(f: FaultModel, truth: OutcomeModel)
    requires
        !(f is Delay || f is Reorder || f is Exact),
    ensures
        exists|k: int|
            0 <= k < kinds_model().len() && of_one_family(f, #[trigger] kinds_model()[k]),
        forall|i: int, j: int|
            0 <= i < j < kinds_model().len() ==> !of_one_family(
                #[trigger] kinds_model()[i],
                #[trigger] kinds_model()[j],
            ),
        forall|k: int|
            0 <= k < kinds_model().len() ==> {
                let kind = #[trigger] kinds_model()[k];
                &&& of_one_family(kind, kind)
                &&& kind matches FaultModel::Truncate { keep } ==> keep == 0
                &&& kind is Error ==> outcome_landed(Some(applied(kind, truth))) == Landing::Maybe
            },
{
    let kinds = kinds_model();
    if f is Timeout {
        assert(of_one_family(f, kinds[0]));
    } else if f is Error {
        assert(of_one_family(f, kinds[1]));
    } else if f is Truncate {
        assert(of_one_family(f, kinds[2]));
    } else if f is Duplicate {
        assert(of_one_family(f, kinds[3]));
    } else {
        assert(of_one_family(f, kinds[4]));
    }
}

/// Whether a fault is one of those that a sweep puts at every position: a
/// timeout, an unavailable service, an empty result, a repeated delivery, a
/// malformed result.
pub open spec fn is_swept(f: FaultModel) -> bool {
    ||| f is Timeout
    ||| f == (FaultModel::Error { code: "503"@ })
    ||| f == (FaultModel::Truncate { keep: 0 })
    ||| f is Duplicate
    ||| f is Malformed
}

proof fn lemma_swept_at(f: FaultModel) -> (k: int)
    requires
        is_swept(f),
    ensures
        0 <= k < kinds_model().len(),
        kinds_model()[k] == f,
{
    if f is Timeout {
        0
    } else if f is Error {
        1
    } else if f is Truncate {
        2
    } else if f is Duplicate {
        3
    } else {
        4
    }
}

/// Every swept fault at every position is tried, and, where pairs are, every two
/// of them at every two positions.
pub proof fn lemma_space_complete(
    positions: Seq<u64>,
    pairs: bool,
    p: int,
    q: int,
    f: FaultModel,
    g: FaultModel,
)
    requires
        0 <= p < positions.len(),
        is_swept(f),
        is_swept(g),
    ensures
        sweep_space(positions, pairs).contains(seq![PointModel { seq: positions[p], fault: f }]),
        pairs && p < q < positions.len() ==> sweep_space(positions, pairs).contains(
            seq![
                PointModel { seq: positions[p], fault: f },
                PointModel { seq: positions[q], fault: g },
            ],
        ),
{
    let a = lemma_swept_at(f);
    let b = lemma_swept_at(g);
    let kinds = kinds_model();
    let singles = single_schedules(positions, kinds, 0);
    let doubles = pair_schedules(positions, kinds, 0, 1);
    let space = sweep_space(positions, pairs);
    lemma_singles_complete(positions, kinds, 0, p, a);
    let one = seq![PointModel { seq: positions[p], fault: f }];
    let i = choose|i: int| 0 <= i < singles.len() && singles[i] == one;
    assert(space[i] == one);
    if pairs && p < q < positions.len() {
        lemma_pairs_complete(positions, kinds, 0, 1, p, q, a, b);
        let two = seq![
            PointModel { seq: positions[p], fault: f },
            PointModel { seq: positions[q], fault: g },
        ];
        let j = choose|j: int| 0 <= j < doubles.len() && doubles[j] == two;
        assert(space[singles.len() + j] == two);
    }
}

proof fn lemma_singles_sound(positions: Seq<u64>, i: nat, k: int)
    requires
        0 <= k < single_schedules(positions, kinds_model(), i).len(),
    ensures
        ({
            let s = single_schedules(positions, kinds_model(), i)[k];
            s.len() == 1 && positions.contains(s[0].seq) && is_swept(s[0].fault)
        }),
    decreases positions.len() - i,
{
    if i < positions.len() {
        let here = singles_at(positions[i as int], kinds_model());
        if k < here.len() {
            assert(positions.contains(positions[i as int]));
        } else {
            lemma_singles_sound(positions, i + 1, k - here.len());
        }
    }
}

/// There are five single faults for each position.
pub proof fn lemma_space_counted(positions: Seq<u64>)
    ensures
        sweep_space(positions, false).len() == 5 * positions.len(),
        forall|k: int|
            0 <= k < sweep_space(positions, false).len() ==> {
                let s = #[trigger] sweep_space(positions, false)[k];
                s.len() == 1 && positions.contains(s[0].seq) && is_swept(s[0].fault)
            },
{
    lemma_single_count(positions, kinds_model(), 0);
    assert(kinds_model().len() == 5);
    assert((positions.len() - 0) * 5 == 5 * positions.len());
    assert forall|k: int| 0 <= k < sweep_space(positions, false).len() implies {
        let s = #[trigger] sweep_space(positions, false)[k];
        s.len() == 1 && positions.contains(s[0].seq) && is_swept(s[0].fault)
    } by {
        lemma_singles_sound(positions, 0, k);
    }
}

/// How many pairs of positions stand from the `i`th and the `j`th on.
pub open spec fn pairs_from(n: nat, i: nat, j: nat) -> nat
    decreases n - i, n - j,
{
    if i >= n {
        0
    } else if j >= n {
        pairs_from(n, i + 1, i + 2)
    } else {
        1 + pairs_from(n, i, j + 1)
    }
}

proof fn lemma_pairs_from(n: nat, i: nat, j: nat)
    requires
        i < j,
        i <= n,
        j <= n + 1,
        i < n ==> j <= n,
    ensures
        i < n ==> 2 * pairs_from(n, i, j) == 2 * (n - j) + (n - i - 1) * (n - i - 2),
        i == n ==> pairs_from(n, i, j) == 0,
    decreases n - i, n - j,
{
    if i < n {
        if j >= n {
            if i + 1 < n {
                lemma_pairs_from(n, i + 1, i + 2);
                assert(2 * (n - (i + 2)) + (n - i - 2) * (n - i - 3) == (n - i - 1) * (n - i - 2))
                    by (nonlinear_arith);
            } else {
                assert(n - i - 1 == 0);
                assert((n - i - 1) * (n - i - 2) == 0) by (nonlinear_arith)
                    requires
                        n - i - 1 == 0,
                ;
            }
        } else {
            lemma_pairs_from(n, i, j + 1);
        }
    }
}

proof fn lemma_pair_count(positions: Seq<u64>, i: nat, j: nat)
    ensures
        pair_schedules(positions, kinds_model(), i, j).len() == 25 * pairs_from(
            positions.len(),
            i,
            j,
        ),
    decreases positions.len() - i, positions.len() - j,
{
    if i < positions.len() {
        if j >= positions.len() {
            lemma_pair_count(positions, i + 1, i + 2);
        } else {
            lemma_pair_count(positions, i, j + 1);
            let here = pairs_at(positions[i as int], positions[j as int], kinds_model());
            assert(kinds_model().len() == 5);
            assert(here.len() == 25);
        }
    }
}

/// There are twenty-five pairs of faults for every two positions, behind the
/// single faults.
pub proof fn lemma_pair_space_counted(positions: Seq<u64>)
    ensures
        2 * sweep_space(positions, true).len() == 10 * positions.len() + 25 * (positions.len() * (
        positions.len() - 1)),
        sweep_space(positions, true).take(5 * positions.len() as int) == sweep_space(
            positions,
            false,
        ),
{
    let n = positions.len();
    lemma_space_counted(positions);
    lemma_pair_count(positions, 0, 1);
    assert(sweep_space(positions, true).take(5 * n as int) =~= sweep_space(positions, false));
    if n == 0 {
        assert(25 * (n * (n - 1)) == 0) by (nonlinear_arith)
            requires
                n == 0,
        ;
        assert(pairs_from(n, 0, 1) == 0);
    } else {
        lemma_pairs_from(n, 0, 1);
        assert(2 * (n - 1) + (n - 1) * (n - 2) == n * (n - 1)) by (nonlinear_arith);
    }
}

/// Every model call and every tool call of a run can be put a fault on, and
/// nothing else.
pub proof fn lemma_positions_complete(events: Seq<EventModel>, seq: u64)
    ensures
        faultable_positions(events).contains(seq) <==> exists|i: int|
            0 <= i < events.len() && (#[trigger] events[i]).seq == seq && (events[i].kind
                == EffectKind::Model || events[i].kind == EffectKind::Tool),
    decreases events.len(),
{
    if events.len() > 0 {
        let front = events.drop_last();
        let last = events.len() - 1;
        let before = faultable_positions(front);
        let all = faultable_positions(events);
        lemma_positions_complete(front, seq);
        assert(events[last] == events.last());
        if before.contains(seq) {
            let k = choose|k: int| 0 <= k < before.len() && before[k] == seq;
            assert(all[k] == seq);
            let i = choose|i: int|
                0 <= i < front.len() && (#[trigger] front[i]).seq == seq && (front[i].kind
                    == EffectKind::Model || front[i].kind == EffectKind::Tool);
            assert(events[i] == front[i]);
        }
        if all.contains(seq) && !before.contains(seq) {
            let k = choose|k: int| 0 <= k < all.len() && all[k] == seq;
            assert(k == before.len());
        }
        if exists|i: int|
            0 <= i < events.len() && (#[trigger] events[i]).seq == seq && (events[i].kind
                == EffectKind::Model || events[i].kind == EffectKind::Tool) {
            let i = choose|i: int|
                0 <= i < events.len() && (#[trigger] events[i]).seq == seq && (events[i].kind
                    == EffectKind::Model || events[i].kind == EffectKind::Tool);
            if i < last {
                assert(front[i] == events[i]);
            } else {
                assert(all[before.len() as int] == seq);
            }
        }
    } else {
        assert(!faultable_positions(events).contains(seq));
    }
}

proof fn lemma_failing_listed(tried: Seq<Tried>)
    ensures
        forall|i: int|
            0 <= i < tried.len() && (#[trigger] tried[i]).found.len() > 0 ==> exists|k: int|
                0 <= k < failing(tried).len() && (#[trigger] failing(tried)[k]).schedule
                    == tried[i].schedule && failing(tried)[k].violations == tried[i].found,
        forall|k: int|
            0 <= k < failing(tried).len() ==> exists|i: int|
                0 <= i < tried.len() && (#[trigger] failing(tried)[k]).schedule == (
                #[trigger] tried[i]).schedule && failing(tried)[k].violations == tried[i].found
                    && tried[i].found.len() > 0,
    decreases tried.len(),
{
    if tried.len() > 0 {
        let front = tried.drop_last();
        let last = tried.len() - 1;
        let before = failing(front);
        let all = failing(tried);
        lemma_failing_listed(front);
        assert forall|i: int| 0 <= i < tried.len() && (#[trigger] tried[i]).found.len() > 0 implies
            exists|k: int|
            0 <= k < all.len() && (#[trigger] all[k]).schedule == tried[i].schedule
                && all[k].violations == tried[i].found by {
            if i < last {
                assert(front[i] == tried[i]);
                let k = choose|k: int|
                    0 <= k < before.len() && (#[trigger] before[k]).schedule == front[i].schedule
                        && before[k].violations == front[i].found;
                assert(all[k] == before[k]);
            } else {
                assert(all[before.len() as int].schedule == tried[i].schedule);
            }
        }
        assert forall|k: int| 0 <= k < all.len() implies exists|i: int|
            0 <= i < tried.len() && (#[trigger] all[k]).schedule == (#[trigger] tried[i]).schedule
                && all[k].violations == tried[i].found && tried[i].found.len() > 0 by {
            if k < before.len() {
                assert(all[k] == before[k]);
                let i = choose|i: int|
                    0 <= i < front.len() && before[k].schedule == (#[trigger] front[i]).schedule
                        && before[k].violations == front[i].found && front[i].found.len() > 0;
                assert(tried[i] == front[i]);
            } else {
                assert(tried[last].found.len() > 0);
            }
        }
    }
}

/// What a sweep that says it was exhaustive found is all there is to find: each
/// swept fault at each model and tool call was run, and where it broke something
/// the schedule is listed with what it broke.
pub proof fn lemma_exhaustive_sweep<C: Cas, I: Invariant<C>>(
    trace: TraceModel,
    first: Contents,
    invariants: Seq<I>,
    max_replays: nat,
    pairs: bool,
    r: CoverageModel,
    asks: Asking,
    i: int,
    f: FaultModel,
)
    requires
        may_sweep::<C, I>(trace, first, invariants, max_replays, pairs, r, asks),
        r.singles_exhaustive,
        0 <= i < trace.events.len(),
        trace.events[i].kind == EffectKind::Model || trace.events[i].kind == EffectKind::Tool,
        is_swept(f),
    ensures
        ({
            let schedule = seq![PointModel { seq: trace.events[i].seq, fault: f }];
            exists|found: Seq<ViolationModel>| #[trigger]
                may_break_later::<C, I>(trace, first, schedule, invariants, found, asks) && (
                found.len() > 0 ==> exists|k: int|
                    0 <= k < r.failures.len() && (#[trigger] r.failures[k]).schedule == schedule
                        && r.failures[k].violations == found)
        }),
{
    let positions = faultable_positions(trace.events);
    let space = sweep_space(positions, pairs);
    let tried = choose|tried: Seq<Tried>|
        {
            &&& #[trigger] may_turn_out::<C, I>(trace, first, invariants, tried, asks)
            &&& schedules_of(tried) == space.take(least(space.len(), max_replays) as int)
            &&& r == swept(positions, max_replays, pairs, tried)
        };
    let schedule = seq![PointModel { seq: trace.events[i].seq, fault: f }];
    lemma_positions_complete(trace.events, trace.events[i].seq);
    let p = choose|p: int| 0 <= p < positions.len() && positions[p] == trace.events[i].seq;
    lemma_space_complete(positions, false, p, p, f, f);
    let singles = single_schedules(positions, kinds_model(), 0);
    let at = choose|at: int| 0 <= at < singles.len() && singles[at] == schedule;
    assert(space[at] == schedule);
    let n = least(space.len(), max_replays) as int;
    assert(singles.len() <= space.len() && singles.len() <= n);
    assert(schedules_of(tried).len() == n && tried.len() == n);
    assert(schedules_of(tried)[at] == space.take(n)[at]);
    assert(tried[at].schedule == schedule);
    lemma_failing_listed(tried);
    let found = tried[at].found;
    assert(may_break_later::<C, I>(trace, first, tried[at].schedule, invariants, found, asks));
    assert(may_break_later::<C, I>(trace, first, schedule, invariants, found, asks));
    assert(r.failures == failing(tried));
    if found.len() > 0 {
        let k = choose|k: int|
            0 <= k < failing(tried).len() && (#[trigger] failing(tried)[k]).schedule
                == tried[at].schedule && failing(tried)[k].violations == tried[at].found;
        assert(r.failures[k].schedule == schedule && r.failures[k].violations == found);
    }
}

/// A sweep says that it was exhaustive exactly where its budget was enough for
/// every single fault, and, of pairs, for every pair behind them. It lists no
/// schedule that broke nothing.
pub proof fn lemma_exhaustive_said<C: Cas, I: Invariant<C>>(
    trace: TraceModel,
    first: Contents,
    invariants: Seq<I>,
    max_replays: nat,
    pairs: bool,
    r: CoverageModel,
    asks: Asking,
)
    requires
        may_sweep::<C, I>(trace, first, invariants, max_replays, pairs, r, asks),
    ensures
        ({
            let n = faultable_positions(trace.events).len();
            let all = sweep_space(faultable_positions(trace.events), true).len();
            &&& r.singles_exhaustive <==> 5 * n <= max_replays
            &&& r.pairs_exhaustive <==> pairs && all <= max_replays
            &&& 5 * n <= usize::MAX && max_replays <= usize::MAX ==> r.singles_checked == if 5 * n
                <= max_replays {
                5 * n
            } else {
                max_replays
            }
            &&& !pairs || !r.singles_exhaustive ==> r.pairs_checked == 0
            &&& n <= usize::MAX ==> r.positions == n
            &&& r.kinds == 5
            &&& forall|k: int|
                0 <= k < r.failures.len() ==> (#[trigger] r.failures[k]).violations.len() > 0
        }),
{
    let positions = faultable_positions(trace.events);
    let space = sweep_space(positions, pairs);
    let tried = choose|tried: Seq<Tried>|
        {
            &&& #[trigger] may_turn_out::<C, I>(trace, first, invariants, tried, asks)
            &&& schedules_of(tried) == space.take(least(space.len(), max_replays) as int)
            &&& r == swept(positions, max_replays, pairs, tried)
        };
    lemma_space_counted(positions);
    lemma_failing_listed(tried);
    assert(kinds_model().len() == 5);
}

} // verus!
