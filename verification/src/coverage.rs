//! Checking everything, rather than sampling.
//!
//! Fault injection at random answers whether there is a bug. It can never
//! answer whether there is none. A replay costs nothing, so the whole finite
//! space of faults can be run, and the claim becomes that there is nothing
//! else to find within stated bounds.

use crate::cas::{keeps, Cas, Contents};
use crate::explore::{checkable_on_branches, evaluate_with, may_break, may_break_later, Asking};
use crate::fault::{description, Fault, FaultModel, FaultPoint, FaultSchedule, PointModel};
use crate::invariants::{Invariant, Violation, ViolationModel};
use crate::model::views;
use crate::replay::Effects;
use crate::replayer::{ReplayState, Replayer, Step};
use crate::text::{decimal, show_size};
use crate::trace::{faultable_positions, Trace, TraceModel};
use vstd::prelude::*;

verus! {

// ---------------------------------------------------------------------------
// The space of faults
// ---------------------------------------------------------------------------

/// One representative of each family of faults, the most destructive one: an
/// agent that survives it survives the milder ones. This is what makes the
/// space finite.
pub open spec fn kinds_model() -> Seq<FaultModel> {
    seq![
        FaultModel::Timeout,
        FaultModel::Error { code: "503"@ },
        FaultModel::Truncate { keep: 0 },
        FaultModel::Duplicate,
        FaultModel::Malformed,
    ]
}

/// One representative of each family of faults.
pub fn fault_kinds() -> (r: Vec<Fault>)
    ensures
        views(r@) == kinds_model(),
{
    let mut out: Vec<Fault> = Vec::new();
    out.push(Fault::Timeout);
    out.push(Fault::Error { code: "503".to_owned() });
    out.push(Fault::Truncate { keep: 0 });
    out.push(Fault::Duplicate);
    out.push(Fault::Malformed);
    assert(views(out@) =~= kinds_model());
    out
}

/// The schedules of one fault at a position.
pub open spec fn singles_at(at: u64, kinds: Seq<FaultModel>) -> Seq<Seq<PointModel>> {
    Seq::new(kinds.len(), |k: int| seq![PointModel { seq: at, fault: kinds[k] }])
}

/// The schedules of one fault, over all positions from the `i`th on.
pub open spec fn single_schedules(positions: Seq<u64>, kinds: Seq<FaultModel>, i: nat) -> Seq<
    Seq<PointModel>,
>
    decreases positions.len() - i,
{
    if i >= positions.len() {
        seq![]
    } else {
        singles_at(positions[i as int], kinds) + single_schedules(positions, kinds, i + 1)
    }
}

/// The schedules of one fault at each of two positions.
pub open spec fn pairs_at(one: u64, other: u64, kinds: Seq<FaultModel>) -> Seq<Seq<PointModel>> {
    Seq::new(
        kinds.len() * kinds.len(),
        |k: int|
            seq![
                PointModel { seq: one, fault: kinds[k / kinds.len() as int] },
                PointModel { seq: other, fault: kinds[k % kinds.len() as int] },
            ],
    )
}

/// The schedules of two faults at different positions, from the pair of the
/// `i`th and the `j`th position on.
pub open spec fn pair_schedules(
    positions: Seq<u64>,
    kinds: Seq<FaultModel>,
    i: nat,
    j: nat,
) -> Seq<Seq<PointModel>>
    decreases positions.len() - i, positions.len() - j,
{
    if i >= positions.len() {
        seq![]
    } else if j >= positions.len() {
        pair_schedules(positions, kinds, i + 1, i + 2)
    } else {
        pairs_at(positions[i as int], positions[j as int], kinds) + pair_schedules(
            positions,
            kinds,
            i,
            j + 1,
        )
    }
}

/// All schedules of a sweep, in the order in which it tries them: pairs only
/// once the single faults are done.
pub open spec fn sweep_space(positions: Seq<u64>, pairs: bool) -> Seq<Seq<PointModel>> {
    if pairs {
        single_schedules(positions, kinds_model(), 0) + pair_schedules(
            positions,
            kinds_model(),
            0,
            1,
        )
    } else {
        single_schedules(positions, kinds_model(), 0)
    }
}

/// There are as many single faults as positions and kinds allow.
pub proof fn lemma_single_count(positions: Seq<u64>, kinds: Seq<FaultModel>, i: nat)
    requires
        i <= positions.len(),
    ensures
        single_schedules(positions, kinds, i).len() == (positions.len() - i) * kinds.len(),
    decreases positions.len() - i,
{
    let left: int = positions.len() - i;
    let k: int = kinds.len() as int;
    if i < positions.len() {
        lemma_single_count(positions, kinds, i + 1);
        assert(left * k == (left - 1) * k + k) by (nonlinear_arith);
    } else {
        assert(0 * k == 0) by (nonlinear_arith);
    }
}

/// Every kind of fault at every position is among the single faults.
pub proof fn lemma_singles_complete(
    positions: Seq<u64>,
    kinds: Seq<FaultModel>,
    i: nat,
    p: int,
    k: int,
)
    requires
        i <= p < positions.len(),
        0 <= k < kinds.len(),
    ensures
        single_schedules(positions, kinds, i).contains(
            seq![PointModel { seq: positions[p], fault: kinds[k] }],
        ),
    decreases positions.len() - i,
{
    let wanted = seq![PointModel { seq: positions[p], fault: kinds[k] }];
    let here = singles_at(positions[i as int], kinds);
    let rest = single_schedules(positions, kinds, i + 1);
    if i == p {
        assert((here + rest)[k] == here[k]);
        assert(here[k] == wanted);
    } else {
        lemma_singles_complete(positions, kinds, i + 1, p, k);
        let at = choose|at: int| 0 <= at < rest.len() && rest[at] == wanted;
        assert((here + rest)[here.len() + at] == wanted);
    }
}

/// Every two kinds of fault at every two positions are among the pairs.
pub proof fn lemma_pairs_complete(
    positions: Seq<u64>,
    kinds: Seq<FaultModel>,
    i: nat,
    j: nat,
    p: int,
    q: int,
    a: int,
    b: int,
)
    requires
        i < j,
        i < p < q < positions.len() || (i == p && j <= q < positions.len()),
        0 <= a < kinds.len(),
        0 <= b < kinds.len(),
    ensures
        pair_schedules(positions, kinds, i, j).contains(
            seq![
                PointModel { seq: positions[p], fault: kinds[a] },
                PointModel { seq: positions[q], fault: kinds[b] },
            ],
        ),
    decreases positions.len() - i, positions.len() - j,
{
    let wanted = seq![
        PointModel { seq: positions[p], fault: kinds[a] },
        PointModel { seq: positions[q], fault: kinds[b] },
    ];
    if j >= positions.len() {
        lemma_pairs_complete(positions, kinds, i + 1, i + 2, p, q, a, b);
    } else {
        let here = pairs_at(positions[i as int], positions[j as int], kinds);
        let rest = pair_schedules(positions, kinds, i, j + 1);
        if i == p && j == q {
            let n: int = kinds.len() as int;
            let at: int = a * n + b;
            assert(0 <= at < n * n && at / n == a && at % n == b) by (nonlinear_arith)
                requires
                    at == a * n + b,
                    0 <= a < n,
                    0 <= b < n,
            ;
            assert(here[at] =~= wanted);
            assert((here + rest)[at] == here[at]);
        } else {
            lemma_pairs_complete(positions, kinds, i, j + 1, p, q, a, b);
            let at = choose|at: int| 0 <= at < rest.len() && rest[at] == wanted;
            assert((here + rest)[here.len() + at] == wanted);
        }
    }
}

// ---------------------------------------------------------------------------
// What a sweep found
// ---------------------------------------------------------------------------

/// A schedule that broke the agent.
#[derive(Debug, PartialEq, Eq)]
pub struct Case {
    pub schedule: FaultSchedule,
    pub description: String,
    pub violations: Vec<Violation>,
}

/// What a case is, for contracts.
pub struct CaseModel {
    pub schedule: Seq<PointModel>,
    pub description: Seq<char>,
    pub violations: Seq<ViolationModel>,
}

impl View for Case {
    type V = CaseModel;

    open spec fn view(&self) -> CaseModel {
        CaseModel {
            schedule: self.schedule@,
            description: self.description@,
            violations: views(self.violations@),
        }
    }
}

/// What was checked, and what broke.
#[derive(Debug, PartialEq, Eq)]
pub struct Coverage {
    /// How many positions of the run can be perturbed.
    pub positions: usize,
    /// How many kinds of fault were tried at each.
    pub kinds: usize,
    pub singles_checked: usize,
    /// Whether that is all of them.
    pub singles_exhaustive: bool,
    pub pairs_checked: usize,
    /// Whether that is all of them.
    pub pairs_exhaustive: bool,
    /// How many replays this took.
    pub replays: usize,
    pub failures: Vec<Case>,
}

/// What a coverage is, for contracts.
#[verifier::ext_equal]
pub struct CoverageModel {
    pub positions: usize,
    pub kinds: usize,
    pub singles_checked: usize,
    pub singles_exhaustive: bool,
    pub pairs_checked: usize,
    pub pairs_exhaustive: bool,
    pub replays: usize,
    pub failures: Seq<CaseModel>,
}

impl View for Coverage {
    type V = CoverageModel;

    open spec fn view(&self) -> CoverageModel {
        CoverageModel {
            positions: self.positions,
            kinds: self.kinds,
            singles_checked: self.singles_checked,
            singles_exhaustive: self.singles_exhaustive,
            pairs_checked: self.pairs_checked,
            pairs_exhaustive: self.pairs_exhaustive,
            replays: self.replays,
            failures: views(self.failures@),
        }
    }
}

/// How many of some failures come from a schedule of this many faults.
pub open spec fn failing_with(failures: Seq<CaseModel>, faults: nat) -> nat
    decreases failures.len(),
{
    if failures.len() == 0 {
        0
    } else {
        failing_with(failures.drop_last(), faults) + if failures.last().schedule.len() == faults {
            1nat
        } else {
            0nat
        }
    }
}

/// What a coverage claims about single faults. A sweep that was cut short
/// never speaks of all of them.
pub open spec fn singles_claim(c: CoverageModel) -> Seq<char> {
    let broken = failing_with(c.failures, 1);
    if !c.singles_exhaustive {
        if broken == 0 {
            "no failure in "@ + decimal(c.singles_checked as nat)
                + " single faults \u{2014} not exhaustive"@
        } else {
            decimal(broken) + " of "@ + decimal(c.singles_checked as nat)
                + " single faults break it \u{2014} not exhaustive"@
        }
    } else if broken == 0 {
        "no single fault breaks this agent \u{2014} all "@ + decimal(c.singles_checked as nat)
            + " were checked"@
    } else {
        decimal(broken) + " of "@ + decimal(c.singles_checked as nat) + " single faults break it"@
    }
}

/// What a coverage claims about pairs of faults, where any were checked.
pub open spec fn pairs_claim(c: CoverageModel) -> Seq<char> {
    let broken = failing_with(c.failures, 2);
    if c.pairs_checked == 0 {
        seq![]
    } else if c.pairs_exhaustive {
        if broken > 0 {
            "; "@ + decimal(broken) + " pairs do, across all "@ + decimal(c.pairs_checked as nat)
        } else if failing_with(c.failures, 1) == 0 {
            "; no pair does either, across all "@ + decimal(c.pairs_checked as nat)
        } else {
            "; no pair does, across all "@ + decimal(c.pairs_checked as nat)
        }
    } else {
        "; "@ + decimal(broken) + " of "@ + decimal(c.pairs_checked as nat)
            + " pairs do \u{2014} not exhaustive"@
    }
}

/// What a coverage claims.
pub open spec fn coverage_claim(c: CoverageModel) -> Seq<char> {
    singles_claim(c) + pairs_claim(c)
}

impl Coverage {
    /// Whether nothing broke.
    pub fn is_clean(&self) -> (r: bool)
        ensures
            r == (self@.failures.len() == 0),
    {
        self.failures.len() == 0
    }

    /// How many of the failures come from a schedule of this many faults.
    fn count_failing(&self, faults: usize) -> (r: usize)
        ensures
            r == failing_with(self@.failures, faults as nat),
    {
        let ghost all = self@.failures;
        let mut count: usize = 0;
        let mut i: usize = 0;
        while i < self.failures.len()
            invariant
                i <= self.failures@.len(),
                all == self@.failures,
                count <= i,
                count == failing_with(all.take(i as int), faults as nat),
            decreases self.failures@.len() - i,
        {
            proof {
                assert(all.take(i + 1).drop_last() =~= all.take(i as int));
                assert(all.take(i + 1).last() == self.failures@[i as int]@);
            }
            if self.failures[i].schedule.len() == faults {
                count += 1;
            }
            i += 1;
        }
        assert(all.take(i as int) =~= all);
        count
    }

    /// What was established, in a sentence.
    pub fn claim(&self) -> (r: String)
        ensures
            r@ == coverage_claim(self@),
    {
        let broken: usize = self.count_failing(1);
        let mut out = String::new();
        if !self.singles_exhaustive {
            if broken == 0 {
                out.append("no failure in ");
                out.append(show_size(self.singles_checked).as_str());
                out.append(" single faults \u{2014} not exhaustive");
            } else {
                out.append(show_size(broken).as_str());
                out.append(" of ");
                out.append(show_size(self.singles_checked).as_str());
                out.append(" single faults break it \u{2014} not exhaustive");
            }
        } else if broken == 0 {
            out.append("no single fault breaks this agent \u{2014} all ");
            out.append(show_size(self.singles_checked).as_str());
            out.append(" were checked");
        } else {
            out.append(show_size(broken).as_str());
            out.append(" of ");
            out.append(show_size(self.singles_checked).as_str());
            out.append(" single faults break it");
        }
        assert(out@ =~= singles_claim(self@));
        let ghost head = out@;
        if self.pairs_checked == 0 {
            assert(head + pairs_claim(self@) =~= head);
            return out;
        }
        let doubly: usize = self.count_failing(2);
        if !self.pairs_exhaustive {
            out.append("; ");
            out.append(show_size(doubly).as_str());
            out.append(" of ");
            out.append(show_size(self.pairs_checked).as_str());
            out.append(" pairs do \u{2014} not exhaustive");
        } else if doubly > 0 {
            out.append("; ");
            out.append(show_size(doubly).as_str());
            out.append(" pairs do, across all ");
            out.append(show_size(self.pairs_checked).as_str());
        } else if broken == 0 {
            out.append("; no pair does either, across all ");
            out.append(show_size(self.pairs_checked).as_str());
        } else {
            out.append("; no pair does, across all ");
            out.append(show_size(self.pairs_checked).as_str());
        }
        assert(out@ =~= head + pairs_claim(self@));
        out
    }
}

// ---------------------------------------------------------------------------
// Sweeping
// ---------------------------------------------------------------------------

/// A schedule that was run, and what it broke.
pub struct Tried {
    pub schedule: Seq<PointModel>,
    pub found: Seq<ViolationModel>,
}

/// The schedules that were run.
pub open spec fn schedules_of(tried: Seq<Tried>) -> Seq<Seq<PointModel>> {
    Seq::new(tried.len(), |i: int| tried[i].schedule)
}

/// The cases that broke something.
pub open spec fn failing(tried: Seq<Tried>) -> Seq<CaseModel>
    decreases tried.len(),
{
    if tried.len() == 0 {
        seq![]
    } else {
        let before = failing(tried.drop_last());
        let t = tried.last();
        if t.found.len() == 0 {
            before
        } else {
            before.push(
                CaseModel {
                    schedule: t.schedule,
                    description: description(t.schedule),
                    violations: t.found,
                },
            )
        }
    }
}

/// Whether runs may have come out so.
pub open spec fn may_turn_out<C: Cas, I: Invariant<C>>(
    trace: TraceModel,
    first: Contents,
    invariants: Seq<I>,
    tried: Seq<Tried>,
    asks: Asking,
) -> bool {
    forall|i: int|
        0 <= i < tried.len() ==> may_break_later::<C, I>(
            trace,
            first,
            (#[trigger] tried[i]).schedule,
            invariants,
            tried[i].found,
            asks,
        )
}

/// The lesser of two numbers.
pub open spec fn least(a: nat, b: nat) -> nat {
    if a <= b {
        a
    } else {
        b
    }
}

/// What a sweep reports, once it has tried as much of its space as the budget
/// allows.
pub open spec fn swept(
    positions: Seq<u64>,
    max_replays: nat,
    pairs: bool,
    tried: Seq<Tried>,
) -> CoverageModel {
    let singles = single_schedules(positions, kinds_model(), 0).len();
    let doubles = pair_schedules(positions, kinds_model(), 0, 1).len();
    let earned = pairs && singles <= max_replays;
    CoverageModel {
        positions: positions.len() as usize,
        kinds: kinds_model().len() as usize,
        singles_checked: least(singles, max_replays) as usize,
        singles_exhaustive: singles <= max_replays,
        pairs_checked: if earned {
            least(doubles, (max_replays - singles) as nat) as usize
        } else {
            0
        },
        pairs_exhaustive: earned && doubles <= max_replays - singles,
        replays: tried.len() as usize,
        failures: failing(tried),
    }
}

/// Whether a sweep may report this: on as much of its space as the budget
/// allows.
pub open spec fn may_sweep<C: Cas, I: Invariant<C>>(
    trace: TraceModel,
    first: Contents,
    invariants: Seq<I>,
    max_replays: nat,
    pairs: bool,
    r: CoverageModel,
    asks: Asking,
) -> bool {
    let positions = faultable_positions(trace.events);
    let space = sweep_space(positions, pairs);
    exists|tried: Seq<Tried>|
        {
            &&& #[trigger] may_turn_out::<C, I>(trace, first, invariants, tried, asks)
            &&& schedules_of(tried) == space.take(least(space.len(), max_replays) as int)
            &&& r == swept(positions, max_replays, pairs, tried)
        }
}

/// A sweep that is under way.
struct Tally {
    replays: usize,
    failures: Vec<Case>,
    tried: Ghost<Seq<Tried>>,
}

impl Tally {
    spec fn well_formed(&self) -> bool {
        &&& self.tried@.len() == self.replays
        &&& views(self.failures@) == failing(self.tried@)
    }
}

proof fn lemma_tried_more(a: Seq<Tried>, t: Tried)
    ensures
        schedules_of(a.push(t)) == schedules_of(a).push(t.schedule),
        failing(a.push(t)) == if t.found.len() == 0 {
            failing(a)
        } else {
            failing(a).push(
                CaseModel {
                    schedule: t.schedule,
                    description: description(t.schedule),
                    violations: t.found,
                },
            )
        },
{
    assert(a.push(t).drop_last() =~= a);
    assert(schedules_of(a.push(t)) =~= schedules_of(a).push(t.schedule));
}

/// Runs the schedules of a group in turn until the budget is spent, and tells
/// how many were run.
#[verifier::rlimit(30)]
fn run_group<C, I, F>(
    trace: &Trace,
    cas: &mut C,
    group: &Vec<FaultSchedule>,
    max_replays: usize,
    invariants: &Vec<I>,
    tally: &mut Tally,
    drive: &mut F,
    first: Ghost<Contents>,
) -> (r: usize) where C: Cas, I: Invariant<C>, F: FnMut(&mut Replayer<'_, C>)
    requires
        old(cas).works(),
        keeps(first@, old(cas).contents()),
        old(tally).well_formed(),
        old(tally).replays <= max_replays,
        checkable_on_branches::<C, I>(invariants@),
        forall|x: &mut Replayer<'_, C>|
            (*x).ready() ==> #[trigger] call_requires(*old(drive), (x,)),
        forall|x: &mut Replayer<'_, C>| #[trigger]
            call_ensures(*old(drive), (x,), ()) ==> {
                &&& (*final(x)).ready()
                &&& (*final(x)).start == (*x).start
                &&& *final((*final(x)).cas) == *final((*x).cas)
            },
    ensures
        final(cas).works(),
        *final(drive) == *old(drive),
        keeps(old(cas).contents(), final(cas).contents()),
        final(tally).well_formed(),
        r <= group@.len(),
        final(tally).replays == old(tally).replays + r,
        final(tally).replays <= max_replays,
        r < group@.len() ==> final(tally).replays == max_replays,
        schedules_of(final(tally).tried@) == schedules_of(old(tally).tried@) + views(
            group@,
        ).take(r as int),
        forall|asks: Asking|
            (forall|x: &mut Replayer<'_, C>| #[trigger]
                call_ensures(*old(drive), (x,), ()) && (*x).ready() && (*x).steps@.len() == 0
                    ==> asks.contains(((*x).start@, (*final(x)).steps@))) && may_turn_out::<C, I>(
                trace@,
                first@,
                invariants@,
                old(tally).tried@,
                asks,
            ) ==> #[trigger] may_turn_out::<C, I>(
                trace@,
                first@,
                invariants@,
                final(tally).tried@,
                asks,
            ),
{
    let ghost agent = *drive;
    let ghost start = *tally;
    let ghost all = views(group@);
    let mut i: usize = 0;
    assert(all.take(0) =~= seq![]);
    assert(schedules_of(start.tried@) + seq![] =~= schedules_of(start.tried@));
    while i < group.len() && tally.replays < max_replays
        invariant
            *drive == agent,
            agent == *old(drive),
            start == *old(tally),
            all == views(group@),
            cas.works(),
            keeps(old(cas).contents(), cas.contents()),
            keeps(first@, cas.contents()),
            tally.well_formed(),
            i <= group@.len(),
            tally.replays == start.replays + i,
            tally.replays <= max_replays,
            schedules_of(tally.tried@) == schedules_of(start.tried@) + all.take(i as int),
            forall|asks: Asking|
                (forall|x: &mut Replayer<'_, C>| #[trigger]
                    call_ensures(agent, (x,), ()) && (*x).ready() && (*x).steps@.len() == 0
                        ==> asks.contains(((*x).start@, (*final(x)).steps@))) && may_turn_out::<C, I>(
                    trace@,
                    first@,
                    invariants@,
                    start.tried@,
                    asks,
                ) ==> #[trigger] may_turn_out::<C, I>(
                    trace@,
                    first@,
                    invariants@,
                    tally.tried@,
                    asks,
                ),
            checkable_on_branches::<C, I>(invariants@),
            forall|x: &mut Replayer<'_, C>|
                (*x).ready() ==> #[trigger] call_requires(agent, (x,)),
            forall|x: &mut Replayer<'_, C>| #[trigger]
                call_ensures(agent, (x,), ()) ==> {
                    &&& (*final(x)).ready()
                    &&& (*final(x)).start == (*x).start
                    &&& *final((*final(x)).cas) == *final((*x).cas)
                },
        decreases group@.len() - i,
    {
        let ghost held = cas.contents();
        let ghost before = tally.tried@;
        let violations = evaluate_with(trace, cas, group[i].clone(), invariants, drive);
        let ghost now = Tried { schedule: group@[i as int]@, found: views(violations@) };
        proof {
            lemma_tried_more(before, now);
            assert(all.take(i + 1) =~= all.take(i as int).push(now.schedule));
            assert((schedules_of(start.tried@) + all.take(i as int)).push(now.schedule)
                =~= schedules_of(start.tried@) + all.take(i + 1));
            tally.tried@ = before.push(now);
            assert forall|asks: Asking|
                (forall|x: &mut Replayer<'_, C>| #[trigger]
                    call_ensures(agent, (x,), ()) && (*x).ready() && (*x).steps@.len() == 0
                        ==> asks.contains(((*x).start@, (*final(x)).steps@))) && may_turn_out::<C, I>(
                    trace@,
                    first@,
                    invariants@,
                    start.tried@,
                    asks,
                ) implies #[trigger] may_turn_out::<C, I>(
                trace@,
                first@,
                invariants@,
                tally.tried@,
                asks,
            ) by {
                assert(may_turn_out::<C, I>(trace@, first@, invariants@, before, asks));
                assert(may_break::<C, I>(
                    trace@,
                    held,
                    now.schedule,
                    invariants@,
                    now.found,
                    asks,
                ));
                assert forall|k: int| 0 <= k < tally.tried@.len() implies may_break_later::<C, I>(
                    trace@,
                    first@,
                    (#[trigger] tally.tried@[k]).schedule,
                    invariants@,
                    tally.tried@[k].found,
                    asks,
                ) by {
                    if k < before.len() {
                        assert(tally.tried@[k] == before[k]);
                    }
                }
            }
        }
        if violations.len() > 0 {
            let case = Case {
                schedule: group[i].clone(),
                description: group[i].describe(),
                violations,
            };
            let ghost known = tally.failures@;
            tally.failures.push(case);
            assert(views(tally.failures@) =~= views(known).push(case@));
        }
        tally.replays += 1;
        i += 1;
    }
    i
}

/// The schedules of one fault at a position.
fn singles_for(at: u64, kinds: &Vec<Fault>) -> (r: Vec<FaultSchedule>)
    ensures
        views(r@) == singles_at(at, views(kinds@)),
{
    let mut out: Vec<FaultSchedule> = Vec::new();
    let mut k: usize = 0;
    while k < kinds.len()
        invariant
            k <= kinds@.len(),
            out@.len() == k,
            forall|i: int| 0 <= i < k ==> (#[trigger] out@[i])@ == singles_at(at, views(kinds@))[i],
        decreases kinds@.len() - k,
    {
        let mut points: Vec<FaultPoint> = Vec::new();
        points.push(FaultPoint { seq: at, fault: kinds[k].clone() });
        let schedule = FaultSchedule::of(points);
        assert(schedule@ =~= singles_at(at, views(kinds@))[k as int]);
        out.push(schedule);
        k += 1;
    }
    assert(views(out@) =~= singles_at(at, views(kinds@)));
    out
}

/// The schedules of one fault at each of two positions.
fn pairs_for(one: u64, other: u64, kinds: &Vec<Fault>) -> (r: Vec<FaultSchedule>)
    ensures
        views(r@) == pairs_at(one, other, views(kinds@)),
{
    let ghost wanted = pairs_at(one, other, views(kinds@));
    let ghost n: int = kinds@.len() as int;
    let mut out: Vec<FaultSchedule> = Vec::new();
    let mut a: usize = 0;
    assert(0 * n == 0) by (nonlinear_arith);
    while a < kinds.len()
        invariant
            a <= kinds@.len(),
            n == kinds@.len(),
            wanted == pairs_at(one, other, views(kinds@)),
            out@.len() == a * n,
            forall|i: int| 0 <= i < out@.len() ==> (#[trigger] out@[i])@ == wanted[i],
        decreases kinds@.len() - a,
    {
        let mut b: usize = 0;
        while b < kinds.len()
            invariant
                a < kinds@.len(),
                b <= kinds@.len(),
                n == kinds@.len(),
                wanted == pairs_at(one, other, views(kinds@)),
                out@.len() == a * n + b,
                forall|i: int| 0 <= i < out@.len() ==> (#[trigger] out@[i])@ == wanted[i],
            decreases kinds@.len() - b,
        {
            let mut points: Vec<FaultPoint> = Vec::new();
            points.push(FaultPoint { seq: one, fault: kinds[a].clone() });
            points.push(FaultPoint { seq: other, fault: kinds[b].clone() });
            let schedule = FaultSchedule::of(points);
            proof {
                let at: int = out@.len() as int;
                let x: int = a as int;
                let y: int = b as int;
                assert(0 <= at < n * n && at / n == x && at % n == y) by (nonlinear_arith)
                    requires
                        at == x * n + y,
                        0 <= x < n,
                        0 <= y < n,
                ;
                assert(schedule@ =~= wanted[at]);
            }
            out.push(schedule);
            b += 1;
        }
        assert((a + 1) * n == a * n + n) by (nonlinear_arith);
        a += 1;
    }
    assert(views(out@) =~= wanted);
    out
}

/// What remains of a list once a part of it was taken from the front.
proof fn lemma_cut_short(
    whole: Seq<Seq<PointModel>>,
    done: Seq<Seq<PointModel>>,
    group: Seq<Seq<PointModel>>,
    rest: Seq<Seq<PointModel>>,
    r: int,
)
    requires
        whole == done + (group + rest),
        0 <= r <= group.len(),
    ensures
        done + group.take(r) == whole.take(done.len() + r),
        r == group.len() ==> whole == (done + group.take(r)) + rest,
        r < group.len() ==> done.len() + r < whole.len(),
{
    assert(done + group.take(r) =~= whole.take(done.len() + r));
    if r == group.len() {
        assert(whole =~= (done + group.take(r)) + rest);
    }
}

/// Runs every fault of the space at every position, as far as the budget of
/// replays goes, and, where `pairs` is set and the single faults are done,
/// every pair of them.
#[verifier::rlimit(60)]
#[verifier::spinoff_prover]
pub fn sweep<C, I, F>(
    trace: &Trace,
    cas: &mut C,
    invariants: &Vec<I>,
    max_replays: usize,
    pairs: bool,
    drive: F,
) -> (r: Coverage) where C: Cas, I: Invariant<C>, F: FnMut(&mut Replayer<'_, C>)
    requires
        old(cas).works(),
        checkable_on_branches::<C, I>(invariants@),
        forall|x: &mut Replayer<'_, C>|
            (*x).ready() ==> #[trigger] call_requires(drive, (x,)),
        forall|x: &mut Replayer<'_, C>| #[trigger]
            call_ensures(drive, (x,), ()) ==> {
                &&& (*final(x)).ready()
                &&& (*final(x)).start == (*x).start
                &&& *final((*final(x)).cas) == *final((*x).cas)
            },
    ensures
        final(cas).works(),
        keeps(old(cas).contents(), final(cas).contents()),
        exists|asks: Asking|
            {
                &&& #[trigger] may_sweep::<C, I>(
                    trace@,
                    old(cas).contents(),
                    invariants@,
                    max_replays as nat,
                    pairs,
                    r@,
                    asks,
                )
                &&& forall|p: (ReplayState, Seq<Step>)| #[trigger]
                    asks.contains(p) <==> exists|x: &mut Replayer<'_, C>| #[trigger]
                        call_ensures(drive, (x,), ()) && (*x).ready() && (*x).start@ == p.0
                            && (*x).steps@.len() == 0 && (*final(x)).steps@ == p.1
            },
{
    let ghost asks = Set::new(
        |p: (ReplayState, Seq<Step>)|
            exists|x: &mut Replayer<'_, C>| #[trigger]
                call_ensures(drive, (x,), ()) && (*x).ready() && (*x).start@ == p.0
                    && (*x).steps@.len() == 0 && (*final(x)).steps@ == p.1,
    );
    let mut drive = drive;
    let ghost agent = drive;
    let ghost first = cas.contents();
    let ghost model = kinds_model();
    let eligible = trace.faultable();
    let kinds = fault_kinds();
    let ghost singles = single_schedules(eligible@, model, 0);
    let mut tally = Tally { replays: 0, failures: Vec::new(), tried: Ghost(Seq::empty()) };
    assert(views(tally.failures@) =~= failing(tally.tried@));
    assert(schedules_of(tally.tried@) + singles =~= singles);
    let mut complete = true;
    let mut i: usize = 0;
    while i < eligible.len() && complete
        invariant
            drive == agent,
            first == old(cas).contents(),
            cas.works(),
            keeps(first, cas.contents()),
            checkable_on_branches::<C, I>(invariants@),
            model == kinds_model(),
            views(kinds@) == model,
            singles == single_schedules(eligible@, model, 0),
            i <= eligible@.len(),
            tally.well_formed(),
            tally.replays <= max_replays,
            may_turn_out::<C, I>(trace@, first, invariants@, tally.tried@, asks),
            complete ==> singles == schedules_of(tally.tried@) + single_schedules(
                eligible@,
                model,
                i as nat,
            ),
            !complete ==> tally.replays == max_replays && max_replays < singles.len()
                && schedules_of(tally.tried@) == singles.take(max_replays as int),
            forall|x: &mut Replayer<'_, C>|
                (*x).ready() ==> #[trigger] call_requires(agent, (x,)),
            forall|x: &mut Replayer<'_, C>| #[trigger]
                call_ensures(agent, (x,), ()) && (*x).ready() && (*x).steps@.len() == 0
                    ==> asks.contains(((*x).start@, (*final(x)).steps@)),
            forall|x: &mut Replayer<'_, C>| #[trigger]
                call_ensures(agent, (x,), ()) ==> {
                    &&& (*final(x)).ready()
                    &&& (*final(x)).start == (*x).start
                    &&& *final((*final(x)).cas) == *final((*x).cas)
                },
        decreases eligible@.len() - i,
    {
        let ghost done = schedules_of(tally.tried@);
        let group = singles_for(eligible[i], &kinds);
        let n: usize = run_group(
            trace,
            cas,
            &group,
            max_replays,
            invariants,
            &mut tally,
            &mut drive,
            Ghost(first),
        );
        proof {
            lemma_cut_short(
                singles,
                done,
                views(group@),
                single_schedules(eligible@, model, (i + 1) as nat),
                n as int,
            );
        }
        complete = n == group.len();
        i += 1;
    }
    let singles_checked: usize = tally.replays;
    let ghost doubles = pair_schedules(eligible@, model, 0, 1);
    let ghost space = sweep_space(eligible@, pairs);
    proof {
        if complete {
            assert(schedules_of(tally.tried@) + single_schedules(eligible@, model, i as nat)
                =~= schedules_of(tally.tried@));
            assert(schedules_of(tally.tried@).len() == singles.len());
        } else {
            assert(space.take(max_replays as int) =~= singles.take(max_replays as int));
        }
    }
    let singles_exhaustive = complete;
    let earned = complete && pairs;
    if earned {
        assert(singles + doubles =~= schedules_of(tally.tried@) + doubles);
        let mut going = true;
        let mut i: usize = 0;
        while i < eligible.len() && going
            invariant
                drive == agent,
                first == old(cas).contents(),
                cas.works(),
                keeps(first, cas.contents()),
                checkable_on_branches::<C, I>(invariants@),
                model == kinds_model(),
                views(kinds@) == model,
                space == singles + doubles,
                singles_checked == singles.len(),
                i <= eligible@.len(),
                tally.well_formed(),
                singles_checked <= tally.replays <= max_replays,
                may_turn_out::<C, I>(trace@, first, invariants@, tally.tried@, asks),
                going ==> space == schedules_of(tally.tried@) + pair_schedules(
                    eligible@,
                    model,
                    i as nat,
                    (i + 1) as nat,
                ),
                !going ==> tally.replays == max_replays && max_replays < space.len()
                    && schedules_of(tally.tried@) == space.take(max_replays as int),
                forall|x: &mut Replayer<'_, C>|
                    (*x).ready() ==> #[trigger] call_requires(agent, (x,)),
                forall|x: &mut Replayer<'_, C>| #[trigger]
                    call_ensures(agent, (x,), ()) && (*x).ready() && (*x).steps@.len() == 0
                        ==> asks.contains(((*x).start@, (*final(x)).steps@)),
                forall|x: &mut Replayer<'_, C>| #[trigger]
                    call_ensures(agent, (x,), ()) ==> {
                        &&& (*final(x)).ready()
                        &&& (*final(x)).start == (*x).start
                        &&& *final((*final(x)).cas) == *final((*x).cas)
                    },
            decreases eligible@.len() - i,
        {
            let mut j: usize = i + 1;
            while j < eligible.len() && going
                invariant
                    drive == agent,
                    first == old(cas).contents(),
                    cas.works(),
                    keeps(first, cas.contents()),
                    checkable_on_branches::<C, I>(invariants@),
                    model == kinds_model(),
                    views(kinds@) == model,
                    space == singles + doubles,
                    singles_checked == singles.len(),
                    i < eligible@.len(),
                    j <= eligible@.len(),
                    tally.well_formed(),
                    singles_checked <= tally.replays <= max_replays,
                    may_turn_out::<C, I>(trace@, first, invariants@, tally.tried@, asks),
                    going ==> space == schedules_of(tally.tried@) + pair_schedules(
                        eligible@,
                        model,
                        i as nat,
                        j as nat,
                    ),
                    !going ==> tally.replays == max_replays && max_replays < space.len()
                        && schedules_of(tally.tried@) == space.take(max_replays as int),
                    forall|x: &mut Replayer<'_, C>|
                        (*x).ready() ==> #[trigger] call_requires(agent, (x,)),
                    forall|x: &mut Replayer<'_, C>| #[trigger]
                        call_ensures(agent, (x,), ()) && (*x).ready() && (*x).steps@.len() == 0
                            ==> asks.contains(((*x).start@, (*final(x)).steps@)),
                    forall|x: &mut Replayer<'_, C>| #[trigger]
                        call_ensures(agent, (x,), ()) ==> {
                            &&& (*final(x)).ready()
                            &&& (*final(x)).start == (*x).start
                            &&& *final((*final(x)).cas) == *final((*x).cas)
                        },
                decreases eligible@.len() - j,
            {
                let ghost done = schedules_of(tally.tried@);
                let group = pairs_for(eligible[i], eligible[j], &kinds);
                let n: usize = run_group(
                    trace,
                    cas,
                    &group,
                    max_replays,
                    invariants,
                    &mut tally,
                    &mut drive,
                    Ghost(first),
                );
                proof {
                    lemma_cut_short(
                        space,
                        done,
                        views(group@),
                        pair_schedules(eligible@, model, i as nat, (j + 1) as nat),
                        n as int,
                    );
                }
                going = n == group.len();
                j += 1;
            }
            i += 1;
        }
        proof {
            if going {
                assert(schedules_of(tally.tried@) + pair_schedules(
                    eligible@,
                    model,
                    i as nat,
                    (i + 1) as nat,
                ) =~= schedules_of(tally.tried@));
            }
        }
        complete = going;
    }
    proof {
        assert(space.take(space.len() as int) =~= space);
        assert(schedules_of(tally.tried@).len() == tally.tried@.len());
    }
    let out = Coverage {
        positions: eligible.len(),
        kinds: kinds.len(),
        singles_checked,
        singles_exhaustive,
        pairs_checked: tally.replays - singles_checked,
        pairs_exhaustive: earned && complete,
        replays: tally.replays,
        failures: tally.failures,
    };
    assert(out@ =~= swept(eligible@, max_replays as nat, pairs, tally.tried@));
    assert(may_sweep::<C, I>(
        trace@,
        first,
        invariants@,
        max_replays as nat,
        pairs,
        out@,
        asks,
    ));
    out
}

} // verus!
