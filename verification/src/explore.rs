//! Searching the space of fault schedules.
//!
//! Given a recording and a set of invariants, "is this agent robust?" is a
//! search: generate a schedule from each seed, replay under it, and check the
//! invariants. A schedule is a function of its seed, so a failure is reported
//! as one number and reproduces anywhere.

use crate::cas::{keeps, Cas, Contents};
use crate::config::Checker;
use crate::determined::{
    complete, deterministic, lemma_settles, same_course, settled_exactly,
};
use crate::event::{kind_name, Event, EventModel};
use crate::fault::{
    description, generated, Fault, FaultModel, FaultPoint, FaultSchedule, PointModel,
};
use crate::hash::{has_short, short_of};
use crate::invariants::{
    all_breaches, all_checkable, check_all, identities_shown, violation_report, Invariant,
    Violation, ViolationModel,
};
use crate::model::views;
use crate::replay::Effects;
use crate::replayer::{
    branch_of, lemma_steps_keep, replay_start, result_of, steps_run, Mode, ModeModel, ReplayResult,
    ReplayState, Replayer, ResultModel, Step,
};
use crate::shrink::{
    capped, count_up, lemma_sublist_self, lemma_sublist_transitive, minimal, sublist, Reduction,
    Shrunk, Stage, Verdict,
};
use crate::text::{
    ascending, decimal, distinct, is_ascending, lemma_ascending, lemma_ascending_unique, same,
    same_list, show, show_size, sort, sort_distinct, texts,
};
use crate::trace::{faultable_positions, Trace, TraceModel};
use crate::verdicts::{
    found_first, lemma_minimise_comes_out, lemma_search_comes_out, reads_named, same_failure,
};
use vstd::prelude::*;

verus! {

/// A schedule that breaks the agent.
#[derive(Debug, PartialEq, Eq)]
pub struct Finding {
    /// The seed that generated it. This is the whole bug report.
    pub seed: u64,
    pub schedule: FaultSchedule,
    pub violations: Vec<Violation>,
}

/// The lines that report some violations.
pub open spec fn violation_lines(violations: Seq<ViolationModel>) -> Seq<char>
    decreases violations.len(),
{
    if violations.len() == 0 {
        seq![]
    } else {
        violation_lines(violations.drop_last()) + "  "@ + violation_report(violations.last())
            + "\n"@
    }
}

/// The report on a finding.
pub open spec fn finding_report(
    seed: u64,
    schedule: Seq<PointModel>,
    violations: Seq<ViolationModel>,
) -> Seq<char> {
    "seed "@ + decimal(seed as nat) + " broke "@ + decimal(violations.len()) + " invariant(s)\n"@
        + "  schedule: "@ + description(schedule) + "\n"@ + violation_lines(violations)
}

impl Finding {
    /// The bug report.
    pub fn report(&self) -> (r: String)
        ensures
            r@ == finding_report(self.seed, self.schedule@, views(self.violations@)),
    {
        let mut out = "seed ".to_owned();
        out.append(show(self.seed).as_str());
        out.append(" broke ");
        out.append(show_size(self.violations.len()).as_str());
        out.append(" invariant(s)\n");
        out.append("  schedule: ");
        out.append(self.schedule.describe().as_str());
        out.append("\n");
        let ghost head = out@;
        let ghost all = views(self.violations@);
        let mut i: usize = 0;
        assert(all.take(0) =~= seq![]);
        assert(head + violation_lines(all.take(0)) =~= head);
        while i < self.violations.len()
            invariant
                i <= self.violations@.len(),
                all == views(self.violations@),
                out@ == head + violation_lines(all.take(i as int)),
            decreases self.violations@.len() - i,
        {
            let ghost before = out@;
            assert(all.take(i + 1).drop_last() =~= all.take(i as int));
            assert(all.take(i + 1).last() == self.violations@[i as int]@);
            out.append("  ");
            out.append(self.violations[i].report().as_str());
            out.append("\n");
            assert(out@ =~= head + violation_lines(all.take(i + 1)));
            i += 1;
        }
        assert(all.take(i as int) =~= all);
        out
    }
}

// ---------------------------------------------------------------------------
// Replaying under a schedule
// ---------------------------------------------------------------------------

/// The questions that an agent may ask, by how the replay starts.
pub type Asking = Set<(ReplayState, Seq<Step>)>;

/// Whether a replay of a run under a schedule may end so: for some questions
/// that the agent may ask.
pub open spec fn may_end(
    trace: TraceModel,
    before: Contents,
    schedule: Seq<PointModel>,
    end: ReplayState,
    asks: Asking,
) -> bool {
    let start = replay_start(trace, before, ModeModel::Counterfactual { schedule });
    exists|steps: Seq<Step>|
        asks.contains((start, steps)) && end == #[trigger] steps_run(start, steps)
}

/// Whether a replay of a run under a schedule may produce this, and leave a
/// store that holds this.
pub open spec fn may_replay(
    trace: TraceModel,
    before: Contents,
    schedule: Seq<PointModel>,
    label: Seq<char>,
    result: ResultModel,
    after: Contents,
    asks: Asking,
) -> bool {
    exists|end: ReplayState| #[trigger]
        may_end(trace, before, schedule, end, asks) && result == result_of(end, label) && after
            == end.contents
}

/// Whether a replay of a run under a schedule may give this branch, and leave
/// a store that holds this.
pub open spec fn may_branch(
    trace: TraceModel,
    before: Contents,
    schedule: Seq<PointModel>,
    label: Seq<char>,
    branch: TraceModel,
    after: Contents,
    asks: Asking,
) -> bool {
    exists|end: ReplayState| #[trigger]
        may_end(trace, before, schedule, end, asks) && branch == branch_of(end, label) && after
            == end.contents
}

/// Whether replaying a run under a schedule may break the invariants so.
pub open spec fn may_break<C: Cas, I: Invariant<C>>(
    trace: TraceModel,
    before: Contents,
    schedule: Seq<PointModel>,
    invariants: Seq<I>,
    found: Seq<ViolationModel>,
    asks: Asking,
) -> bool {
    exists|end: ReplayState| #[trigger]
        may_end(trace, before, schedule, end, asks) && found == all_breaches::<C, I>(
            invariants,
            branch_of(end, "counterfactual"@),
            end.contents,
        )
}

/// Whether invariants can be checked on every run whose identities have a
/// head to show.
pub open spec fn checkable_on_branches<C: Cas, I: Invariant<C>>(invariants: Seq<I>) -> bool {
    forall|t: TraceModel, contents: Contents|
        identities_shown(t) ==> #[trigger] all_checkable::<C, I>(invariants, t, contents)
}

/// Declared properties can be checked on every run whose identities have a
/// head to show.
pub proof fn lemma_declared_checkable<C: Cas>(invariants: Seq<Checker>)
    ensures
        checkable_on_branches::<C, Checker>(invariants),
{
    assert forall|t: TraceModel, contents: Contents| identities_shown(
        t,
    ) implies #[trigger] all_checkable::<C, Checker>(invariants, t, contents) by {
        assert forall|i: int| 0 <= i < invariants.len() implies Invariant::<C>::checkable(
            &(#[trigger] invariants[i]),
            t,
            contents,
        ) by {}
    }
}

/// Replay `trace` under `schedule`, driving the agent with `drive`.
pub(crate) fn replay_under<C, F>(
    trace: &Trace,
    cas: &mut C,
    schedule: FaultSchedule,
    label: &str,
    drive: &mut F,
) -> (r: ReplayResult) where C: Cas, F: FnMut(&mut Replayer<'_, C>)
    requires
        old(cas).works(),
        forall|x: &mut Replayer<'_, C>|
            (*x).ready() ==> #[trigger] call_requires(*old(drive), (x,)),
        forall|x: &mut Replayer<'_, C>| #[trigger]
            call_ensures(*old(drive), (x,), ()) ==> {
                &&& (*final(x)).ready()
                &&& (*final(x)).start == (*x).start
                &&& *final((*final(x)).cas) == *final((*x).cas)
            },
    ensures
        final(cas).works(),
        *final(drive) == *old(drive),
        identities_shown(r.branch@),
        keeps(old(cas).contents(), final(cas).contents()),
        forall|asks: Asking|
            (forall|x: &mut Replayer<'_, C>| #[trigger]
                call_ensures(*old(drive), (x,), ()) && (*x).ready() && (*x).steps@.len() == 0
                    ==> asks.contains(((*x).start@, (*final(x)).steps@))) ==> #[trigger] may_replay(
                trace@,
                old(cas).contents(),
                schedule@,
                label@,
                r@,
                final(cas).contents(),
                asks,
            ),
{
    let mut replayer = match Replayer::new(trace, cas, Mode::Counterfactual { schedule }) {
        Ok(replayer) => replayer,
        Err(_) => return ReplayResult {
            branch: Trace::new(crate::trace::TraceHeader::default()),
            divergences: Vec::new(),
            holes: Vec::new(),
            followed: false,
        },
    };
    drive(&mut replayer);
    let ghost end = replayer@;
    let ghost start = replayer.start@;
    let ghost steps = replayer.steps@;
    let result = replayer.finish(label);
    proof {
        assert forall|asks: Asking|
            (forall|x: &mut Replayer<'_, C>| #[trigger]
                call_ensures(*old(drive), (x,), ()) && (*x).ready() && (*x).steps@.len() == 0
                    ==> asks.contains(((*x).start@, (*final(x)).steps@))) implies #[trigger] may_replay(
            trace@,
            old(cas).contents(),
            schedule@,
            label@,
            result@,
            end.contents,
            asks,
        ) by {
            assert(asks.contains((start, steps)));
            assert(end == steps_run(start, steps));
            assert(may_end(trace@, old(cas).contents(), schedule@, end, asks));
        }
        lemma_steps_keep(start, steps);
        assert forall|i: int| 0 <= i < result.branch@.events.len() implies has_short(
            (#[trigger] result.branch@.events[i]).identity,
        ) by {
            crate::hash::lemma_full_has_short(end.branch[i].identity);
        }
    }
    result
}

/// Replay `trace` under `schedule`, driving the agent with `drive`, and give
/// the branch.
pub(crate) fn run_branch<C, F>(
    trace: &Trace,
    cas: &mut C,
    schedule: FaultSchedule,
    label: &str,
    drive: &mut F,
) -> (r: Trace) where C: Cas, F: FnMut(&mut Replayer<'_, C>)
    requires
        old(cas).works(),
        forall|x: &mut Replayer<'_, C>|
            (*x).ready() ==> #[trigger] call_requires(*old(drive), (x,)),
        forall|x: &mut Replayer<'_, C>| #[trigger]
            call_ensures(*old(drive), (x,), ()) ==> {
                &&& (*final(x)).ready()
                &&& (*final(x)).start == (*x).start
                &&& *final((*final(x)).cas) == *final((*x).cas)
            },
    ensures
        final(cas).works(),
        *final(drive) == *old(drive),
        identities_shown(r@),
        keeps(old(cas).contents(), final(cas).contents()),
        forall|asks: Asking|
            (forall|x: &mut Replayer<'_, C>| #[trigger]
                call_ensures(*old(drive), (x,), ()) && (*x).ready() && (*x).steps@.len() == 0
                    ==> asks.contains(((*x).start@, (*final(x)).steps@))) ==> #[trigger] may_branch(
                trace@,
                old(cas).contents(),
                schedule@,
                label@,
                r@,
                final(cas).contents(),
                asks,
            ),
{
    let ghost held = cas.contents();
    let ghost points = schedule@;
    let result = replay_under(trace, cas, schedule, label, drive);
    proof {
        assert forall|asks: Asking|
            (forall|x: &mut Replayer<'_, C>| #[trigger]
                call_ensures(*old(drive), (x,), ()) && (*x).ready() && (*x).steps@.len() == 0
                    ==> asks.contains(((*x).start@, (*final(x)).steps@))) implies #[trigger] may_branch(
            trace@,
            held,
            points,
            label@,
            result.branch@,
            cas.contents(),
            asks,
        ) by {
            assert(may_replay(
                trace@,
                held,
                points,
                label@,
                result@,
                cas.contents(),
                asks,
            ));
        }
    }
    result.branch
}

/// Replay `trace` under `schedule` and check the invariants on the branch.
pub(crate) fn evaluate_with<C, I, F>(
    trace: &Trace,
    cas: &mut C,
    schedule: FaultSchedule,
    invariants: &Vec<I>,
    drive: &mut F,
) -> (r: Vec<Violation>) where C: Cas, I: Invariant<C>, F: FnMut(&mut Replayer<'_, C>)
    requires
        old(cas).works(),
        checkable_on_branches::<C, I>(invariants@),
        forall|x: &mut Replayer<'_, C>|
            (*x).ready() ==> #[trigger] call_requires(*old(drive), (x,)),
        forall|x: &mut Replayer<'_, C>| #[trigger]
            call_ensures(*old(drive), (x,), ()) ==> {
                &&& (*final(x)).ready()
                &&& (*final(x)).start == (*x).start
                &&& *final((*final(x)).cas) == *final((*x).cas)
            },
    ensures
        final(cas).works(),
        *final(drive) == *old(drive),
        keeps(old(cas).contents(), final(cas).contents()),
        forall|asks: Asking|
            (forall|x: &mut Replayer<'_, C>| #[trigger]
                call_ensures(*old(drive), (x,), ()) && (*x).ready() && (*x).steps@.len() == 0
                    ==> asks.contains(((*x).start@, (*final(x)).steps@))) ==> #[trigger] may_break::<C, I>(
                trace@,
                old(cas).contents(),
                schedule@,
                invariants@,
                views(r@),
                asks,
            ) && may_break_between::<C, I>(
                trace@,
                old(cas).contents(),
                final(cas).contents(),
                schedule@,
                invariants@,
                views(r@),
                asks,
            ),
{
    let ghost held = cas.contents();
    let ghost points = schedule@;
    let branch = run_branch(trace, cas, schedule, "counterfactual", drive);
    let violations = check_all(&branch, cas, invariants);
    proof {
        assert forall|asks: Asking|
            (forall|x: &mut Replayer<'_, C>| #[trigger]
                call_ensures(*old(drive), (x,), ()) && (*x).ready() && (*x).steps@.len() == 0
                    ==> asks.contains(((*x).start@, (*final(x)).steps@))) implies #[trigger] may_break::<C, I>(
            trace@,
            held,
            points,
            invariants@,
            views(violations@),
            asks,
        ) && may_break_between::<C, I>(
            trace@,
            held,
            cas.contents(),
            points,
            invariants@,
            views(violations@),
            asks,
        ) by {
            assert(may_branch(
                trace@,
                held,
                points,
                "counterfactual"@,
                branch@,
                cas.contents(),
                asks,
            ));
            let end = choose|end: ReplayState| #[trigger]
                may_end(trace@, held, points, end, asks) && branch@ == branch_of(
                    end,
                    "counterfactual"@,
                ) && cas.contents() == end.contents;
            assert(keeps(held, held) && keeps(end.contents, cas.contents()));
            assert(may_end(trace@, held, points, end, asks));
        }
    }
    violations
}

/// Replay `trace` under `schedule`, driving the agent with `drive`, and give
/// whichever invariants it broke.
pub fn evaluate<C, I, F>(
    trace: &Trace,
    cas: &mut C,
    schedule: FaultSchedule,
    invariants: &Vec<I>,
    drive: F,
) -> (r: Vec<Violation>) where C: Cas, I: Invariant<C>, F: FnMut(&mut Replayer<'_, C>)
    requires
        old(cas).works(),
        checkable_on_branches::<C, I>(invariants@),
        forall|x: &mut Replayer<'_, C>|
            (*x).ready() ==> #[trigger] call_requires(drive, (x,)),
        forall|x: &mut Replayer<'_, C>| #[trigger]
            call_ensures(drive, (x,), ()) ==> {
                &&& (*final(x)).ready()
                &&& (*final(x)).start == (*x).start
                &&& *final((*final(x)).cas) == *final((*x).cas)
            },
    ensures
        final(cas).works(),
        keeps(old(cas).contents(), final(cas).contents()),
        exists|asks: Asking|
            {
                &&& #[trigger] may_break::<C, I>(
                    trace@,
                    old(cas).contents(),
                    schedule@,
                    invariants@,
                    views(r@),
                    asks,
                )
                &&& may_break_between::<C, I>(
                    trace@,
                    old(cas).contents(),
                    final(cas).contents(),
                    schedule@,
                    invariants@,
                    views(r@),
                    asks,
                )
                &&& forall|p: (ReplayState, Seq<Step>)| #[trigger]
                    asks.contains(p) <==> exists|x: &mut Replayer<'_, C>| #[trigger]
                        call_ensures(drive, (x,), ()) && (*x).ready() && (*x).start@ == p.0
                            && (*x).steps@.len() == 0 && (*final(x)).steps@ == p.1
                &&& (forall|x: &mut Replayer<'_, C>, y: &mut Replayer<'_, C>| #[trigger]
                    call_ensures(drive, (x,), ()) && #[trigger] call_ensures(drive, (y,), ())
                        && (*x).ready() && (*y).ready() && (*x).steps@.len() == 0
                        && (*y).steps@.len() == 0 && (*x).start@.trace == trace@ && same_course(
                        (*x).start@,
                        (*y).start@,
                    ) && keeps(old(cas).contents(), (*x).start@.contents) && keeps(
                        old(cas).contents(),
                        (*y).start@.contents,
                    ) ==> (*final(x)).steps@ == (*final(y)).steps@) ==> deterministic(
                    asks,
                    trace@,
                    old(cas).contents(),
                )
            },
{
    let ghost asks = Set::new(
        |p: (ReplayState, Seq<Step>)|
            exists|x: &mut Replayer<'_, C>| #[trigger]
                call_ensures(drive, (x,), ()) && (*x).ready() && (*x).start@ == p.0
                    && (*x).steps@.len() == 0 && (*final(x)).steps@ == p.1,
    );
    let ghost held = cas.contents();
    let ghost points = schedule@;
    let mut drive = drive;
    let violations = evaluate_with(trace, cas, schedule, invariants, &mut drive);
    assert(may_break::<C, I>(trace@, held, points, invariants@, views(violations@), asks));
    violations
}

/// Whether replaying a run under a schedule may break the invariants so, from
/// a store that holds at least what another does.
pub open spec fn may_break_later<C: Cas, I: Invariant<C>>(
    trace: TraceModel,
    first: Contents,
    schedule: Seq<PointModel>,
    invariants: Seq<I>,
    found: Seq<ViolationModel>,
    asks: Asking,
) -> bool {
    exists|before: Contents|
        keeps(first, before) && #[trigger] may_break::<C, I>(
            trace,
            before,
            schedule,
            invariants,
            found,
            asks,
        )
}

/// Whether replaying a run under a schedule may break the invariants so, from
/// a store that holds at least what one store does, and within what another
/// does.
pub open spec fn may_break_between<C: Cas, I: Invariant<C>>(
    trace: TraceModel,
    first: Contents,
    last: Contents,
    schedule: Seq<PointModel>,
    invariants: Seq<I>,
    found: Seq<ViolationModel>,
    asks: Asking,
) -> bool {
    exists|before: Contents, end: ReplayState|
        keeps(first, before) && #[trigger] may_end(trace, before, schedule, end, asks) && keeps(
            end.contents,
            last,
        ) && found == all_breaches::<C, I>(
            invariants,
            branch_of(end, "counterfactual"@),
            end.contents,
        )
}

/// What may break between two stores may break between wider ones.
pub proof fn lemma_between_wider<C: Cas, I: Invariant<C>>(
    trace: TraceModel,
    first: Contents,
    held: Contents,
    until: Contents,
    last: Contents,
    schedule: Seq<PointModel>,
    invariants: Seq<I>,
    found: Seq<ViolationModel>,
    asks: Asking,
)
    requires
        may_break_between::<C, I>(trace, held, until, schedule, invariants, found, asks),
        keeps(first, held),
        keeps(until, last),
    ensures
        may_break_between::<C, I>(trace, first, last, schedule, invariants, found, asks),
{
    let (before, end) = choose|before: Contents, end: ReplayState|
        keeps(held, before) && #[trigger] may_end(trace, before, schedule, end, asks) && keeps(
            end.contents,
            until,
        ) && found == all_breaches::<C, I>(
            invariants,
            branch_of(end, "counterfactual"@),
            end.contents,
        );
    assert(keeps(first, before) && keeps(end.contents, last));
    assert(may_end(trace, before, schedule, end, asks));
}

/// Whether the schedule of a seed may break nothing: it holds no fault, or
/// the replay under it broke no invariant.
pub open spec fn seed_is_clean<C: Cas, I: Invariant<C>>(
    trace: TraceModel,
    first: Contents,
    last: Contents,
    seed: u64,
    max_faults: nat,
    invariants: Seq<I>,
    asks: Asking,
) -> bool {
    let schedule = generated(seed, faultable_positions(trace.events), max_faults);
    schedule.len() == 0 || may_break_between::<C, I>(
        trace,
        first,
        last,
        schedule,
        invariants,
        seq![],
        asks,
    )
}

/// Whether a search over seeds may come out so: with the first seed whose
/// schedule broke an invariant, or with none where every seed is clean.
pub open spec fn may_find<C: Cas, I: Invariant<C>>(
    trace: TraceModel,
    first: Contents,
    last: Contents,
    from: u64,
    to: u64,
    max_faults: nat,
    invariants: Seq<I>,
    r: Option<Finding>,
    asks: Asking,
) -> bool {
    match r {
        Some(f) => {
            &&& from <= f.seed < to
            &&& f.schedule@ == generated(f.seed, faultable_positions(trace.events), max_faults)
            &&& f.schedule@.len() > 0
            &&& f.violations@.len() > 0
            &&& may_break_between::<C, I>(
                trace,
                first,
                last,
                f.schedule@,
                invariants,
                views(f.violations@),
                asks,
            )
            &&& forall|seed: u64|
                from <= seed < f.seed ==> #[trigger] seed_is_clean::<C, I>(
                    trace,
                    first,
                    last,
                    seed,
                    max_faults,
                    invariants,
                    asks,
                )
        },
        None => forall|seed: u64|
            from <= seed < to ==> #[trigger] seed_is_clean::<C, I>(
                trace,
                first,
                last,
                seed,
                max_faults,
                invariants,
                asks,
            ),
    }
}

/// A seed that is clean between two stores is clean between wider ones.
proof fn lemma_clean_wider<C: Cas, I: Invariant<C>>(
    trace: TraceModel,
    first: Contents,
    until: Contents,
    last: Contents,
    seed: u64,
    max_faults: nat,
    invariants: Seq<I>,
    asks: Asking,
)
    requires
        seed_is_clean::<C, I>(trace, first, until, seed, max_faults, invariants, asks),
        keeps(until, last),
    ensures
        seed_is_clean::<C, I>(trace, first, last, seed, max_faults, invariants, asks),
{
    let schedule = generated(seed, faultable_positions(trace.events), max_faults);
    if schedule.len() > 0 {
        lemma_between_wider::<C, I>(
            trace,
            first,
            first,
            until,
            last,
            schedule,
            invariants,
            seq![],
            asks,
        );
    }
}

/// What a search may find within a store it may find within a wider one.
pub proof fn lemma_find_wider<C: Cas, I: Invariant<C>>(
    trace: TraceModel,
    first: Contents,
    until: Contents,
    last: Contents,
    from: u64,
    to: u64,
    max_faults: nat,
    invariants: Seq<I>,
    r: Option<Finding>,
    asks: Asking,
)
    requires
        may_find::<C, I>(trace, first, until, from, to, max_faults, invariants, r, asks),
        keeps(until, last),
    ensures
        may_find::<C, I>(trace, first, last, from, to, max_faults, invariants, r, asks),
{
    let end = match r {
        Some(f) => f.seed,
        None => to,
    };
    assert forall|seed: u64| from <= seed < end implies #[trigger] seed_is_clean::<C, I>(
        trace,
        first,
        last,
        seed,
        max_faults,
        invariants,
        asks,
    ) by {
        assert(seed_is_clean::<C, I>(trace, first, until, seed, max_faults, invariants, asks));
        lemma_clean_wider::<C, I>(
            trace,
            first,
            until,
            last,
            seed,
            max_faults,
            invariants,
            asks,
        );
    }
    if let Some(f) = r {
        lemma_between_wider::<C, I>(
            trace,
            first,
            first,
            until,
            last,
            f.schedule@,
            invariants,
            views(f.violations@),
            asks,
        );
    }
}

/// Try each seed in turn, and give the first that breaks an invariant.
///
/// Stops at the first finding rather than collecting all of them: a single
/// failure that reproduces is worth more than a list.
pub fn search<C, I, F>(
    trace: &Trace,
    cas: &mut C,
    seeds: std::ops::Range<u64>,
    max_faults: usize,
    invariants: &Vec<I>,
    drive: F,
) -> (r: Option<Finding>) where C: Cas, I: Invariant<C>, F: FnMut(&mut Replayer<'_, C>)
    requires
        old(cas).works(),
        checkable_on_branches::<C, I>(invariants@),
        forall|x: &mut Replayer<'_, C>|
            (*x).ready() ==> #[trigger] call_requires(drive, (x,)),
        forall|x: &mut Replayer<'_, C>| #[trigger]
            call_ensures(drive, (x,), ()) ==> {
                &&& (*final(x)).ready()
                &&& (*final(x)).start == (*x).start
                &&& *final((*final(x)).cas) == *final((*x).cas)
            },
    ensures
        final(cas).works(),
        keeps(old(cas).contents(), final(cas).contents()),
        exists|asks: Asking|
            {
                &&& #[trigger] may_find::<C, I>(
                    trace@,
                    old(cas).contents(),
                    final(cas).contents(),
                    seeds.start,
                    seeds.end,
                    max_faults as nat,
                    invariants@,
                    r,
                    asks,
                )
                &&& forall|p: (ReplayState, Seq<Step>)| #[trigger]
                    asks.contains(p) <==> exists|x: &mut Replayer<'_, C>| #[trigger]
                        call_ensures(drive, (x,), ()) && (*x).ready() && (*x).start@ == p.0
                            && (*x).steps@.len() == 0 && (*final(x)).steps@ == p.1
                &&& (forall|x: &mut Replayer<'_, C>, y: &mut Replayer<'_, C>| #[trigger]
                    call_ensures(drive, (x,), ()) && #[trigger] call_ensures(drive, (y,), ())
                        && (*x).ready() && (*y).ready() && (*x).steps@.len() == 0
                        && (*y).steps@.len() == 0 && (*x).start@.trace == trace@ && same_course(
                        (*x).start@,
                        (*y).start@,
                    ) && keeps(old(cas).contents(), (*x).start@.contents) && keeps(
                        old(cas).contents(),
                        (*y).start@.contents,
                    ) ==> (*final(x)).steps@ == (*final(y)).steps@) ==> deterministic(asks, trace@, old(cas).contents())
                &&& complete(trace@.events, old(cas).contents()) && deterministic(
                    asks,
                    trace@,
                    old(cas).contents(),
                ) && reads_named::<C, I>(invariants@) ==> found_first::<C, I>(
                    trace@,
                    old(cas).contents(),
                    final(cas).contents(),
                    seeds.start,
                    seeds.end,
                    max_faults as nat,
                    invariants@,
                    r,
                    asks,
                )
            },
{
    let ghost asks = Set::new(
        |p: (ReplayState, Seq<Step>)|
            exists|x: &mut Replayer<'_, C>| #[trigger]
                call_ensures(drive, (x,), ()) && (*x).ready() && (*x).start@ == p.0
                    && (*x).steps@.len() == 0 && (*final(x)).steps@ == p.1,
    );
    let mut drive = drive;
    let ghost agent = drive;
    let ghost first = cas.contents();
    let eligible = trace.faultable();
    let mut found: Option<Finding> = None;
    let mut seed: u64 = seeds.start;
    while seed < seeds.end && found.is_none()
        invariant
            drive == agent,
            first == old(cas).contents(),
            cas.works(),
            keeps(first, cas.contents()),
            eligible@ == faultable_positions(trace@.events),
            checkable_on_branches::<C, I>(invariants@),
            seeds.start <= seed,
            seeds.start <= seeds.end ==> seed <= seeds.end,
            found is Some ==> may_find::<C, I>(
                trace@,
                first,
                cas.contents(),
                seeds.start,
                seeds.end,
                max_faults as nat,
                invariants@,
                found,
                asks,
            ),
            found is None ==> forall|s: u64|
                seeds.start <= s < seed ==> #[trigger] seed_is_clean::<C, I>(
                    trace@,
                    first,
                    cas.contents(),
                    s,
                    max_faults as nat,
                    invariants@,
                    asks,
                ),
            forall|x: &mut Replayer<'_, C>|
                (*x).ready() ==> #[trigger] call_requires(agent, (x,)),
            forall|x: &mut Replayer<'_, C>| #[trigger]
                call_ensures(agent, (x,), ()) && (*x).ready() && (*x).steps@.len() == 0
                    ==> asks.contains(((*x).start@, (*final(x)).steps@)),
            forall|x: &mut Replayer<'_, C>| #[trigger]
                call_ensures(agent, (x,), ()) ==> {
                    &&& (*final(x)).ready()
                    &&& (*final(x)).start == (*x).start
                    &&& *final((*final(x)).cas) == *final((*x).cas)
                },
        decreases
            seeds.end - seed,
            if found is None {
                1int
            } else {
                0int
            },
    {
        let schedule = FaultSchedule::generate(seed, &eligible, max_faults);
        let ghost held = cas.contents();
        if !schedule.is_empty() {
            let violations = evaluate_with(trace, cas, schedule.clone(), invariants, &mut drive);
            proof {
                assert(may_break::<C, I>(
                    trace@,
                    held,
                    schedule@,
                    invariants@,
                    views(violations@),
                    asks,
                ));
                lemma_between_wider::<C, I>(
                    trace@,
                    first,
                    held,
                    cas.contents(),
                    cas.contents(),
                    schedule@,
                    invariants@,
                    views(violations@),
                    asks,
                );
                assert forall|s: u64| seeds.start <= s < seed implies #[trigger] seed_is_clean::<
                    C,
                    I,
                >(trace@, first, cas.contents(), s, max_faults as nat, invariants@, asks) by {
                    assert(seed_is_clean::<C, I>(
                        trace@,
                        first,
                        held,
                        s,
                        max_faults as nat,
                        invariants@,
                        asks,
                    ));
                    lemma_clean_wider::<C, I>(
                        trace@,
                        first,
                        held,
                        cas.contents(),
                        s,
                        max_faults as nat,
                        invariants@,
                        asks,
                    );
                }
            }
            if violations.len() > 0 {
                found = Some(Finding { seed, schedule, violations });
                assert(may_find::<C, I>(
                    trace@,
                    first,
                    cas.contents(),
                    seeds.start,
                    seeds.end,
                    max_faults as nat,
                    invariants@,
                    found,
                    asks,
                ));
            } else {
                assert(views(violations@) =~= seq![]);
            }
        }
        if found.is_none() {
            assert(seed_is_clean::<C, I>(
                trace@,
                first,
                cas.contents(),
                seed,
                max_faults as nat,
                invariants@,
                asks,
            ));
            seed += 1;
        }
    }
    assert(may_find::<C, I>(
        trace@,
        first,
        cas.contents(),
        seeds.start,
        seeds.end,
        max_faults as nat,
        invariants@,
        found,
        asks,
    ));
    assert((forall|x: &mut Replayer<'_, C>, y: &mut Replayer<'_, C>| #[trigger]
        call_ensures(agent, (x,), ()) && #[trigger] call_ensures(agent, (y,), ()) && (*x).ready()
            && (*y).ready() && (*x).steps@.len() == 0 && (*y).steps@.len() == 0
            && (*x).start@.trace == trace@ && same_course((*x).start@, (*y).start@) && keeps(
            first,
            (*x).start@.contents,
        ) && keeps(first, (*y).start@.contents) ==> (*final(x)).steps@ == (*final(y)).steps@)
        ==> deterministic(asks, trace@, first));
    proof {
        lemma_search_comes_out::<C, I>(
            trace@,
            first,
            cas.contents(),
            seeds.start,
            seeds.end,
            max_faults as nat,
            invariants@,
            found,
            asks,
        );
    }
    found
}

// ---------------------------------------------------------------------------
// Minimising
// ---------------------------------------------------------------------------

/// The names of the invariants that some violations break.
pub open spec fn broken_names(violations: Seq<ViolationModel>) -> Seq<Seq<char>> {
    distinct(Seq::new(violations.len(), |i: int| violations[i].invariant))
}

/// The names of the invariants that some violations break, in order and each
/// once.
fn names_of(violations: &Vec<Violation>) -> (r: Vec<String>)
    ensures
        texts(r@) == broken_names(views(violations@)),
{
    let mut names: Vec<String> = Vec::new();
    let mut i: usize = 0;
    while i < violations.len()
        invariant
            i <= violations@.len(),
            names@.len() == i,
            forall|k: int| 0 <= k < i ==> (#[trigger] names@[k])@ == violations@[k].invariant@,
        decreases violations@.len() - i,
    {
        names.push(violations[i].invariant.as_str().to_owned());
        i += 1;
    }
    assert(texts(names@) =~= Seq::new(
        violations@.len(),
        |k: int| views(violations@)[k].invariant,
    ));
    sort_distinct(names)
}

/// Whether replaying a run under a schedule may break exactly the invariants
/// of these names, or may fail to.
pub open spec fn may_reproduce<C: Cas, I: Invariant<C>>(
    trace: TraceModel,
    first: Contents,
    last: Contents,
    invariants: Seq<I>,
    target: Seq<Seq<char>>,
    schedule: Seq<PointModel>,
    reproduced: bool,
    asks: Asking,
) -> bool {
    exists|found: Seq<ViolationModel>| #[trigger]
        may_break_between::<C, I>(trace, first, last, schedule, invariants, found, asks)
            && reproduced == (broken_names(found) == target)
}

/// A schedule that was tried, and whether it failed.
pub struct Trial {
    pub schedule: Seq<PointModel>,
    pub failed: bool,
}

/// Whether a verdict gives the answers of some trials.
pub open spec fn agrees(fails: Verdict, trials: Seq<Trial>) -> bool {
    forall|i: int|
        0 <= i < trials.len() ==> fails((#[trigger] trials[i]).schedule) == trials[i].failed
}

/// Whether trials may have come out so.
pub open spec fn may_come_out<C: Cas, I: Invariant<C>>(
    trace: TraceModel,
    first: Contents,
    last: Contents,
    invariants: Seq<I>,
    target: Seq<Seq<char>>,
    trials: Seq<Trial>,
    asks: Asking,
) -> bool {
    forall|i: int|
        0 <= i < trials.len() ==> may_reproduce::<C, I>(
            trace,
            first,
            last,
            invariants,
            target,
            (#[trigger] trials[i]).schedule,
            trials[i].failed,
            asks,
        )
}

/// Whether a reduction of a schedule is what `ddmin` gives, for every verdict
/// that gives the answers of the trials.
pub open spec fn reduced_by(
    trials: Seq<Trial>,
    whole: Seq<PointModel>,
    schedule: Seq<PointModel>,
    evaluations: nat,
) -> bool {
    forall|fails: Verdict| #[trigger]
        agrees(fails, trials) ==> {
            let out = minimal(fails, whole);
            out.0 == schedule && capped(out.1) == evaluations
        }
}

/// Whether a finding may be minimised so: to what `ddmin` makes of the trials
/// that were made.
pub open spec fn may_minimise<C: Cas, I: Invariant<C>>(
    trace: TraceModel,
    first: Contents,
    last: Contents,
    invariants: Seq<I>,
    finding: Finding,
    r: Shrunk,
    asks: Asking,
) -> bool {
    &&& r.started_with == finding.schedule@.len()
    &&& sublist(r.schedule@, finding.schedule@)
    &&& exists|trials: Seq<Trial>|
        {
            &&& #[trigger] may_come_out::<C, I>(
                trace,
                first,
                last,
                invariants,
                broken_names(views(finding.violations@)),
                trials,
                asks,
            )
            &&& trials.len() > 0
            &&& r.evaluations == capped(trials.len())
            &&& reduced_by(trials, finding.schedule@, r.schedule@, r.evaluations as nat)
            &&& r.schedule@ != finding.schedule@ ==> exists|i: int|
                0 <= i < trials.len() && (#[trigger] trials[i]).schedule == r.schedule@
                    && trials[i].failed
        }
}

/// What trials may have come out as within a store they may within a wider one.
proof fn lemma_come_out_wider<C: Cas, I: Invariant<C>>(
    trace: TraceModel,
    first: Contents,
    until: Contents,
    last: Contents,
    invariants: Seq<I>,
    target: Seq<Seq<char>>,
    trials: Seq<Trial>,
    asks: Asking,
)
    requires
        may_come_out::<C, I>(trace, first, until, invariants, target, trials, asks),
        keeps(until, last),
    ensures
        may_come_out::<C, I>(trace, first, last, invariants, target, trials, asks),
{
    assert forall|i: int| 0 <= i < trials.len() implies may_reproduce::<C, I>(
        trace,
        first,
        last,
        invariants,
        target,
        (#[trigger] trials[i]).schedule,
        trials[i].failed,
        asks,
    ) by {
        let schedule = trials[i].schedule;
        let found = choose|found: Seq<ViolationModel>| #[trigger]
            may_break_between::<C, I>(trace, first, until, schedule, invariants, found, asks)
                && trials[i].failed == (broken_names(found) == target);
        lemma_between_wider::<C, I>(
            trace,
            first,
            first,
            until,
            last,
            schedule,
            invariants,
            found,
            asks,
        );
    }
}

/// Reduce a finding's schedule to the faults that actually matter.
///
/// A candidate counts where it still breaks the same invariants, not merely
/// some: otherwise the reduction could wander off to a different failure.
pub fn minimise<C, I, F>(
    trace: &Trace,
    cas: &mut C,
    finding: &Finding,
    invariants: &Vec<I>,
    drive: F,
) -> (r: Shrunk) where C: Cas, I: Invariant<C>, F: FnMut(&mut Replayer<'_, C>)
    requires
        old(cas).works(),
        checkable_on_branches::<C, I>(invariants@),
        forall|x: &mut Replayer<'_, C>|
            (*x).ready() ==> #[trigger] call_requires(drive, (x,)),
        forall|x: &mut Replayer<'_, C>| #[trigger]
            call_ensures(drive, (x,), ()) ==> {
                &&& (*final(x)).ready()
                &&& (*final(x)).start == (*x).start
                &&& *final((*final(x)).cas) == *final((*x).cas)
            },
    ensures
        final(cas).works(),
        keeps(old(cas).contents(), final(cas).contents()),
        exists|asks: Asking|
            {
                &&& #[trigger] may_minimise::<C, I>(
                    trace@,
                    old(cas).contents(),
                    final(cas).contents(),
                    invariants@,
                    *finding,
                    r,
                    asks,
                )
                &&& forall|p: (ReplayState, Seq<Step>)| #[trigger]
                    asks.contains(p) <==> exists|x: &mut Replayer<'_, C>| #[trigger]
                        call_ensures(drive, (x,), ()) && (*x).ready() && (*x).start@ == p.0
                            && (*x).steps@.len() == 0 && (*final(x)).steps@ == p.1
                &&& (forall|x: &mut Replayer<'_, C>, y: &mut Replayer<'_, C>| #[trigger]
                    call_ensures(drive, (x,), ()) && #[trigger] call_ensures(drive, (y,), ())
                        && (*x).ready() && (*y).ready() && (*x).steps@.len() == 0
                        && (*y).steps@.len() == 0 && (*x).start@.trace == trace@ && same_course(
                        (*x).start@,
                        (*y).start@,
                    ) && keeps(old(cas).contents(), (*x).start@.contents) && keeps(
                        old(cas).contents(),
                        (*y).start@.contents,
                    ) ==> (*final(x)).steps@ == (*final(y)).steps@) ==> deterministic(asks, trace@, old(cas).contents())
                &&& complete(trace@.events, old(cas).contents()) && deterministic(
                    asks,
                    trace@,
                    old(cas).contents(),
                ) && reads_named::<C, I>(invariants@) && may_break_between::<C, I>(
                    trace@,
                    old(cas).contents(),
                    final(cas).contents(),
                    finding.schedule@,
                    invariants@,
                    views(finding.violations@),
                    asks,
                ) ==> same_failure::<C, I>(
                    trace@,
                    old(cas).contents(),
                    final(cas).contents(),
                    invariants@,
                    *finding,
                    r,
                    asks,
                )
            },
{
    let ghost asks = Set::new(
        |p: (ReplayState, Seq<Step>)|
            exists|x: &mut Replayer<'_, C>| #[trigger]
                call_ensures(drive, (x,), ()) && (*x).ready() && (*x).start@ == p.0
                    && (*x).steps@.len() == 0 && (*final(x)).steps@ == p.1,
    );
    let mut drive = drive;
    let ghost agent = drive;
    let ghost first = cas.contents();
    let ghost whole = finding.schedule@;
    let ghost goal = broken_names(views(finding.violations@));
    let target = names_of(&finding.violations);
    let mut reduction = Reduction::new(&finding.schedule);
    let mut evaluations: usize = 0;
    let ghost mut trials: Seq<Trial> = seq![];
    proof {
        lemma_sublist_self(whole);
    }
    loop
        invariant_except_break
            reduction.well_formed(),
        invariant
            drive == agent,
            first == old(cas).contents(),
            whole == finding.schedule@,
            goal == broken_names(views(finding.violations@)),
            texts(target@) == goal,
            cas.works(),
            keeps(first, cas.contents()),
            checkable_on_branches::<C, I>(invariants@),
            sublist(reduction.points(), whole),
            may_come_out::<C, I>(
                trace@,
                first,
                cas.contents(),
                invariants@,
                goal,
                trials,
                asks,
            ),
            evaluations == capped(trials.len()),
            reduction.stage == Stage::Whole ==> trials.len() == 0,
            reduction.stage != Stage::Whole ==> trials.len() > 0,
            reduction.points() != whole ==> exists|i: int|
                0 <= i < trials.len() && (#[trigger] trials[i]).schedule == reduction.points()
                    && trials[i].failed,
            forall|fails: Verdict| #[trigger]
                agrees(fails, trials) ==> {
                    let out = minimal(fails, whole);
                    let rest = reduction.pending(fails);
                    out.0 == rest.0 && out.1 == trials.len() + rest.1
                },
            forall|x: &mut Replayer<'_, C>|
                (*x).ready() ==> #[trigger] call_requires(agent, (x,)),
            forall|x: &mut Replayer<'_, C>| #[trigger]
                call_ensures(agent, (x,), ()) && (*x).ready() && (*x).steps@.len() == 0
                    ==> asks.contains(((*x).start@, (*final(x)).steps@)),
            forall|x: &mut Replayer<'_, C>| #[trigger]
                call_ensures(agent, (x,), ()) ==> {
                    &&& (*final(x)).ready()
                    &&& (*final(x)).start == (*x).start
                    &&& *final((*final(x)).cas) == *final((*x).cas)
                },
        ensures
            reduction.stage == Stage::Done,
        decreases
            reduction.effort().0,
            reduction.effort().1,
            reduction.effort().2,
            reduction.effort().3,
    {
        match reduction.candidate() {
            None => {
                break;
            },
            Some(candidate) => {
                let ghost before = reduction;
                let ghost tried = trials;
                let ghost asked = candidate@;
                let ghost held = cas.contents();
                let violations = evaluate_with(trace, cas, candidate, invariants, &mut drive);
                let names = names_of(&violations);
                let failed = same_list(&names, &target);
                reduction.answer(failed);
                evaluations = count_up(evaluations);
                proof {
                    assert(may_break::<C, I>(
                        trace@,
                        held,
                        asked,
                        invariants@,
                        views(violations@),
                        asks,
                    ));
                    lemma_between_wider::<C, I>(
                        trace@,
                        first,
                        held,
                        cas.contents(),
                        cas.contents(),
                        asked,
                        invariants@,
                        views(violations@),
                        asks,
                    );
                    lemma_come_out_wider::<C, I>(
                        trace@,
                        first,
                        held,
                        cas.contents(),
                        invariants@,
                        goal,
                        tried,
                        asks,
                    );
                    assert(may_reproduce::<C, I>(
                        trace@,
                        first,
                        cas.contents(),
                        invariants@,
                        goal,
                        asked,
                        failed,
                        asks,
                    ));
                    trials = tried.push(Trial { schedule: asked, failed });
                    assert(trials.last().schedule == asked);
                    lemma_sublist_transitive(asked, before.points(), whole);
                    assert(reduction.points() != whole ==> exists|i: int|
                        0 <= i < trials.len() && (#[trigger] trials[i]).schedule
                            == reduction.points() && trials[i].failed) by {
                        if failed {
                            assert(trials[trials.len() - 1].schedule == reduction.points());
                        } else if reduction.points() != whole {
                            let i = choose|i: int|
                                0 <= i < tried.len() && (#[trigger] tried[i]).schedule
                                    == before.points() && tried[i].failed;
                            assert(trials[i] == tried[i]);
                        }
                    }
                    assert forall|fails: Verdict| #[trigger] agrees(fails, trials) implies {
                        let out = minimal(fails, whole);
                        let rest = reduction.pending(fails);
                        out.0 == rest.0 && out.1 == trials.len() + rest.1
                    } by {
                        assert forall|i: int| 0 <= i < tried.len() implies fails(
                            (#[trigger] tried[i]).schedule,
                        ) == tried[i].failed by {
                            assert(trials[i] == tried[i]);
                        }
                        assert(agrees(fails, tried));
                        assert(fails(trials[tried.len() as int].schedule) == failed);
                        assert(before.pending(fails) == before.pending(fails));
                    }
                }
            },
        }
    }
    proof {
        assert forall|fails: Verdict| #[trigger] agrees(fails, trials) implies {
            let out = minimal(fails, whole);
            out.0 == reduction.points() && capped(out.1) == evaluations
        } by {}
        assert(reduced_by(trials, whole, reduction.points(), evaluations as nat));
    }
    let out = Shrunk {
        schedule: FaultSchedule::of(reduction.current),
        started_with: finding.schedule.len(),
        evaluations,
    };
    assert(may_minimise::<C, I>(
        trace@,
        first,
        cas.contents(),
        invariants@,
        *finding,
        out,
        asks,
    ));
    assert((forall|x: &mut Replayer<'_, C>, y: &mut Replayer<'_, C>| #[trigger]
        call_ensures(agent, (x,), ()) && #[trigger] call_ensures(agent, (y,), ()) && (*x).ready()
            && (*y).ready() && (*x).steps@.len() == 0 && (*y).steps@.len() == 0
            && (*x).start@.trace == trace@ && same_course((*x).start@, (*y).start@) && keeps(
            first,
            (*x).start@.contents,
        ) && keeps(first, (*y).start@.contents) ==> (*final(x)).steps@ == (*final(y)).steps@)
        ==> deterministic(asks, trace@, first));
    proof {
        lemma_minimise_comes_out::<C, I>(
            trace@,
            first,
            cas.contents(),
            invariants@,
            *finding,
            out,
            asks,
        );
    }
    out
}

// ---------------------------------------------------------------------------
// Order dependence
// ---------------------------------------------------------------------------

/// A run whose behaviour changed when concurrent calls completed in a
/// different order.
#[derive(Debug, PartialEq, Eq)]
pub struct OrderDependence {
    /// The batch that was reordered.
    pub batch: u64,
    /// Position in the run where that batch begins.
    pub at_seq: u64,
    /// The seed whose permutation exposed it, so that the finding reproduces.
    pub seed: u64,
    /// Position of the first effect that differed from the baseline.
    pub diverged_at: usize,
    /// What the baseline did there.
    pub baseline: String,
    /// What the reordered run did instead.
    pub reordered: String,
}

/// The report on an order dependence.
pub open spec fn dependence_report(
    batch: u64,
    at_seq: u64,
    seed: u64,
    diverged_at: nat,
    baseline: Seq<char>,
    reordered: Seq<char>,
) -> Seq<char> {
    "concurrent batch #"@ + decimal(batch as nat) + " (at effect #"@ + decimal(at_seq as nat)
        + ") is order-dependent \u{2014} reordering it with seed "@ + decimal(seed as nat)
        + " changes effect #"@ + decimal(diverged_at) + "\n  in request order: "@ + baseline
        + "\n  reordered:        "@ + reordered
}

impl OrderDependence {
    /// The bug report.
    pub fn report(&self) -> (r: String)
        ensures
            r@ == dependence_report(
                self.batch,
                self.at_seq,
                self.seed,
                self.diverged_at as nat,
                self.baseline@,
                self.reordered@,
            ),
    {
        let mut out = "concurrent batch #".to_owned();
        out.append(show(self.batch).as_str());
        out.append(" (at effect #");
        out.append(show(self.at_seq).as_str());
        out.append(") is order-dependent \u{2014} reordering it with seed ");
        out.append(show(self.seed).as_str());
        out.append(" changes effect #");
        out.append(show_size(self.diverged_at).as_str());
        out.append("\n  in request order: ");
        out.append(self.baseline.as_str());
        out.append("\n  reordered:        ");
        out.append(self.reordered.as_str());
        out
    }
}

/// What an event did, without its position.
pub open spec fn deed(e: EventModel) -> Seq<char> {
    kind_name(e.kind) + ":"@ + e.name + ":"@ + short_of(e.identity)
}

/// A run's deeds so far: those that are settled, and those of the concurrent
/// batch that is still open.
pub struct Deeds {
    pub settled: Seq<Seq<char>>,
    pub open: Seq<Seq<char>>,
    pub batch: Option<u64>,
}

/// The deeds of the first events of a run. A batch that closes settles in
/// order of its labels.
pub open spec fn deeds(events: Seq<EventModel>) -> Deeds
    decreases events.len(),
{
    if events.len() == 0 {
        Deeds { settled: seq![], open: seq![], batch: None }
    } else {
        let before = deeds(events.drop_last());
        let e = events.last();
        if e.batch is None {
            Deeds {
                settled: (before.settled + ascending(before.open)).push(deed(e)),
                open: seq![],
                batch: None,
            }
        } else if e.batch == before.batch {
            Deeds { open: before.open.push(deed(e)), ..before }
        } else {
            Deeds {
                settled: before.settled + ascending(before.open),
                open: seq![deed(e)],
                batch: e.batch,
            }
        }
    }
}

/// What a run did, with the internal order of each concurrent batch
/// discarded: each batch is sorted, and everything else keeps its position.
pub open spec fn behaviour_of(events: Seq<EventModel>) -> Seq<Seq<char>> {
    let all = deeds(events);
    all.settled + ascending(all.open)
}

/// What some events did.
pub open spec fn labels(events: Seq<EventModel>) -> Seq<Seq<char>> {
    Seq::new(events.len(), |i: int| deed(events[i]))
}

/// Whether all of some events belong to a batch.
pub open spec fn all_in(events: Seq<EventModel>, batch: u64) -> bool {
    forall|i: int| 0 <= i < events.len() ==> (#[trigger] events[i]).batch == Some(batch)
}

/// The deeds once the events of a batch have followed.
spec fn gathered(before: Deeds, group: Seq<Seq<char>>, batch: u64) -> Deeds {
    if group.len() == 0 {
        before
    } else if before.batch == Some(batch) {
        Deeds { open: before.open + group, ..before }
    } else {
        Deeds {
            settled: before.settled + ascending(before.open),
            open: group,
            batch: Some(batch),
        }
    }
}

proof fn lemma_gathered(front: Seq<EventModel>, group: Seq<EventModel>, batch: u64)
    requires
        all_in(group, batch),
    ensures
        deeds(front + group) == gathered(deeds(front), labels(group), batch),
    decreases group.len(),
{
    let all = front + group;
    if group.len() == 0 {
        assert(all =~= front);
    } else {
        let most = group.drop_last();
        assert(all_in(most, batch)) by {
            assert forall|i: int| 0 <= i < most.len() implies (#[trigger] most[i]).batch == Some(
                batch,
            ) by {
                assert(most[i] == group[i]);
            }
        }
        lemma_gathered(front, most, batch);
        assert(all.drop_last() =~= front + most);
        assert(all.last() == group.last());
        assert(group.last() == group[group.len() - 1]);
        assert(labels(group) =~= labels(most).push(deed(group.last())));
        if most.len() == 0 {
            assert(labels(group) =~= seq![deed(group.last())]);
            assert(deeds(front).open + labels(group) =~= deeds(front).open.push(
                deed(group.last()),
            ));
        } else {
            assert(deeds(front).open + labels(group) =~= (deeds(front).open + labels(most)).push(
                deed(group.last()),
            ));
        }
    }
}

/// Whether deeds agree but for the order of the batch that is open.
spec fn alike(a: Deeds, b: Deeds) -> bool {
    &&& a.settled == b.settled
    &&& a.batch == b.batch
    &&& a.open.to_multiset() == b.open.to_multiset()
}

proof fn lemma_alike_settles(a: Seq<Seq<char>>, b: Seq<Seq<char>>)
    requires
        a.to_multiset() == b.to_multiset(),
    ensures
        ascending(a) == ascending(b),
{
    lemma_ascending(a);
    lemma_ascending(b);
    lemma_ascending_unique(ascending(a), ascending(b));
}

proof fn lemma_alike_goes_on(a: Seq<EventModel>, b: Seq<EventModel>, rest: Seq<EventModel>)
    requires
        alike(deeds(a), deeds(b)),
    ensures
        alike(deeds(a + rest), deeds(b + rest)),
    decreases rest.len(),
{
    if rest.len() == 0 {
        assert(a + rest =~= a);
        assert(b + rest =~= b);
    } else {
        broadcast use vstd::seq_lib::group_to_multiset_ensures;

        let most = rest.drop_last();
        lemma_alike_goes_on(a, b, most);
        assert((a + rest).drop_last() =~= a + most);
        assert((b + rest).drop_last() =~= b + most);
        let (x, y) = (deeds(a + most), deeds(b + most));
        lemma_alike_settles(x.open, y.open);
        let label = deed(rest.last());
        assert(x.open.push(label).to_multiset() =~= y.open.push(label).to_multiset());
    }
}

/// The order inside a batch leaves no trace in the behaviour of a run: where
/// the effects of a batch come in another order, at other positions, the same
/// was done.
pub proof fn lemma_batch_order_immaterial(
    front: Seq<EventModel>,
    group: Seq<EventModel>,
    other: Seq<EventModel>,
    rest: Seq<EventModel>,
    batch: u64,
)
    requires
        all_in(group, batch),
        all_in(other, batch),
        labels(group).to_multiset() == labels(other).to_multiset(),
    ensures
        behaviour_of(front + group + rest) == behaviour_of(front + other + rest),
{
    lemma_gathered(front, group, batch);
    lemma_gathered(front, other, batch);
    let open = deeds(front).open;
    let (a, b) = (labels(group), labels(other));
    assert((open + a).to_multiset() =~= (open + b).to_multiset()) by {
        vstd::seq_lib::lemma_multiset_commutative(open, a);
        vstd::seq_lib::lemma_multiset_commutative(open, b);
    }
    assert(a.len() == b.len()) by {
        a.to_multiset_ensures();
        b.to_multiset_ensures();
    }
    lemma_alike_goes_on(front + group, front + other, rest);
    lemma_alike_settles(
        deeds(front + group + rest).open,
        deeds(front + other + rest).open,
    );
}

proof fn lemma_deeds_batch(events: Seq<EventModel>)
    ensures
        events.len() > 0 ==> deeds(events).batch == events.last().batch,
        events.len() == 0 ==> deeds(events).batch is None,
    decreases events.len(),
{
    if events.len() > 0 {
        lemma_deeds_batch(events.drop_last());
    }
}

/// A run's behaviour holds what each of its events did, once.
pub proof fn lemma_behaviour_holds(events: Seq<EventModel>)
    ensures
        behaviour_of(events).len() == events.len(),
        behaviour_of(events).to_multiset() == labels(events).to_multiset(),
{
    let all = deeds(events);
    lemma_deeds_hold(events);
    lemma_ascending(all.open);
    lemma_same_held(all.settled, ascending(all.open), all.open);
    behaviour_of(events).to_multiset_ensures();
    labels(events).to_multiset_ensures();
}

/// Parts with the same items make up wholes with the same items.
proof fn lemma_same_held(front: Seq<Seq<char>>, a: Seq<Seq<char>>, b: Seq<Seq<char>>)
    requires
        a.to_multiset() == b.to_multiset(),
    ensures
        (front + a).to_multiset() == (front + b).to_multiset(),
{
    vstd::seq_lib::lemma_multiset_commutative(front, a);
    vstd::seq_lib::lemma_multiset_commutative(front, b);
}

proof fn lemma_deeds_hold(events: Seq<EventModel>)
    ensures
        (deeds(events).settled + deeds(events).open).to_multiset() == labels(events).to_multiset(),
    decreases events.len(),
{
    let now = deeds(events);
    if events.len() == 0 {
        assert(now.settled + now.open =~= labels(events));
    } else {
        broadcast use vstd::seq_lib::group_to_multiset_ensures;

        let most = events.drop_last();
        let e = events.last();
        let before = deeds(most);
        lemma_deeds_hold(most);
        lemma_ascending(before.open);
        lemma_same_held(before.settled, ascending(before.open), before.open);
        assert(labels(events) =~= labels(most).push(deed(e)));
        let closed = before.settled + ascending(before.open);
        let open = before.settled + before.open;
        assert(closed.push(deed(e)).to_multiset() =~= labels(events).to_multiset());
        assert(open.push(deed(e)).to_multiset() =~= labels(events).to_multiset());
        if e.batch is None {
            assert(now.settled + now.open =~= closed.push(deed(e)));
        } else if e.batch == before.batch {
            assert(now.settled + now.open =~= open.push(deed(e)));
        } else {
            assert(now.settled + now.open =~= closed.push(deed(e)));
        }
    }
}

proof fn lemma_nothing_done()
    ensures
        ascending(seq![]) == Seq::<Seq<char>>::empty(),
{
    lemma_behaviour_holds(seq![]);
    assert(behaviour_of(seq![]) =~= ascending(seq![]));
}

/// Whether no batch goes on from the end of some events to the beginning of
/// others.
pub open spec fn apart(front: Seq<EventModel>, rest: Seq<EventModel>) -> bool {
    front.len() > 0 && rest.len() > 0 && rest[0].batch is Some ==> rest[0].batch
        != front.last().batch
}

/// Where no batch goes on from one part of a run to the next, each part keeps
/// its place: the run behaves as its parts do, one after the other.
pub proof fn lemma_behaviour_parts(front: Seq<EventModel>, rest: Seq<EventModel>)
    requires
        apart(front, rest),
    ensures
        behaviour_of(front + rest) == behaviour_of(front) + behaviour_of(rest),
{
    if rest.len() == 0 {
        assert(front + rest =~= front);
        lemma_behaviour_holds(rest);
        assert(behaviour_of(front) + behaviour_of(rest) =~= behaviour_of(front));
    } else {
        lemma_deeds_parts(front, rest);
        assert(behaviour_of(front + rest) =~= behaviour_of(front) + behaviour_of(rest));
    }
}

proof fn lemma_deeds_parts(front: Seq<EventModel>, rest: Seq<EventModel>)
    requires
        apart(front, rest),
        rest.len() > 0,
    ensures
        deeds(front + rest) == (Deeds {
            settled: behaviour_of(front) + deeds(rest).settled,
            ..deeds(rest)
        }),
    decreases rest.len(),
{
    let most = rest.drop_last();
    let all = front + rest;
    let e = rest.last();
    let head = behaviour_of(front);
    assert(all.drop_last() =~= front + most);
    assert(all.last() == e);
    lemma_nothing_done();
    if most.len() == 0 {
        assert(front + most =~= front);
        assert(most =~= seq![]);
        lemma_deeds_batch(front);
        assert(e == rest[0]);
        assert(deeds(all).settled =~= head + deeds(rest).settled);
    } else {
        assert(most[0] == rest[0]);
        lemma_deeds_parts(front, most);
        let x = deeds(most);
        assert((head + x.settled) + ascending(x.open) =~= head + (x.settled + ascending(x.open)));
        assert(deeds(all).settled =~= head + deeds(rest).settled);
    }
}

/// The events of one batch behave as their labels in order.
pub proof fn lemma_behaviour_batch(group: Seq<EventModel>, batch: u64)
    requires
        all_in(group, batch),
    ensures
        behaviour_of(group) == ascending(labels(group)),
        is_ascending(behaviour_of(group)),
{
    lemma_gathered(seq![], group, batch);
    assert(seq![] + group =~= group);
    lemma_ascending(labels(group));
    lemma_nothing_done();
    if group.len() == 0 {
        assert(labels(group) =~= seq![]);
    }
    assert(behaviour_of(group) =~= ascending(labels(group)));
}

/// A batch that begins and ends where it stands keeps its place, and its
/// labels come in order.
pub proof fn lemma_behaviour_run(
    front: Seq<EventModel>,
    group: Seq<EventModel>,
    rest: Seq<EventModel>,
    batch: u64,
)
    requires
        all_in(group, batch),
        apart(front, group),
        apart(front + group, rest),
    ensures
        behaviour_of(front + group + rest) == behaviour_of(front) + ascending(labels(group))
            + behaviour_of(rest),
        behaviour_of(front).len() == front.len(),
        ascending(labels(group)).len() == group.len(),
{
    lemma_behaviour_parts(front, group);
    lemma_behaviour_parts(front + group, rest);
    lemma_behaviour_batch(group, batch);
    lemma_behaviour_holds(front);
    lemma_behaviour_holds(group);
}

/// An event outside of all batches keeps its place.
pub proof fn lemma_behaviour_lone(events: Seq<EventModel>, i: int)
    requires
        0 <= i < events.len(),
        events[i].batch is None,
    ensures
        behaviour_of(events)[i] == deed(events[i]),
{
    let front = events.take(i);
    let one = seq![events[i]];
    let rest = events.skip(i + 1);
    assert(events =~= front + one + rest);
    lemma_behaviour_parts(front, one);
    lemma_behaviour_parts(front + one, rest);
    lemma_behaviour_holds(front);
    lemma_lone(events[i]);
}

proof fn lemma_lone(e: EventModel)
    requires
        e.batch is None,
    ensures
        behaviour_of(seq![e]) == seq![deed(e)],
{
    let one = seq![e];
    assert(one.drop_last() =~= seq![]);
    lemma_nothing_done();
    reveal_with_fuel(deeds, 2);
    assert(behaviour_of(one) =~= seq![deed(e)]);
}

/// Whether a stretch of a run is one event outside of all batches, or all of a
/// batch that has begun and not ended elsewhere.
pub open spec fn is_run(events: Seq<EventModel>, from: int, to: int) -> bool {
    &&& 0 <= from < to <= events.len()
    &&& match events[from].batch {
        None => to == from + 1,
        Some(batch) => {
            &&& all_in(events.subrange(from, to), batch)
            &&& from > 0 ==> events[from - 1].batch != Some(batch)
            &&& to < events.len() ==> events[to].batch != Some(batch)
        },
    }
}

/// Whether two runs are the same but for the order inside their batches.
pub open spec fn same_but_order(a: Seq<EventModel>, b: Seq<EventModel>) -> bool {
    &&& a.len() == b.len()
    &&& forall|i: int| 0 <= i < a.len() ==> (#[trigger] a[i]).batch == b[i].batch
    &&& forall|from: int, to: int| #[trigger]
        is_run(a, from, to) ==> labels(a.subrange(from, to)).to_multiset() == labels(
            b.subrange(from, to),
        ).to_multiset()
}

/// Runs that differ only in the order inside their batches behave the same.
pub proof fn lemma_order_immaterial(a: Seq<EventModel>, b: Seq<EventModel>)
    requires
        same_but_order(a, b),
    ensures
        behaviour_of(a) == behaviour_of(b),
    decreases a.len(),
{
    if a.len() == 0 {
        assert(a =~= b);
    } else {
        let n = a.len() as int;
        let from = lemma_last_run(a, n - 1);
        let (fa, ga) = (a.take(from), a.subrange(from, n));
        let (fb, gb) = (b.take(from), b.subrange(from, n));
        assert(a =~= fa + ga);
        assert(b =~= fb + gb);
        assert(ga[0] == a[from] && gb[0] == b[from]);
        assert(is_run(a, from, n));
        assert(apart(fa, ga));
        assert(apart(fb, gb)) by {
            if from > 0 {
                assert(fb.last() == b[from - 1]);
                assert(a[from - 1].batch == b[from - 1].batch);
                assert(a[from].batch == b[from].batch);
            }
        }
        lemma_behaviour_parts(fa, ga);
        lemma_behaviour_parts(fb, gb);
        assert forall|p: int, q: int| #[trigger] is_run(fa, p, q) implies labels(
            fa.subrange(p, q),
        ).to_multiset() == labels(fb.subrange(p, q)).to_multiset() by {
            assert(fa.subrange(p, q) =~= a.subrange(p, q));
            assert(fb.subrange(p, q) =~= b.subrange(p, q));
            if q == from && fa[p].batch is Some {
                assert(fa.subrange(p, q)[q - 1 - p] == a[from - 1]);
            }
            assert(is_run(a, p, q));
        }
        lemma_order_immaterial(fa, fb);
        match a[from].batch {
            None => {
                assert(ga =~= seq![a[from]]);
                assert(gb =~= seq![b[from]]);
                assert(a[from].batch == b[from].batch);
                lemma_lone(a[from]);
                lemma_lone(b[from]);
                lemma_ascending_unique(labels(ga), labels(gb));
                assert(labels(ga)[0] == labels(gb)[0]);
            },
            Some(batch) => {
                assert(all_in(gb, batch)) by {
                    assert forall|i: int| 0 <= i < gb.len() implies (#[trigger] gb[i]).batch
                        == Some(batch) by {
                        assert(ga[i].batch == Some(batch));
                        assert(a[from + i].batch == b[from + i].batch);
                    }
                }
                lemma_behaviour_batch(ga, batch);
                lemma_behaviour_batch(gb, batch);
                lemma_alike_settles(labels(ga), labels(gb));
            },
        }
    }
}

/// Where the run that ends a list of events begins, sought from `at` down.
proof fn lemma_last_run(events: Seq<EventModel>, at: int) -> (from: int)
    requires
        0 <= at < events.len(),
        at < events.len() - 1 ==> events[at].batch is Some,
        events[at].batch matches Some(batch) ==> all_in(
            events.subrange(at, events.len() as int),
            batch,
        ),
    ensures
        is_run(events, from, events.len() as int),
    decreases at,
{
    let n = events.len() as int;
    if at > 0 && events[at].batch is Some && events[at - 1].batch == events[at].batch {
        let batch = events[at].batch->0;
        let group = events.subrange(at - 1, n);
        assert forall|i: int| 0 <= i < group.len() implies (#[trigger] group[i]).batch == Some(
            batch,
        ) by {
            if i > 0 {
                assert(events.subrange(at, n)[i - 1] == group[i]);
            }
        }
        lemma_last_run(events, at - 1)
    } else {
        at
    }
}

/// What an event did, without its position.
fn describe_deed(event: &Event) -> (r: String)
    requires
        has_short(event@.identity),
    ensures
        r@ == deed(event@),
{
    let mut label = event.kind.as_str().to_owned();
    label.append(":");
    label.append(event.name.as_str());
    label.append(":");
    label.append(event.identity.short());
    label
}

/// Moves a batch that closes, in order of its labels, to what is settled.
fn settle(group: Vec<String>, out: &mut Vec<String>)
    ensures
        texts(final(out)@) == texts(old(out)@) + ascending(texts(group@)),
{
    let ghost start = out@;
    let sorted = sort(group);
    let mut i: usize = 0;
    while i < sorted.len()
        invariant
            i <= sorted@.len(),
            out@.len() == start.len() + i,
            forall|k: int| 0 <= k < start.len() ==> out@[k] == start[k],
            forall|k: int| 0 <= k < i ==> (#[trigger] out@[start.len() + k])@ == sorted@[k]@,
        decreases sorted@.len() - i,
    {
        out.push(sorted[i].as_str().to_owned());
        i += 1;
    }
    assert forall|k: int| 0 <= k < out@.len() implies (#[trigger] texts(out@)[k]) == (texts(start)
        + texts(sorted@))[k] by {
        if k >= start.len() {
            assert(out@[start.len() + (k - start.len())]@ == sorted@[k - start.len()]@);
        }
    }
    assert(texts(out@) =~= texts(start) + texts(sorted@));
}

/// Reduce a run to what it did, with the internal order of each concurrent
/// batch discarded.
///
/// Reordering a batch trivially changes the order of that batch's own
/// effects. What matters is whether anything downstream changed.
pub fn behaviour(trace: &Trace) -> (r: Vec<String>)
    requires
        identities_shown(trace@),
    ensures
        texts(r@) == behaviour_of(trace@.events),
{
    let mut out: Vec<String> = Vec::new();
    let mut pending: Vec<String> = Vec::new();
    let mut current: Option<u64> = None;
    let ghost all = trace@.events;
    assert(texts(out@) =~= seq![]);
    let mut i: usize = 0;
    while i < trace.events.len()
        invariant
            i <= trace.events@.len(),
            all == trace@.events,
            identities_shown(trace@),
            texts(out@) == deeds(all.take(i as int)).settled,
            texts(pending@) == deeds(all.take(i as int)).open,
            current == deeds(all.take(i as int)).batch,
        decreases trace.events@.len() - i,
    {
        let event = &trace.events[i];
        proof {
            assert(all.take(i + 1).drop_last() =~= all.take(i as int));
            assert(all.take(i + 1).last() == event@);
            assert(all[i as int] == event@);
        }
        let label = describe_deed(event);
        match event.batch {
            None => {
                let ghost group = pending@;
                settle(pending, &mut out);
                pending = Vec::new();
                assert(texts(pending@) =~= seq![]);
                let ghost done = out@;
                out.push(label);
                assert(texts(out@) =~= texts(done).push(label@));
                current = None;
            },
            Some(b) => {
                let same = match current {
                    Some(a) => a == b,
                    None => false,
                };
                if same {
                    let ghost before = pending@;
                    pending.push(label);
                    assert(texts(pending@) =~= texts(before).push(label@));
                } else {
                    settle(pending, &mut out);
                    pending = Vec::new();
                    pending.push(label);
                    assert(texts(pending@) =~= seq![label@]);
                    current = Some(b);
                }
            },
        }
        i += 1;
    }
    assert(all.take(i as int) =~= all);
    settle(pending, &mut out);
    out
}

/// The item of a list at a position, if it reaches so far.
pub open spec fn item_at(list: Seq<Seq<char>>, i: int) -> Option<Seq<char>> {
    if 0 <= i < list.len() {
        Some(list[i])
    } else {
        None
    }
}

/// Where two lists first differ, if they do.
pub open spec fn first_apart(a: Seq<Seq<char>>, b: Seq<Seq<char>>, r: Option<usize>) -> bool {
    match r {
        Some(i) => {
            &&& item_at(a, i as int) != item_at(b, i as int)
            &&& forall|k: int| 0 <= k < i ==> #[trigger] item_at(a, k) == item_at(b, k)
        },
        None => a == b,
    }
}

/// The position at which two lists first differ.
pub fn first_difference_at(a: &Vec<String>, b: &Vec<String>) -> (r: Option<usize>)
    ensures
        first_apart(texts(a@), texts(b@), r),
{
    let mut i: usize = 0;
    while i < a.len() && i < b.len()
        invariant
            i <= a@.len(),
            i <= b@.len(),
            forall|k: int| 0 <= k < i ==> (#[trigger] texts(a@)[k]) == texts(b@)[k],
        decreases a@.len() - i,
    {
        if !same(a[i].as_str(), b[i].as_str()) {
            assert(texts(a@)[i as int] != texts(b@)[i as int]);
            return Some(i);
        }
        assert(texts(a@)[i as int] == texts(b@)[i as int]);
        i += 1;
    }
    if i < a.len() || i < b.len() {
        Some(i)
    } else {
        assert(texts(a@) =~= texts(b@));
        None
    }
}

/// What a list shows at a position.
pub open spec fn shown_at(list: Seq<Seq<char>>, i: int) -> Seq<char> {
    match item_at(list, i) {
        Some(label) => label,
        None => "(nothing)"@,
    }
}

/// What a list shows at a position.
fn show_at(list: &Vec<String>, i: usize) -> (r: String)
    ensures
        r@ == shown_at(texts(list@), i as int),
{
    if i < list.len() {
        list[i].as_str().to_owned()
    } else {
        "(nothing)".to_owned()
    }
}

/// The concurrent batches of a run, with where each starts, in the order in
/// which they first appear.
pub open spec fn batch_starts(events: Seq<EventModel>) -> Seq<(u64, u64)>
    decreases events.len(),
{
    if events.len() == 0 {
        seq![]
    } else {
        let before = batch_starts(events.drop_last());
        match events.last().batch {
            Some(batch) if !(exists|k: int| 0 <= k < before.len() && (#[trigger] before[k]).0
                == batch) => before.push((batch, events.last().seq)),
            _ => before,
        }
    }
}

/// The concurrent batches of a run, with where each starts.
pub fn batches(trace: &Trace) -> (r: Vec<(u64, u64)>)
    ensures
        r@ == batch_starts(trace@.events),
{
    let mut out: Vec<(u64, u64)> = Vec::new();
    let ghost all = trace@.events;
    let mut i: usize = 0;
    while i < trace.events.len()
        invariant
            i <= trace.events@.len(),
            all == trace@.events,
            out@ == batch_starts(all.take(i as int)),
        decreases trace.events@.len() - i,
    {
        proof {
            assert(all.take(i + 1).drop_last() =~= all.take(i as int));
            assert(all.take(i + 1).last() == trace.events@[i as int]@);
        }
        if let Some(batch) = trace.events[i].batch {
            let mut known = false;
            let mut k: usize = 0;
            while k < out.len()
                invariant
                    k <= out@.len(),
                    known <==> exists|j: int| 0 <= j < k && (#[trigger] out@[j]).0 == batch,
                decreases out@.len() - k,
            {
                if out[k].0 == batch {
                    known = true;
                }
                k += 1;
            }
            if !known {
                out.push((batch, trace.events[i].seq));
            }
        }
        i += 1;
    }
    assert(all.take(i as int) =~= all);
    out
}

/// A schedule that only reorders the batch that starts at a position.
pub open spec fn reordering(at_seq: u64, seed: u64) -> Seq<PointModel> {
    seq![PointModel { seq: at_seq, fault: FaultModel::Reorder { seed } }]
}

/// Whether a replay of a run under a schedule may do this, from a store that
/// holds at least what another does.
pub open spec fn may_do(
    trace: TraceModel,
    first: Contents,
    schedule: Seq<PointModel>,
    done: Seq<Seq<char>>,
    asks: Asking,
) -> bool {
    exists|before: Contents, end: ReplayState|
        keeps(first, before) && #[trigger] may_end(trace, before, schedule, end, asks) && done
            == behaviour_of(end.branch)
}

/// Whether a finding is about the `b`th batch of a run, which did `done`
/// instead, and nothing before it differed from what the run usually does.
pub open spec fn depends_at(
    trace: TraceModel,
    first: Contents,
    baseline: Seq<EventModel>,
    from: u64,
    to: u64,
    f: OrderDependence,
    b: int,
    done: Seq<Seq<char>>,
    asks: Asking,
) -> bool {
    let starts = batch_starts(baseline);
    let usual = behaviour_of(baseline);
    &&& 0 <= b < starts.len()
    &&& starts[b] == (f.batch, f.at_seq)
    &&& from <= f.seed < to
    &&& may_do(trace, first, reordering(f.at_seq, f.seed), done, asks)
    &&& first_apart(usual, done, Some(f.diverged_at))
    &&& f.baseline@ == shown_at(usual, f.diverged_at as int)
    &&& f.reordered@ == shown_at(done, f.diverged_at as int)
    &&& forall|k: int, seed: u64|
        0 <= k < b && from <= seed < to ==> #[trigger] may_do(
            trace,
            first,
            reordering(starts[k].1, seed),
            usual,
            asks,
        )
    &&& forall|seed: u64|
        from <= seed < f.seed ==> #[trigger] may_do(
            trace,
            first,
            reordering(f.at_seq, seed),
            usual,
            asks,
        )
}

/// Whether a search over seeds for a batch whose order the agent depends on
/// may come out so, given what the run did in request order.
pub open spec fn may_depend(
    trace: TraceModel,
    first: Contents,
    baseline: Seq<EventModel>,
    from: u64,
    to: u64,
    r: Option<OrderDependence>,
    asks: Asking,
) -> bool {
    let starts = batch_starts(baseline);
    match r {
        Some(f) => exists|b: int, done: Seq<Seq<char>>| #[trigger]
            depends_at(trace, first, baseline, from, to, f, b, done, asks),
        None => forall|k: int, seed: u64|
            0 <= k < starts.len() && from <= seed < to ==> #[trigger] may_do(
                trace,
                first,
                reordering(starts[k].1, seed),
                behaviour_of(baseline),
                asks,
            ),
    }
}

/// Whether a search over seeds for a batch whose order the agent depends on
/// may come out so.
pub open spec fn may_settle(
    trace: TraceModel,
    first: Contents,
    from: u64,
    to: u64,
    r: Option<OrderDependence>,
    asks: Asking,
) -> bool {
    exists|end: ReplayState| #[trigger]
        may_end(trace, first, seq![], end, asks) && may_depend(
            trace,
            first,
            end.branch,
            from,
            to,
            r,
            asks,
        )
}

pub proof fn lemma_may_do_later(
    trace: TraceModel,
    first: Contents,
    held: Contents,
    schedule: Seq<PointModel>,
    done: Seq<Seq<char>>,
    asks: Asking,
)
    requires
        keeps(first, held),
        may_do(trace, held, schedule, done, asks),
    ensures
        may_do(trace, first, schedule, done, asks),
{
    let (before, end) = choose|before: Contents, end: ReplayState|
        keeps(held, before) && #[trigger] may_end(trace, before, schedule, end, asks) && done
            == behaviour_of(end.branch);
    assert(keeps(first, before));
    assert(may_end(trace, before, schedule, end, asks));
}

proof fn lemma_depends(
    trace: TraceModel,
    first: Contents,
    baseline: Seq<EventModel>,
    from: u64,
    to: u64,
    f: OrderDependence,
    b: int,
    done: Seq<Seq<char>>,
    asks: Asking,
)
    requires
        depends_at(trace, first, baseline, from, to, f, b, done, asks),
    ensures
        may_depend(trace, first, baseline, from, to, Some(f), asks),
{
    let r = Some(f);
    assert(r->0 == f);
    assert(depends_at(trace, first, baseline, from, to, r->0, b, done, asks));
}

/// A schedule that only reorders the batch that starts at a position.
fn reorder_one(at_seq: u64, seed: u64) -> (r: FaultSchedule)
    ensures
        r@ == reordering(at_seq, seed),
{
    let mut points: Vec<FaultPoint> = Vec::new();
    points.push(FaultPoint { seq: at_seq, fault: Fault::Reorder { seed } });
    let schedule = FaultSchedule::of(points);
    assert(schedule@ =~= reordering(at_seq, seed));
    schedule
}

/// What a replay of `trace` under `schedule` does.
pub(crate) fn probe<C, F>(
    trace: &Trace,
    cas: &mut C,
    schedule: FaultSchedule,
    drive: &mut F,
) -> (r: Vec<String>) where C: Cas, F: FnMut(&mut Replayer<'_, C>)
    requires
        old(cas).works(),
        forall|x: &mut Replayer<'_, C>|
            (*x).ready() ==> #[trigger] call_requires(*old(drive), (x,)),
        forall|x: &mut Replayer<'_, C>| #[trigger]
            call_ensures(*old(drive), (x,), ()) ==> {
                &&& (*final(x)).ready()
                &&& (*final(x)).start == (*x).start
                &&& *final((*final(x)).cas) == *final((*x).cas)
            },
    ensures
        final(cas).works(),
        *final(drive) == *old(drive),
        keeps(old(cas).contents(), final(cas).contents()),
        forall|asks: Asking|
            (forall|x: &mut Replayer<'_, C>| #[trigger]
                call_ensures(*old(drive), (x,), ()) && (*x).ready() && (*x).steps@.len() == 0
                    ==> asks.contains(((*x).start@, (*final(x)).steps@))) ==> #[trigger] may_do(
                trace@,
                old(cas).contents(),
                schedule@,
                texts(r@),
                asks,
            ),
{
    let ghost held = cas.contents();
    let ghost asked = schedule@;
    let branch = run_branch(trace, cas, schedule, "order-probe", drive);
    let done = behaviour(&branch);
    proof {
        assert forall|asks: Asking|
            (forall|x: &mut Replayer<'_, C>| #[trigger]
                call_ensures(*old(drive), (x,), ()) && (*x).ready() && (*x).steps@.len() == 0
                    ==> asks.contains(((*x).start@, (*final(x)).steps@))) implies #[trigger] may_do(
            trace@,
            held,
            asked,
            texts(done@),
            asks,
        ) by {
            assert(may_branch(
                trace@,
                held,
                asked,
                "order-probe"@,
                branch@,
                cas.contents(),
                asks,
            ));
            let over = choose|over: ReplayState| #[trigger]
                may_end(trace@, held, asked, over, asks) && branch@ == branch_of(
                    over,
                    "order-probe"@,
                ) && cas.contents() == over.contents;
            assert(keeps(held, held));
            assert(may_end(trace@, held, asked, over, asks));
        }
    }
    done
}

/// Search for a concurrent batch whose completion order the agent depends on.
///
/// Runs the agent once with calls completing in request order, then again
/// with each batch permuted, and compares what the agent did afterwards. This
/// is no property of one run: no single one is wrong, the pair disagrees.
#[verifier::rlimit(50)]
#[verifier::spinoff_prover]
pub fn search_order_dependence<C, F>(
    trace: &Trace,
    cas: &mut C,
    seeds: std::ops::Range<u64>,
    drive: F,
) -> (r: Option<OrderDependence>) where C: Cas, F: FnMut(&mut Replayer<'_, C>)
    requires
        old(cas).works(),
        forall|x: &mut Replayer<'_, C>|
            (*x).ready() ==> #[trigger] call_requires(drive, (x,)),
        forall|x: &mut Replayer<'_, C>| #[trigger]
            call_ensures(drive, (x,), ()) ==> {
                &&& (*final(x)).ready()
                &&& (*final(x)).start == (*x).start
                &&& *final((*final(x)).cas) == *final((*x).cas)
            },
    ensures
        final(cas).works(),
        keeps(old(cas).contents(), final(cas).contents()),
        exists|asks: Asking|
            {
                &&& #[trigger] may_settle(
                    trace@,
                    old(cas).contents(),
                    seeds.start,
                    seeds.end,
                    r,
                    asks,
                )
                &&& forall|p: (ReplayState, Seq<Step>)| #[trigger]
                    asks.contains(p) <==> exists|x: &mut Replayer<'_, C>| #[trigger]
                        call_ensures(drive, (x,), ()) && (*x).ready() && (*x).start@ == p.0
                            && (*x).steps@.len() == 0 && (*final(x)).steps@ == p.1
                &&& (forall|x: &mut Replayer<'_, C>, y: &mut Replayer<'_, C>| #[trigger]
                    call_ensures(drive, (x,), ()) && #[trigger] call_ensures(drive, (y,), ())
                        && (*x).ready() && (*y).ready() && (*x).steps@.len() == 0
                        && (*y).steps@.len() == 0 && (*x).start@.trace == trace@ && same_course(
                        (*x).start@,
                        (*y).start@,
                    ) && keeps(old(cas).contents(), (*x).start@.contents) && keeps(
                        old(cas).contents(),
                        (*y).start@.contents,
                    ) ==> (*final(x)).steps@ == (*final(y)).steps@) ==> deterministic(asks, trace@, old(cas).contents())
                &&& complete(trace@.events, old(cas).contents()) && deterministic(
                    asks,
                    trace@,
                    old(cas).contents(),
                ) ==> exists|end: ReplayState| #[trigger]
                    settled_exactly(
                        trace@,
                        old(cas).contents(),
                        seeds.start,
                        seeds.end,
                        r,
                        asks,
                        end,
                    )
            },
{
    let ghost asks = Set::new(
        |p: (ReplayState, Seq<Step>)|
            exists|x: &mut Replayer<'_, C>| #[trigger]
                call_ensures(drive, (x,), ()) && (*x).ready() && (*x).start@ == p.0
                    && (*x).steps@.len() == 0 && (*final(x)).steps@ == p.1,
    );
    let mut drive = drive;
    let ghost agent = drive;
    let ghost first = cas.contents();
    let baseline = run_branch(trace, cas, FaultSchedule::empty(), "order-probe", &mut drive);
    assert(may_branch(
        trace@,
        first,
        seq![],
        "order-probe"@,
        baseline@,
        cas.contents(),
        asks,
    ));
    let ghost end = choose|end: ReplayState| #[trigger]
        may_end(trace@, first, seq![], end, asks) && baseline@ == branch_of(end, "order-probe"@);
    let usual = behaviour(&baseline);
    let starts = batches(&baseline);
    let mut found: Option<OrderDependence> = None;
    let mut b: usize = 0;
    while b < starts.len() && found.is_none()
        invariant
            found is Some ==> may_settle(
                trace@,
                first,
                seeds.start,
                seeds.end,
                found,
                asks,
            ),
            drive == agent,
            first == old(cas).contents(),
            cas.works(),
            keeps(first, cas.contents()),
            b <= starts@.len(),
            may_end(trace@, first, seq![], end, asks),
            starts@ == batch_starts(end.branch),
            texts(usual@) == behaviour_of(end.branch),
            found is None ==> forall|k: int, seed: u64|
                0 <= k < b && seeds.start <= seed < seeds.end ==> #[trigger] may_do(
                    trace@,
                    first,
                    reordering(starts@[k].1, seed),
                    texts(usual@),
                    asks,
                ),
            forall|x: &mut Replayer<'_, C>|
                (*x).ready() ==> #[trigger] call_requires(agent, (x,)),
            forall|x: &mut Replayer<'_, C>| #[trigger]
                call_ensures(agent, (x,), ()) && (*x).ready() && (*x).steps@.len() == 0
                    ==> asks.contains(((*x).start@, (*final(x)).steps@)),
            forall|x: &mut Replayer<'_, C>| #[trigger]
                call_ensures(agent, (x,), ()) ==> {
                    &&& (*final(x)).ready()
                    &&& (*final(x)).start == (*x).start
                    &&& *final((*final(x)).cas) == *final((*x).cas)
                },
        decreases starts@.len() - b,
    {
        let at_seq: u64 = starts[b].1;
        let mut seed: u64 = seeds.start;
        while seed < seeds.end && found.is_none()
            invariant
                found is Some ==> may_settle(
                    trace@,
                    first,
                    seeds.start,
                    seeds.end,
                    found,
                    asks,
                ),
                drive == agent,
                first == old(cas).contents(),
                cas.works(),
                keeps(first, cas.contents()),
                b < starts@.len(),
                at_seq == starts@[b as int].1,
                may_end(trace@, first, seq![], end, asks),
                starts@ == batch_starts(end.branch),
                texts(usual@) == behaviour_of(end.branch),
                seeds.start <= seed,
                forall|k: int, s: u64|
                    0 <= k < b && seeds.start <= s < seeds.end ==> #[trigger] may_do(
                        trace@,
                        first,
                        reordering(starts@[k].1, s),
                        texts(usual@),
                        asks,
                    ),
                forall|s: u64|
                    seeds.start <= s < seed ==> #[trigger] may_do(
                        trace@,
                        first,
                        reordering(at_seq, s),
                        texts(usual@),
                        asks,
                    ),
                forall|x: &mut Replayer<'_, C>|
                    (*x).ready() ==> #[trigger] call_requires(agent, (x,)),
                forall|x: &mut Replayer<'_, C>| #[trigger]
                    call_ensures(agent, (x,), ()) && (*x).ready() && (*x).steps@.len() == 0
                        ==> asks.contains(((*x).start@, (*final(x)).steps@)),
                forall|x: &mut Replayer<'_, C>| #[trigger]
                    call_ensures(agent, (x,), ()) ==> {
                        &&& (*final(x)).ready()
                        &&& (*final(x)).start == (*x).start
                        &&& *final((*final(x)).cas) == *final((*x).cas)
                    },
            decreases
                seeds.end - seed,
                if found is None {
                    1int
                } else {
                    0int
                },
        {
            let ghost held = cas.contents();
            let done = probe(trace, cas, reorder_one(at_seq, seed), &mut drive);
            proof {
                assert(may_do(trace@, held, reordering(at_seq, seed), texts(done@), asks));
                lemma_may_do_later(
                    trace@,
                    first,
                    held,
                    reordering(at_seq, seed),
                    texts(done@),
                    asks,
                );
            }
            if let Some(diverged_at) = first_difference_at(&usual, &done) {
                let dependence = OrderDependence {
                    batch: starts[b].0,
                    at_seq,
                    seed,
                    diverged_at,
                    baseline: show_at(&usual, diverged_at),
                    reordered: show_at(&done, diverged_at),
                };
                proof {
                    lemma_depends(
                        trace@,
                        first,
                        end.branch,
                        seeds.start,
                        seeds.end,
                        dependence,
                        b as int,
                        texts(done@),
                        asks,
                    );
                }
                found = Some(dependence);
                assert(may_settle(trace@, first, seeds.start, seeds.end, found, asks));
            } else {
                seed += 1;
            }
        }
        b += 1;
    }
    assert(may_settle(trace@, first, seeds.start, seeds.end, found, asks));
    assert((forall|x: &mut Replayer<'_, C>, y: &mut Replayer<'_, C>| #[trigger]
        call_ensures(agent, (x,), ()) && #[trigger] call_ensures(agent, (y,), ()) && (*x).ready()
            && (*y).ready() && (*x).steps@.len() == 0 && (*y).steps@.len() == 0
            && (*x).start@.trace == trace@ && same_course((*x).start@, (*y).start@) && keeps(
            first,
            (*x).start@.contents,
        ) && keeps(first, (*y).start@.contents) ==> (*final(x)).steps@ == (*final(y)).steps@)
        ==> deterministic(asks, trace@, first));
    proof {
        lemma_settles(trace@, first, seeds.start, seeds.end, found, asks);
    }
    found
}

} // verus!
