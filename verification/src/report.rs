//! What the commands say.
//!
//! What a command prints is decided here, line by line, with the verdict that
//! becomes its exit status. How a line looks on a terminal is the caller's.

use crate::bundle::{lossy_text, read_lossy};
use crate::cas::{fetch, found, Cas, Contents};
use crate::certificate::{Certificate, CertificateModel};
use crate::config::{checked_property, Checker, SpecModel};
use crate::coverage::{coverage_claim, CaseModel, Coverage, CoverageModel};
use crate::divergence::{divergence_report, reportable, DivergenceModel};
use crate::event::{summary_of, Event, EventModel};
use crate::fault::{description, label_of};
use crate::hash::{has_short, Digest};
use crate::invariants::{
    identities_shown, violation_report, NoDuplicateEffects, TerminatesWithin, TokenBudget, Violation,
    ViolationModel,
};
use crate::model::views;
use crate::orderings::{order_claim, Interleavings, InterleavingsModel};
use crate::replayer::ReplayResult;
use crate::text::{chars_of, decimal, show, show_size, text_of, texts};
use crate::trace::{Trace, TraceModel};
use vstd::prelude::*;

verus! {

/// A line of output.
#[derive(Debug, PartialEq, Eq)]
pub enum Line {
    /// A numbered heading.
    Heading { number: usize, title: String },
    /// Something that holds.
    Good { text: String },
    /// Something that does not.
    Bad { text: String },
    /// Something to know.
    Note { text: String },
    /// A schedule of faults.
    Faults { text: String },
    /// What a schedule of faults broke.
    Broke { text: String },
}

/// What a line is, for contracts.
pub enum LineModel {
    Heading { number: usize, title: Seq<char> },
    Good { text: Seq<char> },
    Bad { text: Seq<char> },
    Note { text: Seq<char> },
    Faults { text: Seq<char> },
    Broke { text: Seq<char> },
}

impl View for Line {
    type V = LineModel;

    open spec fn view(&self) -> LineModel {
        match *self {
            Line::Heading { number, title } => LineModel::Heading { number, title: title@ },
            Line::Good { text } => LineModel::Good { text: text@ },
            Line::Bad { text } => LineModel::Bad { text: text@ },
            Line::Note { text } => LineModel::Note { text: text@ },
            Line::Faults { text } => LineModel::Faults { text: text@ },
            Line::Broke { text } => LineModel::Broke { text: text@ },
        }
    }
}

/// A line that is good news or bad.
pub open spec fn news(good: bool, text: Seq<char>) -> LineModel {
    if good {
        LineModel::Good { text }
    } else {
        LineModel::Bad { text }
    }
}

/// Adds a line.
fn add_line(out: &mut Vec<Line>, line: Line)
    ensures
        views(final(out)@) == views(old(out)@) + seq![line@],
{
    let ghost before = out@;
    out.push(line);
    assert(views(out@) =~= views(before) + seq![line@]);
}

/// A line that is good news or bad.
fn news_line(good: bool, text: String) -> (r: Line)
    ensures
        r@ == news(good, text@),
{
    if good {
        Line::Good { text }
    } else {
        Line::Bad { text }
    }
}

// ---------------------------------------------------------------------------
// A sweep
// ---------------------------------------------------------------------------

/// Whether a count is all there is.
pub open spec fn extent(complete: bool, otherwise: Seq<char>) -> Seq<char> {
    if complete {
        " (all of them)"@
    } else {
        otherwise
    }
}

/// What is said of the orders of a batch that were checked.
pub open spec fn order_line(i: InterleavingsModel) -> LineModel {
    LineModel::Note {
        text: "batch #"@ + decimal(i.batch as nat) + ": "@ + decimal(i.checked as nat) + " of "@
            + decimal(i.total as nat) + " orderings"@ + extent(i.exhaustive, " (sampled)"@),
    }
}

/// What is said of the orders of each batch that were checked.
pub open spec fn order_lines(reports: Seq<InterleavingsModel>) -> Seq<LineModel> {
    Seq::new(reports.len(), |k: int| order_line(reports[k]))
}

/// The sum of two sizes, as far as a size reaches.
pub open spec fn sum_capped(a: usize, b: usize) -> usize {
    if a + b <= usize::MAX {
        (a + b) as usize
    } else {
        usize::MAX
    }
}

/// How many replays the orders took, as far as a size reaches.
pub open spec fn order_replays(reports: Seq<InterleavingsModel>) -> usize
    decreases reports.len(),
{
    if reports.len() == 0 {
        0
    } else {
        sum_capped(order_replays(reports.drop_last()), reports.last().replays)
    }
}

/// What is said of the faults that were checked.
pub open spec fn space_lines(c: CoverageModel) -> Seq<LineModel> {
    seq![
        LineModel::Heading { number: 1, title: "What was checked"@ },
        LineModel::Note {
            text: decimal(c.positions as nat) + " faultable positions \u{d7} "@ + decimal(
                c.kinds as nat,
            ) + " fault kinds"@,
        },
        LineModel::Note {
            text: decimal(c.singles_checked as nat) + " single-fault schedules"@ + extent(
                c.singles_exhaustive,
                " (budget reached)"@,
            ),
        },
    ] + if c.pairs_checked > 0 {
        seq![
            LineModel::Note {
                text: decimal(c.pairs_checked as nat) + " pair schedules"@ + extent(
                    c.pairs_exhaustive,
                    " (budget reached)"@,
                ),
            },
        ]
    } else {
        seq![]
    }
}

/// What is said of the replays that a sweep took.
pub open spec fn replays_line(c: CertificateModel) -> LineModel {
    let ordering = order_replays(c.interleavings);
    LineModel::Note {
        text: decimal(sum_capped(c.coverage.replays, ordering) as nat) + " replays total ("@
            + decimal(c.coverage.replays as nat) + " fault, "@ + decimal(ordering as nat)
            + " ordering)"@,
    }
}

/// What a sweep means: each claim with its own verdict.
pub open spec fn meaning_lines(c: CertificateModel) -> Seq<LineModel> {
    seq![
        LineModel::Heading { number: 2, title: "What it means"@ },
        news(c.coverage.failures.len() == 0, coverage_claim(c.coverage)),
    ] + Seq::new(
        c.interleavings.len(),
        |k: int| news(c.interleavings[k].divergent.len() == 0, order_claim(c.interleavings[k])),
    )
}

/// What one failing schedule broke.
pub open spec fn broke_lines(violations: Seq<ViolationModel>) -> Seq<LineModel> {
    Seq::new(
        violations.len(),
        |k: int| LineModel::Broke { text: violation_report(violations[k]) },
    )
}

/// The first failing schedules, with what each broke.
pub open spec fn case_lines(cases: Seq<CaseModel>, n: nat) -> Seq<LineModel>
    decreases n,
{
    if n == 0 {
        seq![]
    } else {
        case_lines(cases, (n - 1) as nat) + seq![
            LineModel::Faults { text: cases[n - 1].description },
        ] + broke_lines(cases[n - 1].violations)
    }
}

/// How many failing schedules are shown.
pub const SHOWN_CASES: usize = 8;

/// The failing schedules, where there are any.
pub open spec fn failing_lines(cases: Seq<CaseModel>) -> Seq<LineModel> {
    if cases.len() == 0 {
        seq![]
    } else {
        let shown = if cases.len() <= SHOWN_CASES {
            cases.len()
        } else {
            SHOWN_CASES as nat
        };
        seq![LineModel::Heading { number: 3, title: "Failing schedules"@ }] + case_lines(
            cases,
            shown,
        ) + if cases.len() > SHOWN_CASES {
            seq![
                LineModel::Note {
                    text: "\u{2026} and "@ + decimal((cases.len() - SHOWN_CASES) as nat)
                        + " more"@,
                },
            ]
        } else {
            seq![]
        }
    }
}

/// What is said of a batch whose order matters.
pub open spec fn dependent_lines(i: InterleavingsModel) -> Seq<LineModel> {
    if i.divergent.len() == 0 {
        seq![]
    } else {
        seq![
            LineModel::Heading { number: 4, title: "Ordering"@ },
            LineModel::Bad {
                text: decimal(i.divergent.len()) + " of "@ + decimal(i.total as nat)
                    + " orderings change what the agent does"@,
            },
            LineModel::Note {
                text: decimal(i.commuting_pairs as nat) + " of "@ + decimal(
                    i.adjacent_pairs as nat,
                ) + " adjacent pairs commute"@,
            },
        ]
    }
}

/// What is said of the batches whose order matters.
pub open spec fn all_dependent_lines(reports: Seq<InterleavingsModel>) -> Seq<LineModel>
    decreases reports.len(),
{
    if reports.len() == 0 {
        seq![]
    } else {
        all_dependent_lines(reports.drop_last()) + dependent_lines(reports.last())
    }
}

/// What a sweep says.
pub open spec fn sweep_lines(c: CertificateModel) -> Seq<LineModel> {
    space_lines(c.coverage) + order_lines(c.interleavings) + seq![replays_line(c)]
        + meaning_lines(c) + failing_lines(c.coverage.failures) + all_dependent_lines(
        c.interleavings,
    )
}

/// Adds what is said of the faults that were checked.
fn add_space(out: &mut Vec<Line>, c: &Coverage)
    ensures
        views(final(out)@) == views(old(out)@) + space_lines(c@),
{
    let ghost start = views(out@);
    add_line(out, Line::Heading { number: 1, title: "What was checked".to_owned() });
    let mut text = show_size(c.positions);
    text.append(" faultable positions \u{d7} ");
    text.append(show_size(c.kinds).as_str());
    text.append(" fault kinds");
    add_line(out, Line::Note { text });
    let mut text = show_size(c.singles_checked);
    text.append(" single-fault schedules");
    text.append(
        if c.singles_exhaustive {
            " (all of them)"
        } else {
            " (budget reached)"
        },
    );
    add_line(out, Line::Note { text });
    if c.pairs_checked > 0 {
        let mut text = show_size(c.pairs_checked);
        text.append(" pair schedules");
        text.append(
            if c.pairs_exhaustive {
                " (all of them)"
            } else {
                " (budget reached)"
            },
        );
        add_line(out, Line::Note { text });
    }
    assert(views(out@) =~= start + space_lines(c@));
}

/// Adds what is said of the orders that were checked, and tells how many
/// replays they took.
fn add_orders(out: &mut Vec<Line>, reports: &Vec<Interleavings>) -> (r: usize)
    ensures
        views(final(out)@) == views(old(out)@) + order_lines(views(reports@)),
        r == order_replays(views(reports@)),
{
    let ghost start = views(out@);
    let ghost all = views(reports@);
    let mut replays: usize = 0;
    let mut i: usize = 0;
    assert(start + order_lines(all.take(0)) =~= start);
    while i < reports.len()
        invariant
            i <= reports@.len(),
            all == views(reports@),
            views(out@) == start + order_lines(all.take(i as int)),
            replays == order_replays(all.take(i as int)),
        decreases reports@.len() - i,
    {
        let order = &reports[i];
        let mut text = "batch #".to_owned();
        text.append(show(order.batch).as_str());
        text.append(": ");
        text.append(show_size(order.checked).as_str());
        text.append(" of ");
        text.append(show(order.total).as_str());
        text.append(" orderings");
        text.append(
            if order.exhaustive {
                " (all of them)"
            } else {
                " (sampled)"
            },
        );
        add_line(out, Line::Note { text });
        replays = replays.saturating_add(order.replays);
        proof {
            assert(all.take(i + 1).drop_last() =~= all.take(i as int));
            assert(all.take(i + 1).last() == order@);
            assert(order_lines(all.take(i + 1)) =~= order_lines(all.take(i as int)).push(
                order_line(order@),
            ));
            assert(views(out@) =~= start + order_lines(all.take(i + 1)));
        }
        i += 1;
    }
    assert(all.take(i as int) =~= all);
    replays
}

/// Adds what a sweep means.
fn add_meaning(out: &mut Vec<Line>, c: &Certificate)
    ensures
        views(final(out)@) == views(old(out)@) + meaning_lines(c@),
{
    let ghost start = views(out@);
    add_line(out, Line::Heading { number: 2, title: "What it means".to_owned() });
    add_line(out, news_line(c.coverage.is_clean(), c.coverage.claim()));
    let ghost head = views(out@);
    let ghost all = views(c.interleavings@);
    let mut i: usize = 0;
    assert(head =~= head + Seq::new(
        0,
        |k: int| news(all[k].divergent.len() == 0, order_claim(all[k])),
    ));
    while i < c.interleavings.len()
        invariant
            i <= c.interleavings@.len(),
            all == views(c.interleavings@),
            views(out@) == head + Seq::new(
                i as nat,
                |k: int| news(all[k].divergent.len() == 0, order_claim(all[k])),
            ),
        decreases c.interleavings@.len() - i,
    {
        let order = &c.interleavings[i];
        assert(all[i as int] == order@);
        add_line(out, news_line(order.is_order_independent(), order.claim()));
        assert(views(out@) =~= head + Seq::new(
            (i + 1) as nat,
            |k: int| news(all[k].divergent.len() == 0, order_claim(all[k])),
        ));
        i += 1;
    }
    assert(views(out@) =~= start + meaning_lines(c@));
}

/// Adds what a schedule broke.
fn add_broken(out: &mut Vec<Line>, violations: &Vec<Violation>)
    ensures
        views(final(out)@) == views(old(out)@) + broke_lines(views(violations@)),
{
    let ghost start = views(out@);
    let ghost all = views(violations@);
    let mut i: usize = 0;
    assert(start + broke_lines(all).take(0) =~= start);
    while i < violations.len()
        invariant
            i <= violations@.len(),
            all == views(violations@),
            views(out@) == start + broke_lines(all).take(i as int),
        decreases violations@.len() - i,
    {
        assert(all[i as int] == violations@[i as int]@);
        add_line(out, Line::Broke { text: violations[i].report() });
        assert(broke_lines(all).take(i + 1) =~= broke_lines(all).take(i as int).push(
            broke_lines(all)[i as int],
        ));
        assert(views(out@) =~= start + broke_lines(all).take(i + 1));
        i += 1;
    }
    assert(broke_lines(all).take(i as int) =~= broke_lines(all));
}

/// Adds the failing schedules.
fn add_failing(out: &mut Vec<Line>, c: &Coverage)
    ensures
        views(final(out)@) == views(old(out)@) + failing_lines(c@.failures),
{
    let ghost start = views(out@);
    let ghost cases = views(c.failures@);
    let n: usize = c.failures.len();
    if n == 0 {
        assert(start + failing_lines(cases) =~= start);
        return;
    }
    add_line(out, Line::Heading { number: 3, title: "Failing schedules".to_owned() });
    let ghost head = views(out@);
    let shown: usize = if n <= SHOWN_CASES {
        n
    } else {
        SHOWN_CASES
    };
    let mut i: usize = 0;
    assert(head + case_lines(cases, 0) =~= head);
    while i < shown
        invariant
            i <= shown <= c.failures@.len(),
            cases == views(c.failures@),
            views(out@) == head + case_lines(cases, i as nat),
        decreases shown - i,
    {
        let ghost before = views(out@);
        let case = &c.failures[i];
        assert(cases[i as int] == case@);
        add_line(out, Line::Faults { text: case.description.clone() });
        add_broken(out, &case.violations);
        assert(views(out@) =~= head + case_lines(cases, (i + 1) as nat));
        i += 1;
    }
    if n > SHOWN_CASES {
        let mut text = "\u{2026} and ".to_owned();
        text.append(show_size(n - SHOWN_CASES).as_str());
        text.append(" more");
        add_line(out, Line::Note { text });
    }
    assert(views(out@) =~= start + failing_lines(cases));
}

/// Adds what is said of the batches whose order matters.
fn add_dependent(out: &mut Vec<Line>, reports: &Vec<Interleavings>)
    ensures
        views(final(out)@) == views(old(out)@) + all_dependent_lines(views(reports@)),
{
    let ghost start = views(out@);
    let ghost all = views(reports@);
    let mut i: usize = 0;
    assert(all.take(0) =~= seq![]);
    assert(start + all_dependent_lines(all.take(0)) =~= start);
    while i < reports.len()
        invariant
            i <= reports@.len(),
            all == views(reports@),
            views(out@) == start + all_dependent_lines(all.take(i as int)),
        decreases reports@.len() - i,
    {
        let ghost before = views(out@);
        let order = &reports[i];
        proof {
            assert(all.take(i + 1).drop_last() =~= all.take(i as int));
            assert(all.take(i + 1).last() == order@);
        }
        if !order.is_order_independent() {
            add_line(out, Line::Heading { number: 4, title: "Ordering".to_owned() });
            let mut text = show_size(order.divergent.len());
            text.append(" of ");
            text.append(show(order.total).as_str());
            text.append(" orderings change what the agent does");
            add_line(out, Line::Bad { text });
            let mut text = show_size(order.commuting_pairs);
            text.append(" of ");
            text.append(show_size(order.adjacent_pairs).as_str());
            text.append(" adjacent pairs commute");
            add_line(out, Line::Note { text });
        }
        assert(views(out@) =~= before + dependent_lines(order@));
        assert(views(out@) =~= start + all_dependent_lines(all.take(i + 1)));
        i += 1;
    }
    assert(all.take(i as int) =~= all);
}

/// What a sweep says.
pub fn report_sweep(c: &Certificate) -> (r: Vec<Line>)
    ensures
        views(r@) == sweep_lines(c@),
{
    let mut out: Vec<Line> = Vec::new();
    assert(views(out@) =~= seq![]);
    add_space(&mut out, &c.coverage);
    let ordering: usize = add_orders(&mut out, &c.interleavings);
    let mut text = show_size(c.coverage.replays.saturating_add(ordering));
    text.append(" replays total (");
    text.append(show_size(c.coverage.replays).as_str());
    text.append(" fault, ");
    text.append(show_size(ordering).as_str());
    text.append(" ordering)");
    add_line(&mut out, Line::Note { text });
    add_meaning(&mut out, c);
    add_failing(&mut out, &c.coverage);
    add_dependent(&mut out, &c.interleavings);
    assert(views(out@) =~= sweep_lines(c@));
    out
}

// ---------------------------------------------------------------------------
// A replay
// ---------------------------------------------------------------------------

/// What is said of the divergences of a replay: only the first matters, and
/// only a strict replay fails by it.
pub open spec fn divergence_line(divergences: Seq<DivergenceModel>, strict: bool) -> LineModel {
    if divergences.len() == 0 {
        LineModel::Good {
            text: "no divergence: the agent asked exactly what it asked before"@,
        }
    } else {
        let text = divergence_report(divergences[0]) + if divergences.len() > 1 {
            " (+"@ + decimal((divergences.len() - 1) as nat) + " more, all downstream)"@
        } else {
            seq![]
        };
        if strict {
            LineModel::Bad { text }
        } else {
            LineModel::Note { text }
        }
    }
}

/// What is said of the effects that nothing recorded answered.
pub open spec fn hole_lines(holes: nat) -> Seq<LineModel> {
    if holes == 0 {
        seq![]
    } else {
        seq![
            LineModel::Note {
                text: decimal(holes)
                    + " effect(s) had no recorded answer; re-record to cover that path"@,
            },
        ]
    }
}

/// What is said of a run that was checked.
pub open spec fn check_lines(effects: nat, violations: Seq<ViolationModel>) -> Seq<LineModel> {
    if violations.len() == 0 {
        seq![LineModel::Good { text: decimal(effects) + " effects, no violations"@ }]
    } else {
        Seq::new(
            violations.len(),
            |k: int| LineModel::Bad { text: violation_report(violations[k]) },
        )
    }
}

/// What is said of a run that was checked.
pub fn report_checks(effects: usize, violations: &Vec<Violation>) -> (r: Vec<Line>)
    ensures
        views(r@) == check_lines(effects as nat, views(violations@)),
{
    let ghost all = views(violations@);
    let mut out: Vec<Line> = Vec::new();
    if violations.len() == 0 {
        let mut text = show_size(effects);
        text.append(" effects, no violations");
        out.push(Line::Good { text });
    } else {
        let mut i: usize = 0;
        while i < violations.len()
            invariant
                i <= violations@.len(),
                out@.len() == i,
                forall|k: int|
                    0 <= k < i ==> (#[trigger] out@[k])@ == (LineModel::Bad {
                        text: violation_report(violations@[k]@),
                    }),
            decreases violations@.len() - i,
        {
            out.push(Line::Bad { text: violations[i].report() });
            i += 1;
        }
    }
    assert(views(out@) =~= check_lines(effects as nat, all));
    out
}

/// What a replay says, and whether it failed: by a divergence where it is
/// strict, or by a violation.
pub fn report_replay(result: &ReplayResult, strict: bool, violations: &Vec<Violation>) -> (r: (
    Vec<Line>,
    bool,
))
    requires
        result.divergences@.len() > 0 ==> reportable(result.divergences@[0]@),
    ensures
        views(r.0@) == seq![divergence_line(views(result.divergences@), strict)] + hole_lines(
            result.holes@.len(),
        ) + check_lines(result.branch@.events.len(), views(violations@)),
        r.1 == ((strict && result.divergences@.len() > 0) || violations@.len() > 0),
{
    let ghost all = views(result.divergences@);
    let mut out: Vec<Line> = Vec::new();
    assert(views(out@) =~= seq![]);
    let n: usize = result.divergences.len();
    if n == 0 {
        add_line(
            &mut out,
            Line::Good {
                text: "no divergence: the agent asked exactly what it asked before".to_owned(),
            },
        );
    } else {
        let mut text = result.divergences[0].report();
        let ghost head = text@;
        if n > 1 {
            text.append(" (+");
            text.append(show_size(n - 1).as_str());
            text.append(" more, all downstream)");
        }
        assert(all[0] == result.divergences@[0]@);
        assert(text@ =~= divergence_report(all[0]) + if n > 1 {
            " (+"@ + decimal((n - 1) as nat) + " more, all downstream)"@
        } else {
            seq![]
        });
        if strict {
            add_line(&mut out, Line::Bad { text });
        } else {
            add_line(&mut out, Line::Note { text });
        }
    }
    assert(views(out@) =~= seq![divergence_line(all, strict)]);
    if result.holes.len() > 0 {
        let mut text = show_size(result.holes.len());
        text.append(" effect(s) had no recorded answer; re-record to cover that path");
        add_line(&mut out, Line::Note { text });
    }
    let ghost head = views(out@);
    let mut checks = report_checks(result.branch.events.len(), violations);
    let ghost said = views(checks@);
    let ghost lines = checks@;
    out.append(&mut checks);
    assert(views(out@) =~= head + said);
    (out, (strict && n > 0) || violations.len() > 0)
}

// ---------------------------------------------------------------------------
// Checkers for a command
// ---------------------------------------------------------------------------

/// The properties that a command checks: no side effect twice, an end to the
/// run, and a budget of tokens where there is one.
pub open spec fn command_properties(
    effectful: Seq<Seq<char>>,
    idempotency_key: Option<Seq<char>>,
    max_effects: usize,
    token_budget: Option<u64>,
) -> Seq<SpecModel> {
    let always = seq![
        SpecModel::NoDuplicateEffects { tools: effectful, idempotency_key },
        SpecModel::TerminatesWithin { effects: max_effects },
    ];
    match token_budget {
        Some(tokens) => always.push(SpecModel::TokenBudget { tokens }),
        None => always,
    }
}

/// The checkers of a command.
pub fn command_checkers(
    effectful: Vec<String>,
    idempotency_key: Option<&str>,
    max_effects: usize,
    token_budget: Option<u64>,
) -> (r: Vec<Checker>)
    ensures
        Seq::new(r@.len(), |i: int| checked_property(r@[i])) == command_properties(
            texts(effectful@),
            crate::model::viewed(idempotency_key),
            max_effects,
            token_budget,
        ),
{
    let mut duplicates = NoDuplicateEffects::only(effectful);
    if let Some(field) = idempotency_key {
        duplicates = duplicates.exempting_idempotent(field);
    }
    let mut out: Vec<Checker> = Vec::new();
    out.push(Checker::NoDuplicateEffects(duplicates));
    out.push(Checker::TerminatesWithin(TerminatesWithin(max_effects)));
    if let Some(budget) = token_budget {
        out.push(Checker::TokenBudget(TokenBudget(budget)));
    }
    assert(Seq::new(out@.len(), |i: int| checked_property(out@[i])) =~= command_properties(
        texts(effectful@),
        crate::model::viewed(idempotency_key),
        max_effects,
        token_budget,
    ));
    out
}

// ---------------------------------------------------------------------------
// Texts
// ---------------------------------------------------------------------------

/// A text on one line.
pub open spec fn flattened(s: Seq<char>) -> Seq<char> {
    Seq::new(
        s.len(),
        |i: int|
            if s[i] == '\n' {
                ' '
            } else {
                s[i]
            },
    )
}

/// A text on one line, cut where it is too long.
pub open spec fn shown_payload(s: Seq<char>, max: nat) -> Seq<char> {
    if s.len() <= max {
        flattened(s)
    } else {
        flattened(s).take(max as int) + "\u{2026}"@
    }
}

/// A text on one line, cut where it is too long.
pub fn truncate(s: &str, max: usize) -> (r: String)
    ensures
        r@ == shown_payload(s@, max as nat),
{
    let chars = chars_of(s);
    let n: usize = if chars.len() <= max {
        chars.len()
    } else {
        max
    };
    let mut flat: Vec<char> = Vec::new();
    let mut i: usize = 0;
    while i < n
        invariant
            i <= n <= chars@.len(),
            chars@ == s@,
            flat@.len() == i,
            forall|k: int| 0 <= k < i ==> (#[trigger] flat@[k]) == flattened(s@)[k],
        decreases n - i,
    {
        flat.push(
            if chars[i] == '\n' {
                ' '
            } else {
                chars[i]
            },
        );
        i += 1;
    }
    assert(flat@ =~= flattened(s@).take(n as int));
    let mut out = text_of(&flat);
    if chars.len() > max {
        out.append("\u{2026}");
    } else {
        assert(flattened(s@).take(n as int) =~= flattened(s@));
    }
    out
}

// ---------------------------------------------------------------------------
// A trace
// ---------------------------------------------------------------------------

/// A row of a trace, as it is listed.
#[derive(Debug, PartialEq, Eq)]
pub enum Row {
    /// What was recorded, by what, and how many effects it has.
    Title { label: String, engine: String, effects: usize },
    /// The faults that were applied to the run.
    Schedule { text: String },
    /// An effect, and whether its outcome was tampered with.
    Effect { text: String, faulted: bool },
    /// How the outcome above was tampered with.
    Injected { text: String },
    /// A payload of the effect above.
    Payload { side: String, text: String },
}

/// What a row is, for contracts.
pub enum RowModel {
    Title { label: Seq<char>, engine: Seq<char>, effects: nat },
    Schedule { text: Seq<char> },
    Effect { text: Seq<char>, faulted: bool },
    Injected { text: Seq<char> },
    Payload { side: Seq<char>, text: Seq<char> },
}

impl View for Row {
    type V = RowModel;

    open spec fn view(&self) -> RowModel {
        match *self {
            Row::Title { label, engine, effects } => RowModel::Title {
                label: label@,
                engine: engine@,
                effects: effects as nat,
            },
            Row::Schedule { text } => RowModel::Schedule { text: text@ },
            Row::Effect { text, faulted } => RowModel::Effect { text: text@, faulted },
            Row::Injected { text } => RowModel::Injected { text: text@ },
            Row::Payload { side, text } => RowModel::Payload { side: side@, text: text@ },
        }
    }
}

/// How much of a payload is listed.
pub const SHOWN_PAYLOAD: usize = 160;

/// The row for a payload, where the store has it.
pub open spec fn payload_rows(contents: Contents, side: Seq<char>, digest: Seq<char>) -> Seq<
    RowModel,
> {
    match found(contents, digest) {
        Some(bytes) => seq![
            RowModel::Payload { side, text: shown_payload(lossy_text(bytes), SHOWN_PAYLOAD as nat) },
        ],
        None => seq![],
    }
}

/// The rows for an effect.
pub open spec fn event_rows(contents: Contents, e: EventModel, payloads: bool) -> Seq<RowModel> {
    seq![RowModel::Effect { text: summary_of(e), faulted: e.fault is Some }] + (match e.fault {
        Some(f) => seq![RowModel::Injected { text: label_of(f) }],
        None => seq![],
    }) + (if payloads {
        payload_rows(contents, "req"@, e.request) + payload_rows(contents, "res"@, e.outcome)
    } else {
        seq![]
    })
}

/// The rows for some effects.
pub open spec fn effect_rows(contents: Contents, events: Seq<EventModel>, payloads: bool) -> Seq<
    RowModel,
>
    decreases events.len(),
{
    if events.len() == 0 {
        seq![]
    } else {
        effect_rows(contents, events.drop_last(), payloads) + event_rows(
            contents,
            events.last(),
            payloads,
        )
    }
}

/// The rows for a trace: a title, the faults of a branch, and every effect in
/// order.
pub open spec fn trace_rows(t: TraceModel, contents: Contents, payloads: bool) -> Seq<RowModel> {
    seq![
        RowModel::Title {
            label: t.header.label,
            engine: t.header.engine,
            effects: t.events.len(),
        },
    ] + (match t.header.schedule {
        Some(points) => seq![RowModel::Schedule { text: description(points) }],
        None => seq![],
    }) + effect_rows(contents, t.events, payloads)
}

/// Adds a row.
fn add_row(out: &mut Vec<Row>, row: Row)
    ensures
        views(final(out)@) == views(old(out)@) + seq![row@],
{
    let ghost before = out@;
    out.push(row);
    assert(views(out@) =~= views(before) + seq![row@]);
}

/// Adds the row for a payload, where the store has it.
fn add_payload<C: Cas>(out: &mut Vec<Row>, cas: &C, side: &str, digest: &Digest)
    ensures
        views(final(out)@) == views(old(out)@) + payload_rows(cas.contents(), side@, digest@),
{
    let ghost start = views(out@);
    match fetch(cas, digest) {
        Some(bytes) => {
            let text = truncate(read_lossy(bytes.as_slice()).as_str(), SHOWN_PAYLOAD);
            add_row(out, Row::Payload { side: side.to_owned(), text });
        },
        None => {
            assert(start + Seq::<RowModel>::empty() =~= start);
        },
    }
}

/// Adds the rows for an effect.
fn add_event<C: Cas>(out: &mut Vec<Row>, cas: &C, event: &Event, payloads: bool)
    requires
        has_short(event@.identity),
    ensures
        views(final(out)@) == views(old(out)@) + event_rows(cas.contents(), event@, payloads),
{
    let ghost start = views(out@);
    let ghost e = event@;
    add_row(out, Row::Effect { text: event.summary(), faulted: event.fault.is_some() });
    if let Some(fault) = &event.fault {
        add_row(out, Row::Injected { text: fault.label() });
    }
    if payloads {
        add_payload(out, cas, "req", &event.request);
        add_payload(out, cas, "res", &event.outcome);
    }
    assert(views(out@) =~= start + event_rows(cas.contents(), e, payloads));
}

/// The rows for a trace, with the payloads of its effects or without.
pub fn show_trace<C: Cas>(trace: &Trace, cas: &C, payloads: bool) -> (r: Vec<Row>)
    requires
        identities_shown(trace@),
    ensures
        views(r@) == trace_rows(trace@, cas.contents(), payloads),
{
    let mut out: Vec<Row> = Vec::new();
    add_row(
        &mut out,
        Row::Title {
            label: trace.header.label.clone(),
            engine: trace.header.engine.clone(),
            effects: trace.len(),
        },
    );
    if let Some(schedule) = &trace.header.schedule {
        add_row(&mut out, Row::Schedule { text: schedule.describe() });
    }
    let ghost head = views(out@);
    let ghost all = trace@.events;
    let mut i: usize = 0;
    assert(head + Seq::<RowModel>::empty() =~= head);
    while i < trace.events.len()
        invariant
            i <= trace.events@.len(),
            all == trace@.events,
            identities_shown(trace@),
            views(out@) == head + effect_rows(cas.contents(), all.take(i as int), payloads),
        decreases trace.events@.len() - i,
    {
        proof {
            assert(all.take(i + 1).drop_last() =~= all.take(i as int));
            assert(all.take(i + 1).last() == trace.events@[i as int]@);
            assert(has_short(trace@.events[i as int].identity));
        }
        let ghost before = effect_rows(cas.contents(), all.take(i as int), payloads);
        add_event(&mut out, cas, &trace.events[i], payloads);
        assert(views(out@) =~= head + (before + event_rows(
            cas.contents(),
            all[i as int],
            payloads,
        )));
        i += 1;
    }
    assert(all.take(i as int) =~= all);
    assert(views(out@) =~= trace_rows(trace@, cas.contents(), payloads));
    out
}

} // verus!
