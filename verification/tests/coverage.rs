//! Exhaustive coverage: checking everything rather than sampling.
//!
//! Every tool in this space injects faults at random and reports what broke.
//! That answers "is there a bug here?" but never "is there no bug here?" —
//! and the second question is the one anyone shipping an agent actually has.
//!
//! Exhaustive checking is normally out of reach because each trial costs
//! something. Here a replay costs nothing: no tokens, no network, no clock.
//! So the whole finite fault space can simply be run.

use samsara::canon::Canonicalizer;
use samsara::cas::MemCas;
use samsara::certificate::{Certificate, Verdict};
use samsara::coverage::sweep;
use samsara::fault::Fault;
use samsara::invariants::{Invariant, NoDuplicateEffects, TerminatesWithin};
use samsara::orderings::{all_orders, count_orders, interleavings};
use samsara::replay::Recorder;
use samsara::replayer::Replayer;
use samsara::testkit::{run_agent, run_assembler, Assembly, FakeBackend, Style};
use samsara::trace::Trace;

fn naive(r: &mut Replayer<'_, MemCas>) {
    run_agent(r, Style::Naive);
}

fn fixed(r: &mut Replayer<'_, MemCas>) {
    run_agent(r, Style::Idempotent);
}

fn as_they_arrive(r: &mut Replayer<'_, MemCas>) {
    run_assembler(r, Assembly::AsTheyArrive);
}

fn by_request_order(r: &mut Replayer<'_, MemCas>) {
    run_assembler(r, Assembly::ByRequestOrder);
}

fn invariants() -> Vec<Box<dyn Invariant<MemCas>>> {
    vec![
        Box::new(
            NoDuplicateEffects::only(vec!["delete_file".to_string()])
                .exempting_idempotent("idempotency_key"),
        ),
        Box::new(TerminatesWithin(24)),
    ]
}

fn record(style: Style) -> (Trace, MemCas) {
    let mut cas = MemCas::new();
    let mut recorder = Recorder::new(FakeBackend::new(1), &mut cas, Canonicalizer::default());
    run_agent(&mut recorder, style);
    (recorder.finish("delete-stale-report"), cas)
}

// ---------------------------------------------------------------------------
// Fault coverage
// ---------------------------------------------------------------------------

#[test]
fn the_sweep_checks_every_single_fault() {
    let (trace, mut cas) = record(Style::Naive);

    let coverage = sweep(&trace, &mut cas, &invariants(), 10_000, false, naive);

    // The arithmetic must add up, or the completeness claim is empty.
    assert!(coverage.singles_exhaustive);
    assert_eq!(
        coverage.singles_checked,
        coverage.positions * coverage.kinds,
        "every position crossed with every fault kind"
    );
    assert_eq!(coverage.replays, coverage.singles_checked);
    assert!(coverage.positions > 0 && coverage.kinds > 0);
}

#[test]
fn the_naive_agent_is_broken_by_single_faults_and_says_which() {
    let (trace, mut cas) = record(Style::Naive);

    let coverage = sweep(&trace, &mut cas, &invariants(), 10_000, false, naive);

    assert!(!coverage.is_clean(), "the retry bug must be found");
    let claim = coverage.claim();
    println!("{claim}");
    assert!(claim.contains("single faults break it"), "{claim}");

    // Every failing case must be a fault that *masks* a call which really
    // happened. Truncation and duplication do not make the agent retry.
    for case in &coverage.failures {
        let fault = &case.schedule.points[0].fault;
        assert!(
            matches!(fault, Fault::Timeout | Fault::Error { .. }),
            "unexpected culprit: {}",
            case.description
        );
    }
}

#[test]
fn the_fixed_agent_survives_every_single_fault_and_every_pair() {
    let (trace, mut cas) = record(Style::Idempotent);

    let coverage = sweep(&trace, &mut cas, &invariants(), 100_000, true, fixed);

    let claim = coverage.claim();
    println!("{claim} ({} replays)", coverage.replays);

    assert!(coverage.is_clean(), "the fixed agent must survive: {claim}");
    assert!(coverage.singles_exhaustive);
    assert!(
        coverage.pairs_exhaustive,
        "the pair space must be completed too"
    );
    assert!(
        claim.contains("no single fault breaks this agent"),
        "this sentence is the whole product: {claim}"
    );
}

#[test]
fn a_budget_that_runs_out_refuses_to_claim_completeness() {
    // The failure mode that would matter most: a sweep that gets cut short
    // and reports as though it had finished.
    let (trace, mut cas) = record(Style::Idempotent);

    let coverage = sweep(&trace, &mut cas, &invariants(), 3, false, fixed);

    assert!(!coverage.singles_exhaustive);
    assert_eq!(coverage.replays, 3);
    let claim = coverage.claim();
    assert!(claim.contains("not exhaustive"), "{claim}");
    assert!(
        !claim.contains("no single fault breaks this agent"),
        "must not claim completeness it did not reach: {claim}"
    );
}

#[test]
fn pairs_are_only_attempted_once_singles_are_complete() {
    // A pair result computed on top of an incomplete single sweep would be
    // reporting depth it has not earned.
    let (trace, mut cas) = record(Style::Idempotent);
    let coverage = sweep(&trace, &mut cas, &invariants(), 3, true, fixed);
    assert_eq!(coverage.pairs_checked, 0);
    assert!(!coverage.pairs_exhaustive);
}

// ---------------------------------------------------------------------------
// Interleaving coverage
// ---------------------------------------------------------------------------

fn record_assembly(assembly: Assembly) -> (Trace, MemCas) {
    let mut cas = MemCas::new();
    let mut recorder = Recorder::new(FakeBackend::new(1), &mut cas, Canonicalizer::default());
    run_assembler(&mut recorder, assembly);
    (recorder.finish("assemble-report"), cas)
}

#[test]
fn every_ordering_of_a_batch_is_checked() {
    let (trace, mut cas) = record_assembly(Assembly::ByRequestOrder);

    let reports = interleavings(&trace, &mut cas, by_request_order);

    assert_eq!(reports.len(), 1, "one concurrent batch");
    let report = &reports[0];
    assert_eq!(report.width, 3);
    assert_eq!(report.total, 6, "3! orderings");
    assert!(report.exhaustive);
    assert_eq!(report.checked, 6, "all of them, counting the recorded one");

    assert!(report.is_order_independent());
    let claim = report.claim();
    println!("{claim}");
    assert!(claim.contains("all 6 orderings"), "{claim}");
}

#[test]
fn a_dependent_batch_reports_which_orderings_break_it() {
    let (trace, mut cas) = record_assembly(Assembly::AsTheyArrive);

    let reports = interleavings(&trace, &mut cas, as_they_arrive);
    let report = &reports[0];

    println!("{}", report.claim());
    assert!(!report.is_order_independent());
    assert_eq!(
        report.divergent.len(),
        5,
        "every ordering but the recorded one changes the document"
    );
    assert_eq!(
        report.commuting_pairs, 0,
        "no two of these calls commute — the agent folds them in as they land"
    );
    assert_eq!(report.adjacent_pairs, 2);
}

#[test]
fn an_independent_batch_reports_every_pair_as_commuting() {
    let (trace, mut cas) = record_assembly(Assembly::ByRequestOrder);
    let reports = interleavings(&trace, &mut cas, by_request_order);
    assert_eq!(reports[0].commuting_pairs, reports[0].adjacent_pairs);
}

#[test]
fn a_trace_with_no_concurrency_has_nothing_to_interleave() {
    let (trace, mut cas) = record(Style::Naive);
    let reports = interleavings(&trace, &mut cas, naive);
    assert!(reports.is_empty());
}

#[test]
fn an_exact_ordering_is_used_verbatim_and_a_malformed_one_ignored() {
    let good = Fault::Exact {
        order: vec![2, 0, 1],
    };
    assert_eq!(good.permutation(3), Some(vec![2, 0, 1]));

    // Wrong width, repeated index, out of range: each would index out of
    // bounds in the scheduler if it were honoured.
    for bad in [vec![0, 1], vec![0, 0, 1], vec![0, 1, 9]] {
        assert_eq!(Fault::Exact { order: bad }.permutation(3), None);
    }
}

// ---------------------------------------------------------------------------
// Exact sizes
// ---------------------------------------------------------------------------

#[test]
fn the_fault_space_of_the_agents_has_known_sizes() {
    let (trace, mut cas) = record(Style::Naive);
    let singles = sweep(&trace, &mut cas, &invariants(), 10_000, false, naive);
    assert_eq!((singles.positions, singles.kinds), (3, 5));
    assert_eq!(singles.claim(), "2 of 15 single faults break it");

    let pairs = sweep(&trace, &mut cas, &invariants(), 10_000, true, naive);
    assert_eq!(pairs.pairs_checked, 75);
    assert_eq!(pairs.replays, 90);
    assert_eq!(
        pairs.claim(),
        "2 of 15 single faults break it; 20 pairs do, across all 75"
    );

    let (trace, mut cas) = record(Style::Idempotent);
    let clean = sweep(&trace, &mut cas, &invariants(), 10_000, true, fixed);
    assert_eq!(
        clean.claim(),
        "no single fault breaks this agent \u{2014} all 15 were checked; \
         no pair does either, across all 75"
    );
}

#[test]
fn a_budget_can_run_out_among_the_pairs() {
    let (trace, mut cas) = record(Style::Idempotent);
    let coverage = sweep(&trace, &mut cas, &invariants(), 20, true, fixed);
    assert!(coverage.singles_exhaustive);
    assert!(!coverage.pairs_exhaustive);
    assert_eq!(coverage.pairs_checked, 5);
    assert_eq!(coverage.replays, 20);
}

#[test]
fn all_orders_are_listed_once_each() {
    let orders = all_orders(3);
    assert_eq!(orders.len(), 6);
    assert_eq!(orders[0], vec![0, 1, 2]);
    for (i, order) in orders.iter().enumerate() {
        let mut sorted = order.clone();
        sorted.sort_unstable();
        assert_eq!(sorted, vec![0, 1, 2]);
        assert!(!orders[..i].contains(order));
    }
    assert_eq!(count_orders(0), 1);
    assert_eq!(count_orders(5), 120);
    assert_eq!(count_orders(7), 5040);
}

#[test]
fn interleavings_of_the_assemblers_have_known_claims() {
    let (trace, mut cas) = record_assembly(Assembly::ByRequestOrder);
    let reports = interleavings(&trace, &mut cas, by_request_order);
    assert_eq!(
        reports[0].claim(),
        "batch #0 is order-independent across all 6 orderings"
    );
    assert_eq!(reports[0].replays, 7);

    let (trace, mut cas) = record_assembly(Assembly::AsTheyArrive);
    let reports = interleavings(&trace, &mut cas, as_they_arrive);
    assert_eq!(
        reports[0].claim(),
        "batch #0 behaves differently under 5 of all 6 orderings"
    );
}

// ---------------------------------------------------------------------------
// Certificates of the built-in agents
// ---------------------------------------------------------------------------

fn certify(style: Style, pairs: bool) -> Certificate {
    let (trace, mut cas) = record(style);
    let drive = match style {
        Style::Naive => naive,
        Style::Idempotent => fixed,
    };
    let coverage = sweep(&trace, &mut cas, &invariants(), 100_000, pairs, drive);
    Certificate::new(
        trace.id(),
        trace.header.label.clone(),
        vec!["no_duplicate_effects".to_string()],
        coverage,
        vec![],
    )
}

#[test]
fn the_fixed_agent_certificate_is_clean_and_exhaustive() {
    let c = certify(Style::Idempotent, true);
    let parsed = Certificate::parse(&c.to_json()).unwrap();
    assert_eq!(parsed.verdict, Verdict::Clean);
    assert!(parsed.coverage.singles_exhaustive);
    assert!(parsed.coverage.pairs_exhaustive);
    assert!(parsed.claims[0].contains("no single fault breaks"));
}

#[test]
fn a_certificate_is_identical_across_runs() {
    assert_eq!(
        certify(Style::Idempotent, true).to_json(),
        certify(Style::Idempotent, true).to_json()
    );
}

#[test]
fn checking_against_a_matching_certificate_passes() {
    let before = Certificate::parse(&certify(Style::Idempotent, true).to_json()).unwrap();
    assert!(certify(Style::Idempotent, true).differences(&before).is_empty());
}

#[test]
fn a_regression_fails_the_gate() {
    let before = certify(Style::Idempotent, true);
    let diff = certify(Style::Naive, true).differences(&before);
    assert!(
        diff.iter().any(|d| d.contains("verdict changed")),
        "{diff:?}"
    );
}

#[test]
fn shrinking_coverage_fails_the_gate_even_though_nothing_broke() {
    let before = certify(Style::Idempotent, true);
    let after = certify(Style::Idempotent, false);
    assert_eq!(after.verdict, Verdict::Clean);
    let diff = after.differences(&before);
    assert!(diff.iter().any(|d| d.contains("pair coverage")), "{diff:?}");
}
