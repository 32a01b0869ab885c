//! Certificates: what was checked, and what changed since.

use samsara::certificate::{BadCertificate, Certificate, Verdict};
use samsara::coverage::{Case, Coverage};
use samsara::fault::FaultSchedule;
use samsara::hash::Digest;
use samsara::invariants::Violation;
use samsara::json::Json;
use samsara::orderings::Interleavings;

fn coverage(singles: usize, failures: usize) -> Coverage {
    Coverage {
        positions: 3,
        kinds: 5,
        singles_checked: singles,
        singles_exhaustive: true,
        pairs_checked: 0,
        pairs_exhaustive: false,
        replays: singles,
        failures: (0..failures)
            .map(|_| Case {
                schedule: FaultSchedule::empty(),
                description: "x".into(),
                violations: vec![],
            })
            .collect(),
    }
}

fn cert(singles: usize, failures: usize) -> Certificate {
    Certificate::new(
        Digest::of(b"trace"),
        "run".into(),
        vec!["no_duplicate_effects".into()],
        coverage(singles, failures),
        vec![],
    )
}

#[test]
fn a_clean_sweep_yields_a_clean_verdict() {
    assert_eq!(cert(15, 0).verdict, Verdict::Clean);
    assert_eq!(cert(15, 1).verdict, Verdict::Broken);
}

#[test]
fn certificates_are_stable_across_runs() {
    // No timestamps, no durations, no hostnames: the same inputs must give
    // the same bytes or the file is useless in a diff.
    assert_eq!(cert(15, 0).to_json(), cert(15, 0).to_json());
}

#[test]
fn it_roundtrips() {
    let c = cert(15, 1);
    assert_eq!(Certificate::parse(&c.to_json()).unwrap(), c);
}

#[test]
fn identical_certificates_differ_in_nothing() {
    assert!(cert(15, 0).differences(&cert(15, 0)).is_empty());
}

#[test]
fn a_new_failure_is_reported() {
    let diff = cert(15, 1).differences(&cert(15, 0));
    assert!(
        diff.iter().any(|d| d.contains("verdict changed")),
        "{diff:?}"
    );
}

#[test]
fn coverage_shrinking_is_reported_even_when_the_verdict_stays_green() {
    // The quiet regression: still passing, but checking less. A tool that
    // only compared verdicts would call this an improvement.
    let diff = cert(4, 0).differences(&cert(15, 0));
    assert_eq!(cert(4, 0).verdict, Verdict::Clean);
    assert!(
        diff.iter().any(|d| d.contains("single-fault coverage 15")),
        "{diff:?}"
    );
}

#[test]
fn a_narrowed_invariant_set_is_reported() {
    let mut weakened = cert(15, 0);
    weakened.invariants.clear();
    let diff = weakened.differences(&cert(15, 0));
    assert!(
        diff.iter().any(|d| d.contains("invariants changed")),
        "{diff:?}"
    );
}

#[test]
fn a_divergent_batch_breaks_the_verdict() {
    let batch = Interleavings {
        batch: 2,
        width: 2,
        total: 2,
        checked: 2,
        exhaustive: true,
        divergent: vec![vec![1, 0]],
        commuting_pairs: 0,
        adjacent_pairs: 1,
        replays: 2,
    };
    let c = Certificate::new(
        Digest::of(b"trace"),
        "run".into(),
        vec![],
        coverage(15, 0),
        vec![batch],
    );
    assert_eq!(c.verdict, Verdict::Broken);
    assert_eq!(c.claims.len(), 2);
    assert_eq!(
        c.claims[0],
        "no single fault breaks this agent \u{2014} all 15 were checked"
    );
    assert_eq!(Certificate::parse(&c.to_json()).unwrap(), c);
    assert_eq!(Verdict::Broken.name(), "Broken");
    assert_eq!(Verdict::Clean.name(), "Clean");
    assert!(c.to_json().contains("\"verdict\": \"broken\""));
}

#[test]
fn violations_and_cases_read_back() {
    let v = Violation {
        invariant: "terminates".into(),
        at_seq: None,
        detail: "too long".into(),
    };
    assert_eq!(Violation::from_json(&v.to_json()), Some(v.clone()));
    let case = Case {
        schedule: FaultSchedule::empty(),
        description: "y".into(),
        violations: vec![v],
    };
    assert_eq!(Case::from_json(&case.to_json()), Some(case));
}

#[test]
fn a_certificate_is_printed_over_many_lines() {
    let text = cert(15, 0).to_json();
    assert!(text.starts_with("{\n  \"version\": 1,\n"), "{text}");
    assert_eq!(Json::read(text.as_bytes()).map(|j| j.get("verdict").is_some()), Some(true));
}

#[test]
fn what_is_no_certificate_is_refused() {
    let bad = |reason: &str| {
        Err(BadCertificate {
            reason: reason.into(),
        })
    };
    assert_eq!(
        Certificate::parse("{"),
        bad("EOF while parsing an object at line 1 column 1")
    );
    assert_eq!(Certificate::parse("{}"), bad("expected a certificate"));
    assert_eq!(Certificate::parse("[1]"), bad("expected a certificate"));
}

#[test]
fn a_different_trace_is_named_by_its_digest() {
    let mut other = cert(15, 0);
    other.trace = Digest::of(b"other");
    let diff = other.differences(&cert(15, 0));
    assert_eq!(diff.len(), 1);
    assert!(diff[0].contains(Digest::of(b"trace").short()), "{diff:?}");
    assert!(diff[0].contains(Digest::of(b"other").short()), "{diff:?}");
}

fn batch(exhaustive: bool) -> Interleavings {
    Interleavings {
        batch: 2,
        width: 2,
        total: 2,
        checked: 2,
        exhaustive,
        divergent: vec![],
        commuting_pairs: 1,
        adjacent_pairs: 1,
        replays: 2,
    }
}

#[test]
fn a_sweep_that_becomes_complete_is_reported_like_one_that_ceases_to_be() {
    let full = cert(15, 0);
    let mut partial = cert(15, 0);
    partial.coverage.singles_exhaustive = false;
    assert_eq!(full.differences(&partial), ["single-fault sweep is now exhaustive"]);
    assert_eq!(partial.differences(&full), ["single-fault sweep is no longer exhaustive"]);

    let mut pairs = cert(15, 0);
    pairs.coverage.pairs_exhaustive = true;
    assert_eq!(pairs.differences(&full), ["pair sweep is now exhaustive"]);
    assert_eq!(full.differences(&pairs), ["pair sweep is no longer exhaustive"]);

    let mut sampled = cert(15, 0);
    sampled.interleavings = vec![batch(false)];
    let mut every = cert(15, 0);
    every.interleavings = vec![batch(true)];
    assert_eq!(every.differences(&sampled), ["batch #2: now checked exhaustively"]);
    assert_eq!(sampled.differences(&every), ["batch #2: no longer checked exhaustively"]);
}

#[test]
fn what_was_checked_is_listed_line_by_line() {
    assert_eq!(
        cert(15, 1).differences(&cert(15, 0)),
        ["verdict changed: Clean \u{2192} Broken", "failing schedules 0 \u{2192} 1"]
    );
}

#[test]
fn any_other_difference_is_still_one() {
    let mut other = cert(15, 0);
    other.engine = "samsara/9.9.9".into();
    let differs = ["same coverage, but the certificates are not the same"];
    assert_eq!(other.differences(&cert(15, 0)), differs);
    assert_eq!(cert(15, 0).differences(&other), differs);
}
