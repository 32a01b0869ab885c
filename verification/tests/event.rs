//! Effects, their outcomes, and faults on them.

use samsara::event::{EffectKind, EffectRequest, Event, Outcome};
use samsara::fault::{Fault, FaultPoint, FaultSchedule};
use samsara::hash::Digest;
use samsara::json::Json;

fn json(text: &str) -> Json {
    Json::read(text.as_bytes()).expect("valid JSON")
}

#[test]
fn only_tools_are_effectful() {
    assert!(EffectKind::Tool.is_effectful());
    assert!(!EffectKind::Model.is_effectful());
    assert!(!EffectKind::Clock.is_effectful());
    assert!(!EffectKind::Random.is_effectful());
}

#[test]
fn outcomes_roundtrip_through_json() {
    for outcome in [
        Outcome::ok(json(r#"{"deleted": true}"#)),
        Outcome::err("timeout", "no response in 30s"),
    ] {
        let bytes = outcome.to_json().print().into_bytes();
        let back = Outcome::from_json(&Json::read(&bytes).unwrap()).unwrap();
        assert_eq!(outcome, back);
    }
}

#[test]
fn summary_truncates_long_names_without_panicking_on_unicode() {
    let ev = Event {
        seq: 3,
        kind: EffectKind::Tool,
        name: "\u{1f600}".repeat(40),
        identity: Digest::of(b"x"),
        request: Digest::of(b"x"),
        outcome: Digest::of(b"x"),
        fault: None,
        shadow: None,
        logical_time: 3,
        batch: None,
    };
    assert!(ev.summary().contains("\u{2026}"));
}

#[test]
fn generation_is_deterministic_in_the_seed() {
    let eligible: Vec<u64> = (0..20).collect();
    let a = FaultSchedule::generate(91238, &eligible, 5);
    let b = FaultSchedule::generate(91238, &eligible, 5);
    let c = FaultSchedule::generate(91239, &eligible, 5);

    assert_eq!(a, b, "same seed must give the same schedule");
    assert_ne!(a, c, "different seeds should differ");
}

#[test]
fn generation_respects_bounds() {
    let eligible: Vec<u64> = (0..20).collect();
    for seed in 0..200u64 {
        let s = FaultSchedule::generate(seed, &eligible, 4);
        assert!(!s.is_empty() && s.len() <= 4);
        // No duplicate positions.
        let mut seqs: Vec<u64> = s.points.iter().map(|p| p.seq).collect();
        let before = seqs.len();
        seqs.sort_unstable();
        seqs.dedup();
        assert_eq!(before, seqs.len(), "sampling must be without replacement");
        // Every position is eligible, and the list is sorted.
        assert!(s.points.iter().all(|p| eligible.contains(&p.seq)));
        assert!(s.points.windows(2).all(|w| w[0].seq <= w[1].seq));
    }
}

#[test]
fn empty_inputs_yield_empty_schedules() {
    assert!(FaultSchedule::generate(1, &[], 5).is_empty());
    assert!(FaultSchedule::generate(1, &[1, 2, 3], 0).is_empty());
}

#[test]
fn timeout_replaces_success_with_an_error() {
    let observed = Outcome::ok(json(r#"{"ok": true}"#));
    let faulted = Fault::Timeout.apply(&observed);
    assert!(!faulted.is_ok());
}

#[test]
fn truncate_never_splits_a_codepoint() {
    let observed = Outcome::ok(Json::text("\u{1f600}\u{1f600}\u{1f600}"));
    // Every byte length from 0..20 must produce valid UTF-8, not a panic.
    for keep in 0..20 {
        let _ = Fault::Truncate { keep }.apply(&observed);
    }
}

#[test]
fn clock_and_random_are_never_faultable() {
    for fault in [Fault::Timeout, Fault::Duplicate, Fault::Malformed] {
        assert!(!fault.applies_to(EffectKind::Clock));
        assert!(!fault.applies_to(EffectKind::Random));
        assert!(fault.applies_to(EffectKind::Tool));
    }
}

#[test]
fn first_point_wins_when_a_seq_repeats() {
    let s = FaultSchedule::of(vec![
        FaultPoint {
            seq: 2,
            fault: Fault::Timeout,
        },
        FaultPoint {
            seq: 2,
            fault: Fault::Malformed,
        },
    ]);
    assert_eq!(s.at(2), Some(&Fault::Timeout));
}

#[test]
fn seed_zero_draws_a_known_schedule() {
    let s = FaultSchedule::generate(0, &[0, 1, 2], 4);
    assert_eq!(s.describe(), "#0 error(503), #1 error(503), #2 duplicate");
}

#[test]
fn truncation_keeps_whole_characters() {
    // As JSON the value is a quote, three four-byte characters, and a quote.
    let observed = Outcome::ok(Json::text("\u{1f600}\u{1f600}\u{1f600}"));
    let cut = Fault::Truncate { keep: 7 }.apply(&observed);
    assert_eq!(cut, Outcome::ok(Json::text("\"\u{1f600}")));
}

#[test]
fn faults_that_hide_nothing_leave_the_outcome() {
    let observed = Outcome::ok(json(r#"{"ok": true}"#));
    assert_eq!(Fault::Delay { ms: 900 }.apply(&observed), observed);
    assert_eq!(Fault::Duplicate.apply(&observed), observed);
    assert!(Fault::Reorder { seed: 1 }.is_scheduling());
    assert!(Fault::Exact { order: vec![1, 0] }.is_scheduling());
    assert!(!Fault::Timeout.is_scheduling());
}

#[test]
fn faults_have_labels_and_read_back() {
    let faults = vec![
        (Fault::Timeout, "timeout"),
        (Fault::Error { code: "429".into() }, "error(429)"),
        (Fault::Duplicate, "duplicate"),
        (Fault::Malformed, "malformed"),
    ];
    for (fault, label) in faults {
        assert_eq!(fault.label(), label);
        assert_eq!(Fault::from_json(&fault.to_json()), Some(fault));
    }
    let order = Fault::Exact { order: vec![2, 0, 1] };
    assert_eq!(Fault::from_json(&order.to_json()), Some(order));
    assert_eq!(Fault::from_json(&json(r#""no_such_fault""#)), None);
}

#[test]
fn requests_and_events_read_back() {
    let request = EffectRequest::tool("send", json(r#"{"n":-3,"to":"a"}"#));
    assert_eq!(EffectRequest::from_json(&request.to_json()), Some(request));
    let event = Event {
        seq: 1,
        kind: EffectKind::Model,
        name: "m".into(),
        identity: Digest::of(b"i"),
        request: Digest::of(b"r"),
        outcome: Digest::of(b"o"),
        fault: Some(Fault::Truncate { keep: 3 }),
        shadow: Some(Digest::of(b"s")),
        logical_time: 1,
        batch: Some(4),
    };
    assert_eq!(Event::from_json(&event.to_json()), Some(event));
}

#[test]
fn an_outcome_gives_its_value_only_on_success() {
    let value = json(r#"{"x": 1.5}"#);
    assert_eq!(Outcome::ok(value.clone()).value(), Some(&value));
    assert_eq!(Outcome::err("500", "boom").value(), None);
}

#[test]
fn some_seed_reorders_a_batch() {
    let found = (0..5000u64).find(|seed| {
        FaultSchedule::generate(*seed, &[0, 1, 2, 3], 2)
            .at(1)
            .is_some_and(Fault::is_scheduling)
    });
    assert!(found.is_some());
}
