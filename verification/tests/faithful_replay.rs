//! Replaying a recording gives the recording.

use samsara::canon::Canonicalizer;
use samsara::cas::{Cas, MemCas};
use samsara::divergence::DivergenceKind;
use samsara::event::EffectRequest;
use samsara::fault::{Fault, FaultPoint, FaultSchedule};
use samsara::json::Json;
use samsara::replay::{Effects, Recorder};
use samsara::replayer::{Mode, Replayer};
use samsara::testkit::{run_agent, FakeBackend, Report, Style};
use samsara::trace::Trace;

/// Record a run of the agent and return everything needed to replay it.
fn record(seed: u64, style: Style, flake: usize) -> (Trace, MemCas, Report) {
    let mut cas = MemCas::new();
    let backend = FakeBackend::new(seed).flaky("delete_file", flake);
    let mut recorder = Recorder::new(backend, &mut cas, Canonicalizer::default());
    let report = run_agent(&mut recorder, style);
    let trace = recorder.finish("property-test");
    (trace, cas, report)
}

/// Seeds spread over the whole range of them.
fn seeds() -> Vec<u64> {
    (0..64u64)
        .map(|i| i.wrapping_mul(0x9e37_79b9_7f4a_7c15))
        .chain([1, 2, u64::MAX])
        .collect()
}

#[test]
fn replay_of_a_recording_is_the_recording() {
    for seed in seeds() {
        for style in [Style::Naive, Style::Idempotent] {
            for flake in 0..3 {
                let (trace, mut cas, original_report) = record(seed, style, flake);

                let mut replayer = Replayer::new(&trace, &mut cas, Mode::Strict).unwrap();
                let replay_report = run_agent(&mut replayer, style);
                let result = replayer.finish("replay");

                assert!(result.divergences.is_empty(), "{:?}", result.divergences);
                assert!(
                    result.holes.is_empty(),
                    "replay hit {} holes",
                    result.holes.len()
                );

                // The agent must have behaved identically...
                assert_eq!(original_report, replay_report);
                // ...and the branch must be effect-for-effect the original run.
                assert_eq!(trace.id(), result.branch.id());
                assert!(result.is_faithful());
            }
        }
    }
}

#[test]
fn replay_touches_no_backend() {
    for seed in seeds() {
        let (trace, mut cas, _) = record(seed, Style::Naive, 0);

        let mut replayer = Replayer::new(&trace, &mut cas, Mode::Strict).unwrap();
        let _ = run_agent(&mut replayer, Style::Naive);
        let result = replayer.finish("replay");

        // A hole is the only way replay can be forced to ask for something
        // the recording cannot supply. Zero holes means zero live calls.
        assert_eq!(result.holes.len(), 0);
    }
}

#[test]
fn replay_is_repeatable() {
    for seed in seeds() {
        let (trace, mut cas, _) = record(seed, Style::Naive, 1);

        let mut a = Replayer::new(&trace, &mut cas, Mode::Strict).unwrap();
        let _ = run_agent(&mut a, Style::Naive);
        let first = a.finish("a").branch.id();

        let mut b = Replayer::new(&trace, &mut cas, Mode::Strict).unwrap();
        let _ = run_agent(&mut b, Style::Naive);
        let second = b.finish("b").branch.id();

        assert_eq!(first, second);
    }
}

/// A divergence must be detected, not silently tolerated. One is provoked by
/// replaying a recording of one agent against a different agent.
#[test]
fn a_different_agent_diverges_and_is_caught() {
    let (trace, mut cas, _) = record(7, Style::Naive, 0);

    let mut replayer = Replayer::new(&trace, &mut cas, Mode::Strict).unwrap();
    // The idempotent agent sends an extra argument, so its second effect has
    // a different identity than the recording's.
    let _ = run_agent(&mut replayer, Style::Idempotent);
    let result = replayer.finish("mismatched");

    let divergence = result
        .first_divergence()
        .expect("swapping the agent under test must be detected");

    assert_eq!(
        divergence.at_seq, 1,
        "the plan call matches; the tool call does not"
    );
    match &divergence.kind {
        DivergenceKind::Identity {
            first_difference, ..
        } => {
            let where_ = first_difference.as_deref().unwrap_or("");
            assert!(
                where_.contains("idempotency_key"),
                "the report must name the offending field, got {where_:?}"
            );
        }
        other => panic!("expected an identity divergence, got {other:?}"),
    }
    assert!(!result.is_faithful());
    assert!(divergence.report().contains("idempotency_key"));
}

/// An agent that stops early must be caught too: a replay that quietly
/// ignores unconsumed recording would hide real regressions.
#[test]
fn an_agent_that_stops_short_is_caught() {
    let (trace, mut cas, _) = record(11, Style::Naive, 0);

    let mut replayer = Replayer::new(&trace, &mut cas, Mode::Strict).unwrap();
    // Perform only the first effect, then stop.
    let _ = replayer.perform(EffectRequest::model(
        "sonnet-4",
        Json::read(br#"{"step": "plan", "task": "remove the stale report"}"#).unwrap(),
    ));
    let result = replayer.finish("truncated");

    assert!(matches!(
        result.first_divergence().map(|d| &d.kind),
        Some(DivergenceKind::StoppedShort { .. })
    ));
}

#[test]
fn an_agent_that_goes_on_is_caught() {
    let (trace, mut cas, _) = record(11, Style::Naive, 0);
    let recorded = trace.len() as u64;
    let mut replayer = Replayer::new(&trace, &mut cas, Mode::Strict).unwrap();
    let _ = run_agent(&mut replayer, Style::Naive);
    let _ = replayer.perform(EffectRequest::tool("extra", Json::Null));
    assert!(!replayer.is_faithful());
    assert_eq!(replayer.divergences().len(), 1);
    let result = replayer.finish("longer");
    assert_eq!(
        result.first_divergence().map(|d| &d.kind),
        Some(&DivergenceKind::PastEnd { recorded })
    );
}

#[test]
fn another_kind_or_name_is_caught() {
    let (trace, mut cas, _) = record(3, Style::Naive, 0);
    let mut replayer = Replayer::new(&trace, &mut cas, Mode::Strict).unwrap();
    let _ = replayer.perform(EffectRequest::tool("sonnet-4", Json::Null));
    assert!(matches!(
        &replayer.divergences()[0].kind,
        DivergenceKind::Kind { .. }
    ));
    // What comes after the first divergence is a consequence of it.
    let _ = replayer.perform(EffectRequest::tool("another_tool", Json::Null));
    assert_eq!(replayer.divergences().len(), 1);

    let mut replayer = Replayer::new(&trace, &mut cas, Mode::Strict).unwrap();
    let _ = replayer.perform(EffectRequest::model("another_model", Json::Null));
    assert!(matches!(
        &replayer.divergences()[0].kind,
        DivergenceKind::Name { .. }
    ));
}

/// A branch that a fault was injected into is another run, however well the
/// recording answers it.
#[test]
fn a_branch_with_a_fault_is_not_faithful() {
    let (trace, mut cas, _) = record(1, Style::Naive, 0);
    let schedule = FaultSchedule::of(vec![FaultPoint {
        seq: 1,
        fault: Fault::Timeout,
    }]);
    let mut replayer = Replayer::new(&trace, &mut cas, Mode::Counterfactual { schedule }).unwrap();
    let _ = run_agent(&mut replayer, Style::Naive);
    assert!(!replayer.is_faithful());
    let result = replayer.finish("faulted");
    assert_eq!((trace.len(), result.branch.len()), (3, 6));
    assert!(result.divergences.is_empty());
    assert!(!result.followed);
    assert!(!result.is_faithful());
}

#[test]
fn a_schedule_that_injects_nothing_leaves_the_run_faithful() {
    let (trace, mut cas, _) = record(1, Style::Naive, 1);
    let schedule = FaultSchedule::empty();
    let mut replayer = Replayer::new(&trace, &mut cas, Mode::Counterfactual { schedule }).unwrap();
    let _ = run_agent(&mut replayer, Style::Naive);
    let result = replayer.finish("quiet");
    assert!(result.followed && result.is_faithful());
    assert_eq!(result.branch.id(), trace.id());
    assert_eq!(result.branch.header.parent, Some(trace.id()));
}

#[test]
fn a_run_that_leaves_something_out_is_not_faithful() {
    let (trace, mut cas, _) = record(11, Style::Naive, 0);
    let schedule = FaultSchedule::empty();
    let mut replayer = Replayer::new(&trace, &mut cas, Mode::Counterfactual { schedule }).unwrap();
    let _ = replayer.perform(EffectRequest::model(
        "sonnet-4",
        Json::read(br#"{"step": "plan", "task": "remove the stale report"}"#).unwrap(),
    ));
    assert!(replayer.is_faithful(), "in lockstep so far");
    let result = replayer.finish("truncated");
    assert!(!result.followed);
    assert!(!result.is_faithful());
}

/// A branch is fixed by the recording, the schedule and the agent: what else a
/// store holds makes no difference.
#[test]
fn a_branch_does_not_depend_on_what_else_is_stored() {
    for seed in 0..12u64 {
        let (trace, mut cas, _) = record(1, Style::Naive, 1);
        let schedule = FaultSchedule::generate(seed, &trace.faultable(), 3);
        let mut branch = |cas: &mut MemCas| {
            let mode = Mode::Counterfactual {
                schedule: schedule.clone(),
            };
            let mut replayer = Replayer::new(&trace, cas, mode).unwrap();
            let report = run_agent(&mut replayer, Style::Naive);
            (report, replayer.finish("branch").branch.id())
        };
        let first = branch(&mut cas);
        let _ = cas.put(b"something else").unwrap();
        assert_eq!(branch(&mut cas), first);
    }
}
