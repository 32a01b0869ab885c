//! Holding concurrent calls and releasing them in a chosen order.

use samsara::barrier::{answer_closed, batch_layout, Barrier, Entry};
use samsara::canon::Canonicalizer;
use samsara::cas::MemCas;
use samsara::event::{EffectRequest, Outcome};
use samsara::fault::{Fault, FaultPoint, FaultSchedule};
use samsara::json::Json;
use samsara::replay::{Effects, Recorder};
use samsara::replayer::{Mode, Replayer};
use samsara::testkit::{run_assembler, Assembly, FakeBackend};
use samsara::trace::Trace;

fn recorded() -> (Trace, MemCas) {
    let mut cas = MemCas::new();
    let mut recorder = Recorder::new(FakeBackend::new(1), &mut cas, Canonicalizer::default());
    run_assembler(&mut recorder, Assembly::AsTheyArrive);
    (recorder.finish("assemble-report"), cas)
}

fn section(name: &str) -> EffectRequest {
    EffectRequest::tool(
        "render_section",
        Json::object(vec![("name".to_string(), Json::text(name))]),
    )
}

/// Has the burst arrive in an order, and gives back what was answered, in the
/// order in which it was.
fn answered(arrivals: &[&str], fault: Option<Fault>) -> Vec<Outcome> {
    let (trace, mut cas) = recorded();
    let mut barrier = Barrier::new(&trace);
    let schedule = FaultSchedule::of(match fault {
        Some(fault) => vec![FaultPoint { seq: 1, fault }],
        None => vec![],
    });
    let mut replayer = Replayer::new(&trace, &mut cas, Mode::Counterfactual { schedule }).unwrap();
    let _ = replayer.perform(EffectRequest::model(
        "sonnet-4",
        Json::read(br#"{"step":"plan_sections","task":"assemble the report"}"#).unwrap(),
    ));
    assert!(replayer.is_faithful());

    let mut calls = vec![];
    for (i, name) in arrivals.iter().enumerate() {
        let (call, entry) = barrier.enter(section(name), Some(40));
        if i + 1 < arrivals.len() {
            assert!(matches!(entry, Entry::Gathering { expected: 3 }));
            assert!(!barrier.is_scheduled(40));
            assert_eq!(barrier.waiting(40), i + 1);
        } else {
            assert!(matches!(entry, Entry::Complete));
        }
        calls.push(call);
    }
    barrier.schedule(40, &mut replayer);
    assert!(barrier.is_scheduled(40));

    let mut out = vec![];
    while out.len() < arrivals.len() {
        let ready: Vec<&String> = calls.iter().filter(|c| barrier.my_turn(40, c)).collect();
        assert_eq!(ready.len(), 1, "one call at a time is answered");
        let call = ready[0].clone();
        out.push(barrier.answer(40, &call));
        barrier.advance(40);
        calls.retain(|c| *c != call);
    }
    assert!(!barrier.is_scheduled(40));
    out
}

#[test]
fn a_layout_lists_the_calls_of_each_burst() {
    let (trace, _) = recorded();
    let layout = batch_layout(&trace);
    assert_eq!(layout.len(), 1);
    let canon = Canonicalizer::default();
    let expected: Vec<_> = ["intro", "summary", "appendix"]
        .iter()
        .map(|n| section(n).identity(&canon))
        .collect();
    assert_eq!(layout[0], expected);
}

#[test]
fn replay_holds_concurrent_calls_and_releases_them_in_a_chosen_order() {
    let plain = answered(&["intro", "summary", "appendix"], None);
    assert_eq!(plain.len(), 3);
    assert!(plain.iter().all(|o| o.is_ok()));

    let turned = answered(
        &["intro", "summary", "appendix"],
        Some(Fault::Exact { order: vec![2, 0, 1] }),
    );
    assert_eq!(
        turned,
        vec![plain[2].clone(), plain[0].clone(), plain[1].clone()]
    );
}

#[test]
fn the_order_of_arrival_is_immaterial() {
    for fault in [None, Some(Fault::Reorder { seed: 0 }), Some(Fault::Reorder { seed: 9 })] {
        let first = answered(&["intro", "summary", "appendix"], fault.clone());
        for arrivals in [
            ["appendix", "summary", "intro"],
            ["summary", "intro", "appendix"],
            ["appendix", "intro", "summary"],
        ] {
            assert_eq!(answered(&arrivals, fault.clone()), first);
        }
    }
}

#[test]
fn seed_zero_turns_three_calls_round() {
    assert_eq!(
        Fault::Reorder { seed: 0 }.permutation(3),
        Some(vec![2, 1, 0])
    );
}

#[test]
fn a_call_outside_a_burst_passes() {
    let (trace, _) = recorded();
    let mut barrier = Barrier::new(&trace);
    let (call, entry) = barrier.enter(section("intro"), None);
    assert_eq!(call, "c0");
    assert!(matches!(entry, Entry::Alone { .. }));
    // A second burst was never recorded, so nothing is to be waited for.
    let _ = barrier.enter(section("intro"), Some(1));
    let (call, entry) = barrier.enter(section("intro"), Some(2));
    assert_eq!(call, "c2");
    assert!(matches!(entry, Entry::Alone { .. }));
    barrier.reset();
    let (call, _) = barrier.enter(section("intro"), None);
    assert_eq!(call, "c0");
}

#[test]
fn the_barrier_gives_up_rather_than_hanging() {
    // Two of three calls arrive. Scheduling what is there answers them.
    let (trace, mut cas) = recorded();
    let mut replayer = Replayer::new(
        &trace,
        &mut cas,
        Mode::Counterfactual {
            schedule: FaultSchedule::empty(),
        },
    )
    .unwrap();
    let mut barrier = Barrier::new(&trace);
    let (summary, _) = barrier.enter(section("summary"), Some(3));
    let (intro, _) = barrier.enter(section("intro"), Some(3));
    barrier.schedule(3, &mut replayer);
    assert!(barrier.my_turn(3, &intro), "in recorded order");
    assert!(!barrier.my_turn(3, &summary));
    assert!(barrier.answer(3, &intro).is_ok());
    barrier.advance(3);
    assert!(barrier.my_turn(3, &summary));
    assert!(barrier.answer(3, &summary).is_ok());
    barrier.advance(3);

    // What never was in the burst is told so.
    assert_eq!(
        barrier.answer(3, &summary),
        Outcome::err("samsara_unscheduled", "call was not scheduled with its batch")
    );
}

#[test]
fn a_closed_session_answers_with_an_error() {
    let (trace, _) = recorded();
    let mut barrier = Barrier::new(&trace);
    let (a, _) = barrier.enter(section("intro"), Some(0));
    barrier.schedule_closed(0);
    assert_eq!(barrier.answer(0, &a), answer_closed());
    assert_eq!(
        answer_closed(),
        Outcome::err("samsara_finished", "replay session already closed")
    );
}
