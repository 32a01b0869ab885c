//! Reports and timelines.

use samsara::canon::Canonicalizer;
use samsara::cas::MemCas;
use samsara::certificate::Certificate;
use samsara::config::Checker;
use samsara::coverage::sweep;
use samsara::divergence::first_difference;
use samsara::explore::{behaviour, first_difference_at};
use samsara::fault::FaultSchedule;
use samsara::invariants::{check_all, Violation};
use samsara::json::Json;
use samsara::replay::Recorder;
use samsara::replayer::{Mode, Replayer};
use samsara::report::{
    command_checkers, report_checks, report_replay, report_sweep, truncate, Line,
};
use samsara::testkit::{run_agent, FakeBackend, Style};
use samsara::timeline::{
    fork, payload, read_schedule, schedule_for_seed, show_run, show_schedule, show_search,
    style_named,
};
use samsara::trace::Trace;

fn json(text: &str) -> Json {
    Json::read(text.as_bytes()).expect("valid JSON")
}

fn checkers() -> Vec<Checker> {
    command_checkers(
        vec!["delete_file".to_string()],
        Some("idempotency_key"),
        24,
        None,
    )
}

fn record(style: Style) -> (Trace, MemCas) {
    let mut cas = MemCas::new();
    let mut recorder = Recorder::new(FakeBackend::new(1), &mut cas, Canonicalizer::default());
    run_agent(&mut recorder, style);
    (recorder.finish("delete-stale-report"), cas)
}

fn naive(r: &mut Replayer<'_, MemCas>) {
    run_agent(r, Style::Naive);
}

fn fixed(r: &mut Replayer<'_, MemCas>) {
    run_agent(r, Style::Idempotent);
}

#[test]
fn a_sweep_is_reported_line_by_line() {
    let (trace, mut cas) = record(Style::Naive);
    let coverage = sweep(&trace, &mut cas, &checkers(), 1000, false, naive);
    let c = Certificate::new(trace.id(), "run".into(), vec![], coverage, vec![]);
    let lines = report_sweep(&c);
    assert_eq!(
        lines[0],
        Line::Heading {
            number: 1,
            title: "What was checked".into()
        }
    );
    assert_eq!(
        lines[1],
        Line::Note {
            text: "3 faultable positions \u{d7} 5 fault kinds".into()
        }
    );
    assert_eq!(
        lines[2],
        Line::Note {
            text: "15 single-fault schedules (all of them)".into()
        }
    );
    assert!(lines.contains(&Line::Note {
        text: "15 replays total (15 fault, 0 ordering)".into()
    }));
    assert!(lines.contains(&Line::Bad {
        text: "2 of 15 single faults break it".into()
    }));
    assert!(lines.contains(&Line::Faults {
        text: "#1 timeout".into()
    }));
}

#[test]
fn strict_replay_of_an_unchanged_agent_finds_no_divergence() {
    let (trace, mut cas) = record(Style::Naive);
    let mut replayer = Replayer::new(&trace, &mut cas, Mode::Strict).unwrap();
    naive(&mut replayer);
    let result = replayer.finish("replay");
    let violations = check_all(&result.branch, &cas, &checkers());
    let (lines, failed) = report_replay(&result, true, &violations);
    assert!(!failed);
    assert_eq!(
        lines[0],
        Line::Good {
            text: "no divergence: the agent asked exactly what it asked before".into()
        }
    );
}

#[test]
fn strict_replay_catches_an_agent_that_changed() {
    let (trace, mut cas) = record(Style::Naive);
    let mut replayer = Replayer::new(&trace, &mut cas, Mode::Strict).unwrap();
    fixed(&mut replayer);
    let result = replayer.finish("replay");
    let (lines, failed) = report_replay(&result, true, &vec![]);
    assert!(failed);
    assert!(matches!(&lines[0], Line::Bad { text } if text.contains("idempotency_key")));
    let (lines, failed) = report_replay(&result, false, &vec![]);
    assert!(!failed, "after a fault divergence is the point");
    assert!(matches!(&lines[0], Line::Note { .. }));
}

#[test]
fn a_fault_makes_the_agent_retry_and_duplicate_its_side_effect() {
    let (trace, mut cas) = record(Style::Naive);
    let schedule = read_schedule(r#"{"points":[{"seq":1,"fault":{"type":"timeout"}}]}"#).unwrap();
    let mut replayer = Replayer::new(&trace, &mut cas, Mode::Counterfactual { schedule }).unwrap();
    naive(&mut replayer);
    let result = replayer.finish("replay");
    let violations = check_all(&result.branch, &cas, &checkers());
    let (lines, failed) = report_replay(&result, false, &violations);
    assert!(failed);
    assert!(lines.iter().any(
        |l| matches!(l, Line::Bad { text } if text.contains("no_duplicate_effects"))
    ));
}

#[test]
fn replay_writes_a_branch_that_records_its_parent() {
    let (trace, mut cas) = record(Style::Naive);
    let schedule = FaultSchedule::generate(0, &trace.faultable(), 4);
    let mode = Mode::Counterfactual {
        schedule: schedule.clone(),
    };
    let mut replayer = Replayer::new(&trace, &mut cas, mode).unwrap();
    naive(&mut replayer);
    let branch = replayer.finish("replay").branch;
    assert_eq!(branch.header.parent, Some(trace.id()));
    assert_eq!(branch.header.schedule, Some(schedule));
    assert_eq!(Trace::read(&branch.to_jsonl()).unwrap(), branch);
}

#[test]
fn checks_are_reported() {
    assert_eq!(
        report_checks(5, &vec![]),
        vec![Line::Good {
            text: "5 effects, no violations".into()
        }]
    );
    let v = Violation {
        invariant: "terminates".into(),
        at_seq: None,
        detail: "too long".into(),
    };
    let text = v.report();
    assert_eq!(report_checks(5, &vec![v]), vec![Line::Bad { text }]);
}

#[test]
fn a_command_line_gives_its_checkers() {
    let names: Vec<String> = command_checkers(vec![], None, 256, Some(10))
        .iter()
        .map(|c| c.name().to_string())
        .collect();
    assert_eq!(names.len(), 3);
    assert_eq!(names[0], "no_duplicate_effects");
    assert_eq!(command_checkers(vec![], None, 256, None).len(), 2);
}

#[test]
fn small_texts_are_laid_out() {
    assert_eq!(truncate("a\nb", 10), "a b");
    assert_eq!(truncate("abcdef", 3), "abc\u{2026}");
}

#[test]
fn a_timeline_shows_payloads_inline() {
    let (trace, mut cas) = record(Style::Naive);
    let shown = json(&show_run(&trace, &cas, &vec![], 0));
    let events = match shown.get("events") {
        Some(Json::Array(events)) => events,
        other => panic!("expected events, got {other:?}"),
    };
    assert_eq!(events.len(), trace.len());
    assert_eq!(
        events[1].get("request"),
        Some(&payload(&cas, &trace.events[1].request))
    );
    assert_eq!(shown.get("holes"), Some(&Json::whole(0)));

    let branch = json(&fork(
        &trace,
        &mut cas,
        r#"{"points":[{"seq":1,"fault":{"type":"timeout"}}]}"#,
        &checkers(),
        naive,
    ));
    match branch.get("violations") {
        Some(Json::Array(violations)) => assert_eq!(violations.len(), 1),
        other => panic!("expected violations, got {other:?}"),
    }
    let refused = json(&fork(&trace, &mut cas, "{", &checkers(), naive));
    assert!(refused.get("error").is_some());
}

#[test]
fn a_search_is_shown_with_its_minimum() {
    let (trace, mut cas) = record(Style::Naive);
    let found = json(&show_search(&trace, &mut cas, 500, 4, &checkers(), naive));
    assert_eq!(found.get("seed"), Some(&Json::whole(0)));
    assert_eq!(
        found.get("shrunk_description"),
        Some(&Json::text("#1 error(503)"))
    );
    assert_eq!(found.get("evaluations"), Some(&Json::whole(4)));

    let (trace, mut cas) = record(Style::Idempotent);
    assert_eq!(
        show_search(&trace, &mut cas, 50, 4, &checkers(), fixed),
        "null"
    );
}

#[test]
fn schedules_are_written_and_read() {
    let (trace, _) = record(Style::Naive);
    let text = schedule_for_seed(&trace, 0, 4);
    let schedule = read_schedule(&text).unwrap();
    assert_eq!(
        schedule.describe(),
        "#0 error(503), #1 error(503), #2 duplicate"
    );
    assert_eq!(show_schedule(&schedule), text);
    assert_eq!(read_schedule("[]").unwrap_err(), "expected a fault schedule");
    assert_eq!(
        read_schedule("[1,").unwrap_err(),
        "EOF while parsing a value at line 1 column 3"
    );
    assert_eq!(style_named("idempotent"), Style::Idempotent);
    assert_eq!(style_named("anything"), Style::Naive);
}

#[test]
fn the_first_difference_between_documents_is_located() {
    let a = json(r#"{"a":1,"b":{"c":[1,2]}}"#);
    let b = json(r#"{"a":1,"b":{"c":[1,3]}}"#);
    let found = first_difference(&a, &b, "").expect("they differ");
    assert!(found.contains("b.c"), "{found}");
    assert_eq!(first_difference(&a, &a, ""), None);
}

#[test]
fn zeros_do_not_differ_by_their_sign() {
    let zeros = json(r#"{"a":[0.0,-0.0]}"#);
    let other = json(r#"{"a":[-0.0,0.0]}"#);
    assert_eq!(first_difference(&zeros, &other, ""), None);
    assert!(first_difference(&json("0.0"), &json("0"), "").is_some());
    assert!(first_difference(&json("0.5"), &json("-0.5"), "").is_some());
}

#[test]
fn behaviours_are_compared_by_position() {
    let (trace, _) = record(Style::Naive);
    let deeds = behaviour(&trace);
    assert_eq!(deeds.len(), trace.len());
    assert_eq!(first_difference_at(&deeds, &deeds), None);
    let mut other = deeds.clone();
    other[2] = "else".into();
    assert_eq!(first_difference_at(&deeds, &other), Some(2));
    other.truncate(1);
    assert_eq!(first_difference_at(&deeds, &other), Some(1));
}

#[test]
fn the_least_key_that_differs_is_named() {
    let a = json(r#"{"b":1,"a":{"x":[1]},"c":3}"#);
    let b = json(r#"{"c":4,"a":{"x":[1]},"d":3}"#);
    assert_eq!(first_difference(&a, &b, "").as_deref(), Some("b (missing on replay)"));
    assert_eq!(first_difference(&b, &a, "").as_deref(), Some("b (added on replay)"));
    let c = json(r#"{"a":{"x":[1,2]},"b":1,"c":3}"#);
    assert_eq!(first_difference(&a, &c, "").as_deref(), Some("a.x.1 (length 1 vs 2)"));
    assert_eq!(first_difference(&c, &a, "").as_deref(), Some("a.x.1 (length 2 vs 1)"));
    assert_eq!(first_difference(&a, &json(r#"{"c":3,"b":1,"a":{"x":[1]}}"#), ""), None);
    assert_eq!(first_difference(&a, &Json::Null, "").as_deref(), Some("(root)"));
}
