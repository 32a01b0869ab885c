//! The worked examples, explored as sessions.

use samsara::cas::Cas;
use samsara::certificate::Verdict;
use samsara::command::{check_command, objects_dir, Options};
use samsara::demo::{demo_checkers, record_agent, version, Assembling, Session, Subject};
use samsara::event::{EffectKind, Outcome};
use samsara::explore::behaviour;
use samsara::fault::{Fault, FaultPoint, FaultSchedule};
use samsara::invariants::check_all;
use samsara::json::Json;
use samsara::replay::Effects;
use samsara::replayer::{Mode, Replayer};
use samsara::report::{show_trace, Line, Row};
use samsara::testkit::{drive_agent, drive_assembler, Agent, Assembly, FakeBackend, Style};
use samsara::ui;

fn read(text: &str) -> Json {
    Json::read(text.as_bytes()).expect("valid JSON")
}

fn field(json: &Json, name: &str) -> Json {
    read(&json.get(name).expect("the field is there").print())
}

fn items(json: &Json) -> usize {
    match json {
        Json::Array(items) => items.len(),
        _ => panic!("not a list"),
    }
}

#[test]
fn a_session_shows_a_clean_recording() {
    let session = Session::new("naive");
    let run = read(&session.recording());
    assert_eq!(items(&field(&run, "events")), session.trace.len());
    assert_eq!(items(&field(&run, "violations")), 0);
    assert_eq!(field(&run, "holes").print(), "0");
    assert_eq!(session.trace.header.label, "delete-stale-report");
}

#[test]
fn a_session_takes_its_style_from_a_word() {
    assert!(Session::new("idempotent").style == Style::Idempotent);
    assert!(Session::new("anything else").style == Style::Naive);
}

#[test]
fn a_fork_shows_what_a_lost_delete_does() {
    let mut session = Session::new("naive");
    let run = read(&session.fork(r#"{"points":[{"seq":1,"fault":{"type":"timeout"}}]}"#));
    assert_eq!(items(&field(&run, "violations")), 1);
    let mut fixed = Session::new("idempotent");
    let run = read(&fixed.fork(r#"{"points":[{"seq":1,"fault":{"type":"timeout"}}]}"#));
    assert_eq!(items(&field(&run, "violations")), 0);
}

#[test]
fn a_fork_of_nonsense_is_an_error() {
    let mut session = Session::new("naive");
    assert_eq!(
        session.fork("nonsense"),
        r#"{"error":"expected ident at line 1 column 2"}"#
    );
    assert_eq!(session.fork("7"), r#"{"error":"expected a fault schedule"}"#);
}

#[test]
fn a_search_in_a_session_finds_the_bug_of_one_style_only() {
    let mut session = Session::new("naive");
    let found = read(&session.search(500, 4));
    let shrunk = field(&found, "shrunk");
    assert_eq!(items(&field(&shrunk, "points")), 1);
    assert_eq!(Session::new("idempotent").search(100, 4), "null");
}

#[test]
fn a_session_gives_the_schedule_of_a_seed() {
    let session = Session::new("naive");
    let schedule = FaultSchedule::generate(7, &session.trace.faultable(), 4);
    assert_eq!(session.schedule_for_seed(7, 4), schedule.to_json().print());
}

#[test]
fn a_finding_is_reproduced_minimised_and_fixed() {
    let mut session = Session::of(Style::Naive);
    assert!(check_all(&session.trace, &session.cas, &demo_checkers()).is_empty());
    let finding = session.find(500, 4).expect("some seed breaks it");
    let again = session.evaluate(FaultSchedule::generate(
        finding.seed,
        &session.trace.faultable(),
        4,
    ));
    assert_eq!(again, finding.violations);
    for seed in 0..finding.seed {
        let schedule = FaultSchedule::generate(seed, &session.trace.faultable(), 4);
        assert!(schedule.is_empty() || session.evaluate(schedule).is_empty(), "seed {seed}");
    }
    let shrunk = session.minimise(&finding);
    assert_eq!(shrunk.schedule.len(), 1);
    let left: Vec<String> = session
        .evaluate(FaultSchedule::of(shrunk.schedule.points.clone()))
        .into_iter()
        .map(|v| v.invariant)
        .collect();
    let all: Vec<String> = finding.violations.iter().map(|v| v.invariant.clone()).collect();
    assert!(left.iter().all(|name| all.contains(name)), "{left:?} {all:?}");
    assert!(all.iter().all(|name| left.contains(name)), "{left:?} {all:?}");
    let mut fixed = Session::of(Style::Idempotent);
    assert!(fixed.find(200, 4).is_none());
    assert!(fixed.evaluate(shrunk.schedule).is_empty());
}

#[test]
fn the_recorded_delete_can_be_timed_out() {
    let mut session = Session::of(Style::Naive);
    let schedule = session.timed_out();
    assert_eq!(schedule.describe(), "#1 timeout");
    let result = session.replay(schedule, "counterfactual");
    assert_eq!(result.branch.header.label, "counterfactual");
    assert!(result.branch.events[1].fault == Some(Fault::Timeout));
    let deletes = result.branch.events.iter().filter(|e| e.name == "delete_file").count();
    assert_eq!(deletes, 2);
}

#[test]
fn every_scheduled_fault_fires_and_leaves_its_shadow() {
    let mut session = Session::of(Style::Naive);
    let schedule = FaultSchedule::of(vec![
        FaultPoint { seq: 1, fault: Fault::Timeout },
        FaultPoint { seq: 4, fault: Fault::Error { code: "503".to_string() } },
    ]);
    let branch = session.replay(schedule, "twice").branch;
    let faulted: Vec<u64> = branch
        .events
        .iter()
        .filter(|e| e.fault.is_some())
        .map(|e| e.seq)
        .collect();
    assert_eq!(faulted, [1, 4]);
    for event in branch.events.iter().filter(|e| e.fault.is_some()) {
        let shadow = event.shadow.as_ref().expect("what was hidden is kept");
        assert!(session.cas.get(shadow).unwrap().is_some());
        assert_ne!(*shadow, event.outcome);
    }
}

#[test]
fn a_lost_response_deletes_twice_in_the_world_too() {
    let lossy = record_agent(FakeBackend::new(1).lossy("delete_file", 1), Style::Naive, "live");
    assert!(lossy.report.succeeded);
    assert_eq!(lossy.deletes, 2);
    let backend = FakeBackend::new(1).lossy("delete_file", 1);
    let keyed = record_agent(backend, Style::Idempotent, "live");
    assert!(keyed.report.succeeded);
    assert_eq!(keyed.deletes, 1);
}

#[test]
fn the_order_of_arrival_shows_in_one_assembly_only() {
    let mut session = Assembling::of(Assembly::AsTheyArrive);
    assert_eq!(session.document, ["<intro>", "<summary>", "<appendix>"]);
    let finding = session.find_order(50).expect("some order matters");
    let (document, result) = session.replay(
        FaultSchedule::of(vec![FaultPoint {
            seq: finding.at_seq,
            fault: Fault::Reorder { seed: finding.seed },
        }]),
        "reordered",
    );
    assert_ne!(document, session.document);
    assert_eq!(document.len(), 3);
    assert_eq!(result.holes.len(), 1);
    assert!(Assembling::of(Assembly::ByRequestOrder).find_order(50).is_none());
}

#[test]
fn the_order_inside_a_batch_is_no_behaviour() {
    let session = Assembling::of(Assembly::AsTheyArrive);
    let recorded = behaviour(&session.trace);
    let mut swapped = session.trace.clone();
    swapped.events.swap(1, 3);
    assert_ne!(swapped.events[1].identity, session.trace.events[1].identity);
    assert_eq!(behaviour(&swapped), recorded);
    let mut moved = session.trace.clone();
    moved.events.swap(0, 4);
    assert_ne!(behaviour(&moved), recorded);
}

#[test]
fn the_subjects_are_certified() {
    let retry = Subject::Retry.sweep(false, 10_000);
    assert!(retry.verdict == Verdict::Broken);
    assert!(!retry.coverage.failures.is_empty());
    let fixed = Subject::Fixed.sweep(false, 10_000);
    assert!(fixed.verdict == Verdict::Clean);
    assert!(fixed.coverage.is_clean());
    assert_eq!(fixed.invariants, ["no_duplicate_effects", "terminates_within"]);
    let order = Subject::Order.sweep(false, 10_000);
    assert_eq!(order.interleavings.len(), 1);
    assert!(!order.interleavings[0].is_order_independent());
    assert_eq!(order.interleavings[0].total, 6);
}

#[test]
fn the_agent_can_be_driven_by_hand() {
    let mut agent = Agent::new(Style::Naive);
    let question = agent.question().expect("it asks for a plan");
    assert!(question.kind == EffectKind::Model);
    agent.hear(&Outcome::ok(read(r#"{"path":"/tmp/x"}"#)));
    for _ in 0..3 {
        assert_eq!(agent.question().expect("it tries").name, "delete_file");
        agent.hear(&Outcome::err("timeout", "lost"));
        assert!(agent.question().expect("it draws").kind == EffectKind::Random);
        agent.hear(&Outcome::ok(Json::whole(0)));
        assert!(agent.question().expect("it waits").kind == EffectKind::Clock);
        agent.hear(&Outcome::ok(Json::whole(1)));
    }
    assert!(agent.question().expect("it sums up").kind == EffectKind::Model);
    agent.hear(&Outcome::ok(Json::Null));
    assert!(agent.question().is_none());
    assert_eq!(agent.report().attempts, 3);
    assert!(!agent.report().succeeded);
}

#[test]
fn agents_drive_a_replay_to_the_same_end() {
    let mut session = Session::of(Style::Naive);
    let mut replayer = Replayer::new(&session.trace, &mut session.cas, Mode::Strict).unwrap();
    let report = drive_agent(&mut replayer, Style::Naive);
    assert!(report.succeeded);
    assert_eq!(report.attempts, 1);
    assert!(replayer.finish("again").is_faithful());

    let mut assembling = Assembling::of(Assembly::AsTheyArrive);
    let mut replayer =
        Replayer::new(&assembling.trace, &mut assembling.cas, Mode::Strict).unwrap();
    let document = drive_assembler(&mut replayer, Assembly::AsTheyArrive);
    assert_eq!(document, assembling.document);
    assert!(replayer.finish("again").is_faithful());
}

#[test]
fn a_closed_replay_asks_nothing_of_the_clock() {
    let mut session = Session::of(Style::Naive);
    let mut replayer = Replayer::new(
        &session.trace,
        &mut session.cas,
        Mode::Counterfactual { schedule: FaultSchedule::empty() },
    )
    .unwrap();
    let first = replayer.now_ms();
    let second = replayer.now_ms();
    assert!(second > first);
}

#[test]
fn a_trace_is_shown_row_by_row() {
    let mut session = Session::of(Style::Naive);
    let schedule = session.timed_out();
    let result = session.replay(schedule, "branch");
    let rows = show_trace(&result.branch, &session.cas, true);
    assert_eq!(
        rows[0],
        Row::Title {
            label: "branch".to_string(),
            engine: "samsara/0.1.0".to_string(),
            effects: result.branch.len(),
        }
    );
    assert_eq!(rows[1], Row::Schedule { text: "#1 timeout".to_string() });
    assert!(rows.contains(&Row::Injected { text: "timeout".to_string() }));
    let effects = rows.iter().filter(|r| matches!(r, Row::Effect { .. })).count();
    assert_eq!(effects, result.branch.len());
    let payloads = rows.iter().filter(|r| matches!(r, Row::Payload { .. })).count();
    assert_eq!(payloads, 2 * effects);
    assert!(show_trace(&session.trace, &session.cas, false)
        .iter()
        .all(|r| !matches!(r, Row::Payload { .. } | Row::Schedule { .. })));
}

#[test]
fn rows_and_lines_are_printed() {
    assert_eq!(ui::paint(true, "31", "x"), "\u{1b}[31mx\u{1b}[0m");
    assert_eq!(ui::paint(false, "31", "x"), "x");
    assert_eq!(ui::bold(true, "x"), "\u{1b}[1mx\u{1b}[0m");
    assert_eq!(ui::dim(true, "x"), "\u{1b}[2mx\u{1b}[0m");
    assert_eq!(ui::red(true, "x"), "\u{1b}[31mx\u{1b}[0m");
    assert_eq!(ui::green(true, "x"), "\u{1b}[32mx\u{1b}[0m");
    assert_eq!(ui::yellow(true, "x"), "\u{1b}[33mx\u{1b}[0m");
    assert_eq!(ui::cyan(true, "x"), "\u{1b}[36mx\u{1b}[0m");
    assert_eq!(ui::heading(false, 2, "x"), "\n2. x");
    assert_eq!(ui::ok(false, "x"), "  \u{2713} x");
    assert_eq!(ui::bad(false, "x"), "  \u{2717} x");
    assert_eq!(ui::info(false, "x"), "  \u{2022} x");
    let line = Line::Faults { text: "x".to_string() };
    assert_eq!(ui::print_line(false, &line), "     x");
    let row = Row::Payload { side: "req".to_string(), text: "{}".to_string() };
    assert_eq!(ui::print_row(false, &row), "       req {}");
    let row = Row::Effect { text: "x".to_string(), faulted: true };
    assert_eq!(ui::print_row(true, &row), "\u{1b}[33mx\u{1b}[0m");
}

#[test]
fn options_say_how_to_replay() {
    let session = Session::of(Style::Naive);
    let options = |seed, strict| Options {
        trace: "run.samsara.jsonl".to_string(),
        out: None,
        port: 8787,
        seed,
        max_faults: 4,
        strict,
        effectful: vec!["delete_file".to_string()],
        idempotency_key: None,
    };
    assert!(matches!(options(Some(7), true).mode(&session.trace), Mode::Strict));
    match options(None, false).mode(&session.trace) {
        Mode::Counterfactual { schedule } => assert!(schedule.is_empty()),
        Mode::Strict => panic!("nothing strict was asked for"),
    }
    match options(Some(7), false).mode(&session.trace) {
        Mode::Counterfactual { schedule } => {
            assert_eq!(schedule, FaultSchedule::generate(7, &session.trace.faultable(), 4));
        }
        Mode::Strict => panic!("nothing strict was asked for"),
    }
    let names: Vec<String> = options(None, false)
        .checkers()
        .iter()
        .map(|c| c.name().to_string())
        .collect();
    assert_eq!(names, ["no_duplicate_effects", "terminates_within"]);
}

#[test]
fn payloads_lie_beside_their_trace() {
    assert_eq!(objects_dir(Some("run.samsara.jsonl")), "run.samsara.objects");
    assert_eq!(objects_dir(Some("run")), "run.objects");
    assert_eq!(objects_dir(None), "trace.objects");
    assert_eq!(version(), "0.1.0");
}

#[test]
fn an_empty_command_is_nothing_to_run() {
    assert_eq!(
        check_command(&vec![]),
        Err("nothing to run: pass the agent command after `--`".to_string())
    );
    assert_eq!(check_command(&vec!["true".to_string()]), Ok(()));
}
