//! What a run must keep to.

use samsara::canon::Canonicalizer;
use samsara::cas::{Cas, MemCas};
use samsara::event::{EffectKind, EffectRequest, Event, Outcome};
use samsara::fault::Fault;
use samsara::invariants::{
    check_all, landing, Invariant, Landing, MaxCalls, NeverAfterFailure, NoDuplicateEffects,
    Requires, TerminatesWithin, TokenBudget,
};
use samsara::json::Json;
use samsara::trace::{Trace, TraceHeader};

struct Row {
    kind: EffectKind,
    name: &'static str,
    args: Json,
    outcome: Outcome,
    fault: Option<Fault>,
    shadow: Option<Outcome>,
}

fn json(text: &str) -> Json {
    Json::read(text.as_bytes()).expect("valid JSON")
}

/// A plain effect with no tampering.
fn row(kind: EffectKind, name: &'static str, args: Json, outcome: Outcome) -> Row {
    Row {
        kind,
        name,
        args,
        outcome,
        fault: None,
        shadow: None,
    }
}

/// An effect whose real outcome was suppressed by an injected fault, which is
/// what a counterfactual branch contains.
fn faulted(name: &'static str, args: Json, real: Outcome, f: Fault) -> Row {
    Row {
        kind: EffectKind::Tool,
        name,
        outcome: f.apply(&real),
        args,
        fault: Some(f),
        shadow: Some(real),
    }
}

fn put(cas: &mut MemCas, value: Json) -> samsara::hash::Digest {
    cas.put(value.print().as_bytes()).unwrap()
}

fn build(rows: Vec<Row>) -> (Trace, MemCas) {
    let mut cas = MemCas::new();
    let canon = Canonicalizer::exact();
    let mut events = Vec::new();
    for (seq, r) in rows.into_iter().enumerate() {
        let request = EffectRequest {
            kind: r.kind,
            name: r.name.into(),
            body: r.args.clone(),
        };
        let request_digest = put(&mut cas, request.to_json());
        let outcome_digest = put(&mut cas, r.outcome.to_json());
        let shadow = r.shadow.map(|o| put(&mut cas, o.to_json()));
        events.push(Event {
            seq: seq as u64,
            kind: r.kind,
            name: r.name.into(),
            identity: request.identity(&canon),
            request: request_digest,
            outcome: outcome_digest,
            fault: r.fault,
            shadow,
            logical_time: seq as u64,
            batch: None,
        });
    }
    (
        Trace {
            header: TraceHeader::default(),
            events,
        },
        cas,
    )
}

fn ok() -> Outcome {
    Outcome::ok(json(r#"{"ok": true}"#))
}

fn path(p: &str) -> Json {
    Json::object(vec![("path".to_string(), Json::text(p))])
}

// -- landing semantics ------------------------------------------------------

#[test]
fn a_definite_rejection_did_not_land() {
    let (t, cas) = build(vec![row(
        EffectKind::Tool,
        "delete_file",
        path("/x"),
        Outcome::err("400", "bad path"),
    )]);
    assert_eq!(landing(&t.events[0], &cas), Landing::No);
}

#[test]
fn a_timeout_might_have_landed() {
    let (t, cas) = build(vec![row(
        EffectKind::Tool,
        "delete_file",
        path("/x"),
        Outcome::err("timeout", "no response"),
    )]);
    assert_eq!(landing(&t.events[0], &cas), Landing::Maybe);
}

#[test]
fn an_injected_timeout_over_a_success_definitely_landed() {
    // This is the whole reason the shadow field exists.
    let (t, cas) = build(vec![faulted("delete_file", path("/x"), ok(), Fault::Timeout)]);
    assert_eq!(landing(&t.events[0], &cas), Landing::Yes);
}

#[test]
fn a_fault_over_a_timeout_leaves_it_open() {
    let over = |code: &str| {
        let real = Outcome::err(code, "no response");
        let (t, cas) = build(vec![faulted("delete_file", path("/x"), real, Fault::Timeout)]);
        landing(&t.events[0], &cas)
    };
    assert_eq!(over("timeout"), Landing::Maybe);
    assert_eq!(over("503"), Landing::Maybe);
    assert_eq!(over("400"), Landing::No);
}

// -- duplicate effects ------------------------------------------------------

#[test]
fn the_flagship_bug_is_caught_with_certainty() {
    // Call one is timed out by injection but really succeeded; the agent
    // believes it failed and retries; the retry succeeds for real.
    let (t, cas) = build(vec![
        faulted("delete_file", path("/x"), ok(), Fault::Timeout),
        row(EffectKind::Tool, "delete_file", path("/x"), ok()),
    ]);
    let v = NoDuplicateEffects::all().check(&t, &cas);
    assert_eq!(v.len(), 1);
    assert_eq!(v[0].at_seq, Some(1));
    assert!(v[0].detail.contains("happened twice"), "{}", v[0].detail);
}

#[test]
fn a_real_timeout_yields_the_hedged_wording() {
    // Without a shadow we cannot know, and must not claim to.
    let (t, cas) = build(vec![
        row(
            EffectKind::Tool,
            "charge",
            json(r#"{"amt": 5}"#),
            Outcome::err("503", "gateway"),
        ),
        row(EffectKind::Tool, "charge", json(r#"{"amt": 5}"#), ok()),
    ]);
    let v = NoDuplicateEffects::all().check(&t, &cas);
    assert_eq!(v.len(), 1);
    assert!(v[0].detail.contains("may already"), "{}", v[0].detail);
}

#[test]
fn a_retry_after_a_definite_rejection_is_correct_behaviour() {
    let (t, cas) = build(vec![
        row(
            EffectKind::Tool,
            "delete_file",
            path("/x"),
            Outcome::err("400", "bad"),
        ),
        row(EffectKind::Tool, "delete_file", path("/x"), ok()),
    ]);
    assert!(NoDuplicateEffects::all().check(&t, &cas).is_empty());
}

#[test]
fn an_idempotency_key_exempts_the_retry() {
    // The industry fix: a key stable across attempts. Retrying is now
    // correct, and flagging it would be a false positive.
    let args = json(r#"{"path": "/x", "idempotency_key": "task-1"}"#);
    let (t, cas) = build(vec![
        faulted("delete_file", args.clone(), ok(), Fault::Timeout),
        row(EffectKind::Tool, "delete_file", args, ok()),
    ]);

    assert_eq!(NoDuplicateEffects::all().check(&t, &cas).len(), 1);
    assert!(NoDuplicateEffects::all()
        .exempting_idempotent("idempotency_key")
        .check(&t, &cas)
        .is_empty());
}

#[test]
fn a_null_idempotency_key_does_not_count_as_one() {
    let args = json(r#"{"path": "/x", "idempotency_key": null}"#);
    let (t, cas) = build(vec![
        row(EffectKind::Tool, "delete_file", args.clone(), ok()),
        row(EffectKind::Tool, "delete_file", args, ok()),
    ]);
    assert_eq!(
        NoDuplicateEffects::all()
            .exempting_idempotent("idempotency_key")
            .check(&t, &cas)
            .len(),
        1
    );
}

#[test]
fn different_arguments_are_different_effects() {
    let (t, cas) = build(vec![
        row(EffectKind::Tool, "delete_file", path("/x"), ok()),
        row(EffectKind::Tool, "delete_file", path("/y"), ok()),
    ]);
    assert!(NoDuplicateEffects::all().check(&t, &cas).is_empty());
}

#[test]
fn model_calls_are_never_duplicates_however_repeated() {
    let (t, cas) = build(vec![
        row(EffectKind::Model, "sonnet", json(r#"{"p": 1}"#), ok()),
        row(EffectKind::Model, "sonnet", json(r#"{"p": 1}"#), ok()),
    ]);
    assert!(NoDuplicateEffects::all().check(&t, &cas).is_empty());
}

#[test]
fn the_watch_list_filters_idempotent_tools() {
    let (t, cas) = build(vec![
        row(EffectKind::Tool, "read_file", path("/x"), ok()),
        row(EffectKind::Tool, "read_file", path("/x"), ok()),
    ]);
    assert!(NoDuplicateEffects::only(vec!["delete_file".to_string()])
        .check(&t, &cas)
        .is_empty());
    assert_eq!(NoDuplicateEffects::all().check(&t, &cas).len(), 1);
}

// -- the others -------------------------------------------------------------

#[test]
fn termination_budget_is_inclusive() {
    let (t, cas) = build(vec![
        row(EffectKind::Tool, "t", Json::whole(1), ok()),
        row(EffectKind::Tool, "t", Json::whole(2), ok()),
    ]);
    assert!(
        TerminatesWithin(2).check(&t, &cas).is_empty(),
        "exactly at budget is fine"
    );
    assert_eq!(TerminatesWithin(1).check(&t, &cas).len(), 1);
}

#[test]
fn token_budget_sums_usage_and_ignores_responses_without_it() {
    let usage = |i: u64, o: u64| {
        Outcome::ok(Json::object(vec![(
            "usage".to_string(),
            Json::object(vec![
                ("input_tokens".to_string(), Json::whole(i)),
                ("output_tokens".to_string(), Json::whole(o)),
            ]),
        )]))
    };
    let (t, cas) = build(vec![
        row(EffectKind::Model, "m", Json::whole(1), usage(100, 50)),
        row(
            EffectKind::Model,
            "m",
            Json::whole(2),
            Outcome::ok(json(r#"{"text": "no usage"}"#)),
        ),
        row(EffectKind::Model, "m", Json::whole(3), usage(200, 25)),
    ]);
    assert!(
        TokenBudget(400).check(&t, &cas).is_empty(),
        "375 is under 400"
    );
    let v = TokenBudget(300).check(&t, &cas);
    assert_eq!(v.len(), 1);
    assert_eq!(
        v[0].at_seq,
        Some(2),
        "reports where the budget was first breached"
    );
}

#[test]
fn check_all_aggregates() {
    let (t, cas) = build(vec![
        row(EffectKind::Tool, "delete_file", path("/x"), ok()),
        row(EffectKind::Tool, "delete_file", path("/x"), ok()),
    ]);
    let invariants: Vec<Box<dyn Invariant<MemCas>>> = vec![
        Box::new(NoDuplicateEffects::all()),
        Box::new(TerminatesWithin(1)),
    ];
    assert_eq!(check_all(&t, &cas, &invariants).len(), 2);
}

#[test]
fn a_tool_may_be_called_only_so_often() {
    let (t, cas) = build(vec![
        row(EffectKind::Tool, "send", Json::whole(1), ok()),
        row(EffectKind::Tool, "send", Json::whole(2), ok()),
        row(EffectKind::Model, "send", Json::whole(3), ok()),
    ]);
    let most = |max: usize| MaxCalls {
        tool: "send".into(),
        max,
    };
    assert!(most(2).check(&t, &cas).is_empty());
    assert_eq!(most(1).check(&t, &cas).len(), 1);
    assert_eq!(most(1).check(&t, &cas)[0].at_seq, Some(1));
}

#[test]
fn a_receipt_must_not_follow_a_failed_charge() {
    let check = NeverAfterFailure {
        tool: "send_receipt".into(),
        after: "charge_card".into(),
    };
    let (broken, cas) = build(vec![
        row(
            EffectKind::Tool,
            "charge_card",
            Json::whole(1),
            Outcome::err("402", "declined"),
        ),
        row(EffectKind::Tool, "send_receipt", Json::whole(1), ok()),
    ]);
    assert_eq!(check.check(&broken, &cas).len(), 1);
    let (sound, cas) = build(vec![
        row(EffectKind::Tool, "charge_card", Json::whole(1), ok()),
        row(EffectKind::Tool, "send_receipt", Json::whole(1), ok()),
    ]);
    assert!(check.check(&sound, &cas).is_empty());
}

#[test]
fn one_effect_can_require_another() {
    let check = Requires {
        tool: "charge_card".into(),
        then: "send_receipt".into(),
    };
    let (broken, cas) = build(vec![row(
        EffectKind::Tool,
        "charge_card",
        Json::whole(1),
        ok(),
    )]);
    assert_eq!(check.check(&broken, &cas).len(), 1);
    let (sound, cas) = build(vec![
        row(EffectKind::Tool, "charge_card", Json::whole(1), ok()),
        row(EffectKind::Tool, "send_receipt", Json::whole(1), ok()),
    ]);
    assert!(check.check(&sound, &cas).is_empty());
}

#[test]
fn a_violation_reports_where_it_happened() {
    let (t, cas) = build(vec![
        row(EffectKind::Tool, "delete_file", path("/x"), ok()),
        row(EffectKind::Tool, "delete_file", path("/x"), ok()),
    ]);
    let v = NoDuplicateEffects::all().check(&t, &cas);
    let text = v[0].report();
    assert!(text.contains("no_duplicate_effects"), "{text}");
    assert!(text.contains("#1"), "{text}");
}
