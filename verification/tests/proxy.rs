//! The recording proxy: what requests mean, and what is written down.

use samsara::bundle::{collect_payloads, copy_payloads, write_bundle};
use samsara::canon::Canonicalizer;
use samsara::cas::{Cas, MemCas};
use samsara::config::{Checker, InvariantSpec};
use samsara::event::{EffectKind, EffectRequest, Event, Outcome};
use samsara::invariants::check_all;
use samsara::json::Json;
use samsara::ledger::Ledger;
use samsara::proxy::{
    answer_model, answer_outcome, answer_ping, answer_return, answer_unknown, clear_lone,
    effect_kind, forward_target, is_relayed, read_ask, read_call, read_model_call, read_response,
    route, tell_unreachable, upstream_for, Ask, Route, Session,
};
use samsara::replay::Recorder;
use samsara::replayer::{Mode, Replayer};
use samsara::testkit::{run_agent, FakeBackend, Style};
use samsara::trace::Trace;

fn json(text: &str) -> Json {
    Json::read(text.as_bytes()).expect("valid JSON")
}

fn session() -> Session<MemCas> {
    Session::new(MemCas::new(), Canonicalizer::default())
}

fn begin(s: &mut Session<MemCas>, body: &str) -> String {
    let handled = s.tool_protocol("/begin", body.as_bytes()).unwrap();
    assert_eq!(handled.reply.status, 200);
    assert_eq!(
        handled.reply.body.get("action").and_then(|a| a.as_text()),
        Some(&"execute".to_string())
    );
    handled
        .reply
        .body
        .get("call")
        .and_then(|c| c.as_text())
        .expect("a call is named")
        .clone()
}

fn end(s: &mut Session<MemCas>, call: &str, outcome: &Outcome) {
    let body = Json::object(vec![
        ("call".to_string(), Json::text(call)),
        ("outcome".to_string(), outcome.to_json()),
    ]);
    let handled = s.tool_protocol("/end", body.print().as_bytes()).unwrap();
    assert_eq!(handled.reply, answer_outcome(outcome));
    assert_eq!(handled.warning, None);
}

fn outcome_at(trace: &Trace, cas: &MemCas, at: usize) -> Outcome {
    let bytes = cas.get(&trace.events[at].outcome).unwrap().unwrap();
    Outcome::from_json(&Json::read(&bytes).unwrap()).unwrap()
}

#[test]
fn requests_reach_the_provider_they_were_meant_for() {
    for path in ["/v1/messages", "/v1/complete", "/v1/messages/count_tokens"] {
        assert_eq!(upstream_for(None, path), "https://api.anthropic.com", "{path}");
    }
    for path in [
        "/v1/chat/completions",
        "/v1/responses",
        "/v1/embeddings",
        "/v1/completions",
    ] {
        assert_eq!(upstream_for(None, path), "https://api.openai.com", "{path}");
    }

    // An unknown path falls back rather than failing: a provider that was not
    // enumerated is better served by a guess than by a hard error.
    assert_eq!(
        upstream_for(None, "/v2/something"),
        "https://api.anthropic.com"
    );

    // What was set explicitly wins everywhere.
    for path in ["/v1/messages", "/v1/chat/completions", "/anything"] {
        assert_eq!(
            upstream_for(Some("http://127.0.0.1:9999"), path),
            "http://127.0.0.1:9999",
            "{path}"
        );
    }
}

#[test]
fn recording_captures_both_a_model_call_and_a_tool_call() {
    let mut s = session();
    s.record_forwarded(
        br#"{"model":"sonnet-4","messages":[{"role":"user","content":"remove the stale report"}]}"#,
        200,
        r#"{"content":"ok"}"#,
    )
    .unwrap();
    let call = begin(
        &mut s,
        r#"{"name":"delete_file","body":{"path":"/var/reports/stale.csv"}}"#,
    );
    assert_eq!(call, "c0");
    end(&mut s, &call, &Outcome::ok(json(r#"{"deleted":true}"#)));

    let trace = s.finish(&vec!["sh".to_string(), "-c".to_string()], 5);
    assert_eq!(trace.header.label, "sh -c");
    assert_eq!(trace.header.recorded_at_ms, 5);
    assert_eq!(trace.len(), 2);
    assert_eq!(trace.events[0].kind, EffectKind::Model);
    assert_eq!(trace.events[0].name, "sonnet-4");
    assert_eq!(trace.events[1].kind, EffectKind::Tool);
    assert_eq!(trace.events[1].name, "delete_file");
    assert_eq!(
        outcome_at(&trace, &s.cas, 0),
        Outcome::ok(json(r#"{"content":"ok"}"#))
    );

    // And the trace reads back.
    assert_eq!(Trace::read(&trace.to_jsonl()).unwrap(), trace);
}

#[test]
fn an_upstream_error_is_recorded_rather_than_swallowed() {
    let mut s = session();
    s.record_forwarded(br#"{"model":"m","messages":[]}"#, 529, "overloaded")
        .unwrap();
    let trace = s.finish(&vec![], 0);
    assert_eq!(
        outcome_at(&trace, &s.cas, 0),
        Outcome::err("529", "overloaded")
    );
    assert_eq!(read_response(200, "plain"), Outcome::ok(Json::text("plain")));
    assert_eq!(read_response(299, "1"), Outcome::ok(Json::whole(1)));
    assert_eq!(read_response(300, "1"), Outcome::err("300", "1"));
}

#[test]
fn the_proxy_groups_genuinely_concurrent_calls_into_a_batch() {
    let mut s = session();
    let mut calls = vec![];
    for name in ["intro", "summary", "appendix"] {
        let body = format!(
            r#"{{"name":"render_section","body":{{"name":"{name}"}},"batch":7}}"#
        );
        calls.push(begin(&mut s, &body));
    }
    assert_eq!(calls, vec!["c0", "c1", "c2"]);
    // They finish in another order, and each claims its own request.
    for i in [2, 0, 1] {
        end(&mut s, &calls[i], &Outcome::ok(Json::whole(i as u64)));
    }
    let trace = s.finish(&vec![], 0);
    assert!(trace.events.iter().all(|e| e.batch == Some(7)));
    assert_eq!(
        outcome_at(&trace, &s.cas, 0),
        Outcome::ok(Json::whole(2))
    );
    let canon = Canonicalizer::default();
    let appendix = EffectRequest::tool("render_section", json(r#"{"name":"appendix"}"#));
    assert_eq!(trace.events[0].identity, appendix.identity(&canon));
}

#[test]
fn a_lone_tool_call_is_not_recorded_as_a_batch() {
    let mut s = session();
    for (name, batch) in [("a", 1), ("b", 2), ("c", 2)] {
        let call = begin(&mut s, &format!(r#"{{"name":"{name}","batch":{batch}}}"#));
        end(&mut s, &call, &Outcome::ok(Json::Null));
    }
    let trace = s.finish(&vec![], 0);
    let batches: Vec<Option<u64>> = trace.events.iter().map(|e| e.batch).collect();
    assert_eq!(batches, vec![None, Some(2), Some(2)]);
    let cleared: Vec<Event> = clear_lone(&trace.events);
    assert_eq!(cleared, trace.events);
}

#[test]
fn verify_passes_a_clean_recording_and_fails_a_duplicated_one() {
    let checkers: Vec<Checker> = vec![InvariantSpec::NoDuplicateEffects {
        tools: vec!["delete_file".into()],
        idempotency_key: None,
    }
    .build()];
    let mut s = session();
    let body = r#"{"name":"delete_file","body":{"path":"/x"}}"#;
    let call = begin(&mut s, body);
    end(&mut s, &call, &Outcome::ok(Json::Null));
    assert!(check_all(&s.finish(&vec![], 0), &s.cas, &checkers).is_empty());
    let call = begin(&mut s, body);
    end(&mut s, &call, &Outcome::ok(Json::Null));
    assert_eq!(check_all(&s.finish(&vec![], 0), &s.cas, &checkers).len(), 1);
}

#[test]
fn an_end_for_no_live_call_is_answered_and_reported() {
    let mut s = session();
    let handled = s
        .tool_protocol("/end", br#"{"call":"c\"9","outcome":{"status":"ok","value":1}}"#)
        .unwrap();
    assert_eq!(handled.reply, answer_outcome(&Outcome::ok(Json::whole(1))));
    assert_eq!(
        handled.warning,
        Some("/end for unknown call \"c\\\"9\", ignoring".to_string())
    );
    assert!(s.finish(&vec![], 0).is_empty());

    // Without an outcome the whole report counts as one.
    let handled = s.tool_protocol("/end", br#"{"call":"x"}"#).unwrap();
    assert_eq!(
        handled.reply,
        answer_outcome(&Outcome::ok(json(r#"{"call":"x"}"#)))
    );
}

#[test]
fn other_endpoints_are_answered() {
    let mut s = session();
    let ping = s.tool_protocol("/ping", b"").unwrap();
    assert_eq!(ping.reply, answer_ping());
    assert_eq!(ping.reply.text(), r#"{"ok":true}"#);
    let other = s.tool_protocol("/nope", b"").unwrap();
    assert_eq!(other.reply, answer_unknown("/nope"));
    assert_eq!(other.reply.status, 404);
    assert_eq!(
        other.reply.text(),
        r#"{"error":"no such endpoint: /nope"}"#
    );
}

#[test]
fn replies_of_a_replay_have_known_texts() {
    assert_eq!(
        answer_return("c3", &Outcome::err("timeout", "t")).text(),
        r#"{"action":"return","call":"c3","outcome":{"code":"timeout","message":"t","status":"err"}}"#
    );
    assert_eq!(answer_model(Outcome::ok(Json::whole(4))).status, 200);
    let refused = answer_model(Outcome::err("429", "slow down"));
    assert_eq!(refused.status, 429);
    assert_eq!(
        refused.text(),
        r#"{"error":{"message":"slow down","type":"429"}}"#
    );
    assert_eq!(answer_model(Outcome::err("timeout", "t")).status, 504);
    assert_eq!(answer_model(Outcome::err("70000", "t")).status, 504);
    assert_eq!(
        answer_outcome(&Outcome::ok(Json::Null)).text(),
        r#"{"outcome":{"status":"ok","value":null}}"#
    );
    assert_eq!(tell_unreachable("down").print(), r#"{"error":"down"}"#);
}

#[test]
fn requests_are_read_with_defaults() {
    let (request, batch) = read_call(br#"{"kind":"clock","name":"now_ms","batch":3}"#);
    assert_eq!(request.kind, EffectKind::Clock);
    assert_eq!(request.body, Json::Null);
    assert_eq!(batch, Some(3));
    let (request, batch) = read_call(b"not json");
    assert_eq!(request, EffectRequest::tool("unknown", Json::Null));
    assert_eq!(batch, None);
    assert_eq!(effect_kind(&json(r#"{"kind":"random"}"#)), EffectKind::Random);
    assert_eq!(effect_kind(&json(r#"{"kind":"model"}"#)), EffectKind::Tool);
    assert_eq!(read_model_call(b"").name, "unknown");
    assert_eq!(
        read_model_call(br#"{"model":"m"}"#),
        EffectRequest::model("m", json(r#"{"model":"m"}"#))
    );
}

#[test]
fn requests_are_routed_and_relayed() {
    assert_eq!(
        route("/_samsara/begin"),
        Route::Protocol {
            endpoint: "/begin".to_string()
        }
    );
    assert_eq!(route("/v1/messages"), Route::Model);
    assert_eq!(
        forward_target("http://host//", "/v1/messages"),
        "http://host/v1/messages"
    );
    for header in ["Host", "content-length", "CONNECTION", "Accept-Encoding"] {
        assert!(!is_relayed(header), "{header}");
    }
    assert!(is_relayed("x-api-key"));
}

#[test]
fn a_ledger_keeps_one_value_per_name() {
    let mut ledger: Ledger<u64> = Ledger::new();
    ledger.insert("a", 1);
    ledger.insert("b", 2);
    ledger.insert("a", 3);
    assert_eq!(ledger.remove("a"), Some(3));
    assert_eq!(ledger.remove("a"), None);
    assert_eq!(ledger.remove("b"), Some(2));
}

// ---------------------------------------------------------------------------
// Payloads
// ---------------------------------------------------------------------------

fn recorded() -> (Trace, MemCas) {
    let mut cas = MemCas::new();
    let mut recorder = Recorder::new(FakeBackend::new(1), &mut cas, Canonicalizer::default());
    run_agent(&mut recorder, Style::Naive);
    (recorder.finish("delete-stale-report"), cas)
}

#[test]
fn payloads_are_written_to_the_sibling_object_store() {
    let (trace, cas) = recorded();
    let mut copy = MemCas::new();
    copy.put(b"was there").unwrap();
    copy_payloads(&trace, &cas, &mut copy).unwrap();
    for event in &trace.events {
        for digest in [&event.request, &event.outcome] {
            assert_eq!(copy.get(digest).unwrap(), cas.get(digest).unwrap());
        }
    }
    assert_eq!(copy.len(), cas.len() + 1);

    // The copy serves a replay as the store it was made from does.
    let mut replayer = Replayer::new(&trace, &mut copy, Mode::Strict).unwrap();
    run_agent(&mut replayer, Style::Naive);
    assert!(replayer.finish("copy").is_faithful());
}

#[test]
fn a_bundle_holds_the_trace_and_each_payload_once() {
    let (trace, cas) = recorded();
    let payloads = collect_payloads(&trace, &cas).unwrap();
    assert_eq!(payloads.missing, 0);
    assert_eq!(payloads.objects.len(), cas.len());
    let bundle = json(&write_bundle(&trace, &payloads));
    assert_eq!(bundle.get("bundle_version").and_then(|v| v.as_u64()), Some(1));
    let first = trace.events[0].request.as_str();
    let held = bundle.get("objects").and_then(|o| o.get(first)).unwrap();
    let bytes = cas.get(&trace.events[0].request).unwrap().unwrap();
    assert_eq!(held.as_text().unwrap().as_bytes(), bytes.as_slice());

    let missing = collect_payloads(&trace, &MemCas::new()).unwrap();
    assert!(missing.objects.is_empty());
    assert_eq!(missing.missing, 2 * trace.len());
}

#[test]
fn a_payload_that_is_no_utf8_is_shown_with_replacements() {
    let mut cas = MemCas::new();
    let odd = cas.put(&[b'a', 0xff, b'b']).unwrap();
    let (mut trace, _) = recorded();
    trace.events.truncate(1);
    trace.events[0].request = odd.clone();
    trace.events[0].outcome = odd.clone();
    let payloads = collect_payloads(&trace, &cas).unwrap();
    assert_eq!(
        payloads.objects,
        vec![(odd.as_str().to_string(), Json::text("a\u{fffd}b"))]
    );
}

#[test]
fn a_replay_tells_its_requests_apart() {
    match read_ask("/v1/messages", br#"{"model":"m","x":1}"#) {
        Ask::Model { request } => assert_eq!(request.name, "m"),
        _ => panic!("a model is called"),
    }
    match read_ask("/_samsara/begin", br#"{"name":"t","body":{},"batch":4}"#) {
        Ask::Tool { request, batch } => {
            assert_eq!(request.name, "t");
            assert!(request.kind == EffectKind::Tool);
            assert_eq!(batch, Some(4));
        }
        _ => panic!("a tool is called"),
    }
    let settled = |url: &str, body: &[u8]| match read_ask(url, body) {
        Ask::Settled { reply } => (reply.status, reply.text()),
        _ => panic!("nothing is to be performed"),
    };
    assert_eq!(settled("/_samsara/ping", b""), (200, r#"{"ok":true}"#.to_string()));
    assert_eq!(
        settled("/_samsara/end", br#"{"call":"c0","outcome":{"status":"ok","value":7}}"#),
        (200, r#"{"outcome":{"status":"ok","value":null}}"#.to_string())
    );
    assert_eq!(
        settled("/_samsara/other", b""),
        (404, r#"{"error":"no such endpoint: /other"}"#.to_string())
    );
}
