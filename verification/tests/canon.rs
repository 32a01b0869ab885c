//! What counts as the same request.

use samsara::canon::Canonicalizer;
use samsara::event::EffectRequest;
use samsara::json::Json;

fn json(text: &str) -> Json {
    Json::read(text.as_bytes()).expect("valid JSON")
}

#[test]
fn key_order_does_not_affect_identity() {
    let c = Canonicalizer::exact();
    let a = json(r#"{"model": "x", "temperature": 0, "messages": []}"#);
    let b = json(r#"{"messages": [], "temperature": 0, "model": "x"}"#);
    assert_eq!(c.body_identity(&a), c.body_identity(&b));
}

#[test]
fn volatile_fields_are_ignored_but_content_is_not() {
    let c = Canonicalizer::default();
    let a = json(r#"{"id": "req_aaa", "model": "x", "prompt": "hello"}"#);
    let b = json(r#"{"id": "req_bbb", "model": "x", "prompt": "hello"}"#);
    let d = json(r#"{"id": "req_aaa", "model": "x", "prompt": "goodbye"}"#);

    assert_eq!(
        c.body_identity(&a),
        c.body_identity(&b),
        "ids must not matter"
    );
    assert_ne!(
        c.body_identity(&a),
        c.body_identity(&d),
        "prompts must matter"
    );
}

#[test]
fn wildcards_reach_into_arrays() {
    let c = Canonicalizer::default();
    let a = json(r#"{"messages": [{"tool_call_id": "call_1", "text": "hi"}]}"#);
    let b = json(r#"{"messages": [{"tool_call_id": "call_2", "text": "hi"}]}"#);
    let d = json(r#"{"messages": [{"tool_call_id": "call_1", "text": "bye"}]}"#);

    assert_eq!(c.body_identity(&a), c.body_identity(&b));
    assert_ne!(c.body_identity(&a), c.body_identity(&d));
}

#[test]
fn missing_paths_are_not_errors() {
    let c = Canonicalizer::default();
    // No `id`, no `messages`: the policy simply finds nothing to redact.
    let v = json(r#"{"model": "x"}"#);
    assert_eq!(
        c.body_identity(&v),
        c.body_identity(&json(r#"{"model": "x"}"#))
    );
}

#[test]
fn kind_and_name_are_part_of_an_effect_identity() {
    let c = Canonicalizer::exact();
    let body = json(r#"{"path": "/x"}"#);

    // Same arguments, different tool: emphatically not the same effect.
    assert_ne!(
        c.effect_identity("tool", "delete_file", &body),
        c.effect_identity("tool", "create_file", &body)
    );
    // Same name, different kind.
    assert_ne!(
        c.effect_identity("tool", "x", &Json::Null),
        c.effect_identity("model", "x", &Json::Null)
    );
    // Clock and random both carry no body and must still differ.
    assert_ne!(
        c.effect_identity("clock", "now_ms", &Json::Null),
        c.effect_identity("random", "next_f64", &Json::Null)
    );
    // And it is still stable.
    assert_eq!(
        c.effect_identity("tool", "delete_file", &body),
        c.effect_identity("tool", "delete_file", &json(r#"{"path": "/x"}"#))
    );
}

#[test]
fn redaction_is_not_forgeable_by_content() {
    // A caller cannot make two different requests collide by writing the
    // marker, because the marker contains a NUL byte that JSON string content
    // from a real provider will not carry.
    let c = Canonicalizer::default();
    let a = json(r#"{"id": "real", "x": 1}"#);
    let b = Json::object(vec![
        ("id".to_string(), Json::text("\u{0}samsara:volatile")),
        ("x".to_string(), Json::whole(2)),
    ]);
    assert_ne!(c.body_identity(&a), c.body_identity(&b));
}

#[test]
fn a_policy_can_be_widened() {
    let c = Canonicalizer::exact().with("meta.stamp");
    let a = json(r#"{"meta": {"stamp": 1, "v": 1}}"#);
    let b = json(r#"{"meta": {"stamp": 2, "v": 1}}"#);
    let d = json(r#"{"meta": {"stamp": 1, "v": 2}}"#);
    assert_eq!(c.body_identity(&a), c.body_identity(&b));
    assert_ne!(c.body_identity(&a), c.body_identity(&d));
    assert_eq!(
        Canonicalizer::exact().canonicalize(&a),
        json(r#"{"meta":{"stamp":1,"v":1}}"#)
    );
}

#[test]
fn bodies_with_fractions_have_identities_of_their_own() {
    let c = Canonicalizer::exact();
    let bodies = [r#"{"t":0.5}"#, r#"{"t":0.25}"#, r#"{"t":1e20}"#, r#"{"t":1}"#, r#"{"t":1.0}"#];
    for (i, one) in bodies.iter().enumerate() {
        for (j, other) in bodies.iter().enumerate() {
            assert_eq!(
                c.effect_identity("model", "m", &json(one))
                    == c.effect_identity("model", "m", &json(other)),
                i == j,
                "{one} {other}"
            );
        }
    }
    assert_eq!(
        c.effect_identity("model", "m", &json("0.50")),
        c.effect_identity("model", "m", &json("5e-1"))
    );
    assert_ne!(
        c.effect_identity("model", "m", &json("0.5")),
        c.effect_identity("tool", "m", &json("0.5"))
    );
}

#[test]
fn effect_identities_have_known_digests() {
    let c = Canonicalizer::default();
    let delete = EffectRequest::tool("delete_file", json(r#"{"path":"/var/reports/stale.csv"}"#));
    assert_eq!(delete.identity(&c).short(), "7cb5ff61e051");
    let section = EffectRequest::tool("render_section", json(r#"{"name":"intro"}"#));
    assert_eq!(section.identity(&c).short(), "13e9bd8f2ee7");
    assert_eq!(EffectRequest::random().identity(&c).short(), "281bd384c205");
    assert_eq!(EffectRequest::clock().identity(&c).short(), "88dfd2b65a56");
}

#[test]
fn canonical_bytes_are_compact_and_sorted() {
    let c = Canonicalizer::exact();
    let bytes = c.canonical_bytes(&json(r#"{"b": [1, {"d": 2, "c": 3}], "a": null}"#));
    assert_eq!(
        bytes,
        br#"{"a":null,"b":[1,{"c":3,"d":2}]}"#.to_vec()
    );
}

#[test]
fn canonicalising_twice_is_canonicalising_once() {
    let c = Canonicalizer::default().with("messages.*.stamp").with("meta.0");
    let v = json(
        r#"{"z": 1, "id": {"x": 1}, "messages": [{"stamp": 3, "text": "hi"}, 7], "meta": [1, 2]}"#,
    );
    let once = c.canonicalize(&v);
    assert_eq!(
        once.print(),
        "{\"id\":\"\\u0000samsara:volatile\",\"messages\":\
         [{\"stamp\":\"\\u0000samsara:volatile\",\"text\":\"hi\"},7],\
         \"meta\":[\"\\u0000samsara:volatile\",2],\"z\":1}"
    );
    assert_eq!(c.canonicalize(&once), once);
    let plain = json(r#"{"a": [1, {"b": 2}], "c": null}"#);
    assert_eq!(Canonicalizer::exact().canonicalize(&plain), plain);
}

#[test]
fn identities_agree_exactly_where_canonical_bytes_do() {
    let c = Canonicalizer::default();
    let bodies = [
        json(r#"{"id": "a", "x": 1}"#),
        json(r#"{"x": 1, "id": "b"}"#),
        json(r#"{"x": 2, "id": "a"}"#),
        json(r#"{"x": 1}"#),
        json(r#"[{"x": 1}]"#),
    ];
    for one in &bodies {
        for other in &bodies {
            assert_eq!(
                c.effect_identity("tool", "t", one) == c.effect_identity("tool", "t", other),
                c.canonical_bytes(one) == c.canonical_bytes(other),
                "{one:?} {other:?}"
            );
        }
    }
}
