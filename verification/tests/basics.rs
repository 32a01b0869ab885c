//! Texts, documents, and drawn numbers.

use samsara::cas::{Cas, MemCas};
use samsara::hash::Digest;
use samsara::json::{Json, Number};
use samsara::oracle::{fetch_outcome, ResponseOracle};
use samsara::rng::Rng;
use samsara::text::{
    before, eq_ignore_case, is_blank, parse_number, show, sort_distinct, split, split_lines,
};
use samsara::trace::{Trace, TraceHeader};

fn json(text: &str) -> Json {
    Json::read(text.as_bytes()).expect("valid JSON")
}

#[test]
fn documents_print_compactly_and_read_back() {
    let text = r#"{"b":[1,-2,1.5,true,null,"q\"\n"],"a":{}}"#;
    let doc = json(text);
    assert_eq!(doc.print(), text);
    assert_eq!(doc.ordered().print(), r#"{"a":{},"b":[1,-2,1.5,true,null,"q\"\n"]}"#);
    assert_eq!(Json::parse(text.as_bytes()), Some(doc.ordered()));
    assert_eq!(Json::read(b"{"), None);
    assert_eq!(
        Json::try_read(b"[1,]"),
        Err("trailing comma at line 1 column 4".to_string())
    );
    assert_eq!(json("1.50"), Json::Number(Number::Float("1.5".into())));
    assert_eq!(json("18446744073709551615").as_u64(), Some(u64::MAX));
    assert_eq!(json("-1").as_u64(), None);
}

#[test]
fn control_characters_are_escaped() {
    let text = "\u{8}\u{c}\n\r\t\u{0}\u{1f}\"\\/\u{7f}\u{e9}";
    assert_eq!(
        Json::text(text).print(),
        "\"\\b\\f\\n\\r\\t\\u0000\\u001f\\\"\\\\/\u{7f}\u{e9}\""
    );
    assert_eq!(json(&Json::text(text).print()), Json::text(text));
    assert_eq!(json("[-0.0,1e300,-7,1.0]").print(), "[-0.0,1e+300,-7,1.0]");
}

#[test]
fn documents_print_over_many_lines() {
    assert_eq!(
        json(r#"{"a":[1,2],"b":{}}"#).print_pretty(),
        "{\n  \"a\": [\n    1,\n    2\n  ],\n  \"b\": {}\n}"
    );
}

#[test]
fn toml_is_read_as_a_document() {
    let doc = Json::from_toml("x = 1\n[t]\ny = \"z\"\n").unwrap();
    assert_eq!(doc, json(r#"{"x":1,"t":{"y":"z"}}"#));
    assert!(Json::from_toml("x = ").is_err());
    assert!(!doc.has_null());
    assert!(json(r#"[{"a":null}]"#).has_null());
}

#[test]
fn drawn_numbers_depend_on_the_seed_alone() {
    let mut a = Rng::from_number(42);
    let mut b = Rng::from_number(42);
    for _ in 0..50 {
        assert_eq!(a.small_within(0, 10), b.small_within(0, 10));
        assert_eq!(a.long_within(5, 9), b.long_within(5, 9));
        assert_eq!(a.size_within(0, 3), b.size_within(0, 3));
        assert_eq!(a.fraction(), b.fraction());
    }
    let mut draws: Vec<u32> = (0..200).map(|_| a.small_within(3, 7)).collect();
    draws.sort_unstable();
    draws.dedup();
    assert_eq!(draws, vec![3, 4, 5, 6, 7]);
    let f: f64 = a.fraction().parse().unwrap();
    assert!((0.0..1.0).contains(&f));
}

#[test]
fn texts_are_taken_apart() {
    assert_eq!(split("a.b..c", '.'), vec!["a", "b", "", "c"]);
    assert_eq!(split_lines("a\r\nb\n\nc"), vec!["a", "b", "", "c"]);
    assert!(is_blank(" \t"));
    assert!(!is_blank(" x"));
    assert!(eq_ignore_case("Host", "hOST"));
    assert!(before("a", "ab"));
    assert!(!before("b", "ab"));
    assert_eq!(show(0), "0");
    assert_eq!(show(u64::MAX), "18446744073709551615");
    assert_eq!(parse_number("0429", 65535), Some(429));
    assert_eq!(parse_number("65536", 65535), None);
    assert_eq!(parse_number("", 65535), None);
    assert_eq!(
        sort_distinct(vec!["b".into(), "a".into(), "b".into()]),
        vec!["a", "b"]
    );
}

#[test]
fn an_oracle_answers_each_recorded_call_in_turn() {
    let oracle = ResponseOracle::build(&Trace::new(TraceHeader::default()), &MemCas::new());
    let mut oracle = oracle.unwrap();
    assert!(oracle.is_empty());
    assert_eq!(oracle.len(), 0);
    assert!(oracle.answer(&Digest::of(b"never asked")).is_none());

    let mut cas = MemCas::new();
    let digest = cas.put(b"no outcome").unwrap();
    assert!(fetch_outcome(&cas, &digest).is_none());
}
