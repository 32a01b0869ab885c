//! The trace file.

use samsara::event::{EffectKind, Event};
use samsara::hash::Digest;
use samsara::json::Json;
use samsara::trace::{Trace, TraceError, TraceHeader, FORMAT_VERSION};

fn event(seq: u64) -> Event {
    Event {
        seq,
        kind: EffectKind::Tool,
        name: format!("tool_{seq}"),
        identity: Digest::of(format!("id{seq}").as_bytes()),
        request: Digest::of(b"req"),
        outcome: Digest::of(b"out"),
        fault: None,
        shadow: None,
        logical_time: seq,
        batch: None,
    }
}

fn trace_of(n: u64) -> Trace {
    let mut t = Trace::new(TraceHeader::default());
    t.events = (0..n).map(event).collect();
    t
}

#[test]
fn roundtrips_through_jsonl() {
    let t = trace_of(5);
    let back = Trace::from_str(&t.to_jsonl()).unwrap();
    assert_eq!(t, back);
}

#[test]
fn header_occupies_exactly_the_first_line() {
    let t = trace_of(3);
    let text = t.to_jsonl();
    assert_eq!(text.lines().count(), 4, "1 header + 3 events");
    let first = Json::read(text.lines().next().unwrap().as_bytes()).unwrap();
    assert!(first.get("format_version").is_some());
}

#[test]
fn identity_ignores_the_header() {
    let a = trace_of(4);
    let mut b = trace_of(4);
    b.header.label = "a completely different label".into();
    b.header.recorded_at_ms = 1_700_000_000_000;
    assert_eq!(
        a.id(),
        b.id(),
        "trace identity is its effects, not its metadata"
    );
}

#[test]
fn refuses_a_future_format_version() {
    let mut t = trace_of(1);
    t.header.format_version = FORMAT_VERSION + 1;
    let err = Trace::from_str(&t.to_jsonl()).unwrap_err();
    assert!(matches!(err, TraceError::Version { .. }));
}

#[test]
fn refuses_a_gap_in_the_sequence() {
    let mut t = trace_of(3);
    t.events[1].seq = 7; // a gap replay would silently mis-index
    let err = Trace::from_str(&t.to_jsonl()).unwrap_err();
    assert!(matches!(
        err,
        TraceError::Sequence {
            expected: 1,
            found: 7,
            ..
        }
    ));
}

#[test]
fn refuses_an_empty_file() {
    assert!(matches!(Trace::from_str(""), Err(TraceError::Empty)));
}

#[test]
fn tolerates_trailing_blank_lines() {
    let text = format!("{}\n\n", trace_of(2).to_jsonl());
    assert_eq!(Trace::from_str(&text).unwrap().len(), 2);
}

#[test]
fn refuses_a_line_that_is_no_event() {
    let text = format!("{}not json\n", trace_of(1).to_jsonl());
    let parse = |line: usize, reason: &str| {
        Err(TraceError::Parse {
            line,
            reason: reason.into(),
        })
    };
    assert_eq!(Trace::read(&text), parse(3, "expected ident at line 1 column 2"));
    let text = format!("{}{{}}\n", trace_of(1).to_jsonl());
    assert_eq!(Trace::read(&text), parse(3, "expected an event"));
    assert_eq!(Trace::read("[]\n"), parse(1, "expected a trace header"));
    assert_eq!(
        Trace::read("{\"engine\":\n"),
        parse(1, "EOF while parsing a value at line 1 column 10")
    );
}

#[test]
fn writing_appends() {
    let t = trace_of(2);
    let mut out = "before\n".to_string();
    t.write(&mut out);
    assert_eq!(out, format!("before\n{}", t.to_jsonl()));
}

#[test]
fn only_models_and_tools_are_faultable() {
    let mut t = trace_of(4);
    t.events[1].kind = EffectKind::Clock;
    t.events[2].kind = EffectKind::Random;
    t.events[3].kind = EffectKind::Model;
    assert_eq!(t.faultable(), vec![0, 3]);
    assert!(!t.is_empty());
    assert!(trace_of(0).is_empty());
}

#[test]
fn identity_follows_the_effects() {
    let a = trace_of(4);
    let mut b = trace_of(4);
    b.events[2].identity = Digest::of(b"something else");
    assert_ne!(a.id(), b.id());
    assert_ne!(trace_of(3).id(), trace_of(4).id());
}

#[test]
fn errors_say_where() {
    let parse = TraceError::Parse {
        line: 3,
        reason: "expected value at line 1 column 1".into(),
    };
    assert_eq!(
        parse.report(),
        "malformed trace at line 3: expected value at line 1 column 1"
    );
    assert!(!TraceError::Empty.report().is_empty());
    let version = TraceError::Version {
        found: 9,
        expected: 1,
    };
    assert!(version.report().contains('9'));
    let gap = TraceError::Sequence {
        expected: 1,
        found: 7,
        line: 3,
    };
    assert!(gap.report().contains('7'));
}
