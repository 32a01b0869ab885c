//! Declared invariants.

use samsara::config::{Config, ConfigError, InvariantSpec};
use samsara::json::Json;

fn json(text: &str) -> Json {
    Json::read(text.as_bytes()).expect("valid JSON")
}

#[test]
fn every_spec_builds_a_checker_with_a_matching_name() {
    let specs = [
        InvariantSpec::NoDuplicateEffects {
            tools: vec![],
            idempotency_key: None,
        },
        InvariantSpec::TerminatesWithin { effects: 10 },
        InvariantSpec::TokenBudget { tokens: 10 },
        InvariantSpec::NeverAfterFailure {
            tool: "a".into(),
            after: "b".into(),
        },
        InvariantSpec::Requires {
            tool: "a".into(),
            then: "b".into(),
        },
        InvariantSpec::MaxCalls {
            tool: "a".into(),
            max: 1,
        },
    ];
    for spec in specs {
        let built = spec.build();
        assert!(!built.name().is_empty());
        assert!(!spec.describe().is_empty());
    }
}

#[test]
fn specs_roundtrip_through_json() {
    let config = Config {
        label: Some("checkout".into()),
        invariants: vec![
            InvariantSpec::NoDuplicateEffects {
                tools: vec!["charge_card".into()],
                idempotency_key: Some("key".into()),
            },
            InvariantSpec::NeverAfterFailure {
                tool: "send_receipt".into(),
                after: "charge_card".into(),
            },
        ],
    };
    let text = config.to_json().print();
    assert_eq!(Config::from_json(&json(&text)).unwrap(), config);
}

#[test]
fn an_unknown_field_is_rejected_rather_than_ignored() {
    // A typo in a config that silently does nothing is worse than an error:
    // you believe you are enforcing a property and you are not.
    let text = r#"{"type": "max_calls", "tool": "a", "maximum": 3}"#;
    assert!(InvariantSpec::from_json(&json(text)).is_none());
}

#[test]
fn an_unknown_invariant_type_is_rejected() {
    let text = r#"{"type": "no_such_property", "tool": "a"}"#;
    assert!(InvariantSpec::from_json(&json(text)).is_none());
}

#[test]
fn the_default_says_nothing_about_side_effects() {
    // Guessing which tools are effectful would be wrong for most agents, and
    // wrong in the direction that produces noise.
    let names = Config::conservative_default().names();
    assert_eq!(names.len(), 1);
    assert!(names[0].contains("terminates"));
}

#[test]
fn declared_properties_catch_what_the_defaults_would_miss() {
    // Only the author of an agent knows that a receipt must not follow a
    // failed charge.
    let config = Config::from_toml(
        r#"
        [[invariant]]
        type = "never_after_failure"
        tool = "send_receipt"
        after = "charge_card"
        "#,
    )
    .unwrap();

    let invariants = config.build();
    assert_eq!(invariants.len(), 1);
    assert_eq!(invariants[0].name(), "never_after_failure");
    assert!(config.names()[0].contains("send_receipt"));
}

#[test]
fn a_config_declaring_nothing_is_an_error() {
    // A sweep against no properties always passes, which means nothing.
    let refused = Config::from_toml("label = \"x\"\n").unwrap_err();
    assert_eq!(refused, ConfigError::Empty);
    assert!(
        refused.report("empty.toml").contains("declares no invariants"),
        "{}",
        refused.report("empty.toml")
    );
}

#[test]
fn a_typo_in_a_property_is_rejected_rather_than_ignored() {
    let refused = Config::from_toml(
        "[[invariant]]\ntype = \"max_calls\"\ntool = \"a\"\nmaximum = 3\n",
    )
    .unwrap_err();
    assert_eq!(
        refused,
        ConfigError::Malformed {
            reason: "invariant 1 is unknown or malformed".into()
        }
    );
    assert_eq!(
        refused.report("samsara.toml"),
        "samsara.toml: invariant 1 is unknown or malformed"
    );
}

#[test]
fn an_unknown_property_type_is_rejected() {
    assert!(Config::from_toml("[[invariant]]\ntype = \"no_such_thing\"\n").is_err());
}

#[test]
fn the_first_thing_that_is_wrong_is_named() {
    let reason = |text: &str| match Config::from_toml(text) {
        Err(ConfigError::Malformed { reason }) => reason,
        other => panic!("expected a malformed file, got {other:?}"),
    };
    let good = "[[invariant]]\ntype = \"terminates_within\"\neffects = 3\n";
    let bad = "[[invariant]]\ntype = \"no_such_thing\"\n";
    assert_eq!(reason(&format!("{good}{bad}{bad}")), "invariant 2 is unknown or malformed");
    assert_eq!(reason(&format!("label = 3\n{good}")), "`label` is not a string");
    assert_eq!(reason(&format!("label = nan\n{good}")), "`label` is not a string");
    assert_eq!(reason("invariant = 1\n"), "`invariant` is not a list");
    let unbounded = "[[invariant]]\ntype = \"no_duplicate_effects\"\nidempotency_key = inf\n";
    assert_eq!(reason(&format!("{good}{unbounded}")), "invariant 2 is unknown or malformed");
}

#[test]
fn what_is_not_read_may_hold_anything() {
    let config = Config::from_toml(
        "ratio = nan\n[other]\nlimit = inf\n[[invariant]]\ntype = \"terminates_within\"\neffects = 3\n",
    )
    .unwrap();
    assert_eq!(config.invariants, vec![InvariantSpec::TerminatesWithin { effects: 3 }]);
}

#[test]
fn what_is_no_toml_is_told_from_what_declares_the_wrong_things() {
    match Config::from_toml("[[invariant\n") {
        Err(ConfigError::Toml { message }) => {
            assert!(message.starts_with("TOML parse error at line 1, column 12"), "{message}")
        }
        other => panic!("expected a TOML error, got {other:?}"),
    }
}

#[test]
fn descriptions_spell_the_property_out() {
    let budget = InvariantSpec::TokenBudget { tokens: 1200 };
    assert!(budget.describe().contains("1200"), "{}", budget.describe());
    let most = InvariantSpec::MaxCalls {
        tool: "send".into(),
        max: 2,
    };
    assert!(most.describe().contains("send"), "{}", most.describe());
    assert!(Config { label: None, invariants: vec![] }.is_empty());
}
