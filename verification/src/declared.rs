//! What a declaration means: which property each kind of entry declares, what is
//! refused, and how a property is put in words.

use crate::cas::Contents;
use crate::config::{
    config_from, conservative, described, spec_breaches, spec_from, spec_title, ConfigModel,
    SpecModel,
};
use crate::json::{get, JsonModel, NumberModel};
use crate::offscript::mentions;
use crate::text::{decimal, joined};
use crate::trace::TraceModel;
use vstd::prelude::*;

verus! {

/// Whether the keys of an object are all among these.
pub open spec fn keyed_by(m: JsonModel, keys: Set<Seq<char>>) -> bool {
    m is Object && forall|i: int|
        0 <= i < m->Object_0.len() ==> keys.contains((#[trigger] m->Object_0[i]).0)
}

/// A whole number as a document.
pub open spec fn counted(n: u64) -> JsonModel {
    JsonModel::Number(NumberModel::Unsigned(n))
}

/// A bound on the length of a run is declared by its number of effects, a budget
/// by its number of tokens.
pub proof fn lemma_bounds_declared(m: JsonModel, n: u64)
    requires
        n <= usize::MAX,
    ensures
        keyed_by(m, set!["type"@, "effects"@]) && get(m, "type"@) == Some(
            JsonModel::Text("terminates_within"@),
        ) && get(m, "effects"@) == Some(counted(n)) ==> spec_from(m) == Some(
            SpecModel::TerminatesWithin { effects: n as usize },
        ),
        keyed_by(m, set!["type"@, "tokens"@]) && get(m, "type"@) == Some(
            JsonModel::Text("token_budget"@),
        ) && get(m, "tokens"@) == Some(counted(n)) ==> spec_from(m) == Some(
            SpecModel::TokenBudget { tokens: n },
        ),
{
    lemma_titles_apart();
    if keyed_by(m, set!["type"@, "effects"@]) {
        lemma_two_keys(m, "type"@, "effects"@);
    }
    if keyed_by(m, set!["type"@, "tokens"@]) {
        lemma_two_keys(m, "type"@, "tokens"@);
    }
}

/// A rule on two tools is declared by the tool and the other that it is held
/// against, and a ceiling by the tool and its number of calls.
pub proof fn lemma_rules_declared(m: JsonModel, tool: Seq<char>, other: Seq<char>, n: u64)
    requires
        n <= usize::MAX,
        get(m, "tool"@) == Some(JsonModel::Text(tool)),
    ensures
        keyed_by(m, set!["type"@, "tool"@, "after"@]) && get(m, "type"@) == Some(
            JsonModel::Text("never_after_failure"@),
        ) && get(m, "after"@) == Some(JsonModel::Text(other)) ==> spec_from(m) == Some(
            SpecModel::NeverAfterFailure { tool, after: other },
        ),
        keyed_by(m, set!["type"@, "tool"@, "then"@]) && get(m, "type"@) == Some(
            JsonModel::Text("requires"@),
        ) && get(m, "then"@) == Some(JsonModel::Text(other)) ==> spec_from(m) == Some(
            SpecModel::Requires { tool, then: other },
        ),
        keyed_by(m, set!["type"@, "tool"@, "max"@]) && get(m, "type"@) == Some(
            JsonModel::Text("max_calls"@),
        ) && get(m, "max"@) == Some(counted(n)) ==> spec_from(m) == Some(
            SpecModel::MaxCalls { tool, max: n as usize },
        ),
{
    lemma_titles_apart();
    if keyed_by(m, set!["type"@, "tool"@, "after"@]) {
        lemma_three_keys(m, "type"@, "tool"@, "after"@);
    }
    if keyed_by(m, set!["type"@, "tool"@, "then"@]) {
        lemma_three_keys(m, "type"@, "tool"@, "then"@);
    }
    if keyed_by(m, set!["type"@, "tool"@, "max"@]) {
        lemma_three_keys(m, "type"@, "tool"@, "max"@);
    }
}

/// That nothing happens twice is declared of the tools that are listed, or of
/// every tool where none are, and exempts the calls with the key that is named.
pub proof fn lemma_no_repeats_declared(m: JsonModel, tools: Seq<Seq<char>>, key: Seq<char>)
    requires
        keyed_by(m, set!["type"@, "tools"@, "idempotency_key"@]),
        get(m, "type"@) == Some(JsonModel::Text("no_duplicate_effects"@)),
    ensures
        get(m, "tools"@) is None && get(m, "idempotency_key"@) is None ==> spec_from(m) == Some(
            SpecModel::NoDuplicateEffects { tools: seq![], idempotency_key: None },
        ),
        get(m, "tools"@) == Some(
            JsonModel::Array(Seq::new(tools.len(), |i: int| JsonModel::Text(tools[i]))),
        ) && get(m, "idempotency_key"@) is None ==> spec_from(m) == Some(
            SpecModel::NoDuplicateEffects { tools, idempotency_key: None },
        ),
        get(m, "tools"@) == Some(
            JsonModel::Array(Seq::new(tools.len(), |i: int| JsonModel::Text(tools[i]))),
        ) && get(m, "idempotency_key"@) == Some(JsonModel::Text(key)) ==> spec_from(m) == Some(
            SpecModel::NoDuplicateEffects { tools, idempotency_key: Some(key) },
        ),
{
    lemma_titles_apart();
    lemma_three_keys(m, "type"@, "tools"@, "idempotency_key"@);
    let items = Seq::new(tools.len(), |i: int| JsonModel::Text(tools[i]));
    assert forall|i: int| 0 <= i < items.len() implies crate::json::text(#[trigger] items[i])
        == Some(tools[i]) by {}
    assert(Seq::new(items.len(), |i: int| crate::json::text(items[i])->0) =~= tools);
}

proof fn lemma_two_keys(m: JsonModel, a: Seq<char>, b: Seq<char>)
    requires
        keyed_by(m, set![a, b]),
    ensures
        crate::config::no_others(m, seq![a, b]),
{
    let keys = seq![a, b];
    assert(keys[0] == a && keys[1] == b);
    assert forall|i: int| 0 <= i < m->Object_0.len() implies keys.contains(
        (#[trigger] m->Object_0[i]).0,
    ) by {
        assert(set![a, b].contains(m->Object_0[i].0));
    }
}

proof fn lemma_three_keys(m: JsonModel, a: Seq<char>, b: Seq<char>, c: Seq<char>)
    requires
        keyed_by(m, set![a, b, c]),
    ensures
        crate::config::no_others(m, seq![a, b, c]),
{
    let keys = seq![a, b, c];
    assert(keys[0] == a && keys[1] == b && keys[2] == c);
    assert forall|i: int| 0 <= i < m->Object_0.len() implies keys.contains(
        (#[trigger] m->Object_0[i]).0,
    ) by {
        assert(set![a, b, c].contains(m->Object_0[i].0));
    }
}

proof fn lemma_titles_apart()
    ensures
        "no_duplicate_effects"@.len() == 20,
        "terminates_within"@.len() == 17,
        "token_budget"@.len() == 12,
        "never_after_failure"@.len() == 19,
        "requires"@.len() == 8,
        "max_calls"@.len() == 9,
{
    reveal_strlit("no_duplicate_effects");
    reveal_strlit("terminates_within");
    reveal_strlit("token_budget");
    reveal_strlit("never_after_failure");
    reveal_strlit("requires");
    reveal_strlit("max_calls");
}

/// What names no kind of property that there is declares none.
pub proof fn lemma_unknown_kinds_refused(m: JsonModel, name: Seq<char>)
    requires
        m is Object,
    ensures
        get(m, "type"@) is None ==> spec_from(m) is None,
        get(m, "type"@) == Some(JsonModel::Text(name)) && name != "no_duplicate_effects"@ && name
            != "terminates_within"@ && name != "token_budget"@ && name != "never_after_failure"@
            && name != "requires"@ && name != "max_calls"@ ==> spec_from(m) is None,
        spec_from(m) matches Some(s) ==> get(m, "type"@) == Some(JsonModel::Text(spec_title(s))),
{
    match get(m, "type"@) {
        Some(JsonModel::Text(t)) => {},
        _ => {},
    }
}

/// A key that no property has is never passed over: an entry that holds one
/// declares nothing.
pub proof fn lemma_typos_refused(m: JsonModel, i: int)
    requires
        m is Object,
        0 <= i < m->Object_0.len(),
        ({
            let key = m->Object_0[i].0;
            &&& key != "type"@ && key != "tools"@ && key != "idempotency_key"@
            &&& key != "effects"@ && key != "tokens"@ && key != "tool"@
            &&& key != "after"@ && key != "then"@ && key != "max"@
        }),
    ensures
        spec_from(m) is None,
{
    let key = m->Object_0[i].0;
    assert(!seq!["type"@, "tools"@, "idempotency_key"@].contains(key));
    assert(!seq!["type"@, "effects"@].contains(key));
    assert(!seq!["type"@, "tokens"@].contains(key));
    assert(!seq!["type"@, "tool"@, "after"@].contains(key));
    assert(!seq!["type"@, "tool"@, "then"@].contains(key));
    assert(!seq!["type"@, "tool"@, "max"@].contains(key));
}

/// A set of properties has the label and the entries of its file, in their order.
/// What is left out is empty, and one entry that declares nothing refuses the
/// whole file.
pub proof fn lemma_file_read(m: JsonModel, items: Seq<JsonModel>, label: Seq<char>)
    requires
        m is Object,
    ensures
        get(m, "invariant"@) is None && get(m, "label"@) is None ==> config_from(m) == Some(
            ConfigModel { label: None, invariants: seq![] },
        ),
        get(m, "invariant"@) == Some(JsonModel::Array(items)) && get(m, "label"@) == Some(
            JsonModel::Text(label),
        ) && (forall|i: int| 0 <= i < items.len() ==> spec_from(#[trigger] items[i]) is Some) ==> {
            &&& config_from(m) is Some
            &&& config_from(m)->0.label == Some(label)
            &&& config_from(m)->0.invariants.len() == items.len()
            &&& forall|i: int|
                0 <= i < items.len() ==> Some(#[trigger] config_from(m)->0.invariants[i])
                    == spec_from(items[i])
        },
        get(m, "invariant"@) == Some(JsonModel::Array(items)) && (exists|i: int|
            0 <= i < items.len() && spec_from(#[trigger] items[i]) is None) ==> config_from(m)
            is None,
{
    if get(m, "invariant"@) == Some(JsonModel::Array(items)) && (exists|i: int|
        0 <= i < items.len() && spec_from(#[trigger] items[i]) is None) {
        let i = choose|i: int| 0 <= i < items.len() && spec_from(#[trigger] items[i]) is None;
        assert(!(spec_from(items[i]) is Some));
    }
}

/// What applies where nobody has declared anything asks of a run only that it
/// ends within five hundred and twelve effects. Nothing else that it does, and
/// nothing that it does twice, breaches it.
pub proof fn lemma_nothing_declared(t: TraceModel, contents: Contents)
    ensures
        (forall|i: int|
            0 <= i < conservative().invariants.len() ==> spec_breaches(
                #[trigger] conservative().invariants[i],
                t,
                contents,
            ).len() == 0) <==> t.events.len() <= 512,
        conservative().label is None,
{
    if t.events.len() > 512 {
        let s = conservative().invariants[0];
        assert(spec_breaches(s, t, contents).len() == 1);
    }
}

// ---------------------------------------------------------------------------
// A property in words
// ---------------------------------------------------------------------------

proof fn lemma_between(text: Seq<char>, a: Seq<char>, part: Seq<char>, b: Seq<char>)
    requires
        text == (a + part) + b,
    ensures
        mentions(text, part),
{
}

/// A property in words names its parameters: its bound, and each tool that it
/// speaks of.
pub proof fn lemma_words_tell(s: SpecModel)
    ensures
        match s {
            SpecModel::NoDuplicateEffects { tools, idempotency_key } => {
                &&& tools.len() == 0 ==> mentions(described(s), "every tool"@)
                &&& tools.len() > 0 ==> mentions(described(s), joined(tools, ", "@))
                &&& idempotency_key is Some ==> mentions(described(s), idempotency_key->0)
            },
            SpecModel::TerminatesWithin { effects } => mentions(
                described(s),
                decimal(effects as nat),
            ),
            SpecModel::TokenBudget { tokens } => mentions(described(s), decimal(tokens as nat)),
            SpecModel::NeverAfterFailure { tool, after } => mentions(described(s), tool)
                && mentions(described(s), after),
            SpecModel::Requires { tool, then } => mentions(described(s), tool) && mentions(
                described(s),
                then,
            ),
            SpecModel::MaxCalls { tool, max } => mentions(described(s), tool) && mentions(
                described(s),
                decimal(max as nat),
            ),
        },
{
    let text = described(s);
    let none = Seq::<char>::empty();
    match s {
        SpecModel::NoDuplicateEffects { tools, idempotency_key } => {
            let scope = if tools.len() == 0 {
                "every tool"@
            } else {
                joined(tools, ", "@)
            };
            let head = "no duplicate effects on "@;
            match idempotency_key {
                Some(k) => {
                    assert(text =~= (head + scope) + ((" (exempting `"@ + k) + "`)"@));
                    lemma_between(text, head, scope, (" (exempting `"@ + k) + "`)"@);
                    lemma_between(text, head + scope + " (exempting `"@, k, "`)"@);
                },
                None => {
                    assert(text =~= (head + scope) + none);
                    lemma_between(text, head, scope, none);
                },
            }
        },
        SpecModel::TerminatesWithin { effects } => {
            lemma_between(text, "terminates within "@, decimal(effects as nat), " effects"@);
        },
        SpecModel::TokenBudget { tokens } => {
            lemma_between(text, "at most "@, decimal(tokens as nat), " tokens"@);
        },
        SpecModel::NeverAfterFailure { tool, after } => {
            let rest = ("` after `"@ + after) + "` fails"@;
            assert(text =~= ("never `"@ + tool) + rest);
            lemma_between(text, "never `"@, tool, rest);
            lemma_between(text, "never `"@ + tool + "` after `"@, after, "` fails"@);
        },
        SpecModel::Requires { tool, then: other } => {
            let rest = ("` requires `"@ + other) + "`"@;
            assert(text =~= ("`"@ + tool) + rest);
            lemma_between(text, "`"@, tool, rest);
            lemma_between(text, "`"@ + tool + "` requires `"@, other, "`"@);
        },
        SpecModel::MaxCalls { tool, max } => {
            let rest = (" calls to `"@ + tool) + "`"@;
            assert(text =~= ("at most "@ + decimal(max as nat)) + rest);
            lemma_between(text, "at most "@, decimal(max as nat), rest);
            lemma_between(text, "at most "@ + decimal(max as nat) + " calls to `"@, tool, "`"@);
        },
    }
}

} // verus!
