//! Declaring what must never happen.
//!
//! What counts as wrong only the author of an agent can say: deleting a file
//! twice is an incident, searching twice is a waste. So the properties are
//! declared, in a file that lives beside the agent.

use crate::cas::{Cas, Contents};
use crate::invariants::{
    after_failures, company_breaches, duplicates, excess_breaches, length_breaches, repeats_shown,
    token_breaches, Invariant, MaxCalls, NeverAfterFailure, NoDuplicateEffects, Requires,
    TerminatesWithin, TokenBudget, Violation, ViolationModel,
};
use crate::json::{
    fields_of, get, holds_null, items_of, toml_read, toml_reading, Json, JsonModel,
};
use crate::model::{viewed, views};
use crate::record::{
    check_record, field, field_of, is_left_out, is_record, no_fields, number, put, put_field,
    read_size, read_text, read_whole, size_in, some_text, text_in, whole_in, Fields,
};
use crate::text::{copy_list, decimal, holds, join, joined, same, show, show_size, texts};
use crate::trace::{list_to_json, read_list, texts_in, texts_json, Trace, TraceModel};
use vstd::prelude::*;

verus! {

/// One declared property.
#[derive(Debug, PartialEq, Eq)]
pub enum InvariantSpec {
    /// No side effect happens twice.
    NoDuplicateEffects {
        /// Tools to watch. Empty means every tool.
        tools: Vec<String>,
        /// Argument carrying an idempotency key; such calls are exempt.
        idempotency_key: Option<String>,
    },
    /// The run performs at most this many effects.
    TerminatesWithin { effects: usize },
    /// Model tokens stay under budget.
    TokenBudget { tokens: u64 },
    /// After `after` fails, `tool` must not be called.
    NeverAfterFailure { tool: String, after: String },
    /// If `tool` takes effect, `then` must too.
    Requires { tool: String, then: String },
    /// `tool` is called at most `max` times.
    MaxCalls { tool: String, max: usize },
}

/// What a declared property is, for contracts.
pub enum SpecModel {
    NoDuplicateEffects { tools: Seq<Seq<char>>, idempotency_key: Option<Seq<char>> },
    TerminatesWithin { effects: usize },
    TokenBudget { tokens: u64 },
    NeverAfterFailure { tool: Seq<char>, after: Seq<char> },
    Requires { tool: Seq<char>, then: Seq<char> },
    MaxCalls { tool: Seq<char>, max: usize },
}

impl View for InvariantSpec {
    type V = SpecModel;

    open spec fn view(&self) -> SpecModel {
        match *self {
            InvariantSpec::NoDuplicateEffects { tools, idempotency_key } =>
            SpecModel::NoDuplicateEffects {
                tools: texts(tools@),
                idempotency_key: viewed(idempotency_key),
            },
            InvariantSpec::TerminatesWithin { effects } => SpecModel::TerminatesWithin { effects },
            InvariantSpec::TokenBudget { tokens } => SpecModel::TokenBudget { tokens },
            InvariantSpec::NeverAfterFailure { tool, after } => SpecModel::NeverAfterFailure {
                tool: tool@,
                after: after@,
            },
            InvariantSpec::Requires { tool, then } => SpecModel::Requires {
                tool: tool@,
                then: then@,
            },
            InvariantSpec::MaxCalls { tool, max } => SpecModel::MaxCalls { tool: tool@, max },
        }
    }
}

/// The name of the invariant that a property declares.
pub open spec fn spec_title(s: SpecModel) -> Seq<char> {
    match s {
        SpecModel::NoDuplicateEffects { .. } => "no_duplicate_effects"@,
        SpecModel::TerminatesWithin { .. } => "terminates_within"@,
        SpecModel::TokenBudget { .. } => "token_budget"@,
        SpecModel::NeverAfterFailure { .. } => "never_after_failure"@,
        SpecModel::Requires { .. } => "requires"@,
        SpecModel::MaxCalls { .. } => "max_calls"@,
    }
}

/// What breaches a declared property.
pub open spec fn spec_breaches(s: SpecModel, t: TraceModel, contents: Contents) -> Seq<
    ViolationModel,
> {
    match s {
        SpecModel::NoDuplicateEffects { tools, idempotency_key } => duplicates(
            tools,
            idempotency_key,
            t.events,
            contents,
        ),
        SpecModel::TerminatesWithin { effects } => length_breaches(effects, t),
        SpecModel::TokenBudget { tokens } => token_breaches(tokens, t, contents),
        SpecModel::NeverAfterFailure { tool, after } => after_failures(
            t.events,
            contents,
            tool,
            after,
        ),
        SpecModel::Requires { tool, then } => company_breaches(tool, then, t, contents),
        SpecModel::MaxCalls { tool, max } => excess_breaches(tool, max, t),
    }
}

/// Whether a declared property can be checked on a run.
pub open spec fn spec_checkable(s: SpecModel, t: TraceModel, contents: Contents) -> bool {
    s matches SpecModel::NoDuplicateEffects { tools, idempotency_key } ==> repeats_shown(
        tools,
        idempotency_key,
        t.events,
        contents,
    )
}

/// A property in words.
pub open spec fn described(s: SpecModel) -> Seq<char> {
    match s {
        SpecModel::NoDuplicateEffects { tools, idempotency_key } => {
            let scope = if tools.len() == 0 {
                "every tool"@
            } else {
                joined(tools, ", "@)
            };
            match idempotency_key {
                Some(k) => "no duplicate effects on "@ + scope + " (exempting `"@ + k + "`)"@,
                None => "no duplicate effects on "@ + scope,
            }
        },
        SpecModel::TerminatesWithin { effects } => "terminates within "@ + decimal(effects as nat)
            + " effects"@,
        SpecModel::TokenBudget { tokens } => "at most "@ + decimal(tokens as nat) + " tokens"@,
        SpecModel::NeverAfterFailure { tool, after } => "never `"@ + tool + "` after `"@ + after
            + "` fails"@,
        SpecModel::Requires { tool, then } => "`"@ + tool + "` requires `"@ + then + "`"@,
        SpecModel::MaxCalls { tool, max } => "at most "@ + decimal(max as nat) + " calls to `"@
            + tool + "`"@,
    }
}

/// A checker that a declared property builds.
#[derive(Debug)]
pub enum Checker {
    NoDuplicateEffects(NoDuplicateEffects),
    TerminatesWithin(TerminatesWithin),
    TokenBudget(TokenBudget),
    NeverAfterFailure(NeverAfterFailure),
    Requires(Requires),
    MaxCalls(MaxCalls),
}

/// The property that a checker checks.
pub open spec fn checked_property(c: Checker) -> SpecModel {
    match c {
        Checker::NoDuplicateEffects(i) => SpecModel::NoDuplicateEffects {
            tools: texts(i.tools@),
            idempotency_key: i.field(),
        },
        Checker::TerminatesWithin(i) => SpecModel::TerminatesWithin { effects: i.0 },
        Checker::TokenBudget(i) => SpecModel::TokenBudget { tokens: i.0 },
        Checker::NeverAfterFailure(i) => SpecModel::NeverAfterFailure {
            tool: i.tool@,
            after: i.after@,
        },
        Checker::Requires(i) => SpecModel::Requires { tool: i.tool@, then: i.companion() },
        Checker::MaxCalls(i) => SpecModel::MaxCalls { tool: i.tool@, max: i.max },
    }
}

impl<C: Cas> Invariant<C> for Checker {
    open spec fn title(&self) -> Seq<char> {
        spec_title(checked_property(*self))
    }

    open spec fn checkable(&self, trace: TraceModel, contents: Contents) -> bool {
        spec_checkable(checked_property(*self), trace, contents)
    }

    open spec fn breaches(&self, trace: TraceModel, contents: Contents) -> Seq<ViolationModel> {
        spec_breaches(checked_property(*self), trace, contents)
    }

    fn name(&self) -> (r: &str) {
        match self {
            Checker::NoDuplicateEffects(i) => Invariant::<C>::name(i),
            Checker::TerminatesWithin(i) => Invariant::<C>::name(i),
            Checker::TokenBudget(i) => Invariant::<C>::name(i),
            Checker::NeverAfterFailure(i) => Invariant::<C>::name(i),
            Checker::Requires(i) => Invariant::<C>::name(i),
            Checker::MaxCalls(i) => Invariant::<C>::name(i),
        }
    }

    fn check(&self, trace: &Trace, cas: &C) -> (r: Vec<Violation>) {
        match self {
            Checker::NoDuplicateEffects(i) => i.check(trace, cas),
            Checker::TerminatesWithin(i) => i.check(trace, cas),
            Checker::TokenBudget(i) => i.check(trace, cas),
            Checker::NeverAfterFailure(i) => i.check(trace, cas),
            Checker::Requires(i) => i.check(trace, cas),
            Checker::MaxCalls(i) => i.check(trace, cas),
        }
    }
}

impl Checker {
    /// The name of the invariant that is checked.
    pub fn name(&self) -> (r: &str)
        ensures
            r@ == spec_title(checked_property(*self)),
    {
        match self {
            Checker::NoDuplicateEffects(_) => "no_duplicate_effects",
            Checker::TerminatesWithin(_) => "terminates_within",
            Checker::TokenBudget(_) => "token_budget",
            Checker::NeverAfterFailure(_) => "never_after_failure",
            Checker::Requires(_) => "requires",
            Checker::MaxCalls(_) => "max_calls",
        }
    }
}

impl InvariantSpec {
    /// Build the checker this describes.
    pub fn build(&self) -> (r: Checker)
        ensures
            checked_property(r) == self@,
    {
        match self {
            InvariantSpec::NoDuplicateEffects { tools, idempotency_key } => {
                let mut check = NoDuplicateEffects::only(copy_list(tools));
                if let Some(field) = idempotency_key {
                    check = check.exempting_idempotent(field.as_str());
                }
                Checker::NoDuplicateEffects(check)
            },
            InvariantSpec::TerminatesWithin { effects } => Checker::TerminatesWithin(
                TerminatesWithin(*effects),
            ),
            InvariantSpec::TokenBudget { tokens } => Checker::TokenBudget(TokenBudget(*tokens)),
            InvariantSpec::NeverAfterFailure { tool, after } => Checker::NeverAfterFailure(
                NeverAfterFailure { tool: tool.clone(), after: after.clone() },
            ),
            InvariantSpec::Requires { tool, then } => Checker::Requires(
                Requires { tool: tool.clone(), then: then.clone() },
            ),
            InvariantSpec::MaxCalls { tool, max } => Checker::MaxCalls(
                MaxCalls { tool: tool.clone(), max: *max },
            ),
        }
    }

    /// A one-line rendering, so that a reader sees the property itself.
    pub fn describe(&self) -> (r: String)
        ensures
            r@ == described(self@),
    {
        match self {
            InvariantSpec::NoDuplicateEffects { tools, idempotency_key } => {
                let mut out = "no duplicate effects on ".to_owned();
                if tools.is_empty() {
                    out.append("every tool");
                } else {
                    out.append(join(tools, ", ").as_str());
                }
                if let Some(k) = idempotency_key {
                    out.append(" (exempting `");
                    out.append(k.as_str());
                    out.append("`)");
                }
                out
            },
            InvariantSpec::TerminatesWithin { effects } => {
                let mut out = "terminates within ".to_owned();
                out.append(show_size(*effects).as_str());
                out.append(" effects");
                out
            },
            InvariantSpec::TokenBudget { tokens } => {
                let mut out = "at most ".to_owned();
                out.append(show(*tokens).as_str());
                out.append(" tokens");
                out
            },
            InvariantSpec::NeverAfterFailure { tool, after } => {
                let mut out = "never `".to_owned();
                out.append(tool.as_str());
                out.append("` after `");
                out.append(after.as_str());
                out.append("` fails");
                out
            },
            InvariantSpec::Requires { tool, then } => {
                let mut out = "`".to_owned();
                out.append(tool.as_str());
                out.append("` requires `");
                out.append(then.as_str());
                out.append("`");
                out
            },
            InvariantSpec::MaxCalls { tool, max } => {
                let mut out = "at most ".to_owned();
                out.append(show_size(*max).as_str());
                out.append(" calls to `");
                out.append(tool.as_str());
                out.append("`");
                out
            },
        }
    }
}

/// The properties an agent must hold.
#[derive(Debug, PartialEq, Eq)]
pub struct Config {
    /// Optional label, for reports.
    pub label: Option<String>,
    pub invariants: Vec<InvariantSpec>,
}

/// What a set of properties is, for contracts.
pub struct ConfigModel {
    pub label: Option<Seq<char>>,
    pub invariants: Seq<SpecModel>,
}

impl View for Config {
    type V = ConfigModel;

    open spec fn view(&self) -> ConfigModel {
        ConfigModel { label: viewed(self.label), invariants: views(self.invariants@) }
    }
}

/// The properties that apply when nobody has declared any.
pub open spec fn conservative() -> ConfigModel {
    ConfigModel { label: None, invariants: seq![SpecModel::TerminatesWithin { effects: 512 }] }
}

impl Config {
    /// The properties that apply when nobody has declared any: only what is
    /// true of every agent, and nothing about side effects.
    pub fn conservative_default() -> (r: Self)
        ensures
            r@ == conservative(),
    {
        let mut invariants: Vec<InvariantSpec> = Vec::new();
        invariants.push(InvariantSpec::TerminatesWithin { effects: 512 });
        assert(views(invariants@) =~= seq![SpecModel::TerminatesWithin { effects: 512 }]);
        Config { label: None, invariants }
    }

    /// Build the checkers these properties describe, in their order.
    pub fn build(&self) -> (r: Vec<Checker>)
        ensures
            r@.len() == self@.invariants.len(),
            forall|i: int|
                0 <= i < r@.len() ==> checked_property(#[trigger] r@[i]) == self@.invariants[i],
    {
        let mut out: Vec<Checker> = Vec::new();
        let mut i: usize = 0;
        while i < self.invariants.len()
            invariant
                i <= self.invariants@.len(),
                out@.len() == i,
                forall|j: int|
                    0 <= j < i ==> checked_property(#[trigger] out@[j]) == self@.invariants[j],
            decreases self.invariants@.len() - i,
        {
            assert(self@.invariants[i as int] == self.invariants@[i as int]@);
            out.push(self.invariants[i].build());
            i += 1;
        }
        out
    }

    /// The properties in words, for a certificate.
    pub fn names(&self) -> (r: Vec<String>)
        ensures
            texts(r@) == Seq::new(
                self@.invariants.len(),
                |i: int| described(self@.invariants[i]),
            ),
    {
        let mut out: Vec<String> = Vec::new();
        let mut i: usize = 0;
        while i < self.invariants.len()
            invariant
                i <= self.invariants@.len(),
                out@.len() == i,
                forall|j: int|
                    0 <= j < i ==> (#[trigger] out@[j])@ == described(self@.invariants[j]),
            decreases self.invariants@.len() - i,
        {
            assert(self@.invariants[i as int] == self.invariants@[i as int]@);
            out.push(self.invariants[i].describe());
            i += 1;
        }
        assert(texts(out@) =~= Seq::new(
            self@.invariants.len(),
            |i: int| described(self@.invariants[i]),
        ));
        out
    }

    /// Whether nothing is declared.
    pub fn is_empty(&self) -> (r: bool)
        ensures
            r == (self@.invariants.len() == 0),
    {
        self.invariants.is_empty()
    }
}

// ---------------------------------------------------------------------------
// Properties as JSON
// ---------------------------------------------------------------------------

/// An optional text, or `null`.
pub open spec fn text_or_null(t: Option<Seq<char>>) -> JsonModel {
    match t {
        Some(t) => JsonModel::Text(t),
        None => JsonModel::Null,
    }
}

/// The fields of a property.
pub open spec fn spec_fields(s: SpecModel) -> Fields {
    let named = put(seq![], "type"@, JsonModel::Text(spec_title(s)));
    match s {
        SpecModel::NoDuplicateEffects { tools, idempotency_key } => put(
            put(named, "tools"@, texts_json(tools)),
            "idempotency_key"@,
            text_or_null(idempotency_key),
        ),
        SpecModel::TerminatesWithin { effects } => put(named, "effects"@, number(effects as u64)),
        SpecModel::TokenBudget { tokens } => put(named, "tokens"@, number(tokens)),
        SpecModel::NeverAfterFailure { tool, after } => put(
            put(named, "tool"@, JsonModel::Text(tool)),
            "after"@,
            JsonModel::Text(after),
        ),
        SpecModel::Requires { tool, then } => put(
            put(named, "tool"@, JsonModel::Text(tool)),
            "then"@,
            JsonModel::Text(then),
        ),
        SpecModel::MaxCalls { tool, max } => put(
            put(named, "tool"@, JsonModel::Text(tool)),
            "max"@,
            number(max as u64),
        ),
    }
}

/// Whether every field of an object is one of these. A typo in a property is
/// an error: believing to enforce what one does not is the worst outcome.
pub open spec fn no_others(m: JsonModel, keys: Seq<Seq<char>>) -> bool {
    match m {
        JsonModel::Object(fields) => forall|i: int|
            0 <= i < fields.len() ==> keys.contains((#[trigger] fields[i]).0),
        _ => true,
    }
}

/// The texts of a field that may be missing.
pub open spec fn texts_or_none(m: Option<JsonModel>) -> Option<Seq<Seq<char>>> {
    match m {
        None => Some(seq![]),
        Some(JsonModel::Array(items)) => texts_in(items),
        Some(_) => None,
    }
}

/// The property a document declares.
pub open spec fn spec_from(m: JsonModel) -> Option<SpecModel> {
    match text_in(field(m, 0, "type"@)) {
        None => None,
        Some(name) => if name == "no_duplicate_effects"@ {
            let tools = texts_or_none(field(m, 1, "tools"@));
            let key = some_text(field(m, 2, "idempotency_key"@));
            if is_record(m, 3) && no_others(m, seq!["type"@, "tools"@, "idempotency_key"@])
                && tools is Some && key is Some {
                Some(SpecModel::NoDuplicateEffects { tools: tools->0, idempotency_key: key->0 })
            } else {
                None
            }
        } else if name == "terminates_within"@ {
            let effects = size_in(field(m, 1, "effects"@));
            if is_record(m, 2) && no_others(m, seq!["type"@, "effects"@]) && effects is Some {
                Some(SpecModel::TerminatesWithin { effects: effects->0 })
            } else {
                None
            }
        } else if name == "token_budget"@ {
            let tokens = whole_in(field(m, 1, "tokens"@));
            if is_record(m, 2) && no_others(m, seq!["type"@, "tokens"@]) && tokens is Some {
                Some(SpecModel::TokenBudget { tokens: tokens->0 })
            } else {
                None
            }
        } else if name == "never_after_failure"@ {
            let tool = text_in(field(m, 1, "tool"@));
            let after = text_in(field(m, 2, "after"@));
            if is_record(m, 3) && no_others(m, seq!["type"@, "tool"@, "after"@]) && tool is Some
                && after is Some {
                Some(SpecModel::NeverAfterFailure { tool: tool->0, after: after->0 })
            } else {
                None
            }
        } else if name == "requires"@ {
            let tool = text_in(field(m, 1, "tool"@));
            let companion = text_in(field(m, 2, "then"@));
            if is_record(m, 3) && no_others(m, seq!["type"@, "tool"@, "then"@]) && tool is Some
                && companion is Some {
                Some(SpecModel::Requires { tool: tool->0, then: companion->0 })
            } else {
                None
            }
        } else if name == "max_calls"@ {
            let tool = text_in(field(m, 1, "tool"@));
            let max = size_in(field(m, 2, "max"@));
            if is_record(m, 3) && no_others(m, seq!["type"@, "tool"@, "max"@]) && tool is Some
                && max is Some {
                Some(SpecModel::MaxCalls { tool: tool->0, max: max->0 })
            } else {
                None
            }
        } else {
            None
        },
    }
}

/// The properties in a list of documents, where each declares one.
pub open spec fn specs_in(items: Seq<JsonModel>) -> Option<Seq<SpecModel>> {
    if forall|i: int| 0 <= i < items.len() ==> spec_from(#[trigger] items[i]) is Some {
        Some(Seq::new(items.len(), |i: int| spec_from(items[i])->0))
    } else {
        None
    }
}

/// The properties of a field that may be missing.
pub open spec fn specs_or_none(m: Option<JsonModel>) -> Option<Seq<SpecModel>> {
    match m {
        None => Some(seq![]),
        Some(JsonModel::Array(items)) => specs_in(items),
        Some(_) => None,
    }
}

/// A set of properties as a document.
pub open spec fn config_json(c: ConfigModel) -> JsonModel {
    JsonModel::Object(
        put(
            put(seq![], "label"@, text_or_null(c.label)),
            "invariant"@,
            JsonModel::Array(
                Seq::new(
                    c.invariants.len(),
                    |i: int| JsonModel::Object(spec_fields(c.invariants[i])),
                ),
            ),
        ),
    )
}

/// The set of properties a document declares.
pub open spec fn config_from(m: JsonModel) -> Option<ConfigModel> {
    let label = some_text(field(m, 0, "label"@));
    let invariants = specs_or_none(field(m, 1, "invariant"@));
    if is_record(m, 2) && label is Some && invariants is Some {
        Some(ConfigModel { label: label->0, invariants: invariants->0 })
    } else {
        None
    }
}

/// `no_others`, decided.
fn check_keys(json: &Json, keys: &Vec<String>) -> (r: bool)
    ensures
        r == no_others(json@, texts(keys@)),
{
    match json {
        Json::Object(fields) => {
            proof {
                crate::json::lemma_object_view(*fields);
            }
            let mut i: usize = 0;
            while i < fields.len()
                invariant
                    i <= fields@.len(),
                    json@ == JsonModel::Object(fields_of(fields@)),
                    forall|j: int|
                        0 <= j < i ==> texts(keys@).contains((#[trigger] fields_of(fields@)[j]).0),
                decreases fields@.len() - i,
            {
                if !holds(keys, fields[i].0.as_str()) {
                    proof {
                        let all = json@->Object_0;
                        assert(all[i as int].0 == fields@[i as int].0@);
                        assert(!texts(keys@).contains(all[i as int].0));
                    }
                    return false;
                }
                i += 1;
            }
            true
        },
        _ => true,
    }
}

/// Two names.
fn two_names(a: &str, b: &str) -> (r: Vec<String>)
    ensures
        texts(r@) == seq![a@, b@],
{
    let mut out: Vec<String> = Vec::new();
    out.push(a.to_owned());
    out.push(b.to_owned());
    assert(texts(out@) =~= seq![a@, b@]);
    out
}

/// Three names.
fn three_names(a: &str, b: &str, c: &str) -> (r: Vec<String>)
    ensures
        texts(r@) == seq![a@, b@, c@],
{
    let mut out: Vec<String> = Vec::new();
    out.push(a.to_owned());
    out.push(b.to_owned());
    out.push(c.to_owned());
    assert(texts(out@) =~= seq![a@, b@, c@]);
    out
}

/// An optional text, or `null`.
fn optional_text(t: &Option<String>) -> (r: Json)
    ensures
        r@ == text_or_null(viewed(*t)),
{
    match t {
        Some(t) => Json::Text(t.clone()),
        None => Json::Null,
    }
}

proof fn lemma_spec_words()
    ensures
        "no_duplicate_effects"@ != "terminates_within"@,
        "no_duplicate_effects"@ != "token_budget"@,
        "no_duplicate_effects"@ != "never_after_failure"@,
        "no_duplicate_effects"@ != "requires"@,
        "no_duplicate_effects"@ != "max_calls"@,
        "terminates_within"@ != "token_budget"@,
        "terminates_within"@ != "never_after_failure"@,
        "terminates_within"@ != "requires"@,
        "terminates_within"@ != "max_calls"@,
        "token_budget"@ != "never_after_failure"@,
        "token_budget"@ != "requires"@,
        "token_budget"@ != "max_calls"@,
        "never_after_failure"@ != "requires"@,
        "never_after_failure"@ != "max_calls"@,
        "requires"@ != "max_calls"@,
{
    reveal_strlit("no_duplicate_effects");
    reveal_strlit("terminates_within");
    reveal_strlit("token_budget");
    reveal_strlit("never_after_failure");
    reveal_strlit("requires");
    reveal_strlit("max_calls");
    assert("no_duplicate_effects"@.len() == 20 && "terminates_within"@.len() == 17
        && "token_budget"@.len() == 12 && "never_after_failure"@.len() == 19 && "requires"@.len()
        == 8 && "max_calls"@.len() == 9);
}

proof fn lemma_spec_keys()
    ensures
        "type"@ != "tools"@,
        "type"@ != "idempotency_key"@,
        "tools"@ != "idempotency_key"@,
        "type"@ != "effects"@,
        "type"@ != "tokens"@,
        "type"@ != "tool"@,
        "type"@ != "after"@,
        "type"@ != "then"@,
        "type"@ != "max"@,
        "tool"@ != "after"@,
        "tool"@ != "then"@,
        "tool"@ != "max"@,
        "label"@ != "invariant"@,
{
    reveal_strlit("type");
    reveal_strlit("tools");
    reveal_strlit("idempotency_key");
    reveal_strlit("effects");
    reveal_strlit("tokens");
    reveal_strlit("tool");
    reveal_strlit("after");
    reveal_strlit("then");
    reveal_strlit("max");
    reveal_strlit("label");
    reveal_strlit("invariant");
    assert("type"@.len() == 4 && "tools"@.len() == 5 && "idempotency_key"@.len() == 15
        && "effects"@.len() == 7 && "tokens"@.len() == 6 && "tool"@.len() == 4 && "after"@.len()
        == 5 && "then"@.len() == 4 && "max"@.len() == 3 && "label"@.len() == 5
        && "invariant"@.len() == 9);
    assert("type"@[1] == 'y' && "tool"@[1] == 'o' && "then"@[1] == 'h');
}

/// A property is read back as it was written.
pub proof fn lemma_spec_back(s: SpecModel)
    ensures
        spec_from(JsonModel::Object(spec_fields(s))) == Some(s),
{
    broadcast use crate::record::lemma_lookup_put;

    lemma_spec_words();
    lemma_spec_keys();
    let f = spec_fields(s);
    let m = JsonModel::Object(f);
    match s {
        SpecModel::NoDuplicateEffects { tools, idempotency_key } => {
            let items = texts_json(tools)->Array_0;
            assert forall|i: int| 0 <= i < items.len() implies crate::json::text(
                #[trigger] items[i],
            ) == Some(tools[i]) by {}
            assert(texts_in(items)->0 =~= tools);
            let keys = seq!["type"@, "tools"@, "idempotency_key"@];
            assert(f[0].0 == keys[0] && f[1].0 == keys[1] && f[2].0 == keys[2] && f.len() == 3);
            assert(no_others(m, keys)) by {
                assert forall|i: int| 0 <= i < f.len() implies keys.contains(
                    (#[trigger] f[i]).0,
                ) by {
                    assert(keys[i] == f[i].0);
                }
            }
        },
        SpecModel::TerminatesWithin { effects } => {
            let keys = seq!["type"@, "effects"@];
            assert(f[0].0 == keys[0] && f[1].0 == keys[1] && f.len() == 2);
            assert(no_others(m, keys)) by {
                assert forall|i: int| 0 <= i < f.len() implies keys.contains(
                    (#[trigger] f[i]).0,
                ) by {
                    assert(keys[i] == f[i].0);
                }
            }
        },
        SpecModel::TokenBudget { tokens } => {
            let keys = seq!["type"@, "tokens"@];
            assert(f[0].0 == keys[0] && f[1].0 == keys[1] && f.len() == 2);
            assert(no_others(m, keys)) by {
                assert forall|i: int| 0 <= i < f.len() implies keys.contains(
                    (#[trigger] f[i]).0,
                ) by {
                    assert(keys[i] == f[i].0);
                }
            }
        },
        SpecModel::NeverAfterFailure { tool, after } => {
            let keys = seq!["type"@, "tool"@, "after"@];
            assert(f[0].0 == keys[0] && f[1].0 == keys[1] && f[2].0 == keys[2] && f.len() == 3);
            assert(no_others(m, keys)) by {
                assert forall|i: int| 0 <= i < f.len() implies keys.contains(
                    (#[trigger] f[i]).0,
                ) by {
                    assert(keys[i] == f[i].0);
                }
            }
        },
        SpecModel::Requires { tool, then } => {
            let keys = seq!["type"@, "tool"@, "then"@];
            assert(f[0].0 == keys[0] && f[1].0 == keys[1] && f[2].0 == keys[2] && f.len() == 3);
            assert(no_others(m, keys)) by {
                assert forall|i: int| 0 <= i < f.len() implies keys.contains(
                    (#[trigger] f[i]).0,
                ) by {
                    assert(keys[i] == f[i].0);
                }
            }
        },
        SpecModel::MaxCalls { tool, max } => {
            let keys = seq!["type"@, "tool"@, "max"@];
            assert(f[0].0 == keys[0] && f[1].0 == keys[1] && f[2].0 == keys[2] && f.len() == 3);
            assert(no_others(m, keys)) by {
                assert forall|i: int| 0 <= i < f.len() implies keys.contains(
                    (#[trigger] f[i]).0,
                ) by {
                    assert(keys[i] == f[i].0);
                }
            }
        },
    }
}

/// A set of properties is read back as it was written.
pub proof fn lemma_config_back(c: ConfigModel)
    ensures
        config_from(config_json(c)) == Some(c),
{
    broadcast use crate::record::lemma_lookup_put;

    lemma_spec_keys();
    let items = Seq::new(
        c.invariants.len(),
        |i: int| JsonModel::Object(spec_fields(c.invariants[i])),
    );
    assert forall|i: int| 0 <= i < items.len() implies spec_from(#[trigger] items[i]) == Some(
        c.invariants[i],
    ) by {
        lemma_spec_back(c.invariants[i]);
    }
    assert(specs_in(items)->0 =~= c.invariants);
    assert(config_from(config_json(c))->0.invariants =~= c.invariants);
}

impl InvariantSpec {
    /// This property as a document.
    pub fn to_json(&self) -> (r: Json)
        ensures
            r@ == JsonModel::Object(spec_fields(self@)),
    {
        let mut fields = no_fields();
        match self {
            InvariantSpec::NoDuplicateEffects { tools, idempotency_key } => {
                put_field(&mut fields, "type", Json::text("no_duplicate_effects"));
                put_field(&mut fields, "tools", list_to_json(tools));
                put_field(&mut fields, "idempotency_key", optional_text(idempotency_key));
            },
            InvariantSpec::TerminatesWithin { effects } => {
                put_field(&mut fields, "type", Json::text("terminates_within"));
                put_field(&mut fields, "effects", Json::whole(*effects as u64));
            },
            InvariantSpec::TokenBudget { tokens } => {
                put_field(&mut fields, "type", Json::text("token_budget"));
                put_field(&mut fields, "tokens", Json::whole(*tokens));
            },
            InvariantSpec::NeverAfterFailure { tool, after } => {
                put_field(&mut fields, "type", Json::text("never_after_failure"));
                put_field(&mut fields, "tool", Json::Text(tool.clone()));
                put_field(&mut fields, "after", Json::Text(after.clone()));
            },
            InvariantSpec::Requires { tool, then } => {
                put_field(&mut fields, "type", Json::text("requires"));
                put_field(&mut fields, "tool", Json::Text(tool.clone()));
                put_field(&mut fields, "then", Json::Text(then.clone()));
            },
            InvariantSpec::MaxCalls { tool, max } => {
                put_field(&mut fields, "type", Json::text("max_calls"));
                put_field(&mut fields, "tool", Json::Text(tool.clone()));
                put_field(&mut fields, "max", Json::whole(*max as u64));
            },
        }
        Json::object(fields)
    }

    /// The property a document declares. Unknown types and unknown fields are
    /// refused.
    pub fn from_json(json: &Json) -> (r: Option<InvariantSpec>)
        ensures
            viewed(r) == spec_from(json@),
    {
        proof {
            lemma_spec_words();
        }
        let name = match read_text(field_of(json, 0, "type")) {
            Some(name) => name,
            None => return None,
        };
        let name = name.as_str();
        if same(name, "no_duplicate_effects") {
            let keys = three_names("type", "tools", "idempotency_key");
            if !check_record(json, 3) || !check_keys(json, &keys) {
                return None;
            }
            let tools = match field_of(json, 1, "tools") {
                None => {
                    let none: Vec<String> = Vec::new();
                    assert(texts(none@) =~= seq![]);
                    none
                },
                Some(Json::Array(items)) => {
                    proof {
                        crate::json::lemma_array_view(*items);
                    }
                    match read_list(items) {
                        Some(list) => list,
                        None => return None,
                    }
                },
                Some(_) => return None,
            };
            let key_field = field_of(json, 2, "idempotency_key");
            let idempotency_key = if is_left_out(key_field) {
                None
            } else {
                match read_text(key_field) {
                    Some(t) => Some(t),
                    None => return None,
                }
            };
            Some(InvariantSpec::NoDuplicateEffects { tools, idempotency_key })
        } else if same(name, "terminates_within") {
            let keys = two_names("type", "effects");
            if !check_record(json, 2) || !check_keys(json, &keys) {
                return None;
            }
            match read_size(field_of(json, 1, "effects")) {
                Some(effects) => Some(InvariantSpec::TerminatesWithin { effects }),
                None => None,
            }
        } else if same(name, "token_budget") {
            let keys = two_names("type", "tokens");
            if !check_record(json, 2) || !check_keys(json, &keys) {
                return None;
            }
            match read_whole(field_of(json, 1, "tokens")) {
                Some(tokens) => Some(InvariantSpec::TokenBudget { tokens }),
                None => None,
            }
        } else if same(name, "never_after_failure") {
            let keys = three_names("type", "tool", "after");
            if !check_record(json, 3) || !check_keys(json, &keys) {
                return None;
            }
            match (read_text(field_of(json, 1, "tool")), read_text(field_of(json, 2, "after"))) {
                (Some(tool), Some(after)) => Some(
                    InvariantSpec::NeverAfterFailure { tool, after },
                ),
                _ => None,
            }
        } else if same(name, "requires") {
            let keys = three_names("type", "tool", "then");
            if !check_record(json, 3) || !check_keys(json, &keys) {
                return None;
            }
            match (read_text(field_of(json, 1, "tool")), read_text(field_of(json, 2, "then"))) {
                (Some(tool), Some(then)) => Some(InvariantSpec::Requires { tool, then }),
                _ => None,
            }
        } else if same(name, "max_calls") {
            let keys = three_names("type", "tool", "max");
            if !check_record(json, 3) || !check_keys(json, &keys) {
                return None;
            }
            match (read_text(field_of(json, 1, "tool")), read_size(field_of(json, 2, "max"))) {
                (Some(tool), Some(max)) => Some(InvariantSpec::MaxCalls { tool, max }),
                _ => None,
            }
        } else {
            None
        }
    }
}

impl Config {
    /// These properties as a document.
    pub fn to_json(&self) -> (r: Json)
        ensures
            r@ == config_json(self@),
    {
        let mut items: Vec<Json> = Vec::new();
        let mut i: usize = 0;
        while i < self.invariants.len()
            invariant
                i <= self.invariants@.len(),
                items@.len() == i,
                forall|j: int|
                    0 <= j < i ==> (#[trigger] items@[j])@ == JsonModel::Object(
                        spec_fields(self@.invariants[j]),
                    ),
            decreases self.invariants@.len() - i,
        {
            assert(self@.invariants[i as int] == self.invariants@[i as int]@);
            items.push(self.invariants[i].to_json());
            i += 1;
        }
        assert(items_of(items@) =~= Seq::new(
            self@.invariants.len(),
            |i: int| JsonModel::Object(spec_fields(self@.invariants[i])),
        ));
        let mut fields = no_fields();
        put_field(&mut fields, "label", optional_text(&self.label));
        put_field(&mut fields, "invariant", Json::array(items));
        Json::object(fields)
    }

    /// The properties a document declares.
    pub fn from_json(json: &Json) -> (r: Option<Config>)
        ensures
            viewed(r) == config_from(json@),
    {
        if !check_record(json, 2) {
            return None;
        }
        let label_field = field_of(json, 0, "label");
        let label = if is_left_out(label_field) {
            None
        } else {
            match read_text(label_field) {
                Some(t) => Some(t),
                None => return None,
            }
        };
        let mut invariants: Vec<InvariantSpec> = Vec::new();
        match field_of(json, 1, "invariant") {
            None => {
                assert(views(invariants@) =~= seq![]);
            },
            Some(Json::Array(items)) => {
                proof {
                    crate::json::lemma_array_view(*items);
                }
                let ghost all = items_of(items@);
                let mut i: usize = 0;
                while i < items.len()
                    invariant
                        i <= items@.len(),
                        all == items_of(items@),
                        is_record(json@, 2),
                        specs_or_none(field(json@, 1, "invariant"@)) == specs_in(all),
                        invariants@.len() == i,
                        forall|j: int|
                            0 <= j < i ==> spec_from(#[trigger] all[j]) == Some(invariants@[j]@),
                    decreases items@.len() - i,
                {
                    assert(all[i as int] == items@[i as int]@);
                    match InvariantSpec::from_json(&items[i]) {
                        Some(s) => {
                            invariants.push(s);
                        },
                        None => {
                            return None;
                        },
                    }
                    i += 1;
                }
                assert(specs_in(all)->0 =~= views(invariants@));
            },
            Some(_) => return None,
        }
        Some(Config { label, invariants })
    }
}

// ---------------------------------------------------------------------------
// Properties from a file
// ---------------------------------------------------------------------------

/// Why a file declares no properties that can be enforced.
#[derive(Debug, PartialEq, Eq)]
pub enum ConfigError {
    /// It is no TOML.
    Toml { message: String },
    /// It declares something that is not known, or not as it should be.
    Malformed { reason: String },
    /// It declares nothing: a sweep against no properties would always pass.
    Empty,
}

/// What is wrong with the file at a path, in words.
pub open spec fn config_trouble(e: ConfigError, path: Seq<char>) -> Seq<char> {
    match e {
        ConfigError::Toml { message } => path + ": "@ + message@,
        ConfigError::Malformed { reason } => path + ": "@ + reason@,
        ConfigError::Empty => path
            + " declares no invariants; a sweep against no properties always passes"@,
    }
}

impl ConfigError {
    /// What is wrong with the file at a path, in words.
    pub fn report(&self, path: &str) -> (r: String)
        ensures
            r@ == config_trouble(*self, path@),
    {
        let mut out = path.to_owned();
        match self {
            ConfigError::Toml { message } => {
                out.append(": ");
                out.append(message.as_str());
            },
            ConfigError::Malformed { reason } => {
                out.append(": ");
                out.append(reason.as_str());
            },
            ConfigError::Empty => {
                out.append(
                    " declares no invariants; a sweep against no properties always passes",
                );
            },
        }
        out
    }
}

/// Whether `null` stands in what a configuration reads under a key.
pub open spec fn null_under(m: JsonModel, key: Seq<char>) -> bool {
    get(m, key) matches Some(v) && holds_null(v)
}

/// The properties that a TOML document declares. TOML has no `null`: where it
/// appears in what is read, a number was not finite.
pub open spec fn config_in(m: JsonModel) -> Option<ConfigModel> {
    if null_under(m, "label"@) || null_under(m, "invariant"@) {
        None
    } else {
        config_from(m)
    }
}

/// Whether a document declares a property. No `null` stands in one.
pub open spec fn declares(m: JsonModel) -> bool {
    !holds_null(m) && spec_from(m) is Some
}

/// Where the first document in a list stands that declares no property, at or
/// behind a place.
pub open spec fn first_undeclared(items: Seq<JsonModel>, i: nat) -> nat
    decreases items.len() - i,
{
    if i >= items.len() || !declares(items[i as int]) {
        i
    } else {
        first_undeclared(items, i + 1)
    }
}

/// Why a document declares no set of properties.
pub open spec fn config_refusal(m: JsonModel) -> Seq<char> {
    if !is_record(m, 2) {
        "expected a table"@
    } else if null_under(m, "label"@) || some_text(field(m, 0, "label"@)) is None {
        "`label` is not a string"@
    } else {
        match field(m, 1, "invariant"@) {
            Some(JsonModel::Array(items)) => "invariant "@ + decimal(
                first_undeclared(items, 0) + 1,
            ) + " is unknown or malformed"@,
            _ => "`invariant` is not a list"@,
        }
    }
}

/// Whether `null` stands in what a configuration reads under a key.
fn has_null_under(json: &Json, key: &str) -> (r: bool)
    ensures
        r == null_under(json@, key@),
{
    match json.get(key) {
        Some(v) => v.has_null(),
        None => false,
    }
}

/// Why a document declares no set of properties.
fn why_refused(json: &Json) -> (r: String)
    requires
        config_in(json@) is None,
    ensures
        r@ == config_refusal(json@),
{
    if !check_record(json, 2) {
        return "expected a table".to_owned();
    }
    let label = field_of(json, 0, "label");
    if has_null_under(json, "label") || !(is_left_out(label) || read_text(label).is_some()) {
        return "`label` is not a string".to_owned();
    }
    match field_of(json, 1, "invariant") {
        Some(Json::Array(items)) => {
            proof {
                crate::json::lemma_array_view(*items);
            }
            let ghost all = items_of(items@);
            let mut i: usize = 0;
            while i < items.len() && !items[i].has_null() && InvariantSpec::from_json(
                &items[i],
            ).is_some()
                invariant
                    i <= items@.len(),
                    all == items_of(items@),
                    first_undeclared(all, 0) == first_undeclared(all, i as nat),
                    forall|j: int| 0 <= j < i ==> declares(#[trigger] all[j]),
                decreases items@.len() - i,
            {
                assert(all[i as int] == items@[i as int]@);
                i += 1;
            }
            assert(i < items@.len()) by {
                if i == items@.len() {
                    assert forall|j: int| 0 <= j < all.len() implies spec_from(
                        #[trigger] all[j],
                    ) is Some by {
                        assert(declares(all[j]));
                    }
                    assert(!holds_null(JsonModel::Array(all)));
                    assert(specs_in(all) is Some);
                    assert(config_from(json@) is Some);
                }
            }
            assert(all[i as int] == items@[i as int]@);
            let mut out = "invariant ".to_owned();
            out.append(show_size(i + 1).as_str());
            out.append(" is unknown or malformed");
            out
        },
        _ => "`invariant` is not a list".to_owned(),
    }
}

impl Config {
    /// The properties that a document declares, which must be some.
    pub fn from_document(json: &Json) -> (r: Result<Config, ConfigError>)
        ensures
            match r {
                Ok(c) => config_in(json@) == Some(c@) && c@.invariants.len() > 0,
                Err(ConfigError::Toml { .. }) => false,
                Err(ConfigError::Malformed { reason }) => config_in(json@) is None && reason@
                    == config_refusal(json@),
                Err(ConfigError::Empty) => config_in(json@) is Some && config_in(
                    json@,
                )->0.invariants.len() == 0,
            },
    {
        if has_null_under(json, "label") || has_null_under(json, "invariant") {
            return Err(ConfigError::Malformed { reason: why_refused(json) });
        }
        match Config::from_json(json) {
            Some(config) => if config.is_empty() {
                Err(ConfigError::Empty)
            } else {
                Ok(config)
            },
            None => Err(ConfigError::Malformed { reason: why_refused(json) }),
        }
    }

    /// The properties that a TOML text declares, which must be some.
    pub fn from_toml(text: &str) -> (r: Result<Config, ConfigError>)
        ensures
            match r {
                Ok(c) => toml_read(text@) is Some && config_in(toml_read(text@)->0) == Some(c@)
                    && c@.invariants.len() > 0,
                Err(ConfigError::Toml { message }) => toml_reading(text@) == Err::<
                    JsonModel,
                    Seq<char>,
                >(message@),
                Err(ConfigError::Malformed { reason }) => toml_read(text@) is Some && config_in(
                    toml_read(text@)->0,
                ) is None && reason@ == config_refusal(toml_read(text@)->0),
                Err(ConfigError::Empty) => toml_read(text@) is Some && config_in(
                    toml_read(text@)->0,
                ) is Some && config_in(toml_read(text@)->0)->0.invariants.len() == 0,
            },
    {
        match Json::from_toml(text) {
            Ok(json) => Config::from_document(&json),
            Err(message) => Err(ConfigError::Toml { message }),
        }
    }
}

} // verus!
