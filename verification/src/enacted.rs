//! What the scripted agents and the world they act on are for: a tool that really
//! changes something, answers that are refused or lost, and an agent that retries.

use crate::event::{value_of, EffectKind, OutcomeModel, RequestModel};
use crate::json::{get, JsonModel, NumberModel};
use crate::offscript::mentions;
use crate::record::{lemma_lookup_put, lemma_lookup_put_some};
use crate::testkit::{
    answered, delete_request, deleted, executed, heard, model_reply, plan_request, planned_path,
    question_of, remaining, render_request, save_request, section_in, sections_of,
    summary_request, text_under, tool_reply, AgentModel, BackendModel, Style, Turn, WorldModel,
};
use crate::text::joined;
use vstd::prelude::*;

verus! {

// ---------------------------------------------------------------------------
// The world
// ---------------------------------------------------------------------------

/// A delete without a key changes the world every time that it is performed.
pub proof fn lemma_unkeyed_delete_repeats(world: WorldModel, args: JsonModel, path: Seq<char>)
    requires
        text_under(args, "path"@) == Some(path),
        text_under(args, "idempotency_key"@) is None,
    ensures
        ({
            let (first, once) = deleted(world, args);
            let (second, twice) = deleted(once, args);
            &&& first is Success && second is Success
            &&& once.deletes == world.deletes.push(path)
            &&& twice.deletes == world.deletes.push(path).push(path)
        }),
{
}

/// A delete with a key changes the world once. Every later one with that key is
/// answered as a success, and says that it did nothing.
pub proof fn lemma_keyed_delete_once(
    world: WorldModel,
    args: JsonModel,
    path: Seq<char>,
    key: Seq<char>,
)
    requires
        text_under(args, "path"@) == Some(path),
        text_under(args, "idempotency_key"@) == Some(key),
        !world.applied.contains(key),
    ensures
        ({
            let (first, once) = deleted(world, args);
            let (second, twice) = deleted(once, args);
            &&& first is Success && second is Success
            &&& once.deletes == world.deletes.push(path)
            &&& twice == once
            &&& get(value_of(second)->0, "deduplicated"@) == Some(JsonModel::Bool(true))
            &&& get(value_of(first)->0, "deduplicated"@) is None
        }),
{
    broadcast use lemma_lookup_put;

    let once = deleted(world, args).1;
    assert(once.applied[world.applied.len() as int] == key);
    reveal_strlit("deduplicated");
    reveal_strlit("path");
    reveal_strlit("ok");
    assert("deduplicated"@.len() == 12 && "path"@.len() == 4 && "ok"@.len() == 2);
}

/// Only the delete changes the world. A section that is rendered is its name in
/// brackets, and a tool that is not known fails under a code of its own.
pub proof fn lemma_tools_harmless(world: WorldModel, name: Seq<char>, args: JsonModel)
    ensures
        name != "delete_file"@ ==> executed(world, name, args).1 == world,
        name == "delete_file"@ ==> executed(world, name, args) == deleted(world, args),
        name != "delete_file"@ && name != "render_section"@ && name != "save_document"@ ==> (
        executed(world, name, args).0 matches OutcomeModel::Failure { code, message } && code
            == "unknown_tool"@ && mentions(message, name)),
        name == "save_document"@ ==> executed(world, name, args).0 is Success,
{
    lemma_tool_words();
    let message = "no such tool: "@ + name;
    assert(message =~= ("no such tool: "@ + name) + Seq::<char>::empty());
}

proof fn lemma_tool_words()
    ensures
        "delete_file"@ != "render_section"@,
        "delete_file"@ != "save_document"@,
        "render_section"@ != "save_document"@,
{
    reveal_strlit("delete_file");
    reveal_strlit("render_section");
    reveal_strlit("save_document");
    assert("delete_file"@.len() == 11 && "render_section"@.len() == 14 && "save_document"@.len()
        == 13);
}

/// A section that is asked for by name is answered with that name in brackets,
/// and what is saved is what was assembled, a line for each.
pub proof fn lemma_sections_rendered(world: WorldModel, name: Seq<char>, document: Seq<Seq<char>>)
    ensures
        ({
            let r = render_request(name);
            &&& r.kind == EffectKind::Tool
            &&& section_in(executed(world, r.name, r.body).0) == Some("<"@ + name + ">"@)
        }),
        save_request(document).kind == EffectKind::Tool,
        executed(world, save_request(document).name, save_request(document).body).0 is Success,
        text_under(save_request(document).body, "content"@) == Some(joined(document, "\n"@)),
{
    broadcast use lemma_lookup_put;

    lemma_tool_words();
}

/// One more answer adds its section behind the others, or none where it holds
/// none.
pub proof fn lemma_section_added(outcomes: Seq<OutcomeModel>, o: OutcomeModel)
    ensures
        sections_of(Seq::<OutcomeModel>::empty()).len() == 0,
        section_in(o) matches Some(section) ==> sections_of(outcomes.push(o)) == sections_of(
            outcomes,
        ).push(section),
        section_in(o) is None ==> sections_of(outcomes.push(o)) == sections_of(outcomes),
        o is Failure ==> section_in(o) is None,
{
    assert(outcomes.push(o).drop_last() =~= outcomes);
}

// ---------------------------------------------------------------------------
// Refusals and losses
// ---------------------------------------------------------------------------

/// A refused call did nothing, a lost answer hides what was done, and the agent
/// sees the same code for both: it cannot tell them apart. Each is used up once,
/// for its own tool only.
pub proof fn lemma_refused_or_lost(
    b: BackendModel,
    name: Seq<char>,
    args: JsonModel,
    other: Seq<char>,
)
    ensures
        ({
            let (o, after) = tool_reply(b, name, args);
            &&& remaining(b.flaky, name) > 0 ==> {
                &&& o matches OutcomeModel::Failure { code, .. } && code == "timeout"@
                &&& after.world == b.world
                &&& remaining(after.flaky, name) == remaining(b.flaky, name) - 1
                &&& after.lossy == b.lossy
            }
            &&& remaining(b.flaky, name) == 0 ==> after.world == executed(b.world, name, args).1
            &&& remaining(b.flaky, name) == 0 && remaining(b.lossy, name) > 0 ==> {
                &&& remaining(after.lossy, name) == remaining(b.lossy, name) - 1
                &&& executed(b.world, name, args).0 is Success ==> o is Failure && o->code
                    == "timeout"@
            }
            &&& remaining(b.flaky, name) == 0 && remaining(b.lossy, name) == 0 ==> {
                &&& o == executed(b.world, name, args).0
                &&& after.lossy == b.lossy && after.flaky == b.flaky
            }
            &&& other != name ==> remaining(after.flaky, other) == remaining(b.flaky, other)
                && remaining(after.lossy, other) == remaining(b.lossy, other)
            &&& after.clock == b.clock
            &&& after.rng == b.rng
        }),
{
}

/// A clock moves on with each reading and tells where it moved to; a model, a
/// clock and a random draw leave the world as it is.
pub proof fn lemma_only_tools_act(b: BackendModel, r: RequestModel)
    ensures
        r.kind != EffectKind::Tool ==> answered(b, r).1.world == b.world && answered(b, r).0
            is Success,
        r.kind == EffectKind::Clock ==> {
            &&& value_of(answered(b, r).0) == Some(
                JsonModel::Number(NumberModel::Unsigned(answered(b, r).1.clock)),
            )
            &&& b.clock < u64::MAX ==> answered(b, r).1.clock > b.clock
        },
        r.kind != EffectKind::Clock ==> answered(b, r).1.clock == b.clock,
        r.kind != EffectKind::Random ==> answered(b, r).1.rng == b.rng,
        r.kind == EffectKind::Tool ==> answered(b, r) == tool_reply(b, r.name, r.body),
{
    reveal(answered);
}

// ---------------------------------------------------------------------------
// The agent
// ---------------------------------------------------------------------------

proof fn lemma_plan_words()
    ensures
        "tool"@ != "arguments"@,
        "content"@ != "usage"@,
        "step"@ != "task"@,
        "step"@ != "succeeded"@,
        "plan"@ != "summarise"@,
        "input_tokens"@ != "output_tokens"@,
        "path"@ != "idempotency_key"@,
{
    reveal_strlit("tool");
    reveal_strlit("arguments");
    reveal_strlit("content");
    reveal_strlit("usage");
    reveal_strlit("step");
    reveal_strlit("task");
    reveal_strlit("succeeded");
    reveal_strlit("plan");
    reveal_strlit("summarise");
    reveal_strlit("input_tokens");
    reveal_strlit("output_tokens");
    reveal_strlit("path");
    reveal_strlit("idempotency_key");
    assert("tool"@.len() == 4 && "arguments"@.len() == 9 && "content"@.len() == 7 && "usage"@.len()
        == 5 && "plan"@.len() == 4 && "summarise"@.len() == 9 && "input_tokens"@.len() == 12
        && "output_tokens"@.len() == 13 && "path"@.len() == 4 && "idempotency_key"@.len() == 15
        && "succeeded"@.len() == 9);
    assert("step"@[0] == 's' && "task"@[0] == 't');
}

/// The agent deletes what the plan names, whatever that is. What the model plans
/// when it is asked to is the stale report, by the tool that deletes.
pub proof fn lemma_plan_followed(plan: OutcomeModel, path: Seq<char>)
    ensures
        ({
            &&& value_of(plan) is Some
            &&& get(value_of(plan)->0, "content"@) is Some
            &&& get(get(value_of(plan)->0, "content"@)->0, "arguments"@) is Some
            &&& text_under(
                get(get(value_of(plan)->0, "content"@)->0, "arguments"@)->0,
                "path"@,
            ) == Some(path)
        }) ==> planned_path(plan) == path,
        planned_path(model_reply(plan_request().body)) == "/var/reports/stale.csv"@,
        text_under(
            get(value_of(model_reply(plan_request().body))->0, "content"@)->0,
            "tool"@,
        ) == Some("delete_file"@),
{
    broadcast use lemma_lookup_put;

    lemma_plan_words();
}

/// Every answer of the model says what it used up: tokens in and tokens out.
pub proof fn lemma_usage_told(body: JsonModel)
    ensures
        model_reply(body) is Success,
        ({
            let usage = get(value_of(model_reply(body))->0, "usage"@);
            &&& usage is Some
            &&& get(usage->0, "input_tokens"@) == Some(
                JsonModel::Number(NumberModel::Unsigned(120)),
            )
            &&& get(usage->0, "output_tokens"@) == Some(
                JsonModel::Number(NumberModel::Unsigned(40)),
            )
        }),
{
    broadcast use lemma_lookup_put;

    lemma_plan_words();
}

/// A naive agent sends no key. An idempotent one sends a key that depends on the
/// path alone, so that every attempt on a path has the same key and no two paths
/// share one.
pub proof fn lemma_keys_sent(path: Seq<char>, other: Seq<char>)
    ensures
        delete_request(Style::Naive, path).kind == EffectKind::Tool,
        delete_request(Style::Naive, path).name == "delete_file"@,
        delete_request(Style::Idempotent, path).kind == EffectKind::Tool,
        delete_request(Style::Idempotent, path).name == "delete_file"@,
        text_under(delete_request(Style::Naive, path).body, "path"@) == Some(path),
        text_under(delete_request(Style::Idempotent, path).body, "path"@) == Some(path),
        text_under(delete_request(Style::Naive, path).body, "idempotency_key"@) is None,
        text_under(delete_request(Style::Idempotent, path).body, "idempotency_key"@) is Some,
        path != other ==> text_under(
            delete_request(Style::Idempotent, path).body,
            "idempotency_key"@,
        ) != text_under(delete_request(Style::Idempotent, other).body, "idempotency_key"@),
{
    broadcast use lemma_lookup_put, lemma_lookup_put_some;

    lemma_plan_words();
    let n = "delete:"@.len() as int;
    assert(("delete:"@ + path).skip(n) =~= path);
    assert(("delete:"@ + other).skip(n) =~= other);
}

/// An agent that tries asks for the same delete as before. A success is the last
/// try; behind a failure it draws, reads the clock, and tries again while it has
/// made fewer than three tries. It then sums up whether it succeeded, and is done.
pub proof fn lemma_agent_retries(
    a: AgentModel,
    o: OutcomeModel,
    drawn: OutcomeModel,
    read: OutcomeModel,
)
    requires
        a.turn == Turn::Try,
    ensures
        question_of(a) == Some(delete_request(a.style, a.path)),
        heard(a, o).attempts == a.attempts + 1,
        o is Success ==> {
            &&& heard(a, o).succeeded
            &&& question_of(heard(a, o)) == Some(summary_request(true))
            &&& question_of(heard(heard(a, o), drawn)) is None
        },
        o is Failure ==> {
            let after = heard(heard(heard(a, o), drawn), read);
            &&& question_of(heard(a, o)) == Some(
                RequestModel {
                    kind: EffectKind::Random,
                    name: "next_f64"@,
                    body: JsonModel::Null,
                },
            )
            &&& question_of(heard(heard(a, o), drawn)) == Some(
                RequestModel { kind: EffectKind::Clock, name: "now_ms"@, body: JsonModel::Null },
            )
            &&& after.attempts == a.attempts + 1
            &&& after.attempts < 3 ==> question_of(after) == question_of(a)
            &&& after.attempts >= 3 ==> question_of(after) == Some(summary_request(a.succeeded))
        },
{
}

/// A summary tells whether the agent succeeded.
pub proof fn lemma_summary_tells(succeeded: bool)
    ensures
        summary_request(succeeded).kind == EffectKind::Model,
        get(summary_request(succeeded).body, "succeeded"@) == Some(JsonModel::Bool(succeeded)),
        model_reply(summary_request(succeeded).body) == model_reply(
            summary_request(!succeeded).body,
        ),
{
    broadcast use lemma_lookup_put;

    lemma_plan_words();
    assert(text_under(summary_request(succeeded).body, "step"@) == Some("summarise"@));
    assert(text_under(summary_request(!succeeded).body, "step"@) == Some("summarise"@));
}

} // verus!
