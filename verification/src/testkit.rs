//! A deterministic world, and agents to test in it.
//!
//! The model, the tools, the clock and the randomness are deterministic
//! fakes, so everything can be shown without a network, a key or a bill. The
//! agents are written the way agents are: ask the model what to do, call the
//! tool, retry on failure with jittered backoff. That retry loop is the bug.

use crate::cas::Cas;
use crate::event::{
    clock_request, random_request, value_of, EffectKind, EffectRequest, Outcome, OutcomeModel,
    RequestModel,
};
use crate::fault::is_order;
use crate::json::{get, text, Json, JsonModel, Number, NumberModel};
use crate::model::{viewed, views};
use crate::record::{no_fields, number, put, put_field, put_some};
use crate::replay::{
    batch_tag, completion, exchanges, observed_through, Backend, Effects, Exchange, Recorder,
};
use crate::replayer::{
    batch_begun, batch_performed, completion_order, performed, steps_run, ticked, ReplayState,
    Replayer, Step,
};
use crate::rng::{drawn_fraction, moved, seeded, Rng, RngModel};
use crate::text::{holds, join, joined, same, texts, times_in};
use vstd::prelude::*;

verus! {

// ---------------------------------------------------------------------------
// The world
// ---------------------------------------------------------------------------

/// The state the tools act on. It records what really happened, rather than
/// what the agent believed.
#[derive(Debug)]
pub struct World {
    /// Every delete that really changed something, in order.
    pub deletes: Vec<String>,
    /// The idempotency keys already honoured.
    applied: Vec<String>,
}

/// What a world is, for contracts.
#[verifier::ext_equal]
pub struct WorldModel {
    pub deletes: Seq<Seq<char>>,
    pub applied: Seq<Seq<char>>,
}

impl View for World {
    type V = WorldModel;

    closed spec fn view(&self) -> WorldModel {
        WorldModel { deletes: texts(self.deletes@), applied: texts(self.applied@) }
    }
}

impl World {
    /// A world in which nothing has happened.
    pub fn new() -> (r: Self)
        ensures
            r@ == (WorldModel { deletes: seq![], applied: seq![] }),
    {
        let world = World { deletes: Vec::new(), applied: Vec::new() };
        assert(world@ =~= (WorldModel { deletes: seq![], applied: seq![] }));
        world
    }

    /// How often the world was really changed for `path`.
    pub fn delete_count(&self, path: &str) -> (r: usize)
        ensures
            r == times_in(self@.deletes, path@),
    {
        let ghost all = texts(self.deletes@);
        let mut count: usize = 0;
        let mut i: usize = 0;
        assert(all.take(0) =~= seq![]);
        while i < self.deletes.len()
            invariant
                i <= self.deletes@.len(),
                all == texts(self.deletes@),
                count <= i,
                count == times_in(all.take(i as int), path@),
            decreases self.deletes@.len() - i,
        {
            assert(all.take(i + 1).drop_last() =~= all.take(i as int));
            assert(all.take(i + 1).last() == self.deletes@[i as int]@);
            if same(self.deletes[i].as_str(), path) {
                count += 1;
            }
            i += 1;
        }
        assert(all.take(i as int) =~= all);
        count
    }
}

impl Default for World {
    fn default() -> (r: Self)
        ensures
            r@ == (WorldModel { deletes: seq![], applied: seq![] }),
    {
        World::new()
    }
}

// ---------------------------------------------------------------------------
// Scripted failures
// ---------------------------------------------------------------------------

/// What a script says of each tool: its last entry for it counts.
pub open spec fn script(entries: Seq<(String, usize)>) -> Map<Seq<char>, usize>
    decreases entries.len(),
{
    if entries.len() == 0 {
        Map::empty()
    } else {
        script(entries.drop_last()).insert(entries.last().0@, entries.last().1)
    }
}

/// How often a tool still has to fail.
pub open spec fn remaining(script: Map<Seq<char>, usize>, tool: Seq<char>) -> usize {
    if script.dom().contains(tool) {
        script[tool]
    } else {
        0
    }
}

/// How often a tool still has to fail.
fn count_remaining(entries: &Vec<(String, usize)>, tool: &str) -> (r: usize)
    ensures
        r == remaining(script(entries@), tool@),
{
    let mut i: usize = entries.len();
    assert(entries@.take(i as int) =~= entries@);
    while i > 0
        invariant
            i <= entries@.len(),
            remaining(script(entries@), tool@) == remaining(script(entries@.take(i as int)), tool@),
        decreases i,
    {
        i -= 1;
        assert(entries@.take(i + 1).drop_last() =~= entries@.take(i as int));
        if same(entries[i].0.as_str(), tool) {
            return entries[i].1;
        }
    }
    0
}

/// Scripts how often a tool has to fail from now on.
fn set_remaining(entries: &mut Vec<(String, usize)>, tool: &str, times: usize)
    ensures
        script(final(entries)@) == script(old(entries)@).insert(tool@, times),
{
    let ghost before = entries@;
    entries.push((tool.to_owned(), times));
    assert(entries@.drop_last() =~= before);
}

// ---------------------------------------------------------------------------
// The backend
// ---------------------------------------------------------------------------

/// A deterministic stand-in for the model, the tools and the clock.
#[derive(Debug)]
pub struct FakeBackend {
    pub world: World,
    rng: Rng,
    clock_ms: u64,
    /// How often each tool still refuses to be called.
    flaky: Vec<(String, usize)>,
    /// How often each tool still does its work and loses the response.
    lossy: Vec<(String, usize)>,
}

/// What a backend is, for contracts.
#[verifier::ext_equal]
pub struct BackendModel {
    pub world: WorldModel,
    pub rng: RngModel,
    pub clock: u64,
    pub flaky: Map<Seq<char>, usize>,
    pub lossy: Map<Seq<char>, usize>,
}

impl View for FakeBackend {
    type V = BackendModel;

    closed spec fn view(&self) -> BackendModel {
        BackendModel {
            world: self.world@,
            rng: self.rng@,
            clock: self.clock_ms,
            flaky: script(self.flaky@),
            lossy: script(self.lossy@),
        }
    }
}

/// A backend in which nothing has happened, and where nothing is scripted to
/// fail.
pub open spec fn calm(seed: u64) -> BackendModel {
    BackendModel {
        world: WorldModel { deletes: seq![], applied: seq![] },
        rng: seeded(seed),
        clock: 1_700_000_000_000,
        flaky: Map::empty(),
        lossy: Map::empty(),
    }
}

/// The text that a document holds under a key, or none at all.
pub open spec fn text_under(m: JsonModel, key: Seq<char>) -> Option<Seq<char>> {
    match get(m, key) {
        Some(v) => text(v),
        None => None,
    }
}

/// The text of an option, or the empty one.
pub open spec fn or_empty(t: Option<Seq<char>>) -> Seq<char> {
    match t {
        Some(t) => t,
        None => seq![],
    }
}

/// What the model plans for the agent that deletes a report.
pub open spec fn planned_content() -> JsonModel {
    JsonModel::Object(
        put(
            put(seq![], "tool"@, JsonModel::Text("delete_file"@)),
            "arguments"@,
            JsonModel::Object(
                put(seq![], "path"@, JsonModel::Text("/var/reports/stale.csv"@)),
            ),
        ),
    )
}

/// What the model says otherwise.
pub open spec fn closing_content() -> JsonModel {
    JsonModel::Object(put(seq![], "text"@, JsonModel::Text("Done. Removed the stale report."@)))
}

/// What the model answers: a lookup on the step that is asked about.
pub open spec fn model_reply(body: JsonModel) -> OutcomeModel {
    let usage = JsonModel::Object(
        put(put(seq![], "input_tokens"@, number(120)), "output_tokens"@, number(40)),
    );
    let content = if or_empty(text_under(body, "step"@)) == "plan"@ {
        planned_content()
    } else {
        closing_content()
    };
    OutcomeModel::Success {
        value: JsonModel::Object(put(put(seq![], "content"@, content), "usage"@, usage)),
    }
}

/// A success that says only that it is one.
pub open spec fn all_good() -> crate::record::Fields {
    put(seq![], "ok"@, JsonModel::Bool(true))
}

/// What deleting a file answers, and the world after it. A key that was
/// honoured before changes nothing any more.
pub open spec fn deleted(world: WorldModel, args: JsonModel) -> (OutcomeModel, WorldModel) {
    let path = or_empty(text_under(args, "path"@));
    let key = text_under(args, "idempotency_key"@);
    if key is Some && world.applied.contains(key->0) {
        (
            OutcomeModel::Success {
                value: JsonModel::Object(put(all_good(), "deduplicated"@, JsonModel::Bool(true))),
            },
            world,
        )
    } else {
        (
            OutcomeModel::Success {
                value: JsonModel::Object(put(all_good(), "path"@, JsonModel::Text(path))),
            },
            WorldModel {
                deletes: world.deletes.push(path),
                applied: match key {
                    Some(k) => world.applied.push(k),
                    None => world.applied,
                },
            },
        )
    }
}

/// What a tool answers that does its work, and the world after it.
pub open spec fn executed(world: WorldModel, name: Seq<char>, args: JsonModel) -> (
    OutcomeModel,
    WorldModel,
) {
    if name == "delete_file"@ {
        deleted(world, args)
    } else if name == "render_section"@ {
        let section = "<"@ + or_empty(text_under(args, "name"@)) + ">"@;
        (
            OutcomeModel::Success {
                value: JsonModel::Object(put(seq![], "text"@, JsonModel::Text(section))),
            },
            world,
        )
    } else if name == "save_document"@ {
        (OutcomeModel::Success { value: JsonModel::Object(all_good()) }, world)
    } else {
        (
            OutcomeModel::Failure { code: "unknown_tool"@, message: "no such tool: "@ + name },
            world,
        )
    }
}

/// What a tool answers, and the backend after it: a scripted refusal, or its
/// work, with the response lost where that is scripted.
pub open spec fn tool_reply(b: BackendModel, name: Seq<char>, args: JsonModel) -> (
    OutcomeModel,
    BackendModel,
) {
    let refusals = remaining(b.flaky, name);
    let losses = remaining(b.lossy, name);
    if refusals > 0 {
        (
            OutcomeModel::Failure {
                code: "timeout"@,
                message: "samsara-testkit: scripted flake"@,
            },
            BackendModel { flaky: b.flaky.insert(name, (refusals - 1) as usize), ..b },
        )
    } else {
        let (outcome, world) = executed(b.world, name, args);
        if losses > 0 {
            (
                if outcome is Success {
                    OutcomeModel::Failure {
                        code: "timeout"@,
                        message: "samsara-testkit: response lost in flight"@,
                    }
                } else {
                    outcome
                },
                BackendModel { world, lossy: b.lossy.insert(name, (losses - 1) as usize), ..b },
            )
        } else {
            (outcome, BackendModel { world, ..b })
        }
    }
}

/// What a backend answers, and the backend after it.
#[verifier::opaque]
pub open spec fn answered(b: BackendModel, r: RequestModel) -> (OutcomeModel, BackendModel) {
    match r.kind {
        EffectKind::Model => (model_reply(r.body), b),
        EffectKind::Tool => tool_reply(b, r.name, r.body),
        EffectKind::Clock => (
            OutcomeModel::Success { value: number(ticked(b.clock)) },
            BackendModel { clock: ticked(b.clock), ..b },
        ),
        EffectKind::Random => {
            let d = drawn_fraction(b.rng.seed, b.rng.at);
            (
                OutcomeModel::Success { value: JsonModel::Number(NumberModel::Float(d.0)) },
                BackendModel { rng: moved(b.rng, d.1), ..b },
            )
        },
    }
}

/// Sending the same idempotency key again changes nothing any more.
pub proof fn lemma_key_honoured(world: WorldModel, args: JsonModel)
    requires
        text_under(args, "idempotency_key"@) is Some,
    ensures
        ({
            let after = deleted(world, args).1;
            deleted(after, args).1 == after
        }),
{
    let key = text_under(args, "idempotency_key"@)->0;
    let after = deleted(world, args).1;
    if !world.applied.contains(key) {
        assert(after.applied[world.applied.len() as int] == key);
        assert(after.applied.contains(key));
    }
}

/// A response that is lost is lost after the work is done: the agent sees a
/// timeout, and the file is gone.
pub proof fn lemma_lost_response(b: BackendModel, args: JsonModel)
    requires
        remaining(b.flaky, "delete_file"@) == 0,
        remaining(b.lossy, "delete_file"@) > 0,
        text_under(args, "idempotency_key"@) is None,
    ensures
        ({
            let (outcome, after) = tool_reply(b, "delete_file"@, args);
            &&& outcome is Failure
            &&& after.world.deletes == b.world.deletes.push(
                or_empty(text_under(args, "path"@)),
            )
        }),
{
}

/// A refusal changes nothing in the world.
pub proof fn lemma_refusal_harmless(b: BackendModel, name: Seq<char>, args: JsonModel)
    requires
        remaining(b.flaky, name) > 0,
    ensures
        tool_reply(b, name, args).0 is Failure,
        tool_reply(b, name, args).1.world == b.world,
{
}

/// The text that a document holds under a key.
fn find_text<'a>(json: &'a Json, key: &str) -> (r: Option<&'a String>)
    ensures
        r is Some <==> text_under(json@, key@) is Some,
        r is Some ==> r->0@ == text_under(json@, key@)->0,
{
    match json.get(key) {
        Some(v) => v.as_text(),
        None => None,
    }
}

/// The text that a document holds under a key, or the empty one.
fn text_or_empty(json: &Json, key: &str) -> (r: String)
    ensures
        r@ == or_empty(text_under(json@, key@)),
{
    match find_text(json, key) {
        Some(t) => t.clone(),
        None => {
            let none = String::new();
            assert(none@ =~= seq![]);
            none
        },
    }
}

impl FakeBackend {
    /// A backend whose randomness comes from `seed`.
    pub fn new(seed: u64) -> (r: Self)
        ensures
            r@ == calm(seed),
    {
        FakeBackend {
            world: World::new(),
            rng: Rng::from_number(seed),
            clock_ms: 1_700_000_000_000,
            flaky: Vec::new(),
            lossy: Vec::new(),
        }
    }

    /// Makes `tool` refuse its first `times` calls: nothing is changed.
    pub fn flaky(self, tool: &str, times: usize) -> (r: Self)
        ensures
            r@ == (BackendModel { flaky: self@.flaky.insert(tool@, times), ..self@ }),
    {
        let mut backend = self;
        set_remaining(&mut backend.flaky, tool, times);
        backend
    }

    /// Makes `tool` lose its response on its first `times` calls: the work is
    /// done, and then the caller is told that it timed out. This is the
    /// failure that can double a side effect.
    pub fn lossy(self, tool: &str, times: usize) -> (r: Self)
        ensures
            r@ == (BackendModel { lossy: self@.lossy.insert(tool@, times), ..self@ }),
    {
        let mut backend = self;
        set_remaining(&mut backend.lossy, tool, times);
        backend
    }

    /// What the model answers.
    fn model(&self, body: &Json) -> (r: Outcome)
        ensures
            r@ == model_reply(body@),
    {
        let mut content = no_fields();
        if same(text_or_empty(body, "step").as_str(), "plan") {
            put_field(&mut content, "tool", Json::text("delete_file"));
            let mut arguments = no_fields();
            put_field(&mut arguments, "path", Json::text("/var/reports/stale.csv"));
            put_field(&mut content, "arguments", Json::object(arguments));
        } else {
            put_field(&mut content, "text", Json::text("Done. Removed the stale report."));
        }
        let mut usage = no_fields();
        put_field(&mut usage, "input_tokens", Json::whole(120));
        put_field(&mut usage, "output_tokens", Json::whole(40));
        let mut fields = no_fields();
        put_field(&mut fields, "content", Json::object(content));
        put_field(&mut fields, "usage", Json::object(usage));
        Outcome::ok(Json::object(fields))
    }

    /// What a tool answers.
    fn tool(&mut self, name: &str, args: &Json) -> (r: Outcome)
        ensures
            (r@, final(self)@) == tool_reply(old(self)@, name@, args@),
    {
        let refusals: usize = count_remaining(&self.flaky, name);
        if refusals > 0 {
            set_remaining(&mut self.flaky, name, refusals - 1);
            return Outcome::err("timeout", "samsara-testkit: scripted flake");
        }
        let losses: usize = count_remaining(&self.lossy, name);
        if losses > 0 {
            set_remaining(&mut self.lossy, name, losses - 1);
        }
        let outcome = self.execute(name, args);
        if losses > 0 && outcome.is_ok() {
            return Outcome::err("timeout", "samsara-testkit: response lost in flight");
        }
        outcome
    }

    /// What a tool answers that does its work.
    fn execute(&mut self, name: &str, args: &Json) -> (r: Outcome)
        ensures
            (r@, final(self)@.world) == executed(old(self)@.world, name@, args@),
            final(self)@ == (BackendModel { world: final(self)@.world, ..old(self)@ }),
    {
        if same(name, "delete_file") {
            self.delete(args)
        } else if same(name, "render_section") {
            let mut section = "<".to_owned();
            section.append(text_or_empty(args, "name").as_str());
            section.append(">");
            let mut fields = no_fields();
            put_field(&mut fields, "text", Json::text(section.as_str()));
            Outcome::ok(Json::object(fields))
        } else if same(name, "save_document") {
            let mut fields = no_fields();
            put_field(&mut fields, "ok", Json::Bool(true));
            Outcome::ok(Json::object(fields))
        } else {
            let mut message = "no such tool: ".to_owned();
            message.append(name);
            Outcome::err("unknown_tool", message.as_str())
        }
    }

    /// Deletes a file, unless its key was honoured before.
    fn delete(&mut self, args: &Json) -> (r: Outcome)
        ensures
            (r@, final(self)@.world) == deleted(old(self)@.world, args@),
            final(self)@ == (BackendModel { world: final(self)@.world, ..old(self)@ }),
    {
        let ghost world = self.world@;
        let mut fields = no_fields();
        put_field(&mut fields, "ok", Json::Bool(true));
        if let Some(key) = find_text(args, "idempotency_key") {
            if !self.applied_insert(key.as_str()) {
                put_field(&mut fields, "deduplicated", Json::Bool(true));
                return Outcome::ok(Json::object(fields));
            }
        }
        let path = text_or_empty(args, "path");
        put_field(&mut fields, "path", Json::text(path.as_str()));
        let ghost before = self.world.deletes@;
        let ghost gone = path@;
        self.world.deletes.push(path);
        assert(texts(self.world.deletes@) =~= texts(before).push(gone));
        assert(self.world@ =~= deleted(world, args@).1);
        Outcome::ok(Json::object(fields))
    }

    /// Notes that a key is honoured, and tells whether it is new.
    fn applied_insert(&mut self, key: &str) -> (r: bool)
        ensures
            r == !old(self)@.world.applied.contains(key@),
            final(self)@.world.deletes == old(self)@.world.deletes,
            final(self)@.world.applied == if r {
                old(self)@.world.applied.push(key@)
            } else {
                old(self)@.world.applied
            },
            final(self)@ == (BackendModel { world: final(self)@.world, ..old(self)@ }),
    {
        if holds(&self.world.applied, key) {
            return false;
        }
        let ghost before = self.world.applied@;
        self.world.applied.push(key.to_owned());
        assert(texts(self.world.applied@) =~= texts(before).push(key@));
        true
    }
}

impl Backend for FakeBackend {
    open spec fn ready(&self) -> bool {
        true
    }

    open spec fn may_answer(
        &self,
        request: RequestModel,
        outcome: OutcomeModel,
        after: Self,
    ) -> bool {
        (outcome, after@) == answered(self@, request)
    }

    fn call(&mut self, request: &EffectRequest) -> (r: Outcome) {
        reveal(answered);
        match request.kind {
            EffectKind::Model => self.model(&request.body),
            EffectKind::Tool => self.tool(request.name.as_str(), &request.body),
            EffectKind::Clock => {
                self.clock_ms = self.clock_ms.saturating_add(25);
                Outcome::ok(Json::whole(self.clock_ms))
            },
            EffectKind::Random => {
                let drawn = self.rng.fraction();
                Outcome::ok(Json::Number(Number::Float(drawn)))
            },
        }
    }
}

// ---------------------------------------------------------------------------
// The agent that deletes a report
// ---------------------------------------------------------------------------

/// How the agent handles retries.
#[derive(Clone, Copy, Debug, PartialEq, Eq, Structural)]
pub enum Style {
    /// Retries a failed tool call by simply calling it again. That is wrong
    /// for any tool that changes something: a timeout means that it is not
    /// known whether the call happened.
    Naive,
    /// Sends an idempotency key that is the same for every attempt, so that a
    /// retry the tool has already honoured changes nothing.
    Idempotent,
}

/// What the agent did.
#[derive(Clone, Copy, Debug, PartialEq, Eq, Structural)]
pub struct Report {
    /// Tool attempts made, with the retries.
    pub attempts: usize,
    /// Whether the agent believes that it succeeded.
    pub succeeded: bool,
}

/// Tool attempts before the agent gives up.
pub const MAX_ATTEMPTS: usize = 3;

/// Reaches the world through what drives an agent.
pub trait WorldAccess {
    /// The world that is reached.
    spec fn reached(&self) -> WorldModel;

    /// The world that is reached.
    fn world(&self) -> (r: &World)
        ensures
            r@ == self.reached(),
    ;
}

impl<'a, C: Cas> WorldAccess for Recorder<'a, C, FakeBackend> {
    open spec fn reached(&self) -> WorldModel {
        self.backend@.world
    }

    fn world(&self) -> (r: &World) {
        &self.backend.world
    }
}

/// The request for a plan.
pub open spec fn plan_request() -> RequestModel {
    RequestModel {
        kind: EffectKind::Model,
        name: "sonnet-4"@,
        body: JsonModel::Object(
            put(
                put(seq![], "step"@, JsonModel::Text("plan"@)),
                "task"@,
                JsonModel::Text("remove the stale report"@),
            ),
        ),
    }
}

/// The path that a plan names, or the usual one.
pub open spec fn planned_path(plan: OutcomeModel) -> Seq<char> {
    match value_of(plan) {
        Some(v) => match get(v, "content"@) {
            Some(content) => match get(content, "arguments"@) {
                Some(arguments) => match text_under(arguments, "path"@) {
                    Some(path) => path,
                    None => "/var/reports/stale.csv"@,
                },
                None => "/var/reports/stale.csv"@,
            },
            None => "/var/reports/stale.csv"@,
        },
        None => "/var/reports/stale.csv"@,
    }
}

/// The request to delete a file. The key is derived from the task, not from
/// the attempt.
pub open spec fn delete_request(style: Style, path: Seq<char>) -> RequestModel {
    RequestModel {
        kind: EffectKind::Tool,
        name: "delete_file"@,
        body: JsonModel::Object(
            put_some(
                put(seq![], "path"@, JsonModel::Text(path)),
                "idempotency_key"@,
                if style == Style::Idempotent {
                    Some(JsonModel::Text("delete:"@ + path))
                } else {
                    None
                },
            ),
        ),
    }
}

/// The request for a summary.
pub open spec fn summary_request(succeeded: bool) -> RequestModel {
    RequestModel {
        kind: EffectKind::Model,
        name: "sonnet-4"@,
        body: JsonModel::Object(
            put(
                put(seq![], "step"@, JsonModel::Text("summarise"@)),
                "succeeded"@,
                JsonModel::Bool(succeeded),
            ),
        ),
    }
}

/// Whether a run tried `n` times in vain behind its plan, and drew a delay
/// from randomness and the clock after each time.
pub open spec fn tried_in_vain(run: Seq<Exchange>, request: RequestModel, n: int) -> bool {
    forall|k: int|
        #![trigger run[1 + 3 * k]]
        0 <= k < n ==> {
            &&& run[1 + 3 * k].request == request
            &&& run[1 + 3 * k].outcome is Failure
            &&& run[2 + 3 * k].request == random_request()
            &&& run[3 + 3 * k].request == clock_request()
        }
}

/// Whether this is a run of the agent, with this report: it plans, tries until
/// a try succeeds or the tries are used up, and summarises.
pub open spec fn agent_ran(style: Style, run: Seq<Exchange>, report: Report) -> bool {
    let n = report.attempts as int;
    let request = delete_request(style, planned_path(run[0].outcome));
    &&& 1 <= n <= MAX_ATTEMPTS
    &&& run.len() == if report.succeeded {
        3 * n
    } else {
        3 * n + 2
    }
    &&& run[0].request == plan_request()
    &&& run.last().request == summary_request(report.succeeded)
    &&& if report.succeeded {
        &&& tried_in_vain(run, request, n - 1)
        &&& run[3 * n - 2].request == request
        &&& run[3 * n - 2].outcome is Success
    } else {
        &&& n == MAX_ATTEMPTS
        &&& tried_in_vain(run, request, n)
    }
}

/// The request to delete a file.
fn ask_delete(style: Style, path: &str) -> (r: EffectRequest)
    ensures
        r@ == delete_request(style, path@),
{
    let mut args = no_fields();
    put_field(&mut args, "path", Json::text(path));
    match style {
        Style::Idempotent => {
            let mut key = "delete:".to_owned();
            key.append(path);
            put_field(&mut args, "idempotency_key", Json::text(key.as_str()));
        },
        Style::Naive => {},
    }
    EffectRequest::tool("delete_file", Json::object(args))
}

/// The path that a plan names, or the usual one.
fn read_path(plan: &Outcome) -> (r: String)
    ensures
        r@ == planned_path(plan@),
{
    if let Some(v) = plan.value() {
        if let Some(content) = v.get("content") {
            if let Some(arguments) = content.get("arguments") {
                if let Some(path) = find_text(arguments, "path") {
                    return path.clone();
                }
            }
        }
    }
    "/var/reports/stale.csv".to_owned()
}

/// What the agent does next.
#[derive(Clone, Copy, Debug, PartialEq, Eq, Structural)]
pub enum Turn {
    /// Asks for a plan.
    Plan,
    /// Calls the tool.
    Try,
    /// Draws the jitter of a delay.
    Jitter,
    /// Reads the clock that the delay starts from.
    Clock,
    /// Asks for a summary.
    Summary,
    /// Nothing more.
    Over,
}

/// The agent, between two of its effects.
///
/// It plans, acts, retries after a delay drawn from the clock and from
/// randomness, and summarises. Both are effects, so every retry can be
/// reproduced.
#[derive(Debug)]
pub struct Agent {
    style: Style,
    path: String,
    attempts: usize,
    succeeded: bool,
    turn: Turn,
}

/// What the agent is, for contracts.
#[verifier::ext_equal]
pub struct AgentModel {
    pub style: Style,
    pub path: Seq<char>,
    pub attempts: nat,
    pub succeeded: bool,
    pub turn: Turn,
}

impl View for Agent {
    type V = AgentModel;

    closed spec fn view(&self) -> AgentModel {
        AgentModel {
            style: self.style,
            path: self.path@,
            attempts: self.attempts as nat,
            succeeded: self.succeeded,
            turn: self.turn,
        }
    }
}

/// The effect that the agent asks for next.
pub open spec fn question_of(a: AgentModel) -> Option<RequestModel> {
    match a.turn {
        Turn::Plan => Some(plan_request()),
        Turn::Try => Some(delete_request(a.style, a.path)),
        Turn::Jitter => Some(random_request()),
        Turn::Clock => Some(clock_request()),
        Turn::Summary => Some(summary_request(a.succeeded)),
        Turn::Over => None,
    }
}

/// The agent, once it has heard the outcome of the effect it asked for.
pub open spec fn heard(a: AgentModel, o: OutcomeModel) -> AgentModel {
    match a.turn {
        Turn::Plan => AgentModel { path: planned_path(o), turn: Turn::Try, ..a },
        Turn::Try => if o is Success {
            AgentModel {
                attempts: a.attempts + 1,
                succeeded: true,
                turn: Turn::Summary,
                ..a
            }
        } else {
            AgentModel { attempts: a.attempts + 1, turn: Turn::Jitter, ..a }
        },
        Turn::Jitter => AgentModel { turn: Turn::Clock, ..a },
        Turn::Clock => AgentModel {
            turn: if a.attempts < MAX_ATTEMPTS {
                Turn::Try
            } else {
                Turn::Summary
            },
            ..a
        },
        Turn::Summary => AgentModel { turn: Turn::Over, ..a },
        Turn::Over => a,
    }
}

/// Whether the agent stands here after a run.
pub open spec fn agent_at(a: AgentModel, run: Seq<Exchange>) -> bool {
    let n = a.attempts as int;
    let request = delete_request(a.style, a.path);
    &&& n <= MAX_ATTEMPTS
    &&& a.turn != Turn::Plan ==> run.len() > 0 && run[0].request == plan_request() && a.path
        == planned_path(run[0].outcome)
    &&& match a.turn {
        Turn::Plan => n == 0 && run.len() == 0 && !a.succeeded,
        Turn::Try => n < MAX_ATTEMPTS && !a.succeeded && run.len() == 1 + 3 * n
            && tried_in_vain(run, request, n),
        Turn::Jitter => n >= 1 && !a.succeeded && run.len() == 3 * n - 1 && tried_in_vain(
            run,
            request,
            n - 1,
        ) && run[3 * n - 2].request == request && run[3 * n - 2].outcome is Failure,
        Turn::Clock => n >= 1 && !a.succeeded && run.len() == 3 * n && tried_in_vain(
            run,
            request,
            n - 1,
        ) && run[3 * n - 2].request == request && run[3 * n - 2].outcome is Failure && run[3 * n
            - 1].request == random_request(),
        Turn::Summary => if a.succeeded {
            n >= 1 && run.len() == 3 * n - 1 && tried_in_vain(run, request, n - 1) && run[3 * n
                - 2].request == request && run[3 * n - 2].outcome is Success
        } else {
            n == MAX_ATTEMPTS && run.len() == 1 + 3 * n && tried_in_vain(run, request, n)
        },
        Turn::Over => agent_ran(
            a.style,
            run,
            Report { attempts: a.attempts as usize, succeeded: a.succeeded },
        ),
    }
}

/// How many effects the agent may still ask for.
pub open spec fn turns_left(a: AgentModel) -> int {
    let tries = 3 * (MAX_ATTEMPTS - a.attempts);
    match a.turn {
        Turn::Plan => 2 + tries,
        Turn::Try => 1 + tries,
        Turn::Jitter => 3 + tries,
        Turn::Clock => 2 + tries,
        Turn::Summary => 1,
        Turn::Over => 0,
    }
}

/// The agent goes on from where it stands, and comes nearer to its end.
pub proof fn lemma_agent_goes_on(a: AgentModel, run: Seq<Exchange>, o: OutcomeModel)
    requires
        agent_at(a, run),
        question_of(a) is Some,
    ensures
        agent_at(
            heard(a, o),
            run.push(Exchange { request: question_of(a)->0, outcome: o }),
        ),
        0 <= turns_left(heard(a, o)) < turns_left(a),
{
    let e = Exchange { request: question_of(a)->0, outcome: o };
    let next = run.push(e);
    let request = delete_request(a.style, a.path);
    if a.turn != Turn::Plan {
        assert(next[0] == run[0]);
        let n = if a.turn == Turn::Try || (a.turn == Turn::Summary && !a.succeeded) {
            a.attempts as int
        } else {
            a.attempts - 1
        };
        assert forall|k: int| #![trigger next[1 + 3 * k]] 0 <= k < n implies {
            &&& next[1 + 3 * k].request == request
            &&& next[1 + 3 * k].outcome is Failure
            &&& next[2 + 3 * k].request == random_request()
            &&& next[3 + 3 * k].request == clock_request()
        } by {
            assert(next[1 + 3 * k] == run[1 + 3 * k]);
            assert(next[2 + 3 * k] == run[2 + 3 * k]);
            assert(next[3 + 3 * k] == run[3 + 3 * k]);
        }
        assert(tried_in_vain(next, request, n));
        if a.turn == Turn::Clock {
            assert(next[1 + 3 * n] == run[3 * a.attempts - 2]);
            assert(next[2 + 3 * n] == run[3 * a.attempts - 1]);
            assert(next[3 + 3 * n] == e);
            assert(tried_in_vain(next, request, a.attempts as int));
        }
    }
}

impl Agent {
    /// The agent before its first effect.
    pub fn new(style: Style) -> (r: Self)
        ensures
            r@ == (AgentModel {
                style,
                path: seq![],
                attempts: 0,
                succeeded: false,
                turn: Turn::Plan,
            }),
            agent_at(r@, seq![]),
    {
        let agent = Agent {
            style,
            path: "".to_owned(),
            attempts: 0,
            succeeded: false,
            turn: Turn::Plan,
        };
        proof {
            reveal_strlit("");
            assert(agent@.path =~= seq![]);
        }
        agent
    }

    /// The effect that the agent asks for next, if there is one more.
    pub fn question(&self) -> (r: Option<EffectRequest>)
        ensures
            viewed(r) == question_of(self@),
    {
        match self.turn {
            Turn::Plan => {
                let mut body = no_fields();
                put_field(&mut body, "step", Json::text("plan"));
                put_field(&mut body, "task", Json::text("remove the stale report"));
                Some(EffectRequest::model("sonnet-4", Json::object(body)))
            },
            Turn::Try => Some(ask_delete(self.style, self.path.as_str())),
            Turn::Jitter => Some(EffectRequest::random()),
            Turn::Clock => Some(EffectRequest::clock()),
            Turn::Summary => {
                let mut body = no_fields();
                put_field(&mut body, "step", Json::text("summarise"));
                put_field(&mut body, "succeeded", Json::Bool(self.succeeded));
                Some(EffectRequest::model("sonnet-4", Json::object(body)))
            },
            Turn::Over => None,
        }
    }

    /// Hears the outcome of the effect that was asked for.
    pub fn hear(&mut self, outcome: &Outcome)
        requires
            old(self)@.attempts <= MAX_ATTEMPTS,
        ensures
            final(self)@ == heard(old(self)@, outcome@),
    {
        let ghost before = self@;
        match self.turn {
            Turn::Plan => {
                self.path = read_path(outcome);
                self.turn = Turn::Try;
            },
            Turn::Try => {
                self.attempts += 1;
                if outcome.is_ok() {
                    self.succeeded = true;
                    self.turn = Turn::Summary;
                } else {
                    self.turn = Turn::Jitter;
                }
            },
            Turn::Jitter => {
                self.turn = Turn::Clock;
            },
            Turn::Clock => {
                self.turn = if self.attempts < MAX_ATTEMPTS {
                    Turn::Try
                } else {
                    Turn::Summary
                };
            },
            Turn::Summary => {
                self.turn = Turn::Over;
            },
            Turn::Over => {},
        }
        assert(self@ =~= heard(before, outcome@));
    }

    /// What the agent reports.
    pub fn report(&self) -> (r: Report)
        ensures
            r.attempts == self@.attempts,
            r.succeeded == self@.succeeded,
    {
        Report { attempts: self.attempts, succeeded: self.succeeded }
    }
}

/// Runs the agent against whatever performs its effects: the recorder in
/// production, the replayer in a counterfactual.
pub fn run_agent<E: Effects>(fx: &mut E, style: Style) -> (r: Report)
    requires
        old(fx).ready(),
    ensures
        final(fx).ready(),
        exists|run: Seq<Exchange>, states: Seq<E>| #[trigger]
            agent_ran(style, run, r) && #[trigger] observed_through(states, run) && states.first()
                == *old(fx) && states.last() == *final(fx) && final(fx).history() == old(
                fx,
            ).history() + run,
{
    let ghost start = fx.history();
    let mut agent = Agent::new(style);
    let ghost mut run: Seq<Exchange> = seq![];
    let ghost mut states: Seq<E> = seq![*fx];
    assert(start + run =~= start);
    loop
        invariant
            fx.ready(),
            fx.history() == start + run,
            observed_through(states, run),
            states.first() == *old(fx),
            states.last() == *fx,
            agent@.style == style,
            agent_at(agent@, run),
        ensures
            question_of(agent@) is None,
        decreases turns_left(agent@),
    {
        let request = match agent.question() {
            Some(request) => request,
            None => {
                break;
            },
        };
        let ghost before = agent@;
        let outcome = fx.perform(request);
        agent.hear(&outcome);
        proof {
            lemma_agent_goes_on(before, run, outcome@);
            let (known, asked) = (states, run);
            run = run.push(Exchange { request: question_of(before)->0, outcome: outcome@ });
            states = states.push(*fx);
            assert(fx.history() =~= start + run);
            assert forall|k: int| 0 <= k < run.len() implies states[k].may_observe(
                (#[trigger] run[k]).request,
                run[k].outcome,
                states[k + 1],
            ) by {
                assert(states[k] == known[k]);
                if k < asked.len() {
                    assert(run[k] == asked[k]);
                    assert(states[k + 1] == known[k + 1]);
                }
            }
        }
    }
    assert(agent_ran(style, run, Report {
        attempts: agent@.attempts as usize,
        succeeded: agent@.succeeded,
    }));
    agent.report()
}

/// The steps of a replay that performs each request by itself.
pub open spec fn one_by_one(run: Seq<Exchange>) -> Seq<Step> {
    Seq::new(run.len(), |k: int| Step::One { request: run[k].request })
}

/// Whether the outcomes of a run are those of a replay that starts so.
pub open spec fn replayed(start: ReplayState, run: Seq<Exchange>) -> bool {
    forall|k: int|
        0 <= k < run.len() ==> (#[trigger] run[k]).outcome == performed(
            steps_run(start, one_by_one(run).take(k)),
            run[k].request,
            None,
        ).0
}

/// Runs the agent against a replay, and nothing else.
pub fn drive_agent<C: Cas>(replayer: &mut Replayer<'_, C>, style: Style) -> (r: Report)
    requires
        old(replayer).ready(),
    ensures
        final(replayer).ready(),
        final(replayer).start == old(replayer).start,
        *final(final(replayer).cas) == *final(old(replayer).cas),
        exists|run: Seq<Exchange>| #[trigger]
            agent_ran(style, run, r) && final(replayer).history() == old(replayer).history() + run
                && final(replayer).steps@ == old(replayer).steps@ + one_by_one(run) && (old(
                replayer,
            ).steps@.len() == 0 ==> replayed(old(replayer).start@, run)),
{
    let ghost first = *replayer;
    let mut agent = Agent::new(style);
    let ghost mut run: Seq<Exchange> = seq![];
    assert(first.history() + run =~= first.history());
    assert(first.steps@ + one_by_one(run) =~= first.steps@);
    loop
        invariant
            replayer.ready(),
            replayer.start == first.start,
            *final(replayer.cas) == *final(first.cas),
            replayer.history() == first.history() + run,
            replayer.steps@ == first.steps@ + one_by_one(run),
            first.steps@.len() == 0 ==> replayed(first.start@, run),
            agent@.style == style,
            agent_at(agent@, run),
        ensures
            question_of(agent@) is None,
        decreases turns_left(agent@),
    {
        let request = match agent.question() {
            Some(request) => request,
            None => {
                break;
            },
        };
        let ghost before = agent@;
        let outcome = replayer.perform(request);
        agent.hear(&outcome);
        proof {
            lemma_agent_goes_on(before, run, outcome@);
            let asked = run;
            if first.steps@.len() == 0 {
                assert(first.steps@ + one_by_one(asked) =~= one_by_one(asked));
            }
            run = run.push(Exchange { request: question_of(before)->0, outcome: outcome@ });
            assert(replayer.history() =~= first.history() + run);
            assert(one_by_one(run) =~= one_by_one(asked).push(
                Step::One { request: question_of(before)->0 },
            ));
            assert(replayer.steps@ =~= first.steps@ + one_by_one(run));
            if first.steps@.len() == 0 {
                assert forall|k: int| 0 <= k < run.len() implies (#[trigger] run[k]).outcome
                    == performed(
                    steps_run(first.start@, one_by_one(run).take(k)),
                    run[k].request,
                    None,
                ).0 by {
                    if k < asked.len() {
                        assert(run[k] == asked[k]);
                        assert(one_by_one(run).take(k) =~= one_by_one(asked).take(k));
                    } else {
                        assert(one_by_one(run).take(k) =~= one_by_one(asked));
                    }
                }
            }
        }
    }
    assert(agent_ran(style, run, Report {
        attempts: agent@.attempts as usize,
        succeeded: agent@.succeeded,
    }));
    agent.report()
}

// ---------------------------------------------------------------------------
// The agent that assembles a document
// ---------------------------------------------------------------------------

/// How the agent puts concurrent results together.
#[derive(Clone, Copy, Debug, PartialEq, Eq, Structural)]
pub enum Assembly {
    /// Appends each result as it arrives.
    AsTheyArrive,
    /// Puts each result in the place it was requested for.
    ByRequestOrder,
}

/// The names of the sections.
pub open spec fn section_names() -> Seq<Seq<char>> {
    seq!["intro"@, "summary"@, "appendix"@]
}

/// The request for a plan of the sections.
pub open spec fn sections_request() -> RequestModel {
    RequestModel {
        kind: EffectKind::Model,
        name: "sonnet-4"@,
        body: JsonModel::Object(
            put(
                put(seq![], "step"@, JsonModel::Text("plan_sections"@)),
                "task"@,
                JsonModel::Text("assemble the report"@),
            ),
        ),
    }
}

/// The request to render a section.
pub open spec fn render_request(name: Seq<char>) -> RequestModel {
    RequestModel {
        kind: EffectKind::Tool,
        name: "render_section"@,
        body: JsonModel::Object(put(seq![], "name"@, JsonModel::Text(name))),
    }
}

/// The requests to render the sections.
pub open spec fn render_requests() -> Seq<RequestModel> {
    Seq::new(section_names().len(), |i: int| render_request(section_names()[i]))
}

/// The request to save a document.
pub open spec fn save_request(document: Seq<Seq<char>>) -> RequestModel {
    RequestModel {
        kind: EffectKind::Tool,
        name: "save_document"@,
        body: JsonModel::Object(
            put(seq![], "content"@, JsonModel::Text(joined(document, "\n"@))),
        ),
    }
}

/// The section that an outcome carries, if it carries one.
pub open spec fn section_in(o: OutcomeModel) -> Option<Seq<char>> {
    match value_of(o) {
        Some(v) => text_under(v, "text"@),
        None => None,
    }
}

/// The sections among some outcomes, in their order.
pub open spec fn sections_of(outcomes: Seq<OutcomeModel>) -> Seq<Seq<char>>
    decreases outcomes.len(),
{
    if outcomes.len() == 0 {
        seq![]
    } else {
        let before = sections_of(outcomes.drop_last());
        match section_in(outcomes.last()) {
            Some(section) => before.push(section),
            None => before,
        }
    }
}

/// The outcomes of some results, in the order in which they arrived.
pub open spec fn as_arrived(done: Seq<(usize, Outcome)>) -> Seq<OutcomeModel> {
    Seq::new(done.len(), |k: int| done[k].1@)
}

/// Whether a list of outcomes has each result in the place it was requested
/// for.
pub open spec fn in_request_order(
    done: Seq<(usize, Outcome)>,
    outcomes: Seq<OutcomeModel>,
) -> bool {
    &&& outcomes.len() == done.len()
    &&& forall|k: int|
        0 <= k < done.len() ==> (#[trigger] done[k]).0 < outcomes.len()
            && outcomes[done[k].0 as int] == done[k].1@
}

/// Whether this is the document that an assembly makes of some results.
pub open spec fn assembled(
    assembly: Assembly,
    done: Seq<(usize, Outcome)>,
    document: Seq<Seq<char>>,
) -> bool {
    match assembly {
        Assembly::AsTheyArrive => document == sections_of(as_arrived(done)),
        Assembly::ByRequestOrder => exists|outcomes: Seq<OutcomeModel>| #[trigger]
            in_request_order(done, outcomes) && document == sections_of(outcomes),
    }
}

/// Whether this is a run of the agent that assembles a document: it plans,
/// renders the sections together, and saves what it assembled.
pub open spec fn assembler_ran(
    assembly: Assembly,
    run: Seq<Exchange>,
    done: Seq<(usize, Outcome)>,
    document: Seq<Seq<char>>,
) -> bool {
    &&& is_order(completion(done), section_names().len())
    &&& run.len() == 5
    &&& run[0].request == sections_request()
    &&& run.subrange(1, 4) == exchanges(render_requests(), done)
    &&& assembled(assembly, done, document)
    &&& run[4].request == save_request(document)
}

/// Placing results by request makes their order of arrival immaterial.
pub proof fn lemma_placing_ignores_arrival(
    a: Seq<(usize, Outcome)>,
    b: Seq<(usize, Outcome)>,
    outcomes: Seq<OutcomeModel>,
    others: Seq<OutcomeModel>,
)
    requires
        in_request_order(a, outcomes),
        in_request_order(b, others),
        a.len() == b.len(),
        is_order(completion(a), a.len()),
        is_order(completion(b), b.len()),
        a.len() <= usize::MAX,
        forall|j: int, k: int|
            0 <= j < a.len() && 0 <= k < b.len() && (#[trigger] a[j]).0 == (#[trigger] b[k]).0
                ==> a[j].1@ == b[k].1@,
    ensures
        sections_of(outcomes) == sections_of(others),
{
    assert forall|i: int| 0 <= i < outcomes.len() implies outcomes[i] == others[i] by {
        let j = crate::orderings::lemma_order_hits(completion(a), a.len(), i as usize);
        let k = crate::orderings::lemma_order_hits(completion(b), b.len(), i as usize);
        assert(completion(a)[j] == a[j].0);
        assert(completion(b)[k] == b[k].0);
    }
    assert(outcomes =~= others);
}

/// The request to render a section.
fn ask_render(name: &str) -> (r: EffectRequest)
    ensures
        r@ == render_request(name@),
{
    let mut args = no_fields();
    put_field(&mut args, "name", Json::text(name));
    EffectRequest::tool("render_section", Json::object(args))
}

/// The requests to render the sections.
pub(crate) fn ask_sections() -> (r: Vec<EffectRequest>)
    ensures
        views(r@) == render_requests(),
{
    let mut out: Vec<EffectRequest> = Vec::new();
    out.push(ask_render("intro"));
    out.push(ask_render("summary"));
    out.push(ask_render("appendix"));
    assert(views(out@) =~= render_requests());
    out
}

/// Appends the section that an outcome carries, if it carries one.
fn add_section(document: &mut Vec<String>, outcome: &Outcome)
    ensures
        texts(final(document)@) == match section_in(outcome@) {
            Some(section) => texts(old(document)@).push(section),
            None => texts(old(document)@),
        },
{
    if let Some(v) = outcome.value() {
        if let Some(section) = find_text(v, "text") {
            let ghost before = document@;
            document.push(section.clone());
            assert(texts(document@) =~= texts(before).push(section@));
        }
    }
}

/// The sections of results in the order in which they arrived.
fn append_all(done: &Vec<(usize, Outcome)>) -> (r: Vec<String>)
    ensures
        texts(r@) == sections_of(as_arrived(done@)),
{
    let ghost all = as_arrived(done@);
    let mut document: Vec<String> = Vec::new();
    assert(texts(document@) =~= seq![]);
    assert(all.take(0) =~= seq![]);
    let mut k: usize = 0;
    while k < done.len()
        invariant
            k <= done@.len(),
            all == as_arrived(done@),
            texts(document@) == sections_of(all.take(k as int)),
        decreases done@.len() - k,
    {
        assert(all.take(k + 1).drop_last() =~= all.take(k as int));
        assert(all.take(k + 1).last() == done@[k as int].1@);
        add_section(&mut document, &done[k].1);
        k += 1;
    }
    assert(all.take(k as int) =~= all);
    document
}

/// The place of the result that was requested at index `i`.
fn place_of(done: &Vec<(usize, Outcome)>, i: usize) -> (r: usize)
    requires
        is_order(completion(done@), done@.len()),
        i < done@.len(),
    ensures
        r < done@.len(),
        done@[r as int].0 == i,
{
    let n: usize = done.len();
    let mut k: usize = 0;
    let ghost at = crate::orderings::lemma_order_hits(completion(done@), done@.len(), i);
    assert(completion(done@)[at] == done@[at].0);
    while done[k].0 != i
        invariant
            n == done@.len(),
            0 <= at < n,
            done@[at].0 == i,
            k <= at,
        decreases at - k,
    {
        k += 1;
    }
    k
}

/// The sections of results, each in the place it was requested for.
fn place_all(done: &Vec<(usize, Outcome)>) -> (r: Vec<String>)
    requires
        is_order(completion(done@), done@.len()),
    ensures
        assembled(Assembly::ByRequestOrder, done@, texts(r@)),
{
    let ghost mut all: Seq<OutcomeModel> = seq![];
    let mut document: Vec<String> = Vec::new();
    assert(texts(document@) =~= seq![]);
    let mut i: usize = 0;
    while i < done.len()
        invariant
            i <= done@.len(),
            is_order(completion(done@), done@.len()),
            all.len() == i,
            forall|k: int|
                0 <= k < done@.len() && (#[trigger] done@[k]).0 < i ==> all[done@[k].0 as int]
                    == done@[k].1@,
            texts(document@) == sections_of(all),
        decreases done@.len() - i,
    {
        let k: usize = place_of(done, i);
        let ghost before = all;
        proof {
            all = before.push(done@[k as int].1@);
            assert(all.drop_last() =~= before);
            assert forall|j: int|
                0 <= j < done@.len() && (#[trigger] done@[j]).0 < i + 1 implies all[done@[j].0 as int]
                == done@[j].1@ by {
                if done@[j].0 == i && j != k {
                    assert(completion(done@)[j] == completion(done@)[k as int]);
                }
            }
        }
        add_section(&mut document, &done[k].1);
        i += 1;
    }
    proof {
        assert forall|k: int| 0 <= k < done@.len() implies (#[trigger] done@[k]).0 < all.len() by {
            assert(completion(done@)[k] < done@.len());
        }
        assert(in_request_order(done@, all));
    }
    document
}

/// The request for a plan of the sections.
pub(crate) fn ask_plan() -> (r: EffectRequest)
    ensures
        r@ == sections_request(),
{
    let mut body = no_fields();
    put_field(&mut body, "step", Json::text("plan_sections"));
    put_field(&mut body, "task", Json::text("assemble the report"));
    EffectRequest::model("sonnet-4", Json::object(body))
}

/// The document that an assembly makes of some results.
pub(crate) fn assemble(assembly: Assembly, done: &Vec<(usize, Outcome)>) -> (r: Vec<String>)
    requires
        is_order(completion(done@), done@.len()),
    ensures
        assembled(assembly, done@, texts(r@)),
{
    match assembly {
        Assembly::AsTheyArrive => append_all(done),
        Assembly::ByRequestOrder => place_all(done),
    }
}

/// The request to save a document.
pub(crate) fn ask_save(document: &Vec<String>) -> (r: EffectRequest)
    ensures
        r@ == save_request(texts(document@)),
{
    let content = join(document, "\n");
    let mut args = no_fields();
    put_field(&mut args, "content", Json::text(content.as_str()));
    EffectRequest::tool("save_document", Json::object(args))
}

/// The run that a plan, a batch of rendered sections and a save make.
pub open spec fn assembler_run(
    plan: OutcomeModel,
    done: Seq<(usize, Outcome)>,
    document: Seq<Seq<char>>,
    saved: OutcomeModel,
) -> Seq<Exchange> {
    (seq![Exchange { request: sections_request(), outcome: plan }] + exchanges(
        render_requests(),
        done,
    )).push(Exchange { request: save_request(document), outcome: saved })
}

proof fn lemma_assembler_run(
    assembly: Assembly,
    plan: OutcomeModel,
    done: Seq<(usize, Outcome)>,
    document: Seq<Seq<char>>,
    saved: OutcomeModel,
)
    requires
        is_order(completion(done), 3),
        assembled(assembly, done, document),
    ensures
        assembler_ran(assembly, assembler_run(plan, done, document, saved), done, document),
{
    let run = assembler_run(plan, done, document, saved);
    assert(completion(done).len() == done.len());
    assert(run.subrange(1, 4) =~= exchanges(render_requests(), done));
}

/// Whether the agent may have been answered so by what went through these
/// states: a plan asked for by itself, the sections together, and the document
/// saved at the end.
pub open spec fn assembled_through<E: Effects>(
    states: Seq<E>,
    run: Seq<Exchange>,
    done: Seq<(usize, Outcome)>,
    document: Seq<Seq<char>>,
) -> bool {
    &&& states.len() == 4
    &&& run.len() == 5
    &&& states[0].may_observe(sections_request(), run[0].outcome, states[1])
    &&& states[1].may_complete(render_requests(), done, states[2])
    &&& states[2].may_observe(save_request(document), run[4].outcome, states[3])
}

/// Runs the agent that assembles a document, and gives the document.
pub fn run_assembler<E: Effects>(fx: &mut E, assembly: Assembly) -> (r: Vec<String>)
    requires
        old(fx).ready(),
    ensures
        final(fx).ready(),
        exists|run: Seq<Exchange>, done: Seq<(usize, Outcome)>, states: Seq<E>| #[trigger]
            assembler_ran(assembly, run, done, texts(r@)) && #[trigger] assembled_through(
                states,
                run,
                done,
                texts(r@),
            ) && states[0] == *old(fx) && states[3] == *final(fx) && final(fx).history() == old(
                fx,
            ).history() + run,
{
    let ghost start = fx.history();
    let ghost first = *fx;
    let plan = fx.perform(ask_plan());
    let ghost planned = *fx;
    let requests = ask_sections();
    assert(views(requests@).len() == 3);
    let done = fx.perform_batch(requests);
    let ghost rendered = *fx;
    assert(completion(done@).len() == 3);
    let document = assemble(assembly, &done);
    let saved = fx.perform(ask_save(&document));
    proof {
        let run = assembler_run(plan@, done@, texts(document@), saved@);
        let states = seq![first, planned, rendered, *fx];
        assert(run[0].outcome == plan@ && run[4].outcome == saved@);
        assert(assembled_through(states, run, done@, texts(document@)));
        assert(fx.history() =~= start + run);
        lemma_assembler_run(assembly, plan@, done@, texts(document@), saved@);
    }
    document
}

/// The steps of a replay that the assembling agent drives.
#[verifier::opaque]
pub open spec fn assembler_steps(document: Seq<Seq<char>>) -> Seq<Step> {
    seq![
        Step::One { request: sections_request() },
        Step::Batch { requests: render_requests() },
        Step::One { request: save_request(document) },
    ]
}

/// A replay once it has answered the request for a plan.
#[verifier::opaque]
pub open spec fn once_planned(s: ReplayState) -> ReplayState {
    performed(s, sections_request(), None).1
}

/// Whether a replay in a state answers the requests for a plan and for the
/// sections with these results.
#[verifier::opaque]
pub open spec fn rendered_so(s: ReplayState, done: Seq<(usize, Outcome)>) -> bool {
    let planned = once_planned(s);
    let order = completion_order(planned, 3);
    &&& completion(done) == order
    &&& is_order(order, 3)
    &&& Seq::new(3, |k: int| done[k].1@) == batch_performed(
        batch_begun(planned, 3),
        render_requests(),
        order,
        3,
        batch_tag(planned.next_batch, 3),
    ).0
}

/// Whether a replay in a state may answer the agent with these results, and the
/// agent then assembles this document.
pub open spec fn assembler_drove(
    s: ReplayState,
    assembly: Assembly,
    done: Seq<(usize, Outcome)>,
    document: Seq<Seq<char>>,
) -> bool {
    rendered_so(s, done) && assembled(assembly, done, document)
}

/// Asks a replay for a plan.
fn drive_plan<C: Cas>(replayer: &mut Replayer<'_, C>) -> (r: Outcome)
    requires
        old(replayer).ready(),
    ensures
        final(replayer).ready(),
        final(replayer).start == old(replayer).start,
        *final(final(replayer).cas) == *final(old(replayer).cas),
        final(replayer)@ == once_planned(old(replayer)@),
        final(replayer).history() == old(replayer).history().push(
            Exchange { request: sections_request(), outcome: r@ },
        ),
        final(replayer).steps@ == old(replayer).steps@.push(
            Step::One { request: sections_request() },
        ),
{
    reveal(once_planned);
    replayer.perform(ask_plan())
}

/// Asks a replay for the sections, together.
fn drive_sections<C: Cas>(replayer: &mut Replayer<'_, C>, start: Ghost<ReplayState>) -> (r: Vec<
    (usize, Outcome),
>)
    requires
        old(replayer).ready(),
        old(replayer)@ == once_planned(start@),
    ensures
        final(replayer).ready(),
        final(replayer).start == old(replayer).start,
        *final(final(replayer).cas) == *final(old(replayer).cas),
        final(replayer).history() == old(replayer).history() + exchanges(render_requests(), r@),
        final(replayer).steps@ == old(replayer).steps@.push(
            Step::Batch { requests: render_requests() },
        ),
        is_order(completion(r@), 3),
        rendered_so(start@, r@),
{
    let requests = ask_sections();
    assert(views(requests@).len() == 3);
    let done = replayer.perform_batch(requests);
    assert(rendered_so(start@, done@)) by {
        reveal(rendered_so);
    }
    done
}

/// Asks a replay to save a document.
fn drive_save<C: Cas>(replayer: &mut Replayer<'_, C>, document: &Vec<String>) -> (r: Outcome)
    requires
        old(replayer).ready(),
    ensures
        final(replayer).ready(),
        final(replayer).start == old(replayer).start,
        *final(final(replayer).cas) == *final(old(replayer).cas),
        final(replayer).history() == old(replayer).history().push(
            Exchange { request: save_request(texts(document@)), outcome: r@ },
        ),
        final(replayer).steps@ == old(replayer).steps@.push(
            Step::One { request: save_request(texts(document@)) },
        ),
{
    replayer.perform(ask_save(document))
}

/// Runs the agent that assembles a document against a replay, and nothing
/// else.
pub fn drive_assembler<C: Cas>(replayer: &mut Replayer<'_, C>, assembly: Assembly) -> (r: Vec<
    String,
>)
    requires
        old(replayer).ready(),
    ensures
        final(replayer).ready(),
        final(replayer).start == old(replayer).start,
        *final(final(replayer).cas) == *final(old(replayer).cas),
        exists|run: Seq<Exchange>, done: Seq<(usize, Outcome)>| #[trigger]
            assembler_ran(assembly, run, done, texts(r@)) && final(replayer).history() == old(
                replayer,
            ).history() + run && assembler_drove(old(replayer)@, assembly, done, texts(r@)),
        final(replayer).steps@ == old(replayer).steps@ + assembler_steps(texts(r@)),
{
    let ghost start = replayer.history();
    let ghost first = replayer.steps@;
    let ghost state = replayer@;
    let plan = drive_plan(replayer);
    let done = drive_sections(replayer, Ghost(state));
    assert(completion(done@).len() == 3);
    let document = assemble(assembly, &done);
    let saved = drive_save(replayer, &document);
    proof {
        let run = assembler_run(plan@, done@, texts(document@), saved@);
        assert(replayer.history() =~= start + run);
        assert(replayer.steps@ =~= first + assembler_steps(texts(document@))) by {
            reveal(assembler_steps);
        }
        lemma_assembler_run(assembly, plan@, done@, texts(document@), saved@);
    }
    document
}

} // verus!
