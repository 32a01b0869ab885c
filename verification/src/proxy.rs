//! The recording proxy.
//!
//! A recording attaches to an agent by being the endpoint that it talks to.
//! Model calls are forwarded upstream and written down. Tools run in the
//! agent's own process, so they are reported by a small protocol: a call is
//! begun, which answers whether to execute it, and ended with its outcome.
//!
//! Sockets are the caller's. Here stands what a request means, what is
//! recorded of it, and what it is answered.

use crate::barrier::{call_name, count_on, name_call, next_number};
use crate::canon::Canonicalizer;
use crate::cas::{keeps, stored, Cas, Contents, StoreError};
use crate::event::{
    EffectKind, EffectRequest, Event, EventModel, Outcome, OutcomeModel, RequestModel,
};
use crate::json::{get, json_read, ordered, text, whole, Json, JsonModel};
use crate::ledger::Ledger;
use crate::model::views;
use crate::orderings::{batch_width, count_in_batch};
use crate::record::{no_fields, outcome_from, outcome_json, put, put_field};
use crate::replay::{outcome_bytes, recorded_event, request_bytes};
use crate::text::{
    after_prefix, begins, decimal, eq_ignore_case, join, joined, parse_number, quote, quoted,
    read_number, same, same_ignoring_case, show, starts_with, strip_prefix, texts,
};
use crate::trace::{default_header, HeaderModel, Trace, TraceHeader, TraceModel};
use vstd::prelude::*;
use vstd::utf8::encode_utf8;

verus! {

// ---------------------------------------------------------------------------
// Where a request goes
// ---------------------------------------------------------------------------

/// What a request is for.
#[derive(Debug, PartialEq, Eq)]
pub enum Route {
    /// The tool protocol, at an endpoint of it.
    Protocol { endpoint: String },
    /// A model.
    Model,
}

/// The endpoint of the tool protocol that a path names.
pub open spec fn protocol_endpoint(url: Seq<char>) -> Option<Seq<char>> {
    after_prefix(url, "/_samsara"@)
}

/// What a request is for, by its path.
pub fn route(url: &str) -> (r: Route)
    ensures
        match protocol_endpoint(url@) {
            Some(endpoint) => r matches Route::Protocol { endpoint: e } && e@ == endpoint,
            None => r is Model,
        },
{
    match strip_prefix(url, "/_samsara") {
        Some(endpoint) => Route::Protocol { endpoint },
        None => Route::Model,
    }
}

/// The provider that a path belongs to. Paths tell the two apart, and one
/// that is not known goes to the usual provider.
pub open spec fn provider_of(path: Seq<char>) -> Seq<char> {
    if begins(path, "/v1/chat/"@) || begins(path, "/v1/responses"@) || begins(
        path,
        "/v1/embeddings"@,
    ) || begins(path, "/v1/completions"@) {
        "https://api.openai.com"@
    } else {
        "https://api.anthropic.com"@
    }
}

/// Where to forward a request: to what was set explicitly, or to the provider
/// that its path belongs to.
pub fn upstream_for(explicit: Option<&str>, path: &str) -> (r: String)
    ensures
        r@ == match explicit {
            Some(base) => base@,
            None => provider_of(path@),
        },
{
    if let Some(base) = explicit {
        return base.to_owned();
    }
    if starts_with(path, "/v1/chat/") || starts_with(path, "/v1/responses") || starts_with(
        path,
        "/v1/embeddings",
    ) || starts_with(path, "/v1/completions") {
        "https://api.openai.com".to_owned()
    } else {
        "https://api.anthropic.com".to_owned()
    }
}

/// A text without the slashes at its end.
pub open spec fn without_slashes(s: Seq<char>) -> Seq<char>
    decreases s.len(),
{
    if s.len() > 0 && s.last() == '/' {
        without_slashes(s.drop_last())
    } else {
        s
    }
}

/// The address that a request is forwarded to.
pub fn forward_target(base: &str, url: &str) -> (r: String)
    ensures
        r@ == without_slashes(base@) + url@,
{
    let mut chars = crate::text::chars_of(base);
    while chars.len() > 0 && chars[chars.len() - 1] == '/'
        invariant
            without_slashes(base@) == without_slashes(chars@),
        decreases chars@.len(),
    {
        let ghost before = chars@;
        chars.pop();
        assert(chars@ =~= before.drop_last());
    }
    let mut out = crate::text::text_of(&chars);
    out.append(url);
    out
}

/// Whether a header is passed on. The host must name the upstream, and what
/// belongs to one connection stays with it. Everything else passes, the key
/// of the caller above all.
pub open spec fn passes(header: Seq<char>) -> bool {
    &&& !same_ignoring_case(header, "host"@)
    &&& !same_ignoring_case(header, "content-length"@)
    &&& !same_ignoring_case(header, "connection"@)
    &&& !same_ignoring_case(header, "accept-encoding"@)
}

/// Whether a header is passed on.
pub fn is_relayed(header: &str) -> (r: bool)
    ensures
        r == passes(header@),
{
    !eq_ignore_case(header, "host") && !eq_ignore_case(header, "content-length")
        && !eq_ignore_case(header, "connection") && !eq_ignore_case(header, "accept-encoding")
}

// ---------------------------------------------------------------------------
// What a request says
// ---------------------------------------------------------------------------

/// The document in a body, or `null` where there is none.
pub open spec fn incoming(body: Seq<u8>) -> JsonModel {
    match json_read(body) {
        Some(m) => ordered(m),
        None => JsonModel::Null,
    }
}

/// The document in a body, or `null` where there is none.
fn read_incoming(body: &[u8]) -> (r: Json)
    ensures
        r@ == incoming(body@),
{
    match Json::parse(body) {
        Some(json) => json,
        None => Json::Null,
    }
}

/// The text under a key, or another.
pub open spec fn text_or(m: JsonModel, key: Seq<char>, otherwise: Seq<char>) -> Seq<char> {
    match get(m, key) {
        Some(v) => match text(v) {
            Some(t) => t,
            None => otherwise,
        },
        None => otherwise,
    }
}

/// The text under a key, or another.
fn read_text_or(json: &Json, key: &str, otherwise: &str) -> (r: String)
    ensures
        r@ == text_or(json@, key@, otherwise@),
{
    if let Some(v) = json.get(key) {
        if let Some(t) = v.as_text() {
            return t.clone();
        }
    }
    otherwise.to_owned()
}

/// The kind of effect that is reported: a tool, unless it says otherwise.
pub open spec fn reported_kind(m: JsonModel) -> EffectKind {
    let word = text_or(m, "kind"@, "tool"@);
    if word == "clock"@ {
        EffectKind::Clock
    } else if word == "random"@ {
        EffectKind::Random
    } else {
        EffectKind::Tool
    }
}

/// The effect that is reported.
pub open spec fn reported_request(m: JsonModel) -> RequestModel {
    RequestModel {
        kind: reported_kind(m),
        name: text_or(m, "name"@, "unknown"@),
        body: match get(m, "body"@) {
            Some(body) => body,
            None => JsonModel::Null,
        },
    }
}

/// The burst of concurrency that a call is reported in. Only the agent's own
/// process can know it.
pub open spec fn reported_batch(m: JsonModel) -> Option<u64> {
    match get(m, "batch"@) {
        Some(v) => whole(v),
        None => None,
    }
}

/// The outcome that is reported: what stands under its key, or the whole
/// document as a success.
pub open spec fn reported_outcome(m: JsonModel) -> OutcomeModel {
    match get(m, "outcome"@) {
        Some(v) => match outcome_from(v) {
            Some(o) => o,
            None => OutcomeModel::Success { value: m },
        },
        None => OutcomeModel::Success { value: m },
    }
}

/// The kind of effect that is reported.
pub fn effect_kind(json: &Json) -> (r: EffectKind)
    ensures
        r == reported_kind(json@),
{
    let word = read_text_or(json, "kind", "tool");
    if same(word.as_str(), "clock") {
        EffectKind::Clock
    } else if same(word.as_str(), "random") {
        EffectKind::Random
    } else {
        EffectKind::Tool
    }
}

/// The effect that a body reports, and the burst it is reported in.
pub fn read_call(body: &[u8]) -> (r: (EffectRequest, Option<u64>))
    ensures
        r.0@ == reported_request(incoming(body@)),
        r.1 == reported_batch(incoming(body@)),
{
    let json = read_incoming(body);
    let request = EffectRequest {
        kind: effect_kind(&json),
        name: read_text_or(&json, "name", "unknown"),
        body: match json.get("body") {
            Some(body) => body.clone(),
            None => Json::Null,
        },
    };
    let batch = match json.get("batch") {
        Some(v) => v.as_u64(),
        None => None,
    };
    (request, batch)
}

/// The model call that a body makes.
pub open spec fn model_call(m: JsonModel) -> RequestModel {
    RequestModel { kind: EffectKind::Model, name: text_or(m, "model"@, "unknown"@), body: m }
}

/// The model call that a body makes.
pub fn read_model_call(body: &[u8]) -> (r: EffectRequest)
    ensures
        r@ == model_call(incoming(body@)),
{
    let json = read_incoming(body);
    let name = read_text_or(&json, "model", "unknown");
    EffectRequest::model(name.as_str(), json)
}

/// What a response of a provider comes to. An error is data: the agent must
/// see it, and the recording must hold it.
pub open spec fn response_outcome(status: u16, body: Seq<char>) -> OutcomeModel {
    if 200 <= status < 300 {
        OutcomeModel::Success {
            value: match json_read(encode_utf8(body)) {
                Some(m) => ordered(m),
                None => JsonModel::Text(body),
            },
        }
    } else {
        OutcomeModel::Failure { code: decimal(status as nat), message: body }
    }
}

/// What a response of a provider comes to.
pub fn read_response(status: u16, body: &str) -> (r: Outcome)
    ensures
        r@ == response_outcome(status, body@),
{
    if 200 <= status && status < 300 {
        match Json::parse(body.as_bytes()) {
            Some(value) => Outcome::ok(value),
            None => Outcome::ok(Json::text(body)),
        }
    } else {
        Outcome::err(show(status as u64).as_str(), body)
    }
}

// ---------------------------------------------------------------------------
// What is answered
// ---------------------------------------------------------------------------

/// An answer: a status, and a document.
#[derive(Debug, PartialEq, Eq)]
pub struct Reply {
    pub status: u16,
    pub body: Json,
}

/// What an answer is, for contracts.
pub struct ReplyModel {
    pub status: u16,
    pub body: JsonModel,
}

impl View for Reply {
    type V = ReplyModel;

    open spec fn view(&self) -> ReplyModel {
        ReplyModel { status: self.status, body: self.body@ }
    }
}

/// The answer that all is well.
pub open spec fn pong() -> ReplyModel {
    ReplyModel {
        status: 200,
        body: JsonModel::Object(put(seq![], "ok"@, JsonModel::Bool(true))),
    }
}

/// The answer that all is well.
pub fn answer_ping() -> (r: Reply)
    ensures
        r@ == pong(),
{
    let mut fields = no_fields();
    put_field(&mut fields, "ok", Json::Bool(true));
    Reply { status: 200, body: Json::object(fields) }
}

/// The answer that there is no such endpoint.
pub open spec fn no_endpoint(endpoint: Seq<char>) -> ReplyModel {
    ReplyModel {
        status: 404,
        body: JsonModel::Object(
            put(seq![], "error"@, JsonModel::Text("no such endpoint: "@ + endpoint)),
        ),
    }
}

/// The answer that there is no such endpoint.
pub fn answer_unknown(endpoint: &str) -> (r: Reply)
    ensures
        r@ == no_endpoint(endpoint@),
{
    let mut message = "no such endpoint: ".to_owned();
    message.append(endpoint);
    let mut fields = no_fields();
    put_field(&mut fields, "error", Json::text(message.as_str()));
    Reply { status: 404, body: Json::object(fields) }
}

/// The answer to a call that is to be executed.
pub open spec fn execute_reply(call: Seq<char>) -> ReplyModel {
    ReplyModel {
        status: 200,
        body: JsonModel::Object(
            put(
                put(seq![], "action"@, JsonModel::Text("execute"@)),
                "call"@,
                JsonModel::Text(call),
            ),
        ),
    }
}

/// The answer to a call that has its outcome already.
pub open spec fn return_reply(call: Seq<char>, outcome: OutcomeModel) -> ReplyModel {
    ReplyModel {
        status: 200,
        body: JsonModel::Object(
            put(
                put(
                    put(seq![], "action"@, JsonModel::Text("return"@)),
                    "call"@,
                    JsonModel::Text(call),
                ),
                "outcome"@,
                outcome_json(outcome),
            ),
        ),
    }
}

/// The answer to a call that has its outcome already: during a replay the
/// real tool must never run.
pub fn answer_return(call: &str, outcome: &Outcome) -> (r: Reply)
    ensures
        r@ == return_reply(call@, outcome@),
{
    let mut fields = no_fields();
    put_field(&mut fields, "action", Json::text("return"));
    put_field(&mut fields, "call", Json::text(call));
    put_field(&mut fields, "outcome", outcome.to_json());
    Reply { status: 200, body: Json::object(fields) }
}

/// The answer that carries an outcome.
pub open spec fn outcome_reply(outcome: OutcomeModel) -> ReplyModel {
    ReplyModel {
        status: 200,
        body: JsonModel::Object(put(seq![], "outcome"@, outcome_json(outcome))),
    }
}

/// The answer that carries an outcome.
pub fn answer_outcome(outcome: &Outcome) -> (r: Reply)
    ensures
        r@ == outcome_reply(outcome@),
{
    let mut fields = no_fields();
    put_field(&mut fields, "outcome", outcome.to_json());
    Reply { status: 200, body: Json::object(fields) }
}

/// How an outcome is answered to a model call: a success as it is, a failure
/// with the status that its code names, or as a timeout of the gateway.
pub open spec fn model_reply(outcome: OutcomeModel) -> ReplyModel {
    match outcome {
        OutcomeModel::Success { value } => ReplyModel { status: 200, body: value },
        OutcomeModel::Failure { code, message } => ReplyModel {
            status: match read_number(code, u16::MAX as nat) {
                Some(n) => n as u16,
                None => 504,
            },
            body: JsonModel::Object(
                put(
                    seq![],
                    "error"@,
                    JsonModel::Object(
                        put(
                            put(seq![], "type"@, JsonModel::Text(code)),
                            "message"@,
                            JsonModel::Text(message),
                        ),
                    ),
                ),
            ),
        },
    }
}

/// How an outcome is answered to a model call.
pub fn answer_model(outcome: Outcome) -> (r: Reply)
    ensures
        r@ == model_reply(outcome@),
{
    match outcome {
        Outcome::Success { value } => Reply { status: 200, body: value },
        Outcome::Failure { code, message } => {
            let status: u16 = match parse_number(code.as_str(), u16::MAX as u64) {
                Some(n) => n as u16,
                None => 504,
            };
            let mut error = no_fields();
            put_field(&mut error, "type", Json::text(code.as_str()));
            put_field(&mut error, "message", Json::text(message.as_str()));
            let mut fields = no_fields();
            put_field(&mut fields, "error", Json::object(error));
            Reply { status, body: Json::object(fields) }
        },
    }
}

/// The body that tells why the upstream could not be reached.
pub open spec fn unreachable_body(reason: Seq<char>) -> JsonModel {
    JsonModel::Object(put(seq![], "error"@, JsonModel::Text(reason)))
}

/// The body that tells why the upstream could not be reached.
pub fn tell_unreachable(reason: &str) -> (r: Json)
    ensures
        r@ == unreachable_body(reason@),
{
    let mut fields = no_fields();
    put_field(&mut fields, "error", Json::text(reason));
    Json::object(fields)
}

// ---------------------------------------------------------------------------
// The replay
// ---------------------------------------------------------------------------

/// What a request asks of a replay.
pub enum Ask {
    /// A model call, to be performed.
    Model { request: EffectRequest },
    /// A tool call, to be performed, and the burst it is reported in.
    Tool { request: EffectRequest, batch: Option<u64> },
    /// Something that is answered at once.
    Settled { reply: Reply },
}

/// What a request asks of a replay, for contracts.
pub enum AskModel {
    Model { request: RequestModel },
    Tool { request: RequestModel, batch: Option<u64> },
    Settled { reply: ReplyModel },
}

impl View for Ask {
    type V = AskModel;

    open spec fn view(&self) -> AskModel {
        match *self {
            Ask::Model { request } => AskModel::Model { request: request@ },
            Ask::Tool { request, batch } => AskModel::Tool { request: request@, batch },
            Ask::Settled { reply } => AskModel::Settled { reply: reply@ },
        }
    }
}

/// What a request asks of a replay, by its path. An end that is reported is
/// answered, but its outcome is discarded: it did not really happen.
pub open spec fn asked_of_replay(url: Seq<char>, body: Seq<u8>) -> AskModel {
    match protocol_endpoint(url) {
        None => AskModel::Model { request: model_call(incoming(body)) },
        Some(endpoint) => if endpoint == "/begin"@ {
            AskModel::Tool {
                request: reported_request(incoming(body)),
                batch: reported_batch(incoming(body)),
            }
        } else if endpoint == "/ping"@ {
            AskModel::Settled { reply: pong() }
        } else if endpoint == "/end"@ {
            AskModel::Settled {
                reply: outcome_reply(OutcomeModel::Success { value: JsonModel::Null }),
            }
        } else {
            AskModel::Settled { reply: no_endpoint(endpoint) }
        },
    }
}

/// What a request asks of a replay.
pub fn read_ask(url: &str, body: &[u8]) -> (r: Ask)
    ensures
        r@ == asked_of_replay(url@, body@),
{
    match route(url) {
        Route::Model => Ask::Model { request: read_model_call(body) },
        Route::Protocol { endpoint } => if same(endpoint.as_str(), "/begin") {
            let (request, batch) = read_call(body);
            Ask::Tool { request, batch }
        } else if same(endpoint.as_str(), "/ping") {
            Ask::Settled { reply: answer_ping() }
        } else if same(endpoint.as_str(), "/end") {
            Ask::Settled { reply: answer_outcome(&Outcome::ok(Json::Null)) }
        } else {
            Ask::Settled { reply: answer_unknown(endpoint.as_str()) }
        },
    }
}

// ---------------------------------------------------------------------------
// The recording
// ---------------------------------------------------------------------------

impl Reply {
    /// The document of this answer, as it is sent.
    pub fn text(&self) -> (r: String)
        ensures
            r@ == crate::json::printed(ordered(self@.body)),
    {
        let json = self.body.ordered();
        proof {
            crate::json::lemma_ordered_tidy(self@.body);
        }
        json.print()
    }
}

/// A call that was begun and has not ended.
#[derive(Debug)]
pub struct Pending {
    pub request: EffectRequest,
    pub batch: Option<u64>,
}

/// What a call that was begun is, for contracts.
pub struct PendingModel {
    pub request: RequestModel,
    pub batch: Option<u64>,
}

impl View for Pending {
    type V = PendingModel;

    open spec fn view(&self) -> PendingModel {
        PendingModel { request: self.request@, batch: self.batch }
    }
}

/// A recording under way.
#[derive(Debug)]
pub struct Session<C: Cas> {
    pub cas: C,
    pub canon: Canonicalizer,
    pub events: Vec<Event>,
    /// The calls that were begun, by what they are known by: several can be
    /// in flight at once.
    pub pending: Ledger<Pending>,
    pub next_call: u64,
}

/// What a recording is, for contracts.
#[verifier::ext_equal]
pub struct SessionModel {
    pub paths: Seq<Seq<char>>,
    pub events: Seq<EventModel>,
    pub pending: Map<Seq<char>, PendingModel>,
    pub next_call: u64,
}

impl<C: Cas> View for Session<C> {
    type V = SessionModel;

    open spec fn view(&self) -> SessionModel {
        SessionModel {
            paths: self.canon@,
            events: views(self.events@),
            pending: self.pending@,
            next_call: self.next_call,
        }
    }
}

/// A recording once an effect was recorded.
pub open spec fn with_effect(
    s: SessionModel,
    request: RequestModel,
    outcome: OutcomeModel,
    batch: Option<u64>,
) -> SessionModel {
    SessionModel {
        events: s.events.push(recorded_event(s.paths, s.events.len(), request, outcome, batch)),
        ..s
    }
}

/// A store once an effect was recorded.
pub open spec fn with_payloads(contents: Contents, request: RequestModel, outcome: OutcomeModel) ->
    Contents {
    stored(stored(contents, request_bytes(request)), outcome_bytes(outcome))
}

/// A recording once a call was begun.
pub open spec fn begun(s: SessionModel, m: JsonModel) -> SessionModel {
    SessionModel {
        pending: s.pending.insert(
            call_name(s.next_call),
            PendingModel { request: reported_request(m), batch: reported_batch(m) },
        ),
        next_call: next_number(s.next_call),
        ..s
    }
}

/// A recording once a call has ended: it is recorded if it was begun.
pub open spec fn ended(s: SessionModel, m: JsonModel) -> SessionModel {
    let call = text_or(m, "call"@, ""@);
    let rest = SessionModel { pending: s.pending.remove(call), ..s };
    if s.pending.dom().contains(call) {
        with_effect(rest, s.pending[call].request, reported_outcome(m), s.pending[call].batch)
    } else {
        rest
    }
}

/// A store once a call has ended.
pub open spec fn ended_contents(s: SessionModel, contents: Contents, m: JsonModel) -> Contents {
    let call = text_or(m, "call"@, ""@);
    if s.pending.dom().contains(call) {
        with_payloads(contents, s.pending[call].request, reported_outcome(m))
    } else {
        contents
    }
}

/// The warning about the end of a call that was never begun.
pub open spec fn stray_end(call: Seq<char>) -> Seq<char> {
    "/end for unknown call "@ + quoted(call) + ", ignoring"@
}

/// An answer of the tool protocol, with a warning where something was wrong.
#[derive(Debug, PartialEq, Eq)]
pub struct Handled {
    pub reply: Reply,
    pub warning: Option<String>,
}

/// What the tool protocol answers.
pub open spec fn protocol_reply(s: SessionModel, endpoint: Seq<char>, body: Seq<u8>) -> ReplyModel {
    if endpoint == "/ping"@ {
        pong()
    } else if endpoint == "/begin"@ {
        execute_reply(call_name(s.next_call))
    } else if endpoint == "/end"@ {
        outcome_reply(reported_outcome(incoming(body)))
    } else {
        no_endpoint(endpoint)
    }
}

/// The recording after the tool protocol has answered.
pub open spec fn protocol_after(
    s: SessionModel,
    endpoint: Seq<char>,
    body: Seq<u8>,
) -> SessionModel {
    if endpoint == "/begin"@ {
        begun(s, incoming(body))
    } else if endpoint == "/end"@ {
        ended(s, incoming(body))
    } else {
        s
    }
}

/// The store after the tool protocol has answered.
pub open spec fn protocol_contents(
    s: SessionModel,
    contents: Contents,
    endpoint: Seq<char>,
    body: Seq<u8>,
) -> Contents {
    if endpoint == "/end"@ {
        ended_contents(s, contents, incoming(body))
    } else {
        contents
    }
}

/// The warning of the tool protocol, where something was wrong.
pub open spec fn protocol_warning(
    s: SessionModel,
    endpoint: Seq<char>,
    body: Seq<u8>,
) -> Option<Seq<char>> {
    let call = text_or(incoming(body), "call"@, ""@);
    if endpoint == "/end"@ && !s.pending.dom().contains(call) {
        Some(stray_end(call))
    } else {
        None
    }
}

proof fn lemma_endpoints()
    ensures
        "/ping"@ != "/begin"@,
        "/ping"@ != "/end"@,
        "/begin"@ != "/end"@,
{
    reveal_strlit("/ping");
    reveal_strlit("/begin");
    reveal_strlit("/end");
    assert("/ping"@.len() == 5 && "/begin"@.len() == 6 && "/end"@.len() == 4);
}

impl<C: Cas> Session<C> {
    /// A recording that holds nothing yet.
    pub fn new(cas: C, canon: Canonicalizer) -> (r: Self)
        ensures
            r.cas == cas,
            r@ == (SessionModel {
                paths: canon@,
                events: seq![],
                pending: Map::empty(),
                next_call: 0,
            }),
    {
        let session = Session {
            cas,
            canon,
            events: Vec::new(),
            pending: Ledger::new(),
            next_call: 0,
        };
        assert(session@.events =~= seq![]);
        session
    }

    /// Records a completed effect.
    pub fn record(&mut self, request: &EffectRequest, outcome: &Outcome, batch: Option<u64>) -> (r:
        Result<(), StoreError>)
        ensures
            final(self).cas.works() == old(self).cas.works(),
            old(self).cas.works() ==> r is Ok,
            keeps(old(self).cas.contents(), final(self).cas.contents()),
            old(self).cas.works() ==> final(self).cas.contents() == with_payloads(
                old(self).cas.contents(),
                request@,
                outcome@,
            ),
            final(self)@ == if r is Ok {
                with_effect(old(self)@, request@, outcome@, batch)
            } else {
                old(self)@
            },
    {
        let ghost start = self@;
        let asked = request.to_json().print();
        let request_digest = match self.cas.put(asked.as_str().as_bytes()) {
            Ok(digest) => digest,
            Err(e) => return Err(e),
        };
        let seen = outcome.to_json().print();
        let outcome_digest = match self.cas.put(seen.as_str().as_bytes()) {
            Ok(digest) => digest,
            Err(e) => return Err(e),
        };
        let at: u64 = self.events.len() as u64;
        let ghost before = self.events@;
        let event = Event {
            seq: at,
            kind: request.kind,
            name: request.name.clone(),
            identity: request.identity(&self.canon),
            request: request_digest,
            outcome: outcome_digest,
            fault: None,
            shadow: None,
            logical_time: at,
            batch,
        };
        let ghost one = event@;
        self.events.push(event);
        proof {
            assert(one == recorded_event(start.paths, before.len(), request@, outcome@, batch));
            assert(views(self.events@) =~= views(before).push(one));
        }
        Ok(())
    }

    /// A call is begun: it is to be executed.
    fn begin(&mut self, body: &[u8]) -> (r: Reply)
        ensures
            final(self).cas == old(self).cas,
            r@ == execute_reply(call_name(old(self)@.next_call)),
            final(self)@ == begun(old(self)@, incoming(body@)),
    {
        let (request, batch) = read_call(body);
        let call = name_call(self.next_call);
        self.next_call = count_on(self.next_call);
        self.pending.insert(call.as_str(), Pending { request, batch });
        let mut fields = no_fields();
        put_field(&mut fields, "action", Json::text("execute"));
        put_field(&mut fields, "call", Json::text(call.as_str()));
        Reply { status: 200, body: Json::object(fields) }
    }

    /// A call has ended.
    fn end(&mut self, body: &[u8]) -> (r: Result<Handled, StoreError>)
        ensures
            final(self).cas.works() == old(self).cas.works(),
            old(self).cas.works() ==> r is Ok,
            keeps(old(self).cas.contents(), final(self).cas.contents()),
            old(self).cas.works() ==> final(self).cas.contents() == ended_contents(
                old(self)@,
                old(self).cas.contents(),
                incoming(body@),
            ),
            r is Ok ==> {
                &&& r->Ok_0.reply@ == outcome_reply(reported_outcome(incoming(body@)))
                &&& crate::model::viewed(r->Ok_0.warning) == protocol_warning(
                    old(self)@,
                    "/end"@,
                    body@,
                )
                &&& final(self)@ == ended(old(self)@, incoming(body@))
            },
            r is Err ==> final(self)@.events == old(self)@.events,
    {
        let ghost start = self@;
        let json = read_incoming(body);
        let reported = match json.get("outcome") {
            Some(v) => Outcome::from_json(v),
            None => None,
        };
        let outcome = match reported {
            Some(outcome) => outcome,
            None => Outcome::ok(json.clone()),
        };
        assert(outcome@ == reported_outcome(json@));
        let call = read_text_or(&json, "call", "");
        let mut warning: Option<String> = None;
        match self.pending.remove(call.as_str()) {
            Some(pending) => {
                match self.record(&pending.request, &outcome, pending.batch) {
                    Ok(()) => {},
                    Err(e) => return Err(e),
                }
            },
            None => {
                let mut line = "/end for unknown call ".to_owned();
                line.append(quote(call.as_str()).as_str());
                line.append(", ignoring");
                warning = Some(line);
            },
        }
        assert(self@ =~= ended(start, json@));
        Ok(Handled { reply: answer_outcome(&outcome), warning })
    }

    /// The tool protocol.
    pub fn tool_protocol(&mut self, endpoint: &str, body: &[u8]) -> (r: Result<Handled, StoreError>)
        ensures
            final(self).cas.works() == old(self).cas.works(),
            old(self).cas.works() ==> r is Ok,
            endpoint@ != "/end"@ ==> r is Ok,
            keeps(old(self).cas.contents(), final(self).cas.contents()),
            old(self).cas.works() ==> final(self).cas.contents() == protocol_contents(
                old(self)@,
                old(self).cas.contents(),
                endpoint@,
                body@,
            ),
            r is Ok ==> {
                &&& r->Ok_0.reply@ == protocol_reply(old(self)@, endpoint@, body@)
                &&& crate::model::viewed(r->Ok_0.warning) == protocol_warning(
                    old(self)@,
                    endpoint@,
                    body@,
                )
                &&& final(self)@ == protocol_after(old(self)@, endpoint@, body@)
            },
            r is Err ==> final(self)@.events == old(self)@.events,
    {
        proof {
            lemma_endpoints();
        }
        if same(endpoint, "/ping") {
            Ok(Handled { reply: answer_ping(), warning: None })
        } else if same(endpoint, "/begin") {
            Ok(Handled { reply: self.begin(body), warning: None })
        } else if same(endpoint, "/end") {
            self.end(body)
        } else {
            Ok(Handled { reply: answer_unknown(endpoint), warning: None })
        }
    }

    /// Records a model call that was forwarded, with the response it got.
    pub fn record_forwarded(&mut self, body: &[u8], status: u16, response: &str) -> (r: Result<
        (),
        StoreError,
    >)
        ensures
            final(self).cas.works() == old(self).cas.works(),
            old(self).cas.works() ==> r is Ok,
            keeps(old(self).cas.contents(), final(self).cas.contents()),
            old(self).cas.works() ==> final(self).cas.contents() == with_payloads(
                old(self).cas.contents(),
                model_call(incoming(body@)),
                response_outcome(status, response@),
            ),
            final(self)@ == if r is Ok {
                with_effect(
                    old(self)@,
                    model_call(incoming(body@)),
                    response_outcome(status, response@),
                    None,
                )
            } else {
                old(self)@
            },
    {
        let request = read_model_call(body);
        let outcome = read_response(status, response);
        self.record(&request, &outcome, None)
    }

    /// The trace of the recording, once the agent has exited.
    pub fn finish(&self, command: &Vec<String>, recorded_at_ms: u64) -> (r: Trace)
        ensures
            r@ == (TraceModel {
                header: HeaderModel {
                    label: joined(texts(command@), " "@),
                    canonicalizer: self@.paths,
                    recorded_at_ms,
                    ..default_header()
                },
                events: without_lone(self@.events),
            }),
    {
        let mut header = TraceHeader::default();
        header.label = join(command, " ");
        header.canonicalizer = self.canon.clone();
        header.recorded_at_ms = recorded_at_ms;
        Trace { header, events: clear_lone(&self.events) }
    }
}

/// The events of a recording, with bursts of one call dissolved: such a burst
/// would imply a concurrency that never happened.
pub open spec fn without_lone(events: Seq<EventModel>) -> Seq<EventModel> {
    Seq::new(
        events.len(),
        |i: int|
            match events[i].batch {
                Some(b) if batch_width(events, b) < 2 => EventModel { batch: None, ..events[i] },
                _ => events[i],
            },
    )
}

/// The events of a recording, with bursts of one call dissolved.
pub fn clear_lone(events: &Vec<Event>) -> (r: Vec<Event>)
    ensures
        views(r@) == without_lone(views(events@)),
{
    let ghost all = views(events@);
    let mut out: Vec<Event> = Vec::new();
    let mut i: usize = 0;
    while i < events.len()
        invariant
            i <= events@.len(),
            all == views(events@),
            out@.len() == i,
            forall|k: int| 0 <= k < i ==> (#[trigger] out@[k])@ == without_lone(all)[k],
        decreases events@.len() - i,
    {
        assert(all[i as int] == events@[i as int]@);
        let mut event = events[i].clone();
        if let Some(b) = events[i].batch {
            if count_in_batch(events, b) < 2 {
                event.batch = None;
            }
        }
        assert(event@ == without_lone(all)[i as int]);
        out.push(event);
        i += 1;
    }
    assert(views(out@) =~= without_lone(all));
    out
}

/// What stays of a burst is a burst: every number that is left stands on at
/// least two events.
pub proof fn lemma_no_lone_batch(events: Seq<EventModel>, i: int)
    requires
        0 <= i < events.len(),
        without_lone(events)[i].batch is Some,
    ensures
        batch_width(without_lone(events), without_lone(events)[i].batch->0) >= 2,
{
    let b = without_lone(events)[i].batch->0;
    lemma_width_kept(events, events.len(), b);
    assert(events.take(events.len() as int) =~= events);
    assert(without_lone(events).take(events.len() as int) =~= without_lone(events));
}

proof fn lemma_width_kept(events: Seq<EventModel>, n: nat, b: u64)
    requires
        n <= events.len(),
        batch_width(events, b) >= 2,
    ensures
        batch_width(without_lone(events).take(n as int), b) == batch_width(
            events.take(n as int),
            b,
        ),
    decreases n,
{
    if n > 0 {
        lemma_width_kept(events, (n - 1) as nat, b);
        let out = without_lone(events);
        assert(out.take(n as int).drop_last() =~= out.take(n - 1));
        assert(events.take(n as int).drop_last() =~= events.take(n - 1));
        assert(out.take(n as int).last() == out[n - 1]);
        assert(events.take(n as int).last() == events[n - 1]);
    }
}

/// Two calls in flight do not take each other's place: ending one leaves the
/// other as it was begun.
pub proof fn lemma_calls_apart(s: SessionModel, m: JsonModel, other: Seq<char>)
    requires
        other != text_or(m, "call"@, ""@),
        s.pending.dom().contains(other),
    ensures
        ended(s, m).pending.dom().contains(other),
        ended(s, m).pending[other] == s.pending[other],
{
}

} // verus!
