//! What the recording proxy makes of requests: where each goes, what is
//! recorded of it, and what is answered.

use crate::barrier::call_name;
use crate::canon::{digest_of, identity_of};
use crate::event::{kind_name, EffectKind, EventModel, OutcomeModel, RequestModel};
use crate::json::{get, json_read, ordered, JsonModel, NumberModel};
use crate::offscript::mentions;
use crate::orderings::batch_width;
use crate::proxy::{
    asked_of_replay, begun, ended, ended_contents, execute_reply, incoming, model_call,
    model_reply, passes, pong, protocol_after, protocol_endpoint, protocol_reply,
    protocol_warning, provider_of, reported_batch, reported_kind, reported_outcome,
    reported_request, response_outcome, return_reply, without_lone, without_slashes, AskModel,
    SessionModel,
};
use crate::record::{
    lemma_lookup_put, lemma_outcome_back, ordered_outcome, ordered_request, outcome_json,
    request_json,
};
use crate::text::{decimal, digits_value, is_digit, lower, read_number};
use vstd::prelude::*;
use vstd::utf8::encode_utf8;

verus! {

// ---------------------------------------------------------------------------
// Where a request goes
// ---------------------------------------------------------------------------

/// What stands behind the prefix of the tool protocol is an endpoint of it, and
/// every other path is a model's.
pub proof fn lemma_protocol_routed(url: Seq<char>, endpoint: Seq<char>)
    ensures
        protocol_endpoint("/_samsara"@ + endpoint) == Some(endpoint),
        protocol_endpoint(url) == Some(endpoint) ==> url == "/_samsara"@ + endpoint,
        (forall|rest: Seq<char>| url != #[trigger] ("/_samsara"@ + rest)) ==> protocol_endpoint(url)
            is None,
{
    let prefix = "/_samsara"@;
    assert((prefix + endpoint).take(prefix.len() as int) =~= prefix);
    assert((prefix + endpoint).skip(prefix.len() as int) =~= endpoint);
    if prefix.len() <= url.len() && url.take(prefix.len() as int) == prefix {
        assert(url =~= prefix + url.skip(prefix.len() as int));
    }
}

/// The paths of one provider go to it, whatever follows, and the messages of the
/// other to the other.
pub proof fn lemma_providers(rest: Seq<char>)
    ensures
        provider_of("/v1/chat/"@ + rest) == "https://api.openai.com"@,
        provider_of("/v1/responses"@ + rest) == "https://api.openai.com"@,
        provider_of("/v1/embeddings"@ + rest) == "https://api.openai.com"@,
        provider_of("/v1/completions"@ + rest) == "https://api.openai.com"@,
        provider_of("/v1/messages"@ + rest) == "https://api.anthropic.com"@,
        provider_of("/v1/models"@ + rest) == "https://api.anthropic.com"@,
{
    assert(("/v1/chat/"@ + rest).take("/v1/chat/"@.len() as int) =~= "/v1/chat/"@);
    assert(("/v1/responses"@ + rest).take("/v1/responses"@.len() as int) =~= "/v1/responses"@);
    assert(("/v1/embeddings"@ + rest).take("/v1/embeddings"@.len() as int) =~= "/v1/embeddings"@);
    assert(("/v1/completions"@ + rest).take("/v1/completions"@.len() as int)
        =~= "/v1/completions"@);
    lemma_other_provider("/v1/messages"@ + rest);
    lemma_other_provider("/v1/models"@ + rest);
    reveal_strlit("/v1/messages");
    reveal_strlit("/v1/models");
    let messages = "/v1/messages"@ + rest;
    let models = "/v1/models"@ + rest;
    assert(messages[4] == 'm' && models[4] == 'm');
}

proof fn lemma_other_provider(path: Seq<char>)
    ensures
        path.len() > 4 && path[4] != 'c' && path[4] != 'r' && path[4] != 'e' ==> provider_of(path)
            == "https://api.anthropic.com"@,
{
    reveal_strlit("/v1/chat/");
    reveal_strlit("/v1/responses");
    reveal_strlit("/v1/embeddings");
    reveal_strlit("/v1/completions");
    assert("/v1/chat/"@[4] == 'c' && "/v1/responses"@[4] == 'r' && "/v1/embeddings"@[4] == 'e'
        && "/v1/completions"@[4] == 'c');
    if path.len() > 4 {
        if crate::text::begins(path, "/v1/chat/"@) {
            assert(path.take("/v1/chat/"@.len() as int)[4] == path[4]);
        }
        if crate::text::begins(path, "/v1/responses"@) {
            assert(path.take("/v1/responses"@.len() as int)[4] == path[4]);
        }
        if crate::text::begins(path, "/v1/embeddings"@) {
            assert(path.take("/v1/embeddings"@.len() as int)[4] == path[4]);
        }
        if crate::text::begins(path, "/v1/completions"@) {
            assert(path.take("/v1/completions"@.len() as int)[4] == path[4]);
        }
    }
}

/// An address is cut at its end only, and of slashes only, until it ends in
/// none: so a path put behind it is separated by its own slash.
pub proof fn lemma_slashes_cut(base: Seq<char>)
    ensures
        ({
            let kept = without_slashes(base);
            &&& kept.len() <= base.len()
            &&& base.take(kept.len() as int) == kept
            &&& kept.len() > 0 ==> kept.last() != '/'
            &&& forall|i: int| kept.len() <= i < base.len() ==> #[trigger] base[i] == '/'
        }),
    decreases base.len(),
{
    if base.len() > 0 && base.last() == '/' {
        lemma_slashes_cut(base.drop_last());
        let kept = without_slashes(base.drop_last());
        assert(base.take(kept.len() as int) =~= base.drop_last().take(kept.len() as int));
        assert forall|i: int| kept.len() <= i < base.len() implies #[trigger] base[i] == '/' by {
            if i < base.len() - 1 {
                assert(base.drop_last()[i] == base[i]);
            }
        }
    } else {
        assert(base.take(base.len() as int) =~= base);
    }
}

/// A text with its ASCII letters in lower case.
pub open spec fn lowered(s: Seq<char>) -> Seq<char> {
    Seq::new(s.len(), |i: int| lower(s[i]))
}

proof fn lemma_lowered_same(a: Seq<char>, b: Seq<char>)
    requires
        lowered(b) == b,
    ensures
        crate::text::same_ignoring_case(a, b) <==> lowered(a) == b,
{
    if lowered(a) == b {
        assert forall|i: int| 0 <= i < a.len() implies lower(#[trigger] a[i]) == lower(b[i]) by {
            assert(lowered(a)[i] == b[i] && lowered(b)[i] == b[i]);
        }
    }
    if crate::text::same_ignoring_case(a, b) {
        assert forall|i: int| 0 <= i < a.len() implies lowered(a)[i] == b[i] by {
            assert(lower(a[i]) == lower(b[i]));
            assert(lowered(b)[i] == b[i]);
        }
        assert(lowered(a) =~= b);
    }
}

proof fn lemma_held_words_lowered()
    ensures
        lowered("host"@) == "host"@,
        lowered("content-length"@) == "content-length"@,
        lowered("connection"@) == "connection"@,
        lowered("accept-encoding"@) == "accept-encoding"@,
{
    reveal_strlit("host");
    reveal_strlit("content-length");
    reveal_strlit("connection");
    reveal_strlit("accept-encoding");
    assert(lowered("host"@) =~= "host"@);
    assert(lowered("content-length"@) =~= "content-length"@);
    assert(lowered("connection"@) =~= "connection"@);
    assert(lowered("accept-encoding"@) =~= "accept-encoding"@);
}

/// Four headers belong to the connection and are held back, in any case of
/// their letters. Every other header passes.
pub proof fn lemma_headers_relayed(header: Seq<char>)
    ensures
        lowered(header) == "host"@ ==> !passes(header),
        lowered(header) == "content-length"@ ==> !passes(header),
        lowered(header) == "connection"@ ==> !passes(header),
        lowered(header) == "accept-encoding"@ ==> !passes(header),
        lowered(header) != "host"@ && lowered(header) != "content-length"@ && lowered(header)
            != "connection"@ && lowered(header) != "accept-encoding"@ ==> passes(header),
{
    lemma_held_words_lowered();
    lemma_lowered_same(header, "host"@);
    lemma_lowered_same(header, "content-length"@);
    lemma_lowered_same(header, "connection"@);
    lemma_lowered_same(header, "accept-encoding"@);
}

/// The caller's key passes, in either form, and so does the type of the body.
pub proof fn lemma_key_passes(header: Seq<char>)
    ensures
        lowered(header) == "authorization"@ ==> passes(header),
        lowered(header) == "x-api-key"@ ==> passes(header),
        lowered(header) == "content-type"@ ==> passes(header),
{
    lemma_headers_relayed(header);
    reveal_strlit("authorization");
    reveal_strlit("x-api-key");
    reveal_strlit("content-type");
    reveal_strlit("host");
    reveal_strlit("content-length");
    reveal_strlit("connection");
    reveal_strlit("accept-encoding");
    assert("authorization"@.len() == 13 && "x-api-key"@.len() == 9 && "content-type"@.len() == 12);
    assert("host"@.len() == 4 && "content-length"@.len() == 14 && "connection"@.len() == 10
        && "accept-encoding"@.len() == 15);
}

// ---------------------------------------------------------------------------
// What a request says
// ---------------------------------------------------------------------------

/// What an agent reports of an effect is what is recorded of it: the document of
/// a request reads as that request, its body in key order. Only a model call
/// is none that the tool protocol can report.
pub proof fn lemma_request_reported(r: RequestModel)
    requires
        r.kind != EffectKind::Model,
    ensures
        reported_request(request_json(r)) == ordered_request(r),
{
    broadcast use lemma_lookup_put;

    lemma_request_keys();
    lemma_kind_words();
}

proof fn lemma_request_keys()
    ensures
        "kind"@ != "name"@,
        "kind"@ != "body"@,
        "name"@ != "body"@,
{
    reveal_strlit("kind");
    reveal_strlit("name");
    reveal_strlit("body");
    assert("kind"@[0] == 'k' && "name"@[0] == 'n' && "body"@[0] == 'b');
}

proof fn lemma_kind_words()
    ensures
        kind_name(EffectKind::Tool) == "tool"@,
        kind_name(EffectKind::Clock) == "clock"@,
        kind_name(EffectKind::Random) == "random"@,
        kind_name(EffectKind::Model) == "model"@,
        "tool"@ != "clock"@,
        "tool"@ != "random"@,
        "clock"@ != "random"@,
        "model"@ != "clock"@,
        "model"@ != "random"@,
{
    reveal_strlit("tool");
    reveal_strlit("clock");
    reveal_strlit("random");
    reveal_strlit("model");
    assert("tool"@.len() == 4 && "random"@.len() == 6 && "clock"@[0] == 'c' && "model"@[0] == 'm'
        && "clock"@.len() == 5);
}

/// A report that names no kind is a tool's, one that names no target has none
/// that is known, and one that says nothing of a burst belongs to none. A burst is
/// the number that is reported.
pub proof fn lemma_left_out(m: JsonModel, n: u64)
    ensures
        get(m, "kind"@) is None ==> reported_kind(m) == EffectKind::Tool,
        get(m, "name"@) is None ==> reported_request(m).name == "unknown"@,
        get(m, "body"@) is None ==> reported_request(m).body == JsonModel::Null,
        get(m, "batch"@) is None ==> reported_batch(m) is None,
        get(m, "batch"@) == Some(JsonModel::Number(NumberModel::Unsigned(n))) ==> reported_batch(m)
            == Some(n),
        get(m, "model"@) is None ==> model_call(m).name == "unknown"@,
{
    lemma_kind_words();
}

/// A model call has the whole document for its body, under the model that it
/// names.
pub proof fn lemma_model_called(m: JsonModel, model: Seq<char>)
    requires
        get(m, "model"@) == Some(JsonModel::Text(model)),
    ensures
        model_call(m) == (RequestModel { kind: EffectKind::Model, name: model, body: m }),
{
}

/// The outcome that a call is ended with is the one that is recorded. A report
/// that holds no outcome is itself what the tool returned.
pub proof fn lemma_outcome_reported(m: JsonModel, o: OutcomeModel)
    ensures
        get(m, "outcome"@) == Some(outcome_json(o)) ==> reported_outcome(m) == ordered_outcome(o),
        get(m, "outcome"@) is None ==> reported_outcome(m) == (OutcomeModel::Success { value: m }),
{
    lemma_outcome_back(o);
}

// ---------------------------------------------------------------------------
// Calls in flight
// ---------------------------------------------------------------------------

/// A number reads back from its digits.
pub proof fn lemma_decimal_back(n: nat)
    ensures
        decimal(n).len() > 0,
        digits_value(decimal(n)) == n,
        forall|i: int| 0 <= i < decimal(n).len() ==> is_digit(#[trigger] decimal(n)[i]),
    decreases n,
{
    if n < 10 {
        assert(decimal(n).drop_last() =~= Seq::<char>::empty());
        assert(digits_value(Seq::<char>::empty()) == 0);
        assert(decimal(n).last() as int == '0' as int + n);
    } else {
        lemma_decimal_back(n / 10);
        let head = decimal(n / 10);
        assert(decimal(n).drop_last() =~= head);
        assert(decimal(n).last() as int == '0' as int + n % 10);
        assert forall|i: int| 0 <= i < decimal(n).len() implies is_digit(
            #[trigger] decimal(n)[i],
        ) by {
            if i < head.len() {
                assert(decimal(n)[i] == head[i]);
            }
        }
    }
}

/// Calls that were begun one after the other are known by different names, and
/// so are any two whose numbers differ.
pub proof fn lemma_call_names_apart(s: SessionModel, m: JsonModel, a: u64, b: u64)
    ensures
        a != b ==> call_name(a) != call_name(b),
        call_name(begun(s, m).next_call) != call_name(s.next_call),
{
    lemma_call_name_back(a);
    lemma_call_name_back(b);
    lemma_call_name_back(s.next_call);
    lemma_call_name_back(begun(s, m).next_call);
}

proof fn lemma_call_name_back(a: u64)
    ensures
        digits_value(call_name(a).skip(1)) == a,
{
    reveal_strlit("c");
    lemma_decimal_back(a as nat);
    assert(call_name(a).skip(1) =~= decimal(a as nat));
}

/// A call that is begun is answered that it is to be executed, under a name. Once
/// it is ended under that name, exactly one event is added behind the others: of
/// the effect that was begun, in its burst, with the outcome that the end
/// reports. The call is then no longer in flight, and every other one still is.
pub proof fn lemma_call_recorded(s: SessionModel, first: JsonModel, last: JsonModel)
    requires
        get(last, "call"@) == get(execute_reply(call_name(s.next_call)).body, "call"@),
        s.events.len() <= u64::MAX,
    ensures
        get(execute_reply(call_name(s.next_call)).body, "action"@) == Some(
            JsonModel::Text("execute"@),
        ),
        ({
            let request = reported_request(first);
            let after = ended(begun(s, first), last);
            let e = after.events.last();
            &&& after.events.len() == s.events.len() + 1
            &&& after.events.drop_last() == s.events
            &&& e.seq == s.events.len()
            &&& e.kind == request.kind
            &&& e.name == request.name
            &&& e.identity == identity_of(s.paths, request)
            &&& e.request == digest_of(request_json(request))
            &&& e.outcome == digest_of(outcome_json(reported_outcome(last)))
            &&& e.fault is None
            &&& e.shadow is None
            &&& e.batch == reported_batch(first)
            &&& after.pending == s.pending.remove(call_name(s.next_call))
            &&& after.paths == s.paths
        }),
{
    broadcast use lemma_lookup_put;

    reveal_strlit("action");
    reveal_strlit("call");
    assert("action"@.len() == 6 && "call"@.len() == 4);
    let call = call_name(s.next_call);
    assert(get(execute_reply(call).body, "call"@) == Some(JsonModel::Text(call)));
    let after = ended(begun(s, first), last);
    assert(begun(s, first).pending.dom().contains(call));
    assert(after.events.drop_last() =~= s.events);
    assert(after.pending =~= s.pending.remove(call));
}

/// The end of a call that was never begun records nothing, stores nothing, and
/// is warned of by the call's name. Where it was begun there is no warning.
pub proof fn lemma_stray_end_ignored(
    s: SessionModel,
    contents: crate::cas::Contents,
    body: Seq<u8>,
    call: Seq<char>,
)
    requires
        get(incoming(body), "call"@) == Some(JsonModel::Text(call)),
    ensures
        !s.pending.dom().contains(call) ==> {
            &&& ended(s, incoming(body)) == s
            &&& ended_contents(s, contents, incoming(body)) == contents
            &&& protocol_warning(s, "/end"@, body) is Some
            &&& mentions(protocol_warning(s, "/end"@, body)->0, crate::text::quoted(call))
        },
        s.pending.dom().contains(call) ==> protocol_warning(s, "/end"@, body) is None,
{
    if !s.pending.dom().contains(call) {
        assert(s.pending.remove(call) =~= s.pending);
        assert(ended(s, incoming(body)) =~= s);
        let line = protocol_warning(s, "/end"@, body)->0;
        assert(line == ("/end for unknown call "@ + crate::text::quoted(call)) + ", ignoring"@);
    }
}

/// Only the end of a call adds to a recording, and it adds at most one event.
/// What was recorded stays as it is.
pub proof fn lemma_protocol_adds(s: SessionModel, endpoint: Seq<char>, body: Seq<u8>)
    ensures
        ({
            let after = protocol_after(s, endpoint, body);
            &&& s.events.len() <= after.events.len() <= s.events.len() + 1
            &&& after.events.take(s.events.len() as int) == s.events
            &&& endpoint != "/end"@ ==> after.events == s.events
            &&& endpoint != "/end"@ && endpoint != "/begin"@ ==> after == s
            &&& endpoint != "/begin"@ ==> after.next_call == s.next_call
            &&& after.paths == s.paths
        }),
{
    let after = protocol_after(s, endpoint, body);
    assert(after.events.take(s.events.len() as int) =~= s.events);
}

proof fn lemma_width_counts(events: Seq<EventModel>, b: u64, i: int, j: int)
    requires
        0 <= i < events.len(),
        events[i].batch == Some(b),
    ensures
        batch_width(events, b) >= 1,
        i < j < events.len() && events[j].batch == Some(b) ==> batch_width(events, b) >= 2,
    decreases events.len(),
{
    let front = events.drop_last();
    if i < events.len() - 1 {
        assert(front[i] == events[i]);
        lemma_width_counts(front, b, i, j);
        if i < j < front.len() {
            assert(front[j] == events[j]);
        }
    }
}

proof fn lemma_width_alone(events: Seq<EventModel>, b: u64, i: int)
    requires
        forall|j: int| 0 <= j < events.len() && j != i ==> (#[trigger] events[j]).batch != Some(b),
    ensures
        batch_width(events, b) <= 1,
        !(0 <= i < events.len()) ==> batch_width(events, b) == 0,
    decreases events.len(),
{
    if events.len() > 0 {
        let front = events.drop_last();
        assert forall|j: int| 0 <= j < front.len() && j != i implies (#[trigger] front[j]).batch
            != Some(b) by {
            assert(events[j] == front[j]);
        }
        lemma_width_alone(front, b, i);
        if i != events.len() - 1 {
            assert(events[events.len() - 1].batch != Some(b));
        }
    }
}

/// A call stays in its burst exactly where another call is in it too. Nothing
/// else of an event changes, and no event is dropped or moved.
pub proof fn lemma_lone_dissolved(events: Seq<EventModel>, i: int, b: u64)
    requires
        0 <= i < events.len(),
    ensures
        without_lone(events).len() == events.len(),
        without_lone(events)[i] == (EventModel {
            batch: without_lone(events)[i].batch,
            ..events[i]
        }),
        without_lone(events)[i].batch == Some(b) <==> events[i].batch == Some(b) && exists|j: int|
            0 <= j < events.len() && j != i && (#[trigger] events[j]).batch == Some(b),
{
    if events[i].batch == Some(b) {
        if exists|j: int|
            0 <= j < events.len() && j != i && (#[trigger] events[j]).batch == Some(b) {
            let j = choose|j: int|
                0 <= j < events.len() && j != i && (#[trigger] events[j]).batch == Some(b);
            if i < j {
                lemma_width_counts(events, b, i, j);
            } else {
                lemma_width_counts(events, b, j, i);
            }
        } else {
            lemma_width_alone(events, b, i);
        }
    }
}

// ---------------------------------------------------------------------------
// What is answered
// ---------------------------------------------------------------------------

/// During a replay a tool is answered with its outcome and told to return it.
/// It is never told to execute.
pub proof fn lemma_replay_returns(call: Seq<char>, o: OutcomeModel)
    ensures
        ({
            let reply = return_reply(call, o);
            &&& reply.status == 200
            &&& get(reply.body, "action"@) == Some(JsonModel::Text("return"@))
            &&& get(reply.body, "action"@) != Some(JsonModel::Text("execute"@))
            &&& get(reply.body, "call"@) == Some(JsonModel::Text(call))
            &&& reported_outcome(reply.body) == ordered_outcome(o)
        }),
{
    broadcast use lemma_lookup_put;

    reveal_strlit("action");
    reveal_strlit("call");
    reveal_strlit("outcome");
    reveal_strlit("return");
    reveal_strlit("execute");
    assert("action"@.len() == 6 && "call"@.len() == 4 && "outcome"@.len() == 7 && "return"@.len()
        == 6 && "execute"@.len() == 7);
    lemma_outcome_back(o);
}

/// What a replay performs is what was asked: a model call on a model's path,
/// and a tool call where one is begun. What else the protocol has is answered at
/// once, and never with something to execute; a reported end has no effect,
/// whatever it says; and what is no endpoint is not found.
pub proof fn lemma_replay_asked(url: Seq<char>, body: Seq<u8>, other: Seq<u8>)
    ensures
        protocol_endpoint(url) is None ==> asked_of_replay(url, body) == (AskModel::Model {
            request: model_call(incoming(body)),
        }),
        url == "/_samsara"@ + "/begin"@ ==> asked_of_replay(url, body) == (AskModel::Tool {
            request: reported_request(incoming(body)),
            batch: reported_batch(incoming(body)),
        }),
        url == "/_samsara"@ + "/end"@ ==> {
            &&& asked_of_replay(url, body) is Settled
            &&& asked_of_replay(url, body) == asked_of_replay(url, other)
        },
        url == "/_samsara"@ + "/ping"@ ==> (asked_of_replay(url, body) matches AskModel::Settled {
            reply,
        } && reply.status == 200 && get(reply.body, "ok"@) == Some(JsonModel::Bool(true))),
        asked_of_replay(url, body) is Settled ==> get(
            asked_of_replay(url, body)->reply.body,
            "action"@,
        ) is None,
{
    broadcast use lemma_lookup_put;

    lemma_protocol_routed(url, "/begin"@);
    lemma_protocol_routed(url, "/end"@);
    lemma_protocol_routed(url, "/ping"@);
    lemma_endpoint_words();
    reveal_strlit("action");
    reveal_strlit("ok");
    reveal_strlit("error");
    reveal_strlit("outcome");
    assert("action"@.len() == 6 && "ok"@.len() == 2 && "error"@.len() == 5 && "outcome"@.len()
        == 7);
}

proof fn lemma_endpoint_words()
    ensures
        "/ping"@ != "/begin"@,
        "/ping"@ != "/end"@,
        "/begin"@ != "/end"@,
{
    reveal_strlit("/ping");
    reveal_strlit("/begin");
    reveal_strlit("/end");
    assert("/ping"@.len() == 5 && "/begin"@.len() == 6 && "/end"@.len() == 4);
}

/// What is no endpoint of the protocol is not found, during a recording and
/// during a replay, and the answer names it.
pub proof fn lemma_no_such_endpoint(s: SessionModel, endpoint: Seq<char>, body: Seq<u8>)
    requires
        endpoint != "/begin"@,
        endpoint != "/end"@,
        endpoint != "/ping"@,
    ensures
        protocol_reply(s, endpoint, body).status == 404,
        get(protocol_reply(s, endpoint, body).body, "error"@) matches Some(JsonModel::Text(line))
            && mentions(line, endpoint),
        asked_of_replay("/_samsara"@ + endpoint, body) == (AskModel::Settled {
            reply: protocol_reply(s, endpoint, body),
        }),
        protocol_after(s, endpoint, body) == s,
{
    broadcast use lemma_lookup_put;

    lemma_protocol_routed("/_samsara"@ + endpoint, endpoint);
    let line = "no such endpoint: "@ + endpoint;
    assert(line =~= ("no such endpoint: "@ + endpoint) + Seq::<char>::empty());
}

/// A recording answers a ping that all is well, a begin that the call is to be
/// executed under its new name, and an end with the outcome that it reports.
pub proof fn lemma_recording_answers(s: SessionModel, body: Seq<u8>)
    ensures
        protocol_reply(s, "/ping"@, body) == pong(),
        get(protocol_reply(s, "/begin"@, body).body, "call"@) == Some(
            JsonModel::Text(call_name(s.next_call)),
        ),
        get(protocol_reply(s, "/begin"@, body).body, "outcome"@) is None,
        reported_outcome(protocol_reply(s, "/end"@, body).body) == ordered_outcome(
            reported_outcome(incoming(body)),
        ),
        protocol_reply(s, "/ping"@, body).status == 200,
        protocol_reply(s, "/begin"@, body).status == 200,
        protocol_reply(s, "/end"@, body).status == 200,
{
    broadcast use lemma_lookup_put;

    lemma_endpoint_words();
    reveal_strlit("action");
    reveal_strlit("call");
    reveal_strlit("outcome");
    assert("action"@.len() == 6 && "call"@.len() == 4 && "outcome"@.len() == 7);
    lemma_outcome_back(reported_outcome(incoming(body)));
}

/// A response that is no success is recorded as a failure, and answered in a
/// replay with the very status and text that it came with.
pub proof fn lemma_error_status_kept(status: u16, body: Seq<char>)
    requires
        status < 200 || status >= 300,
    ensures
        response_outcome(status, body) is Failure,
        model_reply(response_outcome(status, body)).status == status,
        get(model_reply(response_outcome(status, body)).body, "error"@) matches Some(error) && get(
            error,
            "message"@,
        ) == Some(JsonModel::Text(body)) && get(error, "type"@) == Some(
            JsonModel::Text(decimal(status as nat)),
        ),
{
    broadcast use lemma_lookup_put;

    lemma_decimal_back(status as nat);
    let code = decimal(status as nat);
    assert(is_digit(code[0]));
    assert(code[0] != '+');
    assert(read_number(code, u16::MAX as nat) == Some(status as nat));
    lemma_error_keys();
}

proof fn lemma_error_keys()
    ensures
        "type"@ != "message"@,
{
    reveal_strlit("type");
    reveal_strlit("message");
    assert("type"@.len() == 4 && "message"@.len() == 7);
}

/// A response that is a success is recorded as one and answered as one, with the
/// document it holds; a text that is no document is kept as a text.
pub proof fn lemma_success_kept(status: u16, body: Seq<char>)
    requires
        200 <= status < 300,
    ensures
        response_outcome(status, body) is Success,
        model_reply(response_outcome(status, body)).status == 200,
        json_read(encode_utf8(body)) matches Some(m) ==> model_reply(
            response_outcome(status, body),
        ).body == ordered(m),
        json_read(encode_utf8(body)) is None ==> model_reply(response_outcome(status, body)).body
            == JsonModel::Text(body),
{
}

/// A failure whose code is no number, such as a lost answer, reaches the agent as
/// a gateway that timed out, with its code and message.
pub proof fn lemma_lost_model_answer(code: Seq<char>, message: Seq<char>)
    requires
        code.len() > 0,
        !is_digit(code.last()),
    ensures
        ({
            let reply = model_reply(OutcomeModel::Failure { code, message });
            &&& reply.status == 504
            &&& get(reply.body, "error"@) is Some
            &&& get(get(reply.body, "error"@)->0, "type"@) == Some(JsonModel::Text(code))
            &&& get(get(reply.body, "error"@)->0, "message"@) == Some(JsonModel::Text(message))
        }),
{
    broadcast use lemma_lookup_put;

    lemma_error_keys();
    let body = crate::text::unsigned_part(code);
    if body.len() > 0 {
        assert(body[body.len() - 1] == code.last());
    }
}

} // verus!
