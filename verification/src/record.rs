//! Records as JSON: how requests, outcomes, faults, events and headers are
//! written, and what is read back.
//!
//! A record is written as an object with its fields in a fixed order. It is
//! read from an object, in whatever order and with unknown fields ignored, or
//! from an array of its fields in their order.
//!
//! The document comes first and the record is taken from it. So of a field that
//! an object repeats the last one counts, and a text is refused where any part
//! of it cannot be read as JSON, an ignored field too.

use crate::event::{
    kind_name, EffectKind, EffectRequest, Event, EventModel, Outcome, OutcomeModel, RequestModel,
};
use crate::fault::{Fault, FaultModel, FaultPoint, FaultSchedule, PointModel};
use crate::hash::Digest;
use crate::json::{
    exact, fields_of, get, items_of, keys_of, lookup, ordered, text, tidy, whole, Json, JsonModel,
    NumberModel,
};
use crate::model::{viewed, views};
use crate::text::same;
use vstd::prelude::*;

verus! {

// ---------------------------------------------------------------------------
// Writing fields
// ---------------------------------------------------------------------------

/// The fields of an object.
pub type Fields = Seq<(Seq<char>, JsonModel)>;

/// A whole number as a document.
pub open spec fn number(n: u64) -> JsonModel {
    JsonModel::Number(NumberModel::Unsigned(n))
}

/// Fields with one more behind them.
pub open spec fn put(fields: Fields, key: Seq<char>, value: JsonModel) -> Fields {
    fields.push((key, value))
}

/// Fields with one more behind them, where it has a value.
pub open spec fn put_some(fields: Fields, key: Seq<char>, value: Option<JsonModel>) -> Fields {
    match value {
        Some(v) => fields.push((key, v)),
        None => fields,
    }
}

/// What stands under a key once a field is put behind the others.
pub broadcast proof fn lemma_lookup_put(fields: Fields, key: Seq<char>, value: JsonModel, asked: Seq<
    char,
>)
    ensures
        #[trigger] lookup(put(fields, key, value), asked) == if asked == key {
            Some(value)
        } else {
            lookup(fields, asked)
        },
{
    let more = put(fields, key, value);
    assert(more.drop_last() =~= fields);
    crate::json::lemma_field_index(fields, asked);
}

/// What stands under a key once an optional field is put behind the others.
pub broadcast proof fn lemma_lookup_put_some(
    fields: Fields,
    key: Seq<char>,
    value: Option<JsonModel>,
    asked: Seq<char>,
)
    ensures
        #[trigger] lookup(put_some(fields, key, value), asked) == if asked == key && value is Some {
            value
        } else {
            lookup(fields, asked)
        },
{
    match value {
        Some(v) => {
            lemma_lookup_put(fields, key, v, asked);
        },
        None => {},
    }
}

proof fn lemma_lookup_empty(key: Seq<char>)
    ensures
        lookup(Seq::<(Seq<char>, JsonModel)>::empty(), key) is None,
{
}

/// Whether fields can be printed and read back exactly, with this much room
/// for what they hold.
pub open spec fn sound(fields: Fields, room: nat) -> bool {
    tidy(JsonModel::Object(fields)) && exact(JsonModel::Object(fields), room + 1)
}

pub proof fn lemma_sound_put(fields: Fields, room: nat, key: Seq<char>, value: JsonModel)
    requires
        sound(fields, room),
        lookup(fields, key) is None,
        tidy(value),
        exact(value, room),
    ensures
        sound(put(fields, key, value), room),
{
    let more = put(fields, key, value);
    crate::json::lemma_field_index(fields, key);
    assert forall|i: int, j: int| 0 <= i < j < more.len() implies keys_of(more)[i] != keys_of(
        more,
    )[j] by {
        if j < fields.len() {
            assert(keys_of(fields)[i] != keys_of(fields)[j]);
        } else {
            assert(fields[i].0 != key);
        }
    }
    assert forall|i: int| 0 <= i < more.len() implies tidy((#[trigger] more[i]).1) by {
        if i < fields.len() {
            assert(more[i] == fields[i]);
        }
    }
    assert forall|i: int| 0 <= i < more.len() implies exact((#[trigger] more[i]).1, room) by {
        if i < fields.len() {
            assert(more[i] == fields[i]);
        }
    }
}

/// A field of its own keeps an object free of repeats.
pub proof fn lemma_tidy_put(fields: Fields, key: Seq<char>, value: JsonModel)
    requires
        tidy(JsonModel::Object(fields)),
        lookup(fields, key) is None,
        tidy(value),
    ensures
        tidy(JsonModel::Object(put(fields, key, value))),
{
    let more = put(fields, key, value);
    crate::json::lemma_field_index(fields, key);
    assert forall|i: int, j: int| 0 <= i < j < more.len() implies keys_of(more)[i] != keys_of(
        more,
    )[j] by {
        if j < fields.len() {
            assert(keys_of(fields)[i] != keys_of(fields)[j]);
        } else {
            assert(fields[i].0 != key);
        }
    }
    assert forall|i: int| 0 <= i < more.len() implies tidy((#[trigger] more[i]).1) by {
        if i < fields.len() {
            assert(more[i] == fields[i]);
        }
    }
}

pub proof fn lemma_sound_put_some(
    fields: Fields,
    room: nat,
    key: Seq<char>,
    value: Option<JsonModel>,
)
    requires
        sound(fields, room),
        lookup(fields, key) is None,
        value matches Some(v) ==> tidy(v) && exact(v, room),
    ensures
        sound(put_some(fields, key, value), room),
{
    match value {
        Some(v) => {
            lemma_sound_put(fields, room, key, v);
        },
        None => {},
    }
}

pub proof fn lemma_sound_empty(room: nat)
    ensures
        sound(Seq::<(Seq<char>, JsonModel)>::empty(), room),
{
    let none = Seq::<(Seq<char>, JsonModel)>::empty();
    assert(keys_of(none).no_duplicates());
}

/// Puts a field behind the others.
pub fn put_field(fields: &mut Vec<(String, Json)>, key: &str, value: Json)
    ensures
        fields_of(final(fields)@) == put(fields_of(old(fields)@), key@, value@),
{
    fields.push((key.to_owned(), value));
    assert(fields_of(fields@) =~= put(fields_of(old(fields)@), key@, value@));
}

/// An object without fields yet.
pub fn no_fields() -> (r: Vec<(String, Json)>)
    ensures
        fields_of(r@) == Seq::<(Seq<char>, JsonModel)>::empty(),
{
    let fields: Vec<(String, Json)> = Vec::new();
    assert(fields_of(fields@) =~= seq![]);
    fields
}

// ---------------------------------------------------------------------------
// Reading fields
// ---------------------------------------------------------------------------

/// Whether a document can be a record of at most `n` fields.
pub open spec fn is_record(m: JsonModel, n: nat) -> bool {
    match m {
        JsonModel::Object(_) => true,
        JsonModel::Array(items) => items.len() <= n,
        _ => false,
    }
}

/// A record's field: by its name in an object, by its place in an array.
pub open spec fn field(m: JsonModel, place: int, name: Seq<char>) -> Option<JsonModel> {
    match m {
        JsonModel::Object(fields) => lookup(fields, name),
        JsonModel::Array(items) => if 0 <= place < items.len() {
            Some(items[place])
        } else {
            None
        },
        _ => None,
    }
}

/// The text of a field that is there.
pub open spec fn text_in(m: Option<JsonModel>) -> Option<Seq<char>> {
    match m {
        Some(v) => text(v),
        None => None,
    }
}

/// The whole number of a field that is there.
pub open spec fn whole_in(m: Option<JsonModel>) -> Option<u64> {
    match m {
        Some(v) => whole(v),
        None => None,
    }
}

/// Whether a field that may be left out is left out.
pub open spec fn left_out(m: Option<JsonModel>) -> bool {
    m is None || m == Some(JsonModel::Null)
}

/// The text of a field that may be left out.
pub open spec fn some_text(m: Option<JsonModel>) -> Option<Option<Seq<char>>> {
    if left_out(m) {
        Some(None)
    } else {
        match text_in(m) {
            Some(t) => Some(Some(t)),
            None => None,
        }
    }
}

/// The whole number of a field that may be left out.
pub open spec fn some_whole(m: Option<JsonModel>) -> Option<Option<u64>> {
    if left_out(m) {
        Some(None)
    } else {
        match whole_in(m) {
            Some(n) => Some(Some(n)),
            None => None,
        }
    }
}

/// The kind a word stands for.
pub open spec fn kind_named(name: Seq<char>) -> Option<EffectKind> {
    if name == "model"@ {
        Some(EffectKind::Model)
    } else if name == "tool"@ {
        Some(EffectKind::Tool)
    } else if name == "clock"@ {
        Some(EffectKind::Clock)
    } else if name == "random"@ {
        Some(EffectKind::Random)
    } else {
        None
    }
}

/// The kind in a field: its word, or an object whose only key is that word.
pub open spec fn kind_in(m: Option<JsonModel>) -> Option<EffectKind> {
    match m {
        Some(JsonModel::Text(name)) => kind_named(name),
        Some(JsonModel::Object(fields)) => if fields.len() == 1 && fields[0].1
            == JsonModel::Null {
            kind_named(fields[0].0)
        } else {
            None
        },
        _ => None,
    }
}

/// Every kind is found again by its word.
pub proof fn lemma_kind_named(kind: EffectKind)
    ensures
        kind_named(kind_name(kind)) == Some(kind),
{
    reveal_strlit("model");
    reveal_strlit("tool");
    reveal_strlit("clock");
    reveal_strlit("random");
    assert("model"@.len() == 5 && "tool"@.len() == 4 && "clock"@.len() == 5 && "random"@.len()
        == 6);
    assert("model"@[0] == 'm' && "clock"@[0] == 'c');
}

/// `is_record`, decided.
pub fn check_record(json: &Json, n: usize) -> (r: bool)
    ensures
        r == is_record(json@, n as nat),
{
    match json {
        Json::Object(_) => true,
        Json::Array(items) => {
            proof {
                crate::json::lemma_array_view(*items);
            }
            items.len() <= n
        },
        _ => false,
    }
}

/// `field`, found.
pub fn field_of<'a>(json: &'a Json, place: usize, name: &str) -> (r: Option<&'a Json>)
    ensures
        viewed(r) == field(json@, place as int, name@),
{
    match json {
        Json::Object(_) => json.get(name),
        Json::Array(items) => {
            proof {
                crate::json::lemma_array_view(*items);
            }
            if place < items.len() {
                assert(items_of(items@)[place as int] == items@[place as int]@);
                Some(&items[place])
            } else {
                None
            }
        },
        _ => None,
    }
}

/// `text_in`, read.
pub fn read_text(json: Option<&Json>) -> (r: Option<String>)
    ensures
        viewed(r) == text_in(viewed(json)),
{
    match json {
        Some(v) => match v.as_text() {
            Some(t) => Some(t.clone()),
            None => None,
        },
        None => None,
    }
}

/// `whole_in`, read.
pub fn read_whole(json: Option<&Json>) -> (r: Option<u64>)
    ensures
        r == whole_in(viewed(json)),
{
    match json {
        Some(v) => v.as_u64(),
        None => None,
    }
}

/// `left_out`, decided.
pub fn is_left_out(json: Option<&Json>) -> (r: bool)
    ensures
        r == left_out(viewed(json)),
{
    match json {
        Some(v) => v.is_null(),
        None => true,
    }
}

/// The kind a word stands for.
fn kind_of_name(name: &str) -> (r: Option<EffectKind>)
    ensures
        r == kind_named(name@),
{
    if same(name, "model") {
        Some(EffectKind::Model)
    } else if same(name, "tool") {
        Some(EffectKind::Tool)
    } else if same(name, "clock") {
        Some(EffectKind::Clock)
    } else if same(name, "random") {
        Some(EffectKind::Random)
    } else {
        None
    }
}

/// `kind_in`, read.
fn read_kind(json: Option<&Json>) -> (r: Option<EffectKind>)
    ensures
        r == kind_in(viewed(json)),
{
    match json {
        Some(Json::Text(name)) => kind_of_name(name.as_str()),
        Some(Json::Object(fields)) => {
            proof {
                crate::json::lemma_object_view(*fields);
            }
            if fields.len() == 1 {
                assert(fields_of(fields@)[0] == (fields@[0].0@, fields@[0].1@));
                if fields[0].1.is_null() {
                    kind_of_name(fields[0].0.as_str())
                } else {
                    None
                }
            } else {
                None
            }
        },
        _ => None,
    }
}

// ---------------------------------------------------------------------------
// Requests
// ---------------------------------------------------------------------------

/// The fields of a request, its body in key order.
pub open spec fn request_fields(r: RequestModel) -> Fields {
    put(
        put(
            put(seq![], "kind"@, JsonModel::Text(kind_name(r.kind))),
            "name"@,
            JsonModel::Text(r.name),
        ),
        "body"@,
        ordered(r.body),
    )
}

/// A request as a document.
pub open spec fn request_json(r: RequestModel) -> JsonModel {
    JsonModel::Object(request_fields(r))
}

/// The request a document stands for, its body in key order.
pub open spec fn request_from(m: JsonModel) -> Option<RequestModel> {
    let kind = kind_in(field(m, 0, "kind"@));
    let name = text_in(field(m, 1, "name"@));
    let body = field(m, 2, "body"@);
    if is_record(m, 3) && kind is Some && name is Some && body is Some {
        Some(RequestModel { kind: kind->0, name: name->0, body: ordered(body->0) })
    } else {
        None
    }
}

/// A request with its body in key order.
pub open spec fn ordered_request(r: RequestModel) -> RequestModel {
    RequestModel { kind: r.kind, name: r.name, body: ordered(r.body) }
}

/// A request is read back as it was written, its body in key order.
pub proof fn lemma_request_back(r: RequestModel)
    ensures
        request_from(request_json(r)) == Some(ordered_request(r)),
        tidy(request_json(r)),
        forall|room: nat| exact(r.body, room) ==> #[trigger] exact(request_json(r), room + 1),
{
    broadcast use lemma_lookup_put;

    reveal_strlit("kind");
    reveal_strlit("name");
    reveal_strlit("body");
    assert("kind"@[0] == 'k' && "name"@[0] == 'n' && "body"@[0] == 'b');
    lemma_kind_named(r.kind);
    crate::json::lemma_ordered_idle(r.body);
    crate::json::lemma_ordered_tidy(r.body);
    let f0 = Seq::<(Seq<char>, JsonModel)>::empty();
    let f1 = put(f0, "kind"@, JsonModel::Text(kind_name(r.kind)));
    let f2 = put(f1, "name"@, JsonModel::Text(r.name));
    let f3 = request_fields(r);
    assert(f3 == put(f2, "body"@, ordered(r.body)));
    assert forall|i: int, j: int| 0 <= i < j < 3 implies keys_of(f3)[i] != keys_of(f3)[j] by {
        assert(f3[0].0 == "kind"@ && f3[1].0 == "name"@ && f3[2].0 == "body"@);
    }
    assert forall|i: int| 0 <= i < f3.len() implies tidy((#[trigger] f3[i]).1) by {}
    assert forall|room: nat| exact(r.body, room) implies #[trigger] exact(
        request_json(r),
        room + 1,
    ) by {
        crate::json::lemma_ordered_exact(r.body, room);
        assert forall|i: int| 0 <= i < f3.len() implies exact((#[trigger] f3[i]).1, room) by {}
    }
}

impl EffectRequest {
    /// This request as a document.
    pub fn to_json(&self) -> (r: Json)
        ensures
            r@ == request_json(self@),
            tidy(r@),
    {
        let mut fields = no_fields();
        put_field(&mut fields, "kind", Json::text(self.kind.as_str()));
        put_field(&mut fields, "name", Json::Text(self.name.clone()));
        put_field(&mut fields, "body", self.body.ordered());
        proof {
            lemma_request_back(self@);
        }
        Json::object(fields)
    }

    /// The request a document stands for.
    pub fn from_json(json: &Json) -> (r: Option<EffectRequest>)
        ensures
            viewed(r) == request_from(json@),
    {
        if !check_record(json, 3) {
            return None;
        }
        let kind = match read_kind(field_of(json, 0, "kind")) {
            Some(kind) => kind,
            None => return None,
        };
        let name = match read_text(field_of(json, 1, "name")) {
            Some(name) => name,
            None => return None,
        };
        match field_of(json, 2, "body") {
            Some(body) => Some(EffectRequest { kind, name, body: body.ordered() }),
            None => None,
        }
    }
}

// ---------------------------------------------------------------------------
// Outcomes
// ---------------------------------------------------------------------------

/// The fields of an outcome, its value in key order.
pub open spec fn outcome_fields(o: OutcomeModel) -> Fields {
    match o {
        OutcomeModel::Success { value } => put(
            put(seq![], "status"@, JsonModel::Text("ok"@)),
            "value"@,
            ordered(value),
        ),
        OutcomeModel::Failure { code, message } => put(
            put(put(seq![], "status"@, JsonModel::Text("err"@)), "code"@, JsonModel::Text(code)),
            "message"@,
            JsonModel::Text(message),
        ),
    }
}

/// An outcome as a document.
pub open spec fn outcome_json(o: OutcomeModel) -> JsonModel {
    JsonModel::Object(outcome_fields(o))
}

/// The outcome a document stands for, its value in key order.
pub open spec fn outcome_from(m: JsonModel) -> Option<OutcomeModel> {
    let status = text_in(field(m, 0, "status"@));
    if status == Some("ok"@) {
        let value = field(m, 1, "value"@);
        if is_record(m, 2) && value is Some {
            Some(OutcomeModel::Success { value: ordered(value->0) })
        } else {
            None
        }
    } else if status == Some("err"@) {
        let code = text_in(field(m, 1, "code"@));
        let message = text_in(field(m, 2, "message"@));
        if is_record(m, 3) && code is Some && message is Some {
            Some(OutcomeModel::Failure { code: code->0, message: message->0 })
        } else {
            None
        }
    } else {
        None
    }
}

/// An outcome with its value in key order.
pub open spec fn ordered_outcome(o: OutcomeModel) -> OutcomeModel {
    match o {
        OutcomeModel::Success { value } => OutcomeModel::Success { value: ordered(value) },
        OutcomeModel::Failure { .. } => o,
    }
}

/// Whether an outcome nests at most `room` deep and holds no fractions.
pub open spec fn exact_outcome(o: OutcomeModel, room: nat) -> bool {
    match o {
        OutcomeModel::Success { value } => exact(value, room),
        OutcomeModel::Failure { .. } => true,
    }
}

/// An outcome is read back as it was written, its value in key order.
pub proof fn lemma_outcome_back(o: OutcomeModel)
    ensures
        outcome_from(outcome_json(o)) == Some(ordered_outcome(o)),
        tidy(outcome_json(o)),
        forall|room: nat|
            exact_outcome(o, room) ==> #[trigger] exact(outcome_json(o), room + 1),
{
    broadcast use lemma_lookup_put;

    reveal_strlit("status");
    reveal_strlit("value");
    reveal_strlit("code");
    reveal_strlit("message");
    reveal_strlit("ok");
    reveal_strlit("err");
    assert("status"@.len() == 6 && "value"@.len() == 5 && "code"@.len() == 4 && "message"@.len()
        == 7 && "ok"@.len() == 2 && "err"@.len() == 3);
    let f = outcome_fields(o);
    match o {
        OutcomeModel::Success { value } => {
            crate::json::lemma_ordered_idle(value);
            crate::json::lemma_ordered_tidy(value);
            assert(f[0].0 == "status"@ && f[1].0 == "value"@ && f.len() == 2);
        },
        OutcomeModel::Failure { code, message } => {
            assert(f[0].0 == "status"@ && f[1].0 == "code"@ && f[2].0 == "message"@ && f.len()
                == 3);
        },
    }
    assert forall|i: int, j: int| 0 <= i < j < f.len() implies keys_of(f)[i] != keys_of(f)[j] by {}
    assert forall|i: int| 0 <= i < f.len() implies tidy((#[trigger] f[i]).1) by {}
    assert forall|room: nat| exact_outcome(o, room) implies #[trigger] exact(
        outcome_json(o),
        room + 1,
    ) by {
        match o {
            OutcomeModel::Success { value } => {
                crate::json::lemma_ordered_exact(value, room);
            },
            OutcomeModel::Failure { .. } => {},
        }
        assert forall|i: int| 0 <= i < f.len() implies exact((#[trigger] f[i]).1, room) by {}
    }
}

impl Outcome {
    /// This outcome as a document.
    pub fn to_json(&self) -> (r: Json)
        ensures
            r@ == outcome_json(self@),
            tidy(r@),
    {
        let mut fields = no_fields();
        match self {
            Outcome::Success { value } => {
                put_field(&mut fields, "status", Json::text("ok"));
                put_field(&mut fields, "value", value.ordered());
            },
            Outcome::Failure { code, message } => {
                put_field(&mut fields, "status", Json::text("err"));
                put_field(&mut fields, "code", Json::Text(code.clone()));
                put_field(&mut fields, "message", Json::Text(message.clone()));
            },
        }
        proof {
            lemma_outcome_back(self@);
        }
        Json::object(fields)
    }

    /// The outcome a document stands for.
    pub fn from_json(json: &Json) -> (r: Option<Outcome>)
        ensures
            viewed(r) == outcome_from(json@),
    {
        proof {
            reveal_strlit("ok");
            reveal_strlit("err");
        }
        let status = match read_text(field_of(json, 0, "status")) {
            Some(status) => status,
            None => return None,
        };
        if same(status.as_str(), "ok") {
            if !check_record(json, 2) {
                return None;
            }
            match field_of(json, 1, "value") {
                Some(value) => Some(Outcome::Success { value: value.ordered() }),
                None => None,
            }
        } else if same(status.as_str(), "err") {
            if !check_record(json, 3) {
                return None;
            }
            let code = match read_text(field_of(json, 1, "code")) {
                Some(code) => code,
                None => return None,
            };
            match read_text(field_of(json, 2, "message")) {
                Some(message) => Some(Outcome::Failure { code, message }),
                None => None,
            }
        } else {
            None
        }
    }
}

// ---------------------------------------------------------------------------
// Faults and schedules
// ---------------------------------------------------------------------------

/// A list of sizes as a document.
pub open spec fn sizes_json(list: Seq<usize>) -> JsonModel {
    JsonModel::Array(Seq::new(list.len(), |i: int| number(list[i] as u64)))
}

/// The word for a fault's type.
pub open spec fn fault_name(f: FaultModel) -> Seq<char> {
    match f {
        FaultModel::Timeout => "timeout"@,
        FaultModel::Error { .. } => "error"@,
        FaultModel::Truncate { .. } => "truncate"@,
        FaultModel::Duplicate => "duplicate"@,
        FaultModel::Malformed => "malformed"@,
        FaultModel::Delay { .. } => "delay"@,
        FaultModel::Reorder { .. } => "reorder"@,
        FaultModel::Exact { .. } => "exact"@,
    }
}

/// The fields of a fault.
pub open spec fn fault_fields(f: FaultModel) -> Fields {
    let named = put(seq![], "type"@, JsonModel::Text(fault_name(f)));
    match f {
        FaultModel::Error { code } => put(named, "code"@, JsonModel::Text(code)),
        FaultModel::Truncate { keep } => put(named, "keep"@, number(keep as u64)),
        FaultModel::Delay { ms } => put(named, "ms"@, number(ms)),
        FaultModel::Reorder { seed } => put(named, "seed"@, number(seed)),
        FaultModel::Exact { order } => put(named, "order"@, sizes_json(order)),
        _ => named,
    }
}

/// A fault as a document.
pub open spec fn fault_json(f: FaultModel) -> JsonModel {
    JsonModel::Object(fault_fields(f))
}

/// The size of a field that is there.
pub open spec fn size_in(m: Option<JsonModel>) -> Option<usize> {
    match whole_in(m) {
        Some(n) => if n <= usize::MAX {
            Some(n as usize)
        } else {
            None
        },
        None => None,
    }
}

/// The sizes in a list of documents, where each is a size.
pub open spec fn sizes_in(items: Seq<JsonModel>) -> Option<Seq<usize>> {
    if forall|i: int| 0 <= i < items.len() ==> size_in(Some(#[trigger] items[i])) is Some {
        Some(Seq::new(items.len(), |i: int| size_in(Some(items[i]))->0))
    } else {
        None
    }
}

/// The fault a document stands for.
pub open spec fn fault_from(m: JsonModel) -> Option<FaultModel> {
    match text_in(field(m, 0, "type"@)) {
        None => None,
        Some(name) => if name == "timeout"@ && is_record(m, 1) {
            Some(FaultModel::Timeout)
        } else if name == "error"@ && is_record(m, 2) {
            match text_in(field(m, 1, "code"@)) {
                Some(code) => Some(FaultModel::Error { code }),
                None => None,
            }
        } else if name == "truncate"@ && is_record(m, 2) {
            match size_in(field(m, 1, "keep"@)) {
                Some(keep) => Some(FaultModel::Truncate { keep }),
                None => None,
            }
        } else if name == "duplicate"@ && is_record(m, 1) {
            Some(FaultModel::Duplicate)
        } else if name == "malformed"@ && is_record(m, 1) {
            Some(FaultModel::Malformed)
        } else if name == "delay"@ && is_record(m, 2) {
            match whole_in(field(m, 1, "ms"@)) {
                Some(ms) => Some(FaultModel::Delay { ms }),
                None => None,
            }
        } else if name == "reorder"@ && is_record(m, 2) {
            match whole_in(field(m, 1, "seed"@)) {
                Some(seed) => Some(FaultModel::Reorder { seed }),
                None => None,
            }
        } else if name == "exact"@ && is_record(m, 2) {
            match field(m, 1, "order"@) {
                Some(JsonModel::Array(items)) => match sizes_in(items) {
                    Some(order) => Some(FaultModel::Exact { order }),
                    None => None,
                },
                _ => None,
            }
        } else {
            None
        },
    }
}

proof fn lemma_fault_words()
    ensures
        "type"@ != "code"@,
        "type"@ != "keep"@,
        "type"@ != "ms"@,
        "type"@ != "seed"@,
        "type"@ != "order"@,
        "timeout"@ != "error"@,
        "timeout"@ != "truncate"@,
        "timeout"@ != "duplicate"@,
        "timeout"@ != "malformed"@,
        "timeout"@ != "delay"@,
        "timeout"@ != "reorder"@,
        "timeout"@ != "exact"@,
        "error"@ != "truncate"@,
        "error"@ != "duplicate"@,
        "error"@ != "malformed"@,
        "error"@ != "delay"@,
        "error"@ != "reorder"@,
        "error"@ != "exact"@,
        "truncate"@ != "duplicate"@,
        "truncate"@ != "malformed"@,
        "truncate"@ != "delay"@,
        "truncate"@ != "reorder"@,
        "truncate"@ != "exact"@,
        "duplicate"@ != "malformed"@,
        "duplicate"@ != "delay"@,
        "duplicate"@ != "reorder"@,
        "duplicate"@ != "exact"@,
        "malformed"@ != "delay"@,
        "malformed"@ != "reorder"@,
        "malformed"@ != "exact"@,
        "delay"@ != "reorder"@,
        "delay"@ != "exact"@,
        "reorder"@ != "exact"@,
{
    reveal_strlit("type");
    reveal_strlit("code");
    reveal_strlit("keep");
    reveal_strlit("ms");
    reveal_strlit("seed");
    reveal_strlit("order");
    reveal_strlit("timeout");
    reveal_strlit("error");
    reveal_strlit("truncate");
    reveal_strlit("duplicate");
    reveal_strlit("malformed");
    reveal_strlit("delay");
    reveal_strlit("reorder");
    reveal_strlit("exact");
    assert("timeout"@.len() == 7 && "truncate"@.len() == 8 && "duplicate"@.len() == 9
        && "delay"@.len() == 5 && "ms"@.len() == 2 && "order"@.len() == 5 && "type"@.len() == 4);
    assert("type"@[0] == 't' && "code"@[0] == 'c' && "keep"@[0] == 'k' && "seed"@[0] == 's');
    assert("timeout"@[0] == 't' && "error"@[1] == 'r' && "truncate"@[0] == 't' && "duplicate"@[0]
        == 'd' && "malformed"@[0] == 'm' && "delay"@[0] == 'd' && "reorder"@[0] == 'r'
        && "exact"@[1] == 'x' && "error"@[0] == 'e' && "exact"@[0] == 'e');
}

/// A fault is read back as it was written.
pub proof fn lemma_fault_back(f: FaultModel)
    ensures
        fault_from(fault_json(f)) == Some(f),
        tidy(fault_json(f)),
        exact(fault_json(f), 2),
{
    broadcast use lemma_lookup_put;

    lemma_fault_words();
    lemma_sound_empty(1);
    let none = Seq::<(Seq<char>, JsonModel)>::empty();
    lemma_lookup_empty("type"@);
    let name = JsonModel::Text(fault_name(f));
    let named = put(none, "type"@, name);
    lemma_sound_put(none, 1, "type"@, name);
    match f {
        FaultModel::Error { code } => {
            lemma_sound_put(named, 1, "code"@, JsonModel::Text(code));
        },
        FaultModel::Truncate { keep } => {
            lemma_sound_put(named, 1, "keep"@, number(keep as u64));
        },
        FaultModel::Delay { ms } => {
            lemma_sound_put(named, 1, "ms"@, number(ms));
        },
        FaultModel::Reorder { seed } => {
            lemma_sound_put(named, 1, "seed"@, number(seed));
        },
        FaultModel::Exact { order } => {
            let items = sizes_json(order)->Array_0;
            assert forall|i: int| 0 <= i < items.len() implies size_in(Some(#[trigger] items[i]))
                == Some(order[i]) by {}
            assert(sizes_in(items)->0 =~= order);
            assert forall|i: int| 0 <= i < items.len() implies tidy(#[trigger] items[i])
                && exact(items[i], 0) by {}
            lemma_sound_put(named, 1, "order"@, sizes_json(order));
        },
        _ => {},
    }
}

/// `size_in`, read.
pub fn read_size(json: Option<&Json>) -> (r: Option<usize>)
    ensures
        r == size_in(viewed(json)),
{
    match read_whole(json) {
        Some(n) => if n <= usize::MAX as u64 {
            Some(n as usize)
        } else {
            None
        },
        None => None,
    }
}

/// `sizes_in`, read.
pub fn read_sizes(items: &Vec<Json>) -> (r: Option<Vec<usize>>)
    ensures
        r is Some <==> sizes_in(items_of(items@)) is Some,
        r is Some ==> r->0@ == sizes_in(items_of(items@))->0,
{
    let ghost all = items_of(items@);
    let mut out: Vec<usize> = Vec::new();
    let mut i: usize = 0;
    while i < items.len()
        invariant
            i <= items@.len(),
            all == items_of(items@),
            out@.len() == i,
            forall|j: int| 0 <= j < i ==> size_in(Some(#[trigger] all[j])) == Some(out@[j]),
        decreases items@.len() - i,
    {
        assert(all[i as int] == items@[i as int]@);
        match read_size(Some(&items[i])) {
            Some(n) => {
                out.push(n);
            },
            None => {
                return None;
            },
        }
        i += 1;
    }
    assert(sizes_in(all)->0 =~= out@);
    Some(out)
}

impl Fault {
    /// This fault as a document.
    pub fn to_json(&self) -> (r: Json)
        ensures
            r@ == fault_json(self@),
    {
        let mut fields = no_fields();
        match self {
            Fault::Timeout => {
                put_field(&mut fields, "type", Json::text("timeout"));
            },
            Fault::Error { code } => {
                put_field(&mut fields, "type", Json::text("error"));
                put_field(&mut fields, "code", Json::Text(code.clone()));
            },
            Fault::Truncate { keep } => {
                put_field(&mut fields, "type", Json::text("truncate"));
                put_field(&mut fields, "keep", Json::whole(*keep as u64));
            },
            Fault::Duplicate => {
                put_field(&mut fields, "type", Json::text("duplicate"));
            },
            Fault::Malformed => {
                put_field(&mut fields, "type", Json::text("malformed"));
            },
            Fault::Delay { ms } => {
                put_field(&mut fields, "type", Json::text("delay"));
                put_field(&mut fields, "ms", Json::whole(*ms));
            },
            Fault::Reorder { seed } => {
                put_field(&mut fields, "type", Json::text("reorder"));
                put_field(&mut fields, "seed", Json::whole(*seed));
            },
            Fault::Exact { order } => {
                put_field(&mut fields, "type", Json::text("exact"));
                let mut items: Vec<Json> = Vec::new();
                let mut i: usize = 0;
                while i < order.len()
                    invariant
                        i <= order@.len(),
                        items@.len() == i,
                        forall|j: int|
                            0 <= j < i ==> (#[trigger] items@[j])@ == number(order@[j] as u64),
                    decreases order@.len() - i,
                {
                    items.push(Json::whole(order[i] as u64));
                    i += 1;
                }
                assert(items_of(items@) =~= sizes_json(order@)->Array_0);
                put_field(&mut fields, "order", Json::array(items));
            },
        }
        Json::object(fields)
    }

    /// The fault a document stands for.
    pub fn from_json(json: &Json) -> (r: Option<Fault>)
        ensures
            viewed(r) == fault_from(json@),
    {
        proof {
            lemma_fault_words();
        }
        let name = match read_text(field_of(json, 0, "type")) {
            Some(name) => name,
            None => return None,
        };
        let name = name.as_str();
        if same(name, "timeout") && check_record(json, 1) {
            Some(Fault::Timeout)
        } else if same(name, "error") && check_record(json, 2) {
            match read_text(field_of(json, 1, "code")) {
                Some(code) => Some(Fault::Error { code }),
                None => None,
            }
        } else if same(name, "truncate") && check_record(json, 2) {
            match read_size(field_of(json, 1, "keep")) {
                Some(keep) => Some(Fault::Truncate { keep }),
                None => None,
            }
        } else if same(name, "duplicate") && check_record(json, 1) {
            Some(Fault::Duplicate)
        } else if same(name, "malformed") && check_record(json, 1) {
            Some(Fault::Malformed)
        } else if same(name, "delay") && check_record(json, 2) {
            match read_whole(field_of(json, 1, "ms")) {
                Some(ms) => Some(Fault::Delay { ms }),
                None => None,
            }
        } else if same(name, "reorder") && check_record(json, 2) {
            match read_whole(field_of(json, 1, "seed")) {
                Some(seed) => Some(Fault::Reorder { seed }),
                None => None,
            }
        } else if same(name, "exact") && check_record(json, 2) {
            match field_of(json, 1, "order") {
                Some(Json::Array(items)) => {
                    proof {
                        crate::json::lemma_array_view(*items);
                    }
                    match read_sizes(items) {
                        Some(order) => Some(Fault::Exact { order }),
                        None => None,
                    }
                },
                _ => None,
            }
        } else {
            None
        }
    }
}

/// A fault point as a document.
pub open spec fn point_json(p: PointModel) -> JsonModel {
    JsonModel::Object(put(put(seq![], "seq"@, number(p.seq)), "fault"@, fault_json(p.fault)))
}

/// The fault point a document stands for.
pub open spec fn point_from(m: JsonModel) -> Option<PointModel> {
    let seq = whole_in(field(m, 0, "seq"@));
    let fault = match field(m, 1, "fault"@) {
        Some(v) => fault_from(v),
        None => None,
    };
    if is_record(m, 2) && seq is Some && fault is Some {
        Some(PointModel { seq: seq->0, fault: fault->0 })
    } else {
        None
    }
}

/// A schedule as a document.
pub open spec fn schedule_json(points: Seq<PointModel>) -> JsonModel {
    JsonModel::Object(
        put(
            seq![],
            "points"@,
            JsonModel::Array(Seq::new(points.len(), |i: int| point_json(points[i]))),
        ),
    )
}

/// The points in a list of documents, where each is a point.
pub open spec fn points_in(items: Seq<JsonModel>) -> Option<Seq<PointModel>> {
    if forall|i: int| 0 <= i < items.len() ==> point_from(#[trigger] items[i]) is Some {
        Some(Seq::new(items.len(), |i: int| point_from(items[i])->0))
    } else {
        None
    }
}

/// The schedule a document stands for.
pub open spec fn schedule_from(m: JsonModel) -> Option<Seq<PointModel>> {
    if is_record(m, 1) {
        match field(m, 0, "points"@) {
            Some(JsonModel::Array(items)) => points_in(items),
            _ => None,
        }
    } else {
        None
    }
}

proof fn lemma_point_back(p: PointModel)
    ensures
        point_from(point_json(p)) == Some(p),
        tidy(point_json(p)),
        exact(point_json(p), 3),
{
    broadcast use lemma_lookup_put;

    reveal_strlit("seq");
    reveal_strlit("fault");
    assert("seq"@.len() == 3 && "fault"@.len() == 5);
    lemma_fault_back(p.fault);
    lemma_sound_empty(2);
    let none = Seq::<(Seq<char>, JsonModel)>::empty();
    lemma_sound_put(none, 2, "seq"@, number(p.seq));
    lemma_sound_put(put(none, "seq"@, number(p.seq)), 2, "fault"@, fault_json(p.fault));
}

/// A schedule is read back as it was written.
pub proof fn lemma_schedule_back(points: Seq<PointModel>)
    ensures
        schedule_from(schedule_json(points)) == Some(points),
        tidy(schedule_json(points)),
        exact(schedule_json(points), 5),
{
    broadcast use lemma_lookup_put;

    let items = Seq::new(points.len(), |i: int| point_json(points[i]));
    assert forall|i: int| 0 <= i < items.len() implies point_from(#[trigger] items[i]) == Some(
        points[i],
    ) && tidy(items[i]) && exact(items[i], 3) by {
        lemma_point_back(points[i]);
    }
    assert(points_in(items)->0 =~= points);
    lemma_sound_empty(4);
    assert(tidy(JsonModel::Array(items)));
    assert(exact(JsonModel::Array(items), 4));
    lemma_sound_put(
        Seq::<(Seq<char>, JsonModel)>::empty(),
        4,
        "points"@,
        JsonModel::Array(items),
    );
}

impl FaultPoint {
    /// This point as a document.
    pub fn to_json(&self) -> (r: Json)
        ensures
            r@ == point_json(self@),
    {
        let mut fields = no_fields();
        put_field(&mut fields, "seq", Json::whole(self.seq));
        put_field(&mut fields, "fault", self.fault.to_json());
        Json::object(fields)
    }

    /// The point a document stands for.
    pub fn from_json(json: &Json) -> (r: Option<FaultPoint>)
        ensures
            viewed(r) == point_from(json@),
    {
        if !check_record(json, 2) {
            return None;
        }
        let seq: u64 = match read_whole(field_of(json, 0, "seq")) {
            Some(seq) => seq,
            None => return None,
        };
        match field_of(json, 1, "fault") {
            Some(v) => match Fault::from_json(v) {
                Some(fault) => Some(FaultPoint { seq, fault }),
                None => None,
            },
            None => None,
        }
    }
}

impl FaultSchedule {
    /// This schedule as a document.
    pub fn to_json(&self) -> (r: Json)
        ensures
            r@ == schedule_json(self@),
    {
        let mut items: Vec<Json> = Vec::new();
        let mut i: usize = 0;
        while i < self.points.len()
            invariant
                i <= self.points@.len(),
                items@.len() == i,
                forall|j: int| 0 <= j < i ==> (#[trigger] items@[j])@ == point_json(self@[j]),
            decreases self.points@.len() - i,
        {
            items.push(self.points[i].to_json());
            assert(self@[i as int] == self.points@[i as int]@);
            i += 1;
        }
        assert(items_of(items@) =~= Seq::new(self@.len(), |i: int| point_json(self@[i])));
        let mut fields = no_fields();
        put_field(&mut fields, "points", Json::array(items));
        Json::object(fields)
    }

    /// The schedule a document stands for.
    pub fn from_json(json: &Json) -> (r: Option<FaultSchedule>)
        ensures
            viewed(r) == schedule_from(json@),
    {
        if !check_record(json, 1) {
            return None;
        }
        match field_of(json, 0, "points") {
            Some(Json::Array(items)) => {
                proof {
                    crate::json::lemma_array_view(*items);
                }
                let ghost all = items_of(items@);
                let mut points: Vec<FaultPoint> = Vec::new();
                let mut i: usize = 0;
                while i < items.len()
                    invariant
                        i <= items@.len(),
                        all == items_of(items@),
                        schedule_from(json@) == points_in(all),
                        points@.len() == i,
                        forall|j: int|
                            0 <= j < i ==> point_from(#[trigger] all[j]) == Some(points@[j]@),
                    decreases items@.len() - i,
                {
                    assert(all[i as int] == items@[i as int]@);
                    match FaultPoint::from_json(&items[i]) {
                        Some(p) => {
                            points.push(p);
                        },
                        None => {
                            return None;
                        },
                    }
                    i += 1;
                }
                assert(points_in(all)->0 =~= views(points@));
                Some(FaultSchedule { points })
            },
            _ => None,
        }
    }
}

// ---------------------------------------------------------------------------
// Events
// ---------------------------------------------------------------------------

/// The value of an optional fault.
pub open spec fn some_fault_json(f: Option<FaultModel>) -> Option<JsonModel> {
    match f {
        Some(f) => Some(fault_json(f)),
        None => None,
    }
}

/// The value of an optional text.
pub open spec fn some_text_json(t: Option<Seq<char>>) -> Option<JsonModel> {
    match t {
        Some(t) => Some(JsonModel::Text(t)),
        None => None,
    }
}

/// The value of an optional number.
pub open spec fn some_number(n: Option<u64>) -> Option<JsonModel> {
    match n {
        Some(n) => Some(number(n)),
        None => None,
    }
}

/// The first fields of an event.
pub open spec fn event_head(e: EventModel) -> Fields {
    put(
        put(
            put(
                put(
                    put(
                        put(seq![], "seq"@, number(e.seq)),
                        "kind"@,
                        JsonModel::Text(kind_name(e.kind)),
                    ),
                    "name"@,
                    JsonModel::Text(e.name),
                ),
                "identity"@,
                JsonModel::Text(e.identity),
            ),
            "request"@,
            JsonModel::Text(e.request),
        ),
        "outcome"@,
        JsonModel::Text(e.outcome),
    )
}

/// The fields of an event: those without a value are left out.
pub open spec fn event_fields(e: EventModel) -> Fields {
    put_some(
        put(
            put_some(
                put_some(event_head(e), "fault"@, some_fault_json(e.fault)),
                "shadow"@,
                some_text_json(e.shadow),
            ),
            "logical_time"@,
            number(e.logical_time),
        ),
        "batch"@,
        some_number(e.batch),
    )
}

/// An event as a document.
pub open spec fn event_json(e: EventModel) -> JsonModel {
    JsonModel::Object(event_fields(e))
}

/// The fault of a field that may be left out.
pub open spec fn some_fault(m: Option<JsonModel>) -> Option<Option<FaultModel>> {
    if left_out(m) {
        Some(None)
    } else {
        match fault_from(m->0) {
            Some(f) => Some(Some(f)),
            None => None,
        }
    }
}

/// The event a document stands for.
pub open spec fn event_from(m: JsonModel) -> Option<EventModel> {
    let seq = whole_in(field(m, 0, "seq"@));
    let kind = kind_in(field(m, 1, "kind"@));
    let name = text_in(field(m, 2, "name"@));
    let identity = text_in(field(m, 3, "identity"@));
    let request = text_in(field(m, 4, "request"@));
    let outcome = text_in(field(m, 5, "outcome"@));
    let fault = some_fault(field(m, 6, "fault"@));
    let shadow = some_text(field(m, 7, "shadow"@));
    let logical_time = whole_in(field(m, 8, "logical_time"@));
    let batch = some_whole(field(m, 9, "batch"@));
    if is_record(m, 10) && seq is Some && kind is Some && name is Some && identity is Some
        && request is Some && outcome is Some && fault is Some && shadow is Some
        && logical_time is Some && batch is Some {
        Some(
            EventModel {
                seq: seq->0,
                kind: kind->0,
                name: name->0,
                identity: identity->0,
                request: request->0,
                outcome: outcome->0,
                fault: fault->0,
                shadow: shadow->0,
                logical_time: logical_time->0,
                batch: batch->0,
            },
        )
    } else {
        None
    }
}

/// Stands for each key of an event, so that different keys have different
/// numbers.
spec fn event_key(key: Seq<char>) -> int {
    key.len() * 0x100_0000 + key[0] as int
}

proof fn lemma_event_keys()
    ensures
        event_key("seq"@) == 3 * 0x100_0000 + 's' as int,
        event_key("kind"@) == 4 * 0x100_0000 + 'k' as int,
        event_key("name"@) == 4 * 0x100_0000 + 'n' as int,
        event_key("identity"@) == 8 * 0x100_0000 + 'i' as int,
        event_key("request"@) == 7 * 0x100_0000 + 'r' as int,
        event_key("outcome"@) == 7 * 0x100_0000 + 'o' as int,
        event_key("fault"@) == 5 * 0x100_0000 + 'f' as int,
        event_key("shadow"@) == 6 * 0x100_0000 + 's' as int,
        event_key("logical_time"@) == 12 * 0x100_0000 + 'l' as int,
        event_key("batch"@) == 5 * 0x100_0000 + 'b' as int,
{
    reveal_strlit("seq");
    reveal_strlit("kind");
    reveal_strlit("name");
    reveal_strlit("identity");
    reveal_strlit("request");
    reveal_strlit("outcome");
    reveal_strlit("fault");
    reveal_strlit("shadow");
    reveal_strlit("logical_time");
    reveal_strlit("batch");
}

/// An event is read back as it was written.
pub proof fn lemma_event_back(e: EventModel)
    ensures
        event_from(event_json(e)) == Some(e),
        tidy(event_json(e)),
        exact(event_json(e), 3),
{
    broadcast use {lemma_lookup_put, lemma_lookup_put_some};

    lemma_event_keys();
    lemma_kind_named(e.kind);
    if e.fault is Some {
        lemma_fault_back(e.fault->0);
    }
    let f0 = Seq::<(Seq<char>, JsonModel)>::empty();
    let f1 = put(f0, "seq"@, number(e.seq));
    let f2 = put(f1, "kind"@, JsonModel::Text(kind_name(e.kind)));
    let f3 = put(f2, "name"@, JsonModel::Text(e.name));
    let f4 = put(f3, "identity"@, JsonModel::Text(e.identity));
    let f5 = put(f4, "request"@, JsonModel::Text(e.request));
    let f6 = event_head(e);
    let f7 = put_some(f6, "fault"@, some_fault_json(e.fault));
    let f8 = put_some(f7, "shadow"@, some_text_json(e.shadow));
    let f9 = put(f8, "logical_time"@, number(e.logical_time));
    lemma_sound_empty(2);
    lemma_sound_put(f0, 2, "seq"@, number(e.seq));
    lemma_sound_put(f1, 2, "kind"@, JsonModel::Text(kind_name(e.kind)));
    lemma_sound_put(f2, 2, "name"@, JsonModel::Text(e.name));
    lemma_sound_put(f3, 2, "identity"@, JsonModel::Text(e.identity));
    lemma_sound_put(f4, 2, "request"@, JsonModel::Text(e.request));
    lemma_sound_put(f5, 2, "outcome"@, JsonModel::Text(e.outcome));
    lemma_sound_put_some(f6, 2, "fault"@, some_fault_json(e.fault));
    lemma_sound_put_some(f7, 2, "shadow"@, some_text_json(e.shadow));
    lemma_sound_put(f8, 2, "logical_time"@, number(e.logical_time));
    lemma_sound_put_some(f9, 2, "batch"@, some_number(e.batch));
    let f = event_fields(e);
    assert(lookup(f, "fault"@) == some_fault_json(e.fault));
    assert(lookup(f, "shadow"@) == some_text_json(e.shadow));
    assert(lookup(f, "batch"@) == some_number(e.batch));
    assert(event_from(event_json(e))->0 == e);
}

impl Event {
    /// This event as a document.
    pub fn to_json(&self) -> (r: Json)
        ensures
            r@ == event_json(self@),
            tidy(r@),
    {
        let mut fields = no_fields();
        put_field(&mut fields, "seq", Json::whole(self.seq));
        put_field(&mut fields, "kind", Json::text(self.kind.as_str()));
        put_field(&mut fields, "name", Json::Text(self.name.clone()));
        put_field(&mut fields, "identity", Json::text(self.identity.as_str()));
        put_field(&mut fields, "request", Json::text(self.request.as_str()));
        put_field(&mut fields, "outcome", Json::text(self.outcome.as_str()));
        if let Some(fault) = &self.fault {
            put_field(&mut fields, "fault", fault.to_json());
        }
        if let Some(shadow) = &self.shadow {
            put_field(&mut fields, "shadow", Json::text(shadow.as_str()));
        }
        put_field(&mut fields, "logical_time", Json::whole(self.logical_time));
        if let Some(batch) = self.batch {
            put_field(&mut fields, "batch", Json::whole(batch));
        }
        proof {
            lemma_event_back(self@);
        }
        Json::object(fields)
    }

    /// The event a document stands for.
    pub fn from_json(json: &Json) -> (r: Option<Event>)
        ensures
            viewed(r) == event_from(json@),
    {
        if !check_record(json, 10) {
            return None;
        }
        let seq: u64 = match read_whole(field_of(json, 0, "seq")) {
            Some(v) => v,
            None => return None,
        };
        let kind = match read_kind(field_of(json, 1, "kind")) {
            Some(v) => v,
            None => return None,
        };
        let name = match read_text(field_of(json, 2, "name")) {
            Some(v) => v,
            None => return None,
        };
        let identity = match read_digest(field_of(json, 3, "identity")) {
            Some(v) => v,
            None => return None,
        };
        let request = match read_digest(field_of(json, 4, "request")) {
            Some(v) => v,
            None => return None,
        };
        let outcome = match read_digest(field_of(json, 5, "outcome")) {
            Some(v) => v,
            None => return None,
        };
        let fault_field = field_of(json, 6, "fault");
        let fault = if is_left_out(fault_field) {
            None
        } else {
            match fault_field {
                Some(v) => match Fault::from_json(v) {
                    Some(f) => Some(f),
                    None => return None,
                },
                None => None,
            }
        };
        let shadow_field = field_of(json, 7, "shadow");
        let shadow = if is_left_out(shadow_field) {
            None
        } else {
            match read_digest(shadow_field) {
                Some(d) => Some(d),
                None => return None,
            }
        };
        let logical_time: u64 = match read_whole(field_of(json, 8, "logical_time")) {
            Some(v) => v,
            None => return None,
        };
        let batch_field = field_of(json, 9, "batch");
        let batch = if is_left_out(batch_field) {
            None
        } else {
            match read_whole(batch_field) {
                Some(n) => Some(n),
                None => return None,
            }
        };
        Some(
            Event {
                seq,
                kind,
                name,
                identity,
                request,
                outcome,
                fault,
                shadow,
                logical_time,
                batch,
            },
        )
    }
}

/// The digest of a field that is there.
pub fn read_digest(json: Option<&Json>) -> (r: Option<Digest>)
    ensures
        viewed(r) == text_in(viewed(json)),
{
    match read_text(json) {
        Some(t) => Some(Digest::from_hex(t.as_str())),
        None => None,
    }
}

} // verus!
