//! The trace: a log of effects, and the header that makes it reproducible.
//!
//! Written as lines of JSON: the header first, then one event per line, so
//! that a trace can be read in a diff. Payloads live in the store.

use crate::canon::{default_paths, Canonicalizer};
use crate::event::{EffectKind, Event, EventModel};
use crate::fault::{FaultSchedule, PointModel};
use crate::hash::{blake3_hex, is_full, Digest};
use crate::json::{
    depth_limit, exact, items_of, json_read, lookup, printed, reason, tidy, Json, JsonModel,
};
use crate::model::{viewed, views};
use crate::record::{
    check_record, event_from, event_json, field, field_of, is_left_out, is_record, left_out,
    lemma_lookup_put, lemma_lookup_put_some, no_fields, number, put, put_field, put_some,
    read_digest, read_text, read_whole, schedule_from, schedule_json, some_number, some_text,
    some_text_json, some_whole, text_in, whole_in, Fields,
};
use crate::text::{all_space, is_blank, lines, split_lines, texts};
use vstd::prelude::*;
use vstd::utf8::encode_utf8;

verus! {

/// Format version. The reader refuses versions it does not understand.
pub const FORMAT_VERSION: u32 = 1;

/// The engine that new traces name.
pub open spec fn engine_name() -> Seq<char> {
    "samsara/0.1.0"@
}

/// Everything needed to interpret the events that follow.
#[derive(Debug, PartialEq, Eq)]
pub struct TraceHeader {
    pub format_version: u32,
    /// Version of the engine that produced the trace.
    pub engine: String,
    /// Free-form label, usually the command that was recorded.
    pub label: String,
    /// Unix milliseconds when recording began. Never used for ordering.
    pub recorded_at_ms: u64,
    /// The identity policy in force, so that replay applies the same one.
    pub canonicalizer: Canonicalizer,
    /// On a counterfactual branch, the seed that generated its schedule.
    pub seed: Option<u64>,
    /// On a counterfactual branch, the faults applied.
    pub schedule: Option<FaultSchedule>,
    /// The trace this one was forked from.
    pub parent: Option<Digest>,
}

/// What a header is, for contracts.
pub struct HeaderModel {
    pub format_version: u32,
    pub engine: Seq<char>,
    pub label: Seq<char>,
    pub recorded_at_ms: u64,
    pub canonicalizer: Seq<Seq<char>>,
    pub seed: Option<u64>,
    pub schedule: Option<Seq<PointModel>>,
    pub parent: Option<Seq<char>>,
}

impl View for TraceHeader {
    type V = HeaderModel;

    open spec fn view(&self) -> HeaderModel {
        HeaderModel {
            format_version: self.format_version,
            engine: self.engine@,
            label: self.label@,
            recorded_at_ms: self.recorded_at_ms,
            canonicalizer: self.canonicalizer@,
            seed: self.seed,
            schedule: viewed(self.schedule),
            parent: viewed(self.parent),
        }
    }
}

impl Clone for TraceHeader {
    fn clone(&self) -> (r: Self)
        ensures
            r@ == self@,
    {
        TraceHeader {
            format_version: self.format_version,
            engine: self.engine.clone(),
            label: self.label.clone(),
            recorded_at_ms: self.recorded_at_ms,
            canonicalizer: self.canonicalizer.clone(),
            seed: self.seed,
            schedule: match &self.schedule {
                Some(s) => Some(s.clone()),
                None => None,
            },
            parent: match &self.parent {
                Some(d) => Some(d.clone()),
                None => None,
            },
        }
    }
}

/// The header of a plain recording under the default identity policy.
pub open spec fn default_header() -> HeaderModel {
    HeaderModel {
        format_version: FORMAT_VERSION,
        engine: engine_name(),
        label: seq![],
        recorded_at_ms: 0,
        canonicalizer: default_paths(),
        seed: None,
        schedule: None,
        parent: None,
    }
}

impl Default for TraceHeader {
    fn default() -> (r: Self)
        ensures
            r@ == default_header(),
    {
        TraceHeader {
            format_version: FORMAT_VERSION,
            engine: "samsara/0.1.0".to_owned(),
            label: String::new(),
            recorded_at_ms: 0,
            canonicalizer: Canonicalizer::default(),
            seed: None,
            schedule: None,
            parent: None,
        }
    }
}

/// A recorded run.
#[derive(Debug, PartialEq, Eq)]
pub struct Trace {
    pub header: TraceHeader,
    pub events: Vec<Event>,
}

/// What a trace is, for contracts.
pub struct TraceModel {
    pub header: HeaderModel,
    pub events: Seq<EventModel>,
}

impl View for Trace {
    type V = TraceModel;

    open spec fn view(&self) -> TraceModel {
        TraceModel { header: self.header@, events: views(self.events@) }
    }
}

/// A copy of a list of events.
pub fn copy_events(events: &Vec<Event>) -> (r: Vec<Event>)
    ensures
        views(r@) == views(events@),
{
    let mut out: Vec<Event> = Vec::new();
    let mut i: usize = 0;
    while i < events.len()
        invariant
            i <= events@.len(),
            out@.len() == i,
            forall|j: int| 0 <= j < i ==> (#[trigger] out@[j])@ == events@[j]@,
        decreases events@.len() - i,
    {
        out.push(events[i].clone());
        i += 1;
    }
    assert(views(out@) =~= views(events@));
    out
}

impl Clone for Trace {
    fn clone(&self) -> (r: Self)
        ensures
            r@ == self@,
    {
        Trace { header: self.header.clone(), events: copy_events(&self.events) }
    }
}

/// What can be wrong with a trace.
#[allow(inconsistent_fields)]
pub enum TroubleModel {
    /// A line is no JSON, or no header or event.
    Parse { line: nat, reason: Seq<char> },
    /// There is no header.
    Empty,
    /// The header names a format that is not understood.
    Version { found: u32, expected: u32 },
    /// The events are not numbered from zero without a gap.
    Sequence { expected: nat, found: u64, line: nat },
}

/// Things that can be wrong with a trace.
#[allow(inconsistent_fields)]
#[derive(Debug, PartialEq, Eq)]
pub enum TraceError {
    /// A line is no JSON, or no header or event.
    Parse { line: usize, reason: String },
    /// There is no header.
    Empty,
    /// The header names a format that is not understood.
    Version { found: u32, expected: u32 },
    /// The events are not numbered from zero without a gap.
    Sequence { expected: u64, found: u64, line: usize },
}

impl View for TraceError {
    type V = TroubleModel;

    open spec fn view(&self) -> TroubleModel {
        match *self {
            TraceError::Parse { line, reason } => TroubleModel::Parse {
                line: line as nat,
                reason: reason@,
            },
            TraceError::Empty => TroubleModel::Empty,
            TraceError::Version { found, expected } => TroubleModel::Version { found, expected },
            TraceError::Sequence { expected, found, line } => TroubleModel::Sequence {
                expected: expected as nat,
                found,
                line: line as nat,
            },
        }
    }
}

/// What is wrong with a trace, in words.
pub open spec fn trouble(e: TroubleModel) -> Seq<char> {
    match e {
        TroubleModel::Parse { line, reason } => "malformed trace at line "@ + crate::text::decimal(
            line,
        ) + ": "@ + reason,
        TroubleModel::Empty => "empty trace: expected a header on line 1"@,
        TroubleModel::Version { found, expected } => "unsupported trace format version "@
            + crate::text::decimal(found as nat) + " (this build reads "@ + crate::text::decimal(
            expected as nat,
        ) + ")"@,
        TroubleModel::Sequence { expected, found, line } =>
        "event sequence numbers are not contiguous from 0: expected "@ + crate::text::decimal(
            expected,
        ) + ", found "@ + crate::text::decimal(found as nat) + " at line "@ + crate::text::decimal(
            line,
        ),
    }
}

impl TraceError {
    /// What is wrong, in words.
    pub fn report(&self) -> (r: String)
        ensures
            r@ == trouble(self@),
    {
        match self {
            TraceError::Parse { line, reason } => {
                let mut out = "malformed trace at line ".to_owned();
                out.append(crate::text::show_size(*line).as_str());
                out.append(": ");
                out.append(reason.as_str());
                out
            },
            TraceError::Empty => "empty trace: expected a header on line 1".to_owned(),
            TraceError::Version { found, expected } => {
                let mut out = "unsupported trace format version ".to_owned();
                out.append(crate::text::show(*found as u64).as_str());
                out.append(" (this build reads ");
                out.append(crate::text::show(*expected as u64).as_str());
                out.append(")");
                out
            },
            TraceError::Sequence { expected, found, line } => {
                let mut out =
                    "event sequence numbers are not contiguous from 0: expected ".to_owned();
                out.append(crate::text::show(*expected).as_str());
                out.append(", found ");
                out.append(crate::text::show(*found).as_str());
                out.append(" at line ");
                out.append(crate::text::show_size(*line).as_str());
                out
            },
        }
    }
}

// ---------------------------------------------------------------------------
// The header as JSON
// ---------------------------------------------------------------------------

/// A list of texts as a document.
pub open spec fn texts_json(list: Seq<Seq<char>>) -> JsonModel {
    JsonModel::Array(Seq::new(list.len(), |i: int| JsonModel::Text(list[i])))
}

/// An identity policy as a document.
pub open spec fn policy_json(paths: Seq<Seq<char>>) -> JsonModel {
    JsonModel::Object(put(seq![], "volatile"@, texts_json(paths)))
}

/// The texts in a list of documents, where each is a text.
pub open spec fn texts_in(items: Seq<JsonModel>) -> Option<Seq<Seq<char>>> {
    if forall|i: int| 0 <= i < items.len() ==> crate::json::text(#[trigger] items[i]) is Some {
        Some(Seq::new(items.len(), |i: int| crate::json::text(items[i])->0))
    } else {
        None
    }
}

/// The identity policy a document stands for.
pub open spec fn policy_from(m: JsonModel) -> Option<Seq<Seq<char>>> {
    if is_record(m, 1) {
        match field(m, 0, "volatile"@) {
            Some(JsonModel::Array(items)) => texts_in(items),
            _ => None,
        }
    } else {
        None
    }
}

/// The value of an optional schedule.
pub open spec fn some_schedule_json(s: Option<Seq<PointModel>>) -> Option<JsonModel> {
    match s {
        Some(points) => Some(schedule_json(points)),
        None => None,
    }
}

/// The fields of a header: those without a value are left out.
pub open spec fn header_fields(h: HeaderModel) -> Fields {
    let f1 = put(seq![], "format_version"@, number(h.format_version as u64));
    let f2 = put(f1, "engine"@, JsonModel::Text(h.engine));
    let f3 = put(f2, "label"@, JsonModel::Text(h.label));
    let f4 = put(f3, "recorded_at_ms"@, number(h.recorded_at_ms));
    let f5 = put(f4, "canonicalizer"@, policy_json(h.canonicalizer));
    let f6 = put_some(f5, "seed"@, some_number(h.seed));
    let f7 = put_some(f6, "schedule"@, some_schedule_json(h.schedule));
    put_some(f7, "parent"@, some_text_json(h.parent))
}

/// A header as a document.
pub open spec fn header_json(h: HeaderModel) -> JsonModel {
    JsonModel::Object(header_fields(h))
}

/// The schedule of a field that may be left out.
pub open spec fn some_schedule(m: Option<JsonModel>) -> Option<Option<Seq<PointModel>>> {
    if left_out(m) {
        Some(None)
    } else {
        match schedule_from(m->0) {
            Some(points) => Some(Some(points)),
            None => None,
        }
    }
}

/// The header a document stands for. A label or a time that is missing is
/// empty or zero.
pub open spec fn header_from(m: JsonModel) -> Option<HeaderModel> {
    let version = whole_in(field(m, 0, "format_version"@));
    let engine = text_in(field(m, 1, "engine"@));
    let label = match field(m, 2, "label"@) {
        None => Some(seq![]),
        Some(v) => crate::json::text(v),
    };
    let recorded = match field(m, 3, "recorded_at_ms"@) {
        None => Some(0u64),
        Some(v) => crate::json::whole(v),
    };
    let policy = match field(m, 4, "canonicalizer"@) {
        None => None,
        Some(v) => policy_from(v),
    };
    let seed = some_whole(field(m, 5, "seed"@));
    let schedule = some_schedule(field(m, 6, "schedule"@));
    let parent = some_text(field(m, 7, "parent"@));
    if is_record(m, 8) && version is Some && version->0 <= u32::MAX && engine is Some && label is Some
        && recorded is Some && policy is Some && seed is Some && schedule is Some && parent is Some {
        Some(
            HeaderModel {
                format_version: version->0 as u32,
                engine: engine->0,
                label: label->0,
                recorded_at_ms: recorded->0,
                canonicalizer: policy->0,
                seed: seed->0,
                schedule: schedule->0,
                parent: parent->0,
            },
        )
    } else {
        None
    }
}

spec fn header_key(key: Seq<char>) -> int {
    key.len() * 0x100_0000 + key[0] as int
}

proof fn lemma_header_keys()
    ensures
        header_key("format_version"@) == 14 * 0x100_0000 + 'f' as int,
        header_key("engine"@) == 6 * 0x100_0000 + 'e' as int,
        header_key("label"@) == 5 * 0x100_0000 + 'l' as int,
        header_key("recorded_at_ms"@) == 14 * 0x100_0000 + 'r' as int,
        header_key("canonicalizer"@) == 13 * 0x100_0000 + 'c' as int,
        header_key("seed"@) == 4 * 0x100_0000 + 's' as int,
        header_key("schedule"@) == 8 * 0x100_0000 + 's' as int,
        header_key("parent"@) == 6 * 0x100_0000 + 'p' as int,
{
    reveal_strlit("format_version");
    reveal_strlit("engine");
    reveal_strlit("label");
    reveal_strlit("recorded_at_ms");
    reveal_strlit("canonicalizer");
    reveal_strlit("seed");
    reveal_strlit("schedule");
    reveal_strlit("parent");
}

proof fn lemma_policy_back(paths: Seq<Seq<char>>)
    ensures
        policy_from(policy_json(paths)) == Some(paths),
        tidy(policy_json(paths)),
        exact(policy_json(paths), 2),
{
    broadcast use lemma_lookup_put;

    let items = texts_json(paths)->Array_0;
    assert forall|i: int| 0 <= i < items.len() implies crate::json::text(#[trigger] items[i])
        == Some(paths[i]) && tidy(items[i]) && exact(items[i], 0) by {}
    assert(texts_in(items)->0 =~= paths);
    crate::record::lemma_sound_empty(1);
    assert(tidy(texts_json(paths)));
    assert(exact(texts_json(paths), 1));
    crate::record::lemma_sound_put(
        Seq::<(Seq<char>, JsonModel)>::empty(),
        1,
        "volatile"@,
        texts_json(paths),
    );
}

/// A header is read back as it was written.
pub proof fn lemma_header_back(h: HeaderModel)
    ensures
        header_from(header_json(h)) == Some(h),
        tidy(header_json(h)),
        exact(header_json(h), 6),
{
    broadcast use {lemma_lookup_put, lemma_lookup_put_some};

    lemma_header_keys();
    lemma_policy_back(h.canonicalizer);
    crate::json::lemma_exact_grows(policy_json(h.canonicalizer), 2, 5);
    if h.schedule is Some {
        crate::record::lemma_schedule_back(h.schedule->0);
    }
    let f0 = Seq::<(Seq<char>, JsonModel)>::empty();
    let f1 = put(f0, "format_version"@, number(h.format_version as u64));
    let f2 = put(f1, "engine"@, JsonModel::Text(h.engine));
    let f3 = put(f2, "label"@, JsonModel::Text(h.label));
    let f4 = put(f3, "recorded_at_ms"@, number(h.recorded_at_ms));
    let f5 = put(f4, "canonicalizer"@, policy_json(h.canonicalizer));
    let f6 = put_some(f5, "seed"@, some_number(h.seed));
    let f7 = put_some(f6, "schedule"@, some_schedule_json(h.schedule));
    crate::record::lemma_sound_empty(5);
    crate::record::lemma_sound_put(f0, 5, "format_version"@, number(h.format_version as u64));
    crate::record::lemma_sound_put(f1, 5, "engine"@, JsonModel::Text(h.engine));
    crate::record::lemma_sound_put(f2, 5, "label"@, JsonModel::Text(h.label));
    crate::record::lemma_sound_put(f3, 5, "recorded_at_ms"@, number(h.recorded_at_ms));
    crate::record::lemma_sound_put(f4, 5, "canonicalizer"@, policy_json(h.canonicalizer));
    crate::record::lemma_sound_put_some(f5, 5, "seed"@, some_number(h.seed));
    crate::record::lemma_sound_put_some(f6, 5, "schedule"@, some_schedule_json(h.schedule));
    crate::record::lemma_sound_put_some(f7, 5, "parent"@, some_text_json(h.parent));
    let f = header_fields(h);
    assert(lookup(f, "seed"@) == some_number(h.seed));
    assert(lookup(f, "schedule"@) == some_schedule_json(h.schedule));
    assert(lookup(f, "parent"@) == some_text_json(h.parent));
    assert(lookup(f, "canonicalizer"@) == Some(policy_json(h.canonicalizer)));
    assert(header_from(header_json(h))->0 == h);
}

/// A list of texts as a document.
pub fn list_to_json(list: &Vec<String>) -> (r: Json)
    ensures
        r@ == texts_json(texts(list@)),
{
    let mut items: Vec<Json> = Vec::new();
    let mut i: usize = 0;
    while i < list.len()
        invariant
            i <= list@.len(),
            items@.len() == i,
            forall|j: int| 0 <= j < i ==> (#[trigger] items@[j])@ == JsonModel::Text(list@[j]@),
        decreases list@.len() - i,
    {
        items.push(Json::Text(list[i].clone()));
        i += 1;
    }
    assert(items_of(items@) =~= texts_json(texts(list@))->Array_0);
    Json::array(items)
}

/// The texts in a list of documents, where each is a text.
pub fn read_list(items: &Vec<Json>) -> (r: Option<Vec<String>>)
    ensures
        r is Some <==> texts_in(items_of(items@)) is Some,
        r is Some ==> texts(r->0@) == texts_in(items_of(items@))->0,
{
    let ghost all = items_of(items@);
    let mut out: Vec<String> = Vec::new();
    let mut i: usize = 0;
    while i < items.len()
        invariant
            i <= items@.len(),
            all == items_of(items@),
            out@.len() == i,
            forall|j: int|
                0 <= j < i ==> crate::json::text(#[trigger] all[j]) == Some(out@[j]@),
        decreases items@.len() - i,
    {
        assert(all[i as int] == items@[i as int]@);
        match items[i].as_text() {
            Some(t) => {
                out.push(t.clone());
            },
            None => {
                return None;
            },
        }
        i += 1;
    }
    assert(texts_in(all)->0 =~= texts(out@));
    Some(out)
}

impl Canonicalizer {
    /// This policy as a document.
    pub fn to_json(&self) -> (r: Json)
        ensures
            r@ == policy_json(self@),
    {
        let mut fields = no_fields();
        put_field(&mut fields, "volatile", list_to_json(&self.volatile));
        Json::object(fields)
    }

    /// The policy a document stands for.
    pub fn from_json(json: &Json) -> (r: Option<Canonicalizer>)
        ensures
            viewed(r) == policy_from(json@),
    {
        if !check_record(json, 1) {
            return None;
        }
        match field_of(json, 0, "volatile") {
            Some(Json::Array(items)) => {
                proof {
                    crate::json::lemma_array_view(*items);
                }
                match read_list(items) {
                    Some(volatile) => Some(Canonicalizer { volatile }),
                    None => None,
                }
            },
            _ => None,
        }
    }
}

impl TraceHeader {
    /// This header as a document.
    pub fn to_json(&self) -> (r: Json)
        ensures
            r@ == header_json(self@),
            tidy(r@),
    {
        let mut fields = no_fields();
        put_field(&mut fields, "format_version", Json::whole(self.format_version as u64));
        put_field(&mut fields, "engine", Json::Text(self.engine.clone()));
        put_field(&mut fields, "label", Json::Text(self.label.clone()));
        put_field(&mut fields, "recorded_at_ms", Json::whole(self.recorded_at_ms));
        put_field(&mut fields, "canonicalizer", self.canonicalizer.to_json());
        if let Some(seed) = self.seed {
            put_field(&mut fields, "seed", Json::whole(seed));
        }
        if let Some(schedule) = &self.schedule {
            put_field(&mut fields, "schedule", schedule.to_json());
        }
        if let Some(parent) = &self.parent {
            put_field(&mut fields, "parent", Json::text(parent.as_str()));
        }
        proof {
            lemma_header_back(self@);
        }
        Json::object(fields)
    }

    /// The header a document stands for.
    pub fn from_json(json: &Json) -> (r: Option<TraceHeader>)
        ensures
            viewed(r) == header_from(json@),
    {
        if !check_record(json, 8) {
            return None;
        }
        let version: u64 = match read_whole(field_of(json, 0, "format_version")) {
            Some(v) => v,
            None => return None,
        };
        if version > u32::MAX as u64 {
            return None;
        }
        let engine = match read_text(field_of(json, 1, "engine")) {
            Some(v) => v,
            None => return None,
        };
        let label = match field_of(json, 2, "label") {
            None => String::new(),
            Some(v) => match read_text(Some(v)) {
                Some(t) => t,
                None => return None,
            },
        };
        let recorded_at_ms: u64 = match field_of(json, 3, "recorded_at_ms") {
            None => 0,
            Some(v) => match v.as_u64() {
                Some(n) => n,
                None => return None,
            },
        };
        let canonicalizer = match field_of(json, 4, "canonicalizer") {
            None => return None,
            Some(v) => match Canonicalizer::from_json(v) {
                Some(c) => c,
                None => return None,
            },
        };
        let seed_field = field_of(json, 5, "seed");
        let seed = if is_left_out(seed_field) {
            None
        } else {
            match read_whole(seed_field) {
                Some(n) => Some(n),
                None => return None,
            }
        };
        let schedule_field = field_of(json, 6, "schedule");
        let schedule = if is_left_out(schedule_field) {
            None
        } else {
            match schedule_field {
                Some(v) => match FaultSchedule::from_json(v) {
                    Some(s) => Some(s),
                    None => return None,
                },
                None => None,
            }
        };
        let parent_field = field_of(json, 7, "parent");
        let parent = if is_left_out(parent_field) {
            None
        } else {
            match read_digest(parent_field) {
                Some(d) => Some(d),
                None => return None,
            }
        };
        Some(
            TraceHeader {
                format_version: version as u32,
                engine,
                label,
                recorded_at_ms,
                canonicalizer,
                seed,
                schedule,
                parent,
            },
        )
    }
}

// ---------------------------------------------------------------------------
// Lines
// ---------------------------------------------------------------------------

/// The line that each event is written on.
pub open spec fn event_lines(events: Seq<EventModel>) -> Seq<Seq<char>> {
    Seq::new(events.len(), |i: int| printed(event_json(events[i])))
}

/// The lines of a trace.
pub open spec fn trace_lines(t: TraceModel) -> Seq<Seq<char>> {
    seq![printed(header_json(t.header))] + event_lines(t.events)
}

/// The text of a trace.
pub open spec fn jsonl(t: TraceModel) -> Seq<char> {
    crate::text::ended_lines(trace_lines(t))
}

/// The identity of a run: the digest of its events. When it ran, and what it
/// is called, do not count.
pub open spec fn run_id(events: Seq<EventModel>) -> Seq<char> {
    blake3_hex(encode_utf8(crate::text::ended_lines(event_lines(events))))
}

/// The positions where a fault can be injected.
pub open spec fn faultable_positions(events: Seq<EventModel>) -> Seq<u64>
    decreases events.len(),
{
    if events.len() == 0 {
        seq![]
    } else {
        let front = faultable_positions(events.drop_last());
        if crate::fault::faultable(events.last().kind) {
            front.push(events.last().seq)
        } else {
            front
        }
    }
}

/// Whether events are numbered from zero without a gap.
pub open spec fn contiguous(events: Seq<EventModel>) -> bool {
    forall|i: int| 0 <= i < events.len() ==> (#[trigger] events[i]).seq == i
}

/// The header on a line.
pub open spec fn header_on(line: Seq<char>) -> Option<HeaderModel> {
    match json_read(encode_utf8(line)) {
        Some(m) => header_from(m),
        None => None,
    }
}

/// The event on a line.
pub open spec fn event_on(line: Seq<char>) -> Option<EventModel> {
    match json_read(encode_utf8(line)) {
        Some(m) => event_from(m),
        None => None,
    }
}

/// The events on the lines from the `i`th, behind those read so far. Blank
/// lines are passed over; the first line that is no event, or not the next
/// one, is the error.
pub open spec fn events_on(all: Seq<Seq<char>>, i: nat, done: Seq<EventModel>) -> Result<
    Seq<EventModel>,
    TroubleModel,
>
    decreases all.len() - i,
{
    if i >= all.len() {
        Ok(done)
    } else if all_space(all[i as int]) {
        events_on(all, i + 1, done)
    } else {
        match event_on(all[i as int]) {
            None => Err(
                TroubleModel::Parse {
                    line: i + 1,
                    reason: reason(encode_utf8(all[i as int]), "expected an event"@),
                },
            ),
            Some(e) => if e.seq != done.len() {
                Err(
                    TroubleModel::Sequence { expected: done.len(), found: e.seq, line: i + 1 },
                )
            } else {
                events_on(all, i + 1, done.push(e))
            },
        }
    }
}

/// The trace that a text stands for, or what is wrong with it.
pub open spec fn parsed(s: Seq<char>) -> Result<TraceModel, TroubleModel> {
    let all = lines(s);
    if all.len() == 0 {
        Err(TroubleModel::Empty)
    } else {
        match header_on(all[0]) {
            None => Err(
                TroubleModel::Parse {
                    line: 1,
                    reason: reason(encode_utf8(all[0]), "expected a trace header"@),
                },
            ),
            Some(header) => if header.format_version != FORMAT_VERSION {
                Err(
                    TroubleModel::Version {
                        found: header.format_version,
                        expected: FORMAT_VERSION,
                    },
                )
            } else {
                match events_on(all, 1, seq![]) {
                    Ok(events) => Ok(TraceModel { header, events }),
                    Err(e) => Err(e),
                }
            },
        }
    }
}

/// Whether a line carries an event and nothing else.
spec fn carries(line: Seq<char>, e: EventModel) -> bool {
    &&& line == printed(event_json(e))
    &&& !line.contains('\n')
    &&& !line.contains('\r')
    &&& !all_space(line)
    &&& json_read(encode_utf8(line)) == Some(event_json(e))
}

proof fn lemma_events_on(all: Seq<Seq<char>>, events: Seq<EventModel>, k: nat)
    requires
        contiguous(events),
        all.len() == events.len() + 1,
        forall|i: int| 0 <= i < events.len() ==> carries(#[trigger] all[i + 1], events[i]),
        k <= events.len(),
    ensures
        events_on(all, k + 1, events.take(k as int)) == Ok::<Seq<EventModel>, TroubleModel>(events),
    decreases events.len() - k,
{
    if k < events.len() {
        assert(carries(all[k + 1int], events[k as int]));
        crate::record::lemma_event_back(events[k as int]);
        assert(events[k as int].seq == k);
        assert(events.take(k as int).push(events[k as int]) =~= events.take(k + 1int));
        lemma_events_on(all, events, k + 1);
    } else {
        assert(events.take(k as int) =~= events);
    }
}

/// The line of an event.
fn event_line(event: &Event) -> (r: String)
    ensures
        carries(r@, event@),
{
    proof {
        crate::record::lemma_event_back(event@);
        crate::json::lemma_exact_grows(event_json(event@), 3, depth_limit());
    }
    event.to_json().print()
}

/// The lines of some events.
fn lines_of_events(events: &Vec<Event>) -> (r: Vec<String>)
    ensures
        texts(r@) == event_lines(views(events@)),
        forall|i: int| 0 <= i < events@.len() ==> carries(#[trigger] texts(r@)[i], events@[i]@),
{
    let mut out: Vec<String> = Vec::new();
    let mut i: usize = 0;
    while i < events.len()
        invariant
            i <= events@.len(),
            out@.len() == i,
            forall|j: int| 0 <= j < i ==> carries((#[trigger] out@[j])@, events@[j]@),
        decreases events@.len() - i,
    {
        out.push(event_line(&events[i]));
        i += 1;
    }
    assert forall|j: int| 0 <= j < events@.len() implies carries(
        #[trigger] texts(out@)[j],
        events@[j]@,
    ) by {
        assert(carries(out@[j]@, events@[j]@));
    }
    assert(texts(out@) =~= event_lines(views(events@))) by {
        assert forall|j: int| 0 <= j < events@.len() implies #[trigger] texts(out@)[j]
            == event_lines(views(events@))[j] by {
            assert(carries(out@[j]@, events@[j]@));
        }
    }
    out
}

/// Texts one after the other, each with a newline behind it.
fn end_lines(list: &Vec<String>) -> (r: String)
    ensures
        r@ == crate::text::ended_lines(texts(list@)),
{
    let mut out = String::new();
    let mut i: usize = 0;
    assert(texts(list@).take(0) =~= seq![]);
    assert(out@ =~= crate::text::ended_lines(texts(list@).take(0)));
    while i < list.len()
        invariant
            i <= list@.len(),
            out@ == crate::text::ended_lines(texts(list@).take(i as int)),
        decreases list@.len() - i,
    {
        let ghost before = out@;
        out.append(list[i].as_str());
        out.push('\n');
        proof {
            assert(texts(list@).take(i + 1).drop_last() =~= texts(list@).take(i as int));
            assert(texts(list@).take(i + 1).last() == list@[i as int]@);
            assert(out@ =~= before + list@[i as int]@ + seq!['\n']);
        }
        i += 1;
    }
    assert(texts(list@).take(i as int) =~= texts(list@));
    out
}

impl Trace {
    /// A new, empty trace.
    pub fn new(header: TraceHeader) -> (r: Self)
        ensures
            r@ == (TraceModel { header: header@, events: seq![] }),
    {
        let events: Vec<Event> = Vec::new();
        assert(views(events@) =~= seq![]);
        Trace { header, events }
    }

    /// How many effects the run performed.
    pub fn len(&self) -> (r: usize)
        ensures
            r == self@.events.len(),
    {
        self.events.len()
    }

    /// Whether the run performed no effect.
    pub fn is_empty(&self) -> (r: bool)
        ensures
            r == (self@.events.len() == 0),
    {
        self.events.is_empty()
    }

    /// Positions where a fault can be injected: everything but clock reads and
    /// random draws, which are always replayed as recorded.
    pub fn faultable(&self) -> (r: Vec<u64>)
        ensures
            r@ == faultable_positions(self@.events),
    {
        let ghost all = self@.events;
        let mut out: Vec<u64> = Vec::new();
        let mut i: usize = 0;
        assert(all.take(0) =~= seq![]);
        while i < self.events.len()
            invariant
                i <= self.events@.len(),
                all == views(self.events@),
                out@ == faultable_positions(all.take(i as int)),
            decreases self.events@.len() - i,
        {
            assert(all.take(i + 1).drop_last() =~= all.take(i as int));
            assert(all.take(i + 1).last() == self.events@[i as int]@);
            let event = &self.events[i];
            if event.kind.is_effectful() || event.kind == EffectKind::Model {
                out.push(event.seq);
            }
            i += 1;
        }
        assert(all.take(i as int) =~= all);
        out
    }

    /// Identity of the run: the digest of its events. Two runs that performed
    /// the same effects with the same outcomes have the same identity.
    pub fn id(&self) -> (r: Digest)
        ensures
            r@ == run_id(self@.events),
            is_full(r@),
    {
        let rows = lines_of_events(&self.events);
        Digest::of(end_lines(&rows).as_str().as_bytes())
    }

    /// Append the lines of this trace to a text.
    pub fn write(&self, out: &mut String)
        ensures
            final(out)@ == old(out)@ + jsonl(self@),
    {
        let text = self.to_jsonl();
        out.append(text.as_str());
    }

    /// The text of this trace. Reading it gives the trace back.
    pub fn to_jsonl(&self) -> (r: String)
        ensures
            r@ == jsonl(self@),
            self.header.format_version == FORMAT_VERSION && contiguous(self@.events) ==> parsed(r@)
                == Ok::<TraceModel, TroubleModel>(self@),
            lines(r@) == trace_lines(self@),
    {
        proof {
            lemma_header_back(self.header@);
            crate::json::lemma_exact_grows(header_json(self.header@), 6, depth_limit());
        }
        let head = self.header.to_json().print();
        let mut rows: Vec<String> = Vec::new();
        rows.push(head);
        let mut tail = lines_of_events(&self.events);
        let ghost tail_texts = texts(tail@);
        rows.append(&mut tail);
        proof {
            let all = texts(rows@);
            let t = self@;
            assert(all =~= trace_lines(t)) by {
                assert forall|i: int| 0 < i < all.len() implies all[i] == trace_lines(t)[i] by {
                    assert(all[i] == tail_texts[i - 1]);
                }
            }
            assert forall|i: int| 0 <= i < t.events.len() implies carries(
                #[trigger] all[i + 1],
                t.events[i],
            ) by {
                assert(carries(tail_texts[i], self.events@[i]@));
                assert(all[i + 1] == tail_texts[i]);
            }
            assert forall|i: int| 0 <= i < all.len() implies !(#[trigger] all[i]).contains('\n')
                && !all[i].contains('\r') by {
                if i > 0 {
                    assert(carries(all[(i - 1) + 1], t.events[i - 1]));
                }
            }
            crate::text::lemma_lines_back(all);
            if self.header.format_version == FORMAT_VERSION && contiguous(t.events) {
                lemma_events_on(all, t.events, 0);
                assert(t.events.take(0) =~= seq![]);
                assert(header_on(all[0]) == Some(t.header));
            }
        }
        end_lines(&rows)
    }

    /// Read a trace from its text.
    ///
    /// The version must be understood, and events must be numbered from zero
    /// without a gap: replay finds events by position, so a gap would match
    /// the wrong effect.
    pub fn read(text: &str) -> (r: Result<Trace, TraceError>)
        ensures
            match r {
                Ok(t) => parsed(text@) == Ok::<TraceModel, TroubleModel>(t@),
                Err(e) => parsed(text@) == Err::<TraceModel, TroubleModel>(e@),
            },
    {
        let rows = split_lines(text);
        let ghost all = lines(text@);
        assert(texts(rows@).len() == all.len());
        if rows.len() == 0 {
            return Err(TraceError::Empty);
        }
        assert(all[0] == rows@[0]@);
        let header = match Json::try_read(rows[0].as_str().as_bytes()) {
            Ok(json) => match TraceHeader::from_json(&json) {
                Some(h) => h,
                None => {
                    let reason = "expected a trace header".to_owned();
                    return Err(TraceError::Parse { line: 1, reason });
                },
            },
            Err(reason) => return Err(TraceError::Parse { line: 1, reason }),
        };
        if header.format_version != FORMAT_VERSION {
            return Err(
                TraceError::Version {
                    found: header.format_version,
                    expected: FORMAT_VERSION,
                },
            );
        }
        let mut events: Vec<Event> = Vec::new();
        let mut i: usize = 1;
        assert(views(events@) =~= seq![]);
        while i < rows.len()
            invariant
                1 <= i <= rows@.len(),
                events@.len() < i,
                texts(rows@) == all,
                all == lines(text@),
                header_on(all[0]) == Some(header@),
                header.format_version == FORMAT_VERSION,
                events_on(all, 1, seq![]) == events_on(all, i as nat, views(events@)),
            decreases rows@.len() - i,
        {
            assert(all[i as int] == rows@[i as int]@);
            let row = rows[i].as_str();
            if !is_blank(row) {
                let event = match Json::try_read(row.as_bytes()) {
                    Ok(json) => match Event::from_json(&json) {
                        Some(e) => e,
                        None => {
                            let reason = "expected an event".to_owned();
                            return Err(TraceError::Parse { line: i + 1, reason });
                        },
                    },
                    Err(reason) => return Err(TraceError::Parse { line: i + 1, reason }),
                };
                let expected: u64 = events.len() as u64;
                if event.seq != expected {
                    return Err(
                        TraceError::Sequence { expected, found: event.seq, line: i + 1 },
                    );
                }
                let ghost before = events@;
                events.push(event);
                assert(views(events@) =~= views(before).push(event@));
            }
            i += 1;
        }
        Ok(Trace { header, events })
    }

    /// Parse a trace from its text.
    pub fn from_str(s: &str) -> (r: Result<Trace, TraceError>)
        ensures
            match r {
                Ok(t) => parsed(s@) == Ok::<TraceModel, TroubleModel>(t@),
                Err(e) => parsed(s@) == Err::<TraceModel, TroubleModel>(e@),
            },
    {
        Trace::read(s)
    }
}

/// Every position where a fault can be injected is that of a model or tool
/// call, in the order of the run.
pub proof fn lemma_faultable_positions(events: Seq<EventModel>)
    requires
        contiguous(events),
    ensures
        faultable_positions(events).len() <= events.len(),
        faultable_positions(events).no_duplicates(),
        forall|i: int|
            0 <= i < faultable_positions(events).len() ==> (#[trigger] faultable_positions(
                events,
            )[i]) < events.len() && crate::fault::faultable(
                events[faultable_positions(events)[i] as int].kind,
            ),
    decreases events.len(),
{
    if events.len() > 0 {
        let front = events.drop_last();
        assert forall|i: int| 0 <= i < front.len() implies (#[trigger] front[i]).seq == i by {
            assert(events[i].seq == i);
        }
        lemma_faultable_positions(front);
        let n = events.len() - 1;
        assert(events[n].seq == n);
        let out = faultable_positions(events);
        let old = faultable_positions(front);
        assert forall|i: int| 0 <= i < out.len() implies (#[trigger] out[i]) < events.len()
            && crate::fault::faultable(events[out[i] as int].kind) by {
            if i < old.len() {
                assert(out[i] == old[i]);
                assert(front[old[i] as int] == events[old[i] as int]);
            }
        }
        assert forall|i: int, j: int| 0 <= i < j < out.len() implies out[i] != out[j] by {
            if j < old.len() {
                assert(old[i] != old[j]);
            } else {
                assert(old[i] < front.len());
            }
        }
    }
}

} // verus!
