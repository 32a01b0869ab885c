//! The effect vocabulary.
//!
//! An agent run is deterministic apart from the effects it performs: model
//! calls, tool calls, clock reads and random draws. Record every effect, and
//! the run can be repeated by handing back the recorded answers.

use crate::fault::{Fault, FaultModel};
use crate::hash::{has_short, short_of, Digest};
use crate::json::{Json, JsonModel};
use crate::model::viewed;
use crate::text::{align, aligned, decimal, pad, padded, shorten, shortened, show};
use vstd::prelude::*;

verus! {

/// The kinds of external interaction an agent can have.
#[derive(Clone, Copy, Debug, PartialEq, Eq, Hash, Structural)]
pub enum EffectKind {
    /// A call to a language model.
    Model,
    /// A call to a tool the agent may invoke.
    Tool,
    /// A read of wall-clock time, in milliseconds since the epoch.
    Clock,
    /// A draw of randomness.
    Random,
}

/// The word for a kind.
pub open spec fn kind_name(kind: EffectKind) -> Seq<char> {
    match kind {
        EffectKind::Model => "model"@,
        EffectKind::Tool => "tool"@,
        EffectKind::Clock => "clock"@,
        EffectKind::Random => "random"@,
    }
}

impl EffectKind {
    /// Whether an effect of this kind can change the world. Only tools can.
    pub fn is_effectful(&self) -> (r: bool)
        ensures
            r == (*self == EffectKind::Tool),
    {
        match self {
            EffectKind::Tool => true,
            _ => false,
        }
    }

    /// The word for this kind.
    pub fn as_str(&self) -> (r: &'static str)
        ensures
            r@ == kind_name(*self),
    {
        match self {
            EffectKind::Model => "model",
            EffectKind::Tool => "tool",
            EffectKind::Clock => "clock",
            EffectKind::Random => "random",
        }
    }
}

/// A request to perform an effect, as the agent issues it.
#[derive(Debug, PartialEq, Eq)]
pub struct EffectRequest {
    pub kind: EffectKind,
    /// Model id, tool name, or a fixed label for clock and random draws.
    pub name: String,
    /// For a model call, the provider request body; for a tool call, its
    /// arguments.
    pub body: Json,
}

/// What a request is, for contracts.
pub struct RequestModel {
    pub kind: EffectKind,
    pub name: Seq<char>,
    pub body: JsonModel,
}

impl View for EffectRequest {
    type V = RequestModel;

    open spec fn view(&self) -> RequestModel {
        RequestModel { kind: self.kind, name: self.name@, body: self.body@ }
    }
}

impl Clone for EffectRequest {
    fn clone(&self) -> (r: Self)
        ensures
            r@ == self@,
    {
        EffectRequest { kind: self.kind, name: self.name.clone(), body: self.body.clone() }
    }
}

/// The request that reads the clock.
pub open spec fn clock_request() -> RequestModel {
    RequestModel { kind: EffectKind::Clock, name: "now_ms"@, body: JsonModel::Null }
}

/// The request that draws randomness.
pub open spec fn random_request() -> RequestModel {
    RequestModel { kind: EffectKind::Random, name: "next_f64"@, body: JsonModel::Null }
}

impl EffectRequest {
    /// A call to a model.
    pub fn model(name: &str, body: Json) -> (r: Self)
        ensures
            r@ == (RequestModel { kind: EffectKind::Model, name: name@, body: body@ }),
    {
        EffectRequest { kind: EffectKind::Model, name: name.to_owned(), body }
    }

    /// A call to a tool.
    pub fn tool(name: &str, args: Json) -> (r: Self)
        ensures
            r@ == (RequestModel { kind: EffectKind::Tool, name: name@, body: args@ }),
    {
        EffectRequest { kind: EffectKind::Tool, name: name.to_owned(), body: args }
    }

    /// A read of the clock.
    pub fn clock() -> (r: Self)
        ensures
            r@ == clock_request(),
    {
        EffectRequest { kind: EffectKind::Clock, name: "now_ms".to_owned(), body: Json::Null }
    }

    /// A draw of randomness.
    pub fn random() -> (r: Self)
        ensures
            r@ == random_request(),
    {
        EffectRequest { kind: EffectKind::Random, name: "next_f64".to_owned(), body: Json::Null }
    }
}

/// How an effect resolved.
#[derive(Debug, PartialEq, Eq)]
pub enum Outcome {
    /// The effect returned a value.
    Success { value: Json },
    /// The effect failed. `code` is for machines, `message` for humans.
    Failure { code: String, message: String },
}

/// What an outcome is, for contracts.
pub enum OutcomeModel {
    Success { value: JsonModel },
    Failure { code: Seq<char>, message: Seq<char> },
}

impl View for Outcome {
    type V = OutcomeModel;

    open spec fn view(&self) -> OutcomeModel {
        match *self {
            Outcome::Success { value } => OutcomeModel::Success { value: value@ },
            Outcome::Failure { code, message } => OutcomeModel::Failure {
                code: code@,
                message: message@,
            },
        }
    }
}

impl Clone for Outcome {
    fn clone(&self) -> (r: Self)
        ensures
            r@ == self@,
    {
        match self {
            Outcome::Success { value } => Outcome::Success { value: value.clone() },
            Outcome::Failure { code, message } => Outcome::Failure {
                code: code.clone(),
                message: message.clone(),
            },
        }
    }
}

/// The value an outcome carries, where it carries one.
pub open spec fn value_of(o: OutcomeModel) -> Option<JsonModel> {
    match o {
        OutcomeModel::Success { value } => Some(value),
        OutcomeModel::Failure { .. } => None,
    }
}

impl Outcome {
    /// A success.
    pub fn ok(value: Json) -> (r: Self)
        ensures
            r@ == (OutcomeModel::Success { value: value@ }),
    {
        Outcome::Success { value }
    }

    /// A failure.
    pub fn err(code: &str, message: &str) -> (r: Self)
        ensures
            r@ == (OutcomeModel::Failure { code: code@, message: message@ }),
    {
        Outcome::Failure { code: code.to_owned(), message: message.to_owned() }
    }

    /// Whether the effect returned a value.
    pub fn is_ok(&self) -> (r: bool)
        ensures
            r == (self@ is Success),
    {
        match self {
            Outcome::Success { .. } => true,
            Outcome::Failure { .. } => false,
        }
    }

    /// The value returned, if any.
    pub fn value(&self) -> (r: Option<&Json>)
        ensures
            r is Some <==> value_of(self@) is Some,
            r is Some ==> r->0@ == value_of(self@)->0,
    {
        match self {
            Outcome::Success { value } => Some(value),
            Outcome::Failure { .. } => None,
        }
    }
}

/// One recorded effect: what was asked, what came back, and whether the
/// answer was tampered with.
#[derive(Debug, PartialEq, Eq)]
pub struct Event {
    /// Position in the run, from zero.
    pub seq: u64,
    pub kind: EffectKind,
    pub name: String,
    /// Canonical identity of the request: what replay matches on.
    pub identity: Digest,
    /// Names the full request in the store.
    pub request: Digest,
    /// Names the outcome in the store.
    pub outcome: Digest,
    /// How the outcome was tampered with, on a counterfactual branch.
    pub fault: Option<Fault>,
    /// The outcome that really happened, where `fault` hid it from the agent.
    pub shadow: Option<Digest>,
    /// Monotone logical time: the order of events.
    pub logical_time: u64,
    /// The group of calls this one was issued together with, if any.
    pub batch: Option<u64>,
}

/// What an event is, for contracts.
pub struct EventModel {
    pub seq: u64,
    pub kind: EffectKind,
    pub name: Seq<char>,
    pub identity: Seq<char>,
    pub request: Seq<char>,
    pub outcome: Seq<char>,
    pub fault: Option<FaultModel>,
    pub shadow: Option<Seq<char>>,
    pub logical_time: u64,
    pub batch: Option<u64>,
}

impl View for Event {
    type V = EventModel;

    open spec fn view(&self) -> EventModel {
        EventModel {
            seq: self.seq,
            kind: self.kind,
            name: self.name@,
            identity: self.identity@,
            request: self.request@,
            outcome: self.outcome@,
            fault: viewed(self.fault),
            shadow: viewed(self.shadow),
            logical_time: self.logical_time,
            batch: self.batch,
        }
    }
}

impl Clone for Event {
    fn clone(&self) -> (r: Self)
        ensures
            r@ == self@,
    {
        Event {
            seq: self.seq,
            kind: self.kind,
            name: self.name.clone(),
            identity: self.identity.clone(),
            request: self.request.clone(),
            outcome: self.outcome.clone(),
            fault: match &self.fault {
                Some(f) => Some(f.clone()),
                None => None,
            },
            shadow: match &self.shadow {
                Some(d) => Some(d.clone()),
                None => None,
            },
            logical_time: self.logical_time,
            batch: self.batch,
        }
    }
}

/// The one-line rendering of an event: a mark where it was tampered with, its
/// position, kind, shortened name, and the head of its identity.
pub open spec fn summary_of(e: EventModel) -> Seq<char> {
    (if e.fault is Some {
        "!"@
    } else {
        " "@
    }) + aligned(decimal(e.seq as nat), 4) + " "@ + padded(kind_name(e.kind), 7) + " "@ + padded(
        shortened(e.name, 24),
        24,
    ) + " "@ + short_of(e.identity)
}

impl Event {
    /// A one-line rendering for terminal output.
    pub fn summary(&self) -> (r: String)
        requires
            has_short(self.identity@),
        ensures
            r@ == summary_of(self@),
    {
        let mut out = if self.fault.is_some() {
            "!".to_owned()
        } else {
            " ".to_owned()
        };
        out.append(align(show(self.seq).as_str(), 4).as_str());
        out.append(" ");
        out.append(pad(self.kind.as_str(), 7).as_str());
        out.append(" ");
        out.append(pad(shorten(self.name.as_str(), 24).as_str(), 24).as_str());
        out.append(" ");
        out.append(self.identity.short());
        out
    }
}

} // verus!
