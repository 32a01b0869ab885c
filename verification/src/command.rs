//! What the commands are asked for, and what follows from it.

use crate::config::{checked_property, Checker};
use crate::fault::{generated, FaultSchedule, PointModel};
use crate::replayer::{Mode, ModeModel};
use crate::report::{command_checkers, command_properties};
use crate::text::{copy_list, strip_suffix, texts, without_suffix};
use crate::trace::{faultable_positions, Trace, TraceModel};
use vstd::prelude::*;

verus! {

/// The name of the directory that holds the payloads of a trace: that of the
/// trace, without its ending.
pub open spec fn objects_name(file: Option<Seq<char>>) -> Seq<char> {
    let name = match file {
        Some(name) => name,
        None => "trace"@,
    };
    without_suffix(name, ".jsonl"@) + ".objects"@
}

/// The name of the directory that holds the payloads of a trace, beside it.
pub fn objects_dir(file: Option<&str>) -> (r: String)
    ensures
        r@ == objects_name(crate::model::viewed(file)),
{
    let name = match file {
        Some(name) => name,
        None => "trace",
    };
    let mut out = strip_suffix(name, ".jsonl");
    out.append(".objects");
    out
}

/// Whether there is an agent to run, or why there is none.
pub fn check_command(command: &Vec<String>) -> (r: Result<(), String>)
    ensures
        r is Ok <==> command@.len() > 0,
        r matches Err(e) ==> e@ == "nothing to run: pass the agent command after `--`"@,
{
    if command.is_empty() {
        Err("nothing to run: pass the agent command after `--`".to_owned())
    } else {
        Ok(())
    }
}

/// What an agent is replayed against.
pub struct Options {
    pub trace: String,
    pub out: Option<String>,
    pub port: u16,
    /// Generate a schedule from this seed.
    pub seed: Option<u64>,
    pub max_faults: usize,
    /// Fail on any divergence, and inject nothing.
    pub strict: bool,
    /// Tools whose effects must not happen twice.
    pub effectful: Vec<String>,
    pub idempotency_key: Option<String>,
}

impl Options {
    /// The faults that are asked for: none, unless a seed is given.
    pub open spec fn faults(&self, trace: TraceModel) -> Seq<PointModel> {
        match self.seed {
            Some(seed) => generated(
                seed,
                faultable_positions(trace.events),
                self.max_faults as nat,
            ),
            None => seq![],
        }
    }

    /// How the recording is to be replayed.
    pub fn mode(&self, trace: &Trace) -> (r: Mode)
        ensures
            r@ == if self.strict {
                ModeModel::Strict
            } else {
                ModeModel::Counterfactual { schedule: self.faults(trace@) }
            },
    {
        if self.strict {
            Mode::Strict
        } else {
            let schedule = match self.seed {
                Some(seed) => FaultSchedule::generate(seed, &trace.faultable(), self.max_faults),
                None => FaultSchedule::empty(),
            };
            Mode::Counterfactual { schedule }
        }
    }

    /// What the run is held to: no side effect twice, and an end.
    pub fn checkers(&self) -> (r: Vec<Checker>)
        ensures
            Seq::new(r@.len(), |i: int| checked_property(r@[i])) == command_properties(
                texts(self.effectful@),
                crate::model::viewed(self.idempotency_key),
                512,
                None,
            ),
    {
        let key = match &self.idempotency_key {
            Some(key) => Some(key.as_str()),
            None => None,
        };
        command_checkers(copy_list(&self.effectful), key, 512, None)
    }
}

} // verus!
