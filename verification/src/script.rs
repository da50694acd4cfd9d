//! Scripts and the evaluation decisions the embedding runs on: whether an
//! evaluation may take a timeout, and how the engine's raw report of a run
//! becomes a bridge result. Compiling and running the source text is the
//! engine's own work; the embedding performs it and hands the conclusion
//! back as descriptors.

use vstd::prelude::*;
use crate::descriptor::{decode, decode_spec, tag_known_spec, Descriptor};
use crate::error::Error;
use crate::mini_v8::MiniV8;
use crate::value::Value;

verus! {

/// The origin, within a file, of a script: used only for error messages
/// and stack traces.
#[derive(Clone, Debug, Default)]
pub struct ScriptOrigin {
    /// The name of the file this script belongs to.
    pub name: String,
    /// The line at which this script starts.
    pub line_offset: i32,
    /// The column at which this script starts.
    pub column_offset: i32,
}

/// A JavaScript script: source text, an optional evaluation deadline in
/// milliseconds, and an optional origin.
///
/// A deadline can only be honored at the root scope: the termination
/// primitive stops the whole isolate, so it cannot be scoped to an
/// evaluation nested inside a callback.
#[derive(Clone, Debug, Default)]
pub struct Script {
    /// The source of the script.
    pub source: String,
    /// The maximum runtime of the evaluation, in milliseconds. The engine
    /// honors the deadline only between the steps it is willing to
    /// interrupt; host code already running is finished first.
    pub timeout: Option<u64>,
    /// The script's origin.
    pub origin: Option<ScriptOrigin>,
}

impl From<String> for Script {
    /// A bare source text is a script with no deadline and no origin.
    fn from(source: String) -> Self {
        Script { source, timeout: None, origin: None }
    }
}

impl vstd::std_specs::convert::FromSpecImpl<String> for Script {
    open spec fn obeys_from_spec() -> bool {
        true
    }

    open spec fn from_spec(source: String) -> Script {
        Script { source, timeout: None, origin: None }
    }
}

/// How an evaluation request is to be run.
#[derive(Clone, Copy, PartialEq, Eq, Structural, Debug)]
pub enum EvalPlan {
    /// Run to completion on the calling thread.
    Direct,
    /// Run under a watchdog that requests engine-level termination after
    /// this many milliseconds.
    WithTimeout(u64),
    /// Refuse the request: a timeout was asked for inside a nested
    /// evaluation, where it cannot be honored.
    RejectInvalidTimeout,
}

impl MiniV8 {
    /// Decides how an evaluation request is to be run: a deadline is
    /// honored only from the root scope, asking for one from inside a
    /// callback re-entry is refused, and without a deadline the script
    /// simply runs.
    pub fn eval_plan(&self, timeout: Option<u64>) -> (r: EvalPlan)
        ensures
            timeout is None ==> r == EvalPlan::Direct,
            timeout matches Some(ms) ==> (self@.depth == 1 ==> r == EvalPlan::WithTimeout(ms)),
            timeout is Some && self@.depth != 1 ==> r == EvalPlan::RejectInvalidTimeout,
    {
        match timeout {
            None => EvalPlan::Direct,
            Some(ms) => {
                if self.depth == 1 {
                    EvalPlan::WithTimeout(ms)
                } else {
                    EvalPlan::RejectInvalidTimeout
                }
            },
        }
    }

    /// Turns the engine's raw report of an evaluation into a bridge result:
    /// a terminated run is a timeout, distinguishable from a script-level
    /// exception, which carries the thrown value itself; otherwise the
    /// completion value is decoded against this context.
    pub fn classify_eval_outcome(
        &self,
        terminated: bool,
        exception: Option<Descriptor>,
        completion: Descriptor,
    ) -> (r: Result<Value, Error>)
        requires
            exception matches Some(d) ==> tag_known_spec(d.tag),
            exception is None && !terminated ==> tag_known_spec(completion.tag),
        ensures
            terminated ==> r == Err::<Value, Error>(Error::Timeout),
            exception matches Some(d) ==> (!terminated ==> r == Err::<Value, Error>(
                Error::Value(decode_spec(d, self@.id)),
            )),
            !terminated && exception is None ==> r == Ok::<Value, Error>(
                decode_spec(completion, self@.id),
            ),
    {
        if terminated {
            Err(Error::Timeout)
        } else {
            match exception {
                Some(d) => Err(Error::Value(decode(d, self.id))),
                None => Ok(decode(completion, self.id)),
            }
        }
    }
}

} // verus!
