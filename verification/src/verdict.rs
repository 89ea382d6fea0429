//! What an evaluation says of a record, and which verdicts drop it.

use crate::internal_events::DropReason;
use vstd::prelude::*;

verus! {

/// What the policy engine says of a record.
#[derive(Clone, Copy, Debug, PartialEq, Eq, Structural)]
pub enum EvaluateResult {
    /// No policy matches.
    NoMatch,
    /// The winning policy keeps the record.
    Keep,
    /// The winning policy drops the record.
    Drop,
    /// The winning policy samples.
    Sample { keep: bool },
    /// The winning policy limits the rate.
    RateLimit { allowed: bool },
}

/// What sort of telemetry an envelope carries.
#[derive(Clone, Copy, Debug, PartialEq, Eq, Structural)]
pub enum Signal {
    Logs,
    Metrics,
    Traces,
}

/// Why a verdict drops a record; nothing where the record stays.
///
/// Logs heed every verdict. Traces are not rate-limited. Metrics are dropped outright or
/// not at all.
pub open spec fn reason_to_drop(signal: Signal, result: EvaluateResult) -> Option<DropReason> {
    match result {
        EvaluateResult::Drop => Some(DropReason::PolicyDrop),
        EvaluateResult::Sample { keep } => if !keep && signal != Signal::Metrics {
            Some(DropReason::SampleRejected)
        } else {
            None
        },
        EvaluateResult::RateLimit { allowed } => if !allowed && signal == Signal::Logs {
            Some(DropReason::RateLimited)
        } else {
            None
        },
        EvaluateResult::NoMatch => None,
        EvaluateResult::Keep => None,
    }
}

/// Why the outcome of an evaluation drops a record. A failed evaluation never does.
pub open spec fn outcome_drops(
    signal: Signal,
    outcome: Result<EvaluateResult, String>,
) -> Option<DropReason> {
    match outcome {
        Ok(result) => reason_to_drop(signal, result),
        Err(_) => None,
    }
}

/// Why a verdict drops a record; nothing where the record stays.
pub fn drop_reason(signal: Signal, result: EvaluateResult) -> (r: Option<DropReason>)
    ensures
        r == reason_to_drop(signal, result),
{
    match result {
        EvaluateResult::Drop => Some(DropReason::PolicyDrop),
        EvaluateResult::Sample { keep } => match signal {
            Signal::Metrics => None,
            _ => if keep {
                None
            } else {
                Some(DropReason::SampleRejected)
            },
        },
        EvaluateResult::RateLimit { allowed } => match signal {
            Signal::Logs => if allowed {
                None
            } else {
                Some(DropReason::RateLimited)
            },
            _ => None,
        },
        EvaluateResult::NoMatch => None,
        EvaluateResult::Keep => None,
    }
}

} // verus!
