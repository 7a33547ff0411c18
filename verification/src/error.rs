//! The error kinds of the crate: malformed protocol text, geometric
//! violations found by the validator and evaluator, and the failure modes
//! of the solver-invocation harness.

use vstd::prelude::*;
use crate::codec::{append_u32, dec_chars};

verus! {

/// Everything that can go wrong while parsing, judging or running.
#[derive(Clone, Debug)]
pub enum PacktError {
    /// Malformed problem or solution text; carries the offending line or
    /// token.
    FormatError(String),
    /// The validator found two intersecting placements.
    OverlapError,
    /// A placement exceeds the fixed container height.
    BoundsExceededError { top: u32, bound: u32 },
    /// The filling rate exceeded one although the pairwise scan passed: a
    /// validator bug, never tolerated silently.
    InvariantViolation,
    /// The solver exceeded its deadline.
    TimeoutError { elapsed_ms: u64 },
    /// The solver process could not be started.
    SpawnError(String),
    /// A new batch was submitted while one was in flight.
    BusyError,
}

/// The text of each error's description.
pub open spec fn message_chars(e: PacktError) -> Seq<char> {
    match e {
        PacktError::FormatError(s) => "Invalid format: "@ + s@,
        PacktError::OverlapError => "Overlap in solution"@,
        PacktError::BoundsExceededError { top, bound } =>
            "Solution placements exceed problem bounds: top: "@ + dec_chars(top as int)
                + ", bound: "@ + dec_chars(bound as int),
        PacktError::InvariantViolation => "Undetected overlap in solution"@,
        PacktError::TimeoutError { .. } => "Solver timed out"@,
        PacktError::SpawnError(s) => "Failed to spawn solver: "@ + s@,
        PacktError::BusyError => "A batch of jobs is still running"@,
    }
}

impl PacktError {
    /// A human-readable description of the error.
    pub fn message(&self) -> (r: String)
        ensures
            r@ == message_chars(*self),
    {
        match self {
            PacktError::FormatError(s) => {
                let mut m = String::new();
                m.append("Invalid format: ");
                m.append(s.as_str());
                m
            },
            PacktError::OverlapError => {
                let mut m = String::new();
                m.append("Overlap in solution");
                m
            },
            PacktError::BoundsExceededError { top, bound } => {
                let mut m = String::new();
                m.append("Solution placements exceed problem bounds: top: ");
                append_u32(&mut m, *top);
                m.append(", bound: ");
                append_u32(&mut m, *bound);
                m
            },
            PacktError::InvariantViolation => {
                let mut m = String::new();
                m.append("Undetected overlap in solution");
                m
            },
            PacktError::TimeoutError { elapsed_ms: _ } => {
                let mut m = String::new();
                m.append("Solver timed out");
                m
            },
            PacktError::SpawnError(s) => {
                let mut m = String::new();
                m.append("Failed to spawn solver: ");
                m.append(s.as_str());
                m
            },
            PacktError::BusyError => {
                let mut m = String::new();
                m.append("A batch of jobs is still running");
                m
            },
        }
    }
}

} // verus!
