//! Generation, validation and evaluation of two-dimensional rectangle
//! packing problems.
//!
//! The crate produces packing problems with a known perfect packing by
//! recursive guillotine cuts, serializes them to a line-oriented text
//! protocol, parses solver answers in the same protocol, and judges them:
//! pairwise overlap detection, bounding-box computation and fill-rate
//! metrics, plus the decision logic of the solver-invocation harness.
#![verifier::loop_isolation(false)]

pub mod codec;
pub mod error;
pub mod problem;
pub mod rng;
pub mod runner;
pub mod solution;
pub mod geometry;
