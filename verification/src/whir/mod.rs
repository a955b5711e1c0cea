//! The WHIR protocol, on the prover's side.

pub mod committer;
pub mod parameters;
pub mod prover;
pub mod statement;
pub mod utils;
