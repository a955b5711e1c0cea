//! Prover side of the WHIR low-degree test.

pub mod dft;
pub mod domain;
pub mod encoding;
pub mod fiat_shamir;
pub mod field;
pub mod merkle;
pub mod poly;
pub mod sumcheck;
pub mod types;
pub mod utils;
pub mod whir;
