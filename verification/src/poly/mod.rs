//! Multilinear polynomials over the extension field.
pub mod coeffs;
pub mod evals;
pub mod multilinear;
pub mod vector;
