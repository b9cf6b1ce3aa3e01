//! Recovery of the shortest linear recurrence that generates a sequence of
//! finite-field elements, together with the minimal characteristic polynomial
//! of the recovered recurrence.
//!
//! Field arithmetic is supplied by winter-math's 64-bit STARK-friendly prime
//! field; elements are handled here as canonical `u64` residues.

pub mod field;
pub mod engine;
