//! Linearly homomorphic time-lock puzzles over arbitrary-precision naturals.
//!
//! `LHTLP::setup` draws the public parameters, `generate` locks a secret in
//! a puzzle, `evaluate` combines puzzles into one whose secret is the sum,
//! and `solve` opens a puzzle by sequential squaring.
pub mod arith;
pub mod laws;
pub mod lhtlp;
pub mod natural;

pub use lhtlp::{LhtlpError, LHTLP, MAX_UNIT_DRAWS};
pub use natural::Natural;
