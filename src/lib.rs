//! Generalized totalizer encoding of weighted sums of literals into clauses,
//! with incremental, range-limited encoding and bound enforcement through
//! assumption literals.
//!
//! - `types`: literals, variables, the variable manager and clause sets.
//! - `node`: the binary adder tree and its encoding kernel.
//! - `gte`: the upper bounding, lower bounding and double encoders.
//! - `semantics`: assignments, and what the emitted clauses mean under them.

pub mod types;
pub mod node;
pub mod gte;
pub mod semantics;
