//! Push non-null requirements toward sources.
//!
//! A backward dataflow analysis over a relational query plan: for every
//! sub-expression it computes the set of output columns that must be non-null
//! for a row to matter downstream, deletes rows from constant collections
//! that violate the requirement, and collapses provably-empty `Map` branches.

pub mod columns;
pub mod scalar;
pub mod relation;
pub mod gets;
pub mod analysis;
pub mod laws;
