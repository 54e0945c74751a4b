//! Belief propagation over factor graphs with ternary variables {-1, 0, +1}:
//! the verified core (ternary values, factor tables and their indexing, and
//! the structure of the factor graph that message passing walks).

pub mod factor;
pub mod graph;
pub mod ternary;

pub use ternary::{ternary_idx, TernaryVal, TERNARY_VALS};
pub use factor::{decode_assignment, table_size, Factor, FactorTerm};
pub use graph::{FactorGraph, MessageSources, Variable};
