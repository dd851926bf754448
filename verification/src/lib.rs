//! Control flow propagation: a normalization pass over the intermediate
//! representation of a program.
//!
//! Sequences of conditional blocks that all test the same condition are either
//! executed as a whole or not at all. The pass finds the jumps whose final
//! destination is already determined by what is known where the jump starts,
//! moves each of them directly to that destination, and removes the blocks
//! that lose their last incoming edge by it.
//!
//! The data types stand in `term`, `expression` and `program`. The control
//! flow graph is a `petgraph` graph: `graph` holds what is assumed of that
//! crate, `cfg` builds the graph of a program. The steps of the pass stand in
//! `condition`, `precondition`, `chain`, `plan`, `retarget` and `orphans`, the
//! pass itself and what is proved of it in `propagation`.

pub mod term;
pub mod expression;
pub mod program;
pub mod unique;
pub mod collections;
pub mod graph;
pub mod cfg;
pub mod condition;
pub mod precondition;
pub mod chain;
pub mod plan;
pub mod retarget;
pub mod orphans;
pub mod propagation;
