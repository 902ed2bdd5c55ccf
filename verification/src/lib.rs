//! Shift-and-add decompositions of constant multiplications.
pub mod bits;
pub mod text;
pub mod graph_types;
pub mod encoding;
pub mod adder_cost;
pub mod trees;
pub mod equations;
pub mod semantics;
