//! Scheduling graphs: a graph of nodes that hold one another back, and a dependency graph built
//! from per-node orderings, with their contracts proved.

pub mod link;
pub mod graph;
pub mod node;
pub mod ordering;
pub mod execution_graph;
pub mod prelude;
