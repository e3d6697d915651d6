//! Ordering constraints between named items: a graph builder and a
//! topological sorter with verified cycle detection and a deterministic
//! cycle-diagnosis heuristic.
//!
//! The builder turns a flat list of (from, to) name pairs into a constraint
//! graph: adjacency rows in submission order and per-node in-degree counts.
//! The sorter runs Kahn's algorithm over that graph and returns a complete
//! valid ordering exactly when the graph has no directed cycle; otherwise
//! it reports a diagnostic pair: the node with the most outgoing edges and
//! the node with the fewest incoming edges, first encountered winning ties.

pub mod count;
pub mod graph;
pub mod sort;

pub use graph::{build_graph, lemma_build_deterministic, Graph};
pub use sort::{lemma_outcome_deterministic, sort_pairs, topological_sort};
