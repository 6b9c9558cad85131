//! Strongly connected components of a directed graph by Kosaraju's two
//! passes, and the sizes of the five largest components.
//!
//! - `graph`: the graph store (a petgraph graph), its model, reversal and
//!   reachability.
//! - `order`: the finishing-order depth-first search.
//! - `kahn`: Kahn's topological sort, for acyclic graphs.
//! - `scc`: component labelling and the top-five reduction.
//! - `sizes`: the size table, sorting and padding.
//! - `laws`: properties that relate several of the above.

pub mod graph;
pub mod kahn;
pub mod laws;
pub mod order;
pub mod scc;
pub mod sizes;
