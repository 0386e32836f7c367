//! Depth-first search over a directed graph, driven by a visitor.
//!
//! One traversal, `dfs`, walks a graph and calls the hooks of a visitor on the way. A
//! topological order, the times of entering and leaving, the parents and the trees of the
//! walk are each one visitor.
//!
//! The walk tries the keys of the graph as roots from the largest down to the smallest, and
//! the neighbours of every vertex in the same order. What it does is therefore a function of
//! the graph alone: `dfs_trace` gives the hook calls of a traversal as a sequence of events,
//! and every result is stated over that sequence.
pub mod components;
pub mod engine;
pub mod forest;
pub mod graph;
pub mod nesting;
pub mod order;
pub mod parents;
pub mod reach;
pub mod sequences;
pub mod structure;
pub mod timer;
pub mod topo;
pub mod trace;
pub mod visitor;

pub use engine::dfs;
pub use forest::forest;
pub use forest::Forest;
pub use graph::from_pairs;
pub use graph::Adjacency;
pub use graph::Graph;
pub use graph::Vertex;
pub use parents::parents;
pub use parents::Parents;
pub use timer::checked_times;
pub use timer::times;
pub use topo::topological_sort;
pub use trace::Event;
pub use visitor::DfsAction;
