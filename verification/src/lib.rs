//! A directed-graph container with incremental mutation and verified
//! traversal/search algorithms: depth-first and breadth-first walks,
//! Kahn-style topological ordering, and Dijkstra shortest paths.

mod bfs;
mod collections;
mod dfs;
mod dijkstra;
mod edge;
mod graph;
mod iterators;
mod laws;
mod topo;
mod vertex_id;

pub use bfs::Bfs;
pub use dfs::Dfs;
pub use dijkstra::Dijkstra;
pub use edge::Edge;
pub use graph::{
    default_label, first_occurrences, has_cycle, hex_digit, hex_of, id_bytes, is_cycle,
    is_path_from, is_root_path, label_mapped, lemma_walk_cost_nonneg, lemma_walk_cost_push, prior_label, reachable_from,
    root_reachable, sorted_insert, walk_cost, weight_key_lt, Graph, GraphErr, GraphView,
    WEIGHT_SCALE,
};
pub use iterators::{OwningIterator, ValuesIter, VertexIter};
pub use laws::{
    lemma_add_edge_idempotent, lemma_complete_order_excludes_cycles, lemma_remove_absent_edge,
    lemma_remove_edge_idempotent, lemma_roots_tips_characterize,
};
pub use topo::{pending_degree, respects_predecessors, Topo};
pub use vertex_id::VertexId;
