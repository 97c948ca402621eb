//! Path search over graphs read from flat edge lists.
//!
//! The unweighted engine keeps a directed adjacency map and answers
//! breadth-first and depth-first path queries. The weighted engine keeps an
//! undirected graph of roads and the table that assigns dense node indices
//! to caller-chosen node identifiers.

pub mod walk;
pub mod search;
pub mod depth_first;
pub mod graph;
pub mod edge_list;
pub mod snapshot;
pub mod road_network;

pub use edge_list::GraphError;
pub use graph::Graph;
pub use road_network::{Config, Road, RoadNetwork};
pub use snapshot::SnapshotError;
