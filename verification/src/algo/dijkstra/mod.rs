//! Searches in the manner of Dijkstra.
pub mod td_topo_dijkstra;
