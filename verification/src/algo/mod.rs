//! Goal direction and the searches that use it.
pub mod ch_potentials;
pub mod contraction;
pub mod dijkstra;
pub mod potential_bounds;
pub mod separator_tree;
pub mod topo_state;
