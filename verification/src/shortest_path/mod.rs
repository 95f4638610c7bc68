//! Searches for shortest paths.
pub mod corridor;
pub mod floating_td_stepped_elimination_tree;
pub mod interval_bounds;
pub mod label_marks;
pub mod query;
pub mod search_state;
pub mod stepped_dijkstra;
pub mod stepped_elimination_tree;
pub mod td_stepped_dijkstra;
pub mod td_stepped_elimination_tree;
