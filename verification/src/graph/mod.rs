//! Graph containers.
pub mod customized;
pub mod first_out_graph;
pub mod geometry;
pub mod marking;
pub mod plf;
pub mod shortcut;
pub mod shortcut_graph;
pub mod td_graph;
pub mod td_paths;
pub mod time_dependent;
