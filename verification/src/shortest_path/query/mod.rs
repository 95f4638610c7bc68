//! Servers that answer whole queries.
pub mod td_dijkstra;
pub mod catchup;
