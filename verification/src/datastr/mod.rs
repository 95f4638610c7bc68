//! Containers shared by the searches.
pub mod index_heap;
pub mod node_order;
pub mod rank_select_map;
pub mod timestamped_vector;
