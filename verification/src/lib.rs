//! Time-dependent route planning on road networks.
//!
//! Travel times are periodic piecewise linear functions of the moment of
//! entry.  The crate holds the graph containers, the arithmetic on
//! interpolation points, lazily evaluated shortcuts with their bounds, the
//! elimination tree searches on bounds, goal directed time-dependent
//! searches and the small containers they share.
#![allow(unused_imports)]

pub mod algo;
pub mod as_slice;
pub mod types;
pub mod datastr;
pub mod graph;
pub mod import;
pub mod shortest_path;
