//! Taking data in from other sources.
pub mod here;
