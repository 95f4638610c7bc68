//! Maps with the identifiers of a map vendor.
pub mod link_id_mapper;
