//! Space-time zones of the initial models.
pub mod jet_in_cloud;
pub mod jet_in_star;
