//! Verified core rules of an axisymmetric Godunov solver on a block-structured
//! spherical polar mesh: the radial block topology under moving excision
//! surfaces, the merging of configuration overlays and the parsing of
//! command-line overrides, mesh zoning and worker-pool sizing, input
//! classification, and the zone selection of the initial models.
pub mod control;
pub mod io;
pub mod mesh;
pub mod models;
pub mod physics;
pub mod topology;
pub mod yaml_patch;
