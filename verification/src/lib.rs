//! An in-memory geospatial index over identified geographic features.
//!
//! Three sub-indexes answer three classes of query over a shared coordinate
//! space of latitude/longitude pairs held as integer microdegrees:
//! a cell-hierarchy bitmap index ("which feature ids lie within a radius of a
//! point"), a bulk-built point neighbor index ("what is the nearest point
//! feature"), and an incrementally built shape neighbor index over line
//! segments ("what is the nearest polyline/polygon-boundary feature").
//! A single owning structure, [`World`], coordinates all three.

pub mod bitmaps;
pub mod cells;
pub mod coords;
pub mod errors;
pub mod laws;
pub mod rtrees;
pub mod world;

pub use coords::TreePoint;
pub use errors::WorldError;
pub use world::KdWorld;
pub use world::World;
