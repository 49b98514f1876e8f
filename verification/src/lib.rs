//! Named points of interest from a map extract: bounding-box resolution,
//! refinement into a POI table, and proximity queries over it.

pub mod aggregate;
pub mod bbox;
pub mod coord;
pub mod element;
pub mod error;
pub mod ingest;
pub mod laws;
pub mod path;
pub mod pipeline;
pub mod poi;
pub mod query;
pub mod relations;
pub mod store;
pub mod tags;
pub mod ways;
