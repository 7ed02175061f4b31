//! Enrichment of a public-transport dataset with geometric shapes taken from
//! an OpenStreetMap extract.
//!
//! Transit lines and routes may carry an annotation code (`osm_line_id` /
//! `osm_route_id`) naming an OSM object. The enrichment pass resolves each
//! code against an index of the parsed extract, copies the OSM object's shape
//! into a freshly numbered geometry, and records the geometry id on the
//! transit entity. Reading the extract from disk is left to the caller; this
//! crate works on already-parsed values and is verified end to end.

pub mod collection;
pub mod error;
pub mod laws;
pub mod objects;
pub mod read_shapes;
pub mod text;

pub use error::Error;
