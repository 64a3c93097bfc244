//! Geometric mission-planning core.
//!
//! The crate turns an operator-drawn survey area into a flight route: it
//! rasterizes polygons into photo-cell centres, orders waypoints with a
//! greedy or an exact traveling-salesman search, and stitches several
//! rectangular survey regions into one serpentine coverage route by way of
//! a minimum spanning tree over the region adjacency graph.
//!
//! All geometry works on fixed-point planar coordinates: a [`geo::Point`]
//! holds integer coordinates in whatever unit the caller scales to (for
//! example millimetres).  Distances are Euclidean, rounded down to the
//! nearest integer unit.  Rotations into the flight-heading frame use a
//! scaled integer cosine/sine pair, see [`rotation::Rotation`].

pub mod geo;
pub mod mission;
pub mod mst;
pub mod raster;
pub mod regions;
pub mod rotation;
pub mod routes;
