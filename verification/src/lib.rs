//! Incremental Delaunay triangulation over 2D integer points, and a
//! bounding-volume hierarchy for point-in-triangle lookup over the
//! resulting (or an externally supplied) triangle set.
//!
//! Coordinates are fixed-point integers bounded by `COORD_LIMIT`, which
//! keeps every intermediate geometric product exact and within `i128`.

pub mod point;
pub mod delaunay;
pub mod bvh;
