//! Incremental Delaunay triangulation of points with exact integer
//! coordinates, built on a planar subdivision that keeps, for every vertex,
//! its neighbours in counterclockwise order.

pub mod angles;
pub mod delaunay;
pub mod geometry;
pub mod hull;
pub mod insertion;
pub mod subdivision;
pub mod triangles;
pub mod walk;
