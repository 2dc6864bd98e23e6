//! Lloyd's k-means clustering of points on the integer lattice.
//!
//! Every point has `i32` coordinates, distances are squared Euclidean
//! distances, and a centroid is the coordinate-wise mean of its members,
//! rounded toward zero. All functions are verified against the spec
//! functions they are stated over.

pub mod assignment;
pub mod cluster;
pub mod config;
pub mod driver;
pub mod partition;
pub mod pass;
pub mod point;
pub mod random;

pub use crate::cluster::Cluster;
pub use crate::point::Point;
