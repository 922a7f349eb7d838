//! A k-dimensional tree over points with signed 64-bit coordinates: a bucket
//! point-region tree with exact nearest-neighbour, radius and box queries.
//!
//! Coordinates and distances are `i64`. The two extreme values of the type stand
//! for minus and plus infinity: they bound an empty box and an unlimited radius,
//! and are not accepted as coordinates of a point.
//!
//! The distance between two points is the caller's: any function of two
//! coordinate vectors. What a search then finds is stated for every function,
//! and for one that computes a metric entry by entry, as the course of the
//! search gives it; that it finds the nearest is stated for the functions that
//! compute an admissible metric, as the squared euclidean distance is.

pub mod distance;
pub mod heap;
pub mod heap_element;
pub mod kdtree;
pub mod ranking;
pub mod scalar;
pub mod tally;
pub mod util;

pub use crate::kdtree::ErrorKind;
pub use crate::kdtree::KdTree;
