//! Unsupervised clustering over fixed-point coordinates.
//!
//! Three engines partition the rows of a point matrix: centroid-based
//! ([`lloyd::Kmeans`]), density-based ([`dbscan::DBScan`]) and hierarchical
//! ([`agglomerative::AggloClusterer`]). They share the distance and scoring
//! primitives of [`mathfuncs`]. Every number is an integer: a coordinate is
//! a raw `i32` in which [`mathfuncs::ONE`] stands for one, so all
//! comparisons are exact and every result is a function of its inputs.
pub mod agglomerative;
pub mod convert;
pub mod dbscan;
pub mod dbscan_model;
pub mod error;
pub mod flat;
pub mod lloyd;
pub mod lloyd_model;
pub mod mathfuncs;
pub mod matrix;
pub mod pairs;
pub mod random;
pub mod tree;
pub mod utility;
