//! Density-based spatial clustering over fixed-dimensional fixed-point points,
//! with a secondary operation that classifies new points against a fitted model.

pub mod cluster;
pub mod geometry;
pub mod index;
pub mod laws;
pub mod points;

pub use cluster::ClusterPrediction;
pub use cluster::Dbscan;
pub use cluster::fit_labels;
pub use index::SpatialIndex;
pub use points::DbscanError;
pub use points::PointSet;
