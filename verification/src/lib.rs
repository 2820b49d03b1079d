pub mod centroid;
pub mod kmeans;
pub mod point;
