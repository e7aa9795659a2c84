//! Card catalog with embedding storage, similarity search and k-means clustering.
//!
//! Embedding coordinates are fixed-point integers: a caller that holds
//! floating-point embeddings scales them once before they enter the library.

pub mod distance;
pub mod error;
pub mod vectors;
pub mod kmeans;
pub mod sampling;
pub mod clusters;
pub mod text;
pub mod catalog;
pub mod search;
pub mod params;
