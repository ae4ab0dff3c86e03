//! An approximate nearest-neighbour index over fixed-dimension vectors,
//! built on a hierarchical navigable small-world graph.

pub mod beam;
pub mod hnsw;
pub mod index;
pub mod knn;
pub mod layer;
pub mod vector;
