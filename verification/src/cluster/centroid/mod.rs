//! Cluster centroids from responsibilities.

pub mod algo;
pub mod alive_laws;
pub mod error;

pub use algo::{weighted_centroids, SP_ALIVE_THRESHOLD};
pub use error::Error;
