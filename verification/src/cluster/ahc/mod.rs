//! Agglomerative clustering: the initial labels of the variational iteration.

pub mod algo;
pub mod distance_laws;
pub mod error;
pub mod tree;

pub use algo::ahc_init;
pub use error::Error;
