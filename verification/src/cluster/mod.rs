//! Clustering of speaker embeddings.

pub mod agglomerative;
pub mod ahc;
pub mod centroid;
pub mod eigen_laws;
pub mod error;
pub mod hungarian;
pub mod input_laws;
pub mod kmeans;
pub mod laws;
pub mod linkage_laws;
pub mod mean_laws;
pub mod offline;
pub mod options;
pub mod pick_laws;
pub mod random;
pub mod seeding;
pub mod spectral;
pub mod spectral_laws;
pub mod vbx;

pub use error::Error;
pub use offline::cluster_offline;
pub use options::{
    Linkage, OfflineClusterOptions, OfflineMethod, MAX_AUTO_SPEAKERS, MAX_OFFLINE_INPUT,
};
