//! Offline diarization: from segmentation scores and raw embeddings to speaker
//! labels and spans.
//!
//! The flow is fixed here: which inputs are refused, which (chunk, speaker)
//! pairs train the clustering, what each stage is handed, and what comes out.
//! The numerical stages themselves are given by the caller.

pub mod algo;
pub mod filter;
pub mod filter_laws;
pub mod grid_laws;
pub mod input;
pub mod layout_laws;

pub use algo::diarize_offline;


pub use input::{Error, OfflineInput, OfflineOutput, ReconstructError, ReconstructShapeError, ShapeError};
