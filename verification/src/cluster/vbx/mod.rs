//! Variational Bayes clustering of projected embeddings.

pub mod algo;
pub mod check;
pub mod em;
pub mod em_laws;
pub mod error;
pub mod formula_laws;
pub mod round;
pub mod step;
pub mod step_laws;

pub use algo::{vbx_iterate, VbxOutput};
pub use check::MAX_ITERS_CAP;
pub use error::Error;
pub use round::Kernels;
pub use step::StopReason;
