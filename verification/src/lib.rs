//! Speaker-diarization core: frame aggregation, clustering decisions,
//! embedding arithmetic and the checks around them, verified.
//!
//! Real numbers travel through the library as IEEE 754 bit patterns
//! ([`float::Double`], [`float::Single`]) whose arithmetic, rounding included, is
//! defined and proved here; contracts speak of sums and comparisons in it.

pub mod accepted;
pub mod aggregate;
pub mod cluster;
pub mod embed;
pub mod float;
pub mod matrix;
pub mod offline;
mod shared;
pub mod window;
