//! Assignment of speakers to clusters by maximum total weight.
//!
//! [`algo::constrained_argmax`] compares totals exactly, on integers. The solver
//! [`lsap::linear_sum_assignment`] works in the arithmetic of the numbers themselves: it
//! pairs up whatever costs are finite, and its pairs are the best ones wherever none of
//! its sums is rounded.

pub mod algo;
pub mod assignment;
pub mod cell_laws;
pub mod error;
pub mod feasible;
pub mod fixed;
pub mod laws;
pub mod layout;
pub mod lsap;
pub mod optimal;
pub mod orientation;
pub mod reach;
pub mod rule;

mod sealed;
pub mod search;
pub mod solver;
pub mod sums;
pub mod turning;
pub mod weight;
pub mod whole;
pub mod wide;

pub use algo::{constrained_argmax, MAX_COST_MAGNITUDE, UNMATCHED};
pub use error::Error;
pub use layout::{ChunkAssignment, ChunkLayout, DefaultLayout, Segmentation3};
