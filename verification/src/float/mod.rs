//! Binary floating point, as bit patterns with proved arithmetic.

pub mod about;
pub mod arith;
pub mod close;
pub mod double;
pub mod error;
pub mod error_single;
pub mod error_terms;
pub mod exact;
pub mod grid;
pub mod laws;
pub mod nearest;
pub mod norms;
pub mod order;
pub mod relative;
pub mod root;
pub mod rounding;
pub mod single;
pub mod sums;

pub use double::Double;
pub use single::Single;
