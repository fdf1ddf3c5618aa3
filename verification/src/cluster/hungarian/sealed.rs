//! Keeps the layouts of this crate the only ones.

use vstd::prelude::*;

verus! {

/// Implemented by the layouts of this crate.
pub trait Sealed {

}

} // verus!
