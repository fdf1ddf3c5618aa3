//! Segmentation layouts.

use vstd::prelude::*;
use crate::cluster::hungarian::sealed::Sealed;

verus! {

/// Speaker slots that a segmentation model has per chunk.
pub const MAX_SPEAKER_SLOTS: usize = 3;

/// The output layout of a segmentation model. Only this crate adds layouts.
pub trait ChunkLayout: Sealed + Copy + Default + 'static {
    /// Number of speaker slots per chunk.
    const SLOTS: usize;

    /// One cluster assignment per slot.
    type Row: Copy + 'static;
}

/// Three speaker slots per chunk.
#[derive(Clone, Copy, Debug)]
pub struct Segmentation3;

impl Default for Segmentation3 {
    fn default() -> (r: Segmentation3)
        ensures
            r == Segmentation3,
    {
        Segmentation3
    }
}

impl Sealed for Segmentation3 {

}

impl ChunkLayout for Segmentation3 {
    const SLOTS: usize = MAX_SPEAKER_SLOTS;

    type Row = [i32; MAX_SPEAKER_SLOTS];
}

/// The layout used where none is named.
pub type DefaultLayout = Segmentation3;

/// One chunk's cluster assignments in the default layout.
pub type ChunkAssignment = <DefaultLayout as ChunkLayout>::Row;

} // verus!
