//! Sliding windows over time.

use vstd::prelude::*;
use crate::float::Double;

verus! {

/// A regular grid of equally long windows, in seconds.
#[derive(Clone, Copy, Debug, PartialEq, Eq, Structural)]
pub struct SlidingWindow {
    start: Double,
    duration: Double,
    step: Double,
}

impl SlidingWindow {
    pub closed spec fn start_at(self) -> Double {
        self.start
    }

    pub closed spec fn length(self) -> Double {
        self.duration
    }

    pub closed spec fn stride(self) -> Double {
        self.step
    }

    pub fn new(start: Double, duration: Double, step: Double) -> (r: SlidingWindow)
        ensures
            r.start_at() == start,
            r.length() == duration,
            r.stride() == step,
    {
        SlidingWindow { start, duration, step }
    }

    /// Start of the first window.
    pub fn start(&self) -> (r: Double)
        ensures
            r == self.start_at(),
    {
        self.start
    }

    /// Length of each window.
    pub fn duration(&self) -> (r: Double)
        ensures
            r == self.length(),
    {
        self.duration
    }

    /// Distance between the starts of consecutive windows.
    pub fn step(&self) -> (r: Double)
        ensures
            r == self.stride(),
    {
        self.step
    }
}

} // verus!
