//! Options of offline clustering.

use vstd::prelude::*;
use crate::float::Single;

verus! {

/// The most speakers that are found without a target.
pub const MAX_AUTO_SPEAKERS: u32 = 15;

/// The most embeddings that are clustered at once: every method works on a
/// dense matrix of all pairs.
pub const MAX_OFFLINE_INPUT: usize = 1_000;

/// The distance between two clusters.
#[derive(Clone, Copy, Debug, PartialEq, Eq, Structural)]
pub enum Linkage {
    /// Of their closest members.
    Single,
    /// Of their farthest members.
    Complete,
    /// The mean over all pairs of members.
    Average,
}

#[derive(Clone, Copy, Debug, PartialEq, Eq, Structural)]
pub enum OfflineMethod {
    /// Spectral clustering, which ignores the similarity threshold for three or
    /// more embeddings.
    Spectral,
    /// Bottom-up merging.
    Agglomerative { linkage: Linkage },
}

/// The bit pattern of the default threshold, one half.
pub const DEFAULT_SIMILARITY_THRESHOLD: u32 = 0x3f00_0000;

#[derive(Clone, Copy, Debug, PartialEq, Eq, Structural)]
pub struct OfflineClusterOptions {
    method: OfflineMethod,
    similarity_threshold: Single,
    target_speakers: Option<u32>,
    seed: Option<u64>,
}

/// A finite number from -1 to 1.
pub open spec fn valid_threshold(t: Single) -> bool {
    t.finite() && Single::one_spec().negated().at_most(t) && t.at_most(Single::one_spec())
}

pub fn is_valid_threshold(t: Single) -> (r: bool)
    ensures
        r == valid_threshold(t),
{
    t.is_finite() && Single::one().neg().le(t) && t.le(Single::one())
}

impl OfflineClusterOptions {
    pub closed spec fn how(self) -> OfflineMethod {
        self.method
    }

    pub closed spec fn threshold(self) -> Single {
        self.similarity_threshold
    }

    pub closed spec fn target(self) -> Option<u32> {
        self.target_speakers
    }

    pub closed spec fn chosen_seed(self) -> Option<u64> {
        self.seed
    }

    /// Options as they stand in a configuration, whose threshold nobody has
    /// looked at.
    pub fn from_parts(
        method: OfflineMethod,
        similarity_threshold: Single,
        target_speakers: Option<u32>,
        seed: Option<u64>,
    ) -> (r: Self)
        ensures
            r.how() == method,
            r.threshold() == similarity_threshold,
            r.target() == target_speakers,
            r.chosen_seed() == seed,
    {
        OfflineClusterOptions { method, similarity_threshold, target_speakers, seed }
    }

    pub fn with_method(self, method: OfflineMethod) -> (r: Self)
        ensures
            r.how() == method,
            r.threshold() == self.threshold(),
            r.target() == self.target(),
            r.chosen_seed() == self.chosen_seed(),
    {
        OfflineClusterOptions { method, ..self }
    }

    pub fn with_similarity_threshold(self, t: Single) -> (r: Self)
        requires
            valid_threshold(t),
        ensures
            r.how() == self.how(),
            r.threshold() == t,
            r.target() == self.target(),
            r.chosen_seed() == self.chosen_seed(),
    {
        OfflineClusterOptions { similarity_threshold: t, ..self }
    }

    /// Asks for exactly `k` speakers.
    pub fn with_target_speakers(self, k: u32) -> (r: Self)
        ensures
            r.how() == self.how(),
            r.threshold() == self.threshold(),
            r.target() == Some(k),
            r.chosen_seed() == self.chosen_seed(),
    {
        OfflineClusterOptions { target_speakers: Some(k), ..self }
    }

    /// Sets the seed of the random choices; without one it is zero.
    pub fn with_seed(self, seed: u64) -> (r: Self)
        ensures
            r.how() == self.how(),
            r.threshold() == self.threshold(),
            r.target() == self.target(),
            r.chosen_seed() == Some(seed),
    {
        OfflineClusterOptions { seed: Some(seed), ..self }
    }

    pub fn method(&self) -> (r: OfflineMethod)
        ensures
            r == self.how(),
    {
        self.method
    }

    pub fn similarity_threshold(&self) -> (r: Single)
        ensures
            r == self.threshold(),
    {
        self.similarity_threshold
    }

    pub fn target_speakers(&self) -> (r: Option<u32>)
        ensures
            r == self.target(),
    {
        self.target_speakers
    }

    pub fn seed(&self) -> (r: Option<u64>)
        ensures
            r == self.chosen_seed(),
    {
        self.seed
    }
}

impl Default for OfflineClusterOptions {
    fn default() -> (r: Self)
        ensures
            r.how() == OfflineMethod::Spectral,
            r.threshold() == (Single { bits: DEFAULT_SIMILARITY_THRESHOLD }),
            r.target() == None::<u32>,
            r.chosen_seed() == None::<u64>,
    {
        OfflineClusterOptions {
            method: OfflineMethod::Spectral,
            similarity_threshold: Single { bits: DEFAULT_SIMILARITY_THRESHOLD },
            target_speakers: None,
            seed: None,
        }
    }
}

} // verus!
