//! Dimensions, limits and model options.

use vstd::prelude::*;

verus! {

/// Samples of one model window: two seconds at 16 kHz.
pub const EMBED_WINDOW_SAMPLES: u32 = 32_000;

/// Samples between windows of a long clip: half a window.
pub const HOP_SAMPLES: u32 = 16_000;

/// The shortest clip that has a feature frame.
pub const MIN_CLIP_SAMPLES: u32 = 400;

/// Mel bands of a feature frame.
pub const FBANK_NUM_MELS: usize = 80;

/// Feature frames of one model window.
pub const FBANK_FRAMES: usize = 200;

/// Components of an embedding.
pub const EMBEDDING_DIM: usize = 256;

/// The bit pattern of the single-precision number `1e-12`, the smallest norm
/// that is divided by.
pub const NORM_EPSILON: u32 = 0x2b8c_bccc;

/// Samples per second.
pub const SAMPLE_RATE_HZ: u32 = 16_000;

/// How far an inference session may rewrite its graph.
#[derive(Clone, Copy, Debug, PartialEq, Eq, Structural)]
pub enum OptimizationLevel {
    Disable,
    Level1,
    Level2,
    Level3,
}

/// Runtime configuration of an embedding model. `P` is an execution provider.
pub struct EmbedModelOptions<P> {
    optimization_level: OptimizationLevel,
    providers: Vec<P>,
    intra_threads: usize,
    inter_threads: usize,
}

/// What an [`EmbedModelOptions`] holds.
pub struct ModelSettings<P> {
    pub optimization_level: OptimizationLevel,
    pub providers: Seq<P>,
    pub intra_threads: usize,
    pub inter_threads: usize,
}

impl<P> View for EmbedModelOptions<P> {
    type V = ModelSettings<P>;

    closed spec fn view(&self) -> ModelSettings<P> {
        ModelSettings {
            optimization_level: self.optimization_level,
            providers: self.providers@,
            intra_threads: self.intra_threads,
            inter_threads: self.inter_threads,
        }
    }
}

/// No graph rewriting, the default providers and one thread of each kind: runs
/// repeat bit for bit.
pub open spec fn default_settings<P>() -> ModelSettings<P> {
    ModelSettings {
        optimization_level: OptimizationLevel::Disable,
        providers: Seq::empty(),
        intra_threads: 1,
        inter_threads: 1,
    }
}

impl<P> Default for EmbedModelOptions<P> {
    fn default() -> (r: Self)
        ensures
            r@ == default_settings::<P>(),
    {
        let r = EmbedModelOptions {
            optimization_level: OptimizationLevel::Disable,
            providers: Vec::new(),
            intra_threads: 1,
            inter_threads: 1,
        };
        proof {
            assert(r.providers@ =~= Seq::<P>::empty());
        }
        r
    }
}

impl<P> EmbedModelOptions<P> {
    /// The default options.
    pub fn new() -> (r: Self)
        ensures
            r@ == default_settings::<P>(),
    {
        EmbedModelOptions::default()
    }

    pub fn with_optimization_level(self, level: OptimizationLevel) -> (r: Self)
        ensures
            r@ == (ModelSettings { optimization_level: level, ..self@ }),
    {
        let mut r = self;
        r.optimization_level = level;
        r
    }

    /// Execution providers, the preferred one first.
    pub fn with_providers(self, providers: Vec<P>) -> (r: Self)
        ensures
            r@ == (ModelSettings { providers: providers@, ..self@ }),
    {
        let mut r = self;
        r.providers = providers;
        r
    }

    pub fn with_intra_threads(self, n: usize) -> (r: Self)
        ensures
            r@ == (ModelSettings { intra_threads: n, ..self@ }),
    {
        let mut r = self;
        r.intra_threads = n;
        r
    }

    pub fn with_inter_threads(self, n: usize) -> (r: Self)
        ensures
            r@ == (ModelSettings { inter_threads: n, ..self@ }),
    {
        let mut r = self;
        r.inter_threads = n;
        r
    }

    pub fn set_optimization_level(&mut self, level: OptimizationLevel) -> (r: &mut Self)
        ensures
            r@ == (ModelSettings { optimization_level: level, ..old(self)@ }),
            *final(self) == *final(r),
    {
        self.optimization_level = level;
        self
    }

    pub fn set_providers(&mut self, providers: Vec<P>) -> (r: &mut Self)
        ensures
            r@ == (ModelSettings { providers: providers@, ..old(self)@ }),
            *final(self) == *final(r),
    {
        self.providers = providers;
        self
    }

    pub fn set_intra_threads(&mut self, n: usize) -> (r: &mut Self)
        ensures
            r@ == (ModelSettings { intra_threads: n, ..old(self)@ }),
            *final(self) == *final(r),
    {
        self.intra_threads = n;
        self
    }

    pub fn set_inter_threads(&mut self, n: usize) -> (r: &mut Self)
        ensures
            r@ == (ModelSettings { inter_threads: n, ..old(self)@ }),
            *final(self) == *final(r),
    {
        self.inter_threads = n;
        self
    }

    /// Level, providers, threads within and across operators.
    pub fn into_parts(self) -> (r: (OptimizationLevel, Vec<P>, usize, usize))
        ensures
            r.0 == self@.optimization_level,
            r.1@ == self@.providers,
            r.2 == self@.intra_threads,
            r.3 == self@.inter_threads,
    {
        (self.optimization_level, self.providers, self.intra_threads, self.inter_threads)
    }
}

} // verus!
