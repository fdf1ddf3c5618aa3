//! Embeddings, their similarity, and results with caller metadata.

use core::time::Duration;
use vstd::prelude::*;
use crate::embed::options::{EMBEDDING_DIM, NORM_EPSILON};
use crate::float::sums::{added, added_single, sum_single};
use crate::float::{Double, Single};

verus! {

/// A speaker embedding. [`Embedding::normalize_from`] makes one of unit length.
#[derive(Clone, Copy, Debug, PartialEq, Eq)]
pub struct Embedding(pub [Single; EMBEDDING_DIM]);

/// The products of the components of two vectors.
pub open spec fn products(a: Seq<Single>, b: Seq<Single>) -> Seq<Single> {
    Seq::new(a.len(), |i: int| a[i].times(b[i]))
}

/// The dot product, in single precision and in component order.
pub open spec fn dot(a: Seq<Single>, b: Seq<Single>) -> Single {
    sum_single(products(a, b))
}

/// The squares of all components, in double precision.
pub open spec fn squares(a: Seq<Single>) -> Seq<Double> {
    Seq::new(a.len(), |i: int| a[i].widened().times(a[i].widened()))
}

/// The length of a vector: squares added up from `start` in double precision,
/// the root of the sum rounded to single precision.
pub open spec fn norm_from(start: Double, a: Seq<Single>) -> Single {
    added(start, squares(a), a.len()).root().narrowed()
}

/// The length of a vector.
pub open spec fn norm(a: Seq<Single>) -> Single {
    norm_from(Double::minus_zero_spec(), a)
}

pub open spec fn norm_epsilon() -> Single {
    Single { bits: NORM_EPSILON }
}

/// A vector has a direction that division by its norm brings out.
pub open spec fn has_direction(a: Seq<Single>) -> bool {
    norm(a).finite() && !norm(a).below(norm_epsilon())
}

/// Each component divided by the norm.
pub open spec fn direction(a: Seq<Single>) -> Seq<Single> {
    Seq::new(a.len(), |i: int| a[i].over(norm(a)))
}

/// The norm, with the squares added onto `start`.
pub fn norm_of(start: Double, a: &[Single; EMBEDDING_DIM]) -> (r: Single)
    ensures
        r == norm_from(start, a@),
{
    let mut total: Double = start;
    let mut i: usize = 0;
    while i < EMBEDDING_DIM
        invariant
            i <= EMBEDDING_DIM,
            a@.len() == EMBEDDING_DIM,
            total == added(start, squares(a@), i as nat),
        decreases EMBEDDING_DIM - i,
    {
        let x: Double = a[i].to_double();
        total = total.add(x.mul(x));
        i = i + 1;
    }
    total.sqrt().to_single()
}

impl Embedding {
    /// The components.
    pub open spec fn components(&self) -> Seq<Single> {
        self.0@
    }

    /// The components.
    pub fn as_array(&self) -> (r: &[Single; EMBEDDING_DIM])
        ensures
            r@ == self.components(),
    {
        &self.0
    }

    /// The components.
    pub fn as_slice(&self) -> (r: &[Single])
        ensures
            r@ == self.components(),
    {
        self.0.as_slice()
    }

    /// Cosine similarity, which for unit vectors is the dot product.
    pub fn similarity(&self, other: &Embedding) -> (r: Single)
        ensures
            r == dot(self.components(), other.components()),
    {
        let mut total: Single = Single::minus_zero();
        let mut i: usize = 0;
        while i < EMBEDDING_DIM
            invariant
                i <= EMBEDDING_DIM,
                self.0@.len() == EMBEDDING_DIM,
                other.0@.len() == EMBEDDING_DIM,
                total == added_single(
                    Single::minus_zero_spec(),
                    products(self.components(), other.components()),
                    i as nat,
                ),
            decreases EMBEDDING_DIM - i,
        {
            total = total.add(self.0[i].mul(other.0[i]));
            i = i + 1;
        }
        total
    }

    /// Divides a vector by its norm. `None` where the norm is not finite, as it is
    /// for any NaN or infinite component, or too small to divide by.
    pub fn normalize_from(raw: [Single; EMBEDDING_DIM]) -> (r: Option<Embedding>)
        ensures
            r is Some <==> has_direction(raw@),
            r is Some ==> r->0.components() == direction(raw@),
    {
        let n: Single = norm_of(Double::minus_zero(), &raw);
        if !n.is_finite() || n.lt(Single::from_bits(NORM_EPSILON)) {
            return None;
        }
        let mut out: [Single; EMBEDDING_DIM] = [Single::zero(); EMBEDDING_DIM];
        let mut i: usize = 0;
        while i < EMBEDDING_DIM
            invariant
                i <= EMBEDDING_DIM,
                raw@.len() == EMBEDDING_DIM,
                out@.len() == EMBEDDING_DIM,
                n == norm(raw@),
                forall|j: int| 0 <= j < i ==> #[trigger] out@[j] == direction(raw@)[j],
            decreases EMBEDDING_DIM - i,
        {
            out[i] = raw[i].div(n);
            i = i + 1;
        }
        proof {
            assert(out@ =~= direction(raw@));
        }
        Some(Embedding(out))
    }
}

/// [`Embedding::similarity`] as a function of two embeddings.
pub fn cosine_similarity(a: &Embedding, b: &Embedding) -> (r: Single)
    ensures
        r == dot(a.components(), b.components()),
{
    a.similarity(b)
}

/// Caller metadata that travels with an embedding.
#[derive(Debug, PartialEq)]
pub struct EmbeddingMeta<A = (), T = ()> {
    audio_id: A,
    track_id: T,
    correlation_id: Option<u64>,
}

impl<A: Clone, T: Clone> Clone for EmbeddingMeta<A, T> {
    fn clone(&self) -> (r: Self)
        ensures
            cloned(self.audio(), r.audio()),
            cloned(self.track(), r.track()),
            r.correlation() == self.correlation(),
    {
        EmbeddingMeta {
            audio_id: self.audio_id.clone(),
            track_id: self.track_id.clone(),
            correlation_id: self.correlation_id,
        }
    }
}

impl<A, T> EmbeddingMeta<A, T> {
    pub closed spec fn audio(&self) -> A {
        self.audio_id
    }

    pub closed spec fn track(&self) -> T {
        self.track_id
    }

    pub closed spec fn correlation(&self) -> Option<u64> {
        self.correlation_id
    }

    pub fn new(audio_id: A, track_id: T) -> (r: Self)
        ensures
            r.audio() == audio_id,
            r.track() == track_id,
            r.correlation() == None::<u64>,
    {
        EmbeddingMeta { audio_id, track_id, correlation_id: None }
    }

    /// Attaches an id by which log entries are matched.
    pub fn with_correlation_id(self, id: u64) -> (r: Self)
        ensures
            r.audio() == self.audio(),
            r.track() == self.track(),
            r.correlation() == Some(id),
    {
        EmbeddingMeta {
            audio_id: self.audio_id,
            track_id: self.track_id,
            correlation_id: Some(id),
        }
    }

    pub fn audio_id(&self) -> (r: &A)
        ensures
            *r == self.audio(),
    {
        &self.audio_id
    }

    pub fn track_id(&self) -> (r: &T)
        ensures
            *r == self.track(),
    {
        &self.track_id
    }

    pub fn correlation_id(&self) -> (r: Option<u64>)
        ensures
            r == self.correlation(),
    {
        self.correlation_id
    }
}

impl<A: Default, T: Default> Default for EmbeddingMeta<A, T> {
    fn default() -> (r: Self)
        ensures
            call_ensures(A::default, (), r.audio()),
            call_ensures(T::default, (), r.track()),
            r.correlation() == None::<u64>,
    {
        EmbeddingMeta::new(A::default(), T::default())
    }
}

/// An embedding with what it was made from.
#[derive(Debug)]
pub struct EmbeddingResult<A = (), T = ()> {
    embedding: Embedding,
    source_duration: Duration,
    windows_used: u32,
    total_weight: Single,
    meta: EmbeddingMeta<A, T>,
}

impl<A: Clone, T: Clone> Clone for EmbeddingResult<A, T> {
    fn clone(&self) -> (r: Self)
        ensures
            r.vector() == self.vector(),
            r.duration() == self.duration(),
            r.windows() == self.windows(),
            r.weight() == self.weight(),
            cloned(self.metadata().audio(), r.metadata().audio()),
            cloned(self.metadata().track(), r.metadata().track()),
            r.metadata().correlation() == self.metadata().correlation(),
    {
        EmbeddingResult {
            embedding: self.embedding,
            source_duration: self.source_duration,
            windows_used: self.windows_used,
            total_weight: self.total_weight,
            meta: self.meta.clone(),
        }
    }
}

impl<A, T> EmbeddingResult<A, T> {
    pub closed spec fn vector(&self) -> Embedding {
        self.embedding
    }

    pub closed spec fn duration(&self) -> Duration {
        self.source_duration
    }

    pub closed spec fn windows(&self) -> u32 {
        self.windows_used
    }

    pub closed spec fn weight(&self) -> Single {
        self.total_weight
    }

    pub closed spec fn metadata(&self) -> EmbeddingMeta<A, T> {
        self.meta
    }

    /// `source_duration` is the length of the clip before it was padded or
    /// cropped, `windows_used` the number of windows averaged and `total_weight`
    /// the sum of their weights.
    pub fn new(
        embedding: Embedding,
        source_duration: Duration,
        windows_used: u32,
        total_weight: Single,
        meta: EmbeddingMeta<A, T>,
    ) -> (r: Self)
        ensures
            r.vector() == embedding,
            r.duration() == source_duration,
            r.windows() == windows_used,
            r.weight() == total_weight,
            r.metadata() == meta,
    {
        EmbeddingResult { embedding, source_duration, windows_used, total_weight, meta }
    }

    pub fn embedding(&self) -> (r: &Embedding)
        ensures
            *r == self.vector(),
    {
        &self.embedding
    }

    pub fn source_duration(&self) -> (r: Duration)
        ensures
            r == self.duration(),
    {
        self.source_duration
    }

    pub fn windows_used(&self) -> (r: u32)
        ensures
            r == self.windows(),
    {
        self.windows_used
    }

    pub fn total_weight(&self) -> (r: Single)
        ensures
            r == self.weight(),
    {
        self.total_weight
    }

    pub fn audio_id(&self) -> (r: &A)
        ensures
            *r == self.metadata().audio(),
    {
        self.meta.audio_id()
    }

    pub fn track_id(&self) -> (r: &T)
        ensures
            *r == self.metadata().track(),
    {
        self.meta.track_id()
    }

    pub fn correlation_id(&self) -> (r: Option<u64>)
        ensures
            r == self.metadata().correlation(),
    {
        self.meta.correlation_id()
    }
}

} // verus!
