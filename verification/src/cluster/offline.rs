//! Clustering of a batch of embeddings.

use vstd::prelude::*;
use crate::cluster::agglomerative;
use crate::cluster::agglomerative::{affinity, is_answer};
use crate::cluster::error::Error;
use crate::cluster::options::{is_valid_threshold, valid_threshold, Linkage, OfflineClusterOptions, OfflineMethod, MAX_OFFLINE_INPUT};
use crate::cluster::spectral;
use crate::cluster::spectral::{affinities, has_isolated, is_decomposition, is_eigen_answer, Eigen};
use crate::embed::options::{EMBEDDING_DIM, NORM_EPSILON};
use crate::embed::types::{norm_epsilon, norm_from, norm_of, Embedding};
use crate::float::{Double, Single};
use crate::matrix::DoubleMatrix;

verus! {

/// All components are finite.
pub open spec fn is_finite(e: Embedding) -> bool {
    forall|x: int| 0 <= x < EMBEDDING_DIM ==> (#[trigger] e.components()[x]).finite()
}

/// What is wrong with an embedding.
pub open spec fn embedding_error(e: Embedding) -> Option<Error> {
    if !is_finite(e) {
        Some(Error::NonFiniteInput)
    } else if norm_from(Double::zero_spec(), e.components()).below(norm_epsilon()) {
        Some(Error::DegenerateEmbedding)
    } else {
        None
    }
}

/// What is wrong with the first of the embeddings from `i` on that has a fault.
pub open spec fn first_error(embeddings: Seq<Embedding>, i: nat) -> Option<Error>
    decreases embeddings.len() - i,
{
    if i >= embeddings.len() {
        None
    } else if embedding_error(embeddings[i as int]) is Some {
        embedding_error(embeddings[i as int])
    } else {
        first_error(embeddings, i + 1)
    }
}

/// What is wrong with a batch: its size, an embedding, or the target.
pub open spec fn input_error(embeddings: Seq<Embedding>, target: Option<u32>) -> Option<Error> {
    if embeddings.len() == 0 {
        Some(Error::EmptyInput)
    } else if embeddings.len() > MAX_OFFLINE_INPUT {
        Some(Error::InputTooLarge { n: embeddings.len() as usize, limit: MAX_OFFLINE_INPUT })
    } else if first_error(embeddings, 0) is Some {
        first_error(embeddings, 0)
    } else if target is Some && target->0 < 1 {
        Some(Error::TargetTooSmall)
    } else if target is Some && target->0 > embeddings.len() {
        Some(Error::TargetExceedsInput { target: target->0, n: embeddings.len() as usize })
    } else {
        None
    }
}

/// Finds what is wrong with an embedding.
fn check_embedding(e: &Embedding) -> (r: Result<(), Error>)
    ensures
        match embedding_error(*e) {
            Some(error) => r == Err::<(), Error>(error),
            None => r is Ok,
        },
{
    let components: &[Single; EMBEDDING_DIM] = e.as_array();
    let mut x: usize = 0;
    while x < EMBEDDING_DIM
        invariant
            components@ == e.components(),
            components@.len() == EMBEDDING_DIM,
            x <= EMBEDDING_DIM,
            forall|y: int| 0 <= y < x ==> (#[trigger] e.components()[y]).finite(),
        decreases EMBEDDING_DIM - x,
    {
        if !components[x].is_finite() {
            proof {
                assert(!e.components()[x as int].finite());
            }
            return Err(Error::NonFiniteInput);
        }
        x = x + 1;
    }
    if norm_of(Double::zero(), components).lt(Single::from_bits(NORM_EPSILON)) {
        return Err(Error::DegenerateEmbedding);
    }
    Ok(())
}

/// Checks a batch and returns its size.
pub fn validate_offline_input(embeddings: &[Embedding], target_speakers: Option<u32>) -> (r: Result<
    usize,
    Error,
>)
    ensures
        match input_error(embeddings@, target_speakers) {
            Some(error) => r == Err::<usize, Error>(error),
            None => r == Ok::<usize, Error>(embeddings.len()),
        },
{
    let n: usize = embeddings.len();
    if n == 0 {
        return Err(Error::EmptyInput);
    }
    if n > MAX_OFFLINE_INPUT {
        return Err(Error::InputTooLarge { n, limit: MAX_OFFLINE_INPUT });
    }
    let mut i: usize = 0;
    while i < n
        invariant
            n == embeddings.len(),
            0 < n <= MAX_OFFLINE_INPUT,
            i <= n,
            first_error(embeddings@, 0) == first_error(embeddings@, i as nat),
        decreases n - i,
    {
        match check_embedding(&embeddings[i]) {
            Ok(()) => {},
            Err(e) => {
                return Err(e);
            },
        }
        i = i + 1;
    }
    if let Some(k) = target_speakers {
        if k < 1 {
            return Err(Error::TargetTooSmall);
        }
        if (k as usize) > n {
            return Err(Error::TargetExceedsInput { target: k, n });
        }
    }
    Ok(n)
}

/// The labels of two embeddings: the target decides, or else whether they are at
/// least as similar as the threshold.
pub open spec fn pair_labels(
    embeddings: Seq<Embedding>,
    opts: OfflineClusterOptions,
) -> Seq<u64> {
    if opts.target() == Some(2u32) {
        seq![0u64, 1u64]
    } else if opts.target() == Some(1u32) {
        seq![0u64, 0u64]
    } else if opts.threshold().at_most(affinity(embeddings[0], embeddings[1])) {
        seq![0u64, 0u64]
    } else {
        seq![0u64, 1u64]
    }
}

/// What clustering three or more embeddings gives. Spectral clustering falls back to
/// merging by average linkage where an embedding is similar to no other.
pub open spec fn is_batch_answer<F: Fn(&DoubleMatrix) -> Eigen>(
    r: Result<Vec<u64>, Error>,
    embeddings: Seq<Embedding>,
    opts: OfflineClusterOptions,
    decompose: F,
) -> bool {
    match opts.how() {
        OfflineMethod::Agglomerative { linkage } => {
            r is Ok && is_answer(r->Ok_0@, embeddings, linkage, opts)
        },
        OfflineMethod::Spectral => if has_isolated(affinities(embeddings)) {
            r is Ok && is_answer(r->Ok_0@, embeddings, Linkage::Average, opts)
        } else {
            exists|eigen: Eigen| #[trigger]
                is_decomposition(decompose, embeddings, eigen) && is_eigen_answer(r, eigen, opts)
        },
    }
}

/// Gives each embedding the label of its speaker. `decompose` finds the eigenvalues
/// and eigenvectors of a symmetric matrix.
pub fn cluster_offline<F: Fn(&DoubleMatrix) -> Eigen>(
    embeddings: &[Embedding],
    opts: &OfflineClusterOptions,
    decompose: F,
) -> (r: Result<Vec<u64>, Error>)
    requires
        forall|l: &DoubleMatrix|
            l.height() == embeddings.len() && l.width() == embeddings.len()
                ==> #[trigger] call_requires(decompose, (l,)),
        forall|l: &DoubleMatrix, eigen: Eigen| #[trigger]
            call_ensures(decompose, (l,), eigen) ==> eigen.has_size(l.height()),
    ensures
        match input_error(embeddings@, opts.target()) {
            Some(error) => r == Err::<Vec<u64>, Error>(error),
            None => if !valid_threshold(opts.threshold()) {
                r == Err::<Vec<u64>, Error>(Error::InvalidSimilarityThreshold(opts.threshold()))
            } else if embeddings@.len() == 1 {
                r is Ok && r->Ok_0@ == seq![0u64]
            } else if embeddings@.len() == 2 {
                r is Ok && r->Ok_0@ == pair_labels(embeddings@, *opts)
            } else {
                is_batch_answer(r, embeddings@, *opts, decompose)
            },
        },
{
    let n: usize = match validate_offline_input(embeddings, opts.target_speakers()) {
        Ok(n) => n,
        Err(e) => {
            return Err(e);
        },
    };
    let t: Single = opts.similarity_threshold();
    if !is_valid_threshold(t) {
        return Err(Error::InvalidSimilarityThreshold(t));
    }
    if n == 1 {
        let labels: Vec<u64> = vec![0];
        proof {
            assert(labels@ =~= seq![0u64]);
        }
        return Ok(labels);
    }
    if n == 2 {
        let sim: Single = embeddings[0].similarity(&embeddings[1]).max(Single::zero());
        let together: bool = match opts.target_speakers() {
            Some(k) => if k == 2 {
                false
            } else if k == 1 {
                true
            } else {
                sim.ge(t)
            },
            None => sim.ge(t),
        };
        let labels: Vec<u64> = if together {
            vec![0, 0]
        } else {
            vec![0, 1]
        };
        proof {
            assert(labels@ =~= pair_labels(embeddings@, *opts));
        }
        return Ok(labels);
    }
    proof {
        assert(n * n <= 1_000_000) by (nonlinear_arith)
            requires
                n <= 1_000,
        ;
    }
    match opts.method() {
        OfflineMethod::Agglomerative { linkage } => agglomerative::cluster(
            embeddings,
            linkage,
            opts,
        ),
        OfflineMethod::Spectral => {
            let r: Result<Vec<u64>, Error> = spectral::cluster(embeddings, opts, decompose);
            if let Err(Error::AllDissimilar) = r {
                return agglomerative::cluster(embeddings, Linkage::Average, opts);
            }
            r
        },
    }
}

} // verus!
