//! What an input that passes the checks holds, in every place.

use vstd::prelude::*;
use crate::aggregate::count::{count_error, positive};
use crate::aggregate::hamming::hamming_error;
use crate::cluster::ahc::algo::{ahc_error, flat_row, rows_fault as linked_rows_fault, squared_norm};
use crate::cluster::centroid::algo::{centroid_error, is_ambiguous};
use crate::cluster::centroid::alive_laws::law_first_ambiguous_prior_is_reported;
use crate::cluster::hungarian::lsap::assignment_error;
use crate::cluster::input_laws::law_first_faulty_embedding_is_reported;
use crate::cluster::offline::input_error;
use crate::cluster::vbx::check::{entry_fault, phi_fault, row_fault, rows_fault, vbx_error};
use crate::embed::fbank::clip_error;
use crate::embed::options::{EMBEDDING_DIM, MIN_CLIP_SAMPLES};
use crate::embed::types::{norm_epsilon, norm_from, Embedding};
use crate::float::arith::law_rank_orders_values;
use crate::float::double::{binary64, lemma_double_format};
use crate::float::{Double, Single};
use crate::matrix::{row, DoubleMatrix, Grid};
use crate::offline::input::{input_error as offline_error, OfflineInput, MAX_COUNT_PER_FRAME};
use crate::window::SlidingWindow;

verus! {

/// A positive number is finite and above zero.
pub proof fn law_positive_is_above_zero(x: Double)
    ensures
        positive(x) <==> x.finite() && x.units() > 0,
{
    lemma_double_format();
    crate::float::arith::lemma_zero_units(53);
    law_rank_orders_values(binary64(), Double::zero_spec().num(), x.num());
}

/// An aggregation that is accepted has all its values, every one finite, and positive
/// steps.
pub proof fn law_accepted_aggregation_is_sound(
    values: Seq<Double>,
    num_chunks: nat,
    num_frames_per_chunk: nat,
    chunk_step: Double,
    frame_step: Double,
    num_output_frames: nat,
)
    requires
        hamming_error(
            values,
            num_chunks,
            num_frames_per_chunk,
            chunk_step,
            frame_step,
            num_output_frames,
        ) is None,
    ensures
        num_chunks >= 1,
        num_frames_per_chunk >= 2,
        values.len() == num_chunks * num_frames_per_chunk,
        forall|i: int| 0 <= i < values.len() ==> (#[trigger] values[i]).finite(),
        chunk_step.finite() && chunk_step.units() > 0,
        frame_step.finite() && frame_step.units() > 0,
        num_output_frames >= 1,
{
    law_positive_is_above_zero(chunk_step);
    law_positive_is_above_zero(frame_step);
}

/// A count that is accepted has all its scores, every one finite, and positive steps.
pub proof fn law_accepted_count_is_sound(
    segmentations: Seq<Double>,
    num_chunks: nat,
    num_frames_per_chunk: nat,
    num_speakers: nat,
    onset: Double,
    chunks_sw: SlidingWindow,
    frames_sw: SlidingWindow,
)
    requires
        count_error(
            segmentations,
            num_chunks,
            num_frames_per_chunk,
            num_speakers,
            onset,
            chunks_sw,
            frames_sw,
        ) is None,
    ensures
        num_chunks >= 1 && num_frames_per_chunk >= 1 && num_speakers >= 1,
        segmentations.len() == num_chunks * num_frames_per_chunk * num_speakers,
        forall|i: int| 0 <= i < segmentations.len() ==> (#[trigger] segmentations[i]).finite(),
        onset.finite(),
        chunks_sw.stride().finite() && chunks_sw.stride().units() > 0,
        frames_sw.stride().finite() && frames_sw.stride().units() > 0,
{
    law_positive_is_above_zero(chunks_sw.stride());
    law_positive_is_above_zero(frames_sw.stride());
}

/// A clip is accepted if and only if it is long enough and every sample is finite.
pub proof fn law_accepted_clip_is_sound(samples: Seq<Single>)
    ensures
        clip_error(samples) is None <==> samples.len() >= MIN_CLIP_SAMPLES && forall|i: int|
            0 <= i < samples.len() ==> (#[trigger] samples[i]).finite(),
{
}

proof fn lemma_phi_sound(phi: Seq<Double>, n: nat)
    requires
        n <= phi.len(),
    ensures
        phi_fault(phi, n) is None <==> forall|d: int|
            0 <= d < n ==> (#[trigger] phi[d]).finite() && phi[d].units() > 0,
    decreases n,
{
    if n > 0 {
        lemma_phi_sound(phi, (n - 1) as nat);
        law_positive_is_above_zero(phi[n - 1]);
    }
}

proof fn lemma_entries_sound(entries: Seq<Double>, n: nat)
    requires
        n <= entries.len(),
    ensures
        entry_fault(entries, n) is None <==> forall|s: int|
            0 <= s < n ==> (#[trigger] entries[s]).finite() && entries[s].units() >= 0,
    decreases n,
{
    if n > 0 {
        lemma_entries_sound(entries, (n - 1) as nat);
        lemma_double_format();
        crate::float::arith::lemma_zero_units(53);
        law_rank_orders_values(binary64(), entries[n - 1].num(), Double::zero_spec().num());
    }
}

proof fn lemma_rows_sound(qinit: DoubleMatrix, n: nat)
    requires
        rows_fault(qinit, n) is None,
    ensures
        forall|t: int| 0 <= t < n ==> row_fault(#[trigger] row(qinit@, t)) is None,
    decreases n,
{
    if n > 0 {
        lemma_rows_sound(qinit, (n - 1) as nat);
    }
}

/// A clustering problem that is accepted has positive eigenvalues, finite features and
/// responsibilities that are finite and not negative, all of them.
pub proof fn law_accepted_problem_is_sound(
    x: DoubleMatrix,
    phi: Seq<Double>,
    qinit: DoubleMatrix,
    fa: Double,
    fb: Double,
    max_iters: nat,
    t: int,
    s: int,
)
    requires
        vbx_error(x, phi, qinit, fa, fb, max_iters) is None,
        0 <= t < qinit.height(),
        0 <= s < qinit.width(),
    ensures
        phi.len() == x.width(),
        qinit.height() == x.height(),
        forall|d: int| 0 <= d < phi.len() ==> (#[trigger] phi[d]).finite() && phi[d].units() > 0,
        forall|i: int| 0 <= i < x.row_major().len() ==> (#[trigger] x.row_major()[i]).finite(),
        qinit@.at(t, s).finite(),
        qinit@.at(t, s).units() >= 0,
        fa.finite() && fa.units() > 0,
        fb.finite() && fb.units() > 0,
        max_iters >= 1,
{
    law_positive_is_above_zero(fa);
    law_positive_is_above_zero(fb);
    lemma_phi_sound(phi, phi.len());
    lemma_rows_sound(qinit, qinit.height());
    let entries = row(qinit@, t);
    assert(row_fault(entries) is None);
    lemma_entries_sound(entries, entries.len());
    assert(entries[s].finite());
}

proof fn lemma_linked_rows_sound(values: Seq<Double>, d: nat, n: nat, r: int)
    requires
        linked_rows_fault(values, d, n) is None,
        0 <= r < n,
    ensures
        crate::cluster::ahc::algo::row_fault(flat_row(values, d, r)) is None,
    decreases n,
{
    if r < n - 1 {
        lemma_linked_rows_sound(values, d, (n - 1) as nat, r);
    }
}

/// Rows that are accepted for linking are finite in every component, and none is zero.
pub proof fn law_accepted_rows_are_sound(
    embeddings: Seq<Double>,
    n: nat,
    d: nat,
    threshold: Double,
    r: int,
    j: int,
)
    requires
        ahc_error(embeddings, n, d, threshold) is None,
        0 <= r < n,
        0 <= j < d,
    ensures
        embeddings.len() == n * d,
        embeddings[r * d + j].finite(),
        squared_norm(flat_row(embeddings, d, r)).finite(),
        squared_norm(flat_row(embeddings, d, r)).units() != 0,
        threshold.finite() && threshold.units() > 0,
{
    law_positive_is_above_zero(threshold);
    lemma_linked_rows_sound(embeddings, d, n, r);
    let own = flat_row(embeddings, d, r);
    assert(own[j].finite());
    lemma_double_format();
    crate::float::arith::lemma_zero_units(53);
    law_rank_orders_values(binary64(), squared_norm(own).num(), Double::zero_spec().num());
}

/// A centroid problem that is accepted is finite in every place, and no prior is
/// ambiguous.
pub proof fn law_accepted_weights_are_sound(
    q: Grid,
    sp: Seq<Double>,
    embeddings: Seq<Double>,
    n: nat,
    dim: nat,
    threshold: Double,
)
    requires
        centroid_error(q, sp, embeddings, n, dim, threshold) is None,
        sp.len() <= usize::MAX,
    ensures
        sp.len() == q.width,
        n == q.height,
        embeddings.len() == n * dim,
        forall|i: int| 0 <= i < q.cells.len() ==> (#[trigger] q.cells[i]).finite(),
        forall|k: int| 0 <= k < sp.len() ==> (#[trigger] sp[k]).finite(),
        forall|k: int| 0 <= k < sp.len() ==> !is_ambiguous(#[trigger] sp[k], threshold),
        forall|i: int| 0 <= i < embeddings.len() ==> (#[trigger] embeddings[i]).finite(),
{
    law_first_ambiguous_prior_is_reported(sp, threshold, 0);
}

/// Costs that are accepted for an assignment are all there, and every one finite.
pub proof fn law_accepted_costs_are_sound(cost: Seq<Double>, nr: int, nc: int)
    ensures
        assignment_error(cost, nr, nc) is None <==> nr != 0 && nc != 0 && cost.len() == nr * nc && (
        forall|i: int| 0 <= i < cost.len() ==> (#[trigger] cost[i]).finite()),
{
}

/// A batch that is accepted is finite in every component of every embedding, and no
/// embedding is negligible.
pub proof fn law_accepted_batch_is_sound(
    embeddings: Seq<Embedding>,
    target: Option<u32>,
    i: int,
    x: int,
)
    requires
        input_error(embeddings, target) is None,
        0 <= i < embeddings.len(),
        0 <= x < EMBEDDING_DIM,
    ensures
        embeddings[i].components()[x].finite(),
        !norm_from(Double::zero_spec(), embeddings[i].components()).below(norm_epsilon()),
        target is Some ==> 1 <= target->0 <= embeddings.len(),
{
    law_first_faulty_embedding_is_reported(embeddings, 0);
    assert(crate::cluster::offline::embedding_error(embeddings[i]) is None);
}

/// An offline input that is accepted has all its embeddings and scores, and no count is
/// above the most.
pub proof fn law_accepted_offline_input_is_sound<P, A, R>(input: OfflineInput)
    requires
        offline_error::<P, A, R>(input) is None,
    ensures
        input.num_chunks >= 1 && input.num_speakers >= 1 && input.num_frames_per_chunk >= 1,
        input.raw_embeddings@.len() == input.num_chunks * input.num_speakers * EMBEDDING_DIM,
        input.segmentations@.len() == input.num_chunks * input.num_frames_per_chunk
            * input.num_speakers,
        input.count@.len() == input.num_output_frames,
        forall|t: int|
            0 <= t < input.count@.len() ==> #[trigger] input.count@[t] <= MAX_COUNT_PER_FRAME,
{
}

} // verus!
