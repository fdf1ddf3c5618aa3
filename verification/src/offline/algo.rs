//! The offline flow.

use vstd::prelude::*;
use crate::cluster::hungarian::layout::{ChunkAssignment, MAX_SPEAKER_SLOTS};
use crate::embed::options::EMBEDDING_DIM;
use crate::float::{Double, Single};
use crate::offline::filter::{filter_embeddings, is_pair_list, ScoreGrid};
use crate::offline::input::{check_input, input_error, Error, OfflineInput, OfflineOutput, ReconstructError, ShapeError};
use crate::shared::share;
use crate::window::SlidingWindow;

verus! {

/// What the assignment stage is handed.
pub struct AssignRequest<'b> {
    /// All embeddings, `[chunk][speaker][component]`.
    pub embeddings: &'b [Double],
    pub embed_dim: usize,
    pub num_chunks: usize,
    pub num_speakers: usize,
    pub segmentations: &'b [Double],
    pub num_frames_per_chunk: usize,
    /// Projections of the training pairs, one row each.
    pub post_plda: &'b [Double],
    pub plda_dim: usize,
    pub phi: &'b [Double],
    pub train_chunk_idx: &'b [usize],
    pub train_speaker_idx: &'b [usize],
    pub threshold: Double,
    pub fa: Double,
    pub fb: Double,
    pub max_iters: usize,
}

/// What the reconstruction stage is handed.
pub struct ReconstructRequest<'b> {
    pub segmentations: &'b [Double],
    pub num_chunks: usize,
    pub num_frames_per_chunk: usize,
    pub num_speakers: usize,
    pub hard_clusters: &'b [ChunkAssignment],
    pub count: &'b [u8],
    pub num_output_frames: usize,
    pub chunks_sw: SlidingWindow,
    pub frames_sw: SlidingWindow,
    pub smoothing_epsilon: Option<Single>,
}

/// What the span stage is handed.
pub struct SpansRequest<'b> {
    /// The binary frame grid, `[frame][cluster]`.
    pub grid: &'b [Single],
    pub num_frames: usize,
    pub num_clusters: usize,
    pub frames_sw: SlidingWindow,
    pub min_duration_off: Double,
}

/// The training pairs of an input.
pub open spec fn training_pairs(input: OfflineInput) -> Seq<(int, int)> {
    (ScoreGrid {
        scores: input.segmentations@,
        frames_per_chunk: input.num_frames_per_chunk as nat,
        speakers: input.num_speakers as nat,
    }).pairs(input.num_chunks as nat)
}

/// The raw embedding of speaker `s` in chunk `c`.
pub open spec fn raw_embedding(input: OfflineInput, c: int, s: int) -> Seq<Single> {
    let base = (c * input.num_speakers + s) * EMBEDDING_DIM;
    input.raw_embeddings@.subrange(base, base + EMBEDDING_DIM)
}

/// All embeddings in double precision.
pub open spec fn widened(raw: Seq<Single>) -> Seq<Double> {
    Seq::new(raw.len(), |i: int| raw[i].widened())
}

/// The largest label of a chunk's first `n` slots and of `before`.
pub open spec fn largest_in(row: ChunkAssignment, n: nat, before: int) -> int
    decreases n,
{
    if n == 0 {
        before
    } else {
        let m = largest_in(row, (n - 1) as nat, before);
        if row@[n - 1] > m { row@[n - 1] as int } else { m }
    }
}

/// The largest label of all chunks, at least -1.
pub open spec fn largest_label(rows: Seq<ChunkAssignment>) -> int
    decreases rows.len(),
{
    if rows.len() == 0 {
        -1
    } else {
        largest_in(rows.last(), MAX_SPEAKER_SLOTS as nat, largest_label(rows.drop_last()))
    }
}

/// The largest count, at least 0.
pub open spec fn largest_count(count: Seq<u8>) -> int
    decreases count.len(),
{
    if count.len() == 0 {
        0
    } else {
        let m = largest_count(count.drop_last());
        if count.last() > m { count.last() as int } else { m }
    }
}

/// The columns of the frame grid: enough for every label and every count, and at
/// least one.
pub open spec fn grid_clusters(rows: Seq<ChunkAssignment>, count: Seq<u8>) -> int {
    let from_labels = largest_label(rows) + 1;
    let from_count = if largest_count(count) > 1 { largest_count(count) } else { 1 };
    if from_labels > from_count { from_labels } else { from_count }
}

/// The number of columns that the frame grid needs.
pub fn count_clusters(hard_clusters: &[ChunkAssignment], count: &[u8]) -> (r: usize)
    ensures
        r == grid_clusters(hard_clusters@, count@),
{
    let mut label: i64 = -1;
    let mut i: usize = 0;
    while i < hard_clusters.len()
        invariant
            i <= hard_clusters.len(),
            label == largest_label(hard_clusters@.take(i as int)),
            -1 <= label <= i32::MAX,
        decreases hard_clusters.len() - i,
    {
        let row: ChunkAssignment = hard_clusters[i];
        proof {
            assert(hard_clusters@.take(i + 1).drop_last() =~= hard_clusters@.take(i as int));
            assert(hard_clusters@.take(i + 1).last() == row);
        }
        let ghost before = label as int;
        let mut s: usize = 0;
        while s < MAX_SPEAKER_SLOTS
            invariant
                s <= MAX_SPEAKER_SLOTS,
                label == largest_in(row, s as nat, before),
                -1 <= label <= i32::MAX,
            decreases MAX_SPEAKER_SLOTS - s,
        {
            if row[s] as i64 > label {
                label = row[s] as i64;
            }
            s = s + 1;
        }
        i = i + 1;
    }
    let mut most: u8 = 0;
    let mut t: usize = 0;
    while t < count.len()
        invariant
            t <= count.len(),
            most == largest_count(count@.take(t as int)),
        decreases count.len() - t,
    {
        proof {
            assert(count@.take(t + 1).drop_last() =~= count@.take(t as int));
        }
        if count[t] > most {
            most = count[t];
        }
        t = t + 1;
    }
    proof {
        assert(hard_clusters@.take(i as int) =~= hard_clusters@);
        assert(count@.take(t as int) =~= count@);
    }
    let from_labels: usize = (label + 1) as usize;
    let from_count: usize = if most > 1 { most as usize } else { 1 };
    if from_labels > from_count {
        from_labels
    } else {
        from_count
    }
}

/// All raw embeddings in double precision.
fn widen(raw: &[Single]) -> (r: Vec<Double>)
    ensures
        r@ == widened(raw@),
{
    let mut r: Vec<Double> = Vec::with_capacity(raw.len());
    while r.len() < raw.len()
        invariant
            r.len() <= raw.len(),
            forall|i: int| 0 <= i < r.len() ==> #[trigger] r@[i] == raw@[i].widened(),
        decreases raw.len() - r.len(),
    {
        r.push(raw[r.len()].to_double());
    }
    proof {
        assert(r@ =~= widened(raw@));
    }
    r
}

/// The projection gives, for the first `n` training pairs in order, the rows of
/// `rows`.
pub open spec fn projected<P, FP: Fn(&[Single]) -> Result<Vec<Double>, P>>(
    input: OfflineInput,
    project: FP,
    plda_dim: nat,
    n: int,
    rows: Seq<Double>,
) -> bool {
    &&& rows.len() == n * plda_dim
    &&& forall|i: int|
        0 <= i < n ==> #[trigger] projects_to(
            input,
            project,
            i,
            rows.subrange(i * plda_dim, i * plda_dim + plda_dim),
        )
}

/// The projection may give `row` for the `i`-th training pair.
pub open spec fn projects_to<P, FP: Fn(&[Single]) -> Result<Vec<Double>, P>>(
    input: OfflineInput,
    project: FP,
    i: int,
    row: Seq<Double>,
) -> bool {
    let (c, s) = training_pairs(input)[i];
    exists|raw: &[Single], out: Vec<Double>| #[trigger]
        call_ensures(project, (raw,), Ok::<Vec<Double>, P>(out)) && raw@ == raw_embedding(
            input,
            c,
            s,
        ) && out@ == row
}

/// The projection may give some row for each of the first `n` training pairs.
pub open spec fn projects_before<P, FP: Fn(&[Single]) -> Result<Vec<Double>, P>>(
    input: OfflineInput,
    project: FP,
    plda_dim: nat,
    n: int,
) -> bool {
    exists|rows: Seq<Double>| #[trigger] projected(input, project, plda_dim, n, rows)
}

/// The projection may fail with `e` on the `i`-th training pair.
pub open spec fn fails_on<P, FP: Fn(&[Single]) -> Result<Vec<Double>, P>>(
    input: OfflineInput,
    project: FP,
    i: int,
    e: P,
) -> bool {
    let (c, s) = training_pairs(input)[i];
    exists|raw: &[Single]| #[trigger]
        call_ensures(project, (raw,), Err::<Vec<Double>, P>(e)) && raw@ == raw_embedding(
            input,
            c,
            s,
        )
}

/// A training pair's embedding lies inside the raw embeddings.
proof fn lemma_embedding_range(c: int, s: int, chunks: int, speakers: int)
    requires
        0 <= c < chunks,
        0 <= s < speakers,
    ensures
        0 <= c * speakers,
        0 <= c * speakers + s,
        0 <= (c * speakers + s) * EMBEDDING_DIM,
        (c * speakers + s) * EMBEDDING_DIM + EMBEDDING_DIM <= chunks * speakers * EMBEDDING_DIM,
        c * speakers + s < chunks * speakers,
        chunks * speakers <= chunks * speakers * EMBEDDING_DIM,
{
    assert(0 <= c * speakers && c * speakers + speakers <= chunks * speakers) by (nonlinear_arith)
        requires
            0 <= c < chunks,
            0 < speakers,
    ;
    let k = c * speakers + s;
    let n = chunks * speakers;
    assert(k * EMBEDDING_DIM + EMBEDDING_DIM <= n * EMBEDDING_DIM) by (nonlinear_arith)
        requires
            0 <= k < n,
    ;
}

/// Projects the raw embeddings of the training pairs, one row each.
fn project_pairs<P, FP: Fn(&[Single]) -> Result<Vec<Double>, P>>(
    input: &OfflineInput,
    project: &FP,
    plda_dim: usize,
    chunk_idx: &Vec<usize>,
    speaker_idx: &Vec<usize>,
) -> (r: Result<Vec<Double>, P>)
    requires
        input.raw_embeddings@.len() == input.num_chunks * input.num_speakers * EMBEDDING_DIM,
        is_pair_list(
            chunk_idx@,
            speaker_idx@,
            training_pairs(*input),
            input.num_chunks as int,
            input.num_speakers as int,
        ),
        forall|raw: &[Single]| raw@.len() == EMBEDDING_DIM ==> #[trigger] call_requires(
            *project,
            (raw,),
        ),
        forall|raw: &[Single], out: Vec<Double>| #[trigger]
            call_ensures(*project, (raw,), Ok::<Vec<Double>, P>(out)) ==> out@.len() == plda_dim,
    ensures
        match r {
            Ok(rows) => projected(
                *input,
                *project,
                plda_dim as nat,
                training_pairs(*input).len() as int,
                rows@,
            ),
            Err(e) => exists|i: int|
                0 <= i < training_pairs(*input).len() && #[trigger] fails_on(*input, *project, i, e)
                    && projects_before(*input, *project, plda_dim as nat, i),
        },
{
    let mut rows: Vec<Double> = Vec::new();
    let mut i: usize = 0;
    proof {
        assert(0 * plda_dim == 0);
    }
    while i < chunk_idx.len()
        invariant
            i <= chunk_idx.len(),
            input.raw_embeddings@.len() == input.num_chunks * input.num_speakers * EMBEDDING_DIM,
            is_pair_list(
                chunk_idx@,
                speaker_idx@,
                training_pairs(*input),
                input.num_chunks as int,
                input.num_speakers as int,
            ),
            forall|raw: &[Single]| raw@.len() == EMBEDDING_DIM ==> #[trigger] call_requires(
                *project,
                (raw,),
            ),
            forall|raw: &[Single], out: Vec<Double>| #[trigger]
                call_ensures(*project, (raw,), Ok::<Vec<Double>, P>(out)) ==> out@.len() == plda_dim,
            projected(*input, *project, plda_dim as nat, i as int, rows@),
        decreases chunk_idx.len() - i,
    {
        let c: usize = chunk_idx[i];
        let s: usize = speaker_idx[i];
        proof {
            lemma_embedding_range(
                c as int,
                s as int,
                input.num_chunks as int,
                input.num_speakers as int,
            );
        }
        let total: usize = input.raw_embeddings.len();
        let base: usize = (c * input.num_speakers + s) * EMBEDDING_DIM;
        let raw: &[Single] = vstd::slice::slice_subrange(
            input.raw_embeddings,
            base,
            base + EMBEDDING_DIM,
        );
        match project(raw) {
            Ok(row) => {
                let ghost rows0 = rows@;
                extend(&mut rows, &row);
                proof {
                    let d = plda_dim as int;
                    assert(rows@ =~= rows0 + row@);
                    assert((i + 1) * d == i * d + d) by (nonlinear_arith);
                    assert forall|k: int| 0 <= k < i + 1 implies #[trigger] projects_to(
                        *input,
                        *project,
                        k,
                        rows@.subrange(k * d, k * d + d),
                    ) by {
                        if k < i {
                            assert(0 <= k * d && k * d + d <= i * d) by (nonlinear_arith)
                                requires
                                    0 <= k < i,
                                    0 <= d,
                            ;
                            assert(rows@.subrange(k * d, k * d + d) =~= rows0.subrange(
                                k * d,
                                k * d + d,
                            ));
                            assert(projects_to(
                                *input,
                                *project,
                                k,
                                rows0.subrange(k * d, k * d + d),
                            ));
                        } else {
                            assert(rows@.subrange(k * d, k * d + d) =~= row@);
                            assert(call_ensures(*project, (raw,), Ok::<Vec<Double>, P>(row)));
                            assert(chunk_idx@[k] == training_pairs(*input)[k].0);
                        }
                    }
                }
            },
            Err(e) => {
                proof {
                    assert(call_ensures(*project, (raw,), Err::<Vec<Double>, P>(e)));
                    assert(chunk_idx@[i as int] == training_pairs(*input)[i as int].0);
                    assert(fails_on(*input, *project, i as int, e));
                }
                return Err(e);
            },
        }
        i = i + 1;
    }
    Ok(rows)
}

/// Appends a copy of `row`.
fn extend(rows: &mut Vec<Double>, row: &Vec<Double>)
    ensures
        final(rows)@ == old(rows)@ + row@,
{
    let ghost before = rows@;
    let mut k: usize = 0;
    while k < row.len()
        invariant
            k <= row.len(),
            rows@ == before + row@.take(k as int),
        decreases row.len() - k,
    {
        rows.push(row[k]);
        k = k + 1;
        proof {
            assert(rows@ =~= before + row@.take(k as int));
        }
    }
    proof {
        assert(row@.take(k as int) =~= row@);
    }
}

/// The span stage may give `r` for the labels and the grid.
pub open spec fn spanned<P, A, R, S, FS: Fn(SpansRequest) -> Result<Vec<S>, R>>(
    input: OfflineInput,
    to_spans: FS,
    labels: Seq<ChunkAssignment>,
    grid: Seq<Single>,
    r: Result<OfflineOutput<S>, Error<P, A, R>>,
) -> bool {
    exists|request: SpansRequest, out: Result<Vec<S>, R>|
        {
            &&& #[trigger] call_ensures(to_spans, (request,), out)
            &&& request.grid@ == grid
            &&& request.num_frames == input.num_output_frames
            &&& request.num_clusters == grid_clusters(labels, input.count@)
            &&& request.frames_sw == input.frames_sw
            &&& request.min_duration_off == input.min_duration_off
            &&& match out {
                Ok(spans) => {
                    &&& r is Ok
                    &&& r->Ok_0.labels() == labels
                    &&& r->Ok_0.grid() == grid
                    &&& r->Ok_0.clusters() == grid_clusters(labels, input.count@)
                    &&& r->Ok_0.span_seq() == spans@
                },
                Err(e) => r == Err::<OfflineOutput<S>, Error<P, A, R>>(
                    Error::Reconstruct(ReconstructError::Stage(e)),
                ),
            }
        }
}

/// The reconstruction and span stages may give `r` for the labels.
pub open spec fn reconstructed<
    P,
    A,
    R,
    S,
    FR: Fn(ReconstructRequest) -> Result<Vec<Single>, R>,
    FS: Fn(SpansRequest) -> Result<Vec<S>, R>,
>(
    input: OfflineInput,
    reconstruct: FR,
    to_spans: FS,
    labels: Seq<ChunkAssignment>,
    r: Result<OfflineOutput<S>, Error<P, A, R>>,
) -> bool {
    exists|request: ReconstructRequest, out: Result<Vec<Single>, R>|
        {
            &&& #[trigger] call_ensures(reconstruct, (request,), out)
            &&& request.segmentations == input.segmentations
            &&& request.num_chunks == input.num_chunks
            &&& request.num_frames_per_chunk == input.num_frames_per_chunk
            &&& request.num_speakers == input.num_speakers
            &&& request.hard_clusters@ == labels
            &&& request.count == input.count
            &&& request.num_output_frames == input.num_output_frames
            &&& request.chunks_sw == input.chunks_sw
            &&& request.frames_sw == input.frames_sw
            &&& request.smoothing_epsilon == input.smoothing_epsilon
            &&& match out {
                Ok(grid) => spanned(input, to_spans, labels, grid@, r),
                Err(e) => r == Err::<OfflineOutput<S>, Error<P, A, R>>(
                    Error::Reconstruct(ReconstructError::Stage(e)),
                ),
            }
        }
}

/// The stages after the projection may give `r` for the projected rows.
pub open spec fn assigned<
    P,
    A,
    R,
    S,
    FA: Fn(AssignRequest) -> Result<Vec<ChunkAssignment>, A>,
    FR: Fn(ReconstructRequest) -> Result<Vec<Single>, R>,
    FS: Fn(SpansRequest) -> Result<Vec<S>, R>,
>(
    input: OfflineInput,
    phi: Seq<Double>,
    assign: FA,
    reconstruct: FR,
    to_spans: FS,
    rows: Seq<Double>,
    r: Result<OfflineOutput<S>, Error<P, A, R>>,
) -> bool {
    exists|request: AssignRequest, out: Result<Vec<ChunkAssignment>, A>|
        {
            &&& #[trigger] call_ensures(assign, (request,), out)
            &&& request.embeddings@ == widened(input.raw_embeddings@)
            &&& request.embed_dim == EMBEDDING_DIM
            &&& request.num_chunks == input.num_chunks
            &&& request.num_speakers == input.num_speakers
            &&& request.segmentations == input.segmentations
            &&& request.num_frames_per_chunk == input.num_frames_per_chunk
            &&& request.post_plda@ == rows
            &&& request.plda_dim == phi.len()
            &&& request.phi@ == phi
            &&& is_pair_list(
                request.train_chunk_idx@,
                request.train_speaker_idx@,
                training_pairs(input),
                input.num_chunks as int,
                input.num_speakers as int,
            )
            &&& request.threshold == input.threshold
            &&& request.fa == input.fa
            &&& request.fb == input.fb
            &&& request.max_iters == input.max_iters
            &&& match out {
                Ok(labels) => reconstructed(input, reconstruct, to_spans, labels@, r),
                Err(e) => r == Err::<OfflineOutput<S>, Error<P, A, R>>(Error::Pipeline(e)),
            }
        }
}

/// Runs the offline flow on a valid input: filters the training pairs, projects
/// their embeddings, and runs the stages one after the other, each on what the
/// ones before it gave. The first failure ends the run.
///
/// `phi` is the projection's eigenvalue vector; `project` takes a raw embedding
/// to as many numbers.
pub fn diarize_offline<
    P,
    A,
    R,
    S,
    FP: Fn(&[Single]) -> Result<Vec<Double>, P>,
    FA: Fn(AssignRequest) -> Result<Vec<ChunkAssignment>, A>,
    FR: Fn(ReconstructRequest) -> Result<Vec<Single>, R>,
    FS: Fn(SpansRequest) -> Result<Vec<S>, R>,
>(
    input: &OfflineInput,
    phi: &[Double],
    project: FP,
    assign: FA,
    reconstruct: FR,
    to_spans: FS,
) -> (r: Result<OfflineOutput<S>, Error<P, A, R>>)
    requires
        forall|raw: &[Single]| raw@.len() == EMBEDDING_DIM ==> #[trigger] call_requires(
            project,
            (raw,),
        ),
        forall|raw: &[Single], out: Vec<Double>| #[trigger]
            call_ensures(project, (raw,), Ok::<Vec<Double>, P>(out)) ==> out@.len() == phi.len(),
        forall|request: AssignRequest| #[trigger] call_requires(assign, (request,)),
        forall|request: ReconstructRequest| #[trigger] call_requires(reconstruct, (request,)),
        forall|request: SpansRequest| #[trigger] call_requires(to_spans, (request,)),
    ensures
        match input_error::<P, A, R>(*input) {
            Some(e) => r == Err::<OfflineOutput<S>, Error<P, A, R>>(e),
            None => if training_pairs(*input).len() * phi@.len() > usize::MAX {
                r == Err::<OfflineOutput<S>, Error<P, A, R>>(
                    Error::Shape(ShapeError::RawEmbeddingsOverflow),
                )
            } else {
                ||| exists|i: int, e: P|
                    0 <= i < training_pairs(*input).len() && #[trigger] fails_on(
                        *input,
                        project,
                        i,
                        e,
                    ) && projects_before(*input, project, phi@.len(), i) && r == Err::<
                        OfflineOutput<S>,
                        Error<P, A, R>,
                    >(Error::Plda(e))
                ||| exists|rows: Seq<Double>| #[trigger]
                    projected(
                        *input,
                        project,
                        phi@.len(),
                        training_pairs(*input).len() as int,
                        rows,
                    ) && assigned(*input, phi@, assign, reconstruct, to_spans, rows, r)
            },
        },
{
    match check_input::<P, A, R>(input) {
        Ok(()) => {},
        Err(e) => {
            return Err(e);
        },
    }
    let (train_chunk_idx, train_speaker_idx) = filter_embeddings(
        input.segmentations,
        input.num_chunks,
        input.num_frames_per_chunk,
        input.num_speakers,
    );
    let embeddings: Vec<Double> = widen(input.raw_embeddings);
    let plda_dim: usize = phi.len();
    if train_chunk_idx.len().checked_mul(plda_dim).is_none() {
        return Err(Error::Shape(ShapeError::RawEmbeddingsOverflow));
    }
    let post_plda: Vec<Double> = match project_pairs(
        input,
        &project,
        plda_dim,
        &train_chunk_idx,
        &train_speaker_idx,
    ) {
        Ok(rows) => rows,
        Err(e) => {
            return Err(Error::Plda(e));
        },
    };
    let assign_request: AssignRequest = AssignRequest {
        embeddings: &embeddings,
        embed_dim: EMBEDDING_DIM,
        num_chunks: input.num_chunks,
        num_speakers: input.num_speakers,
        segmentations: input.segmentations,
        num_frames_per_chunk: input.num_frames_per_chunk,
        post_plda: &post_plda,
        plda_dim,
        phi,
        train_chunk_idx: &train_chunk_idx,
        train_speaker_idx: &train_speaker_idx,
        threshold: input.threshold,
        fa: input.fa,
        fb: input.fb,
        max_iters: input.max_iters,
    };
    let assignment: Result<Vec<ChunkAssignment>, A> = assign(assign_request);
    let hard_clusters: Vec<ChunkAssignment> = match assignment {
        Ok(labels) => labels,
        Err(e) => {
            proof {
                assert(call_ensures(assign, (assign_request,), assignment));
            }
            return Err(Error::Pipeline(e));
        },
    };
    let num_clusters: usize = count_clusters(&hard_clusters, input.count);
    let reconstruct_request: ReconstructRequest = ReconstructRequest {
        segmentations: input.segmentations,
        num_chunks: input.num_chunks,
        num_frames_per_chunk: input.num_frames_per_chunk,
        num_speakers: input.num_speakers,
        hard_clusters: &hard_clusters,
        count: input.count,
        num_output_frames: input.num_output_frames,
        chunks_sw: input.chunks_sw,
        frames_sw: input.frames_sw,
        smoothing_epsilon: input.smoothing_epsilon,
    };
    let reconstruction: Result<Vec<Single>, R> = reconstruct(reconstruct_request);
    let grid: Vec<Single> = match reconstruction {
        Ok(grid) => grid,
        Err(e) => {
            proof {
                assert(call_ensures(assign, (assign_request,), assignment));
                assert(call_ensures(reconstruct, (reconstruct_request,), reconstruction));
            }
            return Err(Error::Reconstruct(ReconstructError::Stage(e)));
        },
    };
    let spans_request: SpansRequest = SpansRequest {
        grid: &grid,
        num_frames: input.num_output_frames,
        num_clusters,
        frames_sw: input.frames_sw,
        min_duration_off: input.min_duration_off,
    };
    let emitted: Result<Vec<S>, R> = to_spans(spans_request);
    proof {
        assert(call_ensures(assign, (assign_request,), assignment));
        assert(call_ensures(reconstruct, (reconstruct_request,), reconstruction));
        assert(call_ensures(to_spans, (spans_request,), emitted));
    }
    match emitted {
        Ok(spans) => {
            Ok(OfflineOutput::new(share(hard_clusters), share(grid), num_clusters, share(spans)))
        },
        Err(e) => Err(Error::Reconstruct(ReconstructError::Stage(e))),
    }
}

} // verus!
