//! The (chunk, speaker) pairs that train the clustering.

use vstd::prelude::*;
use crate::float::Double;

verus! {

/// Scores laid out as `[chunk][frame][speaker]`.
pub struct ScoreGrid {
    pub scores: Seq<Double>,
    pub frames_per_chunk: nat,
    pub speakers: nat,
}

impl ScoreGrid {
    /// Score of speaker `s` in frame `f` of chunk `c`.
    pub open spec fn at(self, c: int, f: int, s: int) -> Double {
        self.scores[(c * self.frames_per_chunk + f) * self.speakers + s]
    }

    /// How many of the first `n` speakers are active in a frame.
    pub open spec fn active(self, c: int, f: int, n: nat) -> nat
        decreases n,
    {
        if n == 0 {
            0
        } else {
            self.active(c, f, (n - 1) as nat) + (if Double::zero_spec().below(
                self.at(c, f, n - 1),
            ) { 1nat } else { 0 })
        }
    }

    /// Exactly one speaker is active in the frame.
    pub open spec fn is_clean(self, c: int, f: int) -> bool {
        self.active(c, f, self.speakers) == 1
    }

    /// A speaker's scores over the clean frames among the first `n`, added up in
    /// frame order.
    pub open spec fn clean_score(self, c: int, s: int, n: nat) -> Double
        decreases n,
    {
        if n == 0 {
            Double::zero_spec()
        } else {
            let before = self.clean_score(c, s, (n - 1) as nat);
            if self.is_clean(c, n - 1) { before.plus(self.at(c, n - 1, s)) } else { before }
        }
    }

    /// The least clean score that trains: a fifth of the frames.
    pub open spec fn least_score(self) -> Double {
        Double { bits: 0x3fc9_9999_9999_999a }.times(Double::natural(self.frames_per_chunk))
    }

    /// The speaker is heard alone in enough of the chunk.
    pub open spec fn trains(self, c: int, s: int) -> bool {
        self.least_score().at_most(self.clean_score(c, s, self.frames_per_chunk))
    }

    /// The training pairs among the first `s` speakers of chunk `c`.
    pub open spec fn chunk_pairs(self, c: int, s: nat) -> Seq<(int, int)>
        decreases s,
    {
        if s == 0 {
            Seq::empty()
        } else {
            let before = self.chunk_pairs(c, (s - 1) as nat);
            if self.trains(c, s - 1) { before.push((c, s - 1)) } else { before }
        }
    }

    /// The training pairs of the first `n` chunks, in chunk and speaker order.
    pub open spec fn pairs(self, n: nat) -> Seq<(int, int)>
        decreases n,
    {
        if n == 0 {
            Seq::empty()
        } else {
            self.pairs((n - 1) as nat) + self.chunk_pairs(n - 1, self.speakers)
        }
    }
}

/// The cell of a layout `[chunk][frame][speaker]` lies inside it.
pub proof fn lemma_cell_index(c: int, f: int, s: int, chunks: int, frames: int, speakers: int)
    requires
        0 <= c < chunks,
        0 <= f < frames,
        0 <= s < speakers,
    ensures
        0 <= c * frames,
        0 <= c * frames + f < chunks * frames,
        0 <= (c * frames + f) * speakers,
        0 <= (c * frames + f) * speakers + s < chunks * frames * speakers,
        chunks * frames <= chunks * frames * speakers,
{
    assert(0 <= c * frames && c * frames + frames <= chunks * frames) by (nonlinear_arith)
        requires
            0 <= c < chunks,
            0 < frames,
    ;
    let k = c * frames + f;
    let n = chunks * frames;
    assert(0 <= k * speakers && k * speakers + speakers <= n * speakers) by (nonlinear_arith)
        requires
            0 <= k < n,
            0 < speakers,
    ;
    assert(n <= n * speakers) by (nonlinear_arith)
        requires
            n >= 0,
            speakers >= 1,
    ;
}

/// Which frames of a chunk have exactly one active speaker.
fn clean_frames(scores: &[Double], c: usize, num_chunks: usize, frames: usize, speakers: usize) -> (r: Vec<bool>)
    requires
        c < num_chunks,
        scores.len() == num_chunks * frames * speakers,
    ensures
        r.len() == frames,
        forall|f: int|
            0 <= f < frames ==> #[trigger] r@[f] == (ScoreGrid {
                scores: scores@,
                frames_per_chunk: frames as nat,
                speakers: speakers as nat,
            }).is_clean(c as int, f),
{
    let ghost grid = ScoreGrid {
        scores: scores@,
        frames_per_chunk: frames as nat,
        speakers: speakers as nat,
    };
    let mut r: Vec<bool> = Vec::with_capacity(frames);
    while r.len() < frames
        invariant
            r.len() <= frames,
            c < num_chunks,
            scores.len() == num_chunks * frames * speakers,
            grid.scores == scores@,
            grid.frames_per_chunk == frames,
            grid.speakers == speakers,
            forall|f: int| 0 <= f < r.len() ==> #[trigger] r@[f] == grid.is_clean(c as int, f),
        decreases frames - r.len(),
    {
        let f: usize = r.len();
        let mut active: usize = 0;
        let mut s: usize = 0;
        while s < speakers
            invariant
                s <= speakers,
                f < frames,
                c < num_chunks,
                scores.len() == num_chunks * frames * speakers,
                grid.scores == scores@,
                grid.frames_per_chunk == frames,
                grid.speakers == speakers,
                active == grid.active(c as int, f as int, s as nat),
                active <= s,
            decreases speakers - s,
        {
            proof {
                lemma_cell_index(
                    c as int,
                    f as int,
                    s as int,
                    num_chunks as int,
                    frames as int,
                    speakers as int,
                );
            }
            if scores[(c * frames + f) * speakers + s].gt(Double::zero()) {
                active = active + 1;
            }
            s = s + 1;
        }
        r.push(active == 1);
    }
    r
}

/// The training pairs, as two lists: the chunk and the speaker of each.
pub fn filter_embeddings(
    scores: &[Double],
    num_chunks: usize,
    num_frames_per_chunk: usize,
    num_speakers: usize,
) -> (r: (Vec<usize>, Vec<usize>))
    requires
        scores.len() == num_chunks * num_frames_per_chunk * num_speakers,
    ensures
        is_pair_list(
            r.0@,
            r.1@,
            (ScoreGrid {
                scores: scores@,
                frames_per_chunk: num_frames_per_chunk as nat,
                speakers: num_speakers as nat,
            }).pairs(num_chunks as nat),
            num_chunks as int,
            num_speakers as int,
        ),
{
    let frames: usize = num_frames_per_chunk;
    let ghost grid = ScoreGrid {
        scores: scores@,
        frames_per_chunk: frames as nat,
        speakers: num_speakers as nat,
    };
    let least: Double = Double::from_bits(0x3fc9_9999_9999_999a).mul(Double::from_u64(frames as u64));
    let mut chunk_idx: Vec<usize> = Vec::new();
    let mut speaker_idx: Vec<usize> = Vec::new();
    let mut c: usize = 0;
    while c < num_chunks
        invariant
            c <= num_chunks,
            scores.len() == num_chunks * frames * num_speakers,
            grid == (ScoreGrid {
                scores: scores@,
                frames_per_chunk: frames as nat,
                speakers: num_speakers as nat,
            }),
            least == grid.least_score(),
            is_pair_list(chunk_idx@, speaker_idx@, grid.pairs(c as nat), num_chunks as int, num_speakers as int),
        decreases num_chunks - c,
    {
        let clean: Vec<bool> = clean_frames(scores, c, num_chunks, frames, num_speakers);
        let ghost before = grid.pairs(c as nat);
        let mut s: usize = 0;
        proof {
            assert(before + grid.chunk_pairs(c as int, 0) =~= before);
        }
        while s < num_speakers
            invariant
                s <= num_speakers,
                c < num_chunks,
                scores.len() == num_chunks * frames * num_speakers,
                grid == (ScoreGrid {
                    scores: scores@,
                    frames_per_chunk: frames as nat,
                    speakers: num_speakers as nat,
                }),
                least == grid.least_score(),
                clean.len() == frames,
                forall|f: int| 0 <= f < frames ==> #[trigger] clean@[f] == grid.is_clean(c as int, f),
                is_pair_list(
                    chunk_idx@,
                    speaker_idx@,
                    before + grid.chunk_pairs(c as int, s as nat),
                    num_chunks as int,
                    num_speakers as int,
                ),
            decreases num_speakers - s,
        {
            let mut total: Double = Double::zero();
            let mut f: usize = 0;
            while f < frames
                invariant
                    f <= frames,
                    s < num_speakers,
                    c < num_chunks,
                    scores.len() == num_chunks * frames * num_speakers,
                    grid.scores == scores@,
                    grid.frames_per_chunk == frames,
                    grid.speakers == num_speakers,
                    clean.len() == frames,
                    forall|f: int|
                        0 <= f < frames ==> #[trigger] clean@[f] == grid.is_clean(c as int, f),
                    total == grid.clean_score(c as int, s as int, f as nat),
                decreases frames - f,
            {
                proof {
                    lemma_cell_index(
                        c as int,
                        f as int,
                        s as int,
                        num_chunks as int,
                        frames as int,
                        num_speakers as int,
                    );
                }
                if clean[f] {
                    total = total.add(scores[(c * frames + f) * num_speakers + s]);
                }
                f = f + 1;
            }
            if total.ge(least) {
                chunk_idx.push(c);
                speaker_idx.push(s);
                proof {
                    assert(before + grid.chunk_pairs(c as int, (s + 1) as nat) =~= (before
                        + grid.chunk_pairs(c as int, s as nat)).push((c as int, s as int)));
                }
            }
            s = s + 1;
        }
        c = c + 1;
    }
    (chunk_idx, speaker_idx)
}

/// The two lists hold the pairs.
pub open spec fn is_pair_list(
    chunk_idx: Seq<usize>,
    speaker_idx: Seq<usize>,
    pairs: Seq<(int, int)>,
    num_chunks: int,
    num_speakers: int,
) -> bool {
    &&& chunk_idx.len() == pairs.len()
    &&& speaker_idx.len() == pairs.len()
    &&& forall|i: int|
        0 <= i < pairs.len() ==> {
            &&& #[trigger] chunk_idx[i] == pairs[i].0
            &&& speaker_idx[i] == pairs[i].1
            &&& chunk_idx[i] < num_chunks
            &&& speaker_idx[i] < num_speakers
        }
}

/// A pair trains exactly if it is listed.
pub proof fn law_pairs_are_the_training_ones(grid: ScoreGrid, n: nat, c: int, s: int)
    requires
        0 <= c < n,
        0 <= s < grid.speakers,
    ensures
        grid.pairs(n).contains((c, s)) <==> grid.trains(c, s),
    decreases n,
{
    let before = grid.pairs((n - 1) as nat);
    let here = grid.chunk_pairs(n - 1, grid.speakers);
    let all = before + here;
    lemma_chunk_pairs(grid, n - 1, grid.speakers);
    lemma_pairs_chunks(grid, (n - 1) as nat);
    if c == n - 1 {
        if grid.trains(c, s) {
            assert(here.contains((c, s)));
            let k = choose|k: int| 0 <= k < here.len() && here[k] == (c, s);
            assert(all[before.len() + k] == (c, s));
        }
        if all.contains((c, s)) {
            let k = choose|k: int| 0 <= k < all.len() && all[k] == (c, s);
            if k < before.len() {
                assert(before[k].0 < n - 1);
            } else {
                assert(here[k - before.len()] == (c, s));
                assert(here.contains((c, s)));
            }
        }
    } else {
        law_pairs_are_the_training_ones(grid, (n - 1) as nat, c, s);
        if grid.trains(c, s) {
            let k = choose|k: int| 0 <= k < before.len() && before[k] == (c, s);
            assert(all[k] == (c, s));
        }
        if all.contains((c, s)) {
            let k = choose|k: int| 0 <= k < all.len() && all[k] == (c, s);
            if k < before.len() {
                assert(before.contains((c, s))) by {
                    assert(before[k] == (c, s));
                }
            } else {
                assert(here[k - before.len()].0 == n - 1);
            }
        }
    }
}

proof fn lemma_chunk_pairs(grid: ScoreGrid, c: int, n: nat)
    ensures
        forall|k: int|
            0 <= k < grid.chunk_pairs(c, n).len() ==> {
                let p = #[trigger] grid.chunk_pairs(c, n)[k];
                p.0 == c && 0 <= p.1 < n && grid.trains(c, p.1)
            },
        forall|s: int|
            0 <= s < n && #[trigger] grid.trains(c, s) ==> grid.chunk_pairs(c, n).contains((c, s)),
    decreases n,
{
    if n > 0 {
        let before = grid.chunk_pairs(c, (n - 1) as nat);
        let all = grid.chunk_pairs(c, n);
        lemma_chunk_pairs(grid, c, (n - 1) as nat);
        assert forall|s: int| 0 <= s < n && #[trigger] grid.trains(c, s) implies all.contains((c, s)) by {
            if s == n - 1 {
                assert(all[before.len() as int] == (c, s));
            } else {
                let k = choose|k: int| 0 <= k < before.len() && before[k] == (c, s);
                assert(all[k] == (c, s));
            }
        }
    }
}

proof fn lemma_pairs_chunks(grid: ScoreGrid, n: nat)
    ensures
        forall|k: int| 0 <= k < grid.pairs(n).len() ==> 0 <= (#[trigger] grid.pairs(n)[k]).0 < n,
    decreases n,
{
    if n > 0 {
        lemma_pairs_chunks(grid, (n - 1) as nat);
        lemma_chunk_pairs(grid, n - 1, grid.speakers);
        let before = grid.pairs((n - 1) as nat);
        let here = grid.chunk_pairs(n - 1, grid.speakers);
        assert forall|k: int| 0 <= k < grid.pairs(n).len() implies 0 <= (#[trigger] grid.pairs(n)[k]).0
            < n by {
            if k < before.len() {
                assert(grid.pairs(n)[k] == before[k]);
            } else {
                assert(grid.pairs(n)[k] == here[k - before.len()]);
            }
        }
    }
}

} // verus!
