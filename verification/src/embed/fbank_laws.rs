//! What holds of all features.

use vstd::prelude::*;
use crate::embed::fbank::{are_kernels, clip_error, cropped, frame_count, is_feature_row, is_finished, is_log_mel, is_log_row, law_cropped_clip_fills_the_window, raw_frame, transform_input, Complex, FbankTables};
use crate::embed::mel::{WINDOW_SHIFT, WINDOW_SIZE};
use crate::embed::options::{FBANK_FRAMES, FBANK_NUM_MELS};
use crate::float::Single;

verus! {

/// Two rows of features of one frame are equal.
proof fn lemma_rows_agree<F: Fn(&[Single]) -> Vec<Complex>, G: Fn(Single) -> Single>(
    row: Seq<Single>,
    other: Seq<Single>,
    input: Seq<Single>,
    tables: FbankTables,
    fft: F,
    ln: G,
)
    requires
        are_kernels(fft, ln),
        is_feature_row(row, input, tables, fft, ln),
        is_feature_row(other, input, tables, fft, ln),
    ensures
        row == other,
{
    let (a, s) = choose|frame: &[Single], spectrum: Vec<Complex>|
        frame@ == input && #[trigger] call_ensures(fft, (frame,), spectrum) && is_log_row(
            row,
            spectrum@,
            tables,
            ln,
        );
    let (b, t) = choose|frame: &[Single], spectrum: Vec<Complex>|
        frame@ == input && #[trigger] call_ensures(fft, (frame,), spectrum) && is_log_row(
            other,
            spectrum@,
            tables,
            ln,
        );
    assert(s@ == t@);
    assert forall|m: int| 0 <= m < row.len() implies row[m] == other[m] by {
        let e = crate::embed::fbank::band_energy(s@, tables.bank@[m]@);
        assert(call_ensures(ln, (e,), row[m]));
        assert(call_ensures(ln, (e,), other[m]));
    }
    assert(row =~= other);
}

/// The samples of frame `f`.
pub open spec fn frame_samples(samples: Seq<Single>, f: int) -> Seq<Single> {
    samples.subrange(f * WINDOW_SHIFT, f * WINDOW_SHIFT + WINDOW_SIZE)
}

/// The features of frame `f`.
pub open spec fn frame_row(features: Seq<Single>, f: int) -> Seq<Single> {
    features.subrange(f * FBANK_NUM_MELS, (f + 1) * FBANK_NUM_MELS)
}

/// The features of a frame depend on the samples of that frame only: frames with the
/// same samples, of one clip or of two, have the same features.
pub proof fn law_frame_depends_on_its_samples<
    F: Fn(&[Single]) -> Vec<Complex>,
    G: Fn(Single) -> Single,
>(
    features: Seq<Single>,
    samples: Seq<Single>,
    f: int,
    other_features: Seq<Single>,
    other_samples: Seq<Single>,
    g: int,
    tables: FbankTables,
    fft: F,
    ln: G,
)
    requires
        are_kernels(fft, ln),
        is_log_mel(features, samples, tables, fft, ln),
        is_log_mel(other_features, other_samples, tables, fft, ln),
        0 <= f < frame_count(samples.len()),
        0 <= g < frame_count(other_samples.len()),
        frame_samples(samples, f) == frame_samples(other_samples, g),
    ensures
        frame_row(features, f) == frame_row(other_features, g),
{
    let a = raw_frame(samples, f);
    let b = raw_frame(other_samples, g);
    crate::embed::fbank::lemma_frame_inside(samples.len(), f);
    crate::embed::fbank::lemma_frame_inside(other_samples.len(), g);
    assert forall|j: int| 0 <= j < WINDOW_SIZE implies a[j] == b[j] by {
        assert(frame_samples(samples, f)[j] == samples[f * WINDOW_SHIFT + j]);
        assert(frame_samples(other_samples, g)[j] == other_samples[g * WINDOW_SHIFT + j]);
    }
    assert(a =~= b);
    let input = transform_input(samples, f, tables.window@);
    assert(input == transform_input(other_samples, g, tables.window@));
    assert(is_feature_row(frame_row(features, f), input, tables, fft, ln));
    assert(is_feature_row(frame_row(other_features, g), input, tables, fft, ln));
    lemma_rows_agree(frame_row(features, f), frame_row(other_features, g), input, tables, fft, ln);
}

/// The samples of a frame alone make one frame, with the features that it has in the
/// clip.
pub proof fn law_frame_stands_alone<
    F: Fn(&[Single]) -> Vec<Complex>,
    G: Fn(Single) -> Single,
>(
    features: Seq<Single>,
    samples: Seq<Single>,
    f: int,
    alone: Seq<Single>,
    tables: FbankTables,
    fft: F,
    ln: G,
)
    requires
        are_kernels(fft, ln),
        is_log_mel(features, samples, tables, fft, ln),
        0 <= f < frame_count(samples.len()),
        is_log_mel(alone, frame_samples(samples, f), tables, fft, ln),
    ensures
        features.len() == frame_count(samples.len()) * FBANK_NUM_MELS,
        alone.len() == FBANK_NUM_MELS,
        frame_row(features, f) == alone,
{
    crate::embed::fbank::lemma_frame_inside(samples.len(), f);
    let own = frame_samples(samples, f);
    assert(own.len() == WINDOW_SIZE);
    assert(frame_count(own.len()) == 1);
    assert(frame_samples(own, 0) =~= own);
    law_frame_depends_on_its_samples(features, samples, f, alone, own, 0, tables, fft, ln);
    assert(frame_row(alone, 0) =~= alone);
}

/// The features of a clip are determined by its samples.
proof fn lemma_features_agree<F: Fn(&[Single]) -> Vec<Complex>, G: Fn(Single) -> Single>(
    features: Seq<Single>,
    other: Seq<Single>,
    samples: Seq<Single>,
    tables: FbankTables,
    fft: F,
    ln: G,
)
    requires
        are_kernels(fft, ln),
        is_log_mel(features, samples, tables, fft, ln),
        is_log_mel(other, samples, tables, fft, ln),
    ensures
        features == other,
{
    let width = FBANK_NUM_MELS as int;
    assert forall|t: int| 0 <= t < features.len() implies features[t] == other[t] by {
        let f = t / width;
        let m = t % width;
        assert(t == f * width + m);
        assert(0 <= f < frame_count(samples.len()));
        law_frame_depends_on_its_samples(
            features,
            samples,
            f,
            other,
            samples,
            f,
            tables,
            fft,
            ln,
        );
        assert(frame_row(features, f)[m] == features[t]);
        assert(frame_row(other, f)[m] == other[t]);
    }
    assert(features =~= other);
}

/// `r` holds the features of a clip in a fixed number of frames.
pub open spec fn is_clip_result<F: Fn(&[Single]) -> Vec<Complex>, G: Fn(Single) -> Single>(
    r: Seq<[Single; FBANK_NUM_MELS]>,
    samples: Seq<Single>,
    tables: FbankTables,
    fft: F,
    ln: G,
) -> bool {
    exists|features: Seq<Single>| #[trigger]
        is_log_mel(features, cropped(samples), tables, fft, ln) && is_finished(r, features)
}

/// Only the middle of a long clip matters: the middle alone is accepted where the clip
/// is, and has the same features.
pub proof fn law_only_the_middle_matters<
    F: Fn(&[Single]) -> Vec<Complex>,
    G: Fn(Single) -> Single,
>(
    samples: Seq<Single>,
    r: Seq<[Single; FBANK_NUM_MELS]>,
    of_middle: Seq<[Single; FBANK_NUM_MELS]>,
    tables: FbankTables,
    fft: F,
    ln: G,
)
    requires
        are_kernels(fft, ln),
        frame_count(samples.len()) > FBANK_FRAMES,
        clip_error(samples) is None,
    ensures
        cropped(samples).len() == (FBANK_FRAMES - 1) * WINDOW_SHIFT + WINDOW_SIZE,
        clip_error(cropped(samples)) is None,
        is_clip_result(r, samples, tables, fft, ln) && is_clip_result(
            of_middle,
            cropped(samples),
            tables,
            fft,
            ln,
        ) ==> r.len() == of_middle.len() && forall|f: int, m: int|
            0 <= f < r.len() && 0 <= m < FBANK_NUM_MELS ==> #[trigger] r[f]@[m]
                == of_middle[f]@[m],
{
    law_cropped_clip_fills_the_window(samples);
    let middle = cropped(samples);
    let start = crate::embed::fbank::crop_start(samples.len()) * WINDOW_SHIFT;
    assert(clip_error(middle) is None) by {
        assert forall|i: int| 0 <= i < middle.len() implies (#[trigger] middle[i]).finite() by {
            assert(middle[i] == samples[start + i]);
            assert(samples[start + i].finite());
        }
    }
    assert(cropped(middle) == middle);
    if is_clip_result(r, samples, tables, fft, ln) && is_clip_result(
        of_middle,
        middle,
        tables,
        fft,
        ln,
    ) {
        let a = choose|features: Seq<Single>| #[trigger]
            is_log_mel(features, middle, tables, fft, ln) && is_finished(r, features);
        let b = choose|features: Seq<Single>| #[trigger]
            is_log_mel(features, middle, tables, fft, ln) && is_finished(of_middle, features);
        lemma_features_agree(a, b, middle, tables, fft, ln);
    }
}

} // verus!
