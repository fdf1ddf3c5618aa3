//! Where frames lie in a clip and in the feature grid.

use vstd::prelude::*;
use crate::embed::fbank::{arranged, crop_start, cropped, frame_count, pad_left};
use crate::embed::mel::{WINDOW_SHIFT, WINDOW_SIZE};
use crate::embed::options::{FBANK_FRAMES, FBANK_NUM_MELS};
use crate::float::Single;

verus! {

/// A clip has as many frames as fit: the last one ends inside it, one more would not.
pub proof fn law_as_many_frames_as_fit(n: nat)
    ensures
        frame_count(n) > 0 ==> (frame_count(n) - 1) * WINDOW_SHIFT + WINDOW_SIZE <= n,
        n < frame_count(n) * WINDOW_SHIFT + WINDOW_SIZE,
{
    if n >= WINDOW_SIZE {
        let k = (n - WINDOW_SIZE) as int;
        assert(k == 160 * (k / 160) + k % 160);
    }
}

/// A clip is cropped in the middle: as many frames are left out before as after, or one
/// more after.
pub proof fn law_crop_is_centred(samples: Seq<Single>)
    requires
        frame_count(samples.len()) > FBANK_FRAMES,
    ensures
        ({
            let before = crop_start(samples.len());
            let after = frame_count(samples.len()) - FBANK_FRAMES - before;
            &&& before <= after <= before + 1
            &&& cropped(samples) =~= samples.subrange(
                (before * WINDOW_SHIFT) as int,
                before * WINDOW_SHIFT + (FBANK_FRAMES - 1) * WINDOW_SHIFT + WINDOW_SIZE,
            )
        }),
{
}

/// Zeros, as features.
pub open spec fn zeros(n: nat) -> Seq<Single> {
    Seq::new(n, |t: int| Single::zero_spec())
}

/// Features are arranged in the middle, between as many frames of zeros before as after,
/// or one more after.
pub proof fn law_features_stand_in_the_middle(features: Seq<Single>, frames: nat)
    requires
        frames <= FBANK_FRAMES,
        features.len() == frames * FBANK_NUM_MELS,
    ensures
        ({
            let before = pad_left(frames);
            let after = FBANK_FRAMES - frames - before;
            &&& before <= after <= before + 1
            &&& arranged(features, frames) =~= zeros(before * FBANK_NUM_MELS as nat) + features
                + zeros((after * FBANK_NUM_MELS) as nat)
        }),
{
    let before = pad_left(frames);
    let after = FBANK_FRAMES - frames - before;
    let r = zeros(before * FBANK_NUM_MELS as nat) + features + zeros(
        (after * FBANK_NUM_MELS) as nat,
    );
    assert(r.len() == FBANK_FRAMES * FBANK_NUM_MELS);
    assert(arranged(features, frames) =~= r);
}

} // verus!
