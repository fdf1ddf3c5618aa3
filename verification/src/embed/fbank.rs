//! Log-mel features of a clip.

use vstd::prelude::*;
use vstd::slice::slice_subrange;
use crate::embed::error::Error;
use crate::embed::mel::{hamming_window, is_bank, is_bank_logs, is_window_cosines, mel_bank, window_from, FFT_SPECTRUM_LEN, PADDED_WINDOW_SIZE, WINDOW_SHIFT, WINDOW_SIZE};
use crate::embed::options::{FBANK_FRAMES, FBANK_NUM_MELS, MIN_CLIP_SAMPLES};
use crate::float::sums::{added, added_single};
use crate::float::{Double, Single};

verus! {

/// An entry of a spectrum.
#[derive(Clone, Copy, Debug, PartialEq, Eq, Structural)]
pub struct Complex {
    pub re: Single,
    pub im: Single,
}

/// The window and the filter bank.
pub struct FbankTables {
    pub window: Vec<Single>,
    pub bank: Vec<Vec<Single>>,
}

impl FbankTables {
    /// One weight per sample of a frame, and one band per mel with a weight per
    /// spectrum entry.
    pub open spec fn fits(&self) -> bool {
        &&& self.window@.len() == WINDOW_SIZE
        &&& self.bank@.len() == FBANK_NUM_MELS
        &&& forall|m: int|
            0 <= m < self.bank@.len() ==> (#[trigger] self.bank@[m])@.len() == FFT_SPECTRUM_LEN
    }

    /// The tables made with these cosines and logarithms.
    pub open spec fn is_made_of<C: Fn(Double) -> Double, L: Fn(Double) -> Double>(
        &self,
        cosine: C,
        ln: L,
        cosines: Seq<Double>,
        logs: Seq<Double>,
    ) -> bool {
        &&& is_window_cosines(cosine, cosines)
        &&& self.window@ == window_from(cosines)
        &&& is_bank_logs(ln, logs)
        &&& is_bank(self.bank@, logs)
    }

    /// The Hamming window and the mel bank, from a cosine and a natural logarithm.
    pub fn new<C: Fn(Double) -> Double, L: Fn(Double) -> Double>(cosine: C, ln: L) -> (r: Self)
        requires
            forall|x: Double| #[trigger] call_requires(cosine, (x,)),
            forall|x: Double| #[trigger] call_requires(ln, (x,)),
        ensures
            r.fits(),
            exists|cosines: Seq<Double>, logs: Seq<Double>| #[trigger]
                r.is_made_of(cosine, ln, cosines, logs),
    {
        let window: Vec<Single> = hamming_window(cosine);
        let bank: Vec<Vec<Single>> = mel_bank(ln);
        let r: FbankTables = FbankTables { window, bank };
        proof {
            let cosines = choose|cosines: Seq<Double>| #[trigger]
                is_window_cosines(cosine, cosines) && window@ == window_from(cosines);
            let logs = choose|logs: Seq<Double>| #[trigger]
                is_bank_logs(ln, logs) && is_bank(bank@, logs);
            assert(r.is_made_of(cosine, ln, cosines, logs));
        }
        r
    }
}

/// The scale of 16-bit samples: `2^15`.
pub open spec fn int16_scale() -> Single {
    Single { bits: 0x4700_0000 }
}

/// The share of the sample before that pre-emphasis takes away: 0.97.
pub open spec fn preemphasis() -> Single {
    Single { bits: 0x3f78_51ec }
}

/// The smallest energy: `2^-23`.
pub open spec fn energy_floor() -> Single {
    Single { bits: 0x3400_0000 }
}

/// How many whole frames `n` samples hold.
pub open spec fn frame_count(n: nat) -> nat {
    if n < WINDOW_SIZE {
        0
    } else {
        1 + (n - WINDOW_SIZE) as nat / WINDOW_SHIFT as nat
    }
}

/// Frame `f`, at the scale of 16-bit samples.
pub open spec fn raw_frame(samples: Seq<Single>, f: int) -> Seq<Single> {
    Seq::new(
        WINDOW_SIZE as nat,
        |j: int| samples[f * WINDOW_SHIFT + j].times(int16_scale()),
    )
}

pub open spec fn frame_mean(frame: Seq<Single>) -> Single {
    added_single(Single::zero_spec(), frame, frame.len()).over(Single::natural(frame.len()))
}

/// The frame without its mean.
pub open spec fn without_offset(frame: Seq<Single>) -> Seq<Single> {
    Seq::new(frame.len(), |j: int| frame[j].minus(frame_mean(frame)))
}

/// Each sample less a share of the one before; the first less a share of itself.
pub open spec fn emphasised(frame: Seq<Single>) -> Seq<Single> {
    Seq::new(
        frame.len(),
        |j: int| frame[j].minus(preemphasis().times(frame[if j == 0 { 0 } else { j - 1 }])),
    )
}

pub open spec fn weighted(frame: Seq<Single>, window: Seq<Single>) -> Seq<Single> {
    Seq::new(frame.len(), |j: int| frame[j].times(window[j]))
}

/// The frame with zeros after it.
pub open spec fn padded(frame: Seq<Single>) -> Seq<Single> {
    Seq::new(
        PADDED_WINDOW_SIZE as nat,
        |j: int|
            if j < frame.len() {
                frame[j]
            } else {
                Single::zero_spec()
            },
    )
}

/// What is transformed for frame `f`.
pub open spec fn transform_input(
    samples: Seq<Single>,
    f: int,
    window: Seq<Single>,
) -> Seq<Single> {
    padded(weighted(emphasised(without_offset(raw_frame(samples, f))), window))
}

/// Multiplies a frame by the window.
pub fn apply_window_inplace(a: &mut Vec<Single>, b: &[Single])
    requires
        old(a).len() == b.len(),
    ensures
        final(a)@ == weighted(old(a)@, b@),
{
    let ghost a0 = a@;
    let mut j: usize = 0;
    while j < b.len()
        invariant
            a.len() == b.len(),
            a0.len() == b.len(),
            j <= b.len(),
            forall|i: int| 0 <= i < j ==> #[trigger] a@[i] == a0[i].times(b@[i]),
            forall|i: int| j <= i < a.len() ==> #[trigger] a@[i] == a0[i],
        decreases b.len() - j,
    {
        let product: Single = a[j].mul(b[j]);
        a[j] = product;
        j = j + 1;
    }
    proof {
        assert(a@ =~= weighted(a0, b@));
    }
}

/// What is transformed for frame `f`.
pub fn prepare_frame(samples: &[Single], f: usize, window: &[Single]) -> (r: Vec<Single>)
    requires
        f < frame_count(samples@.len()),
        window.len() == WINDOW_SIZE,
    ensures
        r@ == transform_input(samples@, f as int, window@),
{
    let n: usize = samples.len();
    proof {
        lemma_frame_inside(n as nat, f as int);
    }
    let start: usize = f * WINDOW_SHIFT;
    let ghost raw = raw_frame(samples@, f as int);
    let mut frame: Vec<Single> = Vec::with_capacity(PADDED_WINDOW_SIZE);
    let mut total: Single = Single::zero();
    while frame.len() < WINDOW_SIZE
        invariant
            start == f * WINDOW_SHIFT,
            start + WINDOW_SIZE <= samples.len(),
            raw == raw_frame(samples@, f as int),
            frame.len() <= WINDOW_SIZE,
            forall|j: int| 0 <= j < frame.len() ==> #[trigger] frame@[j] == raw[j],
            total == added_single(Single::zero_spec(), raw, frame@.len()),
        decreases WINDOW_SIZE - frame.len(),
    {
        let value: Single = samples[start + frame.len()].mul(Single::from_bits(0x4700_0000));
        total = total.add(value);
        frame.push(value);
    }
    let mean: Single = total.div(Single::from_u64(WINDOW_SIZE as u64));
    let mut j: usize = 0;
    while j < WINDOW_SIZE
        invariant
            frame.len() == WINDOW_SIZE,
            raw.len() == WINDOW_SIZE,
            mean == frame_mean(raw),
            j <= WINDOW_SIZE,
            forall|i: int| 0 <= i < j ==> #[trigger] frame@[i] == without_offset(raw)[i],
            forall|i: int| j <= i < WINDOW_SIZE ==> #[trigger] frame@[i] == raw[i],
        decreases WINDOW_SIZE - j,
    {
        let value: Single = frame[j].sub(mean);
        frame[j] = value;
        j = j + 1;
    }
    let ghost level = without_offset(raw);
    let mut k: usize = WINDOW_SIZE - 1;
    while k > 0
        invariant
            frame.len() == WINDOW_SIZE,
            level.len() == WINDOW_SIZE,
            k < WINDOW_SIZE,
            forall|i: int| 0 <= i <= k ==> #[trigger] frame@[i] == level[i],
            forall|i: int| k < i < WINDOW_SIZE ==> #[trigger] frame@[i] == emphasised(level)[i],
        decreases k,
    {
        let value: Single = frame[k].sub(Single::from_bits(0x3f78_51ec).mul(frame[k - 1]));
        frame[k] = value;
        k = k - 1;
    }
    let first: Single = frame[0].sub(Single::from_bits(0x3f78_51ec).mul(frame[0]));
    frame[0] = first;
    proof {
        assert(frame@ =~= emphasised(level));
    }
    apply_window_inplace(&mut frame, window);
    let ghost shaped = frame@;
    while frame.len() < PADDED_WINDOW_SIZE
        invariant
            shaped.len() == WINDOW_SIZE,
            WINDOW_SIZE <= frame.len() <= PADDED_WINDOW_SIZE,
            forall|i: int| 0 <= i < frame.len() ==> #[trigger] frame@[i] == padded(shaped)[i],
        decreases PADDED_WINDOW_SIZE - frame.len(),
    {
        frame.push(Single::zero());
    }
    proof {
        assert(frame@ =~= padded(shaped));
    }
    frame
}

/// A frame lies within the samples.
pub proof fn lemma_frame_inside(n: nat, f: int)
    requires
        0 <= f < frame_count(n),
    ensures
        f * WINDOW_SHIFT + WINDOW_SIZE <= n,
{
    let q = (n - WINDOW_SIZE) as nat / WINDOW_SHIFT as nat;
    vstd::arithmetic::div_mod::lemma_fundamental_div_mod(n - WINDOW_SIZE, WINDOW_SHIFT as int);
    assert(f * WINDOW_SHIFT <= q * WINDOW_SHIFT);
}

/// The power of a spectrum entry: the square of its rounded magnitude.
pub open spec fn power_of(c: Complex) -> Single {
    let magnitude = c.re.times(c.re).plus(c.im.times(c.im)).root();
    magnitude.times(magnitude)
}

pub open spec fn powers(spectrum: Seq<Complex>) -> Seq<Single> {
    Seq::new(spectrum.len(), |k: int| power_of(spectrum[k]))
}

/// The power of every spectrum entry.
pub fn power_spectrum(fft: &[Complex]) -> (power: Vec<Single>)
    ensures
        power@ == powers(fft@),
{
    let mut power: Vec<Single> = Vec::with_capacity(fft.len());
    while power.len() < fft.len()
        invariant
            power.len() <= fft.len(),
            forall|k: int| 0 <= k < power.len() ==> #[trigger] power@[k] == power_of(fft@[k]),
        decreases fft.len() - power.len(),
    {
        let c: Complex = fft[power.len()];
        let magnitude: Single = c.re.mul(c.re).add(c.im.mul(c.im)).sqrt();
        power.push(magnitude.mul(magnitude));
    }
    proof {
        assert(power@ =~= powers(fft@));
    }
    power
}

/// Products in single precision, widened.
pub open spec fn wide_products(a: Seq<Single>, b: Seq<Single>) -> Seq<Double> {
    Seq::new(a.len(), |k: int| a[k].times(b[k]).widened())
}

/// The dot product: products in single, their sum in double precision.
pub open spec fn wide_dot(a: Seq<Single>, b: Seq<Single>) -> Double {
    added(Double::zero_spec(), wide_products(a, b), a.len())
}

/// The dot product, multiplied in single and added up in double precision.
pub fn fma_dot_f32_to_f64(a: &[Single], b: &[Single]) -> (r: Double)
    requires
        a.len() == b.len(),
    ensures
        r == wide_dot(a@, b@),
{
    let mut total: Double = Double::zero();
    let mut k: usize = 0;
    while k < a.len()
        invariant
            a.len() == b.len(),
            k <= a.len(),
            total == added(Double::zero_spec(), wide_products(a@, b@), k as nat),
        decreases a.len() - k,
    {
        total = total.add(a[k].mul(b[k]).to_double());
        k = k + 1;
    }
    total
}

/// At least the smallest energy; NaN stays.
pub open spec fn floored(energy: Single) -> Single {
    if energy.below(energy_floor()) {
        energy_floor()
    } else {
        energy
    }
}

/// What the logarithm is taken of for one band.
pub open spec fn band_energy(spectrum: Seq<Complex>, band: Seq<Single>) -> Single {
    floored(wide_dot(powers(spectrum), band).narrowed())
}

/// At least the smallest energy; NaN stays, so that it shows in the result.
pub fn floor_energy(energy: Single) -> (r: Single)
    ensures
        r == floored(energy),
{
    let floor: Single = Single::from_bits(0x3400_0000);
    if energy.lt(floor) {
        floor
    } else {
        energy
    }
}

/// The features of one frame: `fft` returned a spectrum for the frame, and `ln` each
/// feature for the energy of its band.
pub open spec fn is_feature_row<F: Fn(&[Single]) -> Vec<Complex>, G: Fn(Single) -> Single>(
    row: Seq<Single>,
    input: Seq<Single>,
    tables: FbankTables,
    fft: F,
    ln: G,
) -> bool {
    exists|frame: &[Single], spectrum: Vec<Complex>|
        frame@ == input && #[trigger] call_ensures(fft, (frame,), spectrum) && is_log_row(
            row,
            spectrum@,
            tables,
            ln,
        )
}

/// `ln` returned each feature for the energy of its band.
pub open spec fn is_log_row<G: Fn(Single) -> Single>(
    row: Seq<Single>,
    spectrum: Seq<Complex>,
    tables: FbankTables,
    ln: G,
) -> bool {
    &&& row.len() == FBANK_NUM_MELS
    &&& forall|m: int|
        0 <= m < row.len() ==> call_ensures(
            ln,
            (band_energy(spectrum, tables.bank@[m]@),),
            #[trigger] row[m],
        )
}

/// The features of all frames, frame by frame.
pub open spec fn is_log_mel<F: Fn(&[Single]) -> Vec<Complex>, G: Fn(Single) -> Single>(
    features: Seq<Single>,
    samples: Seq<Single>,
    tables: FbankTables,
    fft: F,
    ln: G,
) -> bool {
    &&& features.len() == frame_count(samples.len()) * FBANK_NUM_MELS
    &&& forall|f: int|
        0 <= f < frame_count(samples.len()) ==> #[trigger] is_feature_row(
            features.subrange(f * FBANK_NUM_MELS, (f + 1) * FBANK_NUM_MELS),
            transform_input(samples, f, tables.window@),
            tables,
            fft,
            ln,
        )
}

/// `fft` and `ln` are fixed functions: they give one result for each argument.
pub open spec fn are_functions<F: Fn(&[Single]) -> Vec<Complex>, G: Fn(Single) -> Single>(
    fft: F,
    ln: G,
) -> bool {
    &&& forall|a: &[Single], b: &[Single], s: Vec<Complex>, t: Vec<Complex>|
        a@ == b@ && #[trigger] call_ensures(fft, (a,), s) && #[trigger] call_ensures(fft, (b,), t)
            ==> s@ == t@
    &&& forall|x: Single, a: Single, b: Single| #[trigger]
        call_ensures(ln, (x,), a) && #[trigger] call_ensures(ln, (x,), b) ==> a == b
}

/// What is asked of the transform and the logarithm: that they accept their arguments
/// and are functions of them, and the length of a spectrum.
pub open spec fn are_kernels<F: Fn(&[Single]) -> Vec<Complex>, G: Fn(Single) -> Single>(
    fft: F,
    ln: G,
) -> bool {
    &&& forall|frame: &[Single]|
        frame@.len() == PADDED_WINDOW_SIZE ==> #[trigger] call_requires(fft, (frame,))
    &&& forall|frame: &[Single], spectrum: Vec<Complex>| #[trigger]
        call_ensures(fft, (frame,), spectrum) ==> spectrum@.len() == FFT_SPECTRUM_LEN
    &&& forall|x: Single| #[trigger] call_requires(ln, (x,))
    &&& are_functions(fft, ln)
}

/// The features of one frame.
fn frame_features<F: Fn(&[Single]) -> Vec<Complex>, G: Fn(Single) -> Single>(
    input: &[Single],
    tables: &FbankTables,
    fft: &F,
    ln: &G,
) -> (row: Vec<Single>)
    requires
        input.len() == PADDED_WINDOW_SIZE,
        tables.fits(),
        are_kernels(*fft, *ln),
    ensures
        is_feature_row(row@, input@, *tables, *fft, *ln),
        row.len() == FBANK_NUM_MELS,
{
    let spectrum: Vec<Complex> = fft(input);
    let power: Vec<Single> = power_spectrum(spectrum.as_slice());
    let mut row: Vec<Single> = Vec::with_capacity(FBANK_NUM_MELS);
    while row.len() < FBANK_NUM_MELS
        invariant
            tables.fits(),
            are_kernels(*fft, *ln),
            power@ == powers(spectrum@),
            spectrum.len() == FFT_SPECTRUM_LEN,
            row.len() <= FBANK_NUM_MELS,
            forall|m: int|
                0 <= m < row.len() ==> call_ensures(
                    *ln,
                    (band_energy(spectrum@, tables.bank@[m]@),),
                    #[trigger] row@[m],
                ),
        decreases FBANK_NUM_MELS - row.len(),
    {
        let m: usize = row.len();
        proof {
            assert(tables.bank@[m as int]@.len() == FFT_SPECTRUM_LEN);
        }
        let energy: Single = floor_energy(
            fma_dot_f32_to_f64(power.as_slice(), tables.bank[m].as_slice()).to_single(),
        );
        let feature: Single = ln(energy);
        row.push(feature);
    }
    proof {
        assert(is_log_row(row@, spectrum@, *tables, *ln));
        assert(call_ensures(*fft, (input,), spectrum));
    }
    row
}

/// The log-mel features of all whole frames, frame by frame. `fft` transforms a
/// padded frame, `ln` is the natural logarithm.
pub fn compute_torchaudio_fbank<
    F: Fn(&[Single]) -> Vec<Complex>,
    G: Fn(Single) -> Single,
>(samples: &[Single], tables: &FbankTables, fft: &F, ln: &G) -> (out: Vec<Single>)
    requires
        tables.fits(),
        are_kernels(*fft, *ln),
    ensures
        is_log_mel(out@, samples@, *tables, *fft, *ln),
{
    let n: usize = samples.len();
    let mut out: Vec<Single> = Vec::new();
    if n < WINDOW_SIZE {
        return out;
    }
    let num_frames: usize = 1 + (n - WINDOW_SIZE) / WINDOW_SHIFT;
    let mut f: usize = 0;
    while f < num_frames
        invariant
            tables.fits(),
            are_kernels(*fft, *ln),
            num_frames == frame_count(samples@.len()),
            f <= num_frames,
            out.len() == f * FBANK_NUM_MELS,
            forall|g: int|
                0 <= g < f ==> #[trigger] is_feature_row(
                    out@.subrange(g * FBANK_NUM_MELS, (g + 1) * FBANK_NUM_MELS),
                    transform_input(samples@, g, tables.window@),
                    *tables,
                    *fft,
                    *ln,
                ),
        decreases num_frames - f,
    {
        let input: Vec<Single> = prepare_frame(samples, f, tables.window.as_slice());
        let mut row: Vec<Single> = frame_features(input.as_slice(), tables, fft, ln);
        let ghost before = out@;
        let ghost added_row = row@;
        out.append(&mut row);
        proof {
            assert forall|g: int| 0 <= g < f + 1 implies #[trigger] is_feature_row(
                out@.subrange(g * FBANK_NUM_MELS, (g + 1) * FBANK_NUM_MELS),
                transform_input(samples@, g, tables.window@),
                *tables,
                *fft,
                *ln,
            ) by {
                if g < f {
                    assert(out@.subrange(g * FBANK_NUM_MELS, (g + 1) * FBANK_NUM_MELS)
                        =~= before.subrange(g * FBANK_NUM_MELS, (g + 1) * FBANK_NUM_MELS));
                } else {
                    assert(out@.subrange(g * FBANK_NUM_MELS, (g + 1) * FBANK_NUM_MELS)
                        =~= added_row);
                }
            }
        }
        f = f + 1;
    }
    out
}

/// The mean of band `m` over all frames, in double precision.
pub open spec fn band_mean(features: Seq<Single>, frames: nat, m: int) -> Double {
    added(Double::zero_spec(), band_column(features, frames, m), frames).over(
        Double::natural(frames),
    )
}

/// Band `m` of all frames.
pub open spec fn band_column(features: Seq<Single>, frames: nat, m: int) -> Seq<Double> {
    Seq::new(frames, |f: int| features[f * FBANK_NUM_MELS + m].widened())
}

/// The features less the mean of their band.
pub open spec fn without_means(features: Seq<Single>, frames: nat) -> Seq<Single> {
    Seq::new(
        features.len(),
        |t: int|
            features[t].minus(
                band_mean(features, frames, t % FBANK_NUM_MELS as int).narrowed(),
            ),
    )
}

/// Takes the mean of its band from every feature.
pub fn subtract_band_means(features: &[Single], frames: usize) -> (r: Vec<Single>)
    requires
        features.len() == frames * FBANK_NUM_MELS,
    ensures
        r@ == without_means(features@, frames as nat),
{
    let mut means: Vec<Single> = Vec::with_capacity(FBANK_NUM_MELS);
    while means.len() < FBANK_NUM_MELS
        invariant
            features.len() == frames * FBANK_NUM_MELS,
            means.len() <= FBANK_NUM_MELS,
            forall|m: int|
                0 <= m < means.len() ==> #[trigger] means@[m] == band_mean(
                    features@,
                    frames as nat,
                    m,
                ).narrowed(),
        decreases FBANK_NUM_MELS - means.len(),
    {
        let m: usize = means.len();
        let mut total: Double = Double::zero();
        let mut f: usize = 0;
        while f < frames
            invariant
                m < FBANK_NUM_MELS,
                features.len() == frames * FBANK_NUM_MELS,
                f <= frames,
                total == added(
                    Double::zero_spec(),
                    band_column(features@, frames as nat, m as int),
                    f as nat,
                ),
            decreases frames - f,
        {
            let size: usize = features.len();
            assert(f * FBANK_NUM_MELS + FBANK_NUM_MELS <= size);
            total = total.add(features[f * FBANK_NUM_MELS + m].to_double());
            f = f + 1;
        }
        means.push(total.div(Double::from_u64(frames as u64)).to_single());
    }
    let mut r: Vec<Single> = Vec::with_capacity(features.len());
    while r.len() < features.len()
        invariant
            means.len() == FBANK_NUM_MELS,
            forall|m: int|
                0 <= m < means.len() ==> #[trigger] means@[m] == band_mean(
                    features@,
                    frames as nat,
                    m,
                ).narrowed(),
            r.len() <= features.len(),
            forall|t: int|
                0 <= t < r.len() ==> #[trigger] r@[t] == without_means(
                    features@,
                    frames as nat,
                )[t],
        decreases features.len() - r.len(),
    {
        let t: usize = r.len();
        r.push(features[t].sub(means[t % FBANK_NUM_MELS]));
    }
    proof {
        assert(r@ =~= without_means(features@, frames as nat));
    }
    r
}

/// The first frame that is kept of a clip with too many.
pub open spec fn crop_start(n: nat) -> nat {
    if frame_count(n) > FBANK_FRAMES {
        (frame_count(n) - FBANK_FRAMES) as nat / 2
    } else {
        0
    }
}

/// The samples that are kept: those of the middle frames of a clip with too many.
pub open spec fn cropped(samples: Seq<Single>) -> Seq<Single> {
    if frame_count(samples.len()) > FBANK_FRAMES {
        let start = crop_start(samples.len()) * WINDOW_SHIFT;
        samples.subrange(
            start as int,
            start + (FBANK_FRAMES - 1) * WINDOW_SHIFT + WINDOW_SIZE,
        )
    } else {
        samples
    }
}

/// The frames before the first one of a clip with too few.
pub open spec fn pad_left(frames: nat) -> nat {
    (FBANK_FRAMES - frames) as nat / 2
}

/// Features in the middle of a fixed number of frames, with zeros around them.
pub open spec fn arranged(features: Seq<Single>, frames: nat) -> Seq<Single> {
    Seq::new(
        FBANK_FRAMES as nat * FBANK_NUM_MELS as nat,
        |t: int|
            if 0 <= t - pad_left(frames) * FBANK_NUM_MELS < features.len() {
                features[t - pad_left(frames) * FBANK_NUM_MELS]
            } else {
                Single::zero_spec()
            },
    )
}

/// Cropping leaves the fixed number of frames.
pub proof fn law_cropped_clip_fills_the_window(samples: Seq<Single>)
    requires
        frame_count(samples.len()) > FBANK_FRAMES,
    ensures
        crop_start(samples.len()) * WINDOW_SHIFT + (FBANK_FRAMES - 1) * WINDOW_SHIFT + WINDOW_SIZE
            <= samples.len(),
        frame_count(cropped(samples).len()) == FBANK_FRAMES,
        forall|f: int, window: Seq<Single>|
            0 <= f < FBANK_FRAMES ==> #[trigger] transform_input(cropped(samples), f, window)
                == transform_input(samples, crop_start(samples.len()) + f, window),
{
    let n = samples.len();
    let start = crop_start(n);
    lemma_frame_inside(n, start + FBANK_FRAMES - 1);
    assert((start + FBANK_FRAMES - 1) * WINDOW_SHIFT == start * WINDOW_SHIFT + (FBANK_FRAMES - 1)
        * WINDOW_SHIFT);
    assert(cropped(samples).len() == (FBANK_FRAMES - 1) * WINDOW_SHIFT + WINDOW_SIZE);
    assert forall|f: int, window: Seq<Single>| 0 <= f < FBANK_FRAMES implies
        #[trigger] transform_input(cropped(samples), f, window) == transform_input(
        samples,
        start + f,
        window,
    ) by {
        assert((start + f) * WINDOW_SHIFT == start * WINDOW_SHIFT + f * WINDOW_SHIFT);
        assert(raw_frame(cropped(samples), f) =~= raw_frame(samples, start + f));
    }
}

/// What is wrong with a clip.
pub open spec fn clip_error(samples: Seq<Single>) -> Option<Error> {
    if samples.len() < MIN_CLIP_SAMPLES {
        Some(Error::InvalidClip { len: samples.len() as usize, min: MIN_CLIP_SAMPLES as usize })
    } else if exists|i: int| 0 <= i < samples.len() && !(#[trigger] samples[i]).finite() {
        Some(Error::NonFiniteInput)
    } else {
        None
    }
}

/// Finds what is wrong with a clip.
pub fn check_clip(samples: &[Single]) -> (r: Result<(), Error>)
    ensures
        match clip_error(samples@) {
            Some(e) => r == Err::<(), Error>(e),
            None => r is Ok,
        },
{
    if samples.len() < MIN_CLIP_SAMPLES as usize {
        return Err(
            Error::InvalidClip { len: samples.len(), min: MIN_CLIP_SAMPLES as usize },
        );
    }
    let mut i: usize = 0;
    while i < samples.len()
        invariant
            i <= samples.len(),
            samples.len() >= MIN_CLIP_SAMPLES,
            forall|k: int| 0 <= k < i ==> (#[trigger] samples@[k]).finite(),
        decreases samples.len() - i,
    {
        if !samples[i].is_finite() {
            proof {
                assert(!samples@[i as int].finite());
            }
            return Err(Error::NonFiniteInput);
        }
        i = i + 1;
    }
    Ok(())
}

/// Puts features in the middle of a fixed number of frames and takes the mean of its
/// band from each.
pub fn finish_fbank(features: &[Single]) -> (r: Box<[[Single; FBANK_NUM_MELS]; FBANK_FRAMES]>)
    requires
        features.len() % FBANK_NUM_MELS == 0,
        features.len() <= FBANK_FRAMES * FBANK_NUM_MELS,
    ensures
        is_finished(r@, features@),
{
    let frames: usize = features.len() / FBANK_NUM_MELS;
    let pad: usize = (FBANK_FRAMES - frames) / 2;
    let size: usize = FBANK_FRAMES * FBANK_NUM_MELS;
    let mut all: Vec<Single> = Vec::with_capacity(size);
    while all.len() < size
        invariant
            size == FBANK_FRAMES * FBANK_NUM_MELS,
            features.len() <= size,
            pad == pad_left(frames as nat),
            frames <= FBANK_FRAMES,
            all.len() <= size,
            forall|t: int|
                0 <= t < all.len() ==> #[trigger] all@[t] == arranged(
                    features@,
                    frames as nat,
                )[t],
        decreases size - all.len(),
    {
        let t: usize = all.len();
        if t >= pad * FBANK_NUM_MELS && t - pad * FBANK_NUM_MELS < features.len() {
            all.push(features[t - pad * FBANK_NUM_MELS]);
        } else {
            all.push(Single::zero());
        }
    }
    proof {
        assert(all@ =~= arranged(features@, frames as nat));
    }
    let flat: Vec<Single> = subtract_band_means(all.as_slice(), FBANK_FRAMES);
    let mut out: Box<[[Single; FBANK_NUM_MELS]; FBANK_FRAMES]> = Box::new(
        [[Single::zero(); FBANK_NUM_MELS]; FBANK_FRAMES],
    );
    let mut f: usize = 0;
    while f < FBANK_FRAMES
        invariant
            f <= FBANK_FRAMES,
            flat.len() == FBANK_FRAMES * FBANK_NUM_MELS,
            out@.len() == FBANK_FRAMES,
            forall|g: int, m: int|
                0 <= g < f && 0 <= m < FBANK_NUM_MELS ==> #[trigger] out@[g]@[m] == flat@[g
                    * FBANK_NUM_MELS + m],
        decreases FBANK_FRAMES - f,
    {
        let mut row: [Single; FBANK_NUM_MELS] = [Single::zero(); FBANK_NUM_MELS];
        let mut m: usize = 0;
        while m < FBANK_NUM_MELS
            invariant
                m <= FBANK_NUM_MELS,
                f < FBANK_FRAMES,
                flat.len() == FBANK_FRAMES * FBANK_NUM_MELS,
                row@.len() == FBANK_NUM_MELS,
                forall|k: int|
                    0 <= k < m ==> #[trigger] row@[k] == flat@[f * FBANK_NUM_MELS + k],
            decreases FBANK_NUM_MELS - m,
        {
            row[m] = flat[f * FBANK_NUM_MELS + m];
            m = m + 1;
        }
        out[f] = row;
        f = f + 1;
    }
    out
}

/// The features of a clip, in a fixed number of frames and without the means of
/// their bands.
pub open spec fn is_finished(
    r: Seq<[Single; FBANK_NUM_MELS]>,
    features: Seq<Single>,
) -> bool {
    let frames = features.len() / FBANK_NUM_MELS as nat;
    &&& r.len() == FBANK_FRAMES
    &&& forall|f: int, m: int|
        0 <= f < FBANK_FRAMES && 0 <= m < FBANK_NUM_MELS ==> #[trigger] r[f]@[m]
            == without_means(arranged(features, frames), FBANK_FRAMES as nat)[f * FBANK_NUM_MELS
            + m]
}

/// The features of a clip in a fixed number of frames: too long a clip keeps its
/// middle, too short a one gets zeros around it. Each feature is less the mean of
/// its band.
pub fn compute_fbank<F: Fn(&[Single]) -> Vec<Complex>, G: Fn(Single) -> Single>(
    samples: &[Single],
    tables: &FbankTables,
    fft: &F,
    ln: &G,
) -> (r: Result<Box<[[Single; FBANK_NUM_MELS]; FBANK_FRAMES]>, Error>)
    requires
        tables.fits(),
        are_kernels(*fft, *ln),
    ensures
        match clip_error(samples@) {
            Some(e) => r is Err && r->Err_0 == e,
            None => r is Ok && exists|features: Seq<Single>| #[trigger]
                is_log_mel(features, cropped(samples@), *tables, *fft, *ln) && is_finished(
                    r->Ok_0@,
                    features,
                ),
        },
{
    match check_clip(samples) {
        Ok(()) => {},
        Err(e) => {
            return Err(e);
        },
    }
    let n: usize = samples.len();
    let max_frames: usize = 1 + (n - WINDOW_SIZE) / WINDOW_SHIFT;
    let kept: &[Single] = if max_frames > FBANK_FRAMES {
        let start_frame: usize = (max_frames - FBANK_FRAMES) / 2;
        proof {
            law_cropped_clip_fills_the_window(samples@);
        }
        let start: usize = start_frame * WINDOW_SHIFT;
        slice_subrange(samples, start, start + (FBANK_FRAMES - 1) * WINDOW_SHIFT + WINDOW_SIZE)
    } else {
        samples
    };
    let features: Vec<Single> = compute_torchaudio_fbank(kept, tables, fft, ln);
    proof {
        assert(kept@ =~= cropped(samples@));
        assert(frame_count(kept@.len()) <= FBANK_FRAMES);
        assert(features@.len() % FBANK_NUM_MELS as nat == 0);
    }
    Ok(finish_fbank(features.as_slice()))
}

/// The features of all whole frames of a clip, frame by frame, each less the mean of
/// its band.
pub fn compute_full_fbank<F: Fn(&[Single]) -> Vec<Complex>, G: Fn(Single) -> Single>(
    samples: &[Single],
    tables: &FbankTables,
    fft: &F,
    ln: &G,
) -> (r: Result<Vec<Single>, Error>)
    requires
        tables.fits(),
        are_kernels(*fft, *ln),
    ensures
        match clip_error(samples@) {
            Some(e) => r == Err::<Vec<Single>, Error>(e),
            None => r is Ok && exists|features: Seq<Single>| #[trigger]
                is_log_mel(features, samples@, *tables, *fft, *ln) && r->Ok_0@ == without_means(
                    features,
                    frame_count(samples@.len()),
                ),
        },
{
    match check_clip(samples) {
        Ok(()) => {},
        Err(e) => {
            return Err(e);
        },
    }
    let features: Vec<Single> = compute_torchaudio_fbank(samples, tables, fft, ln);
    let num_frames: usize = features.len() / FBANK_NUM_MELS;
    proof {
        assert(features@.len() == frame_count(samples@.len()) * FBANK_NUM_MELS);
        assert(num_frames == frame_count(samples@.len()));
        assert(is_log_mel(features@, samples@, *tables, *fft, *ln));
    }
    Ok(subtract_band_means(features.as_slice(), num_frames))
}

} // verus!
