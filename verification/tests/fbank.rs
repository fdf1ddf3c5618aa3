//! Log-mel features.

use diaric::embed::fbank::{floor_energy, power_spectrum, prepare_frame};
use diaric::embed::mel::{hamming_window, mel_bank as bank_of, FFT_SPECTRUM_LEN, WINDOW_SIZE};
use diaric::embed::{
    Complex, Error, FbankTables, EMBED_WINDOW_SAMPLES, FBANK_FRAMES, FBANK_NUM_MELS,
    MIN_CLIP_SAMPLES,
};
use diaric::float::{Double, Single};
use realfft::RealFftPlanner;

const NUM_MEL_BINS: usize = FBANK_NUM_MELS;

fn single(x: f32) -> Single {
    Single::from_bits(x.to_bits())
}

fn native(x: Single) -> f32 {
    f32::from_bits(x.to_bits())
}

fn singles(v: &[f32]) -> Vec<Single> {
    v.iter().map(|&x| single(x)).collect()
}

fn on_double(g: fn(f64) -> f64) -> impl Fn(Double) -> Double {
    move |x| Double::from_bits(g(f64::from_bits(x.to_bits())).to_bits())
}

fn tables() -> FbankTables {
    FbankTables { window: hamming_window(on_double(f64::cos)), bank: bank_of(on_double(f64::ln)) }
}

fn fft(frame: &[Single]) -> Vec<Complex> {
    let plan = RealFftPlanner::<f32>::new().plan_fft_forward(frame.len());
    let mut input: Vec<f32> = frame.iter().map(|&x| native(x)).collect();
    let mut output = plan.make_output_vec();
    plan.process(&mut input, &mut output).unwrap();
    output.iter().map(|c| Complex { re: single(c.re), im: single(c.im) }).collect()
}

fn ln(x: Single) -> Single {
    single(native(x).ln())
}

fn compute_fbank(samples: &[f32]) -> Result<Vec<Vec<f32>>, Error> {
    diaric::embed::compute_fbank(&singles(samples), &tables(), &fft, &ln)
        .map(|rows| rows.iter().map(|row| row.iter().map(|&x| native(x)).collect()).collect())
}

fn compute_full_fbank(samples: &[f32]) -> Result<Vec<f32>, Error> {
    diaric::embed::compute_full_fbank(&singles(samples), &tables(), &fft, &ln)
        .map(|v| v.into_iter().map(native).collect())
}

fn mel_bank() -> Vec<Vec<f32>> {
    tables().bank.into_iter().map(|row| row.into_iter().map(native).collect()).collect()
}

fn fma_dot_f32_to_f64(a: &[f32], b: &[f32]) -> f64 {
    let r = diaric::embed::fbank::fma_dot_f32_to_f64(&singles(a), &singles(b));
    f64::from_bits(r.to_bits())
}

fn fma_dot_scalar(a: &[f32], b: &[f32]) -> f64 {
    let mut sum = 0.0_f64;
    for (x, y) in a.iter().zip(b.iter()) {
        sum += (*x * *y) as f64;
    }
    sum
}

#[test]
fn rejects_too_short() {
    let r = compute_fbank(&[0.1; 100]);
    assert!(
        matches!(r, Err(Error::InvalidClip { len: 100, min: 400 })),
        "expected InvalidClip {{ len: 100, min: 400 }}, got {r:?}"
    );
}

#[test]
fn rejects_nan() {
    let r = compute_fbank(&[f32::NAN; 32_000]);
    assert!(
        matches!(r, Err(Error::NonFiniteInput)),
        "expected NonFiniteInput, got {r:?}"
    );
}

#[test]
fn produces_correct_shape_for_2s_clip() {
    let samples = vec![0.001_f32; EMBED_WINDOW_SAMPLES as usize];
    let f = compute_fbank(&samples).unwrap();
    assert_eq!(f.len(), FBANK_FRAMES);
    assert_eq!(f[0].len(), FBANK_NUM_MELS);
    for row in f.iter() {
        for &v in row.iter() {
            assert!(v.is_finite(), "fbank coefficient went non-finite: {v}");
        }
    }
}

#[test]
fn produces_correct_shape_for_short_clip_with_padding() {
    let samples = vec![0.001_f32; MIN_CLIP_SAMPLES as usize + 100];
    let f = compute_fbank(&samples).unwrap();
    assert_eq!(f.len(), FBANK_FRAMES);
}

#[test]
fn accepts_min_clip_samples_exactly() {
    let samples = vec![0.001_f32; MIN_CLIP_SAMPLES as usize];
    let f = compute_fbank(&samples).unwrap();
    assert_eq!(f.len(), FBANK_FRAMES);
    assert_eq!(f[0].len(), FBANK_NUM_MELS);
}

#[test]
fn produces_correct_shape_for_long_clip_with_center_crop() {
    let samples = vec![0.001_f32; 2 * EMBED_WINDOW_SAMPLES as usize];
    let f = compute_fbank(&samples).unwrap();
    assert_eq!(f.len(), FBANK_FRAMES);
    assert_eq!(f[0].len(), FBANK_NUM_MELS);
    for row in f.iter() {
        for &v in row.iter() {
            assert!(v.is_finite(), "center-crop branch produced non-finite: {v}");
        }
    }
}

#[test]
fn full_fbank_rejects_too_short() {
    let r = compute_full_fbank(&[0.1; 100]);
    assert!(
        matches!(r, Err(Error::InvalidClip { len: 100, min: 400 })),
        "expected InvalidClip {{ len: 100, min: 400 }}, got {r:?}"
    );
}

#[test]
fn full_fbank_rejects_non_finite() {
    let r = compute_full_fbank(&[f32::NAN; 32_000]);
    assert!(matches!(r, Err(Error::NonFiniteInput)));
    let r = compute_full_fbank(&[f32::INFINITY; 32_000]);
    assert!(matches!(r, Err(Error::NonFiniteInput)));
}

#[test]
fn full_fbank_shape_scales_with_input_length() {
    let samples = vec![0.001_f32; 160_000];
    let out = compute_full_fbank(&samples).unwrap();
    assert!(!out.is_empty());
    assert_eq!(out.len() % FBANK_NUM_MELS, 0);
    assert_eq!(out.len() / FBANK_NUM_MELS, 998);
    for v in &out {
        assert!(v.is_finite());
    }
}

#[test]
fn full_fbank_is_mean_centered_per_mel() {
    let samples: Vec<f32> = (0..32_000)
        .map(|i| (2.0 * std::f32::consts::PI * 440.0 * i as f32 / 16_000.0).sin() * 0.5)
        .collect();
    let out = compute_full_fbank(&samples).unwrap();
    let frames = out.len() / FBANK_NUM_MELS;
    assert!(frames > 1);
    for m in 0..FBANK_NUM_MELS {
        let mean: f64 = (0..frames)
            .map(|f| f64::from(out[f * FBANK_NUM_MELS + m]))
            .sum::<f64>()
            / frames as f64;
        assert!(
            mean.abs() < 1e-3,
            "mel {m} mean = {mean} (should be ≈ 0 after mean-subtraction)"
        );
    }
}

#[test]
fn compares_against_torchaudio_inline_chirp_snapshot() {
    let n = 24_000_usize;
    let sr = 16_000.0_f32;
    let chunk: Vec<f32> = (0..n)
        .map(|i| {
            let t = i as f32 / sr;
            let freq = 100.0 + 600.0 * t;
            0.3 * (2.0 * std::f32::consts::PI * freq * t).sin()
        })
        .collect();
    let out = compute_full_fbank(&chunk).unwrap();
    let frames = out.len() / NUM_MEL_BINS;
    assert_eq!(frames, 148);
    let torchaudio_ref: [(usize, usize, f32); 8] = [
        (5, 0, 2.446_690),
        (5, 40, -4.950_203),
        (5, 79, -3.003_859),
        (50, 10, -1.586_259),
        (50, 40, -2.035_988),
        (50, 70, -0.119_349),
        (100, 25, -0.236_334),
        (140, 55, 2.090_996),
    ];
    let mut max_abs = 0.0_f32;
    for (f_idx, m, expected) in torchaudio_ref {
        let got = out[f_idx * NUM_MEL_BINS + m];
        let d = (got - expected).abs();
        if d > max_abs {
            max_abs = d;
        }
    }
    assert!(
        max_abs < 1e-4,
        "fbank vs torchaudio drifted by {max_abs:.3e} (max abs over 8 \
          anchor cells); a SIMD dispatch or kernel regression?"
    );
}

#[test]
fn nan_propagates_through_log_floor() {
    let mut power = vec![1.0_f32; FFT_SPECTRUM_LEN];
    power[3] = f32::NAN;
    let bank = mel_bank();
    let acc = fma_dot_f32_to_f64(&power, &bank[10]);
    let acc_f32 = acc as f32;
    let floored = native(floor_energy(single(acc_f32)));
    let log = floored.ln();
    assert!(
        log.is_nan(),
        "expected NaN to propagate through the log floor, got {log}"
    );
}

#[test]
fn dot_kernels_agree_with_scalar() {
    let lens = [1, 3, 4, 7, 8, 15, 16, 17, 31, 32, 64, 257];
    for &n in &lens {
        let a: Vec<f32> = (0..n).map(|i| (i as f32 * 0.137).sin()).collect();
        let b: Vec<f32> = (0..n).map(|i| (i as f32 * 0.241 + 1.0).cos()).collect();
        let s = fma_dot_scalar(&a, &b);
        let dispatched = fma_dot_f32_to_f64(&a, &b);
        let tol = (n as f64) * (f32::EPSILON as f64) * (1.0 + s.abs());
        assert!(
            (dispatched - s).abs() < tol,
            "n={n}: dispatched={dispatched}, scalar={s}, tol={tol:.3e}"
        );
    }
}

#[test]
fn dot_product_adds_up_in_order() {
    let a: Vec<f32> = (0..257).map(|i| (i as f32 * 0.137).sin()).collect();
    let b: Vec<f32> = (0..257).map(|i| (i as f32 * 0.241 + 1.0).cos()).collect();
    assert_eq!(fma_dot_f32_to_f64(&a, &b), fma_dot_scalar(&a, &b));
}

#[test]
fn window_weights_are_those_of_the_formula() {
    let window = tables().window;
    assert_eq!(window.len(), WINDOW_SIZE);
    for (i, &w) in window.iter().enumerate() {
        let angle = 2.0 * std::f64::consts::PI * i as f64 / 399.0;
        assert_eq!(native(w), (0.54 - 0.46 * angle.cos()) as f32);
    }
}

#[test]
fn bank_weights_are_those_of_the_formula() {
    let mel = |f: f64| 1127.0 * (1.0 + f / 700.0).ln();
    let (low, high) = (mel(20.0), mel(8000.0));
    let step = (high - low) / 81.0;
    let bank = mel_bank();
    assert_eq!(bank.len(), 80);
    for (m, row) in bank.iter().enumerate() {
        assert_eq!(row.len(), FFT_SPECTRUM_LEN);
        let left = low + m as f64 * step;
        let center = low + (m as f64 + 1.0) * step;
        let right = low + (m as f64 + 2.0) * step;
        for k in 0..256 {
            let at = mel(31.25 * k as f64);
            let up = (at - left) / (center - left);
            let down = (right - at) / (right - center);
            assert_eq!(row[k], up.min(down).max(0.0) as f32, "band {m}, entry {k}");
        }
        assert_eq!(row[256], 0.0);
    }
}

#[test]
fn frames_are_prepared_step_by_step() {
    let samples: Vec<f32> = (0..1000).map(|i| (i as f32 * 0.05).sin() * 0.4 + 0.1).collect();
    let t = tables();
    let frame = prepare_frame(&singles(&samples), 2, &t.window);
    let raw: Vec<f32> = samples[320..720].iter().map(|x| x * 32768.0).collect();
    let mut sum = 0.0f32;
    for v in &raw {
        sum += *v;
    }
    let level: Vec<f32> = raw.iter().map(|v| v - sum / 400.0).collect();
    for j in 0..512 {
        let expected = if j < 400 {
            (level[j] - 0.97 * level[if j == 0 { 0 } else { j - 1 }]) * native(t.window[j])
        } else {
            0.0
        };
        assert_eq!(native(frame[j]), expected, "sample {j}");
    }
}

#[test]
fn power_is_the_square_of_the_rounded_magnitude() {
    let spectrum = [Complex { re: single(0.3), im: single(-0.7) }];
    let magnitude = (0.3f32 * 0.3 + 0.7 * 0.7).sqrt();
    assert_eq!(native(power_spectrum(&spectrum)[0]), magnitude * magnitude);
}

#[test]
fn energies_have_a_floor() {
    assert_eq!(native(floor_energy(single(0.0))), f32::EPSILON);
    assert_eq!(native(floor_energy(single(1.0))), 1.0);
    assert!(native(floor_energy(single(f32::NAN))).is_nan());
}

#[test]
fn short_clips_stand_in_the_middle() {
    let samples: Vec<f32> = (0..560).map(|i| (i as f32 * 0.3).sin()).collect();
    let rows = compute_fbank(&samples).unwrap();
    for m in 0..FBANK_NUM_MELS {
        for f in 0..FBANK_FRAMES {
            if f != 99 && f != 100 {
                assert_eq!(rows[f][m], rows[0][m]);
            }
        }
    }
    assert_ne!(rows[99], rows[0]);
    assert_ne!(rows[100], rows[0]);
}

#[test]
fn long_clips_keep_their_middle() {
    let n = 399 + 160 * 205;
    let samples: Vec<f32> = (0..n).map(|i| ((i * i % 977) as f32 * 0.01).sin()).collect();
    let rows = compute_fbank(&samples).unwrap();
    let middle = &samples[2 * 160..2 * 160 + 199 * 160 + 400];
    let full = compute_full_fbank(middle).unwrap();
    for f in 0..FBANK_FRAMES {
        assert_eq!(rows[f], full[f * FBANK_NUM_MELS..(f + 1) * FBANK_NUM_MELS]);
    }
}

#[test]
fn tables_are_the_window_and_the_bank() {
    let made = FbankTables::new(on_double(f64::cos), on_double(f64::ln));
    let parts = tables();
    assert_eq!(made.window, parts.window);
    assert_eq!(made.bank, parts.bank);
    assert_eq!(made.window.len(), WINDOW_SIZE);
    assert_eq!(made.bank.len(), FBANK_NUM_MELS);
    assert!(made.bank.iter().all(|band| band.len() == FFT_SPECTRUM_LEN));
}

#[test]
fn samples_outside_the_middle_do_not_matter() {
    let clip: Vec<f32> = (0..40_000).map(|i| (i as f32 * 0.031).sin() * 0.3).collect();
    let frames = 1 + (clip.len() - WINDOW_SIZE) / 160;
    let start = (frames - FBANK_FRAMES) / 2 * 160;
    let end = start + (FBANK_FRAMES - 1) * 160 + WINDOW_SIZE;
    let whole = compute_fbank(&clip).unwrap();
    assert_eq!(compute_fbank(&clip[start..end]).unwrap(), whole);
    let mut other = clip.clone();
    other[..start].fill(0.9);
    other[end..].fill(-0.9);
    assert_eq!(compute_fbank(&other).unwrap(), whole);
}

#[test]
fn a_frame_depends_on_its_own_samples() {
    let a: Vec<f32> = (0..4_000).map(|i| (i as f32 * 0.07).cos() * 0.2).collect();
    let mut b = a.clone();
    b[1_000] = 0.5;
    let features = |v: &[f32]| {
        diaric::embed::fbank::compute_torchaudio_fbank(&singles(v), &tables(), &fft, &ln)
    };
    let (x, y) = (features(&a), features(&b));
    assert_eq!(x.len(), y.len());
    for f in 0..x.len() / FBANK_NUM_MELS {
        let row = f * FBANK_NUM_MELS..(f + 1) * FBANK_NUM_MELS;
        let holds = (f * 160..f * 160 + WINDOW_SIZE).contains(&1_000);
        assert_eq!(x[row.clone()] != y[row], holds);
    }
    let later = features(&a[320..]);
    assert_eq!(x[2 * FBANK_NUM_MELS..][..later.len()], later[..]);
}
