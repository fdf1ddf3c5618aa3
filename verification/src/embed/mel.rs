//! The analysis window and the mel filter bank.

use vstd::prelude::*;
use crate::aggregate::hamming::{hamming_angle, hamming_weight, window_angle, window_weight};
use crate::embed::options::FBANK_NUM_MELS;
use crate::float::{Double, Single};

verus! {

/// Samples of one frame: 25 ms.
pub const WINDOW_SIZE: usize = 400;

/// Samples from one frame to the next: 10 ms.
pub const WINDOW_SHIFT: usize = 160;

/// Samples of a frame with the zeros after it, a power of two.
pub const PADDED_WINDOW_SIZE: usize = 512;

/// Frequencies that the mel bands weigh.
pub const NUM_FFT_BINS: usize = 256;

/// Frequencies of a spectrum, the highest one included.
pub const FFT_SPECTRUM_LEN: usize = 257;

/// `cosines` are those that `cosine` returned for the angles of the window.
pub open spec fn is_window_cosines<F: Fn(Double) -> Double>(
    cosine: F,
    cosines: Seq<Double>,
) -> bool {
    &&& cosines.len() == WINDOW_SIZE
    &&& forall|i: int|
        0 <= i < cosines.len() ==> call_ensures(
            cosine,
            (window_angle(i as nat, WINDOW_SIZE as nat),),
            #[trigger] cosines[i],
        )
}

/// The window weights for the given cosines, in single precision.
pub open spec fn window_from(cosines: Seq<Double>) -> Seq<Single> {
    Seq::new(cosines.len(), |i: int| window_weight(cosines[i]).narrowed())
}

/// The window weights for the given cosines.
pub fn narrow_window(cosines: &[Double]) -> (r: Vec<Single>)
    ensures
        r@ == window_from(cosines@),
{
    let mut r: Vec<Single> = Vec::with_capacity(cosines.len());
    while r.len() < cosines.len()
        invariant
            r.len() <= cosines.len(),
            forall|i: int|
                0 <= i < r.len() ==> #[trigger] r@[i] == window_weight(cosines@[i]).narrowed(),
        decreases cosines.len() - r.len(),
    {
        r.push(hamming_weight(cosines[r.len()]).to_single());
    }
    proof {
        assert(r@ =~= window_from(cosines@));
    }
    r
}

/// The Hamming window of a frame.
pub fn hamming_window<F: Fn(Double) -> Double>(cosine: F) -> (r: Vec<Single>)
    requires
        forall|x: Double| #[trigger] call_requires(cosine, (x,)),
    ensures
        exists|cosines: Seq<Double>| #[trigger]
            is_window_cosines(cosine, cosines) && r@ == window_from(cosines),
        r.len() == WINDOW_SIZE,
{
    let mut cosines: Vec<Double> = Vec::with_capacity(WINDOW_SIZE);
    while cosines.len() < WINDOW_SIZE
        invariant
            forall|x: Double| #[trigger] call_requires(cosine, (x,)),
            cosines.len() <= WINDOW_SIZE,
            forall|i: int|
                0 <= i < cosines.len() ==> call_ensures(
                    cosine,
                    (window_angle(i as nat, WINDOW_SIZE as nat),),
                    #[trigger] cosines@[i],
                ),
        decreases WINDOW_SIZE - cosines.len(),
    {
        let angle: Double = hamming_angle(cosines.len(), WINDOW_SIZE);
        let c: Double = cosine(angle);
        cosines.push(c);
    }
    proof {
        assert(is_window_cosines(cosine, cosines@));
    }
    narrow_window(cosines.as_slice())
}

/// What the mel scale takes the logarithm of: `1 + f / 700`.
pub open spec fn mel_argument(frequency: Double) -> Double {
    Double::one_spec().plus(frequency.over(Double { bits: 0x4085_e000_0000_0000 }))
}

/// The mel scale at a frequency with that logarithm: `1127 ln(1 + f / 700)`.
pub open spec fn mel(log: Double) -> Double {
    Double { bits: 0x4091_9c00_0000_0000 }.times(log)
}

/// The frequency of a spectrum entry: multiples of 31.25 Hz. The two that follow
/// are the limits of the bank, 20 Hz and 8 kHz.
pub open spec fn frequency(k: int) -> Double {
    if k < NUM_FFT_BINS {
        Double { bits: 0x403f_4000_0000_0000 }.times(Double::natural(k as nat))
    } else if k == NUM_FFT_BINS {
        Double { bits: 0x4034_0000_0000_0000 }
    } else {
        Double { bits: 0x40bf_4000_0000_0000 }
    }
}

/// How many logarithms the bank needs.
pub const BANK_LOGS: usize = 258;

/// `logs` are those that `ln` returned for the frequencies of the bank.
pub open spec fn is_bank_logs<F: Fn(Double) -> Double>(ln: F, logs: Seq<Double>) -> bool {
    &&& logs.len() == BANK_LOGS
    &&& forall|k: int|
        0 <= k < logs.len() ==> call_ensures(
            ln,
            (mel_argument(frequency(k)),),
            #[trigger] logs[k],
        )
}

/// The distance between the centres of neighbouring bands.
pub open spec fn band_step(logs: Seq<Double>) -> Double {
    mel(logs[NUM_FFT_BINS + 1]).minus(mel(logs[NUM_FFT_BINS as int])).over(
        Double::natural(FBANK_NUM_MELS as nat).plus(Double::one_spec()),
    )
}

/// A corner of band `m`: `offset` is zero for the left one, one for the centre, two
/// for the right one.
pub open spec fn band_corner(logs: Seq<Double>, m: int, offset: Double) -> Double {
    mel(logs[NUM_FFT_BINS as int]).plus(
        Double::natural(m as nat).plus(offset).times(band_step(logs)),
    )
}

/// The weight of frequency `k` in band `m`: a triangle over its three corners.
pub open spec fn band_weight(logs: Seq<Double>, m: int, k: int) -> Single {
    let left = mel(logs[NUM_FFT_BINS as int]).plus(
        Double::natural(m as nat).times(band_step(logs)),
    );
    let center = band_corner(logs, m, Double::one_spec());
    let right = band_corner(logs, m, Double { bits: 0x4000_0000_0000_0000 });
    let up = mel(logs[k]).minus(left).over(center.minus(left));
    let down = right.minus(mel(logs[k])).over(right.minus(center));
    up.smaller(down).larger(Double::zero_spec()).narrowed()
}

/// Band `m`; the highest frequency has no weight.
pub open spec fn band(logs: Seq<Double>, m: int) -> Seq<Single> {
    Seq::new(
        FFT_SPECTRUM_LEN as nat,
        |k: int|
            if k < NUM_FFT_BINS {
                band_weight(logs, m, k)
            } else {
                Single::zero_spec()
            },
    )
}

/// The filter bank for the given logarithms.
pub open spec fn is_bank(bank: Seq<Vec<Single>>, logs: Seq<Double>) -> bool {
    &&& bank.len() == FBANK_NUM_MELS
    &&& forall|m: int| 0 <= m < bank.len() ==> (#[trigger] bank[m])@ == band(logs, m)
}

fn mel_of(log: Double) -> (r: Double)
    ensures
        r == mel(log),
{
    Double::from_bits(0x4091_9c00_0000_0000).mul(log)
}

/// The triangular bands for the given logarithms.
pub fn triangular_bank(logs: &[Double]) -> (bank: Vec<Vec<Single>>)
    requires
        logs.len() == BANK_LOGS,
    ensures
        is_bank(bank@, logs@),
{
    let low: Double = mel_of(logs[NUM_FFT_BINS]);
    let high: Double = mel_of(logs[NUM_FFT_BINS + 1]);
    let step: Double = high.sub(low).div(
        Double::from_u64(FBANK_NUM_MELS as u64).add(Double::one()),
    );
    let mut bank: Vec<Vec<Single>> = Vec::with_capacity(FBANK_NUM_MELS);
    while bank.len() < FBANK_NUM_MELS
        invariant
            logs.len() == BANK_LOGS,
            low == mel(logs@[NUM_FFT_BINS as int]),
            step == band_step(logs@),
            bank.len() <= FBANK_NUM_MELS,
            forall|m: int| 0 <= m < bank.len() ==> (#[trigger] bank@[m])@ == band(logs@, m),
        decreases FBANK_NUM_MELS - bank.len(),
    {
        let m: usize = bank.len();
        let index: Double = Double::from_u64(m as u64);
        let left: Double = low.add(index.mul(step));
        let center: Double = low.add(index.add(Double::one()).mul(step));
        let right: Double = low.add(
            index.add(Double::from_bits(0x4000_0000_0000_0000)).mul(step),
        );
        let mut weights: Vec<Single> = Vec::with_capacity(FFT_SPECTRUM_LEN);
        while weights.len() < NUM_FFT_BINS
            invariant
                logs.len() == BANK_LOGS,
                m < FBANK_NUM_MELS,
                low == mel(logs@[NUM_FFT_BINS as int]),
                step == band_step(logs@),
                left == low.plus(Double::natural(m as nat).times(step)),
                center == band_corner(logs@, m as int, Double::one_spec()),
                right == band_corner(
                    logs@,
                    m as int,
                    (Double { bits: 0x4000_0000_0000_0000 }),
                ),
                weights.len() <= NUM_FFT_BINS,
                forall|k: int|
                    0 <= k < weights.len() ==> #[trigger] weights@[k] == band_weight(
                        logs@,
                        m as int,
                        k,
                    ),
            decreases NUM_FFT_BINS - weights.len(),
        {
            let at: Double = mel_of(logs[weights.len()]);
            let up: Double = at.sub(left).div(center.sub(left));
            let down: Double = right.sub(at).div(right.sub(center));
            weights.push(up.min(down).max(Double::zero()).to_single());
        }
        weights.push(Single::zero());
        proof {
            assert(weights@ =~= band(logs@, m as int));
        }
        bank.push(weights);
    }
    bank
}

/// The mel filter bank.
pub fn mel_bank<F: Fn(Double) -> Double>(ln: F) -> (bank: Vec<Vec<Single>>)
    requires
        forall|x: Double| #[trigger] call_requires(ln, (x,)),
    ensures
        exists|logs: Seq<Double>| #[trigger]
            is_bank_logs(ln, logs) && is_bank(bank@, logs),
{
    let mut logs: Vec<Double> = Vec::with_capacity(BANK_LOGS);
    while logs.len() < BANK_LOGS
        invariant
            forall|x: Double| #[trigger] call_requires(ln, (x,)),
            logs.len() <= BANK_LOGS,
            forall|i: int|
                0 <= i < logs.len() ==> call_ensures(
                    ln,
                    (mel_argument(frequency(i)),),
                    #[trigger] logs@[i],
                ),
        decreases BANK_LOGS - logs.len(),
    {
        let k: usize = logs.len();
        let f: Double = if k < NUM_FFT_BINS {
            Double::from_bits(0x403f_4000_0000_0000).mul(Double::from_u64(k as u64))
        } else if k == NUM_FFT_BINS {
            Double::from_bits(0x4034_0000_0000_0000)
        } else {
            Double::from_bits(0x40bf_4000_0000_0000)
        };
        let x: Double = Double::one().add(f.div(Double::from_bits(0x4085_e000_0000_0000)));
        let log: Double = ln(x);
        logs.push(log);
    }
    proof {
        assert(is_bank_logs(ln, logs@));
    }
    triangular_bank(logs.as_slice())
}

} // verus!
