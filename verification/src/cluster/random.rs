//! Draws from a seeded random stream.
//!
//! A draw is a function of the seed and of the position in the stream, counted in
//! 32-bit words, and gives the position that follows it.

use rand::distr::{Distribution, Uniform};
use rand::{Rng, SeedableRng};
use rand_chacha::ChaCha8Rng;
use vstd::prelude::*;
use crate::float::Double;

verus! {

/// What [`draw_word`] returns.
pub uninterp spec fn word_draw(seed: u64, position: u128) -> (u64, u128);

/// What [`draw_index`] returns.
pub uninterp spec fn index_draw(seed: u64, position: u128, bound: usize) -> (usize, u128);

/// The 64-bit word at a position of the stream of `rand_chacha`'s `ChaCha8Rng`,
/// and the position after it: `Rng::next_u64` on a generator made by
/// `SeedableRng::seed_from_u64` and moved by `set_word_pos`. Both are functions of
/// the seed and the position, since a generator's state is its seed, its stream
/// number, which is zero here, and its word position. Which word it is is not
/// stated.
#[verifier::external_body]
pub(crate) fn draw_word(seed: u64, position: u128) -> (r: (u64, u128))
    ensures
        r == word_draw(seed, position),
{
    let mut generator = ChaCha8Rng::seed_from_u64(seed);
    generator.set_word_pos(position);
    let word = generator.next_u64();
    (word, generator.get_word_pos())
}

/// A number below `bound` drawn at a position of the same stream, and the position
/// after it: `rand`'s `Uniform::new(0, bound)`, whose `sample` returns a value of
/// that half-open range. `Uniform::new` fails on an empty range only, which a
/// positive `bound` rules out. Which of those numbers it is is not stated.
#[verifier::external_body]
pub(crate) fn draw_index(seed: u64, position: u128, bound: usize) -> (r: (usize, u128))
    requires
        bound > 0,
    ensures
        r == index_draw(seed, position, bound),
        r.0 < bound,
{
    let mut generator = ChaCha8Rng::seed_from_u64(seed);
    generator.set_word_pos(position);
    let index = Uniform::new(0usize, bound).unwrap().sample(&mut generator);
    (index, generator.get_word_pos())
}

/// The number in `[0, 1)` that the upper 53 bits of a word stand for.
pub open spec fn unit_interval(word: u64) -> Double {
    Double { bits: 0x3ca0_0000_0000_0000 }.times(Double::natural((word >> 11) as nat))
}

/// The number in `[0, 1)` that the upper 53 bits of a word stand for.
pub fn to_unit_interval(word: u64) -> (r: Double)
    ensures
        r == unit_interval(word),
{
    Double::from_bits(0x3ca0_0000_0000_0000).mul(Double::from_u64(word >> 11))
}

} // verus!
