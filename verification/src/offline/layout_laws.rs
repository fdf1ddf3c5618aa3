//! Where the raw embeddings lie.

use vstd::prelude::*;
use crate::embed::options::EMBEDDING_DIM;
use crate::float::error_single::{lemma_widened_units, widening};
use crate::float::Single;
use crate::offline::algo::{raw_embedding, widened};
use crate::offline::input::OfflineInput;

verus! {

/// Every raw number belongs to the embedding of one chunk and speaker, in its place.
pub proof fn law_every_number_has_its_embedding(input: OfflineInput, i: int)
    requires
        input.num_speakers >= 1,
        input.raw_embeddings@.len() == input.num_chunks * input.num_speakers * EMBEDDING_DIM,
        0 <= i < input.raw_embeddings@.len(),
    ensures
        ({
            let (k, x) = (i / EMBEDDING_DIM as int, i % EMBEDDING_DIM as int);
            let (c, s) = (k / input.num_speakers as int, k % input.num_speakers as int);
            &&& 0 <= c < input.num_chunks
            &&& 0 <= s < input.num_speakers
            &&& raw_embedding(input, c, s).len() == EMBEDDING_DIM
            &&& raw_embedding(input, c, s)[x] == input.raw_embeddings@[i]
        }),
{
    let n = input.num_speakers as int;
    let chunks = input.num_chunks as int;
    let (k, x) = (i / EMBEDDING_DIM as int, i % EMBEDDING_DIM as int);
    let (c, s) = (k / n, k % n);
    let all = chunks * n;
    assert(0 <= k < all);
    vstd::arithmetic::div_mod::lemma_fundamental_div_mod(k, n);
    vstd::arithmetic::div_mod::lemma_mod_bound(k, n);
    assert(0 <= c < chunks) by (nonlinear_arith)
        requires
            k == n * c + s,
            0 <= s < n,
            0 <= k < chunks * n,
    ;
    assert(c * n == n * c) by (nonlinear_arith);
    assert(c * n + s == k);
}

/// Widening keeps every number.
pub proof fn law_widening_keeps_every_number(raw: Seq<Single>, i: int)
    requires
        0 <= i < raw.len(),
        raw[i].finite(),
    ensures
        widened(raw).len() == raw.len(),
        widened(raw)[i].finite(),
        widened(raw)[i].units() == raw[i].units() * widening(),
{
    lemma_widened_units(raw[i]);
}

} // verus!
