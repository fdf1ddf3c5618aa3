//! Which batches are refused.

use vstd::prelude::*;
use crate::cluster::offline::{embedding_error, first_error};
use crate::embed::types::Embedding;

verus! {

/// A fault is reported wherever an embedding has one, and it is the first one's.
pub proof fn law_first_faulty_embedding_is_reported(embeddings: Seq<Embedding>, from: nat)
    ensures
        first_error(embeddings, from) is None <==> forall|i: int|
            from <= i < embeddings.len() ==> embedding_error(#[trigger] embeddings[i]) is None,
        first_error(embeddings, from) is Some ==> exists|i: int|
            from <= i < embeddings.len() && embedding_error(#[trigger] embeddings[i]) == first_error(
                embeddings,
                from,
            ) && (forall|j: int|
                from <= j < i ==> embedding_error(#[trigger] embeddings[j]) is None),
    decreases embeddings.len() - from,
{
    if from < embeddings.len() {
        if embedding_error(embeddings[from as int]) is None {
            law_first_faulty_embedding_is_reported(embeddings, from + 1);
            if first_error(embeddings, from) is Some {
                let i = choose|i: int|
                    from + 1 <= i < embeddings.len() && embedding_error(#[trigger] embeddings[i])
                        == first_error(embeddings, from + 1) && (forall|j: int|
                        from + 1 <= j < i ==> embedding_error(#[trigger] embeddings[j]) is None);
                assert(embedding_error(embeddings[i]) == first_error(embeddings, from));
                assert forall|j: int| from <= j < i implies embedding_error(
                    #[trigger] embeddings[j],
                ) is None by {
                    if j > from {
                        assert(from + 1 <= j);
                    }
                }
            }
        } else {
            let i = from as int;
            assert(embedding_error(embeddings[i]) == first_error(embeddings, from));
        }
    }
}

} // verus!
