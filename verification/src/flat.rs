//! Exact search by scanning every stored vector, keeping the best `k`.

use crate::ddp::{ShardRange, chunk_ranges, spec_chunk_ranges};
use crate::error::VectorIndexError;
use crate::topk::{SearchResult, is_top_k, lemma_selection_empty, lemma_selection_is_top_k, offer, selection_inv};
use vstd::prelude::*;

verus! {

/// `keyed` holds, for each id `0..n` in order, a key that `score` reported.
pub open spec fn scanned<F: Fn(u32) -> u32>(keyed: Seq<SearchResult>, n: nat, score: F) -> bool {
    &&& keyed.len() == n
    &&& forall|i: int|
        0 <= i < n ==> (#[trigger] keyed[i]).id == i && score.ensures((i as u32,), keyed[i].score_key)
}

/// Scans vectors `0..num_vectors`, `score` reporting the order key of each
/// one's score against the query, and returns the best `min(k, n)`, best
/// first. Refused when there are no vectors or the query has the wrong
/// dimension.
pub fn flat_search<F: Fn(u32) -> u32>(
    num_vectors: usize,
    dimension: usize,
    query_len: usize,
    k: usize,
    higher_is_better: bool,
    score: &F,
) -> (r: Result<Vec<SearchResult>, VectorIndexError>)
    requires
        num_vectors <= u32::MAX,
        forall|x: u32| score.requires((x,)),
    ensures
        num_vectors == 0 ==> r == Err::<Vec<SearchResult>, VectorIndexError>(
            VectorIndexError::EmptyIndex,
        ),
        num_vectors > 0 && query_len != dimension ==> r == Err::<Vec<SearchResult>, VectorIndexError>(
            VectorIndexError::DimensionMismatch { expected: dimension, got: query_len },
        ),
        num_vectors > 0 && query_len == dimension ==> r is Ok,
        r matches Ok(hits) ==> exists|keyed: Seq<SearchResult>|
            #![trigger scanned(keyed, num_vectors as nat, *score)]
            scanned(keyed, num_vectors as nat, *score) && is_top_k(
                hits@,
                keyed,
                k as nat,
                higher_is_better,
            ),
{
    if num_vectors == 0 {
        return Err(VectorIndexError::EmptyIndex);
    }
    if query_len != dimension {
        return Err(VectorIndexError::DimensionMismatch { expected: dimension, got: query_len });
    }
    let k = if k <= num_vectors {
        k
    } else {
        num_vectors
    };
    let mut best: Vec<SearchResult> = Vec::new();
    let ghost mut seen: Seq<SearchResult> = Seq::empty();
    let ghost mut dropped: Seq<SearchResult> = Seq::empty();
    proof {
        lemma_selection_empty::<SearchResult>(k as nat, higher_is_better);
    }
    let mut id: usize = 0;
    while id < num_vectors
        invariant
            0 <= id <= num_vectors,
            num_vectors <= u32::MAX,
            forall|x: u32| score.requires((x,)),
            scanned(seen, id as nat, *score),
            selection_inv(best@, dropped, seen, k as nat, higher_is_better),
        decreases num_vectors - id,
    {
        let key = score(id as u32);
        let hit = SearchResult { id: id as u32, score_key: key };
        let Ghost(nd) = offer(&mut best, hit, k, higher_is_better, Ghost(seen), Ghost(dropped));
        proof {
            dropped = nd;
            seen = seen.push(hit);
        }
        id += 1;
    }
    proof {
        lemma_selection_is_top_k(best@, dropped, seen, k as nat, higher_is_better);
    }
    Ok(best)
}

/// The ranges of `s` that hold at least one item, in order.
pub open spec fn nonempty_ranges(s: Seq<ShardRange>) -> Seq<ShardRange>
    decreases s.len(),
{
    if s.len() == 0 {
        Seq::empty()
    } else {
        let front = nonempty_ranges(s.drop_last());
        if s.last().count > 0 {
            front.push(s.last())
        } else {
            front
        }
    }
}

/// Plans an exact scan split over `parts` workers: refused as
/// [`flat_search`] refuses (no vectors, or a query of the wrong dimension);
/// otherwise the chunks of [`chunk_ranges`] that hold vectors, in order.
pub fn plan_parallel_scan(num_vectors: usize, dimension: usize, query_len: usize, parts: usize) -> (r:
    Result<Vec<ShardRange>, VectorIndexError>)
    requires
        parts >= 1,
        num_vectors + parts <= usize::MAX,
    ensures
        num_vectors == 0 ==> r == Err::<Vec<ShardRange>, VectorIndexError>(
            VectorIndexError::EmptyIndex,
        ),
        num_vectors > 0 && query_len != dimension ==> r == Err::<Vec<ShardRange>, VectorIndexError>(
            VectorIndexError::DimensionMismatch { expected: dimension, got: query_len },
        ),
        num_vectors > 0 && query_len == dimension ==> (r matches Ok(v) && v@ == nonempty_ranges(
            spec_chunk_ranges(num_vectors as nat, parts as nat),
        )),
{
    if num_vectors == 0 {
        return Err(VectorIndexError::EmptyIndex);
    }
    if query_len != dimension {
        return Err(VectorIndexError::DimensionMismatch { expected: dimension, got: query_len });
    }
    let all = chunk_ranges(num_vectors, parts);
    let mut out: Vec<ShardRange> = Vec::new();
    let mut i: usize = 0;
    while i < all.len()
        invariant
            0 <= i <= all@.len(),
            out@ == nonempty_ranges(all@.take(i as int)),
        decreases all@.len() - i,
    {
        proof {
            assert(all@.take(i + 1).drop_last() =~= all@.take(i as int));
            assert(all@.take(i + 1).last() == all@[i as int]);
        }
        if all[i].count > 0 {
            out.push(all[i]);
        }
        i += 1;
    }
    proof {
        assert(all@.take(all@.len() as int) =~= all@);
    }
    Ok(out)
}

} // verus!
