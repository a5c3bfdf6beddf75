//! Query planning and list scanning of an IVF-PQ index: which coarse
//! clusters are probed, and the best `k` among the entries of the probed
//! lists. Distances are reported by the caller as order keys.

use crate::error::VectorIndexError;
use crate::flat::{flat_search, scanned};
use crate::hnsw_search::distinct_ids;
use crate::inverted_list::{InvertedIndex, InvertedList, entry_is};
use crate::topk::{
    SearchResult, better, is_top_k, lemma_selection_empty, lemma_selection_is_top_k, offer,
    selection_inv,
};
use vstd::prelude::*;

verus! {

/// How many clusters a query probes: `nprobe` capped by the number of
/// lists, and at least one.
pub open spec fn spec_effective_nprobe(nprobe: nat, nlist: nat) -> nat {
    let capped = if nprobe <= nlist {
        nprobe
    } else {
        nlist
    };
    if capped >= 1 {
        capped
    } else {
        1
    }
}

/// What a query asks of the index: refused when its dimension is wrong; no
/// work (`None`) when `k` is 0 or there are no vectors; otherwise the
/// number of clusters to probe.
pub fn plan_ivf_query(
    dimension: usize,
    query_len: usize,
    k: usize,
    num_vectors: usize,
    nprobe: usize,
    nlist: usize,
) -> (r: Result<Option<usize>, VectorIndexError>)
    ensures
        query_len != dimension ==> r == Err::<Option<usize>, VectorIndexError>(
            VectorIndexError::DimensionMismatch { expected: dimension, got: query_len },
        ),
        query_len == dimension && (k == 0 || num_vectors == 0) ==> r == Ok::<
            Option<usize>,
            VectorIndexError,
        >(None),
        query_len == dimension && k > 0 && num_vectors > 0 ==> r == Ok::<
            Option<usize>,
            VectorIndexError,
        >(Some(spec_effective_nprobe(nprobe as nat, nlist as nat) as usize)),
{
    if query_len != dimension {
        return Err(VectorIndexError::DimensionMismatch { expected: dimension, got: query_len });
    }
    if k == 0 || num_vectors == 0 {
        return Ok(None);
    }
    let capped = if nprobe <= nlist {
        nprobe
    } else {
        nlist
    };
    Ok(Some(if capped >= 1 { capped } else { 1 }))
}

/// The `min(nprobe, num_centroids)` best centroids for a query, best first,
/// `score` reporting the key of each centroid's score (ids are centroid
/// indices).
pub fn find_top_centroids<F: Fn(u32) -> u32>(
    num_centroids: usize,
    nprobe: usize,
    higher_is_better: bool,
    score: &F,
) -> (r: Vec<SearchResult>)
    requires
        num_centroids <= u32::MAX,
        forall|x: u32| score.requires((x,)),
    ensures
        exists|keyed: Seq<SearchResult>|
            #![trigger scanned(keyed, num_centroids as nat, *score)]
            scanned(keyed, num_centroids as nat, *score) && is_top_k(
                r@,
                keyed,
                nprobe as nat,
                higher_is_better,
            ),
        distinct_ids(r@),
{
    if num_centroids == 0 {
        proof {
            broadcast use vstd::seq_lib::group_to_multiset_ensures;

            assert(scanned(Seq::<SearchResult>::empty(), 0, *score));
            assert(is_top_k(
                Seq::<SearchResult>::empty(),
                Seq::<SearchResult>::empty(),
                nprobe as nat,
                higher_is_better,
            ));
        }
        return Vec::new();
    }
    let target = if nprobe <= num_centroids {
        nprobe
    } else {
        num_centroids
    };
    let r = match flat_search(num_centroids, 0, 0, target, higher_is_better, score) {
        Ok(r) => r,
        Err(_) => Vec::new(),
    };
    proof {
        let keyed = choose|keyed: Seq<SearchResult>|
            #![trigger scanned(keyed, num_centroids as nat, *score)]
            scanned(keyed, num_centroids as nat, *score) && is_top_k(
                r@,
                keyed,
                target as nat,
                higher_is_better,
            );
        let ids = Seq::new(num_centroids as nat, |i: int| i as u32);
        assert(ids.no_duplicates());
        assert forall|a: int, b: int|
            0 <= a < r@.len() && 0 <= b < r@.len() && a != b implies #[trigger] r@[a].id
            != #[trigger] r@[b].id by {
            crate::graph::lemma_top_k_distinct_ids(r@, keyed, ids, target as nat, a, b);
        }
    }
    r
}

/// The keys of the entries of the probed lists, list after list in probe
/// order, `keyed` pairing each entry's id with the key `score` reported
/// for (probe rank, entry index).
pub open spec fn probed_entries<F: Fn(usize, usize) -> u32>(
    keyed: Seq<SearchResult>,
    lists: Seq<InvertedList>,
    probes: Seq<SearchResult>,
    score: F,
) -> bool
    decreases probes.len(),
{
    if probes.len() == 0 {
        keyed.len() == 0
    } else {
        let p = probes.len() - 1;
        let ids = lists[probes[p].id as int].ids@;
        &&& keyed.len() >= ids.len()
        &&& probed_entries(keyed.take(keyed.len() - ids.len()), lists, probes.drop_last(), score)
        &&& forall|i: int|
            0 <= i < ids.len() ==> (#[trigger] keyed[keyed.len() - ids.len() + i]).id == ids[i]
                && score.ensures((p as usize, i as usize), keyed[keyed.len() - ids.len() + i].score_key)
    }
}

/// `x` is an entry of the list of one of the first `n` probes.
pub open spec fn from_probes(lists: Seq<InvertedList>, probes: Seq<SearchResult>, n: int, x: u32) -> bool {
    exists|q: int, j: int| 0 <= q < n && #[trigger] entry_is(lists, probes[q].id as int, j, x)
}

/// Scans the lists of the probed clusters and keeps the best `k` entries,
/// best first, `score` reporting the key of entry `i` of the `p`-th probed
/// list. When the index holds each id once and the probes are distinct
/// clusters, the ids found are distinct.
pub fn scan_probed_lists<F: Fn(usize, usize) -> u32>(
    index: &InvertedIndex,
    probes: &Vec<SearchResult>,
    k: usize,
    higher_is_better: bool,
    score: &F,
) -> (r: Vec<SearchResult>)
    requires
        forall|p: int| 0 <= p < probes@.len() ==> (#[trigger] probes@[p]).id < index.lists@.len(),
        forall|p: usize, i: usize| score.requires((p, i)),
    ensures
        exists|keyed: Seq<SearchResult>|
            #![trigger probed_entries(keyed, index.lists@, probes@, *score)]
            probed_entries(keyed, index.lists@, probes@, *score) && is_top_k(
                r@,
                keyed,
                k as nat,
                higher_is_better,
            ),
        index.holds_each_id_once() && distinct_ids(probes@) ==> distinct_ids(r@),
{
    let ghost once = index.holds_each_id_once() && distinct_ids(probes@);
    let mut best: Vec<SearchResult> = Vec::new();
    let ghost mut seen: Seq<SearchResult> = Seq::empty();
    let ghost mut dropped: Seq<SearchResult> = Seq::empty();
    proof {
        lemma_selection_empty::<SearchResult>(k as nat, higher_is_better);
    }
    let mut p: usize = 0;
    while p < probes.len()
        invariant
            0 <= p <= probes@.len(),
            forall|q: int| 0 <= q < probes@.len() ==> (#[trigger] probes@[q]).id < index.lists@.len(),
            forall|a: usize, b: usize| score.requires((a, b)),
            probed_entries(seen, index.lists@, probes@.take(p as int), *score),
            selection_inv(best@, dropped, seen, k as nat, higher_is_better),
            once == (index.holds_each_id_once() && distinct_ids(probes@)),
            once ==> distinct_ids(seen),
            once ==> forall|a: int|
                0 <= a < seen.len() ==> from_probes(index.lists@, probes@, p as int, #[trigger] seen[a].id),
        decreases probes@.len() - p,
    {
        let cluster = probes[p].id as usize;
        let list = index.get_list(cluster);
        let ghost before = seen;
        let mut i: usize = 0;
        while i < list.ids.len()
            invariant
                0 <= i <= list.ids@.len(),
                *list == index.lists@[cluster as int],
                seen.len() == before.len() + i,
                seen.take(before.len() as int) == before,
                forall|j: int| 0 <= j < i ==> (#[trigger] seen[before.len() + j]).id == list.ids@[j]
                    && score.ensures((p, j as usize), seen[before.len() + j].score_key),
                forall|a: usize, b: usize| score.requires((a, b)),
                selection_inv(best@, dropped, seen, k as nat, higher_is_better),
                0 <= p < probes@.len(),
                cluster == probes@[p as int].id,
                cluster < index.lists@.len(),
                once == (index.holds_each_id_once() && distinct_ids(probes@)),
                once ==> distinct_ids(seen),
                once ==> forall|a: int|
                    0 <= a < before.len() ==> from_probes(index.lists@, probes@, p as int, #[trigger] seen[a].id),
            decreases list.ids@.len() - i,
        {
            let key = score(p, i);
            let hit = SearchResult { id: list.ids[i], score_key: key };
            let Ghost(nd) = offer(&mut best, hit, k, higher_is_better, Ghost(seen), Ghost(dropped));
            proof {
                dropped = nd;
                let old_seen = seen;
                seen = seen.push(hit);
                if once {
                    assert(entry_is(index.lists@, cluster as int, i as int, hit.id));
                    assert forall|a: int| 0 <= a < old_seen.len() implies old_seen[a].id != hit.id by {
                        if old_seen[a].id == hit.id {
                            if a < before.len() {
                                assert(seen[a] == old_seen[a]);
                                assert(from_probes(index.lists@, probes@, p as int, seen[a].id));
                                let (q, j) = choose|q: int, j: int|
                                    0 <= q < p && #[trigger] entry_is(
                                        index.lists@,
                                        probes@[q].id as int,
                                        j,
                                        seen[a].id,
                                    );
                                assert(probes@[q].id != probes@[p as int].id);
                            } else {
                                let j = a - before.len();
                                assert(old_seen[before.len() + j].id == list.ids@[j]);
                                assert(entry_is(index.lists@, cluster as int, j, hit.id));
                            }
                        }
                    }
                    assert forall|a: int, b: int|
                        0 <= a < seen.len() && 0 <= b < seen.len() && a != b implies #[trigger] seen[a].id
                        != #[trigger] seen[b].id by {
                        if a < old_seen.len() && b < old_seen.len() {
                            assert(seen[a] == old_seen[a] && seen[b] == old_seen[b]);
                        } else if a < old_seen.len() {
                            assert(seen[a] == old_seen[a]);
                        } else {
                            assert(seen[b] == old_seen[b]);
                        }
                    }
                    assert forall|a: int|
                        0 <= a < before.len() implies from_probes(
                        index.lists@,
                        probes@,
                        p as int,
                        #[trigger] seen[a].id,
                    ) by {
                        assert(seen[a] == old_seen[a]);
                    }
                }
                assert(seen.take(before.len() as int) =~= old_seen.take(before.len() as int));
                assert forall|j: int| 0 <= j < i + 1 implies (#[trigger] seen[before.len() + j]).id
                    == list.ids@[j] && score.ensures((p, j as usize), seen[before.len() + j].score_key) by {
                    if j < i {
                        assert(seen[before.len() + j] == old_seen[before.len() + j]);
                    }
                }
            }
            i += 1;
        }
        proof {
            let pr = probes@.take(p + 1);
            assert(pr.drop_last() =~= probes@.take(p as int));
            assert(pr[p as int] == probes@[p as int]);
            let ids = index.lists@[pr[p as int].id as int].ids@;
            assert(ids == list.ids@);
            assert(seen.take(seen.len() - ids.len()) == before);
            assert forall|j: int| 0 <= j < ids.len() implies (#[trigger] seen[seen.len() - ids.len() + j]).id
                == ids[j] && score.ensures(((pr.len() - 1) as usize, j as usize), seen[seen.len() - ids.len() + j].score_key) by {
                assert(seen.len() - ids.len() + j == before.len() + j);
            }
            if once {
                assert forall|a: int|
                    0 <= a < seen.len() implies from_probes(
                    index.lists@,
                    probes@,
                    p + 1,
                    #[trigger] seen[a].id,
                ) by {
                    if a < before.len() {
                        let (q, j) = choose|q: int, j: int|
                            0 <= q < p && #[trigger] entry_is(
                                index.lists@,
                                probes@[q].id as int,
                                j,
                                seen[a].id,
                            );
                        assert(entry_is(index.lists@, probes@[q].id as int, j, seen[a].id));
                    } else {
                        let j = a - before.len();
                        assert(seen[before.len() + j].id == list.ids@[j]);
                        assert(entry_is(index.lists@, probes@[p as int].id as int, j, seen[a].id));
                    }
                }
            }
        }
        p += 1;
    }
    proof {
        assert(probes@.take(probes@.len() as int) =~= probes@);
        lemma_selection_is_top_k(best@, dropped, seen, k as nat, higher_is_better);
        if once {
            let ids = crate::graph::ids_of(seen);
            assert(ids.no_duplicates()) by {
                assert forall|a: int, b: int| 0 <= a < ids.len() && 0 <= b < ids.len() && a != b implies ids[a]
                    != ids[b] by {
                    assert(seen[a].id != seen[b].id);
                }
            }
            assert forall|a: int, b: int|
                0 <= a < best@.len() && 0 <= b < best@.len() && a != b implies #[trigger] best@[a].id
                != #[trigger] best@[b].id by {
                crate::graph::lemma_top_k_distinct_ids(best@, seen, ids, k as nat, a, b);
            }
        }
    }
    best
}

} // verus!
