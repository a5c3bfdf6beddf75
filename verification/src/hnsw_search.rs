//! Searching a layered proximity graph: greedy routing through the upper
//! layers and beam search on one layer.
//!
//! Distances are reported by the caller as order keys (smaller is closer),
//! through a closure from node id to the key of its distance to the query.

use crate::error::VectorIndexError;
use crate::graph::{
    HnswGraph, NodeLinks, directed_edge_added, edge_added_to_list, heuristic_selected, ids_of,
    layer_budget, lemma_edge_appends, lemma_edge_entries, lemma_edge_frame, links_at, listed,
    selected_from,
};
use crate::hnsw_config::HnswConfig;
use crate::topk::{
    SearchResult, better, insert_pos, is_top_k, lemma_insert_ranked, lemma_offer_dropped,
    lemma_offer_evict, lemma_offer_room, lemma_selection_is_top_k, lemma_top_k_prefix, min_nat,
    ranked, selection_inv,
};
use crate::visited::VisitedTracker;
use vstd::prelude::*;

verus! {

/// Every id in a neighbor list on `layer` is below `bound`.
pub open spec fn layer_ids_below(g: HnswGraph, layer: int, bound: nat) -> bool {
    forall|i: int, j: int|
        #![trigger links_at(g.nodes@, i, layer), g.nodes@[i].layers@[layer]@[j]]
        links_at(g.nodes@, i, layer) is Some && 0 <= j < g.nodes@[i].layers@[layer]@.len() ==> g.nodes@[i].layers@[layer]@[j]
            < bound
}

/// `id` occurs in some neighbor list on `layer`.
pub open spec fn linked_on(g: HnswGraph, layer: int, id: u32) -> bool {
    exists|i: int| #[trigger] links_at(g.nodes@, i, layer) matches Some(l) && l.contains(id)
}

/// Each hit carries a key that `dist` reported for its id.
pub open spec fn keys_reported<F: Fn(u32) -> u32>(hits: Seq<SearchResult>, dist: F) -> bool {
    forall|i: int| 0 <= i < hits.len() ==> dist.ensures((hits[i].id,), #[trigger] hits[i].score_key)
}

/// Each hit is an entry point or linked on `layer`.
pub open spec fn hits_from(hits: Seq<SearchResult>, g: HnswGraph, layer: int, enter: Seq<u32>) -> bool {
    forall|i: int|
        0 <= i < hits.len() ==> enter.contains(#[trigger] hits[i].id) || linked_on(g, layer, hits[i].id)
}

/// The ids of the hits are pairwise distinct.
pub open spec fn distinct_ids(hits: Seq<SearchResult>) -> bool {
    forall|i: int, j: int|
        0 <= i < hits.len() && 0 <= j < hits.len() && i != j ==> #[trigger] hits[i].id
            != #[trigger] hits[j].id
}

/// Key of the distance from the query to `id`.
fn query_key<F: Fn(u32) -> u32>(dist: &F, id: u32) -> (r: SearchResult)
    requires
        forall|x: u32| dist.requires((x,)),
    ensures
        r.id == id,
        dist.ensures((id,), r.score_key),
{
    let k = dist(id);
    SearchResult { id, score_key: k }
}

/// The neighbors of `id` on `layer` (none when the slot is missing).
pub open spec fn neighbors_on(g: HnswGraph, id: u32, layer: int) -> Seq<u32> {
    match links_at(g.nodes@, id as int, layer) {
        Some(ls) => ls,
        None => Seq::<u32>::empty(),
    }
}

/// What a one-argument distance closure reports: key `k` for node `x`.
pub open spec fn reported_by<F: Fn(u32) -> u32>(dist: F) -> spec_fn(u32, u32) -> bool {
    |x: u32, k: u32| dist.ensures((x,), k)
}

/// What a two-argument distance closure reports from `base`: key `k` for
/// node `x`.
pub open spec fn reported_from<F: Fn(u32, u32) -> u32>(dist_fn: F, base: u32) -> spec_fn(
    u32,
    u32,
) -> bool {
    |x: u32, k: u32| dist_fn.ensures((base, x), k)
}

/// `keys` are keys reported for the neighbors of `r` on `layer`, in list
/// order, none smaller than `r`'s.
pub open spec fn keys_not_closer(
    g: HnswGraph,
    r: SearchResult,
    layer: int,
    reported: spec_fn(u32, u32) -> bool,
    keys: Seq<u32>,
) -> bool {
    &&& keys.len() == neighbors_on(g, r.id, layer).len()
    &&& forall|j: int|
        0 <= j < keys.len() ==> reported(neighbors_on(g, r.id, layer)[j], #[trigger] keys[j])
            && keys[j] >= r.score_key
}

/// Every neighbor of `r` on `layer` was reported with a key no smaller
/// than `r`'s: greedy routing cannot move on from `r`.
pub open spec fn no_closer_neighbor(
    g: HnswGraph,
    r: SearchResult,
    layer: int,
    reported: spec_fn(u32, u32) -> bool,
) -> bool {
    exists|keys: Seq<u32>| #[trigger] keys_not_closer(g, r, layer, reported, keys)
}

/// Where a walk stands before its stop `t`: the start, then each stop.
pub open spec fn stop_before(start: SearchResult, stops: Seq<SearchResult>, t: int) -> SearchResult {
    if t == 0 {
        start
    } else {
        stops[t - 1]
    }
}

/// One layer of greedy routing: from `prev`, the walk ends on `s`, which is
/// `prev` or a node linked on `layer` with a reported key, no larger than
/// `prev`'s, and which has no closer neighbor on `layer`.
pub open spec fn walk_step(
    g: HnswGraph,
    prev: SearchResult,
    s: SearchResult,
    layer: int,
    reported: spec_fn(u32, u32) -> bool,
) -> bool {
    &&& s.score_key <= prev.score_key
    &&& (s == prev || (reported(s.id, s.score_key) && linked_on(g, layer, s.id)))
    &&& no_closer_neighbor(g, s, layer, reported)
}

/// `stops[t]` is where greedy routing from `start` stands after layer
/// `top - t`, each layer walked from the stop of the layer above.
pub open spec fn greedy_walk(
    g: HnswGraph,
    start: SearchResult,
    top: int,
    reported: spec_fn(u32, u32) -> bool,
    stops: Seq<SearchResult>,
) -> bool {
    forall|t: int|
        0 <= t < stops.len() ==> walk_step(
            g,
            stop_before(start, stops, t),
            #[trigger] stops[t],
            top - t,
            reported,
        )
}

/// A greedy walk whose keys are reported is one under any report that
/// holds whenever the first does.
proof fn lemma_walk_weaken(
    g: HnswGraph,
    start: SearchResult,
    top: int,
    p1: spec_fn(u32, u32) -> bool,
    p2: spec_fn(u32, u32) -> bool,
    stops: Seq<SearchResult>,
)
    requires
        greedy_walk(g, start, top, p1, stops),
        forall|x: u32, k: u32| #[trigger] p1(x, k) ==> p2(x, k),
    ensures
        greedy_walk(g, start, top, p2, stops),
{
    assert forall|t: int| 0 <= t < stops.len() implies walk_step(
        g,
        stop_before(start, stops, t),
        #[trigger] stops[t],
        top - t,
        p2,
    ) by {
        let s = stops[t];
        assert(walk_step(g, stop_before(start, stops, t), s, top - t, p1));
        let keys = choose|keys: Seq<u32>| #[trigger] keys_not_closer(g, s, top - t, p1, keys);
        assert(keys_not_closer(g, s, top - t, p2, keys)) by {
            assert forall|j: int| 0 <= j < keys.len() implies p2(
                neighbors_on(g, s.id, top - t)[j],
                #[trigger] keys[j],
            ) && keys[j] >= s.score_key by {
                assert(p1(neighbors_on(g, s.id, top - t)[j], keys[j]));
            }
        }
    }
}

/// Greedy routing: on each layer from `top` down to `bottom`, moves to a
/// strictly closer neighbor while there is one, scanning the neighbor list
/// in order. It ends on a node with no closer neighbor on `bottom`; the
/// stops on the layers walked form a greedy walk.
pub fn greedy_descend<F: Fn(u32) -> u32>(
    graph: &HnswGraph,
    start: SearchResult,
    top: usize,
    bottom: usize,
    dist: &F,
) -> (r: SearchResult)
    requires
        forall|x: u32| dist.requires((x,)),
        graph.ids_in_range(),
        start.id < graph.nodes@.len(),
    ensures
        r.score_key <= start.score_key,
        r == start || dist.ensures((r.id,), r.score_key),
        r.id < graph.nodes@.len(),
        top < bottom ==> r == start,
        top >= bottom ==> no_closer_neighbor(*graph, r, bottom as int, reported_by(*dist)),
        r.id == start.id || exists|l: int| bottom <= l <= top && #[trigger] linked_on(*graph, l, r.id),
        top >= bottom ==> exists|stops: Seq<SearchResult>|
            #[trigger] greedy_walk(*graph, start, top as int, reported_by(*dist), stops) && stops.len() == top - bottom + 1
                && r == stops.last(),
{
    let mut curr = start;
    if top < bottom {
        return curr;
    }
    let ghost mut stops: Seq<SearchResult> = Seq::empty();
    let mut l = top;
    loop
        invariant_except_break
            stops.len() == top - l,
        invariant
            bottom <= l <= top,
            curr.score_key <= start.score_key,
            curr == start || dist.ensures((curr.id,), curr.score_key),
            curr.id < graph.nodes@.len(),
            graph.ids_in_range(),
            forall|x: u32| dist.requires((x,)),
            curr.id == start.id || exists|l2: int| l <= l2 <= top && #[trigger] linked_on(*graph, l2, curr.id),
            greedy_walk(*graph, start, top as int, reported_by(*dist), stops),
            curr == stop_before(start, stops, stops.len() as int),
        ensures
            curr.score_key <= start.score_key,
            curr == start || dist.ensures((curr.id,), curr.score_key),
            curr.id < graph.nodes@.len(),
            no_closer_neighbor(*graph, curr, bottom as int, reported_by(*dist)),
            curr.id == start.id || exists|l2: int| bottom <= l2 <= top && #[trigger] linked_on(*graph, l2, curr.id),
            stops.len() == top - bottom + 1,
            greedy_walk(*graph, start, top as int, reported_by(*dist), stops),
            curr == stops.last(),
        decreases l,
    {
        let ghost layer_entry = curr;
        let mut changed = true;
        while changed
            invariant
                bottom <= l <= top,
                curr.score_key <= layer_entry.score_key,
                curr == layer_entry || (dist.ensures((curr.id,), curr.score_key) && linked_on(
                    *graph,
                    l as int,
                    curr.id,
                )),
                curr.score_key <= start.score_key,
                curr == start || dist.ensures((curr.id,), curr.score_key),
                curr.id < graph.nodes@.len(),
                curr.id == start.id || exists|l2: int| l <= l2 <= top && #[trigger] linked_on(*graph, l2, curr.id),
                graph.ids_in_range(),
                forall|x: u32| dist.requires((x,)),
                !changed ==> no_closer_neighbor(*graph, curr, l as int, reported_by(*dist)),
            decreases curr.score_key + if changed {
                1int
            } else {
                0int
            },
        {
            changed = false;
            let ghost at_start = curr.score_key;
            let ghost first = curr;
            let ghost mut keys: Seq<u32> = Seq::empty();
            let curr_id = curr.id;
            let neighbors = graph.get_neighbors(curr_id, l);
            let mut j: usize = 0;
            while j < neighbors.len()
                invariant
                    0 <= j <= neighbors@.len(),
                    curr.score_key <= at_start,
                    changed ==> curr.score_key < at_start,
                    !changed ==> curr == first,
                    first.id == curr_id,
                    first.score_key == at_start,
                    at_start <= start.score_key,
                    at_start <= layer_entry.score_key,
                    first == layer_entry || (dist.ensures((first.id,), first.score_key) && linked_on(
                        *graph,
                        l as int,
                        first.id,
                    )),
                    curr == first || (dist.ensures((curr.id,), curr.score_key) && linked_on(
                        *graph,
                        l as int,
                        curr.id,
                    )),
                    curr == start || dist.ensures((curr.id,), curr.score_key),
                    curr.id < graph.nodes@.len(),
                    bottom <= l <= top,
                    curr.id == start.id || exists|l2: int| l <= l2 <= top && #[trigger] linked_on(*graph, l2, curr.id),
                    graph.ids_in_range(),
                    neighbors@ == neighbors_on(*graph, curr_id, l as int),
                    keys.len() == j,
                    forall|q: int|
                        0 <= q < j ==> dist.ensures((neighbors@[q],), #[trigger] keys[q]) && (!changed
                            ==> keys[q] >= curr.score_key),
                    forall|x: u32| dist.requires((x,)),
                decreases neighbors@.len() - j,
            {
                proof {
                    assert(links_at(graph.nodes@, curr_id as int, l as int) is Some);
                    assert(graph.nodes@[curr_id as int].layers@[l as int]@[j as int] == neighbors@[j as int]);
                }
                let cand = query_key(dist, neighbors[j]);
                proof {
                    keys = keys.push(cand.score_key);
                    assert(links_at(graph.nodes@, curr_id as int, l as int) matches Some(ls) && ls.contains(cand.id));
                    assert(linked_on(*graph, l as int, cand.id));
                }
                if cand.score_key < curr.score_key {
                    curr = cand;
                    changed = true;
                }
                j += 1;
            }
            proof {
                if !changed {
                    let nb = neighbors_on(*graph, curr.id, l as int);
                    assert(nb == neighbors@);
                    assert(keys.len() == nb.len());
                    assert forall|q: int| 0 <= q < keys.len() implies dist.ensures(
                        (nb[q],),
                        #[trigger] keys[q],
                    ) && keys[q] >= curr.score_key by {}
                    assert(keys_not_closer(*graph, curr, l as int, reported_by(*dist), keys));
                }
            }
        }
        proof {
            let old_stops = stops;
            stops = stops.push(curr);
            assert(walk_step(*graph, stop_before(start, stops, old_stops.len() as int), curr, l as int, reported_by(*dist)));
            assert forall|t: int| 0 <= t < stops.len() implies walk_step(
                *graph,
                stop_before(start, stops, t),
                #[trigger] stops[t],
                top - t,
                reported_by(*dist),
            ) by {
                if t < old_stops.len() {
                    assert(stops[t] == old_stops[t]);
                    assert(stop_before(start, stops, t) == stop_before(start, old_stops, t));
                }
            }
        }
        if l == bottom {
            break;
        }
        l -= 1;
    }
    curr
}

/// `start` is the hit of the graph's entry point, with a reported key.
pub open spec fn entry_hit(g: HnswGraph, start: SearchResult, reported: spec_fn(u32, u32) -> bool) -> bool {
    g.entry_point == Some(start.id) && reported(start.id, start.score_key)
}

/// `e` is where routing from the entry point ends on layer `bottom`: the
/// entry point's hit when `bottom` lies above the top layer, else the last
/// stop of a greedy walk from it through layers `max_level` down to
/// `bottom`.
pub open spec fn descended_to(
    g: HnswGraph,
    e: SearchResult,
    bottom: int,
    reported: spec_fn(u32, u32) -> bool,
) -> bool {
    exists|start: SearchResult|
        #[trigger] entry_hit(g, start, reported) && if g.max_level < bottom {
            e == start
        } else {
            exists|stops: Seq<SearchResult>|
                #[trigger] greedy_walk(g, start, g.max_level as int, reported, stops) && stops.len()
                    == g.max_level - bottom + 1 && e == stops.last()
        }
}

/// A sequence of distinct ids below `n` has at most `n` entries.
proof fn lemma_distinct_below(s: Seq<u32>, n: nat)
    requires
        s.no_duplicates(),
        n <= u32::MAX + 1,
        forall|i: int| 0 <= i < s.len() ==> #[trigger] s[i] < n,
    ensures
        s.len() <= n,
{
    let all = Seq::new(n, |i: int| i as u32);
    assert(all.no_duplicates());
    assert forall|i: int| 0 <= i < s.len() implies all.contains(#[trigger] s[i]) by {
        assert(all[s[i] as int] == s[i]);
    }
    crate::graph::lemma_distinct_cover_len(s, all);
}

/// Dropping the last entry keeps a sequence ranked.
proof fn lemma_ranked_drop_last(s: Seq<SearchResult>, higher_is_better: bool)
    requires
        ranked(s, higher_is_better),
        s.len() > 0,
    ensures
        ranked(s.drop_last(), higher_is_better),
{
    let d = s.drop_last();
    assert forall|i: int, j: int| 0 <= i < j < d.len() implies !better(
        #[trigger] d[j],
        #[trigger] d[i],
        higher_is_better,
    ) by {
        assert(d[i] == s[i] && d[j] == s[j]);
    }
}

/// `evaluated` holds a hit for every entry point; each of its hits has a
/// key that `dist` reported and is an entry point or linked on `layer`.
pub open spec fn beam_evaluated<F: Fn(u32) -> u32>(
    evaluated: Seq<SearchResult>,
    g: HnswGraph,
    layer: int,
    enter: Seq<u32>,
    dist: F,
) -> bool {
    &&& keys_reported(evaluated, dist)
    &&& hits_from(evaluated, g, layer, enter)
    &&& forall|i: int| 0 <= i < enter.len() ==> #[trigger] ids_of(evaluated).contains(enter[i])
}

/// Each neighbor on `layer` of each hit was evaluated: every node that the
/// search returns was expanded.
pub open spec fn expanded_around(
    hits: Seq<SearchResult>,
    evaluated: Seq<SearchResult>,
    g: HnswGraph,
    layer: int,
) -> bool {
    forall|i: int, q: int|
        #![trigger neighbors_on(g, hits[i].id, layer)[q]]
        0 <= i < hits.len() && 0 <= q < neighbors_on(g, hits[i].id, layer).len() ==> ids_of(
            evaluated,
        ).contains(neighbors_on(g, hits[i].id, layer)[q])
}

/// Every neighbor of `x` on `layer` is in `seen`.
spec fn fully_seen(g: HnswGraph, layer: int, x: u32, seen: Seq<u32>) -> bool {
    forall|q: int|
        0 <= q < neighbors_on(g, x, layer).len() ==> seen.contains(
            #[trigger] neighbors_on(g, x, layer)[q],
        )
}

/// Inserting into a sequence keeps what it held and adds the new item.
proof fn lemma_insert_contains<T>(s: Seq<T>, p: int, x: T, y: T)
    requires
        0 <= p <= s.len(),
        s.contains(y) || y == x,
    ensures
        s.insert(p, x).contains(y),
{
    if y == x {
        assert(s.insert(p, x)[p] == x);
    } else {
        let w = choose|w: int| 0 <= w < s.len() && s[w] == y;
        if w < p {
            assert(s.insert(p, x)[w] == y);
        } else {
            assert(s.insert(p, x)[w + 1] == y);
        }
    }
}

/// Pushing onto a sequence keeps what it held and adds the new item.
proof fn lemma_push_contains<T>(s: Seq<T>, x: T, y: T)
    requires
        s.contains(y) || y == x,
    ensures
        s.push(x).contains(y),
{
    if y == x {
        assert(s.push(x)[s.len() as int] == x);
    } else {
        let w = choose|w: int| 0 <= w < s.len() && s[w] == y;
        assert(s.push(x)[w] == y);
    }
}

/// Beam search on `layer` from `enter_points` with beam width `ef`,
/// visiting each node once. Returns the hits found, closest first. The
/// entry points are always taken in; later nodes are taken while fewer
/// than `ef` hits are held or when closer than the farthest held, which
/// then leaves. The search stops when the closest unexpanded hit is
/// farther than the farthest held and `ef` hits are held. With at most
/// `ef` entry points, the hits are the `ef` closest of all nodes evaluated,
/// and every hit returned was expanded: all its neighbors were evaluated.
#[verifier::spinoff_prover]
#[verifier::rlimit(40)]
pub fn search_layer<F: Fn(u32) -> u32>(
    graph: &HnswGraph,
    enter_points: &Vec<u32>,
    ef: usize,
    layer: usize,
    num_vectors: usize,
    tracker: &mut VisitedTracker,
    dist: &F,
) -> (r: Vec<SearchResult>)
    requires
        old(tracker).wf(),
        num_vectors <= u32::MAX,
        num_vectors + 65 <= usize::MAX,
        forall|i: int| 0 <= i < enter_points@.len() ==> #[trigger] enter_points@[i] < num_vectors,
        layer_ids_below(*graph, layer as int, num_vectors as nat),
        forall|x: u32| dist.requires((x,)),
    ensures
        final(tracker).wf(),
        ranked(r@, false),
        keys_reported(r@, *dist),
        hits_from(r@, *graph, layer as int, enter_points@),
        enter_points@.no_duplicates() ==> distinct_ids(r@),
        enter_points@.len() > 0 ==> r@.len() > 0,
        enter_points@.len() <= ef ==> r@.len() <= ef,
        forall|i: int| 0 <= i < r@.len() ==> #[trigger] r@[i].id < num_vectors,
        enter_points@.len() <= ef ==> exists|evaluated: Seq<SearchResult>|
            #![trigger beam_evaluated(evaluated, *graph, layer as int, enter_points@, *dist)]
            is_top_k(r@, evaluated, ef as nat, false) && beam_evaluated(
                evaluated,
                *graph,
                layer as int,
                enter_points@,
                *dist,
            ) && expanded_around(r@, evaluated, *graph, layer as int),
{
    tracker.advance_epoch(num_vectors);
    let ghost mut seen: Seq<u32> = Seq::empty();
    let ghost mut evaluated: Seq<SearchResult> = Seq::empty();
    let ghost mut dropped: Seq<SearchResult> = Seq::empty();
    proof {
        crate::topk::lemma_selection_empty::<SearchResult>(ef as nat, false);
    }
    let ghost eps = enter_points@;
    let mut candidates: Vec<SearchResult> = Vec::new();
    let mut results: Vec<SearchResult> = Vec::new();
    let mut e: usize = 0;
    while e < enter_points.len()
        invariant
            0 <= e <= eps.len(),
            eps == enter_points@,
            tracker.wf(),
            num_vectors <= u32::MAX,
            num_vectors + 65 <= usize::MAX,
            forall|i: int| 0 <= i < eps.len() ==> #[trigger] eps[i] < num_vectors,
            forall|x: u32| dist.requires((x,)),
            forall|x: u32| tracker.visited().contains(x) <==> seen.contains(x),
            seen.no_duplicates(),
            forall|i: int| 0 <= i < seen.len() ==> #[trigger] seen[i] < num_vectors,
            seen.len() <= num_vectors,
            ranked(results@, false),
            ranked(candidates@, true),
            results@.len() == e,
            keys_reported(results@, *dist),
            keys_reported(candidates@, *dist),
            forall|i: int| 0 <= i < results@.len() ==> eps.contains(#[trigger] results@[i].id),
            forall|i: int| 0 <= i < candidates@.len() ==> eps.contains(#[trigger] candidates@[i].id),
            forall|i: int| 0 <= i < results@.len() ==> seen.contains(#[trigger] results@[i].id),
            forall|i: int| 0 <= i < results@.len() ==> #[trigger] results@[i].id < num_vectors,
            forall|i: int| 0 <= i < candidates@.len() ==> #[trigger] candidates@[i].id < num_vectors,
            eps.no_duplicates() ==> distinct_ids(results@) && forall|i: int|
                0 <= i < seen.len() ==> eps.take(e as int).contains(#[trigger] seen[i]),
            eps.len() <= ef ==> selection_inv(results@, dropped, evaluated, ef as nat, false),
            keys_reported(evaluated, *dist),
            hits_from(evaluated, *graph, layer as int, eps),
            forall|i: int| 0 <= i < e ==> #[trigger] ids_of(evaluated).contains(eps[i]),
            forall|x: u32| #[trigger] seen.contains(x) ==> ids_of(evaluated).contains(x),
            forall|i: int| 0 <= i < results@.len() ==> candidates@.contains(#[trigger] results@[i]),
        decreases eps.len() - e,
    {
        let ep = enter_points[e];
        let hit = query_key(dist, ep);
        let ghost before_seen = seen;
        let ghost before_results = results@;
        tracker.mark_visited(ep);
        proof {
            if !seen.contains(ep) {
                seen = seen.push(ep);
                assert(seen.no_duplicates());
                lemma_distinct_below(seen, num_vectors as nat);
            }
            assert(seen.contains(ep)) by {
                if !before_seen.contains(ep) {
                    assert(seen[seen.len() - 1] == ep);
                }
            }
        }
        let ghost before_cands = candidates@;
        let pc = insert_pos(&candidates, &hit, true);
        proof {
            lemma_insert_ranked(candidates@, hit, pc as int, true);
        }
        candidates.insert(pc, hit);
        let pr = insert_pos(&results, &hit, false);
        proof {
            lemma_insert_ranked(results@, hit, pr as int, false);
        }
        results.insert(pr, hit);
        proof {
            assert forall|i: int| 0 <= i < results@.len() implies candidates@.contains(
                #[trigger] results@[i],
            ) by {
                if i == pr {
                    lemma_insert_contains(before_cands, pc as int, hit, hit);
                } else {
                    let ii = if i < pr {
                        i
                    } else {
                        i - 1
                    };
                    assert(results@[i] == before_results[ii]);
                    lemma_insert_contains(before_cands, pc as int, hit, before_results[ii]);
                }
            }
            assert(eps.contains(ep)) by {
                assert(eps[e as int] == ep);
            }
            let ev0 = evaluated;
            if eps.len() <= ef {
                lemma_offer_room(before_results, dropped, ev0, hit, pr as int, ef as nat, false);
            }
            evaluated = evaluated.push(hit);
            assert(ids_of(evaluated) =~= ids_of(ev0).push(hit.id));
            assert forall|i: int| 0 <= i < e + 1 implies #[trigger] ids_of(evaluated).contains(eps[i]) by {
                if i < e {
                    assert(ids_of(ev0).contains(eps[i]));
                    let w = choose|w: int| 0 <= w < ids_of(ev0).len() && ids_of(ev0)[w] == eps[i];
                    assert(ids_of(evaluated)[w] == eps[i]);
                } else {
                    assert(ids_of(evaluated)[ev0.len() as int] == eps[i]);
                }
            }
            assert forall|x: u32| #[trigger] seen.contains(x) implies before_seen.contains(x) || x == ep by {
                if !before_seen.contains(ep) {
                    let q = choose|q: int| 0 <= q < seen.len() && seen[q] == x;
                    if q < before_seen.len() {
                        assert(before_seen[q] == x);
                    }
                }
            }
            assert forall|x: u32| #[trigger] before_seen.contains(x) implies seen.contains(x) by {
                if !before_seen.contains(ep) {
                    let q = choose|q: int| 0 <= q < before_seen.len() && before_seen[q] == x;
                    assert(seen[q] == x);
                }
            }
            assert forall|x: u32| tracker.visited().contains(x) <==> seen.contains(x) by {
                if x == ep {
                } else if before_seen.contains(x) {
                } else {
                    if seen.contains(x) {
                        assert(before_seen.contains(x) || x == ep);
                    }
                }
            }
            assert forall|x: u32| #[trigger] seen.contains(x) implies ids_of(evaluated).contains(x) by {
                assert(before_seen.contains(x) || x == ep);
                if x == ep {
                    assert(ids_of(evaluated)[ev0.len() as int] == ep);
                } else {
                    assert(ids_of(ev0).contains(x));
                    let w = choose|w: int| 0 <= w < ids_of(ev0).len() && ids_of(ev0)[w] == x;
                    assert(ids_of(evaluated)[w] == x);
                }
            }
            if eps.no_duplicates() {
                assert(eps.take(e + 1) =~= eps.take(e as int).push(ep));
                assert(!before_seen.contains(ep)) by {
                    if before_seen.contains(ep) {
                        let q = choose|q: int| 0 <= q < before_seen.len() && before_seen[q] == ep;
                        assert(eps.take(e as int).contains(ep));
                        let w = choose|w: int| 0 <= w < e && eps.take(e as int)[w] == ep;
                        assert(eps[w] == eps[e as int]);
                    }
                }
                assert forall|i: int, j: int|
                    0 <= i < results@.len() && 0 <= j < results@.len() && i != j implies #[trigger] results@[i].id
                    != #[trigger] results@[j].id by {
                    if i == pr {
                        let jj = if j < pr { j } else { j - 1 };
                        assert(results@[j] == before_results[jj]);
                        assert(before_seen.contains(before_results[jj].id));
                    } else if j == pr {
                        let ii = if i < pr { i } else { i - 1 };
                        assert(results@[i] == before_results[ii]);
                        assert(before_seen.contains(before_results[ii].id));
                    } else {
                        let ii = if i < pr { i } else { i - 1 };
                        let jj = if j < pr { j } else { j - 1 };
                        assert(results@[i] == before_results[ii]);
                        assert(results@[j] == before_results[jj]);
                    }
                }
                assert forall|i: int| 0 <= i < seen.len() implies eps.take(e + 1).contains(#[trigger] seen[i]) by {
                    if i < before_seen.len() {
                        assert(before_seen[i] == seen[i]);
                        assert(eps.take(e as int).contains(seen[i]));
                        let w = choose|w: int| 0 <= w < e && eps.take(e as int)[w] == seen[i];
                        assert(eps.take(e + 1)[w] == seen[i]);
                    } else {
                        assert(eps.take(e + 1)[e as int] == ep);
                    }
                }
            }
        }
        e += 1;
    }
    let ghost mut expanded: Seq<u32> = Seq::empty();
    loop
        invariant
            eps == enter_points@,
            tracker.wf(),
            num_vectors <= u32::MAX,
            num_vectors + 65 <= usize::MAX,
            layer_ids_below(*graph, layer as int, num_vectors as nat),
            forall|x: u32| dist.requires((x,)),
            forall|x: u32| tracker.visited().contains(x) <==> seen.contains(x),
            seen.no_duplicates(),
            forall|i: int| 0 <= i < seen.len() ==> #[trigger] seen[i] < num_vectors,
            seen.len() <= num_vectors,
            ranked(results@, false),
            ranked(candidates@, true),
            keys_reported(results@, *dist),
            keys_reported(candidates@, *dist),
            hits_from(results@, *graph, layer as int, eps),
            forall|i: int| 0 <= i < results@.len() ==> seen.contains(#[trigger] results@[i].id),
            forall|i: int| 0 <= i < results@.len() ==> #[trigger] results@[i].id < num_vectors,
            forall|i: int| 0 <= i < candidates@.len() ==> #[trigger] candidates@[i].id < num_vectors,
            eps.no_duplicates() ==> distinct_ids(results@),
            eps.len() > 0 ==> results@.len() > 0,
            eps.len() <= ef ==> results@.len() <= ef,
            eps.len() <= ef ==> selection_inv(results@, dropped, evaluated, ef as nat, false),
            beam_evaluated(evaluated, *graph, layer as int, eps, *dist),
            forall|x: u32| #[trigger] seen.contains(x) ==> ids_of(evaluated).contains(x),
            forall|i: int|
                0 <= i < results@.len() ==> candidates@.contains(#[trigger] results@[i])
                    || expanded.contains(results@[i].id),
            forall|x: u32| #[trigger] expanded.contains(x) ==> fully_seen(*graph, layer as int, x, seen),
        ensures
            eps == enter_points@,
            tracker.wf(),
            ranked(results@, false),
            keys_reported(results@, *dist),
            hits_from(results@, *graph, layer as int, eps),
            forall|i: int| 0 <= i < results@.len() ==> #[trigger] results@[i].id < num_vectors,
            eps.no_duplicates() ==> distinct_ids(results@),
            eps.len() > 0 ==> results@.len() > 0,
            eps.len() <= ef ==> results@.len() <= ef,
            eps.len() <= ef ==> selection_inv(results@, dropped, evaluated, ef as nat, false),
            beam_evaluated(evaluated, *graph, layer as int, eps, *dist),
            forall|x: u32| #[trigger] seen.contains(x) ==> ids_of(evaluated).contains(x),
            forall|x: u32| #[trigger] expanded.contains(x) ==> fully_seen(*graph, layer as int, x, seen),
            forall|i: int| 0 <= i < results@.len() ==> expanded.contains(#[trigger] results@[i].id),
        decreases num_vectors - seen.len() + candidates@.len(),
    {
        if candidates.len() == 0 {
            proof {
                assert forall|i: int| 0 <= i < results@.len() implies expanded.contains(
                    #[trigger] results@[i].id,
                ) by {
                    assert(candidates@.contains(results@[i]) || expanded.contains(results@[i].id));
                }
            }
            break;
        }
        let ghost before_c = candidates@;
        let c = candidates.pop().unwrap();
        proof {
            assert(before_c == candidates@.push(c));
            lemma_ranked_drop_last(before_c, true);
            assert(candidates@ == before_c.drop_last());
            assert(c == before_c[before_c.len() - 1]);
            assert forall|i: int| 0 <= i < candidates@.len() implies dist.ensures(
                (candidates@[i].id,),
                #[trigger] candidates@[i].score_key,
            ) by {
                assert(candidates@[i] == before_c[i]);
            }
            assert forall|i: int| 0 <= i < candidates@.len() implies #[trigger] candidates@[i].id
                < num_vectors by {
                assert(candidates@[i] == before_c[i]);
            }
        }
        proof {
            assert forall|i: int| 0 <= i < results@.len() implies candidates@.contains(
                #[trigger] results@[i],
            ) || expanded.contains(results@[i].id) || results@[i] == c by {
                if before_c.contains(results@[i]) && results@[i] != c {
                    let w = choose|w: int| 0 <= w < before_c.len() && before_c[w] == results@[i];
                    assert(w != before_c.len() - 1);
                    assert(candidates@[w] == results@[i]);
                }
            }
        }
        let rl = results.len();
        if rl > 0 && c.score_key > results[rl - 1].score_key && rl >= ef {
            proof {
                assert forall|i: int| 0 <= i < results@.len() implies expanded.contains(
                    #[trigger] results@[i].id,
                ) by {
                    let last = results@[rl - 1];
                    assert(results@[i].score_key <= last.score_key) by {
                        if i < rl - 1 {
                            assert(!better(results@[rl - 1], results@[i], false));
                        }
                    }
                    if candidates@.contains(results@[i]) {
                        let w = choose|w: int| 0 <= w < candidates@.len() && candidates@[w] == results@[i];
                        assert(!better(before_c[before_c.len() - 1], before_c[w], true));
                        assert(before_c[w] == results@[i]);
                    }
                }
            }
            break;
        }
        let neighbors = graph.get_neighbors(c.id, layer);
        let ghost m = num_vectors - seen.len() + candidates@.len();
        let mut j: usize = 0;
        while j < neighbors.len()
            invariant
                0 <= j <= neighbors@.len(),
                neighbors@ == match links_at(graph.nodes@, c.id as int, layer as int) {
                    Some(l) => l,
                    None => Seq::<u32>::empty(),
                },
                eps == enter_points@,
                tracker.wf(),
                num_vectors <= u32::MAX,
                num_vectors + 65 <= usize::MAX,
                layer_ids_below(*graph, layer as int, num_vectors as nat),
                forall|x: u32| dist.requires((x,)),
                forall|x: u32| tracker.visited().contains(x) <==> seen.contains(x),
                seen.no_duplicates(),
                forall|i: int| 0 <= i < seen.len() ==> #[trigger] seen[i] < num_vectors,
                seen.len() <= num_vectors,
                ranked(results@, false),
                ranked(candidates@, true),
                keys_reported(results@, *dist),
                keys_reported(candidates@, *dist),
                hits_from(results@, *graph, layer as int, eps),
                forall|i: int| 0 <= i < results@.len() ==> seen.contains(#[trigger] results@[i].id),
                forall|i: int| 0 <= i < results@.len() ==> #[trigger] results@[i].id < num_vectors,
                forall|i: int|
                    0 <= i < candidates@.len() ==> #[trigger] candidates@[i].id < num_vectors,
                eps.no_duplicates() ==> distinct_ids(results@),
                eps.len() > 0 ==> results@.len() > 0,
                eps.len() <= ef ==> results@.len() <= ef,
                eps.len() <= ef ==> selection_inv(results@, dropped, evaluated, ef as nat, false),
                beam_evaluated(evaluated, *graph, layer as int, eps, *dist),
                num_vectors - seen.len() + candidates@.len() <= m,
                forall|x: u32| #[trigger] seen.contains(x) ==> ids_of(evaluated).contains(x),
                forall|i: int|
                    0 <= i < results@.len() ==> candidates@.contains(#[trigger] results@[i])
                        || expanded.contains(results@[i].id) || results@[i] == c,
                forall|x: u32| #[trigger] expanded.contains(x) ==> fully_seen(*graph, layer as int, x, seen),
                forall|q: int| 0 <= q < j ==> seen.contains(#[trigger] neighbors@[q]),
            decreases neighbors@.len() - j,
        {
            let n_id = neighbors[j];
            proof {
                let l = links_at(graph.nodes@, c.id as int, layer as int);
                assert(l is Some);
                assert(graph.nodes@[c.id as int].layers@[layer as int]@[j as int] == n_id);
                assert(n_id < num_vectors);
                assert(l->0.contains(n_id)) by {
                    assert(l->0[j as int] == n_id);
                }
                assert(linked_on(*graph, layer as int, n_id));
            }
            if !tracker.is_visited(n_id) {
                let ghost before_seen = seen;
                tracker.mark_visited(n_id);
                proof {
                    seen = seen.push(n_id);
                    assert(seen.no_duplicates()) by {
                        assert forall|a: int, b: int|
                            0 <= a < seen.len() && 0 <= b < seen.len() && a != b implies seen[a]
                            != seen[b] by {
                            if a == before_seen.len() {
                                assert(!before_seen.contains(seen[b]) || seen[b] != n_id);
                            } else if b == before_seen.len() {
                                assert(before_seen.contains(seen[a]));
                            }
                        }
                    }
                    lemma_distinct_below(seen, num_vectors as nat);
                    assert forall|x: u32| tracker.visited().contains(x) <==> seen.contains(x) by {
                        if x == n_id {
                            assert(seen[seen.len() - 1] == n_id);
                        } else if before_seen.contains(x) {
                            let q = choose|q: int| 0 <= q < before_seen.len() && before_seen[q] == x;
                            assert(seen[q] == x);
                        } else if seen.contains(x) {
                            let q = choose|q: int| 0 <= q < seen.len() && seen[q] == x;
                            assert(q < before_seen.len());
                            assert(before_seen[q] == x);
                        }
                    }
                    assert forall|i: int| 0 <= i < results@.len() implies seen.contains(
                        #[trigger] results@[i].id,
                    ) by {
                        assert(before_seen.contains(results@[i].id));
                        let q = choose|q: int|
                            0 <= q < before_seen.len() && before_seen[q] == results@[i].id;
                        assert(seen[q] == results@[i].id);
                    }
                }
                let hit = query_key(dist, n_id);
                let ghost ev0 = evaluated;
                proof {
                    evaluated = evaluated.push(hit);
                    assert(ids_of(evaluated) =~= ids_of(ev0).push(hit.id));
                    assert forall|i: int| 0 <= i < eps.len() implies #[trigger] ids_of(evaluated).contains(eps[i]) by {
                        assert(ids_of(ev0).contains(eps[i]));
                        let w = choose|w: int| 0 <= w < ids_of(ev0).len() && ids_of(ev0)[w] == eps[i];
                        assert(ids_of(evaluated)[w] == eps[i]);
                    }
                    assert(hits_from(evaluated, *graph, layer as int, eps)) by {
                        assert forall|i: int| 0 <= i < evaluated.len() implies eps.contains(
                            #[trigger] evaluated[i].id,
                        ) || linked_on(*graph, layer as int, evaluated[i].id) by {
                            if i < ev0.len() {
                                assert(evaluated[i] == ev0[i]);
                            }
                        }
                    }
                    assert(keys_reported(evaluated, *dist)) by {
                        assert forall|i: int| 0 <= i < evaluated.len() implies dist.ensures(
                            (evaluated[i].id,),
                            #[trigger] evaluated[i].score_key,
                        ) by {
                            if i < ev0.len() {
                                assert(evaluated[i] == ev0[i]);
                            }
                        }
                    }
                    assert forall|x: u32| #[trigger] seen.contains(x) implies ids_of(evaluated).contains(
                        x,
                    ) by {
                        if x == n_id {
                            assert(ids_of(evaluated)[ev0.len() as int] == n_id);
                        } else {
                            let q = choose|q: int| 0 <= q < seen.len() && seen[q] == x;
                            assert(q < before_seen.len());
                            assert(before_seen[q] == x);
                            assert(before_seen.contains(x));
                            assert(ids_of(ev0).contains(x));
                            let w = choose|w: int| 0 <= w < ids_of(ev0).len() && ids_of(ev0)[w] == x;
                            assert(ids_of(evaluated)[w] == x);
                        }
                    }
                }
                let rl = results.len();
                let should_insert = if rl < ef {
                    true
                } else if rl > 0 {
                    hit.score_key < results[rl - 1].score_key
                } else {
                    false
                };
                if should_insert {
                    let ghost before_results = results@;
                    let ghost before_cands = candidates@;
                    let pc = insert_pos(&candidates, &hit, true);
                    proof {
                        lemma_insert_ranked(candidates@, hit, pc as int, true);
                    }
                    candidates.insert(pc, hit);
                    let pr = insert_pos(&results, &hit, false);
                    proof {
                        lemma_insert_ranked(results@, hit, pr as int, false);
                    }
                    results.insert(pr, hit);
                    proof {
                        assert forall|i: int| 0 <= i < results@.len() implies candidates@.contains(
                            #[trigger] results@[i],
                        ) || expanded.contains(results@[i].id) || results@[i] == c by {
                            if i == pr {
                                lemma_insert_contains(before_cands, pc as int, hit, hit);
                            } else {
                                let ii = if i < pr {
                                    i
                                } else {
                                    i - 1
                                };
                                assert(results@[i] == before_results[ii]);
                                if before_cands.contains(before_results[ii]) {
                                    lemma_insert_contains(before_cands, pc as int, hit, before_results[ii]);
                                }
                            }
                        }
                        if eps.len() <= ef && before_results.len() < ef {
                            lemma_offer_room(before_results, dropped, ev0, hit, pr as int, ef as nat, false);
                        }
                        assert(!before_seen.contains(n_id));
                        assert forall|i: int| 0 <= i < results@.len() implies seen.contains(
                            #[trigger] results@[i].id,
                        ) by {
                            if i == pr {
                                assert(seen[seen.len() - 1] == n_id);
                            } else {
                                let ii = if i < pr {
                                    i
                                } else {
                                    i - 1
                                };
                                assert(results@[i] == before_results[ii]);
                            }
                        }
                        if eps.no_duplicates() {
                            assert forall|a: int, b: int|
                                0 <= a < results@.len() && 0 <= b < results@.len() && a != b implies #[trigger] results@[a].id
                                != #[trigger] results@[b].id by {
                                if a == pr {
                                    let bb = if b < pr {
                                        b
                                    } else {
                                        b - 1
                                    };
                                    assert(results@[b] == before_results[bb]);
                                    assert(before_seen.contains(before_results[bb].id));
                                } else if b == pr {
                                    let aa = if a < pr {
                                        a
                                    } else {
                                        a - 1
                                    };
                                    assert(results@[a] == before_results[aa]);
                                    assert(before_seen.contains(before_results[aa].id));
                                } else {
                                    let aa = if a < pr {
                                        a
                                    } else {
                                        a - 1
                                    };
                                    let bb = if b < pr {
                                        b
                                    } else {
                                        b - 1
                                    };
                                    assert(results@[a] == before_results[aa]);
                                    assert(results@[b] == before_results[bb]);
                                }
                            }
                        }
                    }
                    if results.len() > ef {
                        let ghost full = results@;
                        results.pop();
                        proof {
                            assert(results@ == full.drop_last());
                            lemma_ranked_drop_last(full, false);
                            assert forall|i: int| 0 <= i < results@.len() implies dist.ensures(
                                (results@[i].id,),
                                #[trigger] results@[i].score_key,
                            ) by {
                                assert(results@[i] == full[i]);
                            }
                            assert forall|i: int| 0 <= i < results@.len() implies seen.contains(
                                #[trigger] results@[i].id,
                            ) && results@[i].id < num_vectors && (eps.contains(results@[i].id)
                                || linked_on(*graph, layer as int, results@[i].id)) && (candidates@.contains(
                                results@[i],
                            ) || expanded.contains(results@[i].id) || results@[i] == c) by {
                                assert(results@[i] == full[i]);
                            }
                            if eps.no_duplicates() {
                                assert forall|a: int, b: int|
                                    0 <= a < results@.len() && 0 <= b < results@.len() && a
                                        != b implies #[trigger] results@[a].id
                                    != #[trigger] results@[b].id by {
                                    assert(results@[a] == full[a] && results@[b] == full[b]);
                                }
                            }
                            if eps.len() <= ef {
                                let last = before_results.len() - 1;
                                assert(pr < before_results.len()) by {
                                    if pr == before_results.len() {
                                        assert(!better(hit, before_results[last], false));
                                    }
                                }
                                lemma_offer_evict(before_results, dropped, ev0, hit, pr as int, ef as nat, false);
                                dropped = dropped.push(before_results[last]);
                            }
                        }
                    }
                } else {
                    proof {
                        if eps.len() <= ef {
                            lemma_offer_dropped(results@, dropped, ev0, hit, ef as nat, false);
                            dropped = dropped.push(hit);
                        }
                    }
                }
            }
            j += 1;
        }
        proof {
            assert(fully_seen(*graph, layer as int, c.id, seen)) by {
                assert(neighbors@ == neighbors_on(*graph, c.id, layer as int));
                assert forall|q: int| 0 <= q < neighbors_on(*graph, c.id, layer as int).len() implies seen.contains(
                    #[trigger] neighbors_on(*graph, c.id, layer as int)[q],
                ) by {
                    assert(seen.contains(neighbors@[q]));
                }
            }
            let old_exp = expanded;
            expanded = expanded.push(c.id);
            assert forall|x: u32| #[trigger] expanded.contains(x) implies fully_seen(
                *graph,
                layer as int,
                x,
                seen,
            ) by {
                if x != c.id {
                    let w = choose|w: int| 0 <= w < expanded.len() && expanded[w] == x;
                    assert(old_exp[w] == x);
                    assert(old_exp.contains(x));
                }
            }
            assert forall|i: int| 0 <= i < results@.len() implies candidates@.contains(
                #[trigger] results@[i],
            ) || expanded.contains(results@[i].id) by {
                if !candidates@.contains(results@[i]) {
                    lemma_push_contains(old_exp, c.id, results@[i].id);
                }
            }
        }
    }
    proof {
        if eps.len() <= ef {
            lemma_selection_is_top_k(results@, dropped, evaluated, ef as nat, false);
            assert(beam_evaluated(evaluated, *graph, layer as int, eps, *dist));
        }
    }
    results
}


/// The ids of a graph whose neighbor ids all name nodes lie below its size
/// on every layer.
proof fn lemma_in_range_layer(g: HnswGraph, layer: int)
    requires
        g.ids_in_range(),
    ensures
        layer_ids_below(g, layer, g.nodes@.len()),
{
}

/// Node `id` is not part of the graph yet: it has empty lists on layers
/// `0..=level`, no list on any layer holds it, and it is not the entry
/// point.
pub open spec fn unlinked_node(g: HnswGraph, id: u32, level: int) -> bool {
    &&& id < g.nodes@.len()
    &&& g.nodes@[id as int].layers@.len() == level + 1
    &&& forall|l: int| 0 <= l <= level ==> (#[trigger] g.nodes@[id as int].layers@[l])@.len() == 0
    &&& forall|l: int| !#[trigger] linked_on(g, l, id)
    &&& g.entry_point != Some(id)
}

/// A non-empty run of hits with distinct ids other than `id`, each with a
/// key that `dist_fn` reported for its distance from `id`.
pub open spec fn hits_around<F: Fn(u32, u32) -> u32>(
    hits: Seq<SearchResult>,
    id: u32,
    dist_fn: F,
) -> bool {
    &&& hits.len() > 0
    &&& distinct_ids(hits)
    &&& forall|i: int|
        0 <= i < hits.len() ==> (#[trigger] hits[i]).id != id && dist_fn.ensures(
            (id, hits[i].id),
            hits[i].score_key,
        )
}

/// An id that an insertion of `id` into `g` may leave in a list: `id`
/// itself, the entry point, or an id some list of `g` already holds.
pub open spec fn insert_support(g: HnswGraph, id: u32, x: u32) -> bool {
    x == id || g.entry_point == Some(x) || exists|l: int| #[trigger] linked_on(g, l, x)
}

/// `evaluated` holds a hit for the start `e`; each of its hits has a key
/// that `dist_fn` reported from `base` and is `e` or linked on `layer`.
pub open spec fn beam_around<F: Fn(u32, u32) -> u32>(
    evaluated: Seq<SearchResult>,
    g: HnswGraph,
    layer: int,
    e: u32,
    base: u32,
    dist_fn: F,
) -> bool {
    &&& forall|i: int|
        0 <= i < evaluated.len() ==> dist_fn.ensures(
            (base, evaluated[i].id),
            #[trigger] evaluated[i].score_key,
        )
    &&& hits_from(evaluated, g, layer, seq![e])
    &&& ids_of(evaluated).contains(e)
}

/// On `layer`, node `id` was linked into `g` as an insertion links it,
/// giving `nodes`: `hits` are around `id` and, for a positive
/// `ef_construction`, the `ef_construction` closest of the nodes a beam
/// search from `e` evaluated, each hit expanded; the list of `id` is the
/// selection among `hits`; and each selected neighbor's list is its list in
/// `g` after adding the edge back to `id`.
pub open spec fn layer_linked<F: Fn(u32, u32) -> u32>(
    g: HnswGraph,
    nodes: Seq<NodeLinks>,
    id: u32,
    layer: int,
    e: u32,
    hits: Seq<SearchResult>,
    dist_fn: F,
) -> bool {
    let max_m = layer_budget(g.config, layer);
    let heur = g.config.use_heuristic;
    &&& hits_around(hits, id, dist_fn)
    &&& g.config.ef_construction > 0 ==> exists|evaluated: Seq<SearchResult>|
        #[trigger] beam_around(evaluated, g, layer, e, id, dist_fn) && is_top_k(
            hits,
            evaluated,
            g.config.ef_construction as nat,
            false,
        ) && expanded_around(hits, evaluated, g, layer)
    &&& links_at(nodes, id as int, layer) matches Some(sel) && selected_from(sel, hits, max_m, heur)
        && (heur ==> heuristic_selected(sel, hits, max_m, dist_fn)) && forall|j: int|
        0 <= j < sel.len() ==> #[trigger] edge_added_to_list(
            links_at(g.nodes@, sel[j] as int, layer),
            links_at(nodes, sel[j] as int, layer),
            sel[j],
            id,
            max_m,
            heur,
            dist_fn,
        )
}

/// The layers an insertion of `id` walks, from `bottom` down to 0: layer
/// `bottom` is searched from `first`, each lower layer from the closest hit
/// of the layer above, and each is linked as [`layer_linked`] says.
pub open spec fn insertion_path<F: Fn(u32, u32) -> u32>(
    g: HnswGraph,
    nodes: Seq<NodeLinks>,
    id: u32,
    bottom: int,
    first: u32,
    enters: Seq<u32>,
    hitss: Seq<Seq<SearchResult>>,
    dist_fn: F,
) -> bool {
    &&& enters.len() == bottom + 1
    &&& hitss.len() == bottom + 1
    &&& enters[bottom] == first
    &&& forall|l: int| 0 <= l < bottom ==> #[trigger] enters[l] == hitss[l + 1][0].id
    &&& forall|l: int|
        0 <= l <= bottom ==> #[trigger] layer_linked(g, nodes, id, l, enters[l], hitss[l], dist_fn)
}

/// The top layer that a node of `level` shares with `g`.
pub open spec fn shared_top(g: HnswGraph, level: nat) -> int {
    if level <= g.max_level {
        level as int
    } else {
        g.max_level as int
    }
}

/// `after` is `before` with node `id` inserted on layers `0..=level` as
/// [`HnswGraph::insert_node`] inserts a node that was not yet part of the
/// graph: routing from the entry point with keys of distances from `id`,
/// then a search and linking on each shared layer.
pub open spec fn node_inserted<F: Fn(u32, u32) -> u32>(
    before: HnswGraph,
    after: HnswGraph,
    id: u32,
    level: nat,
    dist_fn: F,
) -> bool {
    &&& after.config == before.config
    &&& after.nodes@.len() == before.nodes@.len()
    &&& forall|i: int|
        0 <= i < before.nodes@.len() ==> (#[trigger] after.nodes@[i]).layers@.len()
            == before.nodes@[i].layers@.len()
    &&& after.num_nodes == before.num_nodes + 1
    &&& before.entry_point is None ==> after.entry_point == Some(id) && after.max_level == level
        && after.nodes@ == before.nodes@
    &&& before.entry_point is Some && level > before.max_level ==> after.entry_point == Some(id)
        && after.max_level == level
    &&& before.entry_point is Some && level <= before.max_level ==> after.entry_point
        == before.entry_point && after.max_level == before.max_level
    &&& before.entry_point is Some ==> exists|
        e: SearchResult,
        enters: Seq<u32>,
        hitss: Seq<Seq<SearchResult>>,
    |
        #![trigger insertion_path(before, after.nodes@, id, shared_top(before, level), e.id, enters, hitss, dist_fn)]
        descended_to(before, e, (level + 1) as int, reported_from(dist_fn, id)) && insertion_path(
            before,
            after.nodes@,
            id,
            shared_top(before, level),
            e.id,
            enters,
            hitss,
            dist_fn,
        )
    &&& before.entry_point is Some ==> forall|l: int|
        before.max_level < l <= level ==> #[trigger] links_at(after.nodes@, id as int, l) == Some(
            Seq::<u32>::empty(),
        )
    &&& forall|i: int, k: int, x: u32|
        #[trigger] listed(after.nodes@, i, k, x) ==> insert_support(before, id, x)
}

/// Two graphs with the same lists on `layer` link the same ids there and
/// give each node the same neighbors there.
proof fn lemma_same_layer(g1: HnswGraph, g2: HnswGraph, layer: int)
    requires
        forall|i: int| #[trigger] links_at(g1.nodes@, i, layer) == links_at(g2.nodes@, i, layer),
    ensures
        forall|x: u32| #[trigger] linked_on(g1, layer, x) == linked_on(g2, layer, x),
        forall|x: u32| #[trigger] neighbors_on(g1, x, layer) == neighbors_on(g2, x, layer),
{
    assert forall|x: u32| #[trigger] linked_on(g1, layer, x) == linked_on(g2, layer, x) by {
        if linked_on(g1, layer, x) {
            let i = choose|i: int| #[trigger] links_at(g1.nodes@, i, layer) matches Some(l) && l.contains(x);
            assert(links_at(g2.nodes@, i, layer) == links_at(g1.nodes@, i, layer));
        }
        if linked_on(g2, layer, x) {
            let i = choose|i: int| #[trigger] links_at(g2.nodes@, i, layer) matches Some(l) && l.contains(x);
            assert(links_at(g2.nodes@, i, layer) == links_at(g1.nodes@, i, layer));
        }
    }
    assert forall|x: u32| #[trigger] neighbors_on(g1, x, layer) == neighbors_on(g2, x, layer) by {
        assert(links_at(g2.nodes@, x as int, layer) == links_at(g1.nodes@, x as int, layer));
    }
}

/// Distinct hit ids make a sequence of ids without repeats.
proof fn lemma_distinct_ids_of(hits: Seq<SearchResult>)
    requires
        distinct_ids(hits),
    ensures
        ids_of(hits).no_duplicates(),
{
    assert forall|i: int, j: int|
        0 <= i < ids_of(hits).len() && 0 <= j < ids_of(hits).len() && i != j implies ids_of(hits)[i]
        != ids_of(hits)[j] by {
        assert(hits[i].id != hits[j].id);
    }
}

impl HnswGraph {
    /// Inserts node `id` on layers `0..=node_level`, `dist_fn` reporting the
    /// key of the distance between two nodes. The first node becomes the
    /// entry point. Otherwise the insertion routes greedily from the entry
    /// point down to layer `node_level + 1`, then on each layer from
    /// `min(node_level, max_level)` down to 0 runs a beam search of width
    /// `ef_construction`, links the node with the neighbors selected among
    /// the hits (each neighbor linking back), and continues from the
    /// closest hit. A node above the current top layer becomes the entry
    /// point. For a node not yet part of the graph, [`node_inserted`] states
    /// the whole insertion.
    #[verifier::spinoff_prover]
    #[verifier::rlimit(40)]
    pub fn insert_node<F: Fn(u32, u32) -> u32>(
        &mut self,
        id: u32,
        node_level: usize,
        tracker: &mut VisitedTracker,
        dist_fn: &F,
    )
        requires
            old(self).links_ok(),
            old(self).ids_in_range(),
            id < old(self).nodes@.len(),
            old(self).nodes@.len() <= u32::MAX,
            old(self).nodes@.len() + 65 <= usize::MAX,
            old(self).num_nodes < usize::MAX,
            old(self).entry_point matches Some(e) ==> e < old(self).nodes@.len(),
            node_level < usize::MAX,
            old(tracker).wf(),
            forall|a: u32, b: u32| dist_fn.requires((a, b)),
        ensures
            final(self).links_ok(),
            final(self).ids_in_range(),
            final(tracker).wf(),
            final(self).nodes@.len() == old(self).nodes@.len(),
            final(self).config == old(self).config,
            final(self).num_nodes == old(self).num_nodes + 1,
            final(self).entry_point matches Some(e) && e < final(self).nodes@.len(),
            forall|i: int|
                0 <= i < old(self).nodes@.len() ==> (#[trigger] final(self).nodes@[i]).layers@.len()
                    == old(self).nodes@[i].layers@.len(),
            old(self).entry_point is None ==> final(self).entry_point == Some(id)
                && final(self).max_level == node_level && final(self).nodes@ == old(self).nodes@,
            old(self).entry_point is Some && node_level > old(self).max_level
                ==> final(self).entry_point == Some(id) && final(self).max_level == node_level,
            old(self).entry_point is Some && node_level <= old(self).max_level
                ==> final(self).entry_point == old(self).entry_point
                && final(self).max_level == old(self).max_level,
            forall|i: int, k: int, x: u32|
                #[trigger] listed(final(self).nodes@, i, k, x) ==> insert_support(*old(self), id, x),
            unlinked_node(*old(self), id, node_level as int) ==> node_inserted(
                *old(self),
                *final(self),
                id,
                node_level as nat,
                *dist_fn,
            ),
    {
        let n = self.nodes.len();
        let ghost g0 = *self;
        let ghost fresh = unlinked_node(*self, id, node_level as int);
        let ep = match self.entry_point {
            Some(ep) => ep,
            None => {
                self.entry_point = Some(id);
                self.max_level = node_level;
                self.num_nodes = self.num_nodes + 1;
                proof {
                    assert forall|i: int, k: int, x: u32|
                        #[trigger] listed(self.nodes@, i, k, x) implies insert_support(g0, id, x) by {
                        assert(linked_on(g0, k, x));
                    }
                }
                return;
            },
        };
        let max_l = self.max_level;
        let q = |x: u32| -> (k: u32)
            requires
                forall|a: u32, b: u32| dist_fn.requires((a, b)),
            ensures
                dist_fn.ensures((id, x), k),
            { dist_fn(id, x) };
        let ghost rep = reported_from(*dist_fn, id);
        let start = query_key(&q, ep);
        let curr = if max_l > node_level {
            greedy_descend(self, start, max_l, node_level + 1, &q)
        } else {
            start
        };
        proof {
            assert forall|x: u32, k: u32| #[trigger] reported_by(q)(x, k) implies rep(x, k) by {
                assert(q.ensures((x,), k));
            }
            assert(entry_hit(g0, start, rep));
            if max_l > node_level {
                let stops = choose|stops: Seq<SearchResult>|
                    #[trigger] greedy_walk(g0, start, max_l as int, reported_by(q), stops) && stops.len()
                        == max_l - (node_level + 1) + 1 && curr == stops.last();
                lemma_walk_weaken(g0, start, max_l as int, reported_by(q), rep, stops);
            }
            assert(descended_to(g0, curr, node_level + 1, rep));
            if curr.id != start.id {
                let l2 = choose|l2: int|
                    node_level + 1 <= l2 <= max_l && #[trigger] linked_on(*self, l2, curr.id);
                assert(insert_support(g0, id, curr.id));
            }
            if fresh && curr.id == id {
                assert(curr.id != start.id);
                let l2 = choose|l2: int|
                    node_level + 1 <= l2 <= max_l && #[trigger] linked_on(*self, l2, curr.id);
                assert(!linked_on(*old(self), l2, id));
            }
            assert forall|i: int, k: int, x: u32|
                #[trigger] listed(self.nodes@, i, k, x) implies insert_support(g0, id, x) by {
                assert(linked_on(g0, k, x));
            }
        }
        let bottom_l = if node_level <= max_l {
            node_level
        } else {
            max_l
        };
        let mut enter_points: Vec<u32> = Vec::new();
        enter_points.push(curr.id);
        let ghost mut enters: Seq<u32> = Seq::new((bottom_l + 1) as nat, |i: int| 0u32);
        let ghost mut hitss: Seq<Seq<SearchResult>> = Seq::new(
            (bottom_l + 1) as nat,
            |i: int| Seq::<SearchResult>::empty(),
        );
        let mut l: usize = bottom_l + 1;
        while l > 0
            invariant
                self.links_ok(),
                self.ids_in_range(),
                tracker.wf(),
                self.nodes@.len() == n,
                n == old(self).nodes@.len(),
                g0 == *old(self),
                n <= u32::MAX,
                n + 65 <= usize::MAX,
                id < n,
                l <= bottom_l + 1,
                bottom_l <= node_level,
                bottom_l <= max_l,
                bottom_l == node_level || bottom_l == max_l,
                max_l == old(self).max_level,
                self.config == old(self).config,
                self.entry_point == old(self).entry_point,
                self.max_level == old(self).max_level,
                self.num_nodes == old(self).num_nodes,
                enter_points@.len() == 1,
                enter_points@[0] < n,
                forall|a: u32, b: u32| dist_fn.requires((a, b)),
                forall|x: u32| q.requires((x,)),
                forall|x: u32, k: u32| #[trigger] q.ensures((x,), k) ==> dist_fn.ensures((id, x), k),
                forall|i: int, k: int|
                    k < l || k > bottom_l ==> #[trigger] links_at(self.nodes@, i, k) == links_at(
                        old(self).nodes@,
                        i,
                        k,
                    ),
                forall|i: int|
                    0 <= i < n ==> (#[trigger] self.nodes@[i]).layers@.len()
                        == old(self).nodes@[i].layers@.len(),
                forall|i: int, k: int, x: u32|
                    #[trigger] listed(self.nodes@, i, k, x) ==> insert_support(g0, id, x),
                insert_support(g0, id, enter_points@[0]),
                enters.len() == bottom_l + 1,
                hitss.len() == bottom_l + 1,
                l == bottom_l + 1 ==> enter_points@[0] == curr.id,
                fresh == unlinked_node(*old(self), id, node_level as int),
                fresh ==> enter_points@[0] != id,
                fresh && l <= bottom_l ==> enters[bottom_l as int] == curr.id,
                fresh && l <= bottom_l ==> enter_points@[0] == hitss[l as int][0].id,
                fresh ==> forall|k: int| l <= k < bottom_l ==> #[trigger] enters[k] == hitss[k + 1][0].id,
                fresh ==> forall|k: int|
                    l <= k <= bottom_l ==> #[trigger] layer_linked(
                        g0,
                        self.nodes@,
                        id,
                        k,
                        enters[k],
                        hitss[k],
                        *dist_fn,
                    ),
            decreases l,
        {
            l -= 1;
            let ghost before = self.nodes@;
            proof {
                lemma_in_range_layer(*self, l as int);
            }
            let ghost eps = enter_points@;
            let candidates = search_layer(
                self,
                &enter_points,
                self.config.ef_construction,
                l,
                n,
                tracker,
                &q,
            );
            let ghost cands = candidates@;
            proof {
                assert(eps.no_duplicates());
                assert(eps =~= seq![eps[0]]);
                assert forall|i: int| #[trigger] links_at(self.nodes@, i, l as int) == links_at(
                    g0.nodes@,
                    i,
                    l as int,
                ) by {}
                lemma_same_layer(*self, g0, l as int);
                assert forall|i: int| 0 <= i < cands.len() implies insert_support(
                    g0,
                    id,
                    #[trigger] cands[i].id,
                ) by {
                    if !eps.contains(cands[i].id) {
                        assert(linked_on(*self, l as int, cands[i].id));
                        assert(linked_on(g0, l as int, cands[i].id));
                    } else {
                        let w = choose|w: int| 0 <= w < eps.len() && eps[w] == cands[i].id;
                        assert(w == 0);
                    }
                }
                if g0.config.ef_construction > 0 {
                    let evaluated = choose|evaluated: Seq<SearchResult>|
                        #![trigger beam_evaluated(evaluated, *self, l as int, eps, q)]
                        is_top_k(cands, evaluated, g0.config.ef_construction as nat, false)
                            && beam_evaluated(evaluated, *self, l as int, eps, q)
                            && expanded_around(cands, evaluated, *self, l as int);
                    assert(beam_around(evaluated, g0, l as int, eps[0], id, *dist_fn)) by {
                        assert forall|i: int| 0 <= i < evaluated.len() implies dist_fn.ensures(
                            (id, evaluated[i].id),
                            #[trigger] evaluated[i].score_key,
                        ) by {
                            assert(q.ensures((evaluated[i].id,), evaluated[i].score_key));
                        }
                        assert forall|i: int| 0 <= i < evaluated.len() implies seq![eps[0]].contains(
                            #[trigger] evaluated[i].id,
                        ) || linked_on(g0, l as int, evaluated[i].id) by {
                            assert(eps.contains(evaluated[i].id) || linked_on(
                                *self,
                                l as int,
                                evaluated[i].id,
                            ));
                        }
                        assert(ids_of(evaluated).contains(eps[0]));
                    }
                    assert(expanded_around(cands, evaluated, g0, l as int)) by {
                        assert forall|i: int, qq: int|
                            0 <= i < cands.len() && 0 <= qq < neighbors_on(
                                g0,
                                cands[i].id,
                                l as int,
                            ).len() implies ids_of(evaluated).contains(
                            #[trigger] neighbors_on(g0, cands[i].id, l as int)[qq],
                        ) by {
                            assert(neighbors_on(g0, cands[i].id, l as int) == neighbors_on(
                                *self,
                                cands[i].id,
                                l as int,
                            ));
                        }
                    }
                    assert(exists|ev: Seq<SearchResult>|
                        #[trigger] beam_around(ev, g0, l as int, eps[0], id, *dist_fn) && is_top_k(
                            cands,
                            ev,
                            g0.config.ef_construction as nat,
                            false,
                        ) && expanded_around(cands, ev, g0, l as int));
                }
                if fresh {
                    assert(!linked_on(*self, l as int, id)) by {
                        assert(!linked_on(*old(self), l as int, id));
                    }
                    assert forall|i: int| 0 <= i < cands.len() implies #[trigger] cands[i].id != id by {
                        if cands[i].id == id {
                            assert(eps.contains(cands[i].id) || linked_on(*self, l as int, cands[i].id));
                            if eps.contains(id) {
                                let w = choose|w: int| 0 <= w < eps.len() && eps[w] == id;
                                assert(eps[0] == id);
                            }
                        }
                    }
                    enters = enters.update(l as int, eps[0]);
                    hitss = hitss.update(l as int, cands);
                }
            }
            if candidates.len() > 0 {
                enter_points.set(0, candidates[0].id);
            }
            let max_m = self.max_edges_for_layer(l);
            let selected = crate::graph::select_neighbors(
                candidates,
                max_m,
                self.config.use_heuristic,
                dist_fn,
            );
            proof {
                if fresh {
                    lemma_distinct_ids_of(cands);
                    assert(!selected@.contains(id)) by {
                        if selected@.contains(id) {
                            let w = choose|w: int| 0 <= w < selected@.len() && selected@[w] == id;
                            assert(ids_of(cands).contains(selected@[w]));
                            let v = choose|v: int| 0 <= v < cands.len() && ids_of(cands)[v] == id;
                            assert(cands[v].id == id);
                        }
                    }
                    assert(links_at(self.nodes@, id as int, l as int) == links_at(
                        old(self).nodes@,
                        id as int,
                        l as int,
                    ));
                    assert(old(self).nodes@[id as int].layers@[l as int]@.len() == 0);
                    assert(old(self).nodes@[id as int].layers@[l as int]@ =~= selected@.take(0));
                }
            }
            let mut s: usize = 0;
            while s < selected.len()
                invariant
                    0 <= s <= selected@.len(),
                    forall|i: int|
                        0 <= i < selected@.len() ==> crate::graph::ids_of(cands).contains(
                            #[trigger] selected@[i],
                        ),
                    forall|i: int| 0 <= i < cands.len() ==> #[trigger] cands[i].id < n,
                    forall|i: int|
                        0 <= i < cands.len() ==> insert_support(g0, id, #[trigger] cands[i].id),
                    self.links_ok(),
                    self.ids_in_range(),
                    self.nodes@.len() == n,
                    id < n,
                    self.config == old(self).config,
                    self.entry_point == old(self).entry_point,
                    self.max_level == old(self).max_level,
                    self.num_nodes == old(self).num_nodes,
                    forall|a: u32, b: u32| dist_fn.requires((a, b)),
                    max_m == layer_budget(self.config, l as int),
                    forall|i: int, k: int|
                        k != l ==> #[trigger] links_at(self.nodes@, i, k) == links_at(before, i, k),
                    forall|i: int|
                        0 <= i < n ==> (#[trigger] self.nodes@[i]).layers@.len() == before[i].layers@.len(),
                    before.len() == n,
                    forall|i: int, k: int, x: u32|
                        #[trigger] listed(self.nodes@, i, k, x) ==> insert_support(g0, id, x),
                    fresh ==> selected@.no_duplicates() && !selected@.contains(id)
                        && selected@.len() <= max_m,
                    fresh ==> links_at(self.nodes@, id as int, l as int) == Some(
                        selected@.take(s as int),
                    ),
                    fresh ==> forall|i: int|
                        i != id && !selected@.take(s as int).contains(i as u32) ==> #[trigger] links_at(
                            self.nodes@,
                            i,
                            l as int,
                        ) == links_at(before, i, l as int),
                    fresh ==> forall|j: int|
                        0 <= j < s ==> #[trigger] edge_added_to_list(
                            links_at(before, selected@[j] as int, l as int),
                            links_at(self.nodes@, selected@[j] as int, l as int),
                            selected@[j],
                            id,
                            max_m as nat,
                            self.config.use_heuristic,
                            *dist_fn,
                        ),
                decreases selected@.len() - s,
            {
                let nb = selected[s];
                proof {
                    assert(crate::graph::ids_of(cands).contains(nb));
                    let w = choose|w: int|
                        0 <= w < cands.len() && crate::graph::ids_of(cands)[w] == nb;
                    assert(cands[w].id == nb);
                }
                let ghost pre = self.nodes@;
                self.add_edge(id, nb, l, dist_fn);
                proof {
                    let budget = layer_budget(old(self).config, l as int);
                    let heur = old(self).config.use_heuristic;
                    let mid = choose|mid: Seq<NodeLinks>|
                        #[trigger] directed_edge_added(pre, mid, id, nb, l as int, budget, heur, dist_fn)
                            && directed_edge_added(mid, self.nodes@, nb, id, l as int, budget, heur, dist_fn);
                    lemma_edge_frame(pre, mid, id, nb, l as int, budget, heur, dist_fn);
                    lemma_edge_frame(mid, self.nodes@, nb, id, l as int, budget, heur, dist_fn);
                    lemma_edge_entries(pre, mid, id, nb, l as int, budget, heur, dist_fn);
                    lemma_edge_entries(mid, self.nodes@, nb, id, l as int, budget, heur, dist_fn);
                    crate::graph::lemma_edge_list_deref(
                        links_at(mid, nb as int, l as int),
                        links_at(self.nodes@, nb as int, l as int),
                        nb,
                        id,
                        budget,
                        heur,
                        dist_fn,
                    );
                    assert(insert_support(g0, id, nb)) by {
                        let w = choose|w: int|
                            0 <= w < cands.len() && crate::graph::ids_of(cands)[w] == nb;
                        assert(cands[w].id == nb);
                    }
                    assert forall|i: int, k: int, x: u32|
                        #[trigger] listed(self.nodes@, i, k, x) implies insert_support(g0, id, x) by {
                        if x != id && listed(mid, i, k, x) && x != nb {
                            assert(listed(pre, i, k, x));
                        }
                    }
                    if fresh {
                        let done = selected@.take(s as int);
                        assert(nb != id);
                        assert(!done.contains(nb)) by {
                            if done.contains(nb) {
                                let w = choose|w: int| 0 <= w < done.len() && done[w] == nb;
                                assert(selected@[w] == selected@[s as int]);
                            }
                        }
                        lemma_edge_appends(pre, mid, id, nb, l as int, budget, heur, dist_fn, done);
                        assert(done.push(nb) =~= selected@.take(s + 1));
                        assert(links_at(self.nodes@, id as int, l as int) == links_at(
                            mid,
                            id as int,
                            l as int,
                        ));
                        assert(links_at(mid, nb as int, l as int) == links_at(pre, nb as int, l as int));
                        assert(links_at(pre, nb as int, l as int) == links_at(before, nb as int, l as int));
                        assert forall|i: int|
                            i != id && !selected@.take(s + 1).contains(i as u32) implies #[trigger] links_at(
                            self.nodes@,
                            i,
                            l as int,
                        ) == links_at(before, i, l as int) by {
                            assert(i as u32 != nb || i != nb) by {
                                if i == nb {
                                    assert(selected@.take(s + 1)[s as int] == nb);
                                }
                            }
                            if i != nb {
                                assert(!done.contains(i as u32)) by {
                                    if done.contains(i as u32) {
                                        let w = choose|w: int| 0 <= w < done.len() && done[w] == i as u32;
                                        assert(selected@.take(s + 1)[w] == i as u32);
                                    }
                                }
                            }
                        }
                        assert forall|j: int| 0 <= j < s + 1 implies #[trigger] edge_added_to_list(
                            links_at(before, selected@[j] as int, l as int),
                            links_at(self.nodes@, selected@[j] as int, l as int),
                            selected@[j],
                            id,
                            max_m as nat,
                            self.config.use_heuristic,
                            *dist_fn,
                        ) by {
                            if j < s {
                                let x = selected@[j];
                                assert(x != nb);
                                assert(x != id) by {
                                    assert(selected@.contains(x));
                                }
                                assert(links_at(self.nodes@, x as int, l as int) == links_at(
                                    pre,
                                    x as int,
                                    l as int,
                                ));
                            }
                        }
                    }
                }
                s += 1;
            }
            proof {
                assert forall|i: int, k: int| k < l || k > bottom_l implies #[trigger] links_at(
                    self.nodes@,
                    i,
                    k,
                ) == links_at(old(self).nodes@, i, k) by {
                    assert(links_at(self.nodes@, i, k) == links_at(before, i, k));
                }
                assert(enter_points@.len() == 1);
                if cands.len() > 0 {
                    assert(insert_support(g0, id, cands[0].id));
                }
                if fresh {
                    let sel = selected@;
                    assert(sel.take(sel.len() as int) =~= sel);
                    assert(hits_around(cands, id, *dist_fn)) by {
                        assert(eps.len() > 0);
                        assert forall|i: int| 0 <= i < cands.len() implies (#[trigger] cands[i]).id
                            != id && dist_fn.ensures((id, cands[i].id), cands[i].score_key) by {
                            assert(q.ensures((cands[i].id,), cands[i].score_key));
                        }
                    }
                    assert(links_at(g0.nodes@, id as int, l as int) == links_at(before, id as int, l as int));
                    assert forall|j: int| 0 <= j < sel.len() implies #[trigger] edge_added_to_list(
                        links_at(g0.nodes@, sel[j] as int, l as int),
                        links_at(self.nodes@, sel[j] as int, l as int),
                        sel[j],
                        id,
                        layer_budget(g0.config, l as int),
                        g0.config.use_heuristic,
                        *dist_fn,
                    ) by {
                        assert(links_at(g0.nodes@, sel[j] as int, l as int) == links_at(
                            before,
                            sel[j] as int,
                            l as int,
                        ));
                    }
                    assert(layer_linked(g0, self.nodes@, id, l as int, enters[l as int], hitss[l as int], *dist_fn));
                    assert forall|k: int| l <= k <= bottom_l implies #[trigger] layer_linked(
                        g0,
                        self.nodes@,
                        id,
                        k,
                        enters[k],
                        hitss[k],
                        *dist_fn,
                    ) by {
                        if k != l {
                            assert(layer_linked(g0, before, id, k, enters[k], hitss[k], *dist_fn));
                            assert(links_at(self.nodes@, id as int, k) == links_at(before, id as int, k));
                            let sel_k = links_at(before, id as int, k)->0;
                            assert forall|j: int| 0 <= j < sel_k.len() implies #[trigger] edge_added_to_list(
                                links_at(g0.nodes@, sel_k[j] as int, k),
                                links_at(self.nodes@, sel_k[j] as int, k),
                                sel_k[j],
                                id,
                                layer_budget(g0.config, k),
                                g0.config.use_heuristic,
                                *dist_fn,
                            ) by {
                                assert(links_at(self.nodes@, sel_k[j] as int, k) == links_at(
                                    before,
                                    sel_k[j] as int,
                                    k,
                                ));
                            }
                        }
                    }
                    if cands.len() > 0 {
                        assert(enter_points@[0] == hitss[l as int][0].id);
                    }
                }
            }
        }
        proof {
            if fresh {
                assert forall|k: int| max_l < k <= node_level implies #[trigger] links_at(
                    self.nodes@,
                    id as int,
                    k,
                ) == Some(Seq::<u32>::empty()) by {
                    assert(links_at(self.nodes@, id as int, k) == links_at(old(self).nodes@, id as int, k));
                    assert(old(self).nodes@[id as int].layers@[k]@.len() == 0);
                    assert(old(self).nodes@[id as int].layers@[k]@ =~= Seq::<u32>::empty());
                }
                assert(shared_top(g0, node_level as nat) == bottom_l);
                assert(insertion_path(g0, self.nodes@, id, bottom_l as int, curr.id, enters, hitss, *dist_fn));
            }
        }
        if node_level > max_l {
            self.entry_point = Some(id);
            self.max_level = node_level;
        }
        self.num_nodes = self.num_nodes + 1;
    }
}


/// The highest of `levels` (0 for none).
pub open spec fn top_level(levels: Seq<usize>) -> usize
    decreases levels.len(),
{
    if levels.len() == 0 {
        0
    } else {
        let below = top_level(levels.drop_last());
        if levels.last() > below {
            levels.last()
        } else {
            below
        }
    }
}

/// The first position at which `levels` reaches its highest level.
pub open spec fn top_node(levels: Seq<usize>) -> nat
    decreases levels.len(),
{
    if levels.len() <= 1 {
        0
    } else if levels.last() > top_level(levels.drop_last()) {
        (levels.len() - 1) as nat
    } else {
        top_node(levels.drop_last())
    }
}

/// `mid` is `g` after [`HnswGraph::init_node`] gave node `id`, which has a
/// slot, empty lists on layers `0..=level`.
pub open spec fn node_initialized(g: HnswGraph, mid: HnswGraph, id: u32, level: nat) -> bool {
    &&& mid.config == g.config
    &&& mid.entry_point == g.entry_point
    &&& mid.max_level == g.max_level
    &&& mid.num_nodes == g.num_nodes
    &&& mid.nodes@.len() == g.nodes@.len()
    &&& mid.nodes@[id as int].layers@.len() == level + 1
    &&& forall|l: int| 0 <= l <= level ==> (#[trigger] mid.nodes@[id as int].layers@[l])@.len() == 0
    &&& forall|i: int| 0 <= i < g.nodes@.len() && i != id ==> #[trigger] mid.nodes@[i] == g.nodes@[i]
}

/// `after` is `before` with node `id` built in at `level`: its slot
/// initialized, then the node, not yet part of the graph, inserted.
pub open spec fn node_built<F: Fn(u32, u32) -> u32>(
    before: HnswGraph,
    after: HnswGraph,
    id: u32,
    level: nat,
    dist_fn: F,
) -> bool {
    exists|mid: HnswGraph|
        #[trigger] node_initialized(before, mid, id, level) && unlinked_node(mid, id, level as int)
            && node_inserted(mid, after, id, level, dist_fn)
}

/// `g` has `n` empty slots under `config` and no entry point.
pub open spec fn empty_graph(g: HnswGraph, config: HnswConfig, n: nat) -> bool {
    &&& g.config == config
    &&& g.nodes@.len() == n
    &&& forall|i: int| 0 <= i < n ==> (#[trigger] g.nodes@[i]).layers@.len() == 0
    &&& g.entry_point is None
    &&& g.max_level == 0
    &&& g.num_nodes == 0
}

/// Builds a graph over `levels.len()` vectors, node `id` taking part in
/// layers `0..=levels[id]`, by inserting the nodes one after another with
/// [`HnswGraph::insert_node`]: the graph is the last of a sequence that
/// starts empty and builds in node `i` at `levels[i]` at step `i`. The top
/// layer is the highest level and the entry point the first node on it.
#[verifier::spinoff_prover]
#[verifier::rlimit(40)]
pub fn build_graph<F: Fn(u32, u32) -> u32>(
    config: HnswConfig,
    levels: &Vec<usize>,
    dist_fn: &F,
) -> (g: HnswGraph)
    requires
        levels@.len() <= u32::MAX,
        levels@.len() + 65 <= usize::MAX,
        forall|i: int| 0 <= i < levels@.len() ==> #[trigger] levels@[i] < usize::MAX,
        forall|a: u32, b: u32| dist_fn.requires((a, b)),
    ensures
        g.links_ok(),
        g.ids_in_range(),
        g.config == config,
        g.nodes@.len() == levels@.len(),
        g.num_nodes == levels@.len(),
        levels@.len() > 0 <==> g.entry_point is Some,
        g.entry_point matches Some(e) ==> e < levels@.len(),
        levels@.len() > 0 ==> g.max_level == top_level(levels@) && g.entry_point == Some(
            top_node(levels@) as u32,
        ),
        forall|i: int| 0 <= i < levels@.len() ==> (#[trigger] g.nodes@[i]).layers@.len() == levels@[i] + 1,
        exists|gs: Seq<HnswGraph>|
            #![trigger gs.len(), gs[0]]
            gs.len() == levels@.len() + 1 && empty_graph(gs[0], config, levels@.len()) && gs.last() == g
                && forall|i: int|
                0 <= i < levels@.len() ==> #[trigger] node_built(
                    gs[i],
                    gs[i + 1],
                    i as u32,
                    levels@[i] as nat,
                    *dist_fn,
                ),
{
    let n = levels.len();
    let mut graph = HnswGraph::new(config, n);
    let mut tracker = VisitedTracker::new(n);
    let mut id: usize = 0;
    let ghost mut gs: Seq<HnswGraph> = seq![graph];
    while id < n
        invariant
            0 <= id <= n,
            n == levels@.len(),
            n <= u32::MAX,
            n + 65 <= usize::MAX,
            forall|i: int| 0 <= i < levels@.len() ==> #[trigger] levels@[i] < usize::MAX,
            forall|a: u32, b: u32| dist_fn.requires((a, b)),
            graph.links_ok(),
            graph.ids_in_range(),
            graph.config == config,
            graph.nodes@.len() == n,
            graph.num_nodes == id,
            id > 0 <==> graph.entry_point is Some,
            graph.entry_point matches Some(e) ==> e < n,
            tracker.wf(),
            id > 0 ==> graph.max_level == top_level(levels@.take(id as int)) && graph.entry_point
                == Some(top_node(levels@.take(id as int)) as u32),
            forall|i: int| 0 <= i < id ==> (#[trigger] graph.nodes@[i]).layers@.len() == levels@[i] + 1,
            forall|i: int| id <= i < n ==> (#[trigger] graph.nodes@[i]).layers@.len() == 0,
            forall|i: int, k: int, x: u32| #[trigger] listed(graph.nodes@, i, k, x) ==> x < id,
            graph.entry_point matches Some(e) ==> e < id,
            gs.len() == id + 1,
            empty_graph(gs[0], config, n as nat),
            gs.last() == graph,
            forall|i: int|
                0 <= i < id ==> #[trigger] node_built(gs[i], gs[i + 1], i as u32, levels@[i] as nat, *dist_fn),
        decreases n - id,
    {
        let level = levels[id];
        let ghost before = graph;
        graph.init_node(id as u32, level);
        let ghost mid = graph;
        proof {
            assert(node_initialized(before, mid, id as u32, level as nat));
            assert forall|l: int| !#[trigger] linked_on(mid, l, id as u32) by {
                if linked_on(mid, l, id as u32) {
                    let i = choose|i: int| #[trigger] links_at(mid.nodes@, i, l) matches Some(ls) && ls.contains(id as u32);
                    if i == id {
                        let ls = links_at(mid.nodes@, i, l)->0;
                        assert(ls.len() == 0);
                    } else {
                        assert(mid.nodes@[i] == before.nodes@[i]);
                        assert(listed(before.nodes@, i, l, id as u32));
                    }
                }
            }
            assert(unlinked_node(mid, id as u32, level as int));
        }
        graph.insert_node(id as u32, level, &mut tracker, dist_fn);
        proof {
            assert(node_built(before, graph, id as u32, level as nat, *dist_fn));
            let old_gs = gs;
            gs = gs.push(graph);
            assert forall|i: int|
                0 <= i < id + 1 implies #[trigger] node_built(gs[i], gs[i + 1], i as u32, levels@[i] as nat, *dist_fn) by {
                if i < id {
                    assert(gs[i] == old_gs[i] && gs[i + 1] == old_gs[i + 1]);
                }
            }
            assert forall|i: int, k: int, x: u32| #[trigger] listed(graph.nodes@, i, k, x) implies x < id + 1 by {
                assert(insert_support(mid, id as u32, x));
                if x != id && mid.entry_point != Some(x) {
                    let l2 = choose|l2: int| #[trigger] linked_on(mid, l2, x);
                    let i2 = choose|i2: int| #[trigger] links_at(mid.nodes@, i2, l2) matches Some(ls) && ls.contains(x);
                    if i2 == id {
                        let ls = links_at(mid.nodes@, i2, l2)->0;
                        assert(ls.len() == 0);
                    } else {
                        assert(mid.nodes@[i2] == before.nodes@[i2]);
                        assert(listed(before.nodes@, i2, l2, x));
                    }
                }
            }
            assert forall|i: int| 0 <= i < id + 1 implies (#[trigger] graph.nodes@[i]).layers@.len() == levels@[i] + 1 by {
                assert(graph.nodes@[i].layers@.len() == mid.nodes@[i].layers@.len());
                if i < id {
                    assert(mid.nodes@[i] == before.nodes@[i]);
                }
            }
            assert forall|i: int| id + 1 <= i < n implies (#[trigger] graph.nodes@[i]).layers@.len() == 0 by {
                assert(graph.nodes@[i].layers@.len() == mid.nodes@[i].layers@.len());
                assert(mid.nodes@[i] == before.nodes@[i]);
            }
        }
        proof {
            let next = levels@.take(id + 1);
            assert(next.drop_last() =~= levels@.take(id as int));
            assert(next.last() == level);
            if id == 0 {
                assert(levels@.take(0) =~= Seq::<usize>::empty());
                assert(top_level(next.drop_last()) == 0);
            }
        }
        id += 1;
    }
    proof {
        assert(levels@.take(n as int) =~= levels@);
        assert(gs.len() == levels@.len() + 1 && empty_graph(gs[0], config, levels@.len()) && gs.last() == graph);
    }
    graph
}


/// Beam width of a query for `k` hits among `n` vectors: `ef_search`, or
/// the capped `k` when larger.
pub open spec fn query_width(ef_search: nat, k: nat, n: nat) -> nat {
    let kk = min_nat(k, n);
    if ef_search >= kk {
        ef_search
    } else {
        kk
    }
}

/// Searches the graph for the `k` vectors closest to a query, `dist`
/// reporting the key of each node's distance to the query. Refused when
/// there are no vectors, when the query has the wrong dimension, or when
/// the graph has no entry point; `k` is capped by the number of vectors and
/// `k == 0` gives no hit. Otherwise routes greedily from the entry point
/// down to layer 1 and beam-searches layer 0 with width `max(ef_search, k)`,
/// keeping the `k` closest hits, closest first: they are the first of the
/// hits of a beam search of that width from the node the routing reached,
/// the closest of the nodes it evaluated, each with all its layer-0
/// neighbors evaluated.
#[verifier::spinoff_prover]
#[verifier::rlimit(40)]
pub fn search_graph<F: Fn(u32) -> u32>(
    graph: &HnswGraph,
    num_vectors: usize,
    dimension: usize,
    query_len: usize,
    k: usize,
    ef_search: usize,
    dist: &F,
) -> (r: Result<Vec<SearchResult>, VectorIndexError>)
    requires
        graph.ids_in_range(),
        graph.nodes@.len() == num_vectors,
        graph.entry_point matches Some(e) ==> e < num_vectors,
        num_vectors <= u32::MAX,
        num_vectors + 65 <= usize::MAX,
        forall|x: u32| dist.requires((x,)),
    ensures
        num_vectors == 0 ==> r == Err::<Vec<SearchResult>, VectorIndexError>(
            VectorIndexError::EmptyIndex,
        ),
        num_vectors > 0 && query_len != dimension ==> r == Err::<Vec<SearchResult>, VectorIndexError>(
            VectorIndexError::DimensionMismatch { expected: dimension, got: query_len },
        ),
        num_vectors > 0 && query_len == dimension && k == 0 ==> r is Ok && r->Ok_0@.len() == 0,
        num_vectors > 0 && query_len == dimension && k > 0 && graph.entry_point is None ==> r
            == Err::<Vec<SearchResult>, VectorIndexError>(VectorIndexError::EmptyIndex),
        num_vectors > 0 && query_len == dimension && k > 0 && graph.entry_point is Some ==> r is Ok,
        r matches Ok(hits) ==> {
            &&& 0 < k ==> 0 < hits@.len()
            &&& hits@.len() <= k
            &&& ranked(hits@, false)
            &&& keys_reported(hits@, *dist)
            &&& distinct_ids(hits@)
            &&& forall|i: int| 0 <= i < hits@.len() ==> #[trigger] hits@[i].id < num_vectors
        },
        r is Ok && k > 0 ==> exists|evaluated: Seq<SearchResult>|
            #![trigger is_top_k(r->Ok_0@, evaluated, min_nat(k as nat, num_vectors as nat), false)]
            is_top_k(r->Ok_0@, evaluated, min_nat(k as nat, num_vectors as nat), false)
                && keys_reported(evaluated, *dist) && expanded_around(r->Ok_0@, evaluated, *graph, 0),
        r is Ok && k > 0 ==> exists|c: Seq<SearchResult>, evaluated: Seq<SearchResult>, e: SearchResult|
            #![trigger is_top_k(c, evaluated, query_width(ef_search as nat, k as nat, num_vectors as nat), false), descended_to(*graph, e, 1, reported_by(*dist))]
            descended_to(*graph, e, 1, reported_by(*dist)) && is_top_k(
                c,
                evaluated,
                query_width(ef_search as nat, k as nat, num_vectors as nat),
                false,
            ) && beam_evaluated(evaluated, *graph, 0, seq![e.id], *dist) && expanded_around(
                c,
                evaluated,
                *graph,
                0,
            ) && r->Ok_0@ == c.take(min_nat(min_nat(k as nat, num_vectors as nat), c.len()) as int),
{
    if num_vectors == 0 {
        return Err(VectorIndexError::EmptyIndex);
    }
    if query_len != dimension {
        return Err(VectorIndexError::DimensionMismatch { expected: dimension, got: query_len });
    }
    let kk = if k <= num_vectors {
        k
    } else {
        num_vectors
    };
    if kk == 0 {
        return Ok(Vec::new());
    }
    let ef = if ef_search >= kk {
        ef_search
    } else {
        kk
    };
    let ep = match graph.entry_point {
        Some(ep) => ep,
        None => return Err(VectorIndexError::EmptyIndex),
    };
    let start = query_key(dist, ep);
    let curr = if graph.max_level >= 1 {
        greedy_descend(graph, start, graph.max_level, 1, dist)
    } else {
        start
    };
    let mut tracker = VisitedTracker::new(num_vectors);
    let mut enter_points: Vec<u32> = Vec::new();
    enter_points.push(curr.id);
    proof {
        lemma_in_range_layer(*graph, 0);
        assert(enter_points@.no_duplicates());
        assert(enter_points@ =~= seq![curr.id]);
        assert(entry_hit(*graph, start, reported_by(*dist)));
        assert(descended_to(*graph, curr, 1, reported_by(*dist)));
    }
    let candidates = search_layer(graph, &enter_points, ef, 0, num_vectors, &mut tracker, dist);
    let mut hits: Vec<SearchResult> = Vec::new();
    let mut i: usize = 0;
    while i < candidates.len() && i < kk
        invariant
            0 <= i <= candidates@.len(),
            i <= kk,
            hits@ == candidates@.take(i as int),
        decreases kk - i,
    {
        hits.push(candidates[i]);
        i += 1;
        assert(candidates@.take(i as int) =~= candidates@.take(i - 1).push(candidates@[i - 1]));
    }
    proof {
        let c = candidates@;
        assert forall|a: int, b: int| 0 <= a < b < hits@.len() implies !better(
            #[trigger] hits@[b],
            #[trigger] hits@[a],
            false,
        ) by {
            assert(hits@[a] == c[a] && hits@[b] == c[b]);
        }
        assert forall|a: int| 0 <= a < hits@.len() implies dist.ensures(
            (hits@[a].id,),
            #[trigger] hits@[a].score_key,
        ) && hits@[a].id < num_vectors by {
            assert(hits@[a] == c[a]);
        }
        assert forall|a: int, b: int|
            0 <= a < hits@.len() && 0 <= b < hits@.len() && a != b implies #[trigger] hits@[a].id
            != #[trigger] hits@[b].id by {
            assert(hits@[a] == c[a] && hits@[b] == c[b]);
        }
        let evaluated = choose|evaluated: Seq<SearchResult>|
            #![trigger beam_evaluated(evaluated, *graph, 0, enter_points@, *dist)]
            is_top_k(c, evaluated, ef as nat, false) && beam_evaluated(
                evaluated,
                *graph,
                0,
                enter_points@,
                *dist,
            ) && expanded_around(c, evaluated, *graph, 0);
        assert(expanded_around(hits@, evaluated, *graph, 0)) by {
            assert forall|a: int, q: int|
                0 <= a < hits@.len() && 0 <= q < neighbors_on(*graph, hits@[a].id, 0).len() implies ids_of(
                evaluated,
            ).contains(#[trigger] neighbors_on(*graph, hits@[a].id, 0)[q]) by {
                assert(hits@[a] == c[a]);
                assert(neighbors_on(*graph, c[a].id, 0)[q] == neighbors_on(*graph, hits@[a].id, 0)[q]);
            }
        }
        lemma_top_k_prefix(c, evaluated, ef as nat, kk as nat, false);
        assert(hits@ == c.take(min_nat(kk as nat, c.len()) as int));
        assert(min_nat(k as nat, num_vectors as nat) == kk);
        let out = Ok::<Vec<SearchResult>, VectorIndexError>(hits);
        assert(out->Ok_0@ == hits@);
        assert(is_top_k(out->Ok_0@, evaluated, min_nat(k as nat, num_vectors as nat), false));
        assert(query_width(ef_search as nat, k as nat, num_vectors as nat) == ef);
        assert(out->Ok_0@ == c.take(min_nat(min_nat(k as nat, num_vectors as nat), c.len()) as int));
    }
    Ok(hits)
}

/// The layer-0 beam of a query is `max(ef_search, min(k, n))`: never
/// narrower than `ef_search` (whether or not that exceeds the number of
/// vectors) nor than the capped `k`, and one of the two.
pub proof fn lemma_query_width_is_max(ef_search: nat, k: nat, n: nat)
    ensures
        query_width(ef_search, k, n) >= ef_search,
        query_width(ef_search, k, n) >= k || query_width(ef_search, k, n) >= n,
        query_width(ef_search, k, n) == ef_search || (query_width(ef_search, k, n) <= k
            && query_width(ef_search, k, n) <= n),
{
}

/// A beam at least as wide as the nodes it evaluated drops none of them:
/// with `ef_search` no smaller than that count, the search's list holds
/// every node evaluated.
pub proof fn lemma_wide_beam_keeps_all(
    c: Seq<SearchResult>,
    evaluated: Seq<SearchResult>,
    ef_search: nat,
    k: nat,
    n: nat,
)
    requires
        is_top_k(c, evaluated, query_width(ef_search, k, n), false),
        evaluated.len() <= ef_search,
    ensures
        c.len() == evaluated.len(),
        c.to_multiset().subset_of(evaluated.to_multiset()),
{
    lemma_query_width_is_max(ef_search, k, n);
}

} // verus!
