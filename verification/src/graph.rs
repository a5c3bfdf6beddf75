//! Topology of a layered HNSW proximity graph: per node, one neighbor list
//! per layer the node takes part in, plus the global entry point.

use crate::hnsw_config::HnswConfig;
use crate::topk::{SearchResult, all_items, is_top_k, min_nat, select_top_k};
use vstd::prelude::*;

verus! {

/// Neighbor lists of one node; `layers[l]` holds its neighbors on layer `l`.
#[derive(Debug, Clone, Default)]
pub struct NodeLinks {
    /// Neighbor ids per layer, layer 0 first.
    pub layers: Vec<Vec<u32>>,
}

/// The neighbor lists of a node, as sequences.
pub open spec fn node_view(n: NodeLinks) -> Seq<Seq<u32>> {
    n.layers@.map_values(|l: Vec<u32>| l@)
}

/// The neighbor lists of every node, as sequences.
pub open spec fn nodes_view(ns: Seq<NodeLinks>) -> Seq<Seq<Seq<u32>>> {
    ns.map_values(|n: NodeLinks| node_view(n))
}

impl NodeLinks {
    /// Creates a node on layers `0..=level`, with no neighbors yet.
    pub fn new(level: usize) -> (n: Self)
        requires
            level < usize::MAX,
        ensures
            n.layers@.len() == level + 1,
            forall|l: int| 0 <= l <= level ==> (#[trigger] n.layers@[l])@.len() == 0,
    {
        let mut layers: Vec<Vec<u32>> = Vec::new();
        let mut i: usize = 0;
        while i <= level
            invariant
                0 <= i <= level + 1,
                level < usize::MAX,
                layers@.len() == i,
                forall|l: int| 0 <= l < i ==> (#[trigger] layers@[l])@.len() == 0,
            decreases level + 1 - i,
        {
            layers.push(Vec::new());
            i += 1;
        }
        NodeLinks { layers }
    }

    /// The highest layer of the node (0 for a node with no layer slot).
    pub fn max_level(&self) -> (l: usize)
        ensures
            l == if self.layers@.len() == 0 {
                0
            } else {
                (self.layers@.len() - 1) as usize
            },
    {
        if self.layers.len() == 0 {
            0
        } else {
            self.layers.len() - 1
        }
    }
}

/// A layered proximity graph with its parameters and entry point.
#[derive(Debug)]
pub struct HnswGraph {
    /// Link budgets and beam widths.
    pub config: HnswConfig,
    /// Neighbor lists per node.
    pub nodes: Vec<NodeLinks>,
    /// The node where searches start (on the highest layer).
    pub entry_point: Option<u32>,
    /// Highest layer present in the graph.
    pub max_level: usize,
    /// Number of nodes inserted so far.
    pub num_nodes: usize,
}


/// The neighbor list of node `id` on `layer`, if the graph has that slot.
pub open spec fn links_at(nodes: Seq<NodeLinks>, id: int, layer: int) -> Option<Seq<u32>> {
    if 0 <= id < nodes.len() && 0 <= layer < nodes[id].layers@.len() {
        Some(nodes[id].layers@[layer]@)
    } else {
        None
    }
}

/// `keyed` pairs each id of `ids` with a key that `dist_fn` returned for
/// the pair `(base, id)`.
pub open spec fn keyed_by<F: Fn(u32, u32) -> u32>(
    keyed: Seq<SearchResult>,
    ids: Seq<u32>,
    base: u32,
    dist_fn: F,
) -> bool {
    &&& keyed.len() == ids.len()
    &&& forall|i: int|
        0 <= i < ids.len() ==> (#[trigger] keyed[i]).id == ids[i] && dist_fn.ensures(
            (base, ids[i]),
            keyed[i].score_key,
        )
}

/// The ids of a sequence of hits.
pub open spec fn ids_of(s: Seq<SearchResult>) -> Seq<u32> {
    s.map_values(|r: SearchResult| r.id)
}

/// `kept` is what selecting `max_m` neighbors among the keyed candidates
/// `cands` may give: ids of candidates only; `min(max_m, |cands|)` distinct
/// ones when the candidate ids are distinct; and, without the diversity
/// heuristic, the ids of the `max_m` closest, closest first, earlier
/// candidates first among equals.
pub open spec fn selected_from(
    kept: Seq<u32>,
    cands: Seq<SearchResult>,
    max_m: nat,
    use_heuristic: bool,
) -> bool {
    &&& forall|i: int| 0 <= i < kept.len() ==> ids_of(cands).contains(#[trigger] kept[i])
    &&& ids_of(cands).no_duplicates() ==> kept.no_duplicates() && kept.len() == min_nat(
        max_m,
        cands.len(),
    )
    &&& !use_heuristic ==> exists|best: Seq<SearchResult>|
        #![trigger is_top_k(best, cands, max_m, false)]
        is_top_k(best, cands, max_m, false) && kept == ids_of(best)
}

/// `kept` is what shrinking the list `cands` of node `base` to `max_m`
/// entries gives: the selection that [`select_neighbors`] makes among
/// `cands` keyed by the distances that `dist_fn` reports from `base`, the
/// diversity heuristic's when it is on.
pub open spec fn shrunk_from<F: Fn(u32, u32) -> u32>(
    kept: Seq<u32>,
    cands: Seq<u32>,
    base: u32,
    max_m: nat,
    use_heuristic: bool,
    dist_fn: F,
) -> bool {
    exists|keyed: Seq<SearchResult>|
        #![trigger keyed_by(keyed, cands, base, dist_fn)]
        keyed_by(keyed, cands, base, dist_fn) && selected_from(kept, keyed, max_m, use_heuristic) && (
        use_heuristic ==> heuristic_selected(kept, keyed, max_m, dist_fn))
}

/// Pairs each id with the key of its distance to `base`.
fn keyed_candidates<F: Fn(u32, u32) -> u32>(ids: &Vec<u32>, base: u32, dist_fn: &F) -> (r: Vec<
    SearchResult,
>)
    requires
        forall|a: u32, b: u32| dist_fn.requires((a, b)),
    ensures
        keyed_by(r@, ids@, base, *dist_fn),
{
    let mut out: Vec<SearchResult> = Vec::new();
    let mut i: usize = 0;
    while i < ids.len()
        invariant
            0 <= i <= ids@.len(),
            out@.len() == i,
            forall|a: u32, b: u32| dist_fn.requires((a, b)),
            forall|q: int|
                0 <= q < i ==> (#[trigger] out@[q]).id == ids@[q] && dist_fn.ensures(
                    (base, ids@[q]),
                    out@[q].score_key,
                ),
        decreases ids@.len() - i,
    {
        let id = ids[i];
        let key = dist_fn(base, id);
        out.push(SearchResult { id, score_key: key });
        i += 1;
    }
    out
}

/// Whether `id` occurs in `s`.
fn holds_id(s: &Vec<u32>, id: u32) -> (b: bool)
    ensures
        b == s@.contains(id),
{
    let mut i: usize = 0;
    while i < s.len()
        invariant
            0 <= i <= s@.len(),
            forall|q: int| 0 <= q < i ==> s@[q] != id,
        decreases s@.len() - i,
    {
        if s[i] == id {
            return true;
        }
        i += 1;
    }
    false
}

/// A list without duplicates holds at least as many entries as any
/// duplicate-free list whose entries it contains.
pub(crate) proof fn lemma_distinct_cover_len(small: Seq<u32>, big: Seq<u32>)
    requires
        small.no_duplicates(),
        big.no_duplicates(),
        forall|i: int| 0 <= i < small.len() ==> big.contains(#[trigger] small[i]),
    ensures
        small.len() <= big.len(),
{
    small.unique_seq_to_set();
    big.unique_seq_to_set();
    assert(small.to_set().subset_of(big.to_set())) by {
        assert forall|x: u32| small.to_set().contains(x) implies big.to_set().contains(x) by {
            let i = choose|i: int| 0 <= i < small.len() && small[i] == x;
            assert(big.contains(small[i]));
        }
    }
    vstd::set_lib::lemma_len_subset(small.to_set(), big.to_set());
}

/// Hits drawn from hits with distinct ids carry distinct ids.
pub(crate) proof fn lemma_top_k_distinct_ids(
    best: Seq<SearchResult>,
    keyed: Seq<SearchResult>,
    ids: Seq<u32>,
    k: nat,
    a: int,
    b: int,
)
    requires
        best.to_multiset().subset_of(keyed.to_multiset()),
        keyed.len() == ids.len(),
        forall|i: int| 0 <= i < ids.len() ==> (#[trigger] keyed[i]).id == ids[i],
        ids.no_duplicates(),
        0 <= a < best.len(),
        0 <= b < best.len(),
        a != b,
    ensures
        best[a].id != best[b].id,
{
    broadcast use vstd::seq_lib::group_to_multiset_ensures;
    broadcast use vstd::multiset::group_multiset_axioms;

    if best[a].id == best[b].id {
        assert(best.to_multiset().count(best[a]) > 0);
        assert(keyed.to_multiset().count(best[a]) > 0);
        let i = choose|i: int| 0 <= i < keyed.len() && keyed[i] == best[a];
        assert(best.to_multiset().count(best[b]) > 0);
        assert(keyed.to_multiset().count(best[b]) > 0);
        let j = choose|j: int| 0 <= j < keyed.len() && keyed[j] == best[b];
        assert(ids[i] == ids[j]);
        assert(i == j);
        let e = best[a];
        assert(best[b] == e);
        let rb = best.remove(a);
        assert(rb.contains(e)) by {
            if b < a {
                assert(rb[b] == e);
            } else {
                assert(rb[b - 1] == e);
            }
        }
        assert(rb.to_multiset() == best.to_multiset().remove(e));
        assert(rb.to_multiset().count(e) > 0);
        assert(best.to_multiset().remove(e).count(e) > 0);
        assert(best.to_multiset().count(e) >= 2);
        let rk = keyed.remove(i);
        assert(!rk.contains(e)) by {
            if rk.contains(e) {
                let q = choose|q: int| 0 <= q < rk.len() && rk[q] == e;
                if q < i {
                    assert(ids[q] == ids[i]);
                } else {
                    assert(ids[q + 1] == ids[i]);
                }
            }
        }
        assert(rk.to_multiset() == keyed.to_multiset().remove(e));
        assert(rk.to_multiset().count(e) == 0);
        assert(keyed.to_multiset().remove(e).count(e) == 0);
        assert(keyed.to_multiset().count(e) <= 1);
    }
}

/// Link budget of a layer: `m0` on layer 0, `m` above.
pub open spec fn layer_budget(c: HnswConfig, layer: int) -> nat {
    if layer == 0 {
        c.m0 as nat
    } else {
        c.m as nat
    }
}

/// The list of node `i` on layer `l` holds neither `i` nor any id twice,
/// and no more than `budget` ids.
pub open spec fn list_ok_at(nodes: Seq<NodeLinks>, i: int, l: int, budget: nat) -> bool {
    match links_at(nodes, i, l) {
        Some(s) => s.no_duplicates() && !s.contains(i as u32) && s.len() <= budget,
        None => true,
    }
}

/// `new_nodes` is `old_nodes` after adding the edge `src -> dst` on `layer`
/// with link budget `max_m`.
pub open spec fn directed_edge_added<F: Fn(u32, u32) -> u32>(
    old_nodes: Seq<NodeLinks>,
    new_nodes: Seq<NodeLinks>,
    src: u32,
    dst: u32,
    layer: int,
    max_m: nat,
    use_heuristic: bool,
    dist_fn: F,
) -> bool {
    match links_at(old_nodes, src as int, layer) {
        Some(l) => if src == dst || l.contains(dst) {
            new_nodes == old_nodes
        } else {
            &&& new_nodes.len() == old_nodes.len()
            &&& forall|i: int|
                0 <= i < old_nodes.len() ==> (#[trigger] new_nodes[i]).layers@.len()
                    == old_nodes[i].layers@.len()
            &&& forall|i: int, k: int|
                !(i == src && k == layer) ==> #[trigger] links_at(new_nodes, i, k) == links_at(
                    old_nodes,
                    i,
                    k,
                )
            &&& links_at(new_nodes, src as int, layer) matches Some(n) && if l.len() + 1 <= max_m {
                n == l.push(dst)
            } else {
                shrunk_from(n, l.push(dst), src, max_m, use_heuristic, dist_fn)
            }
        },
        None => new_nodes == old_nodes,
    }
}

/// Adding an edge leaves the node count and every list but the source's
/// list on the edge's layer as they were.
pub(crate) proof fn lemma_edge_frame<F: Fn(u32, u32) -> u32>(
    old_nodes: Seq<NodeLinks>,
    new_nodes: Seq<NodeLinks>,
    src: u32,
    dst: u32,
    layer: int,
    max_m: nat,
    use_heuristic: bool,
    dist_fn: F,
)
    requires
        directed_edge_added(old_nodes, new_nodes, src, dst, layer, max_m, use_heuristic, dist_fn),
    ensures
        new_nodes.len() == old_nodes.len(),
        forall|i: int|
            0 <= i < old_nodes.len() ==> (#[trigger] new_nodes[i]).layers@.len()
                == old_nodes[i].layers@.len(),
        forall|i: int, k: int|
            !(i == src && k == layer) ==> #[trigger] links_at(new_nodes, i, k) == links_at(
                old_nodes,
                i,
                k,
            ),
        edge_added_to_list(
            links_at(old_nodes, src as int, layer),
            links_at(new_nodes, src as int, layer),
            src,
            dst,
            max_m,
            use_heuristic,
            dist_fn,
        ),
{
}

/// The list of `src` after adding the edge `src -> dst` with budget
/// `max_m`, as [`HnswGraph::add_directed_edge`] leaves it: unchanged for a
/// self edge, an edge already present or a missing list; else the old list
/// with `dst` appended, shrunk to `max_m` when it no longer fits.
pub open spec fn edge_added_to_list<F: Fn(u32, u32) -> u32>(
    before: Option<Seq<u32>>,
    after: Option<Seq<u32>>,
    src: u32,
    dst: u32,
    max_m: nat,
    use_heuristic: bool,
    dist_fn: F,
) -> bool {
    match before {
        Some(l) => if src == dst || l.contains(dst) {
            after == before
        } else {
            after matches Some(n) && if l.len() + 1 <= max_m {
                n == l.push(dst)
            } else {
                shrunk_from(n, l.push(dst), src, max_m, use_heuristic, dist_fn)
            }
        },
        None => after == before,
    }
}

/// A list change stated for a reference to a distance closure holds of
/// the closure itself.
pub(crate) proof fn lemma_edge_list_deref<F: Fn(u32, u32) -> u32>(
    before: Option<Seq<u32>>,
    after: Option<Seq<u32>>,
    src: u32,
    dst: u32,
    max_m: nat,
    use_heuristic: bool,
    f: &F,
)
    requires
        edge_added_to_list(before, after, src, dst, max_m, use_heuristic, f),
    ensures
        edge_added_to_list(before, after, src, dst, max_m, use_heuristic, *f),
{
    if before is Some {
        let l = before->0;
        if !(src == dst || l.contains(dst)) && !(l.len() + 1 <= max_m) {
            let n = after->0;
            let keyed = choose|keyed: Seq<SearchResult>|
                keyed_by(keyed, l.push(dst), src, f) && selected_from(n, keyed, max_m, use_heuristic)
                    && (use_heuristic ==> heuristic_selected(n, keyed, max_m, f));
            assert(keyed_by(keyed, l.push(dst), src, *f));
            if use_heuristic {
                let (sorted, pk) = choose|sorted: Seq<SearchResult>, pk: spec_fn(int, int) -> u32|
                    #![trigger diverse_pass(sorted, max_m, pk, sorted.len())]
                    is_top_k(sorted, keyed, keyed.len(), false) && (forall|i: int, j: int|
                        #[trigger] pair_consulted(sorted, max_m, pk, i, j) ==> f.ensures(
                            (sorted[i].id, diverse_pass(sorted, max_m, pk, i as nat)[j]),
                            pk(i, j),
                        )) && n == fill_pass(
                        sorted,
                        max_m,
                        diverse_pass(sorted, max_m, pk, sorted.len()),
                        sorted.len(),
                    );
                assert(heuristic_selected(n, keyed, max_m, *f));
            }
        }
    }
}

/// The list of node `i` on layer `k` holds `x`.
pub open spec fn listed(nodes: Seq<NodeLinks>, i: int, k: int, x: u32) -> bool {
    links_at(nodes, i, k) matches Some(l) && l.contains(x)
}

/// After adding an edge, every id in a list was there before or is the
/// edge's target.
pub(crate) proof fn lemma_edge_entries<F: Fn(u32, u32) -> u32>(
    old_nodes: Seq<NodeLinks>,
    new_nodes: Seq<NodeLinks>,
    src: u32,
    dst: u32,
    layer: int,
    max_m: nat,
    use_heuristic: bool,
    dist_fn: F,
)
    requires
        directed_edge_added(old_nodes, new_nodes, src, dst, layer, max_m, use_heuristic, dist_fn),
    ensures
        forall|i: int, k: int, x: u32|
            #[trigger] listed(new_nodes, i, k, x) ==> x == dst || listed(old_nodes, i, k, x),
{
    assert forall|i: int, k: int, x: u32| #[trigger] listed(new_nodes, i, k, x) implies x == dst
        || listed(old_nodes, i, k, x) by {
        if i == src && k == layer && links_at(old_nodes, i, k) is Some && new_nodes != old_nodes {
            let l = links_at(old_nodes, i, k)->0;
            let n = links_at(new_nodes, i, k)->0;
            let cands = l.push(dst);
            let w = choose|w: int| 0 <= w < n.len() && n[w] == x;
            let c: int = if l.len() + 1 <= max_m {
                w
            } else {
                let keyed = choose|keyed: Seq<SearchResult>|
                    keyed_by(keyed, cands, src, dist_fn) && selected_from(
                        n,
                        keyed,
                        max_m,
                        use_heuristic,
                    );
                assert(ids_of(keyed) =~= cands);
                assert(ids_of(keyed).contains(n[w]));
                choose|c: int| 0 <= c < cands.len() && cands[c] == x
            };
            assert(cands[c] == x);
            if c < l.len() {
                assert(l[c] == x);
            }
        }
    }
}

/// An edge to a new neighbor is appended to the source's list while the
/// list stays within the budget.
pub(crate) proof fn lemma_edge_appends<F: Fn(u32, u32) -> u32>(
    old_nodes: Seq<NodeLinks>,
    new_nodes: Seq<NodeLinks>,
    src: u32,
    dst: u32,
    layer: int,
    max_m: nat,
    use_heuristic: bool,
    dist_fn: F,
    list: Seq<u32>,
)
    requires
        directed_edge_added(old_nodes, new_nodes, src, dst, layer, max_m, use_heuristic, dist_fn),
        links_at(old_nodes, src as int, layer) == Some(list),
        src != dst,
        !list.contains(dst),
        list.len() + 1 <= max_m,
    ensures
        links_at(new_nodes, src as int, layer) == Some(list.push(dst)),
{
}

/// The ids that the diversity pass holds after the first `i` ranked
/// candidates: candidate `i` is taken, while fewer than `max_m` are held,
/// when it is not held yet and each held neighbor `j` is farther from it
/// (key `pk(i, j)`) than the candidate is from the base.
pub open spec fn diverse_pass(
    sorted: Seq<SearchResult>,
    max_m: nat,
    pk: spec_fn(int, int) -> u32,
    i: nat,
) -> Seq<u32>
    decreases i,
{
    if i == 0 {
        Seq::empty()
    } else {
        let sel = diverse_pass(sorted, max_m, pk, (i - 1) as nat);
        let c = sorted[i - 1];
        if sel.len() < max_m && !sel.contains(c.id) && (forall|j: int|
            0 <= j < sel.len() ==> #[trigger] pk(i - 1, j) > c.score_key) {
            sel.push(c.id)
        } else {
            sel
        }
    }
}

/// The pairs whose keys the diversity pass reads: for candidate `i`, the
/// held neighbors up to the first one that is not farther from it than
/// the candidate is from the base.
pub open spec fn pair_consulted(
    sorted: Seq<SearchResult>,
    max_m: nat,
    pk: spec_fn(int, int) -> u32,
    i: int,
    j: int,
) -> bool {
    &&& 0 <= i < sorted.len()
    &&& diverse_pass(sorted, max_m, pk, i as nat).len() < max_m
    &&& 0 <= j < diverse_pass(sorted, max_m, pk, i as nat).len()
    &&& forall|q: int| 0 <= q < j ==> #[trigger] pk(i, q) > sorted[i].score_key
}

/// The fill pass after the first `i` ranked candidates: each one not held
/// yet is appended while fewer than `max_m` are held.
pub open spec fn fill_pass(sorted: Seq<SearchResult>, max_m: nat, sel: Seq<u32>, i: nat) -> Seq<u32>
    decreases i,
{
    if i == 0 {
        sel
    } else {
        let prev = fill_pass(sorted, max_m, sel, (i - 1) as nat);
        let c = sorted[i - 1];
        if prev.len() < max_m && !prev.contains(c.id) {
            prev.push(c.id)
        } else {
            prev
        }
    }
}

/// `kept` is what the heuristic selects from `cands`: for some ranking of
/// the candidates closest first and the pair keys that `dist_fn` reported
/// for the pairs the diversity pass reads, the diversity pass followed by
/// the fill pass.
pub open spec fn heuristic_selected<F: Fn(u32, u32) -> u32>(
    kept: Seq<u32>,
    cands: Seq<SearchResult>,
    max_m: nat,
    dist_fn: F,
) -> bool {
    exists|sorted: Seq<SearchResult>, pk: spec_fn(int, int) -> u32|
        #![trigger diverse_pass(sorted, max_m, pk, sorted.len())]
        is_top_k(sorted, cands, cands.len(), false) && (forall|i: int, j: int|
            #[trigger] pair_consulted(sorted, max_m, pk, i, j) ==> dist_fn.ensures(
                (sorted[i].id, diverse_pass(sorted, max_m, pk, i as nat)[j]),
                pk(i, j),
            )) && kept == fill_pass(
            sorted,
            max_m,
            diverse_pass(sorted, max_m, pk, sorted.len()),
            sorted.len(),
        )
}

/// The diversity pass over the first `i` candidates reads only the pair
/// keys of those candidates.
proof fn lemma_diverse_pass_agree(
    sorted: Seq<SearchResult>,
    max_m: nat,
    pk1: spec_fn(int, int) -> u32,
    pk2: spec_fn(int, int) -> u32,
    i: nat,
)
    requires
        forall|a: int, b: int| 0 <= a < i ==> #[trigger] pk1(a, b) == pk2(a, b),
    ensures
        diverse_pass(sorted, max_m, pk1, i) == diverse_pass(sorted, max_m, pk2, i),
    decreases i,
{
    if i > 0 {
        lemma_diverse_pass_agree(sorted, max_m, pk1, pk2, (i - 1) as nat);
        let sel = diverse_pass(sorted, max_m, pk1, (i - 1) as nat);
        let c = sorted[i - 1];
        if forall|j: int| 0 <= j < sel.len() ==> #[trigger] pk1(i - 1, j) > c.score_key {
            assert forall|j: int| 0 <= j < sel.len() implies #[trigger] pk2(i - 1, j) > c.score_key by {
                assert(pk1(i - 1, j) == pk2(i - 1, j));
            }
        }
        if forall|j: int| 0 <= j < sel.len() ==> #[trigger] pk2(i - 1, j) > c.score_key {
            assert forall|j: int| 0 <= j < sel.len() implies #[trigger] pk1(i - 1, j) > c.score_key by {
                assert(pk1(i - 1, j) == pk2(i - 1, j));
            }
        }
    }
}

/// Pair keys read from a map of recorded keys.
pub open spec fn keys_of(m: Map<(int, int), u32>) -> spec_fn(int, int) -> u32 {
    |a: int, b: int|
        if m.dom().contains((a, b)) {
            m[(a, b)]
        } else {
            0
        }
}

/// Picks at most `max_m` neighbors among keyed candidates. The candidates
/// are ranked closest first (earlier first among equals). Without the
/// heuristic the `max_m` closest are kept. With it, a candidate is taken
/// when it is farther from every neighbor already taken than from the base,
/// as `dist_fn` reports, and the remaining room is filled with the closest
/// candidates not yet taken.
pub fn select_neighbors<F: Fn(u32, u32) -> u32>(
    candidates: Vec<SearchResult>,
    max_m: usize,
    use_heuristic: bool,
    dist_fn: &F,
) -> (r: Vec<u32>)
    requires
        forall|a: u32, b: u32| dist_fn.requires((a, b)),
    ensures
        selected_from(r@, candidates@, max_m as nat, use_heuristic),
        use_heuristic ==> heuristic_selected(r@, candidates@, max_m as nat, *dist_fn),
{
    let ghost kv = candidates@;
    let n = candidates.len();
    if n == 0 {
        proof {
            let none = Seq::<SearchResult>::empty();
            let pk0 = keys_of(Map::empty());
            if use_heuristic {
                broadcast use vstd::seq_lib::group_to_multiset_ensures;

                assert(kv =~= none);
                assert(is_top_k(none, kv, kv.len(), false));
                assert(fill_pass(none, max_m as nat, diverse_pass(none, max_m as nat, pk0, 0), 0)
                    =~= Seq::<u32>::empty());
                assert(forall|i: int, j: int| !#[trigger] pair_consulted(none, max_m as nat, pk0, i, j));
            }
            assert forall|best: Seq<SearchResult>| is_top_k(best, kv, max_m as nat, false) implies ids_of(best) =~= Seq::<u32>::empty() by {}
            if !use_heuristic {
                assert(is_top_k(Seq::<SearchResult>::empty(), kv, max_m as nat, false)) by {
                    broadcast use vstd::seq_lib::group_to_multiset_ensures;
                    assert(kv =~= Seq::<SearchResult>::empty());
                }
                assert(ids_of(Seq::<SearchResult>::empty()) =~= Seq::<u32>::empty());
            }
        }
        return Vec::new();
    }
    let mut groups: Vec<Vec<SearchResult>> = Vec::new();
    groups.push(candidates);
    proof {
        assert(all_items(groups@) =~= groups@[0]@) by {
            reveal_with_fuel(all_items, 2);
            assert(groups@.drop_last() =~= Seq::<Vec<SearchResult>>::empty());
        }
    }
    let ghost cands = ids_of(kv);
    if use_heuristic {
        let sorted = select_top_k(&groups, n, false);
        proof {
            broadcast use vstd::seq_lib::group_to_multiset_ensures;

            assert forall|x: u32| cands.contains(x) implies ids_of(sorted@).contains(x) by {
                let i = choose|i: int| 0 <= i < cands.len() && cands[i] == x;
                assert(kv.contains(kv[i]));
                assert(sorted@.to_multiset().count(kv[i]) > 0);
                let j = choose|j: int| 0 <= j < sorted@.len() && sorted@[j] == kv[i];
                assert(ids_of(sorted@)[j] == x);
            }
            assert forall|j: int| 0 <= j < sorted@.len() implies cands.contains(
                #[trigger] ids_of(sorted@)[j],
            ) by {
                assert(sorted@.to_multiset().count(sorted@[j]) > 0);
                assert(kv.to_multiset().count(sorted@[j]) > 0);
                let i = choose|i: int| 0 <= i < kv.len() && kv[i] == sorted@[j];
                assert(cands[i] == ids_of(sorted@)[j]);
            }
        }
        let ghost sv = sorted@;
        let ghost mut pkm: Map<(int, int), u32> = Map::empty();
        let mut selected: Vec<u32> = Vec::new();
        let mut i: usize = 0;
        while i < sorted.len()
            invariant
                0 <= i <= sorted@.len(),
                sv == sorted@,
                selected@.len() <= max_m,
                selected@.no_duplicates(),
                forall|q: int| 0 <= q < selected@.len() ==> cands.contains(#[trigger] selected@[q]),
                forall|j: int| 0 <= j < sorted@.len() ==> cands.contains(#[trigger] ids_of(sorted@)[j]),
                forall|a: u32, b: u32| dist_fn.requires((a, b)),
                selected@ == diverse_pass(sv, max_m as nat, keys_of(pkm), i as nat),
                forall|a: int, b: int|
                    #[trigger] pair_consulted(sv, max_m as nat, keys_of(pkm), a, b) && a < i
                        ==> dist_fn.ensures(
                        (sv[a].id, diverse_pass(sv, max_m as nat, keys_of(pkm), a as nat)[b]),
                        keys_of(pkm)(a, b),
                    ),
            decreases sorted@.len() - i,
        {
            let ghost before = pkm;
            let ghost sel_before = selected@;
            if selected.len() < max_m {
                let cand = sorted[i];
                assert(ids_of(sorted@)[i as int] == cand.id);
                let mut diverse = true;
                let mut s: usize = 0;
                while diverse && s < selected.len()
                    invariant
                        0 <= s <= selected@.len(),
                        selected@ == sel_before,
                        forall|a: u32, b: u32| dist_fn.requires((a, b)),
                        forall|a: int, b: int|
                            a != i ==> #[trigger] keys_of(pkm)(a, b) == keys_of(before)(a, b),
                        forall|q: int| 0 <= q < s ==> #[trigger] keys_of(pkm)(i as int, q) > cand.score_key,
                        !diverse ==> s < selected@.len() && keys_of(pkm)(i as int, s as int)
                            <= cand.score_key,
                        forall|q: int|
                            0 <= q < s || (!diverse && q == s) ==> dist_fn.ensures(
                                (cand.id, selected@[q]),
                                #[trigger] keys_of(pkm)(i as int, q),
                            ),
                    decreases selected@.len() - s, (if diverse { 1int } else { 0int }),
                {
                    let d = dist_fn(cand.id, selected[s]);
                    proof {
                        let prev = pkm;
                        pkm = pkm.insert((i as int, s as int), d);
                        assert(keys_of(pkm)(i as int, s as int) == d);
                        assert forall|a: int, b: int| a != i implies #[trigger] keys_of(pkm)(a, b)
                            == keys_of(prev)(a, b) by {
                            assert((a, b) != (i as int, s as int));
                        }
                        assert forall|q: int| 0 <= q < s implies #[trigger] keys_of(pkm)(i as int, q)
                            == keys_of(prev)(i as int, q) by {
                            assert((i as int, q) != (i as int, s as int));
                        }
                    }
                    if d <= cand.score_key {
                        diverse = false;
                    } else {
                        s += 1;
                    }
                }
                proof {
                    if !diverse {
                        assert(!(keys_of(pkm)(i as int, s as int) > cand.score_key));
                    }
                    assert(diverse <==> forall|q: int|
                        0 <= q < selected@.len() ==> #[trigger] keys_of(pkm)(i as int, q)
                            > cand.score_key);
                    assert forall|q: int|
                        0 <= q < selected@.len() && (forall|r: int|
                            0 <= r < q ==> #[trigger] keys_of(pkm)(i as int, r) > cand.score_key)
                        implies dist_fn.ensures(
                        (cand.id, selected@[q]),
                        #[trigger] keys_of(pkm)(i as int, q),
                    ) by {
                        if !diverse && q > s {
                            assert(keys_of(pkm)(i as int, s as int) > cand.score_key);
                        }
                    }
                }
                proof {
                    lemma_diverse_pass_agree(sv, max_m as nat, keys_of(before), keys_of(pkm), i as nat);
                    assert forall|b: int| #[trigger]
                        pair_consulted(sv, max_m as nat, keys_of(pkm), i as int, b) implies dist_fn.ensures(
                        (sv[i as int].id, diverse_pass(sv, max_m as nat, keys_of(pkm), i as nat)[b]),
                        keys_of(pkm)(i as int, b),
                    ) by {
                        assert(forall|r: int| 0 <= r < b ==> #[trigger] keys_of(pkm)(i as int, r) > sv[i as int].score_key);
                    }
                }
                if diverse && !holds_id(&selected, cand.id) {
                    selected.push(cand.id);
                }
            }
            proof {
                lemma_diverse_pass_agree(sv, max_m as nat, keys_of(before), keys_of(pkm), i as nat);
                assert(selected@ == diverse_pass(sv, max_m as nat, keys_of(pkm), (i + 1) as nat));
                assert forall|a: int, b: int|
                    #[trigger] pair_consulted(sv, max_m as nat, keys_of(pkm), a, b) && a < i + 1
                        implies dist_fn.ensures(
                        (sv[a].id, diverse_pass(sv, max_m as nat, keys_of(pkm), a as nat)[b]),
                        keys_of(pkm)(a, b),
                    ) by {
                    if a < i {
                        lemma_diverse_pass_agree(sv, max_m as nat, keys_of(before), keys_of(pkm), a as nat);
                        assert(keys_of(pkm)(a, b) == keys_of(before)(a, b));
                        assert forall|q: int| 0 <= q < b implies #[trigger] keys_of(before)(a, q)
                            > sv[a].score_key by {
                            assert(keys_of(pkm)(a, q) == keys_of(before)(a, q));
                            assert(keys_of(pkm)(a, q) > sv[a].score_key);
                        }
                        assert(pair_consulted(sv, max_m as nat, keys_of(before), a, b));
                    }
                }
            }
            i += 1;
        }
        let ghost dsel = selected@;
        let ghost pk = keys_of(pkm);
        let mut i: usize = 0;
        while i < sorted.len()
            invariant
                0 <= i <= sorted@.len(),
                sv == sorted@,
                selected@.len() <= max_m,
                selected@.no_duplicates(),
                forall|q: int| 0 <= q < selected@.len() ==> cands.contains(#[trigger] selected@[q]),
                forall|j: int| 0 <= j < sorted@.len() ==> cands.contains(#[trigger] ids_of(sorted@)[j]),
                selected@.len() < max_m ==> forall|j: int|
                    0 <= j < i ==> selected@.contains(#[trigger] ids_of(sorted@)[j]),
                selected@ == fill_pass(sv, max_m as nat, dsel, i as nat),
            decreases sorted@.len() - i,
        {
            if selected.len() < max_m {
                let cid = sorted[i].id;
                assert(ids_of(sorted@)[i as int] == cid);
                let ghost before = selected@;
                if !holds_id(&selected, cid) {
                    selected.push(cid);
                    assert(selected@[selected@.len() - 1] == cid);
                }
                proof {
                    assert(selected@.contains(cid));
                    if selected@.len() < max_m {
                        assert forall|j: int| 0 <= j <= i implies selected@.contains(
                            #[trigger] ids_of(sorted@)[j],
                        ) by {
                            if j < i {
                                let q = choose|q: int|
                                    0 <= q < before.len() && before[q] == ids_of(sorted@)[j];
                                assert(selected@[q] == before[q]);
                            }
                        }
                    }
                }
            }
            i += 1;
        }
        proof {
            assert(is_top_k(sv, kv, kv.len(), false));
            assert(heuristic_selected(selected@, kv, max_m as nat, *dist_fn)) by {
                assert forall|a: int, b: int|
                    #[trigger] pair_consulted(sv, max_m as nat, pk, a, b) implies dist_fn.ensures(
                        (sv[a].id, diverse_pass(sv, max_m as nat, pk, a as nat)[b]),
                        pk(a, b),
                    ) by {
                    assert(a < sv.len());
                }
            }
            if cands.no_duplicates() {
                lemma_distinct_cover_len(selected@, cands);
                if selected@.len() < max_m {
                    assert forall|q: int| 0 <= q < cands.len() implies selected@.contains(
                        #[trigger] cands[q],
                    ) by {
                        assert(cands.contains(cands[q]));
                        assert(ids_of(sorted@).contains(cands[q]));
                        let j = choose|j: int|
                            0 <= j < ids_of(sorted@).len() && ids_of(sorted@)[j] == cands[q];
                    }
                    lemma_distinct_cover_len(cands, selected@);
                }
            }
        }
        selected
    } else {
        let best = select_top_k(&groups, max_m, false);
        let mut kept: Vec<u32> = Vec::new();
        let mut i: usize = 0;
        while i < best.len()
            invariant
                0 <= i <= best@.len(),
                kept@ == ids_of(best@).take(i as int),
            decreases best@.len() - i,
        {
            kept.push(best[i].id);
            i += 1;
            assert(ids_of(best@).take(i as int) =~= ids_of(best@).take(i - 1).push(best@[i - 1].id));
        }
        proof {
            assert(ids_of(best@).take(best@.len() as int) =~= ids_of(best@));
            assert(is_top_k(best@, kv, max_m as nat, false));
            broadcast use vstd::seq_lib::group_to_multiset_ensures;

            assert forall|j: int| 0 <= j < kept@.len() implies cands.contains(#[trigger] kept@[j]) by {
                assert(best@.to_multiset().count(best@[j]) > 0);
                assert(kv.to_multiset().count(best@[j]) > 0);
                let q = choose|q: int| 0 <= q < kv.len() && kv[q] == best@[j];
                assert(cands[q] == kept@[j]);
            }
            if cands.no_duplicates() {
                assert(kept@.no_duplicates()) by {
                    assert forall|a: int, b: int|
                        0 <= a < kept@.len() && 0 <= b < kept@.len() && a != b implies kept@[a]
                        != kept@[b] by {
                        lemma_top_k_distinct_ids(best@, kv, cands, max_m as nat, a, b);
                    }
                }
            }
        }
        kept
    }
}

impl HnswGraph {
    /// No neighbor list holds its own node or an id twice, and each fits
    /// the budget of its layer.
    pub open spec fn links_ok(&self) -> bool {
        forall|i: int, l: int|
            0 <= i < self.nodes@.len() && 0 <= l < self.nodes@[i].layers@.len() ==> #[trigger] list_ok_at(
                self.nodes@,
                i,
                l,
                layer_budget(self.config, l),
            )
    }

    /// Every neighbor id names a node of the graph.
    pub open spec fn ids_in_range(&self) -> bool {
        forall|i: int, l: int, j: int|
            #![trigger links_at(self.nodes@, i, l), self.nodes@[i].layers@[l]@[j]]
            links_at(self.nodes@, i, l) is Some && 0 <= j < self.nodes@[i].layers@[l]@.len()
                ==> self.nodes@[i].layers@[l]@[j] < self.nodes@.len()
    }


    /// Creates a graph with `capacity` empty node slots and no entry point.
    pub fn new(config: HnswConfig, capacity: usize) -> (g: Self)
        ensures
            g.config == config,
            g.nodes@.len() == capacity,
            forall|i: int| 0 <= i < capacity ==> (#[trigger] g.nodes@[i]).layers@.len() == 0,
            g.entry_point is None,
            g.max_level == 0,
            g.num_nodes == 0,
            g.links_ok(),
            g.ids_in_range(),
    {
        let mut nodes: Vec<NodeLinks> = Vec::new();
        let mut i: usize = 0;
        while i < capacity
            invariant
                0 <= i <= capacity,
                nodes@.len() == i,
                forall|q: int| 0 <= q < i ==> (#[trigger] nodes@[q]).layers@.len() == 0,
            decreases capacity - i,
        {
            nodes.push(NodeLinks { layers: Vec::new() });
            i += 1;
        }
        HnswGraph { config, nodes, entry_point: None, max_level: 0, num_nodes: 0 }
    }

    /// Gives node `id` empty neighbor lists on layers `0..=level`, adding
    /// empty slots up to `id` when the graph is shorter.
    pub fn init_node(&mut self, id: u32, level: usize)
        requires
            level < usize::MAX,
        ensures
            final(self).nodes@.len() == if id < old(self).nodes@.len() {
                old(self).nodes@.len() as int
            } else {
                id + 1
            },
            final(self).nodes@[id as int].layers@.len() == level + 1,
            forall|l: int|
                0 <= l <= level ==> (#[trigger] final(self).nodes@[id as int].layers@[l])@.len() == 0,
            forall|i: int|
                0 <= i < old(self).nodes@.len() && i != id ==> #[trigger] final(self).nodes@[i]
                    == old(self).nodes@[i],
            forall|i: int|
                old(self).nodes@.len() <= i < id ==> (#[trigger] final(self).nodes@[i]).layers@.len()
                    == 0,
            final(self).config == old(self).config,
            final(self).entry_point == old(self).entry_point,
            final(self).max_level == old(self).max_level,
            final(self).num_nodes == old(self).num_nodes,
            old(self).links_ok() ==> final(self).links_ok(),
            old(self).ids_in_range() && id < old(self).nodes@.len() ==> final(self).ids_in_range(),
    {
        let idx = id as usize;
        if idx >= self.nodes.len() {
            while self.nodes.len() <= idx
                invariant
                    old(self).nodes@.len() <= self.nodes@.len() <= idx + 1,
                    forall|i: int|
                        0 <= i < old(self).nodes@.len() ==> #[trigger] self.nodes@[i]
                            == old(self).nodes@[i],
                    forall|i: int|
                        old(self).nodes@.len() <= i < self.nodes@.len() ==> (
                        #[trigger] self.nodes@[i]).layers@.len() == 0,
                    self.config == old(self).config,
                    self.entry_point == old(self).entry_point,
                    self.max_level == old(self).max_level,
                    self.num_nodes == old(self).num_nodes,
                decreases idx + 1 - self.nodes@.len(),
            {
                self.nodes.push(NodeLinks { layers: Vec::new() });
            }
        }
        let ghost grown = self.nodes@;
        self.nodes.set(idx, NodeLinks::new(level));
        proof {
            assert forall|i: int, l: int|
                0 <= i < self.nodes@.len() && 0 <= l < self.nodes@[i].layers@.len() && old(
                    self,
                ).links_ok() implies #[trigger] list_ok_at(
                self.nodes@,
                i,
                l,
                layer_budget(self.config, l),
            ) by {
                if i == idx {
                    assert(self.nodes@[i].layers@[l]@.len() == 0);
                    assert(self.nodes@[i].layers@[l]@ =~= Seq::<u32>::empty());
                } else if i < old(self).nodes@.len() {
                    assert(self.nodes@[i] == old(self).nodes@[i]);
                    assert(list_ok_at(old(self).nodes@, i, l, layer_budget(old(self).config, l)));
                } else {
                    assert(self.nodes@[i] == grown[i]);
                }
            }
            if old(self).ids_in_range() && id < old(self).nodes@.len() {
                assert forall|i: int, l: int, j: int|
                    links_at(self.nodes@, i, l) is Some && 0 <= j < self.nodes@[i].layers@[l]@.len()
                        implies #[trigger] self.nodes@[i].layers@[l]@[j] < self.nodes@.len() by {
                    assert(i != idx);
                    assert(self.nodes@[i] == old(self).nodes@[i]);
                    assert(links_at(old(self).nodes@, i, l) is Some);
                }
            }
        }
    }

    /// Link budget of `layer`: `m0` on layer 0, `m` above.
    pub fn max_edges_for_layer(&self, layer: usize) -> (n: usize)
        ensures
            n == layer_budget(self.config, layer as int),
    {
        if layer == 0 {
            self.config.m0
        } else {
            self.config.m
        }
    }

    /// A copy of the neighbors of node `id` on `layer`; empty when the node
    /// or the layer does not exist.
    pub fn get_neighbors(&self, id: u32, layer: usize) -> (r: Vec<u32>)
        ensures
            r@ == match links_at(self.nodes@, id as int, layer as int) {
                Some(l) => l,
                None => Seq::<u32>::empty(),
            },
    {
        let idx = id as usize;
        if idx < self.nodes.len() && layer < self.nodes[idx].layers.len() {
            vstd::slice::slice_to_vec(self.nodes[idx].layers[layer].as_slice())
        } else {
            Vec::new()
        }
    }

    /// Whether every neighbor id and the entry point name nodes of the
    /// graph, as a graph read back from bytes may not.
    pub fn ids_valid(&self) -> (b: bool)
        ensures
            b == (self.ids_in_range() && (self.entry_point matches Some(e) ==> e
                < self.nodes@.len())),
    {
        let n = self.nodes.len();
        if let Some(e) = self.entry_point {
            if e as usize >= n {
                return false;
            }
        }
        let mut i: usize = 0;
        while i < n
            invariant
                i <= n,
                n == self.nodes@.len(),
                self.entry_point matches Some(e) ==> e < n,
                forall|a: int, l: int, j: int|
                    #![trigger links_at(self.nodes@, a, l), self.nodes@[a].layers@[l]@[j]]
                    0 <= a < i && links_at(self.nodes@, a, l) is Some && 0 <= j
                        < self.nodes@[a].layers@[l]@.len() ==> self.nodes@[a].layers@[l]@[j] < n,
            decreases n - i,
        {
            let node = &self.nodes[i];
            let mut l: usize = 0;
            while l < node.layers.len()
                invariant
                    i < n,
                    n == self.nodes@.len(),
                    node == self.nodes@[i as int],
                    l <= node.layers@.len(),
                    forall|a: int, ll: int, j: int|
                        #![trigger links_at(self.nodes@, a, ll), self.nodes@[a].layers@[ll]@[j]]
                        0 <= a < i && links_at(self.nodes@, a, ll) is Some && 0 <= j
                            < self.nodes@[a].layers@[ll]@.len() ==> self.nodes@[a].layers@[ll]@[j] < n,
                    forall|ll: int, j: int|
                        #![trigger self.nodes@[i as int].layers@[ll]@[j]]
                        0 <= ll < l && 0 <= j < self.nodes@[i as int].layers@[ll]@.len()
                            ==> self.nodes@[i as int].layers@[ll]@[j] < n,
                decreases node.layers@.len() - l,
            {
                let list = &node.layers[l];
                let mut j: usize = 0;
                while j < list.len()
                    invariant
                        i < n,
                        n == self.nodes@.len(),
                        node == self.nodes@[i as int],
                        l < node.layers@.len(),
                        list == node.layers@[l as int],
                        j <= list@.len(),
                        forall|jj: int| 0 <= jj < j ==> #[trigger] list@[jj] < n,
                    decreases list@.len() - j,
                {
                    if list[j] as usize >= n {
                        proof {
                            assert(links_at(self.nodes@, i as int, l as int) is Some);
                            assert(self.nodes@[i as int].layers@[l as int]@[j as int] >= n);
                        }
                        return false;
                    }
                    j += 1;
                }
                l += 1;
            }
            proof {
                assert forall|a: int, ll: int, jj: int|
                    #![trigger links_at(self.nodes@, a, ll), self.nodes@[a].layers@[ll]@[jj]]
                    0 <= a < i + 1 && links_at(self.nodes@, a, ll) is Some && 0 <= jj
                        < self.nodes@[a].layers@[ll]@.len() implies self.nodes@[a].layers@[ll]@[jj] < n by {
                    if a == i {
                        assert(0 <= ll < node.layers@.len());
                    }
                }
            }
            i += 1;
        }
        true
    }

    /// Cuts the neighbor list of node `base_id` down to `max_m` entries, as
    /// [`select_neighbors`] does with the distances to `base_id`.
    fn shrink_neighbors<F: Fn(u32, u32) -> u32>(
        &self,
        neighbors: &mut Vec<u32>,
        base_id: u32,
        max_m: usize,
        dist_fn: &F,
    )
        requires
            forall|a: u32, b: u32| dist_fn.requires((a, b)),
        ensures
            old(neighbors)@.len() <= max_m ==> final(neighbors)@ == old(neighbors)@,
            old(neighbors)@.len() > max_m ==> shrunk_from(
                final(neighbors)@,
                old(neighbors)@,
                base_id,
                max_m as nat,
                self.config.use_heuristic,
                *dist_fn,
            ),
    {
        if neighbors.len() <= max_m {
            return;
        }
        let keyed = keyed_candidates(neighbors, base_id, dist_fn);
        let ghost kv = keyed@;
        let kept = select_neighbors(keyed, max_m, self.config.use_heuristic, dist_fn);
        proof {
            assert(ids_of(kv) =~= old(neighbors)@);
        }
        *neighbors = kept;
    }

    /// Adds the edge `src -> dst` on `layer`. Nothing changes for a self
    /// edge, a missing node or layer, or an edge already present. When the
    /// list then exceeds the layer's budget it is shrunk.
    pub fn add_directed_edge<F: Fn(u32, u32) -> u32>(
        &mut self,
        src: u32,
        dst: u32,
        layer: usize,
        dist_fn: &F,
    )
        requires
            forall|a: u32, b: u32| dist_fn.requires((a, b)),
        ensures
            directed_edge_added(
                old(self).nodes@,
                final(self).nodes@,
                src,
                dst,
                layer as int,
                layer_budget(old(self).config, layer as int),
                old(self).config.use_heuristic,
                *dist_fn,
            ),
            final(self).config == old(self).config,
            final(self).entry_point == old(self).entry_point,
            final(self).max_level == old(self).max_level,
            final(self).num_nodes == old(self).num_nodes,
            old(self).links_ok() ==> final(self).links_ok(),
            old(self).ids_in_range() && dst < old(self).nodes@.len() ==> final(self).ids_in_range(),
    {
        let ghost old_nodes = self.nodes@;
        if src == dst {
            return;
        }
        let max_m = self.max_edges_for_layer(layer);
        let idx = src as usize;
        if idx >= self.nodes.len() || layer >= self.nodes[idx].layers.len() {
            return;
        }
        if holds_id(&self.nodes[idx].layers[layer], dst) {
            return;
        }
        let mut node = NodeLinks { layers: Vec::new() };
        std::mem::swap(&mut node, &mut self.nodes[idx]);
        let ghost old_node = node;
        let mut list: Vec<u32> = Vec::new();
        std::mem::swap(&mut list, &mut node.layers[layer]);
        let ghost old_list = list@;
        list.push(dst);
        let ghost cands = list@;
        if list.len() > max_m {
            self.shrink_neighbors(&mut list, src, max_m, dist_fn);
        }
        let ghost new_list = list@;
        node.layers.set(layer, list);
        self.nodes.set(idx, node);
        proof {
            assert(old_node == old_nodes[idx as int]);
            assert(old_list == old_nodes[idx as int].layers@[layer as int]@);
            assert(links_at(self.nodes@, src as int, layer as int) == Some(new_list));
            assert forall|i: int, l: int| !(i == src && l == layer) implies #[trigger] links_at(
                self.nodes@,
                i,
                l,
            ) == links_at(old_nodes, i, l) by {
                if i == src {
                    if 0 <= l < self.nodes@[i].layers@.len() {
                        assert(self.nodes@[i].layers@[l] == old_nodes[i].layers@[l]);
                    }
                } else if 0 <= i < self.nodes@.len() {
                    assert(self.nodes@[i] == old_nodes[i]);
                }
            }
            if old(self).ids_in_range() && dst < old_nodes.len() {
                assert forall|i: int, l: int, j: int|
                    links_at(self.nodes@, i, l) is Some && 0 <= j < self.nodes@[i].layers@[l]@.len()
                        implies #[trigger] self.nodes@[i].layers@[l]@[j] < self.nodes@.len() by {
                    assert(links_at(self.nodes@, i, l) is Some);
                    if i == src && l == layer {
                        let x = new_list[j];
                        assert(self.nodes@[i].layers@[l]@ == new_list);
                        assert(cands.contains(x)) by {
                            if old_list.len() + 1 <= max_m {
                                assert(cands[j] == x);
                            } else {
                                let keyed = choose|keyed: Seq<SearchResult>|
                                    keyed_by(keyed, cands, src, *dist_fn) && selected_from(
                                        new_list,
                                        keyed,
                                        max_m as nat,
                                        old(self).config.use_heuristic,
                                    );
                                assert(ids_of(keyed) =~= cands);
                                assert(ids_of(keyed).contains(new_list[j]));
                            }
                        }
                        let q = choose|q: int| 0 <= q < cands.len() && cands[q] == x;
                        if q < old_list.len() {
                            assert(old_nodes[i].layers@[l]@[q] == x);
                            assert(links_at(old_nodes, i, l) is Some);
                        }
                    } else {
                        assert(links_at(self.nodes@, i, l) == links_at(old_nodes, i, l));
                        assert(links_at(old_nodes, i, l) is Some);
                        assert(self.nodes@[i].layers@[l]@ == old_nodes[i].layers@[l]@);
                    }
                }
            }
            if old(self).links_ok() {
                assert(list_ok_at(
                    old_nodes,
                    src as int,
                    layer as int,
                    layer_budget(old(self).config, layer as int),
                ));
                assert(old_list.no_duplicates());
                assert(!old_list.contains(dst));
                assert(cands == old_list.push(dst));
                assert(cands.no_duplicates()) by {
                    assert forall|a: int, b: int|
                        0 <= a < cands.len() && 0 <= b < cands.len() && a != b implies cands[a]
                        != cands[b] by {
                        if a == old_list.len() {
                            assert(old_list[b] == cands[b]);
                        } else if b == old_list.len() {
                            assert(old_list[a] == cands[a]);
                        }
                    }
                }
                assert(!cands.contains(src)) by {
                    if cands.contains(src) {
                        let q = choose|q: int| 0 <= q < cands.len() && cands[q] == src;
                        if q < old_list.len() {
                            assert(old_list.contains(src));
                        }
                    }
                }
                assert(!new_list.contains(src)) by {
                    if new_list.contains(src) {
                        let q = choose|q: int| 0 <= q < new_list.len() && new_list[q] == src;
                        assert(cands.contains(new_list[q]));
                    }
                }
                assert forall|i: int, l: int|
                    0 <= i < self.nodes@.len() && 0 <= l < self.nodes@[i].layers@.len()
                        implies #[trigger] list_ok_at(self.nodes@, i, l, layer_budget(self.config, l)) by {
                    if i == src && l == layer {
                    } else {
                        assert(links_at(self.nodes@, i, l) == links_at(old_nodes, i, l));
                        if i == src {
                            assert(self.nodes@[i].layers@.len() == old_nodes[i].layers@.len());
                        } else {
                            assert(self.nodes@[i] == old_nodes[i]);
                        }
                        assert(list_ok_at(old_nodes, i, l, layer_budget(old(self).config, l)));
                    }
                }
            }
        }
    }

    /// Adds the edges `u -> v` and `v -> u` on `layer`, each as
    /// [`HnswGraph::add_directed_edge`] does.
    pub fn add_edge<F: Fn(u32, u32) -> u32>(&mut self, u: u32, v: u32, layer: usize, dist_fn: F)
        requires
            forall|a: u32, b: u32| dist_fn.requires((a, b)),
        ensures
            exists|mid: Seq<NodeLinks>|
                #![trigger directed_edge_added(old(self).nodes@, mid, u, v, layer as int, layer_budget(old(self).config, layer as int), old(self).config.use_heuristic, dist_fn)]
                directed_edge_added(
                    old(self).nodes@,
                    mid,
                    u,
                    v,
                    layer as int,
                    layer_budget(old(self).config, layer as int),
                    old(self).config.use_heuristic,
                    dist_fn,
                ) && directed_edge_added(
                    mid,
                    final(self).nodes@,
                    v,
                    u,
                    layer as int,
                    layer_budget(old(self).config, layer as int),
                    old(self).config.use_heuristic,
                    dist_fn,
                ),
            final(self).config == old(self).config,
            final(self).entry_point == old(self).entry_point,
            final(self).max_level == old(self).max_level,
            final(self).num_nodes == old(self).num_nodes,
            old(self).links_ok() ==> final(self).links_ok(),
            old(self).ids_in_range() && u < old(self).nodes@.len() && v < old(self).nodes@.len()
                ==> final(self).ids_in_range(),
            final(self).nodes@.len() == old(self).nodes@.len(),
    {
        self.add_directed_edge(u, v, layer, &dist_fn);
        let ghost mid = self.nodes@;
        self.add_directed_edge(v, u, layer, &dist_fn);
    }
}

} // verus!
