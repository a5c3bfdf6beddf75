//! Planning of multi-GPU work: how many ranks take part, which vectors each
//! rank holds, which queries each rank answers, and how shard-local ids
//! become global ids.

use crate::topk::{SearchResult, all_items, is_top_k, keys_distinct};
use vstd::prelude::*;

verus! {

/// How a dataset is spread over GPU ranks.
#[derive(Debug, Clone, Copy, PartialEq, Eq, Structural)]
pub enum GpuShardMode {
    /// Each rank holds a contiguous slice of about `N / G` vectors.
    Sharded,
    /// Each rank holds the whole dataset; queries are split instead.
    Replicated,
}

/// A contiguous run of items: `count` of them from `start` on.
#[derive(Debug, Clone, Copy, PartialEq, Eq, Structural)]
pub struct ShardRange {
    pub start: usize,
    pub count: usize,
}

pub open spec fn spec_ceil_div(a: nat, b: nat) -> nat
    recommends
        b > 0,
{
    ((a + b - 1) / (b as int)) as nat
}

/// Number of ranks used for `num_vectors` vectors: no more than requested,
/// and no more than there are vectors (at least one).
pub open spec fn spec_rank_count(num_gpus: nat, num_vectors: nat) -> nat {
    let cap = if num_vectors >= 1 {
        num_vectors
    } else {
        1
    };
    if num_gpus <= cap {
        num_gpus
    } else {
        cap
    }
}

/// Range of rank `r` when `total` items are cut into pieces of `chunk`.
pub open spec fn spec_chunk_range(total: nat, chunk: nat, r: nat) -> ShardRange {
    let start = r * chunk;
    ShardRange {
        start: start as usize,
        count: if start < total {
            (if start + chunk <= total {
                chunk
            } else {
                (total - start) as nat
            }) as usize
        } else {
            0
        },
    }
}

/// The ranges of `parts` ranks over `total` items, in rank order.
pub open spec fn spec_chunk_ranges(total: nat, parts: nat) -> Seq<ShardRange> {
    Seq::new(parts, |r: int| spec_chunk_range(total, spec_ceil_div(total, parts), r as nat))
}

/// Returns `min(num_gpus, max(num_vectors, 1))`.
pub fn rank_count(num_gpus: usize, num_vectors: usize) -> (g: usize)
    ensures
        g == spec_rank_count(num_gpus as nat, num_vectors as nat),
{
    let cap = if num_vectors >= 1 {
        num_vectors
    } else {
        1
    };
    if num_gpus <= cap {
        num_gpus
    } else {
        cap
    }
}

/// Cuts `total` items into `parts` contiguous ranges of `ceil(total / parts)`
/// items each; the last ones may be shorter or empty.
pub fn chunk_ranges(total: usize, parts: usize) -> (r: Vec<ShardRange>)
    requires
        parts >= 1,
        total + parts <= usize::MAX,
    ensures
        r@ == spec_chunk_ranges(total as nat, parts as nat),
{
    let chunk = total / parts + if total % parts == 0 {
        0
    } else {
        1
    };
    proof {
        lemma_ceil_div(total as nat, parts as nat);
    }
    let ghost c = chunk as nat;
    let mut ranges: Vec<ShardRange> = Vec::new();
    let mut i: usize = 0;
    while i < parts
        invariant
            0 <= i <= parts,
            parts >= 1,
            total + parts <= usize::MAX,
            c == chunk,
            c == spec_ceil_div(total as nat, parts as nat),
            (parts - 1) * c <= total + parts,
            ranges@.len() == i,
            forall|q: int| 0 <= q < i ==> #[trigger] ranges@[q] == spec_chunk_range(total as nat, c, q as nat),
        decreases parts - i,
    {
        assert(i * c <= (parts - 1) * c) by (nonlinear_arith)
            requires
                i <= parts - 1,
        ;
        let start = i * chunk;
        let count = if start < total {
            if chunk <= total - start {
                chunk
            } else {
                total - start
            }
        } else {
            0
        };
        ranges.push(ShardRange { start, count });
        i += 1;
    }
    assert(ranges@ =~= spec_chunk_ranges(total as nat, parts as nat));
    ranges
}

/// `ceil(a / b)` computed as quotient plus one when there is a remainder,
/// and the bound that keeps `(b - 1) * ceil(a / b)` in range.
proof fn lemma_ceil_div(a: nat, b: nat)
    requires
        b >= 1,
    ensures
        spec_ceil_div(a, b) == a / b + (if a % b == 0 {
            0int
        } else {
            1int
        }),
        (b - 1) * spec_ceil_div(a, b) <= a + b,
        b * spec_ceil_div(a, b) >= a,
        spec_ceil_div(a, b) * b < a + b,
{
    let c = spec_ceil_div(a, b);
    assert(a == b * (a / b) + a % b) by (nonlinear_arith)
        requires
            b >= 1,
    ;
    assert(0 <= a % b < b) by (nonlinear_arith)
        requires
            b >= 1,
    ;
    if a % b == 0 {
        assert((a + b - 1) / (b as int) == a / b) by (nonlinear_arith)
            requires
                b >= 1,
                a == b * (a / b),
        ;
    } else {
        assert((a + b - 1) / (b as int) == a / b + 1) by (nonlinear_arith)
            requires
                b >= 1,
                a == b * (a / b) + a % b,
                0 < a % b < b,
        ;
    }
    assert((b - 1) * c <= a + b) by (nonlinear_arith)
        requires
            b >= 1,
            c <= a / b + 1,
            b * (a / b) <= a,
    ;
    assert(b * c >= a) by (nonlinear_arith)
        requires
            b >= 1,
            a == b * (a / b) + a % b,
            c == a / b + (if a % b == 0 {
                0int
            } else {
                1int
            }),
            a % b < b,
    ;
    assert(c * b < a + b) by (nonlinear_arith)
        requires
            b >= 1,
            a == b * (a / b) + a % b,
            c == a / b + (if a % b == 0 {
                0int
            } else {
                1int
            }),
            0 <= a % b,
    ;
}

/// Item `v` lies in range `s`.
pub open spec fn covers(s: ShardRange, v: int) -> bool {
    s.start <= v < s.start + s.count
}

/// The rank whose range holds item `v`.
pub open spec fn rank_of_item(total: nat, parts: nat, v: int) -> int {
    v / (spec_ceil_div(total, parts) as int)
}

/// The ranges of the ranks tile the items: they follow one another without
/// overlap, and every item lies in exactly one of them, that of rank
/// `v / ceil(total / parts)`.
pub proof fn lemma_chunk_ranges_partition(total: nat, parts: nat)
    requires
        parts >= 1,
        total + parts <= usize::MAX,
    ensures
        ({
            let rs = spec_chunk_ranges(total, parts);
            &&& forall|i: int, j: int|
                0 <= i < j < parts ==> #[trigger] rs[i].start + rs[i].count <= #[trigger] rs[j].start
            &&& forall|v: int|
                0 <= v < total ==> 0 <= #[trigger] rank_of_item(total, parts, v) < parts && covers(
                    rs[rank_of_item(total, parts, v)],
                    v,
                )
            &&& forall|i: int, v: int|
                0 <= i < parts && #[trigger] covers(rs[i], v) ==> 0 <= v < total && i
                    == rank_of_item(total, parts, v)
        }),
{
    let c = spec_ceil_div(total, parts);
    let rs = spec_chunk_ranges(total, parts);
    lemma_ceil_div(total, parts);
    assert forall|i: int| 0 <= i < parts implies #[trigger] rs[i].start == i * c && rs[i].count
        <= c by {
        assert(i * c <= (parts - 1) * c) by (nonlinear_arith)
            requires
                0 <= i <= parts - 1,
        ;
        assert(rs[i] == spec_chunk_range(total, c, i as nat));
        assert(i * c <= usize::MAX);
    }
    assert forall|i: int, j: int| 0 <= i < j < parts implies #[trigger] rs[i].start + rs[i].count
        <= #[trigger] rs[j].start by {
        assert(i * c + c <= j * c) by (nonlinear_arith)
            requires
                0 <= i < j,
        ;
    }
    if total > 0 {
        assert(c >= 1) by (nonlinear_arith)
            requires
                parts * c >= total,
                total > 0,
        ;
        assert forall|v: int| 0 <= v < total implies 0 <= #[trigger] rank_of_item(total, parts, v)
            < parts && covers(rs[rank_of_item(total, parts, v)], v) by {
            let q = v / (c as int);
            assert(q * c <= v < q * c + c) by (nonlinear_arith)
                requires
                    c >= 1,
                    v >= 0,
                    q == v / (c as int),
            ;
            assert(0 <= q);
            assert(q < parts) by (nonlinear_arith)
                requires
                    q * c <= v,
                    v < total,
                    parts * c >= total,
                    c >= 1,
            ;
            assert(q * c <= (parts - 1) * c) by (nonlinear_arith)
                requires
                    0 <= q <= parts - 1,
            ;
        }
        assert forall|i: int, v: int| 0 <= i < parts && #[trigger] covers(rs[i], v) implies 0 <= v
            < total && i == rank_of_item(total, parts, v) by {
            assert(rs[i].count > 0);
            assert(i * c <= v < i * c + c);
            assert(v / (c as int) == i) by (nonlinear_arith)
                requires
                    c >= 1,
                    i * c <= v < i * c + c,
            ;
        }
    }
}

/// What each rank holds: `Sharded` gives each rank its range of vectors,
/// `Replicated` gives every rank all of them.
pub open spec fn spec_shard_plan(num_vectors: nat, num_gpus: nat, mode: GpuShardMode) -> Seq<
    ShardRange,
> {
    let g = spec_rank_count(num_gpus, num_vectors);
    match mode {
        GpuShardMode::Sharded => spec_chunk_ranges(num_vectors, g),
        GpuShardMode::Replicated => Seq::new(
            g,
            |r: int| ShardRange { start: 0, count: num_vectors as usize },
        ),
    }
}

/// Plans which vectors each rank holds; the number of ranks is
/// `min(num_gpus, max(num_vectors, 1))` and each range's start is the
/// offset of the rank's local ids.
pub fn shard_plan(num_vectors: usize, num_gpus: usize, mode: GpuShardMode) -> (r: Vec<ShardRange>)
    requires
        num_gpus >= 1,
        num_vectors + num_gpus <= usize::MAX,
    ensures
        r@ == spec_shard_plan(num_vectors as nat, num_gpus as nat, mode),
{
    let g = rank_count(num_gpus, num_vectors);
    match mode {
        GpuShardMode::Sharded => chunk_ranges(num_vectors, g),
        GpuShardMode::Replicated => {
            let mut ranges: Vec<ShardRange> = Vec::new();
            let mut i: usize = 0;
            while i < g
                invariant
                    0 <= i <= g,
                    ranges@.len() == i,
                    forall|q: int|
                        0 <= q < i ==> #[trigger] ranges@[q] == (ShardRange {
                            start: 0,
                            count: num_vectors,
                        }),
                decreases g - i,
            {
                ranges.push(ShardRange { start: 0, count: num_vectors });
                i += 1;
            }
            assert(ranges@ =~= spec_shard_plan(num_vectors as nat, num_gpus as nat, mode));
            ranges
        },
    }
}

/// Whether a batch search has anything to do: some query, some vector and `k > 0`.
pub fn batch_has_work(num_queries: usize, num_vectors: usize, k: usize) -> (b: bool)
    ensures
        b == (num_queries > 0 && num_vectors > 0 && k > 0),
{
    num_queries > 0 && num_vectors > 0 && k > 0
}

/// Turns the hits of a rank, numbered within its shard, into global ids by
/// adding the shard's first vector index.
pub fn globalize_ids(results: &Vec<SearchResult>, offset: u32) -> (r: Vec<SearchResult>)
    requires
        forall|i: int| 0 <= i < results@.len() ==> offset + (#[trigger] results@[i]).id <= u32::MAX,
    ensures
        r@.len() == results@.len(),
        forall|i: int|
            0 <= i < results@.len() ==> (#[trigger] r@[i]).id == offset + results@[i].id
                && r@[i].score_key == results@[i].score_key,
{
    let mut out: Vec<SearchResult> = Vec::new();
    let mut i: usize = 0;
    while i < results.len()
        invariant
            0 <= i <= results@.len(),
            out@.len() == i,
            forall|q: int|
                0 <= q < results@.len() ==> offset + (#[trigger] results@[q]).id <= u32::MAX,
            forall|q: int|
                0 <= q < i ==> (#[trigger] out@[q]).id == offset + results@[q].id
                    && out@[q].score_key == results@[q].score_key,
        decreases results@.len() - i,
    {
        let x = results[i];
        out.push(SearchResult { id: offset + x.id, score_key: x.score_key });
        i += 1;
    }
    out
}


/// Hits of a rank with their shard-local ids moved up by `offset`.
pub open spec fn shifted(hits: Seq<SearchResult>, offset: u32) -> Seq<SearchResult> {
    hits.map_values(|h: SearchResult| SearchResult { id: (offset + h.id) as u32, score_key: h.score_key })
}

/// The hits of all ranks for query `q`, rank after rank, with global ids.
pub open spec fn global_hits(
    per_rank: Seq<Vec<Vec<SearchResult>>>,
    offsets: Seq<u32>,
    q: int,
) -> Seq<SearchResult>
    decreases per_rank.len(),
{
    if per_rank.len() == 0 {
        Seq::empty()
    } else {
        global_hits(per_rank.drop_last(), offsets, q) + shifted(
            per_rank.last()@[q]@,
            offsets[per_rank.len() - 1],
        )
    }
}

/// Merges, query by query, the top-K lists that the ranks of a sharded
/// dataset returned (`per_rank[r][q]`, ids local to rank `r`'s shard) into
/// the global top `k`, best first, ids made global with the ranks' offsets.
pub fn merge_sharded_batch(
    per_rank: &Vec<Vec<Vec<SearchResult>>>,
    offsets: &Vec<u32>,
    num_queries: usize,
    k: usize,
    metric: crate::metric::DistanceMetric,
) -> (r: Vec<Vec<SearchResult>>)
    requires
        per_rank@.len() == offsets@.len(),
        forall|rk: int| 0 <= rk < per_rank@.len() ==> (#[trigger] per_rank@[rk])@.len() >= num_queries,
        forall|rk: int, q: int, i: int|
            0 <= rk < per_rank@.len() && 0 <= q < num_queries && 0 <= i < per_rank@[rk]@[q]@.len()
                ==> offsets@[rk] + (#[trigger] per_rank@[rk]@[q]@[i]).id <= u32::MAX,
    ensures
        r@.len() == num_queries,
        forall|q: int|
            0 <= q < num_queries ==> crate::topk::is_top_k(
                (#[trigger] r@[q])@,
                global_hits(per_rank@, offsets@, q),
                k as nat,
                crate::metric::spec_higher_is_better(metric),
            ),
{
    let mut out: Vec<Vec<SearchResult>> = Vec::new();
    let mut q: usize = 0;
    while q < num_queries
        invariant
            0 <= q <= num_queries,
            out@.len() == q,
            per_rank@.len() == offsets@.len(),
            forall|rk: int| 0 <= rk < per_rank@.len() ==> (#[trigger] per_rank@[rk])@.len() >= num_queries,
            forall|rk: int, qq: int, i: int|
                0 <= rk < per_rank@.len() && 0 <= qq < num_queries && 0 <= i < per_rank@[rk]@[qq]@.len()
                    ==> offsets@[rk] + (#[trigger] per_rank@[rk]@[qq]@[i]).id <= u32::MAX,
            forall|qq: int|
                0 <= qq < q ==> crate::topk::is_top_k(
                    (#[trigger] out@[qq])@,
                    global_hits(per_rank@, offsets@, qq),
                    k as nat,
                    crate::metric::spec_higher_is_better(metric),
                ),
        decreases num_queries - q,
    {
        let mut partial: Vec<Vec<SearchResult>> = Vec::new();
        let mut rk: usize = 0;
        while rk < per_rank.len()
            invariant
                0 <= rk <= per_rank@.len(),
                0 <= q < num_queries,
                partial@.len() == rk,
                per_rank@.len() == offsets@.len(),
                forall|r2: int| 0 <= r2 < per_rank@.len() ==> (#[trigger] per_rank@[r2])@.len() >= num_queries,
                forall|r2: int, qq: int, i: int|
                    0 <= r2 < per_rank@.len() && 0 <= qq < num_queries && 0 <= i < per_rank@[r2]@[qq]@.len()
                        ==> offsets@[r2] + (#[trigger] per_rank@[r2]@[qq]@[i]).id <= u32::MAX,
                crate::topk::all_items(partial@) == global_hits(per_rank@.take(rk as int), offsets@, q as int),
            decreases per_rank@.len() - rk,
        {
            let local = &per_rank[rk][q];
            let g = globalize_ids(local, offsets[rk]);
            let ghost before = partial@;
            partial.push(g);
            proof {
                let pr = per_rank@.take(rk + 1);
                assert(pr.drop_last() =~= per_rank@.take(rk as int));
                assert(pr.last() == per_rank@[rk as int]);
                assert(g@ =~= shifted(local@, offsets@[rk as int]));
                assert(partial@.drop_last() =~= before);
                assert(partial@.last() == g);
            }
            rk += 1;
        }
        proof {
            assert(per_rank@.take(per_rank@.len() as int) =~= per_rank@);
        }
        let merged = crate::collective::CollectiveOps::top_k_reduce(partial, k, metric);
        out.push(merged);
        q += 1;
    }
    out
}

/// A sharded batch search answers each query exactly as one search over
/// the whole dataset: when the ranks' shards split the dataset's hits
/// `items`, each rank's list (ids made global) is the top-K of its shard,
/// and no two hits share a key, the top-K of the gathered lists is the
/// top-K of `items`.
pub proof fn lemma_sharded_batch_matches_single(
    per_rank: Seq<Vec<Vec<SearchResult>>>,
    offsets: Seq<u32>,
    q: int,
    shards: Seq<Vec<SearchResult>>,
    tops: Seq<Vec<SearchResult>>,
    items: Seq<SearchResult>,
    merged: Seq<SearchResult>,
    single: Seq<SearchResult>,
    k: nat,
    higher_is_better: bool,
)
    requires
        all_items(tops) == global_hits(per_rank, offsets, q),
        tops.len() == shards.len(),
        forall|s: int|
            0 <= s < shards.len() ==> is_top_k(
                (#[trigger] tops[s])@,
                shards[s]@,
                k,
                higher_is_better,
            ),
        all_items(shards).to_multiset() == items.to_multiset(),
        keys_distinct(items),
        is_top_k(merged, global_hits(per_rank, offsets, q), k, higher_is_better),
        is_top_k(single, items, k, higher_is_better),
    ensures
        merged == single,
{
    crate::topk::lemma_merged_tops_match_single(items, shards, tops, merged, single, k, higher_is_better);
}

} // verus!
