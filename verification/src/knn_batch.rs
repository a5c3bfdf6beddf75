//! Data layout around a batched exact k-NN kernel: the dataset is handed
//! to the device column by column, and the kernel's per-query top-K slots
//! come back as one flat array that is cut into per-query hit lists.

use crate::topk::SearchResult;
use vstd::prelude::*;

verus! {

/// The `n` rows of width `dimension` of `data` laid out column by column:
/// value `d` of row `i` lands at `d * n + i`.
pub fn to_column_major<T: Copy>(data: &[T], n: usize, dimension: usize) -> (out: Vec<T>)
    requires
        n * dimension <= data@.len(),
    ensures
        out@.len() == n * dimension,
        forall|i: int, d: int|
            0 <= i < n && 0 <= d < dimension ==> #[trigger] out@[d * n + i] == data@[i * dimension + d],
{
    let _len = data.len();
    let mut out: Vec<T> = Vec::new();
    let mut d: usize = 0;
    while d < dimension
        invariant
            d <= dimension,
            n * dimension <= data@.len(),
            data@.len() <= usize::MAX,
            out@.len() == d * n,
            forall|i: int, c: int|
                0 <= i < n && 0 <= c < d ==> #[trigger] out@[c * n + i] == data@[i * dimension + c],
        decreases dimension - d,
    {
        let ghost before = out@;
        let mut i: usize = 0;
        while i < n
            invariant
                i <= n,
                d < dimension,
                n * dimension <= data@.len(),
                data@.len() <= usize::MAX,
                out@.len() == d * n + i,
                forall|x: int| 0 <= x < d * n ==> #[trigger] out@[x] == before[x],
                forall|j: int| 0 <= j < i ==> #[trigger] out@[d * n + j] == data@[j * dimension + d],
            decreases n - i,
        {
            proof {
                assert(i * dimension + d < n * dimension) by (nonlinear_arith)
                    requires
                        i < n,
                        d < dimension,
                ;
            }
            out.push(data[i * dimension + d]);
            i += 1;
        }
        proof {
            assert((d + 1) * n == d * n + n) by (nonlinear_arith);
            assert forall|j: int, c: int|
                0 <= j < n && 0 <= c < d + 1 implies #[trigger] out@[c * n + j] == data@[j * dimension
                + c] by {
                if c < d {
                    assert(c * n + j < d * n) by (nonlinear_arith)
                        requires
                            c < d,
                            j < n,
                    ;
                    assert(out@[c * n + j] == before[c * n + j]);
                }
            }
        }
        d += 1;
    }
    proof {
        assert(dimension * n == n * dimension) by (nonlinear_arith);
    }
    out
}

/// The hits of query `q` among the flat top-K slots: slot `k` of query
/// `q` sits at `q * per_query + k`; a negative index marks an empty slot
/// and is skipped.
pub open spec fn slot_hits(indices: Seq<i32>, keys: Seq<u32>, q: int, per_query: int, upto: int) -> Seq<
    SearchResult,
>
    decreases upto,
{
    if upto <= 0 {
        Seq::empty()
    } else {
        let idx = q * per_query + upto - 1;
        let prev = slot_hits(indices, keys, q, per_query, upto - 1);
        if indices[idx] >= 0 {
            prev.push(SearchResult { id: indices[idx] as u32, score_key: keys[idx] })
        } else {
            prev
        }
    }
}

/// Cuts the kernel's flat top-K output (`per_query` slots for each of
/// `num_queries` queries, a vector index and a score key per slot) into
/// one hit list per query, in slot order, skipping empty slots.
pub fn unpack_topk(indices: &[i32], keys: &[u32], num_queries: usize, per_query: usize) -> (r: Vec<
    Vec<SearchResult>,
>)
    requires
        num_queries * per_query <= indices@.len(),
        num_queries * per_query <= keys@.len(),
    ensures
        r@.len() == num_queries,
        forall|q: int|
            0 <= q < num_queries ==> (#[trigger] r@[q])@ == slot_hits(
                indices@,
                keys@,
                q,
                per_query as int,
                per_query as int,
            ),
{
    let _ilen = indices.len();
    let _klen = keys.len();
    let mut out: Vec<Vec<SearchResult>> = Vec::new();
    let mut q: usize = 0;
    while q < num_queries
        invariant
            q <= num_queries,
            num_queries * per_query <= indices@.len(),
            num_queries * per_query <= keys@.len(),
            indices@.len() <= usize::MAX,
            out@.len() == q,
            forall|p: int|
                0 <= p < q ==> (#[trigger] out@[p])@ == slot_hits(
                    indices@,
                    keys@,
                    p,
                    per_query as int,
                    per_query as int,
                ),
        decreases num_queries - q,
    {
        proof {
            assert(q * per_query + per_query <= num_queries * per_query) by (nonlinear_arith)
                requires
                    q < num_queries,
            ;
        }
        let mut hits: Vec<SearchResult> = Vec::new();
        let mut s: usize = 0;
        while s < per_query
            invariant
                s <= per_query,
                indices@.len() <= usize::MAX,
                q * per_query + per_query <= indices@.len(),
                q * per_query + per_query <= keys@.len(),
                hits@ == slot_hits(indices@, keys@, q as int, per_query as int, s as int),
            decreases per_query - s,
        {
            let idx = q * per_query + s;
            let id = indices[idx];
            if id >= 0 {
                hits.push(SearchResult { id: id as u32, score_key: keys[idx] });
            }
            s += 1;
        }
        out.push(hits);
        q += 1;
    }
    out
}

/// The hit that slot `s` of query `q` would give: the slot's vector index
/// and key.
pub open spec fn slot_hit(indices: Seq<i32>, keys: Seq<u32>, q: int, per_query: int, s: int) -> SearchResult {
    SearchResult { id: indices[q * per_query + s] as u32, score_key: keys[q * per_query + s] }
}

/// `h` is the hit of one of the first `upto` slots of query `q` whose
/// vector index is non-negative.
pub open spec fn from_filled_slot(
    indices: Seq<i32>,
    keys: Seq<u32>,
    q: int,
    per_query: int,
    upto: int,
    h: SearchResult,
) -> bool {
    exists|s: int|
        0 <= s < upto && indices[q * per_query + s] >= 0 && h == #[trigger] slot_hit(
            indices,
            keys,
            q,
            per_query,
            s,
        )
}

/// The hits of the first `upto` slots of query `q` are exactly its filled
/// slots: every slot with a non-negative index (index 0 included) gives a
/// hit with that index and key, and every hit comes from such a slot.
proof fn lemma_slot_hits_prefix(indices: Seq<i32>, keys: Seq<u32>, q: int, per_query: int, upto: int)
    requires
        0 <= upto <= per_query,
        0 <= q * per_query,
        q * per_query + per_query <= indices.len(),
        q * per_query + per_query <= keys.len(),
    ensures
        slot_hits(indices, keys, q, per_query, upto).len() <= upto,
        forall|s: int|
            0 <= s < upto && indices[q * per_query + s] >= 0 ==> slot_hits(
                indices,
                keys,
                q,
                per_query,
                upto,
            ).contains(#[trigger] slot_hit(indices, keys, q, per_query, s)),
        forall|j: int|
            0 <= j < slot_hits(indices, keys, q, per_query, upto).len() ==> from_filled_slot(
                indices,
                keys,
                q,
                per_query,
                upto,
                #[trigger] slot_hits(indices, keys, q, per_query, upto)[j],
            ),
    decreases upto,
{
    if upto > 0 {
        lemma_slot_hits_prefix(indices, keys, q, per_query, upto - 1);
        let prev = slot_hits(indices, keys, q, per_query, upto - 1);
        let cur = slot_hits(indices, keys, q, per_query, upto);
        let hit = slot_hit(indices, keys, q, per_query, upto - 1);
        assert forall|s: int|
            0 <= s < upto && indices[q * per_query + s] >= 0 implies cur.contains(
            #[trigger] slot_hit(indices, keys, q, per_query, s),
        ) by {
            if s == upto - 1 {
                assert(cur[cur.len() - 1] == hit);
            } else {
                let x = slot_hit(indices, keys, q, per_query, s);
                assert(prev.contains(x));
                let w = choose|w: int| 0 <= w < prev.len() && prev[w] == x;
                assert(cur[w] == x);
            }
        }
        assert forall|j: int| 0 <= j < cur.len() implies from_filled_slot(
            indices,
            keys,
            q,
            per_query,
            upto,
            #[trigger] cur[j],
        ) by {
            if j < prev.len() {
                assert(cur[j] == prev[j]);
                assert(from_filled_slot(indices, keys, q, per_query, upto - 1, prev[j]));
                let s = choose|s: int|
                    0 <= s < upto - 1 && indices[q * per_query + s] >= 0 && prev[j]
                        == #[trigger] slot_hit(indices, keys, q, per_query, s);
                assert(cur[j] == slot_hit(indices, keys, q, per_query, s));
            } else {
                assert(cur[j] == hit);
            }
        }
    }
}

/// The hits that [`unpack_topk`] gives query `q` are exactly its filled
/// slots: each slot with a non-negative vector index, index 0 included,
/// yields a hit with that index and key; each hit is such a slot; and
/// there are at most `per_query` of them.
pub proof fn lemma_unpacked_hits_are_filled_slots(
    indices: Seq<i32>,
    keys: Seq<u32>,
    q: int,
    per_query: int,
)
    requires
        0 <= q,
        0 <= per_query,
        q * per_query + per_query <= indices.len(),
        q * per_query + per_query <= keys.len(),
    ensures
        slot_hits(indices, keys, q, per_query, per_query).len() <= per_query,
        forall|s: int|
            0 <= s < per_query && indices[q * per_query + s] >= 0 ==> slot_hits(
                indices,
                keys,
                q,
                per_query,
                per_query,
            ).contains(#[trigger] slot_hit(indices, keys, q, per_query, s)),
        forall|j: int|
            0 <= j < slot_hits(indices, keys, q, per_query, per_query).len() ==> from_filled_slot(
                indices,
                keys,
                q,
                per_query,
                per_query,
                #[trigger] slot_hits(indices, keys, q, per_query, per_query)[j],
            ),
{
    assert(0 <= q * per_query) by (nonlinear_arith)
        requires
            0 <= q,
            0 <= per_query,
    ;
    lemma_slot_hits_prefix(indices, keys, q, per_query, per_query);
}

} // verus!
