//! Collective operations across the buffers of several GPU ranks: broadcast,
//! element-wise sum, and the merge of per-rank top-K lists.

use crate::device::DeviceBuffer;
use crate::metric::{DistanceMetric, spec_higher_is_better};
use crate::topk::{SearchResult, all_items, is_top_k, select_top_k};
use vstd::prelude::*;

verus! {

/// Collective operations over the buffers of all ranks.
pub struct CollectiveOps;

/// The contents of every rank's buffer.
pub open spec fn buffers_view<T: Clone + Default + Copy>(bufs: Seq<DeviceBuffer<T>>) -> Seq<Seq<T>> {
    bufs.map_values(|b: DeviceBuffer<T>| b@)
}

/// Sum of element `i` over the first `n` ranks.
pub open spec fn column_sum(bufs: Seq<Seq<usize>>, n: nat, i: int) -> int
    decreases n,
{
    if n == 0 {
        0
    } else {
        column_sum(bufs, (n - 1) as nat, i) + bufs[n - 1][i]
    }
}

/// The element-wise sum of all ranks' buffers.
pub open spec fn sum_of_buffers(bufs: Seq<Seq<usize>>) -> Seq<usize> {
    Seq::new(bufs[0].len(), |i: int| column_sum(bufs, bufs.len(), i) as usize)
}

/// Every rank's buffer has `len` elements.
pub open spec fn all_of_len<T>(bufs: Seq<Seq<T>>, len: nat) -> bool {
    forall|r: int| 0 <= r < bufs.len() ==> (#[trigger] bufs[r]).len() == len
}

proof fn lemma_column_sum_grows(bufs: Seq<Seq<usize>>, n: nat, m: nat, i: int)
    requires
        n <= m <= bufs.len(),
    ensures
        column_sum(bufs, n, i) <= column_sum(bufs, m, i),
    decreases m - n,
{
    if n < m {
        lemma_column_sum_grows(bufs, n, (m - 1) as nat, i);
    }
}

impl CollectiveOps {
    /// Copies the buffer of `root_rank` into every other rank's buffer; all
    /// buffers have the same length.
    pub fn broadcast<T: Clone + Default + Copy>(root_rank: usize, buffers: &mut [DeviceBuffer<T>])
        requires
            root_rank < old(buffers)@.len(),
            all_of_len(
                buffers_view(old(buffers)@),
                old(buffers)@[root_rank as int]@.len(),
            ),
        ensures
            final(buffers)@.len() == old(buffers)@.len(),
            forall|r: int|
                0 <= r < final(buffers)@.len() ==> #[trigger] buffers_view(final(buffers)@)[r]
                    == old(buffers)@[root_rank as int]@,
    {
        let root_data = vstd::slice::slice_to_vec(buffers[root_rank].as_slice());
        let ghost root = old(buffers)@[root_rank as int]@;
        let n = buffers.len();
        let mut r: usize = 0;
        while r < n
            invariant
                0 <= r <= n,
                n == buffers@.len(),
                root_data@ == root,
                root_rank < n,
                root == old(buffers)@[root_rank as int]@,
                forall|j: int| 0 <= j < r ==> (#[trigger] buffers@[j])@ == root,
                forall|j: int| r <= j < n ==> #[trigger] buffers@[j] == old(buffers)@[j],
            decreases n - r,
        {
            if r != root_rank {
                buffers[r] = DeviceBuffer::from_host(root_data.as_slice());
            }
            r += 1;
        }
        assert forall|j: int| 0 <= j < buffers@.len() implies #[trigger] buffers_view(buffers@)[j]
            == root by {
            assert(buffers@[j]@ == root);
        }
    }

    /// Replaces every rank's buffer by the element-wise sum of all of them;
    /// with fewer than two ranks nothing changes. All buffers have the same
    /// length and no sum exceeds `usize::MAX`.
    pub fn all_reduce_sum_usize(buffers: &mut [DeviceBuffer<usize>])
        requires
            old(buffers)@.len() > 0 ==> all_of_len(
                buffers_view(old(buffers)@),
                old(buffers)@[0]@.len(),
            ),
            old(buffers)@.len() > 0 ==> forall|i: int|
                0 <= i < old(buffers)@[0]@.len() ==> #[trigger] column_sum(
                    buffers_view(old(buffers)@),
                    old(buffers)@.len(),
                    i,
                ) <= usize::MAX,
        ensures
            final(buffers)@.len() == old(buffers)@.len(),
            old(buffers)@.len() <= 1 ==> final(buffers)@ == old(buffers)@,
            old(buffers)@.len() > 1 ==> forall|r: int|
                0 <= r < old(buffers)@.len() ==> #[trigger] buffers_view(final(buffers)@)[r]
                    == sum_of_buffers(buffers_view(old(buffers)@)),
    {
        let num_ranks = buffers.len();
        if num_ranks <= 1 {
            return;
        }
        let ghost bv = buffers_view(old(buffers)@);
        let len = buffers[0].len();
        let mut global_sum: Vec<usize> = Vec::new();
        let mut i: usize = 0;
        while i < len
            invariant
                0 <= i <= len,
                global_sum@.len() == i,
                forall|j: int| 0 <= j < i ==> #[trigger] global_sum@[j] == 0,
            decreases len - i,
        {
            global_sum.push(0);
            i += 1;
        }
        let mut r: usize = 0;
        while r < num_ranks
            invariant
                0 <= r <= num_ranks,
                num_ranks == buffers@.len(),
                buffers@ == old(buffers)@,
                bv == buffers_view(old(buffers)@),
                len == bv[0].len(),
                all_of_len(bv, len as nat),
                global_sum@.len() == len,
                forall|j: int| 0 <= j < len ==> column_sum(bv, num_ranks as nat, j) <= usize::MAX,
                forall|j: int|
                    0 <= j < len ==> #[trigger] global_sum@[j] == column_sum(bv, r as nat, j),
            decreases num_ranks - r,
        {
            let slice = buffers[r].as_slice();
            assert(slice@ == bv[r as int]);
            let mut i: usize = 0;
            while i < len
                invariant
                    0 <= i <= len,
                    0 <= r < num_ranks,
                    bv.len() == num_ranks,
                    slice@ == bv[r as int],
                    slice@.len() == len,
                    global_sum@.len() == len,
                    forall|j: int|
                        0 <= j < len ==> column_sum(bv, num_ranks as nat, j) <= usize::MAX,
                    forall|j: int|
                        0 <= j < i ==> #[trigger] global_sum@[j] == column_sum(bv, (r + 1) as nat, j),
                    forall|j: int|
                        i <= j < len ==> #[trigger] global_sum@[j] == column_sum(bv, r as nat, j),
                decreases len - i,
            {
                proof {
                    lemma_column_sum_grows(bv, (r + 1) as nat, num_ranks as nat, i as int);
                }
                let v = global_sum[i] + slice[i];
                global_sum.set(i, v);
                i += 1;
            }
            r += 1;
        }
        let mut r: usize = 0;
        while r < num_ranks
            invariant
                0 <= r <= num_ranks,
                num_ranks == buffers@.len(),
                global_sum@.len() == len,
                forall|j: int|
                    0 <= j < len ==> #[trigger] global_sum@[j] == column_sum(bv, num_ranks as nat, j),
                forall|q: int|
                    0 <= q < r ==> (#[trigger] buffers@[q])@ == global_sum@,
            decreases num_ranks - r,
        {
            buffers[r] = DeviceBuffer::from_host(global_sum.as_slice());
            r += 1;
        }
        assert(global_sum@ =~= sum_of_buffers(bv));
        assert forall|q: int| 0 <= q < buffers@.len() implies #[trigger] buffers_view(buffers@)[q]
            == sum_of_buffers(bv) by {
            assert(buffers@[q]@ == global_sum@);
        }
    }

    /// Merges the top-K lists of all ranks into the global top `k`, best
    /// first, ranked by the metric's direction.
    pub fn top_k_reduce(
        partial_results_per_rank: Vec<Vec<SearchResult>>,
        k: usize,
        metric: DistanceMetric,
    ) -> (r: Vec<SearchResult>)
        ensures
            is_top_k(
                r@,
                all_items(partial_results_per_rank@),
                k as nat,
                spec_higher_is_better(metric),
            ),
    {
        select_top_k(&partial_results_per_rank, k, metric.higher_is_better())
    }
}

/// Merging the ranks' hits ranks by the metric's direction: under a
/// similarity (dot product, cosine) the first hit has the highest key of
/// all the ranks' hits, under every distance metric the lowest.
pub proof fn lemma_top_k_reduce_direction(
    partial_results_per_rank: Seq<Vec<SearchResult>>,
    r: Seq<SearchResult>,
    k: nat,
    metric: DistanceMetric,
)
    requires
        is_top_k(r, all_items(partial_results_per_rank), k, spec_higher_is_better(metric)),
        k > 0,
        all_items(partial_results_per_rank).len() > 0,
    ensures
        r.len() > 0,
        metric == DistanceMetric::DotProduct || metric == DistanceMetric::CosineSimilarity
            ==> forall|i: int|
            0 <= i < all_items(partial_results_per_rank).len() ==> (#[trigger] all_items(
                partial_results_per_rank,
            )[i]).score_key <= r[0].score_key,
        metric == DistanceMetric::L2Squared || metric == DistanceMetric::Manhattan || metric
            == DistanceMetric::Minkowski || metric == DistanceMetric::Chebyshev || metric
            == DistanceMetric::Hamming || metric == DistanceMetric::Mahalanobis || metric
            == DistanceMetric::Jaccard || metric == DistanceMetric::Hellinger ==> forall|i: int|
            0 <= i < all_items(partial_results_per_rank).len() ==> r[0].score_key <= (
            #[trigger] all_items(partial_results_per_rank)[i]).score_key,
{
    let all = all_items(partial_results_per_rank);
    crate::topk::lemma_top_k_first_is_best(r, all, k, spec_higher_is_better(metric));
}

} // verus!
