//! Scatter-gather aggregation of per-shard search results into a global top-K.
//!
//! The coordinator sends a query to every worker shard and merges the hits
//! that come back. The merging and the bookkeeping of which shards answered
//! are decided here; sending and receiving stay with the caller, which feeds
//! each shard's outcome to a [`GatherState`].

use crate::proto;
use crate::topk::{
    ScoreKeyed, all_items, is_top_k, lemma_selection_empty, lemma_selection_is_top_k, offer,
    select_top_k, selection_inv,
};
use vstd::prelude::*;

verus! {

/// A hit returned by a worker shard.
#[derive(Debug, Clone, Copy, PartialEq, Eq, Structural)]
pub struct SearchResultItem {
    /// Identifier of the matched vector within its shard.
    pub id: u32,
    /// Order key of the distance or similarity score.
    pub score_key: u32,
    /// Shard that produced the hit.
    pub shard_id: u32,
}

impl ScoreKeyed for SearchResultItem {
    open spec fn key_of(&self) -> u32 {
        self.score_key
    }

    fn score_key(&self) -> (k: u32) {
        self.score_key
    }
}

/// Whether a higher score is better under the protocol metric `m`.
pub open spec fn spec_proto_higher_is_better(m: proto::DistanceMetric) -> bool {
    m == proto::DistanceMetric::DotProduct || m == proto::DistanceMetric::CosineSimilarity
}

/// Returns `true` for the similarity metrics (dot product and cosine).
pub fn proto_higher_is_better(m: proto::DistanceMetric) -> (r: bool)
    ensures
        r == spec_proto_higher_is_better(m),
{
    match m {
        proto::DistanceMetric::DotProduct | proto::DistanceMetric::CosineSimilarity => true,
        _ => false,
    }
}

/// Whether a query is sent out at all: there are workers and `k > 0`.
pub fn should_scatter(num_workers: usize, k: usize) -> (r: bool)
    ensures
        r == (num_workers > 0 && k > 0),
{
    num_workers > 0 && k > 0
}

/// Scatter-gather query dispatcher over a worker router `R`.
pub struct ScatterGatherAggregator<R> {
    /// The router that holds the worker connections.
    pub router: R,
}

impl<R> ScatterGatherAggregator<R> {
    /// Creates an aggregator over `router`.
    pub fn new(router: R) -> (a: Self)
        ensures
            a.router == router,
    {
        ScatterGatherAggregator { router }
    }

    /// Merges the result lists of several shards into a single top-K list,
    /// best first.
    pub fn merge_local_results(
        shard_results: Vec<Vec<SearchResultItem>>,
        k: usize,
        higher_is_better: bool,
    ) -> (r: Vec<SearchResultItem>)
        ensures
            is_top_k(r@, all_items(shard_results@), k as nat, higher_is_better),
    {
        select_top_k(&shard_results, k, higher_is_better)
    }
}

/// What the gathering of shard answers has collected so far.
pub struct GatherState<E> {
    best: Vec<SearchResultItem>,
    k: usize,
    higher_is_better: bool,
    successful_shards: u32,
    last_error: Option<E>,
    received: Ghost<Seq<SearchResultItem>>,
    dropped: Ghost<Seq<SearchResultItem>>,
}

impl<E> GatherState<E> {
    /// The kept hits are a top-K of every hit received.
    pub closed spec fn wf(&self) -> bool {
        selection_inv(
            self.best@,
            self.dropped@,
            self.received@,
            self.k as nat,
            self.higher_is_better,
        )
    }

    /// Every hit received from the shards that answered, in arrival order.
    pub closed spec fn received(&self) -> Seq<SearchResultItem> {
        self.received@
    }

    /// The hits kept so far.
    pub closed spec fn kept(&self) -> Seq<SearchResultItem> {
        self.best@
    }

    pub closed spec fn k(&self) -> nat {
        self.k as nat
    }

    pub closed spec fn ranks_higher_first(&self) -> bool {
        self.higher_is_better
    }

    /// Number of shards that answered with results.
    pub closed spec fn successes(&self) -> u32 {
        self.successful_shards
    }

    /// The error of the last shard that failed, if any.
    pub closed spec fn last_error(&self) -> Option<E> {
        self.last_error
    }

    /// Starts gathering for a top-`k` under the given ranking direction.
    pub fn new(k: usize, higher_is_better: bool) -> (s: Self)
        ensures
            s.wf(),
            s.received() == Seq::<SearchResultItem>::empty(),
            s.k() == k,
            s.ranks_higher_first() == higher_is_better,
            s.successes() == 0,
            s.last_error() is None,
    {
        proof {
            lemma_selection_empty::<SearchResultItem>(k as nat, higher_is_better);
        }
        GatherState {
            best: Vec::new(),
            k,
            higher_is_better,
            successful_shards: 0,
            last_error: None,
            received: Ghost(Seq::empty()),
            dropped: Ghost(Seq::empty()),
        }
    }

    /// Takes in the answer of a shard that succeeded.
    pub fn on_shard_results(&mut self, results: Vec<SearchResultItem>)
        requires
            old(self).wf(),
            old(self).successes() < u32::MAX,
        ensures
            final(self).wf(),
            final(self).received() == old(self).received() + results@,
            final(self).k() == old(self).k(),
            final(self).ranks_higher_first() == old(self).ranks_higher_first(),
            final(self).successes() == old(self).successes() + 1,
            final(self).last_error() == old(self).last_error(),
    {
        self.successful_shards = self.successful_shards + 1;
        let ghost start = self.received@;
        let mut i: usize = 0;
        while i < results.len()
            invariant
                0 <= i <= results@.len(),
                self.received@ == start + results@.take(i as int),
                self.k == old(self).k,
                self.higher_is_better == old(self).higher_is_better,
                self.successful_shards == old(self).successful_shards + 1,
                self.last_error == old(self).last_error,
                selection_inv(
                    self.best@,
                    self.dropped@,
                    self.received@,
                    self.k as nat,
                    self.higher_is_better,
                ),
            decreases results@.len() - i,
        {
            let x = results[i];
            let ghost seen = self.received@;
            let nd = offer(
                &mut self.best,
                x,
                self.k,
                self.higher_is_better,
                Ghost(seen),
                Ghost(self.dropped@),
            );
            self.dropped = nd;
            self.received = Ghost(seen.push(x));
            proof {
                assert(seen.push(x) =~= start + results@.take(i + 1));
            }
            i += 1;
        }
        proof {
            assert(results@.take(results@.len() as int) =~= results@);
        }
    }

    /// Takes in the error of a shard that failed; it is kept as the last error.
    pub fn on_shard_error(&mut self, status: E)
        ensures
            final(self).wf() == old(self).wf(),
            final(self).received() == old(self).received(),
            final(self).kept() == old(self).kept(),
            final(self).k() == old(self).k(),
            final(self).ranks_higher_first() == old(self).ranks_higher_first(),
            final(self).successes() == old(self).successes(),
            final(self).last_error() == Some(status),
    {
        self.last_error = Some(status);
    }

    /// Ends the gathering: the kept hits best first, the number of shards
    /// that answered, and the last error.
    pub fn finish(self) -> (r: (Vec<SearchResultItem>, u32, Option<E>))
        requires
            self.wf(),
        ensures
            is_top_k(r.0@, self.received(), self.k(), self.ranks_higher_first()),
            r.1 == self.successes(),
            r.2 == self.last_error(),
    {
        proof {
            lemma_selection_is_top_k(
                self.best@,
                self.dropped@,
                self.received@,
                self.k as nat,
                self.higher_is_better,
            );
        }
        (self.best, self.successful_shards, self.last_error)
    }
}

/// Why the coordinator refuses a cluster search request.
#[derive(Debug, Clone, Copy, PartialEq, Eq, Structural)]
pub enum ClusterRequestError {
    /// The query vector is empty.
    EmptyQuery,
    /// `k` is 0.
    ZeroK,
}

impl ClusterRequestError {
    /// The message sent back with the refusal.
    pub fn message(&self) -> (s: &'static str)
        ensures
            s@ == match *self {
                ClusterRequestError::EmptyQuery => "query_vector must not be empty"@,
                ClusterRequestError::ZeroK => "k must be > 0"@,
            },
    {
        match self {
            ClusterRequestError::EmptyQuery => "query_vector must not be empty",
            ClusterRequestError::ZeroK => "k must be > 0",
        }
    }
}

/// Beam width used when a request leaves `ef_search` at 0.
pub const DEFAULT_CLUSTER_EF_SEARCH: usize = 50;

/// A cluster search that passed validation.
#[derive(Debug, Clone, Copy, PartialEq, Eq, Structural)]
pub struct ClusterSearchPlan {
    pub k: usize,
    pub ef_search: usize,
    pub metric: proto::DistanceMetric,
}

/// The plan of a cluster search request: refused when the query is empty or
/// `k` is 0; otherwise `ef_search` 0 falls back to 50 and an unknown metric
/// value to `Unspecified`.
pub open spec fn spec_cluster_plan(query_len: nat, k: u32, ef_search: u32, metric: i32) -> Result<
    ClusterSearchPlan,
    ClusterRequestError,
> {
    if query_len == 0 {
        Err(ClusterRequestError::EmptyQuery)
    } else if k == 0 {
        Err(ClusterRequestError::ZeroK)
    } else {
        Ok(
            ClusterSearchPlan {
                k: k as usize,
                ef_search: if ef_search > 0 {
                    ef_search as usize
                } else {
                    DEFAULT_CLUSTER_EF_SEARCH
                },
                metric: match proto::spec_of_wire_value(metric) {
                    Some(m) => m,
                    None => proto::DistanceMetric::Unspecified,
                },
            },
        )
    }
}

/// Validates a cluster search request and fills in its defaults.
pub fn plan_cluster_search(query_len: usize, k: u32, ef_search: u32, metric: i32) -> (r: Result<
    ClusterSearchPlan,
    ClusterRequestError,
>)
    ensures
        r == spec_cluster_plan(query_len as nat, k, ef_search, metric),
{
    if query_len == 0 {
        return Err(ClusterRequestError::EmptyQuery);
    }
    if k == 0 {
        return Err(ClusterRequestError::ZeroK);
    }
    let ef = if ef_search > 0 {
        ef_search as usize
    } else {
        DEFAULT_CLUSTER_EF_SEARCH
    };
    let m = match proto::DistanceMetric::from_wire(metric) {
        Some(m) => m,
        None => proto::DistanceMetric::Unspecified,
    };
    Ok(ClusterSearchPlan { k: k as usize, ef_search: ef, metric: m })
}

/// What the coordinator answers once the shards have been gathered.
#[derive(Debug, Clone, Copy, PartialEq, Eq, Structural)]
pub enum ClusterVerdict {
    /// Send the merged response.
    Respond,
    /// Every queried shard failed: pass on the last shard error.
    ShardError,
    /// Every queried shard failed and none reported an error.
    Unavailable,
}

/// Decides the answer: a failure when shards were queried and none
/// succeeded, otherwise the merged response.
pub fn cluster_verdict(total_queried: u32, successful: u32, has_error: bool) -> (v: ClusterVerdict)
    ensures
        total_queried > 0 && successful == 0 && has_error ==> v == ClusterVerdict::ShardError,
        total_queried > 0 && successful == 0 && !has_error ==> v == ClusterVerdict::Unavailable,
        !(total_queried > 0 && successful == 0) ==> v == ClusterVerdict::Respond,
{
    if total_queried > 0 && successful == 0 {
        if has_error {
            ClusterVerdict::ShardError
        } else {
            ClusterVerdict::Unavailable
        }
    } else {
        ClusterVerdict::Respond
    }
}

/// The coordinator's merge ranks by the metric's direction: under a
/// similarity (dot product, cosine) the first hit has the highest key of
/// all hits received, under every distance metric (and an unspecified one)
/// the lowest.
pub proof fn lemma_gather_direction(
    received: Seq<SearchResultItem>,
    r: Seq<SearchResultItem>,
    k: nat,
    metric: proto::DistanceMetric,
)
    requires
        is_top_k(r, received, k, spec_proto_higher_is_better(metric)),
        k > 0,
        received.len() > 0,
    ensures
        r.len() > 0,
        metric == proto::DistanceMetric::DotProduct || metric == proto::DistanceMetric::CosineSimilarity
            ==> forall|i: int| 0 <= i < received.len() ==> (#[trigger] received[i]).score_key <= r[0].score_key,
        metric == proto::DistanceMetric::Unspecified || metric == proto::DistanceMetric::L2Squared
            || metric == proto::DistanceMetric::Manhattan || metric == proto::DistanceMetric::Minkowski
            || metric == proto::DistanceMetric::Chebyshev || metric == proto::DistanceMetric::Hamming
            || metric == proto::DistanceMetric::Mahalanobis || metric == proto::DistanceMetric::Jaccard
            || metric == proto::DistanceMetric::Hellinger ==> forall|i: int|
            0 <= i < received.len() ==> r[0].score_key <= (#[trigger] received[i]).score_key,
{
    crate::topk::lemma_top_k_first_is_best(r, received, k, spec_proto_higher_is_better(metric));
}

} // verus!
