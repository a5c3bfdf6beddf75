//! Decisions of a worker shard: which search requests it accepts, which beam
//! width or probe count a search uses, and how local hits are labelled.

use crate::aggregator::SearchResultItem;
use crate::metric::DistanceMetric;
use crate::proto;
use crate::topk::SearchResult;
use vstd::prelude::*;

verus! {

/// Kind of index a shard serves.
#[derive(Debug, Clone, Copy, PartialEq, Eq, Structural)]
pub enum IndexKind {
    Hnsw,
    IvfPq,
}

impl IndexKind {
    /// Name reported in shard statistics.
    pub fn index_type(&self) -> (s: &'static str)
        ensures
            s@ == match *self {
                IndexKind::Hnsw => "HNSW"@,
                IndexKind::IvfPq => "IVF-PQ"@,
            },
    {
        match self {
            IndexKind::Hnsw => "HNSW",
            IndexKind::IvfPq => "IVF-PQ",
        }
    }
}

/// Beam width (HNSW) or probe count (IVF-PQ) of a search: the requested
/// value when positive, otherwise the index's configured default.
pub fn choose_search_param(requested: usize, configured: usize) -> (p: usize)
    ensures
        p == if requested > 0 {
            requested
        } else {
            configured
        },
{
    if requested > 0 {
        requested
    } else {
        configured
    }
}

/// Why a shard refuses a search request.
#[derive(Debug, Clone, Copy, PartialEq, Eq, Structural)]
pub enum SearchRequestError {
    /// The query vector is empty.
    EmptyQuery,
    /// The query has the wrong number of components.
    DimensionMismatch { expected: usize, got: usize },
    /// The request names a metric other than the shard's.
    MetricMismatch { configured: DistanceMetric, requested: DistanceMetric },
}

/// The verdict on a search request: an empty query, then a query of the
/// wrong dimension, then a named metric (unknown values name none) other
/// than the shard's are refused.
pub open spec fn spec_check_search(
    query_len: nat,
    dimension: nat,
    metric_wire: i32,
    shard_metric: DistanceMetric,
) -> Result<(), SearchRequestError> {
    if query_len == 0 {
        Err(SearchRequestError::EmptyQuery)
    } else if query_len != dimension {
        Err(
            SearchRequestError::DimensionMismatch {
                expected: dimension as usize,
                got: query_len as usize,
            },
        )
    } else {
        match proto::spec_of_wire_value(metric_wire) {
            Some(pm) => match proto::spec_index_metric(pm) {
                Some(requested) => if requested != shard_metric {
                    Err(SearchRequestError::MetricMismatch { configured: shard_metric, requested })
                } else {
                    Ok(())
                },
                None => Ok(()),
            },
            None => Ok(()),
        }
    }
}

/// Validates a search request against the shard's dimension and metric.
pub fn check_search_request(
    query_len: usize,
    dimension: usize,
    metric_wire: i32,
    shard_metric: DistanceMetric,
) -> (r: Result<(), SearchRequestError>)
    ensures
        r == spec_check_search(query_len as nat, dimension as nat, metric_wire, shard_metric),
{
    if query_len == 0 {
        return Err(SearchRequestError::EmptyQuery);
    }
    if query_len != dimension {
        return Err(SearchRequestError::DimensionMismatch { expected: dimension, got: query_len });
    }
    let requested_proto = proto::parse_distance_metric(metric_wire);
    match requested_proto.to_index_metric() {
        Some(requested) => {
            if requested != shard_metric {
                Err(SearchRequestError::MetricMismatch { configured: shard_metric, requested })
            } else {
                Ok(())
            }
        },
        None => Ok(()),
    }
}

/// Labels local hits with the shard that produced them.
pub fn tag_with_shard(results: &Vec<SearchResult>, shard_id: u32) -> (r: Vec<SearchResultItem>)
    ensures
        r@.len() == results@.len(),
        forall|i: int|
            0 <= i < results@.len() ==> #[trigger] r@[i] == (SearchResultItem {
                id: results@[i].id,
                score_key: results@[i].score_key,
                shard_id,
            }),
{
    let mut out: Vec<SearchResultItem> = Vec::new();
    let mut i: usize = 0;
    while i < results.len()
        invariant
            0 <= i <= results@.len(),
            out@.len() == i,
            forall|q: int|
                0 <= q < i ==> #[trigger] out@[q] == (SearchResultItem {
                    id: results@[q].id,
                    score_key: results@[q].score_key,
                    shard_id,
                }),
        decreases results@.len() - i,
    {
        let x = results[i];
        out.push(SearchResultItem { id: x.id, score_key: x.score_key, shard_id });
        i += 1;
    }
    out
}

/// A worker known to the coordinator's routing table.
#[derive(Debug, Clone)]
pub struct WorkerNodeInfo {
    pub endpoint: String,
    pub shard_id: Option<u32>,
    pub num_vectors: Option<u64>,
    pub dimension: Option<u32>,
    pub is_alive: bool,
}

impl WorkerNodeInfo {
    /// The record of a worker just connected at `endpoint`: alive, with
    /// shard, size and dimension not yet known.
    pub fn connected(endpoint: String) -> (w: Self)
        ensures
            w.endpoint == endpoint,
            w.shard_id is None,
            w.num_vectors is None,
            w.dimension is None,
            w.is_alive,
    {
        WorkerNodeInfo { endpoint, shard_id: None, num_vectors: None, dimension: None, is_alive: true }
    }
}

} // verus!
