//! Verified core of a distributed vector search engine: metric tables,
//! visited-set tracking, inverted lists, HNSW graph topology, binary file
//! formats, top-K merging, sharding plans and request validation.

pub mod metric;
pub mod proto;
pub mod visited;
pub mod inverted_list;
pub mod wire;
pub mod error;
pub mod hnsw_config;
pub mod graph;
pub mod hnsw_file;
pub mod ivf_config;
pub mod ivf_file;
pub mod topk;
pub mod aggregator;
pub mod device;
pub mod collective;
pub mod ddp;
pub mod storage;
pub mod centroid_file;
pub mod simd;
pub mod worker;
pub mod kmeans;
pub mod hnsw_search;
pub mod flat;
pub mod ivf_search;
pub mod pq;
pub mod knn_batch;
pub mod recall;

use vstd::prelude::*;

verus! {

} // verus!
