use vector_rs::metric::{parse_metric, parse_metric_str, DistanceMetric};
use vector_rs::proto::DistanceMetric as ProtoDistanceMetric;
use vector_rs::topk::SearchResult;
use vector_rs::worker::{
    check_search_request, choose_search_param, tag_with_shard, IndexKind, SearchRequestError,
    WorkerNodeInfo,
};

#[test]
fn test_worker_engine_dimension_mismatch() {
    assert_eq!(
        check_search_request(2, 3, 0, DistanceMetric::L2Squared),
        Err(SearchRequestError::DimensionMismatch { expected: 3, got: 2 })
    );
}

#[test]
fn search_request_checks_in_order() {
    assert_eq!(
        check_search_request(0, 3, 99, DistanceMetric::L2Squared),
        Err(SearchRequestError::EmptyQuery)
    );
    assert_eq!(
        check_search_request(3, 3, ProtoDistanceMetric::DotProduct.wire_value(), DistanceMetric::L2Squared),
        Err(SearchRequestError::MetricMismatch {
            configured: DistanceMetric::L2Squared,
            requested: DistanceMetric::DotProduct,
        })
    );
    assert_eq!(check_search_request(3, 3, 0, DistanceMetric::L2Squared), Ok(()));
    assert_eq!(check_search_request(3, 3, 1234, DistanceMetric::Hamming), Ok(()));
    assert_eq!(
        check_search_request(3, 3, ProtoDistanceMetric::Hamming.wire_value(), DistanceMetric::Hamming),
        Ok(())
    );
}

#[test]
fn search_param_defaults() {
    assert_eq!(choose_search_param(0, 50), 50);
    assert_eq!(choose_search_param(12, 50), 12);
    assert_eq!(IndexKind::Hnsw.index_type(), "HNSW");
    assert_eq!(IndexKind::IvfPq.index_type(), "IVF-PQ");
}

#[test]
fn hits_are_tagged_with_shard() {
    let tagged = tag_with_shard(&vec![SearchResult::new(1, 10), SearchResult::new(2, 20)], 10);
    assert_eq!(tagged.len(), 2);
    assert!(tagged.iter().all(|t| t.shard_id == 10));
    assert_eq!(tagged[1].id, 2);
    assert_eq!(tagged[1].score_key, 20);
}

#[test]
fn test_worker_node_info_debug_and_clone() {
    let info = WorkerNodeInfo {
        endpoint: "http://127.0.0.1:50051".to_string(),
        shard_id: Some(1),
        num_vectors: Some(1000),
        dimension: Some(128),
        is_alive: true,
    };

    let cloned = info.clone();
    assert_eq!(cloned.endpoint, "http://127.0.0.1:50051");
    assert_eq!(cloned.shard_id, Some(1));
    assert_eq!(cloned.num_vectors, Some(1000));
    assert_eq!(cloned.dimension, Some(128));
    assert!(cloned.is_alive);

    let debug_str = format!("{:?}", info);
    assert!(debug_str.contains("WorkerNodeInfo"));
    let fresh = WorkerNodeInfo::connected("http://w:1".to_string());
    assert!(fresh.is_alive);
    assert_eq!(fresh.shard_id, None);
}

#[test]
fn metric_names() {
    assert_eq!(parse_metric_str("COSINE"), DistanceMetric::CosineSimilarity);
    assert_eq!(parse_metric_str("l_inf"), DistanceMetric::Chebyshev);
    assert_eq!(parse_metric_str("Tanimoto"), DistanceMetric::Jaccard);
    assert_eq!(parse_metric("dot"), DistanceMetric::DotProduct);
    assert_eq!(parse_metric("Hellinger"), DistanceMetric::Hellinger);
}
