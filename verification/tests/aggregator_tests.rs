use vector_rs::aggregator::{
    cluster_verdict, plan_cluster_search, proto_higher_is_better, should_scatter,
    ClusterRequestError, ClusterSearchPlan, ClusterVerdict, GatherState,
    ScatterGatherAggregator, SearchResultItem,
};
use vector_rs::proto::DistanceMetric as ProtoDistanceMetric;

/// Order key of a score.
fn key(x: f32) -> u32 {
    let b = x.to_bits();
    if b & 0x8000_0000 != 0 {
        !b
    } else {
        b | 0x8000_0000
    }
}

fn item(id: u32, score: f32, shard_id: u32) -> SearchResultItem {
    SearchResultItem { id, score_key: key(score), shard_id }
}

type Agg = ScatterGatherAggregator<()>;

#[test]
fn test_merge_local_results_distance_metric() {
    let shard0 = vec![item(1, 0.2, 0), item(2, 0.8, 0)];
    let shard1 = vec![item(3, 0.1, 1), item(4, 0.5, 1)];

    let merged = Agg::merge_local_results(vec![shard0, shard1], 3, false);

    assert_eq!(merged.len(), 3);
    assert_eq!(merged[0].id, 3);
    assert_eq!(merged[0].shard_id, 1);
    assert_eq!(merged[1].id, 1);
    assert_eq!(merged[1].shard_id, 0);
    assert_eq!(merged[2].id, 4);
    assert_eq!(merged[2].shard_id, 1);
}

#[test]
fn test_merge_local_results_similarity_metric() {
    let shard0 = vec![item(1, 0.9, 0), item(2, 0.4, 0)];
    let shard1 = vec![item(3, 0.95, 1), item(4, 0.7, 1)];

    let merged = Agg::merge_local_results(vec![shard0, shard1], 2, true);

    assert_eq!(merged.len(), 2);
    assert_eq!(merged[0].id, 3);
    assert_eq!(merged[1].id, 1);
}

#[test]
fn test_merge_local_results_empty_and_k_zero() {
    let empty_shards: Vec<Vec<SearchResultItem>> = vec![vec![], vec![]];
    let merged_empty = Agg::merge_local_results(empty_shards, 5, false);
    assert!(merged_empty.is_empty());

    let shard0 = vec![item(1, 0.5, 0)];
    let merged_k_zero = Agg::merge_local_results(vec![shard0], 0, false);
    assert!(merged_k_zero.is_empty());
}

#[test]
fn test_merge_local_results_many_shards_and_k_larger() {
    let mut all_shards = Vec::new();
    for shard_idx in 0..10 {
        let mut shard_items = Vec::new();
        for item_idx in 0..5 {
            shard_items.push(item(
                item_idx as u32,
                (shard_idx * 10 + item_idx) as f32 * 0.1,
                shard_idx as u32,
            ));
        }
        all_shards.push(shard_items);
    }

    let merged = Agg::merge_local_results(all_shards, 100, false);
    assert_eq!(merged.len(), 50);

    for w in merged.windows(2) {
        assert!(w[0].score_key <= w[1].score_key);
    }
    assert_eq!(merged[0].shard_id, 0);
    assert_eq!(merged[0].id, 0);
}

#[test]
fn test_merge_local_results_ties_and_identical_distances() {
    let shard0 = vec![item(1, 0.5, 0)];
    let shard1 = vec![item(2, 0.5, 1)];
    let shard2 = vec![item(3, 0.5, 2)];

    let merged = Agg::merge_local_results(vec![shard0, shard1, shard2], 3, false);
    assert_eq!(merged.len(), 3);
    for it in &merged {
        assert_eq!(it.score_key, key(0.5));
    }
}

#[test]
fn test_merge_local_results_negative_similarity_values() {
    let shard0 = vec![item(1, -0.8, 0), item(2, -0.2, 0)];
    let shard1 = vec![item(3, -0.05, 1), item(4, -0.99, 1)];

    let merged = Agg::merge_local_results(vec![shard0, shard1], 3, true);
    assert_eq!(merged.len(), 3);
    assert_eq!(merged[0].id, 3);
    assert_eq!(merged[1].id, 2);
    assert_eq!(merged[2].id, 1);
}

#[test]
fn test_merge_local_results_mixed_empty_and_populated_shards() {
    let shard0 = vec![];
    let shard1 = vec![item(10, 0.3, 1)];
    let shard2 = vec![];
    let shard3 = vec![item(20, 0.1, 3)];

    let merged = Agg::merge_local_results(vec![shard0, shard1, shard2, shard3], 5, false);
    assert_eq!(merged.len(), 2);
    assert_eq!(merged[0].id, 20);
    assert_eq!(merged[1].id, 10);
}

#[test]
fn merge_keeps_first_arrival_among_ties_at_the_cut() {
    let shard0 = vec![item(1, 0.5, 0), item(2, 0.5, 0)];
    let shard1 = vec![item(3, 0.5, 1)];
    let merged = Agg::merge_local_results(vec![shard0, shard1], 2, false);
    assert_eq!(merged.len(), 2);
    assert_eq!(merged[0].id, 1);
    assert_eq!(merged[1].id, 2);
}

#[test]
fn gather_state_collects_shard_answers() {
    let mut g: GatherState<&'static str> = GatherState::new(2, false);
    g.on_shard_results(vec![item(1, 0.4, 0), item(2, 0.9, 0)]);
    g.on_shard_error("shard 1 down");
    g.on_shard_results(vec![item(3, 0.1, 2)]);
    let (hits, successful, last_error) = g.finish();
    assert_eq!(successful, 2);
    assert_eq!(last_error, Some("shard 1 down"));
    assert_eq!(hits.iter().map(|h| h.id).collect::<Vec<_>>(), vec![3, 1]);
}

#[test]
fn gather_state_with_no_answers() {
    let g: GatherState<u8> = GatherState::new(5, true);
    let (hits, successful, last_error) = g.finish();
    assert!(hits.is_empty());
    assert_eq!(successful, 0);
    assert_eq!(last_error, None);
}

#[test]
fn scatter_decision_and_metric_direction() {
    assert!(!should_scatter(0, 5));
    assert!(!should_scatter(3, 0));
    assert!(should_scatter(3, 5));
    assert!(proto_higher_is_better(ProtoDistanceMetric::DotProduct));
    assert!(proto_higher_is_better(ProtoDistanceMetric::CosineSimilarity));
    assert!(!proto_higher_is_better(ProtoDistanceMetric::L2Squared));
    assert!(!proto_higher_is_better(ProtoDistanceMetric::Unspecified));
}

#[test]
fn test_service_search_cluster_empty_query_error() {
    let r = plan_cluster_search(0, 5, 50, ProtoDistanceMetric::L2Squared.wire_value());
    assert_eq!(r, Err(ClusterRequestError::EmptyQuery));
    assert!(ClusterRequestError::EmptyQuery
        .message()
        .contains("query_vector must not be empty"));
}

#[test]
fn test_service_search_cluster_zero_k_error() {
    let r = plan_cluster_search(2, 0, 50, ProtoDistanceMetric::L2Squared.wire_value());
    assert_eq!(r, Err(ClusterRequestError::ZeroK));
    assert!(ClusterRequestError::ZeroK.message().contains("k must be > 0"));
}

#[test]
fn test_service_search_cluster_default_ef_search_and_unspecified_metric() {
    let r = plan_cluster_search(3, 10, 0, 999);
    assert_eq!(
        r,
        Ok(ClusterSearchPlan { k: 10, ef_search: 50, metric: ProtoDistanceMetric::Unspecified })
    );
    let r2 = plan_cluster_search(3, 10, 7, 2);
    assert_eq!(
        r2,
        Ok(ClusterSearchPlan { k: 10, ef_search: 7, metric: ProtoDistanceMetric::DotProduct })
    );
}

#[test]
fn cluster_verdicts() {
    assert_eq!(cluster_verdict(0, 0, false), ClusterVerdict::Respond);
    assert_eq!(cluster_verdict(3, 1, true), ClusterVerdict::Respond);
    assert_eq!(cluster_verdict(3, 0, true), ClusterVerdict::ShardError);
    assert_eq!(cluster_verdict(3, 0, false), ClusterVerdict::Unavailable);
}

#[test]
fn merging_shard_tops_equals_top_of_everything() {
    let shard0 = vec![item(1, 0.9, 0), item(2, 0.3, 0), item(5, 0.4, 0), item(6, 0.05, 0)];
    let shard1 = vec![item(3, 0.2, 1), item(4, 0.7, 1), item(7, 0.6, 1)];
    let k = 3;
    let top0 = Agg::merge_local_results(vec![shard0.clone()], k, false);
    let top1 = Agg::merge_local_results(vec![shard1.clone()], k, false);
    let merged_tops = Agg::merge_local_results(vec![top0, top1], k, false);
    let global = Agg::merge_local_results(vec![shard0, shard1], k, false);
    assert_eq!(merged_tops, global);
    let ids: Vec<u32> = global.iter().map(|i| i.id).collect();
    assert_eq!(ids, vec![6, 3, 2]);
}
