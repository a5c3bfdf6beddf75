use vector_rs::ddp::{
    batch_has_work, chunk_ranges, globalize_ids, merge_sharded_batch, rank_count, shard_plan,
    GpuShardMode, ShardRange,
};
use vector_rs::error::{check_device_ordinal, check_gpu_request, CudaError};
use vector_rs::metric::DistanceMetric;
use vector_rs::topk::SearchResult;

#[test]
fn rank_count_caps_by_vectors() {
    assert_eq!(rank_count(3, 60), 3);
    assert_eq!(rank_count(8, 2), 2);
    assert_eq!(rank_count(4, 0), 1);
}

#[test]
fn sharded_plan_tiles_the_vectors() {
    let plan = shard_plan(60, 3, GpuShardMode::Sharded);
    assert_eq!(
        plan,
        vec![
            ShardRange { start: 0, count: 20 },
            ShardRange { start: 20, count: 20 },
            ShardRange { start: 40, count: 20 },
        ]
    );
    let uneven = shard_plan(5, 4, GpuShardMode::Sharded);
    assert_eq!(
        uneven,
        vec![
            ShardRange { start: 0, count: 2 },
            ShardRange { start: 2, count: 2 },
            ShardRange { start: 4, count: 1 },
            ShardRange { start: 6, count: 0 },
        ]
    );
    let total: usize = uneven.iter().map(|r| r.count).sum();
    assert_eq!(total, 5);
}

#[test]
fn test_ddp_knn_more_gpus_than_vectors() {
    let plan = shard_plan(2, 8, GpuShardMode::Sharded);
    assert_eq!(plan.len(), 2);
    assert_eq!(plan[0], ShardRange { start: 0, count: 1 });
    assert_eq!(plan[1], ShardRange { start: 1, count: 1 });
}

#[test]
fn replicated_plan_gives_everything_to_each_rank() {
    let plan = shard_plan(4, 2, GpuShardMode::Replicated);
    assert_eq!(plan, vec![ShardRange { start: 0, count: 4 }, ShardRange { start: 0, count: 4 }]);
}

#[test]
fn replicated_query_chunks() {
    let chunks = chunk_ranges(2, 2);
    assert_eq!(chunks, vec![ShardRange { start: 0, count: 1 }, ShardRange { start: 1, count: 1 }]);
    let chunks = chunk_ranges(1, 3);
    assert_eq!(chunks[0], ShardRange { start: 0, count: 1 });
    assert_eq!(chunks[1].count, 0);
    assert_eq!(chunks[2].count, 0);
}

#[test]
fn test_ddp_knn_sharded_global_id_mapping() {
    let local = vec![SearchResult::new(0, 5), SearchResult::new(3, 7)];
    let global = globalize_ids(&local, 20);
    assert_eq!(global, vec![SearchResult::new(20, 5), SearchResult::new(23, 7)]);
}

#[test]
fn test_ddp_knn_empty_and_zero_k() {
    assert!(!batch_has_work(0, 10, 5));
    assert!(!batch_has_work(2, 0, 5));
    assert!(!batch_has_work(2, 10, 0));
    assert!(batch_has_work(2, 10, 5));
}

#[test]
fn test_insufficient_hardware_error() {
    assert_eq!(
        check_gpu_request(100, 0),
        Err(CudaError::InsufficientDevices { requested: 100, available: 0 })
    );
    assert_eq!(check_gpu_request(2, 2), Ok(()));
    assert_eq!(check_device_ordinal(3, 2), Err(CudaError::DeviceNotFound { ordinal: 3 }));
    assert_eq!(check_device_ordinal(1, 2), Ok(()));
}

#[test]
fn sharded_batch_merges_into_global_top_k() {
    // Two ranks, two queries; ids local to each rank's shard.
    let rank0 = vec![
        vec![SearchResult::new(0, 5), SearchResult::new(1, 9)],
        vec![SearchResult::new(2, 1)],
    ];
    let rank1 = vec![
        vec![SearchResult::new(0, 3), SearchResult::new(4, 7)],
        vec![SearchResult::new(1, 4), SearchResult::new(0, 8)],
    ];
    let merged = merge_sharded_batch(&vec![rank0, rank1], &vec![0, 10], 2, 2, DistanceMetric::L2Squared);
    assert_eq!(merged.len(), 2);
    assert_eq!(merged[0], vec![SearchResult::new(10, 3), SearchResult::new(0, 5)]);
    assert_eq!(merged[1], vec![SearchResult::new(2, 1), SearchResult::new(11, 4)]);
}

#[test]
fn sharded_batch_higher_is_better_for_dot_product() {
    let rank0 = vec![vec![SearchResult::new(0, 5)]];
    let rank1 = vec![vec![SearchResult::new(0, 9), SearchResult::new(1, 2)]];
    let merged = merge_sharded_batch(&vec![rank0, rank1], &vec![0, 4], 1, 2, DistanceMetric::DotProduct);
    assert_eq!(merged, vec![vec![SearchResult::new(4, 9), SearchResult::new(0, 5)]]);
}

/// Devices present where these tests run: none (no CUDA driver is linked).
const AVAILABLE_GPUS: usize = 0;

fn expect_insufficient(res: Result<(), CudaError>, requested: usize, available: usize) {
    assert!(res.is_err());
    match res.unwrap_err() {
        CudaError::InsufficientDevices { requested: r, available: a } => {
            assert_eq!(r, requested);
            assert_eq!(a, available);
        }
        other => panic!("Expected InsufficientDevices error, got: {:?}", other),
    }
}

#[test]
fn test_ddp_knn_insufficient_hardware_error() {
    let requested = AVAILABLE_GPUS + 100;
    expect_insufficient(check_gpu_request(requested, AVAILABLE_GPUS), requested, AVAILABLE_GPUS);
}

#[test]
fn test_ddp_kmeans_insufficient_hardware_error() {
    let requested = AVAILABLE_GPUS + 100;
    expect_insufficient(check_gpu_request(requested, AVAILABLE_GPUS), requested, AVAILABLE_GPUS);
}

#[test]
fn test_strict_hardware_validation_error() {
    let requested = AVAILABLE_GPUS + 10;
    assert_eq!(
        check_gpu_request(requested, AVAILABLE_GPUS),
        Err(CudaError::InsufficientDevices { requested, available: AVAILABLE_GPUS })
    );
}
