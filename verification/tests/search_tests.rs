use rand::Rng;
use vector_rs::error::VectorIndexError;
use vector_rs::flat::{flat_search, plan_parallel_scan};
use vector_rs::hnsw_config::HnswConfig;
use vector_rs::hnsw_search::{build_graph, search_graph};
use vector_rs::topk::SearchResult;

/// Order key of a score.
fn key(x: f32) -> u32 {
    let b = x.to_bits();
    if b & 0x8000_0000 != 0 {
        !b
    } else {
        b | 0x8000_0000
    }
}

/// Score of an order key.
fn key_score(k: u32) -> f32 {
    let b = if k & 0x8000_0000 != 0 { k & 0x7fff_ffff } else { !k };
    f32::from_bits(b)
}

fn l2(a: &[f32], b: &[f32]) -> f32 {
    a.iter().zip(b).map(|(x, y)| (x - y) * (x - y)).sum()
}

fn dot(a: &[f32], b: &[f32]) -> f32 {
    a.iter().zip(b).map(|(x, y)| x * y).sum()
}

#[test]
fn test_l2_search_basic() {
    let data: Vec<[f32; 3]> = vec![[1.0, 0.0, 0.0], [0.0, 1.0, 0.0], [1.0, 1.0, 0.0]];
    let query = [1.0f32, 0.5, 0.0];
    let score = |id: u32| key(l2(&query, &data[id as usize]));
    let results = flat_search(3, 3, 3, 2, false, &score).unwrap();
    assert_eq!(results.len(), 2);
    assert!(results[0].score_key <= results[1].score_key);
}

#[test]
fn test_l2_search_k_larger_than_n() {
    let data: Vec<[f32; 2]> = vec![[0.0, 0.0], [3.0, 0.0], [1.0, 0.0]];
    let q = [0.0f32, 0.0];
    let score = |id: u32| key(l2(&q, &data[id as usize]));
    let results = flat_search(3, 2, 2, 10, false, &score).unwrap();
    assert_eq!(results.iter().map(|r| r.id).collect::<Vec<_>>(), vec![0, 2, 1]);
}

#[test]
fn test_l2_search_k_zero() {
    let score = |_id: u32| 0u32;
    assert_eq!(flat_search(3, 2, 2, 0, false, &score), Ok(Vec::new()));
}

#[test]
fn test_dot_product_results_sorted_descending() {
    let data: Vec<[f32; 2]> = vec![[1.0, 0.0], [2.0, 0.0], [0.5, 0.0], [3.0, 0.0]];
    let q = [1.0f32, 0.0];
    let score = |id: u32| key(dot(&q, &data[id as usize]));
    let results = flat_search(4, 2, 2, 3, true, &score).unwrap();
    assert_eq!(results.iter().map(|r| r.id).collect::<Vec<_>>(), vec![3, 1, 0]);
}

#[test]
fn test_search_empty_index() {
    let score = |_id: u32| 0u32;
    assert_eq!(flat_search(0, 3, 3, 2, false, &score), Err(VectorIndexError::EmptyIndex));
}

#[test]
fn test_search_dimension_mismatch() {
    let score = |_id: u32| 0u32;
    assert_eq!(
        flat_search(5, 3, 2, 2, false, &score),
        Err(VectorIndexError::DimensionMismatch { expected: 3, got: 2 })
    );
}

fn grid() -> Vec<[f32; 2]> {
    let mut v = Vec::new();
    for i in 0..6 {
        for j in 0..6 {
            v.push([i as f32, j as f32]);
        }
    }
    v
}

#[test]
fn test_hnsw_search_l2_basic() {
    let data: Vec<[f32; 3]> =
        vec![[1.0, 0.0, 0.0], [0.0, 1.0, 0.0], [0.0, 0.0, 1.0], [1.0, 1.0, 0.0], [1.0, 1.0, 1.0]];
    let config = HnswConfig::default();
    let ml = 1.0 / (config.m as f64).ln();
    let mut rng = rand::thread_rng();
    let levels: Vec<usize> = (0..data.len())
        .map(|_| {
            let r: f64 = rng.gen_range(0.0..1.0);
            (-r.max(1e-10).ln() * ml).floor() as usize
        })
        .collect();
    let dist_fn = |a: u32, b: u32| key(l2(&data[a as usize], &data[b as usize]));
    let graph = build_graph(config, &levels, &dist_fn);

    let query = [1.0f32, 0.0, 0.0];
    let dist = |id: u32| key(l2(&query, &data[id as usize]));
    let results = search_graph(&graph, data.len(), 3, 3, 3, config.ef_search, &dist).unwrap();

    assert_eq!(results.len(), 3);
    assert_eq!(results[0].id, 0);
    assert!(key_score(results[0].score_key).abs() < 1e-5);
}

#[test]
fn hnsw_finds_a_grid_point_and_its_ring() {
    let data = grid();
    let n = data.len();
    let levels: Vec<usize> = (0..n).map(|i| if i % 7 == 0 { 1 } else { 0 }).collect();
    let dist_fn = |a: u32, b: u32| key(l2(&data[a as usize], &data[b as usize]));
    let graph = build_graph(HnswConfig::new(4, 20, 20), &levels, &dist_fn);
    assert_eq!(graph.num_nodes, n);
    assert!(graph.entry_point.is_some());

    let q = data[14];
    let dist = |id: u32| key(l2(&q, &data[id as usize]));
    let hits = search_graph(&graph, n, 2, 2, 5, 20, &dist).unwrap();
    assert_eq!(hits.len(), 5);
    assert_eq!(hits[0].id, 14);
    for w in hits.windows(2) {
        assert!(w[0].score_key <= w[1].score_key);
    }
}

#[test]
fn test_hnsw_empty_index_error() {
    let levels: Vec<usize> = Vec::new();
    let dist_fn = |_a: u32, _b: u32| 0u32;
    let graph = build_graph(HnswConfig::default(), &levels, &dist_fn);
    let dist = |_id: u32| 0u32;
    assert_eq!(search_graph(&graph, 0, 2, 2, 3, 10, &dist), Err(VectorIndexError::EmptyIndex));
}

#[test]
fn test_hnsw_dimension_mismatch() {
    let data = grid();
    let levels = vec![0usize; data.len()];
    let dist_fn = |a: u32, b: u32| key(l2(&data[a as usize], &data[b as usize]));
    let graph = build_graph(HnswConfig::default(), &levels, &dist_fn);
    let dist = |_id: u32| 0u32;
    assert_eq!(
        search_graph(&graph, data.len(), 2, 3, 3, 10, &dist),
        Err(VectorIndexError::DimensionMismatch { expected: 2, got: 3 })
    );
}

#[test]
fn test_hnsw_k_zero_and_k_larger_than_n() {
    let data: Vec<[f32; 2]> = vec![[0.0, 0.0], [1.0, 0.0], [2.0, 0.0]];
    let levels = vec![0usize; 3];
    let dist_fn = |a: u32, b: u32| key(l2(&data[a as usize], &data[b as usize]));
    let graph = build_graph(HnswConfig::new(4, 10, 10), &levels, &dist_fn);
    let q = [0.1f32, 0.0];
    let dist = |id: u32| key(l2(&q, &data[id as usize]));
    assert_eq!(search_graph(&graph, 3, 2, 2, 0, 10, &dist), Ok(Vec::new()));
    let all = search_graph(&graph, 3, 2, 2, 10, 10, &dist).unwrap();
    assert_eq!(all.iter().map(|h| h.id).collect::<Vec<_>>(), vec![0, 1, 2]);
}

#[test]
fn built_graph_respects_link_budgets() {
    let data = grid();
    let levels: Vec<usize> = (0..data.len()).map(|i| i % 3).collect();
    let dist_fn = |a: u32, b: u32| key(l2(&data[a as usize], &data[b as usize]));
    let config = HnswConfig::new(3, 16, 16).with_m0(4);
    let graph = build_graph(config, &levels, &dist_fn);
    for (i, node) in graph.nodes.iter().enumerate() {
        for (l, list) in node.layers.iter().enumerate() {
            let budget = if l == 0 { 4 } else { 3 };
            assert!(list.len() <= budget);
            assert!(!list.contains(&(i as u32)));
            assert!(list.iter().all(|&x| (x as usize) < data.len()));
        }
    }
    assert_eq!(graph.max_level, 2);
}

#[test]
fn search_result_new_sets_fields() {
    let r = SearchResult::new(4, 9);
    assert_eq!(r.id, 4);
    assert_eq!(r.score_key, 9);
}

#[test]
fn build_enters_at_the_first_node_of_the_top_layer() {
    let dist_fn = |a: u32, b: u32| if a > b { a - b } else { b - a };
    let graph = build_graph(HnswConfig::default(), &vec![0usize, 2, 1, 2, 0], &dist_fn);
    assert_eq!(graph.max_level, 2);
    assert_eq!(graph.entry_point, Some(1));
    let flat = build_graph(HnswConfig::default(), &vec![0usize, 0, 0], &dist_fn);
    assert_eq!(flat.max_level, 0);
    assert_eq!(flat.entry_point, Some(0));
}

#[test]
fn parallel_scan_plans_only_chunks_that_hold_vectors() {
    assert_eq!(plan_parallel_scan(0, 3, 3, 4), Err(VectorIndexError::EmptyIndex));
    assert_eq!(
        plan_parallel_scan(5, 3, 2, 4),
        Err(VectorIndexError::DimensionMismatch { expected: 3, got: 2 })
    );
    let plan = plan_parallel_scan(5, 3, 3, 4).unwrap();
    assert_eq!(plan.iter().map(|r| (r.start, r.count)).collect::<Vec<_>>(), vec![(0, 2), (2, 2), (4, 1)]);
    let wide = plan_parallel_scan(2, 3, 3, 4).unwrap();
    assert_eq!(wide.iter().map(|r| (r.start, r.count)).collect::<Vec<_>>(), vec![(0, 1), (1, 1)]);
}

#[test]
fn chunked_scan_matches_single_scan() {
    let data: Vec<[f32; 2]> = (0..23).map(|i| [((i * 7) % 23) as f32, (i % 5) as f32 * 0.5]).collect();
    let q = [3.2f32, 1.1];
    let score = |id: u32| key(l2(&q, &data[id as usize]));
    let single = flat_search(data.len(), 2, 2, 6, false, &score).unwrap();
    let plan = plan_parallel_scan(data.len(), 2, 2, 4).unwrap();
    let parts: Vec<Vec<SearchResult>> = plan
        .iter()
        .map(|r| {
            let start = r.start;
            let local_score = |i: u32| score(start as u32 + i);
            let local = flat_search(r.count, 2, 2, 6, false, &local_score).unwrap();
            vector_rs::ddp::globalize_ids(&local, start as u32)
        })
        .collect();
    let merged = vector_rs::collective::CollectiveOps::top_k_reduce(
        parts,
        6,
        vector_rs::metric::DistanceMetric::L2Squared,
    );
    assert_eq!(merged, single);
}
