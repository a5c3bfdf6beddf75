use rand::Rng;
use vector_rs::error::VectorIndexError;
use vector_rs::flat::flat_search;
use vector_rs::graph::select_neighbors;
use vector_rs::hnsw_config::HnswConfig;
use vector_rs::hnsw_search::{build_graph, search_graph};
use vector_rs::ivf_search::{find_top_centroids, plan_ivf_query};
use vector_rs::kmeans::{assign_clusters, find_nearest_centroid};
use vector_rs::pq::ProductQuantizer;
use vector_rs::topk::SearchResult;

/// Order key of a score.
fn key(x: f32) -> u32 {
    let b = x.to_bits();
    if b & 0x8000_0000 != 0 {
        !b
    } else {
        b | 0x8000_0000
    }
}

fn l2(a: &[f32], b: &[f32]) -> f32 {
    a.iter().zip(b).map(|(x, y)| (x - y) * (x - y)).sum()
}

fn dot(a: &[f32], b: &[f32]) -> f32 {
    a.iter().zip(b).map(|(x, y)| x * y).sum()
}

fn cosine(a: &[f32], b: &[f32]) -> f32 {
    let d = dot(a, b);
    let n = dot(a, a).sqrt() * dot(b, b).sqrt();
    if n <= 1e-9 {
        0.0
    } else {
        d / n
    }
}

fn rows(flat: &[f32], dim: usize) -> Vec<&[f32]> {
    flat.chunks(dim).collect()
}

#[test]
fn test_select_neighbors_empty_and_small() {
    let dist_fn = |a: u32, b: u32| key(((a as f32) - (b as f32)).abs());
    let selected = select_neighbors(vec![], 4, true, &dist_fn);
    assert!(selected.is_empty());
    let candidates = vec![SearchResult::new(1, key(2.0)), SearchResult::new(2, key(1.0))];
    let selected = select_neighbors(candidates, 4, true, &dist_fn);
    assert_eq!(selected.len(), 2);
}

#[test]
fn test_builder_single_node() {
    let dist = |_a: u32, _b: u32| 0u32;
    let graph = build_graph(HnswConfig::default(), &vec![0usize], &dist);
    assert_eq!(graph.entry_point, Some(0));
    assert_eq!(graph.num_nodes, 1);
}

#[test]
fn test_find_top_centroids() {
    let centroids = vec![0.0f32, 0.0, 5.0, 5.0, 10.0, 10.0];
    let cs = rows(&centroids, 2);
    let query = [1.0f32, 1.0];
    let score = |c: u32| key(l2(&query, cs[c as usize]));
    let top2 = find_top_centroids(3, 2, false, &score);
    assert_eq!(top2.len(), 2);
    assert_eq!(top2[0].id, 0);
    assert_eq!(top2[1].id, 1);
}

#[test]
fn test_find_top_centroids_similarity_and_edge_cases() {
    let centroids = vec![1.0f32, 0.0, 0.0, 1.0, -1.0, 0.0];
    let cs = rows(&centroids, 2);
    let query = [0.99f32, 0.01];
    let score = |c: u32| key(cosine(&query, cs[c as usize]));
    let top = find_top_centroids(3, 2, true, &score);
    assert_eq!(top.len(), 2);
    assert_eq!(top[0].id, 0);
    let top_zero = find_top_centroids(3, 0, true, &score);
    assert!(top_zero.is_empty());
    let top_all = find_top_centroids(3, 100, true, &score);
    assert_eq!(top_all.len(), 3);
}

#[test]
fn test_parallel_assign_basic() {
    let data = vec![0.0f32, 0.0, 10.0, 10.0];
    let centroids = vec![0.0f32, 0.0, 10.0, 10.0];
    let (ds, cs) = (rows(&data, 2), rows(&centroids, 2));
    let score = |i: usize, c: usize| key(l2(ds[i], cs[c]));
    let (assignment, counts) = assign_clusters(2, 2, false, &score);
    assert_eq!(counts.iter().sum::<usize>(), 2);
    assert_eq!(counts[0], 1);
    assert_eq!(counts[1], 1);
    assert_eq!(assignment, vec![0, 1]);
}

#[test]
fn test_find_nearest_centroid_l2() {
    let centroids = vec![0.0f32, 0.0, 10.0, 10.0];
    let cs = rows(&centroids, 2);
    let query = [1.0f32, 1.0];
    let idx = find_nearest_centroid(2, false, &|c: usize| key(l2(&query, cs[c])));
    assert_eq!(idx, 0);
    assert!((l2(&query, cs[idx]) - 2.0).abs() < 1e-5);
}

#[test]
fn test_find_nearest_centroid_dot_product() {
    let centroids = vec![1.0f32, 0.0, 0.0, 1.0];
    let cs = rows(&centroids, 2);
    let query = [1.0f32, 0.0];
    let idx = find_nearest_centroid(2, true, &|c: usize| key(dot(&query, cs[c])));
    assert_eq!(idx, 0);
}

#[test]
fn test_pq_get_sub_centroid_accessor() {
    // 4 dims, 2 sub-vectors, 2 centroids each.
    let codebooks = vec![1.0f32, 2.0, 3.0, 4.0, 5.0, 6.0, 7.0, 8.0];
    let pq = ProductQuantizer::new(4, 2, 2, codebooks);
    assert_eq!(pq.get_sub_centroid(0, 0), &[1.0, 2.0]);
    assert_eq!(pq.get_sub_centroid(0, 1), &[3.0, 4.0]);
    assert_eq!(pq.get_sub_centroid(1, 0), &[5.0, 6.0]);
    assert_eq!(pq.get_sub_centroid(1, 1), &[7.0, 8.0]);
}

fn flat_rows() -> Vec<[f32; 3]> {
    vec![[1.0, 0.0, 0.0], [0.0, 1.0, 0.0], [0.0, 0.0, 1.0], [1.0, 1.0, 0.0], [1.0, 1.0, 1.0]]
}

const EPSILON: f32 = 1e-5;

fn key_score(k: u32) -> f32 {
    if k & 0x8000_0000 != 0 {
        f32::from_bits(k & 0x7FFF_FFFF)
    } else {
        f32::from_bits(!k)
    }
}

#[test]
fn test_l2_search_exact_match() {
    let data = flat_rows();
    let query = [0.0f32, 0.0, 1.0];
    let score = |id: u32| key(l2(&query, &data[id as usize]));
    let r = flat_search(data.len(), 3, 3, 1, false, &score).unwrap();
    assert_eq!(r.len(), 1);
    assert_eq!(r[0].id, 2);
    assert!(key_score(r[0].score_key).abs() < EPSILON);
}

#[test]
fn test_l2_results_sorted_ascending() {
    let data = flat_rows();
    let query = [0.5f32, 0.5, 0.5];
    let score = |id: u32| key(l2(&query, &data[id as usize]));
    let r = flat_search(data.len(), 3, 3, 5, false, &score).unwrap();
    for w in r.windows(2) {
        assert!(key_score(w[0].score_key) <= key_score(w[1].score_key) + EPSILON);
    }
}

#[test]
fn test_dot_product_search() {
    let data = flat_rows();
    let query = [1.0f32, 1.0, 1.0];
    let score = |id: u32| key(dot(&query, &data[id as usize]));
    let r = flat_search(data.len(), 3, 3, 2, true, &score).unwrap();
    assert_eq!(r[0].id, 4);
    assert!((key_score(r[0].score_key) - 3.0).abs() < EPSILON);
}

#[test]
fn test_cosine_search() {
    let data = flat_rows();
    let query = [1.0f32, 0.0, 0.0];
    let score = |id: u32| key(cosine(&query, &data[id as usize]));
    let r = flat_search(data.len(), 3, 3, 1, true, &score).unwrap();
    assert_eq!(r[0].id, 0);
    assert!((key_score(r[0].score_key) - 1.0).abs() < EPSILON);
}

#[test]
fn test_cosine_results_sorted_descending() {
    let data = flat_rows();
    let query = [1.0f32, 0.5, 0.0];
    let score = |id: u32| key(cosine(&query, &data[id as usize]));
    let r = flat_search(data.len(), 3, 3, 5, true, &score).unwrap();
    for w in r.windows(2) {
        assert!(key_score(w[0].score_key) >= key_score(w[1].score_key) - EPSILON);
    }
}

#[test]
fn test_single_vector() {
    let data = [[1.0f32, 2.0, 3.0, 4.0]];
    let query = [1.0f32, 2.0, 3.0, 4.0];
    let score = |id: u32| key(l2(&query, &data[id as usize]));
    let r = flat_search(1, 4, 4, 1, false, &score).unwrap();
    assert_eq!(r.len(), 1);
    assert_eq!(r[0].id, 0);
    assert!(key_score(r[0].score_key).abs() < EPSILON);
}

/// Levels drawn as the builder draws them: `floor(-ln(r) * ml)`.
fn random_levels(n: usize, m: usize) -> Vec<usize> {
    let ml = 1.0 / (m as f64).ln();
    let mut rng = rand::thread_rng();
    (0..n)
        .map(|_| {
            let r: f64 = rng.gen_range(0.0..1.0);
            (-r.max(1e-10).ln() * ml).floor() as usize
        })
        .collect()
}

#[test]
fn test_builder_sequential() {
    let data = [[0.0f32, 0.0], [1.0, 0.0], [0.0, 1.0], [1.0, 1.0]];
    let dist = |a: u32, b: u32| key(l2(&data[a as usize], &data[b as usize]));
    let config = HnswConfig::new(4, 20, 20);
    let graph = build_graph(config, &random_levels(4, 4), &dist);
    assert!(graph.entry_point.is_some());
    assert_eq!(graph.num_nodes, 4);
}

#[test]
fn test_builder_parallel() {
    let data: Vec<[f32; 2]> = (0..50).map(|i| [i as f32, (i * 2) as f32]).collect();
    let dist = |a: u32, b: u32| key(l2(&data[a as usize], &data[b as usize]));
    let config = HnswConfig::new(4, 20, 20);
    let graph = build_graph(config, &random_levels(50, 4), &dist);
    assert!(graph.entry_point.is_some());
    assert_eq!(graph.num_nodes, 50);
}

fn hnsw_rows() -> Vec<[f32; 3]> {
    vec![[1.0, 0.0, 0.0], [0.0, 1.0, 0.0], [0.0, 0.0, 1.0], [1.0, 1.0, 0.0], [1.0, 1.0, 1.0]]
}

/// Builds the graph with graph distances `g` and searches it with the
/// default beam width.
fn hnsw_query<G: Fn(&[f32], &[f32]) -> f32>(g: G, query: [f32; 3], k: usize) -> Vec<SearchResult> {
    let data = hnsw_rows();
    let dist_fn = |a: u32, b: u32| key(g(&data[a as usize], &data[b as usize]));
    let config = HnswConfig::default();
    let graph = build_graph(config, &random_levels(data.len(), config.m), &dist_fn);
    let dist = |id: u32| key(g(&query, &data[id as usize]));
    search_graph(&graph, data.len(), 3, 3, k, config.ef_search, &dist).unwrap()
}

#[test]
fn test_hnsw_search_dot_product() {
    let results = hnsw_query(|a, b| -dot(a, b), [1.0, 1.0, 1.0], 2);
    assert_eq!(results.len(), 2);
    assert_eq!(results[0].id, 4);
    assert!((-key_score(results[0].score_key) - 3.0).abs() < EPSILON);
}

#[test]
fn test_hnsw_search_cosine() {
    let results = hnsw_query(|a, b| 1.0 - cosine(a, b), [1.0, 0.0, 0.0], 1);
    assert_eq!(results.len(), 1);
    assert_eq!(results[0].id, 0);
    assert!((1.0 - key_score(results[0].score_key) - 1.0).abs() < EPSILON);
}

#[test]
fn test_hnsw_parallel_build_consistency() {
    let results = hnsw_query(l2, [0.0, 1.0, 0.0], 1);
    assert_eq!(results.len(), 1);
    assert_eq!(results[0].id, 1);
}

#[test]
fn test_ivf_pq_search_k_zero_and_empty_storage() {
    // An index over one 2-d vector: k = 0 asks for nothing.
    assert_eq!(plan_ivf_query(2, 2, 0, 1, 1, 1), Ok(None));
}

#[test]
fn test_ivf_pq_dimension_mismatch() {
    // 2-d query for a 4-d index.
    assert_eq!(
        plan_ivf_query(4, 2, 1, 1, 1, 1),
        Err(VectorIndexError::DimensionMismatch { expected: 4, got: 2 })
    );
}
