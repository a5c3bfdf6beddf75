use rand::Rng;
use vector_rs::flat::flat_search;
use vector_rs::hnsw_config::HnswConfig;
use vector_rs::hnsw_search::{build_graph, search_graph};
use vector_rs::recall::count_found;
use vector_rs::topk::SearchResult;

/// Order key of a score.
fn key(x: f32) -> u32 {
    let b = x.to_bits();
    if b & 0x8000_0000 != 0 {
        !b
    } else {
        b | 0x8000_0000
    }
}

fn l2(a: &[f32], b: &[f32]) -> f32 {
    a.iter().zip(b).map(|(x, y)| (x - y) * (x - y)).sum()
}

fn dot(a: &[f32], b: &[f32]) -> f32 {
    a.iter().zip(b).map(|(x, y)| x * y).sum()
}

fn cosine(a: &[f32], b: &[f32]) -> f32 {
    let d = dot(a, b);
    let n = dot(a, a).sqrt() * dot(b, b).sqrt();
    if n <= 1e-9 {
        0.0
    } else {
        d / n
    }
}

fn neg_dot(a: &[f32], b: &[f32]) -> f32 {
    -dot(a, b)
}

fn cosine_distance(a: &[f32], b: &[f32]) -> f32 {
    1.0 - cosine(a, b)
}

fn random_levels(n: usize, m: usize) -> Vec<usize> {
    let ml = 1.0 / (m as f64).ln();
    let mut rng = rand::thread_rng();
    (0..n)
        .map(|_| {
            let r: f64 = rng.gen_range(0.0..1.0);
            (-r.max(1e-10).ln() * ml).floor() as usize
        })
        .collect()
}

/// Share of the exact hits that were retrieved.
fn recall(ground_truth: &[SearchResult], retrieved: &[SearchResult]) -> f32 {
    if ground_truth.is_empty() {
        return 1.0;
    }
    let gt: Vec<u32> = ground_truth.iter().map(|r| r.id).collect();
    let got: Vec<u32> = retrieved.iter().map(|r| r.id).collect();
    count_found(&gt, &got) as f32 / gt.len() as f32
}

/// Recall of an HNSW search over `data` against the exact search: the
/// graph is built and searched with `graph_dist`, the exact search ranks by
/// `score` (higher first when `higher_is_better`).
fn hnsw_recall(
    data: &[Vec<f32>],
    config: HnswConfig,
    graph_dist: fn(&[f32], &[f32]) -> f32,
    score: fn(&[f32], &[f32]) -> f32,
    higher_is_better: bool,
    query: &[f32],
    k: usize,
    ef_search: usize,
) -> f32 {
    let n = data.len();
    let dim = query.len();
    let dist_fn = |a: u32, b: u32| key(graph_dist(&data[a as usize], &data[b as usize]));
    let graph = build_graph(config, &random_levels(n, config.m), &dist_fn);
    let exact = |id: u32| key(score(query, &data[id as usize]));
    let ground_truth = flat_search(n, dim, dim, k, higher_is_better, &exact).unwrap();
    let dist = |id: u32| key(graph_dist(query, &data[id as usize]));
    let retrieved = search_graph(&graph, n, dim, dim, k, ef_search, &dist).unwrap();
    recall(&ground_truth, &retrieved)
}

#[test]
fn test_hnsw_recall_evaluation_against_flat() {
    let dim = 128;
    let n = 200;
    let data: Vec<Vec<f32>> = (0..n)
        .map(|i| (0..dim).map(|d| ((i * 7 + d * 13 + 3) % 10007) as f32 * 0.001).collect())
        .collect();
    let query: Vec<f32> = (0..dim).map(|d| ((d * 17 + 5) % 10007) as f32 * 0.001).collect();
    let r = hnsw_recall(&data, HnswConfig::new(16, 100, 50), l2, l2, false, &query, 10, 60);
    assert!(r >= 0.90, "Recall@10 should be at least 90%, got {:.2}%", r * 100.0);
}

#[test]
fn test_hnsw_high_dimensional_768d_recall() {
    let dim = 768;
    let n = 100;
    let data: Vec<Vec<f32>> = (0..n)
        .map(|i| (0..dim).map(|d| ((i * 11 + d * 19 + 7) % 101) as f32 * 0.01).collect())
        .collect();
    let query: Vec<f32> = (0..dim).map(|d| ((d * 23 + 11) % 89) as f32 * 0.01).collect();
    let r = hnsw_recall(
        &data,
        HnswConfig::new(16, 100, 50),
        cosine_distance,
        cosine,
        true,
        &query,
        5,
        80,
    );
    assert!(r >= 0.80, "Recall@5 should be at least 80%, got {:.2}%", r * 100.0);
}

#[test]
fn test_hnsw_1536d_recall() {
    let dim = 1536;
    let n = 50;
    let data: Vec<Vec<f32>> = (0..n)
        .map(|i| (0..dim).map(|d| ((i * 13 + d * 7 + 11) % 10007) as f32 * 0.001).collect())
        .collect();
    let query: Vec<f32> = (0..dim).map(|d| ((d * 31 + 17) % 10007) as f32 * 0.001).collect();
    let r = hnsw_recall(
        &data,
        HnswConfig::new(16, 100, 50),
        cosine_distance,
        cosine,
        true,
        &query,
        5,
        60,
    );
    assert!(r >= 0.90, "1536-D Recall@5 should be >= 90%, got {:.2}%", r * 100.0);
}

#[test]
fn test_hnsw_dot_product_recall() {
    let dim = 64;
    let n = 150;
    let data: Vec<Vec<f32>> = (0..n)
        .map(|i| (0..dim).map(|d| ((i * 17 + d * 5 + 3) % 10007) as f32 * 0.001).collect())
        .collect();
    let query: Vec<f32> = (0..dim).map(|d| ((d * 11 + 7) % 10007) as f32 * 0.001).collect();
    let r = hnsw_recall(&data, HnswConfig::new(16, 100, 50), neg_dot, dot, true, &query, 10, 60);
    assert!(r >= 0.90, "DotProduct Recall@10 should be >= 90%, got {:.2}%", r * 100.0);
}
