use vector_rs::inverted_list::InvertedIndex;
use vector_rs::ivf_search::{find_top_centroids, plan_ivf_query, scan_probed_lists};
use vector_rs::error::VectorIndexError;
use vector_rs::kmeans::find_nearest_centroid;
use vector_rs::pq::{concat_codebooks, extract_subspace, pad_codebook, ProductQuantizer};
use vector_rs::topk::SearchResult;

/// Order key of a score.
fn key(x: f32) -> u32 {
    let b = x.to_bits();
    if b & 0x8000_0000 != 0 {
        !b
    } else {
        b | 0x8000_0000
    }
}

fn l2(a: &[f32], b: &[f32]) -> f32 {
    a.iter().zip(b).map(|(x, y)| (x - y) * (x - y)).sum()
}

/// Two codebooks of two centroids each, over 2-dimensional parts.
fn quantizer() -> ProductQuantizer<f32> {
    let codebooks = vec![
        0.0, 0.0, // m = 0, k = 0
        10.0, 10.0, // m = 0, k = 1
        -1.0, -1.0, // m = 1, k = 0
        5.0, 5.0, // m = 1, k = 1
    ];
    ProductQuantizer::new(4, 2, 2, codebooks)
}

#[test]
fn pq_sub_centroid_slices_codebook() {
    let pq = quantizer();
    assert_eq!(pq.get_sub_centroid(0, 1), &[10.0, 10.0]);
    assert_eq!(pq.get_sub_centroid(1, 0), &[-1.0, -1.0]);
}

#[test]
fn pq_encode_picks_nearest_centroid_per_part() {
    let pq = quantizer();
    let v = [9.0f32, 9.5, -0.5, -2.0];
    let score = |m: usize, k: usize| {
        let part = &v[m * 2..m * 2 + 2];
        key(l2(part, pq.get_sub_centroid(m, k)))
    };
    let mut code = [0u8; 2];
    pq.encode(&mut code, false, &score);
    assert_eq!(code, [1, 0]);
}

#[test]
fn pq_decode_concatenates_centroids() {
    let pq = quantizer();
    let mut out = [0.0f32; 4];
    pq.decode(&[1, 1], &mut out);
    assert_eq!(out, [10.0, 10.0, 5.0, 5.0]);
    pq.decode(&[0, 0], &mut out);
    assert_eq!(out, [0.0, 0.0, -1.0, -1.0]);
}

#[test]
fn pq_encode_decode_roundtrip_on_centroids() {
    let pq = quantizer();
    let v = [10.0f32, 10.0, -1.0, -1.0];
    let score = |m: usize, k: usize| key(l2(&v[m * 2..m * 2 + 2], pq.get_sub_centroid(m, k)));
    let mut code = [0u8; 2];
    pq.encode(&mut code, false, &score);
    let mut out = [0.0f32; 4];
    pq.decode(&code, &mut out);
    assert_eq!(out, v);
}

#[test]
fn ivf_plan_caps_nprobe() {
    assert_eq!(plan_ivf_query(4, 4, 5, 100, 10, 8), Ok(Some(8)));
    assert_eq!(plan_ivf_query(4, 4, 5, 100, 3, 8), Ok(Some(3)));
    assert_eq!(plan_ivf_query(4, 4, 5, 100, 0, 8), Ok(Some(1)));
    assert_eq!(plan_ivf_query(4, 4, 0, 100, 3, 8), Ok(None));
    assert_eq!(plan_ivf_query(4, 4, 5, 0, 3, 8), Ok(None));
    assert_eq!(
        plan_ivf_query(4, 3, 5, 100, 3, 8),
        Err(VectorIndexError::DimensionMismatch { expected: 4, got: 3 })
    );
}

#[test]
fn ivf_top_centroids_best_first() {
    let centroids = [[0.0f32, 0.0], [5.0, 5.0], [1.0, 1.0], [9.0, 9.0]];
    let q = [0.9f32, 0.9];
    let score = |c: u32| key(l2(&q, &centroids[c as usize]));
    let top = find_top_centroids(4, 2, false, &score);
    let ids: Vec<u32> = top.iter().map(|r| r.id).collect();
    assert_eq!(ids, vec![2, 0]);
    let all = find_top_centroids(4, 10, false, &score);
    assert_eq!(all.len(), 4);
    assert!(find_top_centroids(0, 3, false, &score).is_empty());
}

#[test]
fn ivf_scan_keeps_best_entries_of_probed_lists() {
    let mut index = InvertedIndex::new(3, 1);
    index.add(0, 10, &[0]);
    index.add(0, 11, &[1]);
    index.add(1, 20, &[2]);
    index.add(2, 30, &[3]);
    // Per-entry distances, by list and position.
    let dist = [[0.5f32, 3.0], [0.1, 0.0], [0.2, 0.0]];
    let probes = vec![SearchResult::new(0, 0), SearchResult::new(2, 0)];
    let lists_of_probes = [0usize, 2];
    let score = |p: usize, i: usize| key(dist[lists_of_probes[p]][i]);
    let r = scan_probed_lists(&index, &probes, 2, false, &score);
    let ids: Vec<u32> = r.iter().map(|h| h.id).collect();
    // List 1 is not probed, so its better entry (id 20) is not seen.
    assert_eq!(ids, vec![30, 10]);
}

#[test]
fn nearest_centroid_first_best_wins() {
    let keys = [7u32, 3, 9, 3];
    assert_eq!(find_nearest_centroid(4, false, &|c: usize| keys[c]), 1);
    assert_eq!(find_nearest_centroid(4, true, &|c: usize| keys[c]), 2);
    assert_eq!(find_nearest_centroid(0, false, &|c: usize| keys[c]), 0);
}

#[test]
fn subspace_extraction_takes_part_of_each_row() {
    let data = vec![1, 2, 3, 4, 5, 6, 7, 8];
    assert_eq!(extract_subspace(&data, 4, 2, 0, 2), vec![1, 2, 5, 6]);
    assert_eq!(extract_subspace(&data, 4, 2, 1, 2), vec![3, 4, 7, 8]);
    assert_eq!(extract_subspace(&data, 4, 1, 1, 2), vec![3, 4]);
}

#[test]
fn short_codebook_is_padded() {
    let mut cb = vec![1.5f32, 2.5];
    pad_codebook(&mut cb, 6, 0.0);
    assert_eq!(cb, vec![1.5, 2.5, 0.0, 0.0, 0.0, 0.0]);
    let mut full = vec![1, 2, 3];
    pad_codebook(&mut full, 2, 0);
    assert_eq!(full, vec![1, 2, 3]);
}

#[test]
fn codebooks_concatenate_in_order() {
    let parts = vec![vec![1, 2], vec![], vec![3, 4, 5]];
    assert_eq!(concat_codebooks(&parts), vec![1, 2, 3, 4, 5]);
}

#[test]
fn probing_an_index_with_each_id_once_finds_distinct_ids() {
    let mut index = InvertedIndex::new(3, 1);
    for id in 0u32..9 {
        index.add((id % 3) as usize, id, &[0u8]);
    }
    let probes = find_top_centroids(3, 3, false, &|c: u32| c);
    let ids: Vec<u32> = probes.iter().map(|p| p.id).collect();
    assert_eq!(ids, vec![0, 1, 2]);
    let score = |p: usize, i: usize| (p * 10 + i) as u32;
    let hits = scan_probed_lists(&index, &probes, 9, false, &score);
    let mut found: Vec<u32> = hits.iter().map(|h| h.id).collect();
    found.sort();
    found.dedup();
    assert_eq!(found.len(), 9);
}
