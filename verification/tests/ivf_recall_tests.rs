use vector_rs::flat::flat_search;
use vector_rs::inverted_list::InvertedIndex;
use vector_rs::ivf_search::{find_top_centroids, plan_ivf_query, scan_probed_lists};
use vector_rs::kmeans::{assign_clusters, init_centroids_random, reseed_empty_clusters};
use vector_rs::pq::{concat_codebooks, extract_subspace, pad_codebook, ProductQuantizer};
use vector_rs::recall::count_found;

/// Order key of a score.
fn key(x: f32) -> u32 {
    let b = x.to_bits();
    if b & 0x8000_0000 != 0 {
        !b
    } else {
        b | 0x8000_0000
    }
}

fn l2(a: &[f32], b: &[f32]) -> f32 {
    a.iter().zip(b).map(|(x, y)| (x - y) * (x - y)).sum()
}

/// Lloyd iterations over the library's initialization, assignment and
/// reseeding, the means taken here; returns `min(k, n)` centroids.
fn kmeans(data: &[f32], dim: usize, k: usize, iters: usize) -> Vec<f32> {
    let n = data.len() / dim;
    let k = k.min(n);
    let mut cent = init_centroids_random(data, dim, n, k);
    for _ in 0..iters {
        let score = |i: usize, c: usize| key(l2(&data[i * dim..(i + 1) * dim], &cent[c * dim..(c + 1) * dim]));
        let (assign, counts) = assign_clusters(n, k, false, &score);
        let mut sums = vec![0.0f32; k * dim];
        for i in 0..n {
            for d in 0..dim {
                sums[assign[i] * dim + d] += data[i * dim + d];
            }
        }
        for c in 0..k {
            if counts[c] > 0 {
                for d in 0..dim {
                    cent[c * dim + d] = sums[c * dim + d] / counts[c] as f32;
                }
            }
        }
        reseed_empty_clusters(&mut cent, data, &counts, dim, n);
    }
    cent
}

#[test]
fn test_ivf_pq_recall_vs_flat() {
    let dim = 16;
    let n = 100;
    let data: Vec<f32> = (0..n).flat_map(|i| (0..dim).map(move |d| ((i * 7 + d) % 30) as f32)).collect();
    let (nlist, nprobe, m, sub_clusters, iters) = (8usize, 4usize, 4usize, 16usize, 20usize);
    let sub_dim = dim / m;

    // Coarse clustering and residuals.
    let coarse = kmeans(&data, dim, nlist, iters);
    let num_centroids = coarse.len() / dim;
    let row = |i: usize| &data[i * dim..(i + 1) * dim];
    let cent = |c: usize| &coarse[c * dim..(c + 1) * dim];
    let nearest = |v: &[f32]| (0..num_centroids).min_by(|&a, &b| l2(v, cent(a)).partial_cmp(&l2(v, cent(b))).unwrap()).unwrap();
    let assigned: Vec<usize> = (0..n).map(|i| nearest(row(i))).collect();
    let residuals: Vec<f32> = (0..n).flat_map(|i| (0..dim).map(move |d| (i, d))).map(|(i, d)| data[i * dim + d] - coarse[assigned[i] * dim + d]).collect();

    // Product quantizer over the residuals.
    let mut parts = Vec::new();
    for s in 0..m {
        let sub = extract_subspace(&residuals, dim, n, s, sub_dim);
        let mut cb = kmeans(&sub, sub_dim, sub_clusters, iters);
        pad_codebook(&mut cb, sub_clusters * sub_dim, 0.0);
        parts.push(cb);
    }
    let pq = ProductQuantizer::new(dim, m, sub_clusters, concat_codebooks(&parts));

    // Inverted lists of codes.
    let mut index = InvertedIndex::new(num_centroids, m);
    let mut code = vec![0u8; m];
    for i in 0..n {
        let r = &residuals[i * dim..(i + 1) * dim];
        let score = |s: usize, c: usize| key(l2(&r[s * sub_dim..(s + 1) * sub_dim], pq.get_sub_centroid(s, c)));
        pq.encode(&mut code, false, &score);
        index.add(assigned[i], i as u32, &code);
    }

    // Query vector 42, k = 10.
    let query = row(42);
    let k = 10;
    let probes_wanted = plan_ivf_query(dim, dim, k, n, nprobe, num_centroids).unwrap().unwrap();
    let coarse_key = |c: u32| key(l2(query, cent(c as usize)));
    let probes = find_top_centroids(num_centroids, probes_wanted, false, &coarse_key);
    let luts: Vec<Vec<f32>> = probes
        .iter()
        .map(|p| {
            let c = cent(p.id as usize);
            let res: Vec<f32> = (0..dim).map(|d| query[d] - c[d]).collect();
            (0..m)
                .flat_map(|s| (0..sub_clusters).map(move |j| (s, j)))
                .map(|(s, j)| l2(&res[s * sub_dim..(s + 1) * sub_dim], pq.get_sub_centroid(s, j)))
                .collect()
        })
        .collect();
    let entry = |p: usize, i: usize| {
        let list = index.get_list(probes[p].id as usize);
        let c = list.get_code(i, m);
        key((0..m).map(|s| luts[p][s * sub_clusters + c[s] as usize]).sum())
    };
    let res = scan_probed_lists(&index, &probes, k, false, &entry);

    let exact = |id: u32| key(l2(query, row(id as usize)));
    let gt = flat_search(n, dim, dim, k, false, &exact).unwrap();
    let gt_ids: Vec<u32> = gt.iter().map(|r| r.id).collect();
    let res_ids: Vec<u32> = res.iter().map(|r| r.id).collect();
    let recall = count_found(&gt_ids, &res_ids) as f32 / gt_ids.len() as f32;
    assert!(recall >= 0.5, "Expected recall >= 50%, got {:.2}%", recall * 100.0);
}
