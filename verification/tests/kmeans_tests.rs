use vector_rs::kmeans::{assign_clusters, init_centroids_random, plan_kmeans, reseed_empty_clusters};

#[test]
fn initial_centroids_are_distinct_rows() {
    let data: Vec<u32> = (0..20).collect();
    let c = init_centroids_random(&data, 2, 10, 4);
    assert_eq!(c.len(), 8);
    let mut rows: Vec<u32> = c.chunks(2).map(|r| {
        assert_eq!(r[1], r[0] + 1);
        assert_eq!(r[0] % 2, 0);
        r[0]
    }).collect();
    rows.sort();
    rows.dedup();
    assert_eq!(rows.len(), 4);
}

#[test]
fn initial_centroids_k_above_n() {
    let data: Vec<f32> = vec![1.0, 2.0, 3.0];
    let c = init_centroids_random(&data, 1, 3, 10);
    let mut v: Vec<u32> = c.iter().map(|x| x.to_bits()).collect();
    v.sort();
    let mut expected: Vec<u32> = data.iter().map(|x| x.to_bits()).collect();
    expected.sort();
    assert_eq!(v, expected);
    assert!(init_centroids_random(&data, 1, 0, 3).is_empty());
}

#[test]
fn kmeans_plan_shapes() {
    assert_eq!(plan_kmeans(0, 4, 2), None);
    assert_eq!(plan_kmeans(8, 4, 0), None);
    assert_eq!(plan_kmeans(3, 4, 2), None);
    assert_eq!(plan_kmeans(8, 4, 1), Some((2, 1)));
    assert_eq!(plan_kmeans(8, 4, 5), Some((2, 2)));
}

#[test]
fn assignment_counts_add_up() {
    // Squared distances of 5 one-dimensional points to centroids at 0 and 10.
    let points = [0.0f32, 1.0, 9.0, 11.0, 4.0];
    let cents = [0.0f32, 10.0];
    let score = |i: usize, c: usize| {
        let d = points[i] - cents[c];
        (d * d) as u32
    };
    let (assign, counts) = assign_clusters(5, 2, false, &score);
    assert_eq!(assign, vec![0, 0, 1, 1, 0]);
    assert_eq!(counts, vec![3, 2]);
    assert_eq!(counts.iter().sum::<usize>(), 5);
}

#[test]
fn assignment_ties_go_to_first_centroid() {
    let score = |_i: usize, _c: usize| 7u32;
    let (assign, counts) = assign_clusters(3, 4, false, &score);
    assert_eq!(assign, vec![0, 0, 0]);
    assert_eq!(counts, vec![3, 0, 0, 0]);
}

#[test]
fn reseed_touches_only_empty_clusters() {
    let data = vec![1, 1, 2, 2, 3, 3];
    let mut centroids = vec![7, 7, 8, 8, 9, 9];
    reseed_empty_clusters(&mut centroids, &data, &[2, 0, 1], 2, 3);
    assert_eq!(&centroids[0..2], &[7, 7]);
    assert_eq!(&centroids[4..6], &[9, 9]);
    let row = &centroids[2..4];
    assert!(row == [1, 1] || row == [2, 2] || row == [3, 3]);
}
