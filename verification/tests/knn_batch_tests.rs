use vector_rs::knn_batch::{to_column_major, unpack_topk};
use vector_rs::topk::SearchResult;

#[test]
fn column_major_transposes_rows() {
    // Three rows of width two.
    let data = vec![1, 2, 3, 4, 5, 6];
    assert_eq!(to_column_major(&data, 3, 2), vec![1, 3, 5, 2, 4, 6]);
    assert!(to_column_major(&data, 0, 2).is_empty());
}

#[test]
fn topk_slots_split_per_query_and_skip_empty() {
    let indices = vec![4, 1, -1, 7, -1, -1];
    let keys = vec![10, 20, 0, 5, 0, 0];
    let hits = unpack_topk(&indices, &keys, 3, 2);
    assert_eq!(
        hits,
        vec![
            vec![SearchResult::new(4, 10), SearchResult::new(1, 20)],
            vec![SearchResult::new(7, 5)],
            vec![],
        ]
    );
}
