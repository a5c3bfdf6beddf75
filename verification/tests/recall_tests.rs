use vector_rs::recall::count_found;

#[test]
fn counts_ids_found_in_other_list() {
    assert_eq!(count_found(&[1, 2, 3, 4], &[4, 9, 2]), 2);
    assert_eq!(count_found(&[], &[1]), 0);
    assert_eq!(count_found(&[5, 5], &[5]), 2);
    assert_eq!(count_found(&[7], &[]), 0);
}
