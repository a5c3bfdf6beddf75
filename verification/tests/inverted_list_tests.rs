use vector_rs::inverted_list::{InvertedIndex, InvertedList};

#[test]
fn test_inverted_list_push_and_get() {
    let num_subvectors = 4;
    let mut list = InvertedList::with_capacity(10, num_subvectors);

    list.push(101, &[1, 2, 3, 4]);
    list.push(102, &[5, 6, 7, 8]);

    assert_eq!(list.len(), 2);
    assert_eq!(list.ids, vec![101, 102]);
    assert_eq!(list.get_code(0, num_subvectors), &[1, 2, 3, 4]);
    assert_eq!(list.get_code(1, num_subvectors), &[5, 6, 7, 8]);
}

#[test]
fn test_inverted_index() {
    let mut inv_index = InvertedIndex::new(4, 2);

    inv_index.add(0, 0, &[10, 20]);
    inv_index.add(0, 1, &[11, 21]);
    inv_index.add(2, 2, &[30, 40]);

    assert_eq!(inv_index.total_vectors(), 3);
    assert_eq!(inv_index.nlist(), 4);
    assert_eq!(inv_index.get_list(0).len(), 2);
    assert_eq!(inv_index.get_list(1).len(), 0);
    assert_eq!(inv_index.get_list(2).len(), 1);
    assert_eq!(inv_index.get_list(3).len(), 0);
}

#[test]
fn test_inverted_list_empty_and_default() {
    let list1 = InvertedList::new();
    let list2 = InvertedList::default();
    assert_eq!(list1, list2);
    assert!(list1.is_empty());
    assert_eq!(list1.len(), 0);

    let debug_str = format!("{:?}", list1);
    assert!(debug_str.contains("InvertedList"));

    let cloned = list1.clone();
    assert_eq!(cloned, list1);
}

#[test]
fn test_inverted_index_accessors_and_clone() {
    let mut inv_index = InvertedIndex::new(3, 2);
    assert_eq!(inv_index.nlist(), 3);
    assert_eq!(inv_index.total_vectors(), 0);

    inv_index.add(1, 42, &[7, 8]);
    assert_eq!(inv_index.total_vectors(), 1);
    assert_eq!(inv_index.get_list(1).ids, vec![42]);
    assert_eq!(inv_index.get_list(1).get_code(0, 2), &[7, 8]);

    let cloned = inv_index.clone();
    assert_eq!(cloned, inv_index);
}
