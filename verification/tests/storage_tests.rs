use vector_rs::error::{HeaderFault, VectorIndexError};
use vector_rs::storage::{
    check_dimensions, flat_vector_count, open_storage, storage_header, vector_range, HeapStorage,
    StorageLayout, STORAGE_MAGIC,
};

#[test]
fn test_new_and_push() {
    let mut storage = HeapStorage::new(3);
    assert_eq!(storage.len(), 0);
    assert!(storage.is_empty());

    storage.push(&[1.0f32, 2.0, 3.0]).unwrap();
    assert_eq!(storage.len(), 1);
    assert!(!storage.is_empty());
    assert_eq!(storage.get(0), &[1.0, 2.0, 3.0]);

    storage.push(&[4.0, 5.0, 6.0]).unwrap();
    assert_eq!(storage.len(), 2);
    assert_eq!(storage.get(1), &[4.0, 5.0, 6.0]);
}

#[test]
fn test_push_wrong_dimension() {
    let mut storage = HeapStorage::new(3);
    let result = storage.push(&[1.0f32, 2.0]);
    assert!(result.is_err());
    assert_eq!(result, Err(VectorIndexError::DimensionMismatch { expected: 3, got: 2 }));
    assert_eq!(storage.len(), 0);
}

#[test]
fn test_from_raw() {
    let data = vec![1.0f32, 2.0, 3.0, 4.0, 5.0, 6.0];
    let storage = HeapStorage::from_raw(data, 3).unwrap();
    assert_eq!(storage.len(), 2);
    assert_eq!(storage.dimension(), 3);
    assert_eq!(storage.get(0), &[1.0, 2.0, 3.0]);
    assert_eq!(storage.get(1), &[4.0, 5.0, 6.0]);
}

#[test]
fn test_from_raw_invalid() {
    let data = vec![1.0f32, 2.0, 3.0, 4.0, 5.0];
    let result = HeapStorage::from_raw(data, 3);
    assert!(result.is_err());
    let zero = HeapStorage::from_raw(vec![1.0f32], 0);
    assert!(matches!(zero, Err(VectorIndexError::DimensionMismatch { expected: 1, got: 0 })));
}

#[test]
fn test_extend_from_flat() {
    let mut storage = HeapStorage::new(2);
    storage.push(&[1.0f32, 2.0]).unwrap();
    storage.extend_from_flat(&[3.0, 4.0, 5.0, 6.0]).unwrap();
    assert_eq!(storage.len(), 3);
    assert_eq!(storage.get(2), &[5.0, 6.0]);
    assert_eq!(
        storage.extend_from_flat(&[1.0]),
        Err(VectorIndexError::DimensionMismatch { expected: 2, got: 1 })
    );
    assert_eq!(storage.len(), 3);
}

#[test]
fn test_with_capacity() {
    let storage: HeapStorage<f32> = HeapStorage::with_capacity(128, 1000);
    assert_eq!(storage.dimension(), 128);
    assert_eq!(storage.len(), 0);
}

#[test]
fn heap_test_as_raw_slice() {
    let data = vec![1.0f32, 2.0, 3.0, 4.0];
    let storage = HeapStorage::from_raw(data.clone(), 2).unwrap();
    assert_eq!(storage.as_raw_slice(), &data[..]);
}

#[test]
fn test_high_dimensional() {
    let dim = 768;
    let mut storage = HeapStorage::new(dim);
    let vec1: Vec<f32> = (0..dim).map(|i| i as f32 * 0.01).collect();
    let vec2: Vec<f32> = (0..dim).map(|i| i as f32 * 0.02).collect();
    storage.push(&vec1).unwrap();
    storage.push(&vec2).unwrap();
    assert_eq!(storage.get(0), &vec1[..]);
    assert_eq!(storage.get(1), &vec2[..]);
}

fn file_with_header(n: u64, d: u64, data_bytes: usize) -> Vec<u8> {
    let mut b = storage_header(n, d);
    b.extend(std::iter::repeat(0u8).take(data_bytes));
    b
}

#[test]
fn storage_header_layout() {
    let h = storage_header(2, 3);
    assert_eq!(h.len(), 24);
    assert_eq!(&h[0..8], &STORAGE_MAGIC.to_le_bytes());
    assert_eq!(&h[8..16], &2u64.to_le_bytes());
    assert_eq!(&h[16..24], &3u64.to_le_bytes());
}

#[test]
fn open_storage_accepts_complete_file() {
    let b = file_with_header(2, 3, 24);
    assert_eq!(open_storage(&b), Ok(StorageLayout { num_vectors: 2, dimension: 3 }));
    let empty = file_with_header(0, 5, 0);
    assert_eq!(open_storage(&empty), Ok(StorageLayout { num_vectors: 0, dimension: 5 }));
}

#[test]
fn open_storage_refusals() {
    assert_eq!(
        open_storage(&[0u8; 10]),
        Err(VectorIndexError::InvalidHeader { reason: HeaderFault::FileTooSmall { size: 10 } })
    );
    let mut bad = file_with_header(1, 1, 4);
    bad[0] ^= 0xFF;
    assert!(matches!(
        open_storage(&bad),
        Err(VectorIndexError::InvalidHeader { reason: HeaderFault::StorageMagic { .. } })
    ));
    let short = file_with_header(2, 3, 20);
    assert_eq!(
        open_storage(&short),
        Err(VectorIndexError::FileSizeMismatch { expected: 48, got: 44 })
    );
    let huge = file_with_header(u64::MAX, 2, 0);
    assert_eq!(
        open_storage(&huge),
        Err(VectorIndexError::FileSizeMismatch { expected: u64::MAX, got: 24 })
    );
}

#[test]
fn test_dimension_mismatch_on_create() {
    let a = [1.0f32, 2.0, 3.0];
    let b = [1.0f32, 2.0];
    let vectors: Vec<&[f32]> = vec![&a, &b];
    assert_eq!(
        check_dimensions(&vectors, 3),
        Err(VectorIndexError::DimensionMismatch { expected: 3, got: 2 })
    );
    let ok: Vec<&[f32]> = vec![&a, &a];
    assert_eq!(check_dimensions(&ok, 3), Ok(()));
}

#[test]
fn flat_buffer_vector_counts() {
    assert_eq!(flat_vector_count(12, 3), Ok(4));
    assert_eq!(
        flat_vector_count(13, 3),
        Err(VectorIndexError::DimensionMismatch { expected: 3, got: 1 })
    );
    assert_eq!(vector_range(2, 5, 4), (8, 12));
}
