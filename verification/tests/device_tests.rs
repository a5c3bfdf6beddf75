use vector_rs::collective::CollectiveOps;
use vector_rs::device::DeviceBuffer;
use vector_rs::metric::DistanceMetric;
use vector_rs::topk::SearchResult;

#[test]
fn test_device_buffer_h2d_d2h() {
    let host_data = vec![1.0f32, 2.0, 3.0, 4.0, 5.0];
    let d_buf = DeviceBuffer::from_host(&host_data);

    assert_eq!(d_buf.len(), 5);
    assert!(!d_buf.is_empty());
    assert_eq!(d_buf.as_slice(), &host_data);

    let mut received = vec![0.0f32; 5];
    d_buf.copy_to_host(&mut received);
    assert_eq!(received, host_data);
}

#[test]
fn test_device_buffer_alloc_zeroed() {
    let buf = DeviceBuffer::<f32>::allocate(10);
    assert_eq!(buf.len(), 10);
    assert!(!buf.is_empty());
    assert_eq!(buf.as_slice(), &[0.0f32; 10]);
}

#[test]
fn test_device_buffer_is_empty() {
    let empty_buf = DeviceBuffer::<f32>::allocate(0);
    assert_eq!(empty_buf.len(), 0);
    assert!(empty_buf.is_empty());

    let empty_from_host = DeviceBuffer::from_host(&[] as &[f32]);
    assert_eq!(empty_from_host.len(), 0);
    assert!(empty_from_host.is_empty());
}

#[test]
fn test_device_buffer_mut_slice_and_copy_from_host() {
    let mut buf = DeviceBuffer::<f32>::allocate(3);
    buf.as_mut_slice()[0] = 10.0;
    buf.as_mut_slice()[1] = 20.0;
    buf.as_mut_slice()[2] = 30.0;
    assert_eq!(buf.as_slice(), &[10.0, 20.0, 30.0]);

    buf.copy_from_host(&[100.0, 200.0, 300.0]);
    assert_eq!(buf.as_slice(), &[100.0, 200.0, 300.0]);
}

#[test]
fn test_device_buffer_generic_types() {
    let usize_buf = DeviceBuffer::from_host(&[10usize, 20, 30, 40]);
    assert_eq!(usize_buf.len(), 4);
    assert_eq!(usize_buf.as_slice(), &[10usize, 20, 30, 40]);

    let i32_buf = DeviceBuffer::from_host(&[-1i32, -2, -3]);
    assert_eq!(i32_buf.len(), 3);
    assert_eq!(i32_buf.as_slice(), &[-1i32, -2, -3]);
}

#[test]
fn device_buffer_capacity_is_allocation_size() {
    let buf = DeviceBuffer::<u32>::allocate(7);
    assert_eq!(buf.capacity(), 7);
    let mut b2 = DeviceBuffer::from_host(&[1u32, 2, 3]);
    b2.copy_from_host(&[4, 5, 6]);
    assert_eq!(b2.capacity(), 3);
    assert_eq!(b2.as_slice(), &[4, 5, 6]);
}

#[test]
fn test_broadcast() {
    let mut bufs = vec![
        DeviceBuffer::from_host(&[10.0f32, 20.0]),
        DeviceBuffer::from_host(&[0.0f32, 0.0]),
        DeviceBuffer::from_host(&[0.0f32, 0.0]),
    ];

    CollectiveOps::broadcast(0, &mut bufs);

    assert_eq!(bufs[1].as_slice(), &[10.0, 20.0]);
    assert_eq!(bufs[2].as_slice(), &[10.0, 20.0]);
}

#[test]
fn test_broadcast_from_non_zero_root() {
    let mut bufs = vec![
        DeviceBuffer::from_host(&[0usize, 0]),
        DeviceBuffer::from_host(&[42usize, 99]),
        DeviceBuffer::from_host(&[0usize, 0]),
    ];

    CollectiveOps::broadcast(1, &mut bufs);

    assert_eq!(bufs[0].as_slice(), &[42, 99]);
    assert_eq!(bufs[1].as_slice(), &[42, 99]);
    assert_eq!(bufs[2].as_slice(), &[42, 99]);
}

#[test]
fn test_all_reduce_sum_usize() {
    let mut bufs = vec![
        DeviceBuffer::from_host(&[10usize, 20]),
        DeviceBuffer::from_host(&[30usize, 40]),
        DeviceBuffer::from_host(&[50usize, 60]),
    ];

    CollectiveOps::all_reduce_sum_usize(&mut bufs);

    let expected = [90usize, 120];
    assert_eq!(bufs[0].as_slice(), &expected);
    assert_eq!(bufs[1].as_slice(), &expected);
    assert_eq!(bufs[2].as_slice(), &expected);
}

#[test]
fn test_all_reduce_sum_single_rank() {
    let mut bufs_usize = vec![DeviceBuffer::from_host(&[100usize])];
    CollectiveOps::all_reduce_sum_usize(&mut bufs_usize);
    assert_eq!(bufs_usize[0].as_slice(), &[100usize]);
}

/// Order key of a score: keys compare as the scores do.
fn key(x: f32) -> u32 {
    let b = x.to_bits();
    if b & 0x8000_0000 != 0 {
        !b
    } else {
        b | 0x8000_0000
    }
}

#[test]
fn test_top_k_reduce() {
    let rank0 = vec![SearchResult::new(0, key(1.0)), SearchResult::new(1, key(5.0))];
    let rank1 = vec![SearchResult::new(10, key(0.5)), SearchResult::new(11, key(4.0))];

    let merged = CollectiveOps::top_k_reduce(vec![rank0, rank1], 2, DistanceMetric::L2Squared);
    assert_eq!(merged.len(), 2);
    assert_eq!(merged[0].id, 10);
    assert_eq!(merged[1].id, 0);
}

#[test]
fn test_top_k_reduce_empty_and_zero_k() {
    let res_empty = CollectiveOps::top_k_reduce(Vec::new(), 5, DistanceMetric::L2Squared);
    assert!(res_empty.is_empty());

    let rank0 = vec![SearchResult::new(0, key(1.0))];
    let res_zero_k = CollectiveOps::top_k_reduce(vec![rank0], 0, DistanceMetric::L2Squared);
    assert!(res_zero_k.is_empty());
}

#[test]
fn test_top_k_reduce_cosine_metric() {
    let rank0 = vec![SearchResult::new(0, key(0.85)), SearchResult::new(1, key(0.40))];
    let rank1 = vec![SearchResult::new(2, key(0.95)), SearchResult::new(3, key(0.70))];

    let merged =
        CollectiveOps::top_k_reduce(vec![rank0, rank1], 3, DistanceMetric::CosineSimilarity);
    assert_eq!(merged.len(), 3);
    assert_eq!(merged[0].id, 2);
    assert_eq!(merged[1].id, 0);
    assert_eq!(merged[2].id, 3);
}

#[test]
fn test_top_k_reduce_k_greater_than_total_candidates() {
    let rank0 = vec![SearchResult::new(0, key(2.0))];
    let rank1 = vec![SearchResult::new(1, key(1.0))];

    let merged = CollectiveOps::top_k_reduce(vec![rank0, rank1], 10, DistanceMetric::L2Squared);
    assert_eq!(merged.len(), 2);
    assert_eq!(merged[0].id, 1);
    assert_eq!(merged[1].id, 0);
}

#[test]
fn test_device_buffer_clone_and_debug() {
    let buf1 = DeviceBuffer::from_host(&[1.5f32, 2.5, 3.5]);
    let buf2 = buf1.clone();
    assert_eq!(buf1, buf2);

    let debug_str = format!("{:?}", buf1);
    assert!(debug_str.contains("DeviceBuffer"));
    assert!(debug_str.contains("len: 3"));
}
