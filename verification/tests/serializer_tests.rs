use vector_rs::centroid_file::{decode_centroid_file, encode_centroid_file, CENTROID_FILE_MAGIC};
use vector_rs::error::{HeaderFault, VectorIndexError};
use vector_rs::graph::HnswGraph;
use vector_rs::hnsw_config::HnswConfig;
use vector_rs::hnsw_file::{HnswSerializer, HNSW_MAGIC};
use vector_rs::inverted_list::InvertedIndex;
use vector_rs::ivf_config::IvfPqConfig;
use vector_rs::ivf_file::{IvfPqSerializer, IVF_PQ_MAGIC, IVF_PQ_VERSION};
use vector_rs::metric::DistanceMetric;

fn bits(v: &[f32]) -> Vec<u32> {
    v.iter().map(|x| x.to_bits()).collect()
}

#[test]
fn test_serializer_round_trip() {
    let config = HnswConfig::new(8, 50, 30);
    let mut graph = HnswGraph::new(config, 3);
    graph.init_node(0, 1);
    graph.init_node(1, 0);
    graph.init_node(2, 0);

    graph.entry_point = Some(0);
    graph.max_level = 1;

    graph.nodes[0].layers[0].push(1);
    graph.nodes[0].layers[0].push(2);
    graph.nodes[1].layers[0].push(0);
    graph.nodes[2].layers[0].push(0);

    let bytes = HnswSerializer::encode_graph(&graph);
    let loaded = HnswSerializer::decode_graph(&bytes).unwrap();
    assert_eq!(loaded.config, config);
    assert_eq!(loaded.entry_point, Some(0));
    assert_eq!(loaded.max_level, 1);
    assert_eq!(loaded.nodes.len(), 3);

    assert_eq!(loaded.nodes[0].layers[0], vec![1, 2]);
    assert_eq!(loaded.nodes[1].layers[0], vec![0]);
    assert_eq!(loaded.nodes[2].layers[0], vec![0]);
}

#[test]
fn test_serializer_empty_graph() {
    let config = HnswConfig::default();
    let graph = HnswGraph::new(config, 0);

    let bytes = HnswSerializer::encode_graph(&graph);
    let loaded = HnswSerializer::decode_graph(&bytes).unwrap();
    assert_eq!(loaded.config, config);
    assert_eq!(loaded.entry_point, None);
    assert_eq!(loaded.nodes.len(), 0);
}

#[test]
fn test_serializer_invalid_magic() {
    let result = HnswSerializer::decode_graph(&[0u8; 32]);
    assert!(matches!(
        result,
        Err(VectorIndexError::InvalidHeader { reason: HeaderFault::HnswMagic { found: 0 } })
    ));
}

#[test]
fn test_serializer_invalid_version() {
    let mut buf = Vec::new();
    buf.extend_from_slice(&HNSW_MAGIC.to_le_bytes());
    buf.extend_from_slice(&999u32.to_le_bytes());
    let result = HnswSerializer::decode_graph(&buf);
    assert!(matches!(
        result,
        Err(VectorIndexError::InvalidHeader { reason: HeaderFault::HnswVersion { found: 999 } })
    ));
}

#[test]
fn hnsw_truncated_file_ends_early() {
    let config = HnswConfig::new(4, 10, 10);
    let mut graph = HnswGraph::new(config, 2);
    graph.init_node(0, 0);
    graph.init_node(1, 0);
    graph.nodes[0].layers[0].push(1);
    let bytes = HnswSerializer::encode_graph(&graph);
    for cut in [0usize, 4, 10, 20, bytes.len() - 1] {
        assert!(matches!(
            HnswSerializer::decode_graph(&bytes[..cut]),
            Err(VectorIndexError::UnexpectedEof)
        ));
    }
}

#[test]
fn test_serializer_roundtrip() {
    let dimension = 4;
    let config = IvfPqConfig::new(2, 1, 2).with_sub_clusters(2).with_max_kmeans_iters(10);

    let coarse_centroids = bits(&[0.0, 0.0, 0.0, 0.0, 1.0, 1.0, 1.0, 1.0]);
    let codebooks = bits(&[0.0, 0.0, 0.5, 0.5, 0.0, 0.0, 0.5, 0.5]);

    let mut inv_index = InvertedIndex::new(2, 2);
    inv_index.add(0, 10, &[0, 1]);
    inv_index.add(1, 20, &[1, 0]);

    let bytes = IvfPqSerializer::encode(
        &config,
        &coarse_centroids,
        &codebooks,
        &inv_index,
        dimension,
        DistanceMetric::L2Squared,
    );
    let loaded = IvfPqSerializer::decode(&bytes).unwrap();

    assert_eq!(loaded.config, config);
    assert_eq!(loaded.coarse_centroids, coarse_centroids);
    assert_eq!(loaded.codebooks, codebooks);
    assert_eq!(loaded.inverted_index, inv_index);
    assert_eq!(loaded.dimension, dimension);
    assert_eq!(loaded.metric, DistanceMetric::L2Squared);
}

#[test]
fn test_serializer_metrics_roundtrip() {
    let dimension = 2;
    let config = IvfPqConfig::new(1, 1, 1).with_sub_clusters(1);
    let coarse_centroids = bits(&[1.0, 2.0]);
    let codebooks = bits(&[1.0, 2.0]);
    let mut inv_index = InvertedIndex::new(1, 1);
    inv_index.add(0, 1, &[0]);

    for metric in [DistanceMetric::DotProduct, DistanceMetric::CosineSimilarity] {
        let bytes = IvfPqSerializer::encode(
            &config,
            &coarse_centroids,
            &codebooks,
            &inv_index,
            dimension,
            metric,
        );
        let loaded = IvfPqSerializer::decode(&bytes).unwrap();
        assert_eq!(loaded.metric, metric);
    }
}

#[test]
fn ivf_serializer_invalid_magic() {
    let res = IvfPqSerializer::decode(b"BADMAGIC12345678");
    assert!(matches!(
        res,
        Err(VectorIndexError::InvalidHeader { reason: HeaderFault::IvfPqMagic { .. } })
    ));
}

#[test]
fn ivf_serializer_invalid_version() {
    let mut data = Vec::new();
    data.extend_from_slice(&IVF_PQ_MAGIC.to_le_bytes());
    data.extend_from_slice(&999u32.to_le_bytes());
    let res = IvfPqSerializer::decode(&data);
    assert!(matches!(
        res,
        Err(VectorIndexError::InvalidHeader { reason: HeaderFault::IvfPqVersion { found: 999 } })
    ));
}

#[test]
fn test_serializer_invalid_metric_code() {
    let mut data = Vec::new();
    data.extend_from_slice(&IVF_PQ_MAGIC.to_le_bytes());
    data.extend_from_slice(&IVF_PQ_VERSION.to_le_bytes());
    data.push(99);
    let res = IvfPqSerializer::decode(&data);
    assert!(matches!(
        res,
        Err(VectorIndexError::InvalidHeader { reason: HeaderFault::MetricCode { found: 99 } })
    ));
}

#[test]
fn test_centroid_file_roundtrip() {
    let dimension = 4;
    let k = 2;
    let centroids = bits(&[1.0, 2.0, 3.0, 4.0, 5.0, 6.0, 7.0, 8.0]);
    let metric = DistanceMetric::L2Squared;
    let iterations = 15;
    let inertia = 42.5f32;

    let bytes =
        encode_centroid_file(&centroids, dimension, k, metric, iterations, inertia.to_bits());
    let loaded = decode_centroid_file(&bytes).unwrap();
    assert_eq!(loaded.centroids, centroids);
    assert_eq!(loaded.dimension, dimension);
    assert_eq!(loaded.k, k);
    assert_eq!(loaded.metric, metric);
    assert_eq!(loaded.iterations, iterations);
    assert!((f32::from_bits(loaded.inertia_bits) - inertia).abs() < 1e-6);
}

#[test]
fn test_centroid_file_all_metrics() {
    let centroids = bits(&[1.0, 2.0]);
    for metric in [
        DistanceMetric::L2Squared,
        DistanceMetric::DotProduct,
        DistanceMetric::CosineSimilarity,
        DistanceMetric::Manhattan,
        DistanceMetric::Minkowski,
        DistanceMetric::Chebyshev,
        DistanceMetric::Hamming,
        DistanceMetric::Mahalanobis,
        DistanceMetric::Jaccard,
        DistanceMetric::Hellinger,
    ] {
        let bytes = encode_centroid_file(&centroids, 2, 1, metric, 1, 0);
        let loaded = decode_centroid_file(&bytes).unwrap();
        assert_eq!(loaded.metric, metric, "Metric roundtrip failed for {:?}", metric);
    }
}

#[test]
fn test_centroid_file_invalid_magic() {
    let res = decode_centroid_file(b"NOTCENTR12345678");
    assert!(matches!(
        res,
        Err(VectorIndexError::InvalidHeader { reason: HeaderFault::CentroidMagic { .. } })
    ));
}

#[test]
fn centroid_file_layout_and_short_data() {
    let bytes = encode_centroid_file(&[7, 8], 2, 1, DistanceMetric::Jaccard, 3, 9);
    assert_eq!(bytes.len(), 29 + 8);
    assert_eq!(&bytes[0..8], &CENTROID_FILE_MAGIC.to_le_bytes());
    assert_eq!(bytes[12], 8);
    assert!(matches!(
        decode_centroid_file(&bytes[..bytes.len() - 1]),
        Err(VectorIndexError::UnexpectedEof)
    ));
}
