use vector_rs::proto::{parse_distance_metric, DistanceMetric};

#[test]
fn test_metric_conversion() {
    assert_eq!(parse_distance_metric(0), DistanceMetric::Unspecified);
    assert_eq!(parse_distance_metric(1), DistanceMetric::L2Squared);
    assert_eq!(parse_distance_metric(2), DistanceMetric::DotProduct);
    assert_eq!(parse_distance_metric(3), DistanceMetric::CosineSimilarity);
    assert_eq!(parse_distance_metric(4), DistanceMetric::Manhattan);
    assert_eq!(parse_distance_metric(5), DistanceMetric::Minkowski);
    assert_eq!(parse_distance_metric(6), DistanceMetric::Chebyshev);
    assert_eq!(parse_distance_metric(7), DistanceMetric::Hamming);
    assert_eq!(parse_distance_metric(8), DistanceMetric::Mahalanobis);
    assert_eq!(parse_distance_metric(9), DistanceMetric::Jaccard);
    assert_eq!(parse_distance_metric(10), DistanceMetric::Hellinger);
    assert_eq!(parse_distance_metric(-1), DistanceMetric::Unspecified);
    assert_eq!(parse_distance_metric(-100), DistanceMetric::Unspecified);
    assert_eq!(parse_distance_metric(11), DistanceMetric::Unspecified);
    assert_eq!(parse_distance_metric(99), DistanceMetric::Unspecified);
}

#[test]
fn test_distance_metric_from_i32_and_str() {
    assert_eq!(DistanceMetric::try_from(1), Ok(DistanceMetric::L2Squared));
    assert_eq!(DistanceMetric::try_from(2), Ok(DistanceMetric::DotProduct));
    assert_eq!(DistanceMetric::try_from(3), Ok(DistanceMetric::CosineSimilarity));
    assert_eq!(DistanceMetric::try_from(4), Ok(DistanceMetric::Manhattan));
    assert_eq!(DistanceMetric::try_from(5), Ok(DistanceMetric::Minkowski));
    assert_eq!(DistanceMetric::try_from(6), Ok(DistanceMetric::Chebyshev));
    assert_eq!(DistanceMetric::try_from(7), Ok(DistanceMetric::Hamming));
    assert_eq!(DistanceMetric::try_from(8), Ok(DistanceMetric::Mahalanobis));
    assert_eq!(DistanceMetric::try_from(9), Ok(DistanceMetric::Jaccard));
    assert_eq!(DistanceMetric::try_from(10), Ok(DistanceMetric::Hellinger));
    assert_eq!(DistanceMetric::try_from(0), Ok(DistanceMetric::Unspecified));
    assert!(DistanceMetric::try_from(99).is_err());

    assert_eq!(DistanceMetric::L2Squared.as_str_name(), "DISTANCE_METRIC_L2_SQUARED");
    assert_eq!(DistanceMetric::DotProduct.as_str_name(), "DISTANCE_METRIC_DOT_PRODUCT");
    assert_eq!(
        DistanceMetric::CosineSimilarity.as_str_name(),
        "DISTANCE_METRIC_COSINE_SIMILARITY"
    );
    assert_eq!(DistanceMetric::Manhattan.as_str_name(), "DISTANCE_METRIC_MANHATTAN");
    assert_eq!(DistanceMetric::Minkowski.as_str_name(), "DISTANCE_METRIC_MINKOWSKI");
    assert_eq!(DistanceMetric::Chebyshev.as_str_name(), "DISTANCE_METRIC_CHEBYSHEV");
    assert_eq!(DistanceMetric::Hamming.as_str_name(), "DISTANCE_METRIC_HAMMING");
    assert_eq!(DistanceMetric::Mahalanobis.as_str_name(), "DISTANCE_METRIC_MAHALANOBIS");
    assert_eq!(DistanceMetric::Jaccard.as_str_name(), "DISTANCE_METRIC_JACCARD");
    assert_eq!(DistanceMetric::Hellinger.as_str_name(), "DISTANCE_METRIC_HELLINGER");
    assert_eq!(DistanceMetric::Unspecified.as_str_name(), "DISTANCE_METRIC_UNSPECIFIED");
}

#[test]
fn wire_values_roundtrip_through_parse() {
    for v in 1..=10 {
        assert_eq!(parse_distance_metric(v).wire_value(), v);
    }
    assert_eq!(DistanceMetric::Unspecified.wire_value(), 0);
}
