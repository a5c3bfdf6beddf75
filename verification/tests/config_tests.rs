use vector_rs::hnsw_config::{
    HnswConfig, DEFAULT_EF_CONSTRUCTION, DEFAULT_EF_SEARCH, DEFAULT_M, DEFAULT_M0,
};
use vector_rs::ivf_config::IvfPqConfig;

#[test]
fn test_default_config() {
    let config = HnswConfig::default();
    assert_eq!(config.m, DEFAULT_M);
    assert_eq!(config.m0, DEFAULT_M0);
    assert_eq!(config.ef_construction, DEFAULT_EF_CONSTRUCTION);
    assert_eq!(config.ef_search, DEFAULT_EF_SEARCH);
    assert!(config.use_heuristic);
    assert!(config.validate().is_ok());
}

#[test]
fn test_custom_config() {
    let config = HnswConfig::new(32, 200, 100).with_m0(64).with_heuristic(false);

    assert_eq!(config.m, 32);
    assert_eq!(config.m0, 64);
    assert_eq!(config.ef_construction, 200);
    assert_eq!(config.ef_search, 100);
    assert!(!config.use_heuristic);
    assert!(config.validate().is_ok());
}

#[test]
fn test_config_builder_setters() {
    let config = HnswConfig::default()
        .with_ef_construction(150)
        .with_ef_search(75)
        .with_heuristic(false);

    assert_eq!(config.ef_construction, 150);
    assert_eq!(config.ef_search, 75);
    assert!(!config.use_heuristic);
}

#[test]
fn test_validate_method_error_cases() {
    let mut bad_config = HnswConfig::default();
    bad_config.m = 1;
    assert!(bad_config.validate().is_err());

    let mut bad_config2 = HnswConfig::default();
    bad_config2.m0 = 5;
    assert!(bad_config2.validate().is_err());

    let mut bad_config3 = HnswConfig::default();
    bad_config3.ef_construction = 0;
    assert!(bad_config3.validate().is_err());

    let mut bad_config4 = HnswConfig::default();
    bad_config4.ef_search = 0;
    assert!(bad_config4.validate().is_err());
}

#[test]
fn config_test_default_config() {
    let config = IvfPqConfig::default();
    assert_eq!(config.nlist, 64);
    assert_eq!(config.nprobe, 8);
    assert_eq!(config.num_subvectors, 8);
    assert_eq!(config.sub_clusters, 256);
    assert_eq!(config.max_kmeans_iters, 25);
    assert_eq!(config.kmeans_tolerance_bits, 1e-4f32.to_bits());
    assert!(config.validate(128).is_ok());
}

#[test]
fn test_custom_builders() {
    let config = IvfPqConfig::new(32, 4, 4)
        .with_sub_clusters(64)
        .with_max_kmeans_iters(15)
        .with_kmeans_tolerance_bits(1e-5f32.to_bits())
        .with_max_train_points(Some(5000));

    assert_eq!(config.nlist, 32);
    assert_eq!(config.nprobe, 4);
    assert_eq!(config.num_subvectors, 4);
    assert_eq!(config.sub_clusters, 64);
    assert_eq!(config.max_kmeans_iters, 15);
    assert_eq!(f32::from_bits(config.kmeans_tolerance_bits), 1e-5);
    assert_eq!(config.max_train_points, Some(5000));
    assert_eq!(config.sub_dimension(128), 32);
    assert!(config.validate(128).is_ok());
}

#[test]
fn test_validation_errors() {
    assert!(IvfPqConfig::new(0, 1, 4).validate(128).is_err());
    assert!(IvfPqConfig::new(10, 0, 4).validate(128).is_err());
    assert!(IvfPqConfig::new(10, 11, 4).validate(128).is_err());
    assert!(IvfPqConfig::new(10, 5, 0).validate(128).is_err());
    assert!(IvfPqConfig::new(10, 5, 5).validate(128).is_err());
    assert!(IvfPqConfig::new(10, 5, 4).with_sub_clusters(0).validate(128).is_err());
    assert!(IvfPqConfig::new(10, 5, 4).with_sub_clusters(300).validate(128).is_err());
    assert!(IvfPqConfig::new(10, 5, 4).with_max_kmeans_iters(0).validate(128).is_err());
    assert!(IvfPqConfig::new(10, 5, 4)
        .with_kmeans_tolerance_bits((-1.0f32).to_bits())
        .validate(128)
        .is_err());
}

#[test]
fn test_config_traits() {
    let cfg1 = IvfPqConfig::new(16, 2, 4);
    let cfg2 = cfg1.clone();
    assert_eq!(cfg1, cfg2);
    let debug_str = format!("{:?}", cfg1);
    assert!(debug_str.contains("IvfPqConfig"));
    assert!(debug_str.contains("nlist: 16"));
}

#[test]
fn test_sub_dimension_high_dim() {
    let config = IvfPqConfig::new(64, 8, 16);
    assert_eq!(config.sub_dimension(1536), 96);
    assert!(config.validate(1536).is_ok());
}

#[test]
fn tolerance_sign_classes() {
    let base = IvfPqConfig::new(10, 5, 4);
    assert!(base.with_kmeans_tolerance_bits(0.0f32.to_bits()).validate(128).is_ok());
    assert!(base.with_kmeans_tolerance_bits((-0.0f32).to_bits()).validate(128).is_ok());
    assert!(base.with_kmeans_tolerance_bits(f32::NAN.to_bits()).validate(128).is_ok());
    assert!(base
        .with_kmeans_tolerance_bits(f32::NEG_INFINITY.to_bits())
        .validate(128)
        .is_err());
}
