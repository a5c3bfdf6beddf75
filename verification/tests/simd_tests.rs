use vector_rs::simd::{detect_best_backend, CpuFeatures, DistanceEngine, SimdBackend};

#[test]
fn test_auto_detection() {
    let engine = DistanceEngine::auto(CpuFeatures::none());
    let backend = engine.backend();
    println!("Detected SIMD backend: {}", backend.name());
    assert!(matches!(
        backend,
        SimdBackend::Avx512 | SimdBackend::Avx2 | SimdBackend::Neon | SimdBackend::Scalar
    ));
}

#[test]
fn test_scalar_engine() {
    let engine = DistanceEngine::scalar();
    assert_eq!(engine.backend(), SimdBackend::Scalar);
}

#[test]
fn backend_preference_order() {
    let mut f = CpuFeatures::none();
    assert_eq!(detect_best_backend(f), SimdBackend::Scalar);
    f.aarch64 = true;
    assert_eq!(detect_best_backend(f), SimdBackend::Neon);
    let mut x = CpuFeatures::none();
    x.x86 = true;
    x.avx2 = true;
    assert_eq!(detect_best_backend(x), SimdBackend::Scalar);
    x.fma = true;
    assert_eq!(detect_best_backend(x), SimdBackend::Avx2);
    x.avx512f = true;
    assert_eq!(detect_best_backend(x), SimdBackend::Avx512);
    assert_eq!(SimdBackend::Avx2.name(), "AVX2+FMA");
    assert_eq!(SimdBackend::Avx512.name(), "AVX-512F");
}

#[test]
fn engine_with_supported_backend() {
    let mut f = CpuFeatures::none();
    f.x86 = true;
    f.avx2 = true;
    f.fma = true;
    let e = DistanceEngine::with_backend(SimdBackend::Avx2, f);
    assert_eq!(e.backend(), SimdBackend::Avx2);
    assert_eq!(DistanceEngine::auto(f).backend(), SimdBackend::Avx2);
}
