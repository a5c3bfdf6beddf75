//! Choice of the instruction-set backend for distance kernels.
//!
//! Which features the processor has is found out by the caller; the choice
//! made from them is here.

use vstd::prelude::*;

verus! {

/// Instruction-set backend of the distance kernels.
#[derive(Debug, Clone, Copy, PartialEq, Eq, Structural)]
pub enum SimdBackend {
    /// x86 AVX-512F, 16 single-precision lanes.
    Avx512,
    /// x86 AVX2 with FMA, 8 lanes.
    Avx2,
    /// AArch64 NEON, 4 lanes.
    Neon,
    /// Portable scalar code.
    Scalar,
}

impl SimdBackend {
    /// Display name of the backend.
    pub fn name(&self) -> (s: &'static str)
        ensures
            s@ == match *self {
                SimdBackend::Avx512 => "AVX-512F"@,
                SimdBackend::Avx2 => "AVX2+FMA"@,
                SimdBackend::Neon => "NEON"@,
                SimdBackend::Scalar => "Scalar"@,
            },
    {
        match self {
            SimdBackend::Avx512 => "AVX-512F",
            SimdBackend::Avx2 => "AVX2+FMA",
            SimdBackend::Neon => "NEON",
            SimdBackend::Scalar => "Scalar",
        }
    }
}

/// What the processor offers.
#[derive(Debug, Clone, Copy, PartialEq, Eq, Structural)]
pub struct CpuFeatures {
    /// The target is x86 or x86_64.
    pub x86: bool,
    /// The target is AArch64.
    pub aarch64: bool,
    pub avx512f: bool,
    pub avx2: bool,
    pub fma: bool,
}

impl CpuFeatures {
    /// A processor with no vector extension known.
    pub fn none() -> (f: Self)
        ensures
            !f.x86 && !f.aarch64 && !f.avx512f && !f.avx2 && !f.fma,
    {
        CpuFeatures { x86: false, aarch64: false, avx512f: false, avx2: false, fma: false }
    }
}

/// The backends that can run on a processor with features `f`.
pub open spec fn supported(b: SimdBackend, f: CpuFeatures) -> bool {
    match b {
        SimdBackend::Avx512 => f.x86 && f.avx512f,
        SimdBackend::Avx2 => f.x86 && f.avx2 && f.fma,
        SimdBackend::Neon => f.aarch64,
        SimdBackend::Scalar => true,
    }
}

/// The preferred backend: AVX-512F, then AVX2 with FMA, then NEON, then scalar.
pub open spec fn spec_best_backend(f: CpuFeatures) -> SimdBackend {
    if f.x86 && f.avx512f {
        SimdBackend::Avx512
    } else if f.x86 && f.avx2 && f.fma {
        SimdBackend::Avx2
    } else if f.aarch64 {
        SimdBackend::Neon
    } else {
        SimdBackend::Scalar
    }
}

/// Picks the best backend that the features allow.
pub fn detect_best_backend(f: CpuFeatures) -> (b: SimdBackend)
    ensures
        b == spec_best_backend(f),
        supported(b, f),
{
    if f.x86 && f.avx512f {
        SimdBackend::Avx512
    } else if f.x86 && f.avx2 && f.fma {
        SimdBackend::Avx2
    } else if f.aarch64 {
        SimdBackend::Neon
    } else {
        SimdBackend::Scalar
    }
}

/// A distance engine bound to one backend.
#[derive(Debug, Clone, Copy, PartialEq, Eq, Structural)]
pub struct DistanceEngine {
    backend: SimdBackend,
}

impl DistanceEngine {
    pub closed spec fn spec_backend(&self) -> SimdBackend {
        self.backend
    }

    /// The engine on the best backend the features allow.
    pub fn auto(f: CpuFeatures) -> (e: Self)
        ensures
            e.spec_backend() == spec_best_backend(f),
    {
        DistanceEngine { backend: detect_best_backend(f) }
    }

    /// The engine on the scalar backend.
    pub fn scalar() -> (e: Self)
        ensures
            e.spec_backend() == SimdBackend::Scalar,
    {
        DistanceEngine { backend: SimdBackend::Scalar }
    }

    /// The engine on `backend`, which the processor supports.
    pub fn with_backend(backend: SimdBackend, f: CpuFeatures) -> (e: Self)
        requires
            supported(backend, f),
        ensures
            e.spec_backend() == backend,
    {
        DistanceEngine { backend }
    }

    /// The backend in use.
    pub fn backend(&self) -> (b: SimdBackend)
        ensures
            b == self.spec_backend(),
    {
        self.backend
    }
}

} // verus!
