//! Error types of the index and of the GPU device layer.

use vstd::prelude::*;

verus! {

/// Why a configuration was rejected.
#[allow(inconsistent_fields)]
#[derive(Debug, Clone, Copy, PartialEq, Eq, Structural)]
pub enum ConfigFault {
    /// HNSW `m` below 2.
    MTooSmall { m: usize },
    /// HNSW `m0` below `m`.
    M0BelowM { m0: usize, m: usize },
    /// HNSW `ef_construction` is 0.
    EfConstructionZero,
    /// HNSW `ef_search` is 0.
    EfSearchZero,
    /// IVF `nlist` is 0.
    NlistZero,
    /// IVF `nprobe` is 0.
    NprobeZero,
    /// IVF `nprobe` above `nlist`.
    NprobeAboveNlist { nprobe: usize, nlist: usize },
    /// IVF `num_subvectors` is 0.
    NumSubvectorsZero,
    /// The dimension is not a multiple of `num_subvectors`.
    DimensionNotDivisible { dimension: usize, num_subvectors: usize },
    /// IVF `sub_clusters` outside 1..=256.
    SubClustersOutOfRange { sub_clusters: usize },
    /// IVF `max_kmeans_iters` is 0.
    MaxItersZero,
    /// IVF `kmeans_tolerance` is negative.
    NegativeTolerance,
}

/// Why a file header was rejected.
#[allow(inconsistent_fields)]
#[derive(Debug, Clone, Copy, PartialEq, Eq, Structural)]
pub enum HeaderFault {
    /// The HNSW graph file does not start with the HNSW magic number.
    HnswMagic { found: u64 },
    /// The HNSW graph file has an unsupported version.
    HnswVersion { found: u32 },
    /// The IVF-PQ file does not start with the IVF-PQ magic number.
    IvfPqMagic { found: u64 },
    /// The IVF-PQ file has an unsupported version.
    IvfPqVersion { found: u32 },
    /// The centroid file does not start with the centroid magic number.
    CentroidMagic { found: u64 },
    /// The centroid file has an unsupported version.
    CentroidVersion { found: u32 },
    /// A metric byte that names no metric.
    MetricCode { found: u8 },
    /// The vector storage file does not start with the storage magic number.
    StorageMagic { found: u64 },
    /// The vector storage file is shorter than its header.
    FileTooSmall { size: u64 },
    /// An HNSW configuration that fails validation.
    Config { fault: ConfigFault },
}

/// Errors of index operations.
#[allow(inconsistent_fields)]
#[derive(Debug, Clone, Copy, PartialEq, Eq, Structural)]
pub enum VectorIndexError {
    /// Input ended before a value could be read in full.
    UnexpectedEof,
    /// A vector of the wrong length.
    DimensionMismatch { expected: usize, got: usize },
    /// The index or storage holds no vector.
    EmptyIndex,
    /// A file header that cannot be accepted.
    InvalidHeader { reason: HeaderFault },
    /// A storage file shorter than its header says.
    FileSizeMismatch { expected: u64, got: u64 },
    /// An invalid index configuration.
    InvalidConfig { reason: ConfigFault },
}

/// Errors of GPU device setup.
#[derive(Debug, Clone, PartialEq, Eq)]
pub enum CudaError {
    /// More GPUs were requested than are present.
    InsufficientDevices { requested: usize, available: usize },
    /// No device has this ordinal.
    DeviceNotFound { ordinal: usize },
    /// The driver reported an error.
    DriverError(String),
    /// No CUDA-capable device is present.
    HardwareNotAvailable,
    /// An invalid argument or configuration.
    InvalidConfig(String),
}

/// Checks a request for `requested` GPUs against the `available` count.
pub fn check_gpu_request(requested: usize, available: usize) -> (r: Result<(), CudaError>)
    ensures
        requested <= available ==> r is Ok,
        requested > available ==> r == Err::<(), CudaError>(
            CudaError::InsufficientDevices { requested, available },
        ),
{
    if requested > available {
        Err(CudaError::InsufficientDevices { requested, available })
    } else {
        Ok(())
    }
}

/// Checks that a device with `ordinal` exists among `available` devices.
pub fn check_device_ordinal(ordinal: usize, available: usize) -> (r: Result<(), CudaError>)
    ensures
        ordinal < available ==> r is Ok,
        ordinal >= available ==> r == Err::<(), CudaError>(CudaError::DeviceNotFound { ordinal }),
{
    if ordinal >= available {
        Err(CudaError::DeviceNotFound { ordinal })
    } else {
        Ok(())
    }
}

} // verus!
