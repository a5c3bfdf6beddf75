//! Parameters of an IVF-PQ index and their validation.
//!
//! The k-means tolerance is kept as the IEEE-754 single-precision bit
//! pattern of the value; only its sign class matters to validation.

use crate::error::{ConfigFault, VectorIndexError};
use vstd::prelude::*;

verus! {

/// Default number of coarse clusters.
pub const DEFAULT_NLIST: usize = 64;

/// Default number of clusters probed per query.
pub const DEFAULT_NPROBE: usize = 8;

/// Default number of PQ sub-vectors.
pub const DEFAULT_NUM_SUBVECTORS: usize = 8;

/// Default number of centroids per sub-space codebook.
pub const DEFAULT_SUB_CLUSTERS: usize = 256;

/// Default maximum number of k-means iterations.
pub const DEFAULT_MAX_KMEANS_ITERS: usize = 25;

/// Bit pattern of the default k-means tolerance, 1e-4.
pub const DEFAULT_KMEANS_TOLERANCE_BITS: u32 = 0x38D1_B717;

/// Whether the single-precision value with bit pattern `bits` is below zero:
/// the sign bit is set, the value is not -0.0, and it is not a NaN (whose
/// exponent bits are all ones with a nonzero fraction).
pub open spec fn bits_below_zero(bits: u32) -> bool {
    0x8000_0001u32 <= bits && bits <= 0xFF80_0000u32
}

/// IVF-PQ parameters.
#[derive(Debug, Clone, Copy, PartialEq, Eq, Structural)]
pub struct IvfPqConfig {
    /// Number of coarse clusters (inverted lists).
    pub nlist: usize,
    /// Number of clusters probed per query.
    pub nprobe: usize,
    /// Number of PQ sub-vectors; the dimension must be a multiple of it.
    pub num_subvectors: usize,
    /// Centroids per sub-space codebook (1..=256, one-byte codes).
    pub sub_clusters: usize,
    /// Maximum Lloyd iterations of k-means.
    pub max_kmeans_iters: usize,
    /// Bit pattern of the k-means convergence tolerance.
    pub kmeans_tolerance_bits: u32,
    /// Optional cap on the number of training points.
    pub max_train_points: Option<usize>,
}

/// The first rule that `c` breaks for vectors of `dimension`, if any.
pub open spec fn spec_ivf_config_fault(c: IvfPqConfig, dimension: usize) -> Option<ConfigFault> {
    if c.nlist == 0 {
        Some(ConfigFault::NlistZero)
    } else if c.nprobe == 0 {
        Some(ConfigFault::NprobeZero)
    } else if c.nprobe > c.nlist {
        Some(ConfigFault::NprobeAboveNlist { nprobe: c.nprobe, nlist: c.nlist })
    } else if c.num_subvectors == 0 {
        Some(ConfigFault::NumSubvectorsZero)
    } else if dimension % c.num_subvectors != 0 {
        Some(ConfigFault::DimensionNotDivisible { dimension, num_subvectors: c.num_subvectors })
    } else if c.sub_clusters == 0 || c.sub_clusters > 256 {
        Some(ConfigFault::SubClustersOutOfRange { sub_clusters: c.sub_clusters })
    } else if c.max_kmeans_iters == 0 {
        Some(ConfigFault::MaxItersZero)
    } else if bits_below_zero(c.kmeans_tolerance_bits) {
        Some(ConfigFault::NegativeTolerance)
    } else {
        None
    }
}

impl IvfPqConfig {
    /// Creates a configuration with the given partitioning and defaults elsewhere.
    pub fn new(nlist: usize, nprobe: usize, num_subvectors: usize) -> (c: Self)
        ensures
            c == (IvfPqConfig {
                nlist,
                nprobe,
                num_subvectors,
                sub_clusters: DEFAULT_SUB_CLUSTERS,
                max_kmeans_iters: DEFAULT_MAX_KMEANS_ITERS,
                kmeans_tolerance_bits: DEFAULT_KMEANS_TOLERANCE_BITS,
                max_train_points: None,
            }),
    {
        IvfPqConfig {
            nlist,
            nprobe,
            num_subvectors,
            sub_clusters: DEFAULT_SUB_CLUSTERS,
            max_kmeans_iters: DEFAULT_MAX_KMEANS_ITERS,
            kmeans_tolerance_bits: DEFAULT_KMEANS_TOLERANCE_BITS,
            max_train_points: None,
        }
    }

    /// Sets the number of centroids per sub-space codebook.
    pub fn with_sub_clusters(self, sub_clusters: usize) -> (c: Self)
        ensures
            c == (IvfPqConfig { sub_clusters, ..self }),
    {
        IvfPqConfig { sub_clusters, ..self }
    }

    /// Sets the maximum number of k-means iterations.
    pub fn with_max_kmeans_iters(self, iters: usize) -> (c: Self)
        ensures
            c == (IvfPqConfig { max_kmeans_iters: iters, ..self }),
    {
        IvfPqConfig { max_kmeans_iters: iters, ..self }
    }

    /// Sets the k-means tolerance, given as a bit pattern.
    pub fn with_kmeans_tolerance_bits(self, bits: u32) -> (c: Self)
        ensures
            c == (IvfPqConfig { kmeans_tolerance_bits: bits, ..self }),
    {
        IvfPqConfig { kmeans_tolerance_bits: bits, ..self }
    }

    /// Sets the cap on training points.
    pub fn with_max_train_points(self, max_points: Option<usize>) -> (c: Self)
        ensures
            c == (IvfPqConfig { max_train_points: max_points, ..self }),
    {
        IvfPqConfig { max_train_points: max_points, ..self }
    }

    /// Checks the parameters against vectors of `dimension`, reporting the first rule broken.
    pub fn validate(&self, dimension: usize) -> (r: Result<(), VectorIndexError>)
        ensures
            r == (match spec_ivf_config_fault(*self, dimension) {
                None => Ok(()),
                Some(fault) => Err(VectorIndexError::InvalidConfig { reason: fault }),
            }),
    {
        if self.nlist == 0 {
            return Err(VectorIndexError::InvalidConfig { reason: ConfigFault::NlistZero });
        }
        if self.nprobe == 0 {
            return Err(VectorIndexError::InvalidConfig { reason: ConfigFault::NprobeZero });
        }
        if self.nprobe > self.nlist {
            return Err(
                VectorIndexError::InvalidConfig {
                    reason: ConfigFault::NprobeAboveNlist { nprobe: self.nprobe, nlist: self.nlist },
                },
            );
        }
        if self.num_subvectors == 0 {
            return Err(VectorIndexError::InvalidConfig { reason: ConfigFault::NumSubvectorsZero });
        }
        if dimension % self.num_subvectors != 0 {
            return Err(
                VectorIndexError::InvalidConfig {
                    reason: ConfigFault::DimensionNotDivisible {
                        dimension,
                        num_subvectors: self.num_subvectors,
                    },
                },
            );
        }
        if self.sub_clusters == 0 || self.sub_clusters > 256 {
            return Err(
                VectorIndexError::InvalidConfig {
                    reason: ConfigFault::SubClustersOutOfRange { sub_clusters: self.sub_clusters },
                },
            );
        }
        if self.max_kmeans_iters == 0 {
            return Err(VectorIndexError::InvalidConfig { reason: ConfigFault::MaxItersZero });
        }
        if 0x8000_0001u32 <= self.kmeans_tolerance_bits && self.kmeans_tolerance_bits
            <= 0xFF80_0000u32 {
            return Err(VectorIndexError::InvalidConfig { reason: ConfigFault::NegativeTolerance });
        }
        Ok(())
    }

    /// Length of each sub-vector for vectors of `dimension`.
    pub fn sub_dimension(&self, dimension: usize) -> (d: usize)
        requires
            self.num_subvectors > 0,
        ensures
            d == dimension / self.num_subvectors,
    {
        dimension / self.num_subvectors
    }
}

impl Default for IvfPqConfig {
    fn default() -> (c: Self)
        ensures
            c == IvfPqConfig::spec_default(),
    {
        IvfPqConfig {
            nlist: DEFAULT_NLIST,
            nprobe: DEFAULT_NPROBE,
            num_subvectors: DEFAULT_NUM_SUBVECTORS,
            sub_clusters: DEFAULT_SUB_CLUSTERS,
            max_kmeans_iters: DEFAULT_MAX_KMEANS_ITERS,
            kmeans_tolerance_bits: DEFAULT_KMEANS_TOLERANCE_BITS,
            max_train_points: None,
        }
    }
}

impl IvfPqConfig {
    /// The default configuration.
    pub open spec fn spec_default() -> IvfPqConfig {
        IvfPqConfig {
            nlist: DEFAULT_NLIST,
            nprobe: DEFAULT_NPROBE,
            num_subvectors: DEFAULT_NUM_SUBVECTORS,
            sub_clusters: DEFAULT_SUB_CLUSTERS,
            max_kmeans_iters: DEFAULT_MAX_KMEANS_ITERS,
            kmeans_tolerance_bits: DEFAULT_KMEANS_TOLERANCE_BITS,
            max_train_points: None,
        }
    }
}

/// The default configuration is valid for every dimension that is a multiple
/// of its sub-vector count.
pub proof fn lemma_default_ivf_config_valid(dimension: usize)
    requires
        dimension % DEFAULT_NUM_SUBVECTORS == 0,
    ensures
        spec_ivf_config_fault(IvfPqConfig::spec_default(), dimension) is None,
{
}

} // verus!
