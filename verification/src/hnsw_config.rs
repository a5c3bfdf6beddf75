//! Integer parameters of an HNSW index and their validation.

use crate::error::{ConfigFault, HeaderFault, VectorIndexError};
use vstd::prelude::*;

verus! {

/// Default maximum number of links per node on layers above 0.
pub const DEFAULT_M: usize = 16;

/// Default maximum number of links per node on layer 0.
pub const DEFAULT_M0: usize = 32;

/// Default candidate-list size during construction.
pub const DEFAULT_EF_CONSTRUCTION: usize = 100;

/// Default candidate-list size during search.
pub const DEFAULT_EF_SEARCH: usize = 50;

/// HNSW parameters: link budgets per layer, beam widths, and whether the
/// diversity heuristic selects neighbors.
#[derive(Debug, Clone, Copy, PartialEq, Eq, Structural)]
pub struct HnswConfig {
    /// Maximum links per node on layers above 0.
    pub m: usize,
    /// Maximum links per node on layer 0.
    pub m0: usize,
    /// Candidate-list size during construction.
    pub ef_construction: usize,
    /// Default candidate-list size during search.
    pub ef_search: usize,
    /// Whether the diversity heuristic selects neighbors.
    pub use_heuristic: bool,
}

/// The first rule that `c` breaks, if any.
pub open spec fn spec_config_fault(c: HnswConfig) -> Option<ConfigFault> {
    if c.m < 2 {
        Some(ConfigFault::MTooSmall { m: c.m })
    } else if c.m0 < c.m {
        Some(ConfigFault::M0BelowM { m0: c.m0, m: c.m })
    } else if c.ef_construction == 0 {
        Some(ConfigFault::EfConstructionZero)
    } else if c.ef_search == 0 {
        Some(ConfigFault::EfSearchZero)
    } else {
        None
    }
}

impl HnswConfig {
    /// Creates a configuration with `m0 = 2 * m` and the heuristic enabled.
    pub fn new(m: usize, ef_construction: usize, ef_search: usize) -> (c: Self)
        requires
            m >= 2,
            ef_construction > 0,
            ef_search > 0,
            2 * m <= usize::MAX,
        ensures
            c == (HnswConfig { m, m0: (2 * m) as usize, ef_construction, ef_search, use_heuristic: true }),
    {
        HnswConfig { m, m0: 2 * m, ef_construction, ef_search, use_heuristic: true }
    }

    /// Sets the layer-0 link budget.
    pub fn with_m0(self, m0: usize) -> (c: Self)
        requires
            m0 >= self.m,
        ensures
            c == (HnswConfig { m0, ..self }),
    {
        HnswConfig { m0, ..self }
    }

    /// Sets the construction beam width.
    pub fn with_ef_construction(self, ef_construction: usize) -> (c: Self)
        requires
            ef_construction > 0,
        ensures
            c == (HnswConfig { ef_construction, ..self }),
    {
        HnswConfig { ef_construction, ..self }
    }

    /// Sets the default search beam width.
    pub fn with_ef_search(self, ef_search: usize) -> (c: Self)
        requires
            ef_search > 0,
        ensures
            c == (HnswConfig { ef_search, ..self }),
    {
        HnswConfig { ef_search, ..self }
    }

    /// Enables or disables the diversity heuristic.
    pub fn with_heuristic(self, use_heuristic: bool) -> (c: Self)
        ensures
            c == (HnswConfig { use_heuristic, ..self }),
    {
        HnswConfig { use_heuristic, ..self }
    }

    /// Checks the parameters, reporting the first rule broken.
    pub fn validate(&self) -> (r: Result<(), VectorIndexError>)
        ensures
            r == (match spec_config_fault(*self) {
                None => Ok(()),
                Some(fault) => Err(
                    VectorIndexError::InvalidHeader { reason: HeaderFault::Config { fault } },
                ),
            }),
    {
        if self.m < 2 {
            return Err(
                VectorIndexError::InvalidHeader {
                    reason: HeaderFault::Config { fault: ConfigFault::MTooSmall { m: self.m } },
                },
            );
        }
        if self.m0 < self.m {
            return Err(
                VectorIndexError::InvalidHeader {
                    reason: HeaderFault::Config {
                        fault: ConfigFault::M0BelowM { m0: self.m0, m: self.m },
                    },
                },
            );
        }
        if self.ef_construction == 0 {
            return Err(
                VectorIndexError::InvalidHeader {
                    reason: HeaderFault::Config { fault: ConfigFault::EfConstructionZero },
                },
            );
        }
        if self.ef_search == 0 {
            return Err(
                VectorIndexError::InvalidHeader {
                    reason: HeaderFault::Config { fault: ConfigFault::EfSearchZero },
                },
            );
        }
        Ok(())
    }
}

impl Default for HnswConfig {
    fn default() -> (c: Self)
        ensures
            c == (HnswConfig {
                m: DEFAULT_M,
                m0: DEFAULT_M0,
                ef_construction: DEFAULT_EF_CONSTRUCTION,
                ef_search: DEFAULT_EF_SEARCH,
                use_heuristic: true,
            }),
    {
        Self::new(DEFAULT_M, DEFAULT_EF_CONSTRUCTION, DEFAULT_EF_SEARCH)
    }
}

/// Every configuration built by `new` and the setters passes validation.
pub proof fn lemma_built_config_is_valid(m: usize, ef_construction: usize, ef_search: usize, m0: usize)
    requires
        m >= 2,
        ef_construction > 0,
        ef_search > 0,
        m0 >= m,
        2 * m <= usize::MAX,
    ensures
        spec_config_fault(
            HnswConfig { m, m0: (2 * m) as usize, ef_construction, ef_search, use_heuristic: true },
        ) is None,
        spec_config_fault(HnswConfig { m, m0, ef_construction, ef_search, use_heuristic: true })
            is None,
{
}

} // verus!
