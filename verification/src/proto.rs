//! The distance-metric enumeration of the wire protocol, whose value 0 means
//! "not specified", and its conversions.

use crate::metric;
use vstd::prelude::*;

verus! {

/// Distance metric as carried in protocol messages (`i32` on the wire).
#[derive(Debug, Clone, Copy, PartialEq, Eq, Hash, PartialOrd, Ord, Structural)]
pub enum DistanceMetric {
    Unspecified,
    L2Squared,
    DotProduct,
    CosineSimilarity,
    Manhattan,
    Minkowski,
    Chebyshev,
    Hamming,
    Mahalanobis,
    Jaccard,
    Hellinger,
}

/// Error returned when an `i32` names no protocol metric.
#[derive(Debug, Clone, Copy, PartialEq, Eq)]
pub struct UnknownEnumValue(pub i32);

/// The protocol value of each metric.
pub open spec fn spec_wire_value(m: DistanceMetric) -> i32 {
    match m {
        DistanceMetric::Unspecified => 0,
        DistanceMetric::L2Squared => 1,
        DistanceMetric::DotProduct => 2,
        DistanceMetric::CosineSimilarity => 3,
        DistanceMetric::Manhattan => 4,
        DistanceMetric::Minkowski => 5,
        DistanceMetric::Chebyshev => 6,
        DistanceMetric::Hamming => 7,
        DistanceMetric::Mahalanobis => 8,
        DistanceMetric::Jaccard => 9,
        DistanceMetric::Hellinger => 10,
    }
}

/// The protocol metric carried by the wire value `v`, if any.
pub open spec fn spec_of_wire_value(v: i32) -> Option<DistanceMetric> {
    if v == 0 {
        Some(DistanceMetric::Unspecified)
    } else if v == 1 {
        Some(DistanceMetric::L2Squared)
    } else if v == 2 {
        Some(DistanceMetric::DotProduct)
    } else if v == 3 {
        Some(DistanceMetric::CosineSimilarity)
    } else if v == 4 {
        Some(DistanceMetric::Manhattan)
    } else if v == 5 {
        Some(DistanceMetric::Minkowski)
    } else if v == 6 {
        Some(DistanceMetric::Chebyshev)
    } else if v == 7 {
        Some(DistanceMetric::Hamming)
    } else if v == 8 {
        Some(DistanceMetric::Mahalanobis)
    } else if v == 9 {
        Some(DistanceMetric::Jaccard)
    } else if v == 10 {
        Some(DistanceMetric::Hellinger)
    } else {
        None
    }
}

/// The index metric that a protocol metric asks for; `Unspecified` asks for none.
pub open spec fn spec_index_metric(m: DistanceMetric) -> Option<metric::DistanceMetric> {
    match m {
        DistanceMetric::Unspecified => None,
        DistanceMetric::L2Squared => Some(metric::DistanceMetric::L2Squared),
        DistanceMetric::DotProduct => Some(metric::DistanceMetric::DotProduct),
        DistanceMetric::CosineSimilarity => Some(metric::DistanceMetric::CosineSimilarity),
        DistanceMetric::Manhattan => Some(metric::DistanceMetric::Manhattan),
        DistanceMetric::Minkowski => Some(metric::DistanceMetric::Minkowski),
        DistanceMetric::Chebyshev => Some(metric::DistanceMetric::Chebyshev),
        DistanceMetric::Hamming => Some(metric::DistanceMetric::Hamming),
        DistanceMetric::Mahalanobis => Some(metric::DistanceMetric::Mahalanobis),
        DistanceMetric::Jaccard => Some(metric::DistanceMetric::Jaccard),
        DistanceMetric::Hellinger => Some(metric::DistanceMetric::Hellinger),
    }
}

/// The protocol spelling of each metric.
pub open spec fn spec_str_name(m: DistanceMetric) -> Seq<char> {
    match m {
        DistanceMetric::Unspecified => "DISTANCE_METRIC_UNSPECIFIED"@,
        DistanceMetric::L2Squared => "DISTANCE_METRIC_L2_SQUARED"@,
        DistanceMetric::DotProduct => "DISTANCE_METRIC_DOT_PRODUCT"@,
        DistanceMetric::CosineSimilarity => "DISTANCE_METRIC_COSINE_SIMILARITY"@,
        DistanceMetric::Manhattan => "DISTANCE_METRIC_MANHATTAN"@,
        DistanceMetric::Minkowski => "DISTANCE_METRIC_MINKOWSKI"@,
        DistanceMetric::Chebyshev => "DISTANCE_METRIC_CHEBYSHEV"@,
        DistanceMetric::Hamming => "DISTANCE_METRIC_HAMMING"@,
        DistanceMetric::Mahalanobis => "DISTANCE_METRIC_MAHALANOBIS"@,
        DistanceMetric::Jaccard => "DISTANCE_METRIC_JACCARD"@,
        DistanceMetric::Hellinger => "DISTANCE_METRIC_HELLINGER"@,
    }
}

impl DistanceMetric {
    /// Decodes a wire value.
    pub fn from_wire(v: i32) -> (r: Option<DistanceMetric>)
        ensures
            r == spec_of_wire_value(v),
            r is Some <==> 0 <= v <= 10,
    {
        match v {
            0 => Some(DistanceMetric::Unspecified),
            1 => Some(DistanceMetric::L2Squared),
            2 => Some(DistanceMetric::DotProduct),
            3 => Some(DistanceMetric::CosineSimilarity),
            4 => Some(DistanceMetric::Manhattan),
            5 => Some(DistanceMetric::Minkowski),
            6 => Some(DistanceMetric::Chebyshev),
            7 => Some(DistanceMetric::Hamming),
            8 => Some(DistanceMetric::Mahalanobis),
            9 => Some(DistanceMetric::Jaccard),
            10 => Some(DistanceMetric::Hellinger),
            _ => None,
        }
    }

    /// The wire value of this metric.
    pub fn wire_value(&self) -> (v: i32)
        ensures
            v == spec_wire_value(*self),
    {
        match self {
            DistanceMetric::Unspecified => 0,
            DistanceMetric::L2Squared => 1,
            DistanceMetric::DotProduct => 2,
            DistanceMetric::CosineSimilarity => 3,
            DistanceMetric::Manhattan => 4,
            DistanceMetric::Minkowski => 5,
            DistanceMetric::Chebyshev => 6,
            DistanceMetric::Hamming => 7,
            DistanceMetric::Mahalanobis => 8,
            DistanceMetric::Jaccard => 9,
            DistanceMetric::Hellinger => 10,
        }
    }

    /// The protocol spelling of this metric.
    pub fn as_str_name(&self) -> (s: &'static str)
        ensures
            s@ == spec_str_name(*self),
    {
        match self {
            DistanceMetric::Unspecified => "DISTANCE_METRIC_UNSPECIFIED",
            DistanceMetric::L2Squared => "DISTANCE_METRIC_L2_SQUARED",
            DistanceMetric::DotProduct => "DISTANCE_METRIC_DOT_PRODUCT",
            DistanceMetric::CosineSimilarity => "DISTANCE_METRIC_COSINE_SIMILARITY",
            DistanceMetric::Manhattan => "DISTANCE_METRIC_MANHATTAN",
            DistanceMetric::Minkowski => "DISTANCE_METRIC_MINKOWSKI",
            DistanceMetric::Chebyshev => "DISTANCE_METRIC_CHEBYSHEV",
            DistanceMetric::Hamming => "DISTANCE_METRIC_HAMMING",
            DistanceMetric::Mahalanobis => "DISTANCE_METRIC_MAHALANOBIS",
            DistanceMetric::Jaccard => "DISTANCE_METRIC_JACCARD",
            DistanceMetric::Hellinger => "DISTANCE_METRIC_HELLINGER",
        }
    }

    /// The index metric this protocol metric asks for (`None` for `Unspecified`).
    pub fn to_index_metric(&self) -> (r: Option<metric::DistanceMetric>)
        ensures
            r == spec_index_metric(*self),
    {
        match self {
            DistanceMetric::Unspecified => None,
            DistanceMetric::L2Squared => Some(metric::DistanceMetric::L2Squared),
            DistanceMetric::DotProduct => Some(metric::DistanceMetric::DotProduct),
            DistanceMetric::CosineSimilarity => Some(metric::DistanceMetric::CosineSimilarity),
            DistanceMetric::Manhattan => Some(metric::DistanceMetric::Manhattan),
            DistanceMetric::Minkowski => Some(metric::DistanceMetric::Minkowski),
            DistanceMetric::Chebyshev => Some(metric::DistanceMetric::Chebyshev),
            DistanceMetric::Hamming => Some(metric::DistanceMetric::Hamming),
            DistanceMetric::Mahalanobis => Some(metric::DistanceMetric::Mahalanobis),
            DistanceMetric::Jaccard => Some(metric::DistanceMetric::Jaccard),
            DistanceMetric::Hellinger => Some(metric::DistanceMetric::Hellinger),
        }
    }
}

impl TryFrom<i32> for DistanceMetric {
    type Error = UnknownEnumValue;

    fn try_from(v: i32) -> (r: Result<DistanceMetric, UnknownEnumValue>) {
        match DistanceMetric::from_wire(v) {
            Some(m) => Ok(m),
            None => Err(UnknownEnumValue(v)),
        }
    }
}

impl vstd::std_specs::convert::TryFromSpecImpl<i32> for DistanceMetric {
    open spec fn obeys_try_from_spec() -> bool {
        true
    }

    open spec fn try_from_spec(v: i32) -> Result<DistanceMetric, UnknownEnumValue> {
        match spec_of_wire_value(v) {
            Some(m) => Ok(m),
            None => Err(UnknownEnumValue(v)),
        }
    }
}

/// Decodes a wire value, mapping every unknown value to `Unspecified`.
pub fn parse_distance_metric(val: i32) -> (m: DistanceMetric)
    ensures
        m == (match spec_of_wire_value(val) {
            Some(found) => found,
            None => DistanceMetric::Unspecified,
        }),
        (1 <= val <= 10) ==> spec_wire_value(m) == val,
        !(1 <= val <= 10) ==> m == DistanceMetric::Unspecified,
{
    match DistanceMetric::from_wire(val) {
        Some(found) => found,
        None => DistanceMetric::Unspecified,
    }
}

/// The protocol metric that a name selects in the search client, ignoring
/// case; unknown names select `L2Squared`.
pub open spec fn spec_client_metric(index: Option<metric::DistanceMetric>) -> DistanceMetric {
    match index {
        Some(metric::DistanceMetric::L2Squared) => DistanceMetric::L2Squared,
        Some(metric::DistanceMetric::DotProduct) => DistanceMetric::DotProduct,
        Some(metric::DistanceMetric::CosineSimilarity) => DistanceMetric::CosineSimilarity,
        Some(metric::DistanceMetric::Manhattan) => DistanceMetric::Manhattan,
        Some(metric::DistanceMetric::Minkowski) => DistanceMetric::Minkowski,
        Some(metric::DistanceMetric::Chebyshev) => DistanceMetric::Chebyshev,
        Some(metric::DistanceMetric::Hamming) => DistanceMetric::Hamming,
        Some(metric::DistanceMetric::Mahalanobis) => DistanceMetric::Mahalanobis,
        Some(metric::DistanceMetric::Jaccard) => DistanceMetric::Jaccard,
        Some(metric::DistanceMetric::Hellinger) => DistanceMetric::Hellinger,
        None => DistanceMetric::L2Squared,
    }
}

/// Parses the search client's metric argument, ignoring case; unknown names
/// select `L2Squared`.
pub fn parse_proto_metric(s: &str) -> (m: DistanceMetric)
    ensures
        m == spec_client_metric(metric::spec_metric_of_name(metric::spec_to_lowercase(s@))),
{
    let index = metric::parse_metric_str_opt(s);
    match index {
        Some(metric::DistanceMetric::L2Squared) => DistanceMetric::L2Squared,
        Some(metric::DistanceMetric::DotProduct) => DistanceMetric::DotProduct,
        Some(metric::DistanceMetric::CosineSimilarity) => DistanceMetric::CosineSimilarity,
        Some(metric::DistanceMetric::Manhattan) => DistanceMetric::Manhattan,
        Some(metric::DistanceMetric::Minkowski) => DistanceMetric::Minkowski,
        Some(metric::DistanceMetric::Chebyshev) => DistanceMetric::Chebyshev,
        Some(metric::DistanceMetric::Hamming) => DistanceMetric::Hamming,
        Some(metric::DistanceMetric::Mahalanobis) => DistanceMetric::Mahalanobis,
        Some(metric::DistanceMetric::Jaccard) => DistanceMetric::Jaccard,
        Some(metric::DistanceMetric::Hellinger) => DistanceMetric::Hellinger,
        None => DistanceMetric::L2Squared,
    }
}

/// Decoding the wire value of a protocol metric gives the metric back.
pub proof fn lemma_wire_value_roundtrip(m: DistanceMetric)
    ensures
        spec_of_wire_value(spec_wire_value(m)) == Some(m),
{
}

} // verus!
