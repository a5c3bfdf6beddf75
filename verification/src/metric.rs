//! Distance metrics, their one-byte wire codes and their textual names.

use vstd::prelude::*;

verus! {

/// The distance or similarity function used to compare vectors.
///
/// Distance metrics rank lower values as closer; the two similarity metrics
/// (`DotProduct`, `CosineSimilarity`) rank higher values as closer.
#[derive(Debug, Clone, Copy, PartialEq, Eq, Structural)]
pub enum DistanceMetric {
    L2Squared,
    DotProduct,
    CosineSimilarity,
    Manhattan,
    Minkowski,
    Chebyshev,
    Hamming,
    Mahalanobis,
    Jaccard,
    Hellinger,
}

/// Whether higher scores mean greater similarity under `m`.
pub open spec fn spec_higher_is_better(m: DistanceMetric) -> bool {
    m == DistanceMetric::DotProduct || m == DistanceMetric::CosineSimilarity
}

/// The wire code of each metric, in declaration order.
pub open spec fn spec_metric_code(m: DistanceMetric) -> u8 {
    match m {
        DistanceMetric::L2Squared => 0,
        DistanceMetric::DotProduct => 1,
        DistanceMetric::CosineSimilarity => 2,
        DistanceMetric::Manhattan => 3,
        DistanceMetric::Minkowski => 4,
        DistanceMetric::Chebyshev => 5,
        DistanceMetric::Hamming => 6,
        DistanceMetric::Mahalanobis => 7,
        DistanceMetric::Jaccard => 8,
        DistanceMetric::Hellinger => 9,
    }
}

/// The metric whose wire code is `code`, if any.
pub open spec fn spec_metric_of_code(code: u8) -> Option<DistanceMetric> {
    if code == 0 {
        Some(DistanceMetric::L2Squared)
    } else if code == 1 {
        Some(DistanceMetric::DotProduct)
    } else if code == 2 {
        Some(DistanceMetric::CosineSimilarity)
    } else if code == 3 {
        Some(DistanceMetric::Manhattan)
    } else if code == 4 {
        Some(DistanceMetric::Minkowski)
    } else if code == 5 {
        Some(DistanceMetric::Chebyshev)
    } else if code == 6 {
        Some(DistanceMetric::Hamming)
    } else if code == 7 {
        Some(DistanceMetric::Mahalanobis)
    } else if code == 8 {
        Some(DistanceMetric::Jaccard)
    } else if code == 9 {
        Some(DistanceMetric::Hellinger)
    } else {
        None
    }
}

impl DistanceMetric {
    /// Returns `true` if higher scores indicate greater similarity.
    pub fn higher_is_better(&self) -> (r: bool)
        ensures
            r == spec_higher_is_better(*self),
    {
        match self {
            DistanceMetric::DotProduct | DistanceMetric::CosineSimilarity => true,
            _ => false,
        }
    }
}

/// Converts a metric to its one-byte wire code.
pub fn metric_to_code(metric: DistanceMetric) -> (code: u8)
    ensures
        code == spec_metric_code(metric),
        code < 10,
{
    match metric {
        DistanceMetric::L2Squared => 0,
        DistanceMetric::DotProduct => 1,
        DistanceMetric::CosineSimilarity => 2,
        DistanceMetric::Manhattan => 3,
        DistanceMetric::Minkowski => 4,
        DistanceMetric::Chebyshev => 5,
        DistanceMetric::Hamming => 6,
        DistanceMetric::Mahalanobis => 7,
        DistanceMetric::Jaccard => 8,
        DistanceMetric::Hellinger => 9,
    }
}

/// Converts a wire code back to its metric; codes 10 and above name no metric.
pub fn code_to_metric(code: u8) -> (r: Option<DistanceMetric>)
    ensures
        r == spec_metric_of_code(code),
        r is Some <==> code < 10,
{
    match code {
        0 => Some(DistanceMetric::L2Squared),
        1 => Some(DistanceMetric::DotProduct),
        2 => Some(DistanceMetric::CosineSimilarity),
        3 => Some(DistanceMetric::Manhattan),
        4 => Some(DistanceMetric::Minkowski),
        5 => Some(DistanceMetric::Chebyshev),
        6 => Some(DistanceMetric::Hamming),
        7 => Some(DistanceMetric::Mahalanobis),
        8 => Some(DistanceMetric::Jaccard),
        9 => Some(DistanceMetric::Hellinger),
        _ => None,
    }
}

/// Decoding the wire code of a metric gives the metric back, and every code
/// that decodes to a metric is that metric's code.
pub proof fn lemma_metric_code_roundtrip(m: DistanceMetric, code: u8)
    ensures
        spec_metric_of_code(spec_metric_code(m)) == Some(m),
        spec_metric_of_code(code) == Some(m) ==> spec_metric_code(m) == code,
{
}


/// The metric that a lower-cased name selects, under the alias table shared
/// by the worker and the search client.
pub open spec fn spec_metric_of_name(name: Seq<char>) -> Option<DistanceMetric> {
    if name == "l2"@ || name == "l2_squared"@ || name == "l2squared"@ || name == "euclidean"@ {
        Some(DistanceMetric::L2Squared)
    } else if name == "dot"@ || name == "dot_product"@ || name == "dotproduct"@ || name
        == "inner_product"@ {
        Some(DistanceMetric::DotProduct)
    } else if name == "cosine"@ || name == "cosine_similarity"@ || name == "cos"@ {
        Some(DistanceMetric::CosineSimilarity)
    } else if name == "manhattan"@ || name == "l1"@ {
        Some(DistanceMetric::Manhattan)
    } else if name == "minkowski"@ || name == "lp"@ {
        Some(DistanceMetric::Minkowski)
    } else if name == "chebyshev"@ || name == "linf"@ || name == "l_inf"@ {
        Some(DistanceMetric::Chebyshev)
    } else if name == "hamming"@ || name == "l0"@ {
        Some(DistanceMetric::Hamming)
    } else if name == "mahalanobis"@ {
        Some(DistanceMetric::Mahalanobis)
    } else if name == "jaccard"@ || name == "tanimoto"@ {
        Some(DistanceMetric::Jaccard)
    } else if name == "hellinger"@ {
        Some(DistanceMetric::Hellinger)
    } else {
        None
    }
}

/// The metric that a lower-cased name selects under the narrower alias table
/// of the distributed k-means trainer.
pub open spec fn spec_trainer_metric_of_name(name: Seq<char>) -> Option<DistanceMetric> {
    if name == "l2"@ || name == "l2_squared"@ || name == "euclidean"@ {
        Some(DistanceMetric::L2Squared)
    } else if name == "dot"@ || name == "dot_product"@ || name == "inner_product"@ {
        Some(DistanceMetric::DotProduct)
    } else if name == "cosine"@ || name == "cosine_similarity"@ || name == "cos"@ {
        Some(DistanceMetric::CosineSimilarity)
    } else if name == "manhattan"@ || name == "l1"@ {
        Some(DistanceMetric::Manhattan)
    } else if name == "minkowski"@ || name == "lp"@ {
        Some(DistanceMetric::Minkowski)
    } else if name == "chebyshev"@ || name == "linf"@ {
        Some(DistanceMetric::Chebyshev)
    } else if name == "hamming"@ || name == "l0"@ {
        Some(DistanceMetric::Hamming)
    } else if name == "mahalanobis"@ {
        Some(DistanceMetric::Mahalanobis)
    } else if name == "jaccard"@ || name == "tanimoto"@ {
        Some(DistanceMetric::Jaccard)
    } else if name == "hellinger"@ {
        Some(DistanceMetric::Hellinger)
    } else {
        None
    }
}

/// What `str::to_lowercase` returns for a string (full Unicode lower-casing).
pub uninterp spec fn spec_to_lowercase(s: Seq<char>) -> Seq<char>;

/// Calls `str::to_lowercase`; the result is named by `spec_to_lowercase`,
/// since Unicode case mapping is not written out here.
#[verifier::external_body]
fn to_lowercase(s: &str) -> (r: String)
    ensures
        r@ == spec_to_lowercase(s@),
{
    s.to_lowercase()
}

/// Whether `name` spells exactly `key`.
fn name_is(name: &String, key: &str) -> (b: bool)
    ensures
        b == (name@ == key@),
{
    let k = String::from_str(key);
    *name == k
}

/// Looks a lower-cased name up in the alias table shared by the worker and
/// the search client.
pub fn metric_of_name(name: &String) -> (r: Option<DistanceMetric>)
    ensures
        r == spec_metric_of_name(name@),
{
    if name_is(name, "l2") || name_is(name, "l2_squared") || name_is(name, "l2squared")
        || name_is(name, "euclidean") {
        Some(DistanceMetric::L2Squared)
    } else if name_is(name, "dot") || name_is(name, "dot_product") || name_is(name, "dotproduct")
        || name_is(name, "inner_product") {
        Some(DistanceMetric::DotProduct)
    } else if name_is(name, "cosine") || name_is(name, "cosine_similarity") || name_is(
        name,
        "cos",
    ) {
        Some(DistanceMetric::CosineSimilarity)
    } else if name_is(name, "manhattan") || name_is(name, "l1") {
        Some(DistanceMetric::Manhattan)
    } else if name_is(name, "minkowski") || name_is(name, "lp") {
        Some(DistanceMetric::Minkowski)
    } else if name_is(name, "chebyshev") || name_is(name, "linf") || name_is(name, "l_inf") {
        Some(DistanceMetric::Chebyshev)
    } else if name_is(name, "hamming") || name_is(name, "l0") {
        Some(DistanceMetric::Hamming)
    } else if name_is(name, "mahalanobis") {
        Some(DistanceMetric::Mahalanobis)
    } else if name_is(name, "jaccard") || name_is(name, "tanimoto") {
        Some(DistanceMetric::Jaccard)
    } else if name_is(name, "hellinger") {
        Some(DistanceMetric::Hellinger)
    } else {
        None
    }
}

/// Looks a lower-cased name up in the k-means trainer's alias table.
pub fn trainer_metric_of_name(name: &String) -> (r: Option<DistanceMetric>)
    ensures
        r == spec_trainer_metric_of_name(name@),
{
    if name_is(name, "l2") || name_is(name, "l2_squared") || name_is(name, "euclidean") {
        Some(DistanceMetric::L2Squared)
    } else if name_is(name, "dot") || name_is(name, "dot_product") || name_is(
        name,
        "inner_product",
    ) {
        Some(DistanceMetric::DotProduct)
    } else if name_is(name, "cosine") || name_is(name, "cosine_similarity") || name_is(
        name,
        "cos",
    ) {
        Some(DistanceMetric::CosineSimilarity)
    } else if name_is(name, "manhattan") || name_is(name, "l1") {
        Some(DistanceMetric::Manhattan)
    } else if name_is(name, "minkowski") || name_is(name, "lp") {
        Some(DistanceMetric::Minkowski)
    } else if name_is(name, "chebyshev") || name_is(name, "linf") {
        Some(DistanceMetric::Chebyshev)
    } else if name_is(name, "hamming") || name_is(name, "l0") {
        Some(DistanceMetric::Hamming)
    } else if name_is(name, "mahalanobis") {
        Some(DistanceMetric::Mahalanobis)
    } else if name_is(name, "jaccard") || name_is(name, "tanimoto") {
        Some(DistanceMetric::Jaccard)
    } else if name_is(name, "hellinger") {
        Some(DistanceMetric::Hellinger)
    } else {
        None
    }
}

/// Parses a metric name given on the worker's command line, ignoring case;
/// unknown names select `L2Squared`.
pub fn parse_metric_str(s: &str) -> (m: DistanceMetric)
    ensures
        m == (match spec_metric_of_name(spec_to_lowercase(s@)) {
            Some(found) => found,
            None => DistanceMetric::L2Squared,
        }),
{
    match parse_metric_str_opt(s) {
        Some(found) => found,
        None => DistanceMetric::L2Squared,
    }
}

/// Looks a metric name up, ignoring case, in the worker and client alias table.
pub fn parse_metric_str_opt(s: &str) -> (m: Option<DistanceMetric>)
    ensures
        m == spec_metric_of_name(spec_to_lowercase(s@)),
{
    let lower = to_lowercase(s);
    metric_of_name(&lower)
}

/// Parses a metric name given to the distributed k-means trainer, ignoring
/// case; unknown names select `L2Squared`.
pub fn parse_metric(s: &str) -> (m: DistanceMetric)
    ensures
        m == (match spec_trainer_metric_of_name(spec_to_lowercase(s@)) {
            Some(found) => found,
            None => DistanceMetric::L2Squared,
        }),
{
    let lower = to_lowercase(s);
    match trainer_metric_of_name(&lower) {
        Some(found) => found,
        None => DistanceMetric::L2Squared,
    }
}

} // verus!
