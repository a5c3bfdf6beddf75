//! Standalone centroid file, written by the distributed k-means trainer.
//!
//! Layout, little-endian: magic (u64), version (u32), metric code (one
//! byte), dimension, k, iterations, inertia bit pattern (u32 each), then the
//! `k * dimension` centroid values as single-precision bit patterns.

use crate::error::{HeaderFault, VectorIndexError};
use crate::hnsw_file::{any_id, f_id, lemma_id_parser, q_id};
use crate::metric::{DistanceMetric, code_to_metric, metric_to_code, spec_metric_code, spec_metric_of_code};
use crate::wire::{
    enc_seq, lemma_parse_seq_complete, lemma_parse_seq_none_grows, lemma_stands_at_split, parse_seq,
    put_u32, put_u64, put_u8, read_u32, read_u64, read_u8, stands_at, u32_at, u64_at,
};
use vstd::bytes::*;
use vstd::prelude::*;

verus! {

/// Magic number of centroid files ("VRSKMEAN").
pub const CENTROID_FILE_MAGIC: u64 = 0x5652_534B_4D45_414E;

/// Version of the centroid file format.
pub const CENTROID_FILE_VERSION: u32 = 1;

/// Offset of the first centroid value.
pub const CENTROID_DATA_POS: usize = 29;

/// What a centroid file holds; values are single-precision bit patterns.
#[derive(Debug, Clone, PartialEq, Eq)]
pub struct CentroidFileData {
    /// `k * dimension` centroid values, centroid after centroid.
    pub centroids: Vec<u32>,
    pub dimension: usize,
    pub k: usize,
    pub metric: DistanceMetric,
    /// Lloyd iterations run by the trainer.
    pub iterations: usize,
    /// Bit pattern of the final inertia.
    pub inertia_bits: u32,
}

/// The contents of loaded centroid data.
pub struct CentroidFileView {
    pub centroids: Seq<u32>,
    pub dimension: usize,
    pub k: usize,
    pub metric: DistanceMetric,
    pub iterations: usize,
    pub inertia_bits: u32,
}

pub open spec fn centroid_data_view(d: CentroidFileData) -> CentroidFileView {
    CentroidFileView {
        centroids: d.centroids@,
        dimension: d.dimension,
        k: d.k,
        metric: d.metric,
        iterations: d.iterations,
        inertia_bits: d.inertia_bits,
    }
}

/// The fixed-size head of a centroid file.
pub open spec fn enc_centroid_head(
    metric: DistanceMetric,
    dimension: usize,
    k: usize,
    iterations: usize,
    inertia_bits: u32,
) -> Seq<u8> {
    spec_u64_to_le_bytes(CENTROID_FILE_MAGIC) + spec_u32_to_le_bytes(CENTROID_FILE_VERSION) + seq![
        spec_metric_code(metric),
    ] + spec_u32_to_le_bytes(dimension as u32) + spec_u32_to_le_bytes(k as u32)
        + spec_u32_to_le_bytes(iterations as u32) + spec_u32_to_le_bytes(inertia_bits)
}

/// A whole centroid file; counts are written as `u32`.
pub open spec fn enc_centroid_file(
    centroids: Seq<u32>,
    dimension: usize,
    k: usize,
    metric: DistanceMetric,
    iterations: usize,
    inertia_bits: u32,
) -> Seq<u8> {
    enc_centroid_head(metric, dimension, k, iterations, inertia_bits) + enc_seq(centroids, f_id())
}

/// What loading a centroid file of these bytes gives: the header is checked
/// field by field (magic, version, metric), then `k * dimension` values are
/// read; any shortfall is input that ends too early.
pub open spec fn spec_load_centroids(b: Seq<u8>) -> Result<CentroidFileView, VectorIndexError> {
    if b.len() < 8 {
        Err(VectorIndexError::UnexpectedEof)
    } else if u64_at(b, 0) != CENTROID_FILE_MAGIC {
        Err(VectorIndexError::InvalidHeader { reason: HeaderFault::CentroidMagic { found: u64_at(b, 0) } })
    } else if b.len() < 12 {
        Err(VectorIndexError::UnexpectedEof)
    } else if u32_at(b, 8) != CENTROID_FILE_VERSION {
        Err(
            VectorIndexError::InvalidHeader {
                reason: HeaderFault::CentroidVersion { found: u32_at(b, 8) },
            },
        )
    } else if b.len() < 13 {
        Err(VectorIndexError::UnexpectedEof)
    } else if spec_metric_of_code(b[12]) is None {
        Err(VectorIndexError::InvalidHeader { reason: HeaderFault::MetricCode { found: b[12] } })
    } else if b.len() < CENTROID_DATA_POS {
        Err(VectorIndexError::UnexpectedEof)
    } else {
        let dimension = u32_at(b, 13);
        let k = u32_at(b, 17);
        match parse_seq(b, CENTROID_DATA_POS as int, k as nat * dimension as nat, q_id()) {
            Some((centroids, _)) => Ok(
                CentroidFileView {
                    centroids,
                    dimension: dimension as usize,
                    k: k as usize,
                    metric: spec_metric_of_code(b[12])->0,
                    iterations: u32_at(b, 21) as usize,
                    inertia_bits: u32_at(b, 25),
                },
            ),
            None => Err(VectorIndexError::UnexpectedEof),
        }
    }
}

/// Writes a centroid file.
pub fn encode_centroid_file(
    centroids: &[u32],
    dimension: usize,
    k: usize,
    metric: DistanceMetric,
    iterations: usize,
    inertia_bits: u32,
) -> (out: Vec<u8>)
    ensures
        out@ == enc_centroid_file(centroids@, dimension, k, metric, iterations, inertia_bits),
{
    let mut out: Vec<u8> = Vec::new();
    put_u64(&mut out, CENTROID_FILE_MAGIC);
    put_u32(&mut out, CENTROID_FILE_VERSION);
    put_u8(&mut out, metric_to_code(metric));
    put_u32(&mut out, dimension as u32);
    put_u32(&mut out, k as u32);
    put_u32(&mut out, iterations as u32);
    put_u32(&mut out, inertia_bits);
    let ghost head = out@;
    assert(head == enc_centroid_head(metric, dimension, k, iterations, inertia_bits));
    let mut i: usize = 0;
    while i < centroids.len()
        invariant
            0 <= i <= centroids@.len(),
            out@ == head + enc_seq(centroids@.take(i as int), f_id()),
        decreases centroids@.len() - i,
    {
        proof {
            assert(centroids@.take(i + 1).drop_last() == centroids@.take(i as int));
            assert(centroids@.take(i + 1).last() == centroids@[i as int]);
        }
        put_u32(&mut out, centroids[i]);
        i += 1;
    }
    assert(centroids@.take(centroids@.len() as int) == centroids@);
    out
}

/// Reads a centroid file.
#[verifier::loop_isolation(false)]
pub fn decode_centroid_file(b: &[u8]) -> (r: Result<CentroidFileData, VectorIndexError>)
    ensures
        match r {
            Ok(d) => spec_load_centroids(b@) == Ok::<CentroidFileView, VectorIndexError>(
                centroid_data_view(d),
            ),
            Err(e) => spec_load_centroids(b@) == Err::<CentroidFileView, VectorIndexError>(e),
        },
{
    let blen = b.len();
    let magic = match read_u64(b, 0) {
        Some(x) => x,
        None => return Err(VectorIndexError::UnexpectedEof),
    };
    if magic != CENTROID_FILE_MAGIC {
        return Err(
            VectorIndexError::InvalidHeader { reason: HeaderFault::CentroidMagic { found: magic } },
        );
    }
    let version = match read_u32(b, 8) {
        Some(x) => x,
        None => return Err(VectorIndexError::UnexpectedEof),
    };
    if version != CENTROID_FILE_VERSION {
        return Err(
            VectorIndexError::InvalidHeader {
                reason: HeaderFault::CentroidVersion { found: version },
            },
        );
    }
    let code = match read_u8(b, 12) {
        Some(x) => x,
        None => return Err(VectorIndexError::UnexpectedEof),
    };
    let metric = match code_to_metric(code) {
        Some(m) => m,
        None => {
            return Err(
                VectorIndexError::InvalidHeader { reason: HeaderFault::MetricCode { found: code } },
            )
        },
    };
    if blen < CENTROID_DATA_POS {
        return Err(VectorIndexError::UnexpectedEof);
    }
    let dimension = read_u32(b, 13).unwrap();
    let k = read_u32(b, 17).unwrap();
    let iterations = read_u32(b, 21).unwrap();
    let inertia_bits = read_u32(b, 25).unwrap();
    assert(k as int * dimension as int <= u64::MAX) by (nonlinear_arith)
        requires
            k <= u32::MAX,
            dimension <= u32::MAX,
    ;
    let count: u64 = k as u64 * dimension as u64;
    let mut centroids: Vec<u32> = Vec::new();
    let mut cur: usize = CENTROID_DATA_POS;
    let mut i: u64 = 0;
    while i < count
        invariant
            CENTROID_DATA_POS <= cur <= b@.len(),
            blen == b@.len(),
            0 <= i <= count,
            parse_seq(b@, CENTROID_DATA_POS as int, i as nat, q_id()) == Some(
                (centroids@, cur as int),
            ),
        decreases count - i,
    {
        match read_u32(b, cur) {
            Some(x) => {
                assert(cur + 4 <= b@.len());
                centroids.push(x);
                cur = cur + 4;
                i = i + 1;
            },
            None => {
                proof {
                    assert(parse_seq(b@, CENTROID_DATA_POS as int, (i + 1) as nat, q_id()) is None);
                    lemma_parse_seq_none_grows(
                        b@,
                        CENTROID_DATA_POS as int,
                        (i + 1) as nat,
                        count as nat,
                        q_id(),
                    );
                }
                return Err(VectorIndexError::UnexpectedEof);
            },
        }
    }
    Ok(
        CentroidFileData {
            centroids,
            dimension: dimension as usize,
            k: k as usize,
            metric,
            iterations: iterations as usize,
            inertia_bits,
        },
    )
}

proof fn lemma_prefix_piece(b: Seq<u8>, h: Seq<u8>, i: int, j: int)
    requires
        stands_at(b, 0, h),
        0 <= i <= j <= h.len(),
    ensures
        b.subrange(i, j) == h.subrange(i, j),
{
    assert(b.subrange(i, j) =~= b.subrange(0, h.len() as int).subrange(i, j));
}

/// Saving then loading gives the data back, for data whose counts fit the
/// file's `u32` fields and whose values are exactly `k * dimension`.
pub proof fn lemma_centroid_file_roundtrip(
    centroids: Seq<u32>,
    dimension: usize,
    k: usize,
    metric: DistanceMetric,
    iterations: usize,
    inertia_bits: u32,
)
    requires
        dimension <= u32::MAX,
        k <= u32::MAX,
        iterations <= u32::MAX,
        centroids.len() == k * dimension,
    ensures
        spec_load_centroids(enc_centroid_file(centroids, dimension, k, metric, iterations, inertia_bits))
            == Ok::<CentroidFileView, VectorIndexError>(
            CentroidFileView { centroids, dimension, k, metric, iterations, inertia_bits },
        ),
{
    let b = enc_centroid_file(centroids, dimension, k, metric, iterations, inertia_bits);
    let h = enc_centroid_head(metric, dimension, k, iterations, inertia_bits);
    let t = enc_seq(centroids, f_id());
    lemma_auto_spec_u32_to_from_le_bytes();
    lemma_auto_spec_u64_to_from_le_bytes();
    assert(h.len() == 29);
    assert(stands_at(b, 0, h + t)) by {
        assert(b.subrange(0, (h + t).len() as int) =~= h + t);
    }
    lemma_stands_at_split(b, 0, h, t);
    assert(h.subrange(0, 8) =~= spec_u64_to_le_bytes(CENTROID_FILE_MAGIC));
    assert(h.subrange(8, 12) =~= spec_u32_to_le_bytes(CENTROID_FILE_VERSION));
    assert(h.subrange(13, 17) =~= spec_u32_to_le_bytes(dimension as u32));
    assert(h.subrange(17, 21) =~= spec_u32_to_le_bytes(k as u32));
    assert(h.subrange(21, 25) =~= spec_u32_to_le_bytes(iterations as u32));
    assert(h.subrange(25, 29) =~= spec_u32_to_le_bytes(inertia_bits));
    lemma_prefix_piece(b, h, 0, 8);
    lemma_prefix_piece(b, h, 8, 12);
    lemma_prefix_piece(b, h, 13, 17);
    lemma_prefix_piece(b, h, 17, 21);
    lemma_prefix_piece(b, h, 21, 25);
    lemma_prefix_piece(b, h, 25, 29);
    assert(b[12] == h[12]);
    crate::metric::lemma_metric_code_roundtrip(metric, 0);
    assert(dimension as u32 as nat == dimension);
    assert(k as u32 as nat == k);
    assert(iterations as u32 as usize == iterations);
    lemma_id_parser();
    lemma_parse_seq_complete(b, 29, centroids, f_id(), q_id(), any_id());
}

} // verus!
