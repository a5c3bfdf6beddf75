//! Binary file format of an IVF-PQ index.
//!
//! Layout, all integers little-endian: magic (u64), version (u32), metric
//! code (one byte), dimension, `nlist`, `nprobe`, `num_subvectors`,
//! `sub_clusters`, `max_kmeans_iters`, tolerance bits, centroid count (u32
//! each); the coarse centroid values (u32 bit patterns); the codebook length
//! and values (u32 each); the list count (u32) and, per list, its length
//! (u32), its ids (u32 each) and its codes (raw bytes).

use crate::error::{HeaderFault, VectorIndexError};
use crate::hnsw_file::{any_id, f_id, lemma_id_parser, p_id, q_id};
use crate::inverted_list::{InvertedIndex, InvertedList, total_len};
use crate::ivf_config::IvfPqConfig;
use crate::metric::{DistanceMetric, code_to_metric, metric_to_code, spec_metric_code, spec_metric_of_code};
use crate::wire::{
    enc_seq, is_prefix, lemma_parse_seq_complete, lemma_parse_seq_none_grows, lemma_parse_seq_sound,
    lemma_stands_at_join, lemma_stands_at_split, lemma_u32_read_stands, lemma_u32_roundtrip,
    lemma_u64_read_stands, parse_seq, parser_complete, parser_sound, put_bytes, put_u32, put_u64,
    put_u8, read_u32, read_u64, read_u8, stands_at, u32_at, u64_at,
};
use vstd::bytes::*;
use vstd::prelude::*;

verus! {

/// Magic number of IVF-PQ files ("IVFPQVEC").
pub const IVF_PQ_MAGIC: u64 = 0x4956_4650_5156_4543;

/// Version of the IVF-PQ file format.
pub const IVF_PQ_VERSION: u32 = 1;

/// Offset of the first coarse centroid value.
pub const IVF_CENTROIDS_POS: usize = 45;

/// Saves and loads IVF-PQ index state.
pub struct IvfPqSerializer;

/// What an IVF-PQ file holds.
pub struct IvfPqFileView {
    pub metric: DistanceMetric,
    pub dimension: usize,
    pub config: IvfPqConfig,
    pub num_centroids: u32,
    pub centroids: Seq<u32>,
    pub codebooks: Seq<u32>,
    pub lists: Seq<(Seq<u32>, Seq<u8>)>,
}

/// The state that a load returns; the values of centroids and codebooks are
/// single-precision bit patterns.
#[derive(Debug)]
pub struct IvfPqFileData {
    pub config: IvfPqConfig,
    pub coarse_centroids: Vec<u32>,
    pub codebooks: Vec<u32>,
    pub inverted_index: InvertedIndex,
    pub dimension: usize,
    pub metric: DistanceMetric,
}

/// The lists of an inverted index, as pairs of sequences.
pub open spec fn lists_view(lists: Seq<InvertedList>) -> Seq<(Seq<u32>, Seq<u8>)> {
    lists.map_values(|l: InvertedList| (l.ids@, l.codes@))
}

/// The file contents of loaded state, with `num_centroids` as the centroid count field.
pub open spec fn data_view(d: IvfPqFileData, num_centroids: u32) -> IvfPqFileView {
    IvfPqFileView {
        metric: d.metric,
        dimension: d.dimension,
        config: d.config,
        num_centroids,
        centroids: d.coarse_centroids@,
        codebooks: d.codebooks@,
        lists: lists_view(d.inverted_index.lists@),
    }
}

/// A list record: its length, its ids, then its codes.
pub open spec fn enc_list(l: (Seq<u32>, Seq<u8>)) -> Seq<u8> {
    spec_u32_to_le_bytes(l.0.len() as u32) + enc_seq(l.0, f_id()) + l.1
}

pub open spec fn f_list() -> spec_fn((Seq<u32>, Seq<u8>)) -> Seq<u8> {
    |l: (Seq<u32>, Seq<u8>)| enc_list(l)
}

/// The fixed-size head of the file.
pub open spec fn enc_ivf_head(v: IvfPqFileView) -> Seq<u8> {
    spec_u64_to_le_bytes(IVF_PQ_MAGIC) + spec_u32_to_le_bytes(IVF_PQ_VERSION) + seq![
        spec_metric_code(v.metric),
    ] + spec_u32_to_le_bytes(v.dimension as u32) + spec_u32_to_le_bytes(v.config.nlist as u32)
        + spec_u32_to_le_bytes(v.config.nprobe as u32) + spec_u32_to_le_bytes(
        v.config.num_subvectors as u32,
    ) + spec_u32_to_le_bytes(v.config.sub_clusters as u32) + spec_u32_to_le_bytes(
        v.config.max_kmeans_iters as u32,
    ) + spec_u32_to_le_bytes(v.config.kmeans_tolerance_bits) + spec_u32_to_le_bytes(
        v.num_centroids,
    )
}

/// Everything after the head.
pub open spec fn enc_ivf_tail(v: IvfPqFileView) -> Seq<u8> {
    enc_seq(v.centroids, f_id()) + spec_u32_to_le_bytes(v.codebooks.len() as u32) + enc_seq(
        v.codebooks,
        f_id(),
    ) + spec_u32_to_le_bytes(v.lists.len() as u32) + enc_seq(v.lists, f_list())
}

/// The whole file.
pub open spec fn enc_ivf_file(v: IvfPqFileView) -> Seq<u8> {
    enc_ivf_head(v) + enc_ivf_tail(v)
}

pub open spec fn list_ok(l: (Seq<u32>, Seq<u8>), num_subvectors: nat) -> bool {
    l.0.len() <= u32::MAX && l.1.len() == l.0.len() * num_subvectors
}

pub open spec fn ok_list(num_subvectors: nat) -> spec_fn((Seq<u32>, Seq<u8>)) -> bool {
    |l: (Seq<u32>, Seq<u8>)| list_ok(l, num_subvectors)
}

/// The states that a file can describe exactly.
pub open spec fn ivf_view_ok(v: IvfPqFileView) -> bool {
    &&& v.dimension <= u32::MAX
    &&& v.config.nlist <= u32::MAX
    &&& v.config.nprobe <= u32::MAX
    &&& v.config.num_subvectors <= u32::MAX
    &&& v.config.sub_clusters <= u32::MAX
    &&& v.config.max_kmeans_iters <= u32::MAX
    &&& v.config.max_train_points is None
    &&& v.centroids.len() == v.num_centroids * v.dimension
    &&& v.codebooks.len() <= u32::MAX
    &&& v.lists.len() <= u32::MAX
    &&& forall|i: int|
        0 <= i < v.lists.len() ==> list_ok(#[trigger] v.lists[i], v.config.num_subvectors as nat)
}

/// `bytes` starts with a file describing `v`.
pub open spec fn holds_ivf(bytes: Seq<u8>, v: IvfPqFileView) -> bool {
    ivf_view_ok(v) && is_prefix(enc_ivf_file(v), bytes)
}

// ---- parsers -------------------------------------------------------------

pub open spec fn p_bytes(b: Seq<u8>, pos: int, n: nat) -> Option<(Seq<u8>, int)> {
    if 0 <= pos && pos + n <= b.len() {
        Some((b.subrange(pos, pos + n), pos + n))
    } else {
        None
    }
}

pub open spec fn p_list(b: Seq<u8>, pos: int, num_subvectors: nat) -> Option<
    ((Seq<u32>, Seq<u8>), int),
> {
    match p_id(b, pos) {
        Some((c, q)) => match parse_seq(b, q, c as nat, q_id()) {
            Some((ids, r)) => match p_bytes(b, r, c as nat * num_subvectors) {
                Some((codes, e)) => Some(((ids, codes), e)),
                None => None,
            },
            None => None,
        },
        None => None,
    }
}

pub open spec fn q_list(num_subvectors: nat) -> spec_fn(Seq<u8>, int) -> Option<
    ((Seq<u32>, Seq<u8>), int),
> {
    |b2: Seq<u8>, q2: int| p_list(b2, q2, num_subvectors)
}

proof fn lemma_list_parser(num_subvectors: nat)
    ensures
        parser_complete(f_list(), q_list(num_subvectors), ok_list(num_subvectors)),
        parser_sound(f_list(), q_list(num_subvectors), ok_list(num_subvectors)),
{
    lemma_id_parser();
    assert forall|b: Seq<u8>, q: int, x: (Seq<u32>, Seq<u8>)|
        #![trigger q_list(num_subvectors)(b, q), ok_list(num_subvectors)(x), f_list()(x)]
        ok_list(num_subvectors)(x) && stands_at(b, q, f_list()(x)) implies q_list(num_subvectors)(
            b,
            q,
        ) == Some((x, q + f_list()(x).len())) by {
        let head = spec_u32_to_le_bytes(x.0.len() as u32);
        let ids = enc_seq(x.0, f_id());
        assert(f_list()(x) == head + ids + x.1);
        lemma_stands_at_split(b, q, head + ids, x.1);
        lemma_stands_at_split(b, q, head, ids);
        lemma_u32_roundtrip(b, q, x.0.len() as u32);
        lemma_parse_seq_complete(b, q + 4, x.0, f_id(), q_id(), any_id());
        assert(x.0.len() as u32 as nat == x.0.len());
        let r = q + 4 + ids.len();
        assert(p_bytes(b, r, x.1.len()) == Some((x.1, r + x.1.len())));
    }
    assert forall|b: Seq<u8>, q: int| #![trigger q_list(num_subvectors)(b, q)] (q_list(
        num_subvectors,
    )(b, q) is Some) implies {
        let (x, r) = q_list(num_subvectors)(b, q)->0;
        &&& ok_list(num_subvectors)(x)
        &&& r == q + f_list()(x).len()
        &&& stands_at(b, q, f_list()(x))
    } by {
        let c = u32_at(b, q);
        lemma_u32_read_stands(b, q);
        lemma_parse_seq_sound(b, q + 4, c as nat, f_id(), q_id(), any_id());
        let (x, r) = q_list(num_subvectors)(b, q)->0;
        let (ids, m) = parse_seq(b, q + 4, c as nat, q_id())->0;
        assert(x.0 == ids);
        assert(ids.len() == c);
        lemma_stands_at_join(b, q, spec_u32_to_le_bytes(c), enc_seq(ids, f_id()));
        assert(stands_at(b, m, x.1));
        lemma_stands_at_join(b, q, spec_u32_to_le_bytes(c) + enc_seq(ids, f_id()), x.1);
        assert(f_list()(x) == spec_u32_to_le_bytes(c) + enc_seq(ids, f_id()) + x.1);
    }
}

/// Reads everything after the metric byte, given that the head is present.
pub open spec fn parse_ivf_body(b: Seq<u8>) -> Option<IvfPqFileView> {
    if b.len() < IVF_CENTROIDS_POS || spec_metric_of_code(b[12]) is None {
        None
    } else {
        let dimension = u32_at(b, 13);
        let config = IvfPqConfig {
            nlist: u32_at(b, 17) as usize,
            nprobe: u32_at(b, 21) as usize,
            num_subvectors: u32_at(b, 25) as usize,
            sub_clusters: u32_at(b, 29) as usize,
            max_kmeans_iters: u32_at(b, 33) as usize,
            kmeans_tolerance_bits: u32_at(b, 37),
            max_train_points: None,
        };
        let k = u32_at(b, 41);
        match parse_seq(b, IVF_CENTROIDS_POS as int, k as nat * dimension as nat, q_id()) {
            Some((centroids, p1)) => match p_id(b, p1) {
                Some((cb_len, p2)) => match parse_seq(b, p2, cb_len as nat, q_id()) {
                    Some((codebooks, p3)) => match p_id(b, p3) {
                        Some((n_lists, p4)) => match parse_seq(
                            b,
                            p4,
                            n_lists as nat,
                            q_list(u32_at(b, 25) as nat),
                        ) {
                            Some((lists, _)) => Some(
                                IvfPqFileView {
                                    metric: spec_metric_of_code(b[12])->0,
                                    dimension: dimension as usize,
                                    config,
                                    num_centroids: k,
                                    centroids,
                                    codebooks,
                                    lists,
                                },
                            ),
                            None => None,
                        },
                        None => None,
                    },
                    None => None,
                },
                None => None,
            },
            None => None,
        }
    }
}

/// Magic number and version are the expected ones.
pub open spec fn ivf_header_ok(b: Seq<u8>) -> bool {
    b.len() >= 12 && u64_at(b, 0) == IVF_PQ_MAGIC && u32_at(b, 8) == IVF_PQ_VERSION
}

proof fn lemma_ivf_head_fields(v: IvfPqFileView)
    ensures
        ({
            let h = enc_ivf_head(v);
            &&& h.len() == IVF_CENTROIDS_POS
            &&& h.subrange(0, 8) == spec_u64_to_le_bytes(IVF_PQ_MAGIC)
            &&& h.subrange(8, 12) == spec_u32_to_le_bytes(IVF_PQ_VERSION)
            &&& h[12] == spec_metric_code(v.metric)
            &&& h.subrange(13, 17) == spec_u32_to_le_bytes(v.dimension as u32)
            &&& h.subrange(17, 21) == spec_u32_to_le_bytes(v.config.nlist as u32)
            &&& h.subrange(21, 25) == spec_u32_to_le_bytes(v.config.nprobe as u32)
            &&& h.subrange(25, 29) == spec_u32_to_le_bytes(v.config.num_subvectors as u32)
            &&& h.subrange(29, 33) == spec_u32_to_le_bytes(v.config.sub_clusters as u32)
            &&& h.subrange(33, 37) == spec_u32_to_le_bytes(v.config.max_kmeans_iters as u32)
            &&& h.subrange(37, 41) == spec_u32_to_le_bytes(v.config.kmeans_tolerance_bits)
            &&& h.subrange(41, 45) == spec_u32_to_le_bytes(v.num_centroids)
        }),
{
    lemma_auto_spec_u32_to_from_le_bytes();
    lemma_auto_spec_u64_to_from_le_bytes();
    let h = enc_ivf_head(v);
    assert(h.subrange(0, 8) =~= spec_u64_to_le_bytes(IVF_PQ_MAGIC));
    assert(h.subrange(8, 12) =~= spec_u32_to_le_bytes(IVF_PQ_VERSION));
    assert(h.subrange(13, 17) =~= spec_u32_to_le_bytes(v.dimension as u32));
    assert(h.subrange(17, 21) =~= spec_u32_to_le_bytes(v.config.nlist as u32));
    assert(h.subrange(21, 25) =~= spec_u32_to_le_bytes(v.config.nprobe as u32));
    assert(h.subrange(25, 29) =~= spec_u32_to_le_bytes(v.config.num_subvectors as u32));
    assert(h.subrange(29, 33) =~= spec_u32_to_le_bytes(v.config.sub_clusters as u32));
    assert(h.subrange(33, 37) =~= spec_u32_to_le_bytes(v.config.max_kmeans_iters as u32));
    assert(h.subrange(37, 41) =~= spec_u32_to_le_bytes(v.config.kmeans_tolerance_bits));
    assert(h.subrange(41, 45) =~= spec_u32_to_le_bytes(v.num_centroids));
}

proof fn lemma_prefix_piece(b: Seq<u8>, h: Seq<u8>, i: int, j: int)
    requires
        stands_at(b, 0, h),
        0 <= i <= j <= h.len(),
    ensures
        b.subrange(i, j) == h.subrange(i, j),
{
    assert(b.subrange(i, j) =~= b.subrange(0, h.len() as int).subrange(i, j));
}

/// A file describing `v` parses to `v`.
pub proof fn lemma_ivf_file_parses(b: Seq<u8>, v: IvfPqFileView)
    requires
        holds_ivf(b, v),
    ensures
        ivf_header_ok(b),
        b.len() > 12 && b[12] == spec_metric_code(v.metric),
        parse_ivf_body(b) == Some(v),
{
    let h = enc_ivf_head(v);
    let t = enc_ivf_tail(v);
    lemma_ivf_head_fields(v);
    assert(stands_at(b, 0, h + t)) by {
        assert(b.subrange(0, (h + t).len() as int) == h + t);
    }
    lemma_stands_at_split(b, 0, h, t);
    lemma_prefix_piece(b, h, 0, 8);
    lemma_prefix_piece(b, h, 8, 12);
    lemma_prefix_piece(b, h, 13, 17);
    lemma_prefix_piece(b, h, 17, 21);
    lemma_prefix_piece(b, h, 21, 25);
    lemma_prefix_piece(b, h, 25, 29);
    lemma_prefix_piece(b, h, 29, 33);
    lemma_prefix_piece(b, h, 33, 37);
    lemma_prefix_piece(b, h, 37, 41);
    lemma_prefix_piece(b, h, 41, 45);
    assert(b[12] == b.subrange(0, 45)[12]);
    lemma_auto_spec_u32_to_from_le_bytes();
    lemma_auto_spec_u64_to_from_le_bytes();
    crate::metric::lemma_metric_code_roundtrip(v.metric, 0);
    lemma_id_parser();
    let nsub = v.config.num_subvectors as nat;
    lemma_list_parser(nsub);
    // split the tail
    let c = enc_seq(v.centroids, f_id());
    let cl = spec_u32_to_le_bytes(v.codebooks.len() as u32);
    let cb = enc_seq(v.codebooks, f_id());
    let ll = spec_u32_to_le_bytes(v.lists.len() as u32);
    let ls = enc_seq(v.lists, f_list());
    assert(t == c + cl + cb + ll + ls);
    lemma_stands_at_split(b, 45, c + cl + cb + ll, ls);
    lemma_stands_at_split(b, 45, c + cl + cb, ll);
    lemma_stands_at_split(b, 45, c + cl, cb);
    lemma_stands_at_split(b, 45, c, cl);
    assert(v.dimension as u32 as nat == v.dimension);
    assert(u32_at(b, 13) == v.dimension as u32);
    assert(u32_at(b, 41) == v.num_centroids);
    lemma_parse_seq_complete(b, 45, v.centroids, f_id(), q_id(), any_id());
    let p1: int = 45 + c.len() as int;
    lemma_u32_roundtrip(b, p1, v.codebooks.len() as u32);
    assert(v.codebooks.len() as u32 as nat == v.codebooks.len());
    lemma_parse_seq_complete(b, p1 + 4, v.codebooks, f_id(), q_id(), any_id());
    let p3: int = p1 + 4 + cb.len() as int;
    lemma_u32_roundtrip(b, p3, v.lists.len() as u32);
    assert(v.lists.len() as u32 as nat == v.lists.len());
    assert(u32_at(b, 25) as nat == nsub);
    assert forall|i: int| 0 <= i < v.lists.len() implies #[trigger] ok_list(nsub)(v.lists[i]) by {
        assert(list_ok(v.lists[i], nsub));
    }
    lemma_parse_seq_complete(b, p3 + 4, v.lists, f_list(), q_list(nsub), ok_list(nsub));
    assert(parse_ivf_body(b)->0.config == v.config);
}

/// What parses from a file with the right header is state that the file describes.
pub proof fn lemma_ivf_parse_describes(b: Seq<u8>)
    requires
        ivf_header_ok(b),
        parse_ivf_body(b) is Some,
    ensures
        holds_ivf(b, parse_ivf_body(b)->0),
{
    let v = parse_ivf_body(b)->0;
    lemma_id_parser();
    let nsub = u32_at(b, 25) as nat;
    lemma_list_parser(nsub);
    let dimension = u32_at(b, 13);
    let k = u32_at(b, 41);
    lemma_parse_seq_sound(b, 45, k as nat * dimension as nat, f_id(), q_id(), any_id());
    let (cents, p1) = parse_seq(b, 45, k as nat * dimension as nat, q_id())->0;
    let (cbn, p2) = p_id(b, p1)->0;
    lemma_u32_read_stands(b, p1);
    lemma_parse_seq_sound(b, p2, cbn as nat, f_id(), q_id(), any_id());
    let (cbs, p3) = parse_seq(b, p2, cbn as nat, q_id())->0;
    let (ln, p4) = p_id(b, p3)->0;
    lemma_u32_read_stands(b, p3);
    lemma_parse_seq_sound(b, p4, ln as nat, f_list(), q_list(nsub), ok_list(nsub));
    let h = enc_ivf_head(v);
    lemma_ivf_head_fields(v);
    lemma_u64_read_stands(b, 0);
    lemma_u32_read_stands(b, 8);
    lemma_u32_read_stands(b, 13);
    lemma_u32_read_stands(b, 17);
    lemma_u32_read_stands(b, 21);
    lemma_u32_read_stands(b, 25);
    lemma_u32_read_stands(b, 29);
    lemma_u32_read_stands(b, 33);
    lemma_u32_read_stands(b, 37);
    lemma_u32_read_stands(b, 41);
    crate::metric::lemma_metric_code_roundtrip(v.metric, b[12]);
    assert(b.subrange(0, 45) =~= h) by {
        assert forall|j: int| 0 <= j < 45 implies b.subrange(0, 45)[j] == h[j] by {
            if j < 8 {
                assert(b.subrange(0, 8)[j] == h.subrange(0, 8)[j]);
            } else if j < 12 {
                assert(b.subrange(8, 12)[j - 8] == h.subrange(8, 12)[j - 8]);
            } else if j == 12 {
            } else if j < 17 {
                assert(b.subrange(13, 17)[j - 13] == h.subrange(13, 17)[j - 13]);
            } else if j < 21 {
                assert(b.subrange(17, 21)[j - 17] == h.subrange(17, 21)[j - 17]);
            } else if j < 25 {
                assert(b.subrange(21, 25)[j - 21] == h.subrange(21, 25)[j - 21]);
            } else if j < 29 {
                assert(b.subrange(25, 29)[j - 25] == h.subrange(25, 29)[j - 25]);
            } else if j < 33 {
                assert(b.subrange(29, 33)[j - 29] == h.subrange(29, 33)[j - 29]);
            } else if j < 37 {
                assert(b.subrange(33, 37)[j - 33] == h.subrange(33, 37)[j - 33]);
            } else if j < 41 {
                assert(b.subrange(37, 41)[j - 37] == h.subrange(37, 41)[j - 37]);
            } else {
                assert(b.subrange(41, 45)[j - 41] == h.subrange(41, 45)[j - 41]);
            }
        }
    }
    let c = enc_seq(cents, f_id());
    let cl = spec_u32_to_le_bytes(cbn);
    let cb = enc_seq(cbs, f_id());
    let ll = spec_u32_to_le_bytes(ln);
    let ls = enc_seq(v.lists, f_list());
    lemma_stands_at_join(b, 0, h, c);
    lemma_stands_at_join(b, 0, h + c, cl);
    lemma_stands_at_join(b, 0, h + c + cl, cb);
    lemma_stands_at_join(b, 0, h + c + cl + cb, ll);
    lemma_stands_at_join(b, 0, h + c + cl + cb + ll, ls);
    assert(cbs.len() as u32 == cbn);
    assert(v.lists.len() as u32 == ln);
    assert(enc_ivf_file(v) =~= h + c + cl + cb + ll + ls);
    assert forall|i: int| 0 <= i < v.lists.len() implies list_ok(
        #[trigger] v.lists[i],
        v.config.num_subvectors as nat,
    ) by {
        assert(ok_list(nsub)(v.lists[i]));
    }
}

/// Saving then loading gives the state back: the file written for state
/// that a file can describe exactly holds that state.
pub proof fn lemma_ivf_file_roundtrip(v: IvfPqFileView)
    requires
        ivf_view_ok(v),
    ensures
        holds_ivf(enc_ivf_file(v), v),
{
    let e = enc_ivf_file(v);
    assert(e.subrange(0, e.len() as int) =~= e);
}


/// Appends the values as little-endian `u32`s.
fn put_u32_seq(out: &mut Vec<u8>, vals: &[u32])
    ensures
        final(out)@ == old(out)@ + enc_seq(vals@, f_id()),
{
    let ghost start = out@;
    let mut i: usize = 0;
    while i < vals.len()
        invariant
            0 <= i <= vals@.len(),
            out@ == start + enc_seq(vals@.take(i as int), f_id()),
        decreases vals@.len() - i,
    {
        proof {
            assert(vals@.take(i + 1).drop_last() == vals@.take(i as int));
            assert(vals@.take(i + 1).last() == vals@[i as int]);
        }
        put_u32(out, vals[i]);
        i += 1;
    }
    assert(vals@.take(vals@.len() as int) == vals@);
}

/// Appends a list record.
fn encode_list(out: &mut Vec<u8>, list: &InvertedList)
    ensures
        final(out)@ == old(out)@ + enc_list((list.ids@, list.codes@)),
{
    crate::hnsw_file::encode_layer(out, &list.ids);
    put_bytes(out, list.codes.as_slice());
}

/// Reads `n` little-endian `u32`s at `pos`.
fn decode_u32_seq(b: &[u8], pos: usize, n: u64) -> (r: Option<(Vec<u32>, usize)>)
    requires
        pos <= b@.len(),
    ensures
        match r {
            Some((vals, q)) => parse_seq(b@, pos as int, n as nat, q_id()) == Some(
                (vals@, q as int),
            ) && q == pos + 4 * vals@.len() && q <= b@.len() && vals@.len() == n,
            None => parse_seq(b@, pos as int, n as nat, q_id()) is None,
        },
{
    let blen = b.len();
    let mut vals: Vec<u32> = Vec::new();
    let mut cur = pos;
    let mut i: u64 = 0;
    while i < n
        invariant
            pos <= cur <= b@.len(),
            blen == b@.len(),
            0 <= i <= n,
            vals@.len() == i,
            cur == pos + 4 * vals@.len(),
            parse_seq(b@, pos as int, i as nat, q_id()) == Some((vals@, cur as int)),
        decreases n - i,
    {
        match read_u32(b, cur) {
            Some(x) => {
                assert(cur + 4 <= b@.len());
                vals.push(x);
                cur = cur + 4;
                i = i + 1;
            },
            None => {
                proof {
                    assert(parse_seq(b@, pos as int, (i + 1) as nat, q_id()) is None);
                    lemma_parse_seq_none_grows(b@, pos as int, (i + 1) as nat, n as nat, q_id());
                }
                return None;
            },
        }
    }
    Some((vals, cur))
}

/// Reads a list record at `pos` with `num_subvectors`-byte codes.
fn decode_list(b: &[u8], pos: usize, num_subvectors: u32) -> (r: Option<(InvertedList, usize)>)
    ensures
        match r {
            Some((l, q)) => p_list(b@, pos as int, num_subvectors as nat) == Some(
                ((l.ids@, l.codes@), q as int),
            ) && q >= pos + 4 * l.ids@.len() && q <= b@.len() && l.wf(num_subvectors as nat),
            None => p_list(b@, pos as int, num_subvectors as nat) is None,
        },
{
    let blen = b.len();
    let count = match read_u32(b, pos) {
        Some(c) => c,
        None => return None,
    };
    assert(pos + 4 <= b@.len());
    let (ids, r) = match decode_u32_seq(b, pos + 4, count as u64) {
        Some(x) => x,
        None => return None,
    };
    assert(count as int * num_subvectors as int <= u64::MAX) by (nonlinear_arith)
        requires
            count <= u32::MAX,
            num_subvectors <= u32::MAX,
    ;
    let n: u64 = count as u64 * num_subvectors as u64;
    if n > (b.len() - r) as u64 {
        return None;
    }
    let e = r + n as usize;
    let mut codes: Vec<u8> = Vec::new();
    put_bytes(&mut codes, vstd::slice::slice_subrange(b, r, e));
    assert(codes@ == b@.subrange(r as int, e as int));
    Some((InvertedList { ids, codes }, e))
}

/// The lists as pairs of sequences, after one more list.
proof fn lemma_lists_view_push(ls: Seq<InvertedList>, l: InvertedList)
    ensures
        lists_view(ls.push(l)) == lists_view(ls).push((l.ids@, l.codes@)),
        total_len(ls.push(l)) == total_len(ls) + l.ids@.len(),
{
    assert(lists_view(ls.push(l)) =~= lists_view(ls).push((l.ids@, l.codes@)));
    assert(ls.push(l).drop_last() == ls);
}

impl IvfPqSerializer {
    /// Encodes IVF-PQ index state as an IVF-PQ file. The centroid count
    /// written is the number of whole vectors of `dimension` values among
    /// the coarse centroids; counts and sizes are written as `u32`.
    pub fn encode(
        config: &IvfPqConfig,
        coarse_centroids: &[u32],
        codebooks: &[u32],
        inverted_index: &InvertedIndex,
        dimension: usize,
        metric: DistanceMetric,
    ) -> (out: Vec<u8>)
        requires
            dimension > 0,
        ensures
            out@ == enc_ivf_file(
                IvfPqFileView {
                    metric,
                    dimension,
                    config: *config,
                    num_centroids: (coarse_centroids@.len() / dimension as nat) as u32,
                    centroids: coarse_centroids@,
                    codebooks: codebooks@,
                    lists: lists_view(inverted_index.lists@),
                },
            ),
    {
        let ghost v = IvfPqFileView {
            metric,
            dimension,
            config: *config,
            num_centroids: (coarse_centroids@.len() / dimension as nat) as u32,
            centroids: coarse_centroids@,
            codebooks: codebooks@,
            lists: lists_view(inverted_index.lists@),
        };
        let mut out: Vec<u8> = Vec::new();
        put_u64(&mut out, IVF_PQ_MAGIC);
        put_u32(&mut out, IVF_PQ_VERSION);
        put_u8(&mut out, metric_to_code(metric));
        put_u32(&mut out, dimension as u32);
        put_u32(&mut out, config.nlist as u32);
        put_u32(&mut out, config.nprobe as u32);
        put_u32(&mut out, config.num_subvectors as u32);
        put_u32(&mut out, config.sub_clusters as u32);
        put_u32(&mut out, config.max_kmeans_iters as u32);
        put_u32(&mut out, config.kmeans_tolerance_bits);
        put_u32(&mut out, (coarse_centroids.len() / dimension) as u32);
        assert(out@ == enc_ivf_head(v));
        put_u32_seq(&mut out, coarse_centroids);
        put_u32(&mut out, codebooks.len() as u32);
        put_u32_seq(&mut out, codebooks);
        put_u32(&mut out, inverted_index.lists.len() as u32);
        let ghost head = out@;
        assert(head == enc_ivf_head(v) + enc_seq(v.centroids, f_id()) + spec_u32_to_le_bytes(
            v.codebooks.len() as u32,
        ) + enc_seq(v.codebooks, f_id()) + spec_u32_to_le_bytes(v.lists.len() as u32));
        let mut i: usize = 0;
        while i < inverted_index.lists.len()
            invariant
                0 <= i <= inverted_index.lists@.len(),
                v.lists == lists_view(inverted_index.lists@),
                v.lists.len() == inverted_index.lists@.len(),
                out@ == head + enc_seq(v.lists.take(i as int), f_list()),
            decreases inverted_index.lists@.len() - i,
        {
            proof {
                assert(v.lists.take(i + 1).drop_last() == v.lists.take(i as int));
                assert(v.lists.take(i + 1).last() == (
                inverted_index.lists@[i as int].ids@,
                inverted_index.lists@[i as int].codes@,
                ));
            }
            encode_list(&mut out, &inverted_index.lists[i]);
            i += 1;
        }
        assert(v.lists.take(v.lists.len() as int) == v.lists);
        assert(enc_ivf_file(v) == head + enc_seq(v.lists, f_list()));
        out
    }

    /// Decodes an IVF-PQ file.
    ///
    /// Succeeds exactly when `bytes` starts with the file of some index
    /// state, and then returns that state; bytes after it are ignored. A
    /// wrong magic number, version or metric byte is reported as such; any
    /// other failure is input that ends too early.
    pub fn decode(bytes: &[u8]) -> (r: Result<IvfPqFileData, VectorIndexError>)
        ensures
            r is Ok ==> holds_ivf(bytes@, data_view(r->Ok_0, u32_at(bytes@, 41)))
                && r->Ok_0.inverted_index.wf() && r->Ok_0.inverted_index.num_subvectors
                == r->Ok_0.config.num_subvectors,
            forall|v: IvfPqFileView| #[trigger]
                holds_ivf(bytes@, v) ==> r is Ok && data_view(r->Ok_0, v.num_centroids) == v,
            bytes@.len() < 8 ==> r == Err::<IvfPqFileData, VectorIndexError>(
                VectorIndexError::UnexpectedEof,
            ),
            bytes@.len() >= 8 && u64_at(bytes@, 0) != IVF_PQ_MAGIC ==> r == Err::<
                IvfPqFileData,
                VectorIndexError,
            >(
                VectorIndexError::InvalidHeader {
                    reason: HeaderFault::IvfPqMagic { found: u64_at(bytes@, 0) },
                },
            ),
            bytes@.len() >= 8 && u64_at(bytes@, 0) == IVF_PQ_MAGIC && bytes@.len() < 12 ==> r
                == Err::<IvfPqFileData, VectorIndexError>(VectorIndexError::UnexpectedEof),
            bytes@.len() >= 12 && u64_at(bytes@, 0) == IVF_PQ_MAGIC && u32_at(bytes@, 8)
                != IVF_PQ_VERSION ==> r == Err::<IvfPqFileData, VectorIndexError>(
                VectorIndexError::InvalidHeader {
                    reason: HeaderFault::IvfPqVersion { found: u32_at(bytes@, 8) },
                },
            ),
            ivf_header_ok(bytes@) && bytes@.len() >= 13 && spec_metric_of_code(bytes@[12])
                is None ==> r == Err::<IvfPqFileData, VectorIndexError>(
                VectorIndexError::InvalidHeader {
                    reason: HeaderFault::MetricCode { found: bytes@[12] },
                },
            ),
            ivf_header_ok(bytes@) && (bytes@.len() < 13 || spec_metric_of_code(bytes@[12]) is Some)
                && r is Err ==> r == Err::<IvfPqFileData, VectorIndexError>(
                VectorIndexError::UnexpectedEof,
            ),
    {
        let r = Self::decode_inner(bytes);
        proof {
            assert forall|v: IvfPqFileView| #[trigger]
                holds_ivf(bytes@, v) implies r is Ok && data_view(r->Ok_0, v.num_centroids)
                == v by {
                lemma_ivf_file_parses(bytes@, v);
                crate::metric::lemma_metric_code_roundtrip(v.metric, bytes@[12]);
            }
            if r is Ok {
                lemma_ivf_parse_describes(bytes@);
            }
        }
        r
    }

    #[verifier::loop_isolation(false)]
    fn decode_inner(b: &[u8]) -> (r: Result<IvfPqFileData, VectorIndexError>)
        ensures
            b@.len() < 8 ==> r == Err::<IvfPqFileData, VectorIndexError>(
                VectorIndexError::UnexpectedEof,
            ),
            b@.len() >= 8 && u64_at(b@, 0) != IVF_PQ_MAGIC ==> r == Err::<
                IvfPqFileData,
                VectorIndexError,
            >(
                VectorIndexError::InvalidHeader {
                    reason: HeaderFault::IvfPqMagic { found: u64_at(b@, 0) },
                },
            ),
            b@.len() >= 8 && u64_at(b@, 0) == IVF_PQ_MAGIC && b@.len() < 12 ==> r == Err::<
                IvfPqFileData,
                VectorIndexError,
            >(VectorIndexError::UnexpectedEof),
            b@.len() >= 12 && u64_at(b@, 0) == IVF_PQ_MAGIC && u32_at(b@, 8) != IVF_PQ_VERSION
                ==> r == Err::<IvfPqFileData, VectorIndexError>(
                VectorIndexError::InvalidHeader {
                    reason: HeaderFault::IvfPqVersion { found: u32_at(b@, 8) },
                },
            ),
            ivf_header_ok(b@) && b@.len() >= 13 && spec_metric_of_code(b@[12]) is None ==> r
                == Err::<IvfPqFileData, VectorIndexError>(
                VectorIndexError::InvalidHeader {
                    reason: HeaderFault::MetricCode { found: b@[12] },
                },
            ),
            ivf_header_ok(b@) && (b@.len() < 13 || spec_metric_of_code(b@[12]) is Some) ==> match parse_ivf_body(b@) {
                Some(v) => r is Ok && data_view(r->Ok_0, u32_at(b@, 41)) == v
                    && r->Ok_0.inverted_index.wf() && r->Ok_0.inverted_index.num_subvectors
                    == r->Ok_0.config.num_subvectors,
                None => r == Err::<IvfPqFileData, VectorIndexError>(
                    VectorIndexError::UnexpectedEof,
                ),
            },
    {
        let blen = b.len();
        let magic = match read_u64(b, 0) {
            Some(x) => x,
            None => return Err(VectorIndexError::UnexpectedEof),
        };
        if magic != IVF_PQ_MAGIC {
            return Err(
                VectorIndexError::InvalidHeader { reason: HeaderFault::IvfPqMagic { found: magic } },
            );
        }
        let version = match read_u32(b, 8) {
            Some(x) => x,
            None => return Err(VectorIndexError::UnexpectedEof),
        };
        if version != IVF_PQ_VERSION {
            return Err(
                VectorIndexError::InvalidHeader {
                    reason: HeaderFault::IvfPqVersion { found: version },
                },
            );
        }
        let code = match read_u8(b, 12) {
            Some(x) => x,
            None => return Err(VectorIndexError::UnexpectedEof),
        };
        let metric = match code_to_metric(code) {
            Some(m) => m,
            None => {
                return Err(
                    VectorIndexError::InvalidHeader {
                        reason: HeaderFault::MetricCode { found: code },
                    },
                )
            },
        };
        if blen < IVF_CENTROIDS_POS {
            return Err(VectorIndexError::UnexpectedEof);
        }
        let dimension = read_u32(b, 13).unwrap();
        let nlist = read_u32(b, 17).unwrap();
        let nprobe = read_u32(b, 21).unwrap();
        let num_subvectors = read_u32(b, 25).unwrap();
        let sub_clusters = read_u32(b, 29).unwrap();
        let max_kmeans_iters = read_u32(b, 33).unwrap();
        let tolerance_bits = read_u32(b, 37).unwrap();
        let k = read_u32(b, 41).unwrap();
        let config = IvfPqConfig {
            nlist: nlist as usize,
            nprobe: nprobe as usize,
            num_subvectors: num_subvectors as usize,
            sub_clusters: sub_clusters as usize,
            max_kmeans_iters: max_kmeans_iters as usize,
            kmeans_tolerance_bits: tolerance_bits,
            max_train_points: None,
        };
        assert(k as int * dimension as int <= u64::MAX) by (nonlinear_arith)
            requires
                k <= u32::MAX,
                dimension <= u32::MAX,
        ;
        let (coarse_centroids, p1) = match decode_u32_seq(
            b,
            IVF_CENTROIDS_POS,
            k as u64 * dimension as u64,
        ) {
            Some(x) => x,
            None => return Err(VectorIndexError::UnexpectedEof),
        };
        let cb_len = match read_u32(b, p1) {
            Some(x) => x,
            None => return Err(VectorIndexError::UnexpectedEof),
        };
        assert(p1 + 4 <= b@.len());
        let (codebooks, p3) = match decode_u32_seq(b, p1 + 4, cb_len as u64) {
            Some(x) => x,
            None => return Err(VectorIndexError::UnexpectedEof),
        };
        let n_lists = match read_u32(b, p3) {
            Some(x) => x,
            None => return Err(VectorIndexError::UnexpectedEof),
        };
        assert(p3 + 4 <= b@.len());
        let p4 = p3 + 4;
        let ghost nsub = num_subvectors as nat;
        let mut lists: Vec<InvertedList> = Vec::new();
        let mut total: usize = 0;
        let mut cur: usize = p4;
        let mut i: u32 = 0;
        while i < n_lists
            invariant
                p4 <= cur <= b@.len(),
                blen == b@.len(),
                0 <= i <= n_lists,
                total == total_len(lists@),
                total <= cur,
                forall|j: int| 0 <= j < lists@.len() ==> (#[trigger] lists@[j]).wf(nsub),
                parse_seq(b@, p4 as int, i as nat, q_list(nsub)) == Some(
                    (lists_view(lists@), cur as int),
                ),
            decreases n_lists - i,
        {
            match decode_list(b, cur, num_subvectors) {
                Some((list, next)) => {
                    proof {
                        lemma_lists_view_push(lists@, list);
                        assert(q_list(nsub)(b@, cur as int) == p_list(b@, cur as int, nsub));
                    }
                    total = total + list.ids.len();
                    lists.push(list);
                    cur = next;
                    i = i + 1;
                },
                None => {
                    proof {
                        assert(q_list(nsub)(b@, cur as int) == p_list(b@, cur as int, nsub));
                        assert(parse_seq(b@, p4 as int, (i + 1) as nat, q_list(nsub)) is None);
                        lemma_parse_seq_none_grows(
                            b@,
                            p4 as int,
                            (i + 1) as nat,
                            n_lists as nat,
                            q_list(nsub),
                        );
                    }
                    return Err(VectorIndexError::UnexpectedEof);
                },
            }
        }
        let inverted_index = InvertedIndex {
            lists,
            num_subvectors: num_subvectors as usize,
            total_vectors: total,
        };
        let data = IvfPqFileData {
            config,
            coarse_centroids,
            codebooks,
            inverted_index,
            dimension: dimension as usize,
            metric,
        };
        proof {
            let v = parse_ivf_body(b@)->0;
            assert(data_view(data, k) == v);
        }
        Ok(data)
    }
}

} // verus!
