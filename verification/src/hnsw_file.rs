//! Binary file format of an HNSW graph.
//!
//! Layout, all integers little-endian: magic (u64), version (u32), `m`,
//! `m0`, `ef_construction`, `ef_search` (u32 each), heuristic flag (one
//! byte, 1 = on), `max_level` (u32), entry point (u32, `u32::MAX` = none),
//! node count (u64); then per node its top layer (u32) and, for each of its
//! layers, the neighbor count (u32) followed by the neighbor ids (u32 each).

use crate::error::{HeaderFault, VectorIndexError};
use crate::graph::{HnswGraph, NodeLinks, node_view, nodes_view};
use crate::hnsw_config::HnswConfig;
use crate::wire::{
    put_u32, put_u64, put_u8, read_u32, read_u64, lemma_parse_seq_none_grows,
    lemma_subrange_concat, u64_at, lemma_u64_read_stands, lemma_u64_roundtrip,
    enc_seq, is_prefix, lemma_parse_seq_complete, lemma_parse_seq_sound, lemma_stands_at_join,
    lemma_stands_at_split, lemma_u32_read_stands, lemma_u32_roundtrip, parse_seq, parser_complete,
    parser_sound, stands_at, u32_at,
};
use vstd::bytes::*;
use vstd::prelude::*;

verus! {

/// Magic number of HNSW graph files ("HNSWVECR").
pub const HNSW_MAGIC: u64 = 0x484E_5357_5645_4352;

/// Version of the HNSW graph file format.
pub const HNSW_VERSION: u32 = 1;

/// Offset of the heuristic flag byte.
pub const HNSW_FLAG_POS: usize = 28;

/// Offset of the first node record.
pub const HNSW_NODES_POS: usize = 45;

/// Saves and loads HNSW graphs.
pub struct HnswSerializer;

/// What an HNSW graph file holds.
pub struct HnswFileView {
    pub config: HnswConfig,
    pub entry_point: Option<u32>,
    pub max_level: usize,
    pub nodes: Seq<Seq<Seq<u32>>>,
}

/// The file contents of a graph.
pub open spec fn graph_file_view(g: HnswGraph) -> HnswFileView {
    HnswFileView {
        config: g.config,
        entry_point: g.entry_point,
        max_level: g.max_level,
        nodes: nodes_view(g.nodes@),
    }
}

pub open spec fn enc_id(x: u32) -> Seq<u8> {
    spec_u32_to_le_bytes(x)
}

/// A neighbor list: its length, then the ids.
pub open spec fn enc_layer(ids: Seq<u32>) -> Seq<u8> {
    spec_u32_to_le_bytes(ids.len() as u32) + enc_seq(ids, |x: u32| enc_id(x))
}

/// The top-layer field of a node (0 for a node with no layer slot).
pub open spec fn node_level_field(layers: Seq<Seq<u32>>) -> u32 {
    if layers.len() == 0 {
        0
    } else {
        (layers.len() - 1) as u32
    }
}

/// A node record: its top layer, then each layer's neighbor list.
pub open spec fn enc_node(layers: Seq<Seq<u32>>) -> Seq<u8> {
    spec_u32_to_le_bytes(node_level_field(layers)) + enc_seq(
        layers,
        |l: Seq<u32>| enc_layer(l),
    )
}

/// The raw entry-point field.
pub open spec fn entry_point_field(ep: Option<u32>) -> u32 {
    match ep {
        Some(x) => x,
        None => u32::MAX,
    }
}

/// Everything before the node records, with `flag` as the heuristic byte.
pub open spec fn enc_graph_header(v: HnswFileView, flag: u8) -> Seq<u8> {
    spec_u64_to_le_bytes(HNSW_MAGIC) + spec_u32_to_le_bytes(HNSW_VERSION) + spec_u32_to_le_bytes(
        v.config.m as u32,
    ) + spec_u32_to_le_bytes(v.config.m0 as u32) + spec_u32_to_le_bytes(
        v.config.ef_construction as u32,
    ) + spec_u32_to_le_bytes(v.config.ef_search as u32) + seq![flag] + spec_u32_to_le_bytes(
        v.max_level as u32,
    ) + spec_u32_to_le_bytes(entry_point_field(v.entry_point)) + spec_u64_to_le_bytes(
        v.nodes.len() as u64,
    )
}

/// The whole file, with `flag` as the heuristic byte.
pub open spec fn enc_graph_file(v: HnswFileView, flag: u8) -> Seq<u8> {
    enc_graph_header(v, flag) + enc_seq(v.nodes, |n: Seq<Seq<u32>>| enc_node(n))
}

/// The heuristic byte that a save writes.
pub open spec fn canonical_flag(v: HnswFileView) -> u8 {
    if v.config.use_heuristic {
        1
    } else {
        0
    }
}

pub open spec fn layer_ok(ids: Seq<u32>) -> bool {
    ids.len() <= u32::MAX
}

pub open spec fn node_ok(layers: Seq<Seq<u32>>) -> bool {
    &&& 1 <= layers.len() <= u32::MAX as int + 1
    &&& forall|l: int| 0 <= l < layers.len() ==> layer_ok(#[trigger] layers[l])
}

/// The graphs that a file can describe exactly: every field fits its slot,
/// the entry point is not the reserved id, and every node has a layer.
pub open spec fn file_view_ok(v: HnswFileView) -> bool {
    &&& v.config.m <= u32::MAX
    &&& v.config.m0 <= u32::MAX
    &&& v.config.ef_construction <= u32::MAX
    &&& v.config.ef_search <= u32::MAX
    &&& v.max_level <= u32::MAX
    &&& v.entry_point != Some(u32::MAX)
    &&& v.nodes.len() <= u64::MAX
    &&& forall|i: int| 0 <= i < v.nodes.len() ==> node_ok(#[trigger] v.nodes[i])
}

/// `bytes` starts with a file describing `v`, with `flag` as heuristic byte.
pub open spec fn holds_graph(bytes: Seq<u8>, v: HnswFileView, flag: u8) -> bool {
    &&& file_view_ok(v)
    &&& (flag == 1) == v.config.use_heuristic
    &&& is_prefix(enc_graph_file(v, flag), bytes)
}

// ---- parsers -------------------------------------------------------------

pub open spec fn p_id(b: Seq<u8>, pos: int) -> Option<(u32, int)> {
    if 0 <= pos && pos + 4 <= b.len() {
        Some((u32_at(b, pos), pos + 4))
    } else {
        None
    }
}

pub open spec fn p_layer(b: Seq<u8>, pos: int) -> Option<(Seq<u32>, int)> {
    match p_id(b, pos) {
        Some((c, q)) => parse_seq(b, q, c as nat, |b2: Seq<u8>, q2: int| p_id(b2, q2)),
        None => None,
    }
}

pub open spec fn p_node(b: Seq<u8>, pos: int) -> Option<(Seq<Seq<u32>>, int)> {
    match p_id(b, pos) {
        Some((top, q)) => parse_seq(
            b,
            q,
            top as nat + 1,
            |b2: Seq<u8>, q2: int| p_layer(b2, q2),
        ),
        None => None,
    }
}

pub open spec fn f_id() -> spec_fn(u32) -> Seq<u8> {
    |x: u32| enc_id(x)
}

pub open spec fn f_layer() -> spec_fn(Seq<u32>) -> Seq<u8> {
    |l: Seq<u32>| enc_layer(l)
}

pub open spec fn f_node() -> spec_fn(Seq<Seq<u32>>) -> Seq<u8> {
    |n: Seq<Seq<u32>>| enc_node(n)
}

pub open spec fn q_id() -> spec_fn(Seq<u8>, int) -> Option<(u32, int)> {
    |b2: Seq<u8>, q2: int| p_id(b2, q2)
}

pub open spec fn q_layer() -> spec_fn(Seq<u8>, int) -> Option<(Seq<u32>, int)> {
    |b2: Seq<u8>, q2: int| p_layer(b2, q2)
}

pub open spec fn q_node() -> spec_fn(Seq<u8>, int) -> Option<(Seq<Seq<u32>>, int)> {
    |b2: Seq<u8>, q2: int| p_node(b2, q2)
}

pub open spec fn any_id() -> spec_fn(u32) -> bool {
    |x: u32| true
}

pub open spec fn ok_layer() -> spec_fn(Seq<u32>) -> bool {
    |l: Seq<u32>| layer_ok(l)
}

pub open spec fn ok_node() -> spec_fn(Seq<Seq<u32>>) -> bool {
    |n: Seq<Seq<u32>>| node_ok(n)
}

pub proof fn lemma_id_parser()
    ensures
        parser_complete(f_id(), q_id(), any_id()),
        parser_sound(f_id(), q_id(), any_id()),
{
    assert forall|b: Seq<u8>, q: int, x: u32|
        #![trigger q_id()(b, q), any_id()(x), f_id()(x)]
        any_id()(x) && stands_at(b, q, f_id()(x)) implies q_id()(b, q) == Some(
            (x, q + f_id()(x).len()),
        ) by {
        lemma_u32_roundtrip(b, q, x);
    }
    assert forall|b: Seq<u8>, q: int| #![trigger q_id()(b, q)] (q_id()(b, q) is Some) implies {
        let (x, r) = q_id()(b, q)->0;
        &&& any_id()(x)
        &&& r == q + f_id()(x).len()
        &&& stands_at(b, q, f_id()(x))
    } by {
        lemma_u32_read_stands(b, q);
    }
}

proof fn lemma_layer_parser()
    ensures
        parser_complete(f_layer(), q_layer(), ok_layer()),
        parser_sound(f_layer(), q_layer(), ok_layer()),
{
    lemma_id_parser();
    assert forall|b: Seq<u8>, q: int, x: Seq<u32>|
        #![trigger q_layer()(b, q), ok_layer()(x), f_layer()(x)]
        ok_layer()(x) && stands_at(b, q, f_layer()(x)) implies q_layer()(b, q) == Some(
            (x, q + f_layer()(x).len()),
        ) by {
        let head = spec_u32_to_le_bytes(x.len() as u32);
        let body = enc_seq(x, f_id());
        assert(f_layer()(x) == head + body);
        lemma_stands_at_split(b, q, head, body);
        lemma_u32_roundtrip(b, q, x.len() as u32);
        assert(p_id(b, q) == Some((x.len() as u32, q + 4)));
        lemma_parse_seq_complete(b, q + 4, x, f_id(), q_id(), any_id());
        assert(x.len() as u32 as nat == x.len());
    }
    assert forall|b: Seq<u8>, q: int| #![trigger q_layer()(b, q)] (q_layer()(b, q) is Some) implies {
        let (x, r) = q_layer()(b, q)->0;
        &&& ok_layer()(x)
        &&& r == q + f_layer()(x).len()
        &&& stands_at(b, q, f_layer()(x))
    } by {
        let c = u32_at(b, q);
        lemma_u32_read_stands(b, q);
        lemma_parse_seq_sound(b, q + 4, c as nat, f_id(), q_id(), any_id());
        let (x, r) = q_layer()(b, q)->0;
        assert(x.len() == c);
        lemma_stands_at_join(b, q, spec_u32_to_le_bytes(c), enc_seq(x, f_id()));
        assert(f_layer()(x) == spec_u32_to_le_bytes(c) + enc_seq(x, f_id()));
    }
}

proof fn lemma_node_parser()
    ensures
        parser_complete(f_node(), q_node(), ok_node()),
        parser_sound(f_node(), q_node(), ok_node()),
{
    lemma_layer_parser();
    assert forall|b: Seq<u8>, q: int, x: Seq<Seq<u32>>|
        #![trigger q_node()(b, q), ok_node()(x), f_node()(x)]
        ok_node()(x) && stands_at(b, q, f_node()(x)) implies q_node()(b, q) == Some(
            (x, q + f_node()(x).len()),
        ) by {
        let head = spec_u32_to_le_bytes(node_level_field(x));
        let body = enc_seq(x, f_layer());
        assert(f_node()(x) == head + body);
        lemma_stands_at_split(b, q, head, body);
        lemma_u32_roundtrip(b, q, node_level_field(x));
        assert forall|i: int| 0 <= i < x.len() implies #[trigger] ok_layer()(x[i]) by {
            assert(layer_ok(x[i]));
        }
        lemma_parse_seq_complete(b, q + 4, x, f_layer(), q_layer(), ok_layer());
        assert(node_level_field(x) as nat + 1 == x.len());
    }
    assert forall|b: Seq<u8>, q: int| #![trigger q_node()(b, q)] (q_node()(b, q) is Some) implies {
        let (x, r) = q_node()(b, q)->0;
        &&& ok_node()(x)
        &&& r == q + f_node()(x).len()
        &&& stands_at(b, q, f_node()(x))
    } by {
        let top = u32_at(b, q);
        lemma_u32_read_stands(b, q);
        lemma_parse_seq_sound(b, q + 4, top as nat + 1, f_layer(), q_layer(), ok_layer());
        let (x, r) = q_node()(b, q)->0;
        assert(x.len() == top as nat + 1);
        assert(node_level_field(x) == top);
        lemma_stands_at_join(b, q, spec_u32_to_le_bytes(top), enc_seq(x, f_layer()));
        assert(f_node()(x) == spec_u32_to_le_bytes(top) + enc_seq(x, f_layer()));
        assert forall|l: int| 0 <= l < x.len() implies layer_ok(#[trigger] x[l]) by {
            assert(ok_layer()(x[l]));
        }
    }
}


/// Reads the fields after the version: configuration, state and node records.
pub open spec fn parse_graph_body(b: Seq<u8>) -> Option<HnswFileView> {
    if b.len() < HNSW_NODES_POS {
        None
    } else {
        let config = HnswConfig {
            m: u32_at(b, 12) as usize,
            m0: u32_at(b, 16) as usize,
            ef_construction: u32_at(b, 20) as usize,
            ef_search: u32_at(b, 24) as usize,
            use_heuristic: b[28] == 1,
        };
        let ep_raw = u32_at(b, 33);
        let entry_point = if ep_raw == u32::MAX {
            None
        } else {
            Some(ep_raw)
        };
        match parse_seq(b, HNSW_NODES_POS as int, u64_at(b, 37) as nat, q_node()) {
            Some((nodes, _)) => Some(
                HnswFileView {
                    config,
                    entry_point,
                    max_level: u32_at(b, 29) as usize,
                    nodes,
                },
            ),
            None => None,
        }
    }
}

/// The magic number and version at the start of `b` are the expected ones.
pub open spec fn graph_header_ok(b: Seq<u8>) -> bool {
    b.len() >= 12 && u64_at(b, 0) == HNSW_MAGIC && u32_at(b, 8) == HNSW_VERSION
}

proof fn lemma_graph_header_fields(v: HnswFileView, flag: u8)
    ensures
        ({
            let h = enc_graph_header(v, flag);
            &&& h.len() == HNSW_NODES_POS
            &&& h.subrange(0, 8) == spec_u64_to_le_bytes(HNSW_MAGIC)
            &&& h.subrange(8, 12) == spec_u32_to_le_bytes(HNSW_VERSION)
            &&& h.subrange(12, 16) == spec_u32_to_le_bytes(v.config.m as u32)
            &&& h.subrange(16, 20) == spec_u32_to_le_bytes(v.config.m0 as u32)
            &&& h.subrange(20, 24) == spec_u32_to_le_bytes(v.config.ef_construction as u32)
            &&& h.subrange(24, 28) == spec_u32_to_le_bytes(v.config.ef_search as u32)
            &&& h[28] == flag
            &&& h.subrange(29, 33) == spec_u32_to_le_bytes(v.max_level as u32)
            &&& h.subrange(33, 37) == spec_u32_to_le_bytes(entry_point_field(v.entry_point))
            &&& h.subrange(37, 45) == spec_u64_to_le_bytes(v.nodes.len() as u64)
        }),
{
    lemma_auto_spec_u32_to_from_le_bytes();
    lemma_auto_spec_u64_to_from_le_bytes();
    let h = enc_graph_header(v, flag);
    assert(h.subrange(0, 8) =~= spec_u64_to_le_bytes(HNSW_MAGIC));
    assert(h.subrange(8, 12) =~= spec_u32_to_le_bytes(HNSW_VERSION));
    assert(h.subrange(12, 16) =~= spec_u32_to_le_bytes(v.config.m as u32));
    assert(h.subrange(16, 20) =~= spec_u32_to_le_bytes(v.config.m0 as u32));
    assert(h.subrange(20, 24) =~= spec_u32_to_le_bytes(v.config.ef_construction as u32));
    assert(h.subrange(24, 28) =~= spec_u32_to_le_bytes(v.config.ef_search as u32));
    assert(h.subrange(29, 33) =~= spec_u32_to_le_bytes(v.max_level as u32));
    assert(h.subrange(33, 37) =~= spec_u32_to_le_bytes(entry_point_field(v.entry_point)));
    assert(h.subrange(37, 45) =~= spec_u64_to_le_bytes(v.nodes.len() as u64));
}

/// A piece of a prefix is the same piece of the whole.
proof fn lemma_prefix_piece(b: Seq<u8>, h: Seq<u8>, i: int, j: int)
    requires
        is_prefix(h, b),
        0 <= i <= j <= h.len(),
    ensures
        b.subrange(i, j) == h.subrange(i, j),
{
    assert(b.subrange(i, j) =~= b.subrange(0, h.len() as int).subrange(i, j));
}

/// A file describing `v` parses to `v`.
pub proof fn lemma_graph_file_parses(b: Seq<u8>, v: HnswFileView, flag: u8)
    requires
        holds_graph(b, v, flag),
    ensures
        graph_header_ok(b),
        b[HNSW_FLAG_POS as int] == flag,
        parse_graph_body(b) == Some(v),
{
    let h = enc_graph_header(v, flag);
    let body = enc_seq(v.nodes, f_node());
    assert(enc_graph_file(v, flag) == h + body);
    lemma_graph_header_fields(v, flag);
    assert(stands_at(b, 0, h + body)) by {
        assert(b.subrange(0, (h + body).len() as int) == h + body);
    }
    lemma_stands_at_split(b, 0, h, body);
    assert(is_prefix(h, b));
    lemma_prefix_piece(b, h, 0, 8);
    lemma_prefix_piece(b, h, 8, 12);
    lemma_prefix_piece(b, h, 12, 16);
    lemma_prefix_piece(b, h, 16, 20);
    lemma_prefix_piece(b, h, 20, 24);
    lemma_prefix_piece(b, h, 24, 28);
    lemma_prefix_piece(b, h, 29, 33);
    lemma_prefix_piece(b, h, 33, 37);
    lemma_prefix_piece(b, h, 37, 45);
    assert(b[28] == b.subrange(0, 45)[28]);
    lemma_auto_spec_u32_to_from_le_bytes();
    lemma_auto_spec_u64_to_from_le_bytes();
    lemma_node_parser();
    assert forall|i: int| 0 <= i < v.nodes.len() implies #[trigger] ok_node()(v.nodes[i]) by {
        assert(node_ok(v.nodes[i]));
    }
    lemma_parse_seq_complete(b, 45, v.nodes, f_node(), q_node(), ok_node());
    assert(u64_at(b, 37) as nat == v.nodes.len());
    let ep_raw = u32_at(b, 33);
    assert(ep_raw == entry_point_field(v.entry_point));
}

/// What parses from a file with the right header is a graph that the file describes.
pub proof fn lemma_graph_parse_describes(b: Seq<u8>)
    requires
        graph_header_ok(b),
        parse_graph_body(b) is Some,
    ensures
        holds_graph(b, parse_graph_body(b)->0, b[HNSW_FLAG_POS as int]),
{
    let v = parse_graph_body(b)->0;
    let flag = b[28];
    lemma_node_parser();
    lemma_parse_seq_sound(b, 45, u64_at(b, 37) as nat, f_node(), q_node(), ok_node());
    let h = enc_graph_header(v, flag);
    lemma_graph_header_fields(v, flag);
    lemma_u64_read_stands(b, 0);
    lemma_u32_read_stands(b, 8);
    lemma_u32_read_stands(b, 12);
    lemma_u32_read_stands(b, 16);
    lemma_u32_read_stands(b, 20);
    lemma_u32_read_stands(b, 24);
    lemma_u32_read_stands(b, 29);
    lemma_u32_read_stands(b, 33);
    lemma_u64_read_stands(b, 37);
    assert(b.subrange(0, 45) =~= h) by {
        assert forall|k: int| 0 <= k < 45 implies b.subrange(0, 45)[k] == h[k] by {
            if k < 8 {
                assert(b.subrange(0, 8)[k] == h.subrange(0, 8)[k]);
            } else if k < 12 {
                assert(b.subrange(8, 12)[k - 8] == h.subrange(8, 12)[k - 8]);
            } else if k < 16 {
                assert(b.subrange(12, 16)[k - 12] == h.subrange(12, 16)[k - 12]);
            } else if k < 20 {
                assert(b.subrange(16, 20)[k - 16] == h.subrange(16, 20)[k - 16]);
            } else if k < 24 {
                assert(b.subrange(20, 24)[k - 20] == h.subrange(20, 24)[k - 20]);
            } else if k < 28 {
                assert(b.subrange(24, 28)[k - 24] == h.subrange(24, 28)[k - 24]);
            } else if k == 28 {
            } else if k < 33 {
                assert(b.subrange(29, 33)[k - 29] == h.subrange(29, 33)[k - 29]);
            } else if k < 37 {
                assert(b.subrange(33, 37)[k - 33] == h.subrange(33, 37)[k - 33]);
            } else {
                assert(b.subrange(37, 45)[k - 37] == h.subrange(37, 45)[k - 37]);
            }
        }
    }
    lemma_stands_at_join(b, 0, h, enc_seq(v.nodes, f_node()));
    assert(enc_graph_file(v, flag) == h + enc_seq(v.nodes, f_node()));
    assert forall|i: int| 0 <= i < v.nodes.len() implies node_ok(#[trigger] v.nodes[i]) by {
        assert(ok_node()(v.nodes[i]));
    }
}


/// Appends a neighbor list record.
pub(crate) fn encode_layer(out: &mut Vec<u8>, ids: &Vec<u32>)
    ensures
        final(out)@ == old(out)@ + enc_layer(ids@),
{
    let ghost start = out@;
    put_u32(out, ids.len() as u32);
    let ghost head = out@;
    let mut i: usize = 0;
    while i < ids.len()
        invariant
            0 <= i <= ids@.len(),
            head == start + spec_u32_to_le_bytes(ids@.len() as u32),
            out@ == head + enc_seq(ids@.take(i as int), f_id()),
        decreases ids@.len() - i,
    {
        proof {
            assert(ids@.take(i + 1).drop_last() == ids@.take(i as int));
            assert(ids@.take(i + 1).last() == ids@[i as int]);
        }
        put_u32(out, ids[i]);
        i += 1;
    }
    assert(ids@.take(ids@.len() as int) == ids@);
    assert(enc_layer(ids@) == spec_u32_to_le_bytes(ids@.len() as u32) + enc_seq(ids@, f_id()));
}

/// Appends a node record.
fn encode_node(out: &mut Vec<u8>, node: &NodeLinks)
    ensures
        final(out)@ == old(out)@ + enc_node(node_view(*node)),
{
    let ghost start = out@;
    let ghost nv = node_view(*node);
    let top = node.max_level();
    let nl = node.layers.len();
    assert(nv.len() == node.layers@.len());
    assert(top as int == if nv.len() == 0 {
        0
    } else {
        nv.len() - 1
    });
    put_u32(out, #[verifier::truncate] (top as u32));
    let ghost head = out@;
    assert(#[verifier::truncate] (top as u32) == node_level_field(nv));
    let mut j: usize = 0;
    while j < node.layers.len()
        invariant
            0 <= j <= node.layers@.len(),
            nv == node_view(*node),
            nv.len() == node.layers@.len(),
            head == start + spec_u32_to_le_bytes(node_level_field(nv)),
            out@ == head + enc_seq(nv.take(j as int), f_layer()),
        decreases node.layers@.len() - j,
    {
        proof {
            assert(nv.take(j + 1).drop_last() == nv.take(j as int));
            assert(nv.take(j + 1).last() == node.layers@[j as int]@);
        }
        encode_layer(out, &node.layers[j]);
        j += 1;
    }
    assert(nv.take(nv.len() as int) == nv);
    assert(enc_node(nv) == spec_u32_to_le_bytes(node_level_field(nv)) + enc_seq(nv, f_layer()));
}

/// Reads a neighbor list record at `pos`.
fn decode_layer(b: &[u8], pos: usize) -> (r: Option<(Vec<u32>, usize)>)
    ensures
        match r {
            Some((ids, q)) => p_layer(b@, pos as int) == Some((ids@, q as int)),
            None => p_layer(b@, pos as int) is None,
        },
{
    let blen = b.len();
    let count = match read_u32(b, pos) {
        Some(c) => c,
        None => return None,
    };
    assert(pos + 4 <= b@.len());
    let start = pos + 4;
    let mut ids: Vec<u32> = Vec::new();
    let mut cur = start;
    let mut i: u32 = 0;
    while i < count
        invariant
            start == pos + 4,
            start <= cur <= b@.len(),
            blen == b@.len(),
            0 <= i <= count,
            p_id(b@, pos as int) == Some((count, start as int)),
            parse_seq(b@, start as int, i as nat, q_id()) == Some((ids@, cur as int)),
        decreases count - i,
    {
        match read_u32(b, cur) {
            Some(x) => {
                assert(cur + 4 <= b@.len());
                ids.push(x);
                cur = cur + 4;
                i = i + 1;
            },
            None => {
                proof {
                    assert(parse_seq(b@, start as int, (i + 1) as nat, q_id()) is None);
                    lemma_parse_seq_none_grows(
                        b@,
                        start as int,
                        (i + 1) as nat,
                        count as nat,
                        q_id(),
                    );
                }
                return None;
            },
        }
    }
    Some((ids, cur))
}

/// The neighbor lists of a node, as sequences, after one more list.
proof fn lemma_layers_view_push(layers: Seq<Vec<u32>>, l: Vec<u32>)
    ensures
        layers.push(l).map_values(|x: Vec<u32>| x@) == layers.map_values(|x: Vec<u32>| x@).push(
            l@,
        ),
{
    assert(layers.push(l).map_values(|x: Vec<u32>| x@) =~= layers.map_values(|x: Vec<u32>| x@).push(
        l@,
    ));
}

/// Reads a node record at `pos`.
fn decode_node(b: &[u8], pos: usize) -> (r: Option<(NodeLinks, usize)>)
    ensures
        match r {
            Some((n, q)) => p_node(b@, pos as int) == Some((node_view(n), q as int)),
            None => p_node(b@, pos as int) is None,
        },
{
    let blen = b.len();
    let top = match read_u32(b, pos) {
        Some(t) => t,
        None => return None,
    };
    assert(pos + 4 <= b@.len());
    let count: u64 = top as u64 + 1;
    let start = pos + 4;
    let mut layers: Vec<Vec<u32>> = Vec::new();
    let mut cur = start;
    let mut i: u64 = 0;
    while i < count
        invariant
            start == pos + 4,
            start <= cur <= b@.len(),
            0 <= i <= count,
            count == top as u64 + 1,
            p_id(b@, pos as int) == Some((top, start as int)),
            parse_seq(b@, start as int, i as nat, q_layer()) == Some(
                (layers@.map_values(|x: Vec<u32>| x@), cur as int),
            ),
        decreases count - i,
    {
        match decode_layer(b, cur) {
            Some((ids, next)) => {
                proof {
                    lemma_layer_parser();
                    lemma_layers_view_push(layers@, ids);
                    assert(parser_sound(f_layer(), q_layer(), ok_layer()));
                    assert(q_layer()(b@, cur as int) is Some);
                }
                layers.push(ids);
                cur = next;
                i = i + 1;
            },
            None => {
                proof {
                    assert(parse_seq(b@, start as int, (i + 1) as nat, q_layer()) is None);
                    lemma_parse_seq_none_grows(
                        b@,
                        start as int,
                        (i + 1) as nat,
                        count as nat,
                        q_layer(),
                    );
                }
                return None;
            },
        }
    }
    Some((NodeLinks { layers }, cur))
}

/// Saving then loading gives the graph back: the file written for a graph
/// that a file can describe exactly holds that graph (with its heuristic byte).
pub proof fn lemma_graph_file_roundtrip(v: HnswFileView)
    requires
        file_view_ok(v),
    ensures
        holds_graph(enc_graph_file(v, canonical_flag(v)), v, canonical_flag(v)),
{
    let e = enc_graph_file(v, canonical_flag(v));
    assert(e.subrange(0, e.len() as int) =~= e);
}

/// The nodes as sequences, after one more node.
proof fn lemma_nodes_view_push(ns: Seq<NodeLinks>, n: NodeLinks)
    ensures
        nodes_view(ns.push(n)) == nodes_view(ns).push(node_view(n)),
{
    assert(nodes_view(ns.push(n)) =~= nodes_view(ns).push(node_view(n)));
}

impl HnswSerializer {
    /// Encodes a graph as an HNSW graph file.
    pub fn encode_graph(graph: &HnswGraph) -> (out: Vec<u8>)
        ensures
            out@ == enc_graph_file(
                graph_file_view(*graph),
                canonical_flag(graph_file_view(*graph)),
            ),
    {
        let ghost v = graph_file_view(*graph);
        let mut out: Vec<u8> = Vec::new();
        put_u64(&mut out, HNSW_MAGIC);
        put_u32(&mut out, HNSW_VERSION);
        put_u32(&mut out, graph.config.m as u32);
        put_u32(&mut out, graph.config.m0 as u32);
        put_u32(&mut out, graph.config.ef_construction as u32);
        put_u32(&mut out, graph.config.ef_search as u32);
        let flag: u8 = if graph.config.use_heuristic {
            1
        } else {
            0
        };
        put_u8(&mut out, flag);
        put_u32(&mut out, graph.max_level as u32);
        let ep: u32 = match graph.entry_point {
            Some(x) => x,
            None => u32::MAX,
        };
        put_u32(&mut out, ep);
        put_u64(&mut out, graph.nodes.len() as u64);
        let ghost head = out@;
        assert(head == enc_graph_header(v, flag));
        let mut i: usize = 0;
        while i < graph.nodes.len()
            invariant
                0 <= i <= graph.nodes@.len(),
                v == graph_file_view(*graph),
                v.nodes.len() == graph.nodes@.len(),
                head == enc_graph_header(v, flag),
                flag == canonical_flag(v),
                out@ == head + enc_seq(v.nodes.take(i as int), f_node()),
            decreases graph.nodes@.len() - i,
        {
            proof {
                assert(v.nodes.take(i + 1).drop_last() == v.nodes.take(i as int));
                assert(v.nodes.take(i + 1).last() == node_view(graph.nodes@[i as int]));
            }
            encode_node(&mut out, &graph.nodes[i]);
            i += 1;
        }
        assert(v.nodes.take(v.nodes.len() as int) == v.nodes);
        out
    }

    /// Decodes an HNSW graph file.
    ///
    /// Succeeds exactly when `bytes` starts with the file of some graph, and
    /// then returns that graph; bytes after it are ignored. A wrong magic
    /// number or version is reported as such; any other failure is input
    /// that ends too early.
    pub fn decode_graph(bytes: &[u8]) -> (r: Result<HnswGraph, VectorIndexError>)
        ensures
            r is Ok ==> holds_graph(bytes@, graph_file_view(r->Ok_0), bytes@[HNSW_FLAG_POS as int])
                && r->Ok_0.num_nodes == r->Ok_0.nodes@.len(),
            forall|v: HnswFileView, flag: u8| #[trigger]
                holds_graph(bytes@, v, flag) ==> r is Ok && graph_file_view(r->Ok_0) == v,
            bytes@.len() < 8 ==> r == Err::<HnswGraph, VectorIndexError>(
                VectorIndexError::UnexpectedEof,
            ),
            bytes@.len() >= 8 && u64_at(bytes@, 0) != HNSW_MAGIC ==> r == Err::<
                HnswGraph,
                VectorIndexError,
            >(
                VectorIndexError::InvalidHeader {
                    reason: HeaderFault::HnswMagic { found: u64_at(bytes@, 0) },
                },
            ),
            bytes@.len() >= 8 && u64_at(bytes@, 0) == HNSW_MAGIC && bytes@.len() < 12 ==> r == Err::<
                HnswGraph,
                VectorIndexError,
            >(VectorIndexError::UnexpectedEof),
            bytes@.len() >= 12 && u64_at(bytes@, 0) == HNSW_MAGIC && u32_at(bytes@, 8)
                != HNSW_VERSION ==> r == Err::<HnswGraph, VectorIndexError>(
                VectorIndexError::InvalidHeader {
                    reason: HeaderFault::HnswVersion { found: u32_at(bytes@, 8) },
                },
            ),
            graph_header_ok(bytes@) && r is Err ==> r == Err::<HnswGraph, VectorIndexError>(
                VectorIndexError::UnexpectedEof,
            ),
    {
        let r = Self::decode_graph_inner(bytes);
        proof {
            assert forall|v: HnswFileView, flag: u8| #[trigger]
                holds_graph(bytes@, v, flag) implies r is Ok && graph_file_view(r->Ok_0) == v by {
                lemma_graph_file_parses(bytes@, v, flag);
            }
            if r is Ok {
                lemma_graph_parse_describes(bytes@);
            }
        }
        r
    }

    fn decode_graph_inner(b: &[u8]) -> (r: Result<HnswGraph, VectorIndexError>)
        ensures
            b@.len() < 8 ==> r == Err::<HnswGraph, VectorIndexError>(
                VectorIndexError::UnexpectedEof,
            ),
            b@.len() >= 8 && u64_at(b@, 0) != HNSW_MAGIC ==> r == Err::<HnswGraph, VectorIndexError>(
                VectorIndexError::InvalidHeader {
                    reason: HeaderFault::HnswMagic { found: u64_at(b@, 0) },
                },
            ),
            b@.len() >= 8 && u64_at(b@, 0) == HNSW_MAGIC && b@.len() < 12 ==> r == Err::<
                HnswGraph,
                VectorIndexError,
            >(VectorIndexError::UnexpectedEof),
            b@.len() >= 12 && u64_at(b@, 0) == HNSW_MAGIC && u32_at(b@, 8) != HNSW_VERSION ==> r
                == Err::<HnswGraph, VectorIndexError>(
                VectorIndexError::InvalidHeader {
                    reason: HeaderFault::HnswVersion { found: u32_at(b@, 8) },
                },
            ),
            graph_header_ok(b@) ==> match parse_graph_body(b@) {
                Some(v) => r is Ok && graph_file_view(r->Ok_0) == v && r->Ok_0.num_nodes
                    == r->Ok_0.nodes@.len(),
                None => r == Err::<HnswGraph, VectorIndexError>(VectorIndexError::UnexpectedEof),
            },
    {
        let blen = b.len();
        let magic = match read_u64(b, 0) {
            Some(x) => x,
            None => return Err(VectorIndexError::UnexpectedEof),
        };
        if magic != HNSW_MAGIC {
            return Err(
                VectorIndexError::InvalidHeader { reason: HeaderFault::HnswMagic { found: magic } },
            );
        }
        let version = match read_u32(b, 8) {
            Some(x) => x,
            None => return Err(VectorIndexError::UnexpectedEof),
        };
        if version != HNSW_VERSION {
            return Err(
                VectorIndexError::InvalidHeader {
                    reason: HeaderFault::HnswVersion { found: version },
                },
            );
        }
        if blen < HNSW_NODES_POS {
            return Err(VectorIndexError::UnexpectedEof);
        }
        let m = read_u32(b, 12).unwrap();
        let m0 = read_u32(b, 16).unwrap();
        let ef_construction = read_u32(b, 20).unwrap();
        let ef_search = read_u32(b, 24).unwrap();
        let use_heuristic = b[HNSW_FLAG_POS] == 1;
        let max_level = read_u32(b, 29).unwrap();
        let ep_raw = read_u32(b, 33).unwrap();
        let count = read_u64(b, 37).unwrap();
        let config = HnswConfig {
            m: m as usize,
            m0: m0 as usize,
            ef_construction: ef_construction as usize,
            ef_search: ef_search as usize,
            use_heuristic,
        };
        let entry_point = if ep_raw == u32::MAX {
            None
        } else {
            Some(ep_raw)
        };
        let mut nodes: Vec<NodeLinks> = Vec::new();
        let mut cur: usize = HNSW_NODES_POS;
        let mut i: u64 = 0;
        while i < count
            invariant
                HNSW_NODES_POS <= cur <= b@.len(),
                blen == b@.len(),
                0 <= i <= count,
                count == u64_at(b@, 37),
                u64_at(b@, 0) == HNSW_MAGIC,
                u32_at(b@, 8) == HNSW_VERSION,
                parse_seq(b@, HNSW_NODES_POS as int, i as nat, q_node()) == Some(
                    (nodes_view(nodes@), cur as int),
                ),
            decreases count - i,
        {
            match decode_node(b, cur) {
                Some((node, next)) => {
                    proof {
                        lemma_node_parser();
                        lemma_nodes_view_push(nodes@, node);
                        assert(q_node()(b@, cur as int) is Some);
                    }
                    nodes.push(node);
                    cur = next;
                    i = i + 1;
                },
                None => {
                    proof {
                        assert(parse_seq(b@, HNSW_NODES_POS as int, (i + 1) as nat, q_node())
                            is None);
                        lemma_parse_seq_none_grows(
                            b@,
                            HNSW_NODES_POS as int,
                            (i + 1) as nat,
                            count as nat,
                            q_node(),
                        );
                    }
                    return Err(VectorIndexError::UnexpectedEof);
                },
            }
        }
        let num_nodes = nodes.len();
        let g = HnswGraph {
            config,
            nodes,
            entry_point,
            max_level: max_level as usize,
            num_nodes,
        };
        proof {
            let v = parse_graph_body(b@)->0;
            assert(graph_file_view(g).nodes == v.nodes);
            assert(graph_file_view(g).config == v.config);
        }
        Ok(g)
    }
}

} // verus!
