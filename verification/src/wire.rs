//! Little-endian byte encoding shared by the binary file formats: fixed-width
//! integer reads and writes, and a generic description of sequences encoded
//! item after item, with the lemmas that relate encoding and parsing.

use vstd::bytes::*;
use vstd::prelude::*;

verus! {

/// The `u32` stored little-endian at `pos`.
pub open spec fn u32_at(b: Seq<u8>, pos: int) -> u32 {
    spec_u32_from_le_bytes(b.subrange(pos, pos + 4))
}

/// The `u64` stored little-endian at `pos`.
pub open spec fn u64_at(b: Seq<u8>, pos: int) -> u64 {
    spec_u64_from_le_bytes(b.subrange(pos, pos + 8))
}

/// `p` is a prefix of `b`.
pub open spec fn is_prefix(p: Seq<u8>, b: Seq<u8>) -> bool {
    p.len() <= b.len() && b.subrange(0, p.len() as int) == p
}

/// `piece` stands in `b` at position `pos`.
pub open spec fn stands_at(b: Seq<u8>, pos: int, piece: Seq<u8>) -> bool {
    0 <= pos && pos + piece.len() <= b.len() && b.subrange(pos, pos + piece.len()) == piece
}

/// Items encoded one after the other.
pub open spec fn enc_seq<T>(s: Seq<T>, f: spec_fn(T) -> Seq<u8>) -> Seq<u8>
    decreases s.len(),
{
    if s.len() == 0 {
        Seq::empty()
    } else {
        enc_seq(s.drop_last(), f) + f(s.last())
    }
}

/// Parses `count` items one after the other from `pos`, giving the items and
/// the position after the last one.
pub open spec fn parse_seq<T>(
    b: Seq<u8>,
    pos: int,
    count: nat,
    p: spec_fn(Seq<u8>, int) -> Option<(T, int)>,
) -> Option<(Seq<T>, int)>
    decreases count,
{
    if count == 0 {
        Some((Seq::empty(), pos))
    } else {
        match parse_seq(b, pos, (count - 1) as nat, p) {
            Some((s, q)) => match p(b, q) {
                Some((x, r)) => Some((s.push(x), r)),
                None => None,
            },
            None => None,
        }
    }
}

/// `p` reads back exactly what `f` writes, for every item accepted by `ok`.
pub open spec fn parser_complete<T>(
    f: spec_fn(T) -> Seq<u8>,
    p: spec_fn(Seq<u8>, int) -> Option<(T, int)>,
    ok: spec_fn(T) -> bool,
) -> bool {
    forall|b: Seq<u8>, q: int, x: T|
        #![trigger p(b, q), ok(x), f(x)]
        ok(x) && stands_at(b, q, f(x)) ==> p(b, q) == Some((x, q + f(x).len()))
}

/// Whatever `p` reads is an item accepted by `ok` whose encoding stands where it was read.
pub open spec fn parser_sound<T>(
    f: spec_fn(T) -> Seq<u8>,
    p: spec_fn(Seq<u8>, int) -> Option<(T, int)>,
    ok: spec_fn(T) -> bool,
) -> bool {
    forall|b: Seq<u8>, q: int|
        #![trigger p(b, q)]
        (p(b, q) is Some) ==> {
            let (x, r) = p(b, q)->0;
            &&& ok(x)
            &&& r == q + f(x).len()
            &&& stands_at(b, q, f(x))
        }
}

/// Concatenation of two adjacent pieces of `b`.
pub proof fn lemma_subrange_concat(b: Seq<u8>, i: int, j: int, k: int)
    requires
        0 <= i <= j <= k <= b.len(),
    ensures
        b.subrange(i, k) == b.subrange(i, j) + b.subrange(j, k),
{
    assert(b.subrange(i, k) =~= b.subrange(i, j) + b.subrange(j, k));
}

/// A piece of a piece.
pub proof fn lemma_stands_at_split(b: Seq<u8>, pos: int, x: Seq<u8>, y: Seq<u8>)
    requires
        stands_at(b, pos, x + y),
    ensures
        stands_at(b, pos, x),
        stands_at(b, pos + x.len(), y),
{
    let whole = b.subrange(pos, pos + x.len() + y.len());
    assert(whole == x + y);
    assert(b.subrange(pos, pos + x.len()) =~= whole.subrange(0, x.len() as int));
    assert(whole.subrange(0, x.len() as int) =~= x);
    assert(b.subrange(pos + x.len(), pos + x.len() + y.len()) =~= whole.subrange(
        x.len() as int,
        (x.len() + y.len()) as int,
    ));
    assert(whole.subrange(x.len() as int, (x.len() + y.len()) as int) =~= y);
}

/// Two adjacent pieces make one.
pub proof fn lemma_stands_at_join(b: Seq<u8>, pos: int, x: Seq<u8>, y: Seq<u8>)
    requires
        stands_at(b, pos, x),
        stands_at(b, pos + x.len(), y),
    ensures
        stands_at(b, pos, x + y),
{
    lemma_subrange_concat(b, pos, pos + x.len(), pos + x.len() + y.len());
}

/// Parsing the encoding of accepted items gives the items back.
pub proof fn lemma_parse_seq_complete<T>(
    b: Seq<u8>,
    pos: int,
    s: Seq<T>,
    f: spec_fn(T) -> Seq<u8>,
    p: spec_fn(Seq<u8>, int) -> Option<(T, int)>,
    ok: spec_fn(T) -> bool,
)
    requires
        parser_complete(f, p, ok),
        forall|i: int| 0 <= i < s.len() ==> #[trigger] ok(s[i]),
        stands_at(b, pos, enc_seq(s, f)),
    ensures
        parse_seq(b, pos, s.len(), p) == Some((s, pos + enc_seq(s, f).len())),
    decreases s.len(),
{
    if s.len() > 0 {
        let init = s.drop_last();
        let x = s.last();
        lemma_stands_at_split(b, pos, enc_seq(init, f), f(x));
        assert forall|i: int| 0 <= i < init.len() implies #[trigger] ok(init[i]) by {
            assert(ok(s[i]));
        }
        lemma_parse_seq_complete(b, pos, init, f, p, ok);
        assert(ok(s[s.len() - 1]));
        let q = pos + enc_seq(init, f).len();
        assert(p(b, q) == Some((x, q + f(x).len())));
        assert(init.push(x) == s);
    }
}

/// What `parse_seq` reads is accepted items whose encoding stands where they were read.
pub proof fn lemma_parse_seq_sound<T>(
    b: Seq<u8>,
    pos: int,
    count: nat,
    f: spec_fn(T) -> Seq<u8>,
    p: spec_fn(Seq<u8>, int) -> Option<(T, int)>,
    ok: spec_fn(T) -> bool,
)
    requires
        parser_sound(f, p, ok),
        0 <= pos <= b.len(),
    ensures
        parse_seq(b, pos, count, p) is Some ==> {
            let (s, r) = parse_seq(b, pos, count, p)->0;
            &&& s.len() == count
            &&& r == pos + enc_seq(s, f).len()
            &&& stands_at(b, pos, enc_seq(s, f))
            &&& forall|i: int| 0 <= i < s.len() ==> #[trigger] ok(s[i])
        },
    decreases count,
{
    if count == 0 {
        assert(b.subrange(pos, pos) =~= Seq::<u8>::empty());
    } else {
        lemma_parse_seq_sound(b, pos, (count - 1) as nat, f, p, ok);
        if parse_seq(b, pos, count, p) is Some {
            let (s0, q) = parse_seq(b, pos, (count - 1) as nat, p)->0;
            let (x, r) = p(b, q)->0;
            let s = s0.push(x);
            assert(s.drop_last() == s0);
            assert(s.last() == x);
            lemma_stands_at_join(b, pos, enc_seq(s0, f), f(x));
            assert forall|i: int| 0 <= i < s.len() implies #[trigger] ok(s[i]) by {
                if i < s0.len() {
                    assert(ok(s0[i]));
                }
            }
        }
    }
}

/// Once `parse_seq` fails, reading more items fails too.
pub proof fn lemma_parse_seq_none_grows<T>(
    b: Seq<u8>,
    pos: int,
    count: nat,
    more: nat,
    p: spec_fn(Seq<u8>, int) -> Option<(T, int)>,
)
    requires
        parse_seq(b, pos, count, p) is None,
        count <= more,
    ensures
        parse_seq(b, pos, more, p) is None,
    decreases more - count,
{
    if count < more {
        lemma_parse_seq_none_grows(b, pos, count, (more - 1) as nat, p);
    }
}

/// Length of a sequence of fixed-width items.
pub proof fn lemma_enc_seq_fixed_len<T>(s: Seq<T>, f: spec_fn(T) -> Seq<u8>, w: nat)
    requires
        forall|x: T| #[trigger] f(x).len() == w,
    ensures
        enc_seq(s, f).len() == s.len() * w,
    decreases s.len(),
{
    if s.len() > 0 {
        lemma_enc_seq_fixed_len(s.drop_last(), f, w);
        assert((s.len() - 1) * w + w == s.len() * w) by (nonlinear_arith);
    }
}

/// Reads a byte.
pub fn read_u8(b: &[u8], pos: usize) -> (r: Option<u8>)
    ensures
        pos < b@.len() ==> r == Some(b@[pos as int]),
        pos >= b@.len() ==> r is None,
{
    if pos < b.len() {
        Some(b[pos])
    } else {
        None
    }
}

/// Reads a little-endian `u32`.
pub fn read_u32(b: &[u8], pos: usize) -> (r: Option<u32>)
    ensures
        pos + 4 <= b@.len() ==> r == Some(u32_at(b@, pos as int)),
        pos + 4 > b@.len() ==> r is None,
{
    if pos <= b.len() && 4 <= b.len() - pos {
        let s = vstd::slice::slice_subrange(b, pos, pos + 4);
        Some(u32_from_le_bytes(s))
    } else {
        None
    }
}

/// Reads a little-endian `u64`.
pub fn read_u64(b: &[u8], pos: usize) -> (r: Option<u64>)
    ensures
        pos + 8 <= b@.len() ==> r == Some(u64_at(b@, pos as int)),
        pos + 8 > b@.len() ==> r is None,
{
    if pos <= b.len() && 8 <= b.len() - pos {
        let s = vstd::slice::slice_subrange(b, pos, pos + 8);
        Some(u64_from_le_bytes(s))
    } else {
        None
    }
}

/// Appends all bytes of `s`.
pub fn put_bytes(out: &mut Vec<u8>, s: &[u8])
    ensures
        final(out)@ == old(out)@ + s@,
{
    let ghost start = out@;
    let mut i: usize = 0;
    while i < s.len()
        invariant
            0 <= i <= s@.len(),
            out@ == start + s@.subrange(0, i as int),
        decreases s@.len() - i,
    {
        out.push(s[i]);
        i += 1;
        assert(s@.subrange(0, i as int) == s@.subrange(0, i - 1 as int).push(s@[i - 1]));
    }
    assert(s@.subrange(0, s@.len() as int) == s@);
}

/// Appends a byte.
pub fn put_u8(out: &mut Vec<u8>, v: u8)
    ensures
        final(out)@ == old(out)@ + seq![v],
{
    out.push(v);
    assert(old(out)@.push(v) =~= old(out)@ + seq![v]);
}

/// Appends a little-endian `u32`.
pub fn put_u32(out: &mut Vec<u8>, v: u32)
    ensures
        final(out)@ == old(out)@ + spec_u32_to_le_bytes(v),
{
    let bytes = u32_to_le_bytes(v);
    put_bytes(out, bytes.as_slice());
}

/// Appends a little-endian `u64`.
pub fn put_u64(out: &mut Vec<u8>, v: u64)
    ensures
        final(out)@ == old(out)@ + spec_u64_to_le_bytes(v),
{
    let bytes = u64_to_le_bytes(v);
    put_bytes(out, bytes.as_slice());
}

/// Encoded `u32` values read back.
pub proof fn lemma_u32_roundtrip(b: Seq<u8>, pos: int, v: u32)
    requires
        stands_at(b, pos, spec_u32_to_le_bytes(v)),
    ensures
        u32_at(b, pos) == v,
        spec_u32_to_le_bytes(v).len() == 4,
{
    lemma_auto_spec_u32_to_from_le_bytes();
}

/// Encoded `u64` values read back.
pub proof fn lemma_u64_roundtrip(b: Seq<u8>, pos: int, v: u64)
    requires
        stands_at(b, pos, spec_u64_to_le_bytes(v)),
    ensures
        u64_at(b, pos) == v,
        spec_u64_to_le_bytes(v).len() == 8,
{
    lemma_auto_spec_u64_to_from_le_bytes();
}

/// A value read at `pos` is written out as the bytes found there.
pub proof fn lemma_u32_read_stands(b: Seq<u8>, pos: int)
    requires
        0 <= pos,
        pos + 4 <= b.len(),
    ensures
        stands_at(b, pos, spec_u32_to_le_bytes(u32_at(b, pos))),
        spec_u32_to_le_bytes(u32_at(b, pos)).len() == 4,
{
    lemma_auto_spec_u32_to_from_le_bytes();
    assert(b.subrange(pos, pos + 4).len() == 4);
}

/// A value read at `pos` is written out as the bytes found there.
pub proof fn lemma_u64_read_stands(b: Seq<u8>, pos: int)
    requires
        0 <= pos,
        pos + 8 <= b.len(),
    ensures
        stands_at(b, pos, spec_u64_to_le_bytes(u64_at(b, pos))),
        spec_u64_to_le_bytes(u64_at(b, pos)).len() == 8,
{
    lemma_auto_spec_u64_to_from_le_bytes();
    assert(b.subrange(pos, pos + 8).len() == 8);
}

} // verus!
