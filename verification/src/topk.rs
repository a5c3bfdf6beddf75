//! Bounded top-K selection over scored search hits.
//!
//! A score is held as an order key: a `u32` that compares as the score does
//! (for a floating-point score, the usual monotone map of its bit pattern).
//! Whether a higher or a lower score is better depends on the metric.

use vstd::prelude::*;

verus! {

/// A value with the order key of its score.
pub trait ScoreKeyed {
    /// The order key of the score.
    spec fn key_of(&self) -> u32;

    /// Returns the order key of the score.
    fn score_key(&self) -> (k: u32)
        ensures
            k == self.key_of(),
    ;
}

/// A single search hit: a vector id and the order key of its score.
#[derive(Debug, Clone, Copy, PartialEq, Eq, Structural)]
pub struct SearchResult {
    /// Identifier of the matched vector.
    pub id: u32,
    /// Order key of the distance or similarity score.
    pub score_key: u32,
}

impl SearchResult {
    /// Creates a hit.
    pub fn new(id: u32, score_key: u32) -> (r: Self)
        ensures
            r.id == id,
            r.score_key == score_key,
    {
        SearchResult { id, score_key }
    }
}

impl ScoreKeyed for SearchResult {
    open spec fn key_of(&self) -> u32 {
        self.score_key
    }

    fn score_key(&self) -> (k: u32) {
        self.score_key
    }
}

/// `a` ranks strictly before `b`.
pub open spec fn better<T: ScoreKeyed>(a: T, b: T, higher_is_better: bool) -> bool {
    if higher_is_better {
        a.key_of() > b.key_of()
    } else {
        a.key_of() < b.key_of()
    }
}

/// Best first: no item ranks strictly before one that precedes it.
pub open spec fn ranked<T: ScoreKeyed>(s: Seq<T>, higher_is_better: bool) -> bool {
    forall|i: int, j: int|
        0 <= i < j < s.len() ==> !better(#[trigger] s[j], #[trigger] s[i], higher_is_better)
}

pub open spec fn min_nat(a: nat, b: nat) -> nat {
    if a <= b {
        a
    } else {
        b
    }
}

/// `r` is a best-first selection of `min(k, |s|)` items of `s` such that
/// every item of `s` left out ranks no better than any item kept.
pub open spec fn is_top_k<T: ScoreKeyed>(r: Seq<T>, s: Seq<T>, k: nat, higher_is_better: bool) -> bool {
    &&& r.len() == min_nat(k, s.len())
    &&& ranked(r, higher_is_better)
    &&& r.to_multiset().subset_of(s.to_multiset())
    &&& forall|x: T, j: int|
        #![trigger s.to_multiset().count(x), r[j]]
        s.to_multiset().count(x) > r.to_multiset().count(x) && 0 <= j < r.len() ==> !better(
            x,
            r[j],
            higher_is_better,
        )
}

/// All items of all shards, shard after shard.
pub open spec fn all_items<T>(shards: Seq<Vec<T>>) -> Seq<T>
    decreases shards.len(),
{
    if shards.len() == 0 {
        Seq::empty()
    } else {
        all_items(shards.drop_last()) + shards.last()@
    }
}

/// The selection `best` of the items `seen`, with `dropped` the items left out.
pub open spec fn selection_inv<T: ScoreKeyed>(
    best: Seq<T>,
    dropped: Seq<T>,
    seen: Seq<T>,
    k: nat,
    higher_is_better: bool,
) -> bool {
    &&& (best + dropped).to_multiset() == seen.to_multiset()
    &&& best.len() == min_nat(k, seen.len())
    &&& ranked(best, higher_is_better)
    &&& forall|i: int, j: int|
        0 <= i < dropped.len() && 0 <= j < best.len() ==> !better(
            #[trigger] dropped[i],
            #[trigger] best[j],
            higher_is_better,
        )
}

/// A selection with its dropped items is a top-K of what was seen.
pub proof fn lemma_selection_is_top_k<T: ScoreKeyed>(
    best: Seq<T>,
    dropped: Seq<T>,
    seen: Seq<T>,
    k: nat,
    higher_is_better: bool,
)
    requires
        selection_inv(best, dropped, seen, k, higher_is_better),
    ensures
        is_top_k(best, seen, k, higher_is_better),
{
    broadcast use vstd::seq_lib::group_to_multiset_ensures;
    broadcast use vstd::multiset::group_multiset_axioms;

    vstd::seq_lib::lemma_multiset_commutative(best, dropped);
    assert(seen.to_multiset() =~= best.to_multiset().add(dropped.to_multiset()));
    assert forall|x: T, j: int|
        #![trigger seen.to_multiset().count(x), best[j]]
        seen.to_multiset().count(x) > best.to_multiset().count(x) && 0 <= j < best.len()
            implies !better(x, best[j], higher_is_better) by {
        assert(dropped.to_multiset().count(x) > 0);
        assert(dropped.contains(x));
        let i = choose|i: int| 0 <= i < dropped.len() && dropped[i] == x;
        assert(!better(dropped[i], best[j], higher_is_better));
    }
}

/// The empty selection of nothing seen.
pub proof fn lemma_selection_empty<T: ScoreKeyed>(k: nat, higher_is_better: bool)
    ensures
        selection_inv(Seq::<T>::empty(), Seq::<T>::empty(), Seq::<T>::empty(), k, higher_is_better),
{
    broadcast use vstd::seq_lib::group_to_multiset_ensures;

    assert(Seq::<T>::empty() + Seq::<T>::empty() =~= Seq::<T>::empty());
}

/// Whether `a` ranks strictly before `b`.
pub fn beats<T: ScoreKeyed>(a: &T, b: &T, higher_is_better: bool) -> (r: bool)
    ensures
        r == better(*a, *b, higher_is_better),
{
    let ka = a.score_key();
    let kb = b.score_key();
    if higher_is_better {
        ka > kb
    } else {
        ka < kb
    }
}

/// Position at which `x` goes into the best-first sequence `best`: after
/// every item that `x` does not beat.
pub(crate) fn insert_pos<T: ScoreKeyed>(best: &Vec<T>, x: &T, higher_is_better: bool) -> (p: usize)
    requires
        ranked(best@, higher_is_better),
    ensures
        p <= best@.len(),
        forall|i: int| 0 <= i < p ==> !better(*x, #[trigger] best@[i], higher_is_better),
        forall|i: int| p <= i < best@.len() ==> better(*x, #[trigger] best@[i], higher_is_better),
{
    let mut p: usize = 0;
    while p < best.len()
        invariant
            p <= best@.len(),
            ranked(best@, higher_is_better),
            forall|i: int| 0 <= i < p ==> !better(*x, #[trigger] best@[i], higher_is_better),
        decreases best@.len() - p,
    {
        if beats(x, &best[p], higher_is_better) {
            assert forall|i: int| p <= i < best@.len() implies better(
                *x,
                #[trigger] best@[i],
                higher_is_better,
            ) by {
                if i > p {
                    assert(!better(best@[i], best@[p as int], higher_is_better));
                }
            }
            return p;
        }
        p += 1;
    }
    p
}

/// Inserting `x` at its position keeps the sequence best first.
pub(crate) proof fn lemma_insert_ranked<T: ScoreKeyed>(best: Seq<T>, x: T, p: int, higher_is_better: bool)
    requires
        ranked(best, higher_is_better),
        0 <= p <= best.len(),
        forall|i: int| 0 <= i < p ==> !better(x, #[trigger] best[i], higher_is_better),
        forall|i: int| p <= i < best.len() ==> better(x, #[trigger] best[i], higher_is_better),
    ensures
        ranked(best.insert(p, x), higher_is_better),
{
    let n = best.insert(p, x);
    assert forall|i: int, j: int| 0 <= i < j < n.len() implies !better(
        #[trigger] n[j],
        #[trigger] n[i],
        higher_is_better,
    ) by {
        if j < p {
            assert(n[i] == best[i] && n[j] == best[j]);
        } else if j == p {
            assert(n[i] == best[i]);
            assert(!better(x, best[i], higher_is_better));
        } else if i == p {
            assert(n[j] == best[j - 1]);
            assert(better(x, best[j - 1], higher_is_better));
        } else if i < p {
            assert(n[i] == best[i] && n[j] == best[j - 1]);
        } else {
            assert(n[i] == best[i - 1] && n[j] == best[j - 1]);
        }
    }
}

/// The first `t` items of a top-`k` selection, `t <= k`, are a top-`t`
/// selection of the same items.
pub(crate) proof fn lemma_top_k_prefix<T: ScoreKeyed>(
    r: Seq<T>,
    s: Seq<T>,
    k: nat,
    t: nat,
    higher_is_better: bool,
)
    requires
        is_top_k(r, s, k, higher_is_better),
        t <= k,
    ensures
        is_top_k(r.take(min_nat(t, r.len()) as int), s, t, higher_is_better),
{
    broadcast use vstd::seq_lib::group_to_multiset_ensures;
    broadcast use vstd::multiset::group_multiset_axioms;

    let n = min_nat(t, r.len());
    let p = r.take(n as int);
    let q = r.skip(n as int);
    assert(r =~= p + q);
    vstd::seq_lib::lemma_multiset_commutative(p, q);
    assert forall|a: int, b: int| 0 <= a < b < p.len() implies !better(
        #[trigger] p[b],
        #[trigger] p[a],
        higher_is_better,
    ) by {
        assert(p[a] == r[a] && p[b] == r[b]);
    }
    assert forall|x: T, j: int|
        #![trigger s.to_multiset().count(x), p[j]]
        s.to_multiset().count(x) > p.to_multiset().count(x) && 0 <= j < p.len() implies !better(
            x,
            p[j],
            higher_is_better,
        ) by {
        assert(p[j] == r[j]);
        if s.to_multiset().count(x) > r.to_multiset().count(x) {
            assert(!better(x, r[j], higher_is_better));
        } else {
            assert(q.to_multiset().count(x) > 0);
            assert(q.contains(x));
            let i = choose|i: int| 0 <= i < q.len() && q[i] == x;
            assert(r[n + i] == x);
            assert(!better(r[n + i], r[j], higher_is_better));
        }
    }
}

/// A full selection keeps its items when `x` does not beat the worst of
/// them; `x` joins the dropped items.
pub(crate) proof fn lemma_offer_dropped<T: ScoreKeyed>(
    best: Seq<T>,
    dropped: Seq<T>,
    seen: Seq<T>,
    x: T,
    k: nat,
    higher_is_better: bool,
)
    requires
        selection_inv(best, dropped, seen, k, higher_is_better),
        best.len() >= k,
        k > 0 ==> !better(x, best[best.len() - 1], higher_is_better),
    ensures
        selection_inv(best, dropped.push(x), seen.push(x), k, higher_is_better),
{
    broadcast use vstd::seq_lib::group_to_multiset_ensures;
    broadcast use vstd::multiset::group_multiset_axioms;

    let nd = dropped.push(x);
    vstd::seq_lib::lemma_multiset_commutative(best, dropped);
    vstd::seq_lib::lemma_multiset_commutative(best, nd);
    assert((best + nd).to_multiset() =~= seen.push(x).to_multiset());
    assert((best + dropped).len() == seen.len()) by {
        assert((best + dropped).to_multiset().len() == seen.to_multiset().len());
    }
    if k > 0 {
        let last = best.len() - 1;
        assert forall|i: int, j: int| 0 <= i < nd.len() && 0 <= j < best.len() implies !better(
            #[trigger] nd[i],
            #[trigger] best[j],
            higher_is_better,
        ) by {
            if i < dropped.len() {
                assert(nd[i] == dropped[i]);
            } else if j < last {
                assert(!better(best[last], best[j], higher_is_better));
            }
        }
    }
}

/// A selection with room takes `x` in at its place.
pub(crate) proof fn lemma_offer_room<T: ScoreKeyed>(
    best: Seq<T>,
    dropped: Seq<T>,
    seen: Seq<T>,
    x: T,
    p: int,
    k: nat,
    higher_is_better: bool,
)
    requires
        selection_inv(best, dropped, seen, k, higher_is_better),
        best.len() < k,
        0 <= p <= best.len(),
        ranked(best.insert(p, x), higher_is_better),
    ensures
        selection_inv(best.insert(p, x), dropped, seen.push(x), k, higher_is_better),
{
    broadcast use vstd::seq_lib::group_to_multiset_ensures;
    broadcast use vstd::multiset::group_multiset_axioms;

    vstd::seq_lib::lemma_multiset_commutative(best, dropped);
    assert(dropped.len() == 0) by {
        assert((best + dropped).to_multiset().len() == seen.to_multiset().len());
        assert((best + dropped).len() == seen.len());
    }
    let b1 = best.insert(p, x);
    vstd::seq_lib::lemma_multiset_commutative(b1, dropped);
    assert(b1.to_multiset() =~= best.to_multiset().insert(x));
    assert((b1 + dropped).to_multiset() =~= seen.push(x).to_multiset());
}

/// A full selection takes in `x`, which beats its worst item, at a place
/// before that item, and the worst item leaves.
pub(crate) proof fn lemma_offer_evict<T: ScoreKeyed>(
    best: Seq<T>,
    dropped: Seq<T>,
    seen: Seq<T>,
    x: T,
    p: int,
    k: nat,
    higher_is_better: bool,
)
    requires
        selection_inv(best, dropped, seen, k, higher_is_better),
        best.len() == k,
        k > 0,
        better(x, best[best.len() - 1], higher_is_better),
        0 <= p < best.len(),
        ranked(best.insert(p, x), higher_is_better),
    ensures
        selection_inv(
            best.insert(p, x).drop_last(),
            dropped.push(best[best.len() - 1]),
            seen.push(x),
            k,
            higher_is_better,
        ),
{
    broadcast use vstd::seq_lib::group_to_multiset_ensures;
    broadcast use vstd::multiset::group_multiset_axioms;

    let last = best.len() - 1;
    let w = best[last];
    let b1 = best.insert(p, x);
    let b2 = b1.drop_last();
    let nd = dropped.push(w);
    assert(b1 == b2.push(w)) by {
        assert(b1[b1.len() - 1] == w);
        assert(b1 =~= b2.push(w));
    }
    vstd::seq_lib::lemma_multiset_commutative(best, dropped);
    vstd::seq_lib::lemma_multiset_commutative(b2, nd);
    assert((best + dropped).len() == seen.len()) by {
        assert((best + dropped).to_multiset().len() == seen.to_multiset().len());
    }
    assert(b1.to_multiset() =~= best.to_multiset().insert(x));
    assert(b1.to_multiset() =~= b2.to_multiset().insert(w));
    assert(nd.to_multiset() =~= dropped.to_multiset().insert(w));
    assert(seen.push(x).to_multiset() =~= seen.to_multiset().insert(x));
    assert(seen.to_multiset() =~= best.to_multiset().add(dropped.to_multiset()));
    assert forall|v: T| #[trigger] (b2 + nd).to_multiset().count(v) == seen.push(x).to_multiset().count(v) by {
        broadcast use vstd::multiset::group_multiset_properties;

        let bm = b2.to_multiset();
        let dm = dropped.to_multiset();
        let om = best.to_multiset();
        assert((b2 + nd).to_multiset().count(v) == bm.count(v) + nd.to_multiset().count(v));
        assert(seen.to_multiset().count(v) == om.count(v) + dm.count(v));
        assert(nd.to_multiset().count(v) == dm.insert(w).count(v));
        assert(b1.to_multiset().count(v) == bm.insert(w).count(v));
        assert(b1.to_multiset().count(v) == om.insert(x).count(v));
        assert(seen.push(x).to_multiset().count(v) == seen.to_multiset().insert(x).count(v));
        if v == w {
            assert(dm.insert(w).count(v) == dm.count(v) + 1);
            assert(bm.insert(w).count(v) == bm.count(v) + 1);
        } else {
            assert(dm.insert(w).count(v) == dm.count(v));
            assert(bm.insert(w).count(v) == bm.count(v));
        }
        if v == x {
            assert(om.insert(x).count(v) == om.count(v) + 1);
            assert(seen.to_multiset().insert(x).count(v) == seen.to_multiset().count(v) + 1);
        } else {
            assert(om.insert(x).count(v) == om.count(v));
            assert(seen.to_multiset().insert(x).count(v) == seen.to_multiset().count(v));
        }
    }
    assert((b2 + nd).to_multiset() =~= seen.push(x).to_multiset());
    assert forall|i: int, j: int| 0 <= i < b2.len() && 0 <= j < b2.len() && i < j implies !better(
        #[trigger] b2[j],
        #[trigger] b2[i],
        higher_is_better,
    ) by {
        assert(b2[i] == b1[i] && b2[j] == b1[j]);
    }
    assert forall|i: int, j: int| 0 <= i < nd.len() && 0 <= j < b2.len() implies !better(
        #[trigger] nd[i],
        #[trigger] b2[j],
        higher_is_better,
    ) by {
        if j == p {
            assert(b2[j] == x);
            if i < dropped.len() {
                assert(nd[i] == dropped[i]);
                assert(!better(dropped[i], best[last], higher_is_better));
            }
        } else {
            let jj = if j < p {
                j
            } else {
                j - 1
            };
            assert(b2[j] == best[jj]);
            if i < dropped.len() {
                assert(nd[i] == dropped[i]);
                assert(!better(dropped[i], best[jj], higher_is_better));
            } else if jj < last {
                assert(!better(best[last], best[jj], higher_is_better));
            }
        }
    }
}

/// Offers `x` to the selection `best` of at most `k` items: it is kept if
/// there is room, or if it beats the worst kept item, which then leaves.
pub(crate) fn offer<T: ScoreKeyed>(
    best: &mut Vec<T>,
    x: T,
    k: usize,
    higher_is_better: bool,
    Ghost(seen): Ghost<Seq<T>>,
    Ghost(dropped): Ghost<Seq<T>>,
) -> (new_dropped: Ghost<Seq<T>>)
    requires
        selection_inv(old(best)@, dropped, seen, k as nat, higher_is_better),
    ensures
        selection_inv(final(best)@, new_dropped@, seen.push(x), k as nat, higher_is_better),
{
    broadcast use vstd::seq_lib::group_to_multiset_ensures;
    broadcast use vstd::multiset::group_multiset_axioms;

    let ghost b0 = best@;
    proof {
        vstd::seq_lib::lemma_multiset_commutative(b0, dropped);
    }
    if best.len() < k {
        let p = insert_pos(best, &x, higher_is_better);
        proof {
            lemma_insert_ranked(b0, x, p as int, higher_is_better);
        }
        best.insert(p, x);
        proof {
            lemma_offer_room(b0, dropped, seen, x, p as int, k as nat, higher_is_better);
        }
        Ghost(dropped)
    } else if k > 0 && beats(&x, &best[best.len() - 1], higher_is_better) {
        let w = best.pop().unwrap();
        let ghost b_mid = best@;
        proof {
            assert(b0 == b_mid.push(w));
            assert forall|i: int, j: int| 0 <= i < j < b_mid.len() implies !better(
                #[trigger] b_mid[j],
                #[trigger] b_mid[i],
                higher_is_better,
            ) by {
                assert(b_mid[i] == b0[i] && b_mid[j] == b0[j]);
            }
        }
        let p = insert_pos(best, &x, higher_is_better);
        proof {
            lemma_insert_ranked(b_mid, x, p as int, higher_is_better);
        }
        best.insert(p, x);
        let ghost nd = dropped.push(w);
        proof {
            let b1 = best@;
            vstd::seq_lib::lemma_multiset_commutative(b1, nd);
            assert(b0.to_multiset() =~= b_mid.to_multiset().insert(w));
            assert(b1.to_multiset() =~= b_mid.to_multiset().insert(x));
            assert((b1 + nd).to_multiset() =~= seen.push(x).to_multiset());
            let last = b0.len() - 1;
            assert forall|i: int, j: int| 0 <= i < nd.len() && 0 <= j < b1.len() implies !better(
                #[trigger] nd[i],
                #[trigger] b1[j],
                higher_is_better,
            ) by {
                if j == p {
                    if i < dropped.len() {
                        assert(!better(dropped[i], b0[last], higher_is_better));
                    }
                } else {
                    let jj = if j < p {
                        j
                    } else {
                        j - 1
                    };
                    assert(b1[j] == b_mid[jj]);
                    assert(b_mid[jj] == b0[jj]);
                    if i < dropped.len() {
                        assert(!better(dropped[i], b0[jj], higher_is_better));
                    } else {
                        if jj < last {
                            assert(!better(b0[last], b0[jj], higher_is_better));
                        }
                    }
                }
            }
        }
        Ghost(nd)
    } else {
        proof {
            lemma_offer_dropped(b0, dropped, seen, x, k as nat, higher_is_better);
        }
        Ghost(dropped.push(x))
    }
}

/// Selects the best `k` items of all shards, best first.
pub(crate) fn select_top_k<T: ScoreKeyed + Copy>(
    shards: &Vec<Vec<T>>,
    k: usize,
    higher_is_better: bool,
) -> (r: Vec<T>)
    ensures
        is_top_k(r@, all_items(shards@), k as nat, higher_is_better),
        k >= all_items(shards@).len() ==> r@.to_multiset() == all_items(shards@).to_multiset(),
{
    let mut best: Vec<T> = Vec::new();
    let ghost mut dropped: Seq<T> = Seq::empty();
    proof {
        lemma_selection_empty::<T>(k as nat, higher_is_better);
    }
    let mut s: usize = 0;
    while s < shards.len()
        invariant
            0 <= s <= shards@.len(),
            selection_inv(best@, dropped, all_items(shards@.take(s as int)), k as nat, higher_is_better),
        decreases shards@.len() - s,
    {
        let shard = &shards[s];
        let ghost before = all_items(shards@.take(s as int));
        let mut i: usize = 0;
        while i < shard.len()
            invariant
                0 <= i <= shard@.len(),
                selection_inv(best@, dropped, before + shard@.take(i as int), k as nat, higher_is_better),
            decreases shard@.len() - i,
        {
            let x = shard[i];
            let ghost seen = before + shard@.take(i as int);
            let Ghost(nd) = offer(&mut best, x, k, higher_is_better, Ghost(seen), Ghost(dropped));
            proof {
                dropped = nd;
                assert(seen.push(x) =~= before + shard@.take(i + 1));
            }
            i += 1;
        }
        proof {
            assert(shards@.take(s + 1).drop_last() =~= shards@.take(s as int));
            assert(shard@.take(shard@.len() as int) =~= shard@);
        }
        s += 1;
    }
    proof {
        assert(shards@.take(shards@.len() as int) =~= shards@);
        lemma_selection_is_top_k(best@, dropped, all_items(shards@), k as nat, higher_is_better);
        if k >= all_items(shards@).len() {
            broadcast use vstd::seq_lib::group_to_multiset_ensures;

            assert((best@ + dropped).len() == all_items(shards@).len()) by {
                assert((best@ + dropped).to_multiset().len() == all_items(shards@).to_multiset().len());
            }
            assert(best@ + dropped =~= best@);
        }
    }
    best
}

/// The items of one shard are among all items.
proof fn lemma_shard_in_all<T>(parts: Seq<Vec<T>>, s: int)
    requires
        0 <= s < parts.len(),
    ensures
        parts[s]@.to_multiset().subset_of(all_items(parts).to_multiset()),
    decreases parts.len(),
{
    broadcast use vstd::multiset::group_multiset_axioms;

    let init = parts.drop_last();
    vstd::seq_lib::lemma_multiset_commutative(all_items(init), parts.last()@);
    if s < parts.len() - 1 {
        lemma_shard_in_all(init, s);
        assert(init[s] == parts[s]);
    }
}

/// Shard by shard smaller multisets give a smaller union.
proof fn lemma_all_items_subset<T>(tops: Seq<Vec<T>>, shards: Seq<Vec<T>>)
    requires
        tops.len() == shards.len(),
        forall|s: int|
            0 <= s < shards.len() ==> (#[trigger] tops[s])@.to_multiset().subset_of(
                shards[s]@.to_multiset(),
            ),
    ensures
        all_items(tops).to_multiset().subset_of(all_items(shards).to_multiset()),
    decreases shards.len(),
{
    broadcast use vstd::multiset::group_multiset_axioms;

    if shards.len() > 0 {
        let (ti, si) = (tops.drop_last(), shards.drop_last());
        assert forall|s: int| 0 <= s < si.len() implies (#[trigger] ti[s])@.to_multiset().subset_of(
            si[s]@.to_multiset(),
        ) by {
            assert(ti[s] == tops[s] && si[s] == shards[s]);
        }
        lemma_all_items_subset(ti, si);
        vstd::seq_lib::lemma_multiset_commutative(all_items(ti), tops.last()@);
        vstd::seq_lib::lemma_multiset_commutative(all_items(si), shards.last()@);
        assert(tops.last()@.to_multiset().subset_of(shards.last()@.to_multiset()));
    }
}

/// Taking `min(k, n)` per shard keeps `min(k, total)` of the union.
proof fn lemma_all_items_len<T>(tops: Seq<Vec<T>>, shards: Seq<Vec<T>>, k: nat)
    requires
        tops.len() == shards.len(),
        forall|s: int| 0 <= s < shards.len() ==> (#[trigger] tops[s])@.len() == min_nat(k, shards[s]@.len()),
    ensures
        min_nat(k, all_items(tops).len()) == min_nat(k, all_items(shards).len()),
    decreases shards.len(),
{
    if shards.len() > 0 {
        let (ti, si) = (tops.drop_last(), shards.drop_last());
        assert forall|s: int| 0 <= s < si.len() implies (#[trigger] ti[s])@.len() == min_nat(
            k,
            si[s]@.len(),
        ) by {
            assert(ti[s] == tops[s] && si[s] == shards[s]);
        }
        lemma_all_items_len(ti, si, k);
        assert(tops.last()@.len() == min_nat(k, shards.last()@.len()));
    }
}

/// An item that the union of the shards holds more often than the union
/// of their selections is held more often by some shard than by its
/// selection.
proof fn lemma_shard_with_more<T>(tops: Seq<Vec<T>>, shards: Seq<Vec<T>>, x: T)
    requires
        tops.len() == shards.len(),
        all_items(shards).to_multiset().count(x) > all_items(tops).to_multiset().count(x),
    ensures
        exists|s: int|
            0 <= s < shards.len() && (#[trigger] shards[s])@.to_multiset().count(x) > tops[s]@.to_multiset().count(
                x,
            ),
    decreases shards.len(),
{
    broadcast use vstd::multiset::group_multiset_axioms;

    if shards.len() > 0 {
        let (ti, si) = (tops.drop_last(), shards.drop_last());
        vstd::seq_lib::lemma_multiset_commutative(all_items(ti), tops.last()@);
        vstd::seq_lib::lemma_multiset_commutative(all_items(si), shards.last()@);
        let l = shards.len() - 1;
        if shards[l]@.to_multiset().count(x) <= tops[l]@.to_multiset().count(x) {
            lemma_shard_with_more(ti, si, x);
            let s = choose|s: int|
                0 <= s < si.len() && (#[trigger] si[s])@.to_multiset().count(x) > ti[s]@.to_multiset().count(
                    x,
                );
            assert(si[s] == shards[s] && ti[s] == tops[s]);
        }
    } else {
        assert(all_items(shards).to_multiset().count(x) == 0) by {
            broadcast use vstd::seq_lib::group_to_multiset_ensures;

        }
    }
}

/// Top-K selection composes: when each shard's list is a top-K of the
/// shard, a top-K of the union of those lists is a top-K of the union of
/// the shards. This is why merging the shards' answers gives the global
/// answer.
pub proof fn lemma_top_k_of_shard_tops<T: ScoreKeyed>(
    shards: Seq<Vec<T>>,
    tops: Seq<Vec<T>>,
    r: Seq<T>,
    k: nat,
    higher_is_better: bool,
)
    requires
        tops.len() == shards.len(),
        forall|s: int|
            0 <= s < shards.len() ==> is_top_k(
                (#[trigger] tops[s])@,
                shards[s]@,
                k,
                higher_is_better,
            ),
        is_top_k(r, all_items(tops), k, higher_is_better),
    ensures
        is_top_k(r, all_items(shards), k, higher_is_better),
{
    broadcast use vstd::multiset::group_multiset_axioms;
    broadcast use vstd::seq_lib::group_to_multiset_ensures;

    let all_t = all_items(tops);
    let all_s = all_items(shards);
    lemma_all_items_subset(tops, shards);
    lemma_all_items_len(tops, shards, k);
    assert forall|x: T, j: int|
        #![trigger all_s.to_multiset().count(x), r[j]]
        all_s.to_multiset().count(x) > r.to_multiset().count(x) && 0 <= j < r.len() implies !better(
            x,
            r[j],
            higher_is_better,
        ) by {
        if all_t.to_multiset().count(x) > r.to_multiset().count(x) {
            assert(!better(x, r[j], higher_is_better));
        } else {
            lemma_shard_with_more(tops, shards, x);
            let s = choose|s: int|
                0 <= s < shards.len() && (#[trigger] shards[s])@.to_multiset().count(x) > tops[s]@.to_multiset().count(
                    x,
                );
            let ts = tops[s]@;
            let ss = shards[s]@;
            assert(is_top_k(ts, ss, k, higher_is_better));
            // The shard left some item out, so its list is full.
            assert(ss.to_multiset().sub(ts.to_multiset()).count(x) > 0);
            assert(ss.to_multiset().sub(ts.to_multiset()).len() > 0);
            assert(ts.len() == k);
            if better(x, r[j], higher_is_better) {
                // Every item of the shard's list beats r[j] ...
                assert forall|i: int| 0 <= i < ts.len() implies better(
                    #[trigger] ts[i],
                    r[j],
                    higher_is_better,
                ) by {
                    assert(ss.to_multiset().count(x) > ts.to_multiset().count(x));
                    assert(!better(x, ts[i], higher_is_better));
                }
                // ... so r keeps all of them, which leaves no room for r[j].
                lemma_shard_in_all(tops, s);
                assert forall|y: T| ts.to_multiset().count(y) <= r.to_multiset().count(y) by {
                    if ts.to_multiset().count(y) > 0 {
                        assert(ts.contains(y));
                        let i = choose|i: int| 0 <= i < ts.len() && ts[i] == y;
                        assert(better(ts[i], r[j], higher_is_better));
                        if all_t.to_multiset().count(y) > r.to_multiset().count(y) {
                            assert(!better(y, r[j], higher_is_better));
                        }
                    }
                }
                assert(ts.to_multiset().subset_of(r.to_multiset()));
                assert(ts.to_multiset().count(r[j]) == 0) by {
                    if ts.to_multiset().count(r[j]) > 0 {
                        assert(ts.contains(r[j]));
                        let i = choose|i: int| 0 <= i < ts.len() && ts[i] == r[j];
                        assert(better(ts[i], r[j], higher_is_better));
                    }
                }
                assert(r.contains(r[j]));
                assert(r.to_multiset().sub(ts.to_multiset()).count(r[j]) > 0);
                assert(r.to_multiset().sub(ts.to_multiset()).len() > 0);
                assert(false);
            }
        }
    }
}

/// No two items of `s` have the same key.
pub open spec fn keys_distinct<T: ScoreKeyed>(s: Seq<T>) -> bool {
    forall|i: int, j: int| 0 <= i < j < s.len() ==> #[trigger] s[i].key_of() != #[trigger] s[j].key_of()
}

/// Two items of `s` with the same key are the same item.
proof fn lemma_same_key_same_item<T: ScoreKeyed>(s: Seq<T>, x: T, y: T)
    requires
        keys_distinct(s),
        s.contains(x),
        s.contains(y),
        x.key_of() == y.key_of(),
    ensures
        x == y,
{
    let a = choose|a: int| 0 <= a < s.len() && s[a] == x;
    let b = choose|b: int| 0 <= b < s.len() && s[b] == y;
    if a < b {
        assert(s[a].key_of() != s[b].key_of());
    } else if b < a {
        assert(s[b].key_of() != s[a].key_of());
    }
}

/// A top-K of items with distinct keys holds each item at most once.
proof fn lemma_top_k_no_duplicates<T: ScoreKeyed>(r: Seq<T>, s: Seq<T>, k: nat, higher_is_better: bool)
    requires
        is_top_k(r, s, k, higher_is_better),
        keys_distinct(s),
    ensures
        r.no_duplicates(),
{
    broadcast use vstd::multiset::group_multiset_axioms;
    broadcast use vstd::seq_lib::group_to_multiset_ensures;

    assert(s.no_duplicates()) by {
        assert forall|i: int, j: int| 0 <= i < s.len() && 0 <= j < s.len() && i != j implies s[i]
            != s[j] by {
            if i < j {
                assert(s[i].key_of() != s[j].key_of());
            } else {
                assert(s[j].key_of() != s[i].key_of());
            }
        }
    }
    s.lemma_multiset_has_no_duplicates();
    assert forall|x: T| r.to_multiset().contains(x) implies r.to_multiset().count(x) == 1 by {
        assert(r.to_multiset().count(x) <= s.to_multiset().count(x));
    }
    r.lemma_multiset_has_no_duplicates_conv();
}

/// Over items with distinct keys, a top-K is unique: any two top-Ks of the
/// same items are the same sequence.
pub proof fn lemma_top_k_unique<T: ScoreKeyed>(
    r1: Seq<T>,
    r2: Seq<T>,
    s: Seq<T>,
    k: nat,
    higher_is_better: bool,
)
    requires
        is_top_k(r1, s, k, higher_is_better),
        is_top_k(r2, s, k, higher_is_better),
        keys_distinct(s),
    ensures
        r1 == r2,
{
    lemma_top_k_no_duplicates(r1, s, k, higher_is_better);
    lemma_top_k_no_duplicates(r2, s, k, higher_is_better);
    lemma_top_k_prefix_agree(r1, r2, s, k, higher_is_better, r1.len());
    assert(r1 =~= r2);
}

/// The first `i` items of two top-Ks of items with distinct keys agree.
proof fn lemma_top_k_prefix_agree<T: ScoreKeyed>(
    r1: Seq<T>,
    r2: Seq<T>,
    s: Seq<T>,
    k: nat,
    higher_is_better: bool,
    i: nat,
)
    requires
        is_top_k(r1, s, k, higher_is_better),
        is_top_k(r2, s, k, higher_is_better),
        keys_distinct(s),
        r1.no_duplicates(),
        r2.no_duplicates(),
        i <= r1.len(),
    ensures
        forall|j: int| 0 <= j < i ==> #[trigger] r1[j] == r2[j],
    decreases i,
{
    broadcast use vstd::multiset::group_multiset_axioms;
    broadcast use vstd::seq_lib::group_to_multiset_ensures;

    if i > 0 {
        lemma_top_k_prefix_agree(r1, r2, s, k, higher_is_better, (i - 1) as nat);
        let n = i - 1;
        let x = r1[n];
        let y = r2[n];
        assert(r1.contains(x));
        assert(r2.contains(y));
        assert(r1.to_multiset().count(x) > 0);
        assert(r2.to_multiset().count(y) > 0);
        assert(s.to_multiset().count(x) > 0);
        assert(s.to_multiset().count(y) > 0);
        if x.key_of() == y.key_of() {
            lemma_same_key_same_item(s, x, y);
        } else if better(x, y, higher_is_better) {
            // x is missing from r2, so it would not rank before r2[n].
            if r2.contains(x) {
                let m = choose|m: int| 0 <= m < r2.len() && r2[m] == x;
                if m < n {
                    assert(r1[m] == r2[m]);
                } else if m > n {
                    assert(!better(r2[m], r2[n as int], higher_is_better));
                }
            }
            assert(s.to_multiset().count(x) > r2.to_multiset().count(x));
            assert(!better(x, r2[n as int], higher_is_better));
        } else {
            assert(better(y, x, higher_is_better));
            if r1.contains(y) {
                let m = choose|m: int| 0 <= m < r1.len() && r1[m] == y;
                if m < n {
                    assert(r1[m] == r2[m]);
                } else if m > n {
                    assert(!better(r1[m], r1[n as int], higher_is_better));
                }
            }
            assert(s.to_multiset().count(y) > r1.to_multiset().count(y));
            assert(!better(y, r1[n as int], higher_is_better));
        }
    }
}

/// Merging per-shard top-Ks gives exactly what one search over all items
/// gives, when the shards split the items and no two items share a key:
/// splitting a search over shards (threads or devices) changes nothing.
pub proof fn lemma_merged_tops_match_single<T: ScoreKeyed>(
    items: Seq<T>,
    shards: Seq<Vec<T>>,
    tops: Seq<Vec<T>>,
    merged: Seq<T>,
    single: Seq<T>,
    k: nat,
    higher_is_better: bool,
)
    requires
        all_items(shards).to_multiset() == items.to_multiset(),
        keys_distinct(items),
        tops.len() == shards.len(),
        forall|s: int|
            0 <= s < shards.len() ==> is_top_k(
                (#[trigger] tops[s])@,
                shards[s]@,
                k,
                higher_is_better,
            ),
        is_top_k(merged, all_items(tops), k, higher_is_better),
        is_top_k(single, items, k, higher_is_better),
    ensures
        merged == single,
{
    broadcast use vstd::seq_lib::group_to_multiset_ensures;

    lemma_top_k_of_shard_tops(shards, tops, merged, k, higher_is_better);
    let all = all_items(shards);
    assert(all.len() == items.len()) by {
        assert(all.to_multiset().len() == items.to_multiset().len());
    }
    assert(is_top_k(merged, items, k, higher_is_better));
    lemma_top_k_unique(merged, single, items, k, higher_is_better);
}

/// The first item of a top-K (K > 0) of non-empty items ranks before or
/// level with every item.
pub proof fn lemma_top_k_first_is_best<T: ScoreKeyed>(
    r: Seq<T>,
    s: Seq<T>,
    k: nat,
    higher_is_better: bool,
)
    requires
        is_top_k(r, s, k, higher_is_better),
        k > 0,
        s.len() > 0,
    ensures
        r.len() > 0,
        forall|i: int| 0 <= i < s.len() ==> !better(#[trigger] s[i], r[0], higher_is_better),
{
    broadcast use vstd::multiset::group_multiset_axioms;
    broadcast use vstd::seq_lib::group_to_multiset_ensures;

    assert forall|i: int| 0 <= i < s.len() implies !better(#[trigger] s[i], r[0], higher_is_better) by {
        let x = s[i];
        assert(s.contains(x));
        if s.to_multiset().count(x) > r.to_multiset().count(x) {
        } else {
            assert(r.to_multiset().count(x) > 0);
            assert(r.contains(x));
            let j = choose|j: int| 0 <= j < r.len() && r[j] == x;
            if j > 0 {
                assert(!better(r[j], r[0], higher_is_better));
            }
        }
    }
}

} // verus!
