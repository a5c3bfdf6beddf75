//! The integer side of Lloyd's k-means: the shape of a run, random
//! initialization from distinct data rows, assignment of each vector to its
//! best centroid with the cluster sizes, and reseeding of empty clusters.
//! Distances are reported by the caller as order keys.

use rand::Rng;
use rand::seq::SliceRandom;
use vstd::prelude::*;

verus! {

/// Shuffles `v` in place with the thread-local random generator
/// (`rand::seq::SliceRandom::shuffle` on `rand::thread_rng()`). The shuffle
/// only swaps elements, so the result is a permutation of the input; which
/// permutation is left to chance and not stated.
#[verifier::external_body]
fn shuffle_indices(v: &mut Vec<usize>)
    ensures
        final(v)@.to_multiset() == old(v)@.to_multiset(),
{
    let mut rng = rand::thread_rng();
    v.as_mut_slice().shuffle(&mut rng);
}

/// A row index drawn with the thread-local random generator
/// (`rand::Rng::gen_range(0..n)` on `rand::thread_rng()`): below `n`, which
/// panics on an empty range, hence `n > 0`. Which index comes out is left
/// to chance and not stated.
#[verifier::external_body]
fn random_row(n: usize) -> (r: usize)
    requires
        n > 0,
    ensures
        r < n,
{
    rand::thread_rng().gen_range(0..n)
}

/// A rearrangement of a sequence without duplicates has none either.
proof fn lemma_permutation_no_duplicates(s: Seq<usize>, t: Seq<usize>)
    requires
        s.to_multiset() == t.to_multiset(),
        t.no_duplicates(),
    ensures
        s.no_duplicates(),
{
    broadcast use vstd::seq_lib::group_to_multiset_ensures;
    broadcast use vstd::multiset::group_multiset_axioms;

    assert forall|i: int, j: int| 0 <= i < s.len() && 0 <= j < s.len() && i != j implies s[i]
        != s[j] by {
        if s[i] == s[j] {
            let e = s[i];
            let rs = s.remove(i);
            assert(rs.contains(e)) by {
                if j < i {
                    assert(rs[j] == e);
                } else {
                    assert(rs[j - 1] == e);
                }
            }
            assert(rs.to_multiset().count(e) > 0);
            assert(s.to_multiset().remove(e).count(e) > 0);
            assert(t.to_multiset().count(e) >= 2);
            assert(t.contains(e));
            let a = choose|a: int| 0 <= a < t.len() && t[a] == e;
            let rt = t.remove(a);
            assert(!rt.contains(e)) by {
                if rt.contains(e) {
                    let q = choose|q: int| 0 <= q < rt.len() && rt[q] == e;
                    if q < a {
                        assert(t[q] == t[a]);
                    } else {
                        assert(t[q + 1] == t[a]);
                    }
                }
            }
            assert(rt.to_multiset().count(e) == 0);
            assert(t.to_multiset().remove(e).count(e) == 0);
        }
    }
}

/// Rows `rows` of the `dimension`-wide matrix `data`, one after the other.
pub open spec fn rows_match<T>(out: Seq<T>, data: Seq<T>, rows: Seq<usize>, dimension: nat) -> bool {
    &&& out.len() == rows.len() * dimension
    &&& forall|j: int, c: int|
        0 <= j < rows.len() && 0 <= c < dimension ==> #[trigger] out[j * dimension + c]
            == data[rows[j] * dimension + c]
}

/// Picks the first `min(k, n)` centroids as distinct rows of the first `n`
/// rows of `data`, in a random order.
pub fn init_centroids_random<T: Copy>(data: &[T], dimension: usize, n: usize, k: usize) -> (r: Vec<T>)
    requires
        n * dimension <= data@.len(),
    ensures
        exists|rows: Seq<usize>|
            #![trigger rows_match(r@, data@, rows, dimension as nat)]
            rows.len() == (if k <= n {
                k
            } else {
                n
            }) && rows.no_duplicates() && (forall|j: int| 0 <= j < rows.len() ==> #[trigger] rows[j] < n)
                && rows_match(r@, data@, rows, dimension as nat),
{
    let dlen = data.len();
    let mut indices: Vec<usize> = Vec::new();
    let mut i: usize = 0;
    while i < n
        invariant
            0 <= i <= n,
            indices@.len() == i,
            forall|q: int| 0 <= q < i ==> #[trigger] indices@[q] == q,
        decreases n - i,
    {
        indices.push(i);
        i += 1;
    }
    let ghost ordered = indices@;
    shuffle_indices(&mut indices);
    proof {
        broadcast use vstd::seq_lib::group_to_multiset_ensures;

        assert(ordered.no_duplicates());
        lemma_permutation_no_duplicates(indices@, ordered);
        assert(indices@.len() == n) by {
            assert(indices@.to_multiset().len() == ordered.to_multiset().len());
        }
        assert forall|q: int| 0 <= q < indices@.len() implies #[trigger] indices@[q] < n by {
            assert(indices@.to_multiset().count(indices@[q]) > 0);
            assert(ordered.to_multiset().count(indices@[q]) > 0);
            let a = choose|a: int| 0 <= a < ordered.len() && ordered[a] == indices@[q];
        }
    }
    let take = if k <= n {
        k
    } else {
        n
    };
    let mut centroids: Vec<T> = Vec::new();
    let mut j: usize = 0;
    while j < take
        invariant
            0 <= j <= take,
            take <= n,
            dlen == data@.len(),
            indices@.len() == n,
            n * dimension <= data@.len(),
            indices@.no_duplicates(),
            forall|q: int| 0 <= q < n ==> #[trigger] indices@[q] < n,
            rows_match(centroids@, data@, indices@.take(j as int), dimension as nat),
        decreases take - j,
    {
        let row = indices[j];
        assert(row * dimension + dimension <= n * dimension) by (nonlinear_arith)
            requires
                row < n,
        ;
        let start = row * dimension;
        let ghost before = centroids@;
        let mut c: usize = 0;
        while c < dimension
            invariant
                0 <= c <= dimension,
                start == row * dimension,
                start + dimension <= data@.len(),
                dlen == data@.len(),
                centroids@.len() == before.len() + c,
                forall|q: int| 0 <= q < before.len() ==> #[trigger] centroids@[q] == before[q],
                forall|q: int| 0 <= q < c ==> #[trigger] centroids@[before.len() + q] == data@[start + q],
            decreases dimension - c,
        {
            centroids.push(data[start + c]);
            c += 1;
        }
        proof {
            let rows = indices@.take(j + 1);
            assert(before.len() == j * dimension);
            assert((j + 1) * dimension == j * dimension + dimension) by (nonlinear_arith);
            assert forall|jj: int, cc: int|
                0 <= jj < rows.len() && 0 <= cc < dimension implies #[trigger] centroids@[jj
                * dimension + cc] == data@[rows[jj] * dimension + cc] by {
                if jj < j {
                    assert(jj * dimension + cc < j * dimension) by (nonlinear_arith)
                        requires
                            jj < j,
                            cc < dimension,
                    ;
                    assert(rows[jj] == indices@.take(j as int)[jj]);
                    assert(centroids@[jj * dimension + cc] == before[jj * dimension + cc]);
                } else {
                    assert(jj * dimension + cc == before.len() + cc) by (nonlinear_arith)
                        requires
                            jj == j,
                            before.len() == j * dimension,
                    ;
                }
            }
        }
        j += 1;
    }
    proof {
        let rows = indices@.take(take as int);
        assert(rows.no_duplicates());
        assert(forall|q: int| 0 <= q < rows.len() ==> #[trigger] rows[q] < n);
        assert(rows_match(centroids@, data@, rows, dimension as nat));
    }
    centroids
}


/// Key `a` beats key `b` in the given ranking direction.
pub open spec fn key_beats(a: u32, b: u32, higher_is_better: bool) -> bool {
    if higher_is_better {
        a > b
    } else {
        a < b
    }
}

/// `c` is the first position of `keys` whose key no other key beats.
pub open spec fn first_best(keys: Seq<u32>, c: int, higher_is_better: bool) -> bool {
    &&& 0 <= c < keys.len()
    &&& forall|j: int| 0 <= j < keys.len() ==> !key_beats(#[trigger] keys[j], keys[c], higher_is_better)
    &&& forall|j: int| 0 <= j < c ==> key_beats(keys[c], #[trigger] keys[j], higher_is_better)
}

/// Index of the best of `num_centroids` centroids, `score` reporting the key
/// of each one's score: the first whose key no other beats (0 when there
/// are none).
pub fn find_nearest_centroid<F: Fn(usize) -> u32>(
    num_centroids: usize,
    higher_is_better: bool,
    score: &F,
) -> (r: usize)
    requires
        forall|c: usize| score.requires((c,)),
    ensures
        num_centroids == 0 ==> r == 0,
        num_centroids > 0 ==> exists|keys: Seq<u32>|
            #![trigger first_best(keys, r as int, higher_is_better)]
            keys.len() == num_centroids && (forall|c: int|
                0 <= c < num_centroids ==> score.ensures((c as usize,), #[trigger] keys[c]))
                && first_best(keys, r as int, higher_is_better),
{
    if num_centroids == 0 {
        return 0;
    }
    let mut best_idx: usize = 0;
    let mut best_key: u32 = score(0);
    let ghost mut keys: Seq<u32> = seq![best_key];
    let mut c: usize = 1;
    while c < num_centroids
        invariant
            1 <= c <= num_centroids,
            best_idx < c,
            keys.len() == c,
            keys[best_idx as int] == best_key,
            forall|a: usize| score.requires((a,)),
            forall|j: int| 0 <= j < c ==> score.ensures((j as usize,), #[trigger] keys[j]),
            first_best(keys, best_idx as int, higher_is_better),
        decreases num_centroids - c,
    {
        let k = score(c);
        let improves = if higher_is_better {
            k > best_key
        } else {
            k < best_key
        };
        proof {
            keys = keys.push(k);
        }
        if improves {
            best_idx = c;
            best_key = k;
        }
        c += 1;
    }
    proof {
        assert(first_best(keys, best_idx as int, higher_is_better));
    }
    best_idx
}

/// The shape of a k-means run over `data_len` values of `dimension`-wide
/// vectors: `None` when there are no vectors or no clusters are asked for,
/// else the number of vectors `n` and the number of clusters `min(k, n)`.
pub fn plan_kmeans(data_len: usize, dimension: usize, k: usize) -> (r: Option<(usize, usize)>)
    requires
        dimension > 0,
    ensures
        ({
            let n = data_len / dimension;
            r == if n == 0 || k == 0 {
                None::<(usize, usize)>
            } else {
                Some((n as usize, if k <= n { k } else { n as usize }))
            }
        }),
{
    let n = data_len / dimension;
    if n == 0 || k == 0 {
        return None;
    }
    Some((n, if k <= n { k } else { n }))
}

/// Sum of a sequence of counts.
pub open spec fn total(s: Seq<usize>) -> nat
    decreases s.len(),
{
    if s.len() == 0 {
        0
    } else {
        total(s.drop_last()) + s.last() as nat
    }
}

/// Adding one at position `j` adds one to the sum.
proof fn lemma_total_bump(s: Seq<usize>, j: int)
    requires
        0 <= j < s.len(),
        s[j] < usize::MAX,
    ensures
        total(s.update(j, (s[j] + 1) as usize)) == total(s) + 1,
    decreases s.len(),
{
    let t = s.update(j, (s[j] + 1) as usize);
    if j == s.len() - 1 {
        assert(t.drop_last() =~= s.drop_last());
    } else {
        lemma_total_bump(s.drop_last(), j);
        assert(t.drop_last() =~= s.drop_last().update(j, (s[j] + 1) as usize));
    }
}

/// Each count is at most the sum.
proof fn lemma_elem_le_total(s: Seq<usize>, j: int)
    requires
        0 <= j < s.len(),
    ensures
        s[j] <= total(s),
    decreases s.len(),
{
    if j < s.len() - 1 {
        lemma_elem_le_total(s.drop_last(), j);
    }
}

/// The sum of `n` zeros.
proof fn lemma_total_zeros(s: Seq<usize>)
    requires
        forall|i: int| 0 <= i < s.len() ==> s[i] == 0,
    ensures
        total(s) == 0,
    decreases s.len(),
{
    if s.len() > 0 {
        lemma_total_zeros(s.drop_last());
    }
}

/// `a` is the first best of `k` centroids for vector `i`, `score(i, c)`
/// reporting the key of centroid `c`.
pub open spec fn best_of_row<F: Fn(usize, usize) -> u32>(
    a: usize,
    i: usize,
    k: nat,
    higher_is_better: bool,
    score: F,
) -> bool {
    exists|keys: Seq<u32>|
        #![trigger first_best(keys, a as int, higher_is_better)]
        keys.len() == k && (forall|c: int| 0 <= c < k ==> score.ensures((i, c as usize), #[trigger] keys[c]))
            && first_best(keys, a as int, higher_is_better)
}

/// The assignment step of Lloyd's algorithm: each of `n` vectors goes to
/// the first of its best centroids among `k`, `score(i, c)` reporting the
/// key of vector `i` against centroid `c`; also returns each cluster's
/// size. Every vector lands in exactly one cluster, so the sizes add up to
/// `n`.
pub fn assign_clusters<F: Fn(usize, usize) -> u32>(
    n: usize,
    k: usize,
    higher_is_better: bool,
    score: &F,
) -> (r: (Vec<usize>, Vec<usize>))
    requires
        k > 0,
        forall|i: usize, c: usize| score.requires((i, c)),
    ensures
        r.0@.len() == n,
        r.1@.len() == k,
        forall|i: int|
            0 <= i < n ==> (#[trigger] r.0@[i]) < k && best_of_row(
                r.0@[i],
                i as usize,
                k as nat,
                higher_is_better,
                *score,
            ),
        forall|c: int| 0 <= c < k ==> (#[trigger] r.1@[c]) == r.0@.to_multiset().count(c as usize),
        total(r.1@) == n,
{
    let mut counts: Vec<usize> = Vec::new();
    let mut z: usize = 0;
    while z < k
        invariant
            z <= k,
            counts@.len() == z,
            forall|c: int| 0 <= c < z ==> counts@[c] == 0,
        decreases k - z,
    {
        counts.push(0);
        z += 1;
    }
    let mut assignments: Vec<usize> = Vec::new();
    proof {
        broadcast use vstd::seq_lib::group_to_multiset_ensures;

        lemma_total_zeros(counts@);
        assert forall|c: int| 0 <= c < k implies (#[trigger] counts@[c]) == assignments@.to_multiset().count(c as usize) by {
            assert(assignments@.to_multiset().len() == 0);
        }
    }
    let mut i: usize = 0;
    while i < n
        invariant
            i <= n,
            k > 0,
            forall|a: usize, b: usize| score.requires((a, b)),
            assignments@.len() == i,
            counts@.len() == k,
            forall|j: int|
                0 <= j < i ==> (#[trigger] assignments@[j]) < k && best_of_row(
                    assignments@[j],
                    j as usize,
                    k as nat,
                    higher_is_better,
                    *score,
                ),
            forall|c: int| 0 <= c < k ==> (#[trigger] counts@[c]) == assignments@.to_multiset().count(c as usize),
            total(counts@) == i,
        decreases n - i,
    {
        let row_score = |c: usize| -> (key: u32)
            ensures
                score.ensures((i, c), key),
            { score(i, c) };
        let a = find_nearest_centroid(k, higher_is_better, &row_score);
        proof {
            let keys = choose|keys: Seq<u32>|
                #![trigger first_best(keys, a as int, higher_is_better)]
                keys.len() == k && (forall|c: int|
                    0 <= c < k ==> row_score.ensures((c as usize,), #[trigger] keys[c]))
                    && first_best(keys, a as int, higher_is_better);
            assert(forall|c: int| 0 <= c < k ==> score.ensures((i, c as usize), #[trigger] keys[c]));
            assert(best_of_row(a, i, k as nat, higher_is_better, *score));
        }
        let ghost before = assignments@;
        let ghost counts_before = counts@;
        proof {
            broadcast use vstd::seq_lib::group_to_multiset_ensures;

            lemma_elem_le_total(counts@, a as int);
        }
        assignments.push(a);
        let bumped = counts[a] + 1;
        counts.set(a, bumped);
        proof {
            broadcast use vstd::seq_lib::group_to_multiset_ensures;

            lemma_total_bump(counts_before, a as int);
            assert(assignments@ =~= before.push(a));
            assert forall|j: int| 0 <= j <= i implies (#[trigger] assignments@[j]) < k && best_of_row(
                assignments@[j],
                j as usize,
                k as nat,
                higher_is_better,
                *score,
            ) by {
                if j < i {
                    assert(assignments@[j] == before[j]);
                }
            }
        }
        i += 1;
    }
    (assignments, counts)
}

/// Row `c` of the `dimension`-wide matrix `out` equals row `r` of `data`.
pub open spec fn row_copied<T>(out: Seq<T>, data: Seq<T>, c: int, r: int, dimension: nat) -> bool {
    forall|e: int| 0 <= e < dimension ==> #[trigger] out[c * dimension + e] == data[r * dimension + e]
}

/// Reseeds every empty cluster (size 0 in `counts`) with a data row drawn
/// at random among the first `n`; the other centroids are left as they are.
pub fn reseed_empty_clusters<T: Copy>(
    centroids: &mut Vec<T>,
    data: &[T],
    counts: &[usize],
    dimension: usize,
    n: usize,
)
    requires
        n > 0,
        n * dimension <= data@.len(),
        old(centroids)@.len() == counts@.len() * dimension,
    ensures
        final(centroids)@.len() == old(centroids)@.len(),
        forall|c: int, e: int|
            0 <= c < counts@.len() && counts@[c] > 0 && 0 <= e < dimension
                ==> #[trigger] final(centroids)@[c * dimension + e] == old(centroids)@[c * dimension + e],
        forall|c: int|
            0 <= c < counts@.len() && #[trigger] counts@[c] == 0 ==> exists|r: int|
                0 <= r < n && row_copied(final(centroids)@, data@, c, r, dimension as nat),
{
    let ghost original = centroids@;
    let _data_len = data.len();
    let _centroids_len = centroids.len();
    let k = counts.len();
    let mut c: usize = 0;
    while c < k
        invariant
            c <= k,
            k == counts@.len(),
            n > 0,
            n * dimension <= data@.len(),
            data@.len() <= usize::MAX,
            original.len() == k * dimension,
            k * dimension <= usize::MAX,
            centroids@.len() == original.len(),
            forall|q: int, e: int|
                c <= q < k && 0 <= e < dimension ==> #[trigger] centroids@[q * dimension + e] == original[q * dimension + e],
            forall|q: int, e: int|
                0 <= q < c && counts@[q] > 0 && 0 <= e < dimension ==> #[trigger] centroids@[q * dimension + e] == original[q * dimension + e],
            forall|q: int|
                0 <= q < c && #[trigger] counts@[q] == 0 ==> exists|r: int|
                    0 <= r < n && row_copied(centroids@, data@, q, r, dimension as nat),
        decreases k - c,
    {
        if counts[c] == 0 {
            let r = random_row(n);
            let ghost before = centroids@;
            proof {
                assert(r * dimension + dimension <= n * dimension) by (nonlinear_arith)
                    requires r < n;
                assert(c * dimension + dimension <= k * dimension) by (nonlinear_arith)
                    requires c < k;
            }
            let mut e: usize = 0;
            while e < dimension
                invariant
                    e <= dimension,
                    c < k,
                    r < n,
                    data@.len() <= usize::MAX,
                    r * dimension + dimension <= data@.len(),
                    c * dimension + dimension <= k * dimension,
                    k * dimension <= usize::MAX,
                    centroids@.len() == k * dimension,
                    forall|idx: int|
                        0 <= idx < centroids@.len() && !(c * dimension <= idx < c * dimension + e)
                            ==> #[trigger] centroids@[idx] == before[idx],
                    forall|f: int| 0 <= f < e ==> #[trigger] centroids@[c * dimension + f] == data@[r * dimension + f],
                decreases dimension - e,
            {
                let v = data[r * dimension + e];
                centroids.set(c * dimension + e, v);
                e += 1;
            }
            proof {
                assert(row_copied(centroids@, data@, c as int, r as int, dimension as nat));
                assert forall|q: int, f: int|
                    0 <= q < k && q != c && 0 <= f < dimension implies #[trigger] centroids@[q * dimension + f]
                    == before[q * dimension + f] by {
                    if q < c {
                        assert(q * dimension + f < c * dimension) by (nonlinear_arith)
                            requires q < c, f < dimension;
                    } else {
                        assert(q * dimension >= c * dimension + dimension) by (nonlinear_arith)
                            requires q > c;
                    }
                    assert(q * dimension + f < k * dimension) by (nonlinear_arith)
                        requires q < k, f < dimension;
                }
                assert forall|q: int| 0 <= q < c && #[trigger] counts@[q] == 0 implies exists|rr: int|
                    0 <= rr < n && row_copied(centroids@, data@, q, rr, dimension as nat) by {
                    let rr = choose|rr: int| 0 <= rr < n && row_copied(before, data@, q, rr, dimension as nat);
                    assert forall|f: int| 0 <= f < dimension implies #[trigger] centroids@[q * dimension + f]
                        == data@[rr * dimension + f] by {
                        assert(before[q * dimension + f] == data@[rr * dimension + f]);
                    }
                    assert(row_copied(centroids@, data@, q, rr, dimension as nat));
                }
            }
        }
        c += 1;
    }
}

} // verus!
