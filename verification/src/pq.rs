//! Product quantization: a vector is cut into `num_subvectors` equal parts,
//! and each part is replaced by the index (one byte) of its closest
//! centroid in that part's codebook.

use crate::kmeans::{find_nearest_centroid, first_best};
use vstd::prelude::*;

verus! {

/// `code` is the first best of the `n` centroids of a codebook for part
/// `part`, by keys that `score` reported (0 when the codebook is empty).
pub open spec fn nearest_code<F: Fn(usize, usize) -> u32>(
    code: u8,
    n: usize,
    part: usize,
    higher_is_better: bool,
    score: F,
) -> bool {
    &&& n == 0 ==> code == 0
    &&& n > 0 ==> exists|keys: Seq<u32>|
        #![trigger first_best(keys, code as int, higher_is_better)]
        keys.len() == n && (forall|c: int|
            0 <= c < n ==> score.ensures((part, c as usize), #[trigger] keys[c])) && first_best(
            keys,
            code as int,
            higher_is_better,
        )
}

/// Codebooks of a product quantizer over elements `T`.
#[derive(Debug, Clone, PartialEq)]
pub struct ProductQuantizer<T> {
    /// Dimension of the vectors.
    pub dimension: usize,
    /// Number of parts a vector is cut into.
    pub num_subvectors: usize,
    /// Dimension of each part, `dimension / num_subvectors`.
    pub sub_dimension: usize,
    /// Centroids per codebook.
    pub sub_clusters: usize,
    /// All codebooks, `num_subvectors * sub_clusters` centroids of
    /// `sub_dimension` elements each, codebook after codebook.
    pub codebooks: Vec<T>,
}

impl<T: Copy> ProductQuantizer<T> {
    /// The fields agree with one another.
    pub open spec fn wf(&self) -> bool {
        &&& self.num_subvectors > 0
        &&& self.num_subvectors * self.sub_clusters <= usize::MAX
        &&& self.dimension == self.num_subvectors * self.sub_dimension
        &&& self.codebooks@.len() == self.num_subvectors * self.sub_clusters * self.sub_dimension
    }

    /// Element offset of centroid `k` of codebook `m`.
    pub open spec fn centroid_start(&self, m: int, k: int) -> int {
        (m * self.sub_clusters + k) * self.sub_dimension
    }

    /// Centroid `k` of codebook `m`.
    pub open spec fn sub_centroid(&self, m: int, k: int) -> Seq<T> {
        self.codebooks@.subrange(self.centroid_start(m, k), self.centroid_start(m, k) + self.sub_dimension)
    }

    /// Centroid `k` of codebook `m` lies inside the codebooks.
    pub proof fn lemma_centroid_in_bounds(&self, m: int, k: int)
        requires
            self.wf(),
            0 <= m < self.num_subvectors,
            0 <= k < self.sub_clusters,
        ensures
            m * self.sub_clusters + k < self.num_subvectors * self.sub_clusters,
            0 <= self.centroid_start(m, k),
            self.centroid_start(m, k) + self.sub_dimension <= self.codebooks@.len(),
    {
        assert(m * self.sub_clusters + k < self.num_subvectors * self.sub_clusters) by (nonlinear_arith)
            requires
                0 <= m < self.num_subvectors,
                0 <= k < self.sub_clusters,
        ;
        assert((m * self.sub_clusters + k) * self.sub_dimension + self.sub_dimension
            <= self.num_subvectors * self.sub_clusters * self.sub_dimension) by (nonlinear_arith)
            requires
                m * self.sub_clusters + k < self.num_subvectors * self.sub_clusters,
                0 <= m * self.sub_clusters + k,
        ;
        assert(0 <= (m * self.sub_clusters + k) * self.sub_dimension) by (nonlinear_arith)
            requires
                0 <= m * self.sub_clusters + k,
        ;
    }

    /// Wraps trained codebooks; `dimension` is a multiple of
    /// `num_subvectors` and the codebooks have the matching size.
    pub fn new(dimension: usize, num_subvectors: usize, sub_clusters: usize, codebooks: Vec<T>) -> (q: Self)
        requires
            num_subvectors > 0,
            num_subvectors * sub_clusters <= usize::MAX,
            dimension % num_subvectors == 0,
            codebooks@.len() == num_subvectors * sub_clusters * (dimension / num_subvectors),
        ensures
            q.wf(),
            q.dimension == dimension,
            q.num_subvectors == num_subvectors,
            q.sub_dimension == dimension / num_subvectors,
            q.sub_clusters == sub_clusters,
            q.codebooks@ == codebooks@,
    {
        let sub_dimension = dimension / num_subvectors;
        assert(dimension == num_subvectors * sub_dimension) by (nonlinear_arith)
            requires
                num_subvectors > 0,
                dimension % num_subvectors == 0,
                sub_dimension == dimension / num_subvectors,
        ;
        ProductQuantizer { dimension, num_subvectors, sub_dimension, sub_clusters, codebooks }
    }

    /// Centroid `k` of codebook `m`.
    pub fn get_sub_centroid(&self, m: usize, k: usize) -> (c: &[T])
        requires
            self.wf(),
            m < self.num_subvectors,
            k < self.sub_clusters,
        ensures
            c@ == self.sub_centroid(m as int, k as int),
            c@.len() == self.sub_dimension,
            self.centroid_start(m as int, k as int) + self.sub_dimension <= self.codebooks@.len(),
    {
        let _total = self.codebooks.len();
        proof {
            self.lemma_centroid_in_bounds(m as int, k as int);
        }
        let start = (m * self.sub_clusters + k) * self.sub_dimension;
        vstd::slice::slice_subrange(self.codebooks.as_slice(), start, start + self.sub_dimension)
    }

    /// Rebuilds a vector from its code: part `m` is centroid `code[m]` of
    /// codebook `m`.
    pub fn decode(&self, code: &[u8], out_vector: &mut [T])
        requires
            self.wf(),
            code@.len() == self.num_subvectors,
            old(out_vector)@.len() == self.dimension,
            forall|m: int| 0 <= m < code@.len() ==> (#[trigger] code@[m]) < self.sub_clusters,
        ensures
            final(out_vector)@.len() == self.dimension,
            forall|m: int, e: int|
                0 <= m < self.num_subvectors && 0 <= e < self.sub_dimension
                    ==> #[trigger] final(out_vector)@[m * self.sub_dimension + e]
                    == self.codebooks@[self.centroid_start(m, code@[m] as int) + e],
    {
        let _total = self.codebooks.len();
        let mut m: usize = 0;
        while m < self.num_subvectors
            invariant
                0 <= m <= self.num_subvectors,
                self.wf(),
                code@.len() == self.num_subvectors,
                out_vector@.len() == self.dimension,
                _total == self.codebooks@.len(),
                forall|q: int| 0 <= q < code@.len() ==> (#[trigger] code@[q]) < self.sub_clusters,
                forall|q: int, e: int|
                    0 <= q < m && 0 <= e < self.sub_dimension ==> #[trigger] out_vector@[q
                        * self.sub_dimension + e] == self.codebooks@[self.centroid_start(
                        q,
                        code@[q] as int,
                    ) + e],
            decreases self.num_subvectors - m,
        {
            let k = code[m] as usize;
            let centroid = self.get_sub_centroid(m, k);
            assert(m * self.sub_dimension + self.sub_dimension <= self.dimension) by (nonlinear_arith)
                requires
                    m < self.num_subvectors,
                    self.dimension == self.num_subvectors * self.sub_dimension,
            ;
            let out_start = m * self.sub_dimension;
            let mut e: usize = 0;
            while e < self.sub_dimension
                invariant
                    0 <= e <= self.sub_dimension,
                    0 <= m < self.num_subvectors,
                    out_start == m * self.sub_dimension,
                    out_start + self.sub_dimension <= self.dimension,
                    out_vector@.len() == self.dimension,
                    centroid@ == self.sub_centroid(m as int, k as int),
                    centroid@.len() == self.sub_dimension,
                    self.centroid_start(m as int, k as int) + self.sub_dimension
                        <= self.codebooks@.len(),
                    0 <= self.centroid_start(m as int, k as int),
                    k == code@[m as int],
                    self.wf(),
                    forall|q: int, e2: int|
                        0 <= q < m && 0 <= e2 < self.sub_dimension ==> #[trigger] out_vector@[q
                            * self.sub_dimension + e2] == self.codebooks@[self.centroid_start(
                            q,
                            code@[q] as int,
                        ) + e2],
                    forall|e2: int|
                        0 <= e2 < e ==> #[trigger] out_vector@[out_start + e2]
                            == self.codebooks@[self.centroid_start(m as int, k as int) + e2],
                decreases self.sub_dimension - e,
            {
                let ghost before = out_vector@;
                out_vector[out_start + e] = centroid[e];
                proof {
                    assert forall|q: int, e2: int|
                        0 <= q < m && 0 <= e2 < self.sub_dimension implies #[trigger] out_vector@[q
                            * self.sub_dimension + e2] == self.codebooks@[self.centroid_start(
                            q,
                            code@[q] as int,
                        ) + e2] by {
                        assert(q * self.sub_dimension + e2 < m * self.sub_dimension) by (nonlinear_arith)
                            requires
                                q < m,
                                e2 < self.sub_dimension,
                        ;
                        assert(out_vector@[q * self.sub_dimension + e2] == before[q * self.sub_dimension + e2]);
                    }
                }
                e += 1;
            }
            m += 1;
        }
    }

    /// Encodes a vector: byte `m` is the index of the best centroid of
    /// codebook `m` for part `m`, `score(m, k)` reporting the key of part
    /// `m`'s score against centroid `k`.
    pub fn encode<F: Fn(usize, usize) -> u32>(
        &self,
        out_code: &mut [u8],
        higher_is_better: bool,
        score: &F,
    )
        requires
            self.wf(),
            self.sub_clusters <= 256,
            old(out_code)@.len() == self.num_subvectors,
            forall|m: usize, k: usize| score.requires((m, k)),
        ensures
            final(out_code)@.len() == self.num_subvectors,
            forall|m: int|
                0 <= m < self.num_subvectors ==> nearest_code(
                    #[trigger] final(out_code)@[m],
                    self.sub_clusters,
                    m as usize,
                    higher_is_better,
                    *score,
                ),
    {
        let mut m: usize = 0;
        while m < self.num_subvectors
            invariant
                0 <= m <= self.num_subvectors,
                out_code@.len() == self.num_subvectors,
                self.sub_clusters <= 256,
                forall|a: usize, b: usize| score.requires((a, b)),
                forall|q: int|
                    0 <= q < m ==> nearest_code(
                        #[trigger] out_code@[q],
                        self.sub_clusters,
                        q as usize,
                        higher_is_better,
                        *score,
                    ),
            decreases self.num_subvectors - m,
        {
            let part = m;
            let per_centroid = |k: usize| -> (r: u32)
                requires
                    forall|a: usize, b: usize| score.requires((a, b)),
                ensures
                    score.ensures((part, k), r),
                { score(part, k) };
            let best = find_nearest_centroid(self.sub_clusters, higher_is_better, &per_centroid);
            let ghost before = out_code@;
            out_code[m] = best as u8;
            proof {
                if self.sub_clusters > 0 {
                    let keys = choose|keys: Seq<u32>|
                        keys.len() == self.sub_clusters && (forall|c: int|
                            0 <= c < self.sub_clusters ==> per_centroid.ensures(
                                (c as usize,),
                                #[trigger] keys[c],
                            )) && first_best(keys, best as int, higher_is_better);
                    assert(forall|c: int|
                        0 <= c < self.sub_clusters ==> score.ensures(
                            (m, c as usize),
                            #[trigger] keys[c],
                        ));
                    assert(best < 256);
                    assert(best as u8 as usize == best);
                    assert(nearest_code(best as u8, self.sub_clusters, m, higher_is_better, *score));
                }
                assert forall|q: int| 0 <= q < m + 1 implies nearest_code(
                    #[trigger] out_code@[q],
                    self.sub_clusters,
                    q as usize,
                    higher_is_better,
                    *score,
                ) by {
                    if q < m {
                        assert(out_code@[q] == before[q]);
                    }
                }
            }
            m += 1;
        }
    }
}

/// Part `m` (of width `sub_dimension`) of each of the first `n` rows of the
/// `dimension`-wide matrix `data`, one after the other: the training set
/// of codebook `m`.
pub fn extract_subspace<T: Copy>(
    data: &[T],
    dimension: usize,
    n: usize,
    m: usize,
    sub_dimension: usize,
) -> (out: Vec<T>)
    requires
        m * sub_dimension + sub_dimension <= dimension,
        n * dimension <= data@.len(),
    ensures
        out@.len() == n * sub_dimension,
        forall|i: int, e: int|
            0 <= i < n && 0 <= e < sub_dimension ==> #[trigger] out@[i * sub_dimension + e]
                == data@[i * dimension + m * sub_dimension + e],
{
    let _len = data.len();
    let mut out: Vec<T> = Vec::new();
    let mut i: usize = 0;
    while i < n
        invariant
            i <= n,
            m * sub_dimension + sub_dimension <= dimension,
            n * dimension <= data@.len(),
            data@.len() <= usize::MAX,
            out@.len() == i * sub_dimension,
            forall|a: int, e: int|
                0 <= a < i && 0 <= e < sub_dimension ==> #[trigger] out@[a * sub_dimension + e]
                    == data@[a * dimension + m * sub_dimension + e],
        decreases n - i,
    {
        proof {
            assert(i * dimension + dimension <= n * dimension) by (nonlinear_arith)
                requires i < n;
        }
        let start = i * dimension + m * sub_dimension;
        let ghost before = out@;
        let mut e: usize = 0;
        while e < sub_dimension
            invariant
                e <= sub_dimension,
                i < n,
                start == i * dimension + m * sub_dimension,
                start + sub_dimension <= data@.len(),
                data@.len() <= usize::MAX,
                out@.len() == i * sub_dimension + e,
                forall|x: int| 0 <= x < i * sub_dimension ==> #[trigger] out@[x] == before[x],
                forall|f: int| 0 <= f < e ==> #[trigger] out@[i * sub_dimension + f] == data@[start + f],
            decreases sub_dimension - e,
        {
            out.push(data[start + e]);
            e += 1;
        }
        proof {
            assert((i + 1) * sub_dimension == i * sub_dimension + sub_dimension) by (nonlinear_arith);
            assert forall|a: int, f: int|
                0 <= a < i + 1 && 0 <= f < sub_dimension implies #[trigger] out@[a * sub_dimension + f]
                == data@[a * dimension + m * sub_dimension + f] by {
                if a < i {
                    assert(a * sub_dimension + f < i * sub_dimension) by (nonlinear_arith)
                        requires a < i, f < sub_dimension;
                    assert(out@[a * sub_dimension + f] == before[a * sub_dimension + f]);
                }
            }
        }
        i += 1;
    }
    out
}

/// Pads a codebook that came out shorter than `len` (fewer centroids than
/// asked for) with `fill` up to `len` values; a longer one is left as it is.
pub fn pad_codebook<T: Copy>(codebook: &mut Vec<T>, len: usize, fill: T)
    ensures
        final(codebook)@.len() == if old(codebook)@.len() < len {
            len as int
        } else {
            old(codebook)@.len() as int
        },
        forall|i: int| 0 <= i < old(codebook)@.len() ==> #[trigger] final(codebook)@[i] == old(codebook)@[i],
        forall|i: int| old(codebook)@.len() <= i < final(codebook)@.len() ==> #[trigger] final(codebook)@[i] == fill,
{
    let ghost before = codebook@;
    while codebook.len() < len
        invariant
            before.len() <= codebook@.len(),
            before.len() < len ==> codebook@.len() <= len,
            before.len() >= len ==> codebook@ == before,
            forall|i: int| 0 <= i < before.len() ==> #[trigger] codebook@[i] == before[i],
            forall|i: int| before.len() <= i < codebook@.len() ==> #[trigger] codebook@[i] == fill,
        decreases len - codebook@.len(),
    {
        codebook.push(fill);
    }
}

/// The codebooks of all parts, one after the other.
pub fn concat_codebooks<T: Copy>(parts: &Vec<Vec<T>>) -> (out: Vec<T>)
    ensures
        out@ == parts@.map_values(|p: Vec<T>| p@).flatten(),
{
    let mut out: Vec<T> = Vec::new();
    let mut j: usize = 0;
    while j < parts.len()
        invariant
            j <= parts@.len(),
            out@ == parts@.take(j as int).map_values(|p: Vec<T>| p@).flatten(),
        decreases parts@.len() - j,
    {
        let part = &parts[j];
        let ghost before = out@;
        let mut e: usize = 0;
        while e < part.len()
            invariant
                e <= part@.len(),
                part == parts@[j as int],
                out@ == before + part@.take(e as int),
            decreases part@.len() - e,
        {
            out.push(part[e]);
            proof {
                assert(part@.take(e as int + 1) =~= part@.take(e as int).push(part@[e as int]));
            }
            e += 1;
        }
        proof {
            let pre = parts@.take(j as int).map_values(|p: Vec<T>| p@);
            assert(parts@.take(j as int + 1).map_values(|p: Vec<T>| p@) =~= pre.push(part@));
            pre.lemma_flatten_push(part@);
            assert(part@.take(part@.len() as int) =~= part@);
        }
        j += 1;
    }
    proof {
        assert(parts@.take(parts@.len() as int) =~= parts@);
    }
    out
}

} // verus!
