//! Recall bookkeeping: how many of a list's ids another list retrieved.

use vstd::prelude::*;

verus! {

/// Number of positions of `needles` whose id occurs in `haystack`.
pub open spec fn found_count(needles: Seq<u32>, haystack: Seq<u32>) -> nat
    decreases needles.len(),
{
    if needles.len() == 0 {
        0
    } else {
        found_count(needles.drop_last(), haystack) + if haystack.contains(needles.last()) {
            1nat
        } else {
            0nat
        }
    }
}

/// At most one per needle.
proof fn lemma_found_count_le(needles: Seq<u32>, haystack: Seq<u32>)
    ensures
        found_count(needles, haystack) <= needles.len(),
    decreases needles.len(),
{
    if needles.len() > 0 {
        lemma_found_count_le(needles.drop_last(), haystack);
    }
}

/// Counts the ids of `needles` (position by position) that `haystack`
/// also holds: the hits behind a recall figure.
pub fn count_found(needles: &[u32], haystack: &[u32]) -> (c: usize)
    ensures
        c == found_count(needles@, haystack@),
        c <= needles@.len(),
{
    let mut c: usize = 0;
    let mut i: usize = 0;
    while i < needles.len()
        invariant
            i <= needles@.len(),
            c == found_count(needles@.take(i as int), haystack@),
            c <= i,
        decreases needles@.len() - i,
    {
        let x = needles[i];
        let mut j: usize = 0;
        let mut hit = false;
        while j < haystack.len()
            invariant
                j <= haystack@.len(),
                hit <==> haystack@.take(j as int).contains(x),
            decreases haystack@.len() - j,
        {
            proof {
                let t = haystack@.take(j as int);
                let t1 = haystack@.take(j + 1);
                assert(t1 =~= t.push(haystack@[j as int]));
                assert(t1.contains(x) <==> (t.contains(x) || haystack@[j as int] == x)) by {
                    if t1.contains(x) {
                        let k = choose|k: int| 0 <= k < t1.len() && t1[k] == x;
                        if k < j {
                            assert(t[k] == x);
                        }
                    }
                    if t.contains(x) {
                        let k = choose|k: int| 0 <= k < t.len() && t[k] == x;
                        assert(t1[k] == x);
                    }
                    if haystack@[j as int] == x {
                        assert(t1[j as int] == x);
                    }
                }
            }
            if haystack[j] == x {
                hit = true;
            }
            j += 1;
        }
        proof {
            assert(haystack@.take(haystack@.len() as int) =~= haystack@);
            assert(needles@.take(i + 1).drop_last() =~= needles@.take(i as int));
        }
        if hit {
            c += 1;
        }
        i += 1;
    }
    proof {
        assert(needles@.take(needles@.len() as int) =~= needles@);
        lemma_found_count_le(needles@, haystack@);
    }
    c
}

} // verus!
