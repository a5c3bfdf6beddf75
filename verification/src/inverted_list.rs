//! Inverted lists of an IVF partition: per cluster, the member vector ids and
//! their product-quantization codes, packed back to back.

use vstd::prelude::*;

verus! {

/// One inverted list: the ids assigned to a coarse cluster and, in `codes`,
/// one `num_subvectors`-byte code per id, in the same order.
#[derive(Debug, Clone, PartialEq, Default)]
pub struct InvertedList {
    /// Vector identifiers assigned to this cluster.
    pub ids: Vec<u32>,
    /// Concatenated codes, `ids.len() * num_subvectors` bytes in all.
    pub codes: Vec<u8>,
}

/// Sum of the list lengths.
pub open spec fn total_len(lists: Seq<InvertedList>) -> nat
    decreases lists.len(),
{
    if lists.len() == 0 {
        0
    } else {
        total_len(lists.drop_last()) + lists.last().ids@.len()
    }
}

impl InvertedList {
    /// Every id has exactly one `num_subvectors`-byte code.
    pub open spec fn wf(&self, num_subvectors: nat) -> bool {
        self.codes@.len() == self.ids@.len() * num_subvectors
    }

    /// Creates an empty list.
    pub fn new() -> (l: Self)
        ensures
            l.ids@ == Seq::<u32>::empty(),
            l.codes@ == Seq::<u8>::empty(),
    {
        InvertedList { ids: Vec::new(), codes: Vec::new() }
    }

    /// Creates an empty list with room for `capacity` entries.
    pub fn with_capacity(capacity: usize, num_subvectors: usize) -> (l: Self)
        requires
            capacity * num_subvectors <= usize::MAX,
        ensures
            l.ids@ == Seq::<u32>::empty(),
            l.codes@ == Seq::<u8>::empty(),
    {
        InvertedList {
            ids: Vec::with_capacity(capacity),
            codes: Vec::with_capacity(capacity * num_subvectors),
        }
    }

    /// Appends a vector id and its code.
    pub fn push(&mut self, id: u32, code: &[u8])
        ensures
            final(self).ids@ == old(self).ids@.push(id),
            final(self).codes@ == old(self).codes@ + code@,
    {
        self.ids.push(id);
        let mut i: usize = 0;
        let ghost start = self.codes@;
        while i < code.len()
            invariant
                0 <= i <= code@.len(),
                self.codes@ == start + code@.subrange(0, i as int),
                self.ids@ == old(self).ids@.push(id),
            decreases code@.len() - i,
        {
            self.codes.push(code[i]);
            i += 1;
            assert(code@.subrange(0, i as int) == code@.subrange(0, i - 1 as int).push(
                code@[i - 1],
            ));
        }
        assert(code@.subrange(0, code@.len() as int) == code@);
    }

    /// Number of vectors in the list.
    pub fn len(&self) -> (n: usize)
        ensures
            n == self.ids@.len(),
    {
        self.ids.len()
    }

    /// Whether the list holds no vector.
    pub fn is_empty(&self) -> (b: bool)
        ensures
            b == (self.ids@.len() == 0),
    {
        self.ids.len() == 0
    }

    /// The code of the `index`-th vector of the list.
    pub fn get_code(&self, index: usize, num_subvectors: usize) -> (code: &[u8])
        requires
            (index + 1) * num_subvectors <= self.codes@.len(),
        ensures
            code@ == self.codes@.subrange(
                index * num_subvectors as int,
                index * num_subvectors + num_subvectors,
            ),
    {
        let n = self.codes.len();
        proof {
            assert(index * num_subvectors + num_subvectors <= self.codes@.len()) by (nonlinear_arith)
                requires
                    (index + 1) * num_subvectors <= self.codes@.len(),
            ;
        }
        let start = index * num_subvectors;
        vstd::slice::slice_subrange(self.codes.as_slice(), start, start + num_subvectors)
    }
}

/// All inverted lists of an index, one per coarse cluster.
#[derive(Debug, Clone, PartialEq)]
pub struct InvertedIndex {
    /// One list per coarse cluster.
    pub lists: Vec<InvertedList>,
    /// Code length in bytes (number of PQ sub-vectors).
    pub num_subvectors: usize,
    /// Number of vectors over all lists.
    pub total_vectors: usize,
}

/// Replacing one list changes the total by the difference of the two lengths.
pub proof fn lemma_total_len_update(lists: Seq<InvertedList>, i: int, l: InvertedList)
    requires
        0 <= i < lists.len(),
    ensures
        total_len(lists.update(i, l)) + lists[i].ids@.len() == total_len(lists) + l.ids@.len(),
    decreases lists.len(),
{
    if i == lists.len() - 1 {
        assert(lists.update(i, l).drop_last() == lists.drop_last());
    } else {
        lemma_total_len_update(lists.drop_last(), i, l);
        assert(lists.update(i, l).drop_last() == lists.drop_last().update(i, l));
    }
}

/// A sequence of empty lists has total length 0.
proof fn lemma_total_len_empty_lists(lists: Seq<InvertedList>)
    requires
        forall|i: int| 0 <= i < lists.len() ==> (#[trigger] lists[i]).ids@.len() == 0,
    ensures
        total_len(lists) == 0,
    decreases lists.len(),
{
    if lists.len() > 0 {
        lemma_total_len_empty_lists(lists.drop_last());
    }
}

/// Id `x` is entry `i` of list `c`.
pub open spec fn entry_is(lists: Seq<InvertedList>, c: int, i: int, x: u32) -> bool {
    0 <= c < lists.len() && 0 <= i < lists[c].ids@.len() && lists[c].ids@[i] == x
}

impl InvertedIndex {
    /// No id occurs twice, in one list or over two.
    pub open spec fn holds_each_id_once(&self) -> bool {
        forall|c1: int, i1: int, c2: int, i2: int, x: u32|
            #[trigger] entry_is(self.lists@, c1, i1, x) && #[trigger] entry_is(self.lists@, c2, i2, x)
                ==> c1 == c2 && i1 == i2
    }

    /// Some list holds id `x`.
    pub open spec fn holds_id(&self, x: u32) -> bool {
        exists|c: int, i: int| #[trigger] entry_is(self.lists@, c, i, x)
    }

    /// Every list is well formed and `total_vectors` counts all entries.
    pub open spec fn wf(&self) -> bool {
        &&& forall|i: int|
            0 <= i < self.lists@.len() ==> (#[trigger] self.lists@[i]).wf(
                self.num_subvectors as nat,
            )
        &&& self.total_vectors == total_len(self.lists@)
    }

    /// Creates `nlist` empty lists for `num_subvectors`-byte codes.
    pub fn new(nlist: usize, num_subvectors: usize) -> (idx: Self)
        ensures
            idx.wf(),
            idx.lists@.len() == nlist,
            forall|i: int| 0 <= i < nlist ==> (#[trigger] idx.lists@[i]).ids@.len() == 0,
            idx.num_subvectors == num_subvectors,
            idx.total_vectors == 0,
            idx.holds_each_id_once(),
            forall|x: u32| !idx.holds_id(x),
    {
        let mut lists: Vec<InvertedList> = Vec::with_capacity(nlist);
        let mut c: usize = 0;
        while c < nlist
            invariant
                0 <= c <= nlist,
                lists@.len() == c,
                forall|i: int|
                    0 <= i < c ==> (#[trigger] lists@[i]).ids@.len() == 0
                        && lists@[i].codes@.len() == 0,
            decreases nlist - c,
        {
            lists.push(InvertedList::new());
            c += 1;
        }
        proof {
            lemma_total_len_empty_lists(lists@);
        }
        let idx = InvertedIndex { lists, num_subvectors, total_vectors: 0 };
        assert forall|i: int| 0 <= i < idx.lists@.len() implies (#[trigger] idx.lists@[i]).wf(
            num_subvectors as nat,
        ) by {
            assert(idx.lists@[i].codes@.len() == 0);
        }
        idx
    }

    /// Appends vector `id` with `code` to the list of cluster `cluster_id`.
    pub fn add(&mut self, cluster_id: usize, id: u32, code: &[u8])
        requires
            old(self).wf(),
            code@.len() == old(self).num_subvectors,
            cluster_id < old(self).lists@.len(),
            old(self).total_vectors < usize::MAX,
        ensures
            final(self).wf(),
            final(self).num_subvectors == old(self).num_subvectors,
            final(self).total_vectors == old(self).total_vectors + 1,
            final(self).lists@.len() == old(self).lists@.len(),
            final(self).lists@[cluster_id as int].ids@ == old(self).lists@[cluster_id as int].ids@.push(id),
            final(self).lists@[cluster_id as int].codes@ == old(self).lists@[cluster_id as int].codes@
                + code@,
            forall|i: int|
                0 <= i < old(self).lists@.len() && i != cluster_id ==> #[trigger] final(self).lists@[i]
                    == old(self).lists@[i],
            forall|x: u32| #[trigger] final(self).holds_id(x) <==> old(self).holds_id(x) || x == id,
            old(self).holds_each_id_once() && !old(self).holds_id(id) ==> final(self).holds_each_id_once(),
    {
        let ghost old_lists = self.lists@;
        let mut list = InvertedList::new();
        std::mem::swap(&mut list, &mut self.lists[cluster_id]);
        proof {
            assert(list == old_lists[cluster_id as int]);
        }
        list.push(id, code);
        let ghost new_list = list;
        self.lists.set(cluster_id, list);
        self.total_vectors = self.total_vectors + 1;
        proof {
            assert(self.lists@ == old_lists.update(cluster_id as int, new_list));
            lemma_total_len_update(old_lists, cluster_id as int, new_list);
            assert(new_list.codes@.len() == (old_lists[cluster_id as int].ids@.len() + 1)
                * self.num_subvectors) by (nonlinear_arith)
                requires
                    new_list.codes@.len() == old_lists[cluster_id as int].codes@.len()
                        + self.num_subvectors,
                    old_lists[cluster_id as int].codes@.len() == old_lists[cluster_id as int].ids@.len()
                        * self.num_subvectors,
            ;
            assert forall|i: int| 0 <= i < self.lists@.len() implies (
            #[trigger] self.lists@[i]).wf(self.num_subvectors as nat) by {
                if i != cluster_id {
                    assert(self.lists@[i] == old_lists[i]);
                }
            }
            let ol = old_lists[cluster_id as int].ids@.len();
            assert forall|c: int, i: int, x: u32| #[trigger] entry_is(self.lists@, c, i, x) implies entry_is(
                old_lists,
                c,
                i,
                x,
            ) || (c == cluster_id && i == ol && x == id) by {
                if c != cluster_id {
                    assert(self.lists@[c] == old_lists[c]);
                } else if i < ol {
                    assert(new_list.ids@[i] == old_lists[c].ids@[i]);
                }
            }
            assert forall|c: int, i: int, x: u32| #[trigger] entry_is(old_lists, c, i, x) implies entry_is(
                self.lists@,
                c,
                i,
                x,
            ) by {
                if c != cluster_id {
                    assert(self.lists@[c] == old_lists[c]);
                } else {
                    assert(new_list.ids@[i] == old_lists[c].ids@[i]);
                }
            }
            assert(entry_is(self.lists@, cluster_id as int, ol as int, id));
            assert forall|x: u32| #[trigger] self.holds_id(x) <==> old(self).holds_id(x) || x == id by {
                if self.holds_id(x) {
                    let (c, i) = choose|c: int, i: int| #[trigger] entry_is(self.lists@, c, i, x);
                    assert(entry_is(old_lists, c, i, x) || x == id);
                }
                if old(self).holds_id(x) {
                    let (c, i) = choose|c: int, i: int| #[trigger] entry_is(old_lists, c, i, x);
                    assert(entry_is(self.lists@, c, i, x));
                }
            }
            if old(self).holds_each_id_once() && !old(self).holds_id(id) {
                assert forall|c1: int, i1: int, c2: int, i2: int, x: u32|
                    #[trigger] entry_is(self.lists@, c1, i1, x) && #[trigger] entry_is(
                        self.lists@,
                        c2,
                        i2,
                        x,
                    ) implies c1 == c2 && i1 == i2 by {
                    if entry_is(old_lists, c1, i1, x) && entry_is(old_lists, c2, i2, x) {
                    } else if entry_is(old_lists, c1, i1, x) {
                        assert(x == id);
                        assert(old(self).holds_id(id));
                    } else if entry_is(old_lists, c2, i2, x) {
                        assert(x == id);
                        assert(old(self).holds_id(id));
                    }
                }
            }
        }
    }

    /// Number of vectors over all lists.
    pub fn total_vectors(&self) -> (n: usize)
        ensures
            n == self.total_vectors,
    {
        self.total_vectors
    }

    /// Number of coarse clusters.
    pub fn nlist(&self) -> (n: usize)
        ensures
            n == self.lists@.len(),
    {
        self.lists.len()
    }

    /// The list of cluster `cluster_id`.
    pub fn get_list(&self, cluster_id: usize) -> (l: &InvertedList)
        requires
            cluster_id < self.lists@.len(),
        ensures
            *l == self.lists@[cluster_id as int],
    {
        &self.lists[cluster_id]
    }
}

} // verus!
