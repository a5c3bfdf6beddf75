//! Epoch-tagged visited-set for graph traversal: resetting the set between
//! queries costs one counter increment instead of clearing a buffer.

use vstd::prelude::*;

verus! {

/// Visited-node tracker: `tags[id] == current_epoch` marks `id` as visited.
///
/// Epoch 0 is reserved for "never visited", so the counter skips it when it
/// wraps around (clearing all tags at that moment).
#[derive(Debug, Clone)]
pub struct VisitedTracker {
    tags: Vec<u32>,
    /// Current search epoch.
    current_epoch: u32,
}

/// Extends `v` with zeros up to length `len`.
fn grow_zeroed(v: &mut Vec<u32>, len: usize)
    requires
        old(v)@.len() <= len,
    ensures
        final(v)@.len() == len,
        final(v)@.subrange(0, old(v)@.len() as int) == old(v)@,
        forall|i: int| old(v)@.len() <= i < len ==> #[trigger] final(v)@[i] == 0,
{
    while v.len() < len
        invariant
            old(v)@.len() <= v@.len() <= len,
            v@.subrange(0, old(v)@.len() as int) == old(v)@,
            forall|i: int| old(v)@.len() <= i < v@.len() ==> #[trigger] v@[i] == 0,
        decreases len - v@.len(),
    {
        v.push(0);
    }
}

impl VisitedTracker {
    /// Well-formedness: the epoch is never 0 and no tag is newer than it.
    pub closed spec fn wf(&self) -> bool {
        &&& self.current_epoch != 0
        &&& forall|i: int| 0 <= i < self.tags@.len() ==> #[trigger] self.tags@[i] <= self.current_epoch
    }

    /// The set of ids visited in the current epoch.
    pub closed spec fn visited(&self) -> Set<u32> {
        Set::new(
            |id: u32| (id as int) < self.tags@.len() && self.tags@[id as int] == self.current_epoch,
        )
    }

    /// The current epoch counter.
    pub closed spec fn epoch(&self) -> u32 {
        self.current_epoch
    }

    /// Number of ids that have a tag slot.
    pub closed spec fn capacity(&self) -> nat {
        self.tags@.len()
    }

    /// Creates a tracker with `capacity` slots and nothing visited.
    pub fn new(capacity: usize) -> (t: Self)
        ensures
            t.wf(),
            t.visited() == Set::<u32>::empty(),
            t.capacity() == capacity,
            t.epoch() == 1,
    {
        let tags = vec![0u32; capacity];
        let t = VisitedTracker { tags, current_epoch: 1 };
        assert(t.visited() =~= Set::<u32>::empty());
        t
    }

    /// Starts a new traversal: forgets every visit and makes room for at
    /// least `capacity` ids.
    pub fn advance_epoch(&mut self, capacity: usize)
        requires
            old(self).wf(),
        ensures
            final(self).wf(),
            final(self).visited() == Set::<u32>::empty(),
            final(self).capacity() == if old(self).capacity() < capacity {
                capacity as nat
            } else {
                old(self).capacity()
            },
            old(self).epoch() < u32::MAX ==> final(self).epoch() == old(self).epoch() + 1,
            old(self).epoch() == u32::MAX ==> final(self).epoch() == 1,
    {
        let ghost old_tags = self.tags@;
        if self.tags.len() < capacity {
            grow_zeroed(&mut self.tags, capacity);
        }
        assert forall|i: int| 0 <= i < self.tags@.len() implies #[trigger] self.tags@[i]
            <= self.current_epoch by {
            if i < old_tags.len() {
                assert(self.tags@.subrange(0, old_tags.len() as int)[i] == old_tags[i]);
            }
        }
        if self.current_epoch == u32::MAX {
            let n = self.tags.len();
            let mut i: usize = 0;
            while i < n
                invariant
                    n == self.tags@.len(),
                    0 <= i <= n,
                    forall|j: int| 0 <= j < i ==> #[trigger] self.tags@[j] == 0,
                decreases n - i,
            {
                self.tags.set(i, 0);
                i += 1;
            }
            self.current_epoch = 1;
        } else {
            self.current_epoch = self.current_epoch + 1;
        }
        assert forall|id: u32| !self.visited().contains(id) by {
            if (id as int) < self.tags@.len() {
                assert(self.tags@[id as int] <= self.current_epoch);
            }
        }
        assert(self.visited() =~= Set::<u32>::empty());
    }

    /// The current epoch counter.
    pub fn current_epoch(&self) -> (e: u32)
        ensures
            e == self.epoch(),
    {
        self.current_epoch
    }

    /// Moves the epoch counter forward to `epoch` without a new traversal
    /// in between: the visits stay when the epoch is unchanged, else none
    /// is left.
    pub fn fast_forward_epoch(&mut self, epoch: u32)
        requires
            old(self).wf(),
            old(self).epoch() <= epoch,
        ensures
            final(self).wf(),
            final(self).epoch() == epoch,
            final(self).capacity() == old(self).capacity(),
            final(self).visited() == if epoch == old(self).epoch() {
                old(self).visited()
            } else {
                Set::<u32>::empty()
            },
    {
        self.current_epoch = epoch;
        proof {
            if epoch != old(self).epoch() {
                assert forall|id: u32| !self.visited().contains(id) by {
                    if (id as int) < self.tags@.len() {
                        assert(self.tags@[id as int] <= old(self).current_epoch);
                    }
                }
                assert(self.visited() =~= Set::<u32>::empty());
            }
        }
    }

    /// Whether `id` has been visited in the current epoch; ids beyond the
    /// capacity have not.
    pub fn is_visited(&self, id: u32) -> (b: bool)
        ensures
            b == self.visited().contains(id),
    {
        let idx = id as usize;
        if idx < self.tags.len() {
            self.tags[idx] == self.current_epoch
        } else {
            false
        }
    }

    /// Marks `id` as visited, growing the tag buffer if `id` is beyond it.
    pub fn mark_visited(&mut self, id: u32)
        requires
            old(self).wf(),
            id as int + 65 <= usize::MAX,
        ensures
            final(self).wf(),
            final(self).visited() == old(self).visited().insert(id),
            final(self).epoch() == old(self).epoch(),
            final(self).capacity() == if (id as nat) < old(self).capacity() {
                old(self).capacity()
            } else {
                id as nat + 1 + 64
            },
    {
        let idx = id as usize;
        let ghost old_tags = self.tags@;
        if idx >= self.tags.len() {
            grow_zeroed(&mut self.tags, idx + 1 + 64);
        }
        assert forall|i: int| 0 <= i < self.tags@.len() implies #[trigger] self.tags@[i]
            <= self.current_epoch && (i < old_tags.len() ==> self.tags@[i] == old_tags[i]) by {
            if i < old_tags.len() {
                assert(self.tags@.subrange(0, old_tags.len() as int)[i] == old_tags[i]);
            }
        }
        self.tags.set(idx, self.current_epoch);
        assert(self.visited() =~= old(self).visited().insert(id));
    }
}

/// A call that changes a tracker.
pub enum TrackerOp {
    /// `mark_visited(id)`.
    Mark(u32),
    /// `advance_epoch(..)`.
    Advance,
}

/// `after` is `before` after `op`, as the contracts of
/// [`VisitedTracker::mark_visited`] and [`VisitedTracker::advance_epoch`]
/// state it.
pub open spec fn op_applied(before: VisitedTracker, after: VisitedTracker, op: TrackerOp) -> bool {
    &&& after.wf()
    &&& match op {
        TrackerOp::Mark(id) => after.visited() == before.visited().insert(id),
        TrackerOp::Advance => after.visited() == Set::<u32>::empty(),
    }
}

/// The ids marked after the last advance of `ops` (every mark when there
/// is none).
pub open spec fn marked_since_advance(ops: Seq<TrackerOp>) -> Set<u32>
    decreases ops.len(),
{
    if ops.len() == 0 {
        Set::empty()
    } else {
        match ops.last() {
            TrackerOp::Mark(id) => marked_since_advance(ops.drop_last()).insert(id),
            TrackerOp::Advance => Set::empty(),
        }
    }
}

/// From a tracker with nothing visited, after any sequence of marks and
/// advances (epoch wraps included), an id is visited exactly when it was
/// marked after the last advance, or anywhere when there was none.
pub proof fn lemma_visited_after_ops(states: Seq<VisitedTracker>, ops: Seq<TrackerOp>)
    requires
        states.len() == ops.len() + 1,
        states[0].visited() == Set::<u32>::empty(),
        forall|i: int| 0 <= i < ops.len() ==> #[trigger] op_applied(states[i], states[i + 1], ops[i]),
    ensures
        states.last().visited() == marked_since_advance(ops),
    decreases ops.len(),
{
    if ops.len() > 0 {
        let n = ops.len() - 1;
        assert forall|i: int| 0 <= i < ops.drop_last().len() implies #[trigger] op_applied(
            states.drop_last()[i],
            states.drop_last()[i + 1],
            ops.drop_last()[i],
        ) by {
            assert(op_applied(states[i], states[i + 1], ops[i]));
        }
        lemma_visited_after_ops(states.drop_last(), ops.drop_last());
        assert(op_applied(states[n], states[n + 1], ops[n]));
        assert(states.drop_last().last() == states[n]);
    }
}

/// From any tracker (its epoch at `u32::MAX` included), an advance
/// forgets every visit, and a mark that follows makes exactly that id
/// visited.
pub proof fn lemma_advance_then_mark(
    t0: VisitedTracker,
    t1: VisitedTracker,
    t2: VisitedTracker,
    x: u32,
)
    requires
        op_applied(t0, t1, TrackerOp::Advance),
        op_applied(t1, t2, TrackerOp::Mark(x)),
    ensures
        forall|id: u32| !t1.visited().contains(id),
        forall|id: u32| #[trigger] t2.visited().contains(id) <==> id == x,
{
}

impl Default for VisitedTracker {
    fn default() -> (t: Self)
        ensures
            t.wf(),
            t.visited() == Set::<u32>::empty(),
            t.capacity() == 0,
            t.epoch() == 1,
    {
        Self::new(0)
    }
}

} // verus!
