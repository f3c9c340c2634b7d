//! A reusable set of visited nodes.
//!
//! One stamp per node, and a generation counter that is bumped for every
//! pass: clearing costs nothing, except when the counter wraps around, where
//! the stamps are zeroed once.

use vstd::prelude::*;

verus! {

/// The nodes visited in this pass.
pub struct VisitedSet {
    stamps: Vec<u32>,
    generation: u32,
}

impl VisitedSet {
    /// `id` has been marked in this pass. Before the first pass every node
    /// counts as marked.
    pub closed spec fn marked(&self, id: u64) -> bool {
        if id < self.stamps@.len() {
            self.stamps@[id as int] == self.generation
        } else {
            self.generation == 0
        }
    }

    /// No stamp is from a later pass.
    pub closed spec fn wf(&self) -> bool {
        forall|i: int|
            0 <= i < self.stamps@.len() ==> #[trigger] self.stamps@[i] <= self.generation
    }

    pub fn new() -> (v: VisitedSet)
        ensures
            v.wf(),
            forall|id: u64| v.marked(id),
    {
        VisitedSet { stamps: Vec::new(), generation: 0 }
    }

    /// Room for `n` nodes.
    fn grow(&mut self, n: usize)
        requires
            old(self).wf(),
        ensures
            final(self).wf(),
            final(self).generation == old(self).generation,
            final(self).stamps@.len() >= n,
            forall|id: u64| #[trigger] final(self).marked(id) <==> old(self).marked(id),
    {
        let len: usize = self.stamps.len();
        if len < n {
            self.stamps.resize(n, 0);
            assert forall|i: int| 0 <= i < len implies #[trigger] self.stamps@[i] == old(
                self,
            ).stamps@[i] by {
                assert(self.stamps@.subrange(0, len as int)[i] == old(self).stamps@[i]);
            }
        }
    }

    /// Starts a new traversal of a graph of `n` nodes.
    pub fn begin_pass(&mut self, n: usize)
        requires
            old(self).wf(),
        ensures
            final(self).wf(),
            forall|id: u64| !final(self).marked(id),
    {
        self.grow(n);
        self.generation = self.generation.wrapping_add(1);
        if self.generation == 0 {
            let len: usize = self.stamps.len();
            let mut i: usize = 0;
            while i < len
                invariant
                    i <= len,
                    len == self.stamps@.len(),
                    forall|j: int| 0 <= j < i ==> #[trigger] self.stamps@[j] == 0,
                decreases len - i,
            {
                self.stamps.set(i, 0);
                i = i + 1;
            }
            self.generation = 1;
        }
    }

    /// Marks `id`. Returns whether it was marked already. The set grows on
    /// demand.
    #[inline]
    pub fn mark(&mut self, id: u64) -> (seen: bool)
        requires
            old(self).wf(),
            id < usize::MAX,
        ensures
            final(self).wf(),
            seen == old(self).marked(id),
            forall|other: u64| #[trigger]
                final(self).marked(other) <==> old(self).marked(other) || other == id,
    {
        let at: usize = id as usize;
        self.grow(at + 1);
        let ghost grown = *self;
        assert(grown.marked(id) == old(self).marked(id));
        if self.stamps[at] == self.generation {
            true
        } else {
            self.stamps.set(at, self.generation);
            assert forall|other: u64| #[trigger] self.marked(other) <==> old(self).marked(other)
                || other == id by {
                assert(grown.marked(other) == old(self).marked(other));
            }
            false
        }
    }
}

} // verus!
