//! Generation-based tracking of visited nodes.
//!
//! A node counts as visited when the generation stored for it is the current
//! one, so that forgetting all nodes is a single increment.

use vstd::prelude::*;

verus! {

/// A vector that was made longer keeps its elements, and the new ones are
/// equal to the filler.
pub proof fn lemma_grown(before: Seq<u32>, after: Seq<u32>, value: u32)
    requires
        after.len() >= before.len(),
        after.subrange(0, before.len() as int) == before,
        forall|i: int| before.len() <= i < after.len() ==> cloned(value, #[trigger] after[i]),
    ensures
        forall|i: int|
            0 <= i < after.len() ==> #[trigger] after[i] == (if i < before.len() {
                before[i]
            } else {
                value
            }),
{
    assert forall|i: int| 0 <= i < after.len() implies #[trigger] after[i] == (if i
        < before.len() {
        before[i]
    } else {
        value
    }) by {
        if i < before.len() {
            assert(after.subrange(0, before.len() as int)[i] == after[i]);
        }
    }
}

/// A visited list that uses a generation counter to avoid clearing itself.
#[derive(Debug)]
pub struct VisitedList {
    /// Generation in which each node was last visited.
    visited: Vec<u32>,
    /// Current generation.
    generation: u32,
}

impl VisitedList {
    pub closed spec fn wf(&self) -> bool {
        &&& self.generation >= 1
        &&& forall|i: int| 0 <= i < self.visited@.len() ==> #[trigger] self.visited@[i]
            <= self.generation
    }

    /// The nodes visited in the current generation.
    pub closed spec fn view(&self) -> Set<u32> {
        Set::new(
            |id: u32|
                id < self.visited@.len() && self.visited@[id as int] == self.generation,
        )
    }

    /// How many nodes fit without growing.
    pub closed spec fn capacity(&self) -> nat {
        self.visited@.len()
    }

    /// Create a new visited list for the given capacity.
    pub fn new(capacity: usize) -> (r: Self)
        ensures
            r.wf(),
            r@ == Set::<u32>::empty(),
            r.capacity() == capacity,
    {
        let visited: Vec<u32> = vec![0u32; capacity];
        let r = VisitedList { visited, generation: 1 };
        assert(r@ =~= Set::<u32>::empty());
        r
    }

    /// Check if a node has been visited in the current generation.
    pub fn is_visited(&self, node_id: u32) -> (r: bool)
        ensures
            r == self@.contains(node_id),
    {
        let index: usize = node_id as usize;
        if index >= self.visited.len() {
            return false;
        }
        self.visited[index] == self.generation
    }

    /// Mark a node as visited in the current generation.
    pub fn mark_visited(&mut self, node_id: u32)
        requires
            old(self).wf(),
            node_id < usize::MAX,
        ensures
            final(self).wf(),
            final(self)@ == old(self)@.insert(node_id),
            final(self).capacity() == (if node_id < old(self).capacity() {
                old(self).capacity()
            } else {
                (node_id + 1) as nat
            }),
    {
        let index: usize = node_id as usize;
        if index >= self.visited.len() {
            let ghost before = self.visited@;
            self.visited.resize(index + 1, 0);
            proof {
                lemma_grown(before, self.visited@, 0u32);
            }
        }
        self.visited.set(index, self.generation);
        assert(self@ =~= old(self)@.insert(node_id));
    }

    /// Forget every visited node by moving on to the next generation.
    ///
    /// When the counter is at its end, the list itself is cleared.
    pub fn next_generation(&mut self)
        requires
            old(self).wf(),
        ensures
            final(self).wf(),
            final(self)@ == Set::<u32>::empty(),
            final(self).capacity() == old(self).capacity(),
    {
        if self.generation == u32::MAX {
            let n: usize = self.visited.len();
            self.visited = vec![0u32; n];
            self.generation = 1;
        } else {
            self.generation = self.generation + 1;
        }
        assert(self@ =~= Set::<u32>::empty());
    }

    /// Ensure the list has room for the given number of nodes.
    pub fn ensure_capacity(&mut self, capacity: usize)
        requires
            old(self).wf(),
        ensures
            final(self).wf(),
            final(self)@ == old(self)@,
            final(self).capacity() == (if capacity > old(self).capacity() {
                capacity as nat
            } else {
                old(self).capacity()
            }),
    {
        if capacity > self.visited.len() {
            let ghost before = self.visited@;
            self.visited.resize(capacity, 0);
            proof {
                lemma_grown(before, self.visited@, 0u32);
            }
        }
        assert(self@ =~= old(self)@);
    }
}

} // verus!
