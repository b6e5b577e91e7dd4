//! Buffers of a search that are used again for the next one.

use vstd::prelude::*;

use vstd::multiset::Multiset;

use crate::candidates::{inserted, sorted, CandidateQueue};
use crate::distance::float_rank;
use crate::types::Candidate;
use crate::visited::lemma_grown;

verus! {

/// Nodes that were visited, with a generation counter: a node counts as visited
/// when the current generation is stored for it.
#[derive(Debug)]
pub struct VisitedList {
    /// Generation in which each node was last visited.
    visited: Vec<u32>,
    /// Current generation. It starts at one, so that zero means never.
    generation: u32,
}

impl VisitedList {
    pub closed spec fn wf(&self) -> bool {
        &&& self.generation >= 1
        &&& self.visited@.len() <= u32::MAX + 1
        &&& forall|i: int| 0 <= i < self.visited@.len() ==> #[trigger] self.visited@[i]
            <= self.generation
    }

    /// The nodes that were visited since the list was cleared.
    pub closed spec fn view(&self) -> Set<u32> {
        Set::new(
            |id: u32|
                id < self.visited@.len() && self.visited@[id as int] == self.generation,
        )
    }

    pub fn new() -> (r: Self)
        ensures
            r.wf(),
            r@ == Set::<u32>::empty(),
    {
        let r = VisitedList { visited: Vec::new(), generation: 1 };
        assert(r@ =~= Set::<u32>::empty());
        r
    }

    /// Forgets every node. Only when the counter is at its end the list itself
    /// is written.
    pub fn clear(&mut self)
        requires
            old(self).wf(),
        ensures
            final(self).wf(),
            final(self)@ == Set::<u32>::empty(),
    {
        if self.generation == u32::MAX {
            let n: usize = self.visited.len();
            self.visited = vec![0u32; n];
            self.generation = 1;
        } else {
            self.generation = self.generation + 1;
        }
        assert(self@ =~= Set::<u32>::empty());
    }

    pub fn contains(&self, id: u32) -> (r: bool)
        ensures
            r == self@.contains(id),
    {
        let index: usize = id as usize;
        index < self.visited.len() && self.visited[index] == self.generation
    }

    /// Marks a node as visited.
    pub fn insert(&mut self, id: u32)
        requires
            old(self).wf(),
            id < usize::MAX,
        ensures
            final(self).wf(),
            final(self)@ == old(self)@.insert(id),
    {
        let index: usize = id as usize;
        if index >= self.visited.len() {
            let ghost before = self.visited@;
            self.visited.resize(index + 1, 0);
            proof {
                lemma_grown(before, self.visited@, 0u32);
            }
        }
        self.visited.set(index, self.generation);
        assert(self@ =~= old(self)@.insert(id));
    }

    /// Whether no node was visited.
    pub fn is_empty(&self) -> (r: bool)
        requires
            self.wf(),
        ensures
            r == (self@ == Set::<u32>::empty()),
    {
        let mut i: usize = 0;
        while i < self.visited.len()
            invariant
                i <= self.visited@.len() <= u32::MAX + 1,
                forall|j: int| 0 <= j < i ==> #[trigger] self.visited@[j] != self.generation,
            decreases self.visited.len() - i,
        {
            if self.visited[i] == self.generation {
                assert(self@.contains(i as u32));
                return false;
            }
            i += 1;
        }
        assert(self@ =~= Set::<u32>::empty());
        true
    }
}

impl Default for VisitedList {
    fn default() -> (r: Self)
        ensures
            r.wf(),
            r@ == Set::<u32>::empty(),
    {
        VisitedList::new()
    }
}

/// All state of a search.
#[derive(Debug)]
pub struct SearchWorkset {
    pub visited: VisitedList,
    /// Candidates whose neighbors are to be looked at.
    pub frontier: CandidateQueue,
    /// The nearest candidates so far.
    pub accepted: CandidateQueue,
    pub neighbors: Vec<u32>,
    pub finalized: Vec<Candidate>,
    pub batch_distances: Vec<u32>,
}

/// What `consider` makes of the accepted candidates.
pub open spec fn considered(
    before: Seq<Candidate>,
    c: Candidate,
    ef: nat,
    after: Seq<Candidate>,
) -> bool {
    if admits(before, c, ef) {
        exists|mid: Seq<Candidate>|
            {
                &&& sorted(mid)
                &&& #[trigger] inserted(before, c, mid)
                &&& after == if mid.len() > ef {
                    mid.drop_last()
                } else {
                    mid
                }
            }
    } else {
        after == before
    }
}

/// A candidate is admitted while there is room, and afterwards if it is nearer
/// than the farthest one.
pub open spec fn admits(accepted: Seq<Candidate>, c: Candidate, ef: nat) -> bool {
    accepted.len() == 0 || c.rank() < accepted.last().rank() || accepted.len() < ef
}

/// The nearest of some candidates, nearest first.
pub open spec fn nearest_of(all: Multiset<Candidate>, limit: nat, r: Seq<Candidate>) -> bool {
    exists|whole: Seq<Candidate>|
        {
            &&& #[trigger] sorted(whole)
            &&& whole.to_multiset() == all
            &&& r == whole.take(
                if limit <= whole.len() {
                    limit as int
                } else {
                    whole.len() as int
                },
            )
        }
}

/// Nodes with their distances.
pub open spec fn result_pairs(candidates: Seq<Candidate>) -> Seq<(u32, u32)> {
    candidates.map_values(|c: Candidate| (c.node_id, c.distance))
}

impl SearchWorkset {
    pub open spec fn wf(&self) -> bool {
        self.visited.wf() && self.frontier.wf() && self.accepted.wf()
    }

    pub fn new() -> (r: Self)
        ensures
            r.wf(),
            r.visited@ == Set::<u32>::empty(),
            r.frontier@.len() == 0,
            r.accepted@.len() == 0,
            r.neighbors@.len() == 0,
            r.finalized@.len() == 0,
            r.batch_distances@.len() == 0,
    {
        SearchWorkset {
            visited: VisitedList::new(),
            frontier: CandidateQueue::new(),
            accepted: CandidateQueue::new(),
            neighbors: Vec::new(),
            finalized: Vec::new(),
            batch_distances: Vec::new(),
        }
    }

    /// Makes the workset ready for the next search. The distances are written
    /// before they are read, and stay.
    pub fn clear(&mut self)
        requires
            old(self).wf(),
        ensures
            final(self).wf(),
            final(self).visited@ == Set::<u32>::empty(),
            final(self).frontier@.len() == 0,
            final(self).accepted@.len() == 0,
            final(self).neighbors@.len() == 0,
            final(self).finalized@.len() == 0,
            final(self).batch_distances == old(self).batch_distances,
    {
        self.visited.clear();
        self.frontier.clear();
        self.accepted.clear();
        self.neighbors.clear();
        self.finalized.clear();
    }

    /// The buffers that the descent to an entry point uses.
    pub fn entry_buffers(&mut self) -> (r: (&mut VisitedList, &mut Vec<u32>))
        ensures
            *r.0 == old(self).visited,
            *r.1 == old(self).neighbors,
            *final(self) == (SearchWorkset {
                visited: *final(r.0),
                neighbors: *final(r.1),
                ..*old(self)
            }),
    {
        (&mut self.visited, &mut self.neighbors)
    }

    /// The buffers that a collector of neighbors uses.
    pub fn collector_buffers(&mut self) -> (r: (&VisitedList, &mut Vec<u32>))
        ensures
            *r.0 == old(self).visited,
            *r.1 == old(self).neighbors,
            *final(self) == (SearchWorkset { neighbors: *final(r.1), ..*old(self) }),
    {
        (&self.visited, &mut self.neighbors)
    }

    /// Takes the buffer for neighbors out.
    pub fn take_neighbors(&mut self) -> (r: Vec<u32>)
        ensures
            r == old(self).neighbors,
            final(self).neighbors@.len() == 0,
            *final(self) == (SearchWorkset { neighbors: final(self).neighbors, ..*old(self) }),
    {
        let mut taken: Vec<u32> = Vec::new();
        std::mem::swap(&mut taken, &mut self.neighbors);
        taken
    }

    pub fn restore_neighbors(&mut self, neighbors: Vec<u32>)
        ensures
            *final(self) == (SearchWorkset { neighbors, ..*old(self) }),
    {
        self.neighbors = neighbors;
    }

    /// Takes the buffer for distances out.
    pub fn take_batch_distances(&mut self) -> (r: Vec<u32>)
        ensures
            r == old(self).batch_distances,
            final(self).batch_distances@.len() == 0,
            *final(self) == (SearchWorkset {
                batch_distances: final(self).batch_distances,
                ..*old(self)
            }),
    {
        let mut taken: Vec<u32> = Vec::new();
        std::mem::swap(&mut taken, &mut self.batch_distances);
        taken
    }

    pub fn restore_batch_distances(&mut self, batch_distances: Vec<u32>)
        ensures
            *final(self) == (SearchWorkset { batch_distances, ..*old(self) }),
    {
        self.batch_distances = batch_distances;
    }

    /// Whether no candidate is left to look at.
    pub fn is_empty(&self) -> (r: bool)
        ensures
            r == (self.frontier@.len() == 0),
    {
        self.frontier.is_empty()
    }

    /// Takes the nearest candidate to look at.
    pub fn pop_frontier(&mut self) -> (r: Option<Candidate>)
        requires
            old(self).wf(),
        ensures
            final(self).wf(),
            old(self).frontier@.len() == 0 ==> r is None && final(self).frontier@
                == old(self).frontier@,
            old(self).frontier@.len() > 0 ==> r == Some(old(self).frontier@[0])
                && final(self).frontier@ == old(self).frontier@.drop_first(),
            *final(self) == (SearchWorkset { frontier: final(self).frontier, ..*old(self) }),
    {
        self.frontier.pop_nearest()
    }

    /// Whether a candidate is farther than all that are accepted.
    pub fn should_stop(&self, current: Candidate) -> (r: bool)
        ensures
            r == (self.accepted@.len() > 0 && current.rank() > self.accepted@.last().rank()),
    {
        match self.accepted.farthest() {
            Some(farthest) => float_rank(current.distance) > float_rank(farthest.distance),
            None => false,
        }
    }

    /// Starts from a candidate.
    pub fn seed(&mut self, candidate: Candidate)
        requires
            old(self).wf(),
        ensures
            final(self).wf(),
            inserted(old(self).frontier@, candidate, final(self).frontier@),
            inserted(old(self).accepted@, candidate, final(self).accepted@),
            *final(self) == (SearchWorkset {
                frontier: final(self).frontier,
                accepted: final(self).accepted,
                ..*old(self)
            }),
    {
        self.frontier.push(candidate);
        self.accepted.push(candidate);
    }

    /// Marks a node as visited. False if it was already.
    pub fn record_visited(&mut self, node_id: u32) -> (r: bool)
        requires
            old(self).wf(),
            node_id < usize::MAX,
        ensures
            final(self).wf(),
            r == !old(self).visited@.contains(node_id),
            final(self).visited@ == old(self).visited@.insert(node_id),
            *final(self) == (SearchWorkset { visited: final(self).visited, ..*old(self) }),
    {
        if self.visited.contains(node_id) {
            assert(self.visited@ =~= self.visited@.insert(node_id));
            return false;
        }
        self.visited.insert(node_id);
        true
    }

    /// Accepts a candidate if it is near enough.
    pub fn consider(&mut self, neighbor: Candidate, ef: usize)
        requires
            old(self).wf(),
        ensures
            final(self).wf(),
            considered(old(self).accepted@, neighbor, ef as nat, final(self).accepted@),
            if admits(old(self).accepted@, neighbor, ef as nat) {
                inserted(old(self).frontier@, neighbor, final(self).frontier@)
            } else {
                final(self).frontier@ == old(self).frontier@
            },
            *final(self) == (SearchWorkset {
                frontier: final(self).frontier,
                accepted: final(self).accepted,
                ..*old(self)
            }),
    {
        let near_enough: bool = match self.accepted.farthest() {
            Some(farthest) => {
                float_rank(neighbor.distance) < float_rank(farthest.distance)
                    || self.accepted.len() < ef
            },
            None => true,
        };
        if !near_enough {
            return;
        }
        self.frontier.push(neighbor);
        self.accepted.push(neighbor);
        let ghost mid = self.accepted@;
        proof {
            self.accepted.lemma_sorted();
            assert(inserted(old(self).accepted@, neighbor, mid));
        }
        if self.accepted.len() > ef {
            let _ = self.accepted.pop_farthest();
        }
    }

    /// The nearest candidates that were accepted, nearest first.
    pub fn finalize(&mut self, result_limit: usize) -> (r: Vec<(u32, u32)>)
        requires
            old(self).wf(),
        ensures
            final(self).wf(),
            result_limit == 0 || old(self).accepted@.len() == 0 ==> r@.len() == 0 && *final(self)
                == *old(self),
            result_limit > 0 && old(self).accepted@.len() > 0 ==> {
                &&& nearest_of(
                    old(self).accepted@.to_multiset().add(old(self).finalized@.to_multiset()),
                    result_limit as nat,
                    final(self).finalized@,
                )
                &&& r@ == result_pairs(final(self).finalized@)
                &&& final(self).accepted@.len() == 0
                &&& *final(self) == (SearchWorkset {
                    accepted: final(self).accepted,
                    finalized: final(self).finalized,
                    ..*old(self)
                })
            },
    {
        if result_limit == 0 || self.accepted.is_empty() {
            return Vec::new();
        }
        let mut queue: CandidateQueue = CandidateQueue::new();
        std::mem::swap(&mut queue, &mut self.accepted);
        let ghost start = queue@.to_multiset();
        let mut i: usize = 0;
        proof {
            vstd::seq_lib::to_multiset_len(self.finalized@.take(0));
            assert(self.finalized@.take(0) =~= Seq::<Candidate>::empty());
            self.finalized@.take(0).to_multiset_ensures();
            assert(self.finalized@.take(0).to_multiset() =~= Multiset::<Candidate>::empty());
            assert(start.add(Multiset::<Candidate>::empty()) =~= start);
        }
        while i < self.finalized.len()
            invariant
                i <= self.finalized@.len(),
                queue.wf(),
                queue@.to_multiset() == start.add(self.finalized@.take(i as int).to_multiset()),
            decreases self.finalized.len() - i,
        {
            let ghost before = queue@;
            let c: Candidate = self.finalized[i];
            queue.push(c);
            proof {
                let at = choose|at: int|
                    0 <= at <= before.len() && queue@ == #[trigger] before.insert(at, c);
                vstd::seq_lib::to_multiset_insert(before, at, c);
                let fewer = self.finalized@.take(i as int);
                let more = self.finalized@.take(i + 1);
                assert(more =~= fewer.push(c));
                vstd::seq_lib::to_multiset_build(fewer, c);
                assert(start.add(fewer.to_multiset()).insert(c) =~= start.add(
                    fewer.to_multiset().insert(c),
                ));
            }
            i += 1;
        }
        assert(self.finalized@.take(i as int) =~= self.finalized@);
        let ghost whole = queue@;
        let mut all: Vec<Candidate> = queue.into_vec();
        if result_limit < all.len() {
            all.truncate(result_limit);
        } else {
            assert(whole.take(whole.len() as int) =~= whole);
        }
        self.finalized = all;
        let mut r: Vec<(u32, u32)> = Vec::new();
        let mut j: usize = 0;
        while j < self.finalized.len()
            invariant
                j <= self.finalized@.len(),
                r@ == result_pairs(self.finalized@.take(j as int)),
            decreases self.finalized.len() - j,
        {
            let c: Candidate = self.finalized[j];
            r.push((c.node_id, c.distance));
            assert(result_pairs(self.finalized@.take(j + 1)) =~= result_pairs(
                self.finalized@.take(j as int),
            ).push((c.node_id, c.distance)));
            j += 1;
        }
        assert(self.finalized@.take(j as int) =~= self.finalized@);
        r
    }
}

impl Default for SearchWorkset {
    fn default() -> (r: Self)
        ensures
            r.wf(),
            r.visited@ == Set::<u32>::empty(),
            r.frontier@.len() == 0,
            r.accepted@.len() == 0,
            r.neighbors@.len() == 0,
            r.finalized@.len() == 0,
            r.batch_distances@.len() == 0,
    {
        SearchWorkset::new()
    }
}

/// No more than `ef` candidates are kept where no more were there, they stay
/// sorted, and one that is dropped is no nearer than any that is kept.
pub proof fn law_considered(
    before: Seq<Candidate>,
    c: Candidate,
    ef: nat,
    after: Seq<Candidate>,
    kept: int,
)
    requires
        sorted(before),
        considered(before, c, ef, after),
        0 <= kept < after.len(),
    ensures
        sorted(after),
        before.len() <= ef ==> after.len() <= ef,
        forall|i: int|
            0 <= i < before.len() && !after.contains(#[trigger] before[i]) ==> before[i].rank()
                >= after[kept].rank(),
        !after.contains(c) ==> c.rank() >= after[kept].rank(),
{
    if admits(before, c, ef) {
        let mid = choose|mid: Seq<Candidate>|
            {
                &&& sorted(mid)
                &&& #[trigger] inserted(before, c, mid)
                &&& after == if mid.len() > ef {
                    mid.drop_last()
                } else {
                    mid
                }
            };
        let at = choose|at: int| 0 <= at <= before.len() && mid == #[trigger] before.insert(at, c);
        let last = mid.len() - 1;
        assert(mid[kept] == after[kept]);
        assert forall|i: int|
            0 <= i < before.len() && !after.contains(#[trigger] before[i]) implies before[i].rank()
            >= after[kept].rank() by {
            let place = if i < at {
                i
            } else {
                i + 1
            };
            assert(mid[place] == before[i]);
            if place < after.len() {
                assert(after[place] == before[i]);
            } else {
                assert(place == last);
                assert(kept < last);
                assert(crate::candidates::ordered(mid[kept], mid[last]));
            }
        }
        assert(mid[at] == c);
        if at < after.len() {
            assert(after[at] == c);
        } else {
            assert(at == last);
            assert(crate::candidates::ordered(mid[kept], mid[last]));
        }
    } else {
        assert forall|i: int|
            0 <= i < before.len() && !after.contains(#[trigger] before[i]) implies before[i].rank()
            >= after[kept].rank() by {
            assert(after[i] == before[i]);
        }
        let last = before.len() - 1;
        assert(crate::candidates::ordered(before[kept], before[last]) || kept == last);
    }
}

} // verus!
