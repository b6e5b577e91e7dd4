//! Priority queue of candidates.

use vstd::prelude::*;

use crate::distance::{float_rank, rank};
use crate::types::Candidate;

verus! {

/// Whether `a` comes no later than `b`: the nearer one first, and the smaller
/// node id first among candidates at one distance.
pub open spec fn ordered(a: Candidate, b: Candidate) -> bool {
    a.rank() < b.rank() || (a.rank() == b.rank() && a.node_id <= b.node_id)
}

/// Nearest candidate first.
pub open spec fn sorted(s: Seq<Candidate>) -> bool {
    forall|i: int, j: int| 0 <= i < j < s.len() ==> ordered(#[trigger] s[i], #[trigger] s[j])
}

/// `after` is `before` with `c` put in somewhere.
pub open spec fn inserted(before: Seq<Candidate>, c: Candidate, after: Seq<Candidate>) -> bool {
    exists|i: int| 0 <= i <= before.len() && after == #[trigger] before.insert(i, c)
}

/// A queue that hands out both its nearest and its farthest candidate.
#[derive(Debug)]
pub struct CandidateQueue {
    /// Sorted, nearest first.
    items: Vec<Candidate>,
}

impl CandidateQueue {
    /// The candidates, nearest first.
    pub closed spec fn view(&self) -> Seq<Candidate> {
        self.items@
    }

    pub closed spec fn wf(&self) -> bool {
        sorted(self.items@)
    }

    pub fn new() -> (q: Self)
        ensures
            q.wf(),
            q@ == Seq::<Candidate>::empty(),
    {
        CandidateQueue { items: Vec::new() }
    }

    pub fn len(&self) -> (n: usize)
        ensures
            n == self@.len(),
    {
        self.items.len()
    }

    pub fn is_empty(&self) -> (r: bool)
        ensures
            r == (self@.len() == 0),
    {
        self.items.len() == 0
    }

    pub fn clear(&mut self)
        ensures
            final(self).wf(),
            final(self)@ == Seq::<Candidate>::empty(),
    {
        self.items = Vec::new();
    }

    /// The farthest candidate.
    pub fn farthest(&self) -> (r: Option<Candidate>)
        ensures
            self@.len() == 0 <==> r is None,
            self@.len() > 0 ==> r == Some(self@.last()),
    {
        let n: usize = self.items.len();
        if n == 0 {
            None
        } else {
            Some(self.items[n - 1])
        }
    }

    /// Puts a candidate in its place.
    pub fn push(&mut self, c: Candidate)
        requires
            old(self).wf(),
        ensures
            final(self).wf(),
            inserted(old(self)@, c, final(self)@),
            final(self)@.len() == old(self)@.len() + 1,
    {
        let key: i64 = float_rank(c.distance);
        let mut low: usize = 0;
        let mut high: usize = self.items.len();
        while low < high
            invariant
                low <= high <= self.items@.len(),
                self.items@ == old(self).items@,
                sorted(self.items@),
                key == rank(c.distance),
                forall|j: int| 0 <= j < low ==> ordered(#[trigger] self.items@[j], c),
                forall|j: int|
                    high <= j < self.items@.len() ==> !ordered(#[trigger] self.items@[j], c),
            decreases high - low,
        {
            let mid: usize = low + (high - low) / 2;
            let item: Candidate = self.items[mid];
            let item_key: i64 = float_rank(item.distance);
            if item_key < key || (item_key == key && item.node_id <= c.node_id) {
                low = mid + 1;
            } else {
                high = mid;
            }
        }
        self.items.insert(low, c);
        assert(self.items@ == old(self).items@.insert(low as int, c));
    }

    /// Takes out the farthest candidate.
    pub fn pop_farthest(&mut self) -> (r: Option<Candidate>)
        requires
            old(self).wf(),
        ensures
            final(self).wf(),
            old(self)@.len() == 0 ==> r is None && final(self)@ == old(self)@,
            old(self)@.len() > 0 ==> r == Some(old(self)@.last()) && final(self)@
                == old(self)@.drop_last(),
    {
        self.items.pop()
    }

    /// Takes out the nearest candidate.
    pub fn pop_nearest(&mut self) -> (r: Option<Candidate>)
        requires
            old(self).wf(),
        ensures
            final(self).wf(),
            old(self)@.len() == 0 ==> r is None && final(self)@ == old(self)@,
            old(self)@.len() > 0 ==> r == Some(old(self)@[0]) && final(self)@
                == old(self)@.drop_first(),
    {
        if self.items.len() == 0 {
            None
        } else {
            let c: Candidate = self.items.remove(0);
            assert(self.items@ =~= old(self).items@.drop_first());
            Some(c)
        }
    }

    /// The candidates, nearest first.
    pub fn into_vec(self) -> (v: Vec<Candidate>)
        requires
            self.wf(),
        ensures
            v@ == self@,
            sorted(v@),
    {
        self.items
    }

    /// The queue is sorted.
    pub proof fn lemma_sorted(&self)
        requires
            self.wf(),
        ensures
            sorted(self@),
    {
    }
}

} // verus!
