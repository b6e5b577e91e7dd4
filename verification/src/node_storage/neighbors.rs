//! Neighbours of nodes.
//!
//! The lists of level 0 lie in the nodes, those of the upper levels apart.

use vstd::prelude::*;

use super::upper_neighbors::{
    lemma_words_back, lemma_words_len, padded, put_words, word_at, words_at, words_bytes,
};
use super::{Field, NodeStorage};
use crate::bytes::{
    law_le_of_le_bytes, lemma_pow256, overwrite, put_u16, put_u32, u16_at, u16_bytes, u32_at,
    u32_bytes,
};
use crate::storage::contains;

verus! {

impl NodeStorage {
    /// The stored number of neighbours at level 0.
    pub fn neighbor_count(&self, id: u32) -> (n: usize)
        requires
            self.wf(),
            id < self.len,
        ensures
            n == self.count0(id),
            n <= u16::MAX,
    {
        let start: usize = self.node_start(id);
        u16_at(self.data.as_slice(), start) as usize
    }

    /// The number of neighbours at any level.
    pub fn neighbor_count_at_level(&self, id: u32, level: u8) -> (n: usize)
        requires
            self.wf(),
            id < self.len,
        ensures
            n == (if level == 0 {
                self.count0(id)
            } else {
                self.links(id, level).len()
            }),
    {
        if level == 0 {
            return self.neighbor_count(id);
        }
        let list: Vec<u32> = self.upper_neighbors.neighbors_at_level(id, level);
        list.len()
    }

    /// The neighbours at level 0, no more than a node can have.
    pub fn neighbors(&self, id: u32) -> (list: Vec<u32>)
        requires
            self.wf(),
            id < self.len,
        ensures
            list@ == self.links0(id),
    {
        let start: usize = self.node_start(id);
        let stored: usize = self.neighbor_count(id);
        let n: usize = if stored <= self.max_neighbors { stored } else { self.max_neighbors };
        let first: usize = start + self.neighbors_offset;
        let mut list: Vec<u32> = Vec::new();
        let mut i: usize = 0;
        while i < n
            invariant
                self.wf(),
                i <= n <= self.max_neighbors,
                start + self.node_size <= self.data@.len(),
                self.data@.len() <= usize::MAX,
                first == start + self.neighbors_offset,
                list@ == words_at(self.data@, first as nat, i as nat),
            decreases n - i,
        {
            list.push(u32_at(self.data.as_slice(), first + 4 * i));
            assert(list@ =~= words_at(self.data@, first as nat, (i + 1) as nat));
            i += 1;
        }
        list
    }

    /// The neighbours at any level.
    pub fn neighbors_at_level(&self, id: u32, level: u8) -> (list: Vec<u32>)
        requires
            self.wf(),
            id < self.len,
        ensures
            list@ == self.links(id, level),
    {
        if level == 0 {
            return self.neighbors(id);
        }
        self.upper_neighbors.neighbors_at_level(id, level)
    }

    /// Replaces the neighbours at level 0.
    pub fn set_neighbors(&mut self, id: u32, neighbors: &[u32])
        requires
            old(self).wf(),
            id < old(self).len,
            neighbors@.len() <= old(self).max_neighbors,
        ensures
            final(self).wf(),
            old(self).same_shape(final(self)),
            old(self).same_rest(final(self)),
            old(self).same_but(final(self), id, Field::Links),
            final(self).links0(id) == neighbors@,
            final(self).count0(id) == neighbors@.len(),
    {
        let start: usize = self.node_start(id);
        let n: usize = neighbors.len();
        let mut head: Vec<u8> = Vec::new();
        put_u16(&mut head, n as u16);
        let mut body: Vec<u8> = Vec::new();
        put_words(&mut body, neighbors);
        proof {
            assert(head@ =~= u16_bytes(n as u16));
            assert(body@ =~= words_bytes(neighbors@));
            lemma_words_len(neighbors@);
            lemma_pow256();
            law_le_of_le_bytes(n as nat, 2);
        }
        overwrite(&mut self.data, start, head.as_slice());
        let ghost counted = self.data@;
        overwrite(&mut self.data, start + self.neighbors_offset, body.as_slice());
        proof {
            old(self).lemma_same_but(self, id, Field::Links);
            let s = start as int;
            let first = (start + self.neighbors_offset) as nat;
            assert(self.data@.subrange(s, s + 2) =~= head@);
            assert(self.data@.subrange(
                first as int,
                (first + body@.len()) as int,
            ) =~= body@);
            lemma_words_back(self.data@, first, neighbors@);
            assert(self.count0(id) == n);
        }
    }

    /// Replaces the neighbours at any level.
    pub fn set_neighbors_at_level(&mut self, id: u32, level: u8, neighbors: Vec<u32>)
        requires
            old(self).wf(),
            id < old(self).len,
            level == 0 ==> neighbors@.len() <= old(self).max_neighbors,
        ensures
            final(self).wf(),
            old(self).same_shape(final(self)),
            final(self).links(id, level) == neighbors@,
            forall|i: u32, l: u8|
                i < old(self).len && (i != id || l != level) ==> #[trigger] final(self).links(i, l)
                    == old(self).links(i, l),
            level == 0 ==> old(self).same_rest(final(self)) && old(self).same_but(
                final(self),
                id,
                Field::Links,
            ),
            level > 0 ==> {
                &&& final(self).data == old(self).data
                &&& final(self).upper_neighbors.levels(id) == padded(
                    old(self).upper_neighbors.levels(id),
                    level as nat,
                ).update(level - 1, neighbors@)
                &&& final(self).upper_neighbors.map@.dom()
                    == old(self).upper_neighbors.map@.dom().insert(id)
                &&& old(self).same_quantization(final(self))
            },
            forall|i: u32|
                level > 0 && i != id ==> #[trigger] final(self).upper_neighbors.levels(i)
                    == old(self).upper_neighbors.levels(i),
    {
        if level == 0 {
            self.set_neighbors(id, neighbors.as_slice());
            return;
        }
        let ghost list = neighbors@;
        self.upper_neighbors.set_neighbors_at_level(id, level, neighbors);
        proof {
            let before = old(self).upper_neighbors;
            let after = self.upper_neighbors;
            assert forall|i: u32, l: u8| i < old(self).len && (i != id || l != level) implies
            #[trigger] self.links(i, l) == old(self).links(i, l) by {
                if l > 0 {
                    if i != id {
                        assert(after.levels(i) == before.levels(i));
                    } else {
                        let wide = padded(before.levels(id), level as nat);
                        assert(after.levels(id) == wide.update(level - 1, list));
                    }
                } else {
                    assert(self.links0(i) == old(self).links0(i));
                }
            }
        }
    }

    /// Appends a neighbour, unless the list of this level is full.
    pub fn add_neighbor(&mut self, id: u32, level: u8, neighbor: u32)
        requires
            old(self).wf(),
            id < old(self).len,
        ensures
            final(self).wf(),
            old(self).same_shape(final(self)),
            forall|i: u32, l: u8|
                i < old(self).len && (i != id || l != level) ==> #[trigger] final(self).links(i, l)
                    == old(self).links(i, l),
            level == 0 && old(self).count0(id) >= old(self).max_neighbors ==> final(self).data
                == old(self).data,
            level == 0 && old(self).count0(id) < old(self).max_neighbors ==> final(self).links0(id)
                == old(self).links0(id).push(neighbor) && final(self).count0(id) == old(
                self,
            ).count0(id) + 1,
            level > 0 ==> final(self).count0(id) == old(self).count0(id),
            level == 0 ==> old(self).same_rest(final(self)) && old(self).same_but(
                final(self),
                id,
                Field::Links,
            ),
            level > 0 ==> final(self).links(id, level) == (if old(self).links(id, level).len()
                < old(self).max_neighbors_upper {
                old(self).links(id, level).push(neighbor)
            } else {
                old(self).links(id, level)
            }),
            level > 0 ==> final(self).data == old(self).data,
            old(self).same_quantization(final(self)),
    {
        if level == 0 {
            let count: usize = self.neighbor_count(id);
            if count >= self.max_neighbors {
                return;
            }
            let start: usize = self.node_start(id);
            let at: usize = start + self.neighbors_offset + 4 * count;
            let mut head: Vec<u8> = Vec::new();
            put_u16(&mut head, (count + 1) as u16);
            let mut word: Vec<u8> = Vec::new();
            put_u32(&mut word, neighbor);
            proof {
                assert(head@ =~= u16_bytes((count + 1) as u16));
                assert(word@ =~= u32_bytes(neighbor));
                lemma_pow256();
                law_le_of_le_bytes((count + 1) as nat, 2);
                law_le_of_le_bytes(neighbor as nat, 4);
            }
            overwrite(&mut self.data, start, head.as_slice());
            overwrite(&mut self.data, at, word.as_slice());
            proof {
                old(self).lemma_same_but(self, id, Field::Links);
                let s = start as int;
                let first = (start + self.neighbors_offset) as nat;
                assert(self.data@.subrange(s, s + 2) =~= head@);
                assert(self.count0(id) == count + 1);
                assert(self.data@.subrange(at as int, at + 4) =~= word@);
                assert forall|j: int| 0 <= j < count implies word_at(
                    self.data@,
                    (first + 4 * j) as nat,
                ) == #[trigger] word_at(old(self).data@, (first + 4 * j) as nat) by {
                    assert(self.data@.subrange(first + 4 * j, first + 4 * j + 4) =~= old(
                        self,
                    ).data@.subrange(first + 4 * j, first + 4 * j + 4));
                }
                assert(self.links0(id) =~= old(self).links0(id).push(neighbor));
            }
        } else {
            let max: usize = self.max_neighbors_upper;
            self.upper_neighbors.add_neighbor(id, level, neighbor, max);
            proof {
                let before = old(self).upper_neighbors;
                let after = self.upper_neighbors;
                let wide = padded(before.levels(id), level as nat);
                assert(wide[level - 1] == before.links(id, level));
                assert forall|i: u32, l: u8| i < old(self).len && (i != id || l != level) implies
                #[trigger] self.links(i, l) == old(self).links(i, l) by {
                    if l > 0 {
                        if i != id {
                            assert(after.levels(i) == before.levels(i));
                        }
                    } else {
                        assert(self.links0(i) == old(self).links0(i));
                    }
                }
            }
        }
    }

    /// Whether a node has a neighbour at a level.
    pub fn contains_neighbor(&self, id: u32, level: u8, neighbor: u32) -> (r: bool)
        requires
            self.wf(),
            id < self.len,
        ensures
            r == self.links(id, level).contains(neighbor),
    {
        let list: Vec<u32> = self.neighbors_at_level(id, level);
        contains(list.as_slice(), neighbor)
    }

    /// The number of neighbours a node can have at a level.
    pub open spec fn list_cap(&self, level: u8) -> nat {
        if level == 0 { self.max_neighbors as nat } else { self.max_neighbors_upper as nat }
    }

    /// Appends a neighbour, unless it is there already or the list is full;
    /// tells whether it was appended.
    pub fn try_add_neighbor(&mut self, id: u32, level: u8, neighbor: u32) -> (added: bool)
        requires
            old(self).wf(),
            id < old(self).len,
        ensures
            final(self).wf(),
            old(self).same_shape(final(self)),
            added == (!old(self).links(id, level).contains(neighbor) && (if level == 0 {
                old(self).count0(id)
            } else {
                old(self).links(id, level).len()
            }) < old(self).list_cap(level)),
            final(self).links(id, level) == (if added {
                old(self).links(id, level).push(neighbor)
            } else {
                old(self).links(id, level)
            }),
            forall|i: u32, l: u8|
                i < old(self).len && (i != id || l != level) ==> #[trigger] final(self).links(i, l)
                    == old(self).links(i, l),
            !added ==> *final(self) == *old(self),
            final(self).count0(id) == old(self).count0(id) + if added && level == 0 {
                1int
            } else {
                0int
            },
            level == 0 ==> old(self).same_rest(final(self)) && old(self).same_but(
                final(self),
                id,
                Field::Links,
            ),
            level > 0 ==> final(self).data == old(self).data,
            old(self).same_quantization(final(self)),
    {
        if self.contains_neighbor(id, level, neighbor) {
            return false;
        }
        let max: usize = if level == 0 { self.max_neighbors } else { self.max_neighbors_upper };
        if self.neighbor_count_at_level(id, level) >= max {
            return false;
        }
        self.add_neighbor(id, level, neighbor);
        true
    }
}

} // verus!
