//! What is kept beside the vectors of a finished graph: their squared norms,
//! or, in SQ8 mode, codes in their place.

use vstd::prelude::*;

use super::quantization::{chunk, Coder, TrainingFailed, CODES, TRAINING_VECTORS};
use super::rabitq::{apply_norm, norm_ok, norm_of};
use super::{
    node_params_fit, raw_node_size, round_up, NodeStorage, FIRST_CAPACITY,
};
use crate::graph::GraphStore;
use crate::storage::lemma_row_bounds;

verus! {

/// The first `n` vectors of a storage, one behind the other.
pub open spec fn laid_out(from: NodeStorage, n: nat) -> Seq<u32>
    decreases n,
{
    if n == 0 {
        Seq::empty()
    } else {
        laid_out(from, (n - 1) as nat) + from.vec((n - 1) as u32)
    }
}

pub(crate) proof fn lemma_laid_out(from: NodeStorage, n: nat)
    requires
        from.wf(),
        !from.sq8,
        n <= from.len,
        n <= u32::MAX,
    ensures
        laid_out(from, n).len() == n * from.dimensions,
        forall|i: u32|
            i < n ==> #[trigger] from.vec(i) == chunk(
                laid_out(from, n),
                i as int,
                from.dimensions as int,
            ),
    decreases n,
{
    let d = from.dimensions as int;
    if n > 0 {
        let before = (n - 1) as nat;
        lemma_laid_out(from, before);
        let front = laid_out(from, before);
        let all = laid_out(from, n);
        let last = before as u32;
        assert(from.vec(last).len() == d);
        assert(n * d == before * d + d) by (nonlinear_arith)
            requires
                n == before + 1,
        ;
        assert forall|i: u32| i < n implies #[trigger] from.vec(i) == chunk(all, i as int, d) by {
            lemma_row_bounds(i as int, n as int, d);
            if i < before {
                lemma_row_bounds(i as int, before as int, d);
                assert(from.vec(i) == chunk(front, i as int, d));
                assert(chunk(all, i as int, d) =~= chunk(front, i as int, d));
            } else {
                assert(chunk(all, i as int, d) =~= from.vec(last));
            }
        }
    }
}

/// The codes of a vector that waits for the quantization to be trained.
pub open spec fn blank(dimensions: nat) -> Seq<u8> {
    Seq::new(dimensions, |i: int| 0u8)
}

impl NodeStorage {
    /// The storage holds the first `n` vectors of another one in SQ8 mode:
    /// collected while they are few, else as codes, with parameters that were
    /// trained on the first of them.
    pub open spec fn compresses_vectors<C: Coder>(&self, from: &Self, coder: C, n: nat) -> bool {
        if n < TRAINING_VECTORS {
            &&& !self.sq8_trained
            &&& self.sq8_params is None
            &&& self.training_buffer@ == laid_out(*from, n)
            &&& self.norms@.len() == 0
            &&& self.sq8_sums@.len() == 0
            &&& forall|i: u32| i < n ==> #[trigger] self.codes(i) == blank(from.dimensions as nat)
        } else {
            let params = coder.params_for(
                laid_out(*from, TRAINING_VECTORS as nat),
                from.dimensions,
            );
            &&& self.sq8_trained
            &&& params is Some
            &&& self.sq8_params == params
            &&& self.code_values@ == coder.meaning(params->0)
            &&& self.code_values@.len() == CODES
            &&& self.training_buffer@.len() == 0
            &&& self.norms@.len() == n
            &&& self.sq8_sums@.len() == n
            &&& forall|i: u32|
                i < n ==> (
                    #[trigger] self.codes(i),
                    self.norms@[i as int],
                    self.sq8_sums@[i as int],
                ) == coder.coded(params->0, from.vec(i))
        }
    }

    /// The first `n` nodes have the slots, levels and links of those of another
    /// storage.
    pub open spec fn same_graph(&self, from: &Self, n: nat) -> bool {
        &&& forall|i: u32| i < n ==> #[trigger] self.slot_of(i) == from.slot_of(i)
        &&& forall|i: u32| i < n ==> #[trigger] self.node_level(i) == from.node_level(i)
        &&& forall|i: u32, l: u8| i < n ==> #[trigger] self.links(i, l) == from.links(i, l)
    }

    /// The storage is another one in SQ8 mode.
    pub open spec fn compresses<C: Coder>(&self, from: &Self, coder: C) -> bool {
        &&& self.wf()
        &&& self.sq8
        &&& self.len == from.len
        &&& self.dimensions == from.dimensions
        &&& self.max_neighbors == from.max_neighbors
        &&& self.max_neighbors_upper == from.max_neighbors_upper
        &&& self.compresses_vectors(from, coder, from.len as nat)
        &&& self.same_graph(from, from.len as nat)
    }

    /// Copies slot, level and links of a node over one that has no upper links.
    fn copy_frame(&mut self, from: &Self, id: u32)
        requires
            old(self).wf(),
            old(self).sq8,
            from.wf(),
            id < old(self).len,
            id < from.len,
            old(self).max_neighbors == from.max_neighbors,
            old(self).upper_neighbors.levels(id).len() == 0,
        ensures
            final(self).wf(),
            old(self).same_shape(final(self)),
            old(self).same_quantization(final(self)),
            final(self).slot_of(id) == from.slot_of(id),
            final(self).node_level(id) == from.node_level(id),
            forall|l: u8| #[trigger] final(self).links(id, l) == from.links(id, l),
            forall|i: u32|
                i < old(self).len ==> #[trigger] final(self).codes(i) == old(self).codes(i),
            forall|i: u32|
                i < old(self).len && i != id ==> #[trigger] final(self).slot_of(i)
                    == old(self).slot_of(i),
            forall|i: u32|
                i < old(self).len && i != id ==> #[trigger] final(self).node_level(i)
                    == old(self).node_level(i),
            forall|i: u32, l: u8|
                i < old(self).len && i != id ==> #[trigger] final(self).links(i, l)
                    == old(self).links(i, l),
            forall|i: u32|
                i != id ==> #[trigger] final(self).upper_neighbors.levels(i)
                    == old(self).upper_neighbors.levels(i),
    {
        let ghost s0 = *self;
        self.set_slot(id, from.slot(id));
        let ghost s1 = *self;
        self.set_level(id, from.level(id));
        let ghost s2 = *self;
        let list: Vec<u32> = from.neighbors(id);
        self.set_neighbors(id, list.as_slice());
        let ghost s3 = *self;
        proof {
            assert(s3.slot_of(id) == from.slot_of(id)) by {
                assert(s2.slot_of(id) == s1.slot_of(id));
            }
            assert(s3.node_level(id) == from.node_level(id));
            assert forall|i: u32| i < s0.len implies #[trigger] s3.codes(i) == s0.codes(i) by {
                assert(s1.codes(i) == s0.codes(i));
                assert(s2.codes(i) == s1.codes(i));
            }
            assert forall|i: u32| i < s0.len && i != id implies #[trigger] s3.slot_of(i)
                == s0.slot_of(i) by {
                assert(s1.slot_of(i) == s0.slot_of(i));
                assert(s2.slot_of(i) == s1.slot_of(i));
            }
            assert forall|i: u32| i < s0.len && i != id implies #[trigger] s3.node_level(i)
                == s0.node_level(i) by {
                assert(s1.node_level(i) == s0.node_level(i));
                assert(s2.node_level(i) == s1.node_level(i));
            }
            assert forall|i: u32| i < s0.len && i != id implies #[trigger] s3.links0(i)
                == s0.links0(i) by {
                assert(s1.links0(i) == s0.links0(i));
                assert(s2.links0(i) == s1.links0(i));
            }
        }
        let stored: usize = from.upper_neighbors.upper_level_count(id);
        let count: u8 = if stored <= 255 { stored as u8 } else { 255 };
        let mut level: u8 = 0;
        while level < count
            invariant
                level <= count,
                count <= from.upper_neighbors.levels(id).len(),
                from.upper_neighbors.levels(id).len() <= count || count == 255,
                self.wf(),
                from.wf(),
                id < self.len,
                id < from.len,
                s3.same_shape(self),
                s3.same_quantization(self),
                self.data == s3.data,
                s3.upper_neighbors.levels(id).len() == 0,
                forall|l: u8|
                    l > 0 ==> #[trigger] self.links(id, l) == (if l <= level {
                        from.links(id, l)
                    } else {
                        Seq::<u32>::empty()
                    }),
                forall|i: u32|
                    i != id ==> #[trigger] self.upper_neighbors.levels(i)
                        == s3.upper_neighbors.levels(i),
            decreases count - level,
        {
            let ghost before = *self;
            level = level + 1;
            let list: Vec<u32> = from.neighbors_at_level(id, level);
            self.set_neighbors_at_level(id, level, list);
            proof {
                assert forall|l: u8| l > 0 implies #[trigger] self.links(id, l) == (if l <= level {
                    from.links(id, l)
                } else {
                    Seq::<u32>::empty()
                }) by {
                    if l != level {
                        assert(self.links(id, l) == before.links(id, l));
                    }
                }
            }
        }
        proof {
            s3.lemma_same_data(self);
            assert forall|l: u8| #[trigger] self.links(id, l) == from.links(id, l) by {
                if l == 0 {
                    assert(self.links0(id) == s3.links0(id));
                } else if l > count {
                    assert(from.links(id, l) == Seq::<u32>::empty());
                }
            }
            assert forall|i: u32, l: u8| i < s0.len && i != id implies #[trigger] self.links(i, l)
                == s0.links(i, l) by {
                if l == 0 {
                    assert(self.links0(i) == s3.links0(i));
                } else {
                    assert(self.upper_neighbors.levels(i) == s3.upper_neighbors.levels(i));
                }
            }
            assert forall|i: u32| i < s0.len implies #[trigger] self.codes(i) == s0.codes(i) by {
                assert(self.codes(i) == s3.codes(i));
            }
            assert forall|i: u32| i < s0.len && i != id implies #[trigger] self.slot_of(i)
                == s0.slot_of(i) by {
                assert(self.slot_of(i) == s3.slot_of(i));
            }
            assert forall|i: u32| i < s0.len && i != id implies #[trigger] self.node_level(i)
                == s0.node_level(i) by {
                assert(self.node_level(i) == s3.node_level(i));
            }
            assert(self.slot_of(id) == s3.slot_of(id));
            assert(self.node_level(id) == s3.node_level(id));
        }
    }

    /// One more vector was stored in SQ8 mode.
    proof fn lemma_took<C: Coder>(&self, before: &Self, from: &Self, coder: C, n: nat)
        requires
            from.wf(),
            !from.sq8,
            n < from.len,
            n < u32::MAX,
            from.dimensions > 0,
            before.dimensions == from.dimensions,
            self.dimensions == from.dimensions,
            before.len == n + 1,
            before.compresses_vectors(from, coder, n),
            self.sq8_stored(before, n as u32, from.vec(n as u32), coder, true),
        ensures
            self.compresses_vectors(from, coder, n + 1),
    {
        let id = n as u32;
        let d = from.dimensions as int;
        lemma_laid_out(*from, n);
        lemma_laid_out(*from, n + 1);
        if n < TRAINING_VECTORS {
            assert((n * d) / d == n) by (nonlinear_arith)
                requires
                    d > 0,
                    n >= 0,
            ;
            assert(before.collected() == n);
            assert(before.training_buffer@ + from.vec(id) == laid_out(*from, n + 1));
            if n + 1 < TRAINING_VECTORS {
                assert forall|i: u32| i < n + 1 implies #[trigger] self.codes(i) == blank(
                    d as nat,
                ) by {
                    if i < n {
                        assert(before.codes(i) == blank(d as nat));
                        assert(self.codes(i) == before.codes(i));
                    }
                }
            } else {
                let buffer = laid_out(*from, n + 1);
                let params = coder.params_for(buffer, from.dimensions);
                assert(params is Some);
                assert forall|i: u32| i < n + 1 implies (
                    #[trigger] self.codes(i),
                    self.norms@[i as int],
                    self.sq8_sums@[i as int],
                ) == coder.coded(params->0, from.vec(i)) by {
                    assert(from.vec(i) == chunk(buffer, i as int, d));
                }
            }
        } else {
            let params = before.sq8_params;
            assert forall|i: u32| i < n + 1 implies (
                #[trigger] self.codes(i),
                self.norms@[i as int],
                self.sq8_sums@[i as int],
            ) == coder.coded(params->0, from.vec(i)) by {
                if i < n {
                    assert(self.codes(i) == before.codes(i));
                    assert(self.norms@[i as int] == before.norms@[i as int]);
                    assert(self.sq8_sums@[i as int] == before.sq8_sums@[i as int]);
                }
            }
        }
    }

    /// The same nodes in SQ8 mode. This fails if there are enough vectors to
    /// train the quantization on, and the training fails.
    pub fn compressed<C: Coder>(
        &self,
        m: usize,
        max_levels: usize,
        coder: &C,
    ) -> (r: core::result::Result<Self, TrainingFailed>)
        requires
            self.store_wf(),
            !self.sq8,
            self.len <= u32::MAX,
            self.len > 0 ==> self.dimensions > 0,
            self.max_neighbors == m * 2,
            self.max_neighbors_upper == m,
            node_params_fit(self.dimensions as nat, m as nat),
            (2 * self.len + FIRST_CAPACITY) * round_up(
                raw_node_size(self.dimensions as nat, m as nat, false),
            ) <= usize::MAX,
            coder.usable(self.dimensions as nat),
        ensures
            r is Err <==> self.len >= TRAINING_VECTORS && coder.params_for(
                laid_out(*self, TRAINING_VECTORS as nat),
                self.dimensions,
            ) is None,
            r matches Ok(out) ==> out.compresses(self, *coder) && out.max_level
                == max_levels,
    {
        let mut out: NodeStorage = NodeStorage::new_sq8(self.dimensions, m, max_levels);
        let n: usize = self.len;
        let ghost size = out.node_size as int;
        proof {
            let d = self.dimensions as nat;
            let small = raw_node_size(d, m as nat, true);
            let large = raw_node_size(d, m as nat, false);
            assert(small <= large);
            assert(round_up(small) <= round_up(large));
            let a = 2 * n + FIRST_CAPACITY;
            let large_size = round_up(large);
            assert(a * size <= a * large_size) by (nonlinear_arith)
                requires
                    a >= 0,
                    size <= large_size,
            ;
            assert(size >= 1);
            assert(out.training_buffer@ =~= laid_out(*self, 0));
        }
        let mut i: usize = 0;
        while i < n
            invariant
                i <= n,
                n == self.len,
                n <= u32::MAX,
                n > 0 ==> self.dimensions > 0,
                self.store_wf(),
                !self.sq8,
                coder.usable(self.dimensions as nat),
                out.wf(),
                out.sq8,
                out.len == i,
                out.node_size == size,
                size >= 1,
                (2 * n + FIRST_CAPACITY) * size <= usize::MAX,
                out.dimensions == self.dimensions,
                out.max_neighbors == self.max_neighbors,
                out.max_neighbors_upper == self.max_neighbors_upper,
                out.max_level == max_levels,
                forall|id: u32| id >= i ==> #[trigger] out.upper_neighbors.levels(id).len() == 0,
                out.compresses_vectors(self, *coder, i as nat),
                out.same_graph(self, i as nat),
            decreases n - i,
        {
            let ghost s0 = out;
            proof {
                if out.len >= out.capacity {
                    let a = 2 * n + FIRST_CAPACITY;
                    let b = out.grown_capacity();
                    assert(b * size <= a * size) by (nonlinear_arith)
                        requires
                            b <= a,
                            size >= 1,
                    ;
                    assert(b <= b * size) by (nonlinear_arith)
                        requires
                            b >= 0,
                            size >= 1,
                    ;
                }
            }
            let id: u32 = out.allocate_node();
            let ghost s1 = out;
            let vector: Vec<u32> = self.vector(id);
            proof {
                lemma_laid_out(*self, i as nat);
                let d = self.dimensions as int;
                assert((i * d) / d == i) by (nonlinear_arith)
                    requires
                        d > 0,
                        i >= 0,
                ;
                if i < TRAINING_VECTORS {
                    assert forall|j: u32| j < i implies #[trigger] s1.codes(j) == blank(
                        d as nat,
                    ) by {
                        assert(s0.codes(j) == blank(d as nat));
                    }
                    assert(s1.collected() == i);
                } else {
                    assert forall|j: u32| j < i implies (
                        #[trigger] s1.codes(j),
                        s1.norms@[j as int],
                        s1.sq8_sums@[j as int],
                    ) == coder.coded(s1.sq8_params->0, self.vec(j)) by {
                        assert(s1.codes(j) == s0.codes(j));
                    }
                }
                assert(s1.compresses_vectors(self, *coder, i as nat));
            }
            match out.set_vector_sq8(id, vector.as_slice(), coder) {
                Err(e) => {
                    proof {
                        lemma_laid_out(*self, (i + 1) as nat);
                        assert(i + 1 >= TRAINING_VECTORS);
                        assert(s1.training_buffer@ + self.vec(id) == laid_out(
                            *self,
                            (i + 1) as nat,
                        ));
                    }
                    return Err(e);
                },
                Ok(_) => {},
            }
            let ghost s2 = out;
            proof {
                out.lemma_took(&s1, self, *coder, i as nat);
            }
            out.copy_frame(self, id);
            proof {
                let next = (i + 1) as nat;
                assert forall|j: u32| j < next implies #[trigger] out.codes(j) == s2.codes(j) by {}
                if next >= TRAINING_VECTORS {
                    assert forall|j: u32| j < next implies (
                        #[trigger] out.codes(j),
                        out.norms@[j as int],
                        out.sq8_sums@[j as int],
                    ) == coder.coded(out.sq8_params->0, self.vec(j)) by {
                        assert(out.codes(j) == s2.codes(j));
                    }
                } else {
                    assert forall|j: u32| j < next implies #[trigger] out.codes(j) == blank(
                        self.dimensions as nat,
                    ) by {
                        assert(s2.codes(j) == blank(self.dimensions as nat));
                    }
                }
                assert(out.compresses_vectors(self, *coder, next));
                assert forall|j: u32| j < next implies #[trigger] out.slot_of(j) == self.slot_of(
                    j,
                ) by {
                    if j < i {
                        assert(out.slot_of(j) == s2.slot_of(j));
                        assert(s2.slot_of(j) == s1.slot_of(j));
                        assert(s1.slot_of(j) == s0.slot_of(j));
                    }
                }
                assert forall|j: u32| j < next implies #[trigger] out.node_level(j)
                    == self.node_level(j) by {
                    if j < i {
                        assert(out.node_level(j) == s2.node_level(j));
                        assert(s2.node_level(j) == s1.node_level(j));
                        assert(s1.node_level(j) == s0.node_level(j));
                    }
                }
                assert forall|j: u32, l: u8| j < next implies #[trigger] out.links(j, l)
                    == self.links(j, l) by {
                    if j < i {
                        assert(out.links(j, l) == s2.links(j, l));
                        if l == 0 {
                            assert(s2.links0(j) == s1.links0(j));
                            assert(s1.links0(j) == s0.links0(j));
                        }
                        assert(s2.links(j, l) == s0.links(j, l));
                        assert(s0.links(j, l) == self.links(j, l));
                    }
                }
                assert forall|j: u32| j >= i + 1 implies #[trigger] out.upper_neighbors.levels(
                    j,
                ).len() == 0 by {
                    assert(s0.upper_neighbors.levels(j).len() == 0);
                }
            }
            i += 1;
        }
        Ok(out)
    }

    /// The squared norms of all vectors.
    pub open spec fn all_norms<N: Fn(&[u32]) -> u32>(&self, norm: N) -> Seq<u32> {
        Seq::new(self.len as nat, |i: int| norm_of(norm, self.vec(i as u32)))
    }

    /// Keeps the squared norm of each vector.
    pub fn keep_norms<N: Fn(&[u32]) -> u32>(&mut self, norm: &N)
        requires
            old(self).store_wf(),
            !old(self).sq8,
            old(self).len <= u32::MAX,
            norm_ok(*norm),
        ensures
            *final(self) == (NodeStorage { norms: final(self).norms, ..*old(self) }),
            final(self).norms@ == old(self).all_norms(*norm),
    {
        let mut norms: Vec<u32> = Vec::new();
        let mut i: usize = 0;
        while i < self.len
            invariant
                i <= self.len,
                self.len <= u32::MAX,
                self.store_wf(),
                !self.sq8,
                norm_ok(*norm),
                norms@ == self.all_norms(*norm).take(i as int),
            decreases self.len - i,
        {
            let vector: Vec<u32> = self.vector(i as u32);
            norms.push(apply_norm(norm, vector.as_slice()));
            assert(norms@ =~= self.all_norms(*norm).take(i + 1));
            i += 1;
        }
        assert(norms@ =~= self.all_norms(*norm));
        self.norms = norms;
    }
}

} // verus!
