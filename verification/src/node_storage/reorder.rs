//! Nodes in another order.

use vstd::prelude::*;

use super::quantization::chunk;
use super::upper_neighbors::UpperNeighborsStorage;
use super::NodeStorage;
use crate::graph::GraphStore;
use crate::reorder::{
    all_below, breadth_first_order, inverse, law_walk_order, places_of, views, walk_order,
};
use crate::storage::{lemma_row_bounds, slice_to_vec};

verus! {

/// A list of nodes with each node by its new place.
pub open spec fn remapped(list: Seq<u32>, places: Seq<u32>) -> Seq<u32> {
    list.map_values(|id: u32| places[id as int])
}

fn remap(list: &Vec<u32>, places: &Vec<u32>) -> (r: Vec<u32>)
    requires
        all_below(list@, places@.len()),
    ensures
        r@ == remapped(list@, places@),
{
    let mut r: Vec<u32> = Vec::new();
    let mut i: usize = 0;
    while i < list.len()
        invariant
            i <= list@.len(),
            all_below(list@, places@.len()),
            r@ == remapped(list@.take(i as int), places@),
        decreases list.len() - i,
    {
        assert(list@[i as int] < places@.len());
        r.push(places[list[i] as usize]);
        assert(r@ =~= remapped(list@.take(i + 1), places@));
        i += 1;
    }
    assert(list@.take(i as int) =~= list@);
    r
}

/// The neighbours of a node on all levels, from a level down to level 0.
pub open spec fn links_down(store: &NodeStorage, id: u32, level: nat) -> Seq<u32>
    decreases level,
{
    store.links(id, level as u8) + if level == 0 {
        Seq::<u32>::empty()
    } else {
        links_down(store, id, (level - 1) as nat)
    }
}

/// The neighbours of every node on all levels, from a level down to level 0.
pub open spec fn adjacency(store: &NodeStorage, top: u8) -> Seq<Seq<u32>> {
    Seq::new(store.len as nat, |i: int| links_down(store, i as u32, top as nat))
}

/// What a list says of each node, in a new order; nothing if the list is empty.
pub open spec fn in_order<T>(list: Seq<T>, order: Seq<u32>, zero: T) -> Seq<T> {
    if list.len() == 0 {
        Seq::empty()
    } else {
        Seq::new(
            order.len(),
            |i: int|
                if order[i] < list.len() {
                    list[order[i] as int]
                } else {
                    zero
                },
        )
    }
}

fn put_in_order<T: Copy>(list: &Vec<T>, order: &Vec<u32>, zero: T) -> (r: Vec<T>)
    ensures
        r@ == in_order(list@, order@, zero),
{
    let mut r: Vec<T> = Vec::new();
    if list.len() == 0 {
        assert(r@ =~= Seq::<T>::empty());
        return r;
    }
    let mut i: usize = 0;
    while i < order.len()
        invariant
            i <= order@.len(),
            list@.len() > 0,
            r@ == in_order(list@, order@.take(i as int), zero),
        decreases order.len() - i,
    {
        let id: usize = order[i] as usize;
        if id < list.len() {
            r.push(list[id]);
        } else {
            r.push(zero);
        }
        assert(r@ =~= in_order(list@, order@.take(i + 1), zero));
        i += 1;
    }
    assert(order@.take(i as int) =~= order@);
    r
}

/// Vectors that stand one behind the other, in a new order.
pub open spec fn chunks_in_order(v: Seq<u32>, order: Seq<u32>, dimensions: int) -> Seq<u32>
    decreases order.len(),
{
    if order.len() == 0 {
        Seq::empty()
    } else {
        chunks_in_order(v, order.drop_last(), dimensions) + chunk(
            v,
            order.last() as int,
            dimensions,
        )
    }
}

proof fn lemma_chunks_in_order(v: Seq<u32>, order: Seq<u32>, n: int, d: int)
    requires
        v.len() == n * d,
        n >= 0,
        d >= 0,
        all_below(order, n as nat),
    ensures
        chunks_in_order(v, order, d).len() == order.len() * d,
        forall|i: int|
            0 <= i < order.len() ==> #[trigger] chunk(chunks_in_order(v, order, d), i, d) == chunk(
                v,
                order[i] as int,
                d,
            ),
    decreases order.len(),
{
    let k = order.len() as int;
    if k > 0 {
        let front = order.drop_last();
        assert forall|i: int| 0 <= i < front.len() implies #[trigger] front[i] < n by {
            assert(order[i] < n);
        }
        lemma_chunks_in_order(v, front, n, d);
        let all = chunks_in_order(v, order, d);
        let part = chunks_in_order(v, front, d);
        assert(order[k - 1] < n);
        lemma_row_bounds(order.last() as int, n, d);
        assert(k * d == (k - 1) * d + d) by (nonlinear_arith);
        assert(chunk(v, order.last() as int, d).len() == d) by {
            let x = order.last() as int;
            assert((x + 1) * d == x * d + d) by (nonlinear_arith);
        }
        assert forall|i: int| 0 <= i < k implies #[trigger] chunk(all, i, d) == chunk(
            v,
            order[i] as int,
            d,
        ) by {
            lemma_row_bounds(i, k, d);
            assert((i + 1) * d == i * d + d) by (nonlinear_arith);
            if i < k - 1 {
                lemma_row_bounds(i, k - 1, d);
                assert(chunk(part, i, d) == chunk(v, front[i] as int, d));
                assert(chunk(all, i, d) =~= chunk(part, i, d));
            } else {
                assert(chunk(all, i, d) =~= chunk(v, order.last() as int, d));
            }
        }
    } else {
        assert(0 * d == 0);
    }
}

fn put_chunks_in_order(v: &Vec<u32>, order: &Vec<u32>, n: usize, d: usize) -> (r: Vec<u32>)
    requires
        v@.len() == n * d,
        all_below(order@, n as nat),
    ensures
        r@ == chunks_in_order(v@, order@, d as int),
{
    let mut r: Vec<u32> = Vec::new();
    assert(r@ =~= chunks_in_order(v@, order@.take(0), d as int));
    let mut i: usize = 0;
    while i < order.len()
        invariant
            i <= order@.len(),
            v@.len() == n * d,
            all_below(order@, n as nat),
            r@ == chunks_in_order(v@, order@.take(i as int), d as int),
        decreases order.len() - i,
    {
        let id: usize = order[i] as usize;
        proof {
            assert(order@[i as int] < n);
            lemma_row_bounds(id as int, n as int, d as int);
            assert(v@.len() == v.len());
            assert((id + 1) * d == id * d + d) by (nonlinear_arith);
        }
        let start: usize = id * d;
        r.extend_from_slice(vstd::slice::slice_subrange(v.as_slice(), start, start + d));
        proof {
            assert(order@.take(i + 1).drop_last() =~= order@.take(i as int));
            assert(r@ =~= chunks_in_order(v@, order@.take(i + 1), d as int));
        }
        i += 1;
    }
    assert(order@.take(i as int) =~= order@);
    r
}

impl NodeStorage {
    /// Links lead to nodes.
    pub open spec fn links_inside(&self) -> bool {
        forall|id: u32, level: u8|
            id < self.len ==> all_below(#[trigger] self.links(id, level), self.len as nat)
    }

    proof fn lemma_down_below(&self, id: u32, level: nat)
        requires
            self.links_inside(),
            id < self.len,
            level <= 255,
        ensures
            all_below(links_down(self, id, level), self.len as nat),
        decreases level,
    {
        assert(all_below(self.links(id, level as u8), self.len as nat));
        if level > 0 {
            self.lemma_down_below(id, (level - 1) as nat);
        }
    }

    fn collect_links(&self, id: u32, top: u8) -> (list: Vec<u32>)
        requires
            self.wf(),
            id < self.len,
        ensures
            list@ == links_down(self, id, top as nat),
    {
        let mut list: Vec<u32> = self.neighbors_at_level(id, top);
        let mut level: u8 = top;
        assert(list@ + Seq::<u32>::empty() =~= list@);
        assert(level > 0 ==> list@ + links_down(self, id, (level - 1) as nat) == links_down(
            self,
            id,
            top as nat,
        ));
        while level > 0
            invariant
                self.wf(),
                id < self.len,
                level > 0 ==> list@ + links_down(self, id, (level - 1) as nat) == links_down(
                    self,
                    id,
                    top as nat,
                ),
                level == 0 ==> list@ == links_down(self, id, top as nat),
            decreases level,
        {
            let ghost before = list@;
            let mut more: Vec<u32> = self.neighbors_at_level(id, level - 1);
            list.append(&mut more);
            level = level - 1;
            proof {
                assert(list@ =~= before + self.links(id, level));
                if level > 0 {
                    assert(list@ + links_down(self, id, (level - 1) as nat) =~= before + (
                    self.links(id, level) + links_down(self, id, (level - 1) as nat)));
                } else {
                    assert(self.links(id, 0) + Seq::<u32>::empty() =~= self.links(id, 0));
                }
            }
        }
        list
    }

    /// The order of a breadth-first walk from a node, with the place of each
    /// node in it.
    pub fn walk_places(&self, entry: u32, top: u8) -> (r: (Vec<u32>, Vec<u32>))
        requires
            self.wf(),
            self.links_inside(),
            entry < self.len,
            self.len <= u32::MAX,
        ensures
            r.0@ == walk_order(adjacency(self, top), entry),
            r.0@.len() == self.len,
            r.0@[0] == entry,
            inverse(r.0@, r.1@),
            r.1@[entry as int] == 0,
    {
        let mut lists: Vec<Vec<u32>> = Vec::new();
        let mut i: usize = 0;
        while i < self.len
            invariant
                i <= self.len <= u32::MAX,
                self.wf(),
                lists@.len() == i,
                forall|j: int|
                    0 <= j < i ==> (#[trigger] lists@[j])@ == links_down(self, j as u32, top as nat),
            decreases self.len - i,
        {
            lists.push(self.collect_links(i as u32, top));
            i += 1;
        }
        let ghost graph = adjacency(self, top);
        proof {
            assert(views(lists@) =~= graph);
            assert forall|j: int| 0 <= j < graph.len() implies all_below(
                #[trigger] graph[j],
                graph.len(),
            ) by {
                self.lemma_down_below(j as u32, top as nat);
            }
            law_walk_order(graph, entry);
        }
        let order: Vec<u32> = breadth_first_order(&lists, entry);
        let places: Vec<u32> = places_of(&order);
        assert(places@[order@[0] as int] == 0);
        (order, places)
    }

    /// The storage holds the nodes of another one in a new order.
    pub open spec fn reorders(&self, before: &Self, order: Seq<u32>, places: Seq<u32>) -> bool {
        &&& inverse(order, places)
        &&& order.len() == before.len
        &&& self.header_sizes() == before.header_sizes()
        &&& self.max_neighbors_upper == before.max_neighbors_upper
        &&& self.max_level == before.max_level
        &&& self.sq8 == before.sq8
        &&& self.sq8_trained == before.sq8_trained
        &&& self.sq8_params == before.sq8_params
        &&& self.code_values@ == before.code_values@
        &&& self.norms@ == in_order(before.norms@, order, 0u32)
        &&& self.sq8_sums@ == in_order(before.sq8_sums@, order, 0i32)
        &&& forall|i: u32|
            i < before.len ==> #[trigger] self.vec(i) == before.vec(order[i as int])
        &&& forall|i: u32|
            i < before.len ==> #[trigger] self.slot_of(i) == before.slot_of(order[i as int])
        &&& forall|i: u32|
            i < before.len ==> #[trigger] self.node_level(i) == before.node_level(order[i as int])
        &&& forall|i: u32, l: u8|
            i < before.len ==> #[trigger] self.links(i, l) == remapped(
                before.links(order[i as int], l),
                places,
            )
        &&& forall|id: u32|
            id >= before.len ==> !(#[trigger] self.upper_neighbors.map@.contains_key(id))
    }

    /// Copies a node, with its links remapped, over one that has no upper links.
    fn copy_node(&mut self, from: &Self, id: u32, old_id: u32, places: &Vec<u32>)
        requires
            old(self).wf(),
            from.wf(),
            from.sq8 == old(self).sq8,
            id < old(self).len,
            old_id < from.len,
            from.links_inside(),
            places@.len() == from.len,
            old(self).header_sizes() == from.header_sizes(),
            old(self).upper_neighbors.levels(id).len() == 0,
        ensures
            final(self).wf(),
            old(self).same_shape(final(self)),
            !from.sq8 ==> final(self).words(id) == from.words(old_id),
            from.sq8 ==> final(self).codes(id) == from.codes(old_id),
            final(self).slot_of(id) == from.slot_of(old_id),
            final(self).node_level(id) == from.node_level(old_id),
            forall|l: u8|
                #[trigger] final(self).links(id, l) == remapped(from.links(old_id, l), places@),
            forall|i: u32|
                i < old(self).len && i != id && !from.sq8 ==> #[trigger] final(self).words(i)
                    == old(self).words(i),
            forall|i: u32|
                i < old(self).len && i != id && from.sq8 ==> #[trigger] final(self).codes(i)
                    == old(self).codes(i),
            forall|i: u32|
                i < old(self).len && i != id ==> #[trigger] final(self).slot_of(i)
                    == old(self).slot_of(i),
            forall|i: u32|
                i < old(self).len && i != id ==> #[trigger] final(self).node_level(i)
                    == old(self).node_level(i),
            forall|i: u32, l: u8|
                i < old(self).len && i != id ==> #[trigger] final(self).links(i, l)
                    == old(self).links(i, l),
            forall|i: u32|
                i != id ==> #[trigger] final(self).upper_neighbors.levels(i)
                    == old(self).upper_neighbors.levels(i),
            forall|i: u32|
                i != id ==> (#[trigger] final(self).upper_neighbors.map@.contains_key(i)
                    == old(self).upper_neighbors.map@.contains_key(i)),
            old(self).same_quantization(final(self)),
    {
        proof {
            assert(self.header_sizes()[5] == from.header_sizes()[5]);
            assert(self.header_sizes()[6] == from.header_sizes()[6]);
        }
        let ghost s0 = *self;
        if self.sq8 {
            let codes: &[u8] = from.quantized_vector(old_id);
            self.store_codes(id, codes);
        } else {
            let vector: Vec<u32> = from.vector(old_id);
            self.store_components(id, vector.as_slice());
        }
        let ghost s1 = *self;
        self.set_slot(id, from.slot(old_id));
        let ghost s2 = *self;
        self.set_level(id, from.level(old_id));
        let ghost s3 = *self;
        assert(all_below(from.links(old_id, 0), from.len as nat));
        let list: Vec<u32> = from.neighbors(old_id);
        let mapped: Vec<u32> = remap(&list, places);
        self.set_neighbors(id, mapped.as_slice());
        let ghost s4 = *self;
        proof {
            if s0.sq8 {
                assert(s2.codes(id) == s1.codes(id));
                assert(s3.codes(id) == s2.codes(id));
                assert(s4.codes(id) == s3.codes(id));
            } else {
                assert(s2.vec(id) == s1.vec(id));
                assert(s3.vec(id) == s2.vec(id));
                assert(s4.vec(id) == s3.vec(id));
            }
            assert(s4.slot_of(id) == from.slot_of(old_id)) by {
                assert(s3.slot_of(id) == s2.slot_of(id));
                assert(s4.slot_of(id) == s3.slot_of(id));
            }
            assert(s4.node_level(id) == from.node_level(old_id)) by {
                assert(s4.node_level(id) == s3.node_level(id));
            }
            assert forall|i: u32| i < s0.len && i != id && !s0.sq8 implies #[trigger] s4.words(i)
                == s0.words(i) by {
                assert(s1.vec(i) == s0.vec(i));
                assert(s2.vec(i) == s1.vec(i));
                assert(s3.vec(i) == s2.vec(i));
                assert(s4.vec(i) == s3.vec(i));
            }
            assert forall|i: u32| i < s0.len && i != id && s0.sq8 implies #[trigger] s4.codes(i)
                == s0.codes(i) by {
                assert(s1.codes(i) == s0.codes(i));
                assert(s2.codes(i) == s1.codes(i));
                assert(s3.codes(i) == s2.codes(i));
                assert(s4.codes(i) == s3.codes(i));
            }
            assert forall|i: u32| i < s0.len && i != id implies #[trigger] s4.slot_of(i)
                == s0.slot_of(i) by {
                assert(s1.slot_of(i) == s0.slot_of(i));
                assert(s2.slot_of(i) == s1.slot_of(i));
                assert(s3.slot_of(i) == s2.slot_of(i));
            }
            assert forall|i: u32| i < s0.len && i != id implies #[trigger] s4.node_level(i)
                == s0.node_level(i) by {
                assert(s1.node_level(i) == s0.node_level(i));
                assert(s2.node_level(i) == s1.node_level(i));
                assert(s3.node_level(i) == s2.node_level(i));
            }
            assert forall|i: u32| i < s0.len && i != id implies #[trigger] s4.links0(i)
                == s0.links0(i) by {
                assert(s1.links0(i) == s0.links0(i));
                assert(s2.links0(i) == s1.links0(i));
                assert(s3.links0(i) == s2.links0(i));
            }
            assert(s4.upper_neighbors == s0.upper_neighbors);
        }
        let stored: usize = from.upper_neighbors.upper_level_count(old_id);
        let count: u8 = if stored <= 255 { stored as u8 } else { 255 };
        let mut level: u8 = 0;
        while level < count
            invariant
                level <= count,
                count <= from.upper_neighbors.levels(old_id).len(),
                from.upper_neighbors.levels(old_id).len() <= count || count == 255,
                self.wf(),
                from.wf(),
                id < self.len,
                old_id < from.len,
                from.links_inside(),
                places@.len() == from.len,
                s4.same_shape(self),
                self.data == s4.data,
                s4.same_quantization(self),
                s4.upper_neighbors.levels(id).len() == 0,
                forall|l: u8|
                    l > 0 ==> #[trigger] self.links(id, l) == (if l <= level {
                        remapped(from.links(old_id, l), places@)
                    } else {
                        Seq::<u32>::empty()
                    }),
                forall|i: u32|
                    i != id ==> #[trigger] self.upper_neighbors.levels(i)
                        == s4.upper_neighbors.levels(i),
                forall|i: u32|
                    i != id ==> (#[trigger] self.upper_neighbors.map@.contains_key(i)
                        == s4.upper_neighbors.map@.contains_key(i)),
            decreases count - level,
        {
            let ghost before = *self;
            level = level + 1;
            assert(all_below(from.links(old_id, level), from.len as nat));
            let list: Vec<u32> = from.neighbors_at_level(old_id, level);
            let mapped: Vec<u32> = remap(&list, places);
            self.set_neighbors_at_level(id, level, mapped);
            proof {
                assert forall|l: u8| l > 0 implies #[trigger] self.links(id, l) == (if l <= level {
                    remapped(from.links(old_id, l), places@)
                } else {
                    Seq::<u32>::empty()
                }) by {
                    if l != level {
                        assert(self.links(id, l) == before.links(id, l));
                    }
                }
                assert forall|i: u32| i != id implies (
                #[trigger] self.upper_neighbors.map@.contains_key(i)
                    == s4.upper_neighbors.map@.contains_key(i)) by {
                    assert(self.upper_neighbors.map@.dom().contains(i)
                        == before.upper_neighbors.map@.dom().contains(i));
                }
            }
        }
        proof {
            assert forall|l: u8| #[trigger] self.links(id, l) == remapped(
                from.links(old_id, l),
                places@,
            ) by {
                if l == 0 {
                    assert(self.links0(id) == s4.links0(id));
                } else if l > count {
                    assert(from.links(old_id, l) == Seq::<u32>::empty());
                    assert(self.links(id, l) =~= remapped(from.links(old_id, l), places@));
                }
            }
            assert forall|i: u32, l: u8| i < s0.len && i != id implies #[trigger] self.links(i, l)
                == s0.links(i, l) by {
                if l == 0 {
                    assert(self.links0(i) == s4.links0(i));
                } else {
                    assert(self.upper_neighbors.levels(i) == s4.upper_neighbors.levels(i));
                }
            }
            s4.lemma_same_data(self);
            assert(self.words(id) == s4.words(id));
            assert(self.codes(id) == s4.codes(id));
            assert(self.slot_of(id) == s4.slot_of(id));
            assert(self.node_level(id) == s4.node_level(id));
            assert forall|i: u32| i < s0.len && i != id && !s0.sq8 implies #[trigger] self.words(i)
                == s0.words(i) by {
                assert(self.words(i) == s4.words(i));
            }
            assert forall|i: u32| i < s0.len && i != id && s0.sq8 implies #[trigger] self.codes(i)
                == s0.codes(i) by {
                assert(self.codes(i) == s4.codes(i));
            }
            assert forall|i: u32| i < s0.len && i != id implies #[trigger] self.slot_of(i)
                == s0.slot_of(i) by {
                assert(self.slot_of(i) == s4.slot_of(i));
            }
            assert forall|i: u32| i < s0.len && i != id implies #[trigger] self.node_level(i)
                == s0.node_level(i) by {
                assert(self.node_level(i) == s4.node_level(i));
            }
        }
    }

    /// A storage with the same nodes in a new order.
    pub fn reordered(&self, order: &Vec<u32>, places: &Vec<u32>) -> (r: Self)
        requires
            self.wf(),
            self.vectors_ok(),
            self.links_inside(),
            inverse(order@, places@),
            order@.len() == self.len,
            self.len <= u32::MAX,
        ensures
            r.wf(),
            r.vectors_ok(),
            r.reorders(self, order@, places@),
            r.capacity == self.len,
    {
        let n: usize = self.len;
        proof {
            assert(0 <= n * self.node_size <= self.capacity * self.node_size) by (nonlinear_arith)
                requires
                    n <= self.capacity,
            ;
            assert(self.data@.len() == self.data.len());
        }
        let bytes: usize = n * self.node_size;
        let ghost waits = self.sq8 && !self.sq8_trained;
        let d: usize = self.dimensions;
        proof {
            assert forall|k: int| 0 <= k < order@.len() implies #[trigger] order@[k] < n by {
                assert(order@[k] < order@.len());
            }
            if waits {
                lemma_chunks_in_order(self.training_buffer@, order@, n as int, d as int);
            }
        }
        let collected: Vec<u32> = if self.sq8 && !self.sq8_trained {
            put_chunks_in_order(&self.training_buffer, order, n, d)
        } else {
            Vec::new()
        };
        let mut out = NodeStorage {
            data: vec![0u8; bytes],
            capacity: n,
            len: n,
            node_size: self.node_size,
            neighbors_offset: self.neighbors_offset,
            vector_offset: self.vector_offset,
            metadata_offset: self.metadata_offset,
            dimensions: self.dimensions,
            max_neighbors: self.max_neighbors,
            max_neighbors_upper: self.max_neighbors_upper,
            max_level: self.max_level,
            upper_neighbors: UpperNeighborsStorage::new(),
            sq8: self.sq8,
            sq8_params: self.sq8_params,
            norms: put_in_order(&self.norms, order, 0),
            sq8_sums: put_in_order(&self.sq8_sums, order, 0),
            training_buffer: collected,
            sq8_trained: self.sq8_trained,
            code_values: slice_to_vec(self.code_values.as_slice()),
        };
        let ghost start = out;
        assert(out.header_sizes() =~= self.header_sizes());
        let mut i: usize = 0;
        while i < n
            invariant
                i <= n,
                n == self.len,
                n <= u32::MAX,
                self.wf(),
                self.links_inside(),
                inverse(order@, places@),
                order@.len() == n,
                out.wf(),
                start.same_shape(&out),
                start.header_sizes() == self.header_sizes(),
                start.max_neighbors_upper == self.max_neighbors_upper,
                start.max_level == self.max_level,
                start.capacity == n,
                start.sq8 == self.sq8,
                start.same_quantization(&out),
                forall|j: u32|
                    j < i && !self.sq8 ==> #[trigger] out.words(j) == self.words(order@[j as int]),
                forall|j: u32|
                    j < i && self.sq8 ==> #[trigger] out.codes(j) == self.codes(order@[j as int]),
                forall|j: u32| j < i ==> #[trigger] out.slot_of(j) == self.slot_of(order@[j as int]),
                forall|j: u32|
                    j < i ==> #[trigger] out.node_level(j) == self.node_level(order@[j as int]),
                forall|j: u32, l: u8|
                    j < i ==> #[trigger] out.links(j, l) == remapped(
                        self.links(order@[j as int], l),
                        places@,
                    ),
                forall|id: u32|
                    id >= i ==> !(#[trigger] out.upper_neighbors.map@.contains_key(id)),
            decreases n - i,
        {
            let ghost before = out;
            let old_id: u32 = order[i];
            assert(order@[i as int] < n);
            assert(out.header_sizes() =~= start.header_sizes());
            assert(!out.upper_neighbors.map@.contains_key(i as u32));
            out.copy_node(self, i as u32, old_id, places);
            proof {
                assert forall|id: u32| id >= i + 1 implies !(
                #[trigger] out.upper_neighbors.map@.contains_key(id)) by {
                    assert(!before.upper_neighbors.map@.contains_key(id));
                }
                assert forall|j: u32| j < i + 1 && !self.sq8 implies #[trigger] out.words(j)
                    == self.words(order@[j as int]) by {
                    if j < i {
                        assert(out.words(j) == before.words(j));
                    }
                }
                assert forall|j: u32| j < i + 1 && self.sq8 implies #[trigger] out.codes(j)
                    == self.codes(order@[j as int]) by {
                    if j < i {
                        assert(out.codes(j) == before.codes(j));
                    }
                }
                assert forall|j: u32| j < i + 1 implies #[trigger] out.slot_of(j) == self.slot_of(
                    order@[j as int],
                ) by {
                    if j < i {
                        assert(out.slot_of(j) == before.slot_of(j));
                    }
                }
                assert forall|j: u32| j < i + 1 implies #[trigger] out.node_level(j)
                    == self.node_level(order@[j as int]) by {
                    if j < i {
                        assert(out.node_level(j) == before.node_level(j));
                    }
                }
                assert forall|j: u32, l: u8| j < i + 1 implies #[trigger] out.links(j, l)
                    == remapped(self.links(order@[j as int], l), places@) by {
                    if j < i {
                        assert(out.links(j, l) == before.links(j, l));
                    }
                }
            }
            i += 1;
        }
        proof {
            assert(out.header_sizes() =~= self.header_sizes());
            assert forall|j: u32| j < n implies #[trigger] out.vec(j) == self.vec(
                order@[j as int],
            ) by {
                if waits {
                    assert(chunk(out.training_buffer@, j as int, d as int) == chunk(
                        self.training_buffer@,
                        order@[j as int] as int,
                        d as int,
                    ));
                } else if self.sq8 {
                    assert(out.codes(j) == self.codes(order@[j as int]));
                } else {
                    assert(out.words(j) == self.words(order@[j as int]));
                }
            }
        }
        out
    }

    /// Sets the slots of all nodes.
    pub fn remap_slots(&mut self, slots: &[u32])
        requires
            old(self).wf(),
            slots@.len() == old(self).len,
        ensures
            final(self).wf(),
            old(self).same_shape(final(self)),
            old(self).same_rest(final(self)),
            forall|i: u32| i < old(self).len ==> #[trigger] final(self).slot_of(i) == slots@[i as int],
            forall|i: u32|
                i < old(self).len ==> #[trigger] final(self).vec(i) == old(self).vec(i),
            forall|i: u32|
                i < old(self).len && old(self).sq8 ==> #[trigger] final(self).codes(i)
                    == old(self).codes(i),
            forall|i: u32|
                i < old(self).len ==> #[trigger] final(self).node_level(i) == old(self).node_level(
                    i,
                ),
            forall|i: u32, l: u8|
                i < old(self).len ==> #[trigger] final(self).links(i, l) == old(self).links(i, l),
    {
        let n: usize = slots.len();
        let mut i: usize = 0;
        while i < n
            invariant
                i <= n,
                n == slots@.len(),
                n == self.len,
                self.wf(),
                old(self).same_shape(self),
                old(self).same_rest(self),
                forall|j: u32| j < i ==> #[trigger] self.slot_of(j) == slots@[j as int],
                forall|j: u32|
                    j < n && !self.sq8 ==> #[trigger] self.vec(j) == old(self).vec(j),
                forall|j: u32|
                    j < n && self.sq8 ==> #[trigger] self.codes(j) == old(self).codes(j),
                forall|j: u32| j < n ==> #[trigger] self.node_level(j) == old(self).node_level(j),
                forall|j: u32| j < n ==> #[trigger] self.links0(j) == old(self).links0(j),
            decreases n - i,
        {
            let ghost before = *self;
            self.set_slot(i as u32, slots[i]);
            proof {
                assert forall|j: u32| j < i + 1 implies #[trigger] self.slot_of(j)
                    == slots@[j as int] by {
                    if j < i {
                        assert(self.slot_of(j) == before.slot_of(j));
                    }
                }
                assert forall|j: u32| j < n && !self.sq8 implies #[trigger] self.vec(j)
                    == old(self).vec(j) by {
                    assert(self.vec(j) == before.vec(j));
                }
                assert forall|j: u32| j < n && self.sq8 implies #[trigger] self.codes(j)
                    == old(self).codes(j) by {
                    assert(self.codes(j) == before.codes(j));
                }
                assert forall|j: u32| j < n implies #[trigger] self.node_level(j)
                    == old(self).node_level(j) by {
                    assert(self.node_level(j) == before.node_level(j));
                }
                assert forall|j: u32| j < n implies #[trigger] self.links0(j)
                    == old(self).links0(j) by {
                    assert(self.links0(j) == before.links0(j));
                }
            }
            i += 1;
        }
        proof {
            assert forall|j: u32, l: u8| j < n implies #[trigger] self.links(j, l)
                == old(self).links(j, l) by {
                assert(self.links0(j) == old(self).links0(j));
            }
            assert forall|j: u32| j < n implies #[trigger] self.vec(j) == old(self).vec(j) by {
                if self.sq8 {
                    assert(self.codes(j) == old(self).codes(j));
                }
            }
        }
    }
}

} // verus!
