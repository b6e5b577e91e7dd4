//! An index whose vectors lie beside their neighbours.

use vstd::prelude::*;

use super::{shape_fits, HNSWIndex};
use crate::graph::{links_below, GraphStore};
use crate::node_storage::reorder::{adjacency, remapped};
use crate::node_storage::{node_params_fit, NodeStorage};
use crate::reorder::{all_below, walk_order};
use crate::types::{HNSWParams, Metric};

verus! {

/// An index was reordered: its nodes stand in the order of a breadth-first
/// walk from the entry point, which comes first.
pub open spec fn index_reordered(
    before: HNSWIndex<NodeStorage>,
    after: HNSWIndex<NodeStorage>,
    order: Seq<u32>,
    places: Seq<u32>,
) -> bool {
    &&& before.entry_point matches Some(entry) && order == walk_order(
        adjacency(&before.storage, before.storage.node_level(entry)),
        entry,
    )
    &&& after.storage.reorders(&before.storage, order, places)
    &&& after.entry_point == Some(0u32)
    &&& after.params == before.params
    &&& after.distance_fn == before.distance_fn
    &&& after.rng_state == before.rng_state
}

impl HNSWIndex<NodeStorage> {
    /// An empty index at full precision.
    pub fn new_colocated(dimensions: usize, params: HNSWParams, distance_fn: Metric) -> (r: Self)
        requires
            node_params_fit(dimensions as nat, params.m as nat),
        ensures
            r.wf(),
            r.storage.created(dimensions, params.m, params.max_level as usize, false),
            r.entry_point is None,
            r.params == params,
            r.distance_fn == distance_fn,
            r.rng_state == params.seed,
    {
        let storage = NodeStorage::new(dimensions, params.m, params.max_level as usize);
        let r = HNSWIndex { storage, entry_point: None, rng_state: params.seed, params, distance_fn };
        assert forall|level: u8| #[trigger] links_below(
            r.storage,
            level,
            r.storage.node_count(),
        ) by {}
        r
    }

    /// The links of a well-formed index lead to nodes.
    pub proof fn lemma_links_inside(&self)
        requires
            self.wf(),
        ensures
            self.storage.links_inside(),
    {
        assert forall|id: u32, level: u8| id < self.storage.len implies all_below(
            #[trigger] self.storage.links(id, level),
            self.storage.len as nat,
        ) by {
            assert(links_below(self.storage, level, self.storage.node_count()));
            let list = self.storage.links(id, level);
            assert forall|i: int| 0 <= i < list.len() implies #[trigger] list[i]
                < self.storage.len by {
                assert(self.storage.links_at(id, level)[i] < self.storage.node_count());
            }
        }
    }

    /// A reordered index is well-formed.
    proof fn lemma_reordered_wf(before: Self, after: Self, order: Seq<u32>, places: Seq<u32>)
        requires
            before.wf(),
            index_reordered(before, after, order, places),
            after.storage.wf(),
            after.storage.vectors_ok(),
        ensures
            after.wf(),
    {
        let a = after.storage;
        let b = before.storage;
        before.lemma_links_inside();
        assert(a.header_sizes()[0] == b.header_sizes()[0]);
        assert(a.header_sizes()[6] == b.header_sizes()[6]);
        assert forall|level: u8| #[trigger] links_below(a, level, a.node_count()) by {
            assert forall|id: u32, j: int|
                id < a.node_count() && 0 <= j < a.links_at(id, level).len() implies (
            #[trigger] a.links_at(id, level)[j]) < a.node_count() by {
                let list = b.links(order[id as int], level);
                assert(order[id as int] < b.len);
                assert(all_below(list, b.len as nat));
                assert(a.links(id, level) == remapped(list, places));
                assert(list[j] < b.len);
                assert(places[list[j] as int] < places.len());
            }
        }
        assert(shape_fits(a, after.params)) by {
            assert forall|level: u8| #[trigger] a.link_cap(level) == after.params.links(level) by {
                assert(b.link_cap(level) == before.params.links(level));
            }
            assert forall|id: u32| id < a.node_count() implies #[trigger] a.level_at(id)
                <= after.params.max_level by {
                assert(order[id as int] < b.len);
                assert(a.node_level(id) == b.node_level(order[id as int]));
                assert(b.level_at(order[id as int]) <= before.params.max_level);
            }
            assert forall|id: u32, level: u8| id < a.node_count() implies #[trigger] a.links_at(
                id,
                level,
            ).len() <= after.params.links(level) by {
                assert(order[id as int] < b.len);
                assert(a.links(id, level) == remapped(b.links(order[id as int], level), places));
                assert(b.links_at(order[id as int], level).len() <= before.params.links(level));
            }
        }
    }

    /// Puts the nodes in the order of a breadth-first walk from the entry
    /// point. An index without an entry point stays as it is.
    pub fn optimize_cache_locality(&mut self)
        requires
            old(self).wf(),
            old(self).storage.len <= u32::MAX,
        ensures
            final(self).wf(),
            old(self).entry_point is None ==> *final(self) == *old(self),
            old(self).entry_point is Some ==> exists|order: Seq<u32>, places: Seq<u32>|
                index_reordered(*old(self), *final(self), order, places),
    {
        match self.entry_point {
            None => {},
            Some(entry) => {
                proof {
                    self.lemma_links_inside();
                }
                let top: u8 = self.storage.level(entry);
                let (order, places) = self.storage.walk_places(entry, top);
                let storage = self.storage.reordered(&order, &places);
                self.storage = storage;
                self.entry_point = Some(0);
                proof {
                    assert(index_reordered(*old(self), *self, order@, places@));
                    Self::lemma_reordered_wf(*old(self), *self, order@, places@);
                }
            },
        }
    }
}

} // verus!
