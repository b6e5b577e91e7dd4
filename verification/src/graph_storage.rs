//! Neighbour lists that can be frozen for searches and thawed for changes.

use vstd::prelude::*;

use crate::frozen_lists::FrozenNeighborLists;
use crate::neighbor_lists::{
    grid_total, grown, inside, law_set_neighbors, moved_grid, replaced, walk_graph, without,
    NeighborLists,
};
use crate::reorder::{inverse, walk_order};
use crate::storage::slice_to_vec;

verus! {

/// Lists that are either changed or searched.
#[derive(Debug)]
pub struct GraphStorage {
    /// Lists that can be changed, unless frozen.
    pub dynamic: Option<NeighborLists>,
    /// Lists that are only read, once frozen.
    pub frozen: Option<FrozenNeighborLists>,
}

impl GraphStorage {
    pub open spec fn wf(&self) -> bool {
        &&& self.dynamic matches Some(d) ==> d.wf()
        &&& self.frozen matches Some(f) ==> f.wf()
    }

    pub open spec fn links(&self, node: u32, level: u8) -> Seq<u32> {
        match (self.frozen, self.dynamic) {
            (Some(f), _) => f.links(node, level),
            (None, Some(d)) => d.links(node, level),
            (None, None) => Seq::empty(),
        }
    }

    /// Number of nodes.
    pub open spec fn nodes(&self) -> nat {
        match (self.frozen, self.dynamic) {
            (Some(f), _) => f.num_nodes as nat,
            (None, Some(d)) => d.grid().len(),
            (None, None) => 0,
        }
    }

    /// Most neighbours of a node.
    pub open spec fn most(&self) -> usize {
        match (self.frozen, self.dynamic) {
            (Some(f), _) => f.m_max,
            (None, Some(d)) => d.m_max,
            (None, None) => 32,
        }
    }

    pub fn new(max_levels: usize) -> (r: Self)
        ensures
            r.wf(),
            r.frozen is None,
            r.dynamic matches Some(d) && d.grid().len() == 0 && d.max_levels == max_levels && d.m_max
                == 32,
    {
        GraphStorage { dynamic: Some(NeighborLists::new(max_levels)), frozen: None }
    }

    pub fn with_capacity(num_nodes: usize, max_levels: usize, m: usize) -> (r: Self)
        requires
            m * 2 <= usize::MAX,
        ensures
            r.wf(),
            r.frozen is None,
            r.dynamic matches Some(d) && d.grid().len() == 0 && d.max_levels == max_levels && d.m_max
                == m * 2,
    {
        GraphStorage {
            dynamic: Some(NeighborLists::with_capacity(num_nodes, max_levels, m)),
            frozen: None,
        }
    }

    pub fn from_neighbor_lists(lists: NeighborLists) -> (r: Self)
        ensures
            r.dynamic == Some(lists),
            r.frozen is None,
    {
        GraphStorage { dynamic: Some(lists), frozen: None }
    }

    pub fn from_frozen(frozen: FrozenNeighborLists) -> (r: Self)
        ensures
            r.dynamic is None,
            r.frozen == Some(frozen),
    {
        GraphStorage { dynamic: None, frozen: Some(frozen) }
    }

    pub fn is_frozen(&self) -> (r: bool)
        ensures
            r == (self.frozen is Some),
    {
        self.frozen.is_some()
    }

    /// Freezes the lists, unless they are already. They read the same.
    pub fn freeze(&mut self)
        requires
            old(self).wf(),
            old(self).frozen is None ==> (old(self).dynamic matches Some(d) ==> grid_total(d.grid())
                <= u32::MAX),
        ensures
            final(self).wf(),
            old(self).frozen is Some ==> *final(self) == *old(self),
            old(self).dynamic is Some || old(self).frozen is Some ==> final(self).frozen is Some,
            old(self).frozen is None ==> final(self).dynamic is None,
            forall|node: u32, level: u8| #[trigger]
                final(self).links(node, level) == old(self).links(node, level),
            final(self).nodes() == old(self).nodes(),
            final(self).most() == old(self).most(),
    {
        if self.frozen.is_some() {
            return;
        }
        match &self.dynamic {
            None => {},
            Some(dynamic) => {
                let frozen: FrozenNeighborLists = dynamic.freeze();
                self.frozen = Some(frozen);
                self.dynamic = None;
            },
        }
    }

    /// A node below `n` has a list on the `levels` lowest levels.
    pub open spec fn has_list(&self, node: u32, levels: nat) -> bool {
        exists|level: u8| level < levels && (#[trigger] self.links(node, level)).len() > 0
    }

    /// How many nodes there are up to the last below `n` that has neighbours on
    /// the `levels` lowest levels.
    pub open spec fn used(&self, n: nat, levels: nat) -> nat
        decreases n,
    {
        if n == 0 {
            0
        } else if self.has_list((n - 1) as u32, levels) {
            n
        } else {
            self.used((n - 1) as nat, levels)
        }
    }

    /// The same lists, on the lowest levels, as lists that can be changed. Nodes
    /// without neighbours are left out at the end.
    fn rebuild(&self, num_nodes: usize, max_levels: usize, m_max: usize) -> (lists: NeighborLists)
        requires
            self.wf(),
            num_nodes == self.nodes(),
            num_nodes <= u32::MAX,
            m_max % 2 == 0,
        ensures
            lists.wf(),
            lists.max_levels == max_levels,
            lists.m_max == m_max,
            lists.grid().len() == self.used(num_nodes as nat, max_levels as nat),
            forall|node: u32, level: u8| #[trigger]
                lists.links(node, level) == (if level < max_levels {
                    self.links(node, level)
                } else {
                    Seq::empty()
                }),
    {
        let mut lists: NeighborLists = NeighborLists::with_capacity(
            num_nodes,
            max_levels,
            m_max / 2,
        );
        let levels: usize = if max_levels <= 256 { max_levels } else { 256 };
        let mut i: usize = 0;
        while i < num_nodes
            invariant
                i <= num_nodes <= u32::MAX,
                self.wf(),
                lists.wf(),
                lists.max_levels == max_levels,
                lists.m_max == m_max,
                levels == (if max_levels <= 256 {
                    max_levels as int
                } else {
                    256
                }),
                lists.grid().len() == self.used(i as nat, max_levels as nat),
                lists.grid().len() <= i,
                forall|node: u32, level: u8| #[trigger]
                    lists.links(node, level) == (if node < i && level < max_levels {
                        self.links(node, level)
                    } else {
                        Seq::empty()
                    }),
            decreases num_nodes - i,
        {
            let node_id: u32 = i as u32;
            let ghost start = lists.grid().len();
            let mut l: usize = 0;
            while l < levels
                invariant
                    i < num_nodes <= u32::MAX,
                    node_id == i,
                    l <= levels,
                    levels == (if max_levels <= 256 {
                        max_levels as int
                    } else {
                        256
                    }),
                    self.wf(),
                    lists.wf(),
                    lists.max_levels == max_levels,
                    lists.m_max == m_max,
                    start <= i,
                    lists.grid().len() == (if exists|level: u8|
                        level < l && (#[trigger] self.links(node_id, level)).len() > 0 {
                        i + 1
                    } else {
                        start as int
                    }),
                    forall|node: u32, level: u8| #[trigger]
                        lists.links(node, level) == (if (node < i && level < max_levels) || (node
                            == i && level < l) {
                            self.links(node, level)
                        } else {
                            Seq::empty()
                        }),
                decreases levels - l,
            {
                let level: u8 = l as u8;
                let list: Vec<u32> = self.get_neighbors(node_id, level);
                let ghost before = lists;
                if list.len() > 0 {
                    let ghost given = list@;
                    lists.set_neighbors(node_id, level, list);
                    proof {
                        law_set_neighbors(&before, &lists, node_id, level, given);
                        assert(self.links(node_id, level).len() > 0);
                    }
                } else {
                    assert(list@ =~= Seq::<u32>::empty());
                }
                proof {
                    assert forall|node: u32, k: u8| #[trigger] lists.links(node, k) == (if (node < i
                        && k < max_levels) || (node == i && k < l + 1) {
                        self.links(node, k)
                    } else {
                        Seq::empty()
                    }) by {
                        if node == node_id && k == level {
                        } else {
                            assert(lists.links(node, k) == before.links(node, k));
                        }
                    }
                    if exists|k: u8| k < l + 1 && (#[trigger] self.links(node_id, k)).len() > 0 {
                        let k = choose|k: u8|
                            k < l + 1 && (#[trigger] self.links(node_id, k)).len() > 0;
                        if k < l {
                            assert(self.links(node_id, k).len() > 0);
                        }
                    }
                }
                l += 1;
            }
            proof {
                assert(self.has_list(node_id, max_levels as nat) == exists|level: u8|
                    level < l && (#[trigger] self.links(node_id, level)).len() > 0);
                assert forall|node: u32, level: u8| #[trigger] lists.links(node, level) == (if node
                    < i + 1 && level < max_levels {
                    self.links(node, level)
                } else {
                    Seq::empty()
                }) by {}
            }
            i += 1;
        }
        proof {
            assert forall|node: u32, level: u8| node >= num_nodes implies #[trigger] self.links(
                node,
                level,
            ) == Seq::<u32>::empty() by {}
        }
        lists
    }

    /// Thaws the lists, unless they are already. They read the same, on the
    /// levels that there are.
    pub fn unfreeze(&mut self)
        requires
            old(self).wf(),
            old(self).frozen matches Some(f) ==> f.num_nodes <= u32::MAX,
        ensures
            final(self).wf(),
            old(self).dynamic is Some ==> *final(self) == *old(self),
            old(self).dynamic is None && old(self).frozen is Some ==> {
                &&& final(self).dynamic is Some
                &&& final(self).frozen is None
                &&& final(self).most() == old(self).most()
                &&& final(self).nodes() == old(self).used(
                    old(self).nodes(),
                    old(self).frozen->0.max_levels as nat,
                )
            },
            forall|node: u32, level: u8| #[trigger]
                final(self).links(node, level) == old(self).links(node, level),
    {
        if self.dynamic.is_some() {
            return;
        }
        let (num_nodes, max_levels, m_max) = match &self.frozen {
            None => {
                return;
            },
            Some(frozen) => (frozen.num_nodes(), frozen.max_levels(), frozen.m_max()),
        };
        let lists: NeighborLists = self.rebuild(num_nodes, max_levels, m_max);
        self.dynamic = Some(lists);
        self.frozen = None;
    }

    /// The neighbours of a node at a level.
    pub fn get_neighbors(&self, node_id: u32, level: u8) -> (r: Vec<u32>)
        requires
            self.wf(),
        ensures
            r@ == self.links(node_id, level),
    {
        match &self.frozen {
            Some(frozen) => slice_to_vec(frozen.get_neighbors(node_id, level)),
            None => match &self.dynamic {
                Some(dynamic) => dynamic.get_neighbors(node_id, level),
                None => Vec::new(),
            },
        }
    }

    /// Hands the neighbours of a node at a level to `f`.
    pub fn with_neighbors<F: FnOnce(&[u32]) -> R, R>(&self, node_id: u32, level: u8, f: F) -> (r: R)
        requires
            self.wf(),
            forall|s: &[u32]| s@ == self.links(node_id, level) ==> #[trigger] call_requires(f, (s,)),
        ensures
            exists|s: &[u32]|
                s@ == self.links(node_id, level) && #[trigger] call_ensures(f, (s,), r),
    {
        let list: Vec<u32> = self.get_neighbors(node_id, level);
        f(list.as_slice())
    }

    /// The lists that can be changed were.
    pub open spec fn changed(&self, before: &Self, grid: Seq<Seq<Seq<u32>>>) -> bool {
        &&& self.frozen == before.frozen
        &&& self.dynamic is Some
        &&& before.dynamic is Some
        &&& self.dynamic->0.wf()
        &&& self.dynamic->0.same_limits(&before.dynamic->0)
        &&& self.dynamic->0.grid() == grid
    }

    /// Sets the neighbours of a node at a level.
    pub fn set_neighbors(&mut self, node_id: u32, level: u8, neighbors: Vec<u32>)
        requires
            old(self).wf(),
            old(self).dynamic is Some,
            level < old(self).dynamic->0.max_levels,
            node_id < usize::MAX,
        ensures
            final(self).wf(),
            final(self).changed(
                old(self),
                replaced(
                    grown(
                        old(self).dynamic->0.grid(),
                        old(self).dynamic->0.max_levels as nat,
                        node_id as nat + 1,
                    ),
                    node_id as int,
                    level as int,
                    neighbors@,
                ),
            ),
    {
        match &mut self.dynamic {
            Some(dynamic) => {
                dynamic.set_neighbors(node_id, level, neighbors);
            },
            None => {},
        }
    }

    /// Links two nodes with each other.
    pub fn add_bidirectional_link(&mut self, node_a: u32, node_b: u32, level: u8)
        requires
            old(self).wf(),
            old(self).dynamic is Some,
            level < old(self).dynamic->0.max_levels,
            node_a < usize::MAX,
            node_b < usize::MAX,
        ensures
            final(self).wf(),
            final(self).changed(
                old(self),
                if node_a == node_b {
                    old(self).dynamic->0.grid()
                } else {
                    NeighborLists::linked(
                        grown(
                            old(self).dynamic->0.grid(),
                            old(self).dynamic->0.max_levels as nat,
                            (if node_a > node_b {
                                node_a as nat
                            } else {
                                node_b as nat
                            }) + 1,
                        ),
                        node_a,
                        node_b,
                        level,
                    )
                },
            ),
    {
        match &mut self.dynamic {
            Some(dynamic) => {
                dynamic.add_bidirectional_link(node_a, node_b, level);
            },
            None => {},
        }
    }

    /// Links two nodes with each other where both are there already.
    pub fn add_bidirectional_link_parallel(&mut self, node_a: u32, node_b: u32, level: u8)
        requires
            old(self).wf(),
            old(self).dynamic is Some,
            level < old(self).dynamic->0.max_levels,
        ensures
            final(self).wf(),
            final(self).changed(
                old(self),
                if node_a == node_b || node_a >= old(self).dynamic->0.grid().len() || node_b >= old(self).dynamic->0.grid().len() {
                    old(self).dynamic->0.grid()
                } else if node_a < node_b {
                    NeighborLists::linked(old(self).dynamic->0.grid(), node_a, node_b, level)
                } else {
                    NeighborLists::linked(old(self).dynamic->0.grid(), node_b, node_a, level)
                },
            ),
    {
        match &mut self.dynamic {
            Some(dynamic) => {
                dynamic.add_bidirectional_link_parallel(node_a, node_b, level);
            },
            None => {},
        }
    }

    /// Removes the link from one node to another, not the one back.
    pub fn remove_link_parallel(&mut self, node_a: u32, node_b: u32, level: u8)
        requires
            old(self).wf(),
            old(self).dynamic is Some,
            level < old(self).dynamic->0.max_levels,
        ensures
            final(self).wf(),
            final(self).changed(
                old(self),
                if node_a >= old(self).dynamic->0.grid().len() {
                    old(self).dynamic->0.grid()
                } else {
                    replaced(
                        old(self).dynamic->0.grid(),
                        node_a as int,
                        level as int,
                        without(old(self).dynamic->0.links(node_a, level), node_b),
                    )
                },
            ),
    {
        match &mut self.dynamic {
            Some(dynamic) => {
                dynamic.remove_link_parallel(node_a, node_b, level);
            },
            None => {},
        }
    }

    /// Sets the neighbours of a node that is there already.
    pub fn set_neighbors_parallel(&mut self, node_id: u32, level: u8, neighbors: Vec<u32>)
        requires
            old(self).wf(),
            old(self).dynamic is Some,
            level < old(self).dynamic->0.max_levels,
        ensures
            final(self).wf(),
            final(self).changed(
                old(self),
                if node_id >= old(self).dynamic->0.grid().len() {
                    old(self).dynamic->0.grid()
                } else {
                    replaced(
                        old(self).dynamic->0.grid(),
                        node_id as int,
                        level as int,
                        neighbors@,
                    )
                },
            ),
    {
        match &mut self.dynamic {
            Some(dynamic) => {
                dynamic.set_neighbors_parallel(node_id, level, neighbors);
            },
            None => {},
        }
    }

    pub fn m_max(&self) -> (r: usize)
        ensures
            r == self.most(),
    {
        match &self.frozen {
            Some(frozen) => frozen.m_max(),
            None => match &self.dynamic {
                Some(dynamic) => dynamic.m_max(),
                None => 32,
            },
        }
    }

    /// Elements in all lists.
    pub open spec fn total(&self) -> nat {
        match (self.frozen, self.dynamic) {
            (Some(f), _) => f.data@.len(),
            (None, Some(d)) => grid_total(d.grid()),
            (None, None) => 0,
        }
    }

    pub fn total_neighbors(&self) -> (n: usize)
        requires
            self.total() <= usize::MAX,
        ensures
            n == self.total(),
    {
        match &self.frozen {
            Some(frozen) => frozen.total_neighbors(),
            None => match &self.dynamic {
                Some(dynamic) => dynamic.total_neighbors(),
                None => 0,
            },
        }
    }

    /// Puts the nodes into the order of a breadth-first walk, and says where
    /// each went.
    pub fn reorder_bfs(&mut self, entry_point: u32, start_level: u8) -> (places: Vec<u32>)
        requires
            old(self).wf(),
            old(self).dynamic is Some,
            inside(old(self).dynamic->0.grid()),
            old(self).dynamic->0.grid().len() > 0 ==> entry_point < old(self).dynamic->0.grid().len(),
            old(self).dynamic->0.grid().len() <= u32::MAX,
        ensures
            final(self).wf(),
            old(self).dynamic->0.grid().len() == 0 ==> places@.len() == 0 && final(self).changed(
                old(self),
                old(self).dynamic->0.grid(),
            ),
            old(self).dynamic->0.grid().len() > 0 ==> {
                let grid = old(self).dynamic->0.grid();
                let order = walk_order(walk_graph(grid, start_level), entry_point);
                &&& inverse(order, places@)
                &&& final(self).changed(old(self), moved_grid(grid, order, places@))
            },
    {
        match &mut self.dynamic {
            Some(dynamic) => dynamic.reorder_bfs(entry_point, start_level),
            None => Vec::new(),
        }
    }

    pub fn num_nodes(&self) -> (n: usize)
        ensures
            n == self.nodes(),
    {
        match &self.frozen {
            Some(frozen) => frozen.num_nodes(),
            None => match &self.dynamic {
                Some(dynamic) => dynamic.num_nodes(),
                None => 0,
            },
        }
    }

    /// Levels that are saved: those of frozen lists, and eight of others.
    pub open spec fn saved_levels(&self) -> usize {
        match (self.dynamic, self.frozen) {
            (Some(d), _) => 8,
            (None, Some(f)) => f.max_levels,
            (None, None) => 8,
        }
    }

    /// The lists to be saved, as lists that can be changed.
    pub fn get_neighbor_lists_for_save(&self) -> (lists: NeighborLists)
        requires
            self.wf(),
            self.dynamic is None || self.frozen is None,
            self.nodes() <= u32::MAX,
        ensures
            lists.wf(),
            lists.max_levels == self.saved_levels(),
            lists.m_max == self.most(),
            lists.grid().len() == self.used(self.nodes(), self.saved_levels() as nat),
            forall|node: u32, level: u8| #[trigger]
                lists.links(node, level) == (if level < self.saved_levels() {
                    self.links(node, level)
                } else {
                    Seq::empty()
                }),
    {
        match &self.dynamic {
            Some(dynamic) => self.rebuild(dynamic.num_nodes(), 8, dynamic.m_max()),
            None => match &self.frozen {
                Some(frozen) => self.rebuild(
                    frozen.num_nodes(),
                    frozen.max_levels(),
                    frozen.m_max(),
                ),
                None => {
                    let lists: NeighborLists = NeighborLists::new(8);
                    assert forall|node: u32, level: u8| #[trigger] lists.links(node, level)
                        == Seq::<u32>::empty() by {}
                    lists
                },
            },
        }
    }
}

} // verus!
