//! Neighbour lists apart from the vectors.
//!
//! While a graph is built, each node has a list for each level. Once it is
//! finished, the lists can be frozen into one array with a table of offsets.

use vstd::prelude::*;

use crate::reorder::{
    all_below, breadth_first_order, inverse, law_walk_order, places_of, views, walk_order,
};
use crate::storage::{contains, slice_to_vec};

verus! {

/// The lists of all nodes and levels.
pub open spec fn list_grid(neighbors: Seq<Vec<Vec<u32>>>) -> Seq<Seq<Seq<u32>>> {
    neighbors.map_values(|node: Vec<Vec<u32>>| views(node@))
}

/// The list of a node at a level; empty where there is none.
pub open spec fn list_in(grid: Seq<Seq<Seq<u32>>>, node: int, level: int) -> Seq<u32> {
    if 0 <= node < grid.len() && 0 <= level < grid[node].len() {
        grid[node][level]
    } else {
        Seq::empty()
    }
}

/// Elements in all lists of a node.
pub open spec fn node_total(lists: Seq<Seq<u32>>) -> nat
    decreases lists.len(),
{
    if lists.len() == 0 {
        0
    } else {
        node_total(lists.drop_last()) + lists.last().len()
    }
}

/// Elements in all lists.
pub open spec fn grid_total(grid: Seq<Seq<Seq<u32>>>) -> nat
    decreases grid.len(),
{
    if grid.len() == 0 {
        0
    } else {
        grid_total(grid.drop_last()) + node_total(grid.last())
    }
}

/// Lengths of the lists of a node on its first levels.
pub open spec fn levels_sum(links: spec_fn(u32, u8) -> Seq<u32>, node: u32, levels: nat) -> nat
    decreases levels,
{
    if levels == 0 {
        0
    } else {
        levels_sum(links, node, (levels - 1) as nat) + links(node, (levels - 1) as u8).len()
    }
}

/// Lengths of the lists of the first nodes on their first levels.
pub open spec fn lists_sum(
    links: spec_fn(u32, u8) -> Seq<u32>,
    nodes: nat,
    levels: nat,
) -> nat
    decreases nodes,
{
    if nodes == 0 {
        0
    } else {
        lists_sum(links, (nodes - 1) as nat, levels) + levels_sum(
            links,
            (nodes - 1) as u32,
            levels,
        )
    }
}

proof fn lemma_levels_sum(lists: &NeighborLists, node: u32, levels: nat)
    requires
        lists.wf(),
        node < lists.grid().len(),
        levels <= lists.max_levels,
        levels <= 256,
    ensures
        levels_sum(|n: u32, l: u8| lists.links(n, l), node, levels) == node_total(
            lists.grid()[node as int].take(levels as int),
        ),
    decreases levels,
{
    let row = lists.grid()[node as int];
    assert(row.len() == lists.max_levels) by {
        assert(lists.neighbors@[node as int]@.len() == lists.max_levels);
    }
    if levels > 0 {
        lemma_levels_sum(lists, node, (levels - 1) as nat);
        assert(row.take(levels as int).drop_last() =~= row.take(levels - 1));
        assert(row.take(levels as int).last() == lists.links(node, (levels - 1) as u8));
    }
}

proof fn lemma_lists_sum(lists: &NeighborLists, nodes: nat)
    requires
        lists.wf(),
        lists.max_levels <= 256,
        nodes <= lists.grid().len(),
        nodes <= u32::MAX + 1,
    ensures
        lists_sum(|n: u32, l: u8| lists.links(n, l), nodes, lists.max_levels as nat) == grid_total(
            lists.grid().take(nodes as int),
        ),
    decreases nodes,
{
    let grid = lists.grid();
    if nodes > 0 {
        let node = (nodes - 1) as u32;
        lemma_lists_sum(lists, (nodes - 1) as nat);
        lemma_levels_sum(lists, node, lists.max_levels as nat);
        assert(lists.neighbors@[node as int]@.len() == lists.max_levels);
        assert(grid[node as int].take(lists.max_levels as int) =~= grid[node as int]);
        assert(grid.take(nodes as int).drop_last() =~= grid.take(nodes - 1));
        assert(grid.take(nodes as int).last() == grid[node as int]);
    }
}

/// The total number of neighbours is the sum of the lengths of all lists.
pub proof fn law_total_is_sum(lists: &NeighborLists)
    requires
        lists.wf(),
        lists.max_levels <= 256,
        lists.grid().len() <= u32::MAX + 1,
    ensures
        grid_total(lists.grid()) == lists_sum(
            |n: u32, l: u8| lists.links(n, l),
            lists.grid().len(),
            lists.max_levels as nat,
        ),
{
    lemma_lists_sum(lists, lists.grid().len());
    assert(lists.grid().take(lists.grid().len() as int) =~= lists.grid());
}

pub(crate) proof fn lemma_node_total(lists: Seq<Seq<u32>>, n: int)
    requires
        0 <= n <= lists.len(),
    ensures
        node_total(lists.take(n)) <= node_total(lists),
    decreases lists.len() - n,
{
    if n < lists.len() {
        lemma_node_total(lists, n + 1);
        assert(lists.take(n + 1).drop_last() =~= lists.take(n));
    } else {
        assert(lists.take(n) =~= lists);
    }
}

pub(crate) proof fn lemma_grid_total(grid: Seq<Seq<Seq<u32>>>, n: int)
    requires
        0 <= n <= grid.len(),
    ensures
        grid_total(grid.take(n)) <= grid_total(grid),
    decreases grid.len() - n,
{
    if n < grid.len() {
        lemma_grid_total(grid, n + 1);
        assert(grid.take(n + 1).drop_last() =~= grid.take(n));
    } else {
        assert(grid.take(n) =~= grid);
    }
}

/// A list without a node.
pub open spec fn without(list: Seq<u32>, node: u32) -> Seq<u32>
    decreases list.len(),
{
    if list.len() == 0 {
        Seq::empty()
    } else {
        let front = without(list.drop_last(), node);
        if list.last() == node {
            front
        } else {
            front.push(list.last())
        }
    }
}

/// A list with a node, appended unless it is there.
pub open spec fn joined_with(list: Seq<u32>, node: u32) -> Seq<u32> {
    if list.contains(node) {
        list
    } else {
        list.push(node)
    }
}

/// Lists that can be changed.
#[derive(Debug)]
pub struct NeighborLists {
    /// For each node and level a list.
    pub neighbors: Vec<Vec<Vec<u32>>>,
    pub max_levels: usize,
    /// Most neighbours of a node.
    pub m_max: usize,
}

/// Lists of nodes without neighbours.
pub open spec fn empty_node(max_levels: nat) -> Seq<Seq<u32>> {
    Seq::new(max_levels, |l: int| Seq::empty())
}

/// A grid with nodes without neighbours behind it, up to `n` nodes.
pub open spec fn grown(grid: Seq<Seq<Seq<u32>>>, max_levels: nat, n: nat) -> Seq<Seq<Seq<u32>>> {
    if n <= grid.len() {
        grid
    } else {
        grid + Seq::new((n - grid.len()) as nat, |i: int| empty_node(max_levels))
    }
}

/// One list of a grid is replaced.
pub open spec fn replaced(
    grid: Seq<Seq<Seq<u32>>>,
    node: int,
    level: int,
    list: Seq<u32>,
) -> Seq<Seq<Seq<u32>>> {
    grid.update(node, grid[node].update(level, list))
}

impl NeighborLists {
    pub open spec fn grid(&self) -> Seq<Seq<Seq<u32>>> {
        list_grid(self.neighbors@)
    }

    pub open spec fn links(&self, node: u32, level: u8) -> Seq<u32> {
        list_in(self.grid(), node as int, level as int)
    }

    /// Every node has a list for every level, and at level 0 twice as many
    /// neighbours fit as above it.
    pub open spec fn wf(&self) -> bool {
        &&& forall|i: int|
            0 <= i < self.neighbors@.len() ==> (#[trigger] self.neighbors@[i])@.len()
                == self.max_levels
        &&& self.m_max % 2 == 0
    }

    /// All but the lists is the same.
    pub open spec fn same_limits(&self, other: &Self) -> bool {
        self.max_levels == other.max_levels && self.m_max == other.m_max
    }

    pub fn new(max_levels: usize) -> (r: Self)
        ensures
            r.wf(),
            r.grid() == Seq::<Seq<Seq<u32>>>::empty(),
            r.max_levels == max_levels,
            r.m_max == 32,
    {
        let r = NeighborLists { neighbors: Vec::new(), max_levels, m_max: 32 };
        assert(r.grid() =~= Seq::<Seq<Seq<u32>>>::empty());
        r
    }

    /// No lists yet, for nodes with `m` neighbours on upper levels.
    pub fn with_capacity(num_nodes: usize, max_levels: usize, m: usize) -> (r: Self)
        requires
            m * 2 <= usize::MAX,
        ensures
            r.wf(),
            r.grid() == Seq::<Seq<Seq<u32>>>::empty(),
            r.max_levels == max_levels,
            r.m_max == m * 2,
    {
        let r = NeighborLists {
            neighbors: Vec::with_capacity(num_nodes),
            max_levels,
            m_max: m * 2,
        };
        assert(r.grid() =~= Seq::<Seq<Seq<u32>>>::empty());
        r
    }

    pub fn m_max(&self) -> (r: usize)
        ensures
            r == self.m_max,
    {
        self.m_max
    }

    pub fn len(&self) -> (n: usize)
        ensures
            n == self.grid().len(),
    {
        self.neighbors.len()
    }

    pub fn is_empty(&self) -> (r: bool)
        ensures
            r == (self.grid().len() == 0),
    {
        self.neighbors.len() == 0
    }

    pub fn num_nodes(&self) -> (n: usize)
        ensures
            n == self.grid().len(),
    {
        self.neighbors.len()
    }

    /// The neighbours of a node at a level.
    pub fn get_neighbors(&self, node_id: u32, level: u8) -> (r: Vec<u32>)
        ensures
            r@ == self.links(node_id, level),
    {
        let i: usize = node_id as usize;
        let l: usize = level as usize;
        if i >= self.neighbors.len() || l >= self.neighbors[i].len() {
            return Vec::new();
        }
        slice_to_vec(self.neighbors[i][l].as_slice())
    }

    /// Hands the neighbours of a node at a level to `f`.
    pub fn with_neighbors<F: FnOnce(&[u32]) -> R, R>(&self, node_id: u32, level: u8, f: F) -> (r: R)
        requires
            forall|s: &[u32]| s@ == self.links(node_id, level) ==> #[trigger] call_requires(f, (s,)),
        ensures
            exists|s: &[u32]|
                s@ == self.links(node_id, level) && #[trigger] call_ensures(f, (s,), r),
    {
        let list: Vec<u32> = self.get_neighbors(node_id, level);
        f(list.as_slice())
    }

    /// Adds nodes without neighbours until there are more than `node_idx`.
    fn ensure_node_exists(&mut self, node_idx: usize)
        requires
            old(self).wf(),
            node_idx < usize::MAX,
        ensures
            final(self).wf(),
            final(self).same_limits(old(self)),
            final(self).grid() == grown(
                old(self).grid(),
                old(self).max_levels as nat,
                (node_idx + 1) as nat,
            ),
    {
        assert(self.grid() =~= grown(old(self).grid(), self.max_levels as nat, self.grid().len()));
        while self.neighbors.len() <= node_idx
            invariant
                self.wf(),
                self.same_limits(old(self)),
                old(self).grid().len() <= self.grid().len(),
                self.grid().len() <= node_idx + 1 || self.grid() == old(self).grid(),
                self.grid() == grown(old(self).grid(), self.max_levels as nat, self.grid().len()),
            decreases node_idx + 1 - self.neighbors.len(),
        {
            let mut levels: Vec<Vec<u32>> = Vec::new();
            while levels.len() < self.max_levels
                invariant
                    levels@.len() <= self.max_levels,
                    views(levels@) == empty_node(levels@.len()),
                decreases self.max_levels - levels.len(),
            {
                let ghost before = levels@;
                levels.push(Vec::new());
                assert(views(levels@) =~= empty_node(levels@.len())) by {
                    assert forall|l: int| 0 <= l < levels@.len() implies #[trigger] views(
                        levels@,
                    )[l] == empty_node(levels@.len())[l] by {
                        if l < before.len() {
                            assert(views(before)[l] == empty_node(before.len())[l]);
                        } else {
                            assert(levels@[l]@ =~= Seq::<u32>::empty());
                        }
                    }
                }
            }
            let ghost before = self.grid();
            self.neighbors.push(levels);
            assert(self.grid() =~= before.push(empty_node(self.max_levels as nat)));
            assert(self.grid() =~= grown(
                old(self).grid(),
                self.max_levels as nat,
                self.grid().len(),
            ));
        }
    }

    /// Replaces one list.
    fn put(&mut self, i: usize, l: usize, list: Vec<u32>)
        requires
            old(self).wf(),
            i < old(self).neighbors@.len(),
            l < old(self).max_levels,
        ensures
            final(self).wf(),
            final(self).same_limits(old(self)),
            final(self).grid() == replaced(old(self).grid(), i as int, l as int, list@),
    {
        self.neighbors[i][l] = list;
        assert(self.grid() =~= replaced(old(self).grid(), i as int, l as int, list@)) by {
            let a = self.grid();
            let b = replaced(old(self).grid(), i as int, l as int, list@);
            assert forall|k: int| 0 <= k < a.len() implies #[trigger] a[k] == b[k] by {
                assert(a[k] =~= b[k]);
            }
        }
    }

    /// Sets the neighbours of a node at a level. Nodes up to it are added where
    /// they are missing.
    pub fn set_neighbors(&mut self, node_id: u32, level: u8, neighbors_list: Vec<u32>)
        requires
            old(self).wf(),
            level < old(self).max_levels,
            node_id < usize::MAX,
        ensures
            final(self).wf(),
            final(self).same_limits(old(self)),
            final(self).grid() == replaced(
                grown(old(self).grid(), old(self).max_levels as nat, node_id as nat + 1),
                node_id as int,
                level as int,
                neighbors_list@,
            ),
    {
        self.ensure_node_exists(node_id as usize);
        assert(self.grid().len() == self.neighbors@.len());
        self.put(node_id as usize, level as usize, neighbors_list);
    }

    /// Adds a node to the list of another one, unless it is there.
    fn link_one(&mut self, from: u32, to: u32, level: u8)
        requires
            old(self).wf(),
            level < old(self).max_levels,
            from < old(self).grid().len(),
        ensures
            final(self).wf(),
            final(self).same_limits(old(self)),
            final(self).grid() == replaced(
                old(self).grid(),
                from as int,
                level as int,
                joined_with(old(self).links(from, level), to),
            ),
    {
        let mut list: Vec<u32> = self.get_neighbors(from, level);
        if !contains(list.as_slice(), to) {
            list.push(to);
        }
        self.put(from as usize, level as usize, list);
    }

    /// Two nodes are linked with each other.
    pub open spec fn linked(
        grid: Seq<Seq<Seq<u32>>>,
        a: u32,
        b: u32,
        level: u8,
    ) -> Seq<Seq<Seq<u32>>> {
        let one = replaced(
            grid,
            a as int,
            level as int,
            joined_with(list_in(grid, a as int, level as int), b),
        );
        replaced(
            one,
            b as int,
            level as int,
            joined_with(list_in(one, b as int, level as int), a),
        )
    }

    /// Links two nodes with each other, in both directions. A node is not linked
    /// with itself.
    pub fn add_bidirectional_link(&mut self, node_a: u32, node_b: u32, level: u8)
        requires
            old(self).wf(),
            level < old(self).max_levels,
            node_a < usize::MAX,
            node_b < usize::MAX,
        ensures
            final(self).wf(),
            final(self).same_limits(old(self)),
            final(self).grid() == (if node_a == node_b {
                old(self).grid()
            } else {
                Self::linked(
                    grown(
                        old(self).grid(),
                        old(self).max_levels as nat,
                        (if node_a > node_b {
                            node_a as nat
                        } else {
                            node_b as nat
                        }) + 1,
                    ),
                    node_a,
                    node_b,
                    level,
                )
            }),
    {
        if node_a == node_b {
            return;
        }
        let last: u32 = if node_a > node_b { node_a } else { node_b };
        self.ensure_node_exists(last as usize);
        self.link_one(node_a, node_b, level);
        self.link_one(node_b, node_a, level);
    }

    /// Links two nodes with each other where both are there already, and else
    /// does nothing.
    pub fn add_bidirectional_link_parallel(&mut self, node_a: u32, node_b: u32, level: u8)
        requires
            old(self).wf(),
            level < old(self).max_levels,
        ensures
            final(self).wf(),
            final(self).same_limits(old(self)),
            final(self).grid() == (if node_a == node_b || node_a >= old(self).grid().len()
                || node_b >= old(self).grid().len() {
                old(self).grid()
            } else if node_a < node_b {
                Self::linked(old(self).grid(), node_a, node_b, level)
            } else {
                Self::linked(old(self).grid(), node_b, node_a, level)
            }),
    {
        if node_a == node_b || node_a as usize >= self.neighbors.len() || node_b as usize
            >= self.neighbors.len() {
            return;
        }
        if node_a < node_b {
            self.link_one(node_a, node_b, level);
            self.link_one(node_b, node_a, level);
        } else {
            self.link_one(node_b, node_a, level);
            self.link_one(node_a, node_b, level);
        }
    }

    /// Removes the link from one node to another, not the one back.
    pub fn remove_link_parallel(&mut self, node_a: u32, node_b: u32, level: u8)
        requires
            old(self).wf(),
            level < old(self).max_levels,
        ensures
            final(self).wf(),
            final(self).same_limits(old(self)),
            final(self).grid() == (if node_a >= old(self).grid().len() {
                old(self).grid()
            } else {
                replaced(
                    old(self).grid(),
                    node_a as int,
                    level as int,
                    without(old(self).links(node_a, level), node_b),
                )
            }),
    {
        if node_a as usize >= self.neighbors.len() {
            return;
        }
        let list: Vec<u32> = self.get_neighbors(node_a, level);
        let mut kept: Vec<u32> = Vec::new();
        let mut i: usize = 0;
        assert(list@.take(0) =~= Seq::<u32>::empty());
        while i < list.len()
            invariant
                i <= list@.len(),
                kept@ == without(list@.take(i as int), node_b),
            decreases list.len() - i,
        {
            assert(list@.take(i + 1).drop_last() =~= list@.take(i as int));
            if list[i] != node_b {
                kept.push(list[i]);
            }
            i += 1;
        }
        assert(list@.take(i as int) =~= list@);
        self.put(node_a as usize, level as usize, kept);
    }

    /// Sets the neighbours of a node that is there already, and else does
    /// nothing.
    pub fn set_neighbors_parallel(&mut self, node_id: u32, level: u8, neighbors_list: Vec<u32>)
        requires
            old(self).wf(),
            level < old(self).max_levels,
        ensures
            final(self).wf(),
            final(self).same_limits(old(self)),
            final(self).grid() == (if node_id >= old(self).grid().len() {
                old(self).grid()
            } else {
                replaced(old(self).grid(), node_id as int, level as int, neighbors_list@)
            }),
    {
        if node_id as usize >= self.neighbors.len() {
            return;
        }
        self.put(node_id as usize, level as usize, neighbors_list);
    }

    /// Elements in all lists.
    pub fn total_neighbors(&self) -> (n: usize)
        requires
            grid_total(self.grid()) <= usize::MAX,
        ensures
            n == grid_total(self.grid()),
    {
        let ghost grid = self.grid();
        let mut n: usize = 0;
        let mut i: usize = 0;
        assert(grid.take(0) =~= Seq::<Seq<Seq<u32>>>::empty());
        while i < self.neighbors.len()
            invariant
                i <= grid.len(),
                grid == self.grid(),
                grid_total(grid) <= usize::MAX,
                n == grid_total(grid.take(i as int)),
            decreases self.neighbors.len() - i,
        {
            let node: &Vec<Vec<u32>> = &self.neighbors[i];
            let ghost lists = views(node@);
            let ghost start = n as nat;
            proof {
                assert(lists == grid[i as int]);
                assert(grid.take(i + 1).drop_last() =~= grid.take(i as int));
                lemma_grid_total(grid, i + 1);
                assert(lists.take(0) =~= Seq::<Seq<u32>>::empty());
            }
            let mut l: usize = 0;
            while l < node.len()
                invariant
                    l <= node@.len(),
                    lists == views(node@),
                    start + node_total(lists) <= usize::MAX,
                    n == start + node_total(lists.take(l as int)),
                decreases node.len() - l,
            {
                proof {
                    assert(lists.take(l + 1).drop_last() =~= lists.take(l as int));
                    lemma_node_total(lists, l + 1);
                }
                n = n + node[l].len();
                l += 1;
            }
            assert(lists.take(l as int) =~= lists);
            i += 1;
        }
        assert(grid.take(i as int) =~= grid);
        n
    }
}

// ---------------------------------------------------------------------------
// Order by a breadth-first walk
// ---------------------------------------------------------------------------

/// The neighbours of a node on the `levels` lowest levels, highest level first.
pub open spec fn lists_down(grid: Seq<Seq<Seq<u32>>>, node: int, levels: nat) -> Seq<u32>
    decreases levels,
{
    if levels == 0 {
        Seq::empty()
    } else {
        list_in(grid, node, levels - 1) + lists_down(grid, node, (levels - 1) as nat)
    }
}

/// The graph that a walk follows.
pub open spec fn walk_graph(grid: Seq<Seq<Seq<u32>>>, start_level: u8) -> Seq<Seq<u32>> {
    Seq::new(grid.len(), |i: int| lists_down(grid, i, start_level as nat + 1))
}

/// Every neighbour is a node.
pub open spec fn inside(grid: Seq<Seq<Seq<u32>>>) -> bool {
    forall|i: int, l: int|
        0 <= i < grid.len() && 0 <= l < grid[i].len() ==> all_below(
            #[trigger] grid[i][l],
            grid.len(),
        )
}

/// The nodes of a list by their new places.
pub open spec fn moved(list: Seq<u32>, places: Seq<u32>) -> Seq<u32> {
    list.map_values(|id: u32| places[id as int])
}

/// The lists of a node, in which nodes are called by their new places.
pub open spec fn moved_node(lists: Seq<Seq<u32>>, places: Seq<u32>) -> Seq<Seq<u32>> {
    lists.map_values(|list: Seq<u32>| moved(list, places))
}

/// The lists in a new order of the nodes.
pub open spec fn moved_grid(
    grid: Seq<Seq<Seq<u32>>>,
    order: Seq<u32>,
    places: Seq<u32>,
) -> Seq<Seq<Seq<u32>>> {
    order.map_values(|id: u32| moved_node(grid[id as int], places))
}

proof fn lemma_lists_down(grid: Seq<Seq<Seq<u32>>>, node: int, levels: nat)
    requires
        inside(grid),
        0 <= node < grid.len(),
    ensures
        all_below(lists_down(grid, node, levels), grid.len()),
    decreases levels,
{
    if levels > 0 {
        lemma_lists_down(grid, node, (levels - 1) as nat);
        let first = list_in(grid, node, levels - 1);
        assert(all_below(first, grid.len())) by {
            if levels - 1 < grid[node].len() {
                assert(all_below(grid[node][levels - 1], grid.len()));
            }
        }
    }
}

fn move_list(list: &Vec<u32>, places: &Vec<u32>) -> (r: Vec<u32>)
    requires
        all_below(list@, places@.len()),
    ensures
        r@ == moved(list@, places@),
{
    let mut r: Vec<u32> = Vec::new();
    let mut i: usize = 0;
    while i < list.len()
        invariant
            i <= list@.len(),
            all_below(list@, places@.len()),
            r@ == moved(list@.take(i as int), places@),
        decreases list.len() - i,
    {
        assert(list@[i as int] < places@.len());
        r.push(places[list[i] as usize]);
        assert(r@ =~= moved(list@.take(i + 1), places@));
        i += 1;
    }
    assert(list@.take(i as int) =~= list@);
    r
}

fn move_node(lists: &Vec<Vec<u32>>, places: &Vec<u32>) -> (r: Vec<Vec<u32>>)
    requires
        forall|l: int| 0 <= l < lists@.len() ==> all_below(#[trigger] views(lists@)[l], places@.len()),
    ensures
        views(r@) == moved_node(views(lists@), places@),
        r@.len() == lists@.len(),
{
    let mut r: Vec<Vec<u32>> = Vec::new();
    let mut l: usize = 0;
    while l < lists.len()
        invariant
            l <= lists@.len(),
            forall|k: int|
                0 <= k < lists@.len() ==> all_below(#[trigger] views(lists@)[k], places@.len()),
            r@.len() == l,
            forall|k: int|
                0 <= k < l ==> (#[trigger] r@[k])@ == moved(views(lists@)[k], places@),
        decreases lists.len() - l,
    {
        assert(all_below(views(lists@)[l as int], places@.len()));
        r.push(move_list(&lists[l], places));
        l += 1;
    }
    assert(views(r@) =~= moved_node(views(lists@), places@));
    r
}

impl NeighborLists {
    /// The graph that a walk over these lists follows.
    fn walk_lists(&self, start_level: u8) -> (r: Vec<Vec<u32>>)
        ensures
            views(r@) == walk_graph(self.grid(), start_level),
            r@.len() == self.grid().len(),
    {
        let ghost grid = self.grid();
        let mut r: Vec<Vec<u32>> = Vec::new();
        let mut i: usize = 0;
        while i < self.neighbors.len()
            invariant
                i <= grid.len(),
                grid == self.grid(),
                r@.len() == i,
                forall|k: int|
                    0 <= k < i ==> (#[trigger] r@[k])@ == lists_down(
                        grid,
                        k,
                        start_level as nat + 1,
                    ),
            decreases self.neighbors.len() - i,
        {
            let node: &Vec<Vec<u32>> = &self.neighbors[i];
            let ghost top = start_level as nat + 1;
            let mut all: Vec<u32> = Vec::new();
            let mut levels: usize = start_level as usize + 1;
            assert(all@ + lists_down(grid, i as int, levels as nat) =~= lists_down(
                grid,
                i as int,
                top,
            ));
            while levels > 0
                invariant
                    levels <= top,
                    i < grid.len(),
                    grid == self.grid(),
                    node@ == self.neighbors@[i as int]@,
                    all@ + lists_down(grid, i as int, levels as nat) == lists_down(
                        grid,
                        i as int,
                        top,
                    ),
                decreases levels,
            {
                let ghost before = all@;
                assert(grid[i as int] == views(node@));
                if levels - 1 < node.len() {
                    all.extend_from_slice(node[levels - 1].as_slice());
                }
                proof {
                    let list = list_in(grid, i as int, levels - 1);
                    assert(all@ =~= before + list);
                    let rest = lists_down(grid, i as int, (levels - 1) as nat);
                    assert(before + (list + rest) =~= (before + list) + rest);
                }
                levels = levels - 1;
            }
            assert(all@ =~= lists_down(grid, i as int, top));
            r.push(all);
            i += 1;
        }
        assert(views(r@) =~= walk_graph(grid, start_level));
        r
    }

    /// Puts the nodes into the order of a breadth-first walk from an entry, and
    /// says where each went. The walk follows the levels from the given one
    /// down; nodes that it does not reach come last.
    pub fn reorder_bfs(&mut self, entry_point: u32, start_level: u8) -> (places: Vec<u32>)
        requires
            old(self).wf(),
            inside(old(self).grid()),
            old(self).grid().len() > 0 ==> entry_point < old(self).grid().len(),
            old(self).grid().len() <= u32::MAX,
        ensures
            final(self).wf(),
            final(self).same_limits(old(self)),
            old(self).grid().len() == 0 ==> places@.len() == 0 && final(self).grid() == old(self).grid(),
            old(self).grid().len() > 0 ==> {
                let order = walk_order(walk_graph(old(self).grid(), start_level), entry_point);
                &&& inverse(order, places@)
                &&& final(self).grid() == moved_grid(old(self).grid(), order, places@)
            },
    {
        let n: usize = self.neighbors.len();
        if n == 0 {
            return Vec::new();
        }
        let ghost grid = self.grid();
        let adjacent: Vec<Vec<u32>> = self.walk_lists(start_level);
        let ghost graph = walk_graph(grid, start_level);
        proof {
            assert forall|i: int| 0 <= i < graph.len() implies all_below(
                #[trigger] graph[i],
                graph.len(),
            ) by {
                lemma_lists_down(grid, i, start_level as nat + 1);
            }
            law_walk_order(graph, entry_point);
        }
        let order: Vec<u32> = breadth_first_order(&adjacent, entry_point);
        let places: Vec<u32> = places_of(&order);
        let mut neighbors: Vec<Vec<Vec<u32>>> = Vec::new();
        let mut i: usize = 0;
        while i < n
            invariant
                i <= n,
                n == grid.len(),
                self.grid() == grid,
                self.wf(),
                inside(grid),
                order@.len() == n,
                all_below(order@, n as nat),
                places@.len() == n,
                neighbors@.len() == i,
                forall|k: int|
                    0 <= k < i ==> views((#[trigger] neighbors@[k])@) == moved_node(
                        grid[order@[k] as int],
                        places@,
                    ) && neighbors@[k]@.len() == self.max_levels,
            decreases n - i,
        {
            assert(order@[i as int] < n);
            let old_id: usize = order[i] as usize;
            assert(views(self.neighbors@[old_id as int]@) == grid[old_id as int]);
            assert(self.neighbors@[old_id as int]@.len() == self.max_levels);
            assert forall|l: int| 0 <= l < grid[old_id as int].len() implies all_below(
                #[trigger] grid[old_id as int][l],
                n as nat,
            ) by {}
            let lists: Vec<Vec<u32>> = move_node(&self.neighbors[old_id], &places);
            neighbors.push(lists);
            i += 1;
        }
        self.neighbors = neighbors;
        assert(self.grid() =~= moved_grid(grid, order@, places@));
        places
    }
}

// ---------------------------------------------------------------------------
// Laws
// ---------------------------------------------------------------------------

/// Growing leaves the lists as they are.
proof fn lemma_grown(grid: Seq<Seq<Seq<u32>>>, max_levels: nat, n: nat)
    ensures
        forall|i: int, l: int|
            #[trigger] list_in(grown(grid, max_levels, n), i, l) == list_in(grid, i, l),
{
    assert forall|i: int, l: int|
        #[trigger] list_in(grown(grid, max_levels, n), i, l) == list_in(grid, i, l) by {
        assert(list_in(grown(grid, max_levels, n), i, l) =~= list_in(grid, i, l));
    }
}

/// What is set is read back, and no other list changes.
pub proof fn law_set_neighbors(before: &NeighborLists, after: &NeighborLists, node: u32, level: u8, list: Seq<u32>)
    requires
        before.wf(),
        level < before.max_levels,
        after.grid() == replaced(
            grown(before.grid(), before.max_levels as nat, node as nat + 1),
            node as int,
            level as int,
            list,
        ),
    ensures
        after.links(node, level) == list,
        forall|n: u32, l: u8|
            n != node || l != level ==> #[trigger] after.links(n, l) == before.links(n, l),
{
    let grid = grown(before.grid(), before.max_levels as nat, node as nat + 1);
    lemma_grown(before.grid(), before.max_levels as nat, node as nat + 1);
    assert(grid[node as int].len() == before.max_levels) by {
        if node < before.grid().len() {
            assert(before.neighbors@[node as int]@.len() == before.max_levels);
        }
    }
    assert forall|n: u32, l: u8| n != node || l != level implies #[trigger] after.links(n, l)
        == before.links(n, l) by {
        assert(list_in(grid, n as int, l as int) == list_in(before.grid(), n as int, l as int));
    }
}

/// After two different nodes were linked, each is a neighbour of the other,
/// each of them once more at most, and all other lists are as before.
pub proof fn law_bidirectional(before: &NeighborLists, after: &NeighborLists, a: u32, b: u32, level: u8)
    requires
        before.wf(),
        level < before.max_levels,
        a != b,
        after.grid() == NeighborLists::linked(
            grown(
                before.grid(),
                before.max_levels as nat,
                (if a > b {
                    a as nat
                } else {
                    b as nat
                }) + 1,
            ),
            a,
            b,
            level,
        ),
    ensures
        after.links(a, level) == joined_with(before.links(a, level), b),
        after.links(b, level) == joined_with(before.links(b, level), a),
        after.links(a, level).contains(b),
        after.links(b, level).contains(a),
        forall|n: u32, l: u8|
            l != level || (n != a && n != b) ==> #[trigger] after.links(n, l) == before.links(n, l),
{
    let n = (if a > b {
        a as nat
    } else {
        b as nat
    }) + 1;
    let grid = grown(before.grid(), before.max_levels as nat, n);
    lemma_grown(before.grid(), before.max_levels as nat, n);
    assert forall|i: int| 0 <= i < grid.len() implies (#[trigger] grid[i]).len()
        == before.max_levels by {
        if i < before.grid().len() {
            assert(before.neighbors@[i]@.len() == before.max_levels);
        }
    }
    assert(list_in(grid, a as int, level as int) == before.links(a, level));
    assert(list_in(grid, b as int, level as int) == before.links(b, level));
    assert(joined_with(before.links(a, level), b).contains(b)) by {
        let s = before.links(a, level);
        if !s.contains(b) {
            assert(s.push(b)[s.len() as int] == b);
        }
    }
    assert(joined_with(before.links(b, level), a).contains(a)) by {
        let s = before.links(b, level);
        if !s.contains(a) {
            assert(s.push(a)[s.len() as int] == a);
        }
    }
    assert forall|n: u32, l: u8| l != level || (n != a && n != b) implies #[trigger] after.links(
        n,
        l,
    ) == before.links(n, l) by {
        assert(list_in(grid, n as int, l as int) == list_in(before.grid(), n as int, l as int));
    }
}

/// After a reordering each node stands at its new place with its neighbours,
/// called by their new places, on every level.
pub proof fn law_reordered(
    before: &NeighborLists,
    after: &NeighborLists,
    order: Seq<u32>,
    places: Seq<u32>,
)
    requires
        inverse(order, places),
        order.len() == before.grid().len(),
        after.grid() == moved_grid(before.grid(), order, places),
    ensures
        after.grid().len() == before.grid().len(),
        forall|id: u32, level: u8|
            id < before.grid().len() ==> #[trigger] moved(before.links(id, level), places)
                == after.links(places[id as int], level),
{
    assert forall|id: u32, level: u8| id < before.grid().len() implies #[trigger] moved(
        before.links(id, level),
        places,
    ) == after.links(places[id as int], level) by {
        let p = places[id as int] as int;
        assert(order[p] == id);
        assert(after.grid()[p] == moved_node(before.grid()[id as int], places));
        assert(moved(before.links(id, level), places) =~= after.links(places[id as int], level));
    }
}

/// A node that was removed from a list is no longer in it, and all others
/// still are.
pub proof fn law_without(list: Seq<u32>, node: u32)
    ensures
        !without(list, node).contains(node),
        forall|x: u32|
            x != node ==> #[trigger] without(list, node).contains(x) == list.contains(x),
    decreases list.len(),
{
    let r = without(list, node);
    if list.len() > 0 {
        let front = list.drop_last();
        let last = list.last();
        law_without(front, node);
        let f = without(front, node);
        assert(!r.contains(node)) by {
            if r.contains(node) {
                let i = choose|i: int| 0 <= i < r.len() && r[i] == node;
                if i < f.len() {
                    assert(f[i] == node);
                    assert(f.contains(node));
                }
            }
        }
        assert forall|x: u32| x != node implies #[trigger] r.contains(x) == list.contains(x) by {
            assert(f.contains(x) == front.contains(x));
            if r.contains(x) {
                let i = choose|i: int| 0 <= i < r.len() && r[i] == x;
                if i < f.len() {
                    assert(f[i] == x);
                    let j = choose|j: int| 0 <= j < front.len() && front[j] == x;
                    assert(list[j] == x);
                } else {
                    assert(list[list.len() - 1] == x);
                }
            }
            if list.contains(x) {
                let i = choose|i: int| 0 <= i < list.len() && list[i] == x;
                if i < front.len() {
                    assert(front[i] == x);
                    let j = choose|j: int| 0 <= j < f.len() && f[j] == x;
                    assert(r[j] == x);
                } else {
                    assert(r[f.len() as int] == x);
                }
            }
        }
    } else {
        assert(list =~= Seq::<u32>::empty());
    }
}

} // verus!
