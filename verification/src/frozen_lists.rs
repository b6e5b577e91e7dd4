//! Neighbour lists in one array.

use vstd::prelude::*;

use crate::neighbor_lists::{
    grid_total, law_total_is_sum, list_in, lists_sum, node_total, NeighborLists,
};
use crate::reorder::views;

verus! {

/// Lists that are only read. The offsets of where the list of a node at a level
/// starts and ends stand next to each other.
#[derive(Debug, Clone)]
pub struct FrozenNeighborLists {
    pub data: Vec<u32>,
    pub offsets: Vec<u32>,
    pub max_levels: usize,
    pub num_nodes: usize,
    /// Most neighbours of a node.
    pub m_max: usize,
}

/// Where the offsets of a node at a level stand.
pub open spec fn offset_place(node: int, level: int, max_levels: int) -> int {
    (node * max_levels + level) * 2
}

proof fn lemma_place_before(i: int, l: int, node: int, level: int, max_levels: int)
    requires
        0 <= l < max_levels,
        0 <= i,
        0 <= level <= max_levels,
        i < node || (i == node && l < level),
    ensures
        0 <= offset_place(i, l, max_levels),
        offset_place(i, l, max_levels) + 2 <= offset_place(node, level, max_levels),
{
    assert(0 <= i * max_levels) by (nonlinear_arith)
        requires
            0 <= i,
            0 <= max_levels,
    ;
    if i < node {
        assert((i + 1) * max_levels <= node * max_levels) by (nonlinear_arith)
            requires
                i + 1 <= node,
                0 <= max_levels,
        ;
        assert((i + 1) * max_levels == i * max_levels + max_levels) by (nonlinear_arith);
    }
}

/// The list between two offsets, where they lie inside the array.
pub open spec fn slice_at(data: Seq<u32>, start: u32, end: u32) -> Seq<u32> {
    if end > data.len() || start > end {
        Seq::empty()
    } else {
        data.subrange(start as int, end as int)
    }
}

impl FrozenNeighborLists {
    /// There are offsets for every node and level, and at level 0 twice as many
    /// neighbours fit as above it.
    pub open spec fn wf(&self) -> bool {
        &&& self.offsets@.len() == self.num_nodes * self.max_levels * 2
        &&& self.m_max % 2 == 0
    }

    pub open spec fn links(&self, node: u32, level: u8) -> Seq<u32> {
        if node >= self.num_nodes || level >= self.max_levels {
            Seq::empty()
        } else {
            let p = offset_place(node as int, level as int, self.max_levels as int);
            slice_at(self.data@, self.offsets@[p], self.offsets@[p + 1])
        }
    }

    /// The lists are others, in one array.
    pub open spec fn freezes(&self, lists: &NeighborLists) -> bool {
        &&& self.wf()
        &&& self.num_nodes == lists.grid().len()
        &&& self.max_levels == lists.max_levels
        &&& self.m_max == lists.m_max
        &&& self.data@.len() == grid_total(lists.grid())
        &&& forall|node: u32, level: u8| #[trigger]
            self.links(node, level) == lists.links(node, level)
    }

    /// The neighbours of a node at a level.
    pub fn get_neighbors(&self, node_id: u32, level: u8) -> (r: &[u32])
        requires
            self.wf(),
        ensures
            r@ == self.links(node_id, level),
    {
        let i: usize = node_id as usize;
        let l: usize = level as usize;
        if i >= self.num_nodes || l >= self.max_levels {
            let none: &[u32] = vstd::slice::slice_subrange(self.data.as_slice(), 0, 0);
            assert(none@ =~= Seq::<u32>::empty());
            return none;
        }
        proof {
            lemma_place_before(
                i as int,
                l as int,
                self.num_nodes as int,
                0,
                self.max_levels as int,
            );
            assert(self.offsets@.len() == self.offsets.len());
            assert(0 <= i * self.max_levels) by (nonlinear_arith);
        }
        let p: usize = (i * self.max_levels + l) * 2;
        let start: usize = self.offsets[p] as usize;
        let end: usize = self.offsets[p + 1] as usize;
        if end > self.data.len() || start > end {
            let none: &[u32] = vstd::slice::slice_subrange(self.data.as_slice(), 0, 0);
            assert(none@ =~= Seq::<u32>::empty());
            return none;
        }
        vstd::slice::slice_subrange(self.data.as_slice(), start, end)
    }

    /// Hands the neighbours of a node at a level to `f`.
    pub fn with_neighbors<F: FnOnce(&[u32]) -> R, R>(&self, node_id: u32, level: u8, f: F) -> (r: R)
        requires
            self.wf(),
            forall|s: &[u32]| s@ == self.links(node_id, level) ==> #[trigger] call_requires(f, (s,)),
        ensures
            exists|s: &[u32]|
                s@ == self.links(node_id, level) && #[trigger] call_ensures(f, (s,), r),
    {
        f(self.get_neighbors(node_id, level))
    }

    pub fn num_nodes(&self) -> (n: usize)
        ensures
            n == self.num_nodes,
    {
        self.num_nodes
    }

    /// Bytes that the array and the offsets take.
    pub fn memory_usage(&self) -> (r: usize)
        requires
            self.data@.len() * 4 + self.offsets@.len() * 4 <= usize::MAX,
        ensures
            r == self.data@.len() * 4 + self.offsets@.len() * 4,
    {
        self.data.len() * 4 + self.offsets.len() * 4
    }

    pub fn m_max(&self) -> (r: usize)
        ensures
            r == self.m_max,
    {
        self.m_max
    }

    pub fn max_levels(&self) -> (r: usize)
        ensures
            r == self.max_levels,
    {
        self.max_levels
    }

    /// Elements in all lists.
    pub fn total_neighbors(&self) -> (n: usize)
        ensures
            n == self.data@.len(),
    {
        self.data.len()
    }
}

/// The offsets of a node at a level point to its list.
spec fn list_found(
    grid: Seq<Seq<Seq<u32>>>,
    data: Seq<u32>,
    offsets: Seq<u32>,
    max_levels: int,
    i: int,
    l: int,
) -> bool {
    let p = offset_place(i, l, max_levels);
    &&& offsets[p] <= offsets[p + 1] <= data.len()
    &&& data.subrange(offsets[p] as int, offsets[p + 1] as int) == list_in(grid, i, l)
}

/// The offsets before those of `node` at `level` point to the lists of a grid.
spec fn laid_out(
    grid: Seq<Seq<Seq<u32>>>,
    data: Seq<u32>,
    offsets: Seq<u32>,
    max_levels: int,
    node: int,
    level: int,
) -> bool {
    &&& offsets.len() == offset_place(node, level, max_levels)
    &&& forall|i: int, l: int|
        0 <= i && 0 <= l < max_levels && (i < node || (i == node && l < level))
            ==> #[trigger] list_found(grid, data, offsets, max_levels, i, l)
}

/// One more list is laid out.
proof fn lemma_laid_out(
    grid: Seq<Seq<Seq<u32>>>,
    data: Seq<u32>,
    offsets: Seq<u32>,
    max_levels: int,
    node: int,
    level: int,
    list: Seq<u32>,
)
    requires
        laid_out(grid, data, offsets, max_levels, node, level),
        0 <= node,
        0 <= level < max_levels,
        list == list_in(grid, node, level),
        data.len() + list.len() <= u32::MAX,
    ensures
        laid_out(
            grid,
            data + list,
            offsets.push(data.len() as u32).push((data.len() + list.len()) as u32),
            max_levels,
            node,
            level + 1,
        ),
{
    let data2 = data + list;
    let offsets2 = offsets.push(data.len() as u32).push((data.len() + list.len()) as u32);
    assert forall|i: int, l: int|
        0 <= i && 0 <= l < max_levels && (i < node || (i == node && l < level
            + 1)) implies #[trigger] list_found(grid, data2, offsets2, max_levels, i, l) by {
        let p = offset_place(i, l, max_levels);
        if i < node || l < level {
            lemma_place_before(i, l, node, level, max_levels);
            assert(list_found(grid, data, offsets, max_levels, i, l));
            assert(offsets2[p] == offsets[p] && offsets2[p + 1] == offsets[p + 1]);
            assert(data2.subrange(offsets2[p] as int, offsets2[p + 1] as int) =~= data.subrange(
                offsets[p] as int,
                offsets[p + 1] as int,
            ));
        } else {
            assert(data2.subrange(data.len() as int, data2.len() as int) =~= list);
        }
    }
}

/// All levels of a node are laid out.
proof fn lemma_next_node(
    grid: Seq<Seq<Seq<u32>>>,
    data: Seq<u32>,
    offsets: Seq<u32>,
    max_levels: int,
    node: int,
)
    requires
        laid_out(grid, data, offsets, max_levels, node, max_levels),
    ensures
        laid_out(grid, data, offsets, max_levels, node + 1, 0),
{
    assert((node + 1) * max_levels == node * max_levels + max_levels) by (nonlinear_arith);
    assert(offset_place(node, max_levels, max_levels) == offset_place(node + 1, 0, max_levels));
}

impl NeighborLists {
    /// The same lists in one array.
    pub fn freeze(&self) -> (r: FrozenNeighborLists)
        requires
            self.wf(),
            grid_total(self.grid()) <= u32::MAX,
        ensures
            r.freezes(self),
    {
        let ghost grid = self.grid();
        let ghost top = self.max_levels as int;
        let max_levels: usize = self.max_levels;
        let n: usize = self.neighbors.len();
        let mut data: Vec<u32> = Vec::new();
        let mut offsets: Vec<u32> = Vec::new();
        let mut i: usize = 0;
        assert(grid.take(0) =~= Seq::<Seq<Seq<u32>>>::empty());
        assert(offset_place(0, 0, top) == 0) by (nonlinear_arith);
        while i < n
            invariant
                i <= n,
                n == grid.len(),
                grid == self.grid(),
                self.wf(),
                top == self.max_levels,
                max_levels == self.max_levels,
                grid_total(grid) <= u32::MAX,
                data@.len() == grid_total(grid.take(i as int)),
                laid_out(grid, data@, offsets@, top, i as int, 0),
            decreases n - i,
        {
            let node: &Vec<Vec<u32>> = &self.neighbors[i];
            let ghost lists = views(node@);
            let ghost start = data@.len();
            proof {
                assert(lists == grid[i as int]);
                assert(self.neighbors@[i as int]@.len() == self.max_levels);
                assert(grid.take(i + 1).drop_last() =~= grid.take(i as int));
                crate::neighbor_lists::lemma_grid_total(grid, i + 1);
                assert(lists.take(0) =~= Seq::<Seq<u32>>::empty());
            }
            let mut l: usize = 0;
            while l < max_levels
                invariant
                    l <= max_levels,
                    max_levels == top,
                    i < grid.len(),
                    lists == views(node@),
                    lists == grid[i as int],
                    node@.len() == max_levels,
                    start + node_total(lists) <= u32::MAX,
                    data@.len() == start + node_total(lists.take(l as int)),
                    laid_out(grid, data@, offsets@, top, i as int, l as int),
                decreases max_levels - l,
            {
                let ghost before = data@;
                let ghost places = offsets@;
                proof {
                    assert(lists.take(l + 1).drop_last() =~= lists.take(l as int));
                    crate::neighbor_lists::lemma_node_total(lists, l + 1);
                }
                offsets.push(data.len() as u32);
                data.extend_from_slice(node[l].as_slice());
                offsets.push(data.len() as u32);
                proof {
                    let list = node@[l as int]@;
                    assert(list == list_in(grid, i as int, l as int));
                    assert(data@ =~= before + list);
                    lemma_laid_out(grid, before, places, top, i as int, l as int, list);
                }
                l += 1;
            }
            proof {
                assert(lists.take(l as int) =~= lists);
                lemma_next_node(grid, data@, offsets@, top, i as int);
            }
            i += 1;
        }
        assert(grid.take(i as int) =~= grid);
        let ghost (array, table) = (data@, offsets@);
        let r = FrozenNeighborLists {
            data,
            offsets,
            max_levels,
            num_nodes: n,
            m_max: self.m_max,
        };
        proof {
            assert(offset_place(n as int, 0, top) == n * top * 2) by (nonlinear_arith)
                requires
                    offset_place(n as int, 0, top) == (n as int * top + 0) * 2,
            ;
            assert forall|node: u32, level: u8| #[trigger] r.links(node, level) == self.links(
                node,
                level,
            ) by {
                if node < n && level < max_levels {
                    assert(list_found(grid, array, table, top, node as int, level as int));
                } else if node < n {
                    assert(self.neighbors@[node as int]@.len() == self.max_levels);
                }
            }
        }
        r
    }
}

/// Frozen lists count as many neighbours as the lists that they were made of:
/// the sum of the lengths of all lists.
pub proof fn law_frozen_total_is_sum(lists: &NeighborLists, frozen: &FrozenNeighborLists)
    requires
        lists.wf(),
        lists.max_levels <= 256,
        lists.grid().len() <= u32::MAX + 1,
        frozen.freezes(lists),
    ensures
        frozen.data@.len() == grid_total(lists.grid()),
        frozen.data@.len() == lists_sum(
            |n: u32, l: u8| frozen.links(n, l),
            frozen.num_nodes as nat,
            frozen.max_levels as nat,
        ),
{
    law_total_is_sum(lists);
    assert((|n: u32, l: u8| frozen.links(n, l)) =~= (|n: u32, l: u8| lists.links(n, l)));
}

} // verus!
