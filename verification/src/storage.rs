//! Unified flat storage of an index.
//!
//! Two contiguous matrices: one row of components per vector, and one row of
//! link lists per node. A row of links is made of one slot per level, and a
//! slot of a count followed by room for that many links; level 0 has the wider
//! slot.

use vstd::prelude::*;

use crate::graph::GraphStore;
use crate::node_storage::quantization::Quantization;

verus! {

/// Flat matrix of vectors, one row per node.
#[derive(Debug)]
pub struct VectorMatrix {
    pub data: Vec<u32>,
    pub dim: usize,
}

/// The components of row `id` in a matrix with rows of length `dim`.
pub open spec fn matrix_row(data: Seq<u32>, dim: nat, id: int) -> Seq<u32> {
    data.subrange(id * dim, id * dim + dim)
}

pub proof fn lemma_row_bounds(id: int, rows: int, width: int)
    requires
        0 <= id < rows,
        width >= 0,
    ensures
        0 <= id * width,
        id * width + width <= rows * width,
        (id + 1) * width == id * width + width,
{
    assert((id + 1) * width == id * width + width) by (nonlinear_arith);
    assert(0 <= id * width) by (nonlinear_arith)
        requires
            0 <= id,
            width >= 0,
    ;
    assert((id + 1) * width <= rows * width) by (nonlinear_arith)
        requires
            id + 1 <= rows,
            width >= 0,
    ;
}

/// Rows of different nodes do not overlap.
pub proof fn lemma_rows_apart(a: int, b: int, width: int)
    requires
        0 <= a < b,
        width >= 0,
    ensures
        a * width + width <= b * width,
{
    lemma_row_bounds(a, b, width);
}

impl VectorMatrix {
    /// Number of rows.
    pub open spec fn rows(&self) -> int {
        self.data@.len() as int / self.dim as int
    }

    /// The data consists of whole rows.
    pub open spec fn wf(&self) -> bool {
        if self.dim == 0 {
            self.data@.len() == 0
        } else {
            self.data@.len() == self.rows() * self.dim
        }
    }

    pub fn new(dim: usize) -> (r: Self)
        ensures
            r.wf(),
            r.dim == dim,
            r.data@ == Seq::<u32>::empty(),
    {
        let r = VectorMatrix { data: Vec::new(), dim };
        proof {
            if dim > 0 {
                assert(0int / (dim as int) == 0) by (nonlinear_arith)
                    requires
                        dim > 0,
                ;
            }
        }
        r
    }

    pub fn with_capacity(num_nodes: usize, dim: usize) -> (r: Self)
        requires
            num_nodes * dim <= usize::MAX,
        ensures
            r.wf(),
            r.dim == dim,
            r.data@ == Seq::<u32>::empty(),
    {
        let room: usize = num_nodes * dim;
        let r = VectorMatrix { data: Vec::with_capacity(room), dim };
        proof {
            if dim > 0 {
                assert(0int / (dim as int) == 0) by (nonlinear_arith)
                    requires
                        dim > 0,
                ;
            }
        }
        r
    }

    /// The vector of a node.
    pub fn get(&self, id: u32) -> (v: &[u32])
        requires
            id * self.dim + self.dim <= self.data@.len(),
        ensures
            v@ == matrix_row(self.data@, self.dim as nat, id as int),
    {
        assert(0 <= id * self.dim) by (nonlinear_arith);
        assert(self.data@.len() == self.data.len());
        let base: usize = id as usize * self.dim;
        vstd::slice::slice_subrange(self.data.as_slice(), base, base + self.dim)
    }

    /// Appends a row and returns its id.
    pub fn add(&mut self, vector: &[u32]) -> (id: u32)
        requires
            old(self).wf(),
            old(self).dim > 0,
            vector@.len() == old(self).dim,
            old(self).rows() <= u32::MAX,
        ensures
            final(self).wf(),
            final(self).dim == old(self).dim,
            final(self).rows() == old(self).rows() + 1,
            id == old(self).rows(),
            final(self).data@ == old(self).data@ + vector@,
    {
        let id: u32 = (self.data.len() / self.dim) as u32;
        self.data.extend_from_slice(vector);
        proof {
            let dim = self.dim as int;
            let rows = old(self).rows();
            let before = old(self).data@.len() as int;
            let after = self.data@.len() as int;
            assert(self.data@ =~= old(self).data@ + vector@);
            assert(after == (rows + 1) * dim) by (nonlinear_arith)
                requires
                    after == before + dim,
                    before == rows * dim,
            ;
            assert(((rows + 1) * dim) / dim == rows + 1) by (nonlinear_arith)
                requires
                    dim > 0,
            ;
        }
        id
    }
}

/// Flat matrix of link lists, one row per node.
#[derive(Debug)]
pub struct NeighborMatrix {
    /// Rows with a wider level-0 slot and compact upper levels.
    pub data: Vec<u32>,
    pub stride: usize,
    pub m: usize,
    pub m0: usize,
    pub max_levels: usize,
    /// Number of rows.
    pub nodes: usize,
}

impl NeighborMatrix {
    /// Length of the slot of a level, its count included.
    pub open spec fn slot_len(&self, level: u8) -> int {
        if level == 0 { self.m0 + 1 } else { self.m + 1 }
    }

    /// Where the slot of a level starts in a row.
    pub open spec fn slot_start(&self, level: u8) -> int {
        if level == 0 { 0 } else { (self.m0 + 1) + (level - 1) * (self.m + 1) }
    }

    /// Where the slot of a node at a level starts.
    pub open spec fn slot(&self, id: int, level: u8) -> int {
        id * self.stride + self.slot_start(level)
    }

    pub open spec fn wf(&self) -> bool {
        &&& self.m0 == self.m * 2
        &&& self.m0 <= u32::MAX
        &&& self.stride == (self.m0 + 1) + self.max_levels * (self.m + 1)
        &&& self.data@.len() == self.nodes * self.stride
    }

    /// The links of a node at a level.
    pub open spec fn links(&self, id: u32, level: u8) -> Seq<u32> {
        if id >= self.nodes || level > self.max_levels {
            Seq::empty()
        } else {
            slot_links(self.data@, self.slot(id as int, level), self.slot_len(level))
        }
    }

    pub fn new(max_levels: usize, m: usize) -> (r: Self)
        requires
            m * 2 <= u32::MAX,
            (m * 2 + 1) + max_levels * (m + 1) <= usize::MAX,
        ensures
            r.wf(),
            r.m == m,
            r.max_levels == max_levels,
            r.nodes == 0,
    {
        let m0: usize = m * 2;
        assert(0 <= max_levels * (m + 1)) by (nonlinear_arith);
        let stride: usize = (m0 + 1) + max_levels * (m + 1);
        NeighborMatrix { data: Vec::new(), stride, m, m0, max_levels, nodes: 0 }
    }

    fn level_capacity(&self, level: u8) -> (r: usize)
        requires
            self.wf(),
        ensures
            r == self.slot_len(level),
    {
        if level == 0 { self.m0 + 1 } else { self.m + 1 }
    }

    fn level_offset(&self, level: u8) -> (r: usize)
        requires
            self.wf(),
            level <= self.max_levels,
        ensures
            r == self.slot_start(level),
            r + self.slot_len(level) <= self.stride,
    {
        proof {
            self.lemma_slot_in_row(level);
        }
        if level == 0 {
            0
        } else {
            assert(0 <= (level - 1) * (self.m + 1)) by (nonlinear_arith)
                requires
                    level >= 1,
            ;
            (self.m0 + 1) + (level as usize - 1) * (self.m + 1)
        }
    }

    proof fn lemma_slot_in_row(&self, level: u8)
        requires
            self.wf(),
            level <= self.max_levels,
        ensures
            0 <= self.slot_start(level),
            self.slot_start(level) + self.slot_len(level) <= self.stride,
    {
        let width = self.m + 1;
        assert(0 <= self.max_levels * width) by (nonlinear_arith)
            requires
                width >= 0,
        ;
        if level > 0 {
            lemma_row_bounds(level - 1, self.max_levels as int, width);
        }
    }

    /// The slot of a node at a level lies within the data.
    proof fn lemma_slot(&self, id: int, level: u8)
        requires
            self.wf(),
            0 <= id < self.nodes,
            level <= self.max_levels,
        ensures
            0 <= self.slot(id, level),
            self.slot(id, level) + self.slot_len(level) <= self.data@.len(),
            self.slot_len(level) >= 1,
            0 <= id * self.stride <= self.slot(id, level),
    {
        self.lemma_slot_in_row(level);
        lemma_row_bounds(id, self.nodes as int, self.stride as int);
    }

    /// The slots of two different nodes or levels do not overlap.
    proof fn lemma_slots_apart(&self, id: int, level: u8, id2: int, level2: u8)
        requires
            self.wf(),
            0 <= id < self.nodes,
            0 <= id2 < self.nodes,
            level <= self.max_levels,
            level2 <= self.max_levels,
            id != id2 || level != level2,
        ensures
            self.slot(id, level) + self.slot_len(level) <= self.slot(id2, level2) || self.slot(
                id2,
                level2,
            ) + self.slot_len(level2) <= self.slot(id, level),
    {
        self.lemma_slot_in_row(level);
        self.lemma_slot_in_row(level2);
        if id < id2 {
            lemma_rows_apart(id, id2, self.stride as int);
        } else if id2 < id {
            lemma_rows_apart(id2, id, self.stride as int);
        } else {
            let width = self.m + 1;
            if level > 0 && level2 > 0 {
                if level < level2 {
                    lemma_rows_apart(level - 1, level2 - 1, width);
                } else {
                    lemma_rows_apart(level2 - 1, level - 1, width);
                }
            } else if level == 0 {
                lemma_row_bounds(level2 - 1, level2 as int, width);
            } else {
                lemma_row_bounds(level - 1, level as int, width);
            }
        }
    }

    /// Makes room for the given number of nodes. New nodes have no links.
    pub fn ensure_capacity(&mut self, num_nodes: usize)
        requires
            old(self).wf(),
            num_nodes * old(self).stride <= usize::MAX,
        ensures
            final(self).wf(),
            final(self).m == old(self).m,
            final(self).max_levels == old(self).max_levels,
            final(self).nodes == (if num_nodes > old(self).nodes {
                num_nodes
            } else {
                old(self).nodes
            }),
            forall|id: u32, level: u8|
                #[trigger] final(self).links(id, level) == old(self).links(id, level),
    {
        if self.nodes < num_nodes {
            let old_len: usize = self.data.len();
            proof {
                lemma_row_bounds(0, num_nodes as int, self.stride as int);
            }
            let new_len: usize = num_nodes * self.stride;
            assert(old_len <= new_len) by (nonlinear_arith)
                requires
                    old_len == self.nodes * self.stride,
                    new_len == num_nodes * self.stride,
                    self.nodes <= num_nodes,
            ;
            let ghost before = self.data@;
            self.data.resize(new_len, 0);
            proof {
                if new_len > old_len {
                    crate::visited::lemma_grown(before, self.data@, 0u32);
                } else {
                    assert(self.data@ =~= before);
                }
            }
            self.nodes = num_nodes;
            proof {
                assert forall|id: u32, level: u8| #[trigger]
                    self.links(id, level) == old(self).links(id, level) by {
                    if id < num_nodes && level <= self.max_levels {
                        self.lemma_slot(id as int, level);
                        let start = self.slot(id as int, level);
                        if id < old(self).nodes {
                            old(self).lemma_slot(id as int, level);
                            assert(self.links(id, level) =~= old(self).links(id, level));
                        } else {
                            if id > old(self).nodes {
                                lemma_rows_apart(
                                    old(self).nodes as int,
                                    id as int,
                                    self.stride as int,
                                );
                            }
                            assert(self.data@[start] == 0u32);
                            assert(self.links(id, level) =~= Seq::<u32>::empty());
                        }
                    }
                }
            }
        }
    }

    /// The links of a node at a level; none where there is no such node or
    /// level.
    pub fn get_neighbors(&self, node_id: u32, level: u8) -> (links: Vec<u32>)
        requires
            self.wf(),
        ensures
            links@ == self.links(node_id, level),
    {
        let index: usize = node_id as usize;
        if index >= self.nodes || level as usize > self.max_levels {
            return Vec::new();
        }
        proof {
            self.lemma_slot(node_id as int, level);
            assert(self.data@.len() == self.data.len());
        }
        let capacity: usize = self.level_capacity(level);
        let base: usize = index * self.stride + self.level_offset(level);
        let count: usize = self.data[base] as usize;
        let n: usize = if count < capacity - 1 { count } else { capacity - 1 };
        let slice: &[u32] = vstd::slice::slice_subrange(
            self.data.as_slice(),
            base + 1,
            base + 1 + n,
        );
        let links: Vec<u32> = slice_to_vec(slice);
        links
    }

    /// Hands the links of a node at a level to `f`.
    pub fn with_neighbors<R, F: FnOnce(&[u32]) -> R>(&self, node_id: u32, level: u8, f: F) -> (r: R)
        requires
            self.wf(),
            forall|s: &[u32]| s@ == self.links(node_id, level) ==> #[trigger] call_requires(f, (s,)),
        ensures
            exists|s: &[u32]| s@ == self.links(node_id, level) && #[trigger] call_ensures(f, (s,), r),
    {
        let links: Vec<u32> = self.get_neighbors(node_id, level);
        f(links.as_slice())
    }

    /// Replaces the links of a node at a level, as many as there is room for.
    pub fn set_neighbors(&mut self, node_id: u32, level: u8, neighbors: &[u32])
        requires
            old(self).wf(),
            node_id < old(self).nodes,
            level <= old(self).max_levels,
        ensures
            final(self).wf(),
            final(self).m == old(self).m,
            final(self).max_levels == old(self).max_levels,
            final(self).stride == old(self).stride,
            final(self).nodes == old(self).nodes,
            forall|id: u32, l: u8| #[trigger]
                final(self).links(id, l) == (if id == node_id && l == level {
                    clamped(neighbors@, old(self).slot_len(level) - 1)
                } else {
                    old(self).links(id, l)
                }),
    {
        proof {
            self.lemma_slot(node_id as int, level);
            assert(self.data@.len() == self.data.len());
        }
        let capacity: usize = self.level_capacity(level);
        let base: usize = node_id as usize * self.stride + self.level_offset(level);
        let n: usize = if neighbors.len() < capacity - 1 {
            neighbors.len()
        } else {
            capacity - 1
        };
        let mut i: usize = 0;
        while i < n
            invariant
                i <= n <= neighbors@.len(),
                n < capacity,
                base + capacity <= self.data@.len(),
                base + capacity <= usize::MAX,
                self.data@.len() == old(self).data@.len(),
                self.stride == old(self).stride,
                self.m == old(self).m,
                self.m0 == old(self).m0,
                self.max_levels == old(self).max_levels,
                self.nodes == old(self).nodes,
                forall|j: int| 0 <= j < i ==> #[trigger] self.data@[base + 1 + j] == neighbors@[j],
                forall|j: int|
                    0 <= j < self.data@.len() && !(base <= j < base + capacity)
                        ==> #[trigger] self.data@[j] == old(self).data@[j],
            decreases n - i,
        {
            self.data.set(base + 1 + i, neighbors[i]);
            i += 1;
        }
        let ghost written = self.data@;
        self.data.set(base, n as u32);
        proof {
            assert(base == old(self).slot(node_id as int, level));
            assert forall|id: u32, l: u8| #[trigger]
                self.links(id, l) == (if id == node_id && l == level {
                    clamped(neighbors@, old(self).slot_len(level) - 1)
                } else {
                    old(self).links(id, l)
                }) by {
                if id == node_id && l == level {
                    assert forall|j: int| 0 <= j < n implies #[trigger] self.links(id, l)[j]
                        == neighbors@[j] by {
                        assert(self.data@[base + 1 + j] == written[base + 1 + j]);
                    }
                    assert(self.links(id, l) =~= clamped(
                        neighbors@,
                        old(self).slot_len(level) - 1,
                    ));
                } else if id < self.nodes && l <= self.max_levels {
                    self.lemma_slot(id as int, l);
                    old(self).lemma_slots_apart(node_id as int, level, id as int, l);
                    assert(self.links(id, l) =~= old(self).links(id, l));
                }
            }
        }
    }

    /// Replaces the links of a node at a level by what `f` makes of them; does
    /// nothing where there is no such node or level.
    pub fn update_neighbors<F: FnOnce(Vec<u32>) -> Vec<u32>>(
        &mut self,
        node_id: u32,
        level: u8,
        f: F,
    )
        requires
            old(self).wf(),
            forall|v: Vec<u32>|
                v@ == old(self).links(node_id, level) ==> #[trigger] call_requires(f, (v,)),
        ensures
            final(self).wf(),
            final(self).m == old(self).m,
            final(self).max_levels == old(self).max_levels,
            final(self).nodes == old(self).nodes,
            node_id >= old(self).nodes || level > old(self).max_levels ==> *final(self) == *old(
                self,
            ),
            node_id < old(self).nodes && level <= old(self).max_levels ==> exists|
                v: Vec<u32>,
                w: Vec<u32>,
            |
                {
                    &&& v@ == old(self).links(node_id, level)
                    &&& #[trigger] call_ensures(f, (v,), w)
                    &&& final(self).links(node_id, level) == clamped(
                        w@,
                        old(self).slot_len(level) - 1,
                    )
                },
            forall|id: u32, l: u8|
                id != node_id || l != level ==> #[trigger] final(self).links(id, l) == old(
                    self,
                ).links(id, l),
    {
        if node_id as usize >= self.nodes || level as usize > self.max_levels {
            return;
        }
        let links: Vec<u32> = self.get_neighbors(node_id, level);
        let updated: Vec<u32> = f(links);
        self.set_neighbors(node_id, level, updated.as_slice());
    }

    /// Whether a node is linked to another one at a level.
    pub fn contains_neighbor(&self, node_id: u32, level: u8, neighbor: u32) -> (r: bool)
        requires
            self.wf(),
        ensures
            r == self.links(node_id, level).contains(neighbor),
    {
        let links: Vec<u32> = self.get_neighbors(node_id, level);
        contains(links.as_slice(), neighbor)
    }
}

/// The links in the slot that starts at `start`: as many as its count says, and
/// no more than it has room for.
pub open spec fn slot_links(data: Seq<u32>, start: int, len: int) -> Seq<u32> {
    let count = if data[start] < len - 1 { data[start] as int } else { len - 1 };
    data.subrange(start + 1, start + 1 + count)
}

/// The first `room` links.
pub open spec fn clamped(links: Seq<u32>, room: int) -> Seq<u32> {
    if links.len() <= room { links } else { links.take(room) }
}

/// Copies a slice.
pub fn slice_to_vec(slice: &[u32]) -> (v: Vec<u32>)
    ensures
        v@ == slice@,
{
    let mut v: Vec<u32> = Vec::new();
    v.extend_from_slice(slice);
    assert(v@ =~= slice@);
    v
}

/// Whether a list holds an id.
pub fn contains(list: &[u32], id: u32) -> (r: bool)
    ensures
        r == list@.contains(id),
{
    let mut i: usize = 0;
    while i < list.len()
        invariant
            i <= list@.len(),
            forall|j: int| 0 <= j < i ==> list@[j] != id,
        decreases list.len() - i,
    {
        if list[i] == id {
            assert(list@[i as int] == id);
            return true;
        }
        i += 1;
    }
    false
}

/// Storage of an index: vectors, links, and the level of each node.
#[derive(Debug)]
pub struct HNSWStorage {
    pub vectors: VectorMatrix,
    pub neighbors: NeighborMatrix,
    /// Level assigned to each node.
    pub max_levels: Vec<u8>,
}

impl HNSWStorage {
    /// There is a vector and a row of links for every node.
    pub open spec fn wf(&self) -> bool {
        &&& self.vectors.wf()
        &&& self.vectors.dim > 0 ==> self.vectors.rows() == self.max_levels@.len()
        &&& self.vectors.dim == 0 ==> self.max_levels@.len() == 0
        &&& self.neighbors.wf()
        &&& self.neighbors.nodes >= self.max_levels@.len()
        &&& self.max_levels@.len() <= u32::MAX + 1
        &&& forall|id: u32, level: u8|
            id >= self.max_levels@.len() ==> #[trigger] self.neighbors.links(id, level)
                == Seq::<u32>::empty()
    }

    pub fn new(dim: usize, max_levels: usize, m: usize) -> (r: Self)
        requires
            m * 2 <= u32::MAX,
            (m * 2 + 1) + max_levels * (m + 1) <= usize::MAX,
        ensures
            r.wf(),
            r.vectors.dim == dim,
            r.neighbors.nodes == 0,
            r.neighbors.m == m,
            r.neighbors.max_levels == max_levels,
            r.max_levels@.len() == 0,
    {
        let vectors = VectorMatrix::new(dim);
        proof {
            if dim > 0 {
                assert(0int / (dim as int) == 0) by (nonlinear_arith)
                    requires
                        dim > 0,
                ;
            }
        }
        HNSWStorage {
            vectors,
            neighbors: NeighborMatrix::new(max_levels, m),
            max_levels: Vec::new(),
        }
    }

    pub fn with_capacity(dim: usize, max_levels: usize, m: usize, num_nodes: usize) -> (r: Self)
        requires
            m * 2 <= u32::MAX,
            (m * 2 + 1) + max_levels * (m + 1) <= usize::MAX,
            num_nodes * dim <= usize::MAX,
            num_nodes * ((m * 2 + 1) + max_levels * (m + 1)) <= usize::MAX,
        ensures
            r.wf(),
            r.vectors.dim == dim,
            r.neighbors.m == m,
            r.neighbors.max_levels == max_levels,
            r.neighbors.nodes == num_nodes,
            r.max_levels@.len() == 0,
            forall|id: u32, level: u8| #[trigger]
                r.neighbors.links(id, level) == Seq::<u32>::empty(),
    {
        let mut neighbors = NeighborMatrix::new(max_levels, m);
        let ghost before = neighbors;
        neighbors.ensure_capacity(num_nodes);
        let vectors = VectorMatrix::with_capacity(num_nodes, dim);
        proof {
            if dim > 0 {
                assert(0int / (dim as int) == 0) by (nonlinear_arith)
                    requires
                        dim > 0,
                ;
            }
            assert forall|id: u32, level: u8| #[trigger]
                neighbors.links(id, level) == Seq::<u32>::empty() by {
                assert(before.links(id, level) == Seq::<u32>::empty());
            }
        }
        HNSWStorage { vectors, neighbors, max_levels: Vec::with_capacity(num_nodes) }
    }

    proof fn lemma_vector(&self, id: int)
        requires
            self.wf(),
            0 <= id < self.max_levels@.len(),
        ensures
            0 <= id * self.vectors.dim,
            id * self.vectors.dim + self.vectors.dim <= self.vectors.data@.len(),
    {
        lemma_row_bounds(id, self.max_levels@.len() as int, self.vectors.dim as int);
    }

    /// The vector of a node.
    pub fn vector(&self, id: u32) -> (v: &[u32])
        requires
            self.wf(),
            id < self.max_levels@.len(),
        ensures
            v@ == matrix_row(self.vectors.data@, self.vectors.dim as nat, id as int),
            v@.len() == self.vectors.dim,
    {
        proof {
            self.lemma_vector(id as int);
        }
        self.vectors.get(id)
    }

    /// Hands the links of a node at a level to `f`.
    pub fn with_neighbors<R, F: FnOnce(&[u32]) -> R>(&self, id: u32, level: u8, f: F) -> (r: R)
        requires
            self.wf(),
            forall|s: &[u32]|
                s@ == self.neighbors.links(id, level) ==> #[trigger] call_requires(f, (s,)),
        ensures
            exists|s: &[u32]|
                s@ == self.neighbors.links(id, level) && #[trigger] call_ensures(f, (s,), r),
    {
        self.neighbors.with_neighbors(id, level, f)
    }

    /// Adds a node without links and returns its id.
    pub fn add_node(&mut self, vector: &[u32], max_level: u8) -> (id: u32)
        requires
            old(self).wf(),
            old(self).vectors.dim > 0,
            vector@.len() == old(self).vectors.dim,
            old(self).max_levels@.len() <= u32::MAX,
            (old(self).max_levels@.len() + 1) * old(self).neighbors.stride <= usize::MAX,
        ensures
            final(self).wf(),
            id == old(self).max_levels@.len(),
            final(self).max_levels@ == old(self).max_levels@.push(max_level),
            final(self).vectors.dim == old(self).vectors.dim,
            final(self).vectors.data@ == old(self).vectors.data@ + vector@,
            final(self).neighbors.m == old(self).neighbors.m,
            final(self).neighbors.max_levels == old(self).neighbors.max_levels,
            forall|i: u32, level: u8| #[trigger]
                final(self).neighbors.links(i, level) == (if i < id {
                    old(self).neighbors.links(i, level)
                } else {
                    Seq::<u32>::empty()
                }),
            forall|i: u32|
                i < old(self).max_levels@.len() ==> #[trigger] matrix_row(
                    final(self).vectors.data@,
                    old(self).vectors.dim as nat,
                    i as int,
                ) == matrix_row(old(self).vectors.data@, old(self).vectors.dim as nat, i as int),
            matrix_row(final(self).vectors.data@, old(self).vectors.dim as nat, id as int)
                == vector@,
    {
        let id: u32 = self.vectors.add(vector);
        assert(id as usize + 1 <= usize::MAX) by {
            let stride = self.neighbors.stride;
            assert((id + 1) * stride >= id + 1) by (nonlinear_arith)
                requires
                    stride >= 1,
            ;
        }
        self.neighbors.ensure_capacity(id as usize + 1);
        self.max_levels.push(max_level);
        proof {
            let dim = self.vectors.dim as nat;
            assert forall|i: u32| i < old(self).max_levels@.len() implies #[trigger] matrix_row(
                self.vectors.data@,
                dim,
                i as int,
            ) == matrix_row(old(self).vectors.data@, dim, i as int) by {
                old(self).lemma_vector(i as int);
                assert(matrix_row(self.vectors.data@, dim, i as int) =~= matrix_row(
                    old(self).vectors.data@,
                    dim,
                    i as int,
                ));
            }
            assert(matrix_row(self.vectors.data@, dim, id as int) =~= vector@);
        }
        id
    }

    /// The level assigned to a node.
    pub fn get_node_level(&self, id: u32) -> (level: u8)
        requires
            id < self.max_levels@.len(),
        ensures
            level == self.max_levels@[id as int],
    {
        self.max_levels[id as usize]
    }

    /// The level assigned to a node.
    pub fn level(&self, id: u32) -> (level: u8)
        requires
            id < self.max_levels@.len(),
        ensures
            level == self.max_levels@[id as int],
    {
        self.get_node_level(id)
    }

    /// Flat storage keeps the order of its nodes: every id stays what it is.
    pub fn reorder_bfs(&mut self, _entry: u32, _max_level: u8) -> (r: Vec<u32>)
        requires
            old(self).max_levels@.len() <= u32::MAX,
        ensures
            *final(self) == *old(self),
            r@ == Seq::new(old(self).max_levels@.len(), |i: int| i as u32),
    {
        let n: usize = self.max_levels.len();
        let mut r: Vec<u32> = Vec::new();
        let mut i: u32 = 0;
        while (i as usize) < n
            invariant
                i <= n <= u32::MAX,
                r@.len() == i,
                forall|j: int| 0 <= j < i ==> #[trigger] r@[j] == j,
            decreases n - i,
        {
            r.push(i);
            i += 1;
        }
        assert(r@ =~= Seq::new(n as nat, |i: int| i as u32));
        r
    }

    /// Bytes taken by the matrices, the levels, and 64 for the state of each
    /// row of links.
    pub open spec fn memory(&self) -> int {
        self.vectors.data@.len() * 4 + self.neighbors.data@.len() * 4 + self.max_levels@.len()
            + self.neighbors.nodes * 64
    }

    pub fn memory_usage(&self) -> (r: usize)
        requires
            self.memory() <= usize::MAX,
        ensures
            r == self.memory(),
    {
        self.vectors.data.len() * 4 + self.neighbors.data.len() * 4 + self.max_levels.len()
            + self.neighbors.nodes * 64
    }

    /// Another storage holds the same.
    pub open spec fn copied(&self, other: &Self) -> bool {
        &&& self.vectors.data@ == other.vectors.data@
        &&& self.vectors.dim == other.vectors.dim
        &&& self.neighbors.data@ == other.neighbors.data@
        &&& self.neighbors.stride == other.neighbors.stride
        &&& self.neighbors.m == other.neighbors.m
        &&& self.neighbors.m0 == other.neighbors.m0
        &&& self.neighbors.max_levels == other.neighbors.max_levels
        &&& self.neighbors.nodes == other.neighbors.nodes
        &&& self.max_levels@ == other.max_levels@
    }

    pub fn copy(&self) -> (r: Self)
        ensures
            self.copied(&r),
    {
        let mut max_levels: Vec<u8> = Vec::new();
        max_levels.extend_from_slice(self.max_levels.as_slice());
        assert(max_levels@ =~= self.max_levels@);
        HNSWStorage {
            vectors: VectorMatrix {
                data: slice_to_vec(self.vectors.data.as_slice()),
                dim: self.vectors.dim,
            },
            neighbors: NeighborMatrix {
                data: slice_to_vec(self.neighbors.data.as_slice()),
                stride: self.neighbors.stride,
                m: self.neighbors.m,
                m0: self.neighbors.m0,
                max_levels: self.neighbors.max_levels,
                nodes: self.neighbors.nodes,
            },
            max_levels,
        }
    }

    pub fn len(&self) -> (n: usize)
        ensures
            n == self.max_levels@.len(),
    {
        self.max_levels.len()
    }

    pub fn is_empty(&self) -> (r: bool)
        ensures
            r == (self.max_levels@.len() == 0),
    {
        self.len() == 0
    }
}

/// The product of two sizes, which may be more than a size.
fn wide_product(a: usize, b: usize) -> (r: u128)
    ensures
        r == a * b,
{
    assert(0 <= a * b <= 0xffff_ffff_ffff_ffff * 0xffff_ffff_ffff_ffff) by (nonlinear_arith)
        requires
            0 <= a <= 0xffff_ffff_ffff_ffff,
            0 <= b <= 0xffff_ffff_ffff_ffff,
    ;
    a as u128 * b as u128
}

impl VectorMatrix {
    /// Whether the data consists of whole rows.
    fn is_well_formed(&self) -> (r: bool)
        ensures
            r == self.wf(),
    {
        if self.dim == 0 {
            return self.data.len() == 0;
        }
        let rows: usize = self.data.len() / self.dim;
        wide_product(rows, self.dim) == self.data.len() as u128
    }
}

impl NeighborMatrix {
    /// Whether the sizes agree with each other.
    fn is_well_formed(&self) -> (r: bool)
        ensures
            r == self.wf(),
    {
        if self.m0 as u128 != self.m as u128 * 2 || self.m0 as u64 > u32::MAX as u64 {
            return false;
        }
        let upper: u128 = wide_product(self.max_levels, self.m + 1);
        proof {
            let a = self.max_levels as int;
            let b = self.m + 1;
            assert(a * b <= 0xffff_ffff_ffff_ffff * 0x1_0000_0000) by (nonlinear_arith)
                requires
                    0 <= a <= 0xffff_ffff_ffff_ffff,
                    0 <= b <= 0x1_0000_0000,
            ;
        }
        if self.stride as u128 != (self.m0 as u128 + 1) + upper {
            return false;
        }
        self.data.len() as u128 == wide_product(self.nodes, self.stride)
    }
}

impl HNSWStorage {
    /// Whether the storage is well-formed: matrices of whole rows, enough of
    /// them, and no links of nodes that do not exist.
    pub fn is_well_formed(&self) -> (r: bool)
        ensures
            r == self.wf(),
    {
        let count: usize = self.max_levels.len();
        if !self.vectors.is_well_formed() || !self.neighbors.is_well_formed() {
            return false;
        }
        if self.vectors.dim == 0 {
            if count != 0 {
                return false;
            }
        } else if self.vectors.data.len() / self.vectors.dim != count {
            return false;
        }
        if self.neighbors.nodes < count || count as u64 > 0x1_0000_0000 {
            return false;
        }
        let top: u8 = if self.neighbors.max_levels <= 255 {
            self.neighbors.max_levels as u8
        } else {
            255
        };
        let mut id: usize = count;
        while id < self.neighbors.nodes && id as u64 <= u32::MAX as u64
            invariant
                count <= id,
                self.neighbors.wf(),
                top == (if self.neighbors.max_levels <= 255 {
                    self.neighbors.max_levels as int
                } else {
                    255
                }),
                forall|i: u32, l: u8|
                    count <= i < id ==> #[trigger] self.neighbors.links(i, l)
                        == Seq::<u32>::empty(),
                count == self.max_levels@.len(),
            decreases self.neighbors.nodes - id,
        {
            let mut level: u8 = 0;
            loop
                invariant
                    level <= top,
                    id < self.neighbors.nodes,
                    id <= u32::MAX,
                    count <= id,
                    count == self.max_levels@.len(),
                    self.neighbors.wf(),
                    forall|l: u8|
                        l < level ==> #[trigger] self.neighbors.links(id as u32, l) == Seq::<
                            u32,
                        >::empty(),
                ensures
                    forall|l: u8|
                        l <= top ==> #[trigger] self.neighbors.links(id as u32, l) == Seq::<
                            u32,
                        >::empty(),
                decreases top - level,
            {
                let links: Vec<u32> = self.neighbors.get_neighbors(id as u32, level);
                if links.len() > 0 {
                    assert(self.neighbors.links(id as u32, level) != Seq::<u32>::empty());
                    return false;
                }
                assert(links@ =~= Seq::<u32>::empty());
                if level == top {
                    break;
                }
                level = level + 1;
            }
            proof {
                assert forall|i: u32, l: u8| count <= i < id + 1 implies #[trigger] self.neighbors.links(
                    i,
                    l,
                ) == Seq::<u32>::empty() by {
                    if i == id && l <= top {
                        assert(self.neighbors.links(id as u32, l) == Seq::<u32>::empty());
                    }
                }
            }
            id += 1;
        }
        proof {
            assert forall|i: u32, l: u8| i >= count implies #[trigger] self.neighbors.links(i, l)
                == Seq::<u32>::empty() by {
                if i < self.neighbors.nodes {
                    assert(i < id);
                }
            }
        }
        true
    }
}

impl GraphStore for HNSWStorage {
    open spec fn store_wf(&self) -> bool {
        self.wf()
    }

    open spec fn node_count(&self) -> nat {
        self.max_levels@.len()
    }

    open spec fn dim(&self) -> nat {
        self.vectors.dim as nat
    }

    open spec fn vector_at(&self, id: u32) -> Seq<u32> {
        matrix_row(self.vectors.data@, self.vectors.dim as nat, id as int)
    }

    open spec fn quantization(&self) -> Quantization {
        Quantization::none()
    }

    open spec fn stride(&self) -> nat {
        0
    }

    open spec fn level_at(&self, id: u32) -> u8 {
        self.max_levels@[id as int]
    }

    /// Nodes are known by their ids.
    open spec fn slot_at(&self, id: u32) -> u32 {
        id
    }

    open spec fn links_at(&self, id: u32, level: u8) -> Seq<u32> {
        self.neighbors.links(id, level)
    }

    open spec fn link_cap(&self, level: u8) -> nat {
        (self.neighbors.slot_len(level) - 1) as nat
    }

    open spec fn top_level(&self) -> nat {
        self.neighbors.max_levels as nat
    }

    proof fn lemma_store(&self) {
        assert forall|id: u32| id < self.node_count() implies #[trigger] self.vector_at(id).len()
            == self.dim() by {
            self.lemma_vector(id as int);
        }
    }

    fn count(&self) -> (n: usize) {
        self.max_levels.len()
    }

    fn vector_dim(&self) -> (n: usize) {
        self.vectors.dim
    }

    fn vector_of(&self, id: u32) -> (v: Vec<u32>) {
        slice_to_vec(self.vector(id))
    }

    fn level_of(&self, id: u32) -> (level: u8) {
        self.get_node_level(id)
    }

    fn links_of(&self, id: u32, level: u8) -> (links: Vec<u32>) {
        self.neighbors.get_neighbors(id, level)
    }

    fn cap_of(&self, level: u8) -> (n: usize) {
        if level == 0 { self.neighbors.m0 } else { self.neighbors.m }
    }

    fn top_of(&self) -> (n: usize) {
        self.neighbors.max_levels
    }

    fn highest_linked(&self, id: u32) -> (n: u8) {
        if self.neighbors.max_levels <= 255 { self.neighbors.max_levels as u8 } else { 255 }
    }

    fn is_consistent(&self) -> (r: bool) {
        self.is_well_formed()
    }

    fn set_links(&mut self, id: u32, level: u8, links: &[u32]) {
        self.neighbors.set_neighbors(id, level, links);
        proof {
            assert(self.max_levels@ == old(self).max_levels@);
            assert(self.neighbors.stride == old(self).neighbors.stride);
            assert forall|n: nat| old(self).room(n) implies #[trigger] self.room(n) by {
                let len = self.max_levels@.len();
                assert((len + n) * self.neighbors.stride == (old(self).max_levels@.len() + n)
                    * old(self).neighbors.stride);
            }
        }
    }

    open spec fn room(&self, n: nat) -> bool {
        &&& self.vectors.dim > 0
        &&& self.max_levels@.len() + n <= u32::MAX + 1
        &&& (self.max_levels@.len() + n) * self.neighbors.stride <= usize::MAX
    }

    proof fn lemma_room(&self, n: nat, fewer: nat) {
        let len = self.max_levels@.len();
        let stride = self.neighbors.stride;
        assert((len + fewer) * stride <= (len + n) * stride) by (nonlinear_arith)
            requires
                fewer <= n,
        ;
    }

    fn push_node(&mut self, vector: &[u32], level: u8) -> (id: u32) {
        self.add_node(vector, level)
    }
}

} // verus!
