//! Figures about an index.

use vstd::prelude::*;

use crate::graph::GraphStore;
use crate::index::HNSWIndex;
use crate::node_storage::NodeStorage;
use crate::storage::HNSWStorage;
use crate::types::{HNSWParams, Metric};

verus! {

/// Figures about an index.
#[derive(Debug, Clone)]
pub struct IndexStats {
    pub num_vectors: usize,
    pub dimensions: usize,
    pub entry_point: Option<u32>,
    /// Highest level of a node.
    pub max_level: u8,
    /// How many nodes have each level, up to the highest.
    pub level_distribution: Vec<usize>,
    /// Links of all nodes at level 0, by which the average is found.
    pub total_neighbors_l0: usize,
    /// Most links of a node at level 0.
    pub max_neighbors_l0: usize,
    pub memory_bytes: usize,
    pub params: HNSWParams,
    pub distance_function: Metric,
    /// Vectors are held in SQ8 mode.
    pub quantization_enabled: bool,
}

/// How many of the first `n` nodes have a level.
pub open spec fn nodes_at_level<S: GraphStore>(store: S, level: u8, n: nat) -> nat
    decreases n,
{
    if n == 0 {
        0
    } else {
        nodes_at_level(store, level, (n - 1) as nat) + if store.level_at((n - 1) as u32) == level {
            1nat
        } else {
            0nat
        }
    }
}

/// The highest level of the first `n` nodes.
pub open spec fn highest_level<S: GraphStore>(store: S, n: nat) -> u8
    decreases n,
{
    if n == 0 {
        0
    } else {
        let before = highest_level(store, (n - 1) as nat);
        let level = store.level_at((n - 1) as u32);
        if level > before {
            level
        } else {
            before
        }
    }
}

/// Links of the first `n` nodes at level 0.
pub open spec fn base_links<S: GraphStore>(store: S, n: nat) -> nat
    decreases n,
{
    if n == 0 {
        0
    } else {
        base_links(store, (n - 1) as nat) + store.links_at((n - 1) as u32, 0).len()
    }
}

/// Most links of one of the first `n` nodes at level 0.
pub open spec fn most_base_links<S: GraphStore>(store: S, n: nat) -> nat
    decreases n,
{
    if n == 0 {
        0
    } else {
        let before = most_base_links(store, (n - 1) as nat);
        let count = store.links_at((n - 1) as u32, 0).len();
        if count > before {
            count
        } else {
            before
        }
    }
}

/// The levels of the first `n` nodes sum up to `n`, so that every node is
/// counted once.
pub open spec fn counted_nodes<S: GraphStore>(store: S, levels: nat, n: nat) -> nat
    decreases levels,
{
    if levels == 0 {
        0
    } else {
        counted_nodes(store, (levels - 1) as nat, n) + nodes_at_level(store, (levels - 1) as u8, n)
    }
}

proof fn lemma_counted_step<S: GraphStore>(store: S, levels: nat, n: nat)
    requires
        n > 0,
        levels <= 256,
    ensures
        counted_nodes(store, levels, n) == counted_nodes(store, levels, (n - 1) as nat) + if (
        store.level_at((n - 1) as u32) as nat) < levels {
            1nat
        } else {
            0nat
        },
    decreases levels,
{
    if levels > 0 {
        lemma_counted_step(store, (levels - 1) as nat, n);
    }
}

/// Every node is counted at exactly one level up to the highest.
pub proof fn law_levels_cover_nodes<S: GraphStore>(store: &S, n: nat)
    ensures
        counted_nodes(*store, (highest_level(*store, n) + 1) as nat, n) == n,
{
    lemma_levels_cover(store, (highest_level(*store, n) + 1) as nat, n);
}

proof fn lemma_levels_cover<S: GraphStore>(store: &S, levels: nat, n: nat)
    requires
        highest_level(*store, n) < levels <= 256,
    ensures
        counted_nodes(*store, levels, n) == n,
    decreases n,
{
    if n > 0 {
        lemma_levels_cover(store, levels, (n - 1) as nat);
        lemma_counted_step(*store, levels, n);
    } else {
        lemma_counted_none(*store, levels);
    }
}

proof fn lemma_counted_none<S: GraphStore>(store: S, levels: nat)
    ensures
        counted_nodes(store, levels, 0) == 0,
    decreases levels,
{
    if levels > 0 {
        lemma_counted_none(store, (levels - 1) as nat);
    }
}

proof fn lemma_level_bound<S: GraphStore>(store: S, level: u8, n: nat)
    ensures
        nodes_at_level(store, level, n) <= n,
    decreases n,
{
    if n > 0 {
        lemma_level_bound(store, level, (n - 1) as nat);
    }
}

/// Links of the first `n` nodes at level 0 are at most so many.
proof fn lemma_base_links<S: GraphStore>(store: S, cap: nat, n: nat)
    requires
        forall|id: u32| id < n ==> (#[trigger] store.links_at(id, 0)).len() <= cap,
        n <= u32::MAX + 1,
    ensures
        base_links(store, n) <= n * cap,
    decreases n,
{
    if n > 0 {
        lemma_base_links(store, cap, (n - 1) as nat);
        assert(store.links_at((n - 1) as u32, 0).len() <= cap);
        assert(n * cap == (n - 1) * cap + cap) by (nonlinear_arith);
    } else {
        assert(0 * cap == 0);
    }
}

impl<S: GraphStore> HNSWIndex<S> {
    /// Figures about the graph of an index.
    pub open spec fn described(&self, memory: int, r: IndexStats) -> bool {
        let n = self.storage.node_count();
        &&& r.num_vectors == n
        &&& r.dimensions == self.storage.dim()
        &&& r.entry_point == self.entry_point
        &&& r.max_level == highest_level(self.storage, n)
        &&& r.level_distribution@.len() == r.max_level + 1
        &&& forall|l: int|
            0 <= l < r.level_distribution@.len() ==> #[trigger] r.level_distribution@[l]
                == nodes_at_level(self.storage, l as u8, n)
        &&& r.total_neighbors_l0 == base_links(self.storage, n)
        &&& r.max_neighbors_l0 == most_base_links(self.storage, n)
        &&& r.memory_bytes == memory
        &&& r.params == self.params
        &&& r.distance_function == self.distance_fn
        &&& r.quantization_enabled == self.storage.quantization().sq8
    }

    fn describe(&self, memory_bytes: usize, quantization_enabled: bool) -> (r: IndexStats)
        requires
            self.wf(),
            self.storage.node_count() * self.params.links(0) <= usize::MAX,
            quantization_enabled == self.storage.quantization().sq8,
        ensures
            self.described(memory_bytes as int, r),
    {
        proof {
            self.storage.lemma_store();
        }
        let n: usize = self.storage.count();
        let levels: usize = self.params.max_level as usize + 1;
        let mut level_distribution: Vec<usize> = Vec::new();
        while level_distribution.len() < levels
            invariant
                level_distribution@.len() <= levels,
                forall|l: int|
                    0 <= l < level_distribution@.len() ==> #[trigger] level_distribution@[l] == 0,
            decreases levels - level_distribution.len(),
        {
            level_distribution.push(0);
        }
        let mut total: usize = 0;
        let mut most: usize = 0;
        let mut highest: u8 = 0;
        let mut i: usize = 0;
        let ghost cap = self.params.links(0);
        while i < n
            invariant
                i <= n,
                n == self.storage.node_count(),
                n <= u32::MAX + 1,
                self.wf(),
                cap == self.params.links(0),
                n * cap <= usize::MAX,
                levels == self.params.max_level + 1,
                level_distribution@.len() == levels,
                forall|l: int|
                    0 <= l < levels ==> #[trigger] level_distribution@[l] == nodes_at_level(
                        self.storage,
                        l as u8,
                        i as nat,
                    ),
                total == base_links(self.storage, i as nat),
                most == most_base_links(self.storage, i as nat),
                highest == highest_level(self.storage, i as nat),
                highest <= self.params.max_level,
            decreases n - i,
        {
            let id: u32 = i as u32;
            let level: u8 = self.storage.level_of(id);
            proof {
                assert(self.storage.level_at(id) <= self.params.max_level);
                lemma_level_bound(self.storage, level, i as nat);
            }
            let ghost before = level_distribution@;
            if (level as usize) < level_distribution.len() {
                level_distribution.set(level as usize, level_distribution[level as usize] + 1);
            }
            proof {
                assert forall|l: int| 0 <= l < levels implies #[trigger] level_distribution@[l]
                    == nodes_at_level(self.storage, l as u8, (i + 1) as nat) by {
                    assert(before[l] == nodes_at_level(self.storage, l as u8, i as nat));
                }
            }
            let links: Vec<u32> = self.storage.links_of(id, 0);
            proof {
                assert forall|k: u32| k < i + 1 implies (#[trigger] self.storage.links_at(
                    k,
                    0,
                )).len() <= cap by {}
                lemma_base_links(self.storage, cap, (i + 1) as nat);
                assert((i + 1) * cap <= n * cap) by (nonlinear_arith)
                    requires
                        i + 1 <= n,
                        cap >= 0,
                ;
            }
            total = total + links.len();
            if links.len() > most {
                most = links.len();
            }
            if level > highest {
                highest = level;
            }
            i += 1;
        }
        level_distribution.truncate(highest as usize + 1);
        IndexStats {
            num_vectors: n,
            dimensions: self.storage.vector_dim(),
            entry_point: self.entry_point,
            max_level: highest,
            level_distribution,
            total_neighbors_l0: total,
            max_neighbors_l0: most,
            memory_bytes,
            params: self.params,
            distance_function: self.distance_fn,
            quantization_enabled,
        }
    }
}

impl HNSWIndex<HNSWStorage> {
    /// Figures about the index. Flat storage holds vectors at full precision.
    pub fn stats(&self) -> (r: IndexStats)
        requires
            self.wf(),
            self.storage.memory() <= usize::MAX,
        ensures
            self.described(self.storage.memory(), r),
    {
        proof {
            let n = self.storage.node_count() as int;
            let width = self.storage.neighbors.m0 as int;
            let stride = self.storage.neighbors.stride as int;
            let nodes = self.storage.neighbors.nodes as int;
            assert(0 <= self.storage.neighbors.max_levels * (self.storage.neighbors.m + 1))
                by (nonlinear_arith);
            assert(n * width <= nodes * stride) by (nonlinear_arith)
                requires
                    0 <= n <= nodes,
                    0 <= width <= stride,
            ;
            assert(self.storage.neighbors.data@.len() == self.storage.neighbors.data.len());
            assert(self.storage.link_cap(0) == self.params.links(0));
        }
        self.describe(self.storage.memory_usage(), false)
    }
}

impl HNSWIndex<NodeStorage> {
    /// Figures about the index.
    pub fn stats(&self) -> (r: IndexStats)
        requires
            self.wf(),
            self.storage.memory() <= usize::MAX,
        ensures
            self.described(self.storage.memory(), r),
    {
        proof {
            let n = self.storage.len as int;
            let width = self.storage.max_neighbors as int;
            let size = self.storage.node_size as int;
            self.storage.lemma_used();
            assert(0 <= n * width <= n * size) by (nonlinear_arith)
                requires
                    0 <= n,
                    0 <= width <= size,
            ;
            assert(self.storage.data@.len() == self.storage.data.len());
            assert(self.storage.link_cap(0) == self.params.links(0));
        }
        self.describe(self.storage.memory_usage(), self.storage.is_sq8())
    }
}

} // verus!
