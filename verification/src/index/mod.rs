//! The index: a layered graph with an entry point.

pub mod batch;
pub mod build_laws;
pub mod coded;
pub mod coded_laws;
pub mod colocated;
pub mod insert;
pub mod insert_laws;
pub mod parallel;
pub mod persistence;
pub mod search;
pub mod search_laws;
pub mod sequential;
pub mod sequential_laws;
pub mod soundness;
pub mod stats;
pub mod stats_laws;

use vstd::prelude::*;

use crate::error::{HNSWError, Result};
use crate::graph::{links_below, links_valid, GraphStore};
use crate::storage::HNSWStorage;
use crate::types::{default_params, HNSWParams, Metric};

verus! {

/// A graph in which searches start at the entry point.
#[derive(Debug)]
pub struct HNSWIndex<S> {
    pub storage: S,
    pub entry_point: Option<u32>,
    pub params: HNSWParams,
    pub distance_fn: Metric,
    /// State of the level generator.
    pub rng_state: u64,
}

/// How the vectors of an index are compressed.
#[derive(Debug, Clone, Copy, PartialEq, Eq, Structural)]
pub enum HNSWQuantization {
    Off,
    SQ8,
}

impl Default for HNSWQuantization {
    fn default() -> (q: Self)
        ensures
            q == HNSWQuantization::Off,
    {
        HNSWQuantization::Off
    }
}

/// What is known of the levels and the lengths of the link lists.
pub open spec fn shape_fits<S: GraphStore>(store: S, params: HNSWParams) -> bool {
    &&& params.m * 2 <= usize::MAX
    &&& params.max_level <= store.top_level()
    &&& forall|level: u8| #[trigger] store.link_cap(level) == params.links(level)
    &&& forall|id: u32|
        id < store.node_count() ==> #[trigger] store.level_at(id) <= params.max_level
    &&& forall|id: u32, level: u8|
        id < store.node_count() ==> #[trigger] store.links_at(id, level).len()
            <= params.links(level)
}

impl<S: GraphStore> HNSWIndex<S> {
    /// Links lead to nodes and are no more than the parameters allow; the
    /// entry point is a node.
    pub open spec fn wf(&self) -> bool {
        &&& self.storage.store_wf()
        &&& links_valid(self.storage)
        &&& shape_fits(self.storage, self.params)
        &&& self.entry_point matches Some(e) ==> e < self.storage.node_count()
    }

    /// An index over an existing storage.
    pub fn from_parts(
        storage: S,
        entry_point: Option<u32>,
        params: HNSWParams,
        distance_fn: Metric,
        rng_state: u64,
    ) -> (r: Self)
        ensures
            r.storage == storage,
            r.entry_point == entry_point,
            r.params == params,
            r.distance_fn == distance_fn,
            r.rng_state == rng_state,
    {
        HNSWIndex { storage, entry_point, params, distance_fn, rng_state }
    }

    pub fn dimensions(&self) -> (d: usize)
        requires
            self.wf(),
        ensures
            d == self.storage.dim(),
    {
        self.storage.vector_dim()
    }

    pub fn len(&self) -> (n: usize)
        requires
            self.wf(),
        ensures
            n == self.storage.node_count(),
    {
        self.storage.count()
    }

    pub fn is_empty(&self) -> (r: bool)
        requires
            self.wf(),
        ensures
            r == (self.storage.node_count() == 0),
    {
        self.len() == 0
    }

    pub fn entry_point(&self) -> (r: Option<u32>)
        ensures
            r == self.entry_point,
    {
        self.entry_point
    }

    pub fn params(&self) -> (r: &HNSWParams)
        ensures
            *r == self.params,
    {
        &self.params
    }

    pub fn distance_function(&self) -> (r: Metric)
        ensures
            r == self.distance_fn,
    {
        self.distance_fn
    }
}

/// The parameters leave room for the counts that the flat storage keeps.
pub open spec fn params_fit(params: HNSWParams) -> bool {
    &&& params.m * 2 <= u32::MAX
    &&& (params.m * 2 + 1) + params.max_level * (params.m + 1) <= usize::MAX
}

impl HNSWIndex<HNSWStorage> {
    /// An empty index.
    pub fn new(dim: usize, params: HNSWParams, distance_fn: Metric) -> (r: Self)
        requires
            params_fit(params),
        ensures
            r.wf(),
            r.storage.node_count() == 0,
            r.storage.dim() == dim,
            r.storage.neighbors.nodes == 0,
            r.storage.neighbors.m == params.m,
            r.storage.neighbors.max_levels == params.max_level,
            r.entry_point is None,
            r.params == params,
            r.distance_fn == distance_fn,
            r.rng_state == params.seed,
    {
        HNSWIndex {
            storage: HNSWStorage::new(dim, params.max_level as usize, params.m),
            entry_point: None,
            rng_state: params.seed,
            params,
            distance_fn,
        }
    }

    /// An empty index with room for a number of nodes.
    pub fn with_capacity(
        dim: usize,
        params: HNSWParams,
        distance_fn: Metric,
        num_nodes: usize,
    ) -> (r: Self)
        requires
            params_fit(params),
            num_nodes * dim <= usize::MAX,
            num_nodes * ((params.m * 2 + 1) + params.max_level * (params.m + 1)) <= usize::MAX,
        ensures
            r.wf(),
            r.storage.node_count() == 0,
            r.storage.dim() == dim,
            r.storage.neighbors.nodes == num_nodes,
            r.storage.neighbors.m == params.m,
            r.storage.neighbors.max_levels == params.max_level,
            r.entry_point is None,
            r.params == params,
            r.distance_fn == distance_fn,
            r.rng_state == params.seed,
    {
        HNSWIndex {
            storage: HNSWStorage::with_capacity(
                dim,
                params.max_level as usize,
                params.m,
                num_nodes,
            ),
            entry_point: None,
            rng_state: params.seed,
            params,
            distance_fn,
        }
    }

    /// A copy for readers.
    pub fn clone_for_view(&self) -> (r: Self)
        ensures
            self.copied(&r),
            self.wf() ==> r.wf(),
    {
        let r = HNSWIndex {
            storage: self.storage.copy(),
            entry_point: self.entry_point,
            params: self.params,
            distance_fn: self.distance_fn,
            rng_state: self.rng_state,
        };
        proof {
            if self.wf() {
                self.lemma_copied_wf(&r);
            }
        }
        r
    }

    /// Another index holds the same.
    pub open spec fn copied(&self, other: &Self) -> bool {
        &&& self.storage.copied(&other.storage)
        &&& self.entry_point == other.entry_point
        &&& self.params == other.params
        &&& self.distance_fn == other.distance_fn
        &&& self.rng_state == other.rng_state
    }

    proof fn lemma_copied_wf(&self, other: &Self)
        requires
            self.wf(),
            self.copied(other),
        ensures
            other.wf(),
    {
        let a = self.storage;
        let b = other.storage;
        assert forall|id: u32, level: u8|
            #[trigger] b.neighbors.links(id, level) == a.neighbors.links(id, level) by {}
        assert forall|level: u8| #[trigger] links_below(b, level, b.node_count()) by {
            assert(links_below(a, level, a.node_count()));
            assert forall|id: u32, j: int|
                id < b.node_count() && 0 <= j < b.links_at(id, level).len() implies (
            #[trigger] b.links_at(id, level)[j]) < b.node_count() by {
                assert(a.links_at(id, level)[j] < a.node_count());
            }
        }
        assert forall|level: u8| #[trigger] b.link_cap(level) == other.params.links(level) by {
            assert(a.link_cap(level) == self.params.links(level));
        }
        assert forall|id: u32| id < b.node_count() implies #[trigger] b.level_at(id)
            <= other.params.max_level by {
            assert(a.level_at(id) <= self.params.max_level);
        }
        assert forall|id: u32, level: u8|
            id < b.node_count() implies #[trigger] b.links_at(id, level).len()
            <= other.params.links(level) by {
            assert(a.links_at(id, level).len() <= self.params.links(level));
        }
    }

    pub fn builder() -> (b: HNSWIndexBuilder)
        ensures
            b == new_builder(),
    {
        HNSWIndexBuilder::new()
    }
}

/// Collects the parameters of an index.
#[derive(Debug, Clone, Copy, PartialEq, Eq, Structural)]
pub struct HNSWIndexBuilder {
    pub dimensions: Option<usize>,
    pub params: HNSWParams,
    pub metric: Metric,
}

pub open spec fn new_builder() -> HNSWIndexBuilder {
    HNSWIndexBuilder { dimensions: None, params: default_params(), metric: Metric::L2 }
}

impl HNSWIndexBuilder {
    pub fn new() -> (b: Self)
        ensures
            b == new_builder(),
    {
        HNSWIndexBuilder { dimensions: None, params: HNSWParams::default(), metric: Metric::L2 }
    }

    pub fn dimensions(self, d: usize) -> (b: Self)
        ensures
            b == (HNSWIndexBuilder { dimensions: Some(d), ..self }),
    {
        HNSWIndexBuilder { dimensions: Some(d), params: self.params, metric: self.metric }
    }

    pub fn m(self, m: usize) -> (b: Self)
        ensures
            b == (HNSWIndexBuilder { params: HNSWParams { m, ..self.params }, ..self }),
    {
        let mut b = self;
        b.params.m = m;
        b
    }

    pub fn ef_construction(self, ef: usize) -> (b: Self)
        ensures
            b == (HNSWIndexBuilder {
                params: HNSWParams { ef_construction: ef, ..self.params },
                ..self
            }),
    {
        let mut b = self;
        b.params.ef_construction = ef;
        b
    }

    pub fn metric(self, m: Metric) -> (b: Self)
        ensures
            b == (HNSWIndexBuilder { metric: m, ..self }),
    {
        HNSWIndexBuilder { dimensions: self.dimensions, params: self.params, metric: m }
    }

    /// An empty index with the collected parameters. The number of dimensions
    /// must have been given.
    pub fn build(self) -> (r: Result<HNSWIndex<HNSWStorage>>)
        requires
            params_fit(self.params),
        ensures
            r is Err <==> self.dimensions is None,
            r matches Err(e) ==> (e matches HNSWError::InvalidParams(s) && s@ == "dim required"@),
            r matches Ok(index) ==> {
                &&& index.wf()
                &&& index.storage.node_count() == 0
                &&& Some(index.storage.dim() as int) == (match self.dimensions {
                    Some(d) => Some(d as int),
                    None => None,
                })
                &&& index.entry_point is None
                &&& index.params == self.params
                &&& index.distance_fn == self.metric
                &&& index.rng_state == self.params.seed
            },
    {
        match self.dimensions {
            None => Err(HNSWError::InvalidParams("dim required".to_string())),
            Some(d) => Ok(HNSWIndex::new(d, self.params, self.metric)),
        }
    }
}

} // verus!
