//! A manager with a single segment: one index takes all vectors, and readers
//! get copies of it.

use std::sync::Arc;

use vstd::prelude::*;

use crate::batch_builder::{built_from, fresh_index, BatchBuilder};
use crate::distance::metric_ok;
use crate::error::Result;
use crate::graph::GraphStore;
use crate::index::batch::{batch_inserted, components};
use crate::index::insert::{capped_level, level_source_ok, node_inserted, std_rng_draw};
use crate::index::parallel::{acceptable, batch_fits, rejection};
use crate::index::search::{searched, seen_results};
use crate::index::HNSWIndex;
use crate::reorder::views;
use crate::storage::HNSWStorage;
use crate::types::{default_params, HNSWParams, Metric, SearchResult};

verus! {

/// Settings of a manager. There is only one segment, so that the capacity is
/// kept but asked by nobody.
#[derive(Debug, Clone, Copy, PartialEq, Eq, Structural)]
pub struct SegmentConfig {
    pub capacity: usize,
}

impl SegmentConfig {
    pub fn new(_dim: usize) -> (r: Self)
        ensures
            r.capacity == usize::MAX,
    {
        SegmentConfig { capacity: usize::MAX }
    }

    /// The parameters are always the default ones.
    pub fn with_params(self, _params: HNSWParams) -> (r: Self)
        ensures
            r == self,
    {
        self
    }

    /// The distance is always the Euclidean one.
    pub fn with_distance(self, _metric: Metric) -> (r: Self)
        ensures
            r == self,
    {
        self
    }

    /// Vectors are never compressed.
    pub fn with_quantization(self, _enabled: bool) -> (r: Self)
        ensures
            r == self,
    {
        self
    }

    pub fn with_capacity(self, cap: usize) -> (r: Self)
        ensures
            r.capacity == cap,
    {
        SegmentConfig { capacity: cap }
    }
}

/// What an optimization did.
#[derive(Debug, Clone, Copy, PartialEq, Eq, Structural)]
pub struct OptimizationStats {
    pub vectors_reordered: usize,
    pub segments_merged: usize,
}

/// One index that takes all vectors.
#[derive(Debug)]
pub struct SegmentManager {
    pub index: HNSWIndex<HNSWStorage>,
}

/// A copy of the index for readers.
#[derive(Debug)]
pub struct PublishedSegmentView {
    pub index: HNSWIndex<HNSWStorage>,
}

impl SegmentManager {
    pub open spec fn wf(&self) -> bool {
        self.index.wf()
    }

    /// A manager for vectors without components.
    pub fn new(_config: SegmentConfig) -> (r: Self)
        ensures
            fresh_index(r.index, 0, default_params(), Metric::L2),
    {
        SegmentManager { index: HNSWIndex::new(0, HNSWParams::default(), Metric::L2) }
    }

    /// A manager of an index that was read back.
    pub fn from_index(index: HNSWIndex<HNSWStorage>) -> (r: Self)
        ensures
            r.index == index,
    {
        SegmentManager { index }
    }

    /// A manager that holds some vectors. The first one tells how many
    /// components they have.
    pub fn build_parallel_with_slots_from_refs<
        M: Fn(&[u32], &[u32]) -> u32,
        L: Fn(u32) -> u8,
    >(
        _config: SegmentConfig,
        vectors: Vec<&[u32]>,
        _slots: &[u32],
        metric: &M,
        level_source: &L,
    ) -> (r: Result<Self>)
        requires
            vectors@.len() > 0,
            batch_fits(vectors@[0]@.len(), default_params(), vectors@.len()),
            metric_ok(*metric),
            level_source_ok(*level_source),
        ensures
            r is Ok <==> forall|i: int|
                0 <= i < vectors@.len() ==> acceptable(
                    (#[trigger] vectors@[i])@,
                    vectors@[0]@.len(),
                ),
            built_from(
                match r {
                    Ok(manager) => Ok(manager.index),
                    Err(e) => Err(e),
                },
                vectors@[0]@.len(),
                default_params(),
                Metric::L2,
                *metric,
                *level_source,
                components(vectors@),
            ),
    {
        let dimensions: usize = vectors[0].len();
        match BatchBuilder::build_sequential(
            &vectors,
            dimensions,
            HNSWParams::default(),
            Metric::L2,
            metric,
            level_source,
        ) {
            Ok(index) => Ok(SegmentManager { index }),
            Err(e) => Err(e),
        }
    }

    /// A copy for readers.
    pub fn read_view(&self) -> (r: Arc<PublishedSegmentView>)
        ensures
            self.index.copied(&r.index),
            self.wf() ==> r.wf(),
    {
        Arc::new(PublishedSegmentView { index: self.index.clone_for_view() })
    }

    /// Inserts vectors in turn, up to the first that cannot be inserted.
    pub fn insert_batch_parallel_from_refs<M: Fn(&[u32], &[u32]) -> u32, L: Fn(u32) -> u8>(
        &mut self,
        vectors: &Vec<&[u32]>,
        slots: &[u32],
        metric: &M,
        level_source: &L,
    ) -> (r: Result<()>)
        requires
            old(self).wf(),
            metric_ok(*metric),
            level_source_ok(*level_source),
            vectors@.len() > 0 && acceptable(vectors@[0]@, old(self).index.storage.dim())
                ==> old(self).index.storage.room(vectors@.len()),
        ensures
            final(self).wf(),
            r is Ok <==> forall|i: int|
                0 <= i < vectors@.len() ==> acceptable(
                    (#[trigger] vectors@[i])@,
                    old(self).index.storage.dim(),
                ),
            batch_inserted(
                old(self).index,
                final(self).index,
                *metric,
                *level_source,
                components(vectors@),
                r,
            ),
    {
        self.index.insert_batch_parallel_from_refs(vectors, slots, metric, level_source)
    }

    /// Inserts a vector; the slot plays no part.
    pub fn insert_with_slot<M: Fn(&[u32], &[u32]) -> u32, L: Fn(u32) -> u8>(
        &mut self,
        vector: &[u32],
        slot: u32,
        metric: &M,
        level_source: &L,
    ) -> (r: Result<u32>)
        requires
            old(self).wf(),
            metric_ok(*metric),
            level_source_ok(*level_source),
            acceptable(vector@, old(self).index.storage.dim()) ==> old(self).index.storage.room(1),
        ensures
            final(self).wf(),
            r is Ok <==> acceptable(vector@, old(self).index.storage.dim()),
            r matches Err(e) ==> e == rejection(vector@, old(self).index.storage.dim())
                && *final(self) == *old(self),
            r matches Ok(id) ==> {
                &&& id == old(self).index.storage.node_count()
                &&& final(self).index.rng_state == std_rng_draw(old(self).index.rng_state).1
                &&& node_inserted(
                    old(self).index,
                    final(self).index,
                    *metric,
                    vector@,
                    capped_level(
                        *level_source,
                        std_rng_draw(old(self).index.rng_state).0,
                        old(self).index.params.max_level,
                    ),
                )
            },
    {
        self.index.insert_with_slot(vector, slot, metric, level_source)
    }

    pub fn dimensions(&self) -> (r: usize)
        requires
            self.wf(),
        ensures
            r == self.index.storage.dim(),
    {
        self.index.dimensions()
    }

    pub fn metric(&self) -> (r: Metric)
        ensures
            r == self.index.distance_fn,
    {
        self.index.distance_fn
    }

    pub fn len(&self) -> (n: usize)
        requires
            self.wf(),
        ensures
            n == self.index.storage.node_count(),
    {
        self.index.len()
    }

    /// Searches for the `k` nearest neighbours of a query.
    pub fn search<M: Fn(&[u32], &[u32]) -> u32>(
        &self,
        query: &[u32],
        k: usize,
        ef: usize,
        metric: &M,
    ) -> (r: Result<Vec<SearchResult>>)
        requires
            self.wf(),
            metric_ok(*metric),
        ensures
            searched(self.index, *metric, query@, k, ef, seen_results(r)),
    {
        self.index.search(query, k, ef, metric)
    }

    /// Searches for the `k` nearest neighbours; the filter plays no part.
    pub fn search_with_filter<M: Fn(&[u32], &[u32]) -> u32, F: Fn(u32) -> bool>(
        &self,
        query: &[u32],
        k: usize,
        ef: usize,
        metric: &M,
        _filter: &F,
    ) -> (r: Result<Vec<SearchResult>>)
        requires
            self.wf(),
            metric_ok(*metric),
        ensures
            searched(self.index, *metric, query@, k, ef, seen_results(r)),
    {
        self.index.search(query, k, ef, metric)
    }

    /// Inserts vectors in turn, up to the first that cannot be inserted.
    pub fn insert_batch_parallel<M: Fn(&[u32], &[u32]) -> u32, L: Fn(u32) -> u8>(
        &mut self,
        vectors: Vec<Vec<u32>>,
        slots: &[u32],
        metric: &M,
        level_source: &L,
    ) -> (r: Result<()>)
        requires
            old(self).wf(),
            metric_ok(*metric),
            level_source_ok(*level_source),
            vectors@.len() > 0 && acceptable(vectors@[0]@, old(self).index.storage.dim())
                ==> old(self).index.storage.room(vectors@.len()),
        ensures
            final(self).wf(),
            r is Ok <==> forall|i: int|
                0 <= i < vectors@.len() ==> acceptable(
                    (#[trigger] vectors@[i])@,
                    old(self).index.storage.dim(),
                ),
            batch_inserted(
                old(self).index,
                final(self).index,
                *metric,
                *level_source,
                views(vectors@),
                r,
            ),
    {
        self.index.insert_batch_parallel(vectors, slots, metric, level_source)
    }

    /// Nothing is held back, so that there is nothing to write out.
    pub fn flush(&mut self) -> (r: Result<()>)
        ensures
            r is Ok,
            *final(self) == *old(self),
    {
        Ok(())
    }

    /// There is no other segment to freeze into.
    pub fn freeze_mutable(&mut self) -> (r: Result<()>)
        ensures
            r is Ok,
            *final(self) == *old(self),
    {
        Ok(())
    }

    /// Bytes that the index takes up.
    pub fn memory_usage(&self) -> (r: usize)
        requires
            self.index.storage.memory() <= usize::MAX,
        ensures
            r == self.index.storage.memory(),
    {
        self.index.storage.memory_usage()
    }

    pub fn mutable_len(&self) -> (r: usize)
        requires
            self.wf(),
        ensures
            r == self.index.storage.node_count(),
    {
        self.index.len()
    }

    /// Nothing is published anew.
    pub fn generation(&self) -> (r: u64)
        ensures
            r == 0,
    {
        0
    }

    /// Nothing is moved or merged.
    pub fn optimize(&mut self) -> (r: OptimizationStats)
        ensures
            r == (OptimizationStats { vectors_reordered: 0, segments_merged: 0 }),
            *final(self) == *old(self),
    {
        OptimizationStats { vectors_reordered: 0, segments_merged: 0 }
    }
}

impl PublishedSegmentView {
    pub open spec fn wf(&self) -> bool {
        self.index.wf()
    }

    /// Bytes that the index takes up.
    pub fn total_memory(&self) -> (r: usize)
        requires
            self.index.storage.memory() <= usize::MAX,
        ensures
            r == self.index.storage.memory(),
    {
        self.index.storage.memory_usage()
    }

    pub fn frozen_count(&self) -> (r: usize)
        ensures
            r == 0,
    {
        0
    }

    pub fn mutable_len(&self) -> (r: usize)
        requires
            self.wf(),
        ensures
            r == self.index.storage.node_count(),
    {
        self.index.len()
    }

    pub fn segment_capacity(&self) -> (r: usize)
        ensures
            r == usize::MAX,
    {
        usize::MAX
    }

    pub fn len(&self) -> (r: usize)
        requires
            self.wf(),
        ensures
            r == self.index.storage.node_count(),
    {
        self.index.len()
    }

    pub fn generation(&self) -> (r: u64)
        ensures
            r == 0,
    {
        0
    }

    pub fn search<M: Fn(&[u32], &[u32]) -> u32>(
        &self,
        query: &[u32],
        k: usize,
        ef: usize,
        metric: &M,
    ) -> (r: Result<Vec<SearchResult>>)
        requires
            self.wf(),
            metric_ok(*metric),
        ensures
            searched(self.index, *metric, query@, k, ef, seen_results(r)),
    {
        self.index.search(query, k, ef, metric)
    }

    /// The filter plays no part.
    pub fn search_with_filter<M: Fn(&[u32], &[u32]) -> u32, F: Fn(u32) -> bool>(
        &self,
        query: &[u32],
        k: usize,
        ef: usize,
        metric: &M,
        _filter: &F,
    ) -> (r: Result<Vec<SearchResult>>)
        requires
            self.wf(),
            metric_ok(*metric),
        ensures
            searched(self.index, *metric, query@, k, ef, seen_results(r)),
    {
        self.index.search(query, k, ef, metric)
    }
}

/// A view has the nodes of the index that it was copied from, with their
/// vectors, levels and links.
pub proof fn law_view_is_a_copy(
    manager: &SegmentManager,
    view: &PublishedSegmentView,
    id: u32,
    level: u8,
)
    requires
        manager.index.copied(&view.index),
    ensures
        view.index.storage.node_count() == manager.index.storage.node_count(),
        view.index.storage.vector_at(id) == manager.index.storage.vector_at(id),
        view.index.storage.level_at(id) == manager.index.storage.level_at(id),
        view.index.storage.links_at(id, level) == manager.index.storage.links_at(id, level),
        view.index.entry_point == manager.index.entry_point,
{
}

} // verus!
