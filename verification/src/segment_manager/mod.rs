//! Segments that are managed together: one that takes vectors in, and those
//! that were frozen before it.
//!
//! When the mutable segment is full, it is frozen and a new one takes its
//! place. A search asks all segments. Frozen segments can be merged into one;
//! a merge in the background is a job that is handed out, and whose outcome is
//! handed back.

pub mod merge;
pub mod merge_laws;
pub mod persistence;
pub mod recovery_laws;
pub mod results;
pub mod search_laws;
pub mod state_laws;

use std::sync::Arc;

use vstd::prelude::*;

use crate::distance::metric_ok;
use crate::error::Result;
use crate::graph::{filter_ok, GraphStore};
use crate::index::insert::{at_most, level_source_ok};
use crate::index::parallel::acceptable;
use crate::index::HNSWIndex;
use crate::node_storage::quantization::Coder;
use crate::node_storage::{
    node_params_fit, raw_node_size, round_up, NodeStorage, FIRST_CAPACITY,
};
use crate::reorder::views;
use crate::segment::{
    lemma_relabelled_wf, relabelled, segment_results, FrozenSegment, MutableSegment,
    SegmentSearchResult, DEFAULT_CAPACITY,
};
use crate::types::{default_params, HNSWParams, Metric};
use merge::{
    all_acceptable, build_fits, build_index, built_from, first_rejected, ratio_ok, MergePolicy,
    MergeStats, PendingMerge,
};
use results::{by_distance, sort_and_cut};

verus! {

/// What the segments of a manager are like.
#[derive(Debug, Clone, Copy, PartialEq, Eq, Structural)]
pub struct SegmentConfig {
    pub dimensions: usize,
    pub params: HNSWParams,
    pub distance_fn: Metric,
    /// Number of vectors at which a segment is frozen.
    pub segment_capacity: usize,
    /// Whether vectors are held in SQ8 mode.
    pub quantization: bool,
}

impl SegmentConfig {
    pub fn new(dimensions: usize) -> (c: Self)
        ensures
            c == (SegmentConfig {
                dimensions,
                params: default_params(),
                distance_fn: Metric::L2,
                segment_capacity: DEFAULT_CAPACITY,
                quantization: false,
            }),
    {
        SegmentConfig {
            dimensions,
            params: HNSWParams::default(),
            distance_fn: Metric::L2,
            segment_capacity: DEFAULT_CAPACITY,
            quantization: false,
        }
    }

    pub fn with_params(self, params: HNSWParams) -> (c: Self)
        ensures
            c == (SegmentConfig { params, ..self }),
    {
        let mut c = self;
        c.params = params;
        c
    }

    pub fn with_distance(self, distance_fn: Metric) -> (c: Self)
        ensures
            c == (SegmentConfig { distance_fn, ..self }),
    {
        let mut c = self;
        c.distance_fn = distance_fn;
        c
    }

    pub fn with_capacity(self, capacity: usize) -> (c: Self)
        ensures
            c == (SegmentConfig { segment_capacity: capacity, ..self }),
    {
        let mut c = self;
        c.segment_capacity = capacity;
        c
    }

    pub fn with_quantization(self, quantization: bool) -> (c: Self)
        ensures
            c == (SegmentConfig { quantization, ..self }),
    {
        let mut c = self;
        c.quantization = quantization;
        c
    }

    /// Segments with these parameters can be made.
    pub open spec fn usable(&self) -> bool {
        node_params_fit(self.dimensions as nat, self.params.m as nat)
    }

    /// Whether segments with these parameters can be made.
    pub fn is_usable(&self) -> (r: bool)
        ensures
            r == self.usable(),
    {
        let m: usize = self.params.m;
        if m > 32767 {
            return false;
        }
        self.dimensions <= (usize::MAX - 73 - m * 8) / 4
    }

    /// Number of vectors at which a new segment is full. In SQ8 mode it is the
    /// default number.
    pub open spec fn first_capacity(&self) -> usize {
        if self.quantization { DEFAULT_CAPACITY } else { self.segment_capacity }
    }

    /// An empty segment to take vectors in.
    fn new_mutable_segment(&self) -> (r: Result<MutableSegment>)
        requires
            self.usable(),
        ensures
            r matches Ok(s) && s.fresh(
                self.dimensions,
                self.params,
                self.distance_fn,
                self.first_capacity(),
                self.quantization,
            ),
    {
        if self.quantization {
            MutableSegment::new_quantized(self.dimensions, self.params, self.distance_fn)
        } else {
            MutableSegment::with_capacity(
                self.dimensions,
                self.params,
                self.distance_fn,
                self.segment_capacity,
            )
        }
    }

    /// Bytes of a node.
    pub open spec fn node_size(&self) -> int {
        round_up(raw_node_size(self.dimensions as nat, self.params.m as nat, self.quantization))
    }

    /// An empty segment has room for `n` vectors.
    pub open spec fn room(&self, n: nat) -> bool {
        n <= u32::MAX && (2 * n + FIRST_CAPACITY) * self.node_size() <= usize::MAX
    }
}

/// The number of vectors in some frozen segments.
pub open spec fn frozen_total(frozen: Seq<Arc<FrozenSegment>>) -> nat
    decreases frozen.len(),
{
    if frozen.len() == 0 {
        0
    } else {
        frozen_total(frozen.drop_last()) + frozen.last().index.storage.len as nat
    }
}

/// The ids of some frozen segments.
pub open spec fn frozen_ids(frozen: Seq<Arc<FrozenSegment>>) -> Seq<u64> {
    frozen.map_values(|s: Arc<FrozenSegment>| s.id)
}

/// All frozen segments are well-formed.
pub open spec fn frozen_wf(frozen: Seq<Arc<FrozenSegment>>) -> bool {
    forall|i: int| 0 <= i < frozen.len() ==> (#[trigger] frozen[i]).wf()
}

proof fn lemma_total_monotone(frozen: Seq<Arc<FrozenSegment>>, n: int)
    requires
        0 <= n <= frozen.len(),
    ensures
        frozen_total(frozen.take(n)) <= frozen_total(frozen),
    decreases frozen.len() - n,
{
    if n < frozen.len() {
        lemma_total_monotone(frozen, n + 1);
        assert(frozen.take(n + 1).drop_last() =~= frozen.take(n));
    } else {
        assert(frozen.take(n) =~= frozen);
    }
}

/// The number of vectors in some frozen segments.
fn count_frozen(frozen: &Vec<Arc<FrozenSegment>>) -> (n: usize)
    requires
        frozen_wf(frozen@),
        frozen_total(frozen@) <= usize::MAX,
    ensures
        n == frozen_total(frozen@),
{
    let mut n: usize = 0;
    let mut i: usize = 0;
    assert(frozen@.take(0) =~= Seq::<Arc<FrozenSegment>>::empty());
    while i < frozen.len()
        invariant
            i <= frozen@.len(),
            frozen_wf(frozen@),
            frozen_total(frozen@) <= usize::MAX,
            n == frozen_total(frozen@.take(i as int)),
        decreases frozen.len() - i,
    {
        proof {
            assert(frozen@.take(i + 1).drop_last() =~= frozen@.take(i as int));
            lemma_total_monotone(frozen@, i + 1);
            assert(frozen@[i as int].wf());
        }
        n = n + frozen[i].len();
        i += 1;
    }
    assert(frozen@.take(i as int) =~= frozen@);
    n
}

/// Lists one behind the other.
pub open spec fn joined(parts: Seq<Seq<SegmentSearchResult>>) -> Seq<SegmentSearchResult>
    decreases parts.len(),
{
    if parts.len() == 0 {
        Seq::empty()
    } else {
        joined(parts.drop_last()) + parts.last()
    }
}

/// The segments that searches ask.
#[derive(Debug)]
pub struct PublishedSegments {
    pub mutable: MutableSegment,
    pub frozen: Vec<Arc<FrozenSegment>>,
}

impl PublishedSegments {
    pub open spec fn wf(&self) -> bool {
        self.mutable.wf() && frozen_wf(self.frozen@)
    }

    /// Number of vectors.
    pub open spec fn total(&self) -> nat {
        self.mutable.index.storage.len as nat + frozen_total(self.frozen@)
    }
}

/// What is seen of the segments at one time.
#[derive(Clone, Copy)]
pub struct SegmentReadView<'a> {
    pub mutable: &'a MutableSegment,
    pub frozen: &'a Vec<Arc<FrozenSegment>>,
    pub config: &'a SegmentConfig,
    pub generation: u64,
}

/// Results of the mutable segment and of the frozen ones as one: by distance,
/// the `k` nearest.
pub open spec fn merged_results(
    first: Seq<SegmentSearchResult>,
    parts: Seq<Seq<SegmentSearchResult>>,
    k: nat,
) -> Seq<SegmentSearchResult> {
    at_most(by_distance(first + joined(parts)), k)
}

impl<'a> SegmentReadView<'a> {
    pub open spec fn wf(&self) -> bool {
        self.mutable.wf() && frozen_wf(self.frozen@)
    }

    pub open spec fn total(&self) -> nat {
        self.mutable.index.storage.len as nat + frozen_total(self.frozen@)
    }

    pub fn frozen_count(&self) -> (n: usize)
        ensures
            n == self.frozen@.len(),
    {
        self.frozen.len()
    }

    pub fn mutable_len(&self) -> (n: usize)
        requires
            self.wf(),
        ensures
            n == self.mutable.index.storage.len,
    {
        self.mutable.len()
    }

    /// Number of vectors in all segments.
    pub fn len(&self) -> (n: usize)
        requires
            self.wf(),
            self.total() <= usize::MAX,
        ensures
            n == self.total(),
    {
        self.mutable.len() + count_frozen(self.frozen)
    }

    pub fn is_empty(&self) -> (r: bool)
        requires
            self.wf(),
            self.total() <= usize::MAX,
        ensures
            r == (self.total() == 0),
    {
        self.len() == 0
    }

    pub fn generation(&self) -> (r: u64)
        ensures
            r == self.generation,
    {
        self.generation
    }

    pub fn segment_capacity(&self) -> (r: usize)
        ensures
            r == self.config.segment_capacity,
    {
        self.config.segment_capacity
    }

    /// Bytes that the graphs of all segments take.
    pub open spec fn memory(&self) -> int {
        self.mutable.index.storage.memory() + frozen_memory(self.frozen@)
    }

    pub fn total_memory(&self) -> (r: usize)
        requires
            self.wf(),
            self.memory() <= usize::MAX,
        ensures
            r == self.memory(),
    {
        proof {
            lemma_memory_nonnegative(&self.mutable.index.storage);
            lemma_frozen_memory(self.frozen@, self.frozen@.len() as int);
        }
        self.mutable.index.storage.memory_usage() + frozen_memory_usage(self.frozen)
    }

    /// What searches of the frozen segments return.
    pub open spec fn parts_found<M: Fn(&[u32], &[u32]) -> u32>(
        &self,
        metric: M,
        query: Seq<u32>,
        k: usize,
        ef: usize,
        parts: Seq<Seq<SegmentSearchResult>>,
    ) -> bool {
        &&& parts.len() == self.frozen@.len()
        &&& forall|i: int|
            0 <= i < parts.len() ==> self.frozen@[i].found(metric, query, k, ef, #[trigger] parts[i])
    }

    /// What filtered searches of the frozen segments return.
    pub open spec fn parts_found_filtered<M: Fn(&[u32], &[u32]) -> u32, F: Fn(u32) -> bool>(
        &self,
        metric: M,
        query: Seq<u32>,
        k: usize,
        ef: usize,
        filter: F,
        parts: Seq<Seq<SegmentSearchResult>>,
    ) -> bool {
        &&& parts.len() == self.frozen@.len()
        &&& forall|i: int|
            0 <= i < parts.len() ==> self.frozen@[i].found_filtered(
                metric,
                query,
                k,
                ef,
                filter,
                #[trigger] parts[i],
            )
    }

    /// What a search of all segments returns: the error of the mutable segment,
    /// or the nearest results of all segments.
    pub open spec fn found<M: Fn(&[u32], &[u32]) -> u32>(
        &self,
        metric: M,
        query: Seq<u32>,
        k: usize,
        ef: usize,
        r: Result<Seq<SegmentSearchResult>>,
    ) -> bool {
        match r {
            Err(e) => self.mutable.found(metric, query, k, ef, r),
            Ok(results) => exists|
                first: Seq<SegmentSearchResult>,
                parts: Seq<Seq<SegmentSearchResult>>,
            |
                {
                    &&& self.mutable.found(metric, query, k, ef, Ok(first))
                    &&& self.parts_found(metric, query, k, ef, parts)
                    &&& results == #[trigger] merged_results(first, parts, k as nat)
                },
        }
    }

    /// What a filtered search of all segments returns: the error of the mutable
    /// segment, or the nearest results of all segments.
    pub open spec fn found_filtered<M: Fn(&[u32], &[u32]) -> u32, F: Fn(u32) -> bool>(
        &self,
        metric: M,
        query: Seq<u32>,
        k: usize,
        ef: usize,
        filter: F,
        r: Result<Seq<SegmentSearchResult>>,
    ) -> bool {
        match r {
            Err(e) => self.mutable.found_filtered(metric, query, k, ef, filter, r),
            Ok(results) => exists|
                first: Seq<SegmentSearchResult>,
                parts: Seq<Seq<SegmentSearchResult>>,
            |
                {
                    &&& self.mutable.found_filtered(metric, query, k, ef, filter, Ok(first))
                    &&& self.parts_found_filtered(metric, query, k, ef, filter, parts)
                    &&& results == #[trigger] merged_results(first, parts, k as nat)
                },
        }
    }

    /// Searches all segments for the `k` nearest neighbours of a query.
    pub fn search<M: Fn(&[u32], &[u32]) -> u32>(
        &self,
        query: &[u32],
        k: usize,
        ef: usize,
        metric: &M,
    ) -> (r: Result<Vec<SegmentSearchResult>>)
        requires
            self.wf(),
            metric_ok(*metric),
        ensures
            self.found(*metric, query@, k, ef, segment_results(r)),
    {
        let mut results: Vec<SegmentSearchResult> = match self.mutable.search(query, k, ef, metric) {
            Err(e) => {
                return Err(e);
            },
            Ok(results) => results,
        };
        let ghost first = results@;
        let ghost mut parts: Seq<Seq<SegmentSearchResult>> = Seq::empty();
        let mut all: Vec<SegmentSearchResult> = Vec::new();
        let mut i: usize = 0;
        while i < self.frozen.len()
            invariant
                i <= self.frozen@.len(),
                self.wf(),
                metric_ok(*metric),
                parts.len() == i,
                forall|j: int|
                    0 <= j < i ==> self.frozen@[j].found(
                        *metric,
                        query@,
                        k,
                        ef,
                        #[trigger] parts[j],
                    ),
                all@ == joined(parts),
            decreases self.frozen.len() - i,
        {
            assert(self.frozen@[i as int].wf());
            let mut part: Vec<SegmentSearchResult> = self.frozen[i].search(query, k, ef, metric);
            let ghost one = part@;
            all.append(&mut part);
            proof {
                let longer = parts.push(one);
                assert(longer.drop_last() =~= parts);
                assert(all@ =~= joined(longer));
                parts = longer;
            }
            i += 1;
        }
        results.append(&mut all);
        assert(results@ =~= first + joined(parts));
        let cut: Vec<SegmentSearchResult> = sort_and_cut(results, k);
        assert(cut@ == merged_results(first, parts, k as nat));
        Ok(cut)
    }

    /// Searches all segments for the `k` nearest neighbours whose slots a
    /// filter lets through.
    pub fn search_with_filter<M: Fn(&[u32], &[u32]) -> u32, F: Fn(u32) -> bool>(
        &self,
        query: &[u32],
        k: usize,
        ef: usize,
        metric: &M,
        filter: &F,
    ) -> (r: Result<Vec<SegmentSearchResult>>)
        requires
            self.wf(),
            metric_ok(*metric),
            filter_ok(*filter),
            k * 4 <= usize::MAX,
        ensures
            self.found_filtered(*metric, query@, k, ef, *filter, segment_results(r)),
    {
        let mut results: Vec<SegmentSearchResult> = match self.mutable.search_with_filter(query, k, ef, metric, filter) {
            Err(e) => {
                return Err(e);
            },
            Ok(results) => results,
        };
        let ghost first = results@;
        let ghost mut parts: Seq<Seq<SegmentSearchResult>> = Seq::empty();
        let mut all: Vec<SegmentSearchResult> = Vec::new();
        let mut i: usize = 0;
        while i < self.frozen.len()
            invariant
                i <= self.frozen@.len(),
                self.wf(),
                metric_ok(*metric),
                filter_ok(*filter),
                k * 4 <= usize::MAX,
                parts.len() == i,
                forall|j: int|
                    0 <= j < i ==> self.frozen@[j].found_filtered(
                        *metric,
                        query@,
                        k,
                        ef,
                        *filter,
                        #[trigger] parts[j],
                    ),
                all@ == joined(parts),
            decreases self.frozen.len() - i,
        {
            assert(self.frozen@[i as int].wf());
            let mut part: Vec<SegmentSearchResult> = self.frozen[i].search_with_filter(
                query,
                k,
                ef,
                metric,
                filter,
            );
            let ghost one = part@;
            all.append(&mut part);
            proof {
                let longer = parts.push(one);
                assert(longer.drop_last() =~= parts);
                assert(all@ =~= joined(longer));
                parts = longer;
            }
            i += 1;
        }
        results.append(&mut all);
        assert(results@ =~= first + joined(parts));
        let cut: Vec<SegmentSearchResult> = sort_and_cut(results, k);
        assert(cut@ == merged_results(first, parts, k as nat));
        Ok(cut)
    }
}

/// Bytes that the graphs of some frozen segments take.
pub open spec fn frozen_memory(frozen: Seq<Arc<FrozenSegment>>) -> int
    decreases frozen.len(),
{
    if frozen.len() == 0 {
        0
    } else {
        frozen_memory(frozen.drop_last()) + frozen.last().index.storage.memory()
    }
}

proof fn lemma_memory_nonnegative(storage: &NodeStorage)
    ensures
        storage.memory() >= 0,
{
    assert(storage.capacity * storage.node_size >= 0) by (nonlinear_arith)
        requires
            storage.capacity >= 0,
            storage.node_size >= 0,
    ;
}

proof fn lemma_frozen_memory(frozen: Seq<Arc<FrozenSegment>>, n: int)
    requires
        0 <= n <= frozen.len(),
    ensures
        0 <= frozen_memory(frozen.take(n)) <= frozen_memory(frozen),
        0 <= frozen_memory(frozen),
    decreases 2 * frozen.len() - n,
{
    if frozen.len() == 0 {
        assert(frozen.take(n) =~= frozen);
    } else if n < frozen.len() {
        lemma_frozen_memory(frozen, n + 1);
        assert(frozen.take(n + 1).drop_last() =~= frozen.take(n));
        lemma_memory_nonnegative(&frozen[n].index.storage);
        lemma_frozen_memory(frozen.take(n), n);
        assert(frozen.take(n).take(n) =~= frozen.take(n));
    } else {
        assert(frozen.take(n) =~= frozen);
        let front = frozen.drop_last();
        lemma_frozen_memory(front, front.len() as int);
        lemma_memory_nonnegative(&frozen.last().index.storage);
    }
}

fn frozen_memory_usage(frozen: &Vec<Arc<FrozenSegment>>) -> (n: usize)
    requires
        frozen_wf(frozen@),
        frozen_memory(frozen@) <= usize::MAX,
    ensures
        n == frozen_memory(frozen@),
{
    let mut n: usize = 0;
    let mut i: usize = 0;
    assert(frozen@.take(0) =~= Seq::<Arc<FrozenSegment>>::empty());
    while i < frozen.len()
        invariant
            i <= frozen@.len(),
            frozen_wf(frozen@),
            frozen_memory(frozen@) <= usize::MAX,
            n == frozen_memory(frozen@.take(i as int)),
        decreases frozen.len() - i,
    {
        proof {
            assert(frozen@.take(i + 1).drop_last() =~= frozen@.take(i as int));
            lemma_frozen_memory(frozen@, i + 1);
            lemma_memory_nonnegative(&frozen@[i as int].index.storage);
            assert(frozen@[i as int].wf());
        }
        n = n + frozen[i].index.storage.memory_usage();
        i += 1;
    }
    assert(frozen@.take(i as int) =~= frozen@);
    n
}

/// Manages a mutable segment and frozen ones.
#[derive(Debug)]
pub struct SegmentManager {
    pub config: SegmentConfig,
    pub published: PublishedSegments,
    pub next_segment_id: u64,
    pub merge_policy: MergePolicy,
    pub last_merge_stats: Option<MergeStats>,
    /// Grows with each save and each merge.
    pub generation: u64,
    /// The merge in the background, while there is one.
    pub pending_merge: Option<PendingMerge>,
}

impl SegmentManager {
    /// The sources of the merge in the background are the first of the frozen
    /// segments.
    pub open spec fn pending_ok(&self) -> bool {
        self.pending_merge matches Some(p) ==> {
            &&& p.source_segment_ids@.len() >= 2
            &&& p.source_segment_ids@.len() <= self.published.frozen@.len()
            &&& forall|i: int|
                0 <= i < p.source_segment_ids@.len() ==> #[trigger] p.source_segment_ids@[i]
                    == self.published.frozen@[i].id
            &&& p.job matches Some(job) ==> job.wf()
        }
    }

    pub open spec fn wf(&self) -> bool {
        &&& self.config.usable()
        &&& self.published.wf()
        &&& self.pending_ok()
    }

    /// What a manager starts as.
    pub open spec fn starts(
        &self,
        config: SegmentConfig,
        frozen: Seq<Arc<FrozenSegment>>,
        next_segment_id: u64,
        merge_policy: MergePolicy,
        generation: u64,
    ) -> bool {
        &&& self.wf()
        &&& self.config == config
        &&& self.published.frozen@ == frozen
        &&& self.next_segment_id == next_segment_id
        &&& self.merge_policy == merge_policy
        &&& self.last_merge_stats is None
        &&& self.generation == generation
        &&& self.pending_merge is None
    }

    pub fn new(config: SegmentConfig) -> (r: Result<Self>)
        requires
            config.usable(),
        ensures
            r matches Ok(m) && m.starts(config, Seq::empty(), 0, MergePolicy::standard(), 0)
                && m.published.mutable.fresh(
                config.dimensions,
                config.params,
                config.distance_fn,
                config.first_capacity(),
                config.quantization,
            ),
    {
        Self::with_merge_policy(config, MergePolicy::default())
    }

    pub fn with_merge_policy(config: SegmentConfig, merge_policy: MergePolicy) -> (r: Result<Self>)
        requires
            config.usable(),
        ensures
            r matches Ok(m) && m.starts(config, Seq::empty(), 0, merge_policy, 0)
                && m.published.mutable.fresh(
                config.dimensions,
                config.params,
                config.distance_fn,
                config.first_capacity(),
                config.quantization,
            ),
    {
        Self::from_frozen(config, Vec::new(), 0, merge_policy, 0)
    }

    /// A manager over frozen segments that were loaded.
    pub fn from_frozen(
        config: SegmentConfig,
        frozen: Vec<Arc<FrozenSegment>>,
        next_segment_id: u64,
        merge_policy: MergePolicy,
        generation: u64,
    ) -> (r: Result<Self>)
        requires
            config.usable(),
            frozen_wf(frozen@),
        ensures
            r matches Ok(m) && m.starts(config, frozen@, next_segment_id, merge_policy, generation)
                && m.published.mutable.fresh(
                config.dimensions,
                config.params,
                config.distance_fn,
                config.first_capacity(),
                config.quantization,
            ),
    {
        match config.new_mutable_segment() {
            Err(e) => Err(e),
            Ok(mutable) => Ok(
                SegmentManager {
                    config,
                    published: PublishedSegments { mutable, frozen },
                    next_segment_id,
                    merge_policy,
                    last_merge_stats: None,
                    generation,
                    pending_merge: None,
                },
            ),
        }
    }

    /// A manager over an index that was built apart, with a slot for each
    /// vector.
    pub fn from_index(config: SegmentConfig, index: HNSWIndex<NodeStorage>, slots: &[u32]) -> (m:
        Self)
        requires
            config.usable(),
            index.wf(),
            slots@.len() == index.storage.len,
        ensures
            m.starts(config, Seq::empty(), 0, MergePolicy::standard(), 0),
            m.published.mutable.index == index,
            m.published.mutable.slots@ == slots@,
    {
        SegmentManager {
            config,
            published: PublishedSegments {
                mutable: MutableSegment::from_index(index, slots),
                frozen: Vec::new(),
            },
            next_segment_id: 0,
            merge_policy: MergePolicy::default(),
            last_merge_stats: None,
            generation: 0,
            pending_merge: None,
        }
    }

    /// A manager whose mutable segment is built from vectors; the slot of each
    /// is its position.
    pub fn build_parallel<M: Fn(&[u32], &[u32]) -> u32, L: Fn(u32) -> u8, C: Coder>(
        config: SegmentConfig,
        vectors: Vec<Vec<u32>>,
        metric: &M,
        level_source: &L,
        coder: &C,
    ) -> (r: Result<Self>)
        requires
            config.usable(),
            build_fits(config, vectors@.len()),
            metric_ok(*metric),
            level_source_ok(*level_source),
            coder.usable(config.dimensions as nat),
        ensures
            r is Ok <==> all_acceptable(views(vectors@), config.dimensions as nat),
            r matches Err(e) ==> first_rejected(views(vectors@), config.dimensions as nat, e),
            r matches Ok(m) ==> {
                &&& m.starts(config, Seq::empty(), 0, MergePolicy::standard(), 0)
                &&& m.published.mutable.slots@.len() == vectors@.len()
                &&& forall|i: int|
                    0 <= i < vectors@.len() ==> #[trigger] m.published.mutable.slots@[i] == i
                &&& built_from(
                    config,
                    *metric,
                    *level_source,
                    *coder,
                    views(vectors@),
                    m.published.mutable.index,
                )
            },
    {
        match build_index(&config, &vectors, metric, level_source, coder) {
            Err(e) => Err(e),
            Ok(index) => Ok(
                SegmentManager {
                    config,
                    published: PublishedSegments {
                        mutable: MutableSegment::from_index_sequential(index),
                        frozen: Vec::new(),
                    },
                    next_segment_id: 0,
                    merge_policy: MergePolicy::default(),
                    last_merge_stats: None,
                    generation: 0,
                    pending_merge: None,
                },
            ),
        }
    }

    /// A manager whose mutable segment is built from vectors with slots.
    pub fn build_parallel_with_slots<M: Fn(&[u32], &[u32]) -> u32, L: Fn(u32) -> u8, C: Coder>(
        config: SegmentConfig,
        vectors: Vec<Vec<u32>>,
        slots: &[u32],
        metric: &M,
        level_source: &L,
        coder: &C,
    ) -> (r: Result<Self>)
        requires
            config.usable(),
            slots@.len() == vectors@.len(),
            build_fits(config, vectors@.len()),
            metric_ok(*metric),
            level_source_ok(*level_source),
            coder.usable(config.dimensions as nat),
        ensures
            r is Ok <==> all_acceptable(views(vectors@), config.dimensions as nat),
            r matches Err(e) ==> first_rejected(views(vectors@), config.dimensions as nat, e),
            r matches Ok(m) ==> {
                &&& m.starts(config, Seq::empty(), 0, MergePolicy::standard(), 0)
                &&& m.published.mutable.slots@ == slots@
                &&& built_from(
                    config,
                    *metric,
                    *level_source,
                    *coder,
                    views(vectors@),
                    m.published.mutable.index,
                )
            },
    {
        match build_index(&config, &vectors, metric, level_source, coder) {
            Err(e) => Err(e),
            Ok(index) => Ok(Self::from_index(config, index, slots)),
        }
    }

    /// An index became the last of the frozen segments, with a slot for each
    /// vector.
    pub open spec fn gained(
        &self,
        before: &Self,
        index: HNSWIndex<NodeStorage>,
        slots: Seq<u32>,
    ) -> bool {
        &&& self.same_state(before)
        &&& self.published.mutable == before.published.mutable
        &&& self.next_segment_id == before.next_segment_id + 1
        &&& self.published.frozen@.len() == before.published.frozen@.len() + 1
        &&& self.published.frozen@.drop_last() == before.published.frozen@
        &&& self.published.frozen@.last().id == before.next_segment_id
        &&& exists|labelled: HNSWIndex<NodeStorage>|
            {
                &&& #[trigger] relabelled(index, labelled, slots)
                &&& self.published.frozen@.last().index == (HNSWIndex {
                    rng_state: labelled.params.seed,
                    ..labelled
                })
            }
    }

    /// Adds an index that was built apart as a frozen segment, with a slot for
    /// each vector, and starts a merge in the background if it is time for one.
    pub fn add_frozen_from_index<R: Fn(usize, usize) -> u32>(
        &mut self,
        index: HNSWIndex<NodeStorage>,
        slots: &[u32],
        ratio: &R,
    )
        requires
            old(self).wf(),
            index.wf(),
            slots@.len() == index.storage.len,
            frozen_total(old(self).published.frozen@) + index.storage.len <= usize::MAX,
            old(self).next_segment_id + 1 < u64::MAX,
            ratio_ok(*ratio),
        ensures
            final(self).wf(),
            exists|mid: SegmentManager|
                mid.gained(old(self), index, slots@) && #[trigger] final(self).started(
                    &mid,
                    *ratio,
                ),
    {
        let ghost given = index;
        self.add_frozen(index, slots);
        let ghost mid = *self;
        self.try_start_background_merge(ratio);
        assert(mid.gained(old(self), given, slots@) && self.started(&mid, *ratio));
    }

    fn add_frozen(&mut self, index: HNSWIndex<NodeStorage>, slots: &[u32])
        requires
            old(self).wf(),
            index.wf(),
            slots@.len() == index.storage.len,
            old(self).next_segment_id < u64::MAX,
        ensures
            final(self).wf(),
            final(self).gained(old(self), index, slots@),
            frozen_total(final(self).published.frozen@) == frozen_total(
                old(self).published.frozen@,
            ) + index.storage.len,
    {
        let ghost given = index;
        let mut index = index;
        index.storage.remap_slots(slots);
        let ghost labelled = index;
        proof {
            assert(relabelled(given, labelled, slots@));
            lemma_relabelled_wf(given, labelled, slots@);
        }
        let segment = FrozenSegment::from_parts(
            self.next_segment_id,
            index.entry_point,
            index.params,
            index.distance_fn,
            index.storage,
        );
        self.next_segment_id = self.next_segment_id + 1;
        self.published.frozen.push(Arc::new(segment));
        proof {
            let now = self.published.frozen@;
            let before = old(self).published.frozen@;
            assert(now.drop_last() =~= before);
            assert(now.last().wf());
            assert forall|i: int| 0 <= i < now.len() implies (#[trigger] now[i]).wf() by {
                if i < before.len() {
                    assert(before[i].wf());
                }
            }
        }
    }

    pub fn config(&self) -> (r: &SegmentConfig)
        ensures
            *r == self.config,
    {
        &self.config
    }

    pub fn read_view(&self) -> (v: SegmentReadView<'_>)
        ensures
            *v.mutable == self.published.mutable,
            *v.frozen == self.published.frozen,
            *v.config == self.config,
            v.generation == self.generation,
    {
        SegmentReadView {
            mutable: &self.published.mutable,
            frozen: &self.published.frozen,
            config: &self.config,
            generation: self.generation,
        }
    }

    pub fn frozen_count(&self) -> (n: usize)
        ensures
            n == self.published.frozen@.len(),
    {
        self.published.frozen.len()
    }

    pub fn mutable_len(&self) -> (n: usize)
        requires
            self.wf(),
        ensures
            n == self.published.mutable.index.storage.len,
    {
        self.published.mutable.len()
    }

    /// Number of vectors in all segments.
    pub fn len(&self) -> (n: usize)
        requires
            self.wf(),
            self.published.total() <= usize::MAX,
        ensures
            n == self.published.total(),
    {
        self.published.mutable.len() + count_frozen(&self.published.frozen)
    }

    pub fn is_empty(&self) -> (r: bool)
        requires
            self.wf(),
            self.published.total() <= usize::MAX,
        ensures
            r == (self.published.total() == 0),
    {
        self.len() == 0
    }

    /// Bytes that the graphs of all segments take.
    pub fn total_memory(&self) -> (r: usize)
        requires
            self.wf(),
            self.published.mutable.index.storage.memory() + frozen_memory(self.published.frozen@)
                <= usize::MAX,
        ensures
            r == self.published.mutable.index.storage.memory() + frozen_memory(
                self.published.frozen@,
            ),
    {
        let view = self.read_view();
        view.total_memory()
    }

    pub fn frozen_segments(&self) -> (r: &Vec<Arc<FrozenSegment>>)
        ensures
            *r == self.published.frozen,
    {
        &self.published.frozen
    }

    pub fn mutable_segment(&self) -> (r: &MutableSegment)
        ensures
            *r == self.published.mutable,
    {
        &self.published.mutable
    }

    pub fn mutable_segment_mut(&mut self) -> (r: &mut MutableSegment)
        ensures
            *r == old(self).published.mutable,
            *final(self) == (SegmentManager {
                published: PublishedSegments { mutable: *final(r), ..old(self).published },
                ..*old(self)
            }),
    {
        &mut self.published.mutable
    }

    pub fn dimensions(&self) -> (r: usize)
        ensures
            r == self.config.dimensions,
    {
        self.config.dimensions
    }

    pub fn params(&self) -> (r: &HNSWParams)
        ensures
            *r == self.config.params,
    {
        &self.config.params
    }

    pub fn is_quantized(&self) -> (r: bool)
        ensures
            r == self.config.quantization,
    {
        self.config.quantization
    }

    pub fn generation(&self) -> (r: u64)
        ensures
            r == self.generation,
    {
        self.generation
    }

    pub fn merge_policy(&self) -> (r: &MergePolicy)
        ensures
            *r == self.merge_policy,
    {
        &self.merge_policy
    }

    pub fn set_merge_policy(&mut self, policy: MergePolicy)
        ensures
            *final(self) == (SegmentManager { merge_policy: policy, ..*old(self) }),
    {
        self.merge_policy = policy;
    }

    pub fn last_merge_stats(&self) -> (r: Option<&MergeStats>)
        ensures
            r is Some == self.last_merge_stats is Some,
            r is Some ==> *(r->0) == self.last_merge_stats->0,
    {
        match &self.last_merge_stats {
            Some(stats) => Some(stats),
            None => None,
        }
    }

    /// All but the published segments and the next id is the same.
    pub open spec fn same_state(&self, before: &Self) -> bool {
        &&& self.config == before.config
        &&& self.merge_policy == before.merge_policy
        &&& self.last_merge_stats == before.last_merge_stats
        &&& self.generation == before.generation
        &&& self.pending_merge == before.pending_merge
    }

    /// The mutable segment was frozen, and a new one took its place. An empty
    /// one leaves nothing behind.
    pub open spec fn rolled<C: Coder>(&self, before: &Self, coder: C) -> bool {
        let old_mutable = before.published.mutable;
        let old_frozen = before.published.frozen@;
        let new_frozen = self.published.frozen@;
        &&& self.same_state(before)
        &&& self.published.mutable.fresh(
            before.config.dimensions,
            before.config.params,
            before.config.distance_fn,
            before.config.first_capacity(),
            before.config.quantization,
        )
        &&& if old_mutable.index.storage.len == 0 {
            &&& new_frozen == old_frozen
            &&& self.next_segment_id == before.next_segment_id
        } else {
            &&& new_frozen.len() == old_frozen.len() + 1
            &&& new_frozen.drop_last() == old_frozen
            &&& new_frozen.last().freezes(
                &MutableSegment { id: before.next_segment_id, ..old_mutable },
                coder,
            )
            &&& self.next_segment_id == before.next_segment_id + 1
        }
    }

    /// The vectors of the mutable segment, and of one that takes its place, can
    /// be coded.
    pub open spec fn codes_with<C: Coder>(&self, coder: C) -> bool {
        &&& coder.usable(self.config.dimensions as nat)
        &&& coder.usable(self.published.mutable.index.storage.dim())
    }

    /// The mutable segment was frozen, and a merge in the background was started
    /// if it is time for one.
    pub open spec fn froze<C: Coder, R: Fn(usize, usize) -> u32>(
        &self,
        before: &Self,
        coder: C,
        ratio: R,
    ) -> bool {
        exists|mid: SegmentManager|
            mid.rolled(before, coder) && #[trigger] self.started(&mid, ratio)
    }

    /// Numbers suffice to freeze the mutable segment and to start a merge.
    pub open spec fn can_freeze(&self) -> bool {
        &&& self.published.mutable.index.storage.len <= u32::MAX
        &&& self.published.total() <= usize::MAX
        &&& self.next_segment_id + 1 < u64::MAX
    }

    /// Freezes the mutable segment, and starts a merge in the background if it
    /// is time for one.
    pub fn freeze_mutable<C: Coder, R: Fn(usize, usize) -> u32>(
        &mut self,
        coder: &C,
        ratio: &R,
    ) -> (r: Result<()>)
        requires
            old(self).wf(),
            old(self).can_freeze(),
            old(self).codes_with(*coder),
            ratio_ok(*ratio),
        ensures
            final(self).wf(),
            r is Ok,
            final(self).froze(old(self), *coder, *ratio),
            final(self).published.total() == old(self).published.total(),
    {
        match self.roll_over(coder) {
            Err(e) => {
                return Err(e);
            },
            Ok(_) => {},
        }
        let ghost mid = *self;
        self.try_start_background_merge(ratio);
        assert(mid.rolled(old(self), *coder) && self.started(&mid, *ratio));
        Ok(())
    }

    fn roll_over<C: Coder>(&mut self, coder: &C) -> (r: Result<()>)
        requires
            old(self).wf(),
            old(self).published.mutable.index.storage.len <= u32::MAX,
            old(self).next_segment_id < u64::MAX,
            old(self).codes_with(*coder),
        ensures
            final(self).wf(),
            r is Ok,
            final(self).rolled(old(self), *coder),
            final(self).published.total() == old(self).published.total(),
    {
        let config: SegmentConfig = self.config;
        let mut mutable: MutableSegment = match config.new_mutable_segment() {
            Err(e) => {
                return Err(e);
            },
            Ok(m) => m,
        };
        std::mem::swap(&mut self.published.mutable, &mut mutable);
        if !mutable.is_empty() {
            mutable.set_id(self.next_segment_id);
            let frozen: FrozenSegment = mutable.freeze(coder);
            self.next_segment_id = self.next_segment_id + 1;
            self.published.frozen.push(Arc::new(frozen));
            proof {
                let now = self.published.frozen@;
                let before = old(self).published.frozen@;
                assert(now.drop_last() =~= before);
                assert forall|i: int| 0 <= i < now.len() implies (#[trigger] now[i]).wf() by {
                    if i < before.len() {
                        assert(before[i].wf());
                    }
                }
            }
        }
        Ok(())
    }

    /// Freezes the mutable segment unless it is empty.
    pub fn flush<C: Coder, R: Fn(usize, usize) -> u32>(&mut self, coder: &C, ratio: &R) -> (r:
        Result<()>)
        requires
            old(self).wf(),
            old(self).can_freeze(),
            old(self).codes_with(*coder),
            ratio_ok(*ratio),
        ensures
            final(self).wf(),
            r is Ok,
            final(self).flushed(old(self), *coder, *ratio),
            final(self).published.total() == old(self).published.total(),
    {
        if !self.published.mutable.is_empty() {
            return self.freeze_mutable(coder, ratio);
        }
        Ok(())
    }

    /// The mutable segment was frozen unless it was empty.
    pub open spec fn flushed<C: Coder, R: Fn(usize, usize) -> u32>(
        &self,
        before: &Self,
        coder: C,
        ratio: R,
    ) -> bool {
        if before.published.mutable.index.storage.len == 0 {
            *self == *before
        } else {
            self.froze(before, coder, ratio)
        }
    }

    /// The mutable segment is full.
    pub open spec fn is_full(&self) -> bool {
        self.published.mutable.index.storage.len >= self.published.mutable.capacity
    }

    /// There is room for a vector, unless it is turned down anyway.
    pub open spec fn can_insert(&self, vector: Seq<u32>) -> bool {
        if self.is_full() {
            &&& self.can_freeze()
            &&& acceptable(vector, self.config.dimensions as nat) ==> self.config.room(1)
        } else {
            acceptable(vector, self.published.mutable.index.storage.dim())
                ==> self.published.mutable.index.storage.fits(1)
        }
    }

    /// A vector went into the mutable segment.
    pub open spec fn took<M: Fn(&[u32], &[u32]) -> u32, L: Fn(u32) -> u8, C: Coder>(
        &self,
        before: &Self,
        vector: Seq<u32>,
        slot: u32,
        metric: M,
        level_source: L,
        coder: C,
        r: Result<u32>,
    ) -> bool {
        &&& self.same_state(before)
        &&& self.next_segment_id == before.next_segment_id
        &&& self.published.frozen == before.published.frozen
        &&& self.published.mutable.inserted(
            &before.published.mutable,
            vector,
            slot,
            metric,
            level_source,
            coder,
            r,
        )
    }

    /// What an insertion makes of a manager: a full mutable segment is frozen
    /// first.
    pub open spec fn inserted<
        M: Fn(&[u32], &[u32]) -> u32,
        L: Fn(u32) -> u8,
        C: Coder,
        R: Fn(usize, usize) -> u32,
    >(
        &self,
        before: &Self,
        vector: Seq<u32>,
        slot: u32,
        metric: M,
        level_source: L,
        coder: C,
        ratio: R,
        r: Result<u32>,
    ) -> bool {
        if before.is_full() {
            exists|mid: SegmentManager|
                mid.froze(before, coder, ratio) && #[trigger] self.took(
                    &mid,
                    vector,
                    slot,
                    metric,
                    level_source,
                    coder,
                    r,
                )
        } else {
            self.took(before, vector, slot, metric, level_source, coder, r)
        }
    }

    /// Inserts a vector that belongs to a slot, and returns its id in its
    /// segment.
    pub fn insert_with_slot<
        M: Fn(&[u32], &[u32]) -> u32,
        L: Fn(u32) -> u8,
        C: Coder,
        R: Fn(usize, usize) -> u32,
    >(
        &mut self,
        vector: &[u32],
        slot: u32,
        metric: &M,
        level_source: &L,
        coder: &C,
        ratio: &R,
    ) -> (r: Result<u32>)
        requires
            old(self).wf(),
            old(self).can_insert(vector@),
            metric_ok(*metric),
            level_source_ok(*level_source),
            old(self).codes_with(*coder),
            ratio_ok(*ratio),
        ensures
            final(self).wf(),
            final(self).inserted(
                old(self),
                vector@,
                slot,
                *metric,
                *level_source,
                *coder,
                *ratio,
                r,
            ),
            final(self).published.total() == old(self).published.total() + (if r is Ok {
                1int
            } else {
                0
            }),
    {
        if self.published.mutable.is_full() {
            match self.freeze_mutable(coder, ratio) {
                Err(e) => {
                    return Err(e);
                },
                Ok(_) => {},
            }
        }
        let ghost mid = *self;
        let r = self.published.mutable.insert_with_slot(vector, slot, metric, level_source, coder);
        assert(self.took(&mid, vector@, slot, *metric, *level_source, *coder, r));
        r
    }

    /// Inserts a vector whose slot is the number of vectors before it.
    pub fn insert<
        M: Fn(&[u32], &[u32]) -> u32,
        L: Fn(u32) -> u8,
        C: Coder,
        R: Fn(usize, usize) -> u32,
    >(
        &mut self,
        vector: &[u32],
        metric: &M,
        level_source: &L,
        coder: &C,
        ratio: &R,
    ) -> (r: Result<u32>)
        requires
            old(self).wf(),
            old(self).can_insert(vector@),
            old(self).published.total() <= usize::MAX,
            metric_ok(*metric),
            level_source_ok(*level_source),
            old(self).codes_with(*coder),
            ratio_ok(*ratio),
        ensures
            final(self).wf(),
            final(self).inserted(
                old(self),
                vector@,
                old(self).published.total() as u32,
                *metric,
                *level_source,
                *coder,
                *ratio,
                r,
            ),
            final(self).published.total() == old(self).published.total() + (if r is Ok {
                1int
            } else {
                0
            }),
    {
        let slot: u32 = self.len() as u32;
        self.insert_with_slot(vector, slot, metric, level_source, coder, ratio)
    }

    /// Searches all segments for the `k` nearest neighbours of a query.
    pub fn search<M: Fn(&[u32], &[u32]) -> u32>(
        &self,
        query: &[u32],
        k: usize,
        ef: usize,
        metric: &M,
    ) -> (r: Result<Vec<SegmentSearchResult>>)
        requires
            self.wf(),
            metric_ok(*metric),
        ensures
            exists|view: SegmentReadView<'_>|
                {
                    &&& *view.mutable == self.published.mutable
                    &&& *view.frozen == self.published.frozen
                    &&& #[trigger] view.found(*metric, query@, k, ef, segment_results(r))
                },
    {
        let view = self.read_view();
        let r = view.search(query, k, ef, metric);
        assert(view.found(*metric, query@, k, ef, segment_results(r)));
        r
    }

    /// Searches all segments for the `k` nearest neighbours whose slots a
    /// filter lets through.
    pub fn search_with_filter<M: Fn(&[u32], &[u32]) -> u32, F: Fn(u32) -> bool>(
        &self,
        query: &[u32],
        k: usize,
        ef: usize,
        metric: &M,
        filter: &F,
    ) -> (r: Result<Vec<SegmentSearchResult>>)
        requires
            self.wf(),
            metric_ok(*metric),
            filter_ok(*filter),
            k * 4 <= usize::MAX,
        ensures
            exists|view: SegmentReadView<'_>|
                {
                    &&& *view.mutable == self.published.mutable
                    &&& *view.frozen == self.published.frozen
                    &&& #[trigger] view.found_filtered(
                        *metric,
                        query@,
                        k,
                        ef,
                        *filter,
                        segment_results(r),
                    )
                },
    {
        let view = self.read_view();
        let r = view.search_with_filter(query, k, ef, metric, filter);
        assert(view.found_filtered(*metric, query@, k, ef, *filter, segment_results(r)));
        r
    }
}

} // verus!
