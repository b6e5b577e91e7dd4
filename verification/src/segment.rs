//! Segments: parts of an index that are written and read apart.
//!
//! A mutable segment takes vectors in. Frozen, it is only read: its slots move
//! into the storage, and its nodes are put in an order that suits reading.

use vstd::prelude::*;

use crate::distance::{all_finite, metric_ok};
use crate::error::{HNSWError, Result};
use crate::graph::{admitted, filter_fn, filter_ok, links_below, passes, GraphStore, NodeFilter};
use crate::index::coded::{index_taught, vector_inserted};
use crate::index::colocated::index_reordered;
use crate::index::insert::{capped_level, level_source_ok, std_rng_draw};
use crate::index::parallel::acceptable;
use crate::index::search::{searched, searched_filtered, seen_results};
use crate::index::HNSWIndex;
use crate::node_storage::quantization::{recoded, Coder, CODES};
use crate::node_storage::{node_params_fit, NodeStorage};
use crate::storage::slice_to_vec;
use crate::types::{HNSWParams, Metric, SearchResult};

verus! {

/// Vectors that a segment takes before it is frozen, unless told otherwise.
pub const DEFAULT_CAPACITY: usize = 100_000;

/// What a search of a segment returns.
#[derive(Debug, Clone, Copy, PartialEq, Eq, Structural)]
pub struct SegmentSearchResult {
    /// Id within the segment.
    pub id: u32,
    /// Bits of the distance to the query.
    pub distance: u32,
    /// The slot that was given with the vector.
    pub slot: u32,
}

impl SegmentSearchResult {
    pub fn new(id: u32, distance: u32, slot: u32) -> (r: Self)
        ensures
            r == (SegmentSearchResult { id, distance, slot }),
    {
        SegmentSearchResult { id, distance, slot }
    }
}

/// The slot of a node; its id where no slot is known.
pub open spec fn slot_for(slots: Seq<u32>, id: u32) -> u32 {
    if id < slots.len() { slots[id as int] } else { id }
}

/// Search results with the slots of their nodes.
pub open spec fn with_slots(results: Seq<SearchResult>, slots: Seq<u32>) -> Seq<
    SegmentSearchResult,
> {
    results.map_values(
        |r: SearchResult|
            SegmentSearchResult {
                id: r.slot,
                distance: r.distance,
                slot: slot_for(slots, r.slot),
            },
    )
}

/// The results that were returned, or the error.
pub open spec fn segment_results(r: Result<Vec<SegmentSearchResult>>) -> Result<
    Seq<SegmentSearchResult>,
> {
    match r {
        Ok(v) => Ok(v@),
        Err(e) => Err(e),
    }
}

/// Lets nodes through by their slots.
pub struct BySlot<'a, F> {
    pub filter: &'a F,
    pub slots: &'a [u32],
}

fn find_slot(slots: &[u32], id: u32) -> (slot: u32)
    ensures
        slot == slot_for(slots@, id),
{
    if (id as usize) < slots.len() {
        slots[id as usize]
    } else {
        id
    }
}

impl<'a, F: Fn(u32) -> bool> NodeFilter for BySlot<'a, F> {
    open spec fn usable(&self) -> bool {
        filter_ok(*self.filter)
    }

    open spec fn admits(&self, id: u32) -> bool {
        filter_fn(*self.filter)(slot_for(self.slots@, id))
    }

    fn check(&self, id: u32) -> (r: bool) {
        passes(self.filter, find_slot(self.slots, id))
    }
}

/// The nodes whose slots a filter lets through.
pub open spec fn by_slot<F: Fn(u32) -> bool>(filter: F, slots: Seq<u32>) -> spec_fn(u32) -> bool {
    |id: u32| filter_fn(filter)(slot_for(slots, id))
}

fn attach_slots(results: &Vec<SearchResult>, slots: &[u32]) -> (r: Vec<SegmentSearchResult>)
    ensures
        r@ == with_slots(results@, slots@),
{
    let mut r: Vec<SegmentSearchResult> = Vec::new();
    let mut i: usize = 0;
    while i < results.len()
        invariant
            i <= results@.len(),
            r@ == with_slots(results@.take(i as int), slots@),
        decreases results.len() - i,
    {
        let one: SearchResult = results[i];
        r.push(SegmentSearchResult::new(one.slot, one.distance, find_slot(slots, one.slot)));
        assert(r@ =~= with_slots(results@.take(i + 1), slots@));
        i += 1;
    }
    assert(results@.take(i as int) =~= results@);
    r
}

/// A segment that takes vectors in.
#[derive(Debug)]
pub struct MutableSegment {
    pub index: HNSWIndex<NodeStorage>,
    pub id: u64,
    /// Number of vectors at which the segment is full.
    pub capacity: usize,
    /// The slot of each vector.
    pub slots: Vec<u32>,
}

impl MutableSegment {
    /// The index is well-formed, and every vector has a slot.
    pub open spec fn wf(&self) -> bool {
        self.index.wf() && self.slots@.len() == self.index.storage.len
    }

    /// What a new segment is like.
    pub open spec fn fresh(
        &self,
        dimensions: usize,
        params: HNSWParams,
        distance_fn: Metric,
        capacity: usize,
        sq8: bool,
    ) -> bool {
        &&& self.wf()
        &&& self.index.storage.created(dimensions, params.m, params.max_level as usize, sq8)
        &&& self.index.entry_point is None
        &&& self.index.params == params
        &&& self.index.distance_fn == distance_fn
        &&& self.index.rng_state == params.seed
        &&& self.id == 0
        &&& self.capacity == capacity
        &&& self.slots@.len() == 0
    }

    pub fn new(dimensions: usize, params: HNSWParams, distance_fn: Metric) -> (r: Result<Self>)
        requires
            node_params_fit(dimensions as nat, params.m as nat),
        ensures
            r matches Ok(s) && s.fresh(
                dimensions,
                params,
                distance_fn,
                DEFAULT_CAPACITY,
                false,
            ),
    {
        Self::with_capacity(dimensions, params, distance_fn, DEFAULT_CAPACITY)
    }

    /// A segment that is full at a given number of vectors.
    pub fn with_capacity(
        dimensions: usize,
        params: HNSWParams,
        distance_fn: Metric,
        capacity: usize,
    ) -> (r: Result<Self>)
        requires
            node_params_fit(dimensions as nat, params.m as nat),
        ensures
            r matches Ok(s) && s.fresh(dimensions, params, distance_fn, capacity, false),
    {
        Ok(
            MutableSegment {
                index: HNSWIndex::new_colocated(dimensions, params, distance_fn),
                id: 0,
                capacity,
                slots: Vec::new(),
            },
        )
    }

    /// An empty segment that holds its vectors in SQ8 mode.
    pub fn new_quantized(dimensions: usize, params: HNSWParams, distance_fn: Metric) -> (r: Result<
        Self,
    >)
        requires
            node_params_fit(dimensions as nat, params.m as nat),
        ensures
            r matches Ok(s) && s.fresh(dimensions, params, distance_fn, DEFAULT_CAPACITY, true),
    {
        Ok(
            MutableSegment {
                index: HNSWIndex::new_coded(dimensions, params, distance_fn),
                id: 0,
                capacity: DEFAULT_CAPACITY,
                slots: Vec::new(),
            },
        )
    }

    /// A segment over an index that was built apart, with a slot for each
    /// vector.
    pub fn from_index(index: HNSWIndex<NodeStorage>, slots: &[u32]) -> (r: Self)
        requires
            index.wf(),
            slots@.len() == index.storage.len,
        ensures
            r.wf(),
            r.index == index,
            r.slots@ == slots@,
            r.id == 0,
            r.capacity == (if index.storage.len >= DEFAULT_CAPACITY {
                index.storage.len
            } else {
                DEFAULT_CAPACITY
            }),
    {
        let n: usize = index.len();
        MutableSegment {
            id: 0,
            capacity: if n >= DEFAULT_CAPACITY { n } else { DEFAULT_CAPACITY },
            slots: slice_to_vec(slots),
            index,
        }
    }

    /// A segment over an index that was built apart, in which the slot of each
    /// vector is its id.
    pub fn from_index_sequential(index: HNSWIndex<NodeStorage>) -> (r: Self)
        requires
            index.wf(),
        ensures
            r.wf(),
            r.index == index,
            forall|i: int| 0 <= i < r.slots@.len() ==> #[trigger] r.slots@[i] == i,
            r.id == 0,
            r.capacity == (if index.storage.len >= DEFAULT_CAPACITY {
                index.storage.len
            } else {
                DEFAULT_CAPACITY
            }),
    {
        let n: usize = index.len();
        let mut slots: Vec<u32> = Vec::new();
        let mut i: usize = 0;
        while i < n
            invariant
                i <= n <= u32::MAX + 1,
                slots@.len() == i,
                forall|j: int| 0 <= j < i ==> #[trigger] slots@[j] == j,
            decreases n - i,
        {
            slots.push(i as u32);
            i += 1;
        }
        MutableSegment {
            id: 0,
            capacity: if n >= DEFAULT_CAPACITY { n } else { DEFAULT_CAPACITY },
            slots,
            index,
        }
    }

    pub fn id(&self) -> (r: u64)
        ensures
            r == self.id,
    {
        self.id
    }

    pub fn set_id(&mut self, id: u64)
        ensures
            *final(self) == (MutableSegment { id, ..*old(self) }),
    {
        self.id = id;
    }

    pub fn len(&self) -> (n: usize)
        requires
            self.wf(),
        ensures
            n == self.index.storage.len,
    {
        self.index.len()
    }

    pub fn is_empty(&self) -> (r: bool)
        requires
            self.wf(),
        ensures
            r == (self.index.storage.len == 0),
    {
        self.index.is_empty()
    }

    pub fn is_full(&self) -> (r: bool)
        requires
            self.wf(),
        ensures
            r == (self.index.storage.len >= self.capacity),
    {
        self.len() >= self.capacity
    }

    pub fn dimensions(&self) -> (d: usize)
        requires
            self.wf(),
        ensures
            d == self.index.storage.dimensions,
    {
        self.index.dimensions()
    }

    pub fn params(&self) -> (r: &HNSWParams)
        ensures
            *r == self.index.params,
    {
        self.index.params()
    }

    pub fn distance_function(&self) -> (r: Metric)
        ensures
            r == self.index.distance_fn,
    {
        self.index.distance_function()
    }

    pub fn entry_point(&self) -> (r: Option<u32>)
        ensures
            r == self.index.entry_point,
    {
        self.index.entry_point()
    }

    pub fn index(&self) -> (r: &HNSWIndex<NodeStorage>)
        ensures
            *r == self.index,
    {
        &self.index
    }

    pub fn index_mut(&mut self) -> (r: &mut HNSWIndex<NodeStorage>)
        ensures
            *r == old(self).index,
            *final(self) == (MutableSegment { index: *final(r), ..*old(self) }),
    {
        &mut self.index
    }

    /// The slot of a vector.
    pub fn get_slot(&self, local_id: u32) -> (r: Option<u32>)
        ensures
            r == (if local_id < self.slots@.len() {
                Some(self.slots@[local_id as int])
            } else {
                None
            }),
    {
        if (local_id as usize) < self.slots.len() {
            Some(self.slots[local_id as usize])
        } else {
            None
        }
    }

    /// What an insertion makes of a segment. One that fails leaves it alone.
    pub open spec fn inserted<M: Fn(&[u32], &[u32]) -> u32, L: Fn(u32) -> u8, C: Coder>(
        &self,
        before: &Self,
        vector: Seq<u32>,
        slot: u32,
        metric: M,
        level_source: L,
        coder: C,
        r: Result<u32>,
    ) -> bool {
        let dim = before.index.storage.dim();
        &&& vector.len() != dim ==> r == Err::<u32, HNSWError>(
            HNSWError::DimensionMismatch { expected: dim as usize, actual: vector.len() as usize },
        )
        &&& vector.len() == dim && !all_finite(vector) ==> r == Err::<u32, HNSWError>(
            HNSWError::InvalidVector,
        )
        &&& vector.len() == dim && all_finite(vector) ==> {
            &&& r == Ok::<u32, HNSWError>(before.index.storage.len as u32)
            &&& self.slots@ == before.slots@.push(slot)
            &&& self.index.storage.len == before.index.storage.len + 1
            &&& self.index.rng_state == std_rng_draw(before.index.rng_state).1
            &&& vector_inserted(
                before.index,
                self.index,
                metric,
                vector,
                capped_level(
                    level_source,
                    std_rng_draw(before.index.rng_state).0,
                    before.index.params.max_level,
                ),
                coder,
            )
        }
        &&& r is Err ==> *self == *before
        &&& self.id == before.id
        &&& self.capacity == before.capacity
    }

    /// Inserts a vector that belongs to a slot, and returns its id in the
    /// segment.
    pub fn insert_with_slot<M: Fn(&[u32], &[u32]) -> u32, L: Fn(u32) -> u8, C: Coder>(
        &mut self,
        vector: &[u32],
        slot: u32,
        metric: &M,
        level_source: &L,
        coder: &C,
    ) -> (r: Result<u32>)
        requires
            old(self).wf(),
            metric_ok(*metric),
            level_source_ok(*level_source),
            coder.usable(old(self).index.storage.dim()),
            acceptable(vector@, old(self).index.storage.dim()) ==> old(self).index.storage.fits(1),
        ensures
            final(self).wf(),
            final(self).inserted(
                old(self),
                vector@,
                slot,
                *metric,
                *level_source,
                *coder,
                r,
            ),
            r is Ok ==> forall|n: nat|
                old(self).index.storage.fits(n + 1) ==> #[trigger] final(self).index.storage.fits(n),
    {
        match self.index.insert_vector(vector, metric, level_source, coder) {
            Err(e) => Err(e),
            Ok(id) => {
                self.slots.push(slot);
                Ok(id)
            },
        }
    }

    /// Inserts a vector whose slot is its id.
    pub fn insert<M: Fn(&[u32], &[u32]) -> u32, L: Fn(u32) -> u8, C: Coder>(
        &mut self,
        vector: &[u32],
        metric: &M,
        level_source: &L,
        coder: &C,
    ) -> (r: Result<u32>)
        requires
            old(self).wf(),
            metric_ok(*metric),
            level_source_ok(*level_source),
            coder.usable(old(self).index.storage.dim()),
            acceptable(vector@, old(self).index.storage.dim()) ==> old(self).index.storage.fits(1),
        ensures
            final(self).wf(),
            final(self).inserted(
                old(self),
                vector@,
                old(self).slots@.len() as u32,
                *metric,
                *level_source,
                *coder,
                r,
            ),
            r is Ok ==> forall|n: nat|
                old(self).index.storage.fits(n + 1) ==> #[trigger] final(self).index.storage.fits(n),
    {
        let slot: u32 = self.slots.len() as u32;
        self.insert_with_slot(vector, slot, metric, level_source, coder)
    }

    /// What a search of the segment returns: what its index finds, with the
    /// slots.
    pub open spec fn found<M: Fn(&[u32], &[u32]) -> u32>(
        &self,
        metric: M,
        query: Seq<u32>,
        k: usize,
        ef: usize,
        r: Result<Seq<SegmentSearchResult>>,
    ) -> bool {
        exists|inner: Result<Seq<SearchResult>>| #[trigger]
            searched(self.index, metric, query, k, ef, inner) && r == slotted(inner, self.slots@)
    }

    /// What a filtered search of the segment returns; the filter is asked about
    /// slots.
    pub open spec fn found_filtered<M: Fn(&[u32], &[u32]) -> u32, F: Fn(u32) -> bool>(
        &self,
        metric: M,
        query: Seq<u32>,
        k: usize,
        ef: usize,
        filter: F,
        r: Result<Seq<SegmentSearchResult>>,
    ) -> bool {
        exists|inner: Result<Seq<SearchResult>>| #[trigger]
            searched_filtered(
                self.index,
                metric,
                query,
                k,
                ef,
                by_slot(filter, self.slots@),
                inner,
            ) && r == slotted(inner, self.slots@)
    }

    /// Searches for the `k` nearest neighbours of a query.
    pub fn search<M: Fn(&[u32], &[u32]) -> u32>(
        &self,
        query: &[u32],
        k: usize,
        ef: usize,
        metric: &M,
    ) -> (r: Result<Vec<SegmentSearchResult>>)
        requires
            self.wf(),
            metric_ok(*metric),
        ensures
            self.found(*metric, query@, k, ef, segment_results(r)),
    {
        let inner = self.index.search(query, k, ef, metric);
        let ghost got = seen_results(inner);
        assert(searched(self.index, *metric, query@, k, ef, got));
        match inner {
            Err(e) => Err(e),
            Ok(results) => Ok(attach_slots(&results, self.slots.as_slice())),
        }
    }

    /// Searches for the `k` nearest neighbours whose slots a filter lets
    /// through.
    pub fn search_with_filter<M: Fn(&[u32], &[u32]) -> u32, F: Fn(u32) -> bool>(
        &self,
        query: &[u32],
        k: usize,
        ef: usize,
        metric: &M,
        filter: &F,
    ) -> (r: Result<Vec<SegmentSearchResult>>)
        requires
            self.wf(),
            metric_ok(*metric),
            filter_ok(*filter),
            k * 4 <= usize::MAX,
        ensures
            self.found_filtered(*metric, query@, k, ef, *filter, segment_results(r)),
    {
        let by = BySlot { filter, slots: self.slots.as_slice() };
        assert(admitted(by) =~= by_slot(*filter, self.slots@));
        let inner = self.index.search_admitted(query, k, ef, metric, &by);
        let ghost got = seen_results(inner);
        assert(searched_filtered(
            self.index,
            *metric,
            query@,
            k,
            ef,
            by_slot(*filter, self.slots@),
            got,
        ));
        match inner {
            Err(e) => Err(e),
            Ok(results) => Ok(attach_slots(&results, self.slots.as_slice())),
        }
    }

    /// Freezes the segment.
    pub fn freeze<C: Coder>(self, coder: &C) -> (r: FrozenSegment)
        requires
            self.wf(),
            self.index.storage.len <= u32::MAX,
            coder.usable(self.index.storage.dim()),
        ensures
            r.wf(),
            r.freezes(&self, *coder),
    {
        FrozenSegment::from_mutable(self, coder)
    }
}

/// Results with slots, or the error.
pub open spec fn slotted(inner: Result<Seq<SearchResult>>, slots: Seq<u32>) -> Result<
    Seq<SegmentSearchResult>,
> {
    match inner {
        Ok(s) => Ok(with_slots(s, slots)),
        Err(e) => Err(e),
    }
}

/// A segment that is only read.
#[derive(Debug)]
pub struct FrozenSegment {
    pub index: HNSWIndex<NodeStorage>,
    pub id: u64,
}

/// Lets nodes through by the slots in their storage.
pub struct ByStoredSlot<'a, F> {
    pub filter: &'a F,
    pub storage: &'a NodeStorage,
}

/// The slots in a storage.
pub open spec fn stored_slots(storage: &NodeStorage) -> Seq<u32> {
    Seq::new(storage.len as nat, |i: int| storage.slot_of(i as u32))
}

impl<'a, F: Fn(u32) -> bool> NodeFilter for ByStoredSlot<'a, F> {
    open spec fn usable(&self) -> bool {
        filter_ok(*self.filter) && self.storage.wf()
    }

    open spec fn admits(&self, id: u32) -> bool {
        filter_fn(*self.filter)(slot_for(stored_slots(self.storage), id))
    }

    fn check(&self, id: u32) -> (r: bool) {
        if (id as usize) < self.storage.len {
            passes(self.filter, self.storage.slot(id))
        } else {
            passes(self.filter, id)
        }
    }
}

/// Results of a frozen segment, in which the slot stands for the node.
pub open spec fn by_slots_only(results: Seq<SearchResult>, slots: Seq<u32>) -> Seq<
    SegmentSearchResult,
> {
    results.map_values(
        |r: SearchResult|
            SegmentSearchResult {
                id: slot_for(slots, r.slot),
                distance: r.distance,
                slot: slot_for(slots, r.slot),
            },
    )
}

/// Results of a frozen segment; nothing where the search failed.
pub open spec fn frozen_results(inner: Result<Seq<SearchResult>>, slots: Seq<u32>) -> Seq<
    SegmentSearchResult,
> {
    match inner {
        Ok(s) => by_slots_only(s, slots),
        Err(e) => Seq::empty(),
    }
}

impl FrozenSegment {
    pub open spec fn wf(&self) -> bool {
        self.index.wf()
    }

    pub open spec fn slots(&self) -> Seq<u32> {
        stored_slots(&self.index.storage)
    }

    /// A segment from its parts.
    pub fn from_parts(
        id: u64,
        entry_point: Option<u32>,
        params: HNSWParams,
        distance_fn: Metric,
        storage: NodeStorage,
    ) -> (r: Self)
        ensures
            r.id == id,
            r.index == (HNSWIndex {
                storage,
                entry_point,
                params,
                distance_fn,
                rng_state: params.seed,
            }),
    {
        FrozenSegment {
            index: HNSWIndex { storage, entry_point, rng_state: params.seed, params, distance_fn },
            id,
        }
    }

    /// The segment holds what a mutable one held: the vectors with their levels
    /// and slots, and the links between them, in the order of a breadth-first
    /// walk where there is an entry point to walk from. In SQ8 mode the
    /// quantization is trained first, if it is not yet.
    pub open spec fn freezes<C: Coder>(&self, mutable: &MutableSegment, coder: C) -> bool {
        &&& self.id == mutable.id
        &&& self.index.params == mutable.index.params
        &&& self.index.distance_fn == mutable.index.distance_fn
        &&& self.index.rng_state == mutable.index.params.seed
        &&& self.index.storage.len == mutable.index.storage.len
        &&& self.index.storage.dimensions == mutable.index.storage.dimensions
        &&& self.index.storage.sq8 == mutable.index.storage.sq8
        &&& exists|
            taught: HNSWIndex<NodeStorage>,
            labelled: HNSWIndex<NodeStorage>,
            thawed: HNSWIndex<NodeStorage>,
        |
            {
                &&& index_taught(mutable.index, taught, coder)
                &&& #[trigger] relabelled(taught, labelled, mutable.slots@)
                &&& #[trigger] settled(labelled, thawed)
                &&& self.index.storage == thawed.storage
                &&& self.index.entry_point == thawed.entry_point
            }
    }

    fn from_mutable<C: Coder>(mutable: MutableSegment, coder: &C) -> (r: Self)
        requires
            mutable.wf(),
            mutable.index.storage.len <= u32::MAX,
            coder.usable(mutable.index.storage.dim()),
        ensures
            r.wf(),
            r.freezes(&mutable, *coder),
    {
        let ghost given = mutable;
        let id: u64 = mutable.id;
        let slots: Vec<u32> = mutable.slots;
        let mut index: HNSWIndex<NodeStorage> = mutable.index;
        index.flush_training(coder);
        let ghost taught = index;
        proof {
            taught.storage.lemma_taught(&given.index.storage, *coder);
        }
        index.storage.remap_slots(slots.as_slice());
        let ghost labelled = index;
        proof {
            lemma_relabelled_wf(taught, labelled, slots@);
        }
        index.optimize_cache_locality();
        let ghost thawed = index;
        proof {
            assert(index_taught(given.index, taught, *coder));
            assert(relabelled(taught, labelled, slots@));
            assert(settled(labelled, thawed));
            if labelled.entry_point is Some {
                let (order, places) = choose|order: Seq<u32>, places: Seq<u32>|
                    index_reordered(labelled, thawed, order, places);
                assert(thawed.storage.header_sizes()[0] == labelled.storage.header_sizes()[0]);
                assert(thawed.storage.header_sizes()[5] == labelled.storage.header_sizes()[5]);
            }
        }
        let params: HNSWParams = index.params;
        let distance_fn: Metric = index.distance_fn;
        Self::from_parts(id, index.entry_point, params, distance_fn, index.storage)
    }

    pub fn id(&self) -> (r: u64)
        ensures
            r == self.id,
    {
        self.id
    }

    pub fn len(&self) -> (n: usize)
        requires
            self.wf(),
        ensures
            n == self.index.storage.len,
    {
        self.index.len()
    }

    pub fn is_empty(&self) -> (r: bool)
        requires
            self.wf(),
        ensures
            r == (self.index.storage.len == 0),
    {
        self.index.is_empty()
    }

    pub fn entry_point(&self) -> (r: Option<u32>)
        ensures
            r == self.index.entry_point,
    {
        self.index.entry_point()
    }

    pub fn params(&self) -> (r: &HNSWParams)
        ensures
            *r == self.index.params,
    {
        self.index.params()
    }

    pub fn distance_function(&self) -> (r: Metric)
        ensures
            r == self.index.distance_fn,
    {
        self.index.distance_function()
    }

    pub fn index(&self) -> (r: &HNSWIndex<NodeStorage>)
        ensures
            *r == self.index,
    {
        &self.index
    }

    pub fn storage(&self) -> (r: &NodeStorage)
        ensures
            *r == self.index.storage,
    {
        &self.index.storage
    }

    /// The segment is another one, but for the values of its codes, which were
    /// found again.
    pub open spec fn has_values<C: Coder>(&self, read: &Self, coder: C) -> bool {
        let a = self.index.storage;
        let b = read.index.storage;
        &&& *self == (FrozenSegment {
            index: HNSWIndex { storage: NodeStorage { code_values: a.code_values, ..b }, ..read.index },
            ..*read
        })
        &&& a.code_values@ == (match b.sq8_params {
            Some(params) => coder.meaning(params),
            None => b.code_values@,
        })
        &&& b.sq8_params is Some ==> a.code_values@.len() == CODES
    }

    /// Finds the values of the codes again, for a segment that was read back.
    pub fn restore_values<C: Coder>(&mut self, coder: &C)
        requires
            coder.usable(old(self).index.storage.dim()),
        ensures
            final(self).has_values(old(self), *coder),
    {
        self.index.storage.restore_values(coder);
    }

    /// What a search of the segment returns.
    pub open spec fn found<M: Fn(&[u32], &[u32]) -> u32>(
        &self,
        metric: M,
        query: Seq<u32>,
        k: usize,
        ef: usize,
        r: Seq<SegmentSearchResult>,
    ) -> bool {
        exists|inner: Result<Seq<SearchResult>>| #[trigger]
            searched(self.index, metric, query, k, ef, inner) && r == frozen_results(
                inner,
                self.slots(),
            )
    }

    /// What a filtered search of the segment returns; the filter is asked about
    /// slots.
    pub open spec fn found_filtered<M: Fn(&[u32], &[u32]) -> u32, F: Fn(u32) -> bool>(
        &self,
        metric: M,
        query: Seq<u32>,
        k: usize,
        ef: usize,
        filter: F,
        r: Seq<SegmentSearchResult>,
    ) -> bool {
        exists|inner: Result<Seq<SearchResult>>| #[trigger]
            searched_filtered(self.index, metric, query, k, ef, by_slot(filter, self.slots()), inner)
                && r == frozen_results(inner, self.slots())
    }

    fn name_by_slots(&self, results: &Vec<SearchResult>) -> (r: Vec<SegmentSearchResult>)
        requires
            self.wf(),
        ensures
            r@ == by_slots_only(results@, self.slots()),
    {
        let mut r: Vec<SegmentSearchResult> = Vec::new();
        let mut i: usize = 0;
        while i < results.len()
            invariant
                i <= results@.len(),
                self.wf(),
                r@ == by_slots_only(results@.take(i as int), self.slots()),
            decreases results.len() - i,
        {
            let one: SearchResult = results[i];
            let slot: u32 = if (one.slot as usize) < self.index.storage.len {
                self.index.storage.slot(one.slot)
            } else {
                one.slot
            };
            r.push(SegmentSearchResult::new(slot, one.distance, slot));
            assert(r@ =~= by_slots_only(results@.take(i + 1), self.slots()));
            i += 1;
        }
        assert(results@.take(i as int) =~= results@);
        r
    }

    /// Searches for the `k` nearest neighbours of a query. A search that fails
    /// finds nothing.
    pub fn search<M: Fn(&[u32], &[u32]) -> u32>(
        &self,
        query: &[u32],
        k: usize,
        ef: usize,
        metric: &M,
    ) -> (r: Vec<SegmentSearchResult>)
        requires
            self.wf(),
            metric_ok(*metric),
        ensures
            self.found(*metric, query@, k, ef, r@),
    {
        let inner = self.index.search(query, k, ef, metric);
        let ghost got = seen_results(inner);
        assert(searched(self.index, *metric, query@, k, ef, got));
        match inner {
            Err(_) => Vec::new(),
            Ok(results) => self.name_by_slots(&results),
        }
    }

    /// Searches for the `k` nearest neighbours whose slots a filter lets
    /// through.
    pub fn search_with_filter<M: Fn(&[u32], &[u32]) -> u32, F: Fn(u32) -> bool>(
        &self,
        query: &[u32],
        k: usize,
        ef: usize,
        metric: &M,
        filter: &F,
    ) -> (r: Vec<SegmentSearchResult>)
        requires
            self.wf(),
            metric_ok(*metric),
            filter_ok(*filter),
            k * 4 <= usize::MAX,
        ensures
            self.found_filtered(*metric, query@, k, ef, *filter, r@),
    {
        let by = ByStoredSlot { filter, storage: &self.index.storage };
        assert(admitted(by) =~= by_slot(*filter, self.slots()));
        let inner = self.index.search_admitted(query, k, ef, metric, &by);
        let ghost got = seen_results(inner);
        assert(searched_filtered(
            self.index,
            *metric,
            query@,
            k,
            ef,
            by_slot(*filter, self.slots()),
            got,
        ));
        match inner {
            Err(_) => Vec::new(),
            Ok(results) => self.name_by_slots(&results),
        }
    }
}

/// An index with the same nodes and links whose storage holds the slots.
pub open spec fn relabelled(
    before: HNSWIndex<NodeStorage>,
    after: HNSWIndex<NodeStorage>,
    slots: Seq<u32>,
) -> bool {
    let a = after.storage;
    let b = before.storage;
    &&& after.entry_point == before.entry_point
    &&& after.params == before.params
    &&& after.distance_fn == before.distance_fn
    &&& after.rng_state == before.rng_state
    &&& b.same_shape(&a)
    &&& b.same_rest(&a)
    &&& forall|i: u32| i < b.len ==> #[trigger] a.slot_of(i) == slots[i as int]
    &&& forall|i: u32| i < b.len ==> #[trigger] a.vec(i) == b.vec(i)
    &&& forall|i: u32| i < b.len ==> #[trigger] a.node_level(i) == b.node_level(i)
    &&& forall|i: u32, l: u8| i < b.len ==> #[trigger] a.links(i, l) == b.links(i, l)
}

/// An index was put in the order for reading, if it has an entry point.
pub open spec fn settled(before: HNSWIndex<NodeStorage>, after: HNSWIndex<NodeStorage>) -> bool {
    match before.entry_point {
        None => after == before,
        Some(e) => exists|order: Seq<u32>, places: Seq<u32>|
            index_reordered(before, after, order, places),
    }
}

/// An index that was labelled with slots is well-formed.
pub proof fn lemma_relabelled_wf(
    before: HNSWIndex<NodeStorage>,
    after: HNSWIndex<NodeStorage>,
    slots: Seq<u32>,
)
    requires
        before.wf(),
        relabelled(before, after, slots),
        after.storage.wf(),
    ensures
        after.wf(),
{
    let a = after.storage;
    let b = before.storage;
    assert forall|level: u8| #[trigger] links_below(a, level, a.node_count()) by {
        assert(links_below(b, level, b.node_count()));
        assert forall|id: u32, j: int|
            id < a.node_count() && 0 <= j < a.links_at(id, level).len() implies (
        #[trigger] a.links_at(id, level)[j]) < a.node_count() by {
            assert(a.links(id, level) == b.links(id, level));
            assert(b.links_at(id, level)[j] < b.node_count());
        }
    }
    assert forall|level: u8| #[trigger] a.link_cap(level) == after.params.links(level) by {
        assert(b.link_cap(level) == before.params.links(level));
    }
    assert forall|id: u32| id < a.node_count() implies #[trigger] a.level_at(id)
        <= after.params.max_level by {
        assert(a.node_level(id) == b.node_level(id));
        assert(b.level_at(id) <= before.params.max_level);
    }
    assert forall|id: u32, level: u8| id < a.node_count() implies #[trigger] a.links_at(
        id,
        level,
    ).len() <= after.params.links(level) by {
        assert(a.links(id, level) == b.links(id, level));
        assert(b.links_at(id, level).len() <= before.params.links(level));
    }
}

/// A storage holds the nodes of another one, each in its place, with vector,
/// slot and level.
pub open spec fn keeps_nodes(before: &NodeStorage, after: &NodeStorage, places: Seq<u32>) -> bool {
    &&& places.len() == before.len
    &&& after.len == before.len
    &&& places.no_duplicates()
    &&& forall|i: u32|
        i < before.len ==> {
            let p = #[trigger] places[i as int];
            &&& p < after.len
            &&& after.vec(p) == before.vec(i)
            &&& after.slot_of(p) == before.slot_of(i)
            &&& after.node_level(p) == before.node_level(i)
        }
}

/// Putting an index in the order for reading keeps its nodes; the entry point,
/// where there is one, comes first.
pub proof fn law_settling_keeps_nodes(
    before: HNSWIndex<NodeStorage>,
    after: HNSWIndex<NodeStorage>,
)
    requires
        settled(before, after),
        before.storage.len <= u32::MAX,
    ensures
        before.entry_point is Some ==> after.entry_point == Some(0u32),
        exists|places: Seq<u32>| keeps_nodes(&before.storage, &after.storage, places),
{
    let a = after.storage;
    let b = before.storage;
    if before.entry_point is Some {
        let (order, places) = choose|order: Seq<u32>, places: Seq<u32>|
            index_reordered(before, after, order, places);
        assert(a.header_sizes()[0] == b.header_sizes()[0]);
        assert(places.no_duplicates()) by {
            assert forall|i: int, j: int|
                0 <= i < places.len() && 0 <= j < places.len() && i != j implies places[i]
                != places[j] by {
                assert(order[places[i] as int] == i);
                assert(order[places[j] as int] == j);
            }
        }
        assert forall|i: u32| i < b.len implies {
            let p = #[trigger] places[i as int];
            &&& p < a.len
            &&& a.vec(p) == b.vec(i)
            &&& a.slot_of(p) == b.slot_of(i)
            &&& a.node_level(p) == b.node_level(i)
        } by {
            let p = places[i as int];
            assert(order[p as int] == i);
            assert(a.vec(p) == b.vec(order[p as int]));
            assert(a.slot_of(p) == b.slot_of(order[p as int]));
            assert(a.node_level(p) == b.node_level(order[p as int]));
        }
        assert(keeps_nodes(&b, &a, places));
    } else {
        let places = Seq::new(b.len as nat, |i: int| i as u32);
        assert(keeps_nodes(&b, &a, places));
    }
}

/// Freezing loses nothing but precision: every vector of the mutable segment is
/// in the frozen one, as it was or, where the quantization was trained for it,
/// as it is coded; with its slot and its level. The entry point, where there is
/// one, comes first.
pub proof fn law_freeze_keeps_vectors<C: Coder>(
    mutable: &MutableSegment,
    frozen: &FrozenSegment,
    coder: C,
)
    requires
        mutable.wf(),
        mutable.index.storage.len <= u32::MAX,
        frozen.freezes(mutable, coder),
    ensures
        mutable.index.entry_point is Some ==> frozen.index.entry_point == Some(0u32),
        exists|places: Seq<u32>|
            {
                let a = frozen.index.storage;
                let b = mutable.index.storage;
                &&& #[trigger] places.len() == b.len
                &&& places.no_duplicates()
                &&& forall|i: u32|
                    i < b.len ==> {
                        let p = #[trigger] places[i as int];
                        &&& p < a.len
                        &&& a.vec(p) == (if a.sq8_trained && !b.sq8_trained {
                            recoded(coder, a.sq8_params->0, b.vec(i))
                        } else {
                            b.vec(i)
                        })
                        &&& a.slot_of(p) == mutable.slots@[i as int]
                        &&& a.node_level(p) == b.node_level(i)
                    }
            },
{
    let a = frozen.index.storage;
    let b = mutable.index.storage;
    let (taught, labelled, thawed) = choose|
        taught: HNSWIndex<NodeStorage>,
        labelled: HNSWIndex<NodeStorage>,
        thawed: HNSWIndex<NodeStorage>,
    |
        {
            &&& index_taught(mutable.index, taught, coder)
            &&& #[trigger] relabelled(taught, labelled, mutable.slots@)
            &&& #[trigger] settled(labelled, thawed)
            &&& frozen.index.storage == thawed.storage
            &&& frozen.index.entry_point == thawed.entry_point
        };
    let c = labelled.storage;
    let t = taught.storage;
    t.lemma_taught(&b, coder);
    law_settling_keeps_nodes(labelled, thawed);
    if labelled.entry_point is Some {
        let (order, places) = choose|order: Seq<u32>, places: Seq<u32>|
            index_reordered(labelled, thawed, order, places);
        assert(a.sq8_trained == c.sq8_trained && a.sq8_params == c.sq8_params);
    }
    let places = choose|places: Seq<u32>| keeps_nodes(&c, &a, places);
    assert forall|i: u32| i < b.len implies {
        let p = #[trigger] places[i as int];
        &&& p < a.len
        &&& a.vec(p) == (if a.sq8_trained && !b.sq8_trained {
            recoded(coder, a.sq8_params->0, b.vec(i))
        } else {
            b.vec(i)
        })
        &&& a.slot_of(p) == mutable.slots@[i as int]
        &&& a.node_level(p) == b.node_level(i)
    } by {
        assert(c.vec(i) == t.vec(i));
        assert(c.slot_of(i) == mutable.slots@[i as int]);
        assert(c.node_level(i) == t.node_level(i));
        assert(t.node_level(i) == b.node_level(i));
    }
    assert(places.len() == b.len);
}

/// A segment that is frozen in SQ8 mode holds codes, unless it is empty or the
/// training failed.
pub proof fn law_frozen_is_coded<C: Coder>(
    mutable: &MutableSegment,
    frozen: &FrozenSegment,
    coder: C,
)
    requires
        mutable.wf(),
        frozen.freezes(mutable, coder),
        mutable.index.storage.sq8,
        mutable.index.storage.len > 0,
        mutable.index.storage.dimensions > 0,
        mutable.index.storage.sq8_trained || coder.params_for(
            mutable.index.storage.sample(),
            mutable.index.storage.dimensions,
        ) is Some,
    ensures
        frozen.index.storage.sq8,
        frozen.index.storage.sq8_trained,
{
    let b = mutable.index.storage;
    let (taught, labelled, thawed) = choose|
        taught: HNSWIndex<NodeStorage>,
        labelled: HNSWIndex<NodeStorage>,
        thawed: HNSWIndex<NodeStorage>,
    |
        {
            &&& index_taught(mutable.index, taught, coder)
            &&& #[trigger] relabelled(taught, labelled, mutable.slots@)
            &&& #[trigger] settled(labelled, thawed)
            &&& frozen.index.storage == thawed.storage
            &&& frozen.index.entry_point == thawed.entry_point
        };
    if !b.sq8_trained {
        b.lemma_all_collected();
    }
    if labelled.entry_point is Some {
        let (order, places) = choose|order: Seq<u32>, places: Seq<u32>|
            index_reordered(labelled, thawed, order, places);
        assert(thawed.storage.sq8_trained == labelled.storage.sq8_trained);
    }
}

} // verus!
