//! Merging of frozen segments.

use std::sync::Arc;

use vstd::prelude::*;

use super::{frozen_ids, frozen_total, frozen_wf, SegmentConfig, SegmentManager};
use crate::distance::{float_lt, less, metric_ok};
use crate::error::{HNSWError, Result};
use crate::graph::GraphStore;
use crate::index::coded::taught_when_due;
use crate::index::colocated::index_reordered;
use crate::index::insert::level_source_ok;
use crate::index::parallel::{
    acceptable, batch_built, build_on, drawn_levels, rejection, PARALLEL_BUILD_EF_MULTIPLIER,
    PARALLEL_BUILD_WARM_START,
};
use crate::index::HNSWIndex;
use crate::node_storage::quantization::{recoded, Coder, TRAINING_VECTORS};
use crate::node_storage::NodeStorage;
use crate::reorder::views;
use crate::segment::{
    keeps_nodes, law_settling_keeps_nodes, lemma_relabelled_wf, relabelled, settled, stored_slots,
    FrozenSegment,
};

verus! {

/// When frozen segments are merged.
#[derive(Debug, Clone, Copy, PartialEq, Eq, Structural)]
pub struct MergePolicy {
    /// Frozen segments from which on a merge is considered.
    pub min_segments: usize,
    /// Frozen segments from which on there is a merge in any case.
    pub max_segments: usize,
    /// Vectors in frozen segments from which on they are merged.
    pub min_vectors: usize,
    /// Bits of the ratio of the largest segment to the smallest above which
    /// they are merged.
    pub size_ratio_threshold: u32,
    /// Whether there is merging without being asked for.
    pub enabled: bool,
}

/// Bits of 2.0.
pub const RATIO_TWO: u32 = 0x4000_0000;

/// Bits of 4.0.
pub const RATIO_FOUR: u32 = 0x4080_0000;

/// Bits of 8.0.
pub const RATIO_EIGHT: u32 = 0x4100_0000;

impl Default for MergePolicy {
    fn default() -> (p: Self)
        ensures
            p == MergePolicy::standard(),
    {
        MergePolicy {
            min_segments: 2,
            max_segments: 8,
            min_vectors: 1000,
            size_ratio_threshold: RATIO_FOUR,
            enabled: true,
        }
    }
}

impl MergePolicy {
    /// The policy that holds unless told otherwise.
    pub open spec fn standard() -> MergePolicy {
        MergePolicy {
            min_segments: 2,
            max_segments: 8,
            min_vectors: 1000,
            size_ratio_threshold: RATIO_FOUR,
            enabled: true,
        }
    }

    /// No merging without being asked for.
    pub fn disabled() -> (p: Self)
        ensures
            p == (MergePolicy { enabled: false, ..MergePolicy::standard() }),
    {
        let mut p = MergePolicy::default();
        p.enabled = false;
        p
    }

    /// Frequent merging.
    pub fn aggressive() -> (p: Self)
        ensures
            p == (MergePolicy {
                min_segments: 2,
                max_segments: 4,
                min_vectors: 100,
                size_ratio_threshold: RATIO_TWO,
                enabled: true,
            }),
    {
        MergePolicy {
            min_segments: 2,
            max_segments: 4,
            min_vectors: 100,
            size_ratio_threshold: RATIO_TWO,
            enabled: true,
        }
    }

    /// Rare merging.
    pub fn conservative() -> (p: Self)
        ensures
            p == (MergePolicy {
                min_segments: 4,
                max_segments: 16,
                min_vectors: 10_000,
                size_ratio_threshold: RATIO_EIGHT,
                enabled: true,
            }),
    {
        MergePolicy {
            min_segments: 4,
            max_segments: 16,
            min_vectors: 10_000,
            size_ratio_threshold: RATIO_EIGHT,
            enabled: true,
        }
    }

    pub fn with_min_segments(self, min: usize) -> (p: Self)
        ensures
            p == (MergePolicy { min_segments: min, ..self }),
    {
        let mut p = self;
        p.min_segments = min;
        p
    }

    pub fn with_max_segments(self, max: usize) -> (p: Self)
        ensures
            p == (MergePolicy { max_segments: max, ..self }),
    {
        let mut p = self;
        p.max_segments = max;
        p
    }

    pub fn with_enabled(self, enabled: bool) -> (p: Self)
        ensures
            p == (MergePolicy { enabled, ..self }),
    {
        let mut p = self;
        p.enabled = enabled;
        p
    }
}

/// What a merge did.
#[derive(Debug, Clone, Copy, PartialEq, Eq, Structural)]
pub struct MergeStats {
    pub vectors_merged: usize,
    pub segments_merged: usize,
    pub join_set_size: usize,
    pub fast_path_inserts: usize,
    pub fallback_inserts: usize,
}

/// A merge in the background.
#[derive(Debug)]
pub struct PendingMerge {
    /// The segments that are merged.
    pub source_segment_ids: Vec<u64>,
    /// The work, until someone takes it up.
    pub job: Option<MergeJob>,
}

/// `std::sync::Arc::clone`: another pointer to the same segment.
#[verifier::external_body]
pub(crate) fn share(segment: &Arc<FrozenSegment>) -> (r: Arc<FrozenSegment>)
    ensures
        r == *segment,
{
    Arc::clone(segment)
}

// ---------------------------------------------------------------------------
// Building the merged index
// ---------------------------------------------------------------------------

/// The vectors of a segment, by their ids.
pub open spec fn vectors_of(segment: &FrozenSegment) -> Seq<Seq<u32>> {
    Seq::new(
        segment.index.storage.len as nat,
        |i: int| segment.index.storage.vec(i as u32),
    )
}

/// The vectors of some segments, one segment behind the other.
pub open spec fn gathered(segments: Seq<Arc<FrozenSegment>>) -> Seq<Seq<u32>>
    decreases segments.len(),
{
    if segments.len() == 0 {
        Seq::empty()
    } else {
        gathered(segments.drop_last()) + vectors_of(&*segments.last())
    }
}

/// The slots of the vectors of some segments.
pub open spec fn gathered_slots(segments: Seq<Arc<FrozenSegment>>) -> Seq<u32>
    decreases segments.len(),
{
    if segments.len() == 0 {
        Seq::empty()
    } else {
        gathered_slots(segments.drop_last()) + stored_slots(&segments.last().index.storage)
    }
}

proof fn lemma_gathered_len(segments: Seq<Arc<FrozenSegment>>)
    ensures
        gathered(segments).len() == frozen_total(segments),
        gathered_slots(segments).len() == frozen_total(segments),
    decreases segments.len(),
{
    if segments.len() > 0 {
        lemma_gathered_len(segments.drop_last());
    }
}

/// Collects vectors and slots from segments.
pub fn collect_from_segments(segments: &Vec<Arc<FrozenSegment>>) -> (r: (Vec<Vec<u32>>, Vec<u32>))
    requires
        frozen_wf(segments@),
    ensures
        views(r.0@) == gathered(segments@),
        r.1@ == gathered_slots(segments@),
{
    let mut vectors: Vec<Vec<u32>> = Vec::new();
    let mut slots: Vec<u32> = Vec::new();
    let mut i: usize = 0;
    assert(segments@.take(0) =~= Seq::<Arc<FrozenSegment>>::empty());
    assert(views(vectors@) =~= Seq::<Seq<u32>>::empty());
    while i < segments.len()
        invariant
            i <= segments@.len(),
            frozen_wf(segments@),
            views(vectors@) == gathered(segments@.take(i as int)),
            slots@ == gathered_slots(segments@.take(i as int)),
        decreases segments.len() - i,
    {
        assert(segments@[i as int].wf());
        let storage: &NodeStorage = segments[i].storage();
        let n: usize = storage.len();
        let ghost vectors_before = views(vectors@);
        let ghost slots_before = slots@;
        let mut id: usize = 0;
        assert(views(vectors@) =~= vectors_before + vectors_of(&*segments@[i as int]).take(0));
        assert(slots@ =~= slots_before + stored_slots(storage).take(0));
        while id < n
            invariant
                id <= n <= u32::MAX + 1,
                n == storage.len,
                *storage == segments@[i as int].index.storage,
                storage.wf(),
                storage.vectors_ok(),
                views(vectors@) == vectors_before + vectors_of(&*segments@[i as int]).take(
                    id as int,
                ),
                slots@ == slots_before + stored_slots(storage).take(id as int),
            decreases n - id,
        {
            let ghost so_far = views(vectors@);
            let vector: Vec<u32> = storage.current_vector(id as u32);
            vectors.push(vector);
            assert(views(vectors@) =~= so_far.push(storage.vec(id as u32)));
            slots.push(storage.slot(id as u32));
            proof {
                let all = vectors_of(&*segments@[i as int]);
                assert(all.take(id + 1) =~= all.take(id as int).push(storage.vec(id as u32)));
                assert(views(vectors@) =~= vectors_before + all.take(id + 1));
                let named = stored_slots(storage);
                assert(named.take(id + 1) =~= named.take(id as int).push(
                    storage.slot_of(id as u32),
                ));
                assert(slots@ =~= slots_before + named.take(id + 1));
            }
            id += 1;
        }
        proof {
            let longer = segments@.take(i + 1);
            assert(longer.drop_last() =~= segments@.take(i as int));
            assert(longer.last() == segments@[i as int]);
            assert(vectors_of(&*segments@[i as int]).take(n as int) =~= vectors_of(
                &*segments@[i as int],
            ));
            assert(stored_slots(storage).take(n as int) =~= stored_slots(storage));
        }
        i += 1;
    }
    assert(segments@.take(i as int) =~= segments@);
    (vectors, slots)
}

/// All vectors can be added.
pub open spec fn all_acceptable(vectors: Seq<Seq<u32>>, dimensions: nat) -> bool {
    forall|i: int| 0 <= i < vectors.len() ==> acceptable(#[trigger] vectors[i], dimensions)
}

/// The first vector that cannot be added is the reason of an error.
pub open spec fn first_rejected(
    vectors: Seq<Seq<u32>>,
    dimensions: nat,
    e: HNSWError,
) -> bool {
    exists|i: int|
        {
            &&& 0 <= i < vectors.len()
            &&& !acceptable(#[trigger] vectors[i], dimensions)
            &&& forall|j: int| 0 <= j < i ==> acceptable(#[trigger] vectors[j], dimensions)
            &&& e == rejection(vectors[i], dimensions)
        }
}

/// The contents of borrowed vectors.
pub open spec fn ref_views(refs: Seq<&[u32]>) -> Seq<Seq<u32>> {
    refs.map_values(|v: &[u32]| v@)
}

/// An index was built from vectors, in the mode that the configuration asks for.
/// In SQ8 mode the quantization was trained if there were enough of them.
pub open spec fn built_from<M: Fn(&[u32], &[u32]) -> u32, L: Fn(u32) -> u8, C: Coder>(
    config: SegmentConfig,
    metric: M,
    level_source: L,
    coder: C,
    vectors: Seq<Seq<u32>>,
    index: HNSWIndex<NodeStorage>,
) -> bool {
    exists|
        empty: HNSWIndex<NodeStorage>,
        refs: Seq<&[u32]>,
        exact: HNSWIndex<NodeStorage>,
    |
        {
            &&& empty.storage.created(
                config.dimensions,
                config.params.m,
                config.params.max_level as usize,
                config.quantization,
            )
            &&& empty.params == config.params
            &&& empty.distance_fn == config.distance_fn
            &&& empty.rng_state == config.params.seed
            &&& ref_views(refs) == vectors
            &&& #[trigger] batch_built(
                empty,
                exact,
                metric,
                refs,
                drawn_levels(
                    level_source,
                    config.params.seed,
                    config.params.max_level,
                    vectors.len(),
                ),
            )
            &&& taught_when_due(exact, index, coder)
        }
}

/// An index that was built from vectors, with their slots, and put in the order
/// for reading.
pub open spec fn merged_index<M: Fn(&[u32], &[u32]) -> u32, L: Fn(u32) -> u8, C: Coder>(
    config: SegmentConfig,
    metric: M,
    level_source: L,
    coder: C,
    vectors: Seq<Seq<u32>>,
    slots: Seq<u32>,
    index: HNSWIndex<NodeStorage>,
) -> bool {
    exists|built: HNSWIndex<NodeStorage>, labelled: HNSWIndex<NodeStorage>|
        {
            &&& built_from(config, metric, level_source, coder, vectors, built)
            &&& #[trigger] relabelled(built, labelled, slots)
            &&& #[trigger] settled(labelled, index)
        }
}

/// Building from `n` vectors stays within the limits of the machine.
pub open spec fn build_fits(config: SegmentConfig, n: nat) -> bool {
    &&& config.room(n)
    &&& n > PARALLEL_BUILD_WARM_START ==> config.params.ef_construction
        * PARALLEL_BUILD_EF_MULTIPLIER <= usize::MAX
}

/// Builds an index from vectors.
pub fn build_index<M: Fn(&[u32], &[u32]) -> u32, L: Fn(u32) -> u8, C: Coder>(
    config: &SegmentConfig,
    vectors: &Vec<Vec<u32>>,
    metric: &M,
    level_source: &L,
    coder: &C,
) -> (r: Result<HNSWIndex<NodeStorage>>)
    requires
        config.usable(),
        build_fits(*config, vectors@.len()),
        metric_ok(*metric),
        level_source_ok(*level_source),
        coder.usable(config.dimensions as nat),
    ensures
        r is Ok <==> all_acceptable(views(vectors@), config.dimensions as nat),
        r matches Err(e) ==> first_rejected(views(vectors@), config.dimensions as nat, e),
        r matches Ok(index) ==> {
            &&& index.wf()
            &&& index.storage.len == vectors@.len()
            &&& index.params == config.params
            &&& index.distance_fn == config.distance_fn
            &&& built_from(*config, *metric, *level_source, *coder, views(vectors@), index)
        },
{
    let empty: HNSWIndex<NodeStorage> = if config.quantization {
        HNSWIndex::new_coded(config.dimensions, config.params, config.distance_fn)
    } else {
        HNSWIndex::new_colocated(config.dimensions, config.params, config.distance_fn)
    };
    let mut refs: Vec<&[u32]> = Vec::new();
    let mut i: usize = 0;
    while i < vectors.len()
        invariant
            i <= vectors@.len(),
            refs@.len() == i,
            forall|j: int| 0 <= j < i ==> (#[trigger] refs@[j])@ == vectors@[j]@,
        decreases vectors.len() - i,
    {
        refs.push(vectors[i].as_slice());
        i += 1;
    }
    let ghost seen = views(vectors@);
    let ghost dim = config.dimensions as nat;
    proof {
        assert(ref_views(refs@) =~= seen);
        assert forall|j: int| 0 <= j < refs@.len() implies (#[trigger] refs@[j])@ == seen[j] by {}
    }
    let ghost start = empty;
    match build_on(empty, &refs, metric, level_source) {
        Err(e) => {
            proof {
                let k = choose|k: int|
                    {
                        &&& 0 <= k < refs@.len()
                        &&& !acceptable((#[trigger] refs@[k])@, dim)
                        &&& forall|j: int| 0 <= j < k ==> acceptable((#[trigger] refs@[j])@, dim)
                        &&& e == rejection(refs@[k]@, dim)
                    };
                assert(!acceptable(seen[k], dim));
                assert forall|j: int| 0 <= j < k implies acceptable(#[trigger] seen[j], dim) by {
                    assert(acceptable(refs@[j]@, dim));
                }
            }
            Err(e)
        },
        Ok(exact) => {
            let mut index: HNSWIndex<NodeStorage> = exact;
            index.train_if_due(coder);
            proof {
                assert forall|j: int| 0 <= j < seen.len() implies acceptable(
                    #[trigger] seen[j],
                    dim,
                ) by {
                    assert(acceptable(refs@[j]@, dim));
                }
                assert(batch_built(
                    start,
                    exact,
                    *metric,
                    refs@,
                    drawn_levels(
                        *level_source,
                        config.params.seed,
                        config.params.max_level,
                        seen.len(),
                    ),
                ));
            }
            Ok(index)
        },
    }
}

/// Builds an index from vectors, with their slots, and puts it in the order for
/// reading.
pub fn build_merged_index<M: Fn(&[u32], &[u32]) -> u32, L: Fn(u32) -> u8, C: Coder>(
    config: &SegmentConfig,
    vectors: &Vec<Vec<u32>>,
    slots: &Vec<u32>,
    metric: &M,
    level_source: &L,
    coder: &C,
) -> (r: Result<HNSWIndex<NodeStorage>>)
    requires
        config.usable(),
        vectors@.len() == slots@.len(),
        build_fits(*config, vectors@.len()),
        metric_ok(*metric),
        level_source_ok(*level_source),
        coder.usable(config.dimensions as nat),
    ensures
        r is Ok <==> all_acceptable(views(vectors@), config.dimensions as nat),
        r matches Err(e) ==> first_rejected(views(vectors@), config.dimensions as nat, e),
        r matches Ok(index) ==> {
            &&& index.wf()
            &&& index.storage.len == vectors@.len()
            &&& index.params == config.params
            &&& index.distance_fn == config.distance_fn
            &&& merged_index(*config, *metric, *level_source, *coder, views(vectors@), slots@, index)
        },
{
    match build_index(config, vectors, metric, level_source, coder) {
        Err(e) => Err(e),
        Ok(index) => {
            let mut index = index;
            let ghost built = index;
            index.storage.remap_slots(slots.as_slice());
            let ghost labelled = index;
            proof {
                assert(relabelled(built, labelled, slots@));
                lemma_relabelled_wf(built, labelled, slots@);
            }
            index.optimize_cache_locality();
            proof {
                assert(settled(labelled, index));
                law_settling_keeps_nodes(labelled, index);
            }
            Ok(index)
        },
    }
}

// ---------------------------------------------------------------------------
// When to merge
// ---------------------------------------------------------------------------

/// A ratio can be taken of any two sizes, and depends on them alone.
pub open spec fn ratio_ok<R: Fn(usize, usize) -> u32>(ratio: R) -> bool {
    &&& forall|a: usize, b: usize| #[trigger] call_requires(ratio, (a, b))
    &&& forall|a: usize, b: usize, x: u32, y: u32|
        #[trigger] call_ensures(ratio, (a, b), x) && #[trigger] call_ensures(ratio, (a, b), y)
            ==> x == y
}

/// The ratio of two sizes.
pub open spec fn ratio_value<R: Fn(usize, usize) -> u32>(ratio: R, a: usize, b: usize) -> u32 {
    choose|x: u32| call_ensures(ratio, (a, b), x)
}

/// The size of the smallest segment, 0 if there is none.
pub open spec fn smallest(segments: Seq<Arc<FrozenSegment>>) -> usize
    decreases segments.len(),
{
    if segments.len() == 0 {
        0
    } else if segments.len() == 1 {
        segments[0].index.storage.len
    } else {
        let before = smallest(segments.drop_last());
        let one = segments.last().index.storage.len;
        if one < before { one } else { before }
    }
}

/// The size of the largest segment, 0 if there is none.
pub open spec fn largest(segments: Seq<Arc<FrozenSegment>>) -> usize
    decreases segments.len(),
{
    if segments.len() == 0 {
        0
    } else if segments.len() == 1 {
        segments[0].index.storage.len
    } else {
        let before = largest(segments.drop_last());
        let one = segments.last().index.storage.len;
        if one > before { one } else { before }
    }
}

/// The policy asks for a merge of these segments: there are very many, or
/// enough of them that hold many vectors or differ much in size.
pub open spec fn merge_due<R: Fn(usize, usize) -> u32>(
    policy: MergePolicy,
    segments: Seq<Arc<FrozenSegment>>,
    ratio: R,
) -> bool {
    let low = smallest(segments);
    let high = largest(segments);
    segments.len() >= policy.max_segments || (segments.len() >= policy.min_segments && (
    frozen_total(segments) >= policy.min_vectors || float_lt(
        policy.size_ratio_threshold,
        ratio_value(ratio, high, if low >= 1 { low } else { 1 }),
    )))
}

/// Sizes of the smallest and of the largest segment, both 0 if there is none.
fn size_bounds(segments: &Vec<Arc<FrozenSegment>>) -> (r: (usize, usize))
    requires
        frozen_wf(segments@),
    ensures
        r.0 == smallest(segments@),
        r.1 == largest(segments@),
{
    if segments.len() == 0 {
        return (0, 0);
    }
    assert(segments@[0].wf());
    let first: usize = segments[0].len();
    let mut low: usize = first;
    let mut high: usize = first;
    let mut i: usize = 1;
    while i < segments.len()
        invariant
            1 <= i <= segments@.len(),
            frozen_wf(segments@),
            low == smallest(segments@.take(i as int)),
            high == largest(segments@.take(i as int)),
        decreases segments.len() - i,
    {
        assert(segments@[i as int].wf());
        assert(segments@.take(i + 1).drop_last() =~= segments@.take(i as int));
        let size: usize = segments[i].len();
        if size < low {
            low = size;
        }
        if size > high {
            high = size;
        }
        i += 1;
    }
    assert(segments@.take(i as int) =~= segments@);
    (low, high)
}

impl SegmentManager {
    fn should_merge_input<R: Fn(usize, usize) -> u32>(&self, ratio: &R) -> (r: bool)
        requires
            self.wf(),
            frozen_total(self.published.frozen@) <= usize::MAX,
            ratio_ok(*ratio),
        ensures
            r == merge_due(self.merge_policy, self.published.frozen@, *ratio),
    {
        let n: usize = self.published.frozen.len();
        if n >= self.merge_policy.max_segments {
            return true;
        }
        if n < self.merge_policy.min_segments {
            return false;
        }
        if super::count_frozen(&self.published.frozen) >= self.merge_policy.min_vectors {
            return true;
        }
        let (low, high) = size_bounds(&self.published.frozen);
        let base: usize = if low >= 1 { low } else { 1 };
        let x: u32 = ratio(high, base);
        assert(call_ensures(*ratio, (high, base), x));
        less(self.merge_policy.size_ratio_threshold, x)
    }

    /// The policy asks for a merge now.
    pub open spec fn merge_wanted<R: Fn(usize, usize) -> u32>(&self, ratio: R) -> bool {
        &&& self.merge_policy.enabled
        &&& merge_due(self.merge_policy, self.published.frozen@, ratio)
    }

    /// Whether the policy asks for a merge now.
    pub fn should_merge<R: Fn(usize, usize) -> u32>(&self, ratio: &R) -> (r: bool)
        requires
            self.wf(),
            frozen_total(self.published.frozen@) <= usize::MAX,
            ratio_ok(*ratio),
        ensures
            r == self.merge_wanted(*ratio),
            self.published.frozen@.len() < self.merge_policy.min_segments
                && self.published.frozen@.len() < self.merge_policy.max_segments ==> !r,
    {
        self.merge_policy.enabled && self.should_merge_input(ratio)
    }
}

// ---------------------------------------------------------------------------
// Merging at once
// ---------------------------------------------------------------------------

/// The statistics of a merge.
pub open spec fn stats_of(vectors: nat, segments: nat) -> MergeStats {
    MergeStats {
        vectors_merged: vectors as usize,
        segments_merged: segments as usize,
        join_set_size: 0,
        fast_path_inserts: vectors as usize,
        fallback_inserts: 0,
    }
}

/// A segment that was merged from vectors with slots.
pub open spec fn merged_segment<M: Fn(&[u32], &[u32]) -> u32, L: Fn(u32) -> u8, C: Coder>(
    config: SegmentConfig,
    metric: M,
    level_source: L,
    coder: C,
    vectors: Seq<Seq<u32>>,
    slots: Seq<u32>,
    id: u64,
    segment: FrozenSegment,
) -> bool {
    &&& segment.wf()
    &&& segment.id == id
    &&& segment.index.params == config.params
    &&& segment.index.distance_fn == config.distance_fn
    &&& segment.index.rng_state == config.params.seed
    &&& segment.index.storage.len == vectors.len()
    &&& exists|index: HNSWIndex<NodeStorage>|
        {
            &&& #[trigger] merged_index(config, metric, level_source, coder, vectors, slots, index)
            &&& segment.index.storage == index.storage
            &&& segment.index.entry_point == index.entry_point
        }
}

/// Merging loses nothing but precision: every vector that was gathered is in the
/// merged segment, as it was or, where the quantization was trained for it, as
/// it is coded; with its slot.
pub proof fn law_merge_keeps_vectors<M: Fn(&[u32], &[u32]) -> u32, L: Fn(u32) -> u8, C: Coder>(
    config: SegmentConfig,
    metric: M,
    level_source: L,
    coder: C,
    vectors: Seq<Seq<u32>>,
    slots: Seq<u32>,
    id: u64,
    segment: FrozenSegment,
)
    requires
        merged_segment(config, metric, level_source, coder, vectors, slots, id, segment),
        vectors.len() == slots.len(),
        vectors.len() <= u32::MAX,
    ensures
        exists|places: Seq<u32>|
            {
                &&& #[trigger] places.len() == vectors.len()
                &&& places.no_duplicates()
                &&& forall|i: int|
                    0 <= i < vectors.len() ==> {
                        let p = #[trigger] places[i];
                        &&& p < segment.index.storage.len
                        &&& segment.index.storage.vec(p) == (if segment.index.storage.sq8_trained {
                            recoded(coder, segment.index.storage.sq8_params->0, vectors[i])
                        } else {
                            vectors[i]
                        })
                        &&& segment.index.storage.slot_of(p) == slots[i]
                    }
            },
{
    let index = choose|index: HNSWIndex<NodeStorage>|
        {
            &&& #[trigger] merged_index(config, metric, level_source, coder, vectors, slots, index)
            &&& segment.index.storage == index.storage
            &&& segment.index.entry_point == index.entry_point
        };
    let levels = drawn_levels(
        level_source,
        config.params.seed,
        config.params.max_level,
        vectors.len(),
    );
    let (built, labelled) = choose|
        built: HNSWIndex<NodeStorage>,
        labelled: HNSWIndex<NodeStorage>,
    |
        {
            &&& built_from(config, metric, level_source, coder, vectors, built)
            &&& #[trigger] relabelled(built, labelled, slots)
            &&& #[trigger] settled(labelled, index)
        };
    let (empty, refs, exact) = choose|
        empty: HNSWIndex<NodeStorage>,
        refs: Seq<&[u32]>,
        exact: HNSWIndex<NodeStorage>,
    |
        {
            &&& empty.storage.created(
                config.dimensions,
                config.params.m,
                config.params.max_level as usize,
                config.quantization,
            )
            &&& empty.params == config.params
            &&& empty.distance_fn == config.distance_fn
            &&& empty.rng_state == config.params.seed
            &&& ref_views(refs) == vectors
            &&& #[trigger] batch_built(empty, exact, metric, refs, levels)
            &&& taught_when_due(exact, built, coder)
        };
    assert(ref_views(refs).len() == refs.len());
    law_settling_keeps_nodes(labelled, index);
    let places = choose|places: Seq<u32>| keeps_nodes(&labelled.storage, &index.storage, places);
    if labelled.entry_point is Some {
        let (order, moved) = choose|order: Seq<u32>, moved: Seq<u32>|
            index_reordered(labelled, index, order, moved);
        assert(index.storage.sq8_trained == labelled.storage.sq8_trained);
        assert(index.storage.sq8_params == labelled.storage.sq8_params);
    }
    if exact.storage.waits() && exact.storage.collected() >= TRAINING_VECTORS {
        built.storage.lemma_taught(&exact.storage, coder);
    }
    assert forall|i: int| 0 <= i < vectors.len() implies {
        let p = #[trigger] places[i];
        &&& p < segment.index.storage.len
        &&& segment.index.storage.vec(p) == (if segment.index.storage.sq8_trained {
            recoded(coder, segment.index.storage.sq8_params->0, vectors[i])
        } else {
            vectors[i]
        })
        &&& segment.index.storage.slot_of(p) == slots[i]
    } by {
        let id = i as u32;
        assert(places[id as int] < index.storage.len);
        assert(labelled.storage.vec(id) == built.storage.vec(id));
        assert(exact.storage.vector_at(id) == refs[id as int]@);
        assert(ref_views(refs)[i] == refs[i]@);
        assert(labelled.storage.slot_of(id) == slots[i]);
    }
    assert(places.len() == vectors.len());
}

impl SegmentManager {
    /// What a merge of some frozen segments makes of a manager: nothing but a
    /// higher generation where there are no vectors, or one that cannot be
    /// added; else the merged segment comes behind those that remain.
    pub open spec fn merged<M: Fn(&[u32], &[u32]) -> u32, L: Fn(u32) -> u8, C: Coder>(
        &self,
        before: &Self,
        picked: Seq<Arc<FrozenSegment>>,
        remaining: Seq<Arc<FrozenSegment>>,
        metric: M,
        level_source: L,
        coder: C,
        r: Result<Option<MergeStats>>,
    ) -> bool {
        let vectors = gathered(picked);
        let slots = gathered_slots(picked);
        let dim = before.config.dimensions as nat;
        let frozen = self.published.frozen@;
        &&& self.config == before.config
        &&& self.merge_policy == before.merge_policy
        &&& self.published.mutable == before.published.mutable
        &&& self.pending_merge == before.pending_merge
        &&& if vectors.len() > 0 && all_acceptable(vectors, dim) {
            let stats = stats_of(vectors.len(), picked.len());
            &&& r == Ok::<Option<MergeStats>, HNSWError>(Some(stats))
            &&& self.last_merge_stats == Some(stats)
            &&& self.generation == before.generation + 1
            &&& self.next_segment_id == before.next_segment_id + 1
            &&& frozen.len() == remaining.len() + 1
            &&& frozen.drop_last() == remaining
            &&& merged_segment(
                before.config,
                metric,
                level_source,
                coder,
                vectors,
                slots,
                before.next_segment_id,
                *frozen.last(),
            )
        } else {
            &&& frozen == before.published.frozen@
            &&& self.generation == before.generation + 2
            &&& self.next_segment_id == before.next_segment_id
            &&& self.last_merge_stats == before.last_merge_stats
            &&& if vectors.len() == 0 {
                r == Ok::<Option<MergeStats>, HNSWError>(None)
            } else {
                r matches Err(e) && first_rejected(vectors, dim, e)
            }
        }
    }

    /// Counters leave room for a merge of `n` vectors, and no merge runs in the
    /// background.
    pub open spec fn can_merge(&self, n: nat) -> bool {
        &&& self.pending_merge is None
        &&& self.generation + 2 <= u64::MAX
        &&& self.next_segment_id < u64::MAX
        &&& n <= usize::MAX
        &&& build_fits(self.config, n)
    }

    fn merge_picked<M: Fn(&[u32], &[u32]) -> u32, L: Fn(u32) -> u8, C: Coder>(
        &mut self,
        picked: Vec<Arc<FrozenSegment>>,
        remaining: Vec<Arc<FrozenSegment>>,
        metric: &M,
        level_source: &L,
        coder: &C,
    ) -> (r: Result<Option<MergeStats>>)
        requires
            old(self).wf(),
            old(self).can_merge(frozen_total(picked@)),
            frozen_wf(picked@),
            frozen_wf(remaining@),
            metric_ok(*metric),
            level_source_ok(*level_source),
            coder.usable(old(self).config.dimensions as nat),
        ensures
            final(self).wf(),
            final(self).merged(old(self), picked@, remaining@, *metric, *level_source, *coder, r),
    {
        proof {
            lemma_gathered_len(picked@);
        }
        let (vectors, slots) = collect_from_segments(&picked);
        assert(views(vectors@).len() == vectors@.len());
        if vectors.len() == 0 {
            self.generation = self.generation + 2;
            return Ok(None);
        }
        let count: usize = vectors.len();
        let segments: usize = picked.len();
        let config: SegmentConfig = self.config;
        let index: HNSWIndex<NodeStorage> = match build_merged_index(
            &config,
            &vectors,
            &slots,
            metric,
            level_source,
            coder,
        ) {
            Err(e) => {
                self.generation = self.generation + 2;
                return Err(e);
            },
            Ok(index) => index,
        };
        let ghost whole = index;
        self.generation = self.generation + 1;
        let id: u64 = self.next_segment_id;
        self.next_segment_id = self.next_segment_id + 1;
        let segment = FrozenSegment::from_parts(
            id,
            index.entry_point,
            index.params,
            index.distance_fn,
            index.storage,
        );
        proof {
            assert(segment.wf());
            assert(merged_index(
                config,
                *metric,
                *level_source,
                *coder,
                gathered(picked@),
                gathered_slots(picked@),
                whole,
            ));
        }
        let mut frozen: Vec<Arc<FrozenSegment>> = remaining;
        let ghost kept = frozen@;
        frozen.push(Arc::new(segment));
        proof {
            assert(frozen@.drop_last() =~= kept);
            assert forall|i: int| 0 <= i < frozen@.len() implies (#[trigger] frozen@[i]).wf() by {
                if i < kept.len() {
                    assert(kept[i].wf());
                }
            }
        }
        self.published.frozen = frozen;
        let stats = MergeStats {
            vectors_merged: count,
            segments_merged: segments,
            join_set_size: 0,
            fast_path_inserts: count,
            fallback_inserts: 0,
        };
        self.last_merge_stats = Some(stats);
        Ok(Some(stats))
    }

    fn share_all(&self) -> (r: Vec<Arc<FrozenSegment>>)
        ensures
            r@ == self.published.frozen@,
    {
        let mut r: Vec<Arc<FrozenSegment>> = Vec::new();
        let mut i: usize = 0;
        while i < self.published.frozen.len()
            invariant
                i <= self.published.frozen@.len(),
                r@ == self.published.frozen@.take(i as int),
            decreases self.published.frozen.len() - i,
        {
            r.push(share(&self.published.frozen[i]));
            assert(r@ =~= self.published.frozen@.take(i + 1));
            i += 1;
        }
        assert(r@ =~= self.published.frozen@);
        r
    }

    /// Merges all frozen segments into one. With fewer than two there is
    /// nothing to do.
    pub fn merge_all_frozen<M: Fn(&[u32], &[u32]) -> u32, L: Fn(u32) -> u8, C: Coder>(
        &mut self,
        metric: &M,
        level_source: &L,
        coder: &C,
    ) -> (r: Result<Option<MergeStats>>)
        requires
            old(self).wf(),
            old(self).pending_merge is None,
            old(self).published.frozen@.len() >= 2 ==> old(self).can_merge(
                frozen_total(old(self).published.frozen@),
            ),
            metric_ok(*metric),
            level_source_ok(*level_source),
            coder.usable(old(self).config.dimensions as nat),
        ensures
            final(self).wf(),
            old(self).published.frozen@.len() < 2 ==> {
                &&& r == Ok::<Option<MergeStats>, HNSWError>(None)
                &&& *final(self) == *old(self)
            },
            old(self).published.frozen@.len() >= 2 ==> final(self).merged(
                old(self),
                old(self).published.frozen@,
                Seq::empty(),
                *metric,
                *level_source,
                *coder,
                r,
            ),
            final(self).published.total() == old(self).published.total(),
            r matches Ok(Some(stats)) ==> final(self).published.frozen@.len() == 1
                && stats.segments_merged == old(self).published.frozen@.len(),
    {
        if self.published.frozen.len() < 2 {
            return Ok(None);
        }
        let picked: Vec<Arc<FrozenSegment>> = self.share_all();
        let remaining: Vec<Arc<FrozenSegment>> = Vec::new();
        assert(remaining@ =~= Seq::<Arc<FrozenSegment>>::empty());
        let r = self.merge_picked(picked, remaining, metric, level_source, coder);
        proof {
            self.law_merge_keeps_total(
                old(self),
                old(self).published.frozen@,
                Seq::empty(),
                *metric,
                *level_source,
                *coder,
                r,
            );
        }
        r
    }

    /// Merges all frozen segments if the policy asks for it and there are at
    /// least two.
    pub fn check_and_merge<
        M: Fn(&[u32], &[u32]) -> u32,
        L: Fn(u32) -> u8,
        C: Coder,
        R: Fn(usize, usize) -> u32,
    >(&mut self, metric: &M, level_source: &L, coder: &C, ratio: &R) -> (r: Result<Option<MergeStats>>)
        requires
            old(self).wf(),
            frozen_total(old(self).published.frozen@) <= usize::MAX,
            old(self).merge_wanted(*ratio) ==> {
                &&& old(self).pending_merge is None
                &&& old(self).published.frozen@.len() >= 2 ==> old(self).can_merge(
                    frozen_total(old(self).published.frozen@),
                )
            },
            metric_ok(*metric),
            level_source_ok(*level_source),
            coder.usable(old(self).config.dimensions as nat),
            ratio_ok(*ratio),
        ensures
            final(self).wf(),
            !(old(self).merge_wanted(*ratio) && old(self).published.frozen@.len() >= 2) ==> {
                &&& r == Ok::<Option<MergeStats>, HNSWError>(None)
                &&& *final(self) == *old(self)
            },
            old(self).merge_wanted(*ratio) && old(self).published.frozen@.len() >= 2
                ==> final(self).merged(
                old(self),
                old(self).published.frozen@,
                Seq::empty(),
                *metric,
                *level_source,
                *coder,
                r,
            ),
    {
        if self.should_merge(ratio) {
            self.merge_all_frozen(metric, level_source, coder)
        } else {
            Ok(None)
        }
    }
}

/// Indices grow.
pub open spec fn ascending(indices: Seq<usize>) -> bool {
    forall|i: int, j: int|
        0 <= i < j < indices.len() ==> (#[trigger] indices[i]) < (#[trigger] indices[j])
}

/// The segments at some indices.
pub open spec fn picked_at(
    frozen: Seq<Arc<FrozenSegment>>,
    indices: Seq<usize>,
) -> Seq<Arc<FrozenSegment>> {
    indices.map_values(|i: usize| frozen[i as int])
}

/// Of the first `n` segments, those at other indices.
pub open spec fn left_at(
    frozen: Seq<Arc<FrozenSegment>>,
    indices: Seq<usize>,
    n: nat,
) -> Seq<Arc<FrozenSegment>>
    decreases n,
{
    if n == 0 {
        Seq::empty()
    } else {
        let before = left_at(frozen, indices, (n - 1) as nat);
        if indices.contains((n - 1) as usize) {
            before
        } else {
            before.push(frozen[n - 1])
        }
    }
}

/// All indices are below a limit.
pub open spec fn indices_below(indices: Seq<usize>, n: nat) -> bool {
    forall|i: int| 0 <= i < indices.len() ==> #[trigger] indices[i] < n
}

/// The message of the error that indices do not grow.
pub open spec fn unsorted_message() -> Seq<char> {
    "Segment indices must be sorted ascending with no duplicates"@
}

/// The message of the error that there is no segment at an index.
pub open spec fn range_message() -> Seq<char> {
    "Segment index out of range"@
}

fn is_ascending(indices: &[usize]) -> (r: bool)
    ensures
        r == ascending(indices@),
{
    let n: usize = indices.len();
    let mut i: usize = 1;
    while i < n
        invariant
            1 <= i,
            i <= n || n == 0,
            n == indices@.len(),
            forall|a: int, b: int|
                0 <= a < b < i && b < n ==> (#[trigger] indices@[a]) < (#[trigger] indices@[b]),
        decreases n - i,
    {
        if indices[i] <= indices[i - 1] {
            assert(!(indices@[i - 1] < indices@[i as int]));
            return false;
        }
        proof {
            assert forall|a: int, b: int| 0 <= a < b < i + 1 && b < n implies (
            #[trigger] indices@[a]) < (#[trigger] indices@[b]) by {
                if b == i && a < i - 1 {
                    assert(indices@[a] < indices@[i - 1]);
                }
            }
        }
        i += 1;
    }
    true
}

fn has_index(indices: &[usize], x: usize) -> (r: bool)
    ensures
        r == indices@.contains(x),
{
    let mut i: usize = 0;
    while i < indices.len()
        invariant
            i <= indices@.len(),
            forall|j: int| 0 <= j < i ==> indices@[j] != x,
        decreases indices.len() - i,
    {
        if indices[i] == x {
            assert(indices@[i as int] == x);
            return true;
        }
        i += 1;
    }
    false
}

/// The segments at growing indices and those at the others hold all vectors.
proof fn lemma_split_total(
    frozen: Seq<Arc<FrozenSegment>>,
    indices: Seq<usize>,
    n: nat,
    c: int,
)
    requires
        ascending(indices),
        n <= frozen.len(),
        frozen.len() <= usize::MAX,
        0 <= c <= indices.len(),
        forall|i: int| 0 <= i < c ==> #[trigger] indices[i] < n,
        forall|i: int| c <= i < indices.len() ==> #[trigger] indices[i] >= n,
    ensures
        frozen_total(picked_at(frozen, indices.take(c))) + frozen_total(left_at(frozen, indices, n))
            == frozen_total(frozen.take(n as int)),
    decreases n,
{
    if n == 0 {
        assert(c == 0) by {
            if c > 0 {
                assert(indices[0] < n);
            }
        }
        assert(picked_at(frozen, indices.take(c)) =~= Seq::<Arc<FrozenSegment>>::empty());
        assert(frozen.take(0) =~= Seq::<Arc<FrozenSegment>>::empty());
    } else {
        let last = (n - 1) as usize;
        assert(frozen.take(n as int).drop_last() =~= frozen.take(n - 1));
        if c > 0 && indices[c - 1] == last {
            assert(indices.contains(last));
            assert forall|i: int| 0 <= i < c - 1 implies #[trigger] indices[i] < n - 1 by {
                assert(indices[i] < indices[c - 1]);
            }
            lemma_split_total(frozen, indices, (n - 1) as nat, c - 1);
            let all = picked_at(frozen, indices.take(c));
            assert(all.drop_last() =~= picked_at(frozen, indices.take(c - 1)));
            assert(all.last() == frozen[n - 1]);
        } else {
            assert(!indices.contains(last)) by {
                if indices.contains(last) {
                    let i = choose|i: int| 0 <= i < indices.len() && indices[i] == last;
                    if i < c - 1 {
                        assert(indices[i] < indices[c - 1]);
                        assert(indices[c - 1] < n);
                    }
                }
            }
            assert forall|i: int| 0 <= i < c implies #[trigger] indices[i] < n - 1 by {
                assert(indices[i] < n);
                if indices[i] == last {
                    assert(indices.contains(last));
                }
            }
            lemma_split_total(frozen, indices, (n - 1) as nat, c);
            let left = left_at(frozen, indices, n);
            assert(left.drop_last() =~= left_at(frozen, indices, (n - 1) as nat));
        }
    }
}

impl SegmentManager {
    /// A merge keeps the number of vectors, where what was picked and what
    /// remains are all frozen segments.
    pub proof fn law_merge_keeps_total<M: Fn(&[u32], &[u32]) -> u32, L: Fn(u32) -> u8, C: Coder>(
        &self,
        before: &Self,
        picked: Seq<Arc<FrozenSegment>>,
        remaining: Seq<Arc<FrozenSegment>>,
        metric: M,
        level_source: L,
        coder: C,
        r: Result<Option<MergeStats>>,
    )
        requires
            self.merged(before, picked, remaining, metric, level_source, coder, r),
            frozen_total(picked) + frozen_total(remaining) == frozen_total(
                before.published.frozen@,
            ),
        ensures
            self.published.total() == before.published.total(),
    {
        lemma_gathered_len(picked);
    }

    /// Merges the frozen segments at some indices, which must grow. With fewer
    /// than two there is nothing to do.
    pub fn merge_segments<M: Fn(&[u32], &[u32]) -> u32, L: Fn(u32) -> u8, C: Coder>(
        &mut self,
        indices: &[usize],
        metric: &M,
        level_source: &L,
        coder: &C,
    ) -> (r: Result<Option<MergeStats>>)
        requires
            old(self).wf(),
            old(self).pending_merge is None,
            indices@.len() >= 2 && ascending(indices@) && indices_below(
                indices@,
                old(self).published.frozen@.len(),
            ) ==> old(self).can_merge(
                frozen_total(picked_at(old(self).published.frozen@, indices@)),
            ),
            metric_ok(*metric),
            level_source_ok(*level_source),
            coder.usable(old(self).config.dimensions as nat),
        ensures
            final(self).wf(),
            indices@.len() < 2 ==> {
                &&& r == Ok::<Option<MergeStats>, HNSWError>(None)
                &&& *final(self) == *old(self)
            },
            indices@.len() >= 2 && !ascending(indices@) ==> {
                &&& r matches Err(HNSWError::Internal(s)) && s@ == unsorted_message()
                &&& *final(self) == *old(self)
            },
            indices@.len() >= 2 && ascending(indices@) && !indices_below(
                indices@,
                old(self).published.frozen@.len(),
            ) ==> {
                &&& r matches Err(HNSWError::Internal(s)) && s@ == range_message()
                &&& *final(self) == *old(self)
            },
            indices@.len() >= 2 && ascending(indices@) && indices_below(
                indices@,
                old(self).published.frozen@.len(),
            ) ==> final(self).merged(
                old(self),
                picked_at(old(self).published.frozen@, indices@),
                left_at(
                    old(self).published.frozen@,
                    indices@,
                    old(self).published.frozen@.len(),
                ),
                *metric,
                *level_source,
                *coder,
                r,
            ),
            final(self).published.total() == old(self).published.total(),
    {
        if indices.len() < 2 {
            return Ok(None);
        }
        if !is_ascending(indices) {
            return Err(
                HNSWError::internal(
                    "Segment indices must be sorted ascending with no duplicates".to_string(),
                ),
            );
        }
        let n: usize = self.published.frozen.len();
        let mut picked: Vec<Arc<FrozenSegment>> = Vec::new();
        let mut i: usize = 0;
        while i < indices.len()
            invariant
                i <= indices@.len(),
                indices@.len() >= 2,
                ascending(indices@),
                n == self.published.frozen@.len(),
                *self == *old(self),
                self.wf(),
                forall|j: int| 0 <= j < i ==> #[trigger] indices@[j] < n,
                picked@ == picked_at(self.published.frozen@, indices@.take(i as int)),
                frozen_wf(picked@),
            decreases indices.len() - i,
        {
            if indices[i] >= n {
                assert(!(indices@[i as int] < n));
                return Err(HNSWError::internal("Segment index out of range".to_string()));
            }
            assert(self.published.frozen@[indices@[i as int] as int].wf());
            picked.push(share(&self.published.frozen[indices[i]]));
            assert(picked@ =~= picked_at(self.published.frozen@, indices@.take(i + 1)));
            i += 1;
        }
        assert(indices@.take(i as int) =~= indices@);
        let mut remaining: Vec<Arc<FrozenSegment>> = Vec::new();
        let mut k: usize = 0;
        while k < n
            invariant
                k <= n,
                n == self.published.frozen@.len(),
                *self == *old(self),
                self.wf(),
                remaining@ == left_at(self.published.frozen@, indices@, k as nat),
                frozen_wf(remaining@),
            decreases n - k,
        {
            if !has_index(indices, k) {
                assert(self.published.frozen@[k as int].wf());
                remaining.push(share(&self.published.frozen[k]));
            }
            k += 1;
        }
        proof {
            let frozen = self.published.frozen@;
            assert(self.published.frozen@.len() == self.published.frozen.len());
            lemma_split_total(frozen, indices@, n as nat, indices@.len() as int);
            assert(frozen.take(n as int) =~= frozen);
        }
        let r = self.merge_picked(picked, remaining, metric, level_source, coder);
        proof {
            self.law_merge_keeps_total(
                old(self),
                picked_at(old(self).published.frozen@, indices@),
                left_at(old(self).published.frozen@, indices@, n as nat),
                *metric,
                *level_source,
                *coder,
                r,
            );
        }
        r
    }
}

// ---------------------------------------------------------------------------
// Merging in the background
// ---------------------------------------------------------------------------

/// A merge that can be done apart from the manager.
#[derive(Debug)]
pub struct MergeJob {
    /// The id that the merged segment will have.
    pub segment_id: u64,
    pub source_segment_ids: Vec<u64>,
    pub segments: Vec<Arc<FrozenSegment>>,
    pub total_vectors: usize,
    pub config: SegmentConfig,
}

impl MergeJob {
    pub open spec fn wf(&self) -> bool {
        &&& self.config.usable()
        &&& frozen_wf(self.segments@)
        &&& self.source_segment_ids@ == frozen_ids(self.segments@)
        &&& self.total_vectors == frozen_total(self.segments@)
    }
}

/// How far a merge in the background has come.
#[derive(Debug)]
pub enum MergeProgress {
    NotReady,
    Built(Arc<FrozenSegment>),
    Failed,
}

/// What came of a merge in the background: it goes on, or it is over, with the
/// number of segments that the merged one replaces, if it does.
#[derive(Debug, Clone, Copy, PartialEq, Eq, Structural)]
pub enum PendingMergeCompletion {
    NotReady,
    Finished(Option<usize>),
}

/// The message of the error that there is nothing to merge.
pub open spec fn nothing_message() -> Seq<char> {
    "No vectors to merge"@
}

/// Does the work of a merge.
pub fn run_merge_job<M: Fn(&[u32], &[u32]) -> u32, L: Fn(u32) -> u8, C: Coder>(
    job: &MergeJob,
    metric: &M,
    level_source: &L,
    coder: &C,
) -> (r: Result<FrozenSegment>)
    requires
        job.config.usable(),
        frozen_wf(job.segments@),
        build_fits(job.config, frozen_total(job.segments@)),
        metric_ok(*metric),
        level_source_ok(*level_source),
        coder.usable(job.config.dimensions as nat),
    ensures
        gathered(job.segments@).len() == 0 ==> (r matches Err(HNSWError::Internal(s)) && s@
            == nothing_message()),
        gathered(job.segments@).len() > 0 ==> {
            &&& r is Ok <==> all_acceptable(
                gathered(job.segments@),
                job.config.dimensions as nat,
            )
            &&& r matches Err(e) ==> first_rejected(
                gathered(job.segments@),
                job.config.dimensions as nat,
                e,
            )
            &&& r matches Ok(segment) ==> merged_segment(
                job.config,
                *metric,
                *level_source,
                *coder,
                gathered(job.segments@),
                gathered_slots(job.segments@),
                job.segment_id,
                segment,
            )
        },
{
    proof {
        lemma_gathered_len(job.segments@);
    }
    let (vectors, slots) = collect_from_segments(&job.segments);
    assert(views(vectors@).len() == vectors@.len());
    if vectors.len() == 0 {
        return Err(HNSWError::internal("No vectors to merge".to_string()));
    }
    let index: HNSWIndex<NodeStorage> = match build_merged_index(
        &job.config,
        &vectors,
        &slots,
        metric,
        level_source,
        coder,
    ) {
        Err(e) => {
            return Err(e);
        },
        Ok(index) => index,
    };
    let ghost whole = index;
    let segment = FrozenSegment::from_parts(
        job.segment_id,
        index.entry_point,
        index.params,
        index.distance_fn,
        index.storage,
    );
    proof {
        assert(segment.wf());
        assert(merged_index(
            job.config,
            *metric,
            *level_source,
            *coder,
            gathered(job.segments@),
            gathered_slots(job.segments@),
            whole,
        ));
    }
    Ok(segment)
}

impl SegmentManager {
    /// The ids of the frozen segments.
    pub fn segment_ids(&self) -> (ids: Vec<u64>)
        ensures
            ids@ == frozen_ids(self.published.frozen@),
    {
        let mut ids: Vec<u64> = Vec::new();
        let mut i: usize = 0;
        while i < self.published.frozen.len()
            invariant
                i <= self.published.frozen@.len(),
                ids@ == frozen_ids(self.published.frozen@.take(i as int)),
            decreases self.published.frozen.len() - i,
        {
            ids.push(self.published.frozen[i].id());
            assert(ids@ =~= frozen_ids(self.published.frozen@.take(i + 1)));
            i += 1;
        }
        assert(self.published.frozen@.take(i as int) =~= self.published.frozen@);
        ids
    }

    /// A merge in the background is started if the policy asks for one, there
    /// are at least two segments to merge, and none runs yet. The frozen segments stay as they are; the id of the merged one
    /// is set aside.
    pub open spec fn started<R: Fn(usize, usize) -> u32>(&self, before: &Self, ratio: R) -> bool {
        let frozen = before.published.frozen@;
        if before.pending_merge is None && frozen.len() >= 2 && before.merge_wanted(ratio) {
            &&& *self == (SegmentManager {
                next_segment_id: self.next_segment_id,
                pending_merge: self.pending_merge,
                ..*before
            })
            &&& self.next_segment_id == before.next_segment_id + 1
            &&& self.pending_merge matches Some(p) && {
                &&& p.source_segment_ids@ == frozen_ids(frozen)
                &&& p.job matches Some(job) && {
                    &&& job.segment_id == before.next_segment_id
                    &&& job.source_segment_ids@ == frozen_ids(frozen)
                    &&& job.segments@ == frozen
                    &&& job.total_vectors == frozen_total(frozen)
                    &&& job.config == before.config
                }
            }
        } else {
            *self == *before
        }
    }

    /// Starts a merge in the background, if it is time for one; its work can
    /// then be taken up.
    pub fn try_start_background_merge<R: Fn(usize, usize) -> u32>(&mut self, ratio: &R)
        requires
            old(self).wf(),
            frozen_total(old(self).published.frozen@) <= usize::MAX,
            old(self).next_segment_id < u64::MAX,
            ratio_ok(*ratio),
        ensures
            final(self).wf(),
            final(self).started(old(self), *ratio),
    {
        if self.pending_merge.is_some() || self.published.frozen.len() < 2 {
            return ;
        }
        if !self.should_merge(ratio) {
            return ;
        }
        let segment_id: u64 = self.next_segment_id;
        self.next_segment_id = self.next_segment_id + 1;
        let total_vectors: usize = super::count_frozen(&self.published.frozen);
        let job = MergeJob {
            segment_id,
            source_segment_ids: self.segment_ids(),
            segments: self.share_all(),
            total_vectors,
            config: self.config,
        };
        self.pending_merge = Some(
            PendingMerge { source_segment_ids: self.segment_ids(), job: Some(job) },
        );
    }

    /// Takes up the work of the merge in the background, unless it was taken up
    /// before.
    pub fn take_merge_job(&mut self) -> (r: Option<MergeJob>)
        requires
            old(self).wf(),
        ensures
            final(self).wf(),
            *final(self) == (SegmentManager {
                pending_merge: final(self).pending_merge,
                ..*old(self)
            }),
            match old(self).pending_merge {
                None => r is None && final(self).pending_merge is None,
                Some(p) => {
                    &&& r == p.job
                    &&& final(self).pending_merge == Some(PendingMerge { job: None, ..p })
                },
            },
            r matches Some(job) ==> job.wf(),
    {
        let mut taken: Option<PendingMerge> = None;
        std::mem::swap(&mut self.pending_merge, &mut taken);
        match taken {
            None => None,
            Some(p) => {
                self.pending_merge = Some(
                    PendingMerge { source_segment_ids: p.source_segment_ids, job: None },
                );
                p.job
            },
        }
    }

    /// The frozen segments start with these.
    pub open spec fn starts_with(&self, ids: Seq<u64>) -> bool {
        &&& ids.len() <= self.published.frozen@.len()
        &&& forall|i: int|
            0 <= i < ids.len() ==> #[trigger] ids[i] == self.published.frozen@[i].id
    }

    /// A merged segment took the place of its sources, if they are still the
    /// first of the frozen segments; those behind them stay.
    pub open spec fn published_merge(
        &self,
        before: &Self,
        merged: Arc<FrozenSegment>,
        ids: Seq<u64>,
        r: Option<usize>,
    ) -> bool {
        let frozen = before.published.frozen@;
        &&& self.same_state(before)
        &&& self.next_segment_id == before.next_segment_id
        &&& self.published.mutable == before.published.mutable
        &&& if before.starts_with(ids) {
            &&& r == Some(ids.len() as usize)
            &&& self.published.frozen@ == seq![merged] + frozen.skip(ids.len() as int)
        } else {
            &&& r is None
            &&& self.published.frozen@ == frozen
        }
    }

    /// Puts a merged segment in the place of its sources.
    pub fn publish_completed_pending_merge(
        &mut self,
        merged: Arc<FrozenSegment>,
        source_segment_ids: &[u64],
    ) -> (r: Option<usize>)
        requires
            old(self).wf(),
            old(self).pending_merge is None,
            merged.wf(),
        ensures
            final(self).wf(),
            final(self).published_merge(old(self), merged, source_segment_ids@, r),
    {
        let n: usize = source_segment_ids.len();
        if n > self.published.frozen.len() {
            return None;
        }
        let mut i: usize = 0;
        while i < n
            invariant
                i <= n,
                n == source_segment_ids@.len(),
                n <= self.published.frozen@.len(),
                *self == *old(self),
                self.wf(),
                forall|j: int|
                    0 <= j < i ==> #[trigger] source_segment_ids@[j]
                        == self.published.frozen@[j].id,
            decreases n - i,
        {
            if source_segment_ids[i] != self.published.frozen[i].id() {
                assert(source_segment_ids@[i as int] != self.published.frozen@[i as int].id);
                return None;
            }
            i += 1;
        }
        let mut frozen: Vec<Arc<FrozenSegment>> = Vec::new();
        frozen.push(merged);
        let mut k: usize = n;
        let total: usize = self.published.frozen.len();
        assert(frozen@ =~= seq![merged] + self.published.frozen@.subrange(n as int, n as int));
        while k < total
            invariant
                n <= k <= total,
                total == self.published.frozen@.len(),
                *self == *old(self),
                self.wf(),
                merged.wf(),
                frozen@ == seq![merged] + self.published.frozen@.subrange(n as int, k as int),
                frozen_wf(frozen@),
            decreases total - k,
        {
            assert(self.published.frozen@[k as int].wf());
            frozen.push(share(&self.published.frozen[k]));
            assert(frozen@ =~= seq![merged] + self.published.frozen@.subrange(n as int, k + 1));
            k += 1;
        }
        assert(frozen@ =~= seq![merged] + self.published.frozen@.skip(n as int));
        self.published.frozen = frozen;
        Some(n)
    }

    /// A merge in the background keeps the number of vectors, where the merged
    /// segment has those of its sources; segments that came in behind them in
    /// the meantime stay.
    pub proof fn law_published_merge_keeps_total(
        &self,
        before: &Self,
        merged: Arc<FrozenSegment>,
        ids: Seq<u64>,
        r: Option<usize>,
    )
        requires
            self.published_merge(before, merged, ids, r),
            before.starts_with(ids) ==> merged.index.storage.len == frozen_total(
                before.published.frozen@.take(ids.len() as int),
            ),
        ensures
            self.published.total() == before.published.total(),
    {
        if before.starts_with(ids) {
            let n = ids.len() as int;
            let frozen = before.published.frozen@;
            lemma_total_joined(frozen.take(n), frozen.skip(n));
            assert(frozen.take(n) + frozen.skip(n) =~= frozen);
            lemma_total_joined(seq![merged], frozen.skip(n));
            reveal_with_fuel(frozen_total, 2);
            assert(frozen_total(seq![merged]) == merged.index.storage.len);
        }
    }

    /// A merge in the background was asked how far it is.
    pub open spec fn completed(
        &self,
        before: &Self,
        progress: MergeProgress,
        r: Option<PendingMergeCompletion>,
    ) -> bool {
        match before.pending_merge {
            None => r is None && *self == *before,
            Some(p) => match progress {
                MergeProgress::NotReady => r == Some(PendingMergeCompletion::NotReady) && *self
                    == *before,
                MergeProgress::Failed => {
                    &&& r == Some(PendingMergeCompletion::Finished(None))
                    &&& *self == (SegmentManager { pending_merge: None, ..*before })
                },
                MergeProgress::Built(merged) => exists|drained: Option<usize>|
                    {
                        &&& r == Some(PendingMergeCompletion::Finished(drained))
                        &&& #[trigger] self.published_merge(
                            &SegmentManager { pending_merge: None, ..*before },
                            merged,
                            p.source_segment_ids@,
                            drained,
                        )
                    },
            },
        }
    }

    /// Takes in how far the merge in the background is.
    pub fn complete_pending_merge(&mut self, progress: MergeProgress) -> (r: Option<
        PendingMergeCompletion,
    >)
        requires
            old(self).wf(),
            progress matches MergeProgress::Built(merged) ==> merged.wf(),
        ensures
            final(self).wf(),
            final(self).completed(old(self), progress, r),
    {
        let mut taken: Option<PendingMerge> = None;
        std::mem::swap(&mut self.pending_merge, &mut taken);
        match taken {
            None => None,
            Some(pending) => match progress {
                MergeProgress::NotReady => {
                    self.pending_merge = Some(pending);
                    Some(PendingMergeCompletion::NotReady)
                },
                MergeProgress::Failed => Some(PendingMergeCompletion::Finished(None)),
                MergeProgress::Built(merged) => {
                    let drained: Option<usize> = self.publish_completed_pending_merge(
                        merged,
                        pending.source_segment_ids.as_slice(),
                    );
                    Some(PendingMergeCompletion::Finished(drained))
                },
            },
        }
    }

    /// Takes in how far the merge in the background is; tells whether its
    /// result took the place of its sources.
    pub fn apply_pending_merge_if_ready(&mut self, progress: MergeProgress) -> (applied: bool)
        requires
            old(self).wf(),
            progress matches MergeProgress::Built(merged) ==> merged.wf(),
        ensures
            final(self).wf(),
            exists|r: Option<PendingMergeCompletion>|
                {
                    &&& #[trigger] final(self).completed(old(self), progress, r)
                    &&& applied == (r matches Some(PendingMergeCompletion::Finished(Some(n))))
                },
    {
        let r: Option<PendingMergeCompletion> = self.complete_pending_merge(progress);
        assert(self.completed(old(self), progress, r));
        match r {
            Some(PendingMergeCompletion::Finished(Some(_))) => true,
            _ => false,
        }
    }

    /// What follows a change of the frozen segments: the merge in the background
    /// is asked how far it is, and then another one is started if it is time
    /// for one.
    pub open spec fn settled<R: Fn(usize, usize) -> u32>(
        &self,
        before: &Self,
        progress: MergeProgress,
        ratio: R,
        r: Option<PendingMergeCompletion>,
    ) -> bool {
        exists|mid: SegmentManager|
            mid.completed(before, progress, r) && #[trigger] self.started(&mid, ratio)
    }

    /// Takes in how far the merge in the background is, and starts another one
    /// if it is time for one.
    pub fn finalize_published_frozen_change<R: Fn(usize, usize) -> u32>(
        &mut self,
        progress: MergeProgress,
        ratio: &R,
    ) -> (r: Option<PendingMergeCompletion>)
        requires
            old(self).wf(),
            progress matches MergeProgress::Built(merged) ==> merged.wf()
                && merged.index.storage.len + frozen_total(old(self).published.frozen@)
                <= usize::MAX,
            frozen_total(old(self).published.frozen@) <= usize::MAX,
            old(self).next_segment_id < u64::MAX,
            ratio_ok(*ratio),
        ensures
            final(self).wf(),
            final(self).settled(old(self), progress, *ratio, r),
    {
        let r: Option<PendingMergeCompletion> = self.complete_pending_merge(progress);
        let ghost mid = *self;
        proof {
            assert(mid.completed(old(self), progress, r));
            if mid.published.frozen@ != old(self).published.frozen@ {
                let frozen = old(self).published.frozen@;
                let n = old(self).pending_merge->0.source_segment_ids@.len() as int;
                let merged = progress->Built_0;
                lemma_total_joined(frozen.take(n), frozen.skip(n));
                assert(frozen.take(n) + frozen.skip(n) =~= frozen);
                lemma_total_joined(seq![merged], frozen.skip(n));
                reveal_with_fuel(frozen_total, 2);
                assert(frozen_total(seq![merged]) == merged.index.storage.len);
            }
        }
        self.try_start_background_merge(ratio);
        r
    }

    /// Takes in the result of the merge in the background, after it was waited
    /// for. None is left.
    pub fn drain_pending_merge(&mut self, progress: MergeProgress)
        requires
            old(self).wf(),
            progress !is NotReady,
            progress matches MergeProgress::Built(merged) ==> merged.wf(),
        ensures
            final(self).wf(),
            final(self).pending_merge is None,
            exists|r: Option<PendingMergeCompletion>| #[trigger]
                final(self).completed(old(self), progress, r),
    {
        let r: Option<PendingMergeCompletion> = self.complete_pending_merge(progress);
        assert(self.completed(old(self), progress, r));
    }
}

pub(crate) proof fn lemma_total_joined(a: Seq<Arc<FrozenSegment>>, b: Seq<Arc<FrozenSegment>>)
    ensures
        frozen_total(a + b) == frozen_total(a) + frozen_total(b),
    decreases b.len(),
{
    if b.len() == 0 {
        assert(a + b =~= a);
    } else {
        assert((a + b).drop_last() =~= a + b.drop_last());
        lemma_total_joined(a, b.drop_last());
    }
}

} // verus!
