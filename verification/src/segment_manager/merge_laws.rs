//! When segments are merged, and what becomes of them.

use std::sync::Arc;

use vstd::prelude::*;

use super::merge::{
    built_from, gathered, gathered_slots, largest, law_merge_keeps_vectors, left_at, merged_index,
    merged_segment, picked_at, ratio_value, ref_views, smallest, MergeProgress, MergeStats,
    PendingMergeCompletion,
};
use super::{frozen_total, SegmentConfig, SegmentManager};
use crate::distance::float_lt;
use crate::error::{HNSWError, Result};
use crate::graph::GraphStore;
use crate::index::build_laws::{first_highest, law_batch_is_linked, placed_by};
use crate::index::coded::taught_when_due;
use crate::index::coded_laws::law_training;
use crate::index::parallel::{acceptable, batch_built, drawn_levels};
use crate::index::HNSWIndex;
use crate::node_storage::quantization::{recoded, Coder, TRAINING_VECTORS};
use crate::node_storage::NodeStorage;
use crate::reorder::all_below;
use crate::segment::{relabelled, settled, FrozenSegment};
use crate::segment_laws::law_settling_keeps_graph;

verus! {

/// The number of vectors in a segment.
pub open spec fn size(segment: Arc<FrozenSegment>) -> nat {
    segment.index.storage.len as nat
}

/// The number of vectors in the first `n` of some segments.
pub open spec fn sizes(segments: Seq<Arc<FrozenSegment>>, n: int) -> nat
    decreases n,
{
    if n <= 0 {
        0
    } else {
        sizes(segments, n - 1) + size(segments[n - 1])
    }
}

proof fn lemma_sizes(segments: Seq<Arc<FrozenSegment>>, n: int)
    requires
        0 <= n <= segments.len(),
    ensures
        sizes(segments, n) == frozen_total(segments.take(n)),
    decreases n,
{
    if n > 0 {
        lemma_sizes(segments, n - 1);
        assert(segments.take(n).drop_last() =~= segments.take(n - 1));
    }
}

proof fn lemma_extremes(segments: Seq<Arc<FrozenSegment>>, i: int)
    requires
        0 <= i < segments.len(),
    ensures
        smallest(segments) <= size(segments[i]) <= largest(segments),
    decreases segments.len(),
{
    if segments.len() > 1 {
        let front = segments.drop_last();
        if i < front.len() {
            lemma_extremes(front, i);
            assert(front[i] == segments[i]);
        }
    }
}

proof fn lemma_extremes_are_there(segments: Seq<Arc<FrozenSegment>>) -> (r: (int, int))
    requires
        segments.len() > 0,
    ensures
        0 <= r.0 < segments.len(),
        0 <= r.1 < segments.len(),
        size(segments[r.0]) == smallest(segments),
        size(segments[r.1]) == largest(segments),
    decreases segments.len(),
{
    if segments.len() == 1 {
        (0, 0)
    } else {
        let front = segments.drop_last();
        let n = front.len() as int;
        let (a, b) = lemma_extremes_are_there(front);
        assert(front[a] == segments[a] && front[b] == segments[b]);
        (
            if segments[n].index.storage.len < smallest(front) {
                n
            } else {
                a
            },
            if segments[n].index.storage.len > largest(front) {
                n
            } else {
                b
            },
        )
    }
}

/// No segment is smaller than the one at `a`, and none larger than that at `b`.
pub open spec fn spans(segments: Seq<Arc<FrozenSegment>>, a: int, b: int) -> bool {
    &&& 0 <= a < segments.len()
    &&& 0 <= b < segments.len()
    &&& forall|i: int|
        0 <= i < segments.len() ==> size(segments[a]) <= size(#[trigger] segments[i]) <= size(
            segments[b],
        )
}

/// The ratio of the size of the largest segment to that of the smallest is above
/// a limit; an empty segment counts as if it held one vector.
pub open spec fn sizes_differ<R: Fn(usize, usize) -> u32>(
    segments: Seq<Arc<FrozenSegment>>,
    ratio: R,
    limit: u32,
) -> bool {
    exists|a: int, b: int|
        {
            let low = segments[a].index.storage.len;
            let high = segments[b].index.storage.len;
            &&& #[trigger] spans(segments, a, b)
            &&& float_lt(limit, ratio_value(ratio, high, if low == 0 { 1usize } else { low }))
        }
}

proof fn lemma_sizes_differ<R: Fn(usize, usize) -> u32>(
    segments: Seq<Arc<FrozenSegment>>,
    ratio: R,
    limit: u32,
)
    requires
        segments.len() > 0,
    ensures
        sizes_differ(segments, ratio, limit) == float_lt(
            limit,
            ratio_value(
                ratio,
                largest(segments),
                if smallest(segments) >= 1 { smallest(segments) } else { 1 },
            ),
        ),
{
    let (a, b) = lemma_extremes_are_there(segments);
    assert(spans(segments, a, b)) by {
        assert forall|i: int| 0 <= i < segments.len() implies size(segments[a]) <= size(
            #[trigger] segments[i],
        ) <= size(segments[b]) by {
            lemma_extremes(segments, i);
        }
    }
    assert forall|c: int, e: int| #[trigger] spans(segments, c, e) implies size(segments[c])
        == smallest(segments) && size(segments[e]) == largest(segments) by {
        assert(size(segments[c]) <= size(segments[a]));
        assert(size(segments[b]) <= size(segments[e]));
        assert(size(segments[a]) <= size(segments[c]));
        assert(size(segments[e]) <= size(segments[b]));
    }
}

/// When a merge is wanted: never where merging is switched off, nor with fewer
/// segments than both numbers of the policy; always with as many as the larger
/// one allows; and with as many as the smaller one asks for, if they hold many
/// vectors or differ much in size.
pub proof fn law_merge_policy<R: Fn(usize, usize) -> u32>(manager: &SegmentManager, ratio: R)
    ensures
        ({
            let policy = manager.merge_policy;
            let segments = manager.published.frozen@;
            let n = segments.len();
            let vectors = sizes(segments, n as int);
            &&& !policy.enabled ==> !manager.merge_wanted(ratio)
            &&& n < policy.min_segments && n < policy.max_segments ==> !manager.merge_wanted(ratio)
            &&& policy.enabled && n >= policy.max_segments ==> manager.merge_wanted(ratio)
            &&& policy.enabled && n >= policy.min_segments && vectors >= policy.min_vectors
                ==> manager.merge_wanted(ratio)
            &&& 0 < n < policy.max_segments && vectors < policy.min_vectors ==> (
            manager.merge_wanted(ratio) <==> policy.enabled && n >= policy.min_segments
                && sizes_differ(segments, ratio, policy.size_ratio_threshold))
        }),
{
    let policy = manager.merge_policy;
    let segments = manager.published.frozen@;
    let n = segments.len();
    lemma_sizes(segments, n as int);
    assert(segments.take(n as int) =~= segments);
    if n > 0 {
        lemma_sizes_differ(segments, ratio, policy.size_ratio_threshold);
    }
}

proof fn lemma_gathered_at(segments: Seq<Arc<FrozenSegment>>, n: int, a: int, id: u32)
    requires
        0 <= a < n <= segments.len(),
        id < size(segments[a]),
    ensures
        gathered(segments.take(n)).len() == sizes(segments, n),
        gathered_slots(segments.take(n)).len() == sizes(segments, n),
        sizes(segments, a) + id < sizes(segments, n),
        gathered(segments.take(n))[sizes(segments, a) + id] == segments[a].index.storage.vec(id),
        gathered_slots(segments.take(n))[sizes(segments, a) + id]
            == segments[a].index.storage.slot_of(id),
    decreases n,
{
    let some = segments.take(n);
    let front = segments.take(n - 1);
    assert(some.drop_last() =~= front);
    lemma_gathered_count(segments, n - 1);
    if a < n - 1 {
        lemma_gathered_at(segments, n - 1, a, id);
    }
}

proof fn lemma_gathered_count(segments: Seq<Arc<FrozenSegment>>, n: int)
    requires
        0 <= n <= segments.len(),
    ensures
        gathered(segments.take(n)).len() == sizes(segments, n),
        gathered_slots(segments.take(n)).len() == sizes(segments, n),
    decreases n,
{
    if n > 0 {
        lemma_gathered_count(segments, n - 1);
        assert(segments.take(n).drop_last() =~= segments.take(n - 1));
    }
}

proof fn lemma_gathered_from(segments: Seq<Arc<FrozenSegment>>, n: int, j: int) -> (r: (int, u32))
    requires
        0 <= n <= segments.len(),
        0 <= j < gathered(segments.take(n)).len(),
        sizes(segments, n) <= u32::MAX,
    ensures
        0 <= r.0 < n,
        r.1 < size(segments[r.0]),
        j == sizes(segments, r.0) + r.1,
        gathered(segments.take(n))[j] == segments[r.0].index.storage.vec(r.1),
    decreases n,
{
    lemma_gathered_count(segments, n);
    if n <= 0 {
        (0, 0)
    } else {
        lemma_gathered_count(segments, n - 1);
        assert(segments.take(n).drop_last() =~= segments.take(n - 1));
        let before = sizes(segments, n - 1) as int;
        if j < before {
            lemma_gathered_from(segments, n - 1, j)
        } else {
            let id = (j - before) as u32;
            lemma_gathered_at(segments, n, n - 1, id);
            (n - 1, id)
        }
    }
}

proof fn lemma_offsets(segments: Seq<Arc<FrozenSegment>>, a: int, b: int)
    requires
        0 <= a < b <= segments.len(),
    ensures
        sizes(segments, a) + size(segments[a]) <= sizes(segments, b),
    decreases b - a,
{
    if a + 1 < b {
        lemma_offsets(segments, a, b - 1);
    }
}

/// A segment holds the vector of a node of another one at a place: as it was or,
/// where its quantization was trained, as it is coded; with its slot.
pub open spec fn keeps_at<C: Coder>(
    source: FrozenSegment,
    id: u32,
    made: FrozenSegment,
    coder: C,
    place: u32,
) -> bool {
    let from = source.index.storage;
    let to = made.index.storage;
    &&& place < to.len
    &&& to.slot_of(place) == from.slot_of(id)
    &&& to.vec(place) == (if to.sq8_trained {
        recoded(coder, to.sq8_params->0, from.vec(id))
    } else {
        from.vec(id)
    })
}

/// A segment holds every vector of some segments once, and no other: that of a
/// node stands where `places` says for its number among all the vectors.
pub open spec fn keeps_all<C: Coder>(
    sources: Seq<Arc<FrozenSegment>>,
    made: FrozenSegment,
    coder: C,
    places: Seq<u32>,
) -> bool {
    &&& made.index.storage.len == sizes(sources, sources.len() as int)
    &&& places.len() == made.index.storage.len
    &&& places.no_duplicates()
    &&& forall|a: int, id: u32|
        0 <= a < sources.len() && id < size(sources[a]) ==> #[trigger] keeps_at(
            *sources[a],
            id,
            made,
            coder,
            places[sizes(sources, a) + id],
        )
}

/// The segment that a merge makes of some segments holds all their vectors.
pub proof fn law_merged_segment_is_complete<
    M: Fn(&[u32], &[u32]) -> u32,
    L: Fn(u32) -> u8,
    C: Coder,
>(
    config: SegmentConfig,
    metric: M,
    level_source: L,
    coder: C,
    sources: Seq<Arc<FrozenSegment>>,
    id: u64,
    made: FrozenSegment,
) -> (places: Seq<u32>)
    requires
        merged_segment(
            config,
            metric,
            level_source,
            coder,
            gathered(sources),
            gathered_slots(sources),
            id,
            made,
        ),
        sizes(sources, sources.len() as int) <= u32::MAX,
    ensures
        made.id == id,
        made.index.params == config.params,
        made.index.distance_fn == config.distance_fn,
        keeps_all(sources, made, coder, places),
{
    let n = sources.len() as int;
    lemma_gathered_count(sources, n);
    assert(sources.take(n) =~= sources);
    let vectors = gathered(sources);
    let slots = gathered_slots(sources);
    law_merge_keeps_vectors(config, metric, level_source, coder, vectors, slots, id, made);
    let places = choose|places: Seq<u32>|
        {
            &&& #[trigger] places.len() == vectors.len()
            &&& places.no_duplicates()
            &&& forall|i: int|
                0 <= i < vectors.len() ==> {
                    let p = #[trigger] places[i];
                    &&& p < made.index.storage.len
                    &&& made.index.storage.vec(p) == (if made.index.storage.sq8_trained {
                        recoded(coder, made.index.storage.sq8_params->0, vectors[i])
                    } else {
                        vectors[i]
                    })
                    &&& made.index.storage.slot_of(p) == slots[i]
                }
        };
    assert forall|a: int, i: u32|
        0 <= a < sources.len() && i < size(sources[a]) implies #[trigger] keeps_at(
        *sources[a],
        i,
        made,
        coder,
        places[sizes(sources, a) + i],
    ) by {
        lemma_gathered_at(sources, n, a, i);
    }
    places
}

/// The graph of a segment that a merge makes of some vectors: an index was built
/// from them, in their order, as a batch is, with the parameters and the levels
/// that the configuration gives; and the segment holds that graph, put in the
/// order for reading.
pub proof fn law_merged_graph<M: Fn(&[u32], &[u32]) -> u32, L: Fn(u32) -> u8, C: Coder>(
    config: SegmentConfig,
    metric: M,
    level_source: L,
    coder: C,
    vectors: Seq<Seq<u32>>,
    slots: Seq<u32>,
    id: u64,
    made: FrozenSegment,
) -> (r: (HNSWIndex<NodeStorage>, Seq<NodeStorage>, Seq<u32>))
    requires
        merged_segment(config, metric, level_source, coder, vectors, slots, id, made),
        0 < vectors.len() <= u32::MAX,
    ensures
        ({
            let (exact, steps, places) = r;
            let levels = drawn_levels(
                level_source,
                config.params.seed,
                config.params.max_level,
                vectors.len(),
            );
            let a = made.index.storage;
            let b = exact.storage;
            &&& b.len == vectors.len()
            &&& forall|i: u32| i < b.len ==> #[trigger] b.vec(i) == vectors[i as int]
            &&& forall|i: u32| i < b.len ==> #[trigger] b.node_level(i) == levels[i as int]
            &&& exact.entry_point is Some
            &&& first_highest(levels, vectors.len() as int, exact.entry_point->0)
            &&& steps.len() == vectors.len()
            &&& steps.last() == b
            &&& forall|i: int|
                1 <= i < steps.len() ==> #[trigger] placed_by(
                    steps,
                    metric,
                    config.params,
                    levels,
                    i,
                )
            &&& a.len == b.len
            &&& places.len() == b.len
            &&& places.no_duplicates()
            &&& forall|i: u32|
                i < b.len ==> #[trigger] places[i as int] < a.len && a.node_level(places[i as int])
                    == b.node_level(i)
            &&& forall|i: u32, l: u8|
                i < b.len ==> {
                    let old_links = #[trigger] b.links(i, l);
                    let new_links = a.links(places[i as int], l);
                    &&& new_links.len() == old_links.len()
                    &&& forall|j: int|
                        0 <= j < old_links.len() ==> #[trigger] new_links[j]
                            == places[old_links[j] as int]
                }
            &&& made.index.entry_point == Some(0u32)
            &&& places[exact.entry_point->0 as int] == 0
        }),
{
    let index = choose|index: HNSWIndex<NodeStorage>|
        {
            &&& #[trigger] merged_index(config, metric, level_source, coder, vectors, slots, index)
            &&& made.index.storage == index.storage
            &&& made.index.entry_point == index.entry_point
        };
    let levels = drawn_levels(
        level_source,
        config.params.seed,
        config.params.max_level,
        vectors.len(),
    );
    let (built, labelled) = choose|
        built: HNSWIndex<NodeStorage>,
        labelled: HNSWIndex<NodeStorage>,
    |
        {
            &&& built_from(config, metric, level_source, coder, vectors, built)
            &&& #[trigger] relabelled(built, labelled, slots)
            &&& #[trigger] settled(labelled, index)
        };
    let (empty, refs, exact) = choose|
        empty: HNSWIndex<NodeStorage>,
        refs: Seq<&[u32]>,
        exact: HNSWIndex<NodeStorage>,
    |
        {
            &&& empty.params == config.params
            &&& ref_views(refs) == vectors
            &&& #[trigger] batch_built(empty, exact, metric, refs, levels)
            &&& taught_when_due(exact, built, coder)
        };
    assert(ref_views(refs).len() == refs.len());
    let steps = law_batch_is_linked(empty, exact, metric, refs, levels);
    let b = exact.storage;
    let c = labelled.storage;
    if exact.storage.waits() && exact.storage.collected() >= TRAINING_VECTORS {
        let _ = law_training(&b, &built.storage, coder);
    }
    assert forall|i: u32, l: u8| i < b.len implies #[trigger] c.links(i, l) == b.links(i, l) by {
        assert(c.links(i, l) == built.storage.links(i, l));
        assert(built.storage.links(i, l) == b.links(i, l));
    }
    assert forall|i: u32| i < b.len implies #[trigger] c.node_level(i) == b.node_level(i) by {
        assert(c.node_level(i) == built.storage.node_level(i));
        assert(built.storage.node_level(i) == b.node_level(i));
    }
    assert(c.links_inside()) by {
        exact.lemma_links_inside();
        assert forall|i: u32, l: u8| i < c.len implies all_below(
            #[trigger] c.links(i, l),
            c.len as nat,
        ) by {
            assert(c.links(i, l) == b.links(i, l));
            assert(all_below(b.links(i, l), b.len as nat));
        }
    }
    let places = law_settling_keeps_graph(labelled, index);
    assert forall|i: u32| i < b.len implies #[trigger] b.vec(i) == vectors[i as int] by {
        assert(b.vector_at(i) == refs[i as int]@);
        assert(ref_views(refs)[i as int] == refs[i as int]@);
    }
    assert forall|i: u32| i < b.len implies #[trigger] b.node_level(i) == levels[i as int] by {
        assert(b.level_at(i) == levels[i as int]);
    }
    assert forall|i: u32, l: u8| i < b.len implies {
        let old_links = #[trigger] b.links(i, l);
        let new_links = made.index.storage.links(places[i as int], l);
        &&& new_links.len() == old_links.len()
        &&& forall|j: int|
            0 <= j < old_links.len() ==> #[trigger] new_links[j] == places[old_links[j] as int]
    } by {
        assert(c.links(i, l) == b.links(i, l));
    }
    assert forall|i: u32| i < b.len implies #[trigger] places[i as int] < made.index.storage.len
        && made.index.storage.node_level(places[i as int]) == b.node_level(i) by {
        assert(c.node_level(i) == b.node_level(i));
    }
    (exact, steps, places)
}

/// A merge that went well puts one segment behind those that remain, which keep
/// their order. It holds every vector of the segments that were merged, each
/// once and with its slot, and no other; and it has a number of its own.
pub proof fn law_merge_is_complete<M: Fn(&[u32], &[u32]) -> u32, L: Fn(u32) -> u8, C: Coder>(
    after: &SegmentManager,
    before: &SegmentManager,
    picked: Seq<Arc<FrozenSegment>>,
    remaining: Seq<Arc<FrozenSegment>>,
    metric: M,
    level_source: L,
    coder: C,
    r: Result<Option<MergeStats>>,
) -> (places: Seq<u32>)
    requires
        after.merged(before, picked, remaining, metric, level_source, coder, r),
        sizes(picked, picked.len() as int) <= u32::MAX,
    ensures
        after.published.mutable == before.published.mutable,
        r == Ok::<Option<MergeStats>, HNSWError>(None) <==> sizes(picked, picked.len() as int) == 0,
        r is Err ==> exists|a: int, id: u32|
            0 <= a < picked.len() && id < size(picked[a]) && !acceptable(
                #[trigger] picked[a].index.storage.vec(id),
                before.config.dimensions as nat,
            ),
        r matches Ok(Some(_)) ==> forall|a: int, id: u32|
            0 <= a < picked.len() && id < size(picked[a]) ==> acceptable(
                #[trigger] picked[a].index.storage.vec(id),
                before.config.dimensions as nat,
            ),
        !(r matches Ok(Some(_))) ==> after.published.frozen@ == before.published.frozen@,
        r matches Ok(Some(stats)) ==> {
            let frozen = after.published.frozen@;
            let n = remaining.len() as int;
            &&& stats.vectors_merged == sizes(picked, picked.len() as int)
            &&& stats.segments_merged == picked.len() as usize
            &&& frozen.len() == n + 1
            &&& forall|i: int| 0 <= i < n ==> #[trigger] frozen[i] == remaining[i]
            &&& frozen[n].id == before.next_segment_id
            &&& after.next_segment_id > before.next_segment_id
            &&& keeps_all(picked, *frozen[n], coder, places)
        },
{
    let n = picked.len() as int;
    lemma_gathered_count(picked, n);
    assert(picked.take(n) =~= picked);
    let dim = before.config.dimensions as nat;
    if r is Err {
        let vectors = gathered(picked);
        let j = choose|j: int| 0 <= j < vectors.len() && !acceptable(#[trigger] vectors[j], dim);
        let (a, id) = lemma_gathered_from(picked, n, j);
        assert(!acceptable(picked[a].index.storage.vec(id), dim));
    }
    if r matches Ok(Some(_)) {
        assert forall|a: int, id: u32|
            0 <= a < picked.len() && id < size(picked[a]) implies acceptable(
            #[trigger] picked[a].index.storage.vec(id),
            dim,
        ) by {
            lemma_gathered_at(picked, n, a, id);
            assert(acceptable(gathered(picked)[sizes(picked, a) + id], dim));
        }
        let frozen = after.published.frozen@;
        let made = *frozen.last();
        assert forall|i: int| 0 <= i < remaining.len() implies #[trigger] frozen[i]
            == remaining[i] by {
            assert(frozen.drop_last()[i] == frozen[i]);
        }
        let places = law_merged_segment_is_complete(
            before.config,
            metric,
            level_source,
            coder,
            picked,
            before.next_segment_id,
            made,
        );
        assert(frozen.last() == frozen[remaining.len() as int]);
        assert(keeps_all(picked, made, coder, places));
        places
    } else {
        Seq::empty()
    }
}

/// Two nodes of the sources of a segment stand at two places of it.
pub proof fn law_merge_keeps_apart<C: Coder>(
    sources: Seq<Arc<FrozenSegment>>,
    made: FrozenSegment,
    coder: C,
    places: Seq<u32>,
    a: int,
    i: u32,
    b: int,
    j: u32,
)
    requires
        keeps_all(sources, made, coder, places),
        0 <= a < sources.len(),
        0 <= b < sources.len(),
        i < size(sources[a]),
        j < size(sources[b]),
        a != b || i != j,
    ensures
        places[sizes(sources, a) + i] != places[sizes(sources, b) + j],
{
    let n = sources.len() as int;
    lemma_gathered_at(sources, n, a, i);
    lemma_gathered_at(sources, n, b, j);
    if a < b {
        lemma_offsets(sources, a, b);
    } else if b < a {
        lemma_offsets(sources, b, a);
    }
}

/// The segments that are merged by their indices are those at the indices, in
/// their order; those that are left are all others, in their order.
pub proof fn law_picked_and_left(frozen: Seq<Arc<FrozenSegment>>, indices: Seq<usize>, n: nat) -> (
    positions: Seq<int>)
    requires
        n <= frozen.len() <= usize::MAX,
    ensures
        picked_at(frozen, indices).len() == indices.len(),
        forall|i: int|
            0 <= i < indices.len() ==> #[trigger] picked_at(frozen, indices)[i]
                == frozen[indices[i] as int],
        positions.len() == left_at(frozen, indices, n).len(),
        forall|j: int|
            0 <= j < positions.len() ==> {
                &&& 0 <= #[trigger] positions[j] < n
                &&& !indices.contains(positions[j] as usize)
                &&& left_at(frozen, indices, n)[j] == frozen[positions[j]]
            },
        forall|i: int, j: int|
            0 <= i < j < positions.len() ==> #[trigger] positions[i] < #[trigger] positions[j],
        forall|p: int|
            0 <= p < n && !indices.contains(p as usize) ==> #[trigger] positions.contains(p),
    decreases n,
{
    if n == 0 {
        Seq::empty()
    } else {
        let before = law_picked_and_left(frozen, indices, (n - 1) as nat);
        let last = n - 1;
        if indices.contains(last as usize) {
            before
        } else {
            let positions = before.push(last);
            assert forall|p: int|
                0 <= p < n && !indices.contains(p as usize) implies #[trigger] positions.contains(
                p,
            ) by {
                if p < last {
                    assert(before.contains(p));
                    let j = choose|j: int| 0 <= j < before.len() && before[j] == p;
                    assert(positions[j] == p);
                } else {
                    assert(positions[before.len() as int] == p);
                }
            }
            positions
        }
    }
}

/// A merge in the background that was built takes the place of its sources, if
/// these are still the first of the frozen segments: it comes first, and all
/// segments behind its sources stay behind it. Else nothing changes. One that is
/// not ready or failed changes no segment.
pub proof fn law_background_merge(
    after: &SegmentManager,
    before: &SegmentManager,
    progress: MergeProgress,
    r: Option<PendingMergeCompletion>,
)
    requires
        after.completed(before, progress, r),
    ensures
        after.published.mutable == before.published.mutable,
        !(before.pending_merge is Some && progress is Built) ==> after.published.frozen@
            == before.published.frozen@,
        before.pending_merge is Some && progress !is NotReady ==> after.pending_merge is None,
        before.pending_merge is Some && progress is NotReady ==> after.pending_merge
            == before.pending_merge,
        before.pending_merge is Some && progress is Built ==> {
            let ids = before.pending_merge->0.source_segment_ids@;
            let old_frozen = before.published.frozen@;
            let frozen = after.published.frozen@;
            let n = ids.len() as int;
            let there = n <= old_frozen.len() && forall|i: int|
                0 <= i < n ==> #[trigger] ids[i] == old_frozen[i].id;
            &&& !there ==> frozen == old_frozen && r == Some(
                PendingMergeCompletion::Finished(None),
            )
            &&& there ==> {
                &&& r == Some(PendingMergeCompletion::Finished(Some(n as usize)))
                &&& frozen.len() == old_frozen.len() - n + 1
                &&& frozen[0] == progress->Built_0
                &&& forall|i: int| n <= i < old_frozen.len() ==> frozen[i - n + 1] == #[trigger] old_frozen[i]
            }
        },
{
}

/// A merge in the background is started exactly if none runs, there are at least
/// two frozen segments, and the policy asks for one. It is to merge all of them,
/// under a number of its own; no segment changes.
pub proof fn law_background_start<R: Fn(usize, usize) -> u32>(
    after: &SegmentManager,
    before: &SegmentManager,
    ratio: R,
)
    requires
        after.started(before, ratio),
    ensures
        after.published == before.published,
        after.config == before.config,
        after.merge_policy == before.merge_policy,
        before.pending_merge is Some || before.published.frozen@.len() < 2
            || !before.merge_wanted(ratio) ==> *after == *before,
        before.pending_merge is None && before.published.frozen@.len() >= 2 && before.merge_wanted(
            ratio,
        ) ==> {
            let frozen = before.published.frozen@;
            &&& after.next_segment_id > before.next_segment_id
            &&& after.pending_merge is Some
            &&& after.pending_merge->0.job is Some
            &&& after.pending_merge->0.job->0.segments@ == frozen
            &&& after.pending_merge->0.job->0.segment_id == before.next_segment_id
            &&& after.pending_merge->0.job->0.total_vectors == sizes(frozen, frozen.len() as int)
            &&& after.pending_merge->0.job->0.config == before.config
            &&& after.pending_merge->0.source_segment_ids@.len() == frozen.len()
            &&& forall|i: int|
                0 <= i < frozen.len() ==> #[trigger] after.pending_merge->0.source_segment_ids@[i]
                    == frozen[i].id
        },
{
    let frozen = before.published.frozen@;
    lemma_sizes(frozen, frozen.len() as int);
    assert(frozen.take(frozen.len() as int) =~= frozen);
}

} // verus!
