//! What becomes of the segments when vectors come in.

use vstd::prelude::*;

use super::merge_laws::law_background_start;
use super::SegmentManager;
use crate::distance::all_finite;
use crate::error::Result;
use crate::index::HNSWIndex;
use crate::node_storage::quantization::Coder;
use crate::node_storage::NodeStorage;
use crate::segment::MutableSegment;
use crate::segment_laws::{keeps_graph, law_freeze_keeps_graph};

verus! {

/// The frozen segments are those that were there and, unless the mutable segment
/// was empty, behind them a new one that holds its graph; and the mutable segment
/// is an empty one.
pub open spec fn turned_over<C: Coder>(
    after: &SegmentManager,
    before: &SegmentManager,
    coder: C,
    places: Seq<u32>,
) -> bool {
    let filled = before.published.mutable;
    let old_frozen = before.published.frozen@;
    let frozen = after.published.frozen@;
    let n = old_frozen.len() as int;
    &&& after.config == before.config
    &&& after.published.mutable.index.storage.len == 0
    &&& after.published.mutable.index.entry_point is None
    &&& after.published.mutable.index.storage.dimensions == before.config.dimensions
    &&& after.published.mutable.index.params == before.config.params
    &&& after.published.mutable.index.storage.sq8 == before.config.quantization
    &&& !before.config.quantization ==> after.published.mutable.capacity
        == before.config.segment_capacity
    &&& frozen.len() == n + (if filled.index.storage.len == 0 { 0int } else { 1 })
    &&& forall|i: int| 0 <= i < n ==> #[trigger] frozen[i] == old_frozen[i]
    &&& filled.index.storage.len > 0 ==> {
        &&& frozen[n].id == before.next_segment_id
        &&& after.next_segment_id > before.next_segment_id
        &&& keeps_graph(&filled, &frozen[n], coder, places)
    }
}

/// When the mutable segment is frozen, no vector and no link is lost.
pub proof fn law_rolled<C: Coder>(
    after: &SegmentManager,
    before: &SegmentManager,
    coder: C,
) -> (places: Seq<u32>)
    requires
        before.wf(),
        before.published.mutable.index.storage.len <= u32::MAX,
        after.rolled(before, coder),
    ensures
        turned_over(after, before, coder, places),
        after.pending_merge == before.pending_merge,
{
    let filled = before.published.mutable;
    let frozen = after.published.frozen@;
    if filled.index.storage.len == 0 {
        Seq::empty()
    } else {
        let named = MutableSegment { id: before.next_segment_id, ..filled };
        assert(named.wf());
        let places = law_freeze_keeps_graph(&named, &*frozen.last(), coder);
        assert forall|i: int| 0 <= i < frozen.len() - 1 implies #[trigger] frozen[i]
            == before.published.frozen@[i] by {
            assert(frozen.drop_last()[i] == frozen[i]);
        }
        assert(frozen[frozen.len() - 1] == frozen.last());
        assert(keeps_graph(&filled, &frozen[frozen.len() - 1], coder, places));
        places
    }
}

/// The same where a merge in the background may be started besides.
pub proof fn law_froze<C: Coder, R: Fn(usize, usize) -> u32>(
    after: &SegmentManager,
    before: &SegmentManager,
    coder: C,
    ratio: R,
) -> (places: Seq<u32>)
    requires
        before.wf(),
        before.published.mutable.index.storage.len <= u32::MAX,
        after.froze(before, coder, ratio),
    ensures
        turned_over(after, before, coder, places),
{
    let mid = choose|mid: SegmentManager|
        mid.rolled(before, coder) && #[trigger] after.started(&mid, ratio);
    let places = law_rolled(&mid, before, coder);
    law_background_start(after, &mid, ratio);
    places
}

/// A vector is turned down exactly if it has the wrong length or a component
/// that is not finite. One that is taken becomes the last of the mutable segment,
/// under its slot. Only a mutable segment that is full is frozen before, and all
/// frozen segments stay.
pub proof fn law_insertion<
    M: Fn(&[u32], &[u32]) -> u32,
    L: Fn(u32) -> u8,
    C: Coder,
    R: Fn(usize, usize) -> u32,
>(
    after: &SegmentManager,
    before: &SegmentManager,
    vector: Seq<u32>,
    slot: u32,
    metric: M,
    level_source: L,
    coder: C,
    ratio: R,
    r: Result<u32>,
)
    requires
        before.wf(),
        before.published.mutable.index.storage.len <= u32::MAX,
        after.inserted(before, vector, slot, metric, level_source, coder, ratio, r),
    ensures
        ({
            let filled = before.published.mutable.index.storage;
            let full = filled.len >= before.published.mutable.capacity;
            let dimensions = if full { before.config.dimensions } else { filled.dimensions };
            let old_frozen = before.published.frozen@;
            let frozen = after.published.frozen@;
            let kept = if full { 0int } else { filled.len as int };
            &&& r is Ok <==> vector.len() == dimensions && all_finite(vector)
            &&& frozen.len() == old_frozen.len() + (if full && filled.len > 0 { 1int } else { 0 })
            &&& forall|i: int| 0 <= i < old_frozen.len() ==> #[trigger] frozen[i] == old_frozen[i]
            &&& full && filled.len > 0 ==> frozen[old_frozen.len() as int].index.storage.len
                == filled.len
            &&& after.published.mutable.index.storage.len == kept + (if r is Ok { 1int } else { 0 })
            &&& r matches Ok(id) ==> {
                &&& id == kept
                &&& after.published.mutable.slots@.len() == kept + 1
                &&& after.published.mutable.slots@[kept] == slot
            }
            &&& !full ==> forall|i: int|
                0 <= i < kept ==> #[trigger] after.published.mutable.slots@[i]
                    == before.published.mutable.slots@[i]
        }),
{
    if before.is_full() {
        let mid = choose|mid: SegmentManager|
            mid.froze(before, coder, ratio) && #[trigger] after.took(
                &mid,
                vector,
                slot,
                metric,
                level_source,
                coder,
                r,
            );
        let places = law_froze(&mid, before, coder, ratio);
        let inner = choose|inner: SegmentManager|
            inner.rolled(before, coder) && #[trigger] mid.started(&inner, ratio);
        law_background_start(&mid, &inner, ratio);
    }
}

/// Flushing freezes the mutable segment if it holds vectors, and else changes
/// nothing.
pub proof fn law_flushed<C: Coder, R: Fn(usize, usize) -> u32>(
    after: &SegmentManager,
    before: &SegmentManager,
    coder: C,
    ratio: R,
) -> (places: Seq<u32>)
    requires
        before.wf(),
        before.published.mutable.index.storage.len <= u32::MAX,
        after.flushed(before, coder, ratio),
    ensures
        before.published.mutable.index.storage.len == 0 ==> *after == *before,
        before.published.mutable.index.storage.len > 0 ==> turned_over(
            after,
            before,
            coder,
            places,
        ),
{
    if before.published.mutable.index.storage.len == 0 {
        Seq::empty()
    } else {
        law_froze(after, before, coder, ratio)
    }
}

/// An index that is added becomes the last of the frozen segments, with its
/// vectors, levels and links as they are, the slots that were given, and a number
/// of its own.
pub proof fn law_gained(
    after: &SegmentManager,
    before: &SegmentManager,
    index: HNSWIndex<NodeStorage>,
    slots: Seq<u32>,
)
    requires
        after.gained(before, index, slots),
    ensures
        after.published.mutable == before.published.mutable,
        after.published.frozen@.len() == before.published.frozen@.len() + 1,
        forall|i: int|
            0 <= i < before.published.frozen@.len() ==> #[trigger] after.published.frozen@[i]
                == before.published.frozen@[i],
        ({
            let made = after.published.frozen@[before.published.frozen@.len() as int];
            let a = made.index.storage;
            let b = index.storage;
            &&& made.id == before.next_segment_id
            &&& after.next_segment_id > before.next_segment_id
            &&& made.index.entry_point == index.entry_point
            &&& made.index.params == index.params
            &&& a.len == b.len
            &&& forall|i: u32| i < b.len ==> #[trigger] a.vec(i) == b.vec(i)
            &&& forall|i: u32| i < b.len ==> #[trigger] a.slot_of(i) == slots[i as int]
            &&& forall|i: u32| i < b.len ==> #[trigger] a.node_level(i) == b.node_level(i)
            &&& forall|i: u32, l: u8| i < b.len ==> #[trigger] a.links(i, l) == b.links(i, l)
        }),
{
    let frozen = after.published.frozen@;
    assert forall|i: int| 0 <= i < frozen.len() - 1 implies #[trigger] frozen[i]
        == before.published.frozen@[i] by {
        assert(frozen.drop_last()[i] == frozen[i]);
    }
    assert(frozen[frozen.len() - 1] == frozen.last());
}

} // verus!
