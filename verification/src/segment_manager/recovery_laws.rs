//! What is left after a save, and after a merge is taken up again.

use std::sync::Arc;

use vstd::prelude::*;

use super::persistence::{
    action_for, begins_with, ends_with, name_prefix, others, unfinished_manifest,
    unfinished_segment, FileAction, PendingMeta,
};
use super::SegmentManager;
use crate::segment::FrozenSegment;

verus! {

proof fn lemma_others(frozen: Seq<Arc<FrozenSegment>>, sources: Seq<u64>) -> (at: Seq<int>)
    ensures
        at.len() == others(frozen, sources).len(),
        forall|i: int, j: int| 0 <= i < j < at.len() ==> #[trigger] at[i] < #[trigger] at[j],
        forall|i: int|
            0 <= i < at.len() ==> 0 <= #[trigger] at[i] < frozen.len() && others(
                frozen,
                sources,
            )[i] == frozen[at[i]] && !sources.contains(frozen[at[i]].id),
        forall|p: int|
            0 <= p < frozen.len() && !sources.contains((#[trigger] frozen[p]).id) ==> at.contains(p),
    decreases frozen.len(),
{
    if frozen.len() == 0 {
        Seq::empty()
    } else {
        let front = frozen.drop_last();
        let before = lemma_others(front, sources);
        let last = frozen.len() - 1;
        let at = if sources.contains(frozen.last().id) { before } else { before.push(last) };
        assert forall|p: int|
            0 <= p < frozen.len() && !sources.contains((#[trigger] frozen[p]).id) implies at.contains(
            p,
        ) by {
            if p < last {
                assert(front[p] == frozen[p]);
                let j = choose|j: int| 0 <= j < before.len() && before[j] == p;
                assert(at[j] == p);
            } else {
                assert(at[before.len() as int] == p);
            }
        }
        assert forall|i: int| 0 <= i < at.len() implies 0 <= #[trigger] at[i] < frozen.len()
            && others(frozen, sources)[i] == frozen[at[i]] && !sources.contains(
            frozen[at[i]].id,
        ) by {
            if i < before.len() {
                assert(front[before[i]] == frozen[before[i]]);
            }
        }
        at
    }
}

/// A merge that is taken up again puts the merged segment first, and behind it
/// all segments that it was not made from, in their order. No segment gets the
/// number of the merged one again.
pub proof fn law_recovered(
    after: &SegmentManager,
    before: &SegmentManager,
    meta: PendingMeta,
    merged: FrozenSegment,
) -> (at: Seq<int>)
    requires
        after.recovered(before, meta, merged),
    ensures
        after.published.mutable == before.published.mutable,
        after.published.frozen@.len() == at.len() + 1,
        *after.published.frozen@[0] == merged,
        forall|i: int, j: int| 0 <= i < j < at.len() ==> #[trigger] at[i] < #[trigger] at[j],
        forall|i: int|
            0 <= i < at.len() ==> 0 <= #[trigger] at[i] < before.published.frozen@.len()
                && after.published.frozen@[i + 1] == before.published.frozen@[at[i]]
                && !meta.source_ids@.contains(before.published.frozen@[at[i]].id),
        forall|p: int|
            0 <= p < before.published.frozen@.len() && !meta.source_ids@.contains(
                (#[trigger] before.published.frozen@[p]).id,
            ) ==> at.contains(p),
        meta.merged_segment_id < u64::MAX ==> after.next_segment_id > meta.merged_segment_id,
        after.next_segment_id >= before.next_segment_id,
{
    lemma_others(before.published.frozen@, meta.source_ids@)
}

/// What a save left unfinished is removed, whatever it is; and a file is kept
/// that neither was left unfinished nor has the name of a segment.
pub proof fn law_files_after_save(name: Seq<u8>, active: Seq<u64>)
    ensures
        ends_with(name, unfinished_segment()) || ends_with(name, unfinished_manifest())
            ==> action_for(name, active) == FileAction::RemoveTemporary,
        !ends_with(name, unfinished_segment()) && !ends_with(name, unfinished_manifest())
            && !begins_with(name, name_prefix()) ==> action_for(name, active) == FileAction::Keep,
{
}

} // verus!
