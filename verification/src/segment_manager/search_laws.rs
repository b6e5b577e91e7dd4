//! What holds of every search of segments, one by one and together.

use vstd::prelude::*;

use super::results::{by_distance, law_by_distance, law_nearest_first, nearest_first};
use super::{joined, merged_results, SegmentReadView};
use crate::distance::{is_nan, rank};
use crate::error::Result;
use crate::graph::GraphStore;
use crate::index::insert::at_most;
use crate::index::search::{searched, searched_filtered};
use crate::index::search_laws::{
    away, law_filtered_search_answers, law_search_answers, law_search_walks_down, walked_down,
};
use crate::segment::{by_slot, FrozenSegment, MutableSegment, SegmentSearchResult};
use crate::types::SearchResult;

verus! {

/// A search of a mutable segment is a search of its graph, for as many results
/// and with a beam as wide; each result gets the slot of its vector.
pub proof fn law_mutable_search<M: Fn(&[u32], &[u32]) -> u32>(
    segment: MutableSegment,
    metric: M,
    query: Seq<u32>,
    k: usize,
    ef: usize,
    r: Result<Seq<SegmentSearchResult>>,
) -> (inner: Result<Seq<SearchResult>>)
    requires
        segment.wf(),
        segment.found(metric, query, k, ef, r),
    ensures
        searched(segment.index, metric, query, k, ef, inner),
        r is Err <==> inner is Err,
        r matches Err(e) ==> inner == Err::<Seq<SearchResult>, _>(e),
        r matches Ok(results) ==> {
            &&& results.len() == inner->Ok_0.len()
            &&& forall|i: int|
                0 <= i < results.len() ==> {
                    let node = inner->Ok_0[i].slot;
                    &&& node < segment.index.storage.len
                    &&& (#[trigger] results[i]).id == node
                    &&& results[i].distance == away(segment.index.storage, metric, query, node)
                    &&& results[i].slot == segment.slots@[node as int]
                }
        },
{
    let inner = choose|inner: Result<Seq<SearchResult>>| #[trigger]
        searched(segment.index, metric, query, k, ef, inner) && r == crate::segment::slotted(
            inner,
            segment.slots@,
        );
    law_search_answers(segment.index, metric, query, k, ef, inner);
    inner
}

/// A search of a frozen segment is a search of its graph, for as many results
/// and with a beam as wide; each result is named by the slot of its vector. A
/// search that fails finds nothing.
pub proof fn law_frozen_search<M: Fn(&[u32], &[u32]) -> u32>(
    segment: FrozenSegment,
    metric: M,
    query: Seq<u32>,
    k: usize,
    ef: usize,
    results: Seq<SegmentSearchResult>,
) -> (inner: Result<Seq<SearchResult>>)
    requires
        segment.wf(),
        segment.found(metric, query, k, ef, results),
    ensures
        searched(segment.index, metric, query, k, ef, inner),
        inner is Err ==> results.len() == 0,
        inner matches Ok(nodes) ==> {
            &&& results.len() == nodes.len()
            &&& forall|i: int|
                0 <= i < results.len() ==> {
                    let node = nodes[i].slot;
                    &&& node < segment.index.storage.len
                    &&& (#[trigger] results[i]).distance == away(
                        segment.index.storage,
                        metric,
                        query,
                        node,
                    )
                    &&& results[i].slot == segment.index.storage.slot_of(node)
                    &&& results[i].id == results[i].slot
                }
        },
{
    let inner = choose|inner: Result<Seq<SearchResult>>| #[trigger]
        searched(segment.index, metric, query, k, ef, inner) && results
            == crate::segment::frozen_results(inner, segment.slots());
    law_search_answers(segment.index, metric, query, k, ef, inner);
    inner
}

/// A filtered search of a mutable segment is a filtered search of its graph,
/// for as many results and with the same width asked for, in which a node
/// passes if the filter lets the slot of its vector through.
pub proof fn law_mutable_filtered_search<M: Fn(&[u32], &[u32]) -> u32, F: Fn(u32) -> bool>(
    segment: MutableSegment,
    metric: M,
    query: Seq<u32>,
    k: usize,
    ef: usize,
    filter: F,
    r: Result<Seq<SegmentSearchResult>>,
) -> (p: (Result<Seq<SearchResult>>, spec_fn(u32) -> bool))
    requires
        segment.wf(),
        segment.found_filtered(metric, query, k, ef, filter, r),
    ensures
        searched_filtered(segment.index, metric, query, k, ef, p.1, p.0),
        forall|node: u32|
            node < segment.index.storage.len ==> #[trigger] (p.1)(node) == call_ensures(
                filter,
                (segment.slots@[node as int],),
                true,
            ),
        r is Err <==> p.0 is Err,
        r matches Ok(results) ==> {
            &&& results.len() == p.0->Ok_0.len()
            &&& forall|i: int|
                0 <= i < results.len() ==> {
                    let node = p.0->Ok_0[i].slot;
                    &&& node < segment.index.storage.len
                    &&& (#[trigger] results[i]).id == node
                    &&& results[i].distance == away(segment.index.storage, metric, query, node)
                    &&& results[i].slot == segment.slots@[node as int]
                    &&& call_ensures(filter, (results[i].slot,), true)
                }
        },
{
    let pass = by_slot(filter, segment.slots@);
    let inner = choose|inner: Result<Seq<SearchResult>>| #[trigger]
        searched_filtered(segment.index, metric, query, k, ef, pass, inner) && r
            == crate::segment::slotted(inner, segment.slots@);
    law_filtered_search_answers(segment.index, metric, query, k, ef, pass, inner);
    (inner, pass)
}

/// A filtered search of a frozen segment is a filtered search of its graph, for
/// as many results and with the same width asked for, in which a node passes if
/// the filter lets its slot through.
pub proof fn law_frozen_filtered_search<M: Fn(&[u32], &[u32]) -> u32, F: Fn(u32) -> bool>(
    segment: FrozenSegment,
    metric: M,
    query: Seq<u32>,
    k: usize,
    ef: usize,
    filter: F,
    results: Seq<SegmentSearchResult>,
) -> (p: (Result<Seq<SearchResult>>, spec_fn(u32) -> bool))
    requires
        segment.wf(),
        segment.found_filtered(metric, query, k, ef, filter, results),
    ensures
        searched_filtered(segment.index, metric, query, k, ef, p.1, p.0),
        forall|node: u32|
            node < segment.index.storage.len ==> #[trigger] (p.1)(node) == call_ensures(
                filter,
                (segment.index.storage.slot_of(node),),
                true,
            ),
        p.0 is Err ==> results.len() == 0,
        p.0 matches Ok(nodes) ==> {
            &&& results.len() == nodes.len()
            &&& forall|i: int|
                0 <= i < results.len() ==> {
                    let node = nodes[i].slot;
                    &&& node < segment.index.storage.len
                    &&& (#[trigger] results[i]).distance == away(
                        segment.index.storage,
                        metric,
                        query,
                        node,
                    )
                    &&& results[i].slot == segment.index.storage.slot_of(node)
                    &&& results[i].id == results[i].slot
                    &&& call_ensures(filter, (results[i].slot,), true)
                }
        },
{
    let pass = by_slot(filter, segment.slots());
    let inner = choose|inner: Result<Seq<SearchResult>>| #[trigger]
        searched_filtered(segment.index, metric, query, k, ef, pass, inner) && results
            == crate::segment::frozen_results(inner, segment.slots());
    law_filtered_search_answers(segment.index, metric, query, k, ef, pass, inner);
    (inner, pass)
}

/// Number of entries of some lists.
pub open spec fn lengths(parts: Seq<Seq<SegmentSearchResult>>) -> nat
    decreases parts.len(),
{
    if parts.len() == 0 {
        0
    } else {
        lengths(parts.drop_last()) + parts.last().len()
    }
}

/// `results` are the `k` nearest of one list and some more: all that there are,
/// or `k` of them; each comes from one of the lists; and where all distances
/// are numbers, they come nearest first, and none of the lists holds a nearer
/// one that is left out.
pub open spec fn nearest_of_all(
    first: Seq<SegmentSearchResult>,
    parts: Seq<Seq<SegmentSearchResult>>,
    k: nat,
    results: Seq<SegmentSearchResult>,
) -> bool {
    let total = first.len() + lengths(parts);
    let numbers = {
        &&& forall|i: int| 0 <= i < first.len() ==> !is_nan((#[trigger] first[i]).distance)
        &&& forall|i: int, j: int|
            0 <= i < parts.len() && 0 <= j < parts[i].len() ==> !is_nan(
                (#[trigger] parts[i][j]).distance,
            )
    };
    &&& results.len() == (if total <= k { total } else { k })
    &&& forall|n: int|
        0 <= n < results.len() ==> first.contains(#[trigger] results[n]) || exists|i: int|
            0 <= i < parts.len() && (#[trigger] parts[i]).contains(results[n])
    &&& numbers ==> {
        &&& forall|n: int, m: int|
            0 <= n <= m < results.len() ==> rank((#[trigger] results[n]).distance) <= rank(
                (#[trigger] results[m]).distance,
            )
        &&& forall|i: int, n: int|
            0 <= i < first.len() && 0 <= n < results.len() ==> results.contains(
                #[trigger] first[i],
            ) || rank((#[trigger] results[n]).distance) <= rank(first[i].distance)
        &&& forall|i: int, j: int, n: int|
            0 <= i < parts.len() && 0 <= j < parts[i].len() && 0 <= n < results.len()
                ==> results.contains(#[trigger] parts[i][j]) || rank(
                (#[trigger] results[n]).distance,
            ) <= rank(parts[i][j].distance)
    }
}

proof fn lemma_joined(parts: Seq<Seq<SegmentSearchResult>>, x: SegmentSearchResult)
    ensures
        joined(parts).len() == lengths(parts),
        joined(parts).contains(x) <==> exists|i: int|
            0 <= i < parts.len() && (#[trigger] parts[i]).contains(x),
    decreases parts.len(),
{
    if parts.len() > 0 {
        let front = parts.drop_last();
        let n = parts.len() - 1;
        lemma_joined(front, x);
        let all = joined(parts);
        let head = joined(front);
        if all.contains(x) {
            let p = choose|p: int| 0 <= p < all.len() && all[p] == x;
            if p < head.len() {
                assert(head[p] == x);
                let i = choose|i: int| 0 <= i < front.len() && (#[trigger] front[i]).contains(x);
                assert(parts[i] == front[i]);
                assert(parts[i].contains(x));
            } else {
                assert(parts[n][p - head.len()] == x);
                assert(parts[n].contains(x));
            }
        }
        if exists|i: int| 0 <= i < parts.len() && (#[trigger] parts[i]).contains(x) {
            let i = choose|i: int| 0 <= i < parts.len() && (#[trigger] parts[i]).contains(x);
            if i < n {
                assert(front[i] == parts[i]);
                assert(front[i].contains(x));
                let p = choose|p: int| 0 <= p < head.len() && head[p] == x;
                assert(all[p] == x);
            } else {
                let p = choose|p: int| 0 <= p < parts[n].len() && parts[n][p] == x;
                assert(all[head.len() + p] == x);
            }
        }
    }
}

proof fn lemma_same_members(s: Seq<SegmentSearchResult>, x: SegmentSearchResult)
    ensures
        by_distance(s).contains(x) <==> s.contains(x),
{
    broadcast use vstd::seq_lib::group_to_multiset_ensures;

    law_by_distance(s);
    assert(s.to_multiset().count(x) > 0 <==> s.contains(x));
    assert(by_distance(s).to_multiset().count(x) > 0 <==> by_distance(s).contains(x));
}

proof fn lemma_left_out(s: Seq<SegmentSearchResult>, k: nat, x: SegmentSearchResult, n: int)
    requires
        nearest_first(by_distance(s)),
        s.contains(x),
        0 <= n < at_most(by_distance(s), k).len(),
    ensures
        at_most(by_distance(s), k).contains(x) || rank(at_most(by_distance(s), k)[n].distance)
            <= rank(x.distance),
{
    let all = by_distance(s);
    lemma_same_members(s, x);
    let p = choose|p: int| 0 <= p < all.len() && all[p] == x;
    if p < at_most(all, k).len() {
        assert(at_most(all, k)[p] == x);
    } else {
        assert(rank(all[n].distance) <= rank(all[p].distance));
    }
}

proof fn lemma_nearest_of_all(
    first: Seq<SegmentSearchResult>,
    parts: Seq<Seq<SegmentSearchResult>>,
    k: nat,
)
    ensures
        nearest_of_all(first, parts, k, merged_results(first, parts, k)),
{
    let s = first + joined(parts);
    let all = by_distance(s);
    let results = merged_results(first, parts, k);
    law_by_distance(s);
    assert(joined(parts).len() == lengths(parts)) by {
        lemma_joined(parts, arbitrary());
    }
    assert forall|n: int| 0 <= n < results.len() implies first.contains(#[trigger] results[n])
        || exists|i: int| 0 <= i < parts.len() && (#[trigger] parts[i]).contains(results[n]) by {
        let x = results[n];
        assert(all[n] == x);
        lemma_same_members(s, x);
        let p = choose|p: int| 0 <= p < s.len() && s[p] == x;
        if p < first.len() {
            assert(first[p] == x);
        } else {
            assert(joined(parts)[p - first.len()] == x);
            lemma_joined(parts, x);
        }
    }
    let numbers = {
        &&& forall|i: int| 0 <= i < first.len() ==> !is_nan((#[trigger] first[i]).distance)
        &&& forall|i: int, j: int|
            0 <= i < parts.len() && 0 <= j < parts[i].len() ==> !is_nan(
                (#[trigger] parts[i][j]).distance,
            )
    };
    if numbers {
        assert forall|p: int| 0 <= p < s.len() implies !is_nan((#[trigger] s[p]).distance) by {
            if p < first.len() {
                assert(first[p] == s[p]);
            } else {
                let x = s[p];
                assert(joined(parts)[p - first.len()] == x);
                lemma_joined(parts, x);
                let i = choose|i: int| 0 <= i < parts.len() && (#[trigger] parts[i]).contains(x);
                let j = choose|j: int| 0 <= j < parts[i].len() && parts[i][j] == x;
                assert(!is_nan(parts[i][j].distance));
            }
        }
        law_nearest_first(s);
        assert forall|n: int, m: int| 0 <= n <= m < results.len() implies rank(
            (#[trigger] results[n]).distance,
        ) <= rank((#[trigger] results[m]).distance) by {
            assert(rank(all[n].distance) <= rank(all[m].distance));
        }
        assert forall|i: int, n: int|
            0 <= i < first.len() && 0 <= n < results.len() implies results.contains(
            #[trigger] first[i],
        ) || rank((#[trigger] results[n]).distance) <= rank(first[i].distance) by {
            assert(s[i] == first[i]);
            lemma_left_out(s, k, first[i], n);
        }
        assert forall|i: int, j: int, n: int|
            0 <= i < parts.len() && 0 <= j < parts[i].len() && 0 <= n
                < results.len() implies results.contains(#[trigger] parts[i][j]) || rank(
            (#[trigger] results[n]).distance,
        ) <= rank(parts[i][j].distance) by {
            let x = parts[i][j];
            assert(parts[i].contains(x));
            lemma_joined(parts, x);
            let p = choose|p: int| 0 <= p < joined(parts).len() && joined(parts)[p] == x;
            assert(s[first.len() + p] == x);
            lemma_left_out(s, k, x, n);
        }
    }
}

/// A search of all segments asks each of them for `k` results with a beam of
/// width `ef`, and returns the `k` nearest of what they return.
pub proof fn law_all_segments_are_searched<M: Fn(&[u32], &[u32]) -> u32>(
    view: SegmentReadView<'_>,
    metric: M,
    query: Seq<u32>,
    k: usize,
    ef: usize,
    results: Seq<SegmentSearchResult>,
) -> (r: (Seq<SegmentSearchResult>, Seq<Seq<SegmentSearchResult>>))
    requires
        view.found(metric, query, k, ef, Ok(results)),
    ensures
        view.mutable.found(metric, query, k, ef, Ok(r.0)),
        r.1.len() == view.frozen@.len(),
        forall|i: int|
            0 <= i < view.frozen@.len() ==> view.frozen@[i].found(
                metric,
                query,
                k,
                ef,
                #[trigger] r.1[i],
            ),
        nearest_of_all(r.0, r.1, k as nat, results),
{
    let (first, parts) = choose|
        first: Seq<SegmentSearchResult>,
        parts: Seq<Seq<SegmentSearchResult>>,
    |
        {
            &&& view.mutable.found(metric, query, k, ef, Ok(first))
            &&& view.parts_found(metric, query, k, ef, parts)
            &&& results == #[trigger] merged_results(first, parts, k as nat)
        };
    lemma_nearest_of_all(first, parts, k as nat);
    (first, parts)
}

/// A filtered search of all segments asks each of them for `k` results, with the
/// same filter and width, and returns the `k` nearest of what they return.
pub proof fn law_all_segments_are_searched_filtered<
    M: Fn(&[u32], &[u32]) -> u32,
    F: Fn(u32) -> bool,
>(
    view: SegmentReadView<'_>,
    metric: M,
    query: Seq<u32>,
    k: usize,
    ef: usize,
    filter: F,
    results: Seq<SegmentSearchResult>,
) -> (r: (Seq<SegmentSearchResult>, Seq<Seq<SegmentSearchResult>>))
    requires
        view.found_filtered(metric, query, k, ef, filter, Ok(results)),
    ensures
        view.mutable.found_filtered(metric, query, k, ef, filter, Ok(r.0)),
        r.1.len() == view.frozen@.len(),
        forall|i: int|
            0 <= i < view.frozen@.len() ==> view.frozen@[i].found_filtered(
                metric,
                query,
                k,
                ef,
                filter,
                #[trigger] r.1[i],
            ),
        nearest_of_all(r.0, r.1, k as nat, results),
{
    let (first, parts) = choose|
        first: Seq<SegmentSearchResult>,
        parts: Seq<Seq<SegmentSearchResult>>,
    |
        {
            &&& view.mutable.found_filtered(metric, query, k, ef, filter, Ok(first))
            &&& view.parts_found_filtered(metric, query, k, ef, filter, parts)
            &&& results == #[trigger] merged_results(first, parts, k as nat)
        };
    lemma_nearest_of_all(first, parts, k as nat);
    (first, parts)
}

/// The first result of a search of all segments is no farther from the query
/// than where the walk down from the entry point of any frozen segment ends,
/// where all distances are numbers.
pub proof fn law_no_segment_is_passed_over<M: Fn(&[u32], &[u32]) -> u32>(
    view: SegmentReadView<'_>,
    metric: M,
    query: Seq<u32>,
    k: usize,
    ef: usize,
    results: Seq<SegmentSearchResult>,
    i: int,
) -> (trail: Seq<u32>)
    requires
        view.wf(),
        view.found(metric, query, k, ef, Ok(results)),
        0 < k <= ef,
        0 <= i < view.frozen@.len(),
        view.frozen@[i].index.entry_point is Some,
        view.frozen@[i].index.storage.dim() == view.mutable.index.storage.dim(),
        forall|j: int, id: u32|
            0 <= j < view.frozen@.len() && id < view.frozen@[j].index.storage.len ==> !is_nan(
                #[trigger] away(view.frozen@[j].index.storage, metric, query, id),
            ),
        forall|id: u32|
            id < view.mutable.index.storage.len ==> !is_nan(
                #[trigger] away(view.mutable.index.storage, metric, query, id),
            ),
    ensures
        walked_down(
            view.frozen@[i].index.storage,
            metric,
            query,
            view.frozen@[i].index.entry_point->0,
            trail,
        ),
        results.len() > 0,
        rank(results[0].distance) <= rank(
            away(view.frozen@[i].index.storage, metric, query, trail.last()),
        ),
{
    let (first, parts) = law_all_segments_are_searched(view, metric, query, k, ef, results);
    let segment = *view.frozen@[i];
    let top = law_mutable_search(*view.mutable, metric, query, k, ef, Ok(first));
    law_search_answers(view.mutable.index, metric, query, k, ef, top);
    assert(view.frozen@[i].wf());
    let inner = law_frozen_search(segment, metric, query, k, ef, parts[i]);
    law_search_answers(segment.index, metric, query, k, ef, inner);
    let trail = law_search_walks_down(segment.index, metric, query, k, ef, inner->Ok_0);
    assert(parts[i].len() > 0);
    let x = parts[i][0];
    assert forall|j: int, n: int| 0 <= j < parts.len() && 0 <= n < parts[j].len() implies !is_nan(
        (#[trigger] parts[j][n]).distance,
    ) by {
        assert(view.frozen@[j].wf());
        let nodes = law_frozen_search(*view.frozen@[j], metric, query, k, ef, parts[j]);
    }
    assert(x.distance == inner->Ok_0[0].distance);
    if results.len() == 0 {
        lemma_part_counts(parts, i);
    }
    if results.contains(x) {
        let p = choose|p: int| 0 <= p < results.len() && results[p] == x;
        assert(rank(results[0].distance) <= rank(results[p].distance));
    } else {
        assert(rank(results[0].distance) <= rank(parts[i][0].distance));
    }
    trail
}

proof fn lemma_part_counts(parts: Seq<Seq<SegmentSearchResult>>, i: int)
    requires
        0 <= i < parts.len(),
    ensures
        lengths(parts) >= parts[i].len(),
    decreases parts.len(),
{
    if i < parts.len() - 1 {
        assert(parts.drop_last()[i] == parts[i]);
        lemma_part_counts(parts.drop_last(), i);
    }
}

} // verus!
