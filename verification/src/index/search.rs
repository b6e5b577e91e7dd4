//! Search for nearest neighbours.

use vstd::prelude::*;

use super::insert::at_most;
use super::HNSWIndex;
use crate::candidates::{ordered, CandidateQueue};
use crate::distance::{all_finite, finite_vector, metric_ok, rank};
use crate::error::{HNSWError, Result};
use crate::graph::{
    admitted, beam_outcome, beam_search, descend_levels, distance_fn, distinct,
    filter_ends_with, filter_fn, filter_ok, filter_outcome, filtered_beam_search, greedy_descent, holds,
    law_wide_beam_is_exhaustive, lemma_bounded_set, link_closed, link_fn, links_below, ByNode,
    GraphStore, NodeFilter,
};
use crate::types::{Candidate, SearchResult};

verus! {

/// Candidates as search results.
pub open spec fn as_results(s: Seq<Candidate>) -> Seq<SearchResult> {
    s.map_values(|c: Candidate| SearchResult { slot: c.node_id, distance: c.distance })
}

/// The node at level 0 from which the beam search of a query starts.
pub open spec fn query_start<S: GraphStore, M: Fn(&[u32], &[u32]) -> u32>(
    store: S,
    metric: M,
    query: Seq<u32>,
    entry: u32,
) -> u32 {
    let d = distance_fn(store, metric, query);
    descend_levels(
        store,
        d,
        Candidate { node_id: entry, distance: d(entry) },
        store.level_at(entry),
        0,
    ).node_id
}

/// The results of a search: the `k` nearest of what a beam search of width
/// `ef` at level 0 keeps.
pub open spec fn search_outcome<S: GraphStore, M: Fn(&[u32], &[u32]) -> u32>(
    store: S,
    metric: M,
    query: Seq<u32>,
    start: u32,
    k: nat,
    ef: nat,
    results: Seq<SearchResult>,
) -> bool {
    exists|seen: Set<u32>, kept: Seq<Candidate>|
        {
            &&& #[trigger] beam_outcome(
                link_fn(store, 0),
                distance_fn(store, metric, query),
                seq![start],
                ef,
                true,
                false,
                seen,
                kept,
            )
            &&& forall|id: u32| #[trigger] seen.contains(id) ==> id < store.node_count()
            &&& results == as_results(at_most(kept, k))
        }
}

/// The results of a filtered search: of the nodes that a beam search of width
/// `ef` at level 0 sees, the `k` nearest that the filter lets through.
pub open spec fn filtered_outcome<S: GraphStore, M: Fn(&[u32], &[u32]) -> u32>(
    store: S,
    metric: M,
    query: Seq<u32>,
    start: u32,
    k: nat,
    ef: nat,
    pass: spec_fn(u32) -> bool,
    results: Seq<SearchResult>,
) -> bool {
    exists|seen: Set<u32>, tops: Seq<Candidate>, picked: Seq<Candidate>|
        {
            &&& #[trigger] beam_outcome(
                link_fn(store, 0),
                distance_fn(store, metric, query),
                seq![start],
                ef,
                true,
                false,
                seen,
                tops,
            )
            &&& #[trigger] filter_outcome(
                distance_fn(store, metric, query),
                pass,
                k,
                seen,
                picked,
            )
            &&& filter_ends_with(
                link_fn(store, 0),
                distance_fn(store, metric, query),
                seq![start],
                ef,
                pass,
                k,
                seen,
                tops,
                picked,
            )
            &&& forall|id: u32| #[trigger] seen.contains(id) ==> id < store.node_count()
            &&& results == as_results(picked)
        }
}

/// The results that were returned, or the error.
pub open spec fn seen_results(r: Result<Vec<SearchResult>>) -> Result<Seq<SearchResult>> {
    match r {
        Ok(v) => Ok(v@),
        Err(e) => Err(e),
    }
}

/// What a search returns: an error for a query of the wrong length or with a
/// component that is not finite, nothing from an empty graph or for `k` of
/// zero, an error for a beam narrower than `k`, and else the nearest that the
/// beam search keeps.
pub open spec fn searched<S: GraphStore, M: Fn(&[u32], &[u32]) -> u32>(
    index: HNSWIndex<S>,
    metric: M,
    query: Seq<u32>,
    k: usize,
    ef: usize,
    r: Result<Seq<SearchResult>>,
) -> bool {
    if query.len() != index.storage.dim() {
        r == Err::<Seq<SearchResult>, HNSWError>(
            HNSWError::DimensionMismatch {
                expected: index.storage.dim() as usize,
                actual: query.len() as usize,
            },
        )
    } else if !all_finite(query) {
        r == Err::<Seq<SearchResult>, HNSWError>(HNSWError::InvalidVector)
    } else {
        match index.entry_point {
            None => r == Ok::<Seq<SearchResult>, HNSWError>(Seq::empty()),
            Some(entry) => if k == 0 {
                r == Ok::<Seq<SearchResult>, HNSWError>(Seq::empty())
            } else if ef < k {
                r == Err::<Seq<SearchResult>, HNSWError>(HNSWError::InvalidSearchParams { k, ef })
            } else {
                r matches Ok(results) && search_outcome(
                    index.storage,
                    metric,
                    query,
                    query_start(index.storage, metric, query, entry),
                    k as nat,
                    ef as nat,
                    results,
                )
            },
        }
    }
}

/// What a filtered search returns: an error for a query of the wrong length,
/// nothing from an empty graph or for `k` of zero, and else the nearest that
/// the widened beam sees and the filter lets through.
pub open spec fn searched_filtered<S: GraphStore, M: Fn(&[u32], &[u32]) -> u32>(
    index: HNSWIndex<S>,
    metric: M,
    query: Seq<u32>,
    k: usize,
    ef: usize,
    pass: spec_fn(u32) -> bool,
    r: Result<Seq<SearchResult>>,
) -> bool {
    if query.len() != index.storage.dim() {
        r == Err::<Seq<SearchResult>, HNSWError>(
            HNSWError::DimensionMismatch {
                expected: index.storage.dim() as usize,
                actual: query.len() as usize,
            },
        )
    } else {
        match index.entry_point {
            None => r == Ok::<Seq<SearchResult>, HNSWError>(Seq::empty()),
            Some(entry) => if k == 0 {
                r == Ok::<Seq<SearchResult>, HNSWError>(Seq::empty())
            } else {
                r matches Ok(results) && filtered_outcome(
                    index.storage,
                    metric,
                    query,
                    query_start(index.storage, metric, query, entry),
                    k as nat,
                    boosted_ef(k as nat, ef as nat),
                    pass,
                    results,
                )
            },
        }
    }
}

/// Turns candidates into search results, at most `k`.
fn results_from(kept: CandidateQueue, k: usize) -> (results: Vec<SearchResult>)
    requires
        kept.wf(),
    ensures
        results@ == as_results(at_most(kept@, k as nat)),
{
    let candidates: Vec<Candidate> = kept.into_vec();
    let n: usize = if candidates.len() <= k { candidates.len() } else { k };
    let mut results: Vec<SearchResult> = Vec::new();
    let mut i: usize = 0;
    while i < n
        invariant
            i <= n <= candidates@.len(),
            results@.len() == i,
            forall|j: int|
                0 <= j < i ==> #[trigger] results@[j] == (SearchResult {
                    slot: candidates@[j].node_id,
                    distance: candidates@[j].distance,
                }),
        decreases n - i,
    {
        let c: Candidate = candidates[i];
        results.push(SearchResult { slot: c.node_id, distance: c.distance });
        i += 1;
    }
    assert(results@ =~= as_results(at_most(candidates@, k as nat)));
    results
}

/// The width of the beam of a filtered search.
pub open spec fn boosted_ef(k: nat, ef: nat) -> nat {
    let wide = if ef >= k * 4 { ef } else { k * 4 };
    if wide >= 100 { wide } else { 100 }
}

impl<S: GraphStore> HNSWIndex<S> {
    /// Beam search from the entry point.
    fn search_internal<M: Fn(&[u32], &[u32]) -> u32>(
        &self,
        query: &[u32],
        k: usize,
        ef: usize,
        entry: u32,
        metric: &M,
    ) -> (results: Vec<SearchResult>)
        requires
            self.wf(),
            metric_ok(*metric),
            query@.len() == self.storage.dim(),
            entry < self.storage.node_count(),
        ensures
            search_outcome(
                self.storage,
                *metric,
                query@,
                query_start(self.storage, *metric, query@, entry),
                k as nat,
                ef as nat,
                results@,
            ),
    {
        let n: usize = self.storage.count();
        let entry_level: u8 = self.storage.level_of(entry);
        let nearest: Candidate = greedy_descent(
            &self.storage,
            metric,
            query,
            entry,
            entry_level,
            0,
            n,
        );
        let starts: Vec<u32> = vec![nearest.node_id];
        assert(starts@ =~= seq![nearest.node_id]);
        assert(links_below(self.storage, 0, n as nat));
        let kept: CandidateQueue = beam_search(
            &self.storage,
            metric,
            query,
            starts.as_slice(),
            ef,
            0,
            true,
            false,
            n,
        );
        results_from(kept, k)
    }

    /// Filtered beam search from the entry point.
    fn search_internal_filtered<M: Fn(&[u32], &[u32]) -> u32, P: NodeFilter>(
        &self,
        query: &[u32],
        k: usize,
        ef: usize,
        entry: u32,
        metric: &M,
        filter: &P,
    ) -> (results: Vec<SearchResult>)
        requires
            self.wf(),
            metric_ok(*metric),
            filter.usable(),
            query@.len() == self.storage.dim(),
            entry < self.storage.node_count(),
            k > 0,
        ensures
            filtered_outcome(
                self.storage,
                *metric,
                query@,
                query_start(self.storage, *metric, query@, entry),
                k as nat,
                ef as nat,
                admitted(*filter),
                results@,
            ),
    {
        let n: usize = self.storage.count();
        let entry_level: u8 = self.storage.level_of(entry);
        let nearest: Candidate = greedy_descent(
            &self.storage,
            metric,
            query,
            entry,
            entry_level,
            0,
            n,
        );
        assert(links_below(self.storage, 0, n as nat));
        let picked: CandidateQueue = filtered_beam_search(
            &self.storage,
            metric,
            query,
            nearest.node_id,
            ef,
            k,
            filter,
            n,
        );
        let ghost chosen = picked@;
        let results: Vec<SearchResult> = results_from(picked, k);
        assert(at_most(chosen, k as nat) == chosen);
        results
    }

    /// Searches for the `k` nearest neighbours of a query with a beam of width
    /// `ef`.
    pub fn search<M: Fn(&[u32], &[u32]) -> u32>(
        &self,
        query: &[u32],
        k: usize,
        ef: usize,
        metric: &M,
    ) -> (r: Result<Vec<SearchResult>>)
        requires
            self.wf(),
            metric_ok(*metric),
        ensures
            searched(*self, *metric, query@, k, ef, seen_results(r)),
    {
        let expected: usize = self.storage.vector_dim();
        if query.len() != expected {
            return Err(HNSWError::DimensionMismatch { expected, actual: query.len() });
        }
        if !finite_vector(query) {
            return Err(HNSWError::InvalidVector);
        }
        match self.entry_point {
            None => Ok(Vec::new()),
            Some(entry) => {
                if k == 0 {
                    Ok(Vec::new())
                } else if ef < k {
                    Err(HNSWError::InvalidSearchParams { k, ef })
                } else {
                    Ok(self.search_internal(query, k, ef, entry, metric))
                }
            },
        }
    }

    /// Searches for the `k` nearest neighbours of a query that a filter lets
    /// through. The beam is at least four times as wide as `k`, and at least
    /// 100 wide.
    pub fn search_with_filter<M: Fn(&[u32], &[u32]) -> u32, F: Fn(u32) -> bool>(
        &self,
        query: &[u32],
        k: usize,
        ef: usize,
        metric: &M,
        filter: &F,
    ) -> (r: Result<Vec<SearchResult>>)
        requires
            self.wf(),
            metric_ok(*metric),
            filter_ok(*filter),
            k * 4 <= usize::MAX,
        ensures
            searched_filtered(
                *self,
                *metric,
                query@,
                k,
                ef,
                filter_fn(*filter),
                seen_results(r),
            ),
    {
        let by_node = ByNode { filter };
        assert(admitted(by_node) =~= filter_fn(*filter));
        self.search_admitted(query, k, ef, metric, &by_node)
    }

    /// Searches for the `k` nearest neighbours of a query among the nodes that
    /// are admitted.
    pub fn search_admitted<M: Fn(&[u32], &[u32]) -> u32, P: NodeFilter>(
        &self,
        query: &[u32],
        k: usize,
        ef: usize,
        metric: &M,
        filter: &P,
    ) -> (r: Result<Vec<SearchResult>>)
        requires
            self.wf(),
            metric_ok(*metric),
            filter.usable(),
            k * 4 <= usize::MAX,
        ensures
            searched_filtered(
                *self,
                *metric,
                query@,
                k,
                ef,
                admitted(*filter),
                seen_results(r),
            ),
    {
        let expected: usize = self.storage.vector_dim();
        if query.len() != expected {
            return Err(HNSWError::DimensionMismatch { expected, actual: query.len() });
        }
        match self.entry_point {
            None => Ok(Vec::new()),
            Some(entry) => {
                if k == 0 {
                    Ok(Vec::new())
                } else {
                    let wide: usize = if ef >= k * 4 { ef } else { k * 4 };
                    let boosted: usize = if wide >= 100 { wide } else { 100 };
                    Ok(self.search_internal_filtered(query, k, boosted, entry, metric, filter))
                }
            },
        }
    }
}

// ---------------------------------------------------------------------------
// What results are like
// ---------------------------------------------------------------------------

/// Results come nearest first, name different nodes of the graph, and carry
/// the distances of these nodes.
pub open spec fn well_formed_results<S: GraphStore, M: Fn(&[u32], &[u32]) -> u32>(
    store: S,
    metric: M,
    query: Seq<u32>,
    results: Seq<SearchResult>,
) -> bool {
    &&& forall|i: int, j: int|
        0 <= i < j < results.len() ==> rank((#[trigger] results[i]).distance) <= rank(
            (#[trigger] results[j]).distance,
        ) && results[i].slot != results[j].slot
    &&& forall|i: int|
        0 <= i < results.len() ==> (#[trigger] results[i]).slot < store.node_count()
            && results[i].distance == distance_fn(store, metric, query)(results[i].slot)
}

/// Every search returns at most `k` results, nearest first, of different nodes,
/// with their distances.
pub proof fn law_search_results<S: GraphStore, M: Fn(&[u32], &[u32]) -> u32>(
    store: S,
    metric: M,
    query: Seq<u32>,
    start: u32,
    k: nat,
    ef: nat,
    results: Seq<SearchResult>,
)
    requires
        search_outcome(store, metric, query, start, k, ef, results),
    ensures
        results.len() <= k,
        well_formed_results(store, metric, query, results),
{
    let d = distance_fn(store, metric, query);
    let (seen, kept) = choose|seen: Set<u32>, kept: Seq<Candidate>|
        {
            &&& #[trigger] beam_outcome(
                link_fn(store, 0),
                d,
                seq![start],
                ef,
                true,
                false,
                seen,
                kept,
            )
            &&& forall|id: u32| #[trigger] seen.contains(id) ==> id < store.node_count()
            &&& results == as_results(at_most(kept, k))
        };
    assert forall|i: int, j: int| 0 <= i < j < results.len() implies rank(
        (#[trigger] results[i]).distance,
    ) <= rank((#[trigger] results[j]).distance) && results[i].slot != results[j].slot by {
        assert(ordered(kept[i], kept[j]));
        assert(kept[i].node_id != kept[j].node_id);
    }
    assert forall|i: int| 0 <= i < results.len() implies (#[trigger] results[i]).slot
        < store.node_count() && results[i].distance == d(results[i].slot) by {
        assert(seen.contains(kept[i].node_id));
    }
}

/// Every filtered search returns at most `k` results, nearest first, of
/// different nodes, with their distances, and none that the filter holds back.
pub proof fn law_filtered_search_results<S: GraphStore, M: Fn(&[u32], &[u32]) -> u32>(
    store: S,
    metric: M,
    query: Seq<u32>,
    start: u32,
    k: nat,
    ef: nat,
    pass: spec_fn(u32) -> bool,
    results: Seq<SearchResult>,
)
    requires
        filtered_outcome(store, metric, query, start, k, ef, pass, results),
    ensures
        results.len() <= k,
        well_formed_results(store, metric, query, results),
        forall|i: int|
            0 <= i < results.len() ==> pass((#[trigger] results[i]).slot),
{
    let d = distance_fn(store, metric, query);
    let (seen, tops, picked) = choose|
        seen: Set<u32>,
        tops: Seq<Candidate>,
        picked: Seq<Candidate>,
    |
        {
            &&& #[trigger] beam_outcome(
                link_fn(store, 0),
                d,
                seq![start],
                ef,
                true,
                false,
                seen,
                tops,
            )
            &&& #[trigger] filter_outcome(d, pass, k, seen, picked)
            &&& forall|id: u32| #[trigger] seen.contains(id) ==> id < store.node_count()
            &&& results == as_results(picked)
        };
    assert forall|i: int, j: int| 0 <= i < j < results.len() implies rank(
        (#[trigger] results[i]).distance,
    ) <= rank((#[trigger] results[j]).distance) && results[i].slot != results[j].slot by {
        assert(ordered(picked[i], picked[j]));
        assert(picked[i].node_id != picked[j].node_id);
    }
    assert forall|i: int| 0 <= i < results.len() implies (#[trigger] results[i]).slot
        < store.node_count() && results[i].distance == d(results[i].slot) && pass(
        results[i].slot,
    ) by {
        assert(seen.contains(picked[i].node_id));
    }
}

/// A node that can be reached at level 0 from the node where the search starts.
pub open spec fn reachable<S: GraphStore>(store: S, start: u32, id: u32) -> bool {
    forall|c: Set<u32>| #[trigger]
        link_closed(link_fn(store, 0), seq![start], c) ==> c.contains(id)
}

/// Candidates of different nodes below a limit are no more than that limit.
proof fn lemma_distinct_count(s: Seq<Candidate>, limit: nat)
    requires
        distinct(s),
        forall|i: int| 0 <= i < s.len() ==> (#[trigger] s[i]).node_id < limit,
    ensures
        s.len() <= limit,
{
    let nodes = s.map_values(|c: Candidate| c.node_id);
    assert forall|i: int, j: int|
        0 <= i < nodes.len() && 0 <= j < nodes.len() && i != j implies nodes[i] != nodes[j] by {
        assert(s[i].node_id != s[j].node_id);
    }
    nodes.unique_seq_to_set();
    assert forall|id: u32| #[trigger] nodes.to_set().contains(id) implies id < limit by {
        let i = choose|i: int| 0 <= i < nodes.len() && nodes[i] == id;
        assert(s[i].node_id < limit);
    }
    lemma_bounded_set(nodes.to_set(), limit);
}

/// A search whose beam is wider than the graph has nodes is exact: a reachable
/// node that is not among the results is no nearer than any of them, and is
/// left out only because there are `k` results already.
pub proof fn law_wide_search_is_exact<S: GraphStore, M: Fn(&[u32], &[u32]) -> u32>(
    store: S,
    metric: M,
    query: Seq<u32>,
    start: u32,
    k: nat,
    ef: nat,
    results: Seq<SearchResult>,
    id: u32,
)
    requires
        search_outcome(store, metric, query, start, k, ef, results),
        store.node_count() < ef,
        reachable(store, start, id),
    ensures
        (exists|i: int| 0 <= i < results.len() && (#[trigger] results[i]).slot == id) || (
        results.len() == k && forall|i: int|
            0 <= i < results.len() ==> rank((#[trigger] results[i]).distance) <= rank(
                distance_fn(store, metric, query)(id),
            )),
{
    let d = distance_fn(store, metric, query);
    let links = link_fn(store, 0);
    let (seen, kept) = choose|seen: Set<u32>, kept: Seq<Candidate>|
        {
            &&& #[trigger] beam_outcome(links, d, seq![start], ef, true, false, seen, kept)
            &&& forall|x: u32| #[trigger] seen.contains(x) ==> x < store.node_count()
            &&& results == as_results(at_most(kept, k))
        };
    assert forall|i: int| 0 <= i < kept.len() implies (#[trigger] kept[i]).node_id
        < store.node_count() by {
        assert(seen.contains(kept[i].node_id));
    }
    lemma_distinct_count(kept, store.node_count());
    law_wide_beam_is_exhaustive(links, d, seq![start], ef, true, false, seen, kept);
    assert(link_closed(links, seq![start], seen));
    assert(seen.contains(id));
    assert(holds(kept, id));
    let p = choose|p: int| 0 <= p < kept.len() && (#[trigger] kept[p]).node_id == id;
    assert(kept[p].distance == d(id));
    if p < results.len() {
        assert(results[p].slot == id);
    } else {
        assert forall|i: int| 0 <= i < results.len() implies rank((#[trigger] results[i]).distance)
            <= rank(d(id)) by {
            assert(ordered(kept[i], kept[p]));
        }
    }
}

} // verus!
