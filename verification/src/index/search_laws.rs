//! What holds of every search, said of the graph and the distances alone.

use vstd::prelude::*;

use super::insert::at_most;
use super::search::{
    as_results, boosted_ef, law_filtered_search_results, law_search_results, query_start, searched,
    searched_filtered,
};
use super::HNSWIndex;
use crate::candidates::{inserted, ordered, sorted};
use crate::distance::{float_lt, is_finite, is_nan, metric_value, rank};
use crate::error::{HNSWError, Result};
use crate::graph::{
    beam_comes_to, beam_history, beam_outcome, beam_steps, beam_takes, candidate_of, descend,
    descend_levels, distance_fn, filter_outcome, holds, law_beam_ends_at_local_optimum,
    law_wide_beam_is_exhaustive, link_closed, link_fn, links_below, links_valid, reached, scan,
    search_path, Beam, GraphStore,
};
use crate::types::{Candidate, SearchResult};

verus! {

/// The distance between a query and the vector of a node.
pub open spec fn away<S: GraphStore, M: Fn(&[u32], &[u32]) -> u32>(
    store: S,
    metric: M,
    query: Seq<u32>,
    id: u32,
) -> u32 {
    metric_value(metric, query, store.vector_at(id))
}

/// The links of one level lead from the nodes of a set to nodes of the set only.
pub open spec fn closed_at<S: GraphStore>(store: S, level: u8, c: Set<u32>) -> bool {
    forall|id: u32, i: int|
        c.contains(id) && id < store.node_count() && 0 <= i < store.links_at(id, level).len()
            ==> c.contains(#[trigger] store.links_at(id, level)[i])
}

/// None of the nodes that `from` links to at one level is nearer to the query
/// than `distance`.
pub open spec fn no_link_nearer<S: GraphStore, M: Fn(&[u32], &[u32]) -> u32>(
    store: S,
    metric: M,
    query: Seq<u32>,
    from: u32,
    level: u8,
    distance: u32,
) -> bool {
    forall|i: int|
        0 <= i < store.links_at(from, level).len() ==> !float_lt(
            away(store, metric, query, #[trigger] store.links_at(from, level)[i]),
            distance,
        )
}

/// On one level, a walk along links leads from one node to another that is no
/// farther from the query, and than which no node is nearer that either of them
/// links to.
pub open spec fn walked_level<S: GraphStore, M: Fn(&[u32], &[u32]) -> u32>(
    store: S,
    metric: M,
    query: Seq<u32>,
    level: u8,
    from: u32,
    to: u32,
) -> bool {
    &&& rank(away(store, metric, query, to)) <= rank(away(store, metric, query, from))
    &&& no_link_nearer(store, metric, query, from, level, away(store, metric, query, to))
    &&& no_link_nearer(store, metric, query, to, level, away(store, metric, query, to))
    &&& forall|c: Set<u32>| #[trigger]
        closed_at(store, level, c) && c.contains(from) ==> c.contains(to)
}

/// A way from the entry point down to level 0 that walks on every level from
/// that of the entry point to 1.
pub open spec fn walked_down<S: GraphStore, M: Fn(&[u32], &[u32]) -> u32>(
    store: S,
    metric: M,
    query: Seq<u32>,
    entry: u32,
    trail: Seq<u32>,
) -> bool {
    &&& trail.len() == store.level_at(entry) + 1
    &&& trail[0] == entry
    &&& forall|i: int| 0 <= i < trail.len() ==> #[trigger] trail[i] < store.node_count()
    &&& forall|l: u8|
        1 <= l <= store.level_at(entry) ==> #[trigger] walked_level(
            store,
            metric,
            query,
            l,
            trail[store.level_at(entry) - l],
            trail[store.level_at(entry) - l + 1],
        )
}

proof fn lemma_scan_beats(d: spec_fn(u32) -> u32, list: Seq<u32>, best: Candidate)
    ensures
        scan(d, list, best) == best || list.contains(scan(d, list, best).node_id),
        scan(d, list, best) == best || scan(d, list, best).distance == d(
            scan(d, list, best).node_id,
        ),
        scan(d, list, best) == best || float_lt(scan(d, list, best).distance, best.distance),
        forall|i: int|
            0 <= i < list.len() ==> !float_lt(d(#[trigger] list[i]), scan(d, list, best).distance),
    decreases list.len(),
{
    if list.len() > 0 {
        let rest = list.drop_last();
        lemma_scan_beats(d, rest, best);
        let before = scan(d, rest, best);
        if before != best {
            let j = choose|j: int| 0 <= j < rest.len() && rest[j] == before.node_id;
            assert(list[j] == before.node_id);
        }
        assert(list[list.len() - 1] == list.last());
        assert forall|i: int| 0 <= i < list.len() implies !float_lt(
            d(#[trigger] list[i]),
            scan(d, list, best).distance,
        ) by {
            if i < list.len() - 1 {
                assert(rest[i] == list[i]);
            }
        }
    }
}

pub(crate) proof fn lemma_walked_level<S: GraphStore, M: Fn(&[u32], &[u32]) -> u32>(
    store: S,
    metric: M,
    query: Seq<u32>,
    level: u8,
    limit: nat,
    best: Candidate,
)
    requires
        limit <= store.node_count(),
        links_below(store, level, limit),
        best.node_id < limit,
        best.distance == away(store, metric, query, best.node_id),
    ensures
        ({
            let end = descend(link_fn(store, level), distance_fn(store, metric, query), best);
            &&& end.node_id < limit
            &&& end.distance == away(store, metric, query, end.node_id)
            &&& walked_level(store, metric, query, level, best.node_id, end.node_id)
        }),
    decreases rank(best.distance) + 0x8000_0000,
{
    let links = link_fn(store, level);
    let d = distance_fn(store, metric, query);
    let from = best.node_id;
    let list = links(from);
    let next = scan(d, list, best);
    lemma_scan_beats(d, list, best);
    assert(list == store.links_at(from, level));
    assert forall|i: int| 0 <= i < list.len() implies #[trigger] list[i] < limit by {
        assert(store.links_at(from, level)[i] < limit);
    }
    let end = descend(links, d, best);
    if float_lt(next.distance, best.distance) {
        let j = choose|j: int| 0 <= j < list.len() && list[j] == next.node_id;
        assert(list[j] < limit);
        lemma_walked_level(store, metric, query, level, limit, next);
        assert forall|i: int| 0 <= i < store.links_at(from, level).len() implies !float_lt(
            away(store, metric, query, #[trigger] store.links_at(from, level)[i]),
            away(store, metric, query, end.node_id),
        ) by {
            assert(!float_lt(d(list[i]), next.distance));
        }
        assert forall|c: Set<u32>| #[trigger]
            closed_at(store, level, c) && c.contains(from) implies c.contains(end.node_id) by {
            assert(c.contains(store.links_at(from, level)[j]));
            assert(c.contains(next.node_id));
        }
    } else {
        assert forall|i: int| 0 <= i < store.links_at(from, level).len() implies !float_lt(
            away(store, metric, query, #[trigger] store.links_at(from, level)[i]),
            away(store, metric, query, end.node_id),
        ) by {
            assert(!float_lt(d(list[i]), next.distance));
        }
    }
}

proof fn lemma_walked_down<S: GraphStore, M: Fn(&[u32], &[u32]) -> u32>(
    store: S,
    metric: M,
    query: Seq<u32>,
    best: Candidate,
    high: u8,
) -> (trail: Seq<u32>)
    requires
        links_valid(store),
        best.node_id < store.node_count(),
        best.distance == away(store, metric, query, best.node_id),
    ensures
        trail.len() == high + 1,
        trail[0] == best.node_id,
        trail.last() == descend_levels(
            store,
            distance_fn(store, metric, query),
            best,
            high,
            0,
        ).node_id,
        forall|i: int| 0 <= i < trail.len() ==> #[trigger] trail[i] < store.node_count(),
        forall|l: u8|
            1 <= l <= high ==> #[trigger] walked_level(
                store,
                metric,
                query,
                l,
                trail[high - l],
                trail[high - l + 1],
            ),
    decreases high,
{
    if high == 0 {
        seq![best.node_id]
    } else {
        let d = distance_fn(store, metric, query);
        let next = descend(link_fn(store, high), d, best);
        assert(links_below(store, high, store.node_count()));
        lemma_walked_level(store, metric, query, high, store.node_count(), best);
        let rest = lemma_walked_down(store, metric, query, next, (high - 1) as u8);
        let trail = seq![best.node_id] + rest;
        assert forall|l: u8| 1 <= l <= high implies #[trigger] walked_level(
            store,
            metric,
            query,
            l,
            trail[high - l],
            trail[high - l + 1],
        ) by {
            if l < high {
                assert(walked_level(
                    store,
                    metric,
                    query,
                    l,
                    rest[(high - 1) - l],
                    rest[(high - 1) - l + 1],
                ));
                assert(trail[high - l] == rest[high - l - 1]);
                assert(trail[high - l + 1] == rest[high - l]);
            }
        }
        assert forall|i: int| 0 <= i < trail.len() implies #[trigger] trail[i]
            < store.node_count() by {
            if i > 0 {
                assert(trail[i] == rest[i - 1]);
            }
        }
        assert(trail.last() == rest.last());
        trail
    }
}

proof fn lemma_first_kept(
    links: spec_fn(u32) -> Seq<u32>,
    d: spec_fn(u32) -> u32,
    starts: Seq<u32>,
    ef: nat,
    raw: bool,
    ties: bool,
    states: Seq<Beam>,
    start: u32,
    i: int,
)
    requires
        beam_history(links, d, starts, ef, raw, ties, states),
        ef > 0,
        starts.contains(start),
        0 <= i < states.len(),
    ensures
        states[i].kept.len() > 0,
        states[i].kept[0].rank() <= rank(d(start)),
    decreases i,
{
    let kept = states[i].kept;
    if i == 0 {
        assert(states[0].seen.contains(start));
        assert(holds(kept, start));
        let j = choose|j: int| 0 <= j < kept.len() && (#[trigger] kept[j]).node_id == start;
        if j > 0 {
            assert(ordered(kept[0], kept[j]));
        }
    } else {
        lemma_first_kept(links, d, starts, ef, raw, ties, states, start, i - 1);
        let before = states[i - 1];
        assert(beam_steps(links, d, ef, raw, ties, before, states[i - 1 + 1]));
        if before.pending.len() > 0 && kept != before.kept {
            let c = candidate_of(d, before.pending[0]);
            assert(beam_takes(before.kept, c, ef, kept));
            let all = choose|all: Seq<Candidate>|
                {
                    &&& #[trigger] inserted(before.kept, c, all)
                    &&& sorted(all)
                    &&& kept == (if all.len() > ef { all.drop_last() } else { all })
                };
            let p = choose|p: int|
                0 <= p <= before.kept.len() && all == #[trigger] before.kept.insert(p, c);
            if p == 0 {
                assert(all[1] == before.kept[0]);
                assert(ordered(all[0], all[1]));
            } else {
                assert(all[0] == before.kept[0]);
            }
        }
    }
}

proof fn lemma_beam_first(
    links: spec_fn(u32) -> Seq<u32>,
    d: spec_fn(u32) -> u32,
    start: u32,
    ef: nat,
    raw: bool,
    ties: bool,
    seen: Set<u32>,
    kept: Seq<Candidate>,
)
    requires
        beam_outcome(links, d, seq![start], ef, raw, ties, seen, kept),
        ef > 0,
    ensures
        kept.len() > 0,
        kept[0].rank() <= rank(d(start)),
{
    reveal(beam_comes_to);
    let last = choose|last: Beam|
        {
            &&& #[trigger] beam_comes_to(links, d, seq![start], ef, raw, ties, last)
            &&& last.kept == kept
        };
    let states = choose|states: Seq<Beam>|
        {
            &&& #[trigger] beam_history(links, d, seq![start], ef, raw, ties, states)
            &&& states.last() == last
        };
    assert(seq![start][0] == start);
    lemma_first_kept(links, d, seq![start], ef, raw, ties, states, start, states.len() - 1);
}

/// A set that the links of level 0 do not lead out of bounds what a beam search
/// sees; if it has no more nodes than the beam is wide, all that can be reached
/// is seen and kept.
proof fn lemma_beam_within<S: GraphStore>(
    store: S,
    d: spec_fn(u32) -> u32,
    start: u32,
    ef: nat,
    seen: Set<u32>,
    kept: Seq<Candidate>,
    c: Set<u32>,
)
    requires
        beam_outcome(link_fn(store, 0), d, seq![start], ef, true, false, seen, kept),
        closed_at(store, 0, c),
        c.contains(start),
    ensures
        seen.subset_of(c),
        c.finite() && c.len() <= ef ==> {
            &&& forall|id: u32| #[trigger] seen.contains(id) ==> holds(kept, id)
            &&& closed_at(store, 0, seen)
            &&& seen.contains(start)
        },
{
    let links = link_fn(store, 0);
    assert(seq![start][0] == start);
    assert(link_closed(links, seq![start], c)) by {
        assert forall|id: u32, i: int| c.contains(id) && 0 <= i < links(id).len() implies c.contains(
            #[trigger] links(id)[i],
        ) by {
            assert(c.contains(store.links_at(id, 0)[i]));
        }
    }
    assert(seen.contains(seq![start][0]));
    if c.finite() && c.len() <= ef {
        let nodes = kept.map_values(|x: Candidate| x.node_id);
        assert forall|i: int, j: int|
            0 <= i < nodes.len() && 0 <= j < nodes.len() && i != j implies nodes[i] != nodes[j] by {
            assert(kept[i].node_id != kept[j].node_id);
        }
        nodes.unique_seq_to_set();
        assert forall|id: u32| #[trigger] nodes.to_set().contains(id) implies c.contains(id)
            && holds(kept, id) by {
            let i = choose|i: int| 0 <= i < nodes.len() && nodes[i] == id;
            assert(kept[i].node_id == id);
            assert(seen.contains(kept[i].node_id));
        }
        assert(nodes.to_set().subset_of(c));
        vstd::set_lib::lemma_len_subset(nodes.to_set(), c);
        if kept.len() >= ef {
            vstd::set_lib::lemma_subset_equality(nodes.to_set(), c);
            assert forall|id: u32| #[trigger] seen.contains(id) implies holds(kept, id) by {
                assert(nodes.to_set().contains(id));
            }
            assert(seen =~= c) by {
                assert forall|id: u32| c.contains(id) implies #[trigger] seen.contains(id) by {
                    assert(nodes.to_set().contains(id));
                    let i = choose|i: int| 0 <= i < kept.len() && (#[trigger] kept[i]).node_id == id;
                    assert(seen.contains(kept[i].node_id));
                }
            }
        } else {
            law_wide_beam_is_exhaustive(links, d, seq![start], ef, true, false, seen, kept);
            assert forall|id: u32, i: int|
                seen.contains(id) && id < store.node_count() && 0 <= i < store.links_at(
                    id,
                    0,
                ).len() implies seen.contains(#[trigger] store.links_at(id, 0)[i]) by {
                assert(links(id) == store.links_at(id, 0));
                assert(seen.contains(links(id)[i]));
            }
        }
    }
}

/// A node is among the results.
pub open spec fn found_node(results: Seq<SearchResult>, id: u32) -> bool {
    exists|i: int| 0 <= i < results.len() && (#[trigger] results[i]).slot == id
}

/// A node can be reached from another along the links of level 0.
pub open spec fn leads_to<S: GraphStore>(store: S, from: u32, to: u32) -> bool {
    forall|c: Set<u32>| #[trigger] closed_at(store, 0, c) && c.contains(from) ==> c.contains(to)
}

/// All nodes that can be reached from one fit into a number.
pub open spec fn few_lead_from<S: GraphStore>(store: S, from: u32, n: nat) -> bool {
    exists|c: Set<u32>| #[trigger]
        closed_at(store, 0, c) && c.contains(from) && c.finite() && c.len() <= n
}

/// A search that is well asked walks down from the entry point level by level
/// and returns results that start no farther from the query than where that
/// walk ends: never farther than the entry point, nor than the nodes it links
/// to on its own level. All results lead from there. Where no more nodes lead
/// from there than the beam is wide, a node that does is among the results, or
/// there are `k` of them and none is farther than it.
pub proof fn law_search_walks_down<S: GraphStore, M: Fn(&[u32], &[u32]) -> u32>(
    index: HNSWIndex<S>,
    metric: M,
    query: Seq<u32>,
    k: usize,
    ef: usize,
    results: Seq<SearchResult>,
) -> (trail: Seq<u32>)
    requires
        index.wf(),
        index.entry_point is Some,
        k > 0,
        searched(index, metric, query, k, ef, Ok(results)),
    ensures
        walked_down(index.storage, metric, query, index.entry_point->0, trail),
        0 < results.len() <= k,
        rank(results[0].distance) <= rank(away(index.storage, metric, query, trail.last())),
        rank(results[0].distance) <= rank(
            away(index.storage, metric, query, index.entry_point->0),
        ),
        index.storage.level_at(index.entry_point->0) > 0 && !is_nan(
            away(index.storage, metric, query, index.entry_point->0),
        ) ==> no_link_nearer(
            index.storage,
            metric,
            query,
            index.entry_point->0,
            index.storage.level_at(index.entry_point->0),
            results[0].distance,
        ),
        forall|i: int|
            0 <= i < results.len() ==> leads_to(
                index.storage,
                trail.last(),
                (#[trigger] results[i]).slot,
            ),
        few_lead_from(index.storage, trail.last(), ef as nat) ==> forall|id: u32|
            #[trigger] leads_to(index.storage, trail.last(), id) ==> found_node(results, id) || (
            results.len() == k && forall|i: int|
                0 <= i < results.len() ==> rank((#[trigger] results[i]).distance) <= rank(
                    away(index.storage, metric, query, id),
                )),
{
    let store = index.storage;
    let d = distance_fn(store, metric, query);
    let entry = index.entry_point->0;
    let best = Candidate { node_id: entry, distance: d(entry) };
    let trail = lemma_walked_down(store, metric, query, best, store.level_at(entry));
    let start = trail.last();
    assert(start == query_start(store, metric, query, entry));
    assert(trail[trail.len() - 1] < store.node_count());
    lemma_trail_falls(store, metric, query, entry, trail, 0, store.level_at(entry) as int);
    let (seen, kept) = choose|seen: Set<u32>, kept: Seq<Candidate>|
        {
            &&& #[trigger] beam_outcome(
                link_fn(store, 0),
                d,
                seq![start],
                ef as nat,
                true,
                false,
                seen,
                kept,
            )
            &&& forall|id: u32| #[trigger] seen.contains(id) ==> id < store.node_count()
            &&& results == as_results(at_most(kept, k as nat))
        };
    lemma_beam_first(link_fn(store, 0), d, start, ef as nat, true, false, seen, kept);
    assert forall|i: int| 0 <= i < results.len() implies leads_to(
        store,
        start,
        (#[trigger] results[i]).slot,
    ) by {
        assert forall|c: Set<u32>| #[trigger] closed_at(store, 0, c) && c.contains(start) implies
            c.contains(results[i].slot) by {
            lemma_beam_within(store, d, start, ef as nat, seen, kept, c);
            assert(seen.contains(kept[i].node_id));
        }
    }
    if store.level_at(entry) > 0 {
        let level = store.level_at(entry);
        assert(walked_level(store, metric, query, level, trail[level - level], trail[level - level + 1]));
        lemma_trail_falls(store, metric, query, entry, trail, 1, level as int);
    }
    if few_lead_from(store, start, ef as nat) {
        let c = choose|c: Set<u32>| #[trigger]
            closed_at(store, 0, c) && c.contains(start) && c.finite() && c.len() <= ef;
        lemma_beam_within(store, d, start, ef as nat, seen, kept, c);
        assert forall|id: u32| #[trigger] leads_to(store, start, id) implies found_node(results, id)
            || (results.len() == k && forall|i: int|
            0 <= i < results.len() ==> rank((#[trigger] results[i]).distance) <= rank(
                away(store, metric, query, id),
            )) by {
            assert(closed_at(store, 0, seen) && seen.contains(start));
            assert(seen.contains(id));
            let p = choose|p: int| 0 <= p < kept.len() && (#[trigger] kept[p]).node_id == id;
            assert(kept[p].distance == d(id));
            if p < results.len() {
                assert(results[p].slot == id);
            } else {
                assert forall|i: int| 0 <= i < results.len() implies rank(
                    (#[trigger] results[i]).distance,
                ) <= rank(away(store, metric, query, id)) by {
                    assert(ordered(kept[i], kept[p]));
                }
            }
        }
    }
    trail
}

proof fn lemma_trail_falls<S: GraphStore, M: Fn(&[u32], &[u32]) -> u32>(
    store: S,
    metric: M,
    query: Seq<u32>,
    entry: u32,
    trail: Seq<u32>,
    i: int,
    j: int,
)
    requires
        walked_down(store, metric, query, entry, trail),
        0 <= i <= j < trail.len(),
    ensures
        rank(away(store, metric, query, trail[j])) <= rank(away(store, metric, query, trail[i])),
    decreases j - i,
{
    if i < j {
        lemma_trail_falls(store, metric, query, entry, trail, i, j - 1);
        let l = (store.level_at(entry) - (j - 1)) as u8;
        assert(walked_level(
            store,
            metric,
            query,
            l,
            trail[store.level_at(entry) - l],
            trail[store.level_at(entry) - l + 1],
        ));
    }
}

/// What a search answers: an error exactly where the query has another length
/// than the vectors or a component that is not finite, or where there are
/// vectors and more results are asked for than the beam is wide. Else it gives
/// different nodes, each with its distance to the query, nearest first.
pub proof fn law_search_answers<S: GraphStore, M: Fn(&[u32], &[u32]) -> u32>(
    index: HNSWIndex<S>,
    metric: M,
    query: Seq<u32>,
    k: usize,
    ef: usize,
    r: Result<Seq<SearchResult>>,
)
    requires
        index.wf(),
        searched(index, metric, query, k, ef, r),
    ensures
        r matches Err(HNSWError::DimensionMismatch { expected, actual }) ==> query.len()
            != index.storage.dim(),
        query.len() != index.storage.dim() ==> r is Err,
        query.len() == index.storage.dim() ==> {
            &&& r is Err <==> (exists|i: int|
                0 <= i < query.len() && !is_finite(#[trigger] query[i])) || (
            index.entry_point is Some && ef < k)
            &&& r == Err::<Seq<SearchResult>, HNSWError>(HNSWError::InvalidVector) <==> exists|
                i: int,
            |
                0 <= i < query.len() && !is_finite(#[trigger] query[i])
        },
        r matches Ok(results) ==> {
            &&& results.len() <= k
            &&& results.len() == 0 <==> index.entry_point is None || k == 0
            &&& forall|i: int|
                0 <= i < results.len() ==> {
                    &&& (#[trigger] results[i]).slot < index.storage.node_count()
                    &&& results[i].distance == away(index.storage, metric, query, results[i].slot)
                }
            &&& forall|i: int, j: int|
                0 <= i < j < results.len() ==> {
                    &&& (#[trigger] results[i]).slot != (#[trigger] results[j]).slot
                    &&& rank(results[i].distance) <= rank(results[j].distance)
                }
        },
{
    match r {
        Ok(results) => {
            if index.entry_point is Some && k > 0 {
                let store = index.storage;
                law_search_results(
                    store,
                    metric,
                    query,
                    query_start(store, metric, query, index.entry_point->0),
                    k as nat,
                    ef as nat,
                    results,
                );
                let _ = law_search_walks_down(index, metric, query, k, ef, results);
            }
        },
        Err(_) => {},
    }
}

/// Nodes nearest first, each once, all of them reached from `start`, of which
/// the first is no farther than `start`: `width` of them, or as many as can be
/// reached. A node that one of them links to at level 0 is among them too, or
/// no nearer than any of them.
pub open spec fn fills_beam<S: GraphStore, M: Fn(&[u32], &[u32]) -> u32>(
    store: S,
    metric: M,
    query: Seq<u32>,
    start: u32,
    width: nat,
    beam: Seq<u32>,
) -> bool {
    &&& 0 < beam.len()
    &&& beam.no_duplicates()
    &&& rank(away(store, metric, query, beam[0])) <= rank(away(store, metric, query, start))
    &&& forall|i: int|
        0 <= i < beam.len() ==> (#[trigger] beam[i]) < store.node_count() && leads_to(
            store,
            start,
            beam[i],
        )
    &&& forall|i: int, j: int|
        0 <= i < j < beam.len() ==> rank(away(store, metric, query, #[trigger] beam[i])) <= rank(
            away(store, metric, query, #[trigger] beam[j]),
        )
    &&& beam.len() < width ==> forall|id: u32| #[trigger]
        leads_to(store, start, id) ==> beam.contains(id)
    &&& forall|i: int, j: int|
        0 <= i < beam.len() && 0 <= j < store.links_at(beam[i], 0).len() ==> {
            let linked = #[trigger] store.links_at(beam[i], 0)[j];
            beam.contains(linked) || rank(away(store, metric, query, beam.last())) <= rank(
                away(store, metric, query, linked),
            )
        }
}

/// No distance of a node to the query is NaN.
pub open spec fn measurable<S: GraphStore, M: Fn(&[u32], &[u32]) -> u32>(
    store: S,
    metric: M,
    query: Seq<u32>,
) -> bool {
    forall|id: u32| id < store.node_count() ==> !is_nan(#[trigger] away(store, metric, query, id))
}

proof fn lemma_fills_beam<S: GraphStore, M: Fn(&[u32], &[u32]) -> u32>(
    store: S,
    metric: M,
    query: Seq<u32>,
    start: u32,
    width: nat,
    seen: Set<u32>,
    kept: Seq<Candidate>,
)
    requires
        links_below(store, 0, store.node_count()),
        start < store.node_count(),
        measurable(store, metric, query),
        width > 0,
        beam_outcome(
            link_fn(store, 0),
            distance_fn(store, metric, query),
            seq![start],
            width,
            true,
            false,
            seen,
            kept,
        ),
        forall|id: u32| #[trigger] seen.contains(id) ==> id < store.node_count(),
    ensures
        fills_beam(store, metric, query, start, width, nodes_of(kept)),
{
    let links = link_fn(store, 0);
    let d = distance_fn(store, metric, query);
    let beam = nodes_of(kept);
    lemma_beam_first(links, d, start, width, true, false, seen, kept);
    assert(beam.no_duplicates()) by {
        assert forall|i: int, j: int|
            0 <= i < beam.len() && 0 <= j < beam.len() && i != j implies beam[i] != beam[j] by {
            assert(kept[i].node_id != kept[j].node_id);
        }
    }
    assert forall|i: int| 0 <= i < beam.len() implies (#[trigger] beam[i]) < store.node_count()
        && leads_to(store, start, beam[i]) && away(store, metric, query, beam[i])
        == kept[i].distance by {
        assert(seen.contains(kept[i].node_id));
        assert forall|c: Set<u32>| #[trigger] closed_at(store, 0, c) && c.contains(start) implies
            c.contains(beam[i]) by {
            lemma_beam_within(store, d, start, width, seen, kept, c);
        }
    }
    assert forall|i: int, j: int| 0 <= i < j < beam.len() implies rank(
        away(store, metric, query, #[trigger] beam[i]),
    ) <= rank(away(store, metric, query, #[trigger] beam[j])) by {
        assert(ordered(kept[i], kept[j]));
    }
    assert forall|i: int, j: int|
        0 <= i < beam.len() && 0 <= j < store.links_at(beam[i], 0).len() implies ({
        let linked = #[trigger] store.links_at(beam[i], 0)[j];
        beam.contains(linked) || rank(away(store, metric, query, beam.last())) <= rank(
            away(store, metric, query, linked),
        )
    }) by {
        let id = beam[i];
        let linked = store.links_at(id, 0)[j];
        assert(kept[i].node_id == id);
        assert(holds(kept, id));
        assert(links(id) == store.links_at(id, 0));
        law_beam_ends_at_local_optimum(
            links,
            d,
            seq![start],
            width,
            true,
            false,
            seen,
            kept,
            id,
            j,
        );
        assert(linked < store.node_count());
        if holds(kept, linked) {
            let p = choose|p: int| 0 <= p < kept.len() && (#[trigger] kept[p]).node_id == linked;
            assert(beam[p] == linked);
        } else {
            assert(beam[kept.len() - 1] == kept.last().node_id);
            assert(!is_nan(away(store, metric, query, linked)));
            assert(!is_nan(away(store, metric, query, beam.last())));
        }
    }
    if beam.len() < width {
        law_wide_beam_is_exhaustive(links, d, seq![start], width, true, false, seen, kept);
        assert(closed_at(store, 0, seen)) by {
            assert forall|id: u32, i: int|
                seen.contains(id) && id < store.node_count() && 0 <= i < store.links_at(
                    id,
                    0,
                ).len() implies seen.contains(#[trigger] store.links_at(id, 0)[i]) by {
                assert(seen.contains(links(id)[i]));
            }
        }
        assert(seq![start][0] == start);
        assert(seen.contains(seq![start][0]));
        assert forall|id: u32| #[trigger] leads_to(store, start, id) implies beam.contains(id) by {
            assert(seen.contains(id));
            let p = choose|p: int| 0 <= p < kept.len() && (#[trigger] kept[p]).node_id == id;
            assert(beam[p] == id);
        }
    }
}

/// The nodes of candidates.
pub open spec fn nodes_of(s: Seq<Candidate>) -> Seq<u32> {
    s.map_values(|c: Candidate| c.node_id)
}

/// The results of a search are the nearest of a beam that is `ef` wide: of so
/// many nodes, reached from where the walk down from the entry point ends, that
/// no link leads from one of them to a nearer node outside.
pub proof fn law_search_fills_its_beam<S: GraphStore, M: Fn(&[u32], &[u32]) -> u32>(
    index: HNSWIndex<S>,
    metric: M,
    query: Seq<u32>,
    k: usize,
    ef: usize,
    results: Seq<SearchResult>,
) -> (r: (Seq<u32>, Seq<u32>))
    requires
        index.wf(),
        index.entry_point is Some,
        k > 0,
        searched(index, metric, query, k, ef, Ok(results)),
        measurable(index.storage, metric, query),
    ensures
        walked_down(index.storage, metric, query, index.entry_point->0, r.0),
        fills_beam(index.storage, metric, query, r.0.last(), ef as nat, r.1),
        k <= ef,
        results.len() == (if r.1.len() < k { r.1.len() } else { k as nat }),
        forall|i: int| 0 <= i < results.len() ==> (#[trigger] results[i]).slot == r.1[i],
{
    let store = index.storage;
    let d = distance_fn(store, metric, query);
    let entry = index.entry_point->0;
    let best = Candidate { node_id: entry, distance: d(entry) };
    let trail = lemma_walked_down(store, metric, query, best, store.level_at(entry));
    let start = trail.last();
    assert(trail[trail.len() - 1] < store.node_count());
    let (seen, kept) = choose|seen: Set<u32>, kept: Seq<Candidate>|
        {
            &&& #[trigger] beam_outcome(
                link_fn(store, 0),
                d,
                seq![start],
                ef as nat,
                true,
                false,
                seen,
                kept,
            )
            &&& forall|id: u32| #[trigger] seen.contains(id) ==> id < store.node_count()
            &&& results == as_results(at_most(kept, k as nat))
        };
    assert(links_below(store, 0, store.node_count()));
    lemma_fills_beam(store, metric, query, start, ef as nat, seen, kept);
    (trail, nodes_of(kept))
}

/// What a filtered search answers: an error exactly where the query has another
/// length than the vectors, and else different nodes that the filter lets
/// through, each with its distance to the query, nearest first.
pub proof fn law_filtered_search_answers<S: GraphStore, M: Fn(&[u32], &[u32]) -> u32>(
    index: HNSWIndex<S>,
    metric: M,
    query: Seq<u32>,
    k: usize,
    ef: usize,
    pass: spec_fn(u32) -> bool,
    r: Result<Seq<SearchResult>>,
)
    requires
        index.wf(),
        searched_filtered(index, metric, query, k, ef, pass, r),
    ensures
        r is Err <==> query.len() != index.storage.dim(),
        r matches Ok(results) ==> {
            &&& results.len() <= k
            &&& index.entry_point is None ==> results.len() == 0
            &&& forall|i: int|
                0 <= i < results.len() ==> {
                    &&& (#[trigger] results[i]).slot < index.storage.node_count()
                    &&& pass(results[i].slot)
                    &&& results[i].distance == away(index.storage, metric, query, results[i].slot)
                }
            &&& forall|i: int, j: int|
                0 <= i < j < results.len() ==> {
                    &&& (#[trigger] results[i]).slot != (#[trigger] results[j]).slot
                    &&& rank(results[i].distance) <= rank(results[j].distance)
                }
        },
{
    match r {
        Ok(results) => {
            if index.entry_point is Some && k > 0 {
                let store = index.storage;
                law_filtered_search_results(
                    store,
                    metric,
                    query,
                    query_start(store, metric, query, index.entry_point->0),
                    k as nat,
                    boosted_ef(k as nat, ef as nat),
                    pass,
                    results,
                );
            }
        },
        Err(_) => {},
    }
}

/// A node that passes the filter is among the results, or there are `k` of them
/// and the last is not farther than it.
pub open spec fn found_or_beaten<S: GraphStore, M: Fn(&[u32], &[u32]) -> u32>(
    store: S,
    metric: M,
    query: Seq<u32>,
    pass: spec_fn(u32) -> bool,
    k: nat,
    results: Seq<SearchResult>,
    id: u32,
) -> bool {
    pass(id) ==> found_node(results, id) || (results.len() == k && !float_lt(
        away(store, metric, query, id),
        results.last().distance,
    ))
}

/// A filtered search walks down from the entry point as any search does. It
/// looks at the node where that walk ends, and at all that leads from there if
/// no more nodes do than `ef`, than four times `k`, or than a hundred: of what
/// it looks at, it leaves out no node that passes the filter but for `k` that
/// are not farther.
pub proof fn law_filtered_search_is_exact<S: GraphStore, M: Fn(&[u32], &[u32]) -> u32>(
    index: HNSWIndex<S>,
    metric: M,
    query: Seq<u32>,
    k: usize,
    ef: usize,
    pass: spec_fn(u32) -> bool,
    results: Seq<SearchResult>,
) -> (trail: Seq<u32>)
    requires
        index.wf(),
        index.entry_point is Some,
        k > 0,
        searched_filtered(index, metric, query, k, ef, pass, Ok(results)),
    ensures
        walked_down(index.storage, metric, query, index.entry_point->0, trail),
        found_or_beaten(index.storage, metric, query, pass, k as nat, results, trail.last()),
        forall|i: int|
            0 <= i < results.len() ==> leads_to(
                index.storage,
                trail.last(),
                (#[trigger] results[i]).slot,
            ),
        forall|width: nat|
            (width <= ef || width <= 4 * k || width <= 100) && #[trigger] few_lead_from(
                index.storage,
                trail.last(),
                width,
            ) ==> forall|id: u32| #[trigger]
                leads_to(index.storage, trail.last(), id) ==> found_or_beaten(
                    index.storage,
                    metric,
                    query,
                    pass,
                    k as nat,
                    results,
                    id,
                ),
{
    let store = index.storage;
    let d = distance_fn(store, metric, query);
    let entry = index.entry_point->0;
    let best = Candidate { node_id: entry, distance: d(entry) };
    let trail = lemma_walked_down(store, metric, query, best, store.level_at(entry));
    let start = trail.last();
    assert(trail[trail.len() - 1] < store.node_count());
    let wide = boosted_ef(k as nat, ef as nat);
    let (seen, tops, picked) = choose|
        seen: Set<u32>,
        tops: Seq<Candidate>,
        picked: Seq<Candidate>,
    |
        {
            &&& #[trigger] beam_outcome(
                link_fn(store, 0),
                d,
                seq![start],
                wide,
                true,
                false,
                seen,
                tops,
            )
            &&& #[trigger] filter_outcome(d, pass, k as nat, seen, picked)
            &&& forall|id: u32| #[trigger] seen.contains(id) ==> id < store.node_count()
            &&& results == as_results(picked)
        };
    assert(seq![start][0] == start);
    assert(seen.contains(seq![start][0]));
    assert forall|id: u32| #[trigger] seen.contains(id) implies found_or_beaten(
        store,
        metric,
        query,
        pass,
        k as nat,
        results,
        id,
    ) by {
        lemma_picked(store, metric, query, pass, k as nat, seen, picked, id);
    }
    assert forall|i: int| 0 <= i < results.len() implies leads_to(
        store,
        start,
        (#[trigger] results[i]).slot,
    ) by {
        assert forall|c: Set<u32>| #[trigger] closed_at(store, 0, c) && c.contains(start) implies
            c.contains(results[i].slot) by {
            lemma_beam_within(store, d, start, wide, seen, tops, c);
            assert(seen.contains(picked[i].node_id));
        }
    }
    assert forall|width: nat|
        (width <= ef || width <= 4 * k || width <= 100) && #[trigger] few_lead_from(
            store,
            start,
            width,
        ) implies forall|id: u32| #[trigger]
        leads_to(store, start, id) ==> found_or_beaten(
            store,
            metric,
            query,
            pass,
            k as nat,
            results,
            id,
        ) by {
        let c = choose|c: Set<u32>| #[trigger]
            closed_at(store, 0, c) && c.contains(start) && c.finite() && c.len() <= width;
        lemma_beam_within(store, d, start, wide, seen, tops, c);
        assert forall|id: u32| #[trigger] leads_to(store, start, id) implies found_or_beaten(
            store,
            metric,
            query,
            pass,
            k as nat,
            results,
            id,
        ) by {
            assert(closed_at(store, 0, seen) && seen.contains(start));
            assert(seen.contains(id));
        }
    }
    trail
}

proof fn lemma_picked<S: GraphStore, M: Fn(&[u32], &[u32]) -> u32>(
    store: S,
    metric: M,
    query: Seq<u32>,
    pass: spec_fn(u32) -> bool,
    k: nat,
    seen: Set<u32>,
    picked: Seq<Candidate>,
    id: u32,
)
    requires
        filter_outcome(distance_fn(store, metric, query), pass, k, seen, picked),
        seen.contains(id),
        id < store.node_count(),
    ensures
        found_or_beaten(store, metric, query, pass, k, as_results(picked), id),
{
    let results = as_results(picked);
    if pass(id) {
        if holds(picked, id) {
            let p = choose|p: int| 0 <= p < picked.len() && (#[trigger] picked[p]).node_id == id;
            assert(results[p].slot == id);
        }
    }
}

/// A filtered search looks at the links of a beam that is at least `ef` wide, at
/// least four times as wide as `k`, and at least a hundred nodes wide, whether
/// or not these pass the filter. Of the nodes of the beam and those that they
/// link to, it leaves out none that passes the filter but for `k` that are not
/// farther.
pub proof fn law_filtered_search_fills_its_beam<S: GraphStore, M: Fn(&[u32], &[u32]) -> u32>(
    index: HNSWIndex<S>,
    metric: M,
    query: Seq<u32>,
    k: usize,
    ef: usize,
    pass: spec_fn(u32) -> bool,
    results: Seq<SearchResult>,
    width: nat,
) -> (r: (Seq<u32>, Seq<u32>))
    requires
        index.wf(),
        index.entry_point is Some,
        k > 0,
        searched_filtered(index, metric, query, k, ef, pass, Ok(results)),
        measurable(index.storage, metric, query),
        width <= ef || width <= 4 * k || width <= 100,
    ensures
        walked_down(index.storage, metric, query, index.entry_point->0, r.0),
        fills_beam(index.storage, metric, query, r.0.last(), width, r.1),
        forall|i: int|
            0 <= i < r.1.len() ==> found_or_beaten(
                index.storage,
                metric,
                query,
                pass,
                k as nat,
                results,
                #[trigger] r.1[i],
            ),
        forall|i: int, j: int|
            0 <= i < r.1.len() && 0 <= j < index.storage.links_at(r.1[i], 0).len()
                ==> found_or_beaten(
                index.storage,
                metric,
                query,
                pass,
                k as nat,
                results,
                #[trigger] index.storage.links_at(r.1[i], 0)[j],
            ),
{
    let store = index.storage;
    let d = distance_fn(store, metric, query);
    let links = link_fn(store, 0);
    let entry = index.entry_point->0;
    let best = Candidate { node_id: entry, distance: d(entry) };
    let trail = lemma_walked_down(store, metric, query, best, store.level_at(entry));
    let start = trail.last();
    assert(trail[trail.len() - 1] < store.node_count());
    let wide = boosted_ef(k as nat, ef as nat);
    let (seen, tops, picked) = choose|
        seen: Set<u32>,
        tops: Seq<Candidate>,
        picked: Seq<Candidate>,
    |
        {
            &&& #[trigger] beam_outcome(links, d, seq![start], wide, true, false, seen, tops)
            &&& #[trigger] filter_outcome(d, pass, k as nat, seen, picked)
            &&& forall|id: u32| #[trigger] seen.contains(id) ==> id < store.node_count()
            &&& results == as_results(picked)
        };
    assert(links_below(store, 0, store.node_count()));
    lemma_fills_beam(store, metric, query, start, wide, seen, tops);
    let beam = nodes_of(tops);
    assert(fills_beam(store, metric, query, start, width, beam));
    assert forall|i: int| 0 <= i < beam.len() implies found_or_beaten(
        store,
        metric,
        query,
        pass,
        k as nat,
        results,
        #[trigger] beam[i],
    ) by {
        assert(seen.contains(tops[i].node_id));
        lemma_picked(store, metric, query, pass, k as nat, seen, picked, beam[i]);
    }
    let followed = choose|followed: Seq<u32>|
        {
            &&& #[trigger] search_path(links, d, seq![start], wide, true, false, followed)
            &&& seen == reached(links, seq![start], followed)
            &&& forall|id: u32| #[trigger] holds(tops, id) ==> followed.contains(id)
        };
    assert forall|i: int, j: int|
        0 <= i < beam.len() && 0 <= j < store.links_at(beam[i], 0).len() implies found_or_beaten(
        store,
        metric,
        query,
        pass,
        k as nat,
        results,
        #[trigger] store.links_at(beam[i], 0)[j],
    ) by {
        let id = beam[i];
        let linked = store.links_at(id, 0)[j];
        assert(tops[i].node_id == id);
        assert(holds(tops, id));
        let p = choose|p: int| 0 <= p < followed.len() && followed[p] == id;
        assert(links(id) == store.links_at(id, 0));
        assert(links(followed[p]).contains(linked));
        assert(seen.contains(linked));
        lemma_picked(store, metric, query, pass, k as nat, seen, picked, linked);
    }
    (trail, beam)
}

} // verus!
