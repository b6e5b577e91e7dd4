//! What holds of every index built node after node, said of the graph and the
//! distances alone.

use vstd::prelude::*;

use super::build_laws::{first_highest, law_entry_is_first_highest, linked_up_to};
use super::insert::{at_most, ids, measured};
use super::insert_laws::{
    lemma_beam_below, lemma_same_candidates, listed_or_beaten, nearest_first, within_reach,
};
use super::parallel::entry_after;
use super::search_laws::away;
use super::sequential::{
    beam_step, beam_trail, beam_width, crowded, diverse, diverse_split, level_joined, node_joined,
    pair_fn, rejoined, sequence_built, sequentially_built, step_joined, wide_levels, wide_source_ok,
    xorshift_after,
};
use super::HNSWIndex;
use crate::candidates::{ordered, sorted};
use crate::distance::{float_lt, metric_value, rank};
use crate::graph::{beam_outcome, distance_fn, holds, link_fn, links_below, GraphStore};
use crate::node_storage::NodeStorage;
use crate::types::{Candidate, HNSWParams};

verus! {

/// The distance between the vectors of two nodes.
pub open spec fn between<S: GraphStore, M: Fn(&[u32], &[u32]) -> u32>(
    store: S,
    metric: M,
    a: u32,
    b: u32,
) -> u32 {
    metric_value(metric, store.vector_at(a), store.vector_at(b))
}

/// `list` is a choice of `m` of more nodes, which stand nearest to the query
/// first: those at the places `at`. The first `k` are spread out: each is no
/// nearer to one before it than to the query, and a node is left out of them
/// only if it is nearer to one that comes before it, or `m` of them come before
/// it. The others fill the list up, nearest first.
pub open spec fn spread_out<S: GraphStore, M: Fn(&[u32], &[u32]) -> u32>(
    store: S,
    metric: M,
    query: Seq<u32>,
    nodes: Seq<u32>,
    m: nat,
    list: Seq<u32>,
    k: int,
    at: Seq<int>,
) -> bool {
    &&& 0 <= k <= list.len()
    &&& list.len() == m
    &&& at.len() == m
    &&& at.no_duplicates()
    &&& forall|i: int|
        0 <= i < m ==> 0 <= #[trigger] at[i] < nodes.len() && list[i] == nodes[at[i]]
    &&& forall|i: int, j: int|
        0 <= i < j < k ==> #[trigger] at[i] < #[trigger] at[j] && !float_lt(
            between(store, metric, list[j], list[i]),
            away(store, metric, query, list[j]),
        )
    &&& forall|i: int, j: int| k <= i < j < m ==> #[trigger] at[i] < #[trigger] at[j]
    &&& forall|p: int|
        0 <= p < nodes.len() && !at.take(k).contains(p) ==> #[trigger] left_out(
            store,
            metric,
            query,
            nodes,
            m,
            at.take(k),
            p,
        )
    &&& forall|p: int|
        0 <= p < nodes.len() && !at.contains(p) ==> #[trigger] comes_behind(at.skip(k), p)
}

/// A place lies behind all of some places.
pub open spec fn comes_behind(at: Seq<int>, p: int) -> bool {
    forall|i: int| 0 <= i < at.len() ==> #[trigger] at[i] < p
}

/// A node is nearer to one of those at the places `at` before it than to the
/// query; or there are `m` of these, all before it.
pub open spec fn left_out<S: GraphStore, M: Fn(&[u32], &[u32]) -> u32>(
    store: S,
    metric: M,
    query: Seq<u32>,
    nodes: Seq<u32>,
    m: nat,
    at: Seq<int>,
    p: int,
) -> bool {
    ||| at.len() == m && forall|i: int| 0 <= i < at.len() ==> #[trigger] at[i] < p
    ||| exists|i: int|
        0 <= i < at.len() && #[trigger] at[i] < p && float_lt(
            between(store, metric, nodes[p], nodes[at[i]]),
            away(store, metric, query, nodes[p]),
        )
}

/// `list` are the nodes, if there are no more than `m`; else a choice of `m`
/// that are spread out.
pub open spec fn spread_choice<S: GraphStore, M: Fn(&[u32], &[u32]) -> u32>(
    store: S,
    metric: M,
    query: Seq<u32>,
    nodes: Seq<u32>,
    m: nat,
    list: Seq<u32>,
) -> bool {
    if nodes.len() <= m {
        list == nodes
    } else {
        exists|k: int, at: Seq<int>| #[trigger]
            spread_out(store, metric, query, nodes, m, list, k, at)
    }
}

/// What was split up to now: the places of the chosen and of the others.
spec fn split_at(
    pair: spec_fn(u32, u32) -> u32,
    candidates: Seq<Candidate>,
    m: nat,
    a: Seq<int>,
    b: Seq<int>,
) -> bool {
    let (chosen, rest) = diverse_split(pair, candidates, m);
    &&& a.len() == chosen.len()
    &&& b.len() == rest.len()
    &&& chosen.len() <= m
    &&& forall|i: int|
        0 <= i < a.len() ==> 0 <= #[trigger] a[i] < candidates.len() && chosen[i]
            == candidates[a[i]].node_id
    &&& forall|i: int|
        0 <= i < b.len() ==> 0 <= #[trigger] b[i] < candidates.len() && rest[i]
            == candidates[b[i]].node_id
    &&& forall|i: int, j: int| 0 <= i < j < a.len() ==> #[trigger] a[i] < #[trigger] a[j]
    &&& forall|i: int, j: int| 0 <= i < j < b.len() ==> #[trigger] b[i] < #[trigger] b[j]
    &&& forall|i: int, j: int|
        0 <= i < a.len() && 0 <= j < b.len() ==> #[trigger] a[i] != #[trigger] b[j]
    &&& forall|p: int|
        0 <= p < candidates.len() ==> a.contains(p) || #[trigger] b.contains(p)
    &&& forall|i: int, j: int|
        0 <= i < j < a.len() ==> !float_lt(
            pair(#[trigger] chosen[j], #[trigger] chosen[i]),
            candidates[a[j]].distance,
        )
    &&& forall|j: int|
        0 <= j < b.len() ==> #[trigger] passed(pair, candidates, m, a, b[j])
}

spec fn passed(
    pair: spec_fn(u32, u32) -> u32,
    candidates: Seq<Candidate>,
    m: nat,
    a: Seq<int>,
    p: int,
) -> bool {
    ||| a.len() == m && forall|i: int| 0 <= i < a.len() ==> #[trigger] a[i] < p
    ||| exists|i: int|
        0 <= i < a.len() && #[trigger] a[i] < p && float_lt(
            pair(candidates[p].node_id, candidates[a[i]].node_id),
            candidates[p].distance,
        )
}

proof fn lemma_split_at(
    pair: spec_fn(u32, u32) -> u32,
    candidates: Seq<Candidate>,
    m: nat,
) -> (r: (Seq<int>, Seq<int>))
    ensures
        split_at(pair, candidates, m, r.0, r.1),
    decreases candidates.len(),
{
    if candidates.len() == 0 {
        (Seq::empty(), Seq::empty())
    } else {
        let front = candidates.drop_last();
        let n = candidates.len() - 1;
        let c = candidates.last();
        let (a, b) = lemma_split_at(pair, front, m);
        let (before, behind) = diverse_split(pair, front, m);
        let (chosen, rest) = diverse_split(pair, candidates, m);
        assert(candidates[n] == c);
        assert forall|i: int| 0 <= i < n implies #[trigger] front[i] == candidates[i] by {}
        if before.len() >= m || crowded(pair, before, c) {
            let bb = b.push(n);
            assert forall|j: int| 0 <= j < bb.len() implies #[trigger] passed(
                pair,
                candidates,
                m,
                a,
                bb[j],
            ) by {
                if j < b.len() {
                    assert(passed(pair, front, m, a, b[j]));
                    assert(bb[j] == b[j]);
                    assert(front[b[j]] == candidates[b[j]]);
                    if !(a.len() == m && forall|i: int| 0 <= i < a.len() ==> #[trigger] a[i]
                        < b[j]) {
                        let i = choose|i: int|
                            0 <= i < a.len() && #[trigger] a[i] < b[j] && float_lt(
                                pair(front[b[j]].node_id, front[a[i]].node_id),
                                front[b[j]].distance,
                            );
                        assert(front[a[i]] == candidates[a[i]]);
                    }
                } else if before.len() < m {
                    let i = choose|i: int|
                        0 <= i < before.len() && float_lt(
                            pair(c.node_id, #[trigger] before[i]),
                            c.distance,
                        );
                    assert(front[a[i]] == candidates[a[i]]);
                    assert(a[i] < n);
                }
            }
            assert forall|p: int| 0 <= p < candidates.len() implies a.contains(p)
                || #[trigger] bb.contains(p) by {
                if p == n {
                    assert(bb[b.len() as int] == n);
                } else if b.contains(p) {
                    let i = choose|i: int| 0 <= i < b.len() && b[i] == p;
                    assert(bb[i] == p);
                } else {
                    assert(a.contains(p) || b.contains(p));
                }
            }
            (a, bb)
        } else {
            let aa = a.push(n);
            assert forall|i: int, j: int| 0 <= i < j < aa.len() implies !float_lt(
                pair(#[trigger] chosen[j], #[trigger] chosen[i]),
                candidates[aa[j]].distance,
            ) by {
                assert(chosen[i] == before[i]);
                if j < a.len() {
                    assert(chosen[j] == before[j]);
                    assert(front[a[j]] == candidates[a[j]]);
                }
            }
            assert forall|j: int| 0 <= j < b.len() implies #[trigger] passed(
                pair,
                candidates,
                m,
                aa,
                b[j],
            ) by {
                assert(passed(pair, front, m, a, b[j]));
                assert(front[b[j]] == candidates[b[j]]);
                let i = choose|i: int|
                    0 <= i < a.len() && #[trigger] a[i] < b[j] && float_lt(
                        pair(front[b[j]].node_id, front[a[i]].node_id),
                        front[b[j]].distance,
                    );
                assert(front[a[i]] == candidates[a[i]]);
                assert(aa[i] == a[i]);
            }
            assert forall|p: int| 0 <= p < candidates.len() implies aa.contains(p)
                || #[trigger] b.contains(p) by {
                if p == n {
                    assert(aa[a.len() as int] == n);
                } else if a.contains(p) {
                    let i = choose|i: int| 0 <= i < a.len() && a[i] == p;
                    assert(aa[i] == p);
                } else {
                    assert(a.contains(p) || b.contains(p));
                }
            }
            (aa, b)
        }
    }
}

proof fn lemma_spread_choice<S: GraphStore, M: Fn(&[u32], &[u32]) -> u32>(
    store: S,
    metric: M,
    query: Seq<u32>,
    candidates: Seq<Candidate>,
    m: nat,
)
    requires
        forall|i: int|
            0 <= i < candidates.len() ==> (#[trigger] candidates[i]).node_id < store.node_count()
                && candidates[i].distance == away(store, metric, query, candidates[i].node_id),
    ensures
        spread_choice(
            store,
            metric,
            query,
            ids(candidates),
            m,
            diverse(pair_fn(store, metric), candidates, m),
        ),
{
    let pair = pair_fn(store, metric);
    let nodes = ids(candidates);
    let list = diverse(pair, candidates, m);
    if candidates.len() > m {
        let (a, b) = lemma_split_at(pair, candidates, m);
        let (chosen, rest) = diverse_split(pair, candidates, m);
        let k = chosen.len() as int;
        assert(a.len() + b.len() >= candidates.len()) by {
            lemma_covers(a, b, candidates.len() as int);
        }
        let room = (m - k) as nat;
        let more = at_most(b, room);
        let at = a + more;
        assert(list =~= chosen + at_most(rest, room));
        assert(at.take(k) =~= a);
        assert forall|i: int| 0 <= i < m implies 0 <= #[trigger] at[i] < nodes.len() && list[i]
            == nodes[at[i]] by {
            if i < k {
                assert(at[i] == a[i]);
            } else {
                assert(at[i] == b[i - k]);
            }
        }
        assert(at.no_duplicates()) by {
            assert forall|i: int, j: int|
                0 <= i < at.len() && 0 <= j < at.len() && i != j implies at[i] != at[j] by {
                if i < k && j < k {
                    assert(a[i] != a[j]);
                } else if i >= k && j >= k {
                    assert(b[i - k] != b[j - k]);
                } else if i < k {
                    assert(a[i] != b[j - k]);
                } else {
                    assert(b[i - k] != a[j]);
                }
            }
        }
        assert forall|i: int, j: int| 0 <= i < j < k implies #[trigger] at[i] < #[trigger] at[j]
            && !float_lt(
            between(store, metric, list[j], list[i]),
            away(store, metric, query, list[j]),
        ) by {
            assert(at[i] == a[i] && at[j] == a[j]);
            assert(!float_lt(pair(chosen[j], chosen[i]), candidates[a[j]].distance));
            assert(candidates[a[i]].node_id < store.node_count());
            assert(candidates[a[j]].node_id < store.node_count());
        }
        assert forall|i: int, j: int| k <= i < j < m implies #[trigger] at[i] < #[trigger] at[j] by {
            assert(at[i] == b[i - k] && at[j] == b[j - k]);
        }
        assert forall|p: int|
            0 <= p < nodes.len() && !at.take(k).contains(p) implies #[trigger] left_out(
            store,
            metric,
            query,
            nodes,
            m,
            at.take(k),
            p,
        ) by {
            assert(a.contains(p) || b.contains(p));
            let j = choose|j: int| 0 <= j < b.len() && b[j] == p;
            assert(passed(pair, candidates, m, a, b[j]));
            if !(a.len() == m && forall|i: int| 0 <= i < a.len() ==> #[trigger] a[i] < p) {
                let i = choose|i: int|
                    0 <= i < a.len() && #[trigger] a[i] < p && float_lt(
                        pair(candidates[p].node_id, candidates[a[i]].node_id),
                        candidates[p].distance,
                    );
                assert(candidates[p].node_id < store.node_count());
                assert(candidates[a[i]].node_id < store.node_count());
                assert(at.take(k)[i] < p);
            }
        }
        assert(at.skip(k) =~= more);
        assert forall|p: int|
            0 <= p < nodes.len() && !at.contains(p) implies #[trigger] comes_behind(
            at.skip(k),
            p,
        ) by {
            if a.contains(p) {
                let q = choose|q: int| 0 <= q < a.len() && a[q] == p;
                assert(at[q] == p);
            } else {
                assert(b.contains(p));
                let q = choose|q: int| 0 <= q < b.len() && b[q] == p;
                if q < more.len() {
                    assert(at[k + q] == p);
                } else {
                    assert forall|i: int| 0 <= i < more.len() implies #[trigger] more[i] < p by {
                        assert(b[i] < b[q]);
                    }
                }
            }
        }
        assert(spread_out(store, metric, query, nodes, m, list, k, at));
    } else {
        assert(list =~= nodes);
    }
}

proof fn lemma_covers(a: Seq<int>, b: Seq<int>, n: int)
    requires
        n >= 0,
        forall|p: int| 0 <= p < n ==> a.contains(p) || #[trigger] b.contains(p),
    ensures
        a.len() + b.len() >= n,
{
    let all = a + b;
    let wanted = vstd::set_lib::set_int_range(0, n);
    vstd::set_lib::lemma_int_range(0, n);
    assert(wanted.subset_of(all.to_set())) by {
        assert forall|p: int| wanted.contains(p) implies #[trigger] all.to_set().contains(p) by {
            if a.contains(p) {
                let i = choose|i: int| 0 <= i < a.len() && a[i] == p;
                assert(all[i] == p);
            } else {
                assert(b.contains(p));
                let i = choose|i: int| 0 <= i < b.len() && b[i] == p;
                assert(all[a.len() + i] == p);
            }
        }
    }
    all.lemma_cardinality_of_set();
    vstd::set_lib::lemma_len_subset(wanted, all.to_set());
}

/// A beam of nodes that a search from one node ends with: nearest first, no more
/// of them than the beam is wide, and such that neither the start nor a node
/// that one of them links to is missing, unless the beam is full and holds
/// nothing farther.
pub open spec fn good_beam<S: GraphStore, M: Fn(&[u32], &[u32]) -> u32>(
    old_store: S,
    new_store: S,
    metric: M,
    query: Seq<u32>,
    node: u32,
    level: u8,
    start: u32,
    width: nat,
    beam: Seq<u32>,
) -> bool {
    &&& 0 < beam.len()
    &&& beam.len() <= width || beam.len() == 1
    &&& beam.no_duplicates()
    &&& nearest_first(new_store, metric, query, beam)
    &&& forall|i: int|
        0 <= i < beam.len() ==> (#[trigger] beam[i]) < node && within_reach(
            old_store,
            level,
            seq![start],
            beam[i],
        )
    &&& listed_or_beaten(new_store, metric, query, beam, width, start)
    &&& forall|i: int, j: int|
        0 <= i < beam.len() && 0 <= j < old_store.links_at(beam[i], level).len()
            ==> listed_or_beaten(
            new_store,
            metric,
            query,
            beam,
            width,
            #[trigger] old_store.links_at(beam[i], level)[j],
        )
}

/// A node that has room for one more link gets one to the new node; one that
/// has none keeps a choice of its links and the new one that is spread out.
#[verifier::opaque]
pub open spec fn joins_back<S: GraphStore, M: Fn(&[u32], &[u32]) -> u32>(
    store: S,
    metric: M,
    id: u32,
    node: u32,
    most: nat,
    before: Seq<u32>,
    after: Seq<u32>,
) -> bool {
    if before.len() < most {
        after == before.push(node)
    } else {
        exists|nodes: Seq<u32>|
            {
                &&& nodes.len() == before.len() + 1
                &&& forall|i: int|
                    0 <= i < nodes.len() ==> (#[trigger] nodes[i]) == node || before.contains(
                        nodes[i],
                    )
                &&& forall|i: int| 0 <= i < before.len() ==> nodes.contains(#[trigger] before[i])
                &&& nodes.contains(node)
                &&& nearest_first(store, metric, store.vector_at(id), nodes)
                &&& #[trigger] spread_choice(
                    store,
                    metric,
                    store.vector_at(id),
                    nodes,
                    most,
                    after,
                )
            }
    }
}

/// The links that a node may have at a level: `m`, on level 0 twice as many.
pub open spec fn most_links(params: HNSWParams, level: u8) -> nat {
    if level == 0 { 2 * params.m as nat } else { params.m as nat }
}

/// How wide the beam is that links are chosen from: as the parameters say, and
/// above level 0 at least `m`.
pub open spec fn searched_width(params: HNSWParams, level: u8) -> nat {
    if level > 0 && params.m > params.ef_construction {
        params.m as nat
    } else {
        params.ef_construction as nat
    }
}

/// The nodes that a new node is linked to at a level link back to it, and the
/// links of the other nodes before it stay as they are.
pub open spec fn others_join<S: GraphStore, M: Fn(&[u32], &[u32]) -> u32>(
    old_store: S,
    new_store: S,
    metric: M,
    node: u32,
    level: u8,
    most: nat,
) -> bool {
    forall|n: u32|
        n < node ==> if new_store.links_at(node, level).contains(n) {
            joins_back(
                new_store,
                metric,
                n,
                node,
                most,
                old_store.links_at(n, level),
                #[trigger] new_store.links_at(n, level),
            )
        } else {
            new_store.links_at(n, level) == old_store.links_at(n, level)
        }
}

/// The links of a node at a level are a choice, spread out, of up to `most`
/// nodes of a beam of some width, the nearest of which is `next`.
pub open spec fn chosen_from<S: GraphStore, M: Fn(&[u32], &[u32]) -> u32>(
    old_store: S,
    new_store: S,
    metric: M,
    node: u32,
    level: u8,
    start: u32,
    next: u32,
    width: nat,
    most: nat,
    beam: Seq<u32>,
) -> bool {
    let query = new_store.vector_at(node);
    &&& good_beam(old_store, new_store, metric, query, node, level, start, width, beam)
    &&& next == beam[0]
    &&& spread_choice(
        new_store,
        metric,
        query,
        beam,
        most,
        new_store.links_at(node, level),
    )
}

/// A node among those before it gets its links of one level: a choice, spread
/// out, of up to `m` nodes, on level 0 twice as many, of a beam as wide as the
/// parameters say, above level 0 at least `m`. Its nodes link back, and no other
/// links change. `next` is the nearest of the beam.
pub open spec fn well_joined<S: GraphStore, M: Fn(&[u32], &[u32]) -> u32>(
    old_store: S,
    new_store: S,
    metric: M,
    node: u32,
    level: u8,
    params: HNSWParams,
    start: u32,
    next: u32,
) -> bool {
    let most = most_links(params, level);
    let width = searched_width(params, level);
    &&& exists|beam: Seq<u32>| #[trigger]
        chosen_from(
            old_store,
            new_store,
            metric,
            node,
            level,
            start,
            next,
            width,
            most,
            beam,
        )
    &&& others_join(old_store, new_store, metric, node, level, most)
}

/// On one level, links lead from one node to another that is no farther from the
/// query, nor than any node that it links to.
pub open spec fn stepped<S: GraphStore, M: Fn(&[u32], &[u32]) -> u32>(
    store: S,
    metric: M,
    query: Seq<u32>,
    level: u8,
    from: u32,
    to: u32,
) -> bool {
    &&& rank(away(store, metric, query, to)) <= rank(away(store, metric, query, from))
    &&& within_reach(store, level, seq![from], to)
    &&& forall|j: int|
        0 <= j < store.links_at(to, level).len() ==> rank(away(store, metric, query, to)) <= rank(
            away(store, metric, query, #[trigger] store.links_at(to, level)[j]),
        )
}

proof fn lemma_good_beam<S: GraphStore, M: Fn(&[u32], &[u32]) -> u32>(
    before: S,
    after: S,
    metric: M,
    query: Seq<u32>,
    node: u32,
    level: u8,
    start: u32,
    width: nat,
    seen: Set<u32>,
    kept: Seq<Candidate>,
)
    requires
        node < before.node_count(),
        links_below(before, level, node as nat),
        start < node,
        beam_outcome(
            link_fn(before, level),
            distance_fn(before, metric, query),
            seq![start],
            width,
            false,
            true,
            seen,
            kept,
        ),
        kept.len() > 0,
        after.node_count() == before.node_count(),
        forall|i: u32|
            i < before.node_count() ==> #[trigger] after.vector_at(i) == before.vector_at(i),
    ensures
        good_beam(before, after, metric, query, node, level, start, width, ids(kept)),
        forall|i: int|
            0 <= i < kept.len() ==> (#[trigger] kept[i]).node_id < node && kept[i].distance
                == away(after, metric, query, kept[i].node_id),
{
    let beam = ids(kept);
    lemma_beam_below(
        before,
        metric,
        query,
        node,
        level,
        seq![start],
        width,
        true,
        seen,
        kept,
    );
    assert forall|x: u32| x < node implies #[trigger] away(after, metric, query, x) == away(
        before,
        metric,
        query,
        x,
    ) by {}
    assert forall|i: int| 0 <= i < kept.len() implies (#[trigger] kept[i]).node_id < node
        && kept[i].distance == away(after, metric, query, kept[i].node_id) by {
        assert(holds(kept, kept[i].node_id));
    }
    assert forall|i: int, j: int|
        0 <= i < beam.len() && 0 <= j < beam.len() && i != j implies beam[i] != beam[j] by {
        assert(kept[i].node_id != kept[j].node_id);
    }
    assert forall|i: int, j: int| 0 <= i < j < beam.len() implies rank(
        away(after, metric, query, #[trigger] beam[i]),
    ) <= rank(away(after, metric, query, #[trigger] beam[j])) by {
        assert(ordered(kept[i], kept[j]));
    }
    assert forall|i: int| 0 <= i < beam.len() implies (#[trigger] beam[i]) < node && within_reach(
        before,
        level,
        seq![start],
        beam[i],
    ) by {
        assert(kept[i].node_id == beam[i]);
        assert(holds(kept, beam[i]));
    }
    assert forall|x: u32| #[trigger] seen.contains(x) implies listed_or_beaten(
        after,
        metric,
        query,
        beam,
        width,
        x,
    ) by {
        if holds(kept, x) {
            let q = choose|q: int| 0 <= q < kept.len() && (#[trigger] kept[q]).node_id == x;
            assert(beam[q] == x);
        } else {
            assert forall|i: int| 0 <= i < beam.len() implies rank(
                away(after, metric, query, #[trigger] beam[i]),
            ) <= rank(away(after, metric, query, x)) by {
                assert(kept[i].rank() <= rank(away(before, metric, query, x)));
            }
        }
    }
    assert(seq![start][0] == start);
    assert(seen.contains(seq![start][0]));
    assert forall|i: int, j: int|
        0 <= i < beam.len() && 0 <= j < before.links_at(
            beam[i],
            level,
        ).len() implies listed_or_beaten(
        after,
        metric,
        query,
        beam,
        width,
        #[trigger] before.links_at(beam[i], level)[j],
    ) by {
        assert(kept[i].node_id == beam[i]);
        assert(holds(kept, beam[i]));
        assert(seen.contains(before.links_at(beam[i], level)[j]));
    }
}

proof fn lemma_joins_back<S: GraphStore, M: Fn(&[u32], &[u32]) -> u32>(
    store: S,
    metric: M,
    id: u32,
    node: u32,
    most: nat,
    before: Seq<u32>,
    after: Seq<u32>,
)
    requires
        id < node < store.node_count(),
        forall|i: int| 0 <= i < before.len() ==> #[trigger] before[i] < node,
        rejoined(
            pair_fn(store, metric),
            before,
            node,
            most,
            distance_fn(store, metric, store.vector_at(id)),
            after,
        ),
    ensures
        joins_back(store, metric, id, node, most, before, after),
        forall|i: int|
            0 <= i < after.len() ==> (#[trigger] after[i]) == node || before.contains(after[i]),
{
    reveal(joins_back);
    let query = store.vector_at(id);
    let d = distance_fn(store, metric, query);
    let pair = pair_fn(store, metric);
    let all = before.push(node);
    if before.len() >= most {
        let c = measured(all, d);
        let p = choose|p: Seq<Candidate>|
            {
                &&& #[trigger] p.to_multiset() == c.to_multiset()
                &&& sorted(p)
                &&& after == diverse(pair, p, most)
            };
        lemma_same_candidates(p, c);
        let nodes = ids(p);
        assert forall|i: int| 0 <= i < p.len() implies ((#[trigger] p[i]).node_id == node
            || before.contains(p[i].node_id)) && p[i].node_id <= node && p[i].distance == away(
            store,
            metric,
            query,
            p[i].node_id,
        ) by {
            assert(c.contains(p[i]));
            let q = choose|q: int| 0 <= q < c.len() && c[q] == p[i];
            assert(all[q] == p[i].node_id);
            if q < before.len() {
                assert(before[q] == p[i].node_id);
            }
        }
        assert forall|i: int| 0 <= i < all.len() implies nodes.contains(#[trigger] all[i]) by {
            assert(p.contains(c[i]));
            let q = choose|q: int| 0 <= q < p.len() && p[q] == c[i];
            assert(nodes[q] == all[i]);
        }
        assert(all[before.len() as int] == node);
        assert forall|i: int| 0 <= i < before.len() implies nodes.contains(#[trigger] before[i]) by {
            assert(all[i] == before[i]);
        }
        assert forall|i: int| 0 <= i < nodes.len() implies (#[trigger] nodes[i]) == node
            || before.contains(nodes[i]) by {
            assert(p[i].node_id == nodes[i]);
        }
        assert forall|i: int, j: int| 0 <= i < j < nodes.len() implies rank(
            away(store, metric, query, #[trigger] nodes[i]),
        ) <= rank(away(store, metric, query, #[trigger] nodes[j])) by {
            assert(ordered(p[i], p[j]));
        }
        lemma_spread_choice(store, metric, query, p, most);
        assert forall|i: int| 0 <= i < after.len() implies (#[trigger] after[i]) == node
            || before.contains(after[i]) by {
            let (k, at) = choose|k: int, at: Seq<int>| #[trigger]
                spread_out(store, metric, query, nodes, most, after, k, at);
            assert(0 <= at[i] < nodes.len());
            assert(after[i] == nodes[at[i]]);
        }
    } else {
        assert forall|i: int| 0 <= i < after.len() implies (#[trigger] after[i]) == node
            || before.contains(after[i]) by {
            if i < before.len() {
                assert(before[i] == after[i]);
            }
        }
    }
}

proof fn lemma_one_joined<S: GraphStore, M: Fn(&[u32], &[u32]) -> u32>(
    before: S,
    after: S,
    metric: M,
    node: u32,
    level: u8,
    params: HNSWParams,
    start: u32,
    next: u32,
    chosen: Seq<u32>,
    n: u32,
)
    requires
        n < node < before.node_count(),
        links_below(before, level, node as nat),
        level_joined(before, after, metric, node, level, params, start, next, chosen),
        after.node_count() == before.node_count(),
        forall|i: u32|
            i < before.node_count() ==> #[trigger] after.vector_at(i) == before.vector_at(i),
    ensures
        chosen.contains(n) ==> joins_back(
            after,
            metric,
            n,
            node,
            params.links(level),
            before.links_at(n, level),
            after.links_at(n, level),
        ),
        !chosen.contains(n) ==> after.links_at(n, level) == before.links_at(n, level),
        forall|j: int|
            0 <= j < after.links_at(n, level).len() ==> (#[trigger] after.links_at(n, level)[j])
                <= node,
{
    let list = before.links_at(n, level);
    assert forall|i: int| 0 <= i < list.len() implies #[trigger] list[i] < node by {
        assert(before.links_at(n, level)[i] < node as nat);
    }
    let list_after = after.links_at(n, level);
    if chosen.contains(n) {
        assert(distance_fn(after, metric, after.vector_at(n)) =~= distance_fn(
            before,
            metric,
            before.vector_at(n),
        ));
        assert(pair_fn(after, metric) =~= pair_fn(before, metric)) by {
            assert forall|a: u32, b: u32| #[trigger] pair_fn(after, metric)(a, b) == pair_fn(
                before,
                metric,
            )(a, b) by {}
        }
        lemma_joins_back(after, metric, n, node, params.links(level), list, list_after);
    }
}

proof fn lemma_joined_beam<S: GraphStore, M: Fn(&[u32], &[u32]) -> u32>(
    before: S,
    after: S,
    metric: M,
    node: u32,
    level: u8,
    params: HNSWParams,
    start: u32,
    next: u32,
    chosen: Seq<u32>,
) -> (beam: Seq<u32>)
    requires
        node < before.node_count(),
        links_below(before, level, node as nat),
        start < node,
        level_joined(before, after, metric, node, level, params, start, next, chosen),
        after.node_count() == before.node_count(),
        forall|i: u32|
            i < before.node_count() ==> #[trigger] after.vector_at(i) == before.vector_at(i),
    ensures
        good_beam(
            before,
            after,
            metric,
            after.vector_at(node),
            node,
            level,
            start,
            beam_width(params, level),
            beam,
        ),
        next == beam[0],
        next < node,
        spread_choice(
            after,
            metric,
            after.vector_at(node),
            beam,
            params.links(level),
            chosen,
        ),
        forall|i: int| 0 <= i < chosen.len() ==> #[trigger] chosen[i] < node,
{
    let query = before.vector_at(node);
    let d = distance_fn(before, metric, query);
    let width = beam_width(params, level);
    let most = params.links(level);
    let pair = pair_fn(before, metric);
    let (seen, kept) = choose|seen: Set<u32>, kept: Seq<Candidate>|
        {
            &&& #[trigger] beam_outcome(
                link_fn(before, level),
                d,
                seq![start],
                width,
                false,
                true,
                seen,
                kept,
            )
            &&& kept.len() > 0
            &&& next == kept[0].node_id
            &&& chosen == diverse(pair, kept, most)
        };
    lemma_good_beam(
        before,
        after,
        metric,
        query,
        node,
        level,
        start,
        width,
        seen,
        kept,
    );
    assert(pair_fn(after, metric) =~= pair) by {
        assert forall|a: u32, b: u32| #[trigger] pair_fn(after, metric)(a, b) == pair(a, b) by {}
    }
    lemma_spread_choice(after, metric, query, kept, most);
    let beam = ids(kept);
    assert(beam[0] == next);
    assert forall|i: int| 0 <= i < chosen.len() implies #[trigger] chosen[i] < node by {
        if beam.len() <= most {
            assert(chosen[i] == beam[i]);
        } else {
            let (k, at) = choose|k: int, at: Seq<int>| #[trigger]
                spread_out(after, metric, query, beam, most, chosen, k, at);
            assert(0 <= at[i] < beam.len());
            assert(chosen[i] == beam[at[i]]);
        }
    }
    beam
}

proof fn lemma_level_joined<S: GraphStore, M: Fn(&[u32], &[u32]) -> u32>(
    before: S,
    after: S,
    metric: M,
    node: u32,
    level: u8,
    params: HNSWParams,
    start: u32,
    next: u32,
    chosen: Seq<u32>,
)
    requires
        node < before.node_count(),
        links_below(before, level, node as nat),
        start < node,
        level_joined(before, after, metric, node, level, params, start, next, chosen),
        after.node_count() == before.node_count(),
        forall|i: u32|
            i < before.node_count() ==> #[trigger] after.vector_at(i) == before.vector_at(i),
    ensures
        well_joined(before, after, metric, node, level, params, start, next),
        next < node,
        links_below(after, level, node as nat + 1),
        forall|id: u32|
            node < id < before.node_count() ==> #[trigger] after.links_at(id, level)
                == before.links_at(id, level),
{
    let most = most_links(params, level);
    assert(most == params.links(level));
    let beam = lemma_joined_beam(
        before,
        after,
        metric,
        node,
        level,
        params,
        start,
        next,
        chosen,
    );
    assert forall|n: u32| n < node implies if chosen.contains(n) {
        joins_back(
            after,
            metric,
            n,
            node,
            most,
            before.links_at(n, level),
            #[trigger] after.links_at(n, level),
        )
    } else {
        after.links_at(n, level) == before.links_at(n, level)
    } by {
        lemma_one_joined(before, after, metric, node, level, params, start, next, chosen, n);
    }
    assert forall|n: u32, j: int|
        n < node && 0 <= j < after.links_at(n, level).len() implies (#[trigger] after.links_at(
        n,
        level,
    )[j]) <= node by {
        lemma_one_joined(before, after, metric, node, level, params, start, next, chosen, n);
    }
    let width = searched_width(params, level);
    assert(width == beam_width(params, level));
    assert(chosen_from(before, after, metric, node, level, start, next, width, most, beam));
    assert(others_join(before, after, metric, node, level, most));
    assert(well_joined(before, after, metric, node, level, params, start, next));
    assert forall|id: u32, j: int|
        id < node as nat + 1 && 0 <= j < after.links_at(id, level).len() implies (
    #[trigger] after.links_at(id, level)[j]) < node as nat + 1 by {
        if id == node {
            assert(chosen[j] < node);
        }
    }
    assert forall|id: u32| node < id < before.node_count() implies #[trigger] after.links_at(
        id,
        level,
    ) == before.links_at(id, level) by {
        if chosen.contains(id) {
            let i = choose|i: int| 0 <= i < chosen.len() && chosen[i] == id;
            assert(chosen[i] < node);
        }
    }
}

/// A node among those before it is joined to them on all its levels, coming from
/// the first of them that reaches highest; no other level changes.
pub open spec fn joined_in<S: GraphStore, M: Fn(&[u32], &[u32]) -> u32>(
    before: S,
    after: S,
    metric: M,
    params: HNSWParams,
    levels: Seq<u8>,
    i: int,
    trail: Seq<u32>,
    starts: Map<int, u32>,
) -> bool {
    let node = i as u32;
    let top = levels[i];
    let high = before.level_at(trail[0]);
    &&& first_highest(levels, i, trail[0])
    &&& trail.len() == (if high > top { high - top + 1 } else { 1 })
    &&& forall|l: u8|
        top < l <= high ==> #[trigger] stepped(
            before,
            metric,
            before.vector_at(node),
            l,
            trail[high - l],
            trail[high - l + 1],
        )
    &&& starts[top as int] == trail.last()
    &&& forall|l: u8|
        l <= top ==> #[trigger] well_joined(
            before,
            after,
            metric,
            node,
            l,
            params,
            starts[l as int],
            starts[l - 1],
        )
    &&& forall|id: u32, l: u8|
        id < before.node_count() && l > top ==> #[trigger] after.links_at(id, l)
            == before.links_at(id, l)
}

proof fn lemma_stepped<S: GraphStore, M: Fn(&[u32], &[u32]) -> u32>(
    store: S,
    metric: M,
    query: Seq<u32>,
    node: u32,
    level: u8,
    from: u32,
    to: u32,
)
    requires
        node < store.node_count(),
        links_below(store, level, node as nat),
        from < node,
        beam_step(store, metric, query, level, from, to),
    ensures
        stepped(store, metric, query, level, from, to),
        to < node,
{
    let (seen, kept) = choose|seen: Set<u32>, kept: Seq<Candidate>|
        {
            &&& #[trigger] beam_outcome(
                link_fn(store, level),
                distance_fn(store, metric, query),
                seq![from],
                1,
                false,
                true,
                seen,
                kept,
            )
            &&& kept.len() > 0
            &&& to == kept[0].node_id
        };
    lemma_good_beam(store, store, metric, query, node, level, from, 1, seen, kept);
    let beam = ids(kept);
    assert(beam.len() == 1 && beam[0] == to);
    assert forall|x: u32| #[trigger]
        listed_or_beaten(store, metric, query, beam, 1, x) implies rank(
        away(store, metric, query, to),
    ) <= rank(away(store, metric, query, x)) by {}
    assert(listed_or_beaten(store, metric, query, beam, 1, from));
    assert forall|j: int| 0 <= j < store.links_at(to, level).len() implies rank(
        away(store, metric, query, to),
    ) <= rank(away(store, metric, query, #[trigger] store.links_at(to, level)[j])) by {
        assert(listed_or_beaten(
            store,
            metric,
            query,
            beam,
            1,
            store.links_at(beam[0], level)[j],
        ));
    }
}

proof fn lemma_trail_below<S: GraphStore, M: Fn(&[u32], &[u32]) -> u32>(
    store: S,
    metric: M,
    query: Seq<u32>,
    node: u32,
    high: u8,
    top: u8,
    trail: Seq<u32>,
    i: int,
)
    requires
        node < store.node_count(),
        forall|l: u8| #[trigger] links_below(store, l, node as nat),
        beam_trail(store, metric, query, high, top, trail),
        trail[0] < node,
        0 <= i < trail.len(),
    ensures
        trail[i] < node,
        i > 0 ==> stepped(store, metric, query, (high - (i - 1)) as u8, trail[i - 1], trail[i]),
    decreases i,
{
    if i > 0 {
        lemma_trail_below(store, metric, query, node, high, top, trail, i - 1);
        let level = (high - (i - 1)) as u8;
        assert(beam_step(
            store,
            metric,
            query,
            (high - (i - 1)) as u8,
            trail[i - 1],
            trail[i - 1 + 1],
        ));
        assert(links_below(store, level, node as nat));
        lemma_stepped(store, metric, query, node, level, trail[i - 1], trail[i]);
    }
}

proof fn lemma_levels_joined<S: GraphStore, M: Fn(&[u32], &[u32]) -> u32>(
    before: S,
    after: S,
    metric: M,
    node: u32,
    top: u8,
    params: HNSWParams,
    starts: Map<int, u32>,
    chosen: Map<int, Seq<u32>>,
    level: u8,
)
    requires
        node < before.node_count(),
        forall|l: u8| #[trigger] links_below(before, l, node as nat),
        starts[top as int] < node,
        node_joined(before, after, metric, node, top, params, starts, chosen),
        level <= top,
    ensures
        starts[level as int] < node,
        starts[level - 1] < node,
        well_joined(
            before,
            after,
            metric,
            node,
            level,
            params,
            starts[level as int],
            starts[level - 1],
        ),
        links_below(after, level, node as nat + 1),
        forall|id: u32|
            node < id < before.node_count() ==> #[trigger] after.links_at(id, level)
                == before.links_at(id, level),
    decreases top - level,
{
    if level < top {
        lemma_levels_joined(
            before,
            after,
            metric,
            node,
            top,
            params,
            starts,
            chosen,
            (level + 1) as u8,
        );
    }
    assert(links_below(before, level, node as nat));
    assert(level_joined(
        before,
        after,
        metric,
        node,
        level,
        params,
        starts[level as int],
        starts[level - 1],
        chosen[level as int],
    ));
    lemma_level_joined(
        before,
        after,
        metric,
        node,
        level,
        params,
        starts[level as int],
        starts[level - 1],
        chosen[level as int],
    );
}

proof fn lemma_joined_in<S: GraphStore, M: Fn(&[u32], &[u32]) -> u32>(
    before: S,
    after: S,
    metric: M,
    params: HNSWParams,
    vectors: Seq<&[u32]>,
    levels: Seq<u8>,
    i: int,
) -> (r: (Seq<u32>, Map<int, u32>))
    requires
        1 <= i < vectors.len() <= u32::MAX + 1,
        levels.len() == vectors.len(),
        linked_up_to(before, vectors, levels, i),
        step_joined(
            before,
            after,
            metric,
            i as u32,
            levels[i],
            entry_after(levels, (i - 1) as nat),
            params,
        ),
    ensures
        linked_up_to(after, vectors, levels, i + 1),
        joined_in(before, after, metric, params, levels, i, r.0, r.1),
{
    let node = i as u32;
    let top = levels[i];
    let entry = entry_after(levels, (i - 1) as nat);
    law_entry_is_first_highest(levels, (i - 1) as nat);
    let query = before.vector_at(node);
    let (trail, starts, chosen) = choose|
        trail: Seq<u32>,
        starts: Map<int, u32>,
        chosen: Map<int, Seq<u32>>,
    |
        {
            &&& #[trigger] beam_trail(before, metric, query, before.level_at(entry), top, trail)
            &&& trail[0] == entry
            &&& starts[top as int] == trail.last()
            &&& #[trigger] node_joined(before, after, metric, node, top, params, starts, chosen)
        };
    let high = before.level_at(entry);
    lemma_trail_below(before, metric, query, node, high, top, trail, trail.len() - 1);
    assert forall|l: u8| top < l <= high implies #[trigger] stepped(
        before,
        metric,
        query,
        l,
        trail[high - l],
        trail[high - l + 1],
    ) by {
        lemma_trail_below(before, metric, query, node, high, top, trail, high - l + 1);
    }
    assert forall|l: u8| l <= top implies #[trigger] well_joined(
        before,
        after,
        metric,
        node,
        l,
        params,
        starts[l as int],
        starts[l - 1],
    ) by {
        lemma_levels_joined(before, after, metric, node, top, params, starts, chosen, l);
    }
    assert forall|id: u32, l: u8|
        i + 1 <= id < after.node_count() implies #[trigger] after.links_at(id, l) == Seq::<
        u32,
    >::empty() by {
        assert(before.links_at(id, l) == Seq::<u32>::empty());
        if l <= top {
            lemma_levels_joined(before, after, metric, node, top, params, starts, chosen, l);
        }
    }
    assert forall|l: u8| #[trigger] links_below(after, l, (i + 1) as nat) by {
        if l <= top {
            lemma_levels_joined(before, after, metric, node, top, params, starts, chosen, l);
        } else {
            assert(links_below(before, l, i as nat));
            assert forall|id: u32, j: int|
                id < i + 1 && 0 <= j < after.links_at(id, l).len() implies (
            #[trigger] after.links_at(id, l)[j]) < i + 1 by {
                assert(after.links_at(id, l) == before.links_at(id, l));
                if id < i {
                    assert(before.links_at(id, l)[j] < i as nat);
                } else {
                    assert(before.links_at(id, l) == Seq::<u32>::empty());
                }
            }
        }
    }
    (trail, starts)
}

/// One of several steps joins a node to those before it.
pub open spec fn joined_by<S: GraphStore, M: Fn(&[u32], &[u32]) -> u32>(
    steps: Seq<S>,
    metric: M,
    params: HNSWParams,
    levels: Seq<u8>,
    i: int,
) -> bool {
    exists|trail: Seq<u32>, starts: Map<int, u32>| #[trigger]
        joined_in(steps[i - 1], steps[i], metric, params, levels, i, trail, starts)
}

proof fn lemma_sequence<S: GraphStore, M: Fn(&[u32], &[u32]) -> u32>(
    steps: Seq<S>,
    metric: M,
    params: HNSWParams,
    vectors: Seq<&[u32]>,
    levels: Seq<u8>,
    i: int,
)
    requires
        sequence_built(steps, metric, params, vectors, levels),
        vectors.len() <= u32::MAX + 1,
        levels.len() == vectors.len(),
        0 <= i < steps.len(),
    ensures
        linked_up_to(steps[i], vectors, levels, i + 1),
        i > 0 ==> joined_by(steps, metric, params, levels, i),
    decreases i,
{
    if i == 0 {
        assert forall|l: u8| #[trigger] links_below(steps[0], l, 1) by {
            assert(steps[0].links_at(0, l) == Seq::<u32>::empty());
        }
    } else {
        lemma_sequence(steps, metric, params, vectors, levels, i - 1);
        assert(step_joined(
            steps[i - 1],
            steps[i],
            metric,
            i as u32,
            levels[i],
            entry_after(levels, (i - 1) as nat),
            params,
        ));
        let _ = lemma_joined_in(steps[i - 1], steps[i], metric, params, vectors, levels, i);
    }
}

/// One state of the generator follows another: this is changed by itself shifted
/// by 13 bits to the left, what comes out by itself shifted by 7 bits to the
/// right, and that by itself shifted by 17 bits to the left.
pub open spec fn state_follows(x: u64, y: u64) -> bool {
    exists|a: u64, b: u64|
        #![trigger x ^ a, a ^ b, b ^ y]
        x ^ a == x << 13u64 && a ^ b == a >> 7u64 && b ^ y == b << 17u64
}

/// The states of the generator after a seed follow one another.
pub proof fn law_generator(seed: u64, n: nat) -> (states: Seq<u64>)
    ensures
        states.len() == n + 1,
        states[0] == seed,
        forall|i: int|
            0 <= i <= n ==> #[trigger] states[i] == xorshift_after(seed, i as nat),
        forall|i: int| 0 < i <= n ==> state_follows(states[i - 1], #[trigger] states[i]),
{
    let states = Seq::new(n + 1, |i: int| xorshift_after(seed, i as nat));
    assert forall|i: int| 0 < i <= n implies state_follows(states[i - 1], #[trigger] states[i]) by {
        let x = states[i - 1];
        let a = x ^ (x << 13);
        let b = a ^ (a >> 7);
        let y = b ^ (b << 17);
        assert(x ^ (x ^ (x << 13u64)) == x << 13u64) by (bit_vector);
        assert(a ^ (a ^ (a >> 7u64)) == a >> 7u64) by (bit_vector);
        assert(b ^ (b ^ (b << 17u64)) == b << 17u64) by (bit_vector);
        assert(states[i] == y);
        assert(x ^ a == x << 13u64 && a ^ b == a >> 7u64 && b ^ y == b << 17u64);
    }
    states
}

/// The level of each node is what the source makes of the next state of the
/// generator, but no more than the highest that is allowed.
pub proof fn law_levels_in_sequence<L: Fn(u64) -> u8>(
    source: L,
    seed: u64,
    max_level: u8,
    n: nat,
) -> (states: Seq<u64>)
    requires
        wide_source_ok(source),
    ensures
        states.len() == n + 1,
        states[0] == seed,
        forall|i: int| 0 < i <= n ==> state_follows(states[i - 1], #[trigger] states[i]),
        wide_levels(source, seed, max_level, n).len() == n,
        forall|i: int, level: u8|
            0 <= i < n && #[trigger] call_ensures(source, (states[i + 1],), level)
                ==> #[trigger] wide_levels(source, seed, max_level, n)[i] == (if level
                <= max_level {
                level
            } else {
                max_level
            }),
{
    let states = law_generator(seed, n);
    assert forall|i: int, level: u8|
        0 <= i < n && #[trigger] call_ensures(
            source,
            (states[i + 1],),
            level,
        ) implies #[trigger] wide_levels(source, seed, max_level, n)[i] == (if level <= max_level {
        level
    } else {
        max_level
    }) by {
        let x = states[i + 1];
        let raw = choose|r: u8| call_ensures(source, (x,), r);
        assert(raw == level);
    }
    states
}

/// An index that was built node after node holds the vectors in their order,
/// each under its number, with levels no higher than the parameters allow. The
/// node it is entered by is the first that reaches highest. The nodes were
/// joined one after the other, each to those before it.
pub proof fn law_sequence_is_joined<M: Fn(&[u32], &[u32]) -> u32, L: Fn(u64) -> u8>(
    empty: HNSWIndex<NodeStorage>,
    metric: M,
    level_source: L,
    vectors: Seq<&[u32]>,
    index: HNSWIndex<NodeStorage>,
) -> (r: (Seq<u8>, Seq<NodeStorage>))
    requires
        0 < vectors.len() <= u32::MAX + 1,
        sequentially_built(empty, metric, level_source, vectors, index),
    ensures
        r.0.len() == vectors.len(),
        forall|i: int| 0 <= i < r.0.len() ==> #[trigger] r.0[i] <= empty.params.max_level,
        index.storage.node_count() == vectors.len(),
        forall|i: u32|
            i < vectors.len() ==> #[trigger] index.storage.vector_at(i) == vectors[i as int]@,
        forall|i: u32|
            i < vectors.len() ==> #[trigger] index.storage.level_at(i) == r.0[i as int],
        forall|i: u32| i < vectors.len() ==> #[trigger] index.storage.slot_at(i) == i,
        index.entry_point is Some,
        first_highest(r.0, vectors.len() as int, index.entry_point->0),
        r.1.len() == vectors.len(),
        r.1.last() == index.storage,
        forall|id: u32, l: u8|
            id < vectors.len() ==> #[trigger] r.1[0].links_at(id, l) == Seq::<u32>::empty(),
        forall|i: int|
            1 <= i < r.1.len() ==> #[trigger] joined_by(r.1, metric, empty.params, r.0, i),
{
    let levels = wide_levels(
        level_source,
        empty.rng_state,
        empty.params.max_level,
        vectors.len(),
    );
    law_entry_is_first_highest(levels, (vectors.len() - 1) as nat);
    let steps = choose|steps: Seq<NodeStorage>|
        {
            &&& #[trigger] sequence_built(steps, metric, empty.params, vectors, levels)
            &&& steps.last() == index.storage
        };
    assert forall|i: int| 1 <= i < steps.len() implies #[trigger] joined_by(
        steps,
        metric,
        empty.params,
        levels,
        i,
    ) by {
        lemma_sequence(steps, metric, empty.params, vectors, levels, i);
    }
    (levels, steps)
}

} // verus!
