//! Construction of an index by one builder, node after node.
//!
//! Neighbours are chosen for diversity: a candidate that is nearer to a chosen
//! neighbour than to the node itself is passed over, unless there is room left
//! in the end.

use vstd::prelude::*;

use super::insert::{at_most, ids, measured, sort_candidates};
use super::parallel::{
    acceptable, entry_after, holds_nodes, rejection, unlinked_from,
};
use super::{shape_fits, HNSWIndex};
use crate::candidates::{sorted, CandidateQueue};
use crate::distance::{finite_vector, float_lt, less, metric_ok};
use crate::error::{HNSWError, Result};
use crate::graph::{
    beam_outcome, beam_search, distance_fn, distance_to, distinct, holds, link_fn, links_below,
    links_valid, no_gain, same_nodes, GraphStore,
};
use crate::node_storage::compress::laid_out;
use crate::node_storage::quantization::{Coder, TRAINING_VECTORS};
use crate::node_storage::rabitq::norm_ok;
use crate::node_storage::{node_params_fit, NodeStorage};
use crate::types::{Candidate, HNSWParams, Metric};

verus! {

// ---------------------------------------------------------------------------
// Choice of neighbours
// ---------------------------------------------------------------------------

/// The distances between nodes.
pub open spec fn pair_fn<S: GraphStore, M: Fn(&[u32], &[u32]) -> u32>(store: S, metric: M) -> spec_fn(
    u32,
    u32,
) -> u32 {
    |a: u32, b: u32|
        if a < store.node_count() {
            distance_fn(store, metric, store.vector_at(a))(b)
        } else {
            0
        }
}

/// A chosen node is nearer to the candidate than the node that chooses.
pub open spec fn crowded(pair: spec_fn(u32, u32) -> u32, chosen: Seq<u32>, c: Candidate) -> bool {
    exists|i: int|
        0 <= i < chosen.len() && float_lt(pair(c.node_id, #[trigger] chosen[i]), c.distance)
}

/// The candidates that are chosen for diversity, no more than `m`, and those
/// that are passed over.
pub open spec fn diverse_split(
    pair: spec_fn(u32, u32) -> u32,
    candidates: Seq<Candidate>,
    m: nat,
) -> (Seq<u32>, Seq<u32>)
    decreases candidates.len(),
{
    if candidates.len() == 0 {
        (Seq::empty(), Seq::empty())
    } else {
        let (chosen, rest) = diverse_split(pair, candidates.drop_last(), m);
        let c = candidates.last();
        if chosen.len() >= m || crowded(pair, chosen, c) {
            (chosen, rest.push(c.node_id))
        } else {
            (chosen.push(c.node_id), rest)
        }
    }
}

/// The neighbours chosen from candidates: all if there are no more than `m`,
/// else those chosen for diversity, and as many of those passed over as there
/// is room for.
pub open spec fn diverse(
    pair: spec_fn(u32, u32) -> u32,
    candidates: Seq<Candidate>,
    m: nat,
) -> Seq<u32> {
    if candidates.len() <= m {
        ids(candidates)
    } else {
        let (chosen, rest) = diverse_split(pair, candidates, m);
        chosen + at_most(rest, (m - chosen.len()) as nat)
    }
}

proof fn lemma_split(pair: spec_fn(u32, u32) -> u32, candidates: Seq<Candidate>, m: nat)
    ensures
        ({
            let (chosen, rest) = diverse_split(pair, candidates, m);
            &&& chosen.len() <= m
            &&& chosen.len() + rest.len() == candidates.len()
            &&& forall|i: int| 0 <= i < chosen.len() ==> holds(candidates, #[trigger] chosen[i])
            &&& forall|i: int| 0 <= i < rest.len() ==> holds(candidates, #[trigger] rest[i])
            &&& distinct(candidates) ==> (chosen + rest).no_duplicates()
        }),
    decreases candidates.len(),
{
    if candidates.len() > 0 {
        let front = candidates.drop_last();
        let c = candidates.last();
        let n = candidates.len() - 1;
        lemma_split(pair, front, m);
        let (a, b) = diverse_split(pair, front, m);
        let (chosen, rest) = diverse_split(pair, candidates, m);
        assert forall|id: u32| #[trigger] holds(front, id) implies holds(candidates, id) by {
            let j = choose|j: int| 0 <= j < front.len() && (#[trigger] front[j]).node_id == id;
            assert(candidates[j].node_id == id);
        }
        assert(holds(candidates, c.node_id)) by {
            assert(candidates[n].node_id == c.node_id);
        }
        assert forall|i: int| 0 <= i < chosen.len() implies holds(
            candidates,
            #[trigger] chosen[i],
        ) by {
            if i < a.len() {
                assert(holds(front, a[i]));
            }
        }
        assert forall|i: int| 0 <= i < rest.len() implies holds(candidates, #[trigger] rest[i]) by {
            if i < b.len() {
                assert(holds(front, b[i]));
            }
        }
        if distinct(candidates) {
            assert(distinct(front)) by {
                assert forall|i: int, j: int|
                    0 <= i < front.len() && 0 <= j < front.len() && i != j implies (#[trigger] front[i]).node_id
                    != (#[trigger] front[j]).node_id by {
                    assert(candidates[i].node_id != candidates[j].node_id);
                }
            }
            assert(!holds(front, c.node_id)) by {
                if holds(front, c.node_id) {
                    let j = choose|j: int|
                        0 <= j < front.len() && (#[trigger] front[j]).node_id == c.node_id;
                    assert(candidates[j].node_id != candidates[n].node_id);
                }
            }
            let before = a + b;
            let after = chosen + rest;
            assert forall|i: int| 0 <= i < before.len() implies #[trigger] before[i]
                != c.node_id by {
                if i < a.len() {
                    assert(before[i] == a[i]);
                    assert(holds(front, a[i]));
                } else {
                    assert(before[i] == b[i - a.len()]);
                    assert(holds(front, b[i - a.len()]));
                }
            }
            if chosen == a {
                assert(after =~= before.push(c.node_id));
            } else {
                assert(after =~= before.insert(a.len() as int, c.node_id));
            }
            assert forall|i: int, j: int|
                0 <= i < after.len() && 0 <= j < after.len() && i != j implies after[i]
                != after[j] by {
                let at = if chosen == a { before.len() as int } else { a.len() as int };
                let bi = if i < at { i } else { i - 1 };
                let bj = if j < at { j } else { j - 1 };
                if i != at && j != at {
                    assert(after[i] == before[bi]);
                    assert(after[j] == before[bj]);
                } else if i == at {
                    assert(after[j] == before[bj]);
                } else {
                    assert(after[i] == before[bi]);
                }
            }
        }
    }
}

/// Neighbours are chosen among the candidates, no more than `m`, and no fewer
/// unless there are no more candidates; none is chosen twice.
pub proof fn law_diverse(pair: spec_fn(u32, u32) -> u32, candidates: Seq<Candidate>, m: nat)
    ensures
        diverse(pair, candidates, m).len() == (if candidates.len() <= m {
            candidates.len()
        } else {
            m
        }),
        forall|i: int|
            0 <= i < diverse(pair, candidates, m).len() ==> holds(
                candidates,
                #[trigger] diverse(pair, candidates, m)[i],
            ),
        distinct(candidates) ==> diverse(pair, candidates, m).no_duplicates(),
{
    let r = diverse(pair, candidates, m);
    if candidates.len() <= m {
        assert forall|i: int| 0 <= i < r.len() implies holds(candidates, #[trigger] r[i]) by {
            assert(candidates[i].node_id == r[i]);
        }
        if distinct(candidates) {
            assert forall|i: int, j: int|
                0 <= i < r.len() && 0 <= j < r.len() && i != j implies r[i] != r[j] by {
                assert(candidates[i].node_id != candidates[j].node_id);
            }
        }
    } else {
        lemma_split(pair, candidates, m);
        let (chosen, rest) = diverse_split(pair, candidates, m);
        let more = at_most(rest, (m - chosen.len()) as nat);
        let all = chosen + rest;
        assert forall|i: int| 0 <= i < r.len() implies #[trigger] r[i] == all[i] by {}
        assert forall|i: int| 0 <= i < r.len() implies holds(candidates, #[trigger] r[i]) by {
            if i < chosen.len() {
                assert(holds(candidates, chosen[i]));
            } else {
                assert(holds(candidates, rest[i - chosen.len()]));
            }
        }
    }
}

/// Chooses neighbours among candidates with known distances.
fn select_diverse<S: GraphStore, M: Fn(&[u32], &[u32]) -> u32>(
    store: &S,
    metric: &M,
    candidates: &Vec<Candidate>,
    m: usize,
) -> (r: Vec<u32>)
    requires
        store.store_wf(),
        metric_ok(*metric),
        forall|i: int|
            0 <= i < candidates@.len() ==> (#[trigger] candidates@[i]).node_id < store.node_count(),
    ensures
        r@ == diverse(pair_fn(*store, *metric), candidates@, m as nat),
{
    let ghost pair = pair_fn(*store, *metric);
    let ghost all = candidates@;
    let mut chosen: Vec<u32> = Vec::new();
    if candidates.len() <= m {
        let mut i: usize = 0;
        while i < candidates.len()
            invariant
                i <= all.len(),
                all == candidates@,
                chosen@ == ids(all.take(i as int)),
            decreases all.len() - i,
        {
            chosen.push(candidates[i].node_id);
            assert(chosen@ =~= ids(all.take(i + 1)));
            i += 1;
        }
        assert(all.take(i as int) =~= all);
        return chosen;
    }
    proof {
        store.lemma_store();
    }
    let mut rest: Vec<u32> = Vec::new();
    let mut i: usize = 0;
    assert(all.take(0) =~= Seq::<Candidate>::empty());
    while i < candidates.len()
        invariant
            i <= all.len(),
            all == candidates@,
            store.store_wf(),
            metric_ok(*metric),
            pair == pair_fn(*store, *metric),
            forall|j: u32| j < store.node_count() ==> #[trigger] store.vector_at(j).len()
                == store.dim(),
            forall|j: int| 0 <= j < all.len() ==> (#[trigger] all[j]).node_id < store.node_count(),
            (chosen@, rest@) == diverse_split(pair, all.take(i as int), m as nat),
            forall|j: int| 0 <= j < chosen@.len() ==> #[trigger] chosen@[j] < store.node_count(),
        decreases all.len() - i,
    {
        let c: Candidate = candidates[i];
        assert(all.take(i + 1).drop_last() =~= all.take(i as int));
        assert(all[i as int].node_id < store.node_count());
        let mut pass: bool = chosen.len() >= m;
        if !pass {
            let vector: Vec<u32> = store.vector_of(c.node_id);
            let mut k: usize = 0;
            while k < chosen.len() && !pass
                invariant
                    k <= chosen@.len(),
                    store.store_wf(),
                    metric_ok(*metric),
                    pair == pair_fn(*store, *metric),
                    c.node_id < store.node_count(),
                    vector@ == store.vector_at(c.node_id),
                    vector@.len() == store.dim(),
                    forall|j: int|
                        0 <= j < chosen@.len() ==> #[trigger] chosen@[j] < store.node_count(),
                    pass ==> crowded(pair, chosen@, c),
                    !pass ==> forall|j: int|
                        0 <= j < k ==> !float_lt(pair(c.node_id, #[trigger] chosen@[j]), c.distance),
                decreases chosen@.len() - k, !pass as int,
            {
                let dist: u32 = distance_to(store, metric, vector.as_slice(), chosen[k]);
                assert(dist == pair(c.node_id, chosen@[k as int]));
                if less(dist, c.distance) {
                    pass = true;
                } else {
                    k += 1;
                }
            }
        }
        if pass {
            rest.push(c.node_id);
        } else {
            chosen.push(c.node_id);
        }
        i += 1;
    }
    assert(all.take(i as int) =~= all);
    proof {
        lemma_split(pair, all, m as nat);
    }
    let ghost first = chosen@;
    let ghost target = first + at_most(rest@, (m - first.len()) as nat);
    let mut k: usize = 0;
    while k < rest.len() && chosen.len() < m
        invariant
            k <= rest@.len(),
            first.len() <= m,
            chosen@ == first + rest@.take(k as int),
            chosen@.len() <= m,
        decreases rest@.len() - k,
    {
        chosen.push(rest[k]);
        assert(chosen@ =~= first + rest@.take(k + 1));
        k += 1;
    }
    assert(chosen@ =~= target);
    chosen
}

// ---------------------------------------------------------------------------
// Links of a node
// ---------------------------------------------------------------------------

/// How a list takes up a link back to a new node: it is appended if there is
/// room, else neighbours are chosen anew, nearest candidates first.
pub open spec fn rejoined(
    pair: spec_fn(u32, u32) -> u32,
    before: Seq<u32>,
    node: u32,
    m: nat,
    d: spec_fn(u32) -> u32,
    after: Seq<u32>,
) -> bool {
    if before.len() < m {
        after == before.push(node)
    } else {
        exists|p: Seq<Candidate>|
            {
                &&& #[trigger] p.to_multiset() == measured(before.push(node), d).to_multiset()
                &&& sorted(p)
                &&& after == diverse(pair, p, m)
            }
    }
}

/// Beam width at a level: above level 0 at least the number of links.
pub open spec fn beam_width(params: HNSWParams, level: u8) -> nat {
    if level == 0 || params.ef_construction >= params.m {
        params.ef_construction as nat
    } else {
        params.m as nat
    }
}

/// What a new node changes at one level: its own links are chosen from what a
/// beam search from `start` keeps, the nearest of which is `next`; each chosen
/// node links back, and no other list changes.
pub open spec fn level_joined<S: GraphStore, M: Fn(&[u32], &[u32]) -> u32>(
    before: S,
    after: S,
    metric: M,
    node: u32,
    level: u8,
    params: HNSWParams,
    start: u32,
    next: u32,
    chosen: Seq<u32>,
) -> bool {
    let pair = pair_fn(before, metric);
    &&& exists|seen: Set<u32>, kept: Seq<Candidate>|
        {
            &&& #[trigger] beam_outcome(
                link_fn(before, level),
                distance_fn(before, metric, before.vector_at(node)),
                seq![start],
                beam_width(params, level),
                false,
                true,
                seen,
                kept,
            )
            &&& kept.len() > 0
            &&& next == kept[0].node_id
            &&& chosen == diverse(pair, kept, params.links(level))
        }
    &&& after.links_at(node, level) == chosen
    &&& !chosen.contains(node)
    &&& forall|id: u32|
        id < before.node_count() && id != node ==> if chosen.contains(id) {
            rejoined(
                pair,
                before.links_at(id, level),
                node,
                params.links(level),
                distance_fn(before, metric, before.vector_at(id)),
                #[trigger] after.links_at(id, level),
            )
        } else {
            after.links_at(id, level) == before.links_at(id, level)
        }
}

/// What a new node changes: on each level from its own down to 0 it is joined
/// to its neighbours, and the levels above stay as they are.
pub open spec fn node_joined<S: GraphStore, M: Fn(&[u32], &[u32]) -> u32>(
    before: S,
    after: S,
    metric: M,
    node: u32,
    top: u8,
    params: HNSWParams,
    starts: Map<int, u32>,
    chosen: Map<int, Seq<u32>>,
) -> bool {
    &&& same_nodes(before, after)
    &&& forall|id: u32, level: u8|
        id < before.node_count() && level > top ==> #[trigger] after.links_at(id, level)
            == before.links_at(id, level)
    &&& forall|level: u8|
        level <= top ==> #[trigger] level_joined(
            before,
            after,
            metric,
            node,
            level,
            params,
            starts[level as int],
            starts[level - 1],
            chosen[level as int],
        )
}

/// A beam of width one leads from one node to another.
pub open spec fn beam_step<S: GraphStore, M: Fn(&[u32], &[u32]) -> u32>(
    store: S,
    metric: M,
    query: Seq<u32>,
    level: u8,
    start: u32,
    next: u32,
) -> bool {
    exists|seen: Set<u32>, kept: Seq<Candidate>|
        {
            &&& #[trigger] beam_outcome(
                link_fn(store, level),
                distance_fn(store, metric, query),
                seq![start],
                1,
                false,
                true,
                seen,
                kept,
            )
            &&& kept.len() > 0
            &&& next == kept[0].node_id
        }
}

/// The way from the entry point down to the level of a new node, one step on
/// each level between.
pub open spec fn beam_trail<S: GraphStore, M: Fn(&[u32], &[u32]) -> u32>(
    store: S,
    metric: M,
    query: Seq<u32>,
    entry_level: u8,
    level: u8,
    trail: Seq<u32>,
) -> bool {
    &&& trail.len() == (if entry_level > level {
        entry_level - level + 1
    } else {
        1
    })
    &&& forall|i: int|
        0 <= i < trail.len() - 1 ==> #[trigger] beam_step(
            store,
            metric,
            query,
            (entry_level - i) as u8,
            trail[i],
            trail[i + 1],
        )
}

/// Searches one level from one node.
fn search_layer<S: GraphStore, M: Fn(&[u32], &[u32]) -> u32>(
    store: &S,
    metric: &M,
    query: &[u32],
    start: u32,
    ef: usize,
    level: u8,
    limit: usize,
) -> (kept: Vec<Candidate>)
    requires
        store.store_wf(),
        limit <= store.node_count(),
        links_below(*store, level, limit as nat),
        metric_ok(*metric),
        query@.len() == store.dim(),
        start < limit,
    ensures
        kept@.len() > 0,
        sorted(kept@),
        distinct(kept@),
        forall|i: int| 0 <= i < kept@.len() ==> (#[trigger] kept@[i]).node_id < limit,
        exists|seen: Set<u32>| #[trigger]
            beam_outcome(
                link_fn(*store, level),
                distance_fn(*store, *metric, query@),
                seq![start],
                ef as nat,
                false,
                true,
                seen,
                kept@,
            ),
{
    let starts: Vec<u32> = vec![start];
    assert(starts@ =~= seq![start]);
    let queue: CandidateQueue = beam_search(
        store,
        metric,
        query,
        starts.as_slice(),
        ef,
        level,
        false,
        true,
        limit,
    );
    let ghost kept = queue@;
    proof {
        let seen = choose|seen: Set<u32>|
            {
                &&& #[trigger] beam_outcome(
                    link_fn(*store, level),
                    distance_fn(*store, *metric, query@),
                    starts@,
                    ef as nat,
                    false,
                    true,
                    seen,
                    kept,
                )
                &&& forall|id: u32| #[trigger] seen.contains(id) ==> id < limit
            };
        assert(seen.contains(starts@[0]));
        let d = distance_fn(*store, *metric, query@);
        assert(holds(kept, start) || no_gain(kept, ef as nat, false, d(start)));
        assert forall|i: int| 0 <= i < kept.len() implies (#[trigger] kept[i]).node_id < limit by {
            assert(seen.contains(kept[i].node_id));
        }
    }
    queue.into_vec()
}

/// Takes up a link back to a new node.
fn join_back<S: GraphStore, M: Fn(&[u32], &[u32]) -> u32>(
    store: &mut S,
    metric: &M,
    neighbor: u32,
    node: u32,
    level: u8,
    m: usize,
)
    requires
        old(store).store_wf(),
        metric_ok(*metric),
        neighbor < node,
        node < old(store).node_count(),
        level <= old(store).top_level(),
        m == old(store).link_cap(level),
        links_below(*old(store), level, old(store).node_count()),
        links_below(*old(store), level, node as nat + 1),
    ensures
        final(store).store_wf(),
        same_nodes(*old(store), *final(store)),
        rejoined(
            pair_fn(*old(store), *metric),
            old(store).links_at(neighbor, level),
            node,
            m as nat,
            distance_fn(*old(store), *metric, old(store).vector_at(neighbor)),
            final(store).links_at(neighbor, level),
        ),
        final(store).links_at(neighbor, level).len() <= m,
        links_below(*final(store), level, old(store).node_count()),
        links_below(*final(store), level, node as nat + 1),
        forall|n: nat| old(store).room(n) ==> #[trigger] final(store).room(n),
        forall|i: u32, l: u8|
            i < old(store).node_count() && (i != neighbor || l != level)
                ==> #[trigger] final(store).links_at(i, l) == old(store).links_at(i, l),
{
    let ghost before = *store;
    let ghost d = distance_fn(before, *metric, before.vector_at(neighbor));
    let ghost pair = pair_fn(before, *metric);
    let mut list: Vec<u32> = store.links_of(neighbor, level);
    let room: bool = list.len() < m;
    list.push(node);
    let ghost extended = list@;
    assert forall|i: int| 0 <= i < list@.len() implies #[trigger] list@[i] <= node by {
        let links = before.links_at(neighbor, level);
        if i < links.len() {
            assert(before.links_at(neighbor, level)[i] < node + 1);
        }
    }
    if room {
        store.set_links(neighbor, level, list.as_slice());
    } else {
        let vector: Vec<u32> = store.vector_of(neighbor);
        proof {
            store.lemma_store();
        }
        let mut candidates: Vec<Candidate> = Vec::new();
        let mut i: usize = 0;
        while i < list.len()
            invariant
                store.store_wf(),
                *store == before,
                metric_ok(*metric),
                vector@ == before.vector_at(neighbor),
                vector@.len() == store.dim(),
                d == distance_fn(before, *metric, before.vector_at(neighbor)),
                list@ == extended,
                i <= list@.len(),
                node < before.node_count(),
                forall|j: int| 0 <= j < list@.len() ==> #[trigger] list@[j] <= node,
                candidates@ == measured(list@.take(i as int), d),
            decreases list.len() - i,
        {
            let id: u32 = list[i];
            let dist: u32 = distance_to(store, metric, vector.as_slice(), id);
            candidates.push(Candidate::new(id, dist));
            proof {
                assert(candidates@ =~= measured(list@.take(i + 1), d));
            }
            i += 1;
        }
        assert(list@.take(i as int) =~= list@);
        let nearest_first: Vec<Candidate> = sort_candidates(candidates.as_slice());
        let ghost p = nearest_first@;
        proof {
            assert forall|k: int| 0 <= k < p.len() implies (#[trigger] p[k]).node_id <= node by {
                assert(holds(p, p[k].node_id));
                assert(holds(candidates@, p[k].node_id));
                let c = choose|c: int|
                    0 <= c < candidates@.len() && (#[trigger] candidates@[c]).node_id
                        == p[k].node_id;
                assert(candidates@[c].node_id == list@[c]);
            }
        }
        let selected: Vec<u32> = select_diverse(store, metric, &nearest_first, m);
        proof {
            law_diverse(pair, p, m as nat);
            assert forall|j: int| 0 <= j < selected@.len() implies #[trigger] selected@[j]
                <= node by {
                assert(holds(p, selected@[j]));
                let c = choose|c: int|
                    0 <= c < p.len() && (#[trigger] p[c]).node_id == selected@[j];
                assert(p[c].node_id <= node);
            }
            assert(p.to_multiset() == measured(before.links_at(neighbor, level).push(node), d).to_multiset());
        }
        store.set_links(neighbor, level, selected.as_slice());
    }
    proof {
        assert forall|id: u32, i: int|
            id < before.node_count() && 0 <= i < store.links_at(id, level).len() implies (
        #[trigger] store.links_at(id, level)[i]) < before.node_count() by {
            if id != neighbor {
                assert(before.links_at(id, level)[i] < before.node_count());
            }
        }
        assert forall|id: u32, i: int|
            id < node as nat + 1 && 0 <= i < store.links_at(id, level).len() implies (
        #[trigger] store.links_at(id, level)[i]) < node as nat + 1 by {
            if id != neighbor {
                assert(before.links_at(id, level)[i] < node as nat + 1);
            }
        }
    }
}

/// The same vectors give the same distances.
proof fn lemma_same_distances<S: GraphStore, M: Fn(&[u32], &[u32]) -> u32>(a: S, b: S, metric: M)
    requires
        same_nodes(a, b),
    ensures
        pair_fn(a, metric) == pair_fn(b, metric),
        forall|node: u32|
            node < a.node_count() ==> #[trigger] distance_fn(b, metric, b.vector_at(node))
                == distance_fn(a, metric, a.vector_at(node)),
{
    assert forall|node: u32| node < a.node_count() implies #[trigger] distance_fn(
        b,
        metric,
        b.vector_at(node),
    ) == distance_fn(a, metric, a.vector_at(node)) by {
        assert(distance_fn(b, metric, b.vector_at(node)) =~= distance_fn(
            a,
            metric,
            a.vector_at(node),
        ));
    }
    assert(pair_fn(a, metric) =~= pair_fn(b, metric)) by {
        assert forall|x: u32, y: u32| #[trigger] pair_fn(a, metric)(x, y) == pair_fn(b, metric)(
            x,
            y,
        ) by {
            if x < a.node_count() {
                assert(distance_fn(b, metric, b.vector_at(x)) == distance_fn(
                    a,
                    metric,
                    a.vector_at(x),
                ));
            }
        }
    }
}

/// Joins a new node to its neighbours at one level, and says where the search
/// of the next level starts.
fn join_level<S: GraphStore, M: Fn(&[u32], &[u32]) -> u32>(
    store: &mut S,
    metric: &M,
    node: u32,
    vector: &[u32],
    level: u8,
    params: &HNSWParams,
    start: u32,
) -> (r: (u32, Ghost<Seq<u32>>))
    requires
        old(store).store_wf(),
        metric_ok(*metric),
        shape_fits(*old(store), *params),
        node < old(store).node_count(),
        vector@ == old(store).vector_at(node),
        level <= params.max_level,
        links_below(*old(store), level, node as nat),
        links_below(*old(store), level, old(store).node_count()),
        start < node,
    ensures
        final(store).store_wf(),
        same_nodes(*old(store), *final(store)),
        shape_fits(*final(store), *params),
        links_below(*final(store), level, old(store).node_count()),
        links_below(*final(store), level, node as nat + 1),
        forall|n: nat| old(store).room(n) ==> #[trigger] final(store).room(n),
        r.0 < node,
        forall|i: int| 0 <= i < r.1@.len() ==> #[trigger] r.1@[i] < node,
        level_joined(
            *old(store),
            *final(store),
            *metric,
            node,
            level,
            *params,
            start,
            r.0,
            r.1@,
        ),
        forall|i: u32, l: u8|
            i < old(store).node_count() && l != level ==> #[trigger] final(store).links_at(i, l)
                == old(store).links_at(i, l),
{
    let ghost before = *store;
    let ghost count = store.node_count();
    let ghost pair = pair_fn(before, *metric);
    proof {
        store.lemma_store();
    }
    let ef: usize = if level == 0 || params.ef_construction >= params.m {
        params.ef_construction
    } else {
        params.m
    };
    let kept: Vec<Candidate> = search_layer(
        store,
        metric,
        vector,
        start,
        ef,
        level,
        node as usize,
    );
    let m: usize = params.m_for_level(level);
    let chosen: Vec<u32> = select_diverse(store, metric, &kept, m);
    proof {
        law_diverse(pair, kept@, m as nat);
        assert forall|i: int| 0 <= i < chosen@.len() implies #[trigger] chosen@[i] < node by {
            assert(holds(kept@, chosen@[i]));
            let j = choose|j: int|
                0 <= j < kept@.len() && (#[trigger] kept@[j]).node_id == chosen@[i];
            assert(kept@[j].node_id < node);
        }
    }
    store.set_links(node, level, chosen.as_slice());
    proof {
        assert forall|id: u32, i: int|
            id < count && 0 <= i < store.links_at(id, level).len() implies (
        #[trigger] store.links_at(id, level)[i]) < count by {
            if id != node {
                assert(before.links_at(id, level)[i] < count);
            }
        }
        assert forall|id: u32, i: int|
            id < node as nat + 1 && 0 <= i < store.links_at(id, level).len() implies (
        #[trigger] store.links_at(id, level)[i]) < node as nat + 1 by {
            if id != node {
                assert(before.links_at(id, level)[i] < node);
            }
        }
    }
    let mut k: usize = 0;
    while k < chosen.len()
        invariant
            store.store_wf(),
            metric_ok(*metric),
            shape_fits(*store, *params),
            same_nodes(before, *store),
            pair == pair_fn(before, *metric),
            forall|n: nat| before.room(n) ==> #[trigger] store.room(n),
            count == before.node_count(),
            node < count,
            level <= params.max_level,
            m == params.links(level),
            k <= chosen@.len(),
            chosen@.no_duplicates(),
            forall|i: int| 0 <= i < chosen@.len() ==> #[trigger] chosen@[i] < node,
            links_below(*store, level, count),
            links_below(*store, level, node as nat + 1),
            store.links_at(node, level) == chosen@,
            forall|j: int|
                0 <= j < k ==> rejoined(
                    pair,
                    before.links_at(#[trigger] chosen@[j], level),
                    node,
                    m as nat,
                    distance_fn(before, *metric, before.vector_at(chosen@[j])),
                    store.links_at(chosen@[j], level),
                ),
            forall|i: u32|
                i < count && i != node && !chosen@.take(k as int).contains(i)
                    ==> #[trigger] store.links_at(i, level) == before.links_at(i, level),
            forall|i: u32, l: u8|
                i < count && l != level ==> #[trigger] store.links_at(i, l) == before.links_at(
                    i,
                    l,
                ),
        decreases chosen.len() - k,
    {
        let neighbor: u32 = chosen[k];
        let ghost mid = *store;
        join_back(store, metric, neighbor, node, level, m);
        proof {
            lemma_same_distances(before, mid, *metric);
            assert(!chosen@.take(k as int).contains(neighbor)) by {
                if chosen@.take(k as int).contains(neighbor) {
                    let j = choose|j: int|
                        0 <= j < k && chosen@.take(k as int)[j] == neighbor;
                    assert(chosen@[j] == chosen@[k as int]);
                }
            }
            assert(mid.links_at(neighbor, level) == before.links_at(neighbor, level));
            assert(distance_fn(mid, *metric, mid.vector_at(neighbor)) == distance_fn(
                before,
                *metric,
                before.vector_at(neighbor),
            ));
            assert forall|j: int| 0 <= j < k + 1 implies rejoined(
                pair,
                before.links_at(#[trigger] chosen@[j], level),
                node,
                m as nat,
                distance_fn(before, *metric, before.vector_at(chosen@[j])),
                store.links_at(chosen@[j], level),
            ) by {
                if j < k {
                    assert(chosen@[j] != chosen@[k as int]);
                    assert(store.links_at(chosen@[j], level) == mid.links_at(chosen@[j], level));
                }
            }
            assert forall|i: u32|
                i < count && i != node && !chosen@.take(k + 1).contains(i) implies #[trigger] store.links_at(
                i,
                level,
            ) == before.links_at(i, level) by {
                assert(chosen@.take(k + 1)[k as int] == neighbor);
                if chosen@.take(k as int).contains(i) {
                    let j = choose|j: int| 0 <= j < k && chosen@.take(k as int)[j] == i;
                    assert(chosen@.take(k + 1)[j] == i);
                }
                assert(i != neighbor);
                assert(store.links_at(i, level) == mid.links_at(i, level));
            }
        }
        k += 1;
    }
    let next: u32 = kept[0].node_id;
    proof {
        assert(chosen@.take(k as int) =~= chosen@);
        assert(!chosen@.contains(node));
        assert forall|id: u32| id < before.node_count() && id != node implies if chosen@.contains(
            id,
        ) {
            rejoined(
                pair,
                before.links_at(id, level),
                node,
                params.links(level),
                distance_fn(before, *metric, before.vector_at(id)),
                #[trigger] store.links_at(id, level),
            )
        } else {
            store.links_at(id, level) == before.links_at(id, level)
        } by {
            if chosen@.contains(id) {
                let j = choose|j: int| 0 <= j < chosen@.len() && chosen@[j] == id;
                assert(chosen@[j] == id);
            }
        }
        let seen = choose|seen: Set<u32>| #[trigger]
            beam_outcome(
                link_fn(before, level),
                distance_fn(before, *metric, vector@),
                seq![start],
                ef as nat,
                false,
                true,
                seen,
                kept@,
            );
        assert(beam_outcome(
            link_fn(before, level),
            distance_fn(before, *metric, before.vector_at(node)),
            seq![start],
            beam_width(*params, level),
            false,
            true,
            seen,
            kept@,
        ));
    }
    (next, Ghost(chosen@))
}

/// Goes from the entry point down to the level of a new node, with a beam of
/// width one.
fn descend_by_beam<S: GraphStore, M: Fn(&[u32], &[u32]) -> u32>(
    store: &S,
    metric: &M,
    query: &[u32],
    entry: u32,
    entry_level: u8,
    level: u8,
    limit: usize,
) -> (r: (u32, Ghost<Seq<u32>>))
    requires
        store.store_wf(),
        limit <= store.node_count(),
        forall|l: u8| #[trigger] links_below(*store, l, limit as nat),
        metric_ok(*metric),
        query@.len() == store.dim(),
        entry < limit,
    ensures
        r.0 < limit,
        r.1@.len() > 0,
        r.1@[0] == entry,
        r.1@.last() == r.0,
        beam_trail(*store, *metric, query@, entry_level, level, r.1@),
{
    let mut nearest: u32 = entry;
    let ghost mut trail: Seq<u32> = seq![entry];
    let mut at: u8 = entry_level;
    while at > level
        invariant
            store.store_wf(),
            limit <= store.node_count(),
            forall|l: u8| #[trigger] links_below(*store, l, limit as nat),
            metric_ok(*metric),
            query@.len() == store.dim(),
            nearest < limit,
            at <= entry_level,
            entry_level > level ==> at >= level,
            entry_level <= level ==> at == entry_level,
            trail.len() == entry_level - at + 1,
            trail[0] == entry,
            trail.last() == nearest,
            forall|i: int|
                0 <= i < trail.len() - 1 ==> #[trigger] beam_step(
                    *store,
                    *metric,
                    query@,
                    (entry_level - i) as u8,
                    trail[i],
                    trail[i + 1],
                ),
        decreases at,
    {
        assert(links_below(*store, at, limit as nat));
        let kept: Vec<Candidate> = search_layer(store, metric, query, nearest, 1, at, limit);
        let next: u32 = kept[0].node_id;
        proof {
            assert(beam_step(*store, *metric, query@, at, nearest, next));
            let grown = trail.push(next);
            assert forall|i: int| 0 <= i < grown.len() - 1 implies #[trigger] beam_step(
                *store,
                *metric,
                query@,
                (entry_level - i) as u8,
                grown[i],
                grown[i + 1],
            ) by {
                if i < trail.len() - 1 {
                    assert(grown[i] == trail[i] && grown[i + 1] == trail[i + 1]);
                }
            }
            trail = grown;
        }
        nearest = next;
        at = at - 1;
    }
    (nearest, Ghost(trail))
}

/// Joins a new node to its neighbours on every level from its own down to 0.
/// All nodes before it are joined already.
fn join_node<S: GraphStore, M: Fn(&[u32], &[u32]) -> u32>(
    store: &mut S,
    metric: &M,
    node: u32,
    vector: &[u32],
    top: u8,
    entry: u32,
    params: &HNSWParams,
)
    requires
        old(store).store_wf(),
        metric_ok(*metric),
        shape_fits(*old(store), *params),
        node < old(store).node_count(),
        vector@ == old(store).vector_at(node),
        top <= params.max_level,
        entry < node,
        forall|level: u8| #[trigger] links_below(*old(store), level, node as nat),
        links_valid(*old(store)),
    ensures
        final(store).store_wf(),
        shape_fits(*final(store), *params),
        forall|level: u8| level <= top ==> #[trigger] links_below(
            *final(store),
            level,
            node as nat + 1,
        ),
        links_valid(*final(store)),
        forall|n: nat| old(store).room(n) ==> #[trigger] final(store).room(n),
        step_joined(*old(store), *final(store), *metric, node, top, entry, *params),
{
    let ghost before = *store;
    let ghost count = store.node_count();
    proof {
        store.lemma_store();
    }
    let entry_level: u8 = store.level_of(entry);
    let (begin, Ghost(trail)) = descend_by_beam(
        store,
        metric,
        vector,
        entry,
        entry_level,
        top,
        node as usize,
    );
    let mut start: u32 = begin;
    let ghost mut starts: Map<int, u32> = Map::empty().insert(top as int, begin);
    let ghost mut chosen: Map<int, Seq<u32>> = Map::empty();
    let mut remaining: usize = top as usize + 1;
    while remaining > 0
        invariant
            store.store_wf(),
            metric_ok(*metric),
            shape_fits(*store, *params),
            same_nodes(before, *store),
            forall|n: nat| before.room(n) ==> #[trigger] store.room(n),
            count == before.node_count(),
            node < count,
            vector@ == before.vector_at(node),
            top <= params.max_level,
            remaining <= top + 1,
            forall|level: u8| #[trigger] links_below(before, level, node as nat),
            forall|level: u8| #[trigger] links_below(*store, level, count),
            forall|level: u8| remaining <= level <= top ==> #[trigger] links_below(
                *store,
                level,
                node as nat + 1,
            ),
            start < node,
            starts[remaining - 1] == start,
            starts[top as int] == begin,
            forall|i: u32, l: u8|
                i < count && (l < remaining || l > top) ==> #[trigger] store.links_at(i, l)
                    == before.links_at(i, l),
            forall|level: u8|
                remaining <= level <= top ==> #[trigger] level_joined(
                    before,
                    *store,
                    *metric,
                    node,
                    level,
                    *params,
                    starts[level as int],
                    starts[level - 1],
                    chosen[level as int],
                ),
        decreases remaining,
    {
        let level: u8 = (remaining - 1) as u8;
        let ghost mid = *store;
        proof {
            assert(links_below(before, level, node as nat));
            assert forall|id: u32, i: int|
                id < node as nat && 0 <= i < mid.links_at(id, level).len() implies (
            #[trigger] mid.links_at(id, level)[i]) < node as nat by {
                assert(before.links_at(id, level)[i] < node as nat);
            }
            assert(links_below(mid, level, node as nat));
            assert(links_below(mid, level, count));
        }
        let (next, Ghost(own)) = join_level(store, metric, node, vector, level, params, start);
        proof {
            let starts2 = starts.insert(level - 1, next);
            let chosen2 = chosen.insert(level as int, own);
            lemma_same_distances(before, mid, *metric);
            lemma_level_carried(
                before,
                mid,
                *store,
                *metric,
                node,
                level,
                *params,
                start,
                next,
                own,
            );
            assert forall|l: u8| level <= l <= top implies #[trigger] level_joined(
                before,
                *store,
                *metric,
                node,
                l,
                *params,
                starts2[l as int],
                starts2[l - 1],
                chosen2[l as int],
            ) by {
                if l > level {
                    assert(level_joined(
                        before,
                        mid,
                        *metric,
                        node,
                        l,
                        *params,
                        starts[l as int],
                        starts[l - 1],
                        chosen[l as int],
                    ));
                    assert(starts2[l as int] == starts[l as int]);
                    assert(starts2[l - 1] == starts[l - 1]);
                    assert(chosen2[l as int] == chosen[l as int]);
                    lemma_level_kept(
                        before,
                        mid,
                        *store,
                        *metric,
                        node,
                        l,
                        *params,
                        starts[l as int],
                        starts[l - 1],
                        chosen[l as int],
                    );
                }
            }
            assert forall|l: u8| #[trigger] links_below(*store, l, count) by {
                if l != level {
                    assert(links_below(mid, l, count));
                    assert forall|id: u32, i: int|
                        id < count && 0 <= i < store.links_at(id, l).len() implies (
                    #[trigger] store.links_at(id, l)[i]) < count by {
                        assert(mid.links_at(id, l)[i] < count);
                    }
                }
            }
            assert forall|l: u8| level <= l <= top implies #[trigger] links_below(
                *store,
                l,
                node as nat + 1,
            ) by {
                if l != level {
                    assert(links_below(mid, l, node as nat + 1));
                    assert forall|id: u32, i: int|
                        id < node as nat + 1 && 0 <= i < store.links_at(id, l).len() implies (
                    #[trigger] store.links_at(id, l)[i]) < node as nat + 1 by {
                        assert(mid.links_at(id, l)[i] < node as nat + 1);
                    }
                }
            }
            starts = starts2;
            chosen = chosen2;
        }
        start = next;
        remaining = remaining - 1;
    }
    proof {
        assert(node_joined(before, *store, *metric, node, top, *params, starts, chosen));
    }
}

/// A level that was joined before another one stays so.
proof fn lemma_level_kept<S: GraphStore, M: Fn(&[u32], &[u32]) -> u32>(
    before: S,
    mid: S,
    after: S,
    metric: M,
    node: u32,
    level: u8,
    params: HNSWParams,
    start: u32,
    next: u32,
    chosen: Seq<u32>,
)
    requires
        level_joined(before, mid, metric, node, level, params, start, next, chosen),
        node < before.node_count(),
        forall|i: u32|
            i < before.node_count() ==> #[trigger] after.links_at(i, level) == mid.links_at(
                i,
                level,
            ),
    ensures
        level_joined(before, after, metric, node, level, params, start, next, chosen),
{
    let pair = pair_fn(before, metric);
    assert(after.links_at(node, level) == mid.links_at(node, level));
    assert forall|id: u32| id < before.node_count() && id != node implies if chosen.contains(id) {
        rejoined(
            pair,
            before.links_at(id, level),
            node,
            params.links(level),
            distance_fn(before, metric, before.vector_at(id)),
            #[trigger] after.links_at(id, level),
        )
    } else {
        after.links_at(id, level) == before.links_at(id, level)
    } by {
        assert(after.links_at(id, level) == mid.links_at(id, level));
    }
}

/// A level that is joined when others have been is joined as it was before.
proof fn lemma_level_carried<S: GraphStore, M: Fn(&[u32], &[u32]) -> u32>(
    before: S,
    mid: S,
    after: S,
    metric: M,
    node: u32,
    level: u8,
    params: HNSWParams,
    start: u32,
    next: u32,
    chosen: Seq<u32>,
)
    requires
        level_joined(mid, after, metric, node, level, params, start, next, chosen),
        same_nodes(before, mid),
        node < before.node_count(),
        forall|i: u32|
            i < before.node_count() ==> #[trigger] mid.links_at(i, level) == before.links_at(
                i,
                level,
            ),
    ensures
        level_joined(before, after, metric, node, level, params, start, next, chosen),
{
    lemma_same_distances(before, mid, metric);
    let pair = pair_fn(before, metric);
    assert(link_fn(mid, level) =~= link_fn(before, level));
    assert(distance_fn(mid, metric, mid.vector_at(node)) == distance_fn(
        before,
        metric,
        before.vector_at(node),
    ));
    assert forall|id: u32| id < before.node_count() && id != node implies if chosen.contains(id) {
        rejoined(
            pair,
            before.links_at(id, level),
            node,
            params.links(level),
            distance_fn(before, metric, before.vector_at(id)),
            #[trigger] after.links_at(id, level),
        )
    } else {
        after.links_at(id, level) == before.links_at(id, level)
    } by {
        assert(mid.links_at(id, level) == before.links_at(id, level));
        assert(distance_fn(mid, metric, mid.vector_at(id)) == distance_fn(
            before,
            metric,
            before.vector_at(id),
        ));
    }
}

/// One node is joined, starting from an entry point.
pub open spec fn step_joined<S: GraphStore, M: Fn(&[u32], &[u32]) -> u32>(
    before: S,
    after: S,
    metric: M,
    node: u32,
    top: u8,
    entry: u32,
    params: HNSWParams,
) -> bool {
    exists|trail: Seq<u32>, starts: Map<int, u32>, chosen: Map<int, Seq<u32>>|
        {
            &&& #[trigger] beam_trail(
                before,
                metric,
                before.vector_at(node),
                before.level_at(entry),
                top,
                trail,
            )
            &&& trail[0] == entry
            &&& starts[top as int] == trail.last()
            &&& #[trigger] node_joined(before, after, metric, node, top, params, starts, chosen)
        }
}

// ---------------------------------------------------------------------------
// Levels
// ---------------------------------------------------------------------------

/// The state of the generator that follows another one.
pub open spec fn xorshift(x: u64) -> u64 {
    let a = x ^ (x << 13);
    let b = a ^ (a >> 7);
    b ^ (b << 17)
}

/// The state of the generator after `n` steps.
pub open spec fn xorshift_after(seed: u64, n: nat) -> u64
    decreases n,
{
    if n == 0 {
        seed
    } else {
        xorshift(xorshift_after(seed, (n - 1) as nat))
    }
}

/// What is asked of the function that turns a state of the generator into a
/// level: it accepts any state, and depends on it alone.
pub open spec fn wide_source_ok<L: Fn(u64) -> u8>(source: L) -> bool {
    &&& forall|x: u64| #[trigger] call_requires(source, (x,))
    &&& forall|x: u64, r: u8, s: u8| #[trigger]
        call_ensures(source, (x,), r) && #[trigger] call_ensures(source, (x,), s) ==> r == s
}

/// The level for a state of the generator, capped.
pub open spec fn wide_level<L: Fn(u64) -> u8>(source: L, x: u64, max_level: u8) -> u8 {
    let raw = choose|r: u8| call_ensures(source, (x,), r);
    if raw <= max_level {
        raw
    } else {
        max_level
    }
}

/// The levels of the first `n` nodes.
pub open spec fn wide_levels<L: Fn(u64) -> u8>(source: L, seed: u64, max_level: u8, n: nat) -> Seq<
    u8,
> {
    Seq::new(n, |i: int| wide_level(source, xorshift_after(seed, (i + 1) as nat), max_level))
}

// ---------------------------------------------------------------------------
// The builder
// ---------------------------------------------------------------------------

/// `steps` leads from the nodes without links to the finished graph, joining
/// one node after the other.
pub open spec fn sequence_built<S: GraphStore, M: Fn(&[u32], &[u32]) -> u32>(
    steps: Seq<S>,
    metric: M,
    params: HNSWParams,
    vectors: Seq<&[u32]>,
    levels: Seq<u8>,
) -> bool {
    &&& steps.len() == vectors.len()
    &&& steps.len() > 0 ==> holds_nodes(steps[0], vectors, levels, vectors.len()) && unlinked_from(
        steps[0],
        0,
    )
    &&& forall|i: int|
        1 <= i < steps.len() ==> #[trigger] step_joined(
            steps[i - 1],
            steps[i],
            metric,
            i as u32,
            levels[i],
            entry_after(levels, (i - 1) as nat),
            params,
        )
}

/// What node after node makes of an empty index: the nodes with their vectors,
/// the levels that were drawn, slots that are their ids, and links to their
/// neighbours; and the node that reaches highest, the first of those, as the
/// entry point.
pub open spec fn sequentially_built<M: Fn(&[u32], &[u32]) -> u32, L: Fn(u64) -> u8>(
    empty: HNSWIndex<NodeStorage>,
    metric: M,
    level_source: L,
    vectors: Seq<&[u32]>,
    index: HNSWIndex<NodeStorage>,
) -> bool {
    let levels = wide_levels(
        level_source,
        empty.rng_state,
        empty.params.max_level,
        vectors.len(),
    );
    &&& index.wf()
    &&& index.params == empty.params
    &&& index.distance_fn == empty.distance_fn
    &&& index.rng_state == xorshift_after(empty.rng_state, vectors.len())
    &&& index.storage.dim() == empty.storage.dim()
    &&& index.storage.quantization().same_mode(empty.storage.quantization())
    &&& holds_nodes(index.storage, vectors, levels, vectors.len())
    &&& vectors.len() == 0 ==> index.entry_point is None
    &&& vectors.len() > 0 ==> {
        &&& index.entry_point == Some(entry_after(levels, (vectors.len() - 1) as nat))
        &&& exists|steps: Seq<NodeStorage>|
            {
                &&& #[trigger] sequence_built(steps, metric, empty.params, vectors, levels)
                &&& steps.last() == index.storage
            }
    }
}

/// An index is another one whose vectors have their norms beside them, or are
/// held in SQ8 mode.
pub open spec fn index_finished<
    N: Fn(&[u32]) -> u32,
    C: Coder,
>(
    plain: HNSWIndex<NodeStorage>,
    index: HNSWIndex<NodeStorage>,
    compress: bool,
    norm: N,
    coder: C,
) -> bool {
    &&& index.params == plain.params
    &&& index.distance_fn == plain.distance_fn
    &&& index.rng_state == plain.rng_state
    &&& index.entry_point == plain.entry_point
    &&& if compress {
        &&& index.storage.compresses(&plain.storage, coder)
        &&& index.storage.max_level == plain.params.max_level
    } else {
        &&& index.wf()
        &&& index.storage == (NodeStorage { norms: index.storage.norms, ..plain.storage })
        &&& index.storage.norms@ == plain.storage.all_norms(norm)
    }
}

/// The first `n` vectors, one behind the other.
pub open spec fn flattened(vectors: Seq<&[u32]>, n: nat) -> Seq<u32>
    decreases n,
{
    if n == 0 {
        Seq::empty()
    } else {
        flattened(vectors, (n - 1) as nat) + vectors[n - 1]@
    }
}

proof fn lemma_flattened(storage: NodeStorage, vectors: Seq<&[u32]>, levels: Seq<u8>, n: nat)
    requires
        holds_nodes(storage, vectors, levels, vectors.len()),
        n <= vectors.len() <= u32::MAX,
    ensures
        laid_out(storage, n) == flattened(vectors, n),
    decreases n,
{
    if n > 0 {
        lemma_flattened(storage, vectors, levels, (n - 1) as nat);
        assert(storage.vector_at((n - 1) as u32) == vectors[n - 1]@);
    }
}

/// There are enough vectors to train a quantization on, and that fails.
pub open spec fn training_fails<C: Coder>(
    coder: C,
    vectors: Seq<&[u32]>,
    dimensions: usize,
) -> bool {
    let sample = flattened(vectors, TRAINING_VECTORS as nat);
    vectors.len() >= TRAINING_VECTORS && coder.params_for(sample, dimensions) is None
}

/// The message of the error that the quantization cannot be trained.
pub open spec fn training_message() -> Seq<char> {
    "Failed to train SQ8 params"@
}

/// Builds an index from a batch of vectors, node after node.
#[derive(Debug)]
pub struct SequentialBuilder {
    index: HNSWIndex<NodeStorage>,
    use_quantization: bool,
}

impl SequentialBuilder {
    /// The index that is built on.
    pub closed spec fn start(&self) -> HNSWIndex<NodeStorage> {
        self.index
    }

    /// The finished index holds its vectors in SQ8 mode.
    pub closed spec fn compresses(&self) -> bool {
        self.use_quantization
    }

    /// Nothing has been built yet.
    pub open spec fn wf(&self) -> bool {
        &&& self.start().wf()
        &&& self.start().entry_point is None
        &&& self.start().storage.created(
            self.start().storage.dimensions,
            self.start().params.m,
            self.start().params.max_level as usize,
            false,
        )
        &&& node_params_fit(self.start().storage.dimensions as nat, self.start().params.m as nat)
    }

    pub fn new(
        dimensions: usize,
        params: HNSWParams,
        distance_fn: Metric,
        use_quantization: bool,
    ) -> (r: Result<Self>)
        requires
            node_params_fit(dimensions as nat, params.m as nat),
        ensures
            r matches Ok(b) && b.wf() && b.start().storage.dimensions == dimensions && b.start().params == params
                && b.start().distance_fn == distance_fn && b.start().rng_state == params.seed && b.compresses()
                == use_quantization,
    {
        Ok(
            SequentialBuilder {
                index: HNSWIndex::new_colocated(dimensions, params, distance_fn),
                use_quantization,
            },
        )
    }

    /// Builds the graph on vectors at full precision.
    fn build_plain<M: Fn(&[u32], &[u32]) -> u32, L: Fn(u64) -> u8>(
        self,
        vectors: &Vec<&[u32]>,
        metric: &M,
        level_source: &L,
    ) -> (index: HNSWIndex<NodeStorage>)
        requires
            self.wf(),
            self.start().storage.room(vectors@.len()),
            forall|i: int|
                0 <= i < vectors@.len() ==> acceptable(
                    (#[trigger] vectors@[i])@,
                    self.start().storage.dim(),
                ),
            metric_ok(*metric),
            wide_source_ok(*level_source),
        ensures
            sequentially_built(self.start(), *metric, *level_source, vectors@, index),
    {
        let mut index: HNSWIndex<NodeStorage> = self.index;
        if vectors.len() == 0 {
            assert(holds_nodes(index.storage, vectors@, Seq::<u8>::empty(), 0));
            return index;
        }
        allocate_all_nodes(&mut index, vectors, level_source);
        join_all(
            &mut index,
            vectors,
            metric,
            Ghost(
                wide_levels(
                    *level_source,
                    self.start().rng_state,
                    self.start().params.max_level,
                    vectors@.len(),
                ),
            ),
        );
        index
    }

    /// Builds the index. A vector of another length, or with a component that
    /// is not finite, is rejected with all others.
    pub fn build<
        M: Fn(&[u32], &[u32]) -> u32,
        L: Fn(u64) -> u8,
        N: Fn(&[u32]) -> u32,
        C: Coder,
    >(
        self,
        vectors: &Vec<&[u32]>,
        metric: &M,
        level_source: &L,
        norm: &N,
        coder: &C,
    ) -> (r: Result<HNSWIndex<NodeStorage>>)
        requires
            self.wf(),
            self.start().storage.room(vectors@.len()),
            self.compresses() && vectors@.len() > 0 ==> self.start().storage.dimensions > 0,
            metric_ok(*metric),
            wide_source_ok(*level_source),
            norm_ok(*norm),
            coder.usable(self.start().storage.dim()),
        ensures
            r is Ok <==> (forall|i: int|
                0 <= i < vectors@.len() ==> acceptable(
                    (#[trigger] vectors@[i])@,
                    self.start().storage.dim(),
                )) && !(self.compresses() && training_fails(
                *coder,
                vectors@,
                self.start().storage.dimensions,
            )),
            r matches Err(e) ==> {
                ||| e matches HNSWError::Internal(s) && s@ == training_message() && forall|i: int|
                    0 <= i < vectors@.len() ==> acceptable(
                        (#[trigger] vectors@[i])@,
                        self.start().storage.dim(),
                    )
                ||| exists|i: int|
                    {
                        &&& 0 <= i < vectors@.len()
                        &&& !acceptable((#[trigger] vectors@[i])@, self.start().storage.dim())
                        &&& forall|j: int|
                            0 <= j < i ==> acceptable((#[trigger] vectors@[j])@, self.start().storage.dim())
                        &&& e == rejection(vectors@[i]@, self.start().storage.dim())
                    }
            },
            r matches Ok(index) ==> exists|plain: HNSWIndex<NodeStorage>|
                {
                    &&& #[trigger] sequentially_built(
                        self.start(),
                        *metric,
                        *level_source,
                        vectors@,
                        plain,
                    )
                    &&& index_finished(
                        plain,
                        index,
                        self.compresses(),
                        *norm,
                        *coder,
                    )
                },
    {
        let dim: usize = self.index.storage.vector_dim();
        match check_all(vectors, dim) {
            Some(e) => return Err(e),
            None => {},
        }
        let compress: bool = self.use_quantization;
        let params: HNSWParams = self.index.params;
        let ghost empty = self.start();
        let mut index: HNSWIndex<NodeStorage> = self.build_plain(vectors, metric, level_source);
        let ghost plain = index;
        proof {
            assert(plain.storage.link_cap(0) == params.links(0));
            assert(plain.storage.link_cap(1) == params.links(1));
            empty.storage.lemma_room(vectors@.len(), vectors@.len());
        }
        if compress {
            proof {
                if vectors@.len() >= TRAINING_VECTORS {
                    lemma_flattened(
                        plain.storage,
                        vectors@,
                        wide_levels(
                            *level_source,
                            empty.rng_state,
                            empty.params.max_level,
                            vectors@.len(),
                        ),
                        TRAINING_VECTORS as nat,
                    );
                }
            }
            match index.storage.compressed(params.m, params.max_level as usize, coder) {
                Err(_) => {
                    return Err(HNSWError::internal("Failed to train SQ8 params".to_string()));
                },
                Ok(storage) => {
                    index.storage = storage;
                },
            }
        } else {
            index.storage.keep_norms(norm);
            proof {
                lemma_norms_apart(plain, index);
            }
        }
        Ok(index)
    }
}

/// The norms play no part in the graph.
proof fn lemma_norms_apart(plain: HNSWIndex<NodeStorage>, index: HNSWIndex<NodeStorage>)
    requires
        plain.wf(),
        index == (HNSWIndex {
            storage: NodeStorage { norms: index.storage.norms, ..plain.storage },
            ..plain
        }),
    ensures
        index.wf(),
{
    let a = plain.storage;
    let b = index.storage;
    a.lemma_same_data(&b);
    assert forall|l: u8| #[trigger] links_below(b, l, b.node_count()) by {
        assert(links_below(a, l, a.node_count()));
        assert forall|id: u32, i: int|
            id < b.node_count() && 0 <= i < b.links_at(id, l).len() implies (
        #[trigger] b.links_at(id, l)[i]) < b.node_count() by {
            assert(b.links_at(id, l) == a.links_at(id, l));
            assert(a.links_at(id, l)[i] < a.node_count());
        }
    }
    assert forall|l: u8| #[trigger] b.link_cap(l) == plain.params.links(l) by {
        assert(a.link_cap(l) == plain.params.links(l));
    }
    assert forall|id: u32| id < b.node_count() implies #[trigger] b.level_at(id)
        <= plain.params.max_level by {
        assert(a.level_at(id) <= plain.params.max_level);
    }
    assert forall|id: u32, l: u8| id < b.node_count() implies #[trigger] b.links_at(id, l).len()
        <= plain.params.links(l) by {
        assert(a.links_at(id, l).len() <= plain.params.links(l));
    }
}

/// Why the first vector that cannot be added cannot be.
fn check_all(vectors: &Vec<&[u32]>, dim: usize) -> (r: Option<HNSWError>)
    ensures
        match r {
            None => forall|i: int|
                0 <= i < vectors@.len() ==> acceptable((#[trigger] vectors@[i])@, dim as nat),
            Some(e) => exists|i: int|
                {
                    &&& 0 <= i < vectors@.len()
                    &&& !acceptable((#[trigger] vectors@[i])@, dim as nat)
                    &&& forall|j: int|
                        0 <= j < i ==> acceptable((#[trigger] vectors@[j])@, dim as nat)
                    &&& e == rejection(vectors@[i]@, dim as nat)
                },
        },
{
    let mut i: usize = 0;
    while i < vectors.len()
        invariant
            i <= vectors@.len(),
            forall|j: int| 0 <= j < i ==> acceptable((#[trigger] vectors@[j])@, dim as nat),
        decreases vectors.len() - i,
    {
        let vector: &[u32] = vectors[i];
        if vector.len() != dim {
            assert(!acceptable(vectors@[i as int]@, dim as nat));
            return Some(HNSWError::DimensionMismatch { expected: dim, actual: vector.len() });
        }
        if !finite_vector(vector) {
            assert(!acceptable(vectors@[i as int]@, dim as nat));
            return Some(HNSWError::InvalidVector);
        }
        i += 1;
    }
    None
}

/// Draws the level of the next node and moves the generator on.
fn next_level<S: GraphStore, L: Fn(u64) -> u8>(index: &mut HNSWIndex<S>, source: &L) -> (level: u8)
    requires
        wide_source_ok(*source),
    ensures
        final(index).rng_state == xorshift(old(index).rng_state),
        level == wide_level(*source, final(index).rng_state, old(index).params.max_level),
        level <= old(index).params.max_level,
        final(index).storage == old(index).storage,
        final(index).entry_point == old(index).entry_point,
        final(index).params == old(index).params,
        final(index).distance_fn == old(index).distance_fn,
{
    let mut x: u64 = index.rng_state;
    x = x ^ (x << 13);
    x = x ^ (x >> 7);
    x = x ^ (x << 17);
    index.rng_state = x;
    let raw: u8 = source(x);
    assert(call_ensures(*source, (x,), raw));
    if raw <= index.params.max_level {
        raw
    } else {
        index.params.max_level
    }
}

/// Adds a node without links for each vector.
fn allocate_all_nodes<S: GraphStore, L: Fn(u64) -> u8>(
    index: &mut HNSWIndex<S>,
    vectors: &Vec<&[u32]>,
    source: &L,
)
    requires
        old(index).wf(),
        old(index).storage.node_count() == 0,
        old(index).storage.room(vectors@.len()),
        wide_source_ok(*source),
        forall|i: int|
            0 <= i < vectors@.len() ==> acceptable(
                (#[trigger] vectors@[i])@,
                old(index).storage.dim(),
            ),
    ensures
        final(index).storage.store_wf(),
        shape_fits(final(index).storage, old(index).params),
        links_valid(final(index).storage),
        unlinked_from(final(index).storage, 0),
        final(index).params == old(index).params,
        final(index).distance_fn == old(index).distance_fn,
        final(index).entry_point == old(index).entry_point,
        final(index).rng_state == xorshift_after(old(index).rng_state, vectors@.len()),
        final(index).storage.dim() == old(index).storage.dim(),
        final(index).storage.quantization().same_mode(old(index).storage.quantization()),
        holds_nodes(
            final(index).storage,
            vectors@,
            wide_levels(
                *source,
                old(index).rng_state,
                old(index).params.max_level,
                vectors@.len(),
            ),
            vectors@.len(),
        ),
{
    let ghost empty = *index;
    let ghost seed = index.rng_state;
    let ghost n = vectors@.len();
    let ghost levels = wide_levels(*source, seed, index.params.max_level, n);
    let mut i: usize = 0;
    while i < vectors.len()
        invariant
            i <= vectors@.len(),
            n == vectors@.len(),
            wide_source_ok(*source),
            levels == wide_levels(*source, seed, empty.params.max_level, n),
            index.storage.store_wf(),
            index.storage.dim() == empty.storage.dim(),
            index.storage.quantization().same_mode(empty.storage.quantization()),
            index.params == empty.params,
            index.distance_fn == empty.distance_fn,
            index.entry_point == empty.entry_point,
            index.rng_state == xorshift_after(seed, i as nat),
            shape_fits(index.storage, empty.params),
            links_valid(index.storage),
            unlinked_from(index.storage, 0),
            holds_nodes(index.storage, vectors@, levels, i as nat),
            index.storage.room((n - i) as nat),
            forall|j: int|
                0 <= j < n ==> acceptable((#[trigger] vectors@[j])@, empty.storage.dim()),
        decreases vectors.len() - i,
    {
        let vector: &[u32] = vectors[i];
        assert(acceptable(vectors@[i as int]@, empty.storage.dim()));
        let ghost mid = index.storage;
        let level: u8 = next_level(index, source);
        proof {
            index.storage.lemma_room((n - i) as nat, 1);
            assert(level == levels[i as int]);
        }
        let _ = index.storage.push_node(vector, level);
        proof {
            let after = index.storage;
            let rest = (n - i - 1) as nat;
            assert(mid.room(rest + 1));
            assert forall|id: u32, l: u8| 0 <= id < after.node_count() implies #[trigger] after.links_at(
                id,
                l,
            ) == Seq::<u32>::empty() by {
                if id < i {
                    assert(mid.links_at(id, l) == Seq::<u32>::empty());
                }
            }
            assert forall|id: u32| id < (i + 1) as nat implies #[trigger] after.vector_at(id)
                == vectors@[id as int]@ by {
                if id < i {
                    assert(mid.vector_at(id) == vectors@[id as int]@);
                }
            }
            assert forall|id: u32| id < (i + 1) as nat implies #[trigger] after.level_at(id)
                == levels[id as int] by {
                if id < i {
                    assert(mid.level_at(id) == levels[id as int]);
                }
            }
            assert forall|id: u32| id < (i + 1) as nat implies #[trigger] after.slot_at(id) == id by {
                if id < i {
                    assert(mid.slot_at(id) == id);
                }
            }
            assert forall|l: u8| #[trigger] links_below(after, l, after.node_count()) by {
                assert forall|id: u32, j: int|
                    id < after.node_count() && 0 <= j < after.links_at(id, l).len() implies (
                #[trigger] after.links_at(id, l)[j]) < after.node_count() by {
                    assert(after.links_at(id, l) == Seq::<u32>::empty());
                }
            }
            assert(shape_fits(after, empty.params));
        }
        i += 1;
    }
}

/// Joins all nodes of a storage that holds nodes without links.
fn join_all<S: GraphStore, M: Fn(&[u32], &[u32]) -> u32>(
    index: &mut HNSWIndex<S>,
    vectors: &Vec<&[u32]>,
    metric: &M,
    Ghost(levels): Ghost<Seq<u8>>,
)
    requires
        old(index).storage.store_wf(),
        shape_fits(old(index).storage, old(index).params),
        links_valid(old(index).storage),
        metric_ok(*metric),
        vectors@.len() > 0,
        levels.len() == vectors@.len(),
        holds_nodes(old(index).storage, vectors@, levels, vectors@.len()),
        unlinked_from(old(index).storage, 0),
    ensures
        final(index).wf(),
        final(index).params == old(index).params,
        final(index).distance_fn == old(index).distance_fn,
        final(index).rng_state == old(index).rng_state,
        final(index).entry_point == Some(entry_after(levels, (vectors@.len() - 1) as nat)),
        final(index).storage.dim() == old(index).storage.dim(),
        final(index).storage.quantization() == old(index).storage.quantization(),
        holds_nodes(final(index).storage, vectors@, levels, vectors@.len()),
        exists|steps: Seq<S>|
            {
                &&& #[trigger] sequence_built(
                    steps,
                    *metric,
                    old(index).params,
                    vectors@,
                    levels,
                )
                &&& steps.last() == final(index).storage
            },
{
    let ghost before = *index;
    let ghost n = vectors@.len();
    let total: usize = vectors.len();
    proof {
        index.storage.lemma_store();
    }
    let mut entry: u32 = 0;
    let mut entry_level: u8 = index.storage.level_of(0);
    let ghost mut steps: Seq<S> = seq![index.storage];
    let mut i: usize = 1;
    proof {
        assert forall|l: u8| #[trigger] links_below(index.storage, l, 1) by {
            assert forall|id: u32, j: int|
                id < 1 && 0 <= j < index.storage.links_at(id, l).len() implies (
            #[trigger] index.storage.links_at(id, l)[j]) < 1 by {
                assert(index.storage.links_at(id, l) == Seq::<u32>::empty());
            }
        }
    }
    while i < total
        invariant
            1 <= i <= total,
            total == n,
            n == vectors@.len(),
            n <= u32::MAX + 1,
            levels.len() == n,
            metric_ok(*metric),
            before.params == index.params,
            before.distance_fn == index.distance_fn,
            before.rng_state == index.rng_state,
            index.storage.store_wf(),
            shape_fits(index.storage, before.params),
            links_valid(index.storage),
            holds_nodes(before.storage, vectors@, levels, n),
            index.storage.dim() == before.storage.dim(),
            index.storage.quantization() == before.storage.quantization(),
            holds_nodes(index.storage, vectors@, levels, n),
            unlinked_from(before.storage, 0),
            unlinked_from(index.storage, i as nat),
            forall|l: u8| #[trigger] links_below(index.storage, l, i as nat),
            entry == entry_after(levels, (i - 1) as nat),
            entry < i,
            entry_level == levels[entry as int],
            steps.len() == i,
            steps.last() == index.storage,
            steps[0] == before.storage,
            forall|j: int|
                1 <= j < i ==> #[trigger] step_joined(
                    steps[j - 1],
                    steps[j],
                    *metric,
                    j as u32,
                    levels[j],
                    entry_after(levels, (j - 1) as nat),
                    before.params,
                ),
        decreases total - i,
    {
        let node: u32 = i as u32;
        let level: u8 = index.storage.level_of(node);
        let params: HNSWParams = index.params;
        let ghost mid = index.storage;
        proof {
            assert(mid.level_at(node) <= before.params.max_level);
        }
        join_node(&mut index.storage, metric, node, vectors[i], level, entry, &params);
        proof {
            let after = index.storage;
            lemma_after_step(mid, after, *metric, node, level, entry, params);
            assert forall|id: u32| id < n implies #[trigger] after.vector_at(id)
                == vectors@[id as int]@ by {
                assert(mid.vector_at(id) == vectors@[id as int]@);
            }
            assert forall|id: u32| id < n implies #[trigger] after.level_at(id)
                == levels[id as int] by {
                assert(mid.level_at(id) == levels[id as int]);
            }
            assert forall|id: u32| id < n implies #[trigger] after.slot_at(id) == id by {
                assert(mid.slot_at(id) == id);
            }
            let grown = steps.push(after);
            assert forall|j: int| 1 <= j < i + 1 implies #[trigger] step_joined(
                grown[j - 1],
                grown[j],
                *metric,
                j as u32,
                levels[j],
                entry_after(levels, (j - 1) as nat),
                before.params,
            ) by {
                if j < i {
                    assert(grown[j - 1] == steps[j - 1]);
                    assert(grown[j] == steps[j]);
                } else {
                    assert(grown[j - 1] == mid);
                    assert(grown[j] == after);
                }
            }
            steps = grown;
        }
        if level > entry_level {
            entry = node;
            entry_level = level;
        }
        i += 1;
    }
    index.entry_point = Some(entry);
    proof {
        assert(sequence_built(steps, *metric, before.params, vectors@, levels));
    }
}

/// After a node was joined, the nodes behind it have no links yet, and no link
/// leads behind it.
proof fn lemma_after_step<S: GraphStore, M: Fn(&[u32], &[u32]) -> u32>(
    mid: S,
    after: S,
    metric: M,
    node: u32,
    level: u8,
    entry: u32,
    params: HNSWParams,
)
    requires
        step_joined(mid, after, metric, node, level, entry, params),
        node < mid.node_count(),
        unlinked_from(mid, node as nat),
        forall|l: u8| #[trigger] links_below(mid, l, node as nat),
        forall|l: u8| l <= level ==> #[trigger] links_below(after, l, node as nat + 1),
    ensures
        same_nodes(mid, after),
        unlinked_from(after, node as nat + 1),
        forall|l: u8| #[trigger] links_below(after, l, node as nat + 1),
{
    let (trail, starts, chosen) = choose|
        trail: Seq<u32>,
        starts: Map<int, u32>,
        chosen: Map<int, Seq<u32>>,
    |
        {
            &&& #[trigger] beam_trail(
                mid,
                metric,
                mid.vector_at(node),
                mid.level_at(entry),
                level,
                trail,
            )
            &&& trail[0] == entry
            &&& starts[level as int] == trail.last()
            &&& #[trigger] node_joined(mid, after, metric, node, level, params, starts, chosen)
        };
    assert forall|id: u32, l: u8| node + 1 <= id < after.node_count() implies #[trigger] after.links_at(
        id,
        l,
    ) == Seq::<u32>::empty() by {
        assert(mid.links_at(id, l) == Seq::<u32>::empty());
        if l <= level {
            assert(links_below(after, l, node as nat + 1));
            let own = chosen[l as int];
            assert(level_joined(
                mid,
                after,
                metric,
                node,
                l,
                params,
                starts[l as int],
                starts[l - 1],
                own,
            ));
            assert(after.links_at(node, l) == own);
            assert(!own.contains(id)) by {
                if own.contains(id) {
                    let j = choose|j: int| 0 <= j < own.len() && own[j] == id;
                    assert(after.links_at(node, l)[j] < node as nat + 1);
                }
            }
            assert(after.links_at(id, l) == mid.links_at(id, l));
        }
    }
    assert forall|l: u8| #[trigger] links_below(after, l, node as nat + 1) by {
        if l > level {
            assert(links_below(mid, l, node as nat));
            assert forall|id: u32, j: int|
                id < node as nat + 1 && 0 <= j < after.links_at(id, l).len() implies (
            #[trigger] after.links_at(id, l)[j]) < node as nat + 1 by {
                assert(after.links_at(id, l) == mid.links_at(id, l));
                if id < node {
                    assert(mid.links_at(id, l)[j] < node as nat);
                }
            }
        }
    }
}

} // verus!
