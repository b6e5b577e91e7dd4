//! Insertion into the graph.

use rand::{RngCore, SeedableRng};
use vstd::prelude::*;

use super::{shape_fits, HNSWIndex};
use crate::candidates::{inserted, sorted, CandidateQueue};
use crate::distance::{all_finite, finite_vector, metric_ok};
use crate::error::{HNSWError, Result};
use crate::graph::{
    beam_outcome, beam_search, descend_levels, distance_fn, distance_to, distinct, greedy_descent,
    holds, lemma_inserted, link_fn, links_below, links_valid, same_nodes, GraphStore,
};
use crate::storage::contains;
use crate::types::{Candidate, HNSWParams};

verus! {

// ---------------------------------------------------------------------------
// Choice of neighbours
// ---------------------------------------------------------------------------

/// The nodes of some candidates.
pub open spec fn ids(s: Seq<Candidate>) -> Seq<u32> {
    s.map_values(|c: Candidate| c.node_id)
}

/// The first `m` elements, or all of them if there are fewer.
pub open spec fn at_most<T>(s: Seq<T>, m: nat) -> Seq<T> {
    if s.len() <= m { s } else { s.take(m as int) }
}

/// `chosen` are the `m` nearest of the candidates, nearest first.
pub open spec fn closest(candidates: Seq<Candidate>, m: nat, chosen: Seq<u32>) -> bool {
    exists|p: Seq<Candidate>|
        {
            &&& #[trigger] p.to_multiset() == candidates.to_multiset()
            &&& sorted(p)
            &&& chosen == ids(at_most(p, m))
        }
}

proof fn lemma_inserted_multiset(before: Seq<Candidate>, c: Candidate, after: Seq<Candidate>)
    requires
        inserted(before, c, after),
    ensures
        after.to_multiset() == before.to_multiset().insert(c),
{
    broadcast use vstd::seq_lib::group_to_multiset_ensures;
    broadcast use vstd::multiset::group_multiset_axioms;

    let i = choose|i: int| 0 <= i <= before.len() && after == #[trigger] before.insert(i, c);
    assert(after.remove(i) =~= before);
    assert(after[i] == c);
    assert(after.to_multiset().count(c) > 0) by {
        assert(after.contains(c));
    }
    assert(after.to_multiset().remove(c).insert(c) =~= after.to_multiset());
}

/// The candidates, nearest first.
pub(crate) fn sort_candidates(candidates: &[Candidate]) -> (r: Vec<Candidate>)
    ensures
        r@.to_multiset() == candidates@.to_multiset(),
        r@.len() == candidates@.len(),
        sorted(r@),
        forall|id: u32| #[trigger] holds(r@, id) ==> holds(candidates@, id),
        distinct(candidates@) ==> distinct(r@),
{
    let mut queue: CandidateQueue = CandidateQueue::new();
    let mut i: usize = 0;
    proof {
        assert(candidates@.take(0) =~= Seq::<Candidate>::empty());
    }
    while i < candidates.len()
        invariant
            i <= candidates@.len(),
            queue.wf(),
            queue@.len() == i,
            queue@.to_multiset() == candidates@.take(i as int).to_multiset(),
            forall|id: u32| #[trigger] holds(queue@, id) ==> holds(candidates@.take(i as int), id),
            distinct(candidates@) ==> distinct(queue@),
        decreases candidates.len() - i,
    {
        let c: Candidate = candidates[i];
        let ghost before = queue@;
        queue.push(c);
        proof {
            broadcast use vstd::seq_lib::group_to_multiset_ensures;

            let now = candidates@.take(i as int);
            let next = candidates@.take(i + 1);
            assert(next =~= now.push(c));
            lemma_inserted(before, c, queue@);
            lemma_inserted_multiset(before, c, queue@);
            assert forall|id: u32| #[trigger] holds(queue@, id) implies holds(next, id) by {
                if holds(before, id) {
                    let j = choose|j: int| 0 <= j < now.len() && (#[trigger] now[j]).node_id == id;
                    assert(next[j] == now[j]);
                } else {
                    assert(next[i as int].node_id == id);
                }
            }
            if distinct(candidates@) {
                assert(!holds(before, c.node_id)) by {
                    if holds(before, c.node_id) {
                        assert(holds(now, c.node_id));
                        let j = choose|j: int|
                            0 <= j < now.len() && (#[trigger] now[j]).node_id == c.node_id;
                        assert(candidates@[j].node_id != candidates@[i as int].node_id);
                    }
                }
            }
        }
        i += 1;
    }
    proof {
        assert(candidates@.take(i as int) =~= candidates@);
    }
    queue.into_vec()
}

/// Selects the `m` nearest candidates.
pub fn select_neighbors_heuristic(candidates: &[Candidate], m: usize) -> (chosen: Vec<u32>)
    ensures
        closest(candidates@, m as nat, chosen@),
        chosen@.len() == (if candidates@.len() <= m { candidates@.len() } else { m as nat }),
        forall|i: int|
            0 <= i < chosen@.len() ==> holds(candidates@, #[trigger] chosen@[i]),
        distinct(candidates@) ==> chosen@.no_duplicates(),
{
    let sorted_candidates: Vec<Candidate> = sort_candidates(candidates);
    let ghost p = sorted_candidates@;
    let n: usize = if sorted_candidates.len() <= m { sorted_candidates.len() } else { m };
    let mut chosen: Vec<u32> = Vec::new();
    let mut k: usize = 0;
    while k < n
        invariant
            k <= n <= sorted_candidates@.len(),
            chosen@.len() == k,
            forall|j: int| 0 <= j < k ==> #[trigger] chosen@[j] == sorted_candidates@[j].node_id,
        decreases n - k,
    {
        chosen.push(sorted_candidates[k].node_id);
        k += 1;
    }
    proof {
        assert(chosen@ =~= ids(at_most(p, m as nat)));
        assert(closest(candidates@, m as nat, chosen@));
        assert forall|j: int| 0 <= j < chosen@.len() implies holds(
            candidates@,
            #[trigger] chosen@[j],
        ) by {
            assert(p[j].node_id == chosen@[j]);
            assert(holds(p, chosen@[j]));
        }
        if distinct(candidates@) {
            assert forall|a: int, b: int|
                0 <= a < chosen@.len() && 0 <= b < chosen@.len() && a != b implies chosen@[a]
                != chosen@[b] by {
                assert(p[a].node_id != p[b].node_id);
            }
        }
    }
    chosen
}

/// The listed nodes with their distances.
pub open spec fn measured(list: Seq<u32>, d: spec_fn(u32) -> u32) -> Seq<Candidate> {
    list.map_values(|id: u32| Candidate { node_id: id, distance: d(id) })
}

/// How a link list takes up a link back to a new node: the node is appended
/// unless it is there already, and a list that gets longer than `m` is cut
/// down to its `m` nearest nodes.
pub open spec fn relinked(
    before: Seq<u32>,
    node: u32,
    m: nat,
    d: spec_fn(u32) -> u32,
    after: Seq<u32>,
) -> bool {
    let extended = if before.contains(node) { before } else { before.push(node) };
    if extended.len() <= m {
        after == extended
    } else {
        closest(measured(extended, d), m, after)
    }
}

// ---------------------------------------------------------------------------
// Links of a new node
// ---------------------------------------------------------------------------

/// What a new node changes at one level: its own links are the `m` nearest of
/// what a beam search from `starts` keeps, each of these nodes links back, and
/// no other list changes.
pub open spec fn level_linked<S: GraphStore, M: Fn(&[u32], &[u32]) -> u32>(
    before: S,
    after: S,
    metric: M,
    node: u32,
    level: u8,
    params: HNSWParams,
    starts: Seq<u32>,
    chosen: Seq<u32>,
) -> bool {
    &&& exists|seen: Set<u32>, kept: Seq<Candidate>|
        {
            &&& #[trigger] beam_outcome(
                link_fn(before, level),
                distance_fn(before, metric, before.vector_at(node)),
                starts,
                params.ef_construction as nat,
                false,
                false,
                seen,
                kept,
            )
            &&& closest(kept, params.links(level), chosen)
        }
    &&& after.links_at(node, level) == chosen
    &&& !chosen.contains(node)
    &&& forall|id: u32|
        id < before.node_count() && id != node ==> if chosen.contains(id) {
            relinked(
                before.links_at(id, level),
                node,
                params.links(level),
                distance_fn(before, metric, before.vector_at(id)),
                #[trigger] after.links_at(id, level),
            )
        } else {
            after.links_at(id, level) == before.links_at(id, level)
        }
}

/// The nodes from which the search of a level starts: those chosen one level
/// above, and on the topmost level the one that the descent ended at.
pub open spec fn starts_at(
    chosen: Map<int, Seq<u32>>,
    level: int,
    top: int,
    nearest: u32,
) -> Seq<u32> {
    if level == top { seq![nearest] } else { chosen[level + 1] }
}

/// What a new node changes: on each level from its own down to 0 it is linked
/// to its neighbours, and the levels above stay as they are.
pub open spec fn node_linked<S: GraphStore, M: Fn(&[u32], &[u32]) -> u32>(
    before: S,
    after: S,
    metric: M,
    node: u32,
    top: u8,
    params: HNSWParams,
    nearest: u32,
    chosen: Map<int, Seq<u32>>,
) -> bool {
    &&& same_nodes(before, after)
    &&& forall|id: u32, level: u8|
        id < before.node_count() && level > top ==> #[trigger] after.links_at(id, level)
            == before.links_at(id, level)
    &&& forall|level: u8|
        level <= top ==> #[trigger] level_linked(
            before,
            after,
            metric,
            node,
            level,
            params,
            starts_at(chosen, level as int, top as int, nearest),
            chosen[level as int],
        )
}

/// The node that the descent towards a new node ends at.
pub open spec fn descent_end<S: GraphStore, M: Fn(&[u32], &[u32]) -> u32>(
    store: S,
    metric: M,
    node: u32,
    top: u8,
    entry: u32,
) -> u32 {
    let d = distance_fn(store, metric, store.vector_at(node));
    descend_levels(
        store,
        d,
        Candidate { node_id: entry, distance: d(entry) },
        store.level_at(entry),
        top,
    ).node_id
}

/// Links a node back from one of its neighbours.
fn link_back<S: GraphStore, M: Fn(&[u32], &[u32]) -> u32>(
    store: &mut S,
    metric: &M,
    neighbor: u32,
    node: u32,
    level: u8,
    m: usize,
)
    requires
        old(store).store_wf(),
        metric_ok(*metric),
        neighbor < old(store).node_count(),
        node < old(store).node_count(),
        level <= old(store).top_level(),
        m == old(store).link_cap(level),
        links_below(*old(store), level, old(store).node_count()),
        links_below(*old(store), level, node as nat + 1),
        neighbor < node,
    ensures
        final(store).store_wf(),
        same_nodes(*old(store), *final(store)),
        relinked(
            old(store).links_at(neighbor, level),
            node,
            m as nat,
            distance_fn(*old(store), *metric, old(store).vector_at(neighbor)),
            final(store).links_at(neighbor, level),
        ),
        final(store).links_at(neighbor, level).len() <= m,
        links_below(*final(store), level, old(store).node_count()),
        links_below(*final(store), level, node as nat + 1),
        forall|n: nat| old(store).room(n) ==> #[trigger] final(store).room(n),
        forall|i: u32, l: u8|
            i < old(store).node_count() && (i != neighbor || l != level)
                ==> #[trigger] final(store).links_at(i, l) == old(store).links_at(i, l),
{
    let ghost before = *store;
    let ghost d = distance_fn(before, *metric, before.vector_at(neighbor));
    let mut list: Vec<u32> = store.links_of(neighbor, level);
    if !contains(list.as_slice(), node) {
        list.push(node);
    }
    let ghost extended = list@;
    assert forall|i: int| 0 <= i < list@.len() implies #[trigger] list@[i] <= node by {
        let links = before.links_at(neighbor, level);
        if i < links.len() {
            assert(before.links_at(neighbor, level)[i] < node + 1);
        }
    }
    if list.len() > m {
        let vector: Vec<u32> = store.vector_of(neighbor);
        proof {
            store.lemma_store();
        }
        let mut candidates: Vec<Candidate> = Vec::new();
        let mut i: usize = 0;
        while i < list.len()
            invariant
                store.store_wf(),
                *store == before,
                metric_ok(*metric),
                vector@ == before.vector_at(neighbor),
                vector@.len() == store.dim(),
                d == distance_fn(before, *metric, before.vector_at(neighbor)),
                list@ == extended,
                i <= list@.len(),
                node < before.node_count(),
                forall|j: int| 0 <= j < list@.len() ==> #[trigger] list@[j] <= node,
                candidates@ == measured(list@.take(i as int), d),
            decreases list.len() - i,
        {
            let id: u32 = list[i];
            let dist: u32 = distance_to(store, metric, vector.as_slice(), id);
            candidates.push(Candidate::new(id, dist));
            proof {
                assert(candidates@ =~= measured(list@.take(i + 1), d));
            }
            i += 1;
        }
        proof {
            assert(list@.take(i as int) =~= list@);
        }
        let selected: Vec<u32> = select_neighbors_heuristic(candidates.as_slice(), m);
        assert forall|j: int| 0 <= j < selected@.len() implies #[trigger] selected@[j]
            <= node by {
            assert(holds(candidates@, selected@[j]));
            let c = choose|c: int|
                0 <= c < candidates@.len() && (#[trigger] candidates@[c]).node_id == selected@[j];
            assert(candidates@[c].node_id == list@[c]);
        }
        store.set_links(neighbor, level, selected.as_slice());
    } else {
        store.set_links(neighbor, level, list.as_slice());
    }
    proof {
        assert forall|id: u32, i: int|
            id < before.node_count() && 0 <= i < store.links_at(id, level).len() implies (
        #[trigger] store.links_at(id, level)[i]) < before.node_count() by {
            if id != neighbor {
                assert(before.links_at(id, level)[i] < before.node_count());
            }
        }
        assert forall|id: u32, i: int|
            id < node as nat + 1 && 0 <= i < store.links_at(id, level).len() implies (
        #[trigger] store.links_at(id, level)[i]) < node as nat + 1 by {
            if id != neighbor {
                assert(before.links_at(id, level)[i] < node as nat + 1);
            }
        }
    }
}

/// Links a new node at one level.
fn link_level<S: GraphStore, M: Fn(&[u32], &[u32]) -> u32>(
    store: &mut S,
    metric: &M,
    node: u32,
    vector: &[u32],
    level: u8,
    params: &HNSWParams,
    starts: &[u32],
) -> (chosen: Vec<u32>)
    requires
        old(store).store_wf(),
        metric_ok(*metric),
        shape_fits(*old(store), *params),
        node < old(store).node_count(),
        vector@ == old(store).vector_at(node),
        level <= params.max_level,
        links_below(*old(store), level, node as nat),
        links_below(*old(store), level, old(store).node_count()),
        starts@.no_duplicates(),
        forall|i: int| 0 <= i < starts@.len() ==> #[trigger] starts@[i] < node,
    ensures
        final(store).store_wf(),
        same_nodes(*old(store), *final(store)),
        shape_fits(*final(store), *params),
        links_below(*final(store), level, old(store).node_count()),
        links_below(*final(store), level, node as nat + 1),
        forall|n: nat| old(store).room(n) ==> #[trigger] final(store).room(n),
        chosen@.no_duplicates(),
        forall|i: int| 0 <= i < chosen@.len() ==> #[trigger] chosen@[i] < node,
        level_linked(
            *old(store),
            *final(store),
            *metric,
            node,
            level,
            *params,
            starts@,
            chosen@,
        ),
        forall|i: u32, l: u8|
            i < old(store).node_count() && l != level ==> #[trigger] final(store).links_at(i, l)
                == old(store).links_at(i, l),
{
    let ghost before = *store;
    let ghost count = store.node_count();
    proof {
        store.lemma_store();
    }
    let kept: CandidateQueue = beam_search(
        store,
        metric,
        vector,
        starts,
        params.ef_construction,
        level,
        false,
        false,
        node as usize,
    );
    let ghost kept_seq = kept@;
    let ghost seen = choose|seen: Set<u32>|
        {
            &&& #[trigger] beam_outcome(
                link_fn(before, level),
                distance_fn(before, *metric, vector@),
                starts@,
                params.ef_construction as nat,
                false,
                false,
                seen,
                kept_seq,
            )
            &&& forall|id: u32| #[trigger] seen.contains(id) ==> id < node
        };
    let m: usize = params.m_for_level(level);
    let candidates: Vec<Candidate> = kept.into_vec();
    let chosen: Vec<u32> = select_neighbors_heuristic(candidates.as_slice(), m);
    assert forall|i: int| 0 <= i < chosen@.len() implies #[trigger] chosen@[i] < node by {
        assert(holds(kept_seq, chosen@[i]));
        let j = choose|j: int|
            0 <= j < kept_seq.len() && (#[trigger] kept_seq[j]).node_id == chosen@[i];
        assert(seen.contains(kept_seq[j].node_id));
    }
    store.set_links(node, level, chosen.as_slice());
    proof {
        assert forall|id: u32, i: int|
            id < count && 0 <= i < store.links_at(id, level).len() implies (
        #[trigger] store.links_at(id, level)[i]) < count by {
            if id != node {
                assert(before.links_at(id, level)[i] < count);
            }
        }
        assert forall|id: u32, i: int|
            id < node as nat + 1 && 0 <= i < store.links_at(id, level).len() implies (
        #[trigger] store.links_at(id, level)[i]) < node as nat + 1 by {
            if id != node {
                assert(before.links_at(id, level)[i] < node);
            }
        }
    }
    let mut k: usize = 0;
    while k < chosen.len()
        invariant
            store.store_wf(),
            metric_ok(*metric),
            shape_fits(*store, *params),
            same_nodes(before, *store),
            forall|n: nat| before.room(n) ==> #[trigger] store.room(n),
            count == before.node_count(),
            node < count,
            level <= params.max_level,
            m == params.links(level),
            k <= chosen@.len(),
            chosen@.no_duplicates(),
            forall|i: int| 0 <= i < chosen@.len() ==> #[trigger] chosen@[i] < node,
            links_below(*store, level, count),
            links_below(*store, level, node as nat + 1),
            store.links_at(node, level) == chosen@,
            forall|j: int|
                0 <= j < k ==> relinked(
                    before.links_at(#[trigger] chosen@[j], level),
                    node,
                    m as nat,
                    distance_fn(before, *metric, before.vector_at(chosen@[j])),
                    store.links_at(chosen@[j], level),
                ),
            forall|i: u32|
                i < count && i != node && !chosen@.take(k as int).contains(i)
                    ==> #[trigger] store.links_at(i, level) == before.links_at(i, level),
            forall|i: u32, l: u8|
                i < count && l != level ==> #[trigger] store.links_at(i, l) == before.links_at(
                    i,
                    l,
                ),
        decreases chosen.len() - k,
    {
        let neighbor: u32 = chosen[k];
        let ghost mid = *store;
        link_back(store, metric, neighbor, node, level, m);
        proof {
            assert(!chosen@.take(k as int).contains(neighbor)) by {
                if chosen@.take(k as int).contains(neighbor) {
                    let j = choose|j: int|
                        0 <= j < k && chosen@.take(k as int)[j] == neighbor;
                    assert(chosen@[j] == chosen@[k as int]);
                }
            }
            assert(mid.links_at(neighbor, level) == before.links_at(neighbor, level));
            assert(distance_fn(mid, *metric, mid.vector_at(neighbor)) =~= distance_fn(
                before,
                *metric,
                before.vector_at(neighbor),
            ));
            assert forall|j: int| 0 <= j < k + 1 implies relinked(
                before.links_at(#[trigger] chosen@[j], level),
                node,
                m as nat,
                distance_fn(before, *metric, before.vector_at(chosen@[j])),
                store.links_at(chosen@[j], level),
            ) by {
                if j < k {
                    assert(chosen@[j] != chosen@[k as int]);
                    assert(store.links_at(chosen@[j], level) == mid.links_at(chosen@[j], level));
                }
            }
            assert forall|i: u32|
                i < count && i != node && !chosen@.take(k + 1).contains(i) implies #[trigger] store.links_at(
                i,
                level,
            ) == before.links_at(i, level) by {
                assert(chosen@.take(k + 1)[k as int] == neighbor);
                if chosen@.take(k as int).contains(i) {
                    let j = choose|j: int| 0 <= j < k && chosen@.take(k as int)[j] == i;
                    assert(chosen@.take(k + 1)[j] == i);
                }
                assert(i != neighbor);
                assert(store.links_at(i, level) == mid.links_at(i, level));
            }
        }
        k += 1;
    }
    proof {
        assert(chosen@.take(k as int) =~= chosen@);
        assert(!chosen@.contains(node));
        assert forall|id: u32| id < before.node_count() && id != node implies if chosen@.contains(
            id,
        ) {
            relinked(
                before.links_at(id, level),
                node,
                params.links(level),
                distance_fn(before, *metric, before.vector_at(id)),
                #[trigger] store.links_at(id, level),
            )
        } else {
            store.links_at(id, level) == before.links_at(id, level)
        } by {
            if chosen@.contains(id) {
                let j = choose|j: int| 0 <= j < chosen@.len() && chosen@[j] == id;
                assert(chosen@[j] == id);
            }
        }
        assert(closest(kept_seq, params.links(level), chosen@));
    }
    chosen
}

/// Links a new node on every level from its own down to 0. All nodes before it
/// are linked among themselves already.
pub fn insert_into_graph<S: GraphStore, M: Fn(&[u32], &[u32]) -> u32>(
    store: &mut S,
    metric: &M,
    node: u32,
    vector: &[u32],
    top: u8,
    entry: u32,
    params: &HNSWParams,
)
    requires
        old(store).store_wf(),
        metric_ok(*metric),
        shape_fits(*old(store), *params),
        node < old(store).node_count(),
        vector@ == old(store).vector_at(node),
        top <= params.max_level,
        entry < node,
        forall|level: u8| #[trigger] links_below(*old(store), level, node as nat),
        links_valid(*old(store)),
    ensures
        final(store).store_wf(),
        shape_fits(*final(store), *params),
        forall|level: u8| level <= top ==> #[trigger] links_below(
            *final(store),
            level,
            node as nat + 1,
        ),
        links_valid(*final(store)),
        forall|n: nat| old(store).room(n) ==> #[trigger] final(store).room(n),
        exists|chosen: Map<int, Seq<u32>>|
            #[trigger] node_linked(
                *old(store),
                *final(store),
                *metric,
                node,
                top,
                *params,
                descent_end(*old(store), *metric, node, top, entry),
                chosen,
            ),
{
    let ghost before = *store;
    let ghost count = store.node_count();
    proof {
        store.lemma_store();
    }
    let entry_level: u8 = store.level_of(entry);
    let nearest: Candidate = greedy_descent(
        store,
        metric,
        vector,
        entry,
        entry_level,
        top,
        node as usize,
    );
    let ghost end = nearest.node_id;
    assert(end == descent_end(before, *metric, node, top, entry));
    let ghost mut chosen: Map<int, Seq<u32>> = Map::empty();
    let mut starts: Vec<u32> = vec![nearest.node_id];
    assert(starts@ =~= seq![end]);
    let mut remaining: usize = top as usize + 1;
    while remaining > 0
        invariant
            store.store_wf(),
            metric_ok(*metric),
            shape_fits(*store, *params),
            same_nodes(before, *store),
            forall|n: nat| before.room(n) ==> #[trigger] store.room(n),
            count == before.node_count(),
            node < count,
            vector@ == before.vector_at(node),
            top <= params.max_level,
            remaining <= top + 1,
            forall|level: u8| #[trigger] links_below(before, level, node as nat),
            forall|level: u8| #[trigger] links_below(*store, level, count),
            forall|level: u8| remaining <= level <= top ==> #[trigger] links_below(
                *store,
                level,
                node as nat + 1,
            ),
            starts@.no_duplicates(),
            forall|i: int| 0 <= i < starts@.len() ==> #[trigger] starts@[i] < node,
            starts@ == starts_at(chosen, remaining - 1, top as int, end),
            forall|i: u32, l: u8|
                i < count && (l < remaining || l > top) ==> #[trigger] store.links_at(i, l)
                    == before.links_at(i, l),
            forall|level: u8|
                remaining <= level <= top ==> #[trigger] level_linked(
                    before,
                    *store,
                    *metric,
                    node,
                    level,
                    *params,
                    starts_at(chosen, level as int, top as int, end),
                    chosen[level as int],
                ),
        decreases remaining,
    {
        let level: u8 = (remaining - 1) as u8;
        let ghost mid = *store;
        proof {
            assert(links_below(before, level, node as nat));
            assert forall|id: u32, i: int|
                id < node as nat && 0 <= i < mid.links_at(id, level).len() implies (
            #[trigger] mid.links_at(id, level)[i]) < node as nat by {
                assert(before.links_at(id, level)[i] < node as nat);
            }
            assert(links_below(mid, level, node as nat));
            assert(links_below(mid, level, count));
        }
        let next: Vec<u32> = link_level(
            store,
            metric,
            node,
            vector,
            level,
            params,
            starts.as_slice(),
        );
        proof {
            let chosen2 = chosen.insert(level as int, next@);
            assert(link_fn(mid, level) =~= link_fn(before, level));
            assert forall|id: u32| id < count implies distance_fn(
                mid,
                *metric,
                #[trigger] mid.vector_at(id),
            ) == distance_fn(before, *metric, before.vector_at(id)) by {
                assert(distance_fn(mid, *metric, mid.vector_at(id)) =~= distance_fn(
                    before,
                    *metric,
                    before.vector_at(id),
                ));
            }
            assert(starts_at(chosen2, level as int, top as int, end) == starts@);
            assert(level_linked(
                before,
                *store,
                *metric,
                node,
                level,
                *params,
                starts@,
                next@,
            )) by {
                assert(mid.vector_at(node) == before.vector_at(node));
                assert forall|id: u32| id < before.node_count() && id != node implies if next@.contains(
                    id,
                ) {
                    relinked(
                        before.links_at(id, level),
                        node,
                        params.links(level),
                        distance_fn(before, *metric, before.vector_at(id)),
                        #[trigger] store.links_at(id, level),
                    )
                } else {
                    store.links_at(id, level) == before.links_at(id, level)
                } by {
                    assert(mid.links_at(id, level) == before.links_at(id, level));
                    assert(mid.vector_at(id) == before.vector_at(id));
                }
            }
            assert forall|l: u8| level < l <= top implies #[trigger] level_linked(
                before,
                *store,
                *metric,
                node,
                l,
                *params,
                starts_at(chosen2, l as int, top as int, end),
                chosen2[l as int],
            ) by {
                assert(level_linked(
                    before,
                    mid,
                    *metric,
                    node,
                    l,
                    *params,
                    starts_at(chosen, l as int, top as int, end),
                    chosen[l as int],
                ));
                assert(starts_at(chosen2, l as int, top as int, end) == starts_at(
                    chosen,
                    l as int,
                    top as int,
                    end,
                ));
                assert(store.links_at(node, l) == mid.links_at(node, l));
                assert forall|id: u32| id < before.node_count() && id != node implies if chosen2[l as int].contains(
                    id,
                ) {
                    relinked(
                        before.links_at(id, l),
                        node,
                        params.links(l),
                        distance_fn(before, *metric, before.vector_at(id)),
                        #[trigger] store.links_at(id, l),
                    )
                } else {
                    store.links_at(id, l) == before.links_at(id, l)
                } by {
                    assert(store.links_at(id, l) == mid.links_at(id, l));
                }
            }
            assert forall|l: u8| #[trigger] links_below(*store, l, count) by {
                if l != level {
                    assert(links_below(mid, l, count));
                    assert forall|id: u32, i: int|
                        id < count && 0 <= i < store.links_at(id, l).len() implies (
                    #[trigger] store.links_at(id, l)[i]) < count by {
                        assert(mid.links_at(id, l)[i] < count);
                    }
                }
            }
            assert forall|l: u8| level <= l <= top implies #[trigger] links_below(
                *store,
                l,
                node as nat + 1,
            ) by {
                if l != level {
                    assert(links_below(mid, l, node as nat + 1));
                    assert forall|id: u32, i: int|
                        id < node as nat + 1 && 0 <= i < store.links_at(id, l).len() implies (
                    #[trigger] store.links_at(id, l)[i]) < node as nat + 1 by {
                        assert(mid.links_at(id, l)[i] < node as nat + 1);
                    }
                }
            }
            chosen = chosen2;
        }
        starts = next;
        remaining = remaining - 1;
    }
    proof {
        assert(node_linked(before, *store, *metric, node, top, *params, end, chosen));
    }
}

// ---------------------------------------------------------------------------
// Levels
// ---------------------------------------------------------------------------

/// What a generator of the `rand` crate, seeded with a number, draws: first 32
/// bits, then 64.
pub uninterp spec fn std_rng_draw(seed: u64) -> (u32, u64);

/// Draws from `rand::rngs::StdRng`, made by `seed_from_u64`: `next_u32`, then
/// `next_u64`. The draws depend on the seed alone. Which bits they are is left
/// to the generator.
#[verifier::external_body]
fn draw(seed: u64) -> (r: (u32, u64))
    ensures
        r == std_rng_draw(seed),
{
    let mut rng = rand::rngs::StdRng::seed_from_u64(seed);
    let first: u32 = rng.next_u32();
    let second: u64 = rng.next_u64();
    (first, second)
}

/// What is asked of the function that turns a draw into a level: it accepts
/// any 24 bits, and depends on them alone.
pub open spec fn level_source_ok<L: Fn(u32) -> u8>(source: L) -> bool {
    &&& forall|bits: u32| bits < 0x100_0000 ==> #[trigger] call_requires(source, (bits,))
    &&& forall|bits: u32, r: u8, s: u8| #[trigger]
        call_ensures(source, (bits,), r) && #[trigger] call_ensures(source, (bits,), s) ==> r == s
}

/// The level for 24 random bits, before it is capped.
pub open spec fn level_value<L: Fn(u32) -> u8>(source: L, bits: u32) -> u8 {
    choose|r: u8| call_ensures(source, (bits,), r)
}

/// The level for a draw of 32 bits: 0 if the upper 24 are all zero, else what
/// the source makes of them, capped at `max_level`.
pub open spec fn capped_level<L: Fn(u32) -> u8>(source: L, draw: u32, max_level: u8) -> u8 {
    let bits = draw / 256;
    if bits == 0 {
        0
    } else if level_value(source, bits) <= max_level {
        level_value(source, bits)
    } else {
        max_level
    }
}

/// The level that a draw of 32 bits assigns.
pub fn level_for_draw<L: Fn(u32) -> u8>(source: &L, draw: u32, max_level: u8) -> (level: u8)
    requires
        level_source_ok(*source),
    ensures
        level == capped_level(*source, draw, max_level),
        level <= max_level,
{
    let bits: u32 = draw / 256;
    if bits == 0 {
        return 0;
    }
    let raw: u8 = source(bits);
    assert(call_ensures(*source, (bits,), raw));
    if raw <= max_level { raw } else { max_level }
}

// ---------------------------------------------------------------------------
// Insertion
// ---------------------------------------------------------------------------

/// `after` is `before` with one more node, which has no links yet. Its slot is
/// its id.
pub open spec fn node_pushed<S: GraphStore>(
    before: S,
    after: S,
    vector: Seq<u32>,
    level: u8,
) -> bool {
    let id = before.node_count() as u32;
    &&& after.store_wf()
    &&& after.node_count() == before.node_count() + 1
    &&& after.dim() == before.dim()
    &&& after.top_level() == before.top_level()
    &&& forall|l: u8| #[trigger] after.link_cap(l) == before.link_cap(l)
    &&& after.vector_at(id) == vector
    &&& after.level_at(id) == level
    &&& after.slot_at(id) == id
    &&& forall|i: u32| i < id ==> #[trigger] after.vector_at(i) == before.vector_at(i)
    &&& forall|i: u32| i < id ==> #[trigger] after.level_at(i) == before.level_at(i)
    &&& forall|i: u32| i < id ==> #[trigger] after.slot_at(i) == before.slot_at(i)
    &&& forall|i: u32, l: u8| i < id ==> #[trigger] after.links_at(i, l) == before.links_at(i, l)
    &&& forall|l: u8| #[trigger] after.links_at(id, l) == Seq::<u32>::empty()
    &&& after.quantization().same_mode(before.quantization())
    &&& after.stride() == before.stride()
}

/// What an insertion makes of an index: a node is added, with the level given;
/// unless it is the first one, it is linked, starting from the entry point; and
/// it becomes the entry point if it is the first node or reaches higher.
pub open spec fn node_inserted<S: GraphStore, M: Fn(&[u32], &[u32]) -> u32>(
    before: HNSWIndex<S>,
    after: HNSWIndex<S>,
    metric: M,
    vector: Seq<u32>,
    level: u8,
) -> bool {
    let id = before.storage.node_count() as u32;
    &&& after.params == before.params
    &&& after.distance_fn == before.distance_fn
    &&& match before.entry_point {
        None => {
            &&& node_pushed(before.storage, after.storage, vector, level)
            &&& after.entry_point == Some(id)
        },
        Some(entry) => {
            &&& exists|pushed: S, chosen: Map<int, Seq<u32>>|
                {
                    &&& #[trigger] node_pushed(before.storage, pushed, vector, level)
                    &&& #[trigger] node_linked(
                        pushed,
                        after.storage,
                        metric,
                        id,
                        level,
                        before.params,
                        descent_end(pushed, metric, id, level, entry),
                        chosen,
                    )
                }
            &&& after.entry_point == (if level > before.storage.level_at(entry) {
                Some(id)
            } else {
                Some(entry)
            })
        },
    }
}

impl<S: GraphStore> HNSWIndex<S> {
    /// Draws the level of the next node and moves the generator on.
    pub fn random_level<L: Fn(u32) -> u8>(&mut self, source: &L) -> (level: u8)
        requires
            level_source_ok(*source),
        ensures
            level == capped_level(
                *source,
                std_rng_draw(old(self).rng_state).0,
                old(self).params.max_level,
            ),
            level <= old(self).params.max_level,
            final(self).rng_state == std_rng_draw(old(self).rng_state).1,
            final(self).storage == old(self).storage,
            final(self).entry_point == old(self).entry_point,
            final(self).params == old(self).params,
            final(self).distance_fn == old(self).distance_fn,
    {
        let drawn: (u32, u64) = draw(self.rng_state);
        self.rng_state = drawn.1;
        level_for_draw(source, drawn.0, self.params.max_level)
    }

    /// Links a node that was pushed, and makes it the entry point if it is the
    /// first one or reaches higher.
    pub(crate) fn link_pushed<M: Fn(&[u32], &[u32]) -> u32>(
        &mut self,
        vector: &[u32],
        level: u8,
        metric: &M,
        id: u32,
        Ghost(before): Ghost<Self>,
    )
        requires
            before.wf(),
            metric_ok(*metric),
            level <= before.params.max_level,
            id == before.storage.node_count(),
            node_pushed(before.storage, old(self).storage, vector@, level),
            old(self).entry_point == before.entry_point,
            old(self).params == before.params,
            old(self).distance_fn == before.distance_fn,
        ensures
            final(self).wf(),
            final(self).storage.node_count() == old(self).storage.node_count(),
            final(self).rng_state == old(self).rng_state,
            node_inserted(before, *final(self), *metric, vector@, level),
            final(self).storage.quantization() == old(self).storage.quantization(),
            final(self).storage.stride() == old(self).storage.stride(),
            forall|n: nat| old(self).storage.room(n) ==> #[trigger] final(self).storage.room(n),
    {
        let ghost pushed = self.storage;
        proof {
            let count = before.storage.node_count();
            assert forall|l: u8| #[trigger] links_below(pushed, l, id as nat) by {
                assert(links_below(before.storage, l, count));
                assert forall|i: u32, j: int|
                    i < id as nat && 0 <= j < pushed.links_at(i, l).len() implies (
                #[trigger] pushed.links_at(i, l)[j]) < id as nat by {
                    assert(before.storage.links_at(i, l)[j] < count);
                }
            }
            assert forall|l: u8| #[trigger] links_below(pushed, l, pushed.node_count()) by {
                assert(links_below(pushed, l, id as nat));
                assert forall|i: u32, j: int|
                    i < pushed.node_count() && 0 <= j < pushed.links_at(i, l).len() implies (
                #[trigger] pushed.links_at(i, l)[j]) < pushed.node_count() by {
                    if i < id {
                        assert(pushed.links_at(i, l)[j] < id as nat);
                    }
                }
            }
            assert(shape_fits(pushed, before.params)) by {
                assert forall|i: u32| i < pushed.node_count() implies #[trigger] pushed.level_at(i)
                    <= before.params.max_level by {
                    if i < id {
                        assert(before.storage.level_at(i) <= before.params.max_level);
                    }
                }
                assert forall|i: u32, l: u8| i < pushed.node_count() implies #[trigger] pushed.links_at(
                    i,
                    l,
                ).len() <= before.params.links(l) by {
                    if i < id {
                        assert(before.storage.links_at(i, l).len() <= before.params.links(l));
                    }
                }
            }
        }
        match self.entry_point {
            None => {
                self.entry_point = Some(id);
            },
            Some(entry) => {
                let params: HNSWParams = self.params;
                insert_into_graph(&mut self.storage, metric, id, vector, level, entry, &params);
                let entry_level: u8 = self.storage.level_of(entry);
                proof {
                    let chosen = choose|chosen: Map<int, Seq<u32>>| #[trigger]
                        node_linked(
                            pushed,
                            self.storage,
                            *metric,
                            id,
                            level,
                            params,
                            descent_end(pushed, *metric, id, level, entry),
                            chosen,
                        );
                    assert(id == before.storage.node_count() as u32);
                    assert(node_linked(
                        pushed,
                        self.storage,
                        *metric,
                        before.storage.node_count() as u32,
                        level,
                        before.params,
                        descent_end(
                            pushed,
                            *metric,
                            before.storage.node_count() as u32,
                            level,
                            entry,
                        ),
                        chosen,
                    ));
                    assert(pushed.level_at(entry) == before.storage.level_at(entry));
                }
                if level > entry_level {
                    self.entry_point = Some(id);
                }
            },
        }
    }

    /// Inserts a vector with a level that has been drawn for it.
    pub fn insert_at_level<M: Fn(&[u32], &[u32]) -> u32>(
        &mut self,
        vector: &[u32],
        level: u8,
        metric: &M,
    ) -> (id: u32)
        requires
            old(self).wf(),
            metric_ok(*metric),
            vector@.len() == old(self).storage.dim(),
            level <= old(self).params.max_level,
            old(self).storage.room(1),
        ensures
            final(self).wf(),
            id == old(self).storage.node_count(),
            final(self).storage.node_count() == old(self).storage.node_count() + 1,
            final(self).rng_state == old(self).rng_state,
            node_inserted(*old(self), *final(self), *metric, vector@, level),
            final(self).storage.quantization() == old(self).storage.quantization().with(vector@),
            final(self).storage.stride() == old(self).storage.stride(),
            forall|n: nat| old(self).storage.room(n + 1) ==> #[trigger] final(self).storage.room(n),
    {
        let ghost before = *self;
        proof {
            self.storage.lemma_room(1, 1);
        }
        let id: u32 = self.storage.push_node(vector, level);
        assert(node_pushed(before.storage, self.storage, vector@, level));
        self.link_pushed(vector, level, metric, id, Ghost(before));
        id
    }

    /// Inserts a vector. The index stays as it is when the vector has the
    /// wrong length or a component that is not finite.
    pub fn insert<M: Fn(&[u32], &[u32]) -> u32, L: Fn(u32) -> u8>(
        &mut self,
        vector: &[u32],
        metric: &M,
        level_source: &L,
    ) -> (r: Result<u32>)
        requires
            old(self).wf(),
            metric_ok(*metric),
            level_source_ok(*level_source),
            vector@.len() == old(self).storage.dim() && all_finite(vector@)
                ==> old(self).storage.room(1),
        ensures
            final(self).wf(),
            vector@.len() != old(self).storage.dim() ==> r == Err::<u32, HNSWError>(
                HNSWError::DimensionMismatch {
                    expected: old(self).storage.dim() as usize,
                    actual: vector@.len() as usize,
                },
            ),
            vector@.len() == old(self).storage.dim() && !all_finite(vector@) ==> r == Err::<
                u32,
                HNSWError,
            >(HNSWError::InvalidVector),
            vector@.len() == old(self).storage.dim() && all_finite(vector@) ==> r is Ok,
            r is Err ==> *final(self) == *old(self),
            r is Ok ==> forall|n: nat| old(self).storage.room(n + 1) ==> #[trigger] final(self).storage.room(n),
            r matches Ok(id) ==> {
                &&& id == old(self).storage.node_count()
                &&& final(self).storage.node_count() == old(self).storage.node_count() + 1
                &&& final(self).rng_state == std_rng_draw(old(self).rng_state).1
                &&& final(self).storage.quantization() == old(self).storage.quantization().with(
                    vector@,
                )
                &&& final(self).storage.stride() == old(self).storage.stride()
                &&& node_inserted(
                    *old(self),
                    *final(self),
                    *metric,
                    vector@,
                    capped_level(
                        *level_source,
                        std_rng_draw(old(self).rng_state).0,
                        old(self).params.max_level,
                    ),
                )
            },
    {
        let expected: usize = self.storage.vector_dim();
        if vector.len() != expected {
            return Err(HNSWError::DimensionMismatch { expected, actual: vector.len() });
        }
        if !finite_vector(vector) {
            return Err(HNSWError::InvalidVector);
        }
        let level: u8 = self.random_level(level_source);
        let id: u32 = self.insert_at_level(vector, level, metric);
        Ok(id)
    }

    /// Inserts a vector; the slot plays no part.
    pub fn insert_with_slot<M: Fn(&[u32], &[u32]) -> u32, L: Fn(u32) -> u8>(
        &mut self,
        vector: &[u32],
        _slot: u32,
        metric: &M,
        level_source: &L,
    ) -> (r: Result<u32>)
        requires
            old(self).wf(),
            metric_ok(*metric),
            level_source_ok(*level_source),
            vector@.len() == old(self).storage.dim() && all_finite(vector@)
                ==> old(self).storage.room(1),
        ensures
            final(self).wf(),
            r is Ok <==> vector@.len() == old(self).storage.dim() && all_finite(vector@),
            vector@.len() != old(self).storage.dim() ==> r == Err::<u32, HNSWError>(
                HNSWError::DimensionMismatch {
                    expected: old(self).storage.dim() as usize,
                    actual: vector@.len() as usize,
                },
            ),
            vector@.len() == old(self).storage.dim() && !all_finite(vector@) ==> r == Err::<
                u32,
                HNSWError,
            >(HNSWError::InvalidVector),
            r is Err ==> *final(self) == *old(self),
            r is Ok ==> forall|n: nat| old(self).storage.room(n + 1) ==> #[trigger] final(self).storage.room(n),
            r matches Ok(id) ==> {
                &&& id == old(self).storage.node_count()
                &&& final(self).storage.node_count() == old(self).storage.node_count() + 1
                &&& final(self).rng_state == std_rng_draw(old(self).rng_state).1
                &&& final(self).storage.quantization() == old(self).storage.quantization().with(
                    vector@,
                )
                &&& final(self).storage.stride() == old(self).storage.stride()
                &&& node_inserted(
                    *old(self),
                    *final(self),
                    *metric,
                    vector@,
                    capped_level(
                        *level_source,
                        std_rng_draw(old(self).rng_state).0,
                        old(self).params.max_level,
                    ),
                )
            },
    {
        self.insert(vector, metric, level_source)
    }
}

} // verus!
