//! What holds of every insertion, said of the graph and the distances alone.

use vstd::prelude::*;

use super::batch::law_insertion_keeps_nodes;
use super::insert::{
    at_most, closest, descent_end, ids, level_linked, measured, node_inserted, node_linked, node_pushed,
    relinked, starts_at,
};
use super::search_laws::{away, closed_at, lemma_walked_level, walked_level};
use super::HNSWIndex;
use crate::candidates::{ordered, sorted};
use crate::distance::{float_lt, rank};
use crate::graph::{
    beam_outcome, descend, descend_levels, distance_fn, distinct, holds, link_closed, link_fn,
    links_below, reached, search_path, GraphStore,
};
use crate::types::{Candidate, HNSWParams};

verus! {

/// A node is in a list of nodes; or the list has at least `width` nodes, and
/// none of them is farther from the query.
pub open spec fn listed_or_beaten<S: GraphStore, M: Fn(&[u32], &[u32]) -> u32>(
    store: S,
    metric: M,
    query: Seq<u32>,
    list: Seq<u32>,
    width: nat,
    id: u32,
) -> bool {
    list.contains(id) || (list.len() >= width && forall|i: int|
        0 <= i < list.len() ==> rank(away(store, metric, query, #[trigger] list[i])) <= rank(
            away(store, metric, query, id),
        ))
}

/// A list names its nodes nearest first.
pub open spec fn nearest_first<S: GraphStore, M: Fn(&[u32], &[u32]) -> u32>(
    store: S,
    metric: M,
    query: Seq<u32>,
    list: Seq<u32>,
) -> bool {
    forall|i: int, j: int|
        0 <= i < j < list.len() ==> rank(away(store, metric, query, #[trigger] list[i])) <= rank(
            away(store, metric, query, #[trigger] list[j]),
        )
}

/// A node can be reached from some nodes along the links of one level.
pub open spec fn within_reach<S: GraphStore>(
    store: S,
    level: u8,
    starts: Seq<u32>,
    id: u32,
) -> bool {
    forall|c: Set<u32>|
        #[trigger] closed_at(store, level, c) && (forall|i: int|
            0 <= i < starts.len() ==> c.contains(#[trigger] starts[i])) ==> c.contains(id)
}

/// A node that has room for one more link gets one to the new node; one that
/// has none keeps links to the `most` nearest of the nodes it was linked to and
/// the new one.
pub open spec fn links_back<S: GraphStore, M: Fn(&[u32], &[u32]) -> u32>(
    store: S,
    metric: M,
    id: u32,
    node: u32,
    most: nat,
    before: Seq<u32>,
    after: Seq<u32>,
) -> bool {
    if before.len() < most {
        after == before.push(node)
    } else {
        let query = store.vector_at(id);
        &&& after.len() == most
        &&& nearest_first(store, metric, query, after)
        &&& forall|i: int|
            0 <= i < after.len() ==> (#[trigger] after[i]) == node || before.contains(after[i])
        &&& listed_or_beaten(store, metric, query, after, most, node)
        &&& forall|i: int|
            0 <= i < before.len() ==> #[trigger] listed_or_beaten(
                store,
                metric,
                query,
                after,
                most,
                before[i],
            )
    }
}

/// A node among those before it gets its links of one level: up to `m` of them,
/// on level 0 twice as many, nearest first, to nodes that can be reached from
/// the starting nodes. The list takes in whatever it could be started from, and
/// whatever a node of it links to, unless it is as long as it may get and holds
/// nothing farther. Its nodes link back, and no other links change.
pub open spec fn well_linked<S: GraphStore, M: Fn(&[u32], &[u32]) -> u32>(
    old_store: S,
    new_store: S,
    metric: M,
    node: u32,
    level: u8,
    params: HNSWParams,
    starts: Seq<u32>,
) -> bool {
    let query = new_store.vector_at(node);
    let list = new_store.links_at(node, level);
    let most = if level == 0 { 2 * params.m as nat } else { params.m as nat };
    let width = if most < params.ef_construction { most } else { params.ef_construction as nat };
    &&& list.len() <= most
    &&& list.no_duplicates()
    &&& nearest_first(new_store, metric, query, list)
    &&& forall|i: int|
        0 <= i < list.len() ==> (#[trigger] list[i]) < node && within_reach(
            old_store,
            level,
            starts,
            list[i],
        )
    &&& forall|i: int|
        0 <= i < starts.len() ==> listed_or_beaten(
            new_store,
            metric,
            query,
            list,
            width,
            #[trigger] starts[i],
        )
    &&& forall|i: int, j: int|
        0 <= i < list.len() && 0 <= j < old_store.links_at(list[i], level).len()
            ==> listed_or_beaten(
            new_store,
            metric,
            query,
            list,
            width,
            #[trigger] old_store.links_at(list[i], level)[j],
        )
    &&& forall|n: u32|
        n < node ==> if list.contains(n) {
            links_back(
                new_store,
                metric,
                n,
                node,
                most,
                old_store.links_at(n, level),
                #[trigger] new_store.links_at(n, level),
            )
        } else {
            new_store.links_at(n, level) == old_store.links_at(n, level)
        }
}

/// The nodes from which the neighbours of a node at a level are looked for: on
/// its topmost level a given one, and below those it is linked to one level
/// above.
pub open spec fn searched_from<S: GraphStore>(
    store: S,
    node: u32,
    level: u8,
    top: u8,
    nearest: u32,
) -> Seq<u32> {
    if level == top { seq![nearest] } else { store.links_at(node, (level + 1) as u8) }
}

/// A way from the entry point that walks on every level from its own down to
/// the one above `level`, if it reaches higher.
pub open spec fn walked_above<S: GraphStore, M: Fn(&[u32], &[u32]) -> u32>(
    store: S,
    metric: M,
    query: Seq<u32>,
    entry: u32,
    level: u8,
    trail: Seq<u32>,
) -> bool {
    let high = store.level_at(entry);
    &&& trail.len() == (if high > level { high - level + 1 } else { 1 })
    &&& trail[0] == entry
    &&& forall|i: int| 0 <= i < trail.len() ==> #[trigger] trail[i] < store.node_count()
    &&& forall|l: u8|
        level < l <= high ==> #[trigger] walked_level(
            store,
            metric,
            query,
            l,
            trail[high - l],
            trail[high - l + 1],
        )
}

pub(crate) proof fn lemma_same_candidates(a: Seq<Candidate>, b: Seq<Candidate>)
    requires
        a.to_multiset() == b.to_multiset(),
    ensures
        a.len() == b.len(),
        forall|i: int| 0 <= i < a.len() ==> b.contains(#[trigger] a[i]),
        forall|i: int| 0 <= i < b.len() ==> a.contains(#[trigger] b[i]),
        distinct(b) ==> distinct(a),
{
    broadcast use vstd::seq_lib::group_to_multiset_ensures;

    assert(a.to_multiset().len() == a.len());
    assert(b.to_multiset().len() == b.len());
    assert forall|i: int| 0 <= i < a.len() implies b.contains(#[trigger] a[i]) by {
        assert(a.contains(a[i]));
        assert(a.to_multiset().count(a[i]) > 0);
        assert(b.to_multiset().count(a[i]) > 0);
    }
    assert forall|i: int| 0 <= i < b.len() implies a.contains(#[trigger] b[i]) by {
        assert(b.contains(b[i]));
        assert(b.to_multiset().count(b[i]) > 0);
        assert(a.to_multiset().count(b[i]) > 0);
    }
    if distinct(b) {
        assert(b.no_duplicates()) by {
            assert forall|i: int, j: int|
                0 <= i < b.len() && 0 <= j < b.len() && i != j implies b[i] != b[j] by {
                assert(b[i].node_id != b[j].node_id);
            }
        }
        b.lemma_multiset_has_no_duplicates();
        a.lemma_multiset_has_no_duplicates_conv();
        assert forall|i: int, j: int|
            0 <= i < a.len() && 0 <= j < a.len() && i != j implies (#[trigger] a[i]).node_id
            != (#[trigger] a[j]).node_id by {
            assert(a[i] != a[j]);
            let p = choose|p: int| 0 <= p < b.len() && b[p] == a[i];
            let q = choose|q: int| 0 <= q < b.len() && b[q] == a[j];
            assert(b[p].node_id != b[q].node_id);
        }
    }
}

proof fn lemma_closest(
    candidates: Seq<Candidate>,
    m: nat,
    chosen: Seq<u32>,
    d: spec_fn(u32) -> u32,
)
    requires
        closest(candidates, m, chosen),
        forall|i: int|
            0 <= i < candidates.len() ==> (#[trigger] candidates[i]).distance == d(
                candidates[i].node_id,
            ),
    ensures
        chosen.len() == (if candidates.len() <= m { candidates.len() } else { m }),
        distinct(candidates) ==> chosen.no_duplicates(),
        forall|i: int| 0 <= i < chosen.len() ==> holds(candidates, #[trigger] chosen[i]),
        forall|i: int, j: int|
            0 <= i < j < chosen.len() ==> rank(d(#[trigger] chosen[i])) <= rank(
                d(#[trigger] chosen[j]),
            ),
        forall|id: u32| #[trigger]
            holds(candidates, id) ==> chosen.contains(id) || (chosen.len() == m && forall|i: int|
                0 <= i < chosen.len() ==> rank(d(#[trigger] chosen[i])) <= rank(d(id))),
{
    let p = choose|p: Seq<Candidate>|
        {
            &&& #[trigger] p.to_multiset() == candidates.to_multiset()
            &&& sorted(p)
            &&& chosen == ids(at_most(p, m))
        };
    lemma_same_candidates(p, candidates);
    assert forall|i: int| 0 <= i < p.len() implies holds(candidates, (#[trigger] p[i]).node_id)
        && p[i].distance == d(p[i].node_id) by {
        let q = choose|q: int| 0 <= q < candidates.len() && candidates[q] == p[i];
        assert(candidates[q].node_id == p[i].node_id);
    }
    assert forall|i: int| 0 <= i < chosen.len() implies #[trigger] chosen[i] == p[i].node_id by {}
    assert forall|i: int, j: int| 0 <= i < j < chosen.len() implies rank(d(#[trigger] chosen[i]))
        <= rank(d(#[trigger] chosen[j])) by {
        assert(ordered(p[i], p[j]));
    }
    if distinct(candidates) {
        assert forall|i: int, j: int|
            0 <= i < chosen.len() && 0 <= j < chosen.len() && i != j implies chosen[i]
            != chosen[j] by {
            assert(p[i].node_id != p[j].node_id);
        }
    }
    assert forall|id: u32| #[trigger] holds(candidates, id) implies chosen.contains(id) || (
    chosen.len() == m && forall|i: int|
        0 <= i < chosen.len() ==> rank(d(#[trigger] chosen[i])) <= rank(d(id))) by {
        let q = choose|q: int| 0 <= q < candidates.len() && (#[trigger] candidates[q]).node_id == id;
        assert(p.contains(candidates[q]));
        let r = choose|r: int| 0 <= r < p.len() && p[r] == candidates[q];
        if r < chosen.len() {
            assert(chosen[r] == id);
        } else {
            assert forall|i: int| 0 <= i < chosen.len() implies rank(d(#[trigger] chosen[i]))
                <= rank(d(id)) by {
                assert(ordered(p[i], p[r]));
            }
        }
    }
}

/// What a beam among the nodes below `node` holds.
pub(crate) proof fn lemma_beam_below<S: GraphStore, M: Fn(&[u32], &[u32]) -> u32>(
    store: S,
    metric: M,
    query: Seq<u32>,
    node: u32,
    level: u8,
    starts: Seq<u32>,
    ef: nat,
    ties: bool,
    seen: Set<u32>,
    kept: Seq<Candidate>,
)
    requires
        node < store.node_count(),
        links_below(store, level, node as nat),
        forall|i: int| 0 <= i < starts.len() ==> #[trigger] starts[i] < node,
        beam_outcome(
            link_fn(store, level),
            distance_fn(store, metric, query),
            starts,
            ef,
            false,
            ties,
            seen,
            kept,
        ),
    ensures
        forall|id: u32| #[trigger] seen.contains(id) ==> id < node,
        forall|id: u32| #[trigger] holds(kept, id) ==> id < node && within_reach(
            store,
            level,
            starts,
            id,
        ),
        forall|i: int|
            0 <= i < kept.len() ==> (#[trigger] kept[i]).distance == away(
                store,
                metric,
                query,
                kept[i].node_id,
            ),
        forall|id: u32| #[trigger]
            seen.contains(id) ==> holds(kept, id) || (kept.len() >= ef && forall|i: int|
                0 <= i < kept.len() ==> (#[trigger] kept[i]).rank() <= rank(
                    away(store, metric, query, id),
                )),
        forall|i: int| 0 <= i < starts.len() ==> seen.contains(#[trigger] starts[i]),
        forall|id: u32, j: int|
            holds(kept, id) && 0 <= j < store.links_at(id, level).len() ==> seen.contains(
                #[trigger] store.links_at(id, level)[j],
            ),
{
    let links = link_fn(store, level);
    let d = distance_fn(store, metric, query);
    let below = Set::new(|id: u32| id < node);
    assert(link_closed(links, starts, below)) by {
        assert forall|id: u32, i: int|
            below.contains(id) && 0 <= i < links(id).len() implies below.contains(
            #[trigger] links(id)[i],
        ) by {
            assert(store.links_at(id, level)[i] < node as nat);
        }
    }
    assert(seen.subset_of(below));
    assert forall|id: u32| #[trigger] seen.contains(id) implies id < node by {
        assert(below.contains(id));
    }
    assert forall|id: u32| #[trigger] holds(kept, id) implies id < node && within_reach(
        store,
        level,
        starts,
        id,
    ) by {
        let p = choose|p: int| 0 <= p < kept.len() && (#[trigger] kept[p]).node_id == id;
        assert(seen.contains(kept[p].node_id));
        assert forall|c: Set<u32>|
            #[trigger] closed_at(store, level, c) && (forall|i: int|
                0 <= i < starts.len() ==> c.contains(#[trigger] starts[i])) implies c.contains(
            id,
        ) by {
            assert(link_closed(links, starts, c)) by {
                assert forall|x: u32, i: int|
                    c.contains(x) && 0 <= i < links(x).len() implies c.contains(
                    #[trigger] links(x)[i],
                ) by {
                    assert(c.contains(store.links_at(x, level)[i]));
                }
            }
            assert(seen.subset_of(c));
        }
    }
    assert forall|i: int| 0 <= i < kept.len() implies (#[trigger] kept[i]).distance == away(
        store,
        metric,
        query,
        kept[i].node_id,
    ) by {
        assert(seen.contains(kept[i].node_id));
    }
    assert forall|id: u32| #[trigger] seen.contains(id) implies holds(kept, id) || (kept.len() >= ef
        && forall|i: int|
        0 <= i < kept.len() ==> (#[trigger] kept[i]).rank() <= rank(
            away(store, metric, query, id),
        )) by {
        if !holds(kept, id) {
            assert forall|i: int| 0 <= i < kept.len() implies (#[trigger] kept[i]).rank() <= rank(
                away(store, metric, query, id),
            ) by {
                if i < kept.len() - 1 {
                    assert(ordered(kept[i], kept[kept.len() - 1]));
                }
            }
        }
    }
    assert forall|id: u32, j: int|
        holds(kept, id) && 0 <= j < store.links_at(id, level).len() implies seen.contains(
        #[trigger] store.links_at(id, level)[j],
    ) by {
        assert(links(id) == store.links_at(id, level));
        let followed = choose|followed: Seq<u32>|
            {
                &&& #[trigger] search_path(
                    links,
                    d,
                    starts,
                    ef,
                    false,
                    ties,
                    followed,
                )
                &&& seen == reached(links, starts, followed)
                &&& forall|x: u32| #[trigger] holds(kept, x) ==> followed.contains(x)
            };
        assert(followed.contains(id));
        let q = choose|q: int| 0 <= q < followed.len() && followed[q] == id;
        assert(links(followed[q]).contains(links(id)[j]));
    }
}

proof fn lemma_links_back<S: GraphStore, M: Fn(&[u32], &[u32]) -> u32>(
    store: S,
    metric: M,
    id: u32,
    node: u32,
    most: nat,
    before: Seq<u32>,
    after: Seq<u32>,
)
    requires
        id < store.node_count(),
        node < store.node_count(),
        forall|i: int| 0 <= i < before.len() ==> #[trigger] before[i] < node,
        relinked(before, node, most, distance_fn(store, metric, store.vector_at(id)), after),
    ensures
        links_back(store, metric, id, node, most, before, after),
{
    let d = distance_fn(store, metric, store.vector_at(id));
    let query = store.vector_at(id);
    assert(!before.contains(node)) by {
        if before.contains(node) {
            let i = choose|i: int| 0 <= i < before.len() && before[i] == node;
            assert(before[i] < node);
        }
    }
    let extended = before.push(node);
    if before.len() >= most {
        let c = measured(extended, d);
        lemma_closest(c, most, after, d);
        assert forall|i: int| 0 <= i < extended.len() implies holds(c, #[trigger] extended[i]) by {
            assert(c[i].node_id == extended[i]);
        }
        assert forall|i: int| 0 <= i < after.len() implies ((#[trigger] after[i]) == node
            || before.contains(after[i])) && d(after[i]) == away(store, metric, query, after[i]) by {
            assert(holds(c, after[i]));
            let q = choose|q: int| 0 <= q < c.len() && (#[trigger] c[q]).node_id == after[i];
            assert(extended[q] == after[i]);
            if q < before.len() {
                assert(before[q] == after[i]);
            }
        }
        assert forall|x: u32| #[trigger] holds(c, x) && x <= node implies listed_or_beaten(
            store,
            metric,
            query,
            after,
            most,
            x,
        ) by {}
        assert(extended[before.len() as int] == node);
        assert forall|i: int| 0 <= i < before.len() implies #[trigger] listed_or_beaten(
            store,
            metric,
            query,
            after,
            most,
            before[i],
        ) by {
            assert(extended[i] == before[i]);
        }
    }
}

proof fn lemma_level_linked<S: GraphStore, M: Fn(&[u32], &[u32]) -> u32>(
    before: S,
    after: S,
    metric: M,
    node: u32,
    level: u8,
    params: HNSWParams,
    starts: Seq<u32>,
    chosen: Seq<u32>,
)
    requires
        node < before.node_count(),
        links_below(before, level, node as nat),
        forall|i: int| 0 <= i < starts.len() ==> #[trigger] starts[i] < node,
        level_linked(before, after, metric, node, level, params, starts, chosen),
        forall|i: u32|
            i < before.node_count() ==> #[trigger] after.vector_at(i) == before.vector_at(i),
        after.node_count() == before.node_count(),
    ensures
        well_linked(before, after, metric, node, level, params, starts),
        after.links_at(node, level) == chosen,
{
    let query = before.vector_at(node);
    let d = distance_fn(before, metric, query);
    let ef = params.ef_construction as nat;
    let most = params.links(level);
    let width = if most < ef { most } else { ef };
    let (seen, kept) = choose|seen: Set<u32>, kept: Seq<Candidate>|
        {
            &&& #[trigger] beam_outcome(
                link_fn(before, level),
                d,
                starts,
                ef,
                false,
                false,
                seen,
                kept,
            )
            &&& closest(kept, most, chosen)
        };
    lemma_beam_below(before, metric, query, node, level, starts, ef, false, seen, kept);
    lemma_closest(kept, most, chosen, d);
    assert forall|x: u32| x < node implies #[trigger] away(after, metric, query, x) == away(
        before,
        metric,
        query,
        x,
    ) && away(before, metric, query, x) == d(x) by {}
    assert forall|i: int| 0 <= i < chosen.len() implies (#[trigger] chosen[i]) < node by {
        assert(holds(kept, chosen[i]));
    }
    assert forall|x: u32| #[trigger] seen.contains(x) implies listed_or_beaten(
        after,
        metric,
        query,
        chosen,
        width,
        x,
    ) by {
        if !chosen.contains(x) {
            assert(chosen.len() >= width);
            assert forall|i: int| 0 <= i < chosen.len() implies rank(
                away(after, metric, query, #[trigger] chosen[i]),
            ) <= rank(away(after, metric, query, x)) by {
                assert(holds(kept, chosen[i]));
                let q = choose|q: int|
                    0 <= q < kept.len() && (#[trigger] kept[q]).node_id == chosen[i];
                if !holds(kept, x) {
                    assert(kept[q].rank() <= rank(away(before, metric, query, x)));
                }
            }
        }
    }
    assert forall|i: int, j: int|
        0 <= i < chosen.len() && 0 <= j < before.links_at(
            chosen[i],
            level,
        ).len() implies listed_or_beaten(
        after,
        metric,
        query,
        chosen,
        width,
        #[trigger] before.links_at(chosen[i], level)[j],
    ) by {
        assert(holds(kept, chosen[i]));
        assert(seen.contains(before.links_at(chosen[i], level)[j]));
    }
    assert forall|n: u32| n < node implies if chosen.contains(n) {
        links_back(
            after,
            metric,
            n,
            node,
            most,
            before.links_at(n, level),
            #[trigger] after.links_at(n, level),
        )
    } else {
        after.links_at(n, level) == before.links_at(n, level)
    } by {
        if chosen.contains(n) {
            let list = before.links_at(n, level);
            assert forall|i: int| 0 <= i < list.len() implies #[trigger] list[i] < node by {
                assert(before.links_at(n, level)[i] < node as nat);
            }
            let da = distance_fn(after, metric, after.vector_at(n));
            let db = distance_fn(before, metric, before.vector_at(n));
            assert(da =~= db);
            lemma_links_back(after, metric, n, node, most, list, after.links_at(n, level));
        }
    }
}

/// A node that is linked finds its place on every level from its own down to 0,
/// each time from the nodes it was linked to one level above; the levels above
/// its own stay as they are.
pub proof fn law_node_is_linked<S: GraphStore, M: Fn(&[u32], &[u32]) -> u32>(
    before: S,
    after: S,
    metric: M,
    node: u32,
    top: u8,
    params: HNSWParams,
    nearest: u32,
    chosen: Map<int, Seq<u32>>,
)
    requires
        node < before.node_count(),
        forall|level: u8| #[trigger] links_below(before, level, node as nat),
        nearest < node,
        node_linked(before, after, metric, node, top, params, nearest, chosen),
    ensures
        forall|level: u8|
            level <= top ==> #[trigger] well_linked(
                before,
                after,
                metric,
                node,
                level,
                params,
                searched_from(after, node, level, top, nearest),
            ),
        forall|id: u32, level: u8|
            id < before.node_count() && level > top ==> #[trigger] after.links_at(id, level)
                == before.links_at(id, level),
{
    assert forall|level: u8| level <= top implies #[trigger] well_linked(
        before,
        after,
        metric,
        node,
        level,
        params,
        searched_from(after, node, level, top, nearest),
    ) by {
        lemma_levels_linked(before, after, metric, node, top, params, nearest, chosen, level);
    }
}

proof fn lemma_levels_linked<S: GraphStore, M: Fn(&[u32], &[u32]) -> u32>(
    before: S,
    after: S,
    metric: M,
    node: u32,
    top: u8,
    params: HNSWParams,
    nearest: u32,
    chosen: Map<int, Seq<u32>>,
    level: u8,
)
    requires
        node < before.node_count(),
        forall|level: u8| #[trigger] links_below(before, level, node as nat),
        nearest < node,
        node_linked(before, after, metric, node, top, params, nearest, chosen),
        level <= top,
    ensures
        well_linked(
            before,
            after,
            metric,
            node,
            level,
            params,
            searched_from(after, node, level, top, nearest),
        ),
        after.links_at(node, level) == chosen[level as int],
    decreases top - level,
{
    let starts = starts_at(chosen, level as int, top as int, nearest);
    if level < top {
        let above = (level + 1) as u8;
        lemma_levels_linked(before, after, metric, node, top, params, nearest, chosen, above);
        assert forall|i: int| 0 <= i < starts.len() implies #[trigger] starts[i] < node by {
            assert(after.links_at(node, above)[i] < node);
        }
    }
    assert(links_below(before, level, node as nat));
    assert(level_linked(
        before,
        after,
        metric,
        node,
        level,
        params,
        starts,
        chosen[level as int],
    ));
    lemma_level_linked(
        before,
        after,
        metric,
        node,
        level,
        params,
        starts,
        chosen[level as int],
    );
}

pub(crate) proof fn lemma_walked_above<S: GraphStore, M: Fn(&[u32], &[u32]) -> u32>(
    store: S,
    metric: M,
    query: Seq<u32>,
    node: u32,
    best: Candidate,
    high: u8,
    low: u8,
) -> (trail: Seq<u32>)
    requires
        node < store.node_count(),
        forall|level: u8| #[trigger] links_below(store, level, node as nat),
        best.node_id < node,
        best.distance == away(store, metric, query, best.node_id),
    ensures
        trail.len() == (if high > low { high - low + 1 } else { 1 }),
        trail[0] == best.node_id,
        trail.last() == descend_levels(
            store,
            distance_fn(store, metric, query),
            best,
            high,
            low,
        ).node_id,
        forall|i: int| 0 <= i < trail.len() ==> #[trigger] trail[i] < node,
        forall|l: u8|
            low < l <= high ==> #[trigger] walked_level(
                store,
                metric,
                query,
                l,
                trail[high - l],
                trail[high - l + 1],
            ),
    decreases high,
{
    if high <= low {
        seq![best.node_id]
    } else {
        let d = distance_fn(store, metric, query);
        let next = descend(link_fn(store, high), d, best);
        assert(links_below(store, high, node as nat));
        lemma_walked_level(store, metric, query, high, node as nat, best);
        let rest = lemma_walked_above(store, metric, query, node, next, (high - 1) as u8, low);
        let trail = seq![best.node_id] + rest;
        assert forall|l: u8| low < l <= high implies #[trigger] walked_level(
            store,
            metric,
            query,
            l,
            trail[high - l],
            trail[high - l + 1],
        ) by {
            if l < high {
                assert(walked_level(
                    store,
                    metric,
                    query,
                    l,
                    rest[(high - 1) - l],
                    rest[(high - 1) - l + 1],
                ));
                assert(trail[high - l] == rest[high - l - 1]);
                assert(trail[high - l + 1] == rest[high - l]);
            }
        }
        assert forall|i: int| 0 <= i < trail.len() implies #[trigger] trail[i] < node by {
            if i > 0 {
                assert(trail[i] == rest[i - 1]);
            }
        }
        assert(trail.last() == rest.last());
        trail
    }
}

/// An insertion puts a new node behind the others and links it well: from the
/// entry point it walks down to the level of the node, and on every level from
/// there to 0 the node gets its links. The levels above stay as they are, and
/// the entry point becomes the new node exactly if that reaches higher.
pub proof fn law_insertion_links<S: GraphStore, M: Fn(&[u32], &[u32]) -> u32>(
    before: HNSWIndex<S>,
    after: HNSWIndex<S>,
    metric: M,
    vector: Seq<u32>,
    level: u8,
) -> (trail: Seq<u32>)
    requires
        before.wf(),
        before.storage.node_count() <= u32::MAX,
        before.entry_point is Some,
        node_inserted(before, after, metric, vector, level),
    ensures
        ({
            let node = before.storage.node_count() as u32;
            let entry = before.entry_point->0;
            &&& after.storage.node_count() == before.storage.node_count() + 1
            &&& after.storage.vector_at(node) == vector
            &&& after.storage.level_at(node) == level
            &&& walked_above(before.storage, metric, vector, entry, level, trail)
            &&& forall|l: u8|
                l <= level ==> #[trigger] well_linked(
                    before.storage,
                    after.storage,
                    metric,
                    node,
                    l,
                    before.params,
                    searched_from(after.storage, node, l, level, trail.last()),
                )
            &&& forall|id: u32, l: u8|
                id < node && l > level ==> #[trigger] after.storage.links_at(id, l)
                    == before.storage.links_at(id, l)
            &&& forall|l: u8|
                l > level ==> #[trigger] after.storage.links_at(node, l) == Seq::<u32>::empty()
            &&& after.entry_point == Some(
                if level > before.storage.level_at(entry) {
                    node
                } else {
                    entry
                },
            )
        }),
{
    let node = before.storage.node_count() as u32;
    let entry = before.entry_point->0;
    let (pushed, chosen) = choose|pushed: S, chosen: Map<int, Seq<u32>>|
        {
            &&& #[trigger] node_pushed(before.storage, pushed, vector, level)
            &&& #[trigger] node_linked(
                pushed,
                after.storage,
                metric,
                node,
                level,
                before.params,
                descent_end(pushed, metric, node, level, entry),
                chosen,
            )
        };
    assert forall|l: u8| #[trigger] links_below(pushed, l, node as nat) by {
        assert(links_below(before.storage, l, before.storage.node_count()));
        assert forall|i: u32, j: int|
            i < node as nat && 0 <= j < pushed.links_at(i, l).len() implies (#[trigger] pushed.links_at(
            i,
            l,
        )[j]) < node as nat by {
            assert(before.storage.links_at(i, l)[j] < before.storage.node_count());
        }
    }
    let best = Candidate {
        node_id: entry,
        distance: distance_fn(pushed, metric, vector)(entry),
    };
    let trail = lemma_walked_above(
        pushed,
        metric,
        vector,
        node,
        best,
        pushed.level_at(entry),
        level,
    );
    assert(trail.last() == descent_end(pushed, metric, node, level, entry));
    assert(trail[trail.len() - 1] < node);
    law_node_is_linked(
        pushed,
        after.storage,
        metric,
        node,
        level,
        before.params,
        trail.last(),
        chosen,
    );
    let high = before.storage.level_at(entry);
    assert(pushed.level_at(entry) == high);
    assert forall|l: u8| level < l <= high implies #[trigger] walked_level(
        before.storage,
        metric,
        vector,
        l,
        trail[high - l],
        trail[high - l + 1],
    ) by {
        assert(walked_level(pushed, metric, vector, l, trail[high - l], trail[high - l + 1]));
        assert(trail[high - l] < node && trail[high - l + 1] < node);
        assert(links_below(pushed, l, node as nat));
        lemma_walk_before(
            before.storage,
            pushed,
            metric,
            vector,
            level,
            l,
            trail[high - l],
            trail[high - l + 1],
        );
    }
    assert forall|l: u8| l <= level implies #[trigger] well_linked(
        before.storage,
        after.storage,
        metric,
        node,
        l,
        before.params,
        searched_from(after.storage, node, l, level, trail.last()),
    ) by {
        let starts = searched_from(after.storage, node, l, level, trail.last());
        assert(well_linked(pushed, after.storage, metric, node, l, before.params, starts));
        assert(links_below(pushed, l, node as nat));
        lemma_linked_before(
            before.storage,
            pushed,
            after.storage,
            metric,
            vector,
            level,
            node,
            l,
            before.params,
            starts,
        );
    }
    assert forall|id: u32, l: u8| id < node && l > level implies #[trigger] after.storage.links_at(
        id,
        l,
    ) == before.storage.links_at(id, l) by {
        assert(pushed.links_at(id, l) == before.storage.links_at(id, l));
    }
    assert forall|l: u8| l > level implies #[trigger] after.storage.links_at(node, l) == Seq::<
        u32,
    >::empty() by {
        assert(pushed.links_at(node, l) == Seq::<u32>::empty());
    }
    trail
}

proof fn lemma_closed_before<S: GraphStore>(
    before: S,
    pushed: S,
    vector: Seq<u32>,
    level: u8,
    l: u8,
    c: Set<u32>,
)
    requires
        before.node_count() <= u32::MAX,
        node_pushed(before, pushed, vector, level),
        closed_at(before, l, c),
    ensures
        closed_at(pushed, l, c),
{
    assert forall|id: u32, i: int|
        c.contains(id) && id < pushed.node_count() && 0 <= i < pushed.links_at(
            id,
            l,
        ).len() implies c.contains(#[trigger] pushed.links_at(id, l)[i]) by {
        if id < before.node_count() {
            assert(pushed.links_at(id, l) == before.links_at(id, l));
            assert(c.contains(before.links_at(id, l)[i]));
        } else {
            assert(id == before.node_count() as u32);
            assert(pushed.links_at(id, l) == Seq::<u32>::empty());
        }
    }
}

proof fn lemma_walk_before<S: GraphStore, M: Fn(&[u32], &[u32]) -> u32>(
    before: S,
    pushed: S,
    metric: M,
    vector: Seq<u32>,
    level: u8,
    l: u8,
    from: u32,
    to: u32,
)
    requires
        before.node_count() <= u32::MAX,
        node_pushed(before, pushed, vector, level),
        links_below(pushed, l, before.node_count()),
        from < before.node_count(),
        to < before.node_count(),
        walked_level(pushed, metric, vector, l, from, to),
    ensures
        walked_level(before, metric, vector, l, from, to),
{
    assert forall|x: u32| x < before.node_count() implies #[trigger] away(before, metric, vector, x)
        == away(pushed, metric, vector, x) by {
        assert(pushed.vector_at(x) == before.vector_at(x));
    }
    assert(pushed.links_at(from, l) == before.links_at(from, l));
    assert(pushed.links_at(to, l) == before.links_at(to, l));
    assert forall|i: int| 0 <= i < before.links_at(from, l).len() implies !float_lt(
        away(before, metric, vector, #[trigger] before.links_at(from, l)[i]),
        away(before, metric, vector, to),
    ) by {
        assert(pushed.links_at(from, l)[i] < before.node_count());
    }
    assert forall|i: int| 0 <= i < before.links_at(to, l).len() implies !float_lt(
        away(before, metric, vector, #[trigger] before.links_at(to, l)[i]),
        away(before, metric, vector, to),
    ) by {
        assert(pushed.links_at(to, l)[i] < before.node_count());
    }
    assert forall|c: Set<u32>| #[trigger] closed_at(before, l, c) && c.contains(from) implies c.contains(
        to,
    ) by {
        lemma_closed_before(before, pushed, vector, level, l, c);
    }
}

proof fn lemma_linked_before<S: GraphStore, M: Fn(&[u32], &[u32]) -> u32>(
    before: S,
    pushed: S,
    after: S,
    metric: M,
    vector: Seq<u32>,
    level: u8,
    node: u32,
    l: u8,
    params: HNSWParams,
    starts: Seq<u32>,
)
    requires
        before.node_count() <= u32::MAX,
        node == before.node_count(),
        node_pushed(before, pushed, vector, level),
        well_linked(pushed, after, metric, node, l, params, starts),
    ensures
        well_linked(before, after, metric, node, l, params, starts),
{
    let query = after.vector_at(node);
    let list = after.links_at(node, l);
    let most = if l == 0 { 2 * params.m as nat } else { params.m as nat };
    let width = if most < params.ef_construction { most } else { params.ef_construction as nat };
    assert forall|n: u32| n < node implies #[trigger] pushed.links_at(n, l) == before.links_at(
        n,
        l,
    ) by {}
    assert forall|i: int| 0 <= i < list.len() implies (#[trigger] list[i]) < node && within_reach(
        before,
        l,
        starts,
        list[i],
    ) by {
        assert(within_reach(pushed, l, starts, list[i]));
        assert forall|c: Set<u32>|
            #[trigger] closed_at(before, l, c) && (forall|j: int|
                0 <= j < starts.len() ==> c.contains(#[trigger] starts[j])) implies c.contains(
            list[i],
        ) by {
            lemma_closed_before(before, pushed, vector, level, l, c);
            assert(closed_at(pushed, l, c));
        }
    }
    assert forall|i: int, j: int|
        0 <= i < list.len() && 0 <= j < before.links_at(list[i], l).len() implies listed_or_beaten(
        after,
        metric,
        query,
        list,
        width,
        #[trigger] before.links_at(list[i], l)[j],
    ) by {
        assert(list[i] < node);
        assert(pushed.links_at(list[i], l) == before.links_at(list[i], l));
        assert(listed_or_beaten(
            after,
            metric,
            query,
            list,
            width,
            pushed.links_at(list[i], l)[j],
        ));
    }
    assert forall|n: u32| n < node implies if list.contains(n) {
        links_back(
            after,
            metric,
            n,
            node,
            most,
            before.links_at(n, l),
            #[trigger] after.links_at(n, l),
        )
    } else {
        after.links_at(n, l) == before.links_at(n, l)
    } by {
        assert(pushed.links_at(n, l) == before.links_at(n, l));
    }
}

/// A new node has neighbours on every level from its own down to 0, unless the
/// parameters allow none; and its nearest is no farther than the entry point.
pub proof fn law_new_node_has_neighbors<S: GraphStore, M: Fn(&[u32], &[u32]) -> u32>(
    before: HNSWIndex<S>,
    after: HNSWIndex<S>,
    metric: M,
    vector: Seq<u32>,
    level: u8,
    l: u8,
)
    requires
        before.wf(),
        before.storage.node_count() <= u32::MAX,
        before.entry_point is Some,
        before.params.m > 0,
        before.params.ef_construction > 0,
        node_inserted(before, after, metric, vector, level),
        l <= level,
    ensures
        ({
            let list = after.storage.links_at(before.storage.node_count() as u32, l);
            &&& list.len() > 0
            &&& rank(away(after.storage, metric, vector, list[0])) <= rank(
                away(before.storage, metric, vector, before.entry_point->0),
            )
        }),
{
    let trail = law_insertion_links(before, after, metric, vector, level);
    law_insertion_keeps_nodes(&before, &after, metric, vector, level);
    let entry = before.entry_point->0;
    lemma_trail_falls(before.storage, metric, vector, entry, level, trail, trail.len() - 1);
    assert(trail[trail.len() - 1] < before.storage.node_count());
    assert(after.storage.vector_at(trail.last()) == before.storage.vector_at(trail.last()));
    lemma_has_neighbors(before, after, metric, vector, level, trail, l);
}

proof fn lemma_trail_falls<S: GraphStore, M: Fn(&[u32], &[u32]) -> u32>(
    store: S,
    metric: M,
    query: Seq<u32>,
    entry: u32,
    level: u8,
    trail: Seq<u32>,
    i: int,
)
    requires
        walked_above(store, metric, query, entry, level, trail),
        0 <= i < trail.len(),
    ensures
        rank(away(store, metric, query, trail[i])) <= rank(away(store, metric, query, entry)),
    decreases i,
{
    if i > 0 {
        let high = store.level_at(entry);
        lemma_trail_falls(store, metric, query, entry, level, trail, i - 1);
        let l = (high - (i - 1)) as u8;
        assert(walked_level(store, metric, query, l, trail[high - l], trail[high - l + 1]));
    }
}

proof fn lemma_has_neighbors<S: GraphStore, M: Fn(&[u32], &[u32]) -> u32>(
    before: HNSWIndex<S>,
    after: HNSWIndex<S>,
    metric: M,
    vector: Seq<u32>,
    level: u8,
    trail: Seq<u32>,
    l: u8,
)
    requires
        before.params.m > 0,
        before.params.ef_construction > 0,
        l <= level,
        trail.len() > 0,
        after.storage.vector_at(before.storage.node_count() as u32) == vector,
        forall|x: u8|
            x <= level ==> #[trigger] well_linked(
                before.storage,
                after.storage,
                metric,
                before.storage.node_count() as u32,
                x,
                before.params,
                searched_from(
                    after.storage,
                    before.storage.node_count() as u32,
                    x,
                    level,
                    trail.last(),
                ),
            ),
    ensures
        ({
            let list = after.storage.links_at(before.storage.node_count() as u32, l);
            &&& list.len() > 0
            &&& rank(away(after.storage, metric, vector, list[0])) <= rank(
                away(after.storage, metric, vector, trail.last()),
            )
        }),
    decreases level - l,
{
    let node = before.storage.node_count() as u32;
    let starts = searched_from(after.storage, node, l, level, trail.last());
    let list = after.storage.links_at(node, l);
    let most = if l == 0 { 2 * before.params.m as nat } else { before.params.m as nat };
    let ef = before.params.ef_construction as nat;
    let width = if most < ef { most } else { ef };
    if l < level {
        lemma_has_neighbors(before, after, metric, vector, level, trail, (l + 1) as u8);
    }
    assert(well_linked(
        before.storage,
        after.storage,
        metric,
        node,
        l,
        before.params,
        searched_from(after.storage, node, l, level, trail.last()),
    ));
    assert(starts.len() > 0);
    assert(listed_or_beaten(after.storage, metric, vector, list, width, starts[0]));
    if list.contains(starts[0]) {
        let i = choose|i: int| 0 <= i < list.len() && list[i] == starts[0];
        if i > 0 {
            assert(rank(away(after.storage, metric, vector, list[0])) <= rank(
                away(after.storage, metric, vector, list[i]),
            ));
        }
    }
}

} // verus!
