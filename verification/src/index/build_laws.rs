//! What holds of every index built from a batch, said of the graph and the
//! distances alone.

use vstd::prelude::*;

use super::insert::{
    capped_level, descent_end, level_linked, level_source_ok, level_value, node_linked, starts_at,
    std_rng_draw,
};
use super::insert_laws::{
    law_node_is_linked, lemma_walked_above, searched_from, walked_above, well_linked,
};
use super::parallel::{
    batch_built, drawn_levels, entry_after, graph_built, holds_nodes, params_for, rng_after,
    step_linked, unlinked_from,
};
use super::HNSWIndex;
use crate::graph::{distance_fn, links_below, GraphStore};
use crate::types::{Candidate, HNSWParams};

verus! {

/// Of the first `n` nodes, none reaches higher than one of them, and none
/// before it as high.
pub open spec fn first_highest(levels: Seq<u8>, n: int, entry: u32) -> bool {
    &&& 0 <= entry < n <= levels.len()
    &&& forall|i: int| 0 <= i < n ==> #[trigger] levels[i] <= levels[entry as int]
    &&& forall|i: int| 0 <= i < entry ==> #[trigger] levels[i] < levels[entry as int]
}

/// The entry point that nodes of given levels lead to is the first of those
/// that reach highest.
pub proof fn law_entry_is_first_highest(levels: Seq<u8>, i: nat)
    requires
        i < levels.len() <= u32::MAX + 1,
    ensures
        first_highest(levels, i as int + 1, entry_after(levels, i)),
    decreases i,
{
    if i > 0 {
        law_entry_is_first_highest(levels, (i - 1) as nat);
    }
}

/// The levels of a batch are those for the draws of the generator, one after the
/// other from the seed; none is higher than the parameters allow.
pub proof fn law_drawn_levels<L: Fn(u32) -> u8>(source: L, seed: u64, max_level: u8, n: nat) -> (
    states: Seq<u64>)
    ensures
        drawn_levels(source, seed, max_level, n).len() == n,
        forall|i: int|
            0 <= i < n ==> #[trigger] drawn_levels(source, seed, max_level, n)[i] <= max_level,
        states.len() == n + 1,
        states[0] == seed,
        states[n as int] == rng_after(seed, n),
        forall|i: int| 0 < i <= n ==> #[trigger] states[i] == std_rng_draw(states[i - 1]).1,
        forall|i: int|
            0 <= i < n ==> #[trigger] drawn_levels(source, seed, max_level, n)[i] == capped_level(
                source,
                std_rng_draw(states[i]).0,
                max_level,
            ),
{
    Seq::new(n + 1, |i: int| rng_after(seed, i as nat))
}

/// The level for a draw is what the source makes of its upper 24 bits, but no
/// more than the highest that is allowed, and 0 where these bits are all 0.
pub proof fn law_level_of_draw<L: Fn(u32) -> u8>(source: L, draw: u32, bits: u32, max_level: u8)
    requires
        level_source_ok(source),
        256 * bits <= draw < 256 * (bits + 1),
    ensures
        capped_level(source, draw, max_level) <= max_level,
        bits == 0 ==> capped_level(source, draw, max_level) == 0,
        bits > 0 ==> forall|level: u8| #[trigger]
            call_ensures(source, (bits,), level) ==> capped_level(source, draw, max_level) == (
            if level <= max_level {
                level
            } else {
                max_level
            }),
{
    assert(draw / 256 == bits);
    assert forall|level: u8| bits > 0 && #[trigger] call_ensures(
        source,
        (bits,),
        level,
    ) implies capped_level(source, draw, max_level) == (if level <= max_level {
        level
    } else {
        max_level
    }) by {
        assert(level_value(source, bits) == level);
    }
}

/// The parameters, with a beam twice as wide for the nodes from 10000 on.
pub open spec fn widened(params: HNSWParams, i: int) -> HNSWParams {
    HNSWParams {
        ef_construction: (if i < 10_000 {
            params.ef_construction as int
        } else {
            2 * params.ef_construction
        }) as usize,
        ..params
    }
}

/// A node among those before it is linked on all its levels, coming from the
/// first of them that reaches highest; no other level changes.
pub open spec fn placed<S: GraphStore, M: Fn(&[u32], &[u32]) -> u32>(
    before: S,
    after: S,
    metric: M,
    params: HNSWParams,
    levels: Seq<u8>,
    i: int,
    entry: u32,
    trail: Seq<u32>,
) -> bool {
    let node = i as u32;
    &&& first_highest(levels, i, entry)
    &&& walked_above(before, metric, before.vector_at(node), entry, levels[i], trail)
    &&& forall|l: u8|
        l <= levels[i] ==> #[trigger] well_linked(
            before,
            after,
            metric,
            node,
            l,
            widened(params, i),
            searched_from(after, node, l, levels[i], trail.last()),
        )
    &&& forall|id: u32, l: u8|
        id < before.node_count() && l > levels[i] ==> #[trigger] after.links_at(id, l)
            == before.links_at(id, l)
}

/// One of several steps places a node.
pub open spec fn placed_by<S: GraphStore, M: Fn(&[u32], &[u32]) -> u32>(
    steps: Seq<S>,
    metric: M,
    params: HNSWParams,
    levels: Seq<u8>,
    i: int,
) -> bool {
    exists|entry: u32, trail: Seq<u32>| #[trigger]
        placed(steps[i - 1], steps[i], metric, params, levels, i, entry, trail)
}

/// A storage holds the vectors of a batch, and only the first nodes are linked,
/// among each other.
pub open spec fn linked_up_to<S: GraphStore>(
    store: S,
    vectors: Seq<&[u32]>,
    levels: Seq<u8>,
    i: int,
) -> bool {
    &&& holds_nodes(store, vectors, levels, vectors.len())
    &&& unlinked_from(store, i as nat)
    &&& forall|l: u8| #[trigger] links_below(store, l, i as nat)
}

proof fn lemma_placed<S: GraphStore, M: Fn(&[u32], &[u32]) -> u32>(
    before: S,
    after: S,
    metric: M,
    params: HNSWParams,
    vectors: Seq<&[u32]>,
    levels: Seq<u8>,
    i: int,
) -> (r: (u32, Seq<u32>))
    requires
        1 <= i < vectors.len() <= u32::MAX + 1,
        levels.len() == vectors.len(),
        linked_up_to(before, vectors, levels, i),
        step_linked(before, after, metric, params, levels, i),
    ensures
        linked_up_to(after, vectors, levels, i + 1),
        placed(before, after, metric, params, levels, i, r.0, r.1),
{
    let node = i as u32;
    let top = levels[i];
    let entry = entry_after(levels, (i - 1) as nat);
    law_entry_is_first_highest(levels, (i - 1) as nat);
    let nearest = descent_end(before, metric, node, top, entry);
    assert(params_for(params, i) == widened(params, i));
    let chosen = choose|chosen: Map<int, Seq<u32>>| #[trigger]
        node_linked(before, after, metric, node, top, params_for(params, i), nearest, chosen);
    let query = before.vector_at(node);
    let best = Candidate { node_id: entry, distance: distance_fn(before, metric, query)(entry) };
    let trail = lemma_walked_above(
        before,
        metric,
        query,
        node,
        best,
        before.level_at(entry),
        top,
    );
    assert(trail[trail.len() - 1] < node);
    assert forall|j: int| 0 <= j < trail.len() implies #[trigger] trail[j] < before.node_count() by {
        assert(trail[j] < node);
    }
    law_node_is_linked(
        before,
        after,
        metric,
        node,
        top,
        widened(params, i),
        nearest,
        chosen,
    );
    assert forall|id: u32, l: u8|
        i + 1 <= id < after.node_count() implies #[trigger] after.links_at(id, l) == Seq::<
        u32,
    >::empty() by {
        assert(before.links_at(id, l) == Seq::<u32>::empty());
        if l <= top {
            let starts = searched_from(after, node, l, top, nearest);
            assert(well_linked(before, after, metric, node, l, widened(params, i), starts));
            assert(level_linked(
                before,
                after,
                metric,
                node,
                l,
                params_for(params, i),
                starts_at(chosen, l as int, top as int, nearest),
                chosen[l as int],
            ));
            if chosen[l as int].contains(id) {
                let list = after.links_at(node, l);
                let j = choose|j: int| 0 <= j < list.len() && list[j] == id;
                assert(list[j] < node);
            }
        }
    }
    assert forall|l: u8| #[trigger] links_below(after, l, (i + 1) as nat) by {
        assert(links_below(before, l, i as nat));
        assert forall|id: u32, j: int|
            id < i + 1 && 0 <= j < after.links_at(id, l).len() implies (#[trigger] after.links_at(
            id,
            l,
        )[j]) < i + 1 by {
            if l > top {
                assert(after.links_at(id, l) == before.links_at(id, l));
                if id < i {
                    assert(before.links_at(id, l)[j] < i as nat);
                } else {
                    assert(before.links_at(id, l) == Seq::<u32>::empty());
                }
            } else {
                let starts = searched_from(after, node, l, top, nearest);
                assert(well_linked(before, after, metric, node, l, widened(params, i), starts));
                let list = after.links_at(node, l);
                if id == node {
                    assert(list[j] < node);
                } else {
                    let old_list = before.links_at(id, l);
                    let new_list = after.links_at(id, l);
                    assert forall|x: int| 0 <= x < old_list.len() implies #[trigger] old_list[x]
                        < i by {
                        assert(before.links_at(id, l)[x] < i as nat);
                    }
                    if list.contains(id) && new_list[j] != node {
                        if old_list.len() < (if l == 0 {
                            2 * params.m as nat
                        } else {
                            params.m as nat
                        }) {
                            assert(new_list == old_list.push(node));
                        } else {
                            assert(old_list.contains(new_list[j]));
                        }
                    }
                }
            }
        }
    }
    (entry, trail)
}

proof fn lemma_linked_up_to<S: GraphStore, M: Fn(&[u32], &[u32]) -> u32>(
    steps: Seq<S>,
    metric: M,
    params: HNSWParams,
    vectors: Seq<&[u32]>,
    levels: Seq<u8>,
    i: int,
)
    requires
        graph_built(steps, metric, params, vectors, levels),
        vectors.len() <= u32::MAX + 1,
        levels.len() == vectors.len(),
        0 <= i < steps.len(),
    ensures
        linked_up_to(steps[i], vectors, levels, i + 1),
    decreases i,
{
    if i == 0 {
        assert forall|l: u8| #[trigger] links_below(steps[0], l, 1) by {
            assert(steps[0].links_at(0, l) == Seq::<u32>::empty());
        }
    } else {
        lemma_linked_up_to(steps, metric, params, vectors, levels, i - 1);
        assert(step_linked(steps[i - 1], steps[i], metric, params, levels, i));
        let _ = lemma_placed(steps[i - 1], steps[i], metric, params, vectors, levels, i);
    }
}

/// An index that was built from a batch holds the vectors in their order, each
/// under its number, with the levels that were drawn. The node it is entered by
/// is the first that reaches highest. The nodes were linked one after the
/// other, each among those before it.
pub proof fn law_batch_is_linked<S: GraphStore, M: Fn(&[u32], &[u32]) -> u32>(
    empty: HNSWIndex<S>,
    index: HNSWIndex<S>,
    metric: M,
    vectors: Seq<&[u32]>,
    levels: Seq<u8>,
) -> (steps: Seq<S>)
    requires
        0 < vectors.len() <= u32::MAX + 1,
        levels.len() == vectors.len(),
        batch_built(empty, index, metric, vectors, levels),
    ensures
        index.storage.node_count() == vectors.len(),
        forall|i: u32|
            i < vectors.len() ==> #[trigger] index.storage.vector_at(i) == vectors[i as int]@,
        forall|i: u32|
            i < vectors.len() ==> #[trigger] index.storage.level_at(i) == levels[i as int],
        forall|i: u32| i < vectors.len() ==> #[trigger] index.storage.slot_at(i) == i,
        index.entry_point is Some,
        first_highest(levels, vectors.len() as int, index.entry_point->0),
        steps.len() == vectors.len(),
        steps.last() == index.storage,
        forall|id: u32, l: u8|
            id < vectors.len() ==> #[trigger] steps[0].links_at(id, l) == Seq::<u32>::empty(),
        forall|i: int|
            1 <= i < steps.len() ==> #[trigger] placed_by(steps, metric, empty.params, levels, i),
{
    law_entry_is_first_highest(levels, (vectors.len() - 1) as nat);
    let steps = choose|steps: Seq<S>|
        {
            &&& #[trigger] graph_built(steps, metric, empty.params, vectors, levels)
            &&& steps.last() == index.storage
        };
    assert forall|i: int| 1 <= i < steps.len() implies #[trigger] placed_by(
        steps,
        metric,
        empty.params,
        levels,
        i,
    ) by {
        lemma_linked_up_to(steps, metric, empty.params, vectors, levels, i - 1);
        assert(step_linked(steps[i - 1], steps[i], metric, empty.params, levels, i));
        let _ = lemma_placed(steps[i - 1], steps[i], metric, empty.params, vectors, levels, i);
    }
    steps
}

} // verus!
