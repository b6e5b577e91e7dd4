//! What becomes of the vectors and links of a segment that is filled and frozen.

use vstd::prelude::*;

use crate::index::coded::index_taught;
use crate::index::colocated::index_reordered;
use crate::index::HNSWIndex;
use crate::node_storage::quantization::{recoded, Coder};
use crate::node_storage::reorder::{adjacency, links_down, remapped};
use crate::node_storage::NodeStorage;
use crate::reorder::{all_below, closed, law_walk_order};
use crate::reorder_laws::{breadth_first, finds, law_walk_is_breadth_first};
use crate::segment::{relabelled, settled, FrozenSegment, MutableSegment};

verus! {

/// A segment holds the vectors of another one at given places, each with its
/// slot, its level and its links, which lead to where their ends are now.
pub open spec fn keeps_graph<C: Coder>(
    mutable: &MutableSegment,
    frozen: &FrozenSegment,
    coder: C,
    places: Seq<u32>,
) -> bool {
    let a = frozen.index.storage;
    let b = mutable.index.storage;
    &&& a.len == b.len
    &&& places.len() == b.len
    &&& places.no_duplicates()
    &&& forall|i: u32|
        i < b.len ==> {
            let p = #[trigger] places[i as int];
            &&& p < a.len
            &&& a.vec(p) == (if a.sq8_trained && !b.sq8_trained {
                recoded(coder, a.sq8_params->0, b.vec(i))
            } else {
                b.vec(i)
            })
            &&& a.slot_of(p) == mutable.slots@[i as int]
            &&& a.node_level(p) == b.node_level(i)
        }
    &&& forall|i: u32, l: u8|
        i < b.len ==> {
            let old_links = #[trigger] b.links(i, l);
            let new_links = a.links(places[i as int], l);
            &&& new_links.len() == old_links.len()
            &&& forall|j: int|
                0 <= j < old_links.len() ==> #[trigger] new_links[j] == places[old_links[j] as int]
        }
}

proof fn lemma_down_below(store: &NodeStorage, id: u32, level: nat)
    requires
        level <= u8::MAX,
        forall|l: u8| all_below(#[trigger] store.links(id, l), store.len as nat),
    ensures
        all_below(links_down(store, id, level), store.len as nat),
    decreases level,
{
    assert(all_below(store.links(id, level as u8), store.len as nat));
    if level > 0 {
        lemma_down_below(store, id, (level - 1) as nat);
    }
}

proof fn lemma_down_lists(store: &NodeStorage, id: u32, level: nat, x: u32)
    requires
        level <= u8::MAX,
    ensures
        links_down(store, id, level).contains(x) <==> linked_up_to_level(store, id, level, x),
    decreases level,
{
    let here = store.links(id, level as u8);
    let all = links_down(store, id, level);
    if level > 0 {
        let below = (level - 1) as nat;
        let rest = links_down(store, id, below);
        lemma_down_lists(store, id, below, x);
        assert(all =~= here + rest);
        if all.contains(x) {
            let i = choose|i: int| 0 <= i < all.len() && all[i] == x;
            if i < here.len() {
                assert(here[i] == x);
            } else {
                assert(rest[i - here.len()] == x);
            }
        }
        if here.contains(x) {
            let i = choose|i: int| 0 <= i < here.len() && here[i] == x;
            assert(all[i] == x);
        }
        if rest.contains(x) {
            let i = choose|i: int| 0 <= i < rest.len() && rest[i] == x;
            assert(all[here.len() + i] == x);
        }
    } else {
        assert(all =~= here);
    }
}

/// A node links to another one at one of the levels up to a given one.
pub open spec fn linked_up_to_level(store: &NodeStorage, id: u32, level: nat, x: u32) -> bool {
    exists|l: u8| l <= level && #[trigger] store.links(id, l).contains(x)
}

/// The order in which a graph is laid out for reading is that of a walk along
/// the links of all levels that the entry point reaches: what the first `n`
/// nodes link to there are again these nodes, and each of them, but for the
/// entry point, is linked from one before it.
pub proof fn law_laid_out_along_links(
    before: HNSWIndex<NodeStorage>,
    after: HNSWIndex<NodeStorage>,
    order: Seq<u32>,
    places: Seq<u32>,
) -> (n: int)
    requires
        before.wf(),
        before.storage.len <= u32::MAX,
        index_reordered(before, after, order, places),
    ensures
        0 < n <= order.len() == before.storage.len,
        order[0] == before.entry_point->0,
        after.entry_point == Some(0u32),
        breadth_first(
            adjacency(&before.storage, before.storage.node_level(order[0])),
            order,
            n,
        ),
        forall|p: int, q: int|
            0 <= p < n && 0 <= q < n ==> (#[trigger] finds(
                adjacency(&before.storage, before.storage.node_level(order[0])),
                order,
                p,
                q,
            ) <==> linked_up_to_level(
                &before.storage,
                order[p],
                before.storage.node_level(order[0]) as nat,
                order[q],
            )),
        forall|q: int, r: int| n <= q < r < order.len() ==> #[trigger] order[q] < #[trigger] order[r],
{
    let store = before.storage;
    let entry = before.entry_point->0;
    let top = store.node_level(entry);
    let adjacent = adjacency(&store, top);
    assert(closed(adjacent)) by {
        assert forall|i: int| 0 <= i < adjacent.len() implies all_below(
            #[trigger] adjacent[i],
            adjacent.len(),
        ) by {
            assert forall|l: u8| all_below(#[trigger] store.links(i as u32, l), store.len as nat) by {
                before.lemma_links_inside();
            }
            lemma_down_below(&store, i as u32, top as nat);
        }
    }
    let n = law_walk_is_breadth_first(adjacent, entry);
    assert forall|p: int, q: int| 0 <= p < n && 0 <= q < n implies (#[trigger] finds(
        adjacent,
        order,
        p,
        q,
    ) <==> linked_up_to_level(&store, order[p], top as nat, order[q])) by {
        assert(order[p] < order.len());
        lemma_down_lists(&store, order[p], top as nat, order[q]);
    }
    n
}

/// Freezing keeps the graph: every vector has its place in the frozen segment,
/// and is linked there to what it was linked to, on every level. The node that
/// the graph is entered by stays that, and stands first.
pub proof fn law_freeze_keeps_graph<C: Coder>(
    mutable: &MutableSegment,
    frozen: &FrozenSegment,
    coder: C,
) -> (places: Seq<u32>)
    requires
        mutable.wf(),
        mutable.index.storage.len <= u32::MAX,
        frozen.freezes(mutable, coder),
    ensures
        keeps_graph(mutable, frozen, coder, places),
        mutable.index.entry_point is None ==> frozen.index.entry_point is None,
        mutable.index.entry_point matches Some(e) ==> frozen.index.entry_point == Some(0u32)
            && places[e as int] == 0,
        frozen.index.params == mutable.index.params,
        frozen.index.distance_fn == mutable.index.distance_fn,
        frozen.id == mutable.id,
{
    let a = frozen.index.storage;
    let b = mutable.index.storage;
    let (taught, labelled, thawed) = choose|
        taught: HNSWIndex<NodeStorage>,
        labelled: HNSWIndex<NodeStorage>,
        thawed: HNSWIndex<NodeStorage>,
    |
        {
            &&& index_taught(mutable.index, taught, coder)
            &&& #[trigger] relabelled(taught, labelled, mutable.slots@)
            &&& #[trigger] settled(labelled, thawed)
            &&& frozen.index.storage == thawed.storage
            &&& frozen.index.entry_point == thawed.entry_point
        };
    let c = labelled.storage;
    let t = taught.storage;
    t.lemma_taught(&b, coder);
    assert forall|i: u32| i < b.len implies (#[trigger] c.vec(i)) == (if c.sq8_trained
        && !b.sq8_trained {
        recoded(coder, c.sq8_params->0, b.vec(i))
    } else {
        b.vec(i)
    }) && c.slot_of(i) == mutable.slots@[i as int] && c.node_level(i) == b.node_level(i) by {
        assert(c.vec(i) == t.vec(i));
        assert(c.node_level(i) == t.node_level(i));
        assert(t.node_level(i) == b.node_level(i));
    }
    assert forall|i: u32, l: u8| i < b.len implies #[trigger] c.links(i, l) == b.links(i, l) by {
        assert(c.links(i, l) == t.links(i, l));
        if l == 0 {
            assert(t.links0(i) == b.links0(i));
        }
    }
    assert(c.links_inside()) by {
        mutable.index.lemma_links_inside();
        assert forall|i: u32, l: u8| i < c.len implies all_below(
            #[trigger] c.links(i, l),
            c.len as nat,
        ) by {
            assert(c.links(i, l) == b.links(i, l));
            assert(all_below(b.links(i, l), b.len as nat));
        }
    }
    let places = law_settling_keeps_graph(labelled, thawed);
    if labelled.entry_point is Some {
        let (order, moved) = choose|order: Seq<u32>, moved: Seq<u32>|
            index_reordered(labelled, thawed, order, moved);
        assert(a.sq8_trained == c.sq8_trained && a.sq8_params == c.sq8_params);
    }
    assert forall|i: u32| i < b.len implies {
        let p = #[trigger] places[i as int];
        &&& p < a.len
        &&& a.vec(p) == (if a.sq8_trained && !b.sq8_trained {
            recoded(coder, a.sq8_params->0, b.vec(i))
        } else {
            b.vec(i)
        })
        &&& a.slot_of(p) == mutable.slots@[i as int]
        &&& a.node_level(p) == b.node_level(i)
    } by {
        assert(a.vec(places[i as int]) == c.vec(i));
    }
    assert forall|i: u32, l: u8| i < b.len implies {
        let old_links = #[trigger] b.links(i, l);
        let new_links = a.links(places[i as int], l);
        &&& new_links.len() == old_links.len()
        &&& forall|j: int|
            0 <= j < old_links.len() ==> #[trigger] new_links[j] == places[old_links[j] as int]
    } by {
        assert(c.links(i, l) == b.links(i, l));
    }
    places
}

/// A storage holds the nodes of another one at given places, as they were, with
/// links that lead to where their ends are now.
pub open spec fn carried_over(before: NodeStorage, after: NodeStorage, places: Seq<u32>) -> bool {
    &&& after.len == before.len
    &&& places.len() == before.len
    &&& places.no_duplicates()
    &&& forall|i: u32|
        i < before.len ==> {
            let p = #[trigger] places[i as int];
            &&& p < after.len
            &&& after.vec(p) == before.vec(i)
            &&& after.slot_of(p) == before.slot_of(i)
            &&& after.node_level(p) == before.node_level(i)
        }
    &&& forall|i: u32, l: u8|
        i < before.len ==> {
            let old_links = #[trigger] before.links(i, l);
            let new_links = after.links(places[i as int], l);
            &&& new_links.len() == old_links.len()
            &&& forall|j: int|
                0 <= j < old_links.len() ==> #[trigger] new_links[j] == places[old_links[j] as int]
        }
}

/// Putting an index in the order for reading keeps its graph; the node that it
/// is entered by comes first.
pub proof fn law_settling_keeps_graph(
    before: HNSWIndex<NodeStorage>,
    after: HNSWIndex<NodeStorage>,
) -> (places: Seq<u32>)
    requires
        before.storage.links_inside(),
        before.storage.len <= u32::MAX,
        before.entry_point matches Some(e) ==> e < before.storage.len,
        settled(before, after),
    ensures
        carried_over(before.storage, after.storage, places),
        before.entry_point matches Some(e) ==> after.entry_point == Some(0u32)
            && places[e as int] == 0,
        before.entry_point is None ==> after.entry_point is None,
{
    let a = after.storage;
    let c = before.storage;
    if before.entry_point is Some {
        let (order, places) = choose|order: Seq<u32>, places: Seq<u32>|
            index_reordered(before, after, order, places);
        let entry = before.entry_point->0;
        assert(places.no_duplicates()) by {
            assert forall|i: int, j: int|
                0 <= i < places.len() && 0 <= j < places.len() && i != j implies places[i]
                != places[j] by {
                assert(order[places[i] as int] == i);
                assert(order[places[j] as int] == j);
            }
        }
        assert(places[entry as int] == 0) by {
            let adjacent = adjacency(&c, c.node_level(entry));
            assert(closed(adjacent)) by {
                assert forall|i: int| 0 <= i < adjacent.len() implies all_below(
                    #[trigger] adjacent[i],
                    adjacent.len(),
                ) by {
                    assert forall|l: u8| all_below(#[trigger] c.links(i as u32, l), c.len as nat) by {}
                    lemma_down_below(&c, i as u32, c.node_level(entry) as nat);
                }
            }
            law_walk_order(adjacent, entry);
            assert(order[0] == entry);
        }
        assert(a.len == c.len) by {
            assert(a.header_sizes()[0] == c.header_sizes()[0]);
        }
        assert forall|i: u32| i < c.len implies {
            let p = #[trigger] places[i as int];
            &&& p < a.len
            &&& a.vec(p) == c.vec(i)
            &&& a.slot_of(p) == c.slot_of(i)
            &&& a.node_level(p) == c.node_level(i)
        } by {
            let p = places[i as int];
            assert(order[p as int] == i);
            assert(a.vec(p) == c.vec(order[p as int]));
            assert(a.slot_of(p) == c.slot_of(order[p as int]));
            assert(a.node_level(p) == c.node_level(order[p as int]));
        }
        assert forall|i: u32, l: u8| i < c.len implies {
            let old_links = #[trigger] c.links(i, l);
            let new_links = a.links(places[i as int], l);
            &&& new_links.len() == old_links.len()
            &&& forall|j: int|
                0 <= j < old_links.len() ==> #[trigger] new_links[j] == places[old_links[j] as int]
        } by {
            let p = places[i as int];
            assert(order[p as int] == i);
            assert(a.links(p, l) == remapped(c.links(order[p as int], l), places));
        }
        places
    } else {
        let places = Seq::new(c.len as nat, |i: int| i as u32);
        assert forall|i: u32, l: u8| i < c.len implies {
            let old_links = #[trigger] c.links(i, l);
            let new_links = a.links(places[i as int], l);
            &&& new_links.len() == old_links.len()
            &&& forall|j: int|
                0 <= j < old_links.len() ==> #[trigger] new_links[j] == places[old_links[j] as int]
        } by {
            assert(all_below(c.links(i, l), c.len as nat));
        }
        places
    }
}

} // verus!
