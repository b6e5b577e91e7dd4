//! What the figures about an index count.

use vstd::prelude::*;

use super::stats::{base_links, highest_level, most_base_links, nodes_at_level, IndexStats};
use super::HNSWIndex;
use crate::graph::GraphStore;

verus! {

/// The first `n` nodes that have a level.
pub open spec fn nodes_of_level<S: GraphStore>(store: S, level: u8, n: int) -> Set<int> {
    Set::new(|i: int| 0 <= i < n && store.level_at(i as u32) == level)
}

proof fn lemma_counts_level<S: GraphStore>(store: S, level: u8, n: nat)
    ensures
        nodes_of_level(store, level, n as int).finite(),
        nodes_of_level(store, level, n as int).len() == nodes_at_level(store, level, n),
    decreases n,
{
    let now = nodes_of_level(store, level, n as int);
    if n == 0 {
        assert(now =~= Set::empty());
    } else {
        let last = n - 1;
        lemma_counts_level(store, level, last as nat);
        let before = nodes_of_level(store, level, last);
        if store.level_at(last as u32) == level {
            assert(now =~= before.insert(last));
        } else {
            assert(now =~= before);
        }
    }
}

proof fn lemma_highest<S: GraphStore>(store: S, n: nat)
    requires
        n <= u32::MAX + 1,
    ensures
        forall|i: u32| i < n ==> #[trigger] store.level_at(i) <= highest_level(store, n),
        highest_level(store, n) == 0 || exists|i: u32|
            i < n && #[trigger] store.level_at(i) == highest_level(store, n),
    decreases n,
{
    if n > 0 {
        lemma_highest(store, (n - 1) as nat);
        let last = (n - 1) as u32;
        assert(store.level_at(last) <= highest_level(store, n));
    }
}

proof fn lemma_most<S: GraphStore>(store: S, n: nat)
    requires
        n <= u32::MAX + 1,
    ensures
        forall|i: u32| i < n ==> (#[trigger] store.links_at(i, 0)).len() <= most_base_links(store, n),
        most_base_links(store, n) == 0 || exists|i: u32|
            i < n && (#[trigger] store.links_at(i, 0)).len() == most_base_links(store, n),
    decreases n,
{
    if n > 0 {
        lemma_most(store, (n - 1) as nat);
        let last = (n - 1) as u32;
        assert(store.links_at(last, 0).len() <= most_base_links(store, n));
    }
}

/// Links at level 0 are added up: where two graphs have as many of them at every
/// node but one, the sums differ by as many as that node has more; and where
/// there are none, the sum is 0.
pub proof fn law_links_add_up<S: GraphStore>(a: S, b: S, id: u32, n: nat)
    requires
        n <= u32::MAX + 1,
        forall|i: u32|
            i < n && i != id ==> (#[trigger] a.links_at(i, 0)).len() == b.links_at(i, 0).len(),
    ensures
        id < n ==> base_links(a, n) - base_links(b, n) == a.links_at(id, 0).len() - b.links_at(
            id,
            0,
        ).len(),
        id >= n ==> base_links(a, n) == base_links(b, n),
        (forall|i: u32| i < n ==> (#[trigger] a.links_at(i, 0)).len() == 0) ==> base_links(a, n)
            == 0,
    decreases n,
{
    if n > 0 {
        law_links_add_up(a, b, id, (n - 1) as nat);
        let last = (n - 1) as u32;
        assert(last != id ==> a.links_at(last, 0).len() == b.links_at(last, 0).len());
    }
}

/// The figures about an index: the highest level is that of a node that reaches
/// highest, for each level up to it the nodes that have it are counted, and the
/// most links at level 0 are those of a node that has most.
pub proof fn law_figures<S: GraphStore>(index: HNSWIndex<S>, memory: int, r: IndexStats)
    requires
        index.described(memory, r),
        index.storage.node_count() <= u32::MAX + 1,
    ensures
        r.num_vectors == index.storage.node_count(),
        forall|i: u32|
            i < r.num_vectors ==> #[trigger] index.storage.level_at(i) <= r.max_level,
        r.max_level == 0 || exists|i: u32|
            i < r.num_vectors && #[trigger] index.storage.level_at(i) == r.max_level,
        r.level_distribution@.len() == r.max_level + 1,
        forall|l: u8|
            l <= r.max_level ==> r.level_distribution@[l as int] == (#[trigger] nodes_of_level(
                index.storage,
                l,
                r.num_vectors as int,
            )).len(),
        forall|i: u32|
            i < r.num_vectors ==> (#[trigger] index.storage.links_at(i, 0)).len()
                <= r.max_neighbors_l0,
        r.max_neighbors_l0 == 0 || exists|i: u32|
            i < r.num_vectors && (#[trigger] index.storage.links_at(i, 0)).len()
                == r.max_neighbors_l0,
        r.total_neighbors_l0 == base_links(index.storage, index.storage.node_count()),
{
    let n = index.storage.node_count();
    lemma_highest(index.storage, n);
    lemma_most(index.storage, n);
    assert forall|l: u8| l <= r.max_level implies r.level_distribution@[l as int] == (
    #[trigger] nodes_of_level(index.storage, l, r.num_vectors as int)).len() by {
        lemma_counts_level(index.storage, l, n);
        assert(r.level_distribution@[l as int] == nodes_at_level(
            index.storage,
            l as int as u8,
            n,
        ));
    }
}

} // verus!
