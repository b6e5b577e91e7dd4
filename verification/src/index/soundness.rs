//! Whether an index that comes from elsewhere can be used.

use vstd::prelude::*;

use super::HNSWIndex;
use crate::graph::{links_below, GraphStore};
use crate::types::HNSWParams;

verus! {

/// The links of a node at a level lead to nodes, and are not too many.
pub open spec fn links_sound<S: GraphStore>(
    store: S,
    params: HNSWParams,
    id: u32,
    level: u8,
) -> bool {
    &&& store.links_at(id, level).len() <= params.links(level)
    &&& forall|j: int|
        0 <= j < store.links_at(id, level).len() ==> (#[trigger] store.links_at(id, level)[j])
            < store.node_count()
}

/// A node is sound: its level is not too high, and its links are sound.
pub open spec fn node_sound<S: GraphStore>(store: S, params: HNSWParams, id: u32) -> bool {
    &&& store.level_at(id) <= params.max_level
    &&& forall|level: u8| #[trigger] links_sound(store, params, id, level)
}

fn check_links<S: GraphStore>(store: &S, params: &HNSWParams, id: u32, level: u8) -> (r: bool)
    requires
        store.store_wf(),
        id < store.node_count(),
        params.m * 2 <= usize::MAX,
    ensures
        r == links_sound(*store, *params, id, level),
{
    let links: Vec<u32> = store.links_of(id, level);
    if links.len() > params.m_for_level(level) {
        return false;
    }
    let n: usize = store.count();
    let mut j: usize = 0;
    while j < links.len()
        invariant
            j <= links@.len(),
            n == store.node_count(),
            links@ == store.links_at(id, level),
            forall|i: int| 0 <= i < j ==> #[trigger] links@[i] < n,
        decreases links.len() - j,
    {
        if links[j] as usize >= n {
            assert(!(store.links_at(id, level)[j as int] < store.node_count()));
            return false;
        }
        j += 1;
    }
    true
}

fn check_node<S: GraphStore>(store: &S, params: &HNSWParams, id: u32) -> (r: bool)
    requires
        store.store_wf(),
        id < store.node_count(),
        params.m * 2 <= usize::MAX,
    ensures
        r == node_sound(*store, *params, id),
{
    if store.level_of(id) > params.max_level {
        return false;
    }
    let top: u8 = store.highest_linked(id);
    let mut level: u8 = 0;
    loop
        invariant
            level <= top,
            store.store_wf(),
            id < store.node_count(),
            params.m * 2 <= usize::MAX,
            forall|l: u8| l < level ==> #[trigger] links_sound(*store, *params, id, l),
        ensures
            forall|l: u8| l <= top ==> #[trigger] links_sound(*store, *params, id, l),
        decreases top - level,
    {
        if !check_links(store, params, id, level) {
            assert(!links_sound(*store, *params, id, level));
            return false;
        }
        if level == top {
            break;
        }
        level = level + 1;
    }
    proof {
        assert forall|l: u8| #[trigger] links_sound(*store, *params, id, l) by {
            if l > top {
                assert(store.links_at(id, l) == Seq::<u32>::empty());
            }
        }
    }
    true
}

impl<S: GraphStore> HNSWIndex<S> {
    /// Whether the index is well-formed: its storage is, links lead to nodes
    /// and are no more than the parameters allow, and so is the entry point.
    pub fn is_sound(&self) -> (r: bool)
        ensures
            r == self.wf(),
    {
        if !self.storage.is_consistent() {
            return false;
        }
        if self.params.m > usize::MAX / 2 || self.params.max_level as usize
            > self.storage.top_of() {
            return false;
        }
        let mut level: u8 = 0;
        loop
            invariant
                self.storage.store_wf(),
                self.params.m * 2 <= usize::MAX,
                forall|l: u8|
                    l < level ==> #[trigger] self.storage.link_cap(l) == self.params.links(l),
            ensures
                forall|l: u8| #[trigger] self.storage.link_cap(l) == self.params.links(l),
            decreases 255 - level,
        {
            if self.storage.cap_of(level) != self.params.m_for_level(level) {
                return false;
            }
            if level == 255 {
                break;
            }
            level = level + 1;
        }
        let n: usize = self.storage.count();
        match self.entry_point {
            Some(entry) => {
                if entry as usize >= n {
                    return false;
                }
            },
            None => {},
        }
        proof {
            self.storage.lemma_store();
        }
        let mut id: usize = 0;
        while id < n
            invariant
                id <= n <= u32::MAX + 1,
                n == self.storage.node_count(),
                self.storage.store_wf(),
                self.params.m * 2 <= usize::MAX,
                forall|i: u32|
                    i < id ==> #[trigger] node_sound(self.storage, self.params, i),
            decreases n - id,
        {
            if !check_node(&self.storage, &self.params, id as u32) {
                proof {
                    self.lemma_unsound(id as u32);
                }
                return false;
            }
            id += 1;
        }
        proof {
            assert forall|l: u8| #[trigger] links_below(self.storage, l, n as nat) by {
                assert forall|i: u32, j: int|
                    i < n && 0 <= j < self.storage.links_at(i, l).len() implies (
                #[trigger] self.storage.links_at(i, l)[j]) < n by {
                    assert(node_sound(self.storage, self.params, i));
                    assert(links_sound(self.storage, self.params, i, l));
                }
            }
            assert forall|i: u32| i < n implies #[trigger] self.storage.level_at(i)
                <= self.params.max_level by {
                assert(node_sound(self.storage, self.params, i));
            }
            assert forall|i: u32, l: u8| i < n implies #[trigger] self.storage.links_at(i, l).len()
                <= self.params.links(l) by {
                assert(node_sound(self.storage, self.params, i));
                assert(links_sound(self.storage, self.params, i, l));
            }
        }
        true
    }

    /// A node that is not sound keeps the index from being well-formed.
    proof fn lemma_unsound(&self, id: u32)
        requires
            id < self.storage.node_count(),
            !node_sound(self.storage, self.params, id),
        ensures
            !self.wf(),
    {
        if self.wf() {
            assert(self.storage.level_at(id) <= self.params.max_level);
            assert forall|l: u8| #[trigger] links_sound(self.storage, self.params, id, l) by {
                assert(links_below(self.storage, l, self.storage.node_count()));
                assert(self.storage.links_at(id, l).len() <= self.params.links(l));
            }
        }
    }
}

} // verus!
