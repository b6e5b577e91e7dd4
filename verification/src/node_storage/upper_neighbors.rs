//! Neighbours on the upper levels.
//!
//! Only a few nodes take part on the levels above 0, so their lists are kept in
//! a map from the node to its lists, that of level 1 first. A region of bytes
//! holds the same lists for all nodes: a header, a table with one entry per
//! node, and behind it the lists themselves.

use vstd::prelude::*;

use crate::bytes::{
    le, lemma_stands_split, law_read_back, put_u32, put_u64, stands_at, u32_bytes, u64_bytes,
};
use crate::error::FormatError;
use crate::storage::slice_to_vec;

verus! {

pub const UPPER_NEIGHBORS_REGION_VERSION: u32 = 1;

pub const UPPER_NEIGHBORS_HEADER_SIZE: usize = 16;

pub const UPPER_NEIGHBORS_ENTRY_SIZE: usize = 16;

// ---------------------------------------------------------------------------
// The map
// ---------------------------------------------------------------------------

/// The hasher that `rustc_hash::FxHashMap` uses.
#[verifier::external_type_specification]
#[verifier::external_body]
pub struct ExFxBuildHasher(rustc_hash::FxBuildHasher);

/// From a node to its lists, that of level 1 first.
pub type UpperMap = std::collections::HashMap<u32, Vec<Vec<u32>>, rustc_hash::FxBuildHasher>;

/// No node has lists.
pub open spec fn no_lists() -> Map<u32, Vec<Vec<u32>>> {
    Map::empty()
}

/// `rustc_hash::FxHashMap::default`: a new map is empty.
#[verifier::external_body]
fn map_new() -> (m: UpperMap)
    ensures
        m@ == no_lists(),
{
    rustc_hash::FxHashMap::default()
}

/// A map has `n` keys.
pub open spec fn has_keys(m: Map<u32, Vec<Vec<u32>>>, n: nat) -> bool {
    m.dom().finite() && n == m.dom().len()
}

/// `len` of a `rustc_hash::FxHashMap`: the number of its keys.
#[verifier::external_body]
fn map_len(m: &UpperMap) -> (n: usize)
    ensures
        has_keys(m@, n as nat),
{
    m.len()
}

/// `get` of a `rustc_hash::FxHashMap`: the value stored under a key, if there
/// is one.
#[verifier::external_body]
fn map_get(m: &UpperMap, id: u32) -> (r: Option<&Vec<Vec<u32>>>)
    ensures
        match r {
            Some(levels) => m@.contains_key(id) && *levels == m@[id],
            None => !m@.contains_key(id),
        },
{
    m.get(&id)
}

/// `remove` of a `rustc_hash::FxHashMap`: the key is gone, and the value stored
/// under it, if there was one, is returned.
#[verifier::external_body]
fn map_remove(m: &mut UpperMap, id: u32) -> (r: Option<Vec<Vec<u32>>>)
    ensures
        final(m)@ == old(m)@.remove(id),
        match r {
            Some(levels) => old(m)@.contains_key(id) && levels == old(m)@[id],
            None => !old(m)@.contains_key(id),
        },
{
    m.remove(&id)
}

/// `insert` of a `rustc_hash::FxHashMap`: the value is stored under the key, in
/// place of the one before.
#[verifier::external_body]
fn map_insert(m: &mut UpperMap, id: u32, levels: Vec<Vec<u32>>)
    ensures
        final(m)@ == old(m)@.insert(id, levels),
{
    m.insert(id, levels);
}

/// `keys` of a `rustc_hash::FxHashMap`: every key once, in no particular order.
#[verifier::external_body]
fn map_keys(m: &UpperMap) -> (keys: Vec<u32>)
    ensures
        keys@.no_duplicates(),
        keys@.to_set() == m@.dom(),
{
    m.keys().copied().collect()
}

/// The contents of some lists.
pub open spec fn lists(levels: Seq<Vec<u32>>) -> Seq<Seq<u32>> {
    levels.map_values(|v: Vec<u32>| v@)
}

/// The lists of nodes on the upper levels.
#[derive(Debug)]
pub struct UpperNeighborsStorage {
    pub map: UpperMap,
}

impl UpperNeighborsStorage {
    /// The lists of a node, that of level 1 first; none where nothing is
    /// stored.
    pub open spec fn levels(&self, id: u32) -> Seq<Seq<u32>> {
        if self.map@.contains_key(id) {
            lists(self.map@[id]@)
        } else {
            Seq::empty()
        }
    }

    /// The neighbours of a node on an upper level.
    pub open spec fn links(&self, id: u32, level: u8) -> Seq<u32> {
        if 1 <= level <= self.levels(id).len() {
            self.levels(id)[level - 1]
        } else {
            Seq::empty()
        }
    }

    pub fn new() -> (r: Self)
        ensures
            r.map@ == no_lists(),
    {
        UpperNeighborsStorage { map: map_new() }
    }

    /// On how many upper levels lists are stored for a node.
    pub fn upper_level_count(&self, id: u32) -> (n: usize)
        ensures
            n == self.levels(id).len(),
    {
        match map_get(&self.map, id) {
            Some(levels) => levels.len(),
            None => 0,
        }
    }

    /// For how many nodes lists are stored.
    pub fn nodes_with_upper(&self) -> (n: usize)
        ensures
            self.map@.dom().finite(),
            n == self.map@.dom().len(),
    {
        map_len(&self.map)
    }

    pub fn is_empty(&self) -> (r: bool)
        ensures
            r == (self.map@.dom() == Set::<u32>::empty()),
    {
        let n: usize = self.nodes_with_upper();
        proof {
            if n == 0 {
                assert(self.map@.dom() =~= Set::<u32>::empty());
            }
        }
        n == 0
    }

    /// Makes sure that a node has lists up to a level; new ones are empty.
    pub fn allocate_upper_levels(&mut self, id: u32, level: u8)
        ensures
            level == 0 ==> final(self).map@ == old(self).map@,
            level > 0 ==> {
                &&& final(self).map@.dom() == old(self).map@.dom().insert(id)
                &&& final(self).levels(id) == padded(old(self).levels(id), level as nat)
            },
            forall|i: u32| i != id ==> #[trigger] final(self).levels(i) == old(self).levels(i),
    {
        if level == 0 {
            return;
        }
        let needed: usize = level as usize;
        let mut levels: Vec<Vec<u32>> = match map_remove(&mut self.map, id) {
            Some(levels) => levels,
            None => Vec::new(),
        };
        let ghost start = lists(levels@);
        proof {
            assert(start =~= old(self).levels(id));
        }
        while levels.len() < needed
            invariant
                levels@.len() >= start.len(),
                levels@.len() <= needed || levels@.len() == start.len(),
                forall|j: int|
                    0 <= j < levels@.len() ==> (#[trigger] levels@[j])@ == (if j < start.len() {
                        start[j]
                    } else {
                        Seq::<u32>::empty()
                    }),
            decreases needed - levels.len(),
        {
            levels.push(Vec::new());
        }
        let ghost stored = levels;
        map_insert(&mut self.map, id, levels);
        proof {
            assert(self.map@.dom() =~= old(self).map@.dom().insert(id));
            assert(self.levels(id) =~= padded(old(self).levels(id), level as nat));
            assert forall|i: u32| i != id implies #[trigger] self.levels(i) == old(self).levels(
                i,
            ) by {
                assert(self.map@.contains_key(i) == old(self).map@.contains_key(i));
            }
        }
    }

    /// Replaces the list of a node on an upper level; level 0 is not kept here.
    pub fn set_neighbors_at_level(&mut self, id: u32, level: u8, neighbors: Vec<u32>)
        ensures
            level == 0 ==> final(self).map@ == old(self).map@,
            level > 0 ==> {
                &&& final(self).map@.dom() == old(self).map@.dom().insert(id)
                &&& final(self).levels(id) == padded(old(self).levels(id), level as nat).update(
                    level - 1,
                    neighbors@,
                )
            },
            forall|i: u32| i != id ==> #[trigger] final(self).levels(i) == old(self).levels(i),
    {
        if level == 0 {
            return;
        }
        self.allocate_upper_levels(id, level);
        let ghost mid = *self;
        match map_remove(&mut self.map, id) {
            Some(levels) => {
                let mut levels: Vec<Vec<u32>> = levels;
                assert(lists(levels@) == mid.levels(id));
                levels.set(level as usize - 1, neighbors);
                map_insert(&mut self.map, id, levels);
                proof {
                    assert(self.map@.dom() =~= old(self).map@.dom().insert(id));
                    assert(self.levels(id) =~= mid.levels(id).update(level - 1, neighbors@));
                    assert forall|i: u32| i != id implies #[trigger] self.levels(i) == old(
                        self,
                    ).levels(i) by {
                        assert(self.map@.contains_key(i) == mid.map@.contains_key(i));
                        assert(self.levels(i) == mid.levels(i));
                    }
                }
            },
            None => {
                assert(mid.map@.dom().contains(id));
            },
        }
    }

    /// Appends to the list of a node on an upper level, unless it is full.
    pub fn add_neighbor(&mut self, id: u32, level: u8, neighbor: u32, max_neighbors_upper: usize)
        ensures
            level == 0 ==> final(self).map@ == old(self).map@,
            level > 0 ==> {
                let before = padded(old(self).levels(id), level as nat);
                &&& final(self).map@.dom() == old(self).map@.dom().insert(id)
                &&& final(self).levels(id) == (if before[level - 1].len() < max_neighbors_upper {
                    before.update(level - 1, before[level - 1].push(neighbor))
                } else {
                    before
                })
            },
            forall|i: u32| i != id ==> #[trigger] final(self).levels(i) == old(self).levels(i),
    {
        if level == 0 {
            return;
        }
        self.allocate_upper_levels(id, level);
        let mut list: Vec<u32> = self.neighbors_at_level(id, level);
        if list.len() < max_neighbors_upper {
            list.push(neighbor);
            let ghost mid = *self;
            self.set_neighbors_at_level(id, level, list);
            proof {
                assert(padded(mid.levels(id), level as nat) =~= mid.levels(id));
                assert(self.map@.dom() =~= old(self).map@.dom().insert(id));
            }
        }
    }

    /// The neighbours of a node on an upper level.
    pub fn neighbors_at_level(&self, id: u32, level: u8) -> (r: Vec<u32>)
        ensures
            r@ == self.links(id, level),
    {
        match map_get(&self.map, id) {
            Some(levels) => {
                if level > 0 && level as usize <= levels.len() {
                    slice_to_vec(levels[level as usize - 1].as_slice())
                } else {
                    Vec::new()
                }
            },
            None => Vec::new(),
        }
    }

    /// Bytes that the lists of a node take.
    pub open spec fn lists_usage(&self, id: u32) -> nat {
        list_words(self.levels(id)) * 4 + self.levels(id).len() * vstd::layout::size_of::<
            Vec<u32>,
        >()
    }

    /// Bytes that the lists of some nodes take.
    pub open spec fn total_usage(&self, ids: Seq<u32>) -> nat
        decreases ids.len(),
    {
        if ids.len() == 0 {
            0
        } else {
            self.total_usage(ids.drop_last()) + self.lists_usage(ids.last())
        }
    }

    /// These are the nodes that lists are stored for, each once.
    pub open spec fn all_ids(&self, ids: Seq<u32>) -> bool {
        ids.no_duplicates() && ids.to_set() == self.map@.dom()
    }

    proof fn lemma_usage_monotone(&self, ids: Seq<u32>, n: int)
        requires
            0 <= n <= ids.len(),
        ensures
            self.total_usage(ids.take(n)) <= self.total_usage(ids),
        decreases ids.len() - n,
    {
        if n < ids.len() {
            self.lemma_usage_monotone(ids, n + 1);
            assert(ids.take(n + 1).drop_last() =~= ids.take(n));
        } else {
            assert(ids.take(n) =~= ids);
        }
    }

    /// Leaving out one node takes its bytes away.
    proof fn lemma_usage_remove(&self, ids: Seq<u32>, j: int)
        requires
            0 <= j < ids.len(),
        ensures
            self.total_usage(ids) == self.total_usage(ids.remove(j)) + self.lists_usage(ids[j]),
        decreases ids.len(),
    {
        if j == ids.len() - 1 {
            assert(ids.remove(j) =~= ids.drop_last());
        } else {
            self.lemma_usage_remove(ids.drop_last(), j);
            assert(ids.remove(j).drop_last() =~= ids.drop_last().remove(j));
            assert(ids.remove(j).last() == ids.last());
        }
    }

    /// The order in which nodes are listed does not matter.
    proof fn lemma_usage_any_order(&self, a: Seq<u32>, b: Seq<u32>)
        requires
            a.no_duplicates(),
            b.no_duplicates(),
            a.to_set() == b.to_set(),
        ensures
            self.total_usage(a) == self.total_usage(b),
        decreases a.len(),
    {
        if a.len() == 0 {
            if b.len() > 0 {
                assert(b.to_set().contains(b[0]));
                assert(a.to_set().contains(b[0]));
            }
        } else {
            let x = a.last();
            assert(a.to_set().contains(x));
            assert(b.to_set().contains(x));
            let j = choose|j: int| 0 <= j < b.len() && b[j] == x;
            let rest = b.remove(j);
            self.lemma_usage_remove(b, j);
            let front = a.drop_last();
            assert(rest.no_duplicates()) by {
                assert forall|p: int, q: int|
                    0 <= p < rest.len() && 0 <= q < rest.len() && p != q implies rest[p]
                    != rest[q] by {
                    let p2 = if p < j { p } else { p + 1 };
                    let q2 = if q < j { q } else { q + 1 };
                    assert(rest[p] == b[p2] && rest[q] == b[q2]);
                }
            }
            assert(front.to_set() =~= rest.to_set()) by {
                assert forall|id: u32| front.to_set().contains(id) implies rest.to_set().contains(
                    id,
                ) by {
                    let p = choose|p: int| 0 <= p < front.len() && front[p] == id;
                    assert(a[p] == id);
                    assert(a.to_set().contains(id));
                    let q = choose|q: int| 0 <= q < b.len() && b[q] == id;
                    assert(q != j);
                    let q2 = if q < j { q } else { q - 1 };
                    assert(rest[q2] == id);
                }
                assert forall|id: u32| rest.to_set().contains(id) implies front.to_set().contains(
                    id,
                ) by {
                    let q = choose|q: int| 0 <= q < rest.len() && rest[q] == id;
                    let q2 = if q < j { q } else { q + 1 };
                    assert(b[q2] == id);
                    assert(b.to_set().contains(id));
                    assert(a.to_set().contains(id));
                    let p = choose|p: int| 0 <= p < a.len() && a[p] == id;
                    assert(p != a.len() - 1);
                    assert(front[p] == id);
                }
            }
            self.lemma_usage_any_order(front, rest);
        }
    }

    /// Bytes that all lists take.
    pub open spec fn usage(&self) -> nat {
        self.total_usage(choose|ids: Seq<u32>| self.all_ids(ids))
    }

    /// Where there are no lists, they take no bytes.
    pub proof fn lemma_no_usage(&self)
        requires
            self.map@ == no_lists(),
        ensures
            self.usage() == 0,
    {
        let none = Seq::<u32>::empty();
        assert(none.to_set() =~= self.map@.dom());
        assert(self.all_ids(none));
        self.lemma_usage_any_order(none, choose|ids: Seq<u32>| self.all_ids(ids));
    }

    /// Bytes that all lists take.
    pub fn memory_usage(&self) -> (r: usize)
        requires
            self.usage() <= usize::MAX,
        ensures
            r == self.usage(),
    {
        let keys: Vec<u32> = map_keys(&self.map);
        let header: usize = core::mem::size_of::<Vec<u32>>();
        let mut total: usize = 0;
        let mut i: usize = 0;
        proof {
            assert(self.all_ids(keys@));
            self.lemma_usage_any_order(keys@, choose|ids: Seq<u32>| self.all_ids(ids));
        }
        assert(keys@.take(0) =~= Seq::<u32>::empty());
        while i < keys.len()
            invariant
                i <= keys@.len(),
                header == vstd::layout::size_of::<Vec<u32>>(),
                keys@.to_set() == self.map@.dom(),
                self.total_usage(keys@) <= usize::MAX,
                total == self.total_usage(keys@.take(i as int)),
            decreases keys.len() - i,
        {
            let id: u32 = keys[i];
            proof {
                assert(keys@.to_set().contains(keys@[i as int]));
                assert(keys@.take(i + 1).drop_last() =~= keys@.take(i as int));
                self.lemma_usage_monotone(keys@, i + 1);
                let a = self.levels(id).len();
                assert(a * header >= 0) by (nonlinear_arith)
                    requires
                        a >= 0,
                        header >= 0,
                ;
            }
            match map_get(&self.map, id) {
                None => {},
                Some(levels) => {
                    let words: usize = count_words(levels);
                    total = total + (words * 4 + levels.len() * header);
                },
            }
            i += 1;
        }
        assert(keys@.take(i as int) =~= keys@);
        total
    }

    /// Whether lists are stored for the nodes below a limit only.
    pub fn ids_below(&self, n: usize) -> (r: bool)
        ensures
            r == (forall|id: u32| id >= n ==> !(#[trigger] self.map@.contains_key(id))),
    {
        let keys: Vec<u32> = map_keys(&self.map);
        let mut i: usize = 0;
        while i < keys.len()
            invariant
                i <= keys@.len(),
                keys@.to_set() == self.map@.dom(),
                forall|j: int| 0 <= j < i ==> #[trigger] keys@[j] < n,
            decreases keys.len() - i,
        {
            if keys[i] as usize >= n {
                assert(keys@.to_set().contains(keys@[i as int]));
                assert(self.map@.contains_key(keys@[i as int]));
                return false;
            }
            i += 1;
        }
        proof {
            assert forall|id: u32| id >= n implies !(#[trigger] self.map@.contains_key(id)) by {
                if self.map@.contains_key(id) {
                    assert(keys@.to_set().contains(id));
                    let j = choose|j: int| 0 <= j < keys@.len() && keys@[j] == id;
                    assert(keys@[j] < n);
                }
            }
        }
        true
    }

    /// Stores the lists of a node, in place of those before.
    pub fn put(&mut self, id: u32, levels: Vec<Vec<u32>>)
        ensures
            final(self).map@.dom() == old(self).map@.dom().insert(id),
            final(self).levels(id) == lists(levels@),
            forall|i: u32| i != id ==> #[trigger] final(self).levels(i) == old(self).levels(i),
    {
        map_insert(&mut self.map, id, levels);
        assert(self.map@.dom() =~= old(self).map@.dom().insert(id));
    }

    /// Takes all lists out.
    pub fn take_owned(&mut self) -> (m: UpperMap)
        ensures
            m@ == old(self).map@,
            final(self).map@ == no_lists(),
    {
        let mut other: UpperMap = map_new();
        std::mem::swap(&mut self.map, &mut other);
        other
    }

    /// Puts other lists in place of all lists.
    pub fn replace_owned(&mut self, map: UpperMap)
        ensures
            final(self).map == map,
    {
        self.map = map;
    }
}

/// Number of elements of some lists.
pub open spec fn list_words(levels: Seq<Seq<u32>>) -> nat
    decreases levels.len(),
{
    if levels.len() == 0 {
        0
    } else {
        list_words(levels.drop_last()) + levels.last().len()
    }
}

proof fn lemma_list_words_monotone(levels: Seq<Seq<u32>>, n: int)
    requires
        0 <= n <= levels.len(),
    ensures
        list_words(levels.take(n)) <= list_words(levels),
    decreases levels.len() - n,
{
    if n < levels.len() {
        lemma_list_words_monotone(levels, n + 1);
        assert(levels.take(n + 1).drop_last() =~= levels.take(n));
    } else {
        assert(levels.take(n) =~= levels);
    }
}

fn count_words(levels: &Vec<Vec<u32>>) -> (n: usize)
    requires
        list_words(lists(levels@)) <= usize::MAX,
    ensures
        n == list_words(lists(levels@)),
{
    let mut n: usize = 0;
    let mut i: usize = 0;
    assert(lists(levels@).take(0) =~= Seq::<Seq<u32>>::empty());
    while i < levels.len()
        invariant
            i <= levels@.len(),
            list_words(lists(levels@)) <= usize::MAX,
            n == list_words(lists(levels@).take(i as int)),
        decreases levels.len() - i,
    {
        proof {
            let all = lists(levels@);
            assert(all.take(i + 1).drop_last() =~= all.take(i as int));
            lemma_list_words_monotone(all, i + 1);
        }
        n = n + levels[i].len();
        i += 1;
    }
    assert(lists(levels@).take(i as int) =~= lists(levels@));
    n
}

/// Lists up to a level: those there are, and empty ones behind them.
pub open spec fn padded(levels: Seq<Seq<u32>>, n: nat) -> Seq<Seq<u32>> {
    if levels.len() >= n {
        levels
    } else {
        Seq::new(n, |i: int| if i < levels.len() { levels[i] } else { Seq::<u32>::empty() })
    }
}

// ---------------------------------------------------------------------------
// The region
// ---------------------------------------------------------------------------

/// Numbers of four bytes each, one behind the other.
pub open spec fn words_bytes(words: Seq<u32>) -> Seq<u8>
    decreases words.len(),
{
    if words.len() == 0 {
        Seq::empty()
    } else {
        words_bytes(words.drop_last()) + u32_bytes(words.last())
    }
}

/// A list: its length, and its elements.
pub open spec fn list_bytes(list: Seq<u32>) -> Seq<u8> {
    u32_bytes(list.len() as u32) + words_bytes(list)
}

/// Lists one behind the other.
pub open spec fn levels_bytes(levels: Seq<Seq<u32>>) -> Seq<u8>
    decreases levels.len(),
{
    if levels.len() == 0 {
        Seq::empty()
    } else {
        levels_bytes(levels.drop_last()) + list_bytes(levels.last())
    }
}

impl UpperNeighborsStorage {
    /// The lists of the first `n` nodes.
    pub open spec fn payload(&self, n: nat) -> Seq<u8>
        decreases n,
    {
        if n == 0 {
            Seq::empty()
        } else {
            self.payload((n - 1) as nat) + levels_bytes(self.levels((n - 1) as u32))
        }
    }

    /// The table entry of a node: where its lists start in the payload, and how
    /// many there are.
    pub open spec fn entry(&self, id: nat) -> Seq<u8> {
        let count = self.levels(id as u32).len();
        let offset = if count == 0 { 0 } else { self.payload(id).len() };
        u64_bytes(offset as u64) + u32_bytes(count as u32) + u32_bytes(0)
    }

    /// The table entries of the first `n` nodes.
    pub open spec fn table(&self, n: nat) -> Seq<u8>
        decreases n,
    {
        if n == 0 {
            Seq::empty()
        } else {
            self.table((n - 1) as nat) + self.entry((n - 1) as nat)
        }
    }

    /// The region of `n` nodes; nothing if no node has lists.
    pub open spec fn region(&self, n: nat) -> Seq<u8> {
        if self.map@.dom() == Set::<u32>::empty() {
            Seq::empty()
        } else {
            u32_bytes(UPPER_NEIGHBORS_REGION_VERSION) + u32_bytes(0) + u64_bytes(n as u64)
                + self.table(n) + self.payload(n)
        }
    }

    /// The lists are no longer, and no more, than their counts can say.
    pub open spec fn countable(&self) -> bool {
        forall|id: u32|
            {
                &&& (#[trigger] self.levels(id)).len() <= 255
                &&& forall|l: int|
                    0 <= l < self.levels(id).len() ==> (#[trigger] self.levels(id)[l]).len()
                        <= u32::MAX
            }
    }

    /// The bytes of the region of `node_count` nodes.
    pub fn serialize_region(&self, node_count: usize) -> (out: Vec<u8>)
        requires
            self.countable(),
            node_count <= u32::MAX,
            self.payload(node_count as nat).len() <= u64::MAX,
        ensures
            out@ == self.region(node_count as nat),
    {
        if self.is_empty() {
            return Vec::new();
        }
        let mut table: Vec<u8> = Vec::new();
        let mut payload: Vec<u8> = Vec::new();
        let mut i: usize = 0;
        while i < node_count
            invariant
                i <= node_count <= u32::MAX,
                self.countable(),
                table@ == self.table(i as nat),
                payload@ == self.payload(i as nat),
            decreases node_count - i,
        {
            let id: u32 = i as u32;
            let count: usize = self.upper_level_count(id);
            assert(self.levels(id).len() <= 255);
            let offset: u64 = if count == 0 { 0 } else { payload.len() as u64 };
            let ghost before = table@;
            put_u64(&mut table, offset);
            put_u32(&mut table, count as u32);
            put_u32(&mut table, 0);
            assert(table@ =~= before + self.entry(i as nat));
            let ghost start = payload@;
            let mut level: usize = 0;
            assert(self.levels(id).take(0) =~= Seq::<Seq<u32>>::empty());
            assert(payload@ =~= start + levels_bytes(self.levels(id).take(0)));
            while level < count
                invariant
                    level <= count <= 255,
                    count == self.levels(id).len(),
                    self.countable(),
                    payload@ == start + levels_bytes(self.levels(id).take(level as int)),
                decreases count - level,
            {
                let list: Vec<u32> = self.neighbors_at_level(id, (level + 1) as u8);
                assert(list@ == self.levels(id)[level as int]);
                assert(self.levels(id)[level as int].len() <= u32::MAX);
                let ghost so_far = payload@;
                put_list(&mut payload, &list);
                proof {
                    let longer = self.levels(id).take(level + 1);
                    assert(longer.drop_last() =~= self.levels(id).take(level as int));
                    assert(longer.last() == list@);
                    assert(payload@ =~= start + levels_bytes(longer));
                }
                level += 1;
            }
            assert(self.levels(id).take(level as int) =~= self.levels(id));
            i += 1;
        }
        let mut out: Vec<u8> = Vec::new();
        put_u32(&mut out, UPPER_NEIGHBORS_REGION_VERSION);
        put_u32(&mut out, 0);
        put_u64(&mut out, node_count as u64);
        out.append(&mut table);
        out.append(&mut payload);
        assert(out@ =~= self.region(node_count as nat));
        out
    }
}

/// Appends numbers of four bytes each.
pub fn put_words(out: &mut Vec<u8>, words: &[u32])
    ensures
        final(out)@ == old(out)@ + words_bytes(words@),
{
    let mut i: usize = 0;
    assert(words@.take(0) =~= Seq::<u32>::empty());
    assert(out@ =~= old(out)@ + words_bytes(words@.take(0)));
    while i < words.len()
        invariant
            i <= words@.len(),
            out@ == old(out)@ + words_bytes(words@.take(i as int)),
        decreases words.len() - i,
    {
        put_u32(out, words[i]);
        proof {
            let longer = words@.take(i + 1);
            assert(longer.drop_last() =~= words@.take(i as int));
            assert(out@ =~= old(out)@ + words_bytes(longer));
        }
        i += 1;
    }
    assert(words@.take(i as int) =~= words@);
}

/// Appends a list.
fn put_list(out: &mut Vec<u8>, list: &Vec<u32>)
    requires
        list@.len() <= u32::MAX,
    ensures
        final(out)@ == old(out)@ + list_bytes(list@),
{
    put_u32(out, list.len() as u32);
    put_words(out, list.as_slice());
    assert(out@ =~= old(out)@ + list_bytes(list@));
}

/// The number in the four bytes at `offset`.
pub open spec fn word_at(s: Seq<u8>, offset: nat) -> u32 {
    le(s.subrange(offset as int, (offset + 4) as int)) as u32
}

pub open spec fn parse_u32_at(s: Seq<u8>, offset: nat) -> core::result::Result<u32, FormatError> {
    if offset + 4 <= s.len() {
        Ok(word_at(s, offset))
    } else {
        Err(FormatError::RegionTruncated)
    }
}

pub open spec fn parse_u64_at(s: Seq<u8>, offset: nat) -> core::result::Result<u64, FormatError> {
    if offset + 8 <= s.len() {
        Ok(le(s.subrange(offset as int, (offset + 8) as int)) as u64)
    } else {
        Err(FormatError::RegionTruncated)
    }
}

/// The number of nodes of a region, and where its payload starts.
pub open spec fn parse_layout(s: Seq<u8>, expected_nodes: nat) -> core::result::Result<
    (nat, nat),
    FormatError,
> {
    if s.len() == 0 {
        if expected_nodes == 0 {
            Ok((0, UPPER_NEIGHBORS_HEADER_SIZE as nat))
        } else {
            Err(FormatError::RegionMissing)
        }
    } else if s.len() < UPPER_NEIGHBORS_HEADER_SIZE {
        Err(FormatError::RegionTruncated)
    } else if word_at(s, 0) != UPPER_NEIGHBORS_REGION_VERSION {
        Err(FormatError::UnsupportedVersion { found: word_at(s, 0) })
    } else {
        let found = le(s.subrange(8, 16)) as u64;
        if found != expected_nodes {
            Err(FormatError::NodeCountMismatch { expected: expected_nodes as u64, found })
        } else if UPPER_NEIGHBORS_HEADER_SIZE + expected_nodes * UPPER_NEIGHBORS_ENTRY_SIZE
            > s.len() {
            Err(FormatError::RegionTruncated)
        } else {
            Ok(
                (
                    expected_nodes,
                    (UPPER_NEIGHBORS_HEADER_SIZE + expected_nodes
                        * UPPER_NEIGHBORS_ENTRY_SIZE) as nat,
                ),
            )
        }
    }
}

/// Where the lists of a node start in the payload, and how many there are.
pub open spec fn parse_entry(s: Seq<u8>, id: nat) -> core::result::Result<(u64, u32), FormatError> {
    let offset = (UPPER_NEIGHBORS_HEADER_SIZE + id * UPPER_NEIGHBORS_ENTRY_SIZE) as nat;
    match parse_u64_at(s, offset) {
        Err(e) => Err(e),
        Ok(start) => match parse_u32_at(s, offset + 8) {
            Err(e) => Err(e),
            Ok(count) => Ok((start, count)),
        },
    }
}

/// The numbers that stand one behind the other from `offset` on.
pub open spec fn words_at(s: Seq<u8>, offset: nat, count: nat) -> Seq<u32> {
    Seq::new(count, |i: int| word_at(s, (offset + 4 * i) as nat))
}

/// A list of at most `max` elements, and the position behind it.
pub open spec fn parse_list(s: Seq<u8>, cursor: nat, max: nat) -> core::result::Result<
    (Seq<u32>, nat),
    FormatError,
> {
    match parse_u32_at(s, cursor) {
        Err(e) => Err(e),
        Ok(count) => if count > max {
            Err(FormatError::TooManyNeighbors { count: count as u64, max: max as u64 })
        } else if cursor + 4 + 4 * count > s.len() {
            Err(FormatError::RegionTruncated)
        } else {
            Ok((words_at(s, cursor + 4, count as nat), (cursor + 4 + 4 * count) as nat))
        },
    }
}

/// `count` lists one behind the other, and the position behind them.
pub open spec fn parse_levels(s: Seq<u8>, cursor: nat, count: nat, max: nat) -> core::result::Result<
    (Seq<Seq<u32>>, nat),
    FormatError,
>
    decreases count,
{
    if count == 0 {
        Ok((Seq::empty(), cursor))
    } else {
        match parse_levels(s, cursor, (count - 1) as nat, max) {
            Err(e) => Err(e),
            Ok((levels, next)) => match parse_list(s, next, max) {
                Err(e) => Err(e),
                Ok((list, end)) => Ok((levels.push(list), end)),
            },
        }
    }
}

/// The lists of one node.
pub open spec fn parse_node(s: Seq<u8>, payload_offset: nat, id: nat, max: nat) -> core::result::Result<
    Seq<Seq<u32>>,
    FormatError,
> {
    match parse_entry(s, id) {
        Err(e) => Err(e),
        Ok((start, count)) => match parse_levels(s, payload_offset + start as nat, count as nat, max) {
            Err(e) => Err(e),
            Ok((levels, end)) => Ok(levels),
        },
    }
}

/// The lists of the first `n` nodes, those that have any.
pub open spec fn parse_nodes(s: Seq<u8>, payload_offset: nat, n: nat, max: nat) -> core::result::Result<
    Map<u32, Seq<Seq<u32>>>,
    FormatError,
>
    decreases n,
{
    if n == 0 {
        Ok(Map::empty())
    } else {
        match parse_nodes(s, payload_offset, (n - 1) as nat, max) {
            Err(e) => Err(e),
            Ok(nodes) => match parse_node(s, payload_offset, (n - 1) as nat, max) {
                Err(e) => Err(e),
                Ok(levels) => if levels.len() == 0 {
                    Ok(nodes)
                } else {
                    Ok(nodes.insert((n - 1) as u32, levels))
                },
            },
        }
    }
}

/// The lists that a region holds.
pub open spec fn parse_region(s: Seq<u8>, expected_nodes: nat, max: nat) -> core::result::Result<
    Map<u32, Seq<Seq<u32>>>,
    FormatError,
> {
    match parse_layout(s, expected_nodes) {
        Err(e) => Err(e),
        Ok((n, payload_offset)) => parse_nodes(s, payload_offset, n, max),
    }
}

proof fn lemma_levels_error(s: Seq<u8>, cursor: nat, k: nat, count: nat, max: nat)
    requires
        k <= count,
        parse_levels(s, cursor, k, max) is Err,
    ensures
        parse_levels(s, cursor, count, max) == parse_levels(s, cursor, k, max),
    decreases count - k,
{
    if k < count {
        lemma_levels_error(s, cursor, k, (count - 1) as nat, max);
    }
}

proof fn lemma_nodes_error(s: Seq<u8>, payload_offset: nat, k: nat, n: nat, max: nat)
    requires
        k <= n,
        parse_nodes(s, payload_offset, k, max) is Err,
    ensures
        parse_nodes(s, payload_offset, n, max) == parse_nodes(s, payload_offset, k, max),
    decreases n - k,
{
    if k < n {
        lemma_nodes_error(s, payload_offset, k, (n - 1) as nat, max);
    }
}

pub fn read_u32_at(data: &[u8], offset: usize) -> (r: core::result::Result<u32, FormatError>)
    ensures
        r == parse_u32_at(data@, offset as nat),
{
    if data.len() < 4 || offset > data.len() - 4 {
        return Err(FormatError::RegionTruncated);
    }
    let mut pos: usize = offset;
    let r = crate::bytes::read_u32(data, &mut pos);
    r
}

pub fn read_u64_at(data: &[u8], offset: usize) -> (r: core::result::Result<u64, FormatError>)
    ensures
        r == parse_u64_at(data@, offset as nat),
{
    if data.len() < 8 || offset > data.len() - 8 {
        return Err(FormatError::RegionTruncated);
    }
    let mut pos: usize = offset;
    let r = crate::bytes::read_u64(data, &mut pos);
    r
}

/// The number of nodes of a region, and where its payload starts.
pub fn parse_region_layout(data: &[u8], expected_nodes: usize) -> (r: core::result::Result<
    (usize, usize),
    FormatError,
>)
    ensures
        match parse_layout(data@, expected_nodes as nat) {
            Ok((n, offset)) => r matches Ok((rn, ro)) && rn == n && ro == offset,
            Err(e) => r == Err::<(usize, usize), FormatError>(e),
        },
{
    if data.len() == 0 {
        if expected_nodes == 0 {
            return Ok((0, UPPER_NEIGHBORS_HEADER_SIZE));
        }
        return Err(FormatError::RegionMissing);
    }
    if data.len() < UPPER_NEIGHBORS_HEADER_SIZE {
        return Err(FormatError::RegionTruncated);
    }
    let version: u32 = match read_u32_at(data, 0) {
        Ok(v) => v,
        Err(e) => {
            return Err(e);
        },
    };
    if version != UPPER_NEIGHBORS_REGION_VERSION {
        return Err(FormatError::UnsupportedVersion { found: version });
    }
    let found: u64 = match read_u64_at(data, 8) {
        Ok(v) => v,
        Err(e) => {
            return Err(e);
        },
    };
    if found != expected_nodes as u64 {
        return Err(FormatError::NodeCountMismatch { expected: expected_nodes as u64, found });
    }
    let space: usize = (data.len() - UPPER_NEIGHBORS_HEADER_SIZE) / UPPER_NEIGHBORS_ENTRY_SIZE;
    if expected_nodes > space {
        return Err(FormatError::RegionTruncated);
    }
    Ok((expected_nodes, UPPER_NEIGHBORS_HEADER_SIZE + expected_nodes * UPPER_NEIGHBORS_ENTRY_SIZE))
}

/// Where the lists of a node start in the payload, and how many there are.
pub fn read_entry(data: &[u8], node_id: usize) -> (r: core::result::Result<
    (u64, u32),
    FormatError,
>)
    ensures
        r == parse_entry(data@, node_id as nat),
{
    if data.len() < UPPER_NEIGHBORS_HEADER_SIZE || node_id > (data.len()
        - UPPER_NEIGHBORS_HEADER_SIZE) / UPPER_NEIGHBORS_ENTRY_SIZE {
        return Err(FormatError::RegionTruncated);
    }
    let offset: usize = UPPER_NEIGHBORS_HEADER_SIZE + node_id * UPPER_NEIGHBORS_ENTRY_SIZE;
    match read_u64_at(data, offset) {
        Err(e) => Err(e),
        Ok(start) => match read_u32_at(data, offset + 8) {
            Err(e) => Err(e),
            Ok(count) => Ok((start, count)),
        },
    }
}

/// Reads a list of at most `max` elements; returns it with the position behind
/// it.
fn read_list(data: &[u8], cursor: usize, max: usize) -> (r: core::result::Result<
    (Vec<u32>, usize),
    FormatError,
>)
    ensures
        match parse_list(data@, cursor as nat, max as nat) {
            Ok((list, end)) => r matches Ok((v, q)) && v@ == list && q == end,
            Err(e) => r == Err::<(Vec<u32>, usize), FormatError>(e),
        },
{
    let count: u32 = match read_u32_at(data, cursor) {
        Ok(count) => count,
        Err(e) => {
            return Err(e);
        },
    };
    if count as usize > max {
        return Err(FormatError::TooManyNeighbors { count: count as u64, max: max as u64 });
    }
    if count as usize > (data.len() - cursor - 4) / 4 {
        return Err(FormatError::RegionTruncated);
    }
    let start: usize = cursor + 4;
    let mut list: Vec<u32> = Vec::new();
    let mut i: u32 = 0;
    let total: usize = data.len();
    while i < count
        invariant
            i <= count,
            total == data@.len(),
            start + 4 * count <= total,
            list@ == words_at(data@, start as nat, i as nat),
        decreases count - i,
    {
        match read_u32_at(data, start + 4 * i as usize) {
            Ok(word) => {
                list.push(word);
                assert(list@ =~= words_at(data@, start as nat, (i + 1) as nat));
            },
            Err(_) => {
                assert(false);
            },
        }
        i += 1;
    }
    Ok((list, start + 4 * count as usize))
}

/// Reads `count` lists of at most `max` elements each.
fn read_levels(data: &[u8], start: usize, count: u32, max: usize) -> (r: core::result::Result<
    Vec<Vec<u32>>,
    FormatError,
>)
    ensures
        match parse_levels(data@, start as nat, count as nat, max as nat) {
            Ok((levels, end)) => r matches Ok(v) && lists(v@) == levels,
            Err(e) => r == Err::<Vec<Vec<u32>>, FormatError>(e),
        },
{
    let mut levels: Vec<Vec<u32>> = Vec::new();
    let mut cursor: usize = start;
    let mut k: u32 = 0;
    assert(lists(levels@) =~= Seq::<Seq<u32>>::empty());
    while k < count
        invariant
            k <= count,
            parse_levels(data@, start as nat, k as nat, max as nat) == Ok::<
                (Seq<Seq<u32>>, nat),
                FormatError,
            >((lists(levels@), cursor as nat)),
        decreases count - k,
    {
        match read_list(data, cursor, max) {
            Ok((list, end)) => {
                let ghost before = lists(levels@);
                let ghost added = list@;
                levels.push(list);
                assert(lists(levels@) =~= before.push(added));
                cursor = end;
            },
            Err(e) => {
                proof {
                    lemma_levels_error(
                        data@,
                        start as nat,
                        (k + 1) as nat,
                        count as nat,
                        max as nat,
                    );
                }
                return Err(e);
            },
        }
        k += 1;
    }
    Ok(levels)
}

proof fn lemma_nodes_fresh(s: Seq<u8>, payload_offset: nat, n: nat, max: nat)
    requires
        n <= u32::MAX,
    ensures
        parse_nodes(s, payload_offset, n, max) matches Ok(nodes) ==> forall|id: u32| #[trigger]
            nodes.contains_key(id) ==> id < n && nodes[id].len() > 0,
    decreases n,
{
    if n > 0 {
        lemma_nodes_fresh(s, payload_offset, (n - 1) as nat, max);
    }
}

impl UpperNeighborsStorage {
    /// The stored lists are these.
    pub open spec fn stores(&self, nodes: Map<u32, Seq<Seq<u32>>>) -> bool {
        &&& self.map@.dom() == nodes.dom()
        &&& forall|id: u32| nodes.contains_key(id) ==> #[trigger] self.levels(id) == nodes[id]
    }

    /// Reads a region.
    pub fn deserialize_region_owned(
        data: &[u8],
        expected_nodes: usize,
        max_neighbors_upper: usize,
    ) -> (r: core::result::Result<Self, FormatError>)
        requires
            expected_nodes <= u32::MAX,
        ensures
            match parse_region(data@, expected_nodes as nat, max_neighbors_upper as nat) {
                Ok(nodes) => r matches Ok(storage) && storage.stores(nodes),
                Err(e) => r == Err::<Self, FormatError>(e),
            },
    {
        let (n, payload_offset): (usize, usize) = match parse_region_layout(data, expected_nodes) {
            Ok(layout) => layout,
            Err(e) => {
                return Err(e);
            },
        };
        let ghost max = max_neighbors_upper as nat;
        let mut storage = UpperNeighborsStorage::new();
        let mut i: usize = 0;
        let ghost mut nodes: Map<u32, Seq<Seq<u32>>> = Map::empty();
        assert(storage.map@.dom() =~= nodes.dom());
        while i < n
            invariant
                i <= n <= u32::MAX,
                max == max_neighbors_upper,
                parse_region(data@, expected_nodes as nat, max) == parse_nodes(
                    data@,
                    payload_offset as nat,
                    n as nat,
                    max,
                ),
                parse_nodes(data@, payload_offset as nat, i as nat, max) == Ok::<
                    Map<u32, Seq<Seq<u32>>>,
                    FormatError,
                >(nodes),
                storage.stores(nodes),
            decreases n - i,
        {
            let ghost next = parse_nodes(data@, payload_offset as nat, (i + 1) as nat, max);
            let (start, count): (u64, u32) = match read_entry(data, i) {
                Ok(entry) => entry,
                Err(e) => {
                    proof {
                        assert(next is Err);
                        lemma_nodes_error(
                            data@,
                            payload_offset as nat,
                            (i + 1) as nat,
                            n as nat,
                            max,
                        );
                    }
                    return Err(e);
                },
            };
            if count > 0 {
                if payload_offset > data.len() || start > (data.len() - payload_offset) as u64 {
                    proof {
                        let from = payload_offset as nat + start as nat;
                        assert(parse_levels(data@, from, 0, max) == Ok::<
                            (Seq<Seq<u32>>, nat),
                            FormatError,
                        >((Seq::empty(), from)));
                        assert(parse_list(data@, from, max) == Err::<
                            (Seq<u32>, nat),
                            FormatError,
                        >(FormatError::RegionTruncated));
                        reveal_with_fuel(parse_levels, 2);
                        assert(parse_levels(data@, from, 1, max) is Err);
                        lemma_levels_error(data@, from, 1, count as nat, max);
                        assert(next is Err);
                        lemma_nodes_error(
                            data@,
                            payload_offset as nat,
                            (i + 1) as nat,
                            n as nat,
                            max,
                        );
                    }
                    return Err(FormatError::RegionTruncated);
                }
                let from: usize = payload_offset + start as usize;
                match read_levels(data, from, count, max_neighbors_upper) {
                    Ok(levels) => {
                        let ghost added = lists(levels@);
                        let ghost before = storage;
                        let id: u32 = i as u32;
                        map_insert(&mut storage.map, id, levels);
                        proof {
                            lemma_nodes_fresh(data@, payload_offset as nat, i as nat, max);
                            lemma_levels_len(data@, from as nat, count as nat, max);
                            assert(next == Ok::<Map<u32, Seq<Seq<u32>>>, FormatError>(
                                nodes.insert(id, added),
                            ));
                            let nodes2 = nodes.insert(id, added);
                            assert(storage.map@.dom() =~= nodes2.dom());
                            assert forall|x: u32| nodes2.contains_key(x) implies #[trigger] storage.levels(
                                x,
                            ) == nodes2[x] by {
                                if x != id {
                                    assert(nodes.contains_key(x));
                                    assert(before.levels(x) == nodes[x]);
                                }
                            }
                            nodes = nodes2;
                        }
                    },
                    Err(e) => {
                        proof {
                            assert(next is Err);
                            lemma_nodes_error(
                                data@,
                                payload_offset as nat,
                                (i + 1) as nat,
                                n as nat,
                                max,
                            );
                        }
                        return Err(e);
                    },
                }
            } else {
                proof {
                    assert(parse_levels(data@, (payload_offset + start) as nat, 0, max) == Ok::<
                        (Seq<Seq<u32>>, nat),
                        FormatError,
                    >((Seq::empty(), (payload_offset + start) as nat)));
                    assert(next == Ok::<Map<u32, Seq<Seq<u32>>>, FormatError>(nodes));
                }
            }
            i += 1;
        }
        Ok(storage)
    }
}

proof fn lemma_levels_len(s: Seq<u8>, cursor: nat, count: nat, max: nat)
    ensures
        parse_levels(s, cursor, count, max) matches Ok((levels, end)) ==> levels.len() == count,
    decreases count,
{
    if count > 0 {
        lemma_levels_len(s, cursor, (count - 1) as nat, max);
    }
}

// ---------------------------------------------------------------------------
// A region is read back
// ---------------------------------------------------------------------------

pub proof fn lemma_words_back(s: Seq<u8>, pos: nat, words: Seq<u32>)
    requires
        stands_at(s, pos, words_bytes(words)),
    ensures
        words_bytes(words).len() == 4 * words.len(),
        words_at(s, pos, words.len()) == words,
    decreases words.len(),
{
    if words.len() > 0 {
        let front = words.drop_last();
        law_read_back(s, (pos + 4 * front.len()) as nat, 0, 0, words.last(), 0, 0);
        lemma_words_len(front);
        lemma_stands_split(s, pos, words_bytes(front), u32_bytes(words.last()));
        lemma_words_back(s, pos, front);
        assert forall|i: int| 0 <= i < words.len() implies #[trigger] words_at(
            s,
            pos,
            words.len(),
        )[i] == words[i] by {
            if i < front.len() {
                assert(words_at(s, pos, front.len())[i] == front[i]);
            }
        }
    }
    assert(words_at(s, pos, words.len()) =~= words);
}

pub proof fn lemma_words_len(words: Seq<u32>)
    ensures
        words_bytes(words).len() == 4 * words.len(),
    decreases words.len(),
{
    if words.len() > 0 {
        lemma_words_len(words.drop_last());
        law_read_back(Seq::empty(), 0, 0, 0, words.last(), 0, 0);
    }
}

proof fn lemma_list_back(s: Seq<u8>, pos: nat, list: Seq<u32>, max: nat)
    requires
        stands_at(s, pos, list_bytes(list)),
        list.len() <= max,
        list.len() <= u32::MAX,
    ensures
        parse_list(s, pos, max) == Ok::<(Seq<u32>, nat), FormatError>(
            (list, pos + list_bytes(list).len()),
        ),
{
    law_read_back(s, pos, 0, 0, list.len() as u32, 0, 0);
    lemma_stands_split(s, pos, u32_bytes(list.len() as u32), words_bytes(list));
    lemma_words_len(list);
    lemma_words_back(s, pos + 4, list);
}

/// Every list has at most `max` elements.
pub open spec fn lists_within(levels: Seq<Seq<u32>>, max: nat) -> bool {
    forall|l: int| 0 <= l < levels.len() ==> (#[trigger] levels[l]).len() <= max
}

proof fn lemma_levels_back(s: Seq<u8>, pos: nat, levels: Seq<Seq<u32>>, max: nat)
    requires
        stands_at(s, pos, levels_bytes(levels)),
        lists_within(levels, max),
        lists_within(levels, u32::MAX as nat),
    ensures
        parse_levels(s, pos, levels.len(), max) == Ok::<(Seq<Seq<u32>>, nat), FormatError>(
            (levels, pos + levels_bytes(levels).len()),
        ),
    decreases levels.len(),
{
    if levels.len() > 0 {
        let front = levels.drop_last();
        lemma_stands_split(s, pos, levels_bytes(front), list_bytes(levels.last()));
        assert forall|l: int| 0 <= l < front.len() implies (#[trigger] front[l]).len() <= max
            && front[l].len() <= u32::MAX by {
            assert(front[l] == levels[l]);
        }
        lemma_levels_back(s, pos, front, max);
        assert(levels.last() == levels[levels.len() - 1]);
        lemma_list_back(s, pos + levels_bytes(front).len(), levels.last(), max);
        assert(front.push(levels.last()) =~= levels);
    } else {
        assert(levels =~= Seq::<Seq<u32>>::empty());
    }
}

impl UpperNeighborsStorage {
    proof fn lemma_entry_len(&self, id: nat)
        ensures
            self.entry(id).len() == 16,
    {
        let count = self.levels(id as u32).len();
        let offset = if count == 0 { 0 } else { self.payload(id).len() };
        law_read_back(Seq::empty(), 0, 0, 0, count as u32, offset as u64, 0);
        law_read_back(Seq::empty(), 0, 0, 0, 0, 0, 0);
    }

    proof fn lemma_table_len(&self, n: nat)
        ensures
            self.table(n).len() == 16 * n,
        decreases n,
    {
        if n > 0 {
            self.lemma_table_len((n - 1) as nat);
            self.lemma_entry_len((n - 1) as nat);
        }
    }

    /// Where the entry of a node stands.
    proof fn lemma_table_entry(&self, s: Seq<u8>, pos: nat, n: nat, id: nat)
        requires
            stands_at(s, pos, self.table(n)),
            id < n,
        ensures
            stands_at(s, pos + 16 * id, self.entry(id)),
        decreases n,
    {
        lemma_stands_split(s, pos, self.table((n - 1) as nat), self.entry((n - 1) as nat));
        self.lemma_table_len((n - 1) as nat);
        if id < n - 1 {
            self.lemma_table_entry(s, pos, (n - 1) as nat, id);
        }
    }

    /// Where the lists of a node stand.
    proof fn lemma_payload_part(&self, s: Seq<u8>, pos: nat, n: nat, id: nat)
        requires
            stands_at(s, pos, self.payload(n)),
            id < n,
        ensures
            stands_at(s, pos + self.payload(id).len(), levels_bytes(self.levels(id as u32))),
            self.payload(id).len() <= self.payload(n).len(),
        decreases n,
    {
        let m = (n - 1) as nat;
        lemma_stands_split(s, pos, self.payload(m), levels_bytes(self.levels(m as u32)));
        if id < m {
            self.lemma_payload_part(s, pos, m, id);
        }
    }

    proof fn lemma_node_back(&self, s: Seq<u8>, n: nat, id: nat, max: nat)
        requires
            stands_at(s, 16, self.table(n)),
            stands_at(s, 16 + 16 * n, self.payload(n)),
            self.countable(),
            n <= u32::MAX,
            self.payload(n).len() <= u64::MAX,
            id < n,
            lists_within(self.levels(id as u32), max),
        ensures
            parse_node(s, 16 + 16 * n, id, max) == Ok::<Seq<Seq<u32>>, FormatError>(
                self.levels(id as u32),
            ),
    {
        let levels = self.levels(id as u32);
        let count = levels.len();
        let offset = if count == 0 { 0 } else { self.payload(id).len() };
        self.lemma_table_entry(s, 16, n, id);
        self.lemma_payload_part(s, 16 + 16 * n, n, id);
        let at = 16 + 16 * id;
        let first = u64_bytes(offset as u64);
        let second = u32_bytes(count as u32);
        law_read_back(s, at, 0, 0, 0, offset as u64, 0);
        law_read_back(s, at + 8, 0, 0, count as u32, 0, 0);
        lemma_stands_split(s, at, first + second, u32_bytes(0));
        lemma_stands_split(s, at, first, second);
        assert(parse_entry(s, id) == Ok::<(u64, u32), FormatError>((offset as u64, count as u32)));
        if count > 0 {
            assert(lists_within(levels, u32::MAX as nat)) by {
                assert(self.levels(id as u32).len() <= 255);
            }
            lemma_levels_back(s, 16 + 16 * n + offset, levels, max);
        } else {
            assert(levels =~= Seq::<Seq<u32>>::empty());
        }
    }

    /// The lists that are stored for the nodes below `n`.
    pub open spec fn stored_below(&self, n: nat) -> Map<u32, Seq<Seq<u32>>> {
        Map::new(
            |id: u32| id < n && self.levels(id).len() > 0,
            |id: u32| self.levels(id),
        )
    }

    proof fn lemma_nodes_back(&self, s: Seq<u8>, n: nat, k: nat, max: nat)
        requires
            stands_at(s, 16, self.table(n)),
            stands_at(s, 16 + 16 * n, self.payload(n)),
            self.countable(),
            n <= u32::MAX,
            self.payload(n).len() <= u64::MAX,
            k <= n,
            forall|id: u32| id < n ==> lists_within(#[trigger] self.levels(id), max),
        ensures
            parse_nodes(s, 16 + 16 * n, k, max) == Ok::<Map<u32, Seq<Seq<u32>>>, FormatError>(
                self.stored_below(k),
            ),
        decreases k,
    {
        if k > 0 {
            let j = (k - 1) as nat;
            self.lemma_nodes_back(s, n, j, max);
            assert(lists_within(self.levels(j as u32), max));
            self.lemma_node_back(s, n, j, max);
            if self.levels(j as u32).len() == 0 {
                assert(self.stored_below(k) =~= self.stored_below(j));
            } else {
                assert(self.stored_below(k) =~= self.stored_below(j).insert(
                    j as u32,
                    self.levels(j as u32),
                ));
            }
        } else {
            assert(self.stored_below(0) =~= Map::<u32, Seq<Seq<u32>>>::empty());
        }
    }

    /// Reading the region of `n` nodes gives back the lists of these nodes.
    pub proof fn law_region_roundtrip(&self, n: nat, max: nat)
        requires
            self.countable(),
            self.map@.dom() != Set::<u32>::empty(),
            n <= u32::MAX,
            self.payload(n).len() <= u64::MAX,
            forall|id: u32| id < n ==> lists_within(#[trigger] self.levels(id), max),
        ensures
            parse_region(self.region(n), n, max) == Ok::<Map<u32, Seq<Seq<u32>>>, FormatError>(
                self.stored_below(n),
            ),
    {
        let s = self.region(n);
        let version = u32_bytes(UPPER_NEIGHBORS_REGION_VERSION);
        let zero = u32_bytes(0);
        let count = u64_bytes(n as u64);
        law_read_back(s, 0, 0, 0, UPPER_NEIGHBORS_REGION_VERSION, n as u64, 0);
        law_read_back(s, 8, 0, 0, 0, n as u64, 0);
        self.lemma_table_len(n);
        assert(stands_at(s, 0, s)) by {
            assert(s.subrange(0, s.len() as int) =~= s);
        }
        lemma_stands_split(s, 0, version + zero + count + self.table(n), self.payload(n));
        lemma_stands_split(s, 0, version + zero + count, self.table(n));
        lemma_stands_split(s, 0, version + zero, count);
        lemma_stands_split(s, 0, version, zero);
        assert(parse_layout(s, n) == Ok::<(nat, nat), FormatError>((n, 16 + 16 * n)));
        self.lemma_nodes_back(s, n, n, max);
    }
}

// ---------------------------------------------------------------------------
// Reading from a region in place
// ---------------------------------------------------------------------------

/// A region whose lists are read where they stand.
#[derive(Debug)]
pub struct UpperNeighborsMmap<'a> {
    pub data: &'a [u8],
    pub node_count: usize,
    pub payload_offset: usize,
    pub nodes_with_upper: usize,
    pub max_neighbors_upper: usize,
}

/// How many of the first `n` nodes have lists in a region.
pub open spec fn entries_with_lists(s: Seq<u8>, n: nat) -> nat
    decreases n,
{
    if n == 0 {
        0
    } else {
        entries_with_lists(s, (n - 1) as nat) + match parse_entry(s, (n - 1) as nat) {
            Ok((start, count)) => if count > 0 { 1nat } else { 0 },
            Err(e) => 0,
        }
    }
}

/// The list of a node on an upper level in a region; empty where it cannot be
/// read.
pub open spec fn region_links(
    s: Seq<u8>,
    payload_offset: nat,
    id: nat,
    level: nat,
    max: nat,
) -> Seq<u32> {
    match parse_entry(s, id) {
        Err(e) => Seq::empty(),
        Ok((start, count)) => if level == 0 || level > count {
            Seq::empty()
        } else {
            match parse_levels(s, payload_offset + start as nat, level, max) {
                Err(e) => Seq::empty(),
                Ok((levels, end)) => levels[level - 1],
            }
        },
    }
}

impl<'a> UpperNeighborsMmap<'a> {
    pub open spec fn wf(&self) -> bool {
        &&& parse_layout(self.data@, self.node_count as nat) == Ok::<(nat, nat), FormatError>(
            (self.node_count as nat, self.payload_offset as nat),
        )
        &&& self.nodes_with_upper == entries_with_lists(self.data@, self.node_count as nat)
    }

    pub fn new(data: &'a [u8], expected_nodes: usize, max_neighbors_upper: usize) -> (r:
        core::result::Result<Self, FormatError>)
        ensures
            match parse_layout(data@, expected_nodes as nat) {
                Ok((n, offset)) => r matches Ok(region) && {
                    &&& region.wf()
                    &&& region.data@ == data@
                    &&& region.node_count == n
                    &&& region.max_neighbors_upper == max_neighbors_upper
                },
                Err(e) => r == Err::<Self, FormatError>(e),
            },
    {
        let (node_count, payload_offset): (usize, usize) = match parse_region_layout(
            data,
            expected_nodes,
        ) {
            Ok(layout) => layout,
            Err(e) => {
                return Err(e);
            },
        };
        let mut nodes_with_upper: usize = 0;
        let mut i: usize = 0;
        while i < node_count
            invariant
                i <= node_count,
                nodes_with_upper <= i,
                nodes_with_upper == entries_with_lists(data@, i as nat),
            decreases node_count - i,
        {
            match read_entry(data, i) {
                Ok((_, count)) => {
                    if count > 0 {
                        nodes_with_upper += 1;
                    }
                },
                Err(_) => {},
            }
            i += 1;
        }
        Ok(
            UpperNeighborsMmap {
                data,
                node_count,
                payload_offset,
                nodes_with_upper,
                max_neighbors_upper,
            },
        )
    }

    /// On how many upper levels a node has lists.
    pub fn upper_level_count(&self, id: u32) -> (n: usize)
        ensures
            n == (if id >= self.node_count {
                0
            } else {
                match parse_entry(self.data@, id as nat) {
                    Ok((start, count)) => count as int,
                    Err(e) => 0,
                }
            }),
    {
        if id as usize >= self.node_count {
            return 0;
        }
        match read_entry(self.data, id as usize) {
            Ok((_, count)) => count as usize,
            Err(_) => 0,
        }
    }

    /// The neighbours of a node on an upper level.
    pub fn neighbors_at_level(&self, id: u32, level: u8) -> (r: Vec<u32>)
        ensures
            r@ == region_links(
                self.data@,
                self.payload_offset as nat,
                id as nat,
                level as nat,
                self.max_neighbors_upper as nat,
            ),
    {
        let ghost max = self.max_neighbors_upper as nat;
        let (start, count): (u64, u32) = match read_entry(self.data, id as usize) {
            Ok(entry) => entry,
            Err(_) => {
                return Vec::new();
            },
        };
        if level == 0 || level as u32 > count {
            return Vec::new();
        }
        if self.payload_offset > self.data.len() || start > (self.data.len()
            - self.payload_offset) as u64 {
            proof {
                let from = self.payload_offset as nat + start as nat;
                assert(parse_levels(self.data@, from, 0, max) == Ok::<
                    (Seq<Seq<u32>>, nat),
                    FormatError,
                >((Seq::empty(), from)));
                assert(parse_list(self.data@, from, max) is Err);
                reveal_with_fuel(parse_levels, 2);
                assert(parse_levels(self.data@, from, 1, max) is Err);
                lemma_levels_error(self.data@, from, 1, level as nat, max);
            }
            return Vec::new();
        }
        let from: usize = self.payload_offset + start as usize;
        match read_levels(self.data, from, level as u32, self.max_neighbors_upper) {
            Ok(levels) => {
                proof {
                    lemma_levels_len(self.data@, from as nat, level as nat, max);
                }
                slice_to_vec(levels[level as usize - 1].as_slice())
            },
            Err(_) => Vec::new(),
        }
    }
}

proof fn lemma_levels_prefix(s: Seq<u8>, cursor: nat, k: nat, count: nat, max: nat)
    requires
        k <= count,
        parse_levels(s, cursor, count, max) is Ok,
    ensures
        parse_levels(s, cursor, k, max) is Ok,
        parse_levels(s, cursor, k, max)->Ok_0.0 == parse_levels(
            s,
            cursor,
            count,
            max,
        )->Ok_0.0.take(k as int),
    decreases count - k,
{
    lemma_levels_len(s, cursor, count, max);
    if k < count {
        lemma_levels_prefix(s, cursor, k, (count - 1) as nat, max);
        lemma_levels_len(s, cursor, (count - 1) as nat, max);
        let shorter = parse_levels(s, cursor, (count - 1) as nat, max)->Ok_0.0;
        let longer = parse_levels(s, cursor, count, max)->Ok_0.0;
        assert(shorter.take(k as int) =~= longer.take(k as int));
    } else {
        let all = parse_levels(s, cursor, count, max)->Ok_0.0;
        assert(all.take(count as int) =~= all);
    }
}

proof fn lemma_nodes_lookup(s: Seq<u8>, payload_offset: nat, n: nat, max: nat, id: u32)
    requires
        n <= u32::MAX,
        parse_nodes(s, payload_offset, n, max) is Ok,
        id < n,
    ensures
        parse_node(s, payload_offset, id as nat, max) is Ok,
        ({
            let nodes = parse_nodes(s, payload_offset, n, max)->Ok_0;
            let levels = parse_node(s, payload_offset, id as nat, max)->Ok_0;
            if levels.len() == 0 {
                !nodes.contains_key(id)
            } else {
                nodes.contains_key(id) && nodes[id] == levels
            }
        }),
    decreases n,
{
    lemma_nodes_fresh(s, payload_offset, (n - 1) as nat, max);
    if id < n - 1 {
        lemma_nodes_lookup(s, payload_offset, (n - 1) as nat, max, id);
    }
}

/// Reading a list in place gives the same as reading the whole region first.
pub proof fn law_in_place_reads_agree(
    s: Seq<u8>,
    expected_nodes: nat,
    max: nat,
    id: u32,
    level: u8,
)
    requires
        expected_nodes <= u32::MAX,
        parse_region(s, expected_nodes, max) is Ok,
        id < expected_nodes,
    ensures
        ({
            let nodes = parse_region(s, expected_nodes, max)->Ok_0;
            let offset = parse_layout(s, expected_nodes)->Ok_0.1;
            region_links(s, offset, id as nat, level as nat, max) == (if nodes.contains_key(id) && 1
                <= level <= nodes[id].len() {
                nodes[id][level - 1]
            } else {
                Seq::empty()
            })
        }),
{
    let offset = parse_layout(s, expected_nodes)->Ok_0.1;
    lemma_nodes_lookup(s, offset, expected_nodes, max, id);
    let (start, count) = parse_entry(s, id as nat)->Ok_0;
    let cursor = offset + start as nat;
    lemma_levels_len(s, cursor, count as nat, max);
    if 1 <= level <= count {
        lemma_levels_prefix(s, cursor, level as nat, count as nat, max);
    }
}

} // verus!
