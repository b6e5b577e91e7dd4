//! An order of nodes in which those that are near in the graph stand close
//! together: the order of a breadth-first walk.

use vstd::prelude::*;

verus! {

/// A sequence with the elements of a list appended that it does not have yet.
pub open spec fn append_new(s: Seq<u32>, list: Seq<u32>) -> Seq<u32>
    decreases list.len(),
{
    if list.len() == 0 {
        s
    } else {
        let front = append_new(s, list.drop_last());
        if front.contains(list.last()) {
            front
        } else {
            front.push(list.last())
        }
    }
}

/// The nodes that a breadth-first walk has found, in order, once it has looked
/// at the neighbours of the first `k` of them.
pub open spec fn found(adjacent: Seq<Seq<u32>>, entry: u32, k: nat) -> Seq<u32>
    decreases k,
{
    if k == 0 {
        seq![entry]
    } else {
        let before = found(adjacent, entry, (k - 1) as nat);
        if k - 1 < before.len() {
            append_new(before, adjacent[before[k - 1] as int])
        } else {
            before
        }
    }
}

/// The numbers below `n`.
pub open spec fn all_ids(n: nat) -> Seq<u32> {
    Seq::new(n, |i: int| i as u32)
}

/// All nodes: those that a breadth-first walk finds, in the order of the walk,
/// and behind them the others by their ids.
pub open spec fn walk_order(adjacent: Seq<Seq<u32>>, entry: u32) -> Seq<u32> {
    append_new(found(adjacent, entry, adjacent.len()), all_ids(adjacent.len()))
}

/// `order` lists the numbers below its length, each once, and `places` tells
/// where.
pub open spec fn inverse(order: Seq<u32>, places: Seq<u32>) -> bool {
    &&& order.len() == places.len()
    &&& forall|i: int|
        0 <= i < order.len() ==> #[trigger] order[i] < order.len() && places[order[i] as int] == i
    &&& forall|i: int|
        0 <= i < places.len() ==> #[trigger] places[i] < places.len() && order[places[i] as int]
            == i
}

/// All elements are below a limit.
pub open spec fn all_below(s: Seq<u32>, n: nat) -> bool {
    forall|i: int| 0 <= i < s.len() ==> #[trigger] s[i] < n
}

/// Every node has neighbours among the nodes only.
pub open spec fn closed(adjacent: Seq<Seq<u32>>) -> bool {
    forall|i: int| 0 <= i < adjacent.len() ==> all_below(#[trigger] adjacent[i], adjacent.len())
}

proof fn lemma_append_new(s: Seq<u32>, list: Seq<u32>, n: nat)
    requires
        s.no_duplicates(),
        all_below(s, n),
        all_below(list, n),
    ensures
        append_new(s, list).no_duplicates(),
        all_below(append_new(s, list), n),
        append_new(s, list).len() >= s.len(),
        forall|i: int| 0 <= i < s.len() ==> #[trigger] append_new(s, list)[i] == s[i],
        forall|i: int| 0 <= i < list.len() ==> append_new(s, list).contains(#[trigger] list[i]),
    decreases list.len(),
{
    if list.len() > 0 {
        let front = list.drop_last();
        assert(all_below(front, n)) by {
            assert forall|i: int| 0 <= i < front.len() implies #[trigger] front[i] < n by {
                assert(list[i] < n);
            }
        }
        lemma_append_new(s, front, n);
        let mid = append_new(s, front);
        let all = append_new(s, list);
        let x = list.last();
        assert(list[list.len() - 1] < n);
        if !mid.contains(x) {
            assert(all[mid.len() as int] == x);
            assert forall|i: int| 0 <= i < list.len() implies all.contains(#[trigger] list[i]) by {
                if i < front.len() {
                    assert(mid.contains(front[i]));
                    let j = choose|j: int| 0 <= j < mid.len() && mid[j] == front[i];
                    assert(all[j] == list[i]);
                }
            }
        } else {
            assert forall|i: int| 0 <= i < list.len() implies all.contains(#[trigger] list[i]) by {
                if i < front.len() {
                    assert(mid.contains(front[i]));
                }
            }
        }
    }
}

proof fn lemma_found(adjacent: Seq<Seq<u32>>, entry: u32, k: nat)
    requires
        closed(adjacent),
        entry < adjacent.len(),
    ensures
        found(adjacent, entry, k).no_duplicates(),
        all_below(found(adjacent, entry, k), adjacent.len()),
        found(adjacent, entry, k).len() >= 1,
        found(adjacent, entry, k)[0] == entry,
    decreases k,
{
    if k > 0 {
        lemma_found(adjacent, entry, (k - 1) as nat);
        let before = found(adjacent, entry, (k - 1) as nat);
        if k - 1 < before.len() {
            assert(before[k - 1] < adjacent.len());
            assert(all_below(adjacent[before[k - 1] as int], adjacent.len()));
            lemma_append_new(before, adjacent[before[k - 1] as int], adjacent.len());
        }
    }
}

/// A walk that has looked at all it found finds nothing more.
proof fn lemma_found_stable(adjacent: Seq<Seq<u32>>, entry: u32, k: nat, n: nat)
    requires
        found(adjacent, entry, k).len() <= k <= n,
    ensures
        found(adjacent, entry, n) == found(adjacent, entry, k),
    decreases n - k,
{
    if k < n {
        lemma_found_stable(adjacent, entry, k, (n - 1) as nat);
    }
}

/// Different numbers below a limit are no more than that limit.
pub proof fn lemma_distinct_below(s: Seq<u32>, n: nat)
    requires
        s.no_duplicates(),
        all_below(s, n),
        n <= u32::MAX + 1,
    ensures
        s.len() <= n,
{
    s.unique_seq_to_set();
    assert forall|id: u32| #[trigger] s.to_set().contains(id) implies id < n by {
        let i = choose|i: int| 0 <= i < s.len() && s[i] == id;
        assert(s[i] < n);
    }
    crate::graph::lemma_bounded_set(s.to_set(), n);
}

/// A walk order lists every node once, the entry first.
pub proof fn law_walk_order(adjacent: Seq<Seq<u32>>, entry: u32)
    requires
        closed(adjacent),
        entry < adjacent.len(),
        adjacent.len() <= u32::MAX,
    ensures
        walk_order(adjacent, entry).no_duplicates(),
        walk_order(adjacent, entry).len() == adjacent.len(),
        all_below(walk_order(adjacent, entry), adjacent.len()),
        walk_order(adjacent, entry)[0] == entry,
{
    let n = adjacent.len();
    let first = found(adjacent, entry, n);
    let ids = all_ids(n);
    let order = walk_order(adjacent, entry);
    lemma_found(adjacent, entry, n);
    lemma_append_new(first, ids, n);
    lemma_distinct_below(order, n);
    assert(order[0] == first[0]);
    assert(n <= order.len()) by {
        assert forall|id: u32| #[trigger] all_ids(n).to_set().contains(id) implies order.to_set().contains(
            id,
        ) by {
            let i = choose|i: int| 0 <= i < ids.len() && ids[i] == id;
            assert(order.contains(ids[i]));
        }
        ids.unique_seq_to_set();
        order.unique_seq_to_set();
        assert(ids.to_set().subset_of(order.to_set()));
        vstd::set_lib::lemma_len_subset(ids.to_set(), order.to_set());
    }
}

/// `seen` marks the elements of a sequence.
spec fn marks(seen: Seq<bool>, s: Seq<u32>) -> bool {
    forall|id: int| 0 <= id < seen.len() ==> #[trigger] seen[id] == s.contains(id as u32)
}

/// Appends the elements of a list that are new.
fn append_unseen(order: &mut Vec<u32>, seen: &mut Vec<bool>, list: &[u32])
    requires
        marks(old(seen)@, old(order)@),
        all_below(list@, old(seen)@.len()),
        old(seen)@.len() <= u32::MAX,
    ensures
        marks(final(seen)@, final(order)@),
        final(seen)@.len() == old(seen)@.len(),
        final(order)@ == append_new(old(order)@, list@),
{
    let mut i: usize = 0;
    assert(list@.take(0) =~= Seq::<u32>::empty());
    while i < list.len()
        invariant
            i <= list@.len(),
            marks(seen@, order@),
            seen@.len() == old(seen)@.len(),
            seen@.len() <= u32::MAX,
            all_below(list@, seen@.len()),
            order@ == append_new(old(order)@, list@.take(i as int)),
        decreases list.len() - i,
    {
        let id: u32 = list[i];
        let ghost before = order@;
        assert(list@[i as int] < seen@.len());
        proof {
            let longer = list@.take(i + 1);
            assert(longer.drop_last() =~= list@.take(i as int));
            assert(longer.last() == id);
        }
        if !seen[id as usize] {
            seen.set(id as usize, true);
            order.push(id);
            proof {
                assert(order@[before.len() as int] == id);
                assert forall|x: int| 0 <= x < seen@.len() implies #[trigger] seen@[x]
                    == order@.contains(x as u32) by {
                    if x != id {
                        if before.contains(x as u32) {
                            let j = choose|j: int| 0 <= j < before.len() && before[j] == x as u32;
                            assert(order@[j] == x as u32);
                        }
                        if order@.contains(x as u32) {
                            let j = choose|j: int| 0 <= j < order@.len() && order@[j] == x as u32;
                            assert(before[j] == x as u32);
                        }
                    }
                }
            }
        }
        i += 1;
    }
    assert(list@.take(i as int) =~= list@);
}

/// The contents of some lists.
pub open spec fn views(lists: Seq<Vec<u32>>) -> Seq<Seq<u32>> {
    lists.map_values(|v: Vec<u32>| v@)
}

/// The walk order of a graph.
pub fn breadth_first_order(adjacent: &Vec<Vec<u32>>, entry: u32) -> (order: Vec<u32>)
    requires
        closed(views(adjacent@)),
        entry < adjacent@.len(),
        adjacent@.len() <= u32::MAX,
    ensures
        order@ == walk_order(views(adjacent@), entry),
{
    let n: usize = adjacent.len();
    let ghost graph = views(adjacent@);
    let mut seen: Vec<bool> = vec![false; n];
    let mut order: Vec<u32> = Vec::new();
    seen.set(entry as usize, true);
    order.push(entry);
    assert(order@ =~= seq![entry]);
    assert(marks(seen@, order@)) by {
        assert(order@[0] == entry);
    }
    let mut k: usize = 0;
    while k < order.len()
        invariant
            k <= order@.len(),
            n == adjacent@.len(),
            n <= u32::MAX,
            graph == views(adjacent@),
            closed(graph),
            entry < n,
            seen@.len() == n,
            marks(seen@, order@),
            order@ == found(graph, entry, k as nat),
            order@.len() <= n,
        decreases n - k,
    {
        proof {
            lemma_found(graph, entry, k as nat);
            assert(order@[k as int] < n);
            assert(all_below(graph[order@[k as int] as int], graph.len()));
        }
        let node: u32 = order[k];
        let ghost before = order@;
        append_unseen(&mut order, &mut seen, adjacent[node as usize].as_slice());
        proof {
            lemma_append_new(before, graph[node as int], n as nat);
            lemma_found(graph, entry, (k + 1) as nat);
            lemma_distinct_below(order@, n as nat);
        }
        k += 1;
    }
    proof {
        lemma_found_stable(graph, entry, k as nat, n as nat);
    }
    let mut ids: Vec<u32> = Vec::new();
    let mut i: usize = 0;
    while i < n
        invariant
            i <= n <= u32::MAX,
            ids@ == all_ids(i as nat),
        decreases n - i,
    {
        ids.push(i as u32);
        assert(ids@ =~= all_ids((i + 1) as nat));
        i += 1;
    }
    append_unseen(&mut order, &mut seen, ids.as_slice());
    order
}

/// Where each number stands in an order.
pub fn places_of(order: &Vec<u32>) -> (places: Vec<u32>)
    requires
        order@.no_duplicates(),
        all_below(order@, order@.len()),
        order@.len() <= u32::MAX,
    ensures
        inverse(order@, places@),
{
    let n: usize = order.len();
    let mut places: Vec<u32> = vec![0u32; n];
    let mut i: usize = 0;
    while i < n
        invariant
            i <= n <= u32::MAX,
            n == order@.len(),
            order@.no_duplicates(),
            all_below(order@, order@.len()),
            places@.len() == n,
            forall|j: int| 0 <= j < i ==> places@[#[trigger] order@[j] as int] == j,
        decreases n - i,
    {
        assert(order@[i as int] < n);
        let ghost before = places@;
        places.set(order[i] as usize, i as u32);
        proof {
            assert forall|j: int| 0 <= j < i + 1 implies places@[#[trigger] order@[j] as int] == j by {
                if j < i {
                    assert(order@[j] != order@[i as int]);
                    assert(order@[j] < n);
                }
            }
        }
        i += 1;
    }
    proof {
        lemma_covers(order@);
        assert forall|x: int| 0 <= x < n implies #[trigger] places@[x] < n && order@[places@[x] as int]
            == x by {
            assert(order@.contains(x as u32));
            let j = choose|j: int| 0 <= j < order@.len() && order@[j] == x as u32;
            assert(places@[order@[j] as int] == j);
        }
    }
    places
}

/// Different numbers below their count are all the numbers below it.
proof fn lemma_covers(order: Seq<u32>)
    requires
        order.no_duplicates(),
        all_below(order, order.len()),
        order.len() <= u32::MAX,
    ensures
        forall|x: int| 0 <= x < order.len() ==> order.contains(#[trigger] (x as u32)),
{
    let n = order.len();
    let ids = all_ids(n);
    order.unique_seq_to_set();
    ids.unique_seq_to_set();
    assert forall|id: u32| #[trigger] order.to_set().contains(id) implies ids.to_set().contains(
        id,
    ) by {
        let i = choose|i: int| 0 <= i < order.len() && order[i] == id;
        assert(order[i] < n);
        assert(ids[id as int] == id);
    }
    assert(order.to_set().subset_of(ids.to_set()));
    vstd::set_lib::lemma_subset_equality(order.to_set(), ids.to_set());
    assert forall|x: int| 0 <= x < order.len() implies order.contains(#[trigger] (x as u32)) by {
        assert(ids[x] == x as u32);
        assert(ids.to_set().contains(x as u32));
        assert(order.to_set().contains(x as u32));
    }
}

} // verus!
