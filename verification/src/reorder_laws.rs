//! What a breadth-first walk is.

use vstd::prelude::*;

use crate::reorder::{all_ids, append_new, closed, found, law_walk_order, walk_order};

verus! {

/// Of the nodes in an order, one at a place has the one at another place as a
/// neighbour.
pub open spec fn finds(adjacent: Seq<Seq<u32>>, order: Seq<u32>, p: int, q: int) -> bool {
    adjacent[order[p] as int].contains(order[q])
}

/// The first `n` nodes of an order are what a breadth-first walk from the first
/// of them finds: each has a neighbour before it, no neighbour of them is
/// missing, and a node whose first neighbour comes before that of another comes
/// before it.
pub open spec fn breadth_first(adjacent: Seq<Seq<u32>>, order: Seq<u32>, n: int) -> bool {
    &&& 0 < n <= order.len()
    &&& forall|q: int|
        0 < q < n ==> #[trigger] found_before(adjacent, order, q, n)
    &&& forall|p: int, x: u32|
        0 <= p < n && #[trigger] adjacent[order[p] as int].contains(x) ==> exists|q: int|
            0 <= q < n && #[trigger] order[q] == x
    &&& forall|q: int, r: int, p: int|
        0 < q < r < n && 0 <= p < n && #[trigger] finds(adjacent, order, p, r) ==> #[trigger] found_by(
            adjacent,
            order,
            p,
            q,
        )
}

/// One of the nodes up to a place has another one as a neighbour.
pub open spec fn found_by(adjacent: Seq<Seq<u32>>, order: Seq<u32>, p: int, q: int) -> bool {
    exists|o: int| 0 <= o <= p && #[trigger] finds(adjacent, order, o, q)
}

/// A node is a neighbour of one before it, and that among the first `k`.
pub open spec fn found_before(adjacent: Seq<Seq<u32>>, order: Seq<u32>, q: int, k: int) -> bool {
    exists|p: int| 0 <= p < q && p < k && #[trigger] finds(adjacent, order, p, q)
}

proof fn lemma_appended(s: Seq<u32>, list: Seq<u32>)
    ensures
        append_new(s, list).len() >= s.len(),
        forall|i: int| 0 <= i < s.len() ==> #[trigger] append_new(s, list)[i] == s[i],
        forall|i: int|
            s.len() <= i < append_new(s, list).len() ==> list.contains(
                #[trigger] append_new(s, list)[i],
            ) && !s.contains(append_new(s, list)[i]),
        forall|x: u32| list.contains(x) ==> #[trigger] append_new(s, list).contains(x),
    decreases list.len(),
{
    if list.len() > 0 {
        let front = list.drop_last();
        lemma_appended(s, front);
        let mid = append_new(s, front);
        let all = append_new(s, list);
        assert(list[list.len() - 1] == list.last());
        assert forall|i: int| s.len() <= i < all.len() implies list.contains(#[trigger] all[i])
            && !s.contains(all[i]) by {
            if i < mid.len() {
                assert(mid[i] == all[i]);
                let j = choose|j: int| 0 <= j < front.len() && front[j] == mid[i];
                assert(list[j] == all[i]);
            } else if s.contains(all[i]) {
                let j = choose|j: int| 0 <= j < s.len() && s[j] == all[i];
                assert(mid[j] == all[i]);
            }
        }
        assert forall|x: u32| list.contains(x) implies #[trigger] all.contains(x) by {
            let i = choose|i: int| 0 <= i < list.len() && list[i] == x;
            if i < front.len() {
                assert(front[i] == x);
                assert(mid.contains(x));
                let j = choose|j: int| 0 <= j < mid.len() && mid[j] == x;
                assert(all[j] == x);
            } else if !mid.contains(x) {
                assert(all[mid.len() as int] == x);
            }
        }
    }
}

/// What holds of the nodes found when the neighbours of the first `k` of them
/// were looked at.
spec fn walked(adjacent: Seq<Seq<u32>>, s: Seq<u32>, k: int) -> bool {
    &&& s.len() > 0
    &&& forall|q: int|
        0 < q < s.len() ==> #[trigger] found_before(adjacent, s, q, k)
    &&& forall|p: int, x: u32|
        0 <= p < k && p < s.len() && #[trigger] adjacent[s[p] as int].contains(x) ==> s.contains(x)
    &&& forall|q: int, r: int, p: int|
        0 < q < r < s.len() && 0 <= p < k && p < s.len() && #[trigger] finds(adjacent, s, p, r)
            ==> #[trigger] found_by(adjacent, s, p, q)
}

proof fn lemma_walked(adjacent: Seq<Seq<u32>>, entry: u32, k: nat)
    ensures
        walked(adjacent, found(adjacent, entry, k), k as int),
    decreases k,
{
    if k > 0 {
        let before = (k - 1) as nat;
        lemma_walked(adjacent, entry, before);
        let s = found(adjacent, entry, before);
        if before < s.len() {
            let list = adjacent[s[before as int] as int];
            let t = append_new(s, list);
            lemma_appended(s, list);
            assert forall|p: int, q: int| 0 <= p < s.len() && 0 <= q < s.len() implies #[trigger]
                finds(adjacent, t, p, q) == finds(adjacent, s, p, q) by {
                assert(t[p] == s[p] && t[q] == s[q]);
            }
            assert forall|q: int| 0 < q < t.len() implies #[trigger] found_before(
                adjacent,
                t,
                q,
                k as int,
            ) by {
                if q < s.len() {
                    assert(found_before(adjacent, s, q, before as int));
                    let p = choose|p: int|
                        0 <= p < q && p < before && #[trigger] finds(adjacent, s, p, q);
                    assert(finds(adjacent, t, p, q));
                } else {
                    assert(t[before as int] == s[before as int]);
                    assert(finds(adjacent, t, before as int, q));
                }
            }
            assert forall|p: int, x: u32|
                0 <= p < k && p < t.len() && #[trigger] adjacent[t[p] as int].contains(
                    x,
                ) implies t.contains(x) by {
                assert(t[p] == s[p]);
                if p < before {
                    assert(adjacent[s[p] as int].contains(x));
                    let j = choose|j: int| 0 <= j < s.len() && s[j] == x;
                    assert(t[j] == x);
                }
            }
            assert forall|q: int, r: int, p: int|
                0 < q < r < t.len() && 0 <= p < k && p < t.len() && #[trigger] finds(
                    adjacent,
                    t,
                    p,
                    r,
                ) implies #[trigger] found_by(adjacent, t, p, q) by {
                assert(t[p] == s[p]);
                if r >= s.len() && p < before {
                    assert(adjacent[s[p] as int].contains(t[r]));
                    assert(s.contains(t[r]));
                }
                if q >= s.len() {
                    assert(p == before);
                    assert(finds(adjacent, t, p, q));
                } else if p < before {
                    assert(finds(adjacent, s, p, r));
                    assert(found_by(adjacent, s, p, q));
                    let o = choose|o: int| 0 <= o <= p && #[trigger] finds(adjacent, s, o, q);
                    assert(finds(adjacent, t, o, q));
                } else {
                    assert(found_before(adjacent, s, q, before as int));
                    let o = choose|o: int|
                        0 <= o < q && o < before && #[trigger] finds(adjacent, s, o, q);
                    assert(finds(adjacent, t, o, q));
                }
            }
        } else {
            assert forall|q: int| 0 < q < s.len() implies #[trigger] found_before(
                adjacent,
                s,
                q,
                k as int,
            ) by {
                assert(found_before(adjacent, s, q, before as int));
            }
        }
    }
}

/// A walk order begins with what a breadth-first walk from the entry finds;
/// behind that stand the other nodes, in the order of their ids.
pub proof fn law_walk_is_breadth_first(adjacent: Seq<Seq<u32>>, entry: u32) -> (n: int)
    requires
        closed(adjacent),
        entry < adjacent.len(),
        adjacent.len() <= u32::MAX,
    ensures
        walk_order(adjacent, entry)[0] == entry,
        breadth_first(adjacent, walk_order(adjacent, entry), n),
        forall|q: int, r: int|
            n <= q < r < walk_order(adjacent, entry).len() ==> #[trigger] walk_order(
                adjacent,
                entry,
            )[q] < #[trigger] walk_order(adjacent, entry)[r],
{
    let count = adjacent.len();
    let s = found(adjacent, entry, count);
    let order = walk_order(adjacent, entry);
    let n = s.len() as int;
    law_walk_order(adjacent, entry);
    lemma_walked(adjacent, entry, count);
    lemma_appended(s, all_ids(count));
    assert(n <= count) by {
        assert(order.len() == count);
    }
    assert forall|p: int, q: int| 0 <= p < n && 0 <= q < n implies #[trigger] finds(
        adjacent,
        order,
        p,
        q,
    ) == finds(adjacent, s, p, q) by {
        assert(order[p] == s[p] && order[q] == s[q]);
    }
    assert forall|q: int| 0 < q < n implies #[trigger] found_before(adjacent, order, q, n) by {
        assert(found_before(adjacent, s, q, count as int));
        let p = choose|p: int| 0 <= p < q && p < count && #[trigger] finds(adjacent, s, p, q);
        assert(finds(adjacent, order, p, q));
    }
    assert forall|p: int, x: u32|
        0 <= p < n && #[trigger] adjacent[order[p] as int].contains(x) implies exists|q: int|
        0 <= q < n && #[trigger] order[q] == x by {
        assert(order[p] == s[p]);
        assert(adjacent[s[p] as int].contains(x));
        let q = choose|q: int| 0 <= q < s.len() && s[q] == x;
        assert(order[q] == x);
    }
    assert forall|q: int, r: int, p: int|
        0 < q < r < n && 0 <= p < n && #[trigger] finds(
            adjacent,
            order,
            p,
            r,
        ) implies #[trigger] found_by(adjacent, order, p, q) by {
        assert(finds(adjacent, s, p, r));
        assert(found_by(adjacent, s, p, q));
        let o = choose|o: int| 0 <= o <= p && #[trigger] finds(adjacent, s, o, q);
        assert(finds(adjacent, order, o, q));
    }
    lemma_ids_ascend(s, count, count);
    n
}

proof fn lemma_ids_ascend(s: Seq<u32>, count: nat, k: nat)
    requires
        k <= count <= u32::MAX,
    ensures
        ({
            let t = append_new(s, all_ids(count).take(k as int));
            &&& t.len() >= s.len()
            &&& forall|q: int, r: int| s.len() <= q < r < t.len() ==> #[trigger] t[q] < #[trigger] t[r]
            &&& forall|q: int| s.len() <= q < t.len() ==> #[trigger] t[q] < k
        }),
        all_ids(count).take(count as int) == all_ids(count),
    decreases k,
{
    assert(all_ids(count).take(count as int) =~= all_ids(count));
    if k > 0 {
        let list = all_ids(count).take(k as int);
        assert(list.drop_last() =~= all_ids(count).take(k - 1));
        lemma_ids_ascend(s, count, (k - 1) as nat);
    }
}

} // verus!
