//! Which nodes of a graph are worth keeping.

use vstd::prelude::*;

use crate::graph_storage::GraphStorage;

verus! {

/// Behind the nodes that are used there is none with neighbours, and the last of
/// them has some.
pub proof fn law_used(graph: &GraphStorage, n: nat, levels: nat)
    requires
        n <= u32::MAX,
    ensures
        graph.used(n, levels) <= n,
        forall|node: u32, level: u8|
            graph.used(n, levels) <= node < n && level < levels ==> (#[trigger] graph.links(
                node,
                level,
            )).len() == 0,
        graph.used(n, levels) > 0 ==> exists|level: u8|
            level < levels && (#[trigger] graph.links(
                (graph.used(n, levels) - 1) as u32,
                level,
            )).len() > 0,
    decreases n,
{
    if n > 0 && !graph.has_list((n - 1) as u32, levels) {
        law_used(graph, (n - 1) as nat, levels);
        assert forall|node: u32, level: u8|
            graph.used(n, levels) <= node < n && level < levels implies (#[trigger] graph.links(
            node,
            level,
        )).len() == 0 by {
            if node == n - 1 {
                assert(!graph.has_list(node, levels));
            }
        }
    }
}

} // verus!
