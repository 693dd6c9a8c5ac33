use vstd::prelude::*;

use crate::data::graph::{
    Graph, GraphNodeIndex, has_edge, lemma_closed_contains_reachable,
    lemma_reachable_self, lemma_reachable_step, reachable,
};
use crate::search::path::{filled, lemma_no_dup_bounded_len};

verus! {

/// Visit every node reachable from `start` with a depth-first search over
/// the indexed graph, using an explicit stack instead of recursion, and
/// return the nodes in discovery order.
///
/// The output contains exactly the nodes reachable from `start`, each
/// exactly once, beginning with `start`. A node may sit on the stack several
/// times, so the exact order depends on how pending entries interleave; the
/// contract fixes the visited set, not the order.
pub fn dfs_graph_traversal<V, E>(
    graph: &Graph<V, E>,
    start: GraphNodeIndex,
) -> (order: Vec<GraphNodeIndex>)
    requires
        graph.wf(),
        start < graph.nodes@.len(),
    ensures
        order@.len() >= 1,
        order@[0] == start,
        order@.no_duplicates(),
        forall|t: GraphNodeIndex| order@.contains(t) <==> reachable(graph.adjacency(), start, t),
{
    let ghost adj = graph.adjacency();
    let ghost n = graph.nodes@.len() as int;

    let mut lifo: Vec<GraphNodeIndex> = Vec::new();
    let mut order: Vec<GraphNodeIndex> = Vec::new();
    let mut seen: Vec<bool> = filled(graph.nodes.len(), false);

    lifo.push(start);
    proof {
        broadcast use vstd::seq_lib::lemma_seq_contains_after_push;

        lemma_reachable_self(adj, start);
        assert(lifo@ =~= seq![start]);
    }

    while lifo.len() > 0
        invariant
            graph.wf(),
            adj == graph.adjacency(),
            n == graph.nodes@.len() as int,
            adj.len() == n,
            start < n,
            seen@.len() == n,
            order@.len() <= n,
            order@.no_duplicates(),
            (order@.len() == 0 && lifo@ =~= seq![start]) || (order@.len() >= 1 && order@[0]
                == start),
            forall|i: int| 0 <= i < order@.len() ==> #[trigger] order@[i] < n,
            forall|v: GraphNodeIndex| v < n ==> (seen@[v as int] <==> order@.contains(v)),
            forall|i: int| 0 <= i < lifo@.len() ==> #[trigger] lifo@[i] < n,
            forall|i: int| 0 <= i < lifo@.len() ==> reachable(adj, start, #[trigger] lifo@[i]),
            forall|v: GraphNodeIndex|
                #![trigger seen@[v as int]]
                v < n && seen@[v as int] ==> reachable(adj, start, v),
            forall|v: GraphNodeIndex, k: int|
                #![trigger seen@[v as int], adj[v as int][k]]
                v < n && seen@[v as int] && 0 <= k < adj[v as int].len() ==> (seen@[adj[v
                    as int][k] as int] || lifo@.contains(adj[v as int][k])),
        decreases n - order@.len(), lifo@.len(),
    {
        let ghost lifo_before = lifo@;
        let current = lifo.pop().unwrap();
        proof {
            assert(lifo_before =~= lifo@.push(current));
            assert forall|v: GraphNodeIndex|
                lifo_before.contains(v) && v != current implies lifo@.contains(v) by {
                let i = choose|i: int| 0 <= i < lifo_before.len() && lifo_before[i] == v;
                assert(lifo@[i] == v);
            }
        }
        if !seen[current] {
            seen.set(current, true);
            order.push(current);
            proof {
                broadcast use vstd::seq_lib::lemma_seq_contains_after_push;

                lemma_no_dup_bounded_len(order@, n as nat);
            }
            let num_edges = graph.edges[current].len();
            let mut k: usize = 0;
            while k < num_edges
                invariant
                    graph.wf(),
                    adj == graph.adjacency(),
                    n == graph.nodes@.len() as int,
                    adj.len() == n,
                    start < n,
                    current < n,
                    seen@.len() == n,
                    seen@[current as int],
                    num_edges == adj[current as int].len(),
                    k <= num_edges,
                    order@.len() >= 1,
                    order@[0] == start,
                    order@.len() <= n,
                    order@.no_duplicates(),
                    forall|i: int| 0 <= i < order@.len() ==> #[trigger] order@[i] < n,
                    forall|v: GraphNodeIndex| v < n ==> (seen@[v as int] <==> order@.contains(v)),
                    forall|i: int| 0 <= i < lifo@.len() ==> #[trigger] lifo@[i] < n,
                    forall|i: int|
                        0 <= i < lifo@.len() ==> reachable(adj, start, #[trigger] lifo@[i]),
                    forall|v: GraphNodeIndex|
                        #![trigger seen@[v as int]]
                        v < n && seen@[v as int] ==> reachable(adj, start, v),
                    forall|j: int|
                        0 <= j < k ==> (seen@[#[trigger] adj[current as int][j] as int]
                            || lifo@.contains(adj[current as int][j])),
                    forall|v: GraphNodeIndex, j: int|
                        #![trigger seen@[v as int], adj[v as int][j]]
                        v != current && v < n && seen@[v as int] && 0 <= j < adj[v as int].len()
                            ==> (seen@[adj[v as int][j] as int] || lifo@.contains(adj[v
                            as int][j])),
                decreases num_edges - k,
            {
                let neighbour = graph.edges[current][k].0;
                proof {
                    assert(adj[current as int][k as int] == neighbour);
                }
                if !seen[neighbour] {
                    lifo.push(neighbour);
                    proof {
                        broadcast use vstd::seq_lib::lemma_seq_contains_after_push;

                        assert(has_edge(adj, current, neighbour));
                        lemma_reachable_step(adj, start, current, neighbour);
                    }
                }
                k = k + 1;
            }
        } else {
            proof {
                assert forall|v: GraphNodeIndex, k: int|
                    #![trigger seen@[v as int], adj[v as int][k]]
                    v < n && seen@[v as int] && 0 <= k < adj[v as int].len() implies (seen@[adj[v
                        as int][k] as int] || lifo@.contains(adj[v as int][k])) by {
                    let w = adj[v as int][k];
                    assert(seen@[w as int] || lifo_before.contains(w));
                    if !seen@[w as int] {
                        assert(w != current);
                    }
                }
            }
        }
    }
    proof {
        let visited = Set::new(|v: GraphNodeIndex| v < n && seen@[v as int]);
        assert forall|t: GraphNodeIndex|
            reachable(adj, start, t) implies order@.contains(t) by {
            assert forall|u: GraphNodeIndex, v: GraphNodeIndex|
                #![trigger visited.contains(u), has_edge(adj, u, v)]
                visited.contains(u) && has_edge(adj, u, v) implies visited.contains(v) by {
                let k = choose|k: int|
                    0 <= k < adj[u as int].len() && adj[u as int][k] == v;
                assert(seen@[adj[u as int][k] as int] || lifo@.contains(adj[u as int][k]));
                assert(adj[u as int][k] < adj.len());
            }
            lemma_closed_contains_reachable(adj, visited, start, t);
        }
    }
    order
}

} // verus!
