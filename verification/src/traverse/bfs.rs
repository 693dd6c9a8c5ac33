use vstd::prelude::*;

use std::collections::VecDeque;

use crate::data::graph::{
    Graph, GraphNode, GraphNodeIndex, has_edge, lemma_closed_contains_reachable,
    lemma_reachable_self, lemma_reachable_step, linked_adjacency, linked_wf, reachable,
};
use crate::search::path::{filled, lemma_no_dup_bounded_len};

verus! {

/// The rest of a breadth-first discovery order, from a mid-round state:
/// `row` is what remains of the adjacency list of the node being
/// processed, `queue` holds the discovered-but-unprocessed nodes in
/// discovery order, and `seen` the discovered set. Every fresh node of the
/// row is emitted and enqueued in list order; an exhausted row moves on to
/// the next queued node. The fuel only bounds the recursion; one unit per
/// processed node is enough, since only fresh nodes are ever enqueued.
pub open spec fn bfs_order_from(
    adj: Seq<Seq<GraphNodeIndex>>,
    row: Seq<GraphNodeIndex>,
    queue: Seq<GraphNodeIndex>,
    seen: Set<GraphNodeIndex>,
    fuel: nat,
) -> Seq<GraphNodeIndex>
    decreases fuel, row.len(),
{
    if row.len() > 0 {
        let x = row[0];
        if seen.contains(x) {
            bfs_order_from(adj, row.drop_first(), queue, seen, fuel)
        } else {
            seq![x] + bfs_order_from(adj, row.drop_first(), queue.push(x), seen.insert(x), fuel)
        }
    } else if queue.len() == 0 || fuel == 0 {
        Seq::empty()
    } else if queue[0] < adj.len() {
        bfs_order_from(adj, adj[queue[0] as int], queue.drop_first(), seen, (fuel - 1) as nat)
    } else {
        bfs_order_from(adj, Seq::empty(), queue.drop_first(), seen, (fuel - 1) as nat)
    }
}

/// The breadth-first discovery order from `start`: `start` first, then,
/// level by level, each processed node's unseen neighbours in
/// adjacency-list order.
pub open spec fn bfs_discovery_order(
    adj: Seq<Seq<GraphNodeIndex>>,
    start: GraphNodeIndex,
) -> Seq<GraphNodeIndex> {
    seq![start] + bfs_order_from(adj, Seq::empty(), seq![start], set![start], adj.len() + 1)
}

/// The set of nodes marked in the seen table.
spec fn seen_set(seen: Seq<bool>) -> Set<GraphNodeIndex> {
    Set::new(|v: GraphNodeIndex| v < seen.len() && seen[v as int])
}

/// Visit every node reachable from `start` with a breadth-first search over
/// the indexed graph, and return the nodes in discovery order.
///
/// The output contains exactly the nodes reachable from `start`, each
/// exactly once, and equals the breadth-first discovery order: `start`
/// first, then, level by level, each processed node's unseen neighbours in
/// adjacency-list order — fully deterministic.
pub fn bfs_graph_traversal_in_indexed_graph<V, E>(
    graph: &Graph<V, E>,
    start: GraphNodeIndex,
) -> (order: Vec<GraphNodeIndex>)
    requires
        graph.wf(),
        start < graph.nodes@.len(),
    ensures
        order@.len() >= 1,
        order@[0] == start,
        order@.no_duplicates(),
        forall|t: GraphNodeIndex| order@.contains(t) <==> reachable(graph.adjacency(), start, t),
        order@ == bfs_discovery_order(graph.adjacency(), start),
{
    let ghost adj = graph.adjacency();
    let ghost n = graph.nodes@.len() as int;

    let mut fifo: VecDeque<GraphNodeIndex> = VecDeque::new();
    let mut order: Vec<GraphNodeIndex> = Vec::new();
    let mut seen: Vec<bool> = filled(graph.nodes.len(), false);

    fifo.push_back(start);
    seen.set(start, true);
    order.push(start);
    let ghost mut fuel: nat = (n + 1) as nat;
    proof {
        broadcast use vstd::seq_lib::lemma_seq_contains_after_push;

        lemma_reachable_self(adj, start);
        assert(order@ =~= seq![start]);
        assert(fifo@ =~= seq![start]);
        assert(fifo@[0] == start && fifo@.contains(start));
        assert(order@[0] == start && order@.contains(start));
        assert forall|v: GraphNodeIndex| order@.contains(v) implies v == start by {
            let i = choose|i: int| 0 <= i < order@.len() && order@[i] == v;
        }
        assert forall|v: GraphNodeIndex| fifo@.contains(v) implies v == start by {
            let i = choose|i: int| 0 <= i < fifo@.len() && fifo@[i] == v;
        }
        assert(seen_set(seen@) =~= set![start]);
        assert(bfs_discovery_order(adj, start) == order@ + bfs_order_from(
            adj,
            Seq::empty(),
            fifo@,
            seen_set(seen@),
            fuel,
        ));
    }

    while fifo.len() > 0
        invariant
            graph.wf(),
            adj == graph.adjacency(),
            n == graph.nodes@.len() as int,
            adj.len() == n,
            start < n,
            seen@.len() == n,
            order@.len() >= 1,
            order@[0] == start,
            order@.len() <= n,
            order@.no_duplicates(),
            forall|i: int| 0 <= i < order@.len() ==> #[trigger] order@[i] < n,
            forall|v: GraphNodeIndex| v < n ==> (seen@[v as int] <==> order@.contains(v)),
            forall|i: int| 0 <= i < fifo@.len() ==> #[trigger] fifo@[i] < n,
            forall|i: int| 0 <= i < fifo@.len() ==> seen@[#[trigger] fifo@[i] as int],
            fifo@.no_duplicates(),
            order@.len() - fifo@.len() >= 0,
            fuel == n + 1 - (order@.len() - fifo@.len()),
            bfs_discovery_order(adj, start) == order@ + bfs_order_from(
                adj,
                Seq::empty(),
                fifo@,
                seen_set(seen@),
                fuel,
            ),
            forall|v: GraphNodeIndex|
                #![trigger seen@[v as int]]
                v < n && seen@[v as int] ==> reachable(adj, start, v),
            forall|v: GraphNodeIndex, k: int|
                #![trigger seen@[v as int], adj[v as int][k]]
                v < n && seen@[v as int] && !fifo@.contains(v) && 0 <= k < adj[v as int].len()
                    ==> seen@[adj[v as int][k] as int],
        decreases n - order@.len() + fifo@.len(),
    {
        let ghost fifo_before = fifo@;
        let current = fifo.pop_front().unwrap();
        proof {
            assert forall|v: GraphNodeIndex|
                fifo_before.contains(v) && v != current implies fifo@.contains(v) by {
                let i = choose|i: int| 0 <= i < fifo_before.len() && fifo_before[i] == v;
                assert(fifo@[i - 1] == v);
            }
            assert(fuel >= 1);
            assert(fifo_before[0] == current);
            assert(fifo@ =~= fifo_before.drop_first());
            assert(bfs_order_from(adj, Seq::empty(), fifo_before, seen_set(seen@), fuel)
                == bfs_order_from(adj, adj[current as int], fifo@, seen_set(seen@), (fuel
                - 1) as nat));
            fuel = (fuel - 1) as nat;
            assert(adj[current as int].skip(0) =~= adj[current as int]);
        }
        let num_edges = graph.edges[current].len();
        let ghost fifo_entry = fifo@;
        let ghost order_entry = order@;
        let mut k: usize = 0;
        while k < num_edges
            invariant
                graph.wf(),
                adj == graph.adjacency(),
                n == graph.nodes@.len() as int,
                adj.len() == n,
                start < n,
                current < n,
                seen@.len() == n,
                seen@[current as int],
                num_edges == adj[current as int].len(),
                k <= num_edges,
                order@.len() >= 1,
                order@[0] == start,
                order@.len() <= n,
                order@.no_duplicates(),
                forall|i: int| 0 <= i < order@.len() ==> #[trigger] order@[i] < n,
                forall|v: GraphNodeIndex| v < n ==> (seen@[v as int] <==> order@.contains(v)),
                forall|i: int| 0 <= i < fifo@.len() ==> #[trigger] fifo@[i] < n,
                forall|i: int| 0 <= i < fifo@.len() ==> seen@[#[trigger] fifo@[i] as int],
                fifo@.no_duplicates(),
                !fifo@.contains(current),
                fifo@.len() - fifo_entry.len() == order@.len() - order_entry.len(),
                order@.len() - fifo@.len() >= 1,
                fuel == n + 1 - (order@.len() - fifo@.len()),
                bfs_discovery_order(adj, start) == order@ + bfs_order_from(
                    adj,
                    adj[current as int].skip(k as int),
                    fifo@,
                    seen_set(seen@),
                    fuel,
                ),
                forall|v: GraphNodeIndex|
                    #![trigger seen@[v as int]]
                    v < n && seen@[v as int] ==> reachable(adj, start, v),
                forall|j: int|
                    0 <= j < k ==> seen@[#[trigger] adj[current as int][j] as int],
                forall|v: GraphNodeIndex, j: int|
                    #![trigger seen@[v as int], adj[v as int][j]]
                    v != current && v < n && seen@[v as int] && !fifo@.contains(v) && 0 <= j
                        < adj[v as int].len() ==> seen@[adj[v as int][j] as int],
            decreases num_edges - k,
        {
            let neighbour = graph.edges[current][k].0;
            let ghost row = adj[current as int];
            let ghost pre_order = order@;
            let ghost pre_fifo = fifo@;
            let ghost pre_seen = seen_set(seen@);
            proof {
                assert(adj[current as int][k as int] == neighbour);
            }
            if !seen[neighbour] {
                seen.set(neighbour, true);
                fifo.push_back(neighbour);
                order.push(neighbour);
                proof {
                    broadcast use vstd::seq_lib::lemma_seq_contains_after_push;

                    assert(has_edge(adj, current, neighbour));
                    lemma_reachable_step(adj, start, current, neighbour);
                    lemma_no_dup_bounded_len(order@, n as nat);
                }
            }
            proof {
                broadcast use vstd::seq_lib::group_seq_properties;

                assert(row.skip(k as int)[0] == neighbour);
                assert(row.skip(k as int).drop_first() =~= row.skip(k + 1));
                if pre_seen.contains(neighbour) {
                    assert(bfs_order_from(adj, row.skip(k as int), pre_fifo, pre_seen, fuel)
                        == bfs_order_from(adj, row.skip(k + 1), fifo@, seen_set(seen@), fuel));
                } else {
                    assert(seen_set(seen@) =~= pre_seen.insert(neighbour));
                    assert(fifo@ =~= pre_fifo.push(neighbour));
                    assert(order@ =~= pre_order.push(neighbour));
                    assert(bfs_order_from(adj, row.skip(k as int), pre_fifo, pre_seen, fuel)
                        == seq![neighbour] + bfs_order_from(
                        adj,
                        row.skip(k + 1),
                        fifo@,
                        seen_set(seen@),
                        fuel,
                    ));
                    assert(pre_order + (seq![neighbour] + bfs_order_from(
                        adj,
                        row.skip(k + 1),
                        fifo@,
                        seen_set(seen@),
                        fuel,
                    )) =~= order@ + bfs_order_from(
                        adj,
                        row.skip(k + 1),
                        fifo@,
                        seen_set(seen@),
                        fuel,
                    ));
                }
            }
            k = k + 1;
        }
        proof {
            assert(adj[current as int].skip(num_edges as int)
                =~= Seq::<GraphNodeIndex>::empty());
        }
    }
    proof {
        assert(bfs_order_from(adj, Seq::empty(), fifo@, seen_set(seen@), fuel)
            =~= Seq::<GraphNodeIndex>::empty());
        assert(order@ + Seq::<GraphNodeIndex>::empty() =~= order@);
        let visited = Set::new(|v: GraphNodeIndex| v < n && seen@[v as int]);
        assert forall|t: GraphNodeIndex|
            reachable(adj, start, t) implies order@.contains(t) by {
            assert forall|u: GraphNodeIndex, v: GraphNodeIndex|
                #![trigger visited.contains(u), has_edge(adj, u, v)]
                visited.contains(u) && has_edge(adj, u, v) implies visited.contains(v) by {
                let k = choose|k: int|
                    0 <= k < adj[u as int].len() && adj[u as int][k] == v;
                assert(seen@[adj[u as int][k] as int]);
                assert(adj[u as int][k] < adj.len());
            }
            lemma_closed_contains_reachable(adj, visited, start, t);
        }
    }
    order
}

/// Visit every node reachable from `start` with a breadth-first search over
/// a linked-graph arena, and return the handles in discovery order.
///
/// Same contract as the indexed variant, stated over the arena's adjacency
/// structure: the output is exactly the reachable set, each node once, in
/// the deterministic breadth-first discovery order.
pub fn bfs_graph_traversal_in_linked_graph(
    nodes: &Vec<GraphNode<char, ()>>,
    start: GraphNodeIndex,
) -> (order: Vec<GraphNodeIndex>)
    requires
        linked_wf(nodes@),
        start < nodes@.len(),
    ensures
        order@.len() >= 1,
        order@[0] == start,
        order@.no_duplicates(),
        forall|t: GraphNodeIndex| order@.contains(t) <==> reachable(linked_adjacency(nodes@), start, t),
        order@ == bfs_discovery_order(linked_adjacency(nodes@), start),
{
    let ghost adj = linked_adjacency(nodes@);
    let ghost n = nodes@.len() as int;

    let mut fifo: VecDeque<GraphNodeIndex> = VecDeque::new();
    let mut order: Vec<GraphNodeIndex> = Vec::new();
    let mut seen: Vec<bool> = filled(nodes.len(), false);

    fifo.push_back(start);
    seen.set(start, true);
    order.push(start);
    let ghost mut fuel: nat = (n + 1) as nat;
    proof {
        broadcast use vstd::seq_lib::lemma_seq_contains_after_push;

        lemma_reachable_self(adj, start);
        assert(order@ =~= seq![start]);
        assert(fifo@ =~= seq![start]);
        assert(fifo@[0] == start && fifo@.contains(start));
        assert(order@[0] == start && order@.contains(start));
        assert forall|v: GraphNodeIndex| order@.contains(v) implies v == start by {
            let i = choose|i: int| 0 <= i < order@.len() && order@[i] == v;
        }
        assert forall|v: GraphNodeIndex| fifo@.contains(v) implies v == start by {
            let i = choose|i: int| 0 <= i < fifo@.len() && fifo@[i] == v;
        }
        assert(seen_set(seen@) =~= set![start]);
        assert(bfs_discovery_order(adj, start) == order@ + bfs_order_from(
            adj,
            Seq::empty(),
            fifo@,
            seen_set(seen@),
            fuel,
        ));
    }

    while fifo.len() > 0
        invariant
            linked_wf(nodes@),
            adj == linked_adjacency(nodes@),
            n == nodes@.len() as int,
            adj.len() == n,
            start < n,
            seen@.len() == n,
            order@.len() >= 1,
            order@[0] == start,
            order@.len() <= n,
            order@.no_duplicates(),
            forall|i: int| 0 <= i < order@.len() ==> #[trigger] order@[i] < n,
            forall|v: GraphNodeIndex| v < n ==> (seen@[v as int] <==> order@.contains(v)),
            forall|i: int| 0 <= i < fifo@.len() ==> #[trigger] fifo@[i] < n,
            forall|i: int| 0 <= i < fifo@.len() ==> seen@[#[trigger] fifo@[i] as int],
            fifo@.no_duplicates(),
            order@.len() - fifo@.len() >= 0,
            fuel == n + 1 - (order@.len() - fifo@.len()),
            bfs_discovery_order(adj, start) == order@ + bfs_order_from(
                adj,
                Seq::empty(),
                fifo@,
                seen_set(seen@),
                fuel,
            ),
            forall|v: GraphNodeIndex|
                #![trigger seen@[v as int]]
                v < n && seen@[v as int] ==> reachable(adj, start, v),
            forall|v: GraphNodeIndex, k: int|
                #![trigger seen@[v as int], adj[v as int][k]]
                v < n && seen@[v as int] && !fifo@.contains(v) && 0 <= k < adj[v as int].len()
                    ==> seen@[adj[v as int][k] as int],
        decreases n - order@.len() + fifo@.len(),
    {
        let ghost fifo_before = fifo@;
        let current = fifo.pop_front().unwrap();
        proof {
            assert forall|v: GraphNodeIndex|
                fifo_before.contains(v) && v != current implies fifo@.contains(v) by {
                let i = choose|i: int| 0 <= i < fifo_before.len() && fifo_before[i] == v;
                assert(fifo@[i - 1] == v);
            }
            assert(fuel >= 1);
            assert(fifo_before[0] == current);
            assert(fifo@ =~= fifo_before.drop_first());
            assert(bfs_order_from(adj, Seq::empty(), fifo_before, seen_set(seen@), fuel)
                == bfs_order_from(adj, adj[current as int], fifo@, seen_set(seen@), (fuel
                - 1) as nat));
            fuel = (fuel - 1) as nat;
            assert(adj[current as int].skip(0) =~= adj[current as int]);
        }
        let num_edges = nodes[current].neighbours.len();
        let ghost fifo_entry = fifo@;
        let ghost order_entry = order@;
        let mut k: usize = 0;
        while k < num_edges
            invariant
                linked_wf(nodes@),
                adj == linked_adjacency(nodes@),
                n == nodes@.len() as int,
                adj.len() == n,
                start < n,
                current < n,
                seen@.len() == n,
                seen@[current as int],
                num_edges == adj[current as int].len(),
                k <= num_edges,
                order@.len() >= 1,
                order@[0] == start,
                order@.len() <= n,
                order@.no_duplicates(),
                forall|i: int| 0 <= i < order@.len() ==> #[trigger] order@[i] < n,
                forall|v: GraphNodeIndex| v < n ==> (seen@[v as int] <==> order@.contains(v)),
                forall|i: int| 0 <= i < fifo@.len() ==> #[trigger] fifo@[i] < n,
                forall|i: int| 0 <= i < fifo@.len() ==> seen@[#[trigger] fifo@[i] as int],
                fifo@.no_duplicates(),
                !fifo@.contains(current),
                fifo@.len() - fifo_entry.len() == order@.len() - order_entry.len(),
                order@.len() - fifo@.len() >= 1,
                fuel == n + 1 - (order@.len() - fifo@.len()),
                bfs_discovery_order(adj, start) == order@ + bfs_order_from(
                    adj,
                    adj[current as int].skip(k as int),
                    fifo@,
                    seen_set(seen@),
                    fuel,
                ),
                forall|v: GraphNodeIndex|
                    #![trigger seen@[v as int]]
                    v < n && seen@[v as int] ==> reachable(adj, start, v),
                forall|j: int|
                    0 <= j < k ==> seen@[#[trigger] adj[current as int][j] as int],
                forall|v: GraphNodeIndex, j: int|
                    #![trigger seen@[v as int], adj[v as int][j]]
                    v != current && v < n && seen@[v as int] && !fifo@.contains(v) && 0 <= j
                        < adj[v as int].len() ==> seen@[adj[v as int][j] as int],
            decreases num_edges - k,
        {
            let neighbour = nodes[current].neighbours[k].0;
            let ghost row = adj[current as int];
            let ghost pre_order = order@;
            let ghost pre_fifo = fifo@;
            let ghost pre_seen = seen_set(seen@);
            proof {
                assert(adj[current as int][k as int] == neighbour);
            }
            if !seen[neighbour] {
                seen.set(neighbour, true);
                fifo.push_back(neighbour);
                order.push(neighbour);
                proof {
                    broadcast use vstd::seq_lib::lemma_seq_contains_after_push;

                    assert(has_edge(adj, current, neighbour));
                    lemma_reachable_step(adj, start, current, neighbour);
                    lemma_no_dup_bounded_len(order@, n as nat);
                }
            }
            proof {
                broadcast use vstd::seq_lib::group_seq_properties;

                assert(row.skip(k as int)[0] == neighbour);
                assert(row.skip(k as int).drop_first() =~= row.skip(k + 1));
                if pre_seen.contains(neighbour) {
                    assert(bfs_order_from(adj, row.skip(k as int), pre_fifo, pre_seen, fuel)
                        == bfs_order_from(adj, row.skip(k + 1), fifo@, seen_set(seen@), fuel));
                } else {
                    assert(seen_set(seen@) =~= pre_seen.insert(neighbour));
                    assert(fifo@ =~= pre_fifo.push(neighbour));
                    assert(order@ =~= pre_order.push(neighbour));
                    assert(bfs_order_from(adj, row.skip(k as int), pre_fifo, pre_seen, fuel)
                        == seq![neighbour] + bfs_order_from(
                        adj,
                        row.skip(k + 1),
                        fifo@,
                        seen_set(seen@),
                        fuel,
                    ));
                    assert(pre_order + (seq![neighbour] + bfs_order_from(
                        adj,
                        row.skip(k + 1),
                        fifo@,
                        seen_set(seen@),
                        fuel,
                    )) =~= order@ + bfs_order_from(
                        adj,
                        row.skip(k + 1),
                        fifo@,
                        seen_set(seen@),
                        fuel,
                    ));
                }
            }
            k = k + 1;
        }
        proof {
            assert(adj[current as int].skip(num_edges as int)
                =~= Seq::<GraphNodeIndex>::empty());
        }
    }
    proof {
        assert(bfs_order_from(adj, Seq::empty(), fifo@, seen_set(seen@), fuel)
            =~= Seq::<GraphNodeIndex>::empty());
        assert(order@ + Seq::<GraphNodeIndex>::empty() =~= order@);
        let visited = Set::new(|v: GraphNodeIndex| v < n && seen@[v as int]);
        assert forall|t: GraphNodeIndex|
            reachable(adj, start, t) implies order@.contains(t) by {
            assert forall|u: GraphNodeIndex, v: GraphNodeIndex|
                #![trigger visited.contains(u), has_edge(adj, u, v)]
                visited.contains(u) && has_edge(adj, u, v) implies visited.contains(v) by {
                let k = choose|k: int|
                    0 <= k < adj[u as int].len() && adj[u as int][k] == v;
                assert(seen@[adj[u as int][k] as int]);
                assert(adj[u as int][k] < adj.len());
            }
            lemma_closed_contains_reachable(adj, visited, start, t);
        }
    }
    order
}

} // verus!
