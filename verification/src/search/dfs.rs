use vstd::prelude::*;

use crate::data::graph::{
    Graph, GraphNode, GraphNodeIndex, has_edge, is_path, lemma_closed_contains_reachable,
    linked_adjacency, linked_wf, reachable,
};
use crate::search::SearchError;
use crate::search::path::{filled, lemma_no_dup_bounded_len, lemma_push_fresh_no_dup, reconstruct_path};

verus! {

/// A pending stack entry: a node to visit, paired with the node from which
/// it was pushed (`None` only for the start node).
type PendingEntry = (GraphNodeIndex, Option<GraphNodeIndex>);

/// Some pending entry on the stack names `v`.
spec fn stack_has(st: Seq<PendingEntry>, v: GraphNodeIndex) -> bool {
    exists|i: int| 0 <= i < st.len() && (#[trigger] st[i]).0 == v
}

/// Search for some path (not necessarily shortest) from `start` to `target`
/// in an unweighted indexed graph by depth-first search with an explicit
/// stack.
///
/// Returns a duplicate-free valid path whenever `target` is reachable and
/// reports the failure otherwise. When `start == target` the path is
/// `[start]`. A node may sit on the stack several times and is finalized
/// only once, at its first pop.
#[verifier::rlimit(100)]
pub fn dfs_path_in_unweighted_indexed_graph<V, E>(
    graph: &Graph<V, E>,
    start: GraphNodeIndex,
    target: GraphNodeIndex,
) -> (r: Result<Vec<GraphNodeIndex>, SearchError>)
    requires
        graph.wf(),
        start < graph.nodes@.len(),
        target < graph.nodes@.len(),
    ensures
        r is Ok <==> reachable(graph.adjacency(), start, target),
        r matches Ok(p) ==> is_path(graph.adjacency(), p@, start, target) && p@.no_duplicates(),
        start == target ==> (r matches Ok(p) && p@ =~= seq![start]),
        r matches Err(e) ==> e == SearchError::UnreachableTarget,
{
    let ghost adj = graph.adjacency();
    let ghost n = graph.nodes@.len() as int;

    let mut lifo: Vec<PendingEntry> = Vec::new();
    let mut seen: Vec<bool> = filled(graph.nodes.len(), false);
    let mut prev: Vec<Option<GraphNodeIndex>> = filled(graph.nodes.len(), None);
    let ghost mut rank: Seq<nat> = Seq::new(graph.nodes@.len(), |i: int| 0nat);
    let ghost mut next_rank: nat = 1;
    let ghost mut discovered: Seq<GraphNodeIndex> = Seq::empty();

    lifo.push((start, None));
    let mut found = false;
    proof {
        assert(lifo@[0].0 == start);
        assert(stack_has(lifo@, start));
    }

    while !found && lifo.len() > 0
        invariant
            graph.wf(),
            adj == graph.adjacency(),
            n == graph.nodes@.len() as int,
            adj.len() == n,
            start < n,
            target < n,
            seen@.len() == n,
            prev@.len() == n,
            rank.len() == n,
            prev@[start as int] is None,
            discovered.no_duplicates(),
            discovered.len() <= n,
            forall|i: int| 0 <= i < discovered.len() ==> #[trigger] discovered[i] < n,
            forall|v: GraphNodeIndex| v < n ==> (seen@[v as int] <==> discovered.contains(v)),
            forall|v: int| 0 <= v < n && seen@[v] ==> #[trigger] rank[v] < next_rank,
            forall|v: int| 0 <= v < n && v != start ==> (seen@[v] <==> prev@[v] is Some),
            forall|v: int|
                0 <= v < n ==> (#[trigger] prev@[v] matches Some(u) ==> u < n && seen@[u as int]
                    && has_edge(adj, u, v as GraphNodeIndex) && rank[u as int] < rank[v] && (u
                    == start || prev@[u as int] is Some)),
            forall|i: int| 0 <= i < lifo@.len() ==> (#[trigger] lifo@[i]).0 < n,
            forall|i: int|
                0 <= i < lifo@.len() ==> ((#[trigger] lifo@[i]).1 matches Some(u) ==> u < n
                    && seen@[u as int] && has_edge(adj, u, lifo@[i].0)),
            forall|i: int|
                0 <= i < lifo@.len() ==> ((#[trigger] lifo@[i]).1 is None ==> lifo@[i].0 == start),
            seen@[start as int] || stack_has(lifo@, start),
            found ==> seen@[target as int],
            !found ==> (forall|v: GraphNodeIndex, k: int|
                #![trigger seen@[v as int], adj[v as int][k]]
                v < n && seen@[v as int] && 0 <= k < adj[v as int].len() ==> (seen@[adj[v
                    as int][k] as int] || stack_has(lifo@, adj[v as int][k]))),
        decreases n - discovered.len(), lifo@.len(),
    {
        let ghost lifo_before = lifo@;
        let top = lifo.pop().unwrap();
        let current = top.0;
        proof {
            broadcast use vstd::seq_lib::lemma_seq_contains_after_push;

            assert(lifo_before =~= lifo@.push(top));
            assert forall|v: GraphNodeIndex|
                stack_has(lifo_before, v) && v != current implies stack_has(lifo@, v) by {
                let i = choose|i: int|
                    0 <= i < lifo_before.len() && lifo_before[i].0 == v;
                assert(lifo@[i].0 == v);
            }
        }
        if !seen[current] {
            proof {
                assert(!discovered.contains(current));
                if top.1 is None {
                    assert(current == start);
                }
            }
            seen.set(current, true);
            match top.1 {
                Some(u) => {
                    if current != start {
                        prev.set(current, Some(u));
                    }
                },
                None => {},
            }
            proof {
                broadcast use vstd::seq_lib::lemma_seq_contains_after_push;

                rank = rank.update(current as int, next_rank);
                next_rank = next_rank + 1;
                lemma_push_fresh_no_dup(discovered, current);
                discovered = discovered.push(current);
                lemma_no_dup_bounded_len(discovered, n as nat);
            }
            if current == target {
                found = true;
            } else {
                let num_edges = graph.edges[current].len();
                let mut k: usize = 0;
                while k < num_edges
                    invariant
                        graph.wf(),
                        adj == graph.adjacency(),
                        n == graph.nodes@.len() as int,
                        adj.len() == n,
                        start < n,
                        target < n,
                        current < n,
                        seen@.len() == n,
                        prev@.len() == n,
                        rank.len() == n,
                        seen@[start as int] || stack_has(lifo@, start),
                        seen@[current as int],
                        prev@[start as int] is None,
                        num_edges == adj[current as int].len(),
                        k <= num_edges,
                        discovered.no_duplicates(),
                        discovered.len() <= n,
                        discovered.len() >= 1,
                        forall|i: int| 0 <= i < discovered.len() ==> #[trigger] discovered[i] < n,
                        forall|v: GraphNodeIndex|
                            v < n ==> (seen@[v as int] <==> discovered.contains(v)),
                        forall|v: int| 0 <= v < n && seen@[v] ==> #[trigger] rank[v] < next_rank,
                        forall|v: int|
                            0 <= v < n && v != start ==> (seen@[v] <==> prev@[v] is Some),
                        forall|v: int|
                            0 <= v < n ==> (#[trigger] prev@[v] matches Some(u) ==> u < n
                                && seen@[u as int] && has_edge(adj, u, v as GraphNodeIndex)
                                && rank[u as int] < rank[v] && (u == start || prev@[u
                                as int] is Some)),
                        forall|i: int| 0 <= i < lifo@.len() ==> (#[trigger] lifo@[i]).0 < n,
                        forall|i: int|
                            0 <= i < lifo@.len() ==> ((#[trigger] lifo@[i]).1 matches Some(u) ==> u
                                < n && seen@[u as int] && has_edge(adj, u, lifo@[i].0)),
                        forall|i: int|
                            0 <= i < lifo@.len() ==> ((#[trigger] lifo@[i]).1 is None ==> lifo@[i].0
                                == start),
                        forall|j: int|
                            0 <= j < k ==> (seen@[#[trigger] adj[current as int][j] as int]
                                || stack_has(lifo@, adj[current as int][j])),
                        forall|v: GraphNodeIndex, j: int|
                            #![trigger seen@[v as int], adj[v as int][j]]
                            v != current && v < n && seen@[v as int] && 0 <= j < adj[v
                                as int].len() ==> (seen@[adj[v as int][j] as int] || stack_has(
                                lifo@,
                                adj[v as int][j],
                            )),
                    decreases num_edges - k,
                {
                    let neighbour = graph.edges[current][k].0;
                    proof {
                        broadcast use vstd::seq_lib::lemma_seq_contains_after_push;

                        assert(adj[current as int][k as int] == neighbour);
                    }
                    if !seen[neighbour] {
                        let ghost lifo_old = lifo@;
                        lifo.push((neighbour, Some(current)));
                        proof {
                            broadcast use vstd::seq_lib::lemma_seq_contains_after_push;

                            assert(has_edge(adj, current, neighbour));
                            assert(lifo@[lifo@.len() - 1].0 == neighbour);
                            assert forall|v: GraphNodeIndex|
                                stack_has(lifo_old, v) implies stack_has(lifo@, v) by {
                                let i = choose|i: int|
                                    0 <= i < lifo_old.len() && lifo_old[i].0 == v;
                                assert(lifo@[i].0 == v);
                            }
                        }
                    }
                    k = k + 1;
                }
            }
        } else {
            proof {
                assert forall|v: GraphNodeIndex, k: int|
                    #![trigger seen@[v as int], adj[v as int][k]]
                    v < n && seen@[v as int] && 0 <= k < adj[v as int].len() implies (seen@[adj[v
                        as int][k] as int] || stack_has(lifo@, adj[v as int][k])) by {
                    let w = adj[v as int][k];
                    assert(seen@[w as int] || stack_has(lifo_before, w));
                    if !seen@[w as int] {
                        assert(w != current);
                    }
                }
            }
        }
    }

    if seen[target] {
        let p = reconstruct_path(&prev, start, target, Ghost(adj), Ghost(rank));
        proof {
            assert(is_path(adj, p@, start, target));
        }
        Ok(p)
    } else {
        proof {
            let visited = Set::new(|v: GraphNodeIndex| v < n && seen@[v as int]);
            if reachable(adj, start, target) {
                assert(seen@[start as int] || stack_has(lifo@, start));
                assert(seen@[start as int]);
                assert forall|u: GraphNodeIndex, v: GraphNodeIndex|
                    #![trigger visited.contains(u), has_edge(adj, u, v)]
                    visited.contains(u) && has_edge(adj, u, v) implies visited.contains(v) by {
                    let k = choose|k: int|
                        0 <= k < adj[u as int].len() && adj[u as int][k] == v;
                    assert(seen@[adj[u as int][k] as int] || stack_has(lifo@, adj[u as int][k]));
                    assert(adj[u as int][k] < adj.len());
                }
                lemma_closed_contains_reachable(adj, visited, start, target);
            }
        }
        Err(SearchError::UnreachableTarget)
    }
}

/// Search for some path (not necessarily shortest) from `start` to `target`
/// in an unweighted linked graph by depth-first search, following neighbour
/// handles through the arena.
///
/// Returns a duplicate-free valid path whenever `target` is reachable and
/// reports the failure otherwise. When `start == target` the path is
/// `[start]`. A node may sit on the stack several times and is finalized
/// only once, at its first pop.
#[verifier::rlimit(100)]
pub fn dfs_path_in_unweighted_linked_graph<V, E>(
    nodes: &Vec<GraphNode<V, E>>,
    start: GraphNodeIndex,
    target: GraphNodeIndex,
) -> (r: Result<Vec<GraphNodeIndex>, SearchError>)
    requires
        linked_wf(nodes@),
        start < nodes@.len(),
        target < nodes@.len(),
    ensures
        r is Ok <==> reachable(linked_adjacency(nodes@), start, target),
        r matches Ok(p) ==> is_path(linked_adjacency(nodes@), p@, start, target) && p@.no_duplicates(),
        start == target ==> (r matches Ok(p) && p@ =~= seq![start]),
        r matches Err(e) ==> e == SearchError::UnreachableTarget,
{
    let ghost adj = linked_adjacency(nodes@);
    let ghost n = nodes@.len() as int;

    let mut lifo: Vec<PendingEntry> = Vec::new();
    let mut seen: Vec<bool> = filled(nodes.len(), false);
    let mut prev: Vec<Option<GraphNodeIndex>> = filled(nodes.len(), None);
    let ghost mut rank: Seq<nat> = Seq::new(nodes@.len(), |i: int| 0nat);
    let ghost mut next_rank: nat = 1;
    let ghost mut discovered: Seq<GraphNodeIndex> = Seq::empty();

    lifo.push((start, None));
    let mut found = false;
    proof {
        assert(lifo@[0].0 == start);
        assert(stack_has(lifo@, start));
    }

    while !found && lifo.len() > 0
        invariant
            linked_wf(nodes@),
            adj == linked_adjacency(nodes@),
            n == nodes@.len() as int,
            adj.len() == n,
            start < n,
            target < n,
            seen@.len() == n,
            prev@.len() == n,
            rank.len() == n,
            prev@[start as int] is None,
            discovered.no_duplicates(),
            discovered.len() <= n,
            forall|i: int| 0 <= i < discovered.len() ==> #[trigger] discovered[i] < n,
            forall|v: GraphNodeIndex| v < n ==> (seen@[v as int] <==> discovered.contains(v)),
            forall|v: int| 0 <= v < n && seen@[v] ==> #[trigger] rank[v] < next_rank,
            forall|v: int| 0 <= v < n && v != start ==> (seen@[v] <==> prev@[v] is Some),
            forall|v: int|
                0 <= v < n ==> (#[trigger] prev@[v] matches Some(u) ==> u < n && seen@[u as int]
                    && has_edge(adj, u, v as GraphNodeIndex) && rank[u as int] < rank[v] && (u
                    == start || prev@[u as int] is Some)),
            forall|i: int| 0 <= i < lifo@.len() ==> (#[trigger] lifo@[i]).0 < n,
            forall|i: int|
                0 <= i < lifo@.len() ==> ((#[trigger] lifo@[i]).1 matches Some(u) ==> u < n
                    && seen@[u as int] && has_edge(adj, u, lifo@[i].0)),
            forall|i: int|
                0 <= i < lifo@.len() ==> ((#[trigger] lifo@[i]).1 is None ==> lifo@[i].0 == start),
            seen@[start as int] || stack_has(lifo@, start),
            found ==> seen@[target as int],
            !found ==> (forall|v: GraphNodeIndex, k: int|
                #![trigger seen@[v as int], adj[v as int][k]]
                v < n && seen@[v as int] && 0 <= k < adj[v as int].len() ==> (seen@[adj[v
                    as int][k] as int] || stack_has(lifo@, adj[v as int][k]))),
        decreases n - discovered.len(), lifo@.len(),
    {
        let ghost lifo_before = lifo@;
        let top = lifo.pop().unwrap();
        let current = top.0;
        proof {
            broadcast use vstd::seq_lib::lemma_seq_contains_after_push;

            assert(lifo_before =~= lifo@.push(top));
            assert forall|v: GraphNodeIndex|
                stack_has(lifo_before, v) && v != current implies stack_has(lifo@, v) by {
                let i = choose|i: int|
                    0 <= i < lifo_before.len() && lifo_before[i].0 == v;
                assert(lifo@[i].0 == v);
            }
        }
        if !seen[current] {
            proof {
                assert(!discovered.contains(current));
                if top.1 is None {
                    assert(current == start);
                }
            }
            seen.set(current, true);
            match top.1 {
                Some(u) => {
                    if current != start {
                        prev.set(current, Some(u));
                    }
                },
                None => {},
            }
            proof {
                broadcast use vstd::seq_lib::lemma_seq_contains_after_push;

                rank = rank.update(current as int, next_rank);
                next_rank = next_rank + 1;
                lemma_push_fresh_no_dup(discovered, current);
                discovered = discovered.push(current);
                lemma_no_dup_bounded_len(discovered, n as nat);
            }
            if current == target {
                found = true;
            } else {
                let num_edges = nodes[current].neighbours.len();
                let mut k: usize = 0;
                while k < num_edges
                    invariant
                        linked_wf(nodes@),
                        adj == linked_adjacency(nodes@),
                        n == nodes@.len() as int,
                        adj.len() == n,
                        start < n,
                        target < n,
                        current < n,
                        seen@.len() == n,
                        prev@.len() == n,
                        rank.len() == n,
                        seen@[start as int] || stack_has(lifo@, start),
                        seen@[current as int],
                        prev@[start as int] is None,
                        num_edges == adj[current as int].len(),
                        k <= num_edges,
                        discovered.no_duplicates(),
                        discovered.len() <= n,
                        discovered.len() >= 1,
                        forall|i: int| 0 <= i < discovered.len() ==> #[trigger] discovered[i] < n,
                        forall|v: GraphNodeIndex|
                            v < n ==> (seen@[v as int] <==> discovered.contains(v)),
                        forall|v: int| 0 <= v < n && seen@[v] ==> #[trigger] rank[v] < next_rank,
                        forall|v: int|
                            0 <= v < n && v != start ==> (seen@[v] <==> prev@[v] is Some),
                        forall|v: int|
                            0 <= v < n ==> (#[trigger] prev@[v] matches Some(u) ==> u < n
                                && seen@[u as int] && has_edge(adj, u, v as GraphNodeIndex)
                                && rank[u as int] < rank[v] && (u == start || prev@[u
                                as int] is Some)),
                        forall|i: int| 0 <= i < lifo@.len() ==> (#[trigger] lifo@[i]).0 < n,
                        forall|i: int|
                            0 <= i < lifo@.len() ==> ((#[trigger] lifo@[i]).1 matches Some(u) ==> u
                                < n && seen@[u as int] && has_edge(adj, u, lifo@[i].0)),
                        forall|i: int|
                            0 <= i < lifo@.len() ==> ((#[trigger] lifo@[i]).1 is None ==> lifo@[i].0
                                == start),
                        forall|j: int|
                            0 <= j < k ==> (seen@[#[trigger] adj[current as int][j] as int]
                                || stack_has(lifo@, adj[current as int][j])),
                        forall|v: GraphNodeIndex, j: int|
                            #![trigger seen@[v as int], adj[v as int][j]]
                            v != current && v < n && seen@[v as int] && 0 <= j < adj[v
                                as int].len() ==> (seen@[adj[v as int][j] as int] || stack_has(
                                lifo@,
                                adj[v as int][j],
                            )),
                    decreases num_edges - k,
                {
                    let neighbour = nodes[current].neighbours[k].0;
                    proof {
                        broadcast use vstd::seq_lib::lemma_seq_contains_after_push;

                        assert(adj[current as int][k as int] == neighbour);
                    }
                    if !seen[neighbour] {
                        let ghost lifo_old = lifo@;
                        lifo.push((neighbour, Some(current)));
                        proof {
                            broadcast use vstd::seq_lib::lemma_seq_contains_after_push;

                            assert(has_edge(adj, current, neighbour));
                            assert(lifo@[lifo@.len() - 1].0 == neighbour);
                            assert forall|v: GraphNodeIndex|
                                stack_has(lifo_old, v) implies stack_has(lifo@, v) by {
                                let i = choose|i: int|
                                    0 <= i < lifo_old.len() && lifo_old[i].0 == v;
                                assert(lifo@[i].0 == v);
                            }
                        }
                    }
                    k = k + 1;
                }
            }
        } else {
            proof {
                assert forall|v: GraphNodeIndex, k: int|
                    #![trigger seen@[v as int], adj[v as int][k]]
                    v < n && seen@[v as int] && 0 <= k < adj[v as int].len() implies (seen@[adj[v
                        as int][k] as int] || stack_has(lifo@, adj[v as int][k])) by {
                    let w = adj[v as int][k];
                    assert(seen@[w as int] || stack_has(lifo_before, w));
                    if !seen@[w as int] {
                        assert(w != current);
                    }
                }
            }
        }
    }

    if seen[target] {
        let p = reconstruct_path(&prev, start, target, Ghost(adj), Ghost(rank));
        proof {
            assert(is_path(adj, p@, start, target));
        }
        Ok(p)
    } else {
        proof {
            let visited = Set::new(|v: GraphNodeIndex| v < n && seen@[v as int]);
            if reachable(adj, start, target) {
                assert(seen@[start as int] || stack_has(lifo@, start));
                assert(seen@[start as int]);
                assert forall|u: GraphNodeIndex, v: GraphNodeIndex|
                    #![trigger visited.contains(u), has_edge(adj, u, v)]
                    visited.contains(u) && has_edge(adj, u, v) implies visited.contains(v) by {
                    let k = choose|k: int|
                        0 <= k < adj[u as int].len() && adj[u as int][k] == v;
                    assert(seen@[adj[u as int][k] as int] || stack_has(lifo@, adj[u as int][k]));
                    assert(adj[u as int][k] < adj.len());
                }
                lemma_closed_contains_reachable(adj, visited, start, target);
            }
        }
        Err(SearchError::UnreachableTarget)
    }
}

} // verus!
