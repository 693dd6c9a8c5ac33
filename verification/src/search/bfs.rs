use vstd::prelude::*;

use std::collections::VecDeque;

use crate::data::graph::{
    Graph, GraphNode, GraphNodeIndex, adjacency_wf, has_edge, is_path,
    lemma_closed_contains_reachable, linked_adjacency, linked_wf, reachable,
};
use crate::search::SearchError;
use crate::search::path::{filled, lemma_no_dup_bounded_len, reconstruct_path};

verus! {

/// The induction behind breadth-first optimality: walk any path `q` from
/// the start; up to position `i` either the node has been discovered with
/// a distance label no larger than its position, or the path has already
/// crossed the frontier at a position no smaller than that node's label.
proof fn lemma_bfs_crosses_frontier(
    adj: Seq<Seq<GraphNodeIndex>>,
    seen: Seq<bool>,
    dist: Seq<nat>,
    frontier: Set<GraphNodeIndex>,
    start: GraphNodeIndex,
    target: GraphNodeIndex,
    q: Seq<GraphNodeIndex>,
    i: int,
)
    requires
        adjacency_wf(adj),
        seen.len() == adj.len(),
        dist.len() == adj.len(),
        start < adj.len(),
        seen[start as int],
        dist[start as int] == 0,
        is_path(adj, q, start, target),
        0 <= i < q.len(),
        forall|v: GraphNodeIndex, k: int|
            #![trigger seen[v as int], adj[v as int][k]]
            v < adj.len() && seen[v as int] && !frontier.contains(v) && 0 <= k < adj[
                v as int].len() ==> seen[adj[v as int][k] as int] && dist[adj[v as int][k] as int]
                <= dist[v as int] + 1,
    ensures
        (q[i] < adj.len() && seen[q[i] as int] && dist[q[i] as int] <= i) || (exists|j: int|
            0 <= j <= i && frontier.contains(#[trigger] q[j]) && q[j] < adj.len() && dist[q[
                j] as int] <= j),
    decreases i,
{
    if i == 0 {
        assert(q[0] == start);
        if frontier.contains(start) {
            assert(frontier.contains(q[0]) && dist[q[0] as int] <= 0);
        }
    } else {
        lemma_bfs_crosses_frontier(adj, seen, dist, frontier, start, target, q, i - 1);
        if q[i - 1] < adj.len() && seen[q[i - 1] as int] && dist[q[i - 1] as int] <= i - 1 {
            let v = q[i - 1];
            if frontier.contains(v) {
                assert(frontier.contains(q[i - 1]) && dist[q[i - 1] as int] <= i - 1);
            } else {
                assert(has_edge(adj, q[i - 1], q[i - 1 + 1]));
                let k = choose|k: int| 0 <= k < adj[v as int].len() && adj[v as int][k] == q[i];
                assert(seen[adj[v as int][k] as int] && dist[adj[v as int][k] as int] <= dist[
                    v as int] + 1);
            }
        }
    }
}

/// Along a path that follows the predecessor links of a breadth-first
/// search, the distance label equals the position.
proof fn lemma_prev_path_distance(
    prev: Seq<Option<GraphNodeIndex>>,
    dist: Seq<nat>,
    start: GraphNodeIndex,
    p: Seq<GraphNodeIndex>,
    i: int,
)
    requires
        prev.len() == dist.len(),
        start < dist.len(),
        dist[start as int] == 0,
        p.len() >= 1,
        p[0] == start,
        forall|x: int| 0 <= x < p.len() ==> #[trigger] p[x] < dist.len(),
        forall|x: int| 0 <= x < p.len() - 1 ==> prev[#[trigger] p[x + 1] as int] == Some(p[x]),
        forall|v: int|
            0 <= v < prev.len() ==> (#[trigger] prev[v] matches Some(u) ==> u < dist.len()
                && dist[v] == dist[u as int] + 1),
        0 <= i < p.len(),
    ensures
        dist[p[i] as int] == i,
    decreases i,
{
    if i > 0 {
        lemma_prev_path_distance(prev, dist, start, p, i - 1);
        assert(prev[p[i - 1 + 1] as int] == Some(p[i - 1]));
    }
}

/// Search for a shortest path in an unweighted graph by breadth-first
/// search.
///
/// Returns a duplicate-free path from `start` to `target` whenever `target`
/// is reachable, and reports the failure otherwise instead of returning a
/// truncated path. The returned path has the fewest edges among all valid
/// paths from `start` to `target`, because breadth-first search discovers
/// nodes in non-decreasing distance order and stops as soon as the target
/// is discovered. When `start == target` the path is the single node
/// `[start]`.
#[verifier::rlimit(100)]
pub fn bfs_shortest_path_in_indexed_graph<V, E>(
    graph: &Graph<V, E>,
    start: GraphNodeIndex,
    target: GraphNodeIndex,
) -> (r: Result<Vec<GraphNodeIndex>, SearchError>)
    requires
        graph.wf(),
        start < graph.nodes@.len(),
        target < graph.nodes@.len(),
    ensures
        r is Ok <==> reachable(graph.adjacency(), start, target),
        r matches Ok(p) ==> is_path(graph.adjacency(), p@, start, target) && p@.no_duplicates(),
        r matches Ok(p) ==> (forall|q: Seq<GraphNodeIndex>|
            is_path(graph.adjacency(), q, start, target) ==> p@.len() <= q.len()),
        start == target ==> (r matches Ok(p) && p@ =~= seq![start]),
        r matches Err(e) ==> e == SearchError::UnreachableTarget,
{
    let ghost adj = graph.adjacency();
    let ghost n = graph.nodes@.len() as int;

    let mut fifo: VecDeque<GraphNodeIndex> = VecDeque::new();
    let mut seen: Vec<bool> = filled(graph.nodes.len(), false);
    let mut prev: Vec<Option<GraphNodeIndex>> = filled(graph.nodes.len(), None);
    let ghost mut dist: Seq<nat> = Seq::new(graph.nodes@.len(), |i: int| 0nat);
    let ghost mut discovered: Seq<GraphNodeIndex> = seq![start];
    let ghost mut break_node: GraphNodeIndex = 0;

    fifo.push_back(start);
    seen.set(start, true);
    let mut found = false;
    proof {
        broadcast use vstd::seq_lib::lemma_seq_contains_after_push;

        assert(fifo@ =~= seq![start]);
    }

    while !found && fifo.len() > 0
        invariant
            graph.wf(),
            adj == graph.adjacency(),
            n == graph.nodes@.len() as int,
            adj.len() == n,
            start < n,
            target < n,
            seen@.len() == n,
            prev@.len() == n,
            dist.len() == n,
            seen@[start as int],
            prev@[start as int] is None,
            dist[start as int] == 0,
            discovered.no_duplicates(),
            discovered.len() <= n,
            forall|i: int| 0 <= i < discovered.len() ==> #[trigger] discovered[i] < n,
            forall|v: GraphNodeIndex| v < n ==> (seen@[v as int] <==> discovered.contains(v)),
            forall|v: int| 0 <= v < n && v != start ==> (seen@[v] <==> prev@[v] is Some),
            forall|v: int|
                0 <= v < n ==> (#[trigger] prev@[v] matches Some(u) ==> u < n && seen@[u as int]
                    && has_edge(adj, u, v as GraphNodeIndex) && dist[v] == dist[u as int] + 1 && (u
                    == start || prev@[u as int] is Some)),
            forall|i: int| 0 <= i < fifo@.len() ==> #[trigger] fifo@[i] < n,
            forall|i: int| 0 <= i < fifo@.len() ==> seen@[#[trigger] fifo@[i] as int],
            fifo@.no_duplicates(),
            forall|i: int, j: int|
                0 <= i <= j < fifo@.len() ==> dist[#[trigger] fifo@[i] as int] <= dist[
                    #[trigger] fifo@[j] as int],
            forall|i: int, j: int|
                0 <= i < fifo@.len() && 0 <= j < fifo@.len() ==> dist[#[trigger] fifo@[j] as int]
                    <= dist[#[trigger] fifo@[i] as int] + 1,
            forall|v: GraphNodeIndex, i: int|
                #![trigger seen@[v as int], fifo@[i]]
                v < n && seen@[v as int] && 0 <= i < fifo@.len() ==> dist[v as int] <= dist[fifo@[
                    i] as int] + 1,
            found ==> seen@[target as int],
            found ==> break_node < n && seen@[break_node as int] && dist[target as int] <= dist[
                break_node as int] + 1,
            found ==> (forall|i: int|
                0 <= i < fifo@.len() ==> dist[target as int] <= dist[#[trigger] fifo@[i] as int]
                    + 1),
            forall|v: GraphNodeIndex, k: int|
                #![trigger seen@[v as int], adj[v as int][k]]
                v < n && seen@[v as int] && !fifo@.contains(v) && !(found && v == break_node) && 0
                    <= k < adj[v as int].len() ==> seen@[adj[v as int][k] as int] && dist[adj[
                    v as int][k] as int] <= dist[v as int] + 1,
        decreases n - discovered.len() + fifo@.len(),
    {
        let ghost fifo_before = fifo@;
        let current = fifo.pop_front().unwrap();
        proof {
            broadcast use vstd::seq_lib::lemma_seq_contains_after_push;

            assert forall|v: GraphNodeIndex|
                fifo_before.contains(v) && v != current implies fifo@.contains(v) by {
                let i = choose|i: int| 0 <= i < fifo_before.len() && fifo_before[i] == v;
                assert(fifo@[i - 1] == v);
            }
            assert(fifo_before[0] == current);
        }
        let num_edges = graph.edges[current].len();
        let ghost fifo_entry = fifo@;
        let ghost discovered_entry = discovered;
        let mut k: usize = 0;
        while k < num_edges && !found
            invariant
                graph.wf(),
                adj == graph.adjacency(),
                n == graph.nodes@.len() as int,
                adj.len() == n,
                start < n,
                target < n,
                current < n,
                seen@.len() == n,
                prev@.len() == n,
                dist.len() == n,
                seen@[start as int],
                seen@[current as int],
                prev@[start as int] is None,
                dist[start as int] == 0,
                num_edges == adj[current as int].len(),
                k <= num_edges,
                discovered.no_duplicates(),
                discovered.len() <= n,
                forall|i: int| 0 <= i < discovered.len() ==> #[trigger] discovered[i] < n,
                forall|v: GraphNodeIndex| v < n ==> (seen@[v as int] <==> discovered.contains(v)),
                forall|v: int| 0 <= v < n && v != start ==> (seen@[v] <==> prev@[v] is Some),
                forall|v: int|
                    0 <= v < n ==> (#[trigger] prev@[v] matches Some(u) ==> u < n && seen@[u
                        as int] && has_edge(adj, u, v as GraphNodeIndex) && dist[v] == dist[u
                        as int] + 1 && (u == start || prev@[u as int] is Some)),
                forall|i: int| 0 <= i < fifo@.len() ==> #[trigger] fifo@[i] < n,
                forall|i: int| 0 <= i < fifo@.len() ==> seen@[#[trigger] fifo@[i] as int],
                fifo@.no_duplicates(),
                !fifo@.contains(current),
                fifo@.len() - fifo_entry.len() == discovered.len() - discovered_entry.len(),
                forall|i: int|
                    0 <= i < fifo@.len() ==> dist[current as int] <= dist[#[trigger] fifo@[
                        i] as int] <= dist[current as int] + 1,
                forall|i: int, j: int|
                    0 <= i <= j < fifo@.len() ==> dist[#[trigger] fifo@[i] as int] <= dist[
                        #[trigger] fifo@[j] as int],
                forall|v: GraphNodeIndex|
                    #![trigger seen@[v as int]]
                    v < n && seen@[v as int] ==> dist[v as int] <= dist[current as int] + 1,
                found ==> seen@[target as int],
                found ==> break_node == current && dist[target as int] <= dist[current as int]
                    + 1,
                found ==> (forall|i: int|
                    0 <= i < fifo@.len() ==> dist[target as int] <= dist[#[trigger] fifo@[
                        i] as int] + 1),
                forall|j: int|
                    !found && 0 <= j < k ==> seen@[#[trigger] adj[current as int][j] as int]
                        && dist[adj[current as int][j] as int] <= dist[current as int] + 1,
                forall|v: GraphNodeIndex, j: int|
                    #![trigger seen@[v as int], adj[v as int][j]]
                    v != current && v < n && seen@[v as int] && !fifo@.contains(v) && 0 <= j
                        < adj[v as int].len() ==> seen@[adj[v as int][j] as int] && dist[adj[
                        v as int][j] as int] <= dist[v as int] + 1,
            decreases num_edges - k,
        {
            let neighbour = graph.edges[current][k].0;
            proof {
                broadcast use vstd::seq_lib::lemma_seq_contains_after_push;

                assert(adj[current as int][k as int] == neighbour);
            }
            if !seen[neighbour] {
                proof {
                    broadcast use vstd::seq_lib::lemma_seq_contains_after_push;

                    assert(!discovered.contains(neighbour));
                }
                seen.set(neighbour, true);
                fifo.push_back(neighbour);
                prev.set(neighbour, Some(current));
                proof {
                    broadcast use vstd::seq_lib::lemma_seq_contains_after_push;

                    assert(has_edge(adj, current, neighbour));
                    dist = dist.update(neighbour as int, dist[current as int] + 1);
                    let ghost discovered_old = discovered;
                    discovered = discovered.push(neighbour);
                    assert forall|i: int, j: int|
                        0 <= i < discovered.len() && 0 <= j < discovered.len() && i != j
                        implies discovered[i] != discovered[j] by {
                        if i < discovered_old.len() && j < discovered_old.len() {
                            assert(discovered_old[i] != discovered_old[j]);
                        } else if j == discovered_old.len() && i < j {
                            assert(discovered_old[i] != neighbour);
                        } else if i == discovered_old.len() && j < i {
                            assert(discovered_old[j] != neighbour);
                        }
                    }
                    lemma_no_dup_bounded_len(discovered, n as nat);
                }
                if neighbour == target {
                    found = true;
                    proof {
                        break_node = current;
                    }
                }
            }
            k = k + 1;
        }
    }

    if seen[target] {
        let p = reconstruct_path(&prev, start, target, Ghost(adj), Ghost(dist));
        proof {
            assert(is_path(adj, p@, start, target));
            let frontier = Set::new(
                |w: GraphNodeIndex| fifo@.contains(w) || (found && w == break_node),
            );
            lemma_prev_path_distance(prev@, dist, start, p@, p@.len() - 1);
            assert(p@.len() - 1 == dist[target as int]);
            assert forall|q: Seq<GraphNodeIndex>|
                is_path(adj, q, start, target) implies p@.len() <= q.len() by {
                lemma_bfs_crosses_frontier(
                    adj,
                    seen@,
                    dist,
                    frontier,
                    start,
                    target,
                    q,
                    q.len() - 1,
                );
                if q[q.len() - 1] < adj.len() && seen@[q[q.len() - 1] as int] && dist[q[q.len()
                    - 1] as int] <= q.len() - 1 {
                    assert(dist[target as int] <= q.len() - 1);
                } else {
                    let j = choose|j: int|
                        0 <= j <= q.len() - 1 && frontier.contains(#[trigger] q[j]) && q[j]
                            < adj.len() && dist[q[j] as int] <= j;
                    let w = q[j];
                    if w == target {
                        assert(dist[target as int] <= j);
                    } else {
                        assert(j < q.len() - 1);
                        if fifo@.contains(w) {
                            let i = choose|i: int| 0 <= i < fifo@.len() && fifo@[i] == w;
                            assert(dist[target as int] <= dist[fifo@[i] as int] + 1);
                        }
                        assert(dist[target as int] <= dist[w as int] + 1);
                        assert(dist[target as int] <= j + 1);
                    }
                }
            }
        }
        Ok(p)
    } else {
        proof {
            let visited = Set::new(|v: GraphNodeIndex| v < n && seen@[v as int]);
            if reachable(adj, start, target) {
                assert forall|u: GraphNodeIndex, v: GraphNodeIndex|
                    #![trigger visited.contains(u), has_edge(adj, u, v)]
                    visited.contains(u) && has_edge(adj, u, v) implies visited.contains(v) by {
                    let k = choose|k: int|
                        0 <= k < adj[u as int].len() && adj[u as int][k] == v;
                    assert(seen@[adj[u as int][k] as int]);
                    assert(adj[u as int][k] < adj.len());
                }
                lemma_closed_contains_reachable(adj, visited, start, target);
            }
        }
        Err(SearchError::UnreachableTarget)
    }
}

/// Search for a shortest path in an unweighted linked graph by
/// breadth-first search, following neighbour handles through the arena.
///
/// Returns a duplicate-free path from `start` to `target` whenever `target`
/// is reachable, and reports the failure otherwise instead of returning a
/// truncated path. The returned path has the fewest edges among all valid
/// paths from `start` to `target`, because breadth-first search discovers
/// nodes in non-decreasing distance order and stops as soon as the target
/// is discovered. When `start == target` the path is the single node
/// `[start]`.
#[verifier::rlimit(100)]
pub fn bfs_shortest_path_in_linked_graph<V, E>(
    nodes: &Vec<GraphNode<V, E>>,
    start: GraphNodeIndex,
    target: GraphNodeIndex,
) -> (r: Result<Vec<GraphNodeIndex>, SearchError>)
    requires
        linked_wf(nodes@),
        start < nodes@.len(),
        target < nodes@.len(),
    ensures
        r is Ok <==> reachable(linked_adjacency(nodes@), start, target),
        r matches Ok(p) ==> is_path(linked_adjacency(nodes@), p@, start, target) && p@.no_duplicates(),
        r matches Ok(p) ==> (forall|q: Seq<GraphNodeIndex>|
            is_path(linked_adjacency(nodes@), q, start, target) ==> p@.len() <= q.len()),
        start == target ==> (r matches Ok(p) && p@ =~= seq![start]),
        r matches Err(e) ==> e == SearchError::UnreachableTarget,
{
    let ghost adj = linked_adjacency(nodes@);
    let ghost n = nodes@.len() as int;

    let mut fifo: VecDeque<GraphNodeIndex> = VecDeque::new();
    let mut seen: Vec<bool> = filled(nodes.len(), false);
    let mut prev: Vec<Option<GraphNodeIndex>> = filled(nodes.len(), None);
    let ghost mut dist: Seq<nat> = Seq::new(nodes@.len(), |i: int| 0nat);
    let ghost mut discovered: Seq<GraphNodeIndex> = seq![start];
    let ghost mut break_node: GraphNodeIndex = 0;

    fifo.push_back(start);
    seen.set(start, true);
    let mut found = false;
    proof {
        broadcast use vstd::seq_lib::lemma_seq_contains_after_push;

        assert(fifo@ =~= seq![start]);
    }

    while !found && fifo.len() > 0
        invariant
            linked_wf(nodes@),
            adj == linked_adjacency(nodes@),
            n == nodes@.len() as int,
            adj.len() == n,
            start < n,
            target < n,
            seen@.len() == n,
            prev@.len() == n,
            dist.len() == n,
            seen@[start as int],
            prev@[start as int] is None,
            dist[start as int] == 0,
            discovered.no_duplicates(),
            discovered.len() <= n,
            forall|i: int| 0 <= i < discovered.len() ==> #[trigger] discovered[i] < n,
            forall|v: GraphNodeIndex| v < n ==> (seen@[v as int] <==> discovered.contains(v)),
            forall|v: int| 0 <= v < n && v != start ==> (seen@[v] <==> prev@[v] is Some),
            forall|v: int|
                0 <= v < n ==> (#[trigger] prev@[v] matches Some(u) ==> u < n && seen@[u as int]
                    && has_edge(adj, u, v as GraphNodeIndex) && dist[v] == dist[u as int] + 1 && (u
                    == start || prev@[u as int] is Some)),
            forall|i: int| 0 <= i < fifo@.len() ==> #[trigger] fifo@[i] < n,
            forall|i: int| 0 <= i < fifo@.len() ==> seen@[#[trigger] fifo@[i] as int],
            fifo@.no_duplicates(),
            forall|i: int, j: int|
                0 <= i <= j < fifo@.len() ==> dist[#[trigger] fifo@[i] as int] <= dist[
                    #[trigger] fifo@[j] as int],
            forall|i: int, j: int|
                0 <= i < fifo@.len() && 0 <= j < fifo@.len() ==> dist[#[trigger] fifo@[j] as int]
                    <= dist[#[trigger] fifo@[i] as int] + 1,
            forall|v: GraphNodeIndex, i: int|
                #![trigger seen@[v as int], fifo@[i]]
                v < n && seen@[v as int] && 0 <= i < fifo@.len() ==> dist[v as int] <= dist[fifo@[
                    i] as int] + 1,
            found ==> seen@[target as int],
            found ==> break_node < n && seen@[break_node as int] && dist[target as int] <= dist[
                break_node as int] + 1,
            found ==> (forall|i: int|
                0 <= i < fifo@.len() ==> dist[target as int] <= dist[#[trigger] fifo@[i] as int]
                    + 1),
            forall|v: GraphNodeIndex, k: int|
                #![trigger seen@[v as int], adj[v as int][k]]
                v < n && seen@[v as int] && !fifo@.contains(v) && !(found && v == break_node) && 0
                    <= k < adj[v as int].len() ==> seen@[adj[v as int][k] as int] && dist[adj[
                    v as int][k] as int] <= dist[v as int] + 1,
        decreases n - discovered.len() + fifo@.len(),
    {
        let ghost fifo_before = fifo@;
        let current = fifo.pop_front().unwrap();
        proof {
            broadcast use vstd::seq_lib::lemma_seq_contains_after_push;

            assert forall|v: GraphNodeIndex|
                fifo_before.contains(v) && v != current implies fifo@.contains(v) by {
                let i = choose|i: int| 0 <= i < fifo_before.len() && fifo_before[i] == v;
                assert(fifo@[i - 1] == v);
            }
            assert(fifo_before[0] == current);
        }
        let num_edges = nodes[current].neighbours.len();
        let ghost fifo_entry = fifo@;
        let ghost discovered_entry = discovered;
        let mut k: usize = 0;
        while k < num_edges && !found
            invariant
                linked_wf(nodes@),
                adj == linked_adjacency(nodes@),
                n == nodes@.len() as int,
                adj.len() == n,
                start < n,
                target < n,
                current < n,
                seen@.len() == n,
                prev@.len() == n,
                dist.len() == n,
                seen@[start as int],
                seen@[current as int],
                prev@[start as int] is None,
                dist[start as int] == 0,
                num_edges == adj[current as int].len(),
                k <= num_edges,
                discovered.no_duplicates(),
                discovered.len() <= n,
                forall|i: int| 0 <= i < discovered.len() ==> #[trigger] discovered[i] < n,
                forall|v: GraphNodeIndex| v < n ==> (seen@[v as int] <==> discovered.contains(v)),
                forall|v: int| 0 <= v < n && v != start ==> (seen@[v] <==> prev@[v] is Some),
                forall|v: int|
                    0 <= v < n ==> (#[trigger] prev@[v] matches Some(u) ==> u < n && seen@[u
                        as int] && has_edge(adj, u, v as GraphNodeIndex) && dist[v] == dist[u
                        as int] + 1 && (u == start || prev@[u as int] is Some)),
                forall|i: int| 0 <= i < fifo@.len() ==> #[trigger] fifo@[i] < n,
                forall|i: int| 0 <= i < fifo@.len() ==> seen@[#[trigger] fifo@[i] as int],
                fifo@.no_duplicates(),
                !fifo@.contains(current),
                fifo@.len() - fifo_entry.len() == discovered.len() - discovered_entry.len(),
                forall|i: int|
                    0 <= i < fifo@.len() ==> dist[current as int] <= dist[#[trigger] fifo@[
                        i] as int] <= dist[current as int] + 1,
                forall|i: int, j: int|
                    0 <= i <= j < fifo@.len() ==> dist[#[trigger] fifo@[i] as int] <= dist[
                        #[trigger] fifo@[j] as int],
                forall|v: GraphNodeIndex|
                    #![trigger seen@[v as int]]
                    v < n && seen@[v as int] ==> dist[v as int] <= dist[current as int] + 1,
                found ==> seen@[target as int],
                found ==> break_node == current && dist[target as int] <= dist[current as int]
                    + 1,
                found ==> (forall|i: int|
                    0 <= i < fifo@.len() ==> dist[target as int] <= dist[#[trigger] fifo@[
                        i] as int] + 1),
                forall|j: int|
                    !found && 0 <= j < k ==> seen@[#[trigger] adj[current as int][j] as int]
                        && dist[adj[current as int][j] as int] <= dist[current as int] + 1,
                forall|v: GraphNodeIndex, j: int|
                    #![trigger seen@[v as int], adj[v as int][j]]
                    v != current && v < n && seen@[v as int] && !fifo@.contains(v) && 0 <= j
                        < adj[v as int].len() ==> seen@[adj[v as int][j] as int] && dist[adj[
                        v as int][j] as int] <= dist[v as int] + 1,
            decreases num_edges - k,
        {
            let neighbour = nodes[current].neighbours[k].0;
            proof {
                broadcast use vstd::seq_lib::lemma_seq_contains_after_push;

                assert(adj[current as int][k as int] == neighbour);
            }
            if !seen[neighbour] {
                proof {
                    broadcast use vstd::seq_lib::lemma_seq_contains_after_push;

                    assert(!discovered.contains(neighbour));
                }
                seen.set(neighbour, true);
                fifo.push_back(neighbour);
                prev.set(neighbour, Some(current));
                proof {
                    broadcast use vstd::seq_lib::lemma_seq_contains_after_push;

                    assert(has_edge(adj, current, neighbour));
                    dist = dist.update(neighbour as int, dist[current as int] + 1);
                    let ghost discovered_old = discovered;
                    discovered = discovered.push(neighbour);
                    assert forall|i: int, j: int|
                        0 <= i < discovered.len() && 0 <= j < discovered.len() && i != j
                        implies discovered[i] != discovered[j] by {
                        if i < discovered_old.len() && j < discovered_old.len() {
                            assert(discovered_old[i] != discovered_old[j]);
                        } else if j == discovered_old.len() && i < j {
                            assert(discovered_old[i] != neighbour);
                        } else if i == discovered_old.len() && j < i {
                            assert(discovered_old[j] != neighbour);
                        }
                    }
                    lemma_no_dup_bounded_len(discovered, n as nat);
                }
                if neighbour == target {
                    found = true;
                    proof {
                        break_node = current;
                    }
                }
            }
            k = k + 1;
        }
    }

    if seen[target] {
        let p = reconstruct_path(&prev, start, target, Ghost(adj), Ghost(dist));
        proof {
            assert(is_path(adj, p@, start, target));
            let frontier = Set::new(
                |w: GraphNodeIndex| fifo@.contains(w) || (found && w == break_node),
            );
            lemma_prev_path_distance(prev@, dist, start, p@, p@.len() - 1);
            assert(p@.len() - 1 == dist[target as int]);
            assert forall|q: Seq<GraphNodeIndex>|
                is_path(adj, q, start, target) implies p@.len() <= q.len() by {
                lemma_bfs_crosses_frontier(
                    adj,
                    seen@,
                    dist,
                    frontier,
                    start,
                    target,
                    q,
                    q.len() - 1,
                );
                if q[q.len() - 1] < adj.len() && seen@[q[q.len() - 1] as int] && dist[q[q.len()
                    - 1] as int] <= q.len() - 1 {
                    assert(dist[target as int] <= q.len() - 1);
                } else {
                    let j = choose|j: int|
                        0 <= j <= q.len() - 1 && frontier.contains(#[trigger] q[j]) && q[j]
                            < adj.len() && dist[q[j] as int] <= j;
                    let w = q[j];
                    if w == target {
                        assert(dist[target as int] <= j);
                    } else {
                        assert(j < q.len() - 1);
                        if fifo@.contains(w) {
                            let i = choose|i: int| 0 <= i < fifo@.len() && fifo@[i] == w;
                            assert(dist[target as int] <= dist[fifo@[i] as int] + 1);
                        }
                        assert(dist[target as int] <= dist[w as int] + 1);
                        assert(dist[target as int] <= j + 1);
                    }
                }
            }
        }
        Ok(p)
    } else {
        proof {
            let visited = Set::new(|v: GraphNodeIndex| v < n && seen@[v as int]);
            if reachable(adj, start, target) {
                assert forall|u: GraphNodeIndex, v: GraphNodeIndex|
                    #![trigger visited.contains(u), has_edge(adj, u, v)]
                    visited.contains(u) && has_edge(adj, u, v) implies visited.contains(v) by {
                    let k = choose|k: int|
                        0 <= k < adj[u as int].len() && adj[u as int][k] == v;
                    assert(seen@[adj[u as int][k] as int]);
                    assert(adj[u as int][k] < adj.len());
                }
                lemma_closed_contains_reachable(adj, visited, start, target);
            }
        }
        Err(SearchError::UnreachableTarget)
    }
}

} // verus!
