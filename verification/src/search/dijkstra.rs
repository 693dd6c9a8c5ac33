use vstd::prelude::*;

use crate::data::graph::{
    Graph, GraphNode, GraphNodeIndex, drop_weights, has_edge, has_weighted_edge,
    is_path, lemma_adjacency_drops_weights, lemma_closed_contains_reachable,
    lemma_cost_path_is_path, lemma_linked_adjacency_drops_weights, lemma_path_cost_extend,
    linked_adjacency, linked_weighted_adjacency, linked_wf, path_cost_ok, reachable,
};
use crate::search::SearchError;
use crate::search::path::{filled, lemma_no_dup_bounded_len, lemma_push_fresh_no_dup, reversed};

verus! {

/// The "infinity" sentinel of the distance table: no distance of a real
/// path reaches it, because a relaxed distance never exceeds the number of
/// discovered nodes times 2^64 (every edge weight is a `u64`).
pub const INFINITE_DISTANCE: u128 = u128::MAX;

/// The largest possible edge weight (`u64::MAX`). Every relaxed distance
/// is at most the number of discovered nodes times this, which keeps the
/// `u128` distance arithmetic far from overflow.
pub const MAX_EDGE_WEIGHT: u128 = 0xffff_ffff_ffff_ffff;

/// The pending entry `(v, d)` is in the queue.
spec fn pending_has(pq: Seq<(GraphNodeIndex, u128)>, v: GraphNodeIndex, d: u128) -> bool {
    exists|i: int| 0 <= i < pq.len() && pq[i] == (v, d)
}

/// A path cost is never negative: it is a sum of unsigned weights.
proof fn lemma_path_cost_nonneg(
    wadj: Seq<Seq<(GraphNodeIndex, u64)>>,
    q: Seq<GraphNodeIndex>,
    c: int,
)
    requires
        path_cost_ok(wadj, q, c),
    ensures
        c >= 0,
    decreases q.len(),
{
    if q.len() > 1 {
        let w = choose|w: u64|
            has_weighted_edge(wadj, q[0], q[1], w) && path_cost_ok(wadj, q.drop_first(), c - w);
        lemma_path_cost_nonneg(wadj, q.drop_first(), c - w);
    }
}

/// The frontier argument behind Dijkstra optimality. Walk any costed path
/// whose head is discovered: either it stays inside the finalized set and
/// its end carries a distance label no larger than the head's label plus
/// the cost, or it crosses the frontier, where some pending entry bounds
/// the minimum by the same sum.
proof fn lemma_dijkstra_frontier(
    wadj: Seq<Seq<(GraphNodeIndex, u64)>>,
    dist: Seq<u128>,
    done: Set<GraphNodeIndex>,
    pending: Seq<(GraphNodeIndex, u128)>,
    dmin: u128,
    q: Seq<GraphNodeIndex>,
    c: int,
)
    requires
        wadj.len() == dist.len(),
        path_cost_ok(wadj, q, c),
        q[0] < wadj.len(),
        dist[q[0] as int] < INFINITE_DISTANCE,
        forall|v: GraphNodeIndex|
            #![trigger done.contains(v)]
            done.contains(v) ==> v < wadj.len() && dist[v as int] < INFINITE_DISTANCE,
        forall|v: GraphNodeIndex, k: int|
            #![trigger done.contains(v), wadj[v as int][k]]
            done.contains(v) && 0 <= k < wadj[v as int].len() ==> (wadj[v as int][k]).0
                < wadj.len() && dist[(wadj[v as int][k]).0 as int] < INFINITE_DISTANCE && dist[(
                wadj[v as int][k]).0 as int] <= dist[v as int] + (wadj[v as int][k]).1,
        forall|v: GraphNodeIndex|
            #![trigger dist[v as int]]
            v < wadj.len() && dist[v as int] < INFINITE_DISTANCE ==> (done.contains(v)
                || pending_has(pending, v, dist[v as int])),
        forall|i: int| 0 <= i < pending.len() ==> dmin <= (#[trigger] pending[i]).1,
    ensures
        (done.contains(q[q.len() - 1]) && q[q.len() - 1] < wadj.len() && dist[q[q.len()
            - 1] as int] <= dist[q[0] as int] + c) || dmin <= dist[q[0] as int] + c,
    decreases q.len(),
{
    lemma_path_cost_nonneg(wadj, q, c);
    if q.len() == 1 {
        if !done.contains(q[0]) {
            assert(pending_has(pending, q[0], dist[q[0] as int]));
            let i = choose|i: int|
                0 <= i < pending.len() && pending[i] == (q[0], dist[q[0] as int]);
            assert(dmin <= pending[i].1);
        }
    } else {
        let w = choose|w: u64|
            has_weighted_edge(wadj, q[0], q[1], w) && path_cost_ok(wadj, q.drop_first(), c - w);
        if done.contains(q[0]) {
            let k = choose|k: int|
                0 <= k < wadj[q[0] as int].len() && wadj[q[0] as int][k] == (q[1], w);
            assert(dist[q[1] as int] <= dist[q[0] as int] + w);
            let rest = q.drop_first();
            assert(rest[0] == q[1]);
            assert(rest[rest.len() - 1] == q[q.len() - 1]);
            lemma_dijkstra_frontier(wadj, dist, done, pending, dmin, rest, c - w);
        } else {
            assert(pending_has(pending, q[0], dist[q[0] as int]));
            let i = choose|i: int|
                0 <= i < pending.len() && pending[i] == (q[0], dist[q[0] as int]);
            assert(dmin <= pending[i].1);
        }
    }
}

/// When the target leaves the frontier with the smallest pending
/// distance, that distance bounds the cost of every path to it from the
/// start.
proof fn lemma_found_optimal(
    wadj: Seq<Seq<(GraphNodeIndex, u64)>>,
    dist: Seq<u128>,
    done: Set<GraphNodeIndex>,
    pending: Seq<(GraphNodeIndex, u128)>,
    best: int,
    start: GraphNodeIndex,
    target: GraphNodeIndex,
)
    requires
        wadj.len() == dist.len(),
        start < wadj.len(),
        target < wadj.len(),
        dist[start as int] == 0,
        dist[start as int] < INFINITE_DISTANCE,
        0 <= best < pending.len(),
        pending[best].0 == target,
        pending[best].1 == dist[target as int],
        forall|i: int| 0 <= i < pending.len() ==> pending[best].1 <= (#[trigger] pending[i]).1,
        !done.contains(target),
        forall|v: GraphNodeIndex|
            #![trigger done.contains(v)]
            done.contains(v) ==> v < wadj.len() && dist[v as int] < INFINITE_DISTANCE,
        forall|v: GraphNodeIndex, k: int|
            #![trigger done.contains(v), wadj[v as int][k]]
            done.contains(v) && 0 <= k < wadj[v as int].len() ==> (wadj[v as int][k]).0
                < wadj.len() && dist[(wadj[v as int][k]).0 as int] < INFINITE_DISTANCE && dist[(
                wadj[v as int][k]).0 as int] <= dist[v as int] + (wadj[v as int][k]).1,
        forall|v: GraphNodeIndex|
            #![trigger dist[v as int]]
            v < wadj.len() && dist[v as int] < INFINITE_DISTANCE ==> (done.contains(v)
                || pending_has(pending, v, dist[v as int])),
    ensures
        forall|q: Seq<GraphNodeIndex>, c: int|
            path_cost_ok(wadj, q, c) && q[0] == start && q[q.len() - 1] == target ==> dist[
                target as int] as int <= c,
{
    let d = pending[best].1;
    assert forall|q: Seq<GraphNodeIndex>, c: int|
        path_cost_ok(wadj, q, c) && q[0] == start && q[q.len() - 1] == target implies dist[
        target as int] as int <= c by {
        assert forall|i: int| 0 <= i < pending.len() implies d <= (#[trigger] pending[
        i]).1 by {
            assert(pending[best].1 <= pending[i].1);
        }
        lemma_dijkstra_frontier(wadj, dist, done, pending, d, q, c);
        lemma_path_cost_nonneg(wadj, q, c);
    }
}

/// The sum of all entries of the distance table; it shrinks with every
/// relaxation, which bounds the main loop.
spec fn total_distance(s: Seq<u128>) -> int
    decreases s.len(),
{
    if s.len() == 0 {
        0
    } else {
        s[0] + total_distance(s.drop_first())
    }
}

proof fn lemma_total_distance_nonneg(s: Seq<u128>)
    ensures
        total_distance(s) >= 0,
    decreases s.len(),
{
    if s.len() > 0 {
        lemma_total_distance_nonneg(s.drop_first());
    }
}

proof fn lemma_total_distance_update(s: Seq<u128>, i: int, x: u128)
    requires
        0 <= i < s.len(),
    ensures
        total_distance(s.update(i, x)) == total_distance(s) - s[i] + x,
    decreases s.len(),
{
    if i == 0 {
        assert(s.update(0, x).drop_first() =~= s.drop_first());
    } else {
        assert(s.update(i, x).drop_first() =~= s.drop_first().update(i - 1, x));
        assert(s.update(i, x)[0] == s[0]);
        lemma_total_distance_update(s.drop_first(), i - 1, x);
    }
}

/// The index of a pending entry with the smallest recorded distance, so
/// that the search always follows the cheapest known frontier node.
fn min_pending_index(pending: &Vec<(GraphNodeIndex, u128)>) -> (best: usize)
    requires
        pending@.len() >= 1,
    ensures
        best < pending@.len(),
        forall|j: int| 0 <= j < pending@.len() ==> pending@[best as int].1 <= (#[trigger] pending@[j]).1,
{
    let mut best: usize = 0;
    let mut j: usize = 1;
    while j < pending.len()
        invariant
            pending@.len() >= 1,
            best < j,
            j <= pending@.len(),
            forall|i: int| 0 <= i < j ==> pending@[best as int].1 <= (#[trigger] pending@[i]).1,
        decreases pending@.len() - j,
    {
        if pending[j].1 < pending[best].1 {
            best = j;
        }
        j = j + 1;
    }
    best
}

/// Rebuild the cheapest recorded path from the predecessor table of a
/// weighted search, returning the forward path together with the exact sum
/// of the weights recorded along it.
///
/// `prevw[v]` holds the node from which `v` was last relaxed and the weight
/// of the edge used. The recorded distances decrease along the predecessor
/// chain — lexicographically by `(distance, rank)`, where the ghost `rank`
/// orders relaxations — so the backward walk terminates at `start` and the
/// path is duplicate-free; the weight sum never exceeds `dist[target]`.
fn reconstruct_weighted_path(
    prevw: &Vec<Option<(GraphNodeIndex, u64)>>,
    start: GraphNodeIndex,
    target: GraphNodeIndex,
    Ghost(wadj): Ghost<Seq<Seq<(GraphNodeIndex, u64)>>>,
    Ghost(dist): Ghost<Seq<u128>>,
    Ghost(rank): Ghost<Seq<nat>>,
) -> (res: (Vec<GraphNodeIndex>, u128))
    requires
        prevw@.len() == wadj.len(),
        dist.len() == wadj.len(),
        rank.len() == wadj.len(),
        start < wadj.len(),
        target < wadj.len(),
        prevw@[start as int] is None,
        forall|v: int|
            0 <= v < wadj.len() ==> (#[trigger] prevw@[v] matches Some(uw) ==> uw.0 < wadj.len()
                && v != start && has_weighted_edge(wadj, uw.0, v as GraphNodeIndex, uw.1) && dist[uw.0
                as int] + uw.1 <= dist[v] && (dist[uw.0 as int] + uw.1 == dist[v] ==> rank[uw.0
                as int] < rank[v]) && (uw.0 == start || prevw@[uw.0 as int] is Some)),
        target == start || prevw@[target as int] is Some,
    ensures
        res.0@.len() >= 1,
        res.0@[0] == start,
        res.0@[res.0@.len() - 1] == target,
        res.0@.no_duplicates(),
        forall|i: int| 0 <= i < res.0@.len() ==> #[trigger] res.0@[i] < wadj.len(),
        path_cost_ok(wadj, res.0@, res.1 as int),
        res.1 <= dist[target as int],
        target == start ==> res.0@ =~= seq![start] && res.1 == 0,
{
    let mut chain: Vec<GraphNodeIndex> = Vec::new();
    chain.push(target);
    let mut current: GraphNodeIndex = target;
    let mut total: u128 = 0;
    proof {
        assert(chain@.reverse() =~= seq![target]);
    }
    while prevw[current].is_some()
        invariant
            prevw@.len() == wadj.len(),
            dist.len() == wadj.len(),
            rank.len() == wadj.len(),
            start < wadj.len(),
            target < wadj.len(),
            current < wadj.len(),
            prevw@[start as int] is None,
            forall|v: int|
                0 <= v < wadj.len() ==> (#[trigger] prevw@[v] matches Some(uw) ==> uw.0
                    < wadj.len() && v != start && has_weighted_edge(
                    wadj,
                    uw.0,
                    v as GraphNodeIndex,
                    uw.1,
                ) && dist[uw.0 as int] + uw.1 <= dist[v] && (dist[uw.0 as int] + uw.1 == dist[v]
                    ==> rank[uw.0 as int] < rank[v]) && (uw.0 == start || prevw@[uw.0
                    as int] is Some)),
            current == start || prevw@[current as int] is Some,
            chain@.len() >= 1,
            chain@[0] == target,
            chain@[chain@.len() - 1] == current,
            chain@.len() >= 2 ==> prevw@[target as int] is Some,
            chain@.len() == 1 ==> total == 0,
            forall|i: int| 0 <= i < chain@.len() ==> #[trigger] chain@[i] < wadj.len(),
            path_cost_ok(wadj, chain@.reverse(), total as int),
            dist[current as int] + total <= dist[target as int],
            forall|i: int, j: int|
                0 <= i < j < chain@.len() ==> (dist[#[trigger] chain@[j] as int] < dist[
                    #[trigger] chain@[i] as int] || (dist[chain@[j] as int] == dist[chain@[i] as int]
                    && rank[chain@[j] as int] < rank[chain@[i] as int])),
        decreases dist[current as int], rank[current as int],
    {
        let uw = prevw[current].unwrap();
        let u = uw.0;
        let w = uw.1;
        proof {
            assert(dist[u as int] + w <= dist[current as int]);
            assert(total + w <= dist[target as int]);
        }
        let ghost chain_old = chain@;
        let ghost total_old = total;
        total = total + (w as u128);
        chain.push(u);
        let ghost current_old = current;
        current = u;
        proof {
            assert(chain@.reverse() =~= seq![u] + chain_old.reverse());
            assert(chain_old.reverse()[0] == current_old);
            lemma_path_cost_extend(wadj, chain_old.reverse(), total_old as int, u, w);
            assert forall|i: int, j: int|
                0 <= i < j < chain@.len() implies (dist[#[trigger] chain@[j] as int] < dist[
                #[trigger] chain@[i] as int] || (dist[chain@[j] as int] == dist[chain@[i] as int]
                && rank[chain@[j] as int] < rank[chain@[i] as int])) by {
                if j == chain@.len() - 1 {
                    assert(chain@[j] == u);
                    if i < chain@.len() - 2 {
                        assert(dist[current_old as int] < dist[chain_old[i] as int] || (dist[
                            current_old as int] == dist[chain_old[i] as int] && rank[current_old
                            as int] < rank[chain_old[i] as int]));
                    }
                } else {
                    assert(chain@[i] == chain_old[i] && chain@[j] == chain_old[j]);
                }
            }
        }
    }
    assert(current == start);
    let p = reversed(&chain);
    proof {
        let m = chain@.len() as int;
        assert(p@ =~= chain@.reverse());
        assert(p@[0] == chain@[m - 1]);
        assert(p@[m - 1] == chain@[0]);
        assert forall|i: int, j: int| 0 <= i < j < m implies p@[i] != p@[j] by {
            let a = chain@[m - 1 - i];
            let b = chain@[m - 1 - j];
            assert(dist[a as int] < dist[b as int] || (dist[a as int] == dist[b as int] && rank[a
                as int] < rank[b as int]));
        }
        assert(p@.no_duplicates());
        if target == start {
            assert(chain@.len() == 1);
            assert(p@ =~= seq![start]);
        }
    }
    (p, total)
}

/// Search for a cheapest path in a non-negatively weighted indexed graph
/// with Dijkstra's algorithm, returning the path together with the exact
/// sum of the edge weights along it.
///
/// The frontier is kept as a list of `(node, distance)` entries from which
/// the minimum is extracted each round; a superseded (stale) entry is
/// skipped when popped. The returned total is the cheapest over all paths
/// from `start` to `target`, because the first non-stale extraction of the
/// target carries its final distance. It is a `u128` because a sum of
/// `u64` weights along a path can exceed `u64::MAX`. `Ok` is returned
/// exactly when `target` is reachable from `start`; when `start == target`
/// the result is the single-node path with total 0.
#[verifier::rlimit(100)]
pub fn dijkstra_shortest_path_in_weighted_indexed_graph<V>(
    graph: &Graph<V, u64>,
    start: GraphNodeIndex,
    target: GraphNodeIndex,
) -> (r: Result<(Vec<GraphNodeIndex>, u128), SearchError>)
    requires
        graph.wf(),
        start < graph.nodes@.len(),
        target < graph.nodes@.len(),
    ensures
        r is Ok <==> reachable(graph.adjacency(), start, target),
        r matches Ok(pd) ==> is_path(graph.adjacency(), pd.0@, start, target)
            && pd.0@.no_duplicates() && path_cost_ok(graph.weighted_adjacency(), pd.0@, pd.1 as int),
        r matches Ok(pd) ==> (forall|q: Seq<GraphNodeIndex>, c: int|
            path_cost_ok(graph.weighted_adjacency(), q, c) && q[0] == start && q[q.len() - 1]
                == target ==> pd.1 as int <= c),
        start == target ==> (r matches Ok(pd) && pd.0@ =~= seq![start] && pd.1 == 0),
        r matches Err(e) ==> e == SearchError::UnreachableTarget,
{
    let ghost adj = graph.adjacency();
    let ghost wadj = graph.weighted_adjacency();
    let ghost n = graph.nodes@.len() as int;
    proof {
        lemma_adjacency_drops_weights(*graph);
        vstd::std_specs::vec::axiom_spec_len(&graph.nodes);
        assert(n <= usize::MAX as int);
        assert(n < 0x1_0000_0000_0000_0000);
    }

    let mut dist: Vec<u128> = filled(graph.nodes.len(), INFINITE_DISTANCE);
    let mut prevw: Vec<Option<(GraphNodeIndex, u64)>> = filled(graph.nodes.len(), None);
    let mut pending: Vec<(GraphNodeIndex, u128)> = Vec::new();
    let ghost mut rank: Seq<nat> = Seq::new(graph.nodes@.len(), |i: int| 0nat);
    let ghost mut next_rank: nat = 1;
    let ghost mut discovered: Seq<GraphNodeIndex> = seq![start];
    let ghost mut done: Set<GraphNodeIndex> = Set::empty();

    dist.set(start, 0);
    pending.push((start, 0));
    let mut found = false;
    proof {
        assert(discovered[0] == start);
        assert forall|v: GraphNodeIndex| discovered.contains(v) implies v == start by {
            let i = choose|i: int| 0 <= i < discovered.len() && discovered[i] == v;
        }
        assert(pending@[0] == (start, 0u128));
        assert(pending_has(pending@, start, 0u128));
    }

    while !found && pending.len() > 0
        invariant
            graph.wf(),
            adj == graph.adjacency(),
            wadj == graph.weighted_adjacency(),
            adj == drop_weights(wadj),
            n == graph.nodes@.len() as int,
            adj.len() == n,
            wadj.len() == n,
            n < 0x1_0000_0000_0000_0000,
            start < n,
            target < n,
            dist@.len() == n,
            prevw@.len() == n,
            rank.len() == n,
            dist@[start as int] == 0,
            prevw@[start as int] is None,
            discovered.no_duplicates(),
            discovered.len() <= n,
            discovered.len() >= 1,
            forall|i: int| 0 <= i < discovered.len() ==> #[trigger] discovered[i] < n,
            forall|v: GraphNodeIndex|
                v < n ==> (dist@[v as int] < INFINITE_DISTANCE <==> discovered.contains(v)),
            forall|v: int|
                0 <= v < n ==> #[trigger] dist@[v] <= discovered.len() * MAX_EDGE_WEIGHT || dist@[v]
                    == INFINITE_DISTANCE,
            forall|v: int| 0 <= v < n ==> #[trigger] rank[v] < next_rank,
            forall|v: int|
                0 <= v < n && v != start ==> (dist@[v] < INFINITE_DISTANCE <==> prevw@[
                    v] is Some),
            forall|v: int|
                0 <= v < n ==> (#[trigger] prevw@[v] matches Some(uw) ==> uw.0 < n && v != start
                    && has_weighted_edge(wadj, uw.0, v as GraphNodeIndex, uw.1) && dist@[uw.0
                    as int] + uw.1 <= dist@[v] && (dist@[uw.0 as int] + uw.1 == dist@[v] ==> rank[
                    uw.0 as int] < rank[v]) && (uw.0 == start || prevw@[uw.0 as int] is Some)),
            forall|i: int|
                0 <= i < pending@.len() ==> (#[trigger] pending@[i]).0 < n && pending@[i].1
                    < INFINITE_DISTANCE,
            found ==> dist@[target as int] < INFINITE_DISTANCE,
            !found ==> !done.contains(target),
            forall|v: GraphNodeIndex|
                #![trigger done.contains(v)]
                done.contains(v) ==> v < n && dist@[v as int] < INFINITE_DISTANCE,
            forall|v: GraphNodeIndex, k: int|
                #![trigger done.contains(v), wadj[v as int][k]]
                done.contains(v) && 0 <= k < wadj[v as int].len() ==> (wadj[v as int][k]).0 < n
                    && dist@[(wadj[v as int][k]).0 as int] < INFINITE_DISTANCE && dist@[(wadj[
                    v as int][k]).0 as int] <= dist@[v as int] + (wadj[v as int][k]).1,
            forall|v: GraphNodeIndex, i: int|
                #![trigger done.contains(v), pending@[i]]
                done.contains(v) && 0 <= i < pending@.len() ==> dist@[v as int] <= pending@[i].1,
            forall|v: GraphNodeIndex|
                #![trigger dist@[v as int]]
                v < n && dist@[v as int] < INFINITE_DISTANCE ==> (done.contains(v) || pending_has(
                    pending@,
                    v,
                    dist@[v as int],
                ) || (found && v == target)),
            found ==> (forall|q: Seq<GraphNodeIndex>, c: int|
                path_cost_ok(wadj, q, c) && q[0] == start && q[q.len() - 1] == target ==> dist@[
                    target as int] as int <= c),
        decreases total_distance(dist@) + pending@.len(),
    {
        proof {
            lemma_total_distance_nonneg(dist@);
        }
        let best = min_pending_index(&pending);
        let ghost pending_before = pending@;
        let entry = pending.swap_remove(best);
        let current = entry.0;
        let d = entry.1;
        proof {
            assert(entry == pending_before[best as int]);
            assert(current < n && d < INFINITE_DISTANCE);
            assert forall|i: int| 0 <= i < pending@.len() implies d <= (#[trigger] pending@[
                i]).1 by {
                if i == best && i < pending_before.len() - 1 {
                    assert(pending@[i] == pending_before[pending_before.len() - 1]);
                } else {
                    assert(pending@[i] == pending_before[i]);
                }
            }
            assert forall|v: GraphNodeIndex|
                #[trigger] done.contains(v) implies dist@[v as int] <= d by {
                assert(dist@[v as int] <= pending_before[best as int].1);
            }
            assert forall|v: GraphNodeIndex, dv: u128|
                pending_has(pending_before, v, dv) && (v, dv) != entry implies pending_has(
                pending@,
                v,
                dv,
            ) by {
                let i = choose|i: int|
                    0 <= i < pending_before.len() && pending_before[i] == (v, dv);
                if i == pending_before.len() - 1 {
                    assert(pending@[best as int] == (v, dv));
                } else {
                    assert(pending@[i] == (v, dv));
                }
            }
        }
        if d == dist[current] {
            if current == target {
                found = true;
                proof {
                    assert(dist@[target as int] == d);
                    lemma_found_optimal(wadj, dist@, done, pending_before, best as int, start, target);
                }
            } else {
                let num_edges = graph.edges[current].len();
                let ghost dist_entry = dist@;
                let mut k: usize = 0;
                while k < num_edges
                    invariant
                        graph.wf(),
                        adj == graph.adjacency(),
                        wadj == graph.weighted_adjacency(),
                        adj == drop_weights(wadj),
                        n == graph.nodes@.len() as int,
                        adj.len() == n,
                        wadj.len() == n,
                        n < 0x1_0000_0000_0000_0000,
                        start < n,
                        target < n,
                        current < n,
                        current != target,
                        dist@.len() == n,
                        prevw@.len() == n,
                        rank.len() == n,
                        dist@[start as int] == 0,
                        dist@[current as int] == d,
                        d < INFINITE_DISTANCE,
                        prevw@[start as int] is None,
                        num_edges == wadj[current as int].len(),
                        k <= num_edges,
                        discovered.no_duplicates(),
                        discovered.len() <= n,
                        discovered.len() >= 1,
                        forall|i: int| 0 <= i < discovered.len() ==> #[trigger] discovered[i] < n,
                        forall|v: GraphNodeIndex|
                            v < n ==> (dist@[v as int] < INFINITE_DISTANCE <==> discovered.contains(
                                v,
                            )),
                        forall|v: int|
                            0 <= v < n ==> #[trigger] dist@[v] <= discovered.len() * MAX_EDGE_WEIGHT
                                || dist@[v] == INFINITE_DISTANCE,
                        forall|v: int| 0 <= v < n ==> #[trigger] rank[v] < next_rank,
                        forall|v: int|
                            0 <= v < n && v != start ==> (dist@[v] < INFINITE_DISTANCE <==> prevw@[
                                v] is Some),
                        forall|v: int|
                            0 <= v < n ==> (#[trigger] prevw@[v] matches Some(uw) ==> uw.0 < n && v
                                != start && has_weighted_edge(wadj, uw.0, v as GraphNodeIndex, uw.1)
                                && dist@[uw.0 as int] + uw.1 <= dist@[v] && (dist@[uw.0 as int]
                                + uw.1 == dist@[v] ==> rank[uw.0 as int] < rank[v]) && (uw.0
                                == start || prevw@[uw.0 as int] is Some)),
                        forall|i: int|
                            0 <= i < pending@.len() ==> (#[trigger] pending@[i]).0 < n && pending@[
                                i].1 < INFINITE_DISTANCE,
                        total_distance(dist@) + pending@.len() <= total_distance(dist_entry)
                            + pending_before.len() - 1,
                        !found,
                        !done.contains(target),
                        forall|i: int| 0 <= i < pending@.len() ==> d <= (#[trigger] pending@[i]).1,
                        forall|v: GraphNodeIndex|
                            #[trigger] done.contains(v) ==> dist@[v as int] <= d,
                        forall|v: GraphNodeIndex|
                            #![trigger done.contains(v)]
                            done.contains(v) ==> v < n && dist@[v as int] < INFINITE_DISTANCE,
                        forall|v: GraphNodeIndex, kk: int|
                            #![trigger done.contains(v), wadj[v as int][kk]]
                            done.contains(v) && 0 <= kk < wadj[v as int].len() ==> (wadj[v
                                as int][kk]).0 < n && dist@[(wadj[v as int][kk]).0 as int]
                                < INFINITE_DISTANCE && dist@[(wadj[v as int][kk]).0 as int]
                                <= dist@[v as int] + (wadj[v as int][kk]).1,
                        forall|v: GraphNodeIndex|
                            #![trigger dist@[v as int]]
                            v != current && v < n && dist@[v as int] < INFINITE_DISTANCE ==> (
                            done.contains(v) || pending_has(pending@, v, dist@[v as int])),
                        forall|j: int|
                            0 <= j < k ==> dist@[(#[trigger] wadj[current as int][j]).0 as int]
                                < INFINITE_DISTANCE && dist@[(wadj[current as int][j]).0 as int]
                                <= d + (wadj[current as int][j]).1,
                    decreases num_edges - k,
                {
                    let ghost dist_at_k = dist@;
                    let edge = graph.edges[current][k];
                    let neighbour = edge.0;
                    let w = edge.1;
                    proof {
                        assert(wadj[current as int][k as int] == (neighbour, w));
                        assert(adj[current as int][k as int] == neighbour);
                        assert(neighbour < n);
                        assert(w <= MAX_EDGE_WEIGHT);
                        assert(d <= discovered.len() * MAX_EDGE_WEIGHT);
                        let ghost cnt = discovered.len() as int;
                        assert(cnt * MAX_EDGE_WEIGHT + MAX_EDGE_WEIGHT == (cnt + 1)
                            * MAX_EDGE_WEIGHT) by (nonlinear_arith);
                        assert((cnt + 1) * MAX_EDGE_WEIGHT <= (n + 1) * MAX_EDGE_WEIGHT)
                            by (nonlinear_arith)
                            requires cnt + 1 <= n + 1;
                        assert((n + 1) * MAX_EDGE_WEIGHT <= 0x1_0000_0000_0000_0000
                            * 0xffff_ffff_ffff_ffff) by (nonlinear_arith)
                            requires n + 1 <= 0x1_0000_0000_0000_0000;
                        assert(d + w <= (cnt + 1) * MAX_EDGE_WEIGHT);
                        assert(d + w < INFINITE_DISTANCE);
                    }
                    let cand: u128 = d + (w as u128);
                    if cand < dist[neighbour] {
                        proof {
                            assert(has_weighted_edge(wadj, current, neighbour, w));
                            assert(neighbour != start);
                            lemma_total_distance_update(dist@, neighbour as int, cand);
                            if dist@[neighbour as int] == INFINITE_DISTANCE {
                                assert(!discovered.contains(neighbour));
                                lemma_push_fresh_no_dup(discovered, neighbour);
                            }
                        }
                        let ghost dist_old = dist@;
                        let ghost discovered_old = discovered;
                        let ghost pending_old = pending@;
                        dist.set(neighbour, cand);
                        prevw.set(neighbour, Some((current, w)));
                        pending.push((neighbour, cand));
                        proof {
                            rank = rank.update(neighbour as int, next_rank);
                            next_rank = next_rank + 1;
                            if dist_old[neighbour as int] == INFINITE_DISTANCE {
                                discovered = discovered.push(neighbour);
                                lemma_no_dup_bounded_len(discovered, n as nat);
                                assert forall|v: GraphNodeIndex| v < n implies (dist@[v as int]
                                    < INFINITE_DISTANCE <==> discovered.contains(v)) by {
                                    if v == neighbour {
                                        assert(discovered[discovered.len() - 1] == neighbour);
                                    } else {
                                        if discovered_old.contains(v) {
                                            let i = choose|i: int|
                                                0 <= i < discovered_old.len() && discovered_old[i]
                                                    == v;
                                            assert(discovered[i] == v);
                                        }
                                        if discovered.contains(v) {
                                            let i = choose|i: int|
                                                0 <= i < discovered.len() && discovered[i] == v;
                                            assert(discovered_old[i] == v);
                                        }
                                    }
                                }
                            }
                            assert(discovered_old.len() * MAX_EDGE_WEIGHT <= discovered.len()
                                * MAX_EDGE_WEIGHT) by (nonlinear_arith)
                                requires discovered_old.len() <= discovered.len();
                            assert(cand <= discovered.len() * MAX_EDGE_WEIGHT);
                            assert forall|v: GraphNodeIndex, dv: u128|
                                pending_has(pending_old, v, dv) implies pending_has(
                                pending@,
                                v,
                                dv,
                            ) by {
                                let i = choose|i: int|
                                    0 <= i < pending_old.len() && pending_old[i] == (v, dv);
                                assert(pending@[i] == (v, dv));
                            }
                            assert(pending@[pending@.len() - 1] == (neighbour, cand));
                            assert(pending_has(pending@, neighbour, dist@[neighbour as int]));
                            assert(!done.contains(neighbour)) by {
                                if done.contains(neighbour) {
                                    assert(dist_old[neighbour as int] <= d);
                                }
                            }
                            assert forall|v: GraphNodeIndex|
                                v != current && v != neighbour && v < n && dist@[v as int]
                                < INFINITE_DISTANCE implies (done.contains(v) || pending_has(
                                pending@,
                                v,
                                dist@[v as int],
                            )) by {
                                assert(dist@[v as int] == dist_old[v as int]);
                                if !done.contains(v) {
                                    assert(pending_has(pending_old, v, dist_old[v as int]));
                                    assert(pending_has(pending@, v, dist@[v as int]));
                                }
                            }
                        }
                    } else {
                        proof {
                            assert(dist@[neighbour as int] <= cand);
                            assert(dist@[neighbour as int] < INFINITE_DISTANCE);
                        }
                    }
                    proof {
                        assert(wadj[current as int][k as int].0 == neighbour);
                        assert(dist@[neighbour as int] < INFINITE_DISTANCE);
                        assert(dist@[neighbour as int] <= d + w);
                        assert(forall|x: int| 0 <= x < n ==> #[trigger] dist@[x] <= dist_at_k[x]);
                        assert forall|j: int|
                            0 <= j < k + 1 implies dist@[(#[trigger] wadj[current as int][j]).0
                            as int] < INFINITE_DISTANCE && dist@[(wadj[current as int][j]).0
                            as int] <= d + (wadj[current as int][j]).1 by {
                            let t = wadj[current as int][j].0;
                            assert(adj[current as int][j] == t);
                            assert(t < n);
                            if j < k {
                                assert(dist_at_k[t as int] < INFINITE_DISTANCE);
                                assert(dist_at_k[t as int] <= d + (wadj[current as int][j]).1);
                            }
                        }
                    }
                    k = k + 1;
                }
                proof {
                    let ghost done_old = done;
                    done = done.insert(current);
                    assert(dist@[current as int] == d);
                    assert forall|v: GraphNodeIndex, kk: int|
                        #![trigger done.contains(v), wadj[v as int][kk]]
                        done.contains(v) && 0 <= kk < wadj[v as int].len() implies (wadj[v
                            as int][kk]).0 < n && dist@[(wadj[v as int][kk]).0 as int]
                        < INFINITE_DISTANCE && dist@[(wadj[v as int][kk]).0 as int] <= dist@[v
                        as int] + (wadj[v as int][kk]).1 by {
                        assert(adj[v as int][kk] == (wadj[v as int][kk]).0);
                        assert(adj[v as int][kk] < n);
                        if v == current {
                            assert(dist@[(wadj[current as int][kk]).0 as int]
                                < INFINITE_DISTANCE && dist@[(wadj[current as int][kk]).0 as int]
                                <= d + (wadj[current as int][kk]).1);
                        } else {
                            assert(done_old.contains(v));
                            assert(dist@[(wadj[v as int][kk]).0 as int] < INFINITE_DISTANCE
                                && dist@[(wadj[v as int][kk]).0 as int] <= dist@[v as int] + (wadj[
                                v as int][kk]).1);
                        }
                    }
                }
            }
        }
        proof {
            lemma_total_distance_nonneg(dist@);
        }
    }

    if dist[target] < INFINITE_DISTANCE {
        let res = reconstruct_weighted_path(
            &prevw,
            start,
            target,
            Ghost(wadj),
            Ghost(dist@),
            Ghost(rank),
        );
        proof {
            lemma_cost_path_is_path(wadj, res.0@, res.1 as int);
            assert(is_path(adj, res.0@, start, target));
            if !found {
                assert(done.contains(target) || pending_has(
                    pending@,
                    target,
                    dist@[target as int],
                ));
                if pending_has(pending@, target, dist@[target as int]) {
                    let i = choose|i: int|
                        0 <= i < pending@.len() && pending@[i] == (target, dist@[target as int]);
                }
                assert(false);
            }
            assert forall|q: Seq<GraphNodeIndex>, c: int|
                path_cost_ok(wadj, q, c) && q[0] == start && q[q.len() - 1]
                == target implies res.1 as int <= c by {
                assert(dist@[target as int] as int <= c);
            }
        }
        Ok(res)
    } else {
        proof {
            let visited = Set::new(|v: GraphNodeIndex| v < n && dist@[v as int] < INFINITE_DISTANCE);
            if reachable(adj, start, target) {
                assert forall|u: GraphNodeIndex, v: GraphNodeIndex|
                    #![trigger visited.contains(u), has_edge(adj, u, v)]
                    visited.contains(u) && has_edge(adj, u, v) implies visited.contains(v) by {
                    let k = choose|k: int|
                        0 <= k < adj[u as int].len() && adj[u as int][k] == v;
                    assert(wadj[u as int][k].0 == v);
                    assert(dist@[(wadj[u as int][k]).0 as int] < INFINITE_DISTANCE);
                    assert(adj[u as int][k] < adj.len());
                }
                lemma_closed_contains_reachable(adj, visited, start, target);
            }
        }
        Err(SearchError::UnreachableTarget)
    }
}

/// Search for a cheapest path in a non-negatively weighted linked graph
/// with Dijkstra's algorithm, following neighbour handles through the
/// arena and returning the path with the exact sum of its edge weights.
///
/// The frontier is kept as a list of `(node, distance)` entries from which
/// the minimum is extracted each round; a superseded (stale) entry is
/// skipped when popped. The returned total is the cheapest over all paths
/// from `start` to `target`, because the first non-stale extraction of the
/// target carries its final distance. It is a `u128` because a sum of
/// `u64` weights along a path can exceed `u64::MAX`. `Ok` is returned
/// exactly when `target` is reachable from `start`; when `start == target`
/// the result is the single-node path with total 0.
#[verifier::rlimit(100)]
pub fn dijkstra_shortest_path_in_weighted_linked_graph<V>(
    nodes: &Vec<GraphNode<V, u64>>,
    start: GraphNodeIndex,
    target: GraphNodeIndex,
) -> (r: Result<(Vec<GraphNodeIndex>, u128), SearchError>)
    requires
        linked_wf(nodes@),
        start < nodes@.len(),
        target < nodes@.len(),
    ensures
        r is Ok <==> reachable(linked_adjacency(nodes@), start, target),
        r matches Ok(pd) ==> is_path(linked_adjacency(nodes@), pd.0@, start, target)
            && pd.0@.no_duplicates() && path_cost_ok(linked_weighted_adjacency(nodes@), pd.0@, pd.1 as int),
        r matches Ok(pd) ==> (forall|q: Seq<GraphNodeIndex>, c: int|
            path_cost_ok(linked_weighted_adjacency(nodes@), q, c) && q[0] == start && q[q.len() - 1]
                == target ==> pd.1 as int <= c),
        start == target ==> (r matches Ok(pd) && pd.0@ =~= seq![start] && pd.1 == 0),
        r matches Err(e) ==> e == SearchError::UnreachableTarget,
{
    let ghost adj = linked_adjacency(nodes@);
    let ghost wadj = linked_weighted_adjacency(nodes@);
    let ghost n = nodes@.len() as int;
    proof {
        lemma_linked_adjacency_drops_weights(nodes@);
        vstd::std_specs::vec::axiom_spec_len(nodes);
        assert(n <= usize::MAX as int);
        assert(n < 0x1_0000_0000_0000_0000);
    }

    let mut dist: Vec<u128> = filled(nodes.len(), INFINITE_DISTANCE);
    let mut prevw: Vec<Option<(GraphNodeIndex, u64)>> = filled(nodes.len(), None);
    let mut pending: Vec<(GraphNodeIndex, u128)> = Vec::new();
    let ghost mut rank: Seq<nat> = Seq::new(nodes@.len(), |i: int| 0nat);
    let ghost mut next_rank: nat = 1;
    let ghost mut discovered: Seq<GraphNodeIndex> = seq![start];
    let ghost mut done: Set<GraphNodeIndex> = Set::empty();

    dist.set(start, 0);
    pending.push((start, 0));
    let mut found = false;
    proof {
        assert(discovered[0] == start);
        assert forall|v: GraphNodeIndex| discovered.contains(v) implies v == start by {
            let i = choose|i: int| 0 <= i < discovered.len() && discovered[i] == v;
        }
        assert(pending@[0] == (start, 0u128));
        assert(pending_has(pending@, start, 0u128));
    }

    while !found && pending.len() > 0
        invariant
            linked_wf(nodes@),
            adj == linked_adjacency(nodes@),
            wadj == linked_weighted_adjacency(nodes@),
            adj == drop_weights(wadj),
            n == nodes@.len() as int,
            adj.len() == n,
            wadj.len() == n,
            n < 0x1_0000_0000_0000_0000,
            start < n,
            target < n,
            dist@.len() == n,
            prevw@.len() == n,
            rank.len() == n,
            dist@[start as int] == 0,
            prevw@[start as int] is None,
            discovered.no_duplicates(),
            discovered.len() <= n,
            discovered.len() >= 1,
            forall|i: int| 0 <= i < discovered.len() ==> #[trigger] discovered[i] < n,
            forall|v: GraphNodeIndex|
                v < n ==> (dist@[v as int] < INFINITE_DISTANCE <==> discovered.contains(v)),
            forall|v: int|
                0 <= v < n ==> #[trigger] dist@[v] <= discovered.len() * MAX_EDGE_WEIGHT || dist@[v]
                    == INFINITE_DISTANCE,
            forall|v: int| 0 <= v < n ==> #[trigger] rank[v] < next_rank,
            forall|v: int|
                0 <= v < n && v != start ==> (dist@[v] < INFINITE_DISTANCE <==> prevw@[
                    v] is Some),
            forall|v: int|
                0 <= v < n ==> (#[trigger] prevw@[v] matches Some(uw) ==> uw.0 < n && v != start
                    && has_weighted_edge(wadj, uw.0, v as GraphNodeIndex, uw.1) && dist@[uw.0
                    as int] + uw.1 <= dist@[v] && (dist@[uw.0 as int] + uw.1 == dist@[v] ==> rank[
                    uw.0 as int] < rank[v]) && (uw.0 == start || prevw@[uw.0 as int] is Some)),
            forall|i: int|
                0 <= i < pending@.len() ==> (#[trigger] pending@[i]).0 < n && pending@[i].1
                    < INFINITE_DISTANCE,
            found ==> dist@[target as int] < INFINITE_DISTANCE,
            !found ==> !done.contains(target),
            forall|v: GraphNodeIndex|
                #![trigger done.contains(v)]
                done.contains(v) ==> v < n && dist@[v as int] < INFINITE_DISTANCE,
            forall|v: GraphNodeIndex, k: int|
                #![trigger done.contains(v), wadj[v as int][k]]
                done.contains(v) && 0 <= k < wadj[v as int].len() ==> (wadj[v as int][k]).0 < n
                    && dist@[(wadj[v as int][k]).0 as int] < INFINITE_DISTANCE && dist@[(wadj[
                    v as int][k]).0 as int] <= dist@[v as int] + (wadj[v as int][k]).1,
            forall|v: GraphNodeIndex, i: int|
                #![trigger done.contains(v), pending@[i]]
                done.contains(v) && 0 <= i < pending@.len() ==> dist@[v as int] <= pending@[i].1,
            forall|v: GraphNodeIndex|
                #![trigger dist@[v as int]]
                v < n && dist@[v as int] < INFINITE_DISTANCE ==> (done.contains(v) || pending_has(
                    pending@,
                    v,
                    dist@[v as int],
                ) || (found && v == target)),
            found ==> (forall|q: Seq<GraphNodeIndex>, c: int|
                path_cost_ok(wadj, q, c) && q[0] == start && q[q.len() - 1] == target ==> dist@[
                    target as int] as int <= c),
        decreases total_distance(dist@) + pending@.len(),
    {
        proof {
            lemma_total_distance_nonneg(dist@);
        }
        let best = min_pending_index(&pending);
        let ghost pending_before = pending@;
        let entry = pending.swap_remove(best);
        let current = entry.0;
        let d = entry.1;
        proof {
            assert(entry == pending_before[best as int]);
            assert(current < n && d < INFINITE_DISTANCE);
            assert forall|i: int| 0 <= i < pending@.len() implies d <= (#[trigger] pending@[
                i]).1 by {
                if i == best && i < pending_before.len() - 1 {
                    assert(pending@[i] == pending_before[pending_before.len() - 1]);
                } else {
                    assert(pending@[i] == pending_before[i]);
                }
            }
            assert forall|v: GraphNodeIndex|
                #[trigger] done.contains(v) implies dist@[v as int] <= d by {
                assert(dist@[v as int] <= pending_before[best as int].1);
            }
            assert forall|v: GraphNodeIndex, dv: u128|
                pending_has(pending_before, v, dv) && (v, dv) != entry implies pending_has(
                pending@,
                v,
                dv,
            ) by {
                let i = choose|i: int|
                    0 <= i < pending_before.len() && pending_before[i] == (v, dv);
                if i == pending_before.len() - 1 {
                    assert(pending@[best as int] == (v, dv));
                } else {
                    assert(pending@[i] == (v, dv));
                }
            }
        }
        if d == dist[current] {
            if current == target {
                found = true;
                proof {
                    assert(dist@[target as int] == d);
                    lemma_found_optimal(wadj, dist@, done, pending_before, best as int, start, target);
                }
            } else {
                let num_edges = nodes[current].neighbours.len();
                let ghost dist_entry = dist@;
                let mut k: usize = 0;
                while k < num_edges
                    invariant
                        linked_wf(nodes@),
                        adj == linked_adjacency(nodes@),
                        wadj == linked_weighted_adjacency(nodes@),
                        adj == drop_weights(wadj),
                        n == nodes@.len() as int,
                        adj.len() == n,
                        wadj.len() == n,
                        n < 0x1_0000_0000_0000_0000,
                        start < n,
                        target < n,
                        current < n,
                        current != target,
                        dist@.len() == n,
                        prevw@.len() == n,
                        rank.len() == n,
                        dist@[start as int] == 0,
                        dist@[current as int] == d,
                        d < INFINITE_DISTANCE,
                        prevw@[start as int] is None,
                        num_edges == wadj[current as int].len(),
                        k <= num_edges,
                        discovered.no_duplicates(),
                        discovered.len() <= n,
                        discovered.len() >= 1,
                        forall|i: int| 0 <= i < discovered.len() ==> #[trigger] discovered[i] < n,
                        forall|v: GraphNodeIndex|
                            v < n ==> (dist@[v as int] < INFINITE_DISTANCE <==> discovered.contains(
                                v,
                            )),
                        forall|v: int|
                            0 <= v < n ==> #[trigger] dist@[v] <= discovered.len() * MAX_EDGE_WEIGHT
                                || dist@[v] == INFINITE_DISTANCE,
                        forall|v: int| 0 <= v < n ==> #[trigger] rank[v] < next_rank,
                        forall|v: int|
                            0 <= v < n && v != start ==> (dist@[v] < INFINITE_DISTANCE <==> prevw@[
                                v] is Some),
                        forall|v: int|
                            0 <= v < n ==> (#[trigger] prevw@[v] matches Some(uw) ==> uw.0 < n && v
                                != start && has_weighted_edge(wadj, uw.0, v as GraphNodeIndex, uw.1)
                                && dist@[uw.0 as int] + uw.1 <= dist@[v] && (dist@[uw.0 as int]
                                + uw.1 == dist@[v] ==> rank[uw.0 as int] < rank[v]) && (uw.0
                                == start || prevw@[uw.0 as int] is Some)),
                        forall|i: int|
                            0 <= i < pending@.len() ==> (#[trigger] pending@[i]).0 < n && pending@[
                                i].1 < INFINITE_DISTANCE,
                        total_distance(dist@) + pending@.len() <= total_distance(dist_entry)
                            + pending_before.len() - 1,
                        !found,
                        !done.contains(target),
                        forall|i: int| 0 <= i < pending@.len() ==> d <= (#[trigger] pending@[i]).1,
                        forall|v: GraphNodeIndex|
                            #[trigger] done.contains(v) ==> dist@[v as int] <= d,
                        forall|v: GraphNodeIndex|
                            #![trigger done.contains(v)]
                            done.contains(v) ==> v < n && dist@[v as int] < INFINITE_DISTANCE,
                        forall|v: GraphNodeIndex, kk: int|
                            #![trigger done.contains(v), wadj[v as int][kk]]
                            done.contains(v) && 0 <= kk < wadj[v as int].len() ==> (wadj[v
                                as int][kk]).0 < n && dist@[(wadj[v as int][kk]).0 as int]
                                < INFINITE_DISTANCE && dist@[(wadj[v as int][kk]).0 as int]
                                <= dist@[v as int] + (wadj[v as int][kk]).1,
                        forall|v: GraphNodeIndex|
                            #![trigger dist@[v as int]]
                            v != current && v < n && dist@[v as int] < INFINITE_DISTANCE ==> (
                            done.contains(v) || pending_has(pending@, v, dist@[v as int])),
                        forall|j: int|
                            0 <= j < k ==> dist@[(#[trigger] wadj[current as int][j]).0 as int]
                                < INFINITE_DISTANCE && dist@[(wadj[current as int][j]).0 as int]
                                <= d + (wadj[current as int][j]).1,
                    decreases num_edges - k,
                {
                    let ghost dist_at_k = dist@;
                    let edge = nodes[current].neighbours[k];
                    let neighbour = edge.0;
                    let w = edge.1;
                    proof {
                        assert(wadj[current as int][k as int] == (neighbour, w));
                        assert(adj[current as int][k as int] == neighbour);
                        assert(neighbour < n);
                        assert(w <= MAX_EDGE_WEIGHT);
                        assert(d <= discovered.len() * MAX_EDGE_WEIGHT);
                        let ghost cnt = discovered.len() as int;
                        assert(cnt * MAX_EDGE_WEIGHT + MAX_EDGE_WEIGHT == (cnt + 1)
                            * MAX_EDGE_WEIGHT) by (nonlinear_arith);
                        assert((cnt + 1) * MAX_EDGE_WEIGHT <= (n + 1) * MAX_EDGE_WEIGHT)
                            by (nonlinear_arith)
                            requires cnt + 1 <= n + 1;
                        assert((n + 1) * MAX_EDGE_WEIGHT <= 0x1_0000_0000_0000_0000
                            * 0xffff_ffff_ffff_ffff) by (nonlinear_arith)
                            requires n + 1 <= 0x1_0000_0000_0000_0000;
                        assert(d + w <= (cnt + 1) * MAX_EDGE_WEIGHT);
                        assert(d + w < INFINITE_DISTANCE);
                    }
                    let cand: u128 = d + (w as u128);
                    if cand < dist[neighbour] {
                        proof {
                            assert(has_weighted_edge(wadj, current, neighbour, w));
                            assert(neighbour != start);
                            lemma_total_distance_update(dist@, neighbour as int, cand);
                            if dist@[neighbour as int] == INFINITE_DISTANCE {
                                assert(!discovered.contains(neighbour));
                                lemma_push_fresh_no_dup(discovered, neighbour);
                            }
                        }
                        let ghost dist_old = dist@;
                        let ghost discovered_old = discovered;
                        let ghost pending_old = pending@;
                        dist.set(neighbour, cand);
                        prevw.set(neighbour, Some((current, w)));
                        pending.push((neighbour, cand));
                        proof {
                            rank = rank.update(neighbour as int, next_rank);
                            next_rank = next_rank + 1;
                            if dist_old[neighbour as int] == INFINITE_DISTANCE {
                                discovered = discovered.push(neighbour);
                                lemma_no_dup_bounded_len(discovered, n as nat);
                                assert forall|v: GraphNodeIndex| v < n implies (dist@[v as int]
                                    < INFINITE_DISTANCE <==> discovered.contains(v)) by {
                                    if v == neighbour {
                                        assert(discovered[discovered.len() - 1] == neighbour);
                                    } else {
                                        if discovered_old.contains(v) {
                                            let i = choose|i: int|
                                                0 <= i < discovered_old.len() && discovered_old[i]
                                                    == v;
                                            assert(discovered[i] == v);
                                        }
                                        if discovered.contains(v) {
                                            let i = choose|i: int|
                                                0 <= i < discovered.len() && discovered[i] == v;
                                            assert(discovered_old[i] == v);
                                        }
                                    }
                                }
                            }
                            assert(discovered_old.len() * MAX_EDGE_WEIGHT <= discovered.len()
                                * MAX_EDGE_WEIGHT) by (nonlinear_arith)
                                requires discovered_old.len() <= discovered.len();
                            assert(cand <= discovered.len() * MAX_EDGE_WEIGHT);
                            assert forall|v: GraphNodeIndex, dv: u128|
                                pending_has(pending_old, v, dv) implies pending_has(
                                pending@,
                                v,
                                dv,
                            ) by {
                                let i = choose|i: int|
                                    0 <= i < pending_old.len() && pending_old[i] == (v, dv);
                                assert(pending@[i] == (v, dv));
                            }
                            assert(pending@[pending@.len() - 1] == (neighbour, cand));
                            assert(pending_has(pending@, neighbour, dist@[neighbour as int]));
                            assert(!done.contains(neighbour)) by {
                                if done.contains(neighbour) {
                                    assert(dist_old[neighbour as int] <= d);
                                }
                            }
                            assert forall|v: GraphNodeIndex|
                                v != current && v != neighbour && v < n && dist@[v as int]
                                < INFINITE_DISTANCE implies (done.contains(v) || pending_has(
                                pending@,
                                v,
                                dist@[v as int],
                            )) by {
                                assert(dist@[v as int] == dist_old[v as int]);
                                if !done.contains(v) {
                                    assert(pending_has(pending_old, v, dist_old[v as int]));
                                    assert(pending_has(pending@, v, dist@[v as int]));
                                }
                            }
                        }
                    } else {
                        proof {
                            assert(dist@[neighbour as int] <= cand);
                            assert(dist@[neighbour as int] < INFINITE_DISTANCE);
                        }
                    }
                    proof {
                        assert(wadj[current as int][k as int].0 == neighbour);
                        assert(dist@[neighbour as int] < INFINITE_DISTANCE);
                        assert(dist@[neighbour as int] <= d + w);
                        assert(forall|x: int| 0 <= x < n ==> #[trigger] dist@[x] <= dist_at_k[x]);
                        assert forall|j: int|
                            0 <= j < k + 1 implies dist@[(#[trigger] wadj[current as int][j]).0
                            as int] < INFINITE_DISTANCE && dist@[(wadj[current as int][j]).0
                            as int] <= d + (wadj[current as int][j]).1 by {
                            let t = wadj[current as int][j].0;
                            assert(adj[current as int][j] == t);
                            assert(t < n);
                            if j < k {
                                assert(dist_at_k[t as int] < INFINITE_DISTANCE);
                                assert(dist_at_k[t as int] <= d + (wadj[current as int][j]).1);
                            }
                        }
                    }
                    k = k + 1;
                }
                proof {
                    let ghost done_old = done;
                    done = done.insert(current);
                    assert(dist@[current as int] == d);
                    assert forall|v: GraphNodeIndex, kk: int|
                        #![trigger done.contains(v), wadj[v as int][kk]]
                        done.contains(v) && 0 <= kk < wadj[v as int].len() implies (wadj[v
                            as int][kk]).0 < n && dist@[(wadj[v as int][kk]).0 as int]
                        < INFINITE_DISTANCE && dist@[(wadj[v as int][kk]).0 as int] <= dist@[v
                        as int] + (wadj[v as int][kk]).1 by {
                        assert(adj[v as int][kk] == (wadj[v as int][kk]).0);
                        assert(adj[v as int][kk] < n);
                        if v == current {
                            assert(dist@[(wadj[current as int][kk]).0 as int]
                                < INFINITE_DISTANCE && dist@[(wadj[current as int][kk]).0 as int]
                                <= d + (wadj[current as int][kk]).1);
                        } else {
                            assert(done_old.contains(v));
                            assert(dist@[(wadj[v as int][kk]).0 as int] < INFINITE_DISTANCE
                                && dist@[(wadj[v as int][kk]).0 as int] <= dist@[v as int] + (wadj[
                                v as int][kk]).1);
                        }
                    }
                }
            }
        }
        proof {
            lemma_total_distance_nonneg(dist@);
        }
    }

    if dist[target] < INFINITE_DISTANCE {
        let res = reconstruct_weighted_path(
            &prevw,
            start,
            target,
            Ghost(wadj),
            Ghost(dist@),
            Ghost(rank),
        );
        proof {
            lemma_cost_path_is_path(wadj, res.0@, res.1 as int);
            assert(is_path(adj, res.0@, start, target));
            if !found {
                assert(done.contains(target) || pending_has(
                    pending@,
                    target,
                    dist@[target as int],
                ));
                if pending_has(pending@, target, dist@[target as int]) {
                    let i = choose|i: int|
                        0 <= i < pending@.len() && pending@[i] == (target, dist@[target as int]);
                }
                assert(false);
            }
            assert forall|q: Seq<GraphNodeIndex>, c: int|
                path_cost_ok(wadj, q, c) && q[0] == start && q[q.len() - 1]
                == target implies res.1 as int <= c by {
                assert(dist@[target as int] as int <= c);
            }
        }
        Ok(res)
    } else {
        proof {
            let visited = Set::new(|v: GraphNodeIndex| v < n && dist@[v as int] < INFINITE_DISTANCE);
            if reachable(adj, start, target) {
                assert forall|u: GraphNodeIndex, v: GraphNodeIndex|
                    #![trigger visited.contains(u), has_edge(adj, u, v)]
                    visited.contains(u) && has_edge(adj, u, v) implies visited.contains(v) by {
                    let k = choose|k: int|
                        0 <= k < adj[u as int].len() && adj[u as int][k] == v;
                    assert(wadj[u as int][k].0 == v);
                    assert(dist@[(wadj[u as int][k]).0 as int] < INFINITE_DISTANCE);
                    assert(adj[u as int][k] < adj.len());
                }
                lemma_closed_contains_reachable(adj, visited, start, target);
            }
        }
        Err(SearchError::UnreachableTarget)
    }
}

} // verus!
