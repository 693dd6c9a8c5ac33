use vstd::prelude::*;

verus! {

/// Index of a node in a node table. The index is the node's canonical
/// identity: two distinct nodes with equal values are distinct identities.
pub type GraphNodeIndex = usize;

/// Indexed graph representation.
///
/// `nodes[i]` is the value of node `i` and `edges[i]` is the ordered list of
/// `(neighbour_index, edge_weight)` pairs leaving node `i`. A disconnected
/// node has an empty edge list. Duplicate edges between the same pair of
/// nodes are permitted (multigraph). Representing an undirected edge requires
/// inserting it in both adjacency lists explicitly.
pub struct Graph<V, E> {
    pub nodes: Vec<V>,
    pub edges: Vec<Vec<(GraphNodeIndex, E)>>,
}

/// A node of the linked graph representation.
///
/// Nodes live in a caller-owned arena (`Vec<GraphNode<V, E>>`) and refer to
/// their neighbours by arena index, so node identity is the index, never the
/// value. Cycles are ordinary: a back-reference is just another edge.
pub struct GraphNode<V, E> {
    pub value: V,
    pub neighbours: Vec<(GraphNodeIndex, E)>,
}

impl<V, E> Graph<V, E> {
    /// The adjacency structure of the graph: for every node, its neighbour
    /// indices in adjacency-list order, weights forgotten.
    pub open spec fn adjacency(self) -> Seq<Seq<GraphNodeIndex>> {
        Seq::new(
            self.edges@.len(),
            |u: int| Seq::new(self.edges@[u]@.len(), |k: int| self.edges@[u]@[k].0),
        )
    }

    /// Well-formedness: one edge list per node, and every neighbour index in
    /// bounds.
    pub open spec fn wf(self) -> bool {
        &&& self.edges@.len() == self.nodes@.len()
        &&& adjacency_wf(self.adjacency())
    }
}

impl<V> Graph<V, u64> {
    /// The full adjacency structure of a weighted graph: for every node, its
    /// `(neighbour, weight)` pairs in adjacency-list order.
    pub open spec fn weighted_adjacency(self) -> Seq<Seq<(GraphNodeIndex, u64)>> {
        Seq::new(self.edges@.len(), |u: int| self.edges@[u]@)
    }
}

/// The full weighted adjacency structure of a linked-graph arena.
pub open spec fn linked_weighted_adjacency<V>(
    nodes: Seq<GraphNode<V, u64>>,
) -> Seq<Seq<(GraphNodeIndex, u64)>> {
    Seq::new(nodes.len(), |u: int| nodes[u].neighbours@)
}

/// The same adjacency data with the weights forgotten.
pub open spec fn drop_weights(wadj: Seq<Seq<(GraphNodeIndex, u64)>>) -> Seq<Seq<GraphNodeIndex>> {
    Seq::new(wadj.len(), |u: int| Seq::new(wadj[u].len(), |k: int| wadj[u][k].0))
}

/// There is an edge from `u` to `v` of weight `w`.
pub open spec fn has_weighted_edge(
    wadj: Seq<Seq<(GraphNodeIndex, u64)>>,
    u: GraphNodeIndex,
    v: GraphNodeIndex,
    w: u64,
) -> bool {
    &&& u < wadj.len()
    &&& exists|k: int| 0 <= k < wadj[u as int].len() && wadj[u as int][k] == (v, w)
}

/// `p` is a valid path through the weighted adjacency data whose edge
/// weights sum to exactly `c`. In a multigraph several weights may connect
/// the same pair of nodes; this predicate asks that some choice of edges
/// along `p` costs `c`.
pub open spec fn path_cost_ok(
    wadj: Seq<Seq<(GraphNodeIndex, u64)>>,
    p: Seq<GraphNodeIndex>,
    c: int,
) -> bool
    decreases p.len(),
{
    if p.len() == 0 {
        false
    } else if p.len() == 1 {
        c == 0
    } else {
        exists|w: u64|
            has_weighted_edge(wadj, p[0], p[1], w) && path_cost_ok(wadj, p.drop_first(), c - w)
    }
}

/// A weighted edge is in particular an edge of the weight-forgetting
/// adjacency structure.
pub proof fn lemma_weighted_edge_is_edge(
    wadj: Seq<Seq<(GraphNodeIndex, u64)>>,
    u: GraphNodeIndex,
    v: GraphNodeIndex,
    w: u64,
)
    requires
        has_weighted_edge(wadj, u, v, w),
    ensures
        has_edge(drop_weights(wadj), u, v),
{
    let k = choose|k: int| 0 <= k < wadj[u as int].len() && wadj[u as int][k] == (v, w);
    assert(drop_weights(wadj)[u as int][k] == v);
}

/// A costed path is a valid path of the weight-forgetting adjacency
/// structure.
pub proof fn lemma_cost_path_is_path(
    wadj: Seq<Seq<(GraphNodeIndex, u64)>>,
    p: Seq<GraphNodeIndex>,
    c: int,
)
    requires
        path_cost_ok(wadj, p, c),
    ensures
        is_path(drop_weights(wadj), p, p[0], p[p.len() - 1]),
    decreases p.len(),
{
    let adj = drop_weights(wadj);
    if p.len() == 1 {
    } else {
        let w = choose|w: u64|
            has_weighted_edge(wadj, p[0], p[1], w) && path_cost_ok(wadj, p.drop_first(), c - w);
        lemma_weighted_edge_is_edge(wadj, p[0], p[1], w);
        lemma_cost_path_is_path(wadj, p.drop_first(), c - w);
        let q = p.drop_first();
        assert forall|i: int| 0 <= i < p.len() - 1 implies #[trigger] has_edge(adj, p[i], p[i + 1]) by {
            if i == 0 {
            } else {
                assert(has_edge(adj, q[i - 1], q[i - 1 + 1]));
            }
        }
    }
}

/// Prepending one weighted edge to a costed path yields a costed path.
pub proof fn lemma_path_cost_extend(
    wadj: Seq<Seq<(GraphNodeIndex, u64)>>,
    p: Seq<GraphNodeIndex>,
    c: int,
    u: GraphNodeIndex,
    w: u64,
)
    requires
        path_cost_ok(wadj, p, c),
        has_weighted_edge(wadj, u, p[0], w),
    ensures
        path_cost_ok(wadj, seq![u] + p, c + w),
{
    let q = seq![u] + p;
    assert(q.drop_first() =~= p);
    assert(q[0] == u && q[1] == p[0]);
}

/// The adjacency structure of a weighted indexed graph is its weighted
/// adjacency structure with the weights forgotten.
pub proof fn lemma_adjacency_drops_weights<V>(g: Graph<V, u64>)
    ensures
        g.adjacency() == drop_weights(g.weighted_adjacency()),
{
    assert(g.adjacency() =~~= drop_weights(g.weighted_adjacency()));
}

/// The same, for a linked-graph arena.
pub proof fn lemma_linked_adjacency_drops_weights<V>(nodes: Seq<GraphNode<V, u64>>)
    ensures
        linked_adjacency(nodes) == drop_weights(linked_weighted_adjacency(nodes)),
{
    assert(linked_adjacency(nodes) =~~= drop_weights(linked_weighted_adjacency(nodes)));
}

/// The adjacency structure of a linked-graph arena, weights forgotten.
pub open spec fn linked_adjacency<V, E>(nodes: Seq<GraphNode<V, E>>) -> Seq<Seq<GraphNodeIndex>> {
    Seq::new(
        nodes.len(),
        |u: int| Seq::new(nodes[u].neighbours@.len(), |k: int| nodes[u].neighbours@[k].0),
    )
}

/// Well-formedness of a linked-graph arena: every neighbour handle in bounds.
pub open spec fn linked_wf<V, E>(nodes: Seq<GraphNode<V, E>>) -> bool {
    adjacency_wf(linked_adjacency(nodes))
}

/// Every neighbour index names a node of the graph.
pub open spec fn adjacency_wf(adj: Seq<Seq<GraphNodeIndex>>) -> bool {
    forall|u: int, k: int|
        0 <= u < adj.len() && 0 <= k < adj[u].len() ==> #[trigger] adj[u][k] < adj.len()
}

/// There is an edge from `u` to `v` in the adjacency data.
pub open spec fn has_edge(adj: Seq<Seq<GraphNodeIndex>>, u: GraphNodeIndex, v: GraphNodeIndex) -> bool {
    &&& u < adj.len()
    &&& exists|k: int| 0 <= k < adj[u as int].len() && adj[u as int][k] == v
}

/// `p` is a valid path from `s` to `t`: it starts at `s`, ends at `t`, and
/// every consecutive pair is connected by an edge of the graph.
pub open spec fn is_path(adj: Seq<Seq<GraphNodeIndex>>, p: Seq<GraphNodeIndex>, s: GraphNodeIndex, t: GraphNodeIndex) -> bool {
    &&& p.len() >= 1
    &&& p[0] == s
    &&& p[p.len() - 1] == t
    &&& forall|i: int| 0 <= i < p.len() - 1 ==> #[trigger] has_edge(adj, p[i], p[i + 1])
}

/// `t` can be reached from `s` by following edges (trivially, every node
/// reaches itself).
pub open spec fn reachable(adj: Seq<Seq<GraphNodeIndex>>, s: GraphNodeIndex, t: GraphNodeIndex) -> bool {
    exists|p: Seq<GraphNodeIndex>| is_path(adj, p, s, t)
}

/// Every node reaches itself, by the one-element path.
pub proof fn lemma_reachable_self(adj: Seq<Seq<GraphNodeIndex>>, s: GraphNodeIndex)
    ensures
        reachable(adj, s, s),
{
    assert(is_path(adj, seq![s], s, s));
}

/// Reachability extends across a single edge.
pub proof fn lemma_reachable_step(
    adj: Seq<Seq<GraphNodeIndex>>,
    s: GraphNodeIndex,
    u: GraphNodeIndex,
    v: GraphNodeIndex,
)
    requires
        reachable(adj, s, u),
        has_edge(adj, u, v),
    ensures
        reachable(adj, s, v),
{
    let p = choose|p: Seq<GraphNodeIndex>| is_path(adj, p, s, u);
    let q = p.push(v);
    assert forall|i: int| 0 <= i < q.len() - 1 implies #[trigger] has_edge(adj, q[i], q[i + 1]) by {
        if i < p.len() - 1 {
            assert(has_edge(adj, p[i], p[i + 1]));
        } else {
            assert(q[i] == u && q[i + 1] == v);
        }
    }
    assert(is_path(adj, q, s, v));
}

/// In a well-formed graph, only nodes of the graph are reachable from a node
/// of the graph.
pub proof fn lemma_reachable_in_bounds(
    adj: Seq<Seq<GraphNodeIndex>>,
    s: GraphNodeIndex,
    t: GraphNodeIndex,
)
    requires
        adjacency_wf(adj),
        s < adj.len(),
        reachable(adj, s, t),
    ensures
        t < adj.len(),
{
    let p = choose|p: Seq<GraphNodeIndex>| is_path(adj, p, s, t);
    if p.len() == 1 {
    } else {
        let i = p.len() - 2;
        assert(has_edge(adj, p[i], p[i + 1]));
        let u = p[p.len() - 2];
        let k = choose|k: int| 0 <= k < adj[u as int].len() && adj[u as int][k] == t;
        assert(adj[u as int][k] < adj.len());
    }
}

/// A set of nodes that contains `s` and is closed under following edges
/// contains everything reachable from `s`. This is the completeness half of
/// traversal correctness: the visited set is such a set.
pub proof fn lemma_closed_contains_reachable(
    adj: Seq<Seq<GraphNodeIndex>>,
    visited: Set<GraphNodeIndex>,
    s: GraphNodeIndex,
    t: GraphNodeIndex,
)
    requires
        visited.contains(s),
        forall|u: GraphNodeIndex, v: GraphNodeIndex|
            #![trigger visited.contains(u), has_edge(adj, u, v)]
            visited.contains(u) && has_edge(adj, u, v) ==> visited.contains(v),
        reachable(adj, s, t),
    ensures
        visited.contains(t),
{
    let p = choose|p: Seq<GraphNodeIndex>| is_path(adj, p, s, t);
    lemma_path_end_in_closed(adj, visited, p, s, t);
}

proof fn lemma_path_end_in_closed(
    adj: Seq<Seq<GraphNodeIndex>>,
    visited: Set<GraphNodeIndex>,
    p: Seq<GraphNodeIndex>,
    s: GraphNodeIndex,
    t: GraphNodeIndex,
)
    requires
        is_path(adj, p, s, t),
        visited.contains(s),
        forall|u: GraphNodeIndex, v: GraphNodeIndex|
            #![trigger visited.contains(u), has_edge(adj, u, v)]
            visited.contains(u) && has_edge(adj, u, v) ==> visited.contains(v),
    ensures
        visited.contains(t),
    decreases p.len(),
{
    if p.len() == 1 {
    } else {
        let q = p.drop_last();
        let w = p[p.len() - 2];
        assert forall|i: int| 0 <= i < q.len() - 1 implies #[trigger] has_edge(adj, q[i], q[i + 1]) by {
            assert(has_edge(adj, p[i], p[i + 1]));
        }
        assert(is_path(adj, q, s, w));
        lemma_path_end_in_closed(adj, visited, q, s, w);
        let i = p.len() - 2;
        assert(has_edge(adj, p[i], p[i + 1]));
    }
}


/// Representation equivalence: an indexed graph and a linked-graph arena
/// that encode the same topology (equal adjacency structures) reach exactly
/// the same nodes from every start. Together with the traversal contracts —
/// a traversal visits `t` exactly when `t` is reachable — and the search
/// contracts — a search succeeds exactly when the target is reachable —
/// the two representations produce equal visited sets and agree on which
/// targets have a path. The valid paths also coincide, so the minimal path
/// lengths that the breadth-first searches return agree as well.
pub proof fn lemma_representation_equivalence<V1, E1, V2, E2>(
    g: Graph<V1, E1>,
    nodes: Seq<GraphNode<V2, E2>>,
    start: GraphNodeIndex,
)
    requires
        g.adjacency() == linked_adjacency(nodes),
    ensures
        forall|t: GraphNodeIndex|
            reachable(g.adjacency(), start, t) <==> reachable(linked_adjacency(nodes), start, t),
        forall|p: Seq<GraphNodeIndex>, t: GraphNodeIndex|
            is_path(g.adjacency(), p, start, t) <==> is_path(linked_adjacency(nodes), p, start, t),
{
}


/// The eight-node sample graph, unweighted: nodes `a`..`h` at indices
/// 0..=7, each undirected stroke entered in both adjacency lists.
pub fn make_test_unweighted_indexed_graph() -> (g: Graph<char, ()>)
    ensures
        g.wf(),
        g.nodes@ == seq!['a', 'b', 'c', 'd', 'e', 'f', 'g', 'h'],
        g.edges@.len() == 8,
        g.edges@[0]@ == seq![(1usize, ()), (2usize, ()), (3usize, ()), (4usize, ())],
        g.edges@[1]@ == seq![(6usize, ()), (0usize, ()), (2usize, ())],
        g.edges@[2]@ == seq![(3usize, ()), (0usize, ()), (1usize, ())],
        g.edges@[3]@ == seq![(2usize, ()), (0usize, ()), (4usize, ()), (7usize, ())],
        g.edges@[4]@ == seq![(0usize, ()), (3usize, ()), (5usize, ())],
        g.edges@[5]@ == seq![(6usize, ()), (4usize, ()), (7usize, ())],
        g.edges@[6]@ == seq![(5usize, ()), (1usize, ())],
        g.edges@[7]@ == seq![(5usize, ()), (3usize, ())],
{
    let nodes = vec!['a', 'b', 'c', 'd', 'e', 'f', 'g', 'h'];
    let mut edges: Vec<Vec<(GraphNodeIndex, ())>> = Vec::new();
    edges.push(vec![(1, ()), (2, ()), (3, ()), (4, ())]);
    edges.push(vec![(6, ()), (0, ()), (2, ())]);
    edges.push(vec![(3, ()), (0, ()), (1, ())]);
    edges.push(vec![(2, ()), (0, ()), (4, ()), (7, ())]);
    edges.push(vec![(0, ()), (3, ()), (5, ())]);
    edges.push(vec![(6, ()), (4, ()), (7, ())]);
    edges.push(vec![(5, ()), (1, ())]);
    edges.push(vec![(5, ()), (3, ())]);
    let g = Graph { nodes, edges };
    proof {
        assert(g.wf());
    }
    g
}

/// The eight-node sample graph with weights: unit weights everywhere but
/// for the strokes `d`-`h` and `f`-`h` (weight 2) and `f`-`g` (weight 3).
pub fn make_test_weighted_indexed_graph() -> (g: Graph<char, u64>)
    ensures
        g.wf(),
        g.nodes@ == seq!['a', 'b', 'c', 'd', 'e', 'f', 'g', 'h'],
        g.edges@.len() == 8,
        g.edges@[0]@ == seq![(1usize, 1u64), (2usize, 1u64), (3usize, 1u64), (4usize, 1u64)],
        g.edges@[1]@ == seq![(6usize, 1u64), (0usize, 1u64), (2usize, 1u64)],
        g.edges@[2]@ == seq![(3usize, 1u64), (0usize, 1u64), (1usize, 1u64)],
        g.edges@[3]@ == seq![(2usize, 1u64), (0usize, 1u64), (4usize, 1u64), (7usize, 2u64)],
        g.edges@[4]@ == seq![(0usize, 1u64), (3usize, 1u64), (5usize, 1u64)],
        g.edges@[5]@ == seq![(6usize, 3u64), (4usize, 1u64), (7usize, 2u64)],
        g.edges@[6]@ == seq![(5usize, 3u64), (1usize, 1u64)],
        g.edges@[7]@ == seq![(5usize, 2u64), (3usize, 2u64)],
{
    let nodes = vec!['a', 'b', 'c', 'd', 'e', 'f', 'g', 'h'];
    let mut edges: Vec<Vec<(GraphNodeIndex, u64)>> = Vec::new();
    edges.push(vec![(1, 1), (2, 1), (3, 1), (4, 1)]);
    edges.push(vec![(6, 1), (0, 1), (2, 1)]);
    edges.push(vec![(3, 1), (0, 1), (1, 1)]);
    edges.push(vec![(2, 1), (0, 1), (4, 1), (7, 2)]);
    edges.push(vec![(0, 1), (3, 1), (5, 1)]);
    edges.push(vec![(6, 3), (4, 1), (7, 2)]);
    edges.push(vec![(5, 3), (1, 1)]);
    edges.push(vec![(5, 2), (3, 2)]);
    let g = Graph { nodes, edges };
    proof {
        assert(g.wf());
    }
    g
}

/// The arena index that each of the sample letters `a`..`h` stands for.
pub open spec fn sample_letter_index(c: char) -> GraphNodeIndex {
    if c == 'a' {
        0
    } else if c == 'b' {
        1
    } else if c == 'c' {
        2
    } else if c == 'd' {
        3
    } else if c == 'e' {
        4
    } else if c == 'f' {
        5
    } else if c == 'g' {
        6
    } else {
        7
    }
}

/// The arena handle that a sample end letter maps to: its index for a
/// letter of the sample graph, nothing otherwise.
pub open spec fn sample_end_index(end: Option<char>) -> Option<GraphNodeIndex> {
    match end {
        Some(c) => if 'a' <= c && c <= 'h' {
            Some(sample_letter_index(c))
        } else {
            None
        },
        None => None,
    }
}

/// The arena index of one of the sample letters `a`..`h`.
pub fn letter_index(c: char) -> (i: GraphNodeIndex)
    requires
        'a' <= c <= 'h',
    ensures
        i < 8,
        i == sample_letter_index(c),
{
    if c == 'a' {
        0
    } else if c == 'b' {
        1
    } else if c == 'c' {
        2
    } else if c == 'd' {
        3
    } else if c == 'e' {
        4
    } else if c == 'f' {
        5
    } else if c == 'g' {
        6
    } else {
        7
    }
}

/// The eight-node sample graph as a linked-graph arena, unweighted; the
/// adjacency orders differ slightly from the indexed sample on purpose.
/// Returns the arena together with the handles for `start` and `end`.
pub fn make_test_unweighted_linked_graph_nodes(start: char, end: Option<char>) -> (r: (
    Vec<GraphNode<char, ()>>,
    GraphNodeIndex,
    Option<GraphNodeIndex>,
))
    requires
        'a' <= start <= 'h',
    ensures
        linked_wf(r.0@),
        r.0@.len() == 8,
        r.1 < 8,
        r.2 matches Some(e) ==> e < 8,
        r.1 == sample_letter_index(start),
        r.2 == sample_end_index(end),
        forall|i: int|
            0 <= i < 8 ==> (#[trigger] r.0@[i]).value == seq!['a', 'b', 'c', 'd', 'e', 'f', 'g', 'h'][i],
        r.0@[0].neighbours@ == seq![(1usize, ()), (2usize, ()), (3usize, ()), (4usize, ())],
        r.0@[1].neighbours@ == seq![(0usize, ()), (6usize, ()), (2usize, ())],
        r.0@[2].neighbours@ == seq![(0usize, ()), (1usize, ()), (3usize, ())],
        r.0@[3].neighbours@ == seq![(2usize, ()), (0usize, ()), (4usize, ()), (7usize, ())],
        r.0@[4].neighbours@ == seq![(0usize, ()), (3usize, ()), (5usize, ())],
        r.0@[5].neighbours@ == seq![(6usize, ()), (4usize, ()), (7usize, ())],
        r.0@[6].neighbours@ == seq![(5usize, ()), (1usize, ())],
        r.0@[7].neighbours@ == seq![(5usize, ()), (3usize, ())],
{
    let mut nodes: Vec<GraphNode<char, ()>> = Vec::new();
    nodes.push(GraphNode { value: 'a', neighbours: vec![(1, ()), (2, ()), (3, ()), (4, ())] });
    nodes.push(GraphNode { value: 'b', neighbours: vec![(0, ()), (6, ()), (2, ())] });
    nodes.push(GraphNode { value: 'c', neighbours: vec![(0, ()), (1, ()), (3, ())] });
    nodes.push(GraphNode { value: 'd', neighbours: vec![(2, ()), (0, ()), (4, ()), (7, ())] });
    nodes.push(GraphNode { value: 'e', neighbours: vec![(0, ()), (3, ()), (5, ())] });
    nodes.push(GraphNode { value: 'f', neighbours: vec![(6, ()), (4, ()), (7, ())] });
    nodes.push(GraphNode { value: 'g', neighbours: vec![(5, ()), (1, ())] });
    nodes.push(GraphNode { value: 'h', neighbours: vec![(5, ()), (3, ())] });
    let start_index = letter_index(start);
    let end_index = match end {
        Some(c) => if 'a' <= c && c <= 'h' {
            Some(letter_index(c))
        } else {
            None
        },
        None => None,
    };
    proof {
        assert(linked_wf(nodes@));
    }
    (nodes, start_index, end_index)
}

/// The eight-node sample graph as a weighted linked-graph arena, with the
/// same weights as the weighted indexed sample.
pub fn make_test_weighted_linked_graph_nodes(start: char, end: Option<char>) -> (r: (
    Vec<GraphNode<char, u64>>,
    GraphNodeIndex,
    Option<GraphNodeIndex>,
))
    requires
        'a' <= start <= 'h',
    ensures
        linked_wf(r.0@),
        r.0@.len() == 8,
        r.1 < 8,
        r.2 matches Some(e) ==> e < 8,
        r.1 == sample_letter_index(start),
        r.2 == sample_end_index(end),
        forall|i: int|
            0 <= i < 8 ==> (#[trigger] r.0@[i]).value == seq!['a', 'b', 'c', 'd', 'e', 'f', 'g', 'h'][i],
        r.0@[0].neighbours@ == seq![(1usize, 1u64), (2usize, 1u64), (3usize, 1u64), (4usize, 1u64)],
        r.0@[1].neighbours@ == seq![(0usize, 1u64), (6usize, 1u64), (2usize, 1u64)],
        r.0@[2].neighbours@ == seq![(0usize, 1u64), (1usize, 1u64), (3usize, 1u64)],
        r.0@[3].neighbours@ == seq![(2usize, 1u64), (0usize, 1u64), (4usize, 1u64), (7usize, 2u64)],
        r.0@[4].neighbours@ == seq![(0usize, 1u64), (3usize, 1u64), (5usize, 1u64)],
        r.0@[5].neighbours@ == seq![(6usize, 3u64), (4usize, 1u64), (7usize, 2u64)],
        r.0@[6].neighbours@ == seq![(5usize, 3u64), (1usize, 1u64)],
        r.0@[7].neighbours@ == seq![(5usize, 2u64), (3usize, 2u64)],
{
    let mut nodes: Vec<GraphNode<char, u64>> = Vec::new();
    nodes.push(GraphNode { value: 'a', neighbours: vec![(1, 1), (2, 1), (3, 1), (4, 1)] });
    nodes.push(GraphNode { value: 'b', neighbours: vec![(0, 1), (6, 1), (2, 1)] });
    nodes.push(GraphNode { value: 'c', neighbours: vec![(0, 1), (1, 1), (3, 1)] });
    nodes.push(GraphNode { value: 'd', neighbours: vec![(2, 1), (0, 1), (4, 1), (7, 2)] });
    nodes.push(GraphNode { value: 'e', neighbours: vec![(0, 1), (3, 1), (5, 1)] });
    nodes.push(GraphNode { value: 'f', neighbours: vec![(6, 3), (4, 1), (7, 2)] });
    nodes.push(GraphNode { value: 'g', neighbours: vec![(5, 3), (1, 1)] });
    nodes.push(GraphNode { value: 'h', neighbours: vec![(5, 2), (3, 2)] });
    let start_index = letter_index(start);
    let end_index = match end {
        Some(c) => if 'a' <= c && c <= 'h' {
            Some(letter_index(c))
        } else {
            None
        },
        None => None,
    };
    proof {
        assert(linked_wf(nodes@));
    }
    (nodes, start_index, end_index)
}

} // verus!
