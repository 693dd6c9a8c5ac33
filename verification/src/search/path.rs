use vstd::prelude::*;

use crate::data::graph::{GraphNodeIndex, has_edge, is_path};

verus! {

/// A duplicate-free sequence of node indices below `n` has at most `n`
/// elements. This bounds the size of every visit order and path, which in
/// turn bounds the loops of the searches.
pub proof fn lemma_no_dup_bounded_len(s: Seq<GraphNodeIndex>, n: nat)
    requires
        s.no_duplicates(),
        forall|i: int| 0 <= i < s.len() ==> #[trigger] s[i] < n,
    ensures
        s.len() <= n,
{
    let f = |x: GraphNodeIndex| x as int;
    let m = s.map_values(f);
    assert(vstd::relations::injective(f));
    s.lemma_no_duplicates_injective(f);
    m.unique_seq_to_set();
    assert forall|a: int| m.to_set().contains(a) implies vstd::set_lib::set_int_range(
        0,
        n as int,
    ).contains(a) by {
        let i = choose|i: int| 0 <= i < m.len() && m[i] == a;
        assert(s[i] < n);
    }
    assert(m.to_set().subset_of(vstd::set_lib::set_int_range(0, n as int)));
    vstd::set_lib::lemma_int_range(0, n as int);
    vstd::set_lib::lemma_len_subset(m.to_set(), vstd::set_lib::set_int_range(0, n as int));
}

/// Appending an element that a duplicate-free sequence does not yet hold
/// keeps it duplicate-free.
pub proof fn lemma_push_fresh_no_dup(s: Seq<GraphNodeIndex>, x: GraphNodeIndex)
    requires
        s.no_duplicates(),
        !s.contains(x),
    ensures
        s.push(x).no_duplicates(),
{
    let t = s.push(x);
    assert forall|i: int, j: int| 0 <= i < t.len() && 0 <= j < t.len() && i != j implies t[i]
        != t[j] by {
        if i < s.len() && j < s.len() {
            assert(s[i] != s[j]);
        } else if j == s.len() && i < j {
            assert(s[i] != x);
        } else if i == s.len() && j < i {
            assert(s[j] != x);
        }
    }
}

/// A vector of `n` copies of `x`; the transient per-search state (seen
/// flags, distances, predecessor maps) starts out in this shape.
pub(crate) fn filled<T: Copy>(n: usize, x: T) -> (r: Vec<T>)
    ensures
        r@.len() == n,
        forall|i: int| 0 <= i < n ==> r@[i] == x,
{
    let mut r: Vec<T> = Vec::new();
    let mut i: usize = 0;
    while i < n
        invariant
            i <= n,
            r@.len() == i,
            forall|k: int| 0 <= k < i ==> r@[k] == x,
        decreases n - i,
    {
        r.push(x);
        i = i + 1;
    }
    r
}

/// The input sequence in reverse order.
pub(crate) fn reversed(v: &Vec<GraphNodeIndex>) -> (r: Vec<GraphNodeIndex>)
    ensures
        r@ == v@.reverse(),
{
    let mut r: Vec<GraphNodeIndex> = Vec::new();
    let mut i: usize = v.len();
    while i > 0
        invariant
            i <= v@.len(),
            r@.len() == v@.len() - i,
            forall|k: int| 0 <= k < r@.len() ==> r@[k] == v@[v@.len() - 1 - k],
        decreases i,
    {
        i = i - 1;
        r.push(v[i]);
    }
    assert(r@ =~= v@.reverse());
    r
}

/// Rebuild the path that a search recorded in its predecessor map.
///
/// `prev[v]` is the node from which `v` was first discovered (`None` for the
/// start node, which every search seeds explicitly). The ghost `rank` orders
/// discoveries: a node's predecessor was discovered strictly earlier, which
/// rules out cycles, so the backward walk from `target` terminates at
/// `start`. The result is the forward path, duplicate-free.
pub(crate) fn reconstruct_path(
    prev: &Vec<Option<GraphNodeIndex>>,
    start: GraphNodeIndex,
    target: GraphNodeIndex,
    Ghost(adj): Ghost<Seq<Seq<GraphNodeIndex>>>,
    Ghost(rank): Ghost<Seq<nat>>,
) -> (p: Vec<GraphNodeIndex>)
    requires
        prev@.len() == adj.len(),
        rank.len() == adj.len(),
        start < adj.len(),
        target < adj.len(),
        prev@[start as int] is None,
        forall|v: int|
            0 <= v < adj.len() ==> (#[trigger] prev@[v] matches Some(u) ==> u < adj.len()
                && has_edge(adj, u, v as GraphNodeIndex) && rank[u as int] < rank[v] && (u == start
                || prev@[u as int] is Some)),
        target == start || prev@[target as int] is Some,
    ensures
        is_path(adj, p@, start, target),
        p@.no_duplicates(),
        forall|i: int| 0 <= i < p@.len() ==> #[trigger] p@[i] < adj.len(),
        forall|i: int| 0 <= i < p@.len() - 1 ==> prev@[#[trigger] p@[i + 1] as int] == Some(p@[i]),
        target == start ==> p@ =~= seq![start],
{
    let mut chain: Vec<GraphNodeIndex> = Vec::new();
    chain.push(target);
    let mut current: GraphNodeIndex = target;
    while prev[current].is_some()
        invariant
            prev@.len() == adj.len(),
            rank.len() == adj.len(),
            start < adj.len(),
            current < adj.len(),
            prev@[start as int] is None,
            forall|v: int|
                0 <= v < adj.len() ==> (#[trigger] prev@[v] matches Some(u) ==> u < adj.len()
                    && has_edge(adj, u, v as GraphNodeIndex) && rank[u as int] < rank[v] && (u
                    == start || prev@[u as int] is Some)),
            current == start || prev@[current as int] is Some,
            chain@.len() >= 1,
            chain@[0] == target,
            chain@[chain@.len() - 1] == current,
            forall|i: int| 0 <= i < chain@.len() ==> #[trigger] chain@[i] < adj.len(),
            forall|i: int|
                0 <= i < chain@.len() - 1 ==> has_edge(adj, #[trigger] chain@[i + 1], chain@[i]),
            forall|i: int|
                0 <= i < chain@.len() - 1 ==> prev@[#[trigger] chain@[i] as int] == Some(chain@[i
                    + 1]),
            forall|i: int, j: int|
                0 <= i < j < chain@.len() ==> rank[#[trigger] chain@[j] as int] < rank[
                    #[trigger] chain@[i] as int],
            chain@.len() >= 2 ==> prev@[target as int] is Some,
        decreases rank[current as int],
    {
        let u = prev[current].unwrap();
        chain.push(u);
        current = u;
    }
    assert(current == start);
    let p = reversed(&chain);
    proof {
        let n = chain@.len() as int;
        assert(p@.len() == n);
        assert(p@[0] == chain@[n - 1]);
        assert(p@[n - 1] == chain@[0]);
        assert forall|i: int| 0 <= i < n - 1 implies #[trigger] has_edge(adj, p@[i], p@[i + 1]) by {
            let k = n - 2 - i;
            assert(has_edge(adj, chain@[k + 1], chain@[k]));
            assert(p@[i] == chain@[n - 1 - i]);
            assert(p@[i + 1] == chain@[n - 1 - (i + 1)]);
        }
        assert forall|i: int, j: int| 0 <= i < j < n implies p@[i] != p@[j] by {
            assert(rank[chain@[n - 1 - i] as int] < rank[chain@[n - 1 - j] as int]);
        }
        assert(p@.no_duplicates());
        assert forall|i: int|
            0 <= i < p@.len() - 1 implies prev@[#[trigger] p@[i + 1] as int] == Some(p@[i]) by {
            let t = n - 1 - (i + 1);
            assert(prev@[chain@[t] as int] == Some(chain@[t + 1]));
            assert(p@[i + 1] == chain@[t]);
            assert(p@[i] == chain@[t + 1]);
        }
        if target == start {
            assert(chain@.len() == 1);
            assert(p@ =~= seq![start]);
        }
    }
    p
}

} // verus!
