use vstd::prelude::*;

use crate::sort::{sorted_asc, swap_elems};

verus! {

/// The first `end` elements form a max-heap laid out as an array:
/// the children of `p` sit at `2p + 1` and `2p + 2`, and no child
/// exceeds its parent.
pub open spec fn is_heap_to(s: Seq<u64>, end: int) -> bool {
    forall|c: int| 1 <= c < end ==> #[trigger] s[c] <= s[(c - 1) / 2]
}

/// `c` lies in the subtree rooted at `p`: following parents from `c`
/// reaches `p`.
#[verifier::opaque]
pub open spec fn heap_descendant(p: int, c: int) -> bool
    decreases c,
{
    if c == p {
        true
    } else if c > p && c >= 1 {
        heap_descendant(p, (c - 1) / 2)
    } else {
        false
    }
}

/// A descendant never lies before its subtree root.
proof fn lemma_descendant_at_least(p: int, c: int)
    requires
        heap_descendant(p, c),
    ensures
        c >= p,
    decreases c,
{
    reveal(heap_descendant);
    if c != p && c > p && c >= 1 {
        lemma_descendant_at_least(p, (c - 1) / 2);
    }
}

/// Subtree containment is transitive.
proof fn lemma_descendant_trans(p: int, b: int, c: int)
    requires
        heap_descendant(p, b),
        heap_descendant(b, c),
    ensures
        heap_descendant(p, c),
    decreases c,
{
    reveal(heap_descendant);
    lemma_descendant_at_least(p, b);
    if c != b {
        if c > b && c >= 1 {
            lemma_descendant_trans(p, b, (c - 1) / 2);
            lemma_descendant_at_least(p, (c - 1) / 2);
        }
    }
}

/// Every position lies in the subtree of the root.
proof fn lemma_descendant_of_root(c: int)
    requires
        c >= 0,
    ensures
        heap_descendant(0, c),
    decreases c,
{
    reveal(heap_descendant);
    if c >= 1 {
        lemma_descendant_of_root((c - 1) / 2);
    }
}

/// Pairs ordered under every parent from position 1 on are exactly the
/// subtree-shaped precondition of a sift-down at the root.
proof fn lemma_sift_root_pre(s: Seq<u64>, end: int)
    requires
        forall|c: int| 1 <= c < end && (c - 1) / 2 >= 1 ==> #[trigger] s[c] <= s[(c - 1) / 2],
    ensures
        forall|c: int|
            1 <= c < end && heap_descendant(0, (c - 1) / 2) && (c - 1) / 2 != 0 ==> #[trigger] s[c]
                <= s[(c - 1) / 2],
{
}

/// A heap-shaped subtree at the root is a heap of the whole prefix.
proof fn lemma_sift_root_post(s: Seq<u64>, end: int)
    requires
        forall|c: int|
            1 <= c < end && heap_descendant(0, (c - 1) / 2) ==> #[trigger] s[c] <= s[(c - 1) / 2],
    ensures
        is_heap_to(s, end),
{
    assert forall|c: int| 1 <= c < end implies #[trigger] s[c] <= s[(c - 1) / 2] by {
        lemma_descendant_of_root((c - 1) / 2);
    }
}

/// In a max-heap the root is the largest element.
proof fn lemma_heap_root_max(s: Seq<u64>, end: int, c: int)
    requires
        is_heap_to(s, end),
        0 <= c < end,
        end <= s.len(),
    ensures
        s[c] <= s[0],
    decreases c,
{
    if c > 0 {
        assert(s[c] <= s[(c - 1) / 2]);
        lemma_heap_root_max(s, end, (c - 1) / 2);
    }
}

/// Sift the element at `p` down through the heap prefix `[0, end)`: swap
/// it with its larger child while a child exceeds it. The subtrees of the
/// children of `p` must already be max-heaps — only `p` itself may sit
/// below its children; afterwards the whole subtree of `p` is a max-heap.
/// Only the subtree of `p` is touched, and nothing at `end` or beyond.
#[verifier::rlimit(100)]
pub fn bubble_down(v: &mut Vec<u64>, p: usize, end: usize)
    requires
        end <= old(v)@.len(),
        p < end,
        forall|c: int|
            1 <= c < end && heap_descendant(p as int, (c - 1) / 2) && (c - 1) / 2 != p
                ==> #[trigger] old(v)@[c] <= old(v)@[(c - 1) / 2],
    ensures
        final(v)@.len() == old(v)@.len(),
        final(v)@.to_multiset() == old(v)@.to_multiset(),
        forall|c: int|
            1 <= c < end && heap_descendant(p as int, (c - 1) / 2) ==> #[trigger] final(v)@[c]
                <= final(v)@[(c - 1) / 2],
        forall|k: int|
            0 <= k < old(v)@.len() && !heap_descendant(p as int, k) ==> final(v)@[k] == old(v)@[k],
        forall|k: int| end <= k < old(v)@.len() ==> final(v)@[k] == old(v)@[k],
        final(v)@[p as int] == old(v)@[p as int] || (2 * p + 1 < end && final(v)@[p as int]
            == old(v)@[2 * p + 1]) || (2 * p + 2 < end && final(v)@[p as int] == old(v)@[2 * p
            + 2]),
    decreases end - p,
{
    if p >= end / 2 {
        // no children inside the heap prefix
        return ;
    }
    let ch1 = 2 * p + 1;
    let ch2 = ch1 + 1;
    let b = if ch2 >= end || v[ch1] > v[ch2] {
        ch1
    } else {
        ch2
    };
    proof {
        reveal(heap_descendant);
        assert((2 * p + 1 - 1) / 2 == p as int);
        assert((2 * p + 2 - 1) / 2 == p as int);
        assert(heap_descendant(p as int, p as int));
        assert(heap_descendant(p as int, ch1 as int));
        assert(heap_descendant(p as int, ch2 as int));
    }
    if v[b] > v[p] {
        swap_elems(v, b, p);
        let ghost mid = v@;
        proof {
            assert forall|c: int|
                1 <= c < end && heap_descendant(b as int, (c - 1) / 2) && (c - 1) / 2 != b
                implies #[trigger] v@[c] <= v@[(c - 1) / 2] by {
                let q = (c - 1) / 2;
                lemma_descendant_at_least(b as int, q);
                assert(q > b);
                assert(c != p as int && c != b as int && q != p as int && q != b as int);
                assert(v@[c] == old(v)@[c] && v@[q] == old(v)@[q]);
                lemma_descendant_trans(p as int, b as int, q);
                assert(old(v)@[c] <= old(v)@[q]);
            }
        }
        bubble_down(v, b, end);
        proof {
            assert forall|k: int|
                0 <= k < v@.len() && !heap_descendant(p as int, k) implies v@[k] == old(v)@[
                k] by {
                reveal(heap_descendant);
                if heap_descendant(b as int, k) {
                    lemma_descendant_trans(p as int, b as int, k);
                }
                assert(v@[k] == mid[k]);
                assert(k != p as int && k != b as int);
            }
            assert(!heap_descendant(b as int, p as int)) by {
                reveal(heap_descendant);
                if heap_descendant(b as int, p as int) {
                    lemma_descendant_at_least(b as int, p as int);
                }
            }
            assert(v@[p as int] == mid[p as int]);
            assert forall|c: int|
                1 <= c < end && heap_descendant(p as int, (c - 1) / 2) implies #[trigger] v@[c]
                <= v@[(c - 1) / 2] by {
                let q = (c - 1) / 2;
                if heap_descendant(b as int, q) {
                    assert(v@[c] <= v@[q]);
                } else if q == p {
                    assert(c == ch1 || c == ch2);
                    if c == b {
                        assert(v@[b as int] == mid[b as int] || (2 * b + 1 < end && v@[b as int]
                            == mid[2 * b + 1]) || (2 * b + 2 < end && v@[b as int] == mid[2 * b
                            + 2]));
                        assert(mid[b as int] == old(v)@[p as int]);
                        assert(2 * b + 1 < end ==> mid[2 * b + 1] == old(v)@[2 * b + 1]);
                        assert(2 * b + 2 < end ==> mid[2 * b + 2] == old(v)@[2 * b + 2]);
                        assert((2 * b + 1 - 1) / 2 == b as int);
                        assert((2 * b + 2 - 1) / 2 == b as int);
                        assert(2 * b + 1 < end ==> old(v)@[2 * b + 1] <= old(v)@[b as int]);
                        assert(2 * b + 2 < end ==> old(v)@[2 * b + 2] <= old(v)@[b as int]);
                        assert(v@[p as int] == mid[p as int] == old(v)@[b as int]);
                    } else {
                        assert(!heap_descendant(b as int, c)) by {
                            reveal(heap_descendant);
                            if heap_descendant(b as int, c) {
                                if c > b {
                                    assert(heap_descendant(b as int, q));
                                    lemma_descendant_at_least(b as int, q);
                                } else {
                                    lemma_descendant_at_least(b as int, c);
                                }
                            }
                        }
                        assert(v@[c] == mid[c] == old(v)@[c]);
                        assert(old(v)@[c] <= old(v)@[b as int]);
                    }
                } else {
                    // q sits inside the subtree of p but strictly outside
                    // that of b and is not p: both ends untouched
                    lemma_descendant_at_least(p as int, q);
                    assert(q >= p && q != p);
                    assert(q != b as int);
                    assert(c != b as int) by {
                        if c == b {
                            assert((b - 1) / 2 == p as int);
                        }
                    }
                    assert(!heap_descendant(b as int, c)) by {
                        reveal(heap_descendant);
                        if heap_descendant(b as int, c) {
                            if c > b {
                                assert(heap_descendant(b as int, q));
                            } else {
                                lemma_descendant_at_least(b as int, c);
                            }
                        }
                    }
                    assert(c != p && q != p && q != b);
                    assert(v@[c] == mid[c] == old(v)@[c]);
                    assert(v@[q] == mid[q] == old(v)@[q]);
                    assert(old(v)@[c] <= old(v)@[q]);
                }
            }
        }
    }
}

/// Arrange the whole vector into a max-heap, sifting down from the middle
/// to the front.
pub fn build(v: &mut Vec<u64>)
    ensures
        final(v)@.len() == old(v)@.len(),
        final(v)@.to_multiset() == old(v)@.to_multiset(),
        is_heap_to(final(v)@, old(v)@.len() as int),
{
    let n = v.len();
    if n == 0 {
        return ;
    }
    let mid = n / 2;
    let mut i: usize = mid + 1;
    while i > 0
        invariant
            n == v@.len(),
            i <= mid + 1,
            mid == n / 2,
            n >= 1,
            v@.to_multiset() == old(v)@.to_multiset(),
            forall|c: int| 1 <= c < n && (c - 1) / 2 >= i ==> #[trigger] v@[c] <= v@[(c - 1) / 2],
        decreases i,
    {
        i = i - 1;
        proof {
            assert forall|c: int|
                1 <= c < n && heap_descendant(i as int, (c - 1) / 2) && (c - 1) / 2 != i
                implies #[trigger] v@[c] <= v@[(c - 1) / 2] by {
                lemma_descendant_at_least(i as int, (c - 1) / 2);
            }
        }
        let ghost before = v@;
        bubble_down(v, i, n);
        proof {
            assert forall|c: int|
                1 <= c < n && (c - 1) / 2 >= i implies #[trigger] v@[c] <= v@[(c - 1) / 2] by {
                let q = (c - 1) / 2;
                if heap_descendant(i as int, q) {
                    assert(v@[c] <= v@[q]);
                } else {
                    assert(q != i as int) by {
                        reveal(heap_descendant);
                    }
                    assert(!heap_descendant(i as int, c)) by {
                        reveal(heap_descendant);
                        if heap_descendant(i as int, c) {
                            lemma_descendant_at_least(i as int, c);
                            assert(c != i as int);
                            assert(heap_descendant(i as int, q));
                        }
                    }
                    assert(v@[c] == before[c] && v@[q] == before[q]);
                    assert(before[c] <= before[q]);
                }
            }
        }
    }
}

/// Two sequences with equal contents that agree from `cut` on also hold
/// equal contents before `cut`.
proof fn lemma_prefix_multiset(a: Seq<u64>, b: Seq<u64>, cut: int)
    requires
        a.len() == b.len(),
        0 <= cut <= a.len(),
        a.to_multiset() == b.to_multiset(),
        forall|k: int| cut <= k < a.len() ==> a[k] == b[k],
    ensures
        a.subrange(0, cut).to_multiset() == b.subrange(0, cut).to_multiset(),
{
    broadcast use vstd::seq_lib::lemma_multiset_commutative;
    broadcast use vstd::seq_lib::group_to_multiset_ensures;
    broadcast use vstd::multiset::group_multiset_axioms;

    let n = a.len() as int;
    assert(a =~= a.subrange(0, cut) + a.subrange(cut, n));
    assert(b =~= b.subrange(0, cut) + b.subrange(cut, n));
    assert(a.subrange(cut, n) =~= b.subrange(cut, n));
    let ap = a.subrange(0, cut).to_multiset();
    let bp = b.subrange(0, cut).to_multiset();
    let sf = a.subrange(cut, n).to_multiset();
    assert(ap.add(sf) =~= bp.add(sf));
    assert forall|e: u64| #[trigger] ap.count(e) == bp.count(e) by {
        assert(ap.add(sf).count(e) == ap.count(e) + sf.count(e));
        assert(bp.add(sf).count(e) == bp.count(e) + sf.count(e));
    }
    assert(ap =~= bp);
}

/// After a permutation of the prefix that leaves the rest alone, every
/// prefix element still lies below any bound the old prefix respected.
proof fn lemma_prefix_bounded(vnow: Seq<u64>, before: Seq<u64>, bound: u64, cut: int)
    requires
        vnow.len() == before.len(),
        0 <= cut <= vnow.len(),
        vnow.to_multiset() == before.to_multiset(),
        forall|k: int| cut <= k < vnow.len() ==> vnow[k] == before[k],
        forall|j: int| 0 <= j < cut ==> #[trigger] before[j] <= bound,
    ensures
        forall|x: int| 0 <= x < cut ==> #[trigger] vnow[x] <= bound,
{
    broadcast use vstd::seq_lib::group_to_multiset_ensures;

    lemma_prefix_multiset(vnow, before, cut);
    assert forall|x: int| 0 <= x < cut implies #[trigger] vnow[x] <= bound by {
        let pre = vnow.subrange(0, cut);
        assert(pre[x] == vnow[x]);
        assert(pre.contains(vnow[x]));
        assert(pre.to_multiset().count(vnow[x]) > 0);
        assert(before.subrange(0, cut).to_multiset().count(vnow[x]) > 0);
        assert(before.subrange(0, cut).contains(vnow[x]));
        let j = choose|j: int| 0 <= j < cut && #[trigger] before.subrange(0, cut)[j] == vnow[x];
        assert(before[j] == vnow[x]);
    }
}

/// The part of the vector from `end` on is sorted.
pub open spec fn tail_sorted(s: Seq<u64>, end: int) -> bool {
    forall|x: int, y: int| end <= x < y < s.len() ==> s[x] <= s[y]
}

/// Every element before `end` is at most every element from `end` on.
pub open spec fn tail_dominated(s: Seq<u64>, end: int) -> bool {
    forall|x: int, y: int| 0 <= x < end <= y < s.len() ==> #[trigger] s[x] <= #[trigger] s[y]
}

/// After the root is swapped behind the heap prefix and the prefix is
/// repaired by a permutation of its elements, the shrunk prefix is still
/// dominated by the tail, which is still sorted.
proof fn lemma_pop_max_orders(vn: Seq<u64>, s2: Seq<u64>, s0: Seq<u64>, end: int)
    requires
        2 <= end <= s0.len(),
        vn.len() == s0.len(),
        s2.len() == s0.len(),
        s2[0] == s0[end - 1],
        s2[end - 1] == s0[0],
        forall|k: int| 0 <= k < s2.len() && k != 0 && k != end - 1 ==> s2[k] == s0[k],
        forall|j: int| 0 <= j < end ==> #[trigger] s0[j] <= s0[0],
        vn.to_multiset() == s2.to_multiset(),
        forall|k: int| end - 1 <= k < vn.len() ==> vn[k] == s2[k],
        tail_dominated(s0, end),
        tail_sorted(s0, end),
    ensures
        tail_dominated(vn, end - 1),
        tail_sorted(vn, end - 1),
{
    let n = vn.len() as int;
    assert forall|j: int| 0 <= j < end - 1 implies #[trigger] s2[j] <= s0[0] by {
        if j == 0 {
            assert(s2[0] == s0[end - 1]);
        } else {
            assert(s2[j] == s0[j]);
        }
    }
    lemma_prefix_bounded(vn, s2, s0[0], end - 1);
    assert(vn[end - 1] == s2[end - 1]);
    assert forall|x: int, y: int|
        0 <= x < end - 1 <= y < n implies #[trigger] vn[x] <= #[trigger] vn[y] by {
        if y == end - 1 {
            assert(vn[y] == s0[0]);
        } else {
            assert(vn[y] == s2[y]);
            assert(s2[y] == s0[y]);
            assert(s0[0] <= s0[y]);
        }
    }
    assert forall|x: int, y: int| end - 1 <= x < y < n implies vn[x] <= vn[y] by {
        if x == end - 1 {
            assert(vn[x] == s0[0]);
            assert(vn[y] == s2[y] && s2[y] == s0[y]);
            assert(s0[0] <= s0[y]);
        } else {
            assert(vn[x] == s2[x] && s2[x] == s0[x]);
            assert(vn[y] == s2[y] && s2[y] == s0[y]);
        }
    }
}

/// One round of heap sort: move the heap maximum to position `end - 1`
/// and repair the one-shorter heap prefix.
#[verifier::rlimit(100)]
fn pop_max_step(v: &mut Vec<u64>, end: usize)
    requires
        2 <= end <= old(v)@.len(),
        is_heap_to(old(v)@, end as int),
        tail_dominated(old(v)@, end as int),
        tail_sorted(old(v)@, end as int),
    ensures
        final(v)@.len() == old(v)@.len(),
        final(v)@.to_multiset() == old(v)@.to_multiset(),
        is_heap_to(final(v)@, end - 1),
        tail_dominated(final(v)@, end - 1),
        tail_sorted(final(v)@, end - 1),
{
    let n = v.len();
    proof {
        assert forall|c: int| 0 <= c < end implies #[trigger] v@[c] <= v@[0] by {
            lemma_heap_root_max(v@, end as int, c);
        }
    }
    swap_elems(v, 0, end - 1);
    let ghost s2 = v@;
    proof {
        assert forall|c: int|
            1 <= c < end - 1 && (c - 1) / 2 >= 1 implies #[trigger] v@[c] <= v@[(c - 1) / 2] by {
            assert(v@[c] == old(v)@[c] && v@[(c - 1) / 2] == old(v)@[(c - 1) / 2]);
        }
        lemma_sift_root_pre(v@, end - 1);
    }
    bubble_down(v, 0, end - 1);
    proof {
        lemma_sift_root_post(v@, end - 1);
        lemma_pop_max_orders(v@, s2, old(v)@, end as int);
    }
}

/// Pop the heap maximum to the end of the heap prefix, shrink the prefix,
/// repair it, and repeat until the whole vector is sorted. The part from
/// `end` on must already be sorted and dominate the heap prefix.
pub fn swap_and_repair(v: &mut Vec<u64>, end: usize)
    requires
        end <= old(v)@.len(),
        is_heap_to(old(v)@, end as int),
        tail_dominated(old(v)@, end as int),
        tail_sorted(old(v)@, end as int),
    ensures
        final(v)@.len() == old(v)@.len(),
        final(v)@.to_multiset() == old(v)@.to_multiset(),
        sorted_asc(final(v)@),
    decreases end,
{
    let n = v.len();
    if end < 2 {
        proof {
            assert forall|x: int, y: int| 0 <= x < y < n implies v@[x] <= v@[y] by {
                if x < end {
                    assert(v@[x] <= v@[y]);
                }
            }
        }
        return ;
    }
    pop_max_step(v, end);
    swap_and_repair(v, end - 1);
}

/// Heap sort, packaged under the name the module gives it: build a
/// max-heap, then repeatedly move the maximum behind the shrinking heap.
pub struct SelectionSort;

impl SelectionSort {
    /// Sort the vector in non-decreasing order; the contents, as a
    /// multiset, do not change.
    pub fn sort(v: &mut Vec<u64>)
        ensures
            final(v)@.len() == old(v)@.len(),
            sorted_asc(final(v)@),
            final(v)@.to_multiset() == old(v)@.to_multiset(),
    {
        build(v);
        let end = v.len();
        swap_and_repair(v, end);
    }
}

} // verus!
