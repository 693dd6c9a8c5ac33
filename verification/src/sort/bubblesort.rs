use vstd::prelude::*;

use crate::sort::{lemma_adjacent_implies_sorted, sorted_asc, swap_elems};

verus! {

/// Bubble sort with the sorted part growing at the end: each pass bubbles
/// the largest remaining element up to the sink position, and the sort
/// stops early after a pass without swaps.
pub struct BubbleSort;

impl BubbleSort {
    /// Sort the vector in non-decreasing order; the contents, as a
    /// multiset, do not change.
    pub fn sort(v: &mut Vec<u64>)
        ensures
            final(v)@.len() == old(v)@.len(),
            sorted_asc(final(v)@),
            final(v)@.to_multiset() == old(v)@.to_multiset(),
    {
        let n = v.len();
        if n < 2 {
            return ;
        }
        let mut swapped = true;
        let mut sink: usize = n - 1;
        while sink > 0 && swapped
            invariant
                n == v@.len(),
                sink < n,
                v@.to_multiset() == old(v)@.to_multiset(),
                forall|x: int, y: int| 0 <= x < y < n && y > sink ==> v@[x] <= v@[y],
                !swapped ==> sorted_asc(v@),
            decreases sink,
        {
            swapped = false;
            let mut i: usize = 0;
            while i < sink
                invariant
                    n == v@.len(),
                    0 < sink < n,
                    i <= sink,
                    v@.to_multiset() == old(v)@.to_multiset(),
                    forall|x: int, y: int| 0 <= x < y < n && y > sink ==> v@[x] <= v@[y],
                    forall|k: int| 0 <= k <= i ==> v@[k] <= v@[i as int],
                    !swapped ==> (forall|k: int| 0 <= k < i ==> #[trigger] v@[k] <= v@[k + 1]),
                decreases sink - i,
            {
                if v[i] > v[i + 1] {
                    swap_elems(v, i, i + 1);
                    swapped = true;
                }
                i = i + 1;
            }
            proof {
                if !swapped {
                    assert forall|k: int| 0 <= k < n - 1 implies #[trigger] v@[k] <= v@[k + 1] by {
                        if k >= sink {
                            assert(v@[k] <= v@[k + 1]);
                        }
                    }
                    lemma_adjacent_implies_sorted(v@);
                }
                assert forall|x: int, y: int|
                    0 <= x < y < n && y > sink - 1 implies v@[x] <= v@[y] by {
                    if y == sink {
                        assert(v@[x] <= v@[sink as int]);
                    }
                }
            }
            sink = sink - 1;
        }
        proof {
            if sink == 0 {
                assert forall|x: int, y: int| 0 <= x < y < n implies v@[x] <= v@[y] by {
                    assert(y > 0);
                }
            }
        }
    }
}

/// Bubble sort with the sorted part growing at the beginning: each pass
/// bubbles the smallest remaining element down to the sink position.
pub struct BubbleSortWithSinkAtTheBeginning;

impl BubbleSortWithSinkAtTheBeginning {
    /// Sort the vector in non-decreasing order; the contents, as a
    /// multiset, do not change.
    pub fn sort(v: &mut Vec<u64>)
        ensures
            final(v)@.len() == old(v)@.len(),
            sorted_asc(final(v)@),
            final(v)@.to_multiset() == old(v)@.to_multiset(),
    {
        let n = v.len();
        if n < 2 {
            return ;
        }
        let mut sink: usize = 0;
        let mut swapped = true;
        while sink < n && swapped
            invariant
                n == v@.len(),
                n >= 2,
                sink <= n,
                v@.to_multiset() == old(v)@.to_multiset(),
                forall|x: int, y: int| 0 <= x < y < n && x < sink ==> v@[x] <= v@[y],
                !swapped ==> sorted_asc(v@),
            decreases n - sink,
        {
            swapped = false;
            let mut i: usize = n - 1;
            while i > sink
                invariant
                    n == v@.len(),
                    sink < n,
                    sink <= i < n,
                    v@.to_multiset() == old(v)@.to_multiset(),
                    forall|x: int, y: int| 0 <= x < y < n && x < sink ==> v@[x] <= v@[y],
                    forall|k: int| i <= k < n ==> v@[i as int] <= v@[k],
                    !swapped ==> (forall|k: int| i <= k < n - 1 ==> #[trigger] v@[k] <= v@[k + 1]),
                decreases i,
            {
                if v[i] < v[i - 1] {
                    swap_elems(v, i - 1, i);
                    swapped = true;
                }
                i = i - 1;
            }
            proof {
                if !swapped {
                    assert forall|k: int| 0 <= k < n - 1 implies #[trigger] v@[k] <= v@[k + 1] by {
                        if k < sink {
                            assert(v@[k] <= v@[k + 1]);
                        }
                    }
                    lemma_adjacent_implies_sorted(v@);
                }
                assert forall|x: int, y: int|
                    0 <= x < y < n && x < sink + 1 implies v@[x] <= v@[y] by {
                    if x == sink {
                        assert(v@[sink as int] <= v@[y]);
                    }
                }
            }
            sink = sink + 1;
        }
    }
}

/// Bubble sort that first orders the vector in non-increasing order and
/// then reverses it in place.
pub struct BubbleSortDescending;

impl BubbleSortDescending {
    /// Sort the vector in non-decreasing order; the contents, as a
    /// multiset, do not change.
    pub fn sort(v: &mut Vec<u64>)
        ensures
            final(v)@.len() == old(v)@.len(),
            sorted_asc(final(v)@),
            final(v)@.to_multiset() == old(v)@.to_multiset(),
    {
        let n = v.len();
        if n < 2 {
            return ;
        }
        let mut sink: usize = n - 1;
        let mut swapped = true;
        while sink > 0 && swapped
            invariant
                n == v@.len(),
                sink < n,
                v@.to_multiset() == old(v)@.to_multiset(),
                forall|x: int, y: int| 0 <= x < y < n && y > sink ==> v@[x] >= v@[y],
                !swapped ==> (forall|x: int, y: int| 0 <= x < y < n ==> v@[x] >= v@[y]),
            decreases sink,
        {
            swapped = false;
            let mut i: usize = 0;
            while i < sink
                invariant
                    n == v@.len(),
                    0 < sink < n,
                    i <= sink,
                    v@.to_multiset() == old(v)@.to_multiset(),
                    forall|x: int, y: int| 0 <= x < y < n && y > sink ==> v@[x] >= v@[y],
                    forall|k: int| 0 <= k <= i ==> v@[k] >= v@[i as int],
                    !swapped ==> (forall|k: int| 0 <= k < i ==> #[trigger] v@[k] >= v@[k + 1]),
                decreases sink - i,
            {
                if v[i] < v[i + 1] {
                    swap_elems(v, i, i + 1);
                    swapped = true;
                }
                i = i + 1;
            }
            proof {
                if !swapped {
                    assert forall|x: int, y: int| 0 <= x < y < n implies v@[x] >= v@[y] by {
                        lemma_desc_prefix(v@, x, y);
                    }
                }
                assert forall|x: int, y: int|
                    0 <= x < y < n && y > sink - 1 implies v@[x] >= v@[y] by {
                    if y == sink {
                        assert(v@[x] >= v@[sink as int]);
                    }
                }
            }
            sink = sink - 1;
        }
        proof {
            assert forall|x: int, y: int| 0 <= x < y < n implies v@[x] >= v@[y] by {
                if sink == 0 {
                    assert(y > 0);
                }
            }
        }
        let ghost s_desc = v@;
        let mut l: usize = 0;
        let mut r: usize = n - 1;
        while l < r
            invariant
                n == v@.len(),
                l + r == n - 1,
                l <= n,
                v@.to_multiset() == old(v)@.to_multiset(),
                forall|x: int, y: int| 0 <= x < y < n ==> s_desc[x] >= s_desc[y],
                forall|k: int| 0 <= k < l ==> v@[k] == s_desc[n - 1 - k],
                forall|k: int| r < k < n ==> v@[k] == s_desc[n - 1 - k],
                forall|k: int| l <= k <= r ==> v@[k] == s_desc[k],
            decreases r,
        {
            swap_elems(v, l, r);
            l = l + 1;
            r = r - 1;
        }
        proof {
            assert forall|x: int, y: int| 0 <= x < y < n implies v@[x] <= v@[y] by {
                assert(v@[x] == s_desc[n - 1 - x]);
                assert(v@[y] == s_desc[n - 1 - y]);
            }
        }
    }
}

proof fn lemma_desc_prefix(s: Seq<u64>, i: int, j: int)
    requires
        forall|k: int| 0 <= k < s.len() - 1 ==> #[trigger] s[k] >= s[k + 1],
        0 <= i < j < s.len(),
    ensures
        s[i] >= s[j],
    decreases j - i,
{
    if j == i + 1 {
        assert(s[i] >= s[i + 1]);
    } else {
        lemma_desc_prefix(s, i, j - 1);
        assert(s[j - 1] >= s[j - 1 + 1]);
    }
}

} // verus!
