use vstd::prelude::*;

use crate::search::binary_search::binary_search;
use crate::sort::{sorted_asc, swap_elems};

verus! {

/// Move the element at `unsorted` down to position `ip` by adjacent swaps,
/// shifting the elements in between one place up. Given a sorted prefix
/// and an insertion point that splits it around the moved element, the
/// prefix grows by one while staying sorted.
fn shift_into_place(v: &mut Vec<u64>, ip: usize, unsorted: usize)
    requires
        ip <= unsorted < old(v)@.len(),
        forall|x: int, y: int| 0 <= x < y < unsorted ==> old(v)@[x] <= old(v)@[y],
        forall|k: int| 0 <= k < ip ==> old(v)@[k] <= old(v)@[unsorted as int],
        forall|k: int| ip <= k < unsorted ==> old(v)@[k] >= old(v)@[unsorted as int],
    ensures
        final(v)@.len() == old(v)@.len(),
        final(v)@.to_multiset() == old(v)@.to_multiset(),
        forall|k: int| unsorted < k < final(v)@.len() ==> final(v)@[k] == old(v)@[k],
        forall|x: int, y: int| 0 <= x < y <= unsorted ==> final(v)@[x] <= final(v)@[y],
{
    let ghost s0 = old(v)@;
    let mut t: usize = unsorted;
    while t > ip
        invariant
            ip <= t <= unsorted < v@.len(),
            v@.len() == s0.len(),
            v@.to_multiset() == s0.to_multiset(),
            forall|x: int, y: int| 0 <= x < y < unsorted ==> s0[x] <= s0[y],
            forall|k: int| 0 <= k < ip ==> s0[k] <= s0[unsorted as int],
            forall|k: int| ip <= k < unsorted ==> s0[k] >= s0[unsorted as int],
            forall|k: int| 0 <= k < t ==> v@[k] == s0[k],
            v@[t as int] == s0[unsorted as int],
            forall|k: int| t < k <= unsorted ==> v@[k] == s0[k - 1],
            forall|k: int| unsorted < k < v@.len() ==> v@[k] == s0[k],
        decreases t,
    {
        swap_elems(v, t, t - 1);
        t = t - 1;
    }
    proof {
        assert forall|x: int, y: int| 0 <= x < y <= unsorted implies v@[x] <= v@[y] by {
            if y < ip {
                assert(v@[x] == s0[x] && v@[y] == s0[y]);
            } else if y == ip {
                assert(v@[x] == s0[x] && v@[y] == s0[unsorted as int]);
            } else if x < ip {
                assert(v@[x] == s0[x] && v@[y] == s0[y - 1]);
            } else if x == ip {
                assert(v@[x] == s0[unsorted as int] && v@[y] == s0[y - 1]);
            } else {
                assert(v@[x] == s0[x - 1] && v@[y] == s0[y - 1]);
            }
        }
    }
}

/// Insertion sort that inserts each element by adjacent swaps, comparing
/// as it goes.
pub struct InsertionSortWithIndividualSwaps;

impl InsertionSortWithIndividualSwaps {
    /// Sort the vector in non-decreasing order; the contents, as a
    /// multiset, do not change.
    pub fn sort(v: &mut Vec<u64>)
        ensures
            final(v)@.len() == old(v)@.len(),
            sorted_asc(final(v)@),
            final(v)@.to_multiset() == old(v)@.to_multiset(),
    {
        let n = v.len();
        let mut unsorted: usize = 1;
        while unsorted < n
            invariant
                n == v@.len(),
                1 <= unsorted,
                n == 0 || unsorted <= n,
                v@.to_multiset() == old(v)@.to_multiset(),
                forall|x: int, y: int| 0 <= x < y < unsorted && y < n ==> v@[x] <= v@[y],
            decreases n - unsorted,
        {
            let mut i: usize = unsorted;
            while i > 0 && v[i] < v[i - 1]
                invariant
                    n == v@.len(),
                    unsorted < n,
                    i <= unsorted,
                    v@.to_multiset() == old(v)@.to_multiset(),
                    forall|x: int, y: int|
                        0 <= x < y <= unsorted && y != i ==> v@[x] <= v@[y],
                    forall|y: int| i < y <= unsorted ==> v@[i as int] <= v@[y],
                decreases i,
            {
                swap_elems(v, i, i - 1);
                i = i - 1;
            }
            proof {
                assert forall|x: int, y: int|
                    0 <= x < y <= unsorted implies v@[x] <= v@[y] by {
                    if y == i && i > 0 {
                        assert(v@[i - 1] <= v@[i as int]);
                        if x < i - 1 {
                            assert(v@[x] <= v@[i - 1]);
                        }
                    }
                }
            }
            unsorted = unsorted + 1;
        }
    }
}

/// Insertion sort that finds each insertion point with an upper-bound
/// binary search over the sorted prefix, then rotates the element into
/// place.
pub struct InsertionSortWithStdPartitionPointAndRotation;

impl InsertionSortWithStdPartitionPointAndRotation {
    /// Sort the vector in non-decreasing order; the contents, as a
    /// multiset, do not change.
    pub fn sort(v: &mut Vec<u64>)
        ensures
            final(v)@.len() == old(v)@.len(),
            sorted_asc(final(v)@),
            final(v)@.to_multiset() == old(v)@.to_multiset(),
    {
        let n = v.len();
        let mut unsorted: usize = 1;
        while unsorted < n
            invariant
                n == v@.len(),
                1 <= unsorted,
                n == 0 || unsorted <= n,
                v@.to_multiset() == old(v)@.to_multiset(),
                forall|x: int, y: int| 0 <= x < y < unsorted && y < n ==> v@[x] <= v@[y],
            decreases n - unsorted,
        {
            let unsorted_element = v[unsorted];
            let mut lo: usize = 0;
            let mut hi: usize = unsorted;
            while lo < hi
                invariant
                    n == v@.len(),
                    unsorted < n,
                    lo <= hi <= unsorted,
                    unsorted_element == v@[unsorted as int],
                    forall|x: int, y: int| 0 <= x < y < unsorted ==> v@[x] <= v@[y],
                    forall|k: int| 0 <= k < lo ==> v@[k] <= unsorted_element,
                    forall|k: int| hi <= k < unsorted ==> v@[k] > unsorted_element,
                decreases hi - lo,
            {
                let mid = lo + (hi - lo) / 2;
                if v[mid] <= unsorted_element {
                    lo = mid + 1;
                } else {
                    hi = mid;
                }
            }
            shift_into_place(v, lo, unsorted);
            unsorted = unsorted + 1;
        }
    }
}

/// Insertion sort that finds each insertion point with the library's own
/// binary search over the sorted prefix, then rotates the element into
/// place.
pub struct InsertionSortWithCustomBinarySearch;

impl InsertionSortWithCustomBinarySearch {
    /// Sort the vector in non-decreasing order; the contents, as a
    /// multiset, do not change.
    pub fn sort(v: &mut Vec<u64>)
        ensures
            final(v)@.len() == old(v)@.len(),
            sorted_asc(final(v)@),
            final(v)@.to_multiset() == old(v)@.to_multiset(),
    {
        let n = v.len();
        let mut unsorted: usize = 1;
        while unsorted < n
            invariant
                n == v@.len(),
                1 <= unsorted,
                n == 0 || unsorted <= n,
                v@.to_multiset() == old(v)@.to_multiset(),
                forall|x: int, y: int| 0 <= x < y < unsorted && y < n ==> v@[x] <= v@[y],
            decreases n - unsorted,
        {
            let unsorted_element = v[unsorted];
            let prefix: &[u64] = &v.as_slice()[0..unsorted];
            proof {
                assert(prefix@ =~= v@.subrange(0, unsorted as int));
            }
            let search_result = binary_search(prefix, &unsorted_element);
            let insertion_index = match search_result {
                Ok(index) => index,
                Err(index) => index,
            };
            proof {
                match search_result {
                    Ok(i) => {
                        assert(prefix@[i as int] == unsorted_element);
                        assert forall|k: int|
                            0 <= k < insertion_index implies v@[k] <= unsorted_element by {
                            if k < i {
                                assert(prefix@[k] <= prefix@[i as int]);
                            }
                            assert(prefix@[k] == v@[k]);
                        }
                        assert forall|k: int|
                            insertion_index <= k < unsorted implies v@[k]
                            >= unsorted_element by {
                            if k > i {
                                assert(prefix@[i as int] <= prefix@[k]);
                            }
                            assert(prefix@[k] == v@[k]);
                        }
                    },
                    Err(i) => {
                        assert forall|k: int|
                            0 <= k < insertion_index implies v@[k] <= unsorted_element by {
                            assert(prefix@[k] < unsorted_element);
                            assert(prefix@[k] == v@[k]);
                        }
                        assert forall|k: int|
                            insertion_index <= k < unsorted implies v@[k]
                            >= unsorted_element by {
                            assert(prefix@[k] > unsorted_element);
                            assert(prefix@[k] == v@[k]);
                        }
                    },
                }
            }
            shift_into_place(v, insertion_index, unsorted);
            unsorted = unsorted + 1;
        }
    }
}

} // verus!
