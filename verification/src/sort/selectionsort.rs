use vstd::prelude::*;

use crate::sort::{sorted_asc, swap_elems};

verus! {

/// Selection sort: repeatedly pick the least element of the unsorted
/// suffix and append it to the sorted prefix.
pub struct SelectionSort;

impl SelectionSort {
    /// Sort the vector in non-decreasing order; the contents, as a
    /// multiset, do not change.
    pub fn sort(v: &mut Vec<u64>)
        ensures
            final(v)@.len() == old(v)@.len(),
            sorted_asc(final(v)@),
            final(v)@.to_multiset() == old(v)@.to_multiset(),
    {
        let n = v.len();
        if n < 2 {
            return ;
        }
        let mut unsorted: usize = 0;
        while unsorted < n
            invariant
                n == v@.len(),
                unsorted <= n,
                v@.to_multiset() == old(v)@.to_multiset(),
                forall|x: int, y: int| 0 <= x < y < unsorted ==> v@[x] <= v@[y],
                forall|x: int, y: int|
                    0 <= x < unsorted && unsorted <= y < n ==> v@[x] <= v@[y],
            decreases n - unsorted,
        {
            let mut min: usize = unsorted;
            let mut i: usize = unsorted + 1;
            while i < n
                invariant
                    n == v@.len(),
                    unsorted < n,
                    unsorted <= min < i,
                    i <= n,
                    forall|k: int| unsorted <= k < i ==> v@[min as int] <= v@[k],
                decreases n - i,
            {
                if v[min] > v[i] {
                    min = i;
                }
                i = i + 1;
            }
            swap_elems(v, unsorted, min);
            unsorted = unsorted + 1;
        }
    }
}

} // verus!
