use vstd::prelude::*;

use crate::sort::sorted_asc;

verus! {

/// Binary search for an element in a sorted slice.
///
/// Returns `Ok(i)` with `slice[i] == el` exactly when the element occurs,
/// and otherwise `Err(insertion_index)`: the index at which the element
/// could be inserted so that the slice stays sorted (everything before it
/// is smaller, everything from it on is greater).
pub fn binary_search(sorted: &[u64], el: &u64) -> (r: Result<usize, usize>)
    requires
        sorted_asc(sorted@),
    ensures
        r is Ok <==> sorted@.contains(*el),
        r matches Ok(i) ==> i < sorted@.len() && sorted@[i as int] == *el,
        r matches Err(i) ==> i <= sorted@.len() && (forall|k: int|
            0 <= k < i ==> sorted@[k] < *el) && (forall|k: int|
            i <= k < sorted@.len() ==> sorted@[k] > *el),
{
    let mut left: usize = 0;
    let mut size: usize = sorted.len();
    let mut right: usize = size;

    while left < right
        invariant
            sorted_asc(sorted@),
            left <= right <= sorted@.len(),
            size == right - left,
            forall|k: int| 0 <= k < left ==> sorted@[k] < *el,
            forall|k: int| right <= k < sorted@.len() ==> sorted@[k] > *el,
        decreases right - left,
    {
        let mid = left + size / 2;
        let m = sorted[mid];
        if *el < m {
            right = mid;
        }
        if m < *el {
            left = mid + 1;
        }
        if m == *el {
            proof {
                assert(sorted@[mid as int] == *el);
            }
            return Ok(mid);
        }
        size = right - left;
    }
    proof {
        if sorted@.contains(*el) {
            let k = choose|k: int| 0 <= k < sorted@.len() && sorted@[k] == *el;
            assert(k < left || right <= k);
            assert(false);
        }
    }
    Err(left)
}

} // verus!
