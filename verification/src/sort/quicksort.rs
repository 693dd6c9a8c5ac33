use vstd::prelude::*;

use crate::sort::{sorted_asc, swap_elems};

verus! {

/// The median of three values.
pub open spec fn median3(a: u64, b: u64, c: u64) -> u64 {
    if a <= b {
        if b <= c {
            b
        } else if c <= a {
            a
        } else {
            c
        }
    } else {
        if a <= c {
            a
        } else if c <= b {
            b
        } else {
            c
        }
    }
}

/// Swap the median of the first, middle and last element into the first
/// position, where it serves as the pivot; this balances the choice of
/// pivot. Exactly one swap with position 0 happens: the result is the
/// input with position 0 exchanged against the position the median came
/// from, every other position untouched.
pub fn put_pivot_at_first(v: &mut Vec<u64>)
    requires
        old(v)@.len() >= 1,
    ensures
        final(v)@.len() == old(v)@.len(),
        final(v)@.to_multiset() == old(v)@.to_multiset(),
        final(v)@[0] == median3(
            old(v)@[0],
            old(v)@[old(v)@.len() as int / 2],
            old(v)@[old(v)@.len() - 1],
        ),
        exists|x: int|
            #![auto]
            (x == 0 || x == old(v)@.len() as int / 2 || x == old(v)@.len() - 1) && final(v)@
                == old(v)@.update(0, old(v)@[x]).update(x, old(v)@[0]),
{
    let len = v.len();
    let first: usize = 0;
    let last = len - 1;
    let mid = len / 2;

    let index = if v[first] <= v[mid] {
        if v[mid] <= v[last] {
            mid
        } else if v[last] <= v[first] {
            first
        } else {
            last
        }
    } else {
        if v[first] <= v[last] {
            first
        } else if v[last] <= v[mid] {
            mid
        } else {
            last
        }
    };

    swap_elems(v, 0, index);
    proof {
        assert(v@ =~= old(v)@.update(0, old(v)@[index as int]).update(index as int, old(v)@[0]));
    }
}

/// Quicksort around a median-of-three pivot: split off the elements at
/// most the pivot and those above it, sort each part, and join them back
/// around the pivot.
pub fn quicksort(v: &mut Vec<u64>)
    ensures
        final(v)@.len() == old(v)@.len(),
        sorted_asc(final(v)@),
        final(v)@.to_multiset() == old(v)@.to_multiset(),
    decreases old(v)@.len(),
{
    broadcast use vstd::seq_lib::group_to_multiset_ensures;
    broadcast use vstd::seq_lib::lemma_multiset_commutative;

    if v.len() <= 1 {
        return ;
    }

    put_pivot_at_first(v);
    let ghost s1 = v@;
    let pivot = v[0];
    let n = v.len();

    let mut lower: Vec<u64> = Vec::new();
    let mut upper: Vec<u64> = Vec::new();
    let mut i: usize = 1;
    while i < n
        invariant
            n == v@.len(),
            v@ == s1,
            pivot == s1[0],
            1 <= i <= n,
            lower@.to_multiset().add(upper@.to_multiset()) =~= s1.subrange(1, i as int).to_multiset(),
            lower@.len() + upper@.len() == i - 1,
            forall|k: int| 0 <= k < lower@.len() ==> #[trigger] lower@[k] <= pivot,
            forall|k: int| 0 <= k < upper@.len() ==> #[trigger] upper@[k] > pivot,
        decreases n - i,
    {
        proof {
            broadcast use vstd::seq_lib::group_to_multiset_ensures;

            assert(s1.subrange(1, i + 1) =~= s1.subrange(1, i as int).push(s1[i as int]));
            assert(s1.subrange(1, i + 1).to_multiset() =~= s1.subrange(
                1,
                i as int,
            ).to_multiset().insert(s1[i as int]));
        }
        let ghost lower_prev = lower@;
        let ghost upper_prev = upper@;
        if v[i] <= pivot {
            lower.push(v[i]);
            proof {
                broadcast use vstd::seq_lib::group_to_multiset_ensures;

                assert(lower@ == lower_prev.push(s1[i as int]));
                assert(lower_prev.push(s1[i as int]).to_multiset() =~= lower_prev.to_multiset().insert(
                    s1[i as int],
                ));
                assert(lower@.to_multiset() =~= lower_prev.to_multiset().insert(s1[i as int]));
                assert(lower@.to_multiset().add(upper@.to_multiset()) =~= s1.subrange(
                    1,
                    i + 1,
                ).to_multiset());
            }
        } else {
            upper.push(v[i]);
            proof {
                broadcast use vstd::seq_lib::group_to_multiset_ensures;

                assert(upper@ == upper_prev.push(s1[i as int]));
                assert(upper_prev.push(s1[i as int]).to_multiset() =~= upper_prev.to_multiset().insert(
                    s1[i as int],
                ));
                assert(upper@.to_multiset() =~= upper_prev.to_multiset().insert(s1[i as int]));
                assert(lower@.to_multiset().add(upper@.to_multiset()) =~= s1.subrange(
                    1,
                    i + 1,
                ).to_multiset());
            }
        }
        i = i + 1;
    }
    let ghost lower0 = lower@;
    let ghost upper0 = upper@;
    quicksort(&mut lower);
    quicksort(&mut upper);
    proof {
        assert forall|k: int| 0 <= k < lower@.len() implies #[trigger] lower@[k] <= pivot by {
            assert(lower@.contains(lower@[k]));
            assert(lower@.to_multiset().count(lower@[k]) > 0);
            assert(lower0.to_multiset().count(lower@[k]) > 0);
            assert(lower0.contains(lower@[k]));
            let j = choose|j: int| 0 <= j < lower0.len() && lower0[j] == lower@[k];
            assert(lower0[j] <= pivot);
        }
        assert forall|k: int| 0 <= k < upper@.len() implies #[trigger] upper@[k] > pivot by {
            assert(upper@.contains(upper@[k]));
            assert(upper@.to_multiset().count(upper@[k]) > 0);
            assert(upper0.to_multiset().count(upper@[k]) > 0);
            assert(upper0.contains(upper@[k]));
            let j = choose|j: int| 0 <= j < upper0.len() && upper0[j] == upper@[k];
            assert(upper0[j] > pivot);
        }
    }
    let mut result = lower;
    result.push(pivot);
    let mut upper_moved = upper;
    result.append(&mut upper_moved);
    proof {
        let lw = lower0.to_multiset().len() as int;
        assert(result@ =~= lower@.push(pivot) + upper@);
        assert(lower@.push(pivot) =~= lower@ + seq![pivot]);
        assert(seq![pivot].to_multiset() =~= Seq::<u64>::empty().push(pivot).to_multiset());
        assert(result@.to_multiset() =~= s1.to_multiset()) by {
            assert(result@ =~= (lower@ + seq![pivot]) + upper@);
            assert(result@.to_multiset() =~= lower@.to_multiset().add(
                seq![pivot].to_multiset(),
            ).add(upper@.to_multiset()));
            assert(s1 =~= seq![pivot] + s1.subrange(1, n as int));
            assert(s1.to_multiset() =~= seq![pivot].to_multiset().add(
                s1.subrange(1, n as int).to_multiset(),
            ));
        }
        assert forall|x: int, y: int|
            0 <= x < y < result@.len() implies result@[x] <= result@[y] by {
            let ll = lower@.len() as int;
            if y <= ll - 1 {
                assert(lower@[x] <= lower@[y]);
            } else if y == ll {
                if x < ll {
                    assert(result@[x] == lower@[x]);
                }
            } else {
                assert(result@[y] == upper@[y - ll - 1]);
                assert(result@[y] > pivot);
                if x < ll {
                    assert(result@[x] == lower@[x] && lower@[x] <= pivot);
                } else if x == ll {
                    assert(result@[x] == pivot);
                } else {
                    assert(result@[x] == upper@[x - ll - 1]);
                    assert(upper@[x - ll - 1] <= upper@[y - ll - 1]);
                }
            }
        }
    }
    *v = result;
}

/// Quicksort, packaged as a sorter.
pub struct QuickSort;

impl QuickSort {
    /// Sort the vector in non-decreasing order; the contents, as a
    /// multiset, do not change.
    pub fn sort(v: &mut Vec<u64>)
        ensures
            final(v)@.len() == old(v)@.len(),
            sorted_asc(final(v)@),
            final(v)@.to_multiset() == old(v)@.to_multiset(),
    {
        quicksort(v)
    }
}

} // verus!
