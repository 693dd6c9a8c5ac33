use vstd::prelude::*;

use crate::sort::sorted_asc;

verus! {

/// Merge two sorted vectors into one sorted vector holding the contents
/// of both: repeatedly take the smaller head, then copy whatever is left.
pub fn merge(left: &Vec<u64>, right: &Vec<u64>) -> (out: Vec<u64>)
    requires
        sorted_asc(left@),
        sorted_asc(right@),
    ensures
        out@.len() == left@.len() + right@.len(),
        sorted_asc(out@),
        out@.to_multiset() == left@.to_multiset().add(right@.to_multiset()),
{
    broadcast use vstd::seq_lib::group_to_multiset_ensures;
    broadcast use vstd::seq_lib::lemma_multiset_commutative;

    let mut out: Vec<u64> = Vec::new();
    let mut i: usize = 0;
    let mut j: usize = 0;
    let ln = left.len();
    let rn = right.len();
    proof {
        assert(left@.subrange(0, 0) =~= Seq::<u64>::empty());
        assert(right@.subrange(0, 0) =~= Seq::<u64>::empty());
        assert(out@.to_multiset() =~= left@.subrange(0, 0).to_multiset().add(
            right@.subrange(0, 0).to_multiset(),
        ));
    }
    while i < ln || j < rn
        invariant
            ln == left@.len(),
            rn == right@.len(),
            sorted_asc(left@),
            sorted_asc(right@),
            i <= ln,
            j <= rn,
            out@.len() == i + j,
            sorted_asc(out@),
            out@.to_multiset() == left@.subrange(0, i as int).to_multiset().add(
                right@.subrange(0, j as int).to_multiset(),
            ),
            forall|k: int| 0 <= k < out@.len() && i < ln ==> #[trigger] out@[k] <= left@[i as int],
            forall|k: int| 0 <= k < out@.len() && j < rn ==> #[trigger] out@[k] <= right@[j as int],
        decreases ln + rn - i - j,
    {
        let ghost out_prev = out@;
        let take_left = if i < ln && j < rn {
            left[i] <= right[j]
        } else {
            i < ln
        };
        if take_left {
            out.push(left[i]);
            proof {
                broadcast use vstd::seq_lib::group_to_multiset_ensures;

                assert(left@.subrange(0, i + 1) =~= left@.subrange(0, i as int).push(left@[
                    i as int]));
                assert(out@ == out_prev.push(left@[i as int]));
                assert(out@.to_multiset() =~= left@.subrange(0, i + 1).to_multiset().add(
                    right@.subrange(0, j as int).to_multiset(),
                ));
            }
            i = i + 1;
        } else {
            out.push(right[j]);
            proof {
                broadcast use vstd::seq_lib::group_to_multiset_ensures;

                assert(right@.subrange(0, j + 1) =~= right@.subrange(0, j as int).push(right@[
                    j as int]));
                assert(out@ == out_prev.push(right@[j as int]));
                assert(out@.to_multiset() =~= left@.subrange(0, i as int).to_multiset().add(
                    right@.subrange(0, j + 1).to_multiset(),
                ));
            }
            j = j + 1;
        }
    }
    proof {
        assert(left@.subrange(0, ln as int) =~= left@);
        assert(right@.subrange(0, rn as int) =~= right@);
    }
    out
}

/// Merge sort: split the vector in half, sort each half, and merge.
pub struct MergeSort;

impl MergeSort {
    /// Sort the vector in non-decreasing order; the contents, as a
    /// multiset, do not change.
    pub fn sort(v: &mut Vec<u64>)
        ensures
            final(v)@.len() == old(v)@.len(),
            sorted_asc(final(v)@),
            final(v)@.to_multiset() == old(v)@.to_multiset(),
    {
        let r = mergesort(v);
        *v = r;
    }
}

/// The sorted copy of a vector, by recursive splitting and merging.
fn mergesort(v: &Vec<u64>) -> (r: Vec<u64>)
    ensures
        r@.len() == v@.len(),
        sorted_asc(r@),
        r@.to_multiset() == v@.to_multiset(),
    decreases v@.len(),
{
    broadcast use vstd::seq_lib::lemma_multiset_commutative;

    let n = v.len();
    let mut work = clone_of(v);
    if n <= 1 {
        return work;
    }
    let second = work.split_off(n / 2);
    proof {
        assert(work@ + second@ =~= v@);
    }
    let left_sorted = mergesort(&work);
    let right_sorted = mergesort(&second);
    let r = merge(&left_sorted, &right_sorted);
    proof {
        assert((work@ + second@).to_multiset() =~= work@.to_multiset().add(second@.to_multiset()));
    }
    r
}

/// An element-wise copy of the vector.
fn clone_of(v: &Vec<u64>) -> (r: Vec<u64>)
    ensures
        r@ == v@,
{
    let mut r: Vec<u64> = Vec::new();
    let mut i: usize = 0;
    while i < v.len()
        invariant
            i <= v@.len(),
            r@ =~= v@.subrange(0, i as int),
        decreases v@.len() - i,
    {
        r.push(v[i]);
        i = i + 1;
    }
    proof {
        assert(r@ =~= v@);
    }
    r
}

} // verus!
