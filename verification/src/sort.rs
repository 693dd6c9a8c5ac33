use vstd::prelude::*;

pub mod bubblesort;
pub mod heapsort;
pub mod insertionsort;
pub mod mergesort;
pub mod quicksort;
pub mod selectionsort;

verus! {

/// The sequence is sorted in non-decreasing order.
pub open spec fn sorted_asc(s: Seq<u64>) -> bool {
    forall|i: int, j: int| 0 <= i < j < s.len() ==> s[i] <= s[j]
}

/// A sequence whose adjacent pairs are ordered is sorted.
pub proof fn lemma_adjacent_implies_sorted(s: Seq<u64>)
    requires
        forall|i: int| 0 <= i < s.len() - 1 ==> #[trigger] s[i] <= s[i + 1],
    ensures
        sorted_asc(s),
{
    assert forall|i: int, j: int| 0 <= i < j < s.len() implies s[i] <= s[j] by {
        lemma_ordered_prefix(s, i, j);
    }
}

proof fn lemma_ordered_prefix(s: Seq<u64>, i: int, j: int)
    requires
        forall|k: int| 0 <= k < s.len() - 1 ==> #[trigger] s[k] <= s[k + 1],
        0 <= i < j < s.len(),
    ensures
        s[i] <= s[j],
    decreases j - i,
{
    if j == i + 1 {
        assert(s[i] <= s[i + 1]);
    } else {
        lemma_ordered_prefix(s, i, j - 1);
        assert(s[j - 1] <= s[j - 1 + 1]);
    }
}

/// Exchange the elements at `a` and `b`; the contents, as a multiset, do
/// not change.
pub(crate) fn swap_elems(v: &mut Vec<u64>, a: usize, b: usize)
    requires
        a < old(v)@.len(),
        b < old(v)@.len(),
    ensures
        final(v)@.len() == old(v)@.len(),
        final(v)@[a as int] == old(v)@[b as int],
        final(v)@[b as int] == old(v)@[a as int],
        forall|k: int| 0 <= k < final(v)@.len() && k != a && k != b ==> final(v)@[k] == old(v)@[k],
        final(v)@.to_multiset() == old(v)@.to_multiset(),
{
    let ghost s0 = v@;
    let x = v[a];
    let y = v[b];
    v.set(a, y);
    v.set(b, x);
    proof {
        broadcast use vstd::seq_lib::to_multiset_update;
        broadcast use vstd::seq_lib::group_to_multiset_ensures;

        if a == b {
            assert(v@ =~= s0);
        } else {
            assert(v@ =~= s0.update(a as int, s0[b as int]).update(b as int, s0[a as int]));
            let m1 = s0.update(a as int, s0[b as int]).to_multiset();
            assert(m1 == s0.to_multiset().insert(s0[b as int]).remove(s0[a as int]));
            assert(s0.update(a as int, s0[b as int])[b as int] == s0[b as int]);
            assert(v@.to_multiset() == m1.insert(s0[a as int]).remove(s0[b as int]));
            assert(s0.to_multiset().contains(s0[a as int]));
            assert(s0.to_multiset().contains(s0[b as int]));
            assert(v@.to_multiset() =~= s0.to_multiset());
        }
    }
}

} // verus!
