//! Sorting the in-memory buffer before a spill.
//!
//! The sequential sort is an insertion sort verified against the comparator's
//! order; the optional parallel sort hands the same job to rayon behind a
//! trusted wrapper with the same contract.

use rayon::slice::ParallelSliceMut;
use vstd::prelude::*;

use crate::order::Comparator;
use crate::order::is_strictly_after;
use crate::order::sorted_cmp;

verus! {

/// Sorts `v` ascending by `cmp` (insertion sort): the result is a sorted
/// rearrangement of the input. Quadratic in the buffer length, unlike the
/// pattern-defeating quicksort of the parallel path; its invariants are what
/// the correctness of every spilled segment rests on.
pub(crate) fn sort_buffer<T, C: Comparator<T>>(cmp: &C, v: &mut Vec<T>)
    ensures
        final(v)@.len() == old(v)@.len(),
        final(v)@.to_multiset() == old(v)@.to_multiset(),
        sorted_cmp(*cmp, final(v)@),
{
    broadcast use vstd::seq_lib::group_to_multiset_ensures;

    if v.len() <= 1 {
        return ;
    }
    let mut i: usize = 1;
    while i < v.len()
        invariant
            1 <= i <= v@.len(),
            v@.len() == old(v)@.len(),
            v@.to_multiset() == old(v)@.to_multiset(),
            sorted_cmp(*cmp, v@.take(i as int)),
        decreases v@.len() - i,
    {
        let ghost pre = v@;
        let mut j: usize = i;
        while j > 0 && is_strictly_after(cmp, &v[j - 1], &v[i])
            invariant
                0 <= j <= i < v@.len(),
                v@ == pre,
                forall|k: int| j <= k < i ==> cmp.le(v@[i as int], #[trigger] v@[k]),
            decreases j,
        {
            proof {
                cmp.le_total(pre[j - 1], pre[i as int]);
            }
            j = j - 1;
        }
        proof {
            if j > 0 {
                cmp.le_total(pre[j - 1], pre[i as int]);
                assert(cmp.le(pre[j - 1], pre[i as int]));
            }
        }
        let ghost x = pre[i as int];
        let moved = v.remove(i);
        v.insert(j, moved);
        proof {
            let w = v@;
            assert(w == pre.remove(i as int).insert(j as int, x));
            pre.remove_ensures(i as int);
            pre.remove(i as int).insert_ensures(j as int, x);
            // Where each element of the new prefix came from.
            assert(w[j as int] == x);
            assert(forall|k: int| 0 <= k < j ==> w[k] == pre[k]);
            assert(forall|k: int| j < k <= i ==> w[k] == pre[k - 1]);
            // The prefix of the invariant, restated over direct indices.
            let p = pre.take(i as int);
            assert forall|m: int, k: int| 0 <= m < k < i implies #[trigger] cmp.le(pre[m], pre[k]) by {
                assert(cmp.le(p[m], p[k]));
            }
            // The grown prefix is sorted.
            assert forall|m: int, k: int|
                0 <= m < k < i + 1 implies #[trigger] cmp.le(w.take(i + 1)[m], w.take(i + 1)[k]) by {
                assert(w.take(i + 1)[m] == w[m]);
                assert(w.take(i + 1)[k] == w[k]);
                if k < j {
                    assert(cmp.le(pre[m], pre[k]));
                } else if k == j {
                    if m < j - 1 {
                        cmp.le_trans(pre[m], pre[j - 1], x);
                    }
                } else {
                    if m < j {
                        assert(cmp.le(pre[m], pre[k - 1]));
                    } else if m == j {
                        assert(cmp.le(x, pre[k - 1]));
                    } else {
                        assert(cmp.le(pre[m - 1], pre[k - 1]));
                    }
                }
            }
            assert(sorted_cmp(*cmp, w.take(i + 1)));
            // The multiset is untouched: one occurrence left, the same put back.
            vstd::seq_lib::to_multiset_remove(pre, i as int);
            vstd::seq_lib::to_multiset_insert(pre.remove(i as int), j as int, x);
            vstd::seq_lib::to_multiset_contains(pre, x);
            assert(pre.contains(x));
            assert(w.to_multiset() =~= pre.to_multiset());
        }
        i = i + 1;
    }
    proof {
        assert(v@.take(v@.len() as int) =~= v@);
    }
}

/// Relies on rayon's `par_sort_unstable_by`: sorts the slice in parallel by
/// the given comparator function, which rayon requires to be a total order;
/// the closure forwards to `Comparator::compare`, whose contract ties it to
/// the total preorder `le`. The result is a sorted rearrangement of the
/// input, like `sort_buffer`'s.
#[verifier::external_body]
pub(crate) fn par_sort_buffer<T: Send, C: Comparator<T>>(cmp: &C, v: &mut Vec<T>)
    ensures
        final(v)@.len() == old(v)@.len(),
        final(v)@.to_multiset() == old(v)@.to_multiset(),
        sorted_cmp(*cmp, final(v)@),
{
    v.par_sort_unstable_by(|a, b| cmp.compare(a, b));
}

} // verus!
