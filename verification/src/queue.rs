//! The priority queue of the heap-based merge: candidate items tagged with
//! the segment they came from, with the smallest candidate ready to pop.
//!
//! The queue is a vector kept descending under the comparator, so the
//! minimum sits at the end: popping is constant-time, inserting linear
//! rather than the logarithmic cost of a binary heap. The comparator is
//! arbitrary, so equal-ranked candidates may sit in any relative order.

use vstd::multiset::Multiset;
use vstd::prelude::*;

use crate::order::Comparator;
use crate::order::is_strictly_after;

verus! {

/// One merge candidate: a decoded item and the index of the segment it was
/// read from.
pub(crate) struct HeapItem<T> {
    pub(crate) value: T,
    pub(crate) segment_index: usize,
}

/// `s` is descending under `cmp` (minimum last).
pub(crate) open spec fn entries_sorted<T, C: Comparator<T>>(cmp: C, s: Seq<HeapItem<T>>) -> bool {
    forall|i: int, j: int|
        0 <= i < j < s.len() ==> #[trigger] cmp.le(s[j].value, s[i].value)
}

/// How many entries of `s` carry segment index `i`.
pub(crate) open spec fn count_idx<T>(s: Seq<HeapItem<T>>, i: int) -> int
    decreases s.len(),
{
    if s.len() == 0 {
        0
    } else {
        count_idx(s.drop_last(), i) + if s.last().segment_index == i {
            1int
        } else {
            0int
        }
    }
}

pub(crate) proof fn lemma_count_idx_nonneg<T>(s: Seq<HeapItem<T>>, i: int)
    ensures
        count_idx(s, i) >= 0,
    decreases s.len(),
{
    if s.len() > 0 {
        lemma_count_idx_nonneg(s.drop_last(), i);
    }
}

/// Inserting one entry raises exactly its own segment's count by one.
pub(crate) proof fn lemma_count_idx_insert<T>(s: Seq<HeapItem<T>>, p: int, e: HeapItem<T>, i: int)
    requires
        0 <= p <= s.len(),
    ensures
        count_idx(s.insert(p, e), i) == count_idx(s, i) + if e.segment_index == i {
            1int
        } else {
            0int
        },
    decreases s.len(),
{
    let w = s.insert(p, e);
    if p == s.len() {
        assert(w =~= s.push(e));
        assert(w.drop_last() =~= s);
        assert(w.last() == e);
    } else {
        assert(w.last() == s.last());
        assert(w.drop_last() =~= s.drop_last().insert(p, e));
        lemma_count_idx_insert(s.drop_last(), p, e, i);
    }
}

/// A positive count names an entry with that segment index.
pub(crate) proof fn lemma_count_idx_exists<T>(s: Seq<HeapItem<T>>, i: int)
    requires
        count_idx(s, i) > 0,
    ensures
        exists|k: int| 0 <= k < s.len() && (#[trigger] s[k]).segment_index == i,
    decreases s.len(),
{
    if s.last().segment_index == i {
        assert(s[s.len() - 1].segment_index == i);
    } else {
        lemma_count_idx_exists(s.drop_last(), i);
        let k = choose|k: int|
            0 <= k < s.drop_last().len() && (#[trigger] s.drop_last()[k]).segment_index == i;
        assert(s[k].segment_index == i);
    }
}

/// The multiset of candidate values in `s`.
pub(crate) open spec fn queue_ms<T>(s: Seq<HeapItem<T>>) -> Multiset<T>
    decreases s.len(),
{
    if s.len() == 0 {
        Multiset::empty()
    } else {
        queue_ms(s.drop_last()).insert(s.last().value)
    }
}

/// Inserting an entry anywhere inserts its value.
pub(crate) proof fn lemma_queue_ms_insert<T>(s: Seq<HeapItem<T>>, p: int, e: HeapItem<T>)
    requires
        0 <= p <= s.len(),
    ensures
        queue_ms(s.insert(p, e)) == queue_ms(s).insert(e.value),
    decreases s.len(),
{
    let w = s.insert(p, e);
    if p == s.len() {
        assert(w =~= s.push(e));
        assert(w.drop_last() =~= s);
        assert(w.last() == e);
    } else {
        assert(w.last() == s.last());
        assert(w.drop_last() =~= s.drop_last().insert(p, e));
        lemma_queue_ms_insert(s.drop_last(), p, e);
        assert(queue_ms(w) =~= queue_ms(s).insert(e.value));
    }
}

/// A value counted in the queue names an entry carrying it.
pub(crate) proof fn lemma_queue_ms_member<T>(s: Seq<HeapItem<T>>, y: T)
    requires
        queue_ms(s).count(y) > 0,
    ensures
        exists|k: int| 0 <= k < s.len() && (#[trigger] s[k]).value == y,
    decreases s.len(),
{
    if s.len() == 0 {
    } else if s.last().value == y {
        assert(s[s.len() - 1].value == y);
    } else {
        lemma_queue_ms_member(s.drop_last(), y);
        let k = choose|k: int| 0 <= k < s.drop_last().len() && (#[trigger] s.drop_last()[k]).value
            == y;
        assert(s[k].value == y);
    }
}

/// Priority queue of merge candidates, ordered by the sort's comparator.
pub(crate) struct MinQueue<T> {
    entries: Vec<HeapItem<T>>,
}

impl<T> View for MinQueue<T> {
    type V = Seq<HeapItem<T>>;

    closed spec fn view(&self) -> Seq<HeapItem<T>> {
        self.entries@
    }
}

impl<T> MinQueue<T> {
    /// The queue's entries are descending under `cmp`.
    pub(crate) open spec fn wf<C: Comparator<T>>(self, cmp: C) -> bool {
        entries_sorted(cmp, self@)
    }

    pub(crate) fn new() -> (q: MinQueue<T>)
        ensures
            q@ == Seq::<HeapItem<T>>::empty(),
    {
        MinQueue { entries: Vec::new() }
    }

    pub(crate) fn len(&self) -> (n: usize)
        ensures
            n == self@.len(),
    {
        self.entries.len()
    }

    /// Files `e` behind every entry it is not strictly after, so the vector
    /// stays descending.
    pub(crate) fn insert<C: Comparator<T>>(&mut self, cmp: &C, e: HeapItem<T>) -> (p: Ghost<int>)
        requires
            old(self).wf(*cmp),
        ensures
            final(self).wf(*cmp),
            0 <= p@ <= old(self)@.len(),
            final(self)@ == old(self)@.insert(p@, e),
    {
        let ghost s = self@;
        let mut p: usize = self.entries.len();
        while p > 0 && !is_strictly_after(cmp, &self.entries[p - 1].value, &e.value)
            invariant
                0 <= p <= s.len(),
                self@ == s,
                forall|q: int| p <= q < s.len() ==> cmp.le(#[trigger] s[q].value, e.value),
            decreases p,
        {
            proof {
                cmp.le_total(s[p - 1].value, e.value);
            }
            p = p - 1;
        }
        let ghost pp = p as int;
        self.entries.insert(p, e);
        proof {
            let w = self@;
            assert(w == s.insert(pp, e));
            s.insert_ensures(pp, e);
            assert forall|i: int, j: int|
                0 <= i < j < w.len() implies #[trigger] cmp.le(w[j].value, w[i].value) by {
                if j < pp {
                    assert(cmp.le(s[j].value, s[i].value));
                } else if j == pp {
                    if i < pp - 1 {
                        assert(cmp.le(s[pp - 1].value, s[i].value));
                        cmp.le_trans(e.value, s[pp - 1].value, s[i].value);
                    }
                } else {
                    if i < pp {
                        assert(cmp.le(s[j - 1].value, s[i].value));
                    } else if i == pp {
                        assert(cmp.le(s[j - 1].value, e.value));
                    } else {
                        assert(cmp.le(s[j - 1].value, s[i - 1].value));
                    }
                }
            }
        }
        Ghost(pp)
    }

    /// Removes and returns the minimum (the last entry).
    pub(crate) fn pop(&mut self) -> (r: Option<HeapItem<T>>)
        ensures
            old(self)@.len() == 0 ==> r is None && final(self)@ == old(self)@,
            old(self)@.len() > 0 ==> r == Some(old(self)@.last()) && final(self)@ == old(
                self,
            )@.drop_last(),
    {
        self.entries.pop()
    }
}

} // verus!
