//! The merge iterator: lazily produces the globally sorted sequence.
//!
//! One of three strategies is fixed at construction, based on how many
//! segments exist:
//! - *Passthrough*: no segment was spilled; items are dequeued straight from
//!   the pre-sorted in-memory queue. No decoding happens.
//! - *Linear-scan ("peek") merge*, below the configured threshold: each
//!   segment keeps one cached head item; each step picks the minimum head
//!   (first occurrence wins among ties), decodes that segment's next item,
//!   and returns the picked one.
//! - *Heap-based k-way merge*, from the threshold on: a priority queue holds
//!   decoded candidates tagged with their segment; whenever a segment's live
//!   candidates drop to zero, every such segment is refilled with up to
//!   [`HEAP_REFILL_BATCH`] freshly decoded items in one pass.
//!
//! Across all strategies the output is ascending under the comparator and
//! carries exactly the accumulated items. A decode failure other than a
//! clean end of stream is surfaced once as an error value in place of an
//! item; after that the iterator stops producing.

use std::collections::VecDeque;
use vstd::multiset::Multiset;
use vstd::prelude::*;

use crate::Error;
use crate::ExternalSorterOptions;
use crate::codec::DecodeError;
use crate::codec::Sortable;
use crate::order::Comparator;
use crate::order::is_strictly_before;
use crate::order::min_of;
use crate::order::sorted_cmp;
use crate::queue::HeapItem;
use crate::queue::MinQueue;
use crate::queue::count_idx;
use crate::queue::lemma_count_idx_exists;
use crate::queue::lemma_count_idx_insert;
use crate::queue::lemma_count_idx_nonneg;
use crate::queue::lemma_queue_ms_insert;
use crate::queue::lemma_queue_ms_member;
use crate::queue::entries_sorted;
use crate::queue::queue_ms;
use crate::segment::Segment;
use crate::segment::ms_fold;
use crate::segment::segment_next;
use crate::segment::segs_multiset;
use crate::segment::segs_ok;
use crate::segment::lemma_empty_multiset;
use crate::segment::lemma_ms_fold_count_at_least;
use crate::segment::lemma_ms_fold_empty;
use crate::segment::lemma_ms_fold_member;
use crate::segment::lemma_ms_fold_remove_at;
use crate::segment::lemma_skip_multiset;

verus! {

/// How many items one depleted segment contributes to the priority queue in
/// one refill pass.
pub const HEAP_REFILL_BATCH: usize = 20;

/// The merge strategy, fixed for the iterator's whole lifetime.
#[derive(Clone, Copy, PartialEq, Eq, Structural)]
enum MergeMode {
    Passthrough,
    Peek,
    Heap,
}

/// Iterator over the sorted items of one finished sort, merging the
/// in-memory remainder and the spilled segments.
pub struct SortedIterator<T: Sortable, C: Comparator<T>> {
    /// The strategy chosen at construction.
    mode: MergeMode,
    /// Passthrough backing store: the pre-sorted in-memory items.
    queue: VecDeque<T>,
    /// Peek backing store: one cached head per segment, `None` once a
    /// segment is exhausted.
    heads: Vec<Option<T>>,
    /// Heap backing store: decoded candidates tagged with their segment.
    heap: MinQueue<T>,
    /// Heap strategy: whether some segment's candidates dropped to zero, so
    /// the next step must refill before popping.
    needs_fill: bool,
    /// A decode failed; no further item is produced.
    failed: bool,
    /// A decode failed after its segment's current head was taken: that head
    /// is returned first and the error on the call after it.
    error_pending: bool,
    /// The spilled segments.
    segments: Vec<Segment<T>>,
    /// Total number of items accumulated by the engine.
    count: u64,
    /// The sort's comparator.
    cmp: C,
    /// The configuration the sort ran under.
    options: ExternalSorterOptions,
    /// The multiset of all accumulated items.
    input_ms: Ghost<Multiset<T>>,
    /// The items returned so far, in return order.
    produced_seq: Ghost<Seq<T>>,
}

impl<T: Sortable, C: Comparator<T>> SortedIterator<T, C> {
    /// The multiset of all items this iterator was constructed over.
    pub closed spec fn input(self) -> Multiset<T> {
        self.input_ms@
    }

    /// The items returned so far, in return order.
    pub closed spec fn produced(self) -> Seq<T> {
        self.produced_seq@
    }

    /// The comparator the output is ascending under.
    pub closed spec fn cmp_spec(self) -> C {
        self.cmp
    }

    /// The accumulated item count.
    pub closed spec fn count_spec(self) -> int {
        self.count as int
    }

    /// The number of spilled segments.
    pub closed spec fn num_segments(self) -> int {
        self.segments@.len() as int
    }

    /// Whether a decode failure was hit: after the error is surfaced the
    /// iterator stops producing.
    pub closed spec fn errored(self) -> bool {
        self.failed
    }

    /// Whether a decode failure waits to be surfaced: it happened right
    /// after a segment's head was taken, so that head was returned and the
    /// error comes on the next call, exactly once.
    pub closed spec fn pending_error(self) -> bool {
        self.error_pending
    }

    /// What segment `i` still has to deliver: its cached head (if any) plus
    /// everything not yet decoded.
    closed spec fn seg_rem(self, i: int) -> Multiset<T> {
        let s = self.segments@[i];
        let tail = s.pending().to_multiset();
        if self.mode is Peek {
            match self.heads@[i] {
                Some(v) => tail.insert(v),
                None => tail,
            }
        } else {
            tail
        }
    }

    /// `seg_rem` of every segment, as a sequence to fold over.
    closed spec fn rem_seq(self) -> Seq<Multiset<T>> {
        Seq::new(self.segments@.len(), |i: int| self.seg_rem(i))
    }

    /// The items not returned yet.
    pub closed spec fn remaining(self) -> Multiset<T> {
        match self.mode {
            MergeMode::Passthrough => self.queue@.to_multiset(),
            MergeMode::Peek => ms_fold(self.rem_seq()),
            MergeMode::Heap => ms_fold(self.rem_seq()).add(queue_ms(self.heap@)),
        }
    }

    /// Segment `i` is well formed and sorted.
    closed spec fn seg_base_inv(self, i: int) -> bool {
        let s = self.segments@[i];
        &&& s.wf()
        &&& sorted_cmp(self.cmp, s.items())
    }

    /// Peek strategy: the cached head of segment `i` is its most recently
    /// decoded item; no head means the segment was read to its end.
    closed spec fn peek_seg_inv(self, i: int) -> bool {
        let s = self.segments@[i];
        &&& self.seg_base_inv(i)
        &&& match self.heads@[i] {
            Some(v) => s.consumed() >= 1 && v == s.items()[s.consumed() - 1],
            None => s.consumed() == s.items().len(),
        }
    }

    /// Heap strategy: segment `i`'s candidate count matches the queue, and a
    /// segment is marked done only once fully decoded.
    closed spec fn heap_seg_inv(self, i: int) -> bool {
        let s = self.segments@[i];
        &&& self.seg_base_inv(i)
        &&& s.heap_count as int == count_idx(self.heap@, i)
        &&& (s.done ==> s.consumed() == s.items().len())
    }

    /// Every queue candidate was decoded from its segment, so the segment's
    /// pending items all sort at or after it.
    closed spec fn entry_inv(self, e: HeapItem<T>) -> bool {
        &&& (e.segment_index as int) < self.segments@.len()
        &&& exists|j: int|
            0 <= j < self.segments@[e.segment_index as int].consumed() && e.value
                == #[trigger] self.segments@[e.segment_index as int].items()[j]
    }

    /// Heap strategy: what holds of the queue and the segments at every
    /// moment, refilled or not.
    closed spec fn heap_core(self) -> bool {
        &&& self.heads@.len() == 0
        &&& entries_sorted(self.cmp, self.heap@)
        &&& forall|i: int| 0 <= i < self.segments@.len() ==> #[trigger] self.heap_seg_inv(i)
        &&& forall|k: int| 0 <= k < self.heap@.len() ==> self.entry_inv(#[trigger] self.heap@[k])
    }

    /// Heap strategy: every segment that is not done has at least one live
    /// candidate in the queue, so the queue minimum is a global minimum.
    closed spec fn all_live(self) -> bool {
        forall|i: int|
            0 <= i < self.segments@.len() ==> ((!(#[trigger] self.segments@[i]).done)
                ==> self.segments@[i].heap_count >= 1)
    }

    /// The strategy-specific bookkeeping.
    closed spec fn mode_inv(self) -> bool {
        match self.mode {
            MergeMode::Passthrough => {
                &&& self.segments@.len() == 0
                &&& sorted_cmp(self.cmp, self.queue@)
                &&& self.heads@.len() == 0
                &&& self.heap@.len() == 0
            },
            MergeMode::Peek => {
                &&& self.heads@.len() == self.segments@.len()
                &&& self.heap@.len() == 0
                &&& forall|i: int| 0 <= i < self.segments@.len() ==> #[trigger] self.peek_seg_inv(i)
            },
            MergeMode::Heap => {
                &&& self.heap_core()
                &&& (!self.needs_fill ==> self.all_live())
            },
        }
    }

    /// Everything the produced prefix and the remaining items satisfy while
    /// no decode has failed.
    closed spec fn track_inv(self) -> bool {
        &&& self.produced().to_multiset().add(self.remaining()) == self.input()
        &&& sorted_cmp(self.cmp, self.produced())
        &&& forall|k: int, y: T|
            #![trigger self.produced()[k], self.remaining().count(y)]
            0 <= k < self.produced().len() && self.remaining().count(y) > 0 ==> self.cmp.le(
                self.produced()[k],
                y,
            )
        &&& self.mode_inv()
    }

    /// The iterator's invariant: established at construction, preserved by
    /// every call.
    pub closed spec fn inv(self) -> bool {
        &&& self.count as int == self.input().len()
        &&& (self.error_pending ==> self.failed)
        &&& (!self.failed ==> self.track_inv())
    }

    /// While no decode has failed, the accumulated items are exactly the
    /// produced ones plus the remaining ones, and what was produced so far
    /// is ascending under the comparator.
    pub proof fn lemma_conservation(self)
        requires
            self.inv(),
            !self.errored(),
        ensures
            self.produced().to_multiset().add(self.remaining()) == self.input(),
            sorted_cmp(self.cmp_spec(), self.produced()),
            self.count_spec() == self.input().len(),
    {
    }

    /// Law: an error-free merge that has nothing left has produced an
    /// ascending arrangement of exactly the accumulated items — no loss, no
    /// duplication, for any codec and any total-order comparator.
    pub proof fn lemma_complete_output(self)
        requires
            self.inv(),
            !self.errored(),
            self.remaining().len() == 0,
        ensures
            sorted_cmp(self.cmp_spec(), self.produced()),
            self.produced().to_multiset() == self.input(),
            self.produced().len() == self.count_spec(),
    {
        broadcast use vstd::seq_lib::group_to_multiset_ensures;

        assert(self.produced().to_multiset().len() == self.produced().len());
        assert forall|y: T| self.remaining().count(y) == 0 by {
            vstd::multiset::axiom_count_le_len(self.remaining(), y);
        }
        assert(self.produced().to_multiset() =~= self.input());
    }

    /// Returns the number of items in the sorted iterator: always the number
    /// of items the engine accumulated.
    pub fn sorted_count(&self) -> (n: u64)
        ensures
            n as int == self.count_spec(),
    {
        self.count
    }

    /// Returns the number of segments spilled while sorting.
    ///
    /// It is 0 when the whole dataset fit in the in-memory buffer.
    pub fn disk_segment_count(&self) -> (n: usize)
        ensures
            n as int == self.num_segments(),
    {
        self.segments.len()
    }

    /// Builds the iterator, choosing the strategy once: passthrough when the
    /// engine kept its buffer in memory, otherwise the linear scan below the
    /// configured segment-count threshold and the heap-based merge from it
    /// on. In the linear-scan case one head is decoded per segment; a decode
    /// failure there fails the construction.
    pub(crate) fn new(
        pass_through_queue: Option<VecDeque<T>>,
        segments: Vec<Segment<T>>,
        count: u64,
        cmp: C,
        options: ExternalSorterOptions,
    ) -> (res: Result<SortedIterator<T, C>, Error>)
        requires
            segs_ok(cmp, segments@),
            match pass_through_queue {
                Some(q) => segments@.len() == 0 && sorted_cmp(cmp, q@) && count as int
                    == q@.len(),
                None => segments@.len() > 0 && count as int == segs_multiset(segments@).len(),
            },
        ensures
            res matches Ok(it) ==> {
                &&& it.inv()
                &&& !it.errored()
                &&& it.produced() == Seq::<T>::empty()
                &&& it.input() == (match pass_through_queue {
                    Some(q) => q@.to_multiset(),
                    None => segs_multiset(segments@),
                })
                &&& it.remaining() == it.input()
                &&& it.count_spec() == count as int
                &&& it.cmp_spec() == cmp
                &&& it.num_segments() == segments@.len()
            },
            pass_through_queue is Some ==> res is Ok,
            segments@.len() >= options.heap_iter_segment_count ==> res is Ok,
    {
        broadcast use vstd::seq_lib::group_to_multiset_ensures;

        match pass_through_queue {
            Some(q) => {
                let it = SortedIterator {
                    mode: MergeMode::Passthrough,
                    queue: q,
                    heads: Vec::new(),
                    heap: MinQueue::new(),
                    needs_fill: false,
                    failed: false,
                    error_pending: false,
                    segments,
                    count,
                    cmp,
                    options,
                    input_ms: Ghost(q@.to_multiset()),
                    produced_seq: Ghost(Seq::empty()),
                };
                proof {
                    lemma_empty_multiset(Seq::<T>::empty());
                    assert(it.produced().to_multiset().add(it.remaining()) =~= it.input());
                }
                Ok(it)
            },
            None => {
                if segments.len() < options.heap_iter_segment_count {
                    Self::new_peek(segments, count, cmp, options)
                } else {
                    let it = SortedIterator {
                        mode: MergeMode::Heap,
                        queue: VecDeque::new(),
                        heads: Vec::new(),
                        heap: MinQueue::new(),
                        needs_fill: true,
                        failed: false,
                        error_pending: false,
                        segments,
                        count,
                        cmp,
                        options,
                        input_ms: Ghost(segs_multiset(segments@)),
                        produced_seq: Ghost(Seq::empty()),
                    };
                    proof {
                        lemma_empty_multiset(Seq::<T>::empty());
                        let f = |s: Segment<T>| s.items().to_multiset();
                        assert forall|i: int| 0 <= i < it.segments@.len() implies it.rem_seq()[i]
                            == it.segments@.map_values(f)[i] by {
                            let s = it.segments@[i];
                            assert(s.consumed() == 0);
                            assert(s.pending() =~= s.items());
                        }
                        assert(it.rem_seq() =~= it.segments@.map_values(f));
                        assert(it.remaining() =~= it.input());
                        assert(it.produced().to_multiset().add(it.remaining()) =~= it.input());
                    }
                    Ok(it)
                }
            },
        }
    }

    /// Builds the linear-scan iterator: decodes each segment's first item as
    /// its cached head.
    fn new_peek(
        segments: Vec<Segment<T>>,
        count: u64,
        cmp: C,
        options: ExternalSorterOptions,
    ) -> (res: Result<SortedIterator<T, C>, Error>)
        requires
            segs_ok(cmp, segments@),
            segments@.len() > 0,
            count as int == segs_multiset(segments@).len(),
        ensures
            res matches Ok(it) ==> {
                &&& it.inv()
                &&& !it.errored()
                &&& it.produced() == Seq::<T>::empty()
                &&& it.input() == segs_multiset(segments@)
                &&& it.remaining() == it.input()
                &&& it.count_spec() == count as int
                &&& it.cmp_spec() == cmp
                &&& it.num_segments() == segments@.len()
            },
    {
        broadcast use vstd::seq_lib::group_to_multiset_ensures;

        let ghost orig = segments@;
        let mut segs = segments;
        let mut heads: Vec<Option<T>> = Vec::new();
        let mut i: usize = 0;
        while i < segs.len()
            invariant
                segs_ok(cmp, orig),
                0 <= i <= segs@.len(),
                segs@.len() == orig.len(),
                heads@.len() == i,
                forall|k: int| i <= k < segs@.len() ==> segs@[k] == orig[k],
                forall|k: int|
                    0 <= k < i ==> {
                        let s = #[trigger] segs@[k];
                        &&& s.wf()
                        &&& s.items() == orig[k].items()
                        &&& s.consumed() == 1
                        &&& s.heap_count == 0
                        &&& !s.done
                        &&& heads@[k] == Some(s.items()[0])
                    },
            decreases segs@.len() - i,
        {
            let ghost pre = segs@;
            proof {
                assert(segs@[i as int] == orig[i as int]);
                assert(orig[i as int].wf());
            }
            let mut seg = segs.remove(i);
            let r = segment_next(&mut seg);
            let ghost sg = seg;
            segs.insert(i, seg);
            proof {
                pre.remove_ensures(i as int);
                pre.remove(i as int).insert_ensures(i as int, sg);
                assert(segs@ =~= pre.update(i as int, sg));
            }
            match r {
                Ok(v) => {
                    heads.push(Some(v));
                },
                Err(_) => {
                    // A clean end of stream cannot come first (segments are
                    // non-empty), so this is corruption: construction fails.
                    return Err(Error::Decode);
                },
            }
            i = i + 1;
        }
        let it = SortedIterator {
            mode: MergeMode::Peek,
            queue: VecDeque::new(),
            heads,
            heap: MinQueue::new(),
            needs_fill: false,
            failed: false,
            error_pending: false,
            segments: segs,
            count,
            cmp,
            options,
            input_ms: Ghost(segs_multiset(orig)),
            produced_seq: Ghost(Seq::empty()),
        };
        proof {
            lemma_empty_multiset(Seq::<T>::empty());
            let f = |s: Segment<T>| s.items().to_multiset();
            assert forall|k: int| 0 <= k < it.segments@.len() implies it.rem_seq()[k] == orig.map_values(
                f,
            )[k] by {
                let s = it.segments@[k];
                lemma_skip_multiset(s.items(), 0);
                assert(s.pending() =~= s.items().skip(1));
                assert(s.items().skip(0) =~= s.items());
                assert(it.seg_rem(k) == s.pending().to_multiset().insert(s.items()[0]));
                assert(it.seg_rem(k) == s.items().skip(0).to_multiset());
            }
            assert(it.rem_seq() =~= orig.map_values(f));
            assert(it.remaining() =~= it.input());
            assert(it.produced().to_multiset().add(it.remaining()) =~= it.input());
            assert forall|k: int| 0 <= k < it.segments@.len() implies #[trigger] it.peek_seg_inv(
                k,
            ) by {
                assert(sorted_cmp(cmp, orig[k].items()));
            }
        }
        Ok(it)
    }

    /// What no step of the merge ever changes.
    closed spec fn same_shape(self, other: Self) -> bool {
        &&& self.mode == other.mode
        &&& self.count == other.count
        &&& self.cmp == other.cmp
        &&& self.options == other.options
        &&& self.input_ms@ == other.input_ms@
        &&& self.segments@.len() == other.segments@.len()
    }

    /// `remaining()` reads only the stores and the segments: two states that
    /// agree on those agree on it.
    proof fn lemma_remaining_frame(a: Self, b: Self)
        requires
            a.mode == b.mode,
            a.queue@ == b.queue@,
            a.heads@ == b.heads@,
            a.heap@ == b.heap@,
            a.segments@ == b.segments@,
        ensures
            a.remaining() == b.remaining(),
    {
        assert forall|i: int| 0 <= i < a.rem_seq().len() implies a.rem_seq()[i] == b.rem_seq()[i]
        by {
            assert(a.seg_rem(i) == b.seg_rem(i));
        }
        assert(a.rem_seq() =~~= b.rem_seq());
    }

    /// The heap bookkeeping reads only the stores and the segments: two
    /// states that agree on those agree on it.
    proof fn lemma_heap_state_frame(a: Self, b: Self)
        requires
            b.heap_core(),
            b.all_live(),
            a.mode == b.mode,
            a.cmp == b.cmp,
            a.heads@ == b.heads@,
            a.heap@ == b.heap@,
            a.segments@ == b.segments@,
        ensures
            a.heap_core(),
            a.all_live(),
    {
        Self::lemma_heap_state_frame_core(a, b);
        assert forall|i: int|
            0 <= i < a.segments@.len() && !(#[trigger] a.segments@[i]).done implies a.segments@[i].heap_count
            >= 1 by {
            assert((!(b.segments@[i]).done) ==> b.segments@[i].heap_count >= 1);
        }
    }

    /// Like `lemma_heap_state_frame`, for the unconditional part alone.
    proof fn lemma_heap_state_frame_core(a: Self, b: Self)
        requires
            b.heap_core(),
            a.mode == b.mode,
            a.cmp == b.cmp,
            a.heads@ == b.heads@,
            a.heap@ == b.heap@,
            a.segments@ == b.segments@,
        ensures
            a.heap_core(),
    {
        assert forall|i: int| 0 <= i < a.segments@.len() implies #[trigger] a.heap_seg_inv(i) by {
            assert(b.heap_seg_inv(i));
        }
        assert forall|k: int| 0 <= k < a.heap@.len() implies a.entry_inv(#[trigger] a.heap@[k]) by {
            let e = b.heap@[k];
            assert(b.entry_inv(e));
            let j = choose|j: int|
                0 <= j < b.segments@[e.segment_index as int].consumed() && e.value
                    == #[trigger] b.segments@[e.segment_index as int].items()[j];
            assert(e.value == a.segments@[e.segment_index as int].items()[j]);
        }
    }

    /// The whole tracking invariant reads only the stores, the segments, the
    /// refill flag and the ghost history: it transfers between states that
    /// agree on them.
    proof fn lemma_track_frame(a: Self, b: Self)
        requires
            b.track_inv(),
            a.mode == b.mode,
            a.cmp == b.cmp,
            a.needs_fill == b.needs_fill,
            a.queue@ == b.queue@,
            a.heads@ == b.heads@,
            a.heap@ == b.heap@,
            a.segments@ == b.segments@,
            a.produced_seq@ == b.produced_seq@,
            a.input_ms@ == b.input_ms@,
        ensures
            a.track_inv(),
    {
        Self::lemma_remaining_frame(a, b);
        assert forall|k: int, y: T|
            #![trigger a.produced()[k], a.remaining().count(y)]
            0 <= k < a.produced().len() && a.remaining().count(y) > 0 implies a.cmp.le(
            a.produced()[k],
            y,
        ) by {
            assert(b.produced()[k] == a.produced()[k]);
            assert(b.remaining().count(y) > 0);
        }
        match a.mode {
            MergeMode::Passthrough => {},
            MergeMode::Peek => {
                assert forall|i: int|
                    0 <= i < a.segments@.len() implies #[trigger] a.peek_seg_inv(i) by {
                    assert(b.peek_seg_inv(i));
                }
            },
            MergeMode::Heap => {
                Self::lemma_heap_state_frame_core(a, b);
                if !a.needs_fill {
                    assert forall|i: int|
                        0 <= i < a.segments@.len() && !(#[trigger] a.segments@[i]).done implies a.segments@[i].heap_count
                        >= 1 by {
                        assert((!(b.segments@[i]).done) ==> b.segments@[i].heap_count >= 1);
                    }
                }
            },
        }
    }

    /// Delivering one minimal remaining item keeps the tracking invariant.
    proof fn lemma_deliver(pre: Self, post: Self, v: T)
        requires
            pre.track_inv(),
            post.cmp == pre.cmp,
            post.input_ms@ == pre.input_ms@,
            post.produced_seq@ == pre.produced_seq@.push(v),
            pre.remaining().count(v) > 0,
            min_of(pre.cmp, pre.remaining(), v),
            post.remaining() == pre.remaining().remove(v),
            post.mode_inv(),
        ensures
            post.track_inv(),
    {
        broadcast use vstd::seq_lib::group_to_multiset_ensures;

        assert(post.produced().to_multiset() =~= pre.produced().to_multiset().insert(v));
        assert(post.produced().to_multiset().add(post.remaining()) =~= pre.produced(
        ).to_multiset().add(pre.remaining()));
        assert forall|i: int, j: int|
            0 <= i < j < post.produced().len() implies #[trigger] pre.cmp.le(
            post.produced()[i],
            post.produced()[j],
        ) by {
            if j < pre.produced().len() {
                assert(pre.cmp.le(pre.produced()[i], pre.produced()[j]));
            } else {
                assert(post.produced()[i] == pre.produced()[i]);
                assert(post.produced()[j] == v);
                assert(pre.remaining().count(v) > 0);
                assert(pre.cmp.le(pre.produced()[i], v));
            }
        }
        assert forall|k: int, y: T|
            #![trigger post.produced()[k], post.remaining().count(y)]
            0 <= k < post.produced().len() && post.remaining().count(y) > 0 implies post.cmp.le(
            post.produced()[k],
            y,
        ) by {
            assert(pre.remaining().count(y) > 0);
            if k < pre.produced().len() {
                assert(pre.cmp.le(pre.produced()[k], y));
            } else {
                assert(post.produced()[k] == v);
            }
        }
    }

    /// Passthrough step: dequeue the front of the pre-sorted queue.
    fn next_passthrough(&mut self) -> (r: Option<Result<T, Error>>)
        requires
            old(self).inv(),
            !old(self).failed,
            !old(self).error_pending,
            old(self).mode is Passthrough,
        ensures
            final(self).inv(),
            final(self).same_shape(*old(self)),
            !final(self).failed,
            !final(self).error_pending,
            match r {
                None => final(self).produced() == old(self).produced() && final(self).remaining()
                    == old(self).remaining() && final(self).remaining().len() == 0,
                Some(rr) => match rr {
                    Ok(v) => {
                        &&& old(self).remaining().count(v) > 0
                        &&& min_of(old(self).cmp, old(self).remaining(), v)
                        &&& final(self).produced() == old(self).produced().push(v)
                        &&& final(self).remaining() == old(self).remaining().remove(v)
                    },
                    Err(_) => false,
                },
            },
    {
        broadcast use vstd::seq_lib::group_to_multiset_ensures;

        let ghost pre = *self;
        let x = self.queue.pop_front();
        match x {
            None => {
                proof {
                    assert(pre.queue@.to_multiset().len() == pre.queue@.len());
                }
                None
            },
            Some(v) => {
                proof {
                    let q = pre.queue@;
                    assert(self.queue@ =~= q.remove(0));
                    vstd::seq_lib::to_multiset_remove(q, 0);
                    vstd::seq_lib::to_multiset_contains(q, v);
                    assert(q.contains(v));
                    assert(pre.remaining().count(v) > 0);
                    assert(self.remaining() == pre.remaining().remove(v));
                    assert forall|y: T| #[trigger] pre.remaining().count(y) > 0 implies pre.cmp.le(
                        v,
                        y,
                    ) by {
                        vstd::seq_lib::to_multiset_contains(q, y);
                        assert(q.contains(y));
                        let k = choose|k: int| 0 <= k < q.len() && q[k] == y;
                        if k == 0 {
                            pre.cmp.le_total(v, v);
                        } else {
                            assert(pre.cmp.le(q[0], q[k]));
                        }
                    }
                    self.produced_seq@ = pre.produced_seq@.push(v);
                    assert forall|i: int, j: int|
                        0 <= i < j < self.queue@.len() implies #[trigger] self.cmp.le(
                        self.queue@[i],
                        self.queue@[j],
                    ) by {
                        assert(pre.cmp.le(q[i + 1], q[j + 1]));
                    }
                    Self::lemma_deliver(pre, *self, v);
                }
                Some(Ok(v))
            },
        }
    }

    /// Linear-scan step: pick the minimum cached head (first occurrence wins
    /// among ties), replace it by decoding that segment's next item, and
    /// return it. A corrupt replacement decode still returns the picked item;
    /// the error follows on the next call.
    fn next_peek(&mut self) -> (r: Option<Result<T, Error>>)
        requires
            old(self).inv(),
            !old(self).failed,
            !old(self).error_pending,
            old(self).mode is Peek,
        ensures
            final(self).inv(),
            final(self).same_shape(*old(self)),
            match r {
                None => {
                    &&& !final(self).failed
                    &&& final(self).produced() == old(self).produced()
                    &&& final(self).remaining() == old(self).remaining()
                    &&& final(self).remaining().len() == 0
                },
                Some(rr) => match rr {
                    Ok(v) => {
                        &&& old(self).remaining().count(v) > 0
                        &&& min_of(old(self).cmp, old(self).remaining(), v)
                        &&& final(self).produced() == old(self).produced().push(v)
                        &&& (final(self).failed ==> final(self).error_pending)
                        &&& (!final(self).failed ==> final(self).remaining() == old(
                            self,
                        ).remaining().remove(v))
                    },
                    Err(_) => false,
                },
            },
    {
        broadcast use vstd::seq_lib::group_to_multiset_ensures;

        let ghost pre = *self;
        let mut best: Option<usize> = None;
        let mut idx: usize = 0;
        while idx < self.heads.len()
            invariant
                *self == pre,
                pre.inv() && !pre.failed && !pre.error_pending && pre.mode is Peek,
                0 <= idx <= self.heads@.len(),
                match best {
                    None => forall|k: int| 0 <= k < idx ==> self.heads@[k] is None,
                    Some(b) => (b as int) < idx && self.heads@[b as int] is Some && forall|k: int|
                        0 <= k < idx && self.heads@[k] is Some ==> self.cmp.le(
                            self.heads@[b as int]->0,
                            #[trigger] self.heads@[k]->0,
                        ),
                },
            decreases self.heads@.len() - idx,
        {
            match self.heads[idx].as_ref() {
                Some(h) => {
                    let better = match best {
                        None => true,
                        Some(b) => {
                            let cur = self.heads[b].as_ref().unwrap();
                            is_strictly_before(&self.cmp, h, cur)
                        },
                    };
                    let ghost hh = self.heads@[idx as int]->0;
                    if better {
                        proof {
                            self.cmp.le_total(hh, hh);
                            if best is Some {
                                let b0 = best->0 as int;
                                let c0 = self.heads@[b0]->0;
                                assert forall|k: int|
                                    0 <= k < idx + 1 && self.heads@[k] is Some implies self.cmp.le(
                                    hh,
                                    #[trigger] self.heads@[k]->0,
                                ) by {
                                    if k < idx {
                                        assert(self.cmp.le(c0, self.heads@[k]->0));
                                        self.cmp.le_trans(hh, c0, self.heads@[k]->0);
                                    }
                                }
                            }
                        }
                        best = Some(idx);
                    } else {
                        proof {
                            let b0 = best->0 as int;
                            let c0 = self.heads@[b0]->0;
                            self.cmp.le_total(hh, c0);
                            assert(self.cmp.le(c0, hh));
                        }
                    }
                },
                None => {},
            }
            idx = idx + 1;
        }
        match best {
            None => {
                proof {
                    assert forall|i: int|
                        0 <= i < self.rem_seq().len() implies (#[trigger] self.rem_seq()[i]).len()
                        == 0 by {
                        assert(self.peek_seg_inv(i));
                        let s = self.segments@[i];
                        assert(self.heads@[i] is None);
                        assert(s.pending().len() == 0);
                        lemma_empty_multiset(s.pending());
                    }
                    lemma_ms_fold_empty(self.rem_seq());
                }
                None
            },
            Some(b) => {
                let ghost bi = b as int;
                proof {
                    assert(pre.peek_seg_inv(bi));
                }
                let taken = self.heads.remove(b);
                let v = taken.unwrap();
                proof {
                    // The picked head is a minimal element of everything left.
                    let s = pre.segments@[bi];
                    let ci = s.consumed();
                    assert(v == s.items()[ci - 1]);
                    assert(pre.rem_seq()[bi].count(v) > 0);
                    lemma_ms_fold_count_at_least(pre.rem_seq(), bi, v);
                    assert(pre.remaining().count(v) > 0);
                    assert forall|y: T| #[trigger] pre.remaining().count(y) > 0 implies pre.cmp.le(
                        v,
                        y,
                    ) by {
                        lemma_ms_fold_member(pre.rem_seq(), y);
                        let i = choose|i: int|
                            0 <= i < pre.rem_seq().len() && (#[trigger] pre.rem_seq()[i]).count(y)
                                > 0;
                        assert(pre.peek_seg_inv(i));
                        let si = pre.segments@[i];
                        if pre.heads@[i] is Some {
                            let h = pre.heads@[i]->0;
                            assert(pre.cmp.le(v, h));
                            if si.pending().to_multiset().count(y) > 0 {
                                vstd::seq_lib::to_multiset_contains(si.pending(), y);
                                assert(si.pending().contains(y));
                                let j = choose|j: int|
                                    0 <= j < si.pending().len() && si.pending()[j] == y;
                                assert(si.items()[si.consumed() + j] == y);
                                assert(si.items()[si.consumed() - 1] == h);
                                assert(pre.cmp.le(h, y));
                                pre.cmp.le_trans(v, h, y);
                            } else {
                                assert(y == h);
                            }
                        } else {
                            lemma_empty_multiset(si.pending());
                            assert(false);
                        }
                    }
                }
                let mut seg = self.segments.remove(b);
                let r = segment_next(&mut seg);
                let ghost sg = seg;
                self.segments.insert(b, seg);
                let bad = match &r {
                    Err(DecodeError::Corrupt) => true,
                    _ => false,
                };
                match r {
                    Ok(nv) => {
                        self.heads.insert(b, Some(nv));
                    },
                    Err(_) => {
                        self.heads.insert(b, None);
                    },
                }
                if bad {
                    self.failed = true;
                    self.error_pending = true;
                }
                proof {
                    self.produced_seq@ = pre.produced_seq@.push(v);
                    let s = pre.segments@[bi];
                    let ci = s.consumed();
                    pre.segments@.remove_ensures(bi);
                    pre.segments@.remove(bi).insert_ensures(bi, sg);
                    assert(self.segments@ =~= pre.segments@.update(bi, sg));
                    pre.heads@.remove_ensures(bi);
                    assert(self.heads@ =~= pre.heads@.update(bi, self.heads@[bi]));
                    if !bad {
                        // The picked segment's share shrank by exactly `v`.
                        assert(self.seg_rem(bi) =~= pre.seg_rem(bi).remove(v)) by {
                            if r is Ok {
                                lemma_skip_multiset(s.items(), ci);
                                assert(sg.pending() =~= s.items().skip(ci + 1));
                                assert(self.heads@[bi] == Some(s.items()[ci]));
                            } else {
                                assert(ci == s.items().len());
                                lemma_empty_multiset(s.pending());
                                assert(sg.pending() =~= s.pending());
                                lemma_empty_multiset(sg.pending());
                            }
                        }
                        assert forall|i: int|
                            0 <= i < self.rem_seq().len() && i != bi implies self.rem_seq()[i]
                            == pre.rem_seq()[i] by {
                            assert(self.segments@[i] == pre.segments@[i]);
                            assert(self.heads@[i] == pre.heads@[i]);
                        }
                        assert(self.rem_seq() =~~= pre.rem_seq().update(
                            bi,
                            pre.rem_seq()[bi].remove(v),
                        ));
                        lemma_ms_fold_remove_at(pre.rem_seq(), bi, v);
                        assert(self.remaining() == pre.remaining().remove(v));
                        // The per-segment bookkeeping still holds everywhere.
                        assert forall|i: int|
                            0 <= i < self.segments@.len() implies #[trigger] self.peek_seg_inv(
                            i,
                        ) by {
                            assert(pre.peek_seg_inv(i));
                            if i == bi {
                                if r is Ok {
                                    assert(sg.items() == s.items());
                                    assert(sorted_cmp(self.cmp, sg.items()));
                                }
                            }
                        }
                        Self::lemma_deliver(pre, *self, v);
                    }
                }
                Some(Ok(v))
            },
        }
    }

    /// Heap-merge refill: every segment whose live candidates dropped to
    /// zero, and that is not done, decodes up to [`HEAP_REFILL_BATCH`] items
    /// into the priority queue in one pass; a segment is marked done on its
    /// clean end of stream. Fails on the first corrupt decode, leaving the
    /// caller to surface the error.
    fn fill_heap(&mut self) -> (r: Result<(), Error>)
        requires
            old(self).inv(),
            !old(self).failed,
            !old(self).error_pending,
            old(self).mode is Heap,
        ensures
            final(self).same_shape(*old(self)),
            final(self).produced() == old(self).produced(),
            !final(self).failed,
            !final(self).error_pending,
            final(self).needs_fill == old(self).needs_fill,
            r is Ok ==> {
                &&& final(self).remaining() == old(self).remaining()
                &&& final(self).heap_core()
                &&& final(self).all_live()
            },
            old(self).segments@.len() == 0 ==> r is Ok,
    {
        broadcast use vstd::seq_lib::group_to_multiset_ensures;

        let ghost pre = *self;
        let mut i: usize = 0;
        while i < self.segments.len()
            invariant
                pre == *old(self),
                pre.inv() && !pre.failed && !pre.error_pending && pre.mode is Heap,
                self.same_shape(pre),
                self.mode is Heap,
                !self.failed,
                !self.error_pending,
                self.needs_fill == pre.needs_fill,
                self.produced_seq@ == pre.produced_seq@,
                self.queue@ == pre.queue@,
                0 <= i <= self.segments@.len(),
                self.heap_core(),
                self.remaining() == pre.remaining(),
                forall|k: int|
                    0 <= k < i ==> ((!(#[trigger] self.segments@[k]).done)
                        ==> self.segments@[k].heap_count >= 1),
            decreases self.segments@.len() - i,
        {
            let is_done = self.segments[i].done;
            let live = self.segments[i].heap_count;
            if !is_done && live == 0 {
                let mut n: usize = 0;
                let mut finished = false;
                while n < HEAP_REFILL_BATCH && !finished
                    invariant
                        pre == *old(self),
                        pre.inv() && !pre.failed && !pre.error_pending && pre.mode is Heap,
                        self.same_shape(pre),
                        self.mode is Heap,
                        !self.failed,
                        !self.error_pending,
                        self.needs_fill == pre.needs_fill,
                        self.produced_seq@ == pre.produced_seq@,
                        self.queue@ == pre.queue@,
                        0 <= (i as int) < self.segments@.len(),
                        0 <= n <= HEAP_REFILL_BATCH,
                        self.heap_core(),
                        self.remaining() == pre.remaining(),
                        forall|k: int|
                            0 <= k < i ==> ((!(#[trigger] self.segments@[k]).done)
                                ==> self.segments@[k].heap_count >= 1),
                        self.segments@[i as int].heap_count as int == n,
                        finished ==> self.segments@[i as int].done,
                        !finished ==> !self.segments@[i as int].done,
                    decreases HEAP_REFILL_BATCH - n, (if finished { 0int } else { 1int }),
                {
                    let ghost it0 = *self;
                    let ghost ii = i as int;
                    proof {
                        assert(it0.heap_seg_inv(ii));
                    }
                    let mut seg = self.segments.remove(i);
                    let res = segment_next(&mut seg);
                    match res {
                        Ok(v) => {
                            seg.heap_count = seg.heap_count + 1;
                            let ghost sg = seg;
                            self.segments.insert(i, seg);
                            let ghost pq = self.heap@;
                            let entry = HeapItem { value: v, segment_index: i };
                            let pp = self.heap.insert(&self.cmp, entry);
                            proof {
                                let s0 = it0.segments@[ii];
                                let ci = s0.consumed();
                                it0.segments@.remove_ensures(ii);
                                it0.segments@.remove(ii).insert_ensures(ii, sg);
                                assert(self.segments@ =~= it0.segments@.update(ii, sg));
                                pq.insert_ensures(pp@, entry);
                                // counts per segment
                                assert forall|j: int|
                                    0 <= j < self.segments@.len() implies #[trigger] self.heap_seg_inv(j) by {
                                    lemma_count_idx_insert(pq, pp@, entry, j);
                                    assert(it0.heap_seg_inv(j));
                                    if j == ii {
                                        assert(sg.items() == s0.items());
                                        assert(sorted_cmp(self.cmp, sg.items()));
                                    }
                                }
                                // every entry still names a decoded item
                                assert forall|k: int|
                                    0 <= k < self.heap@.len() implies self.entry_inv(
                                    #[trigger] self.heap@[k],
                                ) by {
                                    if k == pp@ {
                                        assert(self.heap@[k] == entry);
                                        assert(v == self.segments@[ii].items()[ci]);
                                        assert(0 <= ci < self.segments@[ii].consumed());
                                    } else {
                                        let e0 = if k < pp@ {
                                            pq[k]
                                        } else {
                                            pq[k - 1]
                                        };
                                        assert(self.heap@[k] == e0);
                                        assert(it0.entry_inv(e0));
                                        let j0 = choose|j0: int|
                                            0 <= j0 < it0.segments@[e0.segment_index as int].consumed()
                                                && e0.value == #[trigger] it0.segments@[e0.segment_index as int].items()[j0];
                                        assert(self.segments@[e0.segment_index as int].consumed()
                                            >= it0.segments@[e0.segment_index as int].consumed());
                                        assert(e0.value
                                            == self.segments@[e0.segment_index as int].items()[j0]);
                                    }
                                }
                                // the moved item left the segment and entered the queue
                                lemma_skip_multiset(s0.items(), ci);
                                assert(sg.pending() =~= s0.items().skip(ci + 1));
                                assert(self.seg_rem(ii) =~= it0.seg_rem(ii).remove(v));
                                assert forall|j: int|
                                    0 <= j < self.rem_seq().len() && j != ii implies self.rem_seq()[j]
                                    == it0.rem_seq()[j] by {
                                    assert(self.segments@[j] == it0.segments@[j]);
                                }
                                assert(self.rem_seq() =~~= it0.rem_seq().update(
                                    ii,
                                    it0.rem_seq()[ii].remove(v),
                                ));
                                assert(it0.rem_seq()[ii].count(v) > 0) by {
                                    assert(s0.pending()[0] == v);
                                    vstd::seq_lib::to_multiset_contains(s0.pending(), v);
                                    assert(s0.pending().contains(v));
                                }
                                lemma_ms_fold_remove_at(it0.rem_seq(), ii, v);
                                lemma_ms_fold_count_at_least(it0.rem_seq(), ii, v);
                                lemma_queue_ms_insert(pq, pp@, entry);
                                assert(self.remaining() =~= it0.remaining());
                            }
                            n = n + 1;
                        },
                        Err(DecodeError::Eof) => {
                            seg.done = true;
                            let ghost sg = seg;
                            self.segments.insert(i, seg);
                            proof {
                                it0.segments@.remove_ensures(ii);
                                it0.segments@.remove(ii).insert_ensures(ii, sg);
                                assert(self.segments@ =~= it0.segments@.update(ii, sg));
                                assert forall|j: int|
                                    0 <= j < self.segments@.len() implies #[trigger] self.heap_seg_inv(j) by {
                                    assert(it0.heap_seg_inv(j));
                                    if j == ii {
                                        assert(sg.items() == it0.segments@[ii].items());
                                        assert(sorted_cmp(self.cmp, sg.items()));
                                    }
                                }
                                assert forall|k: int|
                                    0 <= k < self.heap@.len() implies self.entry_inv(
                                    #[trigger] self.heap@[k],
                                ) by {
                                    assert(it0.entry_inv(self.heap@[k]));
                                    let e0 = self.heap@[k];
                                    let j0 = choose|j0: int|
                                        0 <= j0 < it0.segments@[e0.segment_index as int].consumed()
                                            && e0.value == #[trigger] it0.segments@[e0.segment_index as int].items()[j0];
                                    assert(e0.value
                                        == self.segments@[e0.segment_index as int].items()[j0]);
                                }
                                assert forall|j: int|
                                    0 <= j < self.rem_seq().len() implies self.rem_seq()[j]
                                    == it0.rem_seq()[j] by {
                                    if j != ii {
                                        assert(self.segments@[j] == it0.segments@[j]);
                                    } else {
                                        assert(sg.pending() =~= it0.segments@[ii].pending());
                                    }
                                }
                                assert(self.rem_seq() =~~= it0.rem_seq());
                                assert(self.remaining() =~= it0.remaining());
                            }
                            finished = true;
                        },
                        Err(DecodeError::Corrupt) => {
                            self.segments.insert(i, seg);
                            return Err(Error::Decode);
                        },
                    }
                }
            }
            i = i + 1;
        }
        Ok(())
    }

    /// Heap step: refill if some segment ran dry, then pop the queue
    /// minimum, decrement its segment's live count, and schedule a refill if
    /// that count just hit zero. A corrupt decode during the refill is
    /// surfaced as the error, before any item is taken.
    #[verifier::rlimit(100)]
    fn next_heap(&mut self) -> (r: Option<Result<T, Error>>)
        requires
            old(self).inv(),
            !old(self).failed,
            !old(self).error_pending,
            old(self).mode is Heap,
        ensures
            final(self).inv(),
            final(self).same_shape(*old(self)),
            match r {
                None => {
                    &&& !final(self).failed
                    &&& final(self).produced() == old(self).produced()
                    &&& final(self).remaining() == old(self).remaining()
                    &&& final(self).remaining().len() == 0
                },
                Some(rr) => match rr {
                    Ok(v) => {
                        &&& old(self).remaining().count(v) > 0
                        &&& min_of(old(self).cmp, old(self).remaining(), v)
                        &&& final(self).produced() == old(self).produced().push(v)
                        &&& !final(self).failed
                        &&& !final(self).error_pending
                        &&& final(self).remaining() == old(self).remaining().remove(v)
                    },
                    Err(_) => {
                        &&& final(self).failed
                        &&& !final(self).error_pending
                        &&& final(self).produced() == old(self).produced()
                    },
                },
            },
            old(self).segments@.len() == 0 ==> (match r {
                Some(rr) => rr is Ok,
                None => true,
            }),
    {
        broadcast use vstd::seq_lib::group_to_multiset_ensures;

        let ghost pre = *self;
        if self.needs_fill {
            let filled = self.fill_heap();
            if filled.is_err() {
                self.failed = true;
                return Some(Err(Error::Decode));
            }
            let ghost pf = *self;
            self.needs_fill = false;
            proof {
                Self::lemma_remaining_frame(*self, pf);
                Self::lemma_heap_state_frame(*self, pf);
            }
        }
        let ghost mid = *self;
        proof {
            assert(pre.track_inv());
            assert(mid.produced() == pre.produced());
            assert(mid.remaining() == pre.remaining());
            assert(mid.input() == pre.input());
            assert(mid.cmp == pre.cmp);
            assert(mid.mode is Heap);
            assert(mid.heap_core());
            assert(mid.all_live());
            assert(mid.mode_inv());
            assert(mid.produced().to_multiset().add(mid.remaining()) == mid.input());
            assert(sorted_cmp(mid.cmp, mid.produced()));
            assert forall|k: int, y: T|
                #![trigger mid.produced()[k], mid.remaining().count(y)]
                0 <= k < mid.produced().len() && mid.remaining().count(y) > 0 implies mid.cmp.le(
                mid.produced()[k],
                y,
            ) by {
                assert(pre.produced()[k] == mid.produced()[k]);
                assert(pre.remaining().count(y) > 0);
            }
            assert(mid.track_inv());
        }
        match self.heap.pop() {
            None => {
                proof {
                    assert forall|j: int|
                        0 <= j < mid.rem_seq().len() implies (#[trigger] mid.rem_seq()[j]).len()
                        == 0 by {
                        assert(mid.heap_seg_inv(j));
                        let s = mid.segments@[j];
                        assert(count_idx(mid.heap@, j) == 0);
                        assert(s.done);
                        assert(s.pending().len() == 0);
                        lemma_empty_multiset(s.pending());
                    }
                    lemma_ms_fold_empty(mid.rem_seq());
                    Self::lemma_remaining_frame(*self, mid);
                    Self::lemma_track_frame(*self, mid);
                }
                None
            },
            Some(e) => {
                let ghost pq = mid.heap@;
                let ghost v = e.value;
                proof {
                    assert(mid.entry_inv(pq[pq.len() - 1]));
                    assert((e.segment_index as int) < self.segments@.len());
                    assert(mid.heap_seg_inv(e.segment_index as int));
                    lemma_count_idx_nonneg(pq.drop_last(), e.segment_index as int);
                }
                let sidx = e.segment_index;
                let mut seg = self.segments.remove(sidx);
                seg.heap_count = seg.heap_count - 1;
                let stale = seg.heap_count == 0 && !seg.done;
                let ghost sg = seg;
                self.segments.insert(sidx, seg);
                if stale {
                    self.needs_fill = true;
                }
                proof {
                    self.produced_seq@ = mid.produced_seq@.push(v);
                    let si = sidx as int;
                    mid.segments@.remove_ensures(si);
                    mid.segments@.remove(si).insert_ensures(si, sg);
                    assert(self.segments@ =~= mid.segments@.update(si, sg));
                    // the popped value is in what remained, and is minimal
                    assert(queue_ms(pq).count(v) > 0);
                    assert(mid.remaining().count(v) > 0);
                    assert forall|y: T| #[trigger] mid.remaining().count(y) > 0 implies mid.cmp.le(
                        v,
                        y,
                    ) by {
                        if queue_ms(pq).count(y) > 0 {
                            lemma_queue_ms_member(pq, y);
                            let k = choose|k: int| 0 <= k < pq.len() && (#[trigger] pq[k]).value
                                == y;
                            if k == pq.len() - 1 {
                                mid.cmp.le_total(v, v);
                            } else {
                                assert(mid.cmp.le(pq[pq.len() - 1].value, pq[k].value));
                            }
                        } else {
                            lemma_ms_fold_member(mid.rem_seq(), y);
                            let j = choose|j: int|
                                0 <= j < mid.rem_seq().len() && (#[trigger] mid.rem_seq()[j]).count(
                                    y,
                                ) > 0;
                            assert(mid.heap_seg_inv(j));
                            let sj = mid.segments@[j];
                            vstd::seq_lib::to_multiset_contains(sj.pending(), y);
                            assert(sj.pending().contains(y));
                            let p = choose|p: int| 0 <= p < sj.pending().len() && sj.pending()[p]
                                == y;
                            assert(sj.items()[sj.consumed() + p] == y);
                            assert(!sj.done);
                            assert(sj.heap_count >= 1);
                            lemma_count_idx_exists(pq, j);
                            let k = choose|k: int|
                                0 <= k < pq.len() && (#[trigger] pq[k]).segment_index == j;
                            if k == pq.len() - 1 {
                                mid.cmp.le_total(v, v);
                                assert(mid.cmp.le(v, pq[k].value));
                            } else {
                                assert(mid.cmp.le(pq[pq.len() - 1].value, pq[k].value));
                            }
                            assert(mid.entry_inv(pq[k]));
                            let m = choose|m: int|
                                0 <= m < mid.segments@[j].consumed() && pq[k].value
                                    == #[trigger] mid.segments@[j].items()[m];
                            assert(mid.cmp.le(sj.items()[m], sj.items()[sj.consumed() + p]));
                            mid.cmp.le_trans(v, pq[k].value, y);
                        }
                    }
                    // bookkeeping after the pop
                    assert(self.heap@ == pq.drop_last());
                    assert forall|j: int|
                        0 <= j < self.segments@.len() implies #[trigger] self.heap_seg_inv(j) by {
                        assert(mid.heap_seg_inv(j));
                        if j == si {
                            assert(sg.items() == mid.segments@[si].items());
                            assert(sorted_cmp(self.cmp, sg.items()));
                        }
                    }
                    assert forall|k: int|
                        0 <= k < self.heap@.len() implies self.entry_inv(#[trigger] self.heap@[k]) by {
                        assert(self.heap@[k] == pq[k]);
                        assert(mid.entry_inv(pq[k]));
                        let e0 = pq[k];
                        let j0 = choose|j0: int|
                            0 <= j0 < mid.segments@[e0.segment_index as int].consumed() && e0.value
                                == #[trigger] mid.segments@[e0.segment_index as int].items()[j0];
                        assert(e0.value == self.segments@[e0.segment_index as int].items()[j0]);
                    }
                    assert(entries_sorted(self.cmp, self.heap@)) by {
                        assert forall|a: int, b: int|
                            0 <= a < b < self.heap@.len() implies #[trigger] self.cmp.le(
                            self.heap@[b].value,
                            self.heap@[a].value,
                        ) by {
                            assert(mid.cmp.le(pq[b].value, pq[a].value));
                        }
                    }
                    // the remaining multiset lost exactly the popped value
                    assert forall|j: int|
                        0 <= j < self.rem_seq().len() implies self.rem_seq()[j]
                        == mid.rem_seq()[j] by {
                        if j != si {
                            assert(self.segments@[j] == mid.segments@[j]);
                        } else {
                            assert(sg.pending() =~= mid.segments@[si].pending());
                        }
                    }
                    assert(self.rem_seq() =~~= mid.rem_seq());
                    assert(queue_ms(pq) == queue_ms(pq.drop_last()).insert(v));
                    assert(self.remaining() =~= mid.remaining().remove(v));
                    // mode bookkeeping for the next step
                    if !self.needs_fill {
                        assert forall|j: int|
                            0 <= j < self.segments@.len() && !(#[trigger] self.segments@[j]).done implies self.segments@[j].heap_count
                            >= 1 by {
                            if j != si {
                                assert(mid.segments@[j] == self.segments@[j]);
                            }
                        }
                    }
                    Self::lemma_deliver(mid, *self, v);
                }
                Some(Ok(e.value))
            },
        }
    }

    /// Produces the next item of the merged output.
    ///
    /// While no decode has failed: `None` means the output is complete —
    /// everything accumulated was already returned; `Some(Ok(v))` hands out
    /// an item that sorts no later than anything still remaining, so the
    /// whole output is ascending under the comparator and carries exactly
    /// the accumulated items; `Some(Err(_))` surfaces a decode failure in
    /// place of an item. After an error the iterator produces nothing
    /// further: it is safe to keep calling, and only `None` or the pending
    /// error come back.
    pub fn next(&mut self) -> (r: Option<Result<T, Error>>)
        requires
            old(self).inv(),
        ensures
            final(self).inv(),
            final(self).input() == old(self).input(),
            final(self).count_spec() == old(self).count_spec(),
            final(self).cmp_spec() == old(self).cmp_spec(),
            final(self).num_segments() == old(self).num_segments(),
            final(self).pending_error() ==> final(self).errored(),
            old(self).errored() ==> final(self).errored(),
            old(self).pending_error() ==> (r matches Some(rr) && rr is Err)
                && !final(self).pending_error(),
            (old(self).errored() && !old(self).pending_error()) ==> {
                &&& r is None
                &&& !final(self).pending_error()
            },
            old(self).errored() ==> {
                &&& final(self).produced() == old(self).produced()
                &&& (r is None || (r matches Some(rr) && rr is Err))
            },
            !old(self).errored() ==> match r {
                None => {
                    &&& !final(self).errored()
                    &&& final(self).produced() == old(self).produced()
                    &&& final(self).remaining() == old(self).remaining()
                    &&& final(self).remaining().len() == 0
                },
                Some(rr) => match rr {
                    Ok(v) => {
                        &&& old(self).remaining().count(v) > 0
                        &&& min_of(old(self).cmp_spec(), old(self).remaining(), v)
                        &&& final(self).produced() == old(self).produced().push(v)
                        &&& (final(self).errored() ==> final(self).pending_error())
                        &&& (!final(self).errored() ==> final(self).remaining() == old(
                            self,
                        ).remaining().remove(v))
                    },
                    Err(_) => {
                        &&& final(self).errored()
                        &&& !final(self).pending_error()
                        &&& final(self).produced() == old(self).produced()
                    },
                },
            },
            (!old(self).errored() && old(self).num_segments() == 0) ==> (match r {
                Some(rr) => rr is Ok,
                None => true,
            }),
    {
        if self.error_pending {
            self.error_pending = false;
            return Some(Err(Error::Decode));
        }
        if self.failed {
            return None;
        }
        match self.mode {
            MergeMode::Passthrough => self.next_passthrough(),
            MergeMode::Peek => self.next_peek(),
            MergeMode::Heap => self.next_heap(),
        }
    }
}

} // verus!
