//! The push accumulator: items are pushed one at a time into an in-memory
//! buffer; each time the buffer grows past the configured segment size it is
//! sorted and spilled as one segment. `done` finalizes the engine into the
//! merge iterator.
//!
//! The engine's items are conserved exactly: `contents()` — the multiset of
//! everything pushed — grows by one item per `push`, and finalization hands
//! the whole of it to the iterator. An accumulation-phase failure (a codec
//! `encode` error) aborts the sort with the items still accounted for.
//!
//! A finished segment is a plain encoded byte run. By default the engine
//! keeps the runs in memory; an embedding program that stores them on disk
//! instead takes each run out through [`PushExternalSorter::export_segments`]
//! right after pushing, and hands the same runs back to
//! [`PushExternalSorter::done_with_segments`] when accumulation ends.

use std::collections::VecDeque;
use vstd::multiset::Multiset;
use vstd::prelude::*;

use crate::Error;
use crate::ExternalSorterOptions;
use crate::bufsort::par_sort_buffer;
use crate::bufsort::sort_buffer;
use crate::codec::SegmentReader;
use crate::codec::Sortable;
use crate::codec::encoding_of;
use crate::iter::SortedIterator;
use crate::order::Comparator;
use crate::order::sorted_cmp;
use crate::segment::Segment;
use crate::segment::lemma_empty_multiset;
use crate::segment::lemma_ms_fold_append;
use crate::segment::lemma_ms_fold_remove_first;
use crate::segment::lemma_runs_multiset_push;
use crate::segment::lemma_segs_multiset_push;
use crate::segment::segment_from_items;
use crate::segment::runs_multiset;
use crate::segment::segs_multiset;
use crate::segment::segs_ok;

verus! {

/// How many segments a sort of `n` items spills with segment size `s`: a
/// spill happens each time the buffer reaches `s + 1` items, and a non-empty
/// final remainder is flushed as one last segment if anything was spilled at
/// all.
pub open spec fn expected_segments(n: int, s: int) -> int {
    let full = n / (s + 1);
    if full == 0 {
        0
    } else if n % (s + 1) == 0 {
        full
    } else {
        full + 1
    }
}

/// External sorter that uses a "push" pattern instead of consuming a whole
/// sequence at once.
///
/// It is what the one-shot entry points of `ExternalSorter` run on, but it
/// can also be used directly to sort items as they arrive.
pub struct PushExternalSorter<T: Sortable, C: Comparator<T>> {
    options: ExternalSorterOptions,
    count: u64,
    exported_count: u64,
    segments: Vec<Segment<T>>,
    buffer: Vec<T>,
    cmp: C,
    exported: Ghost<Seq<Seq<T>>>,
}

impl<T: Sortable, C: Comparator<T>> PushExternalSorter<T, C> {
    /// The multiset of every item accepted so far: the runs handed out for
    /// storage, the segments still held, and the buffer.
    pub closed spec fn contents(self) -> Multiset<T> {
        runs_multiset(self.exported@).add(segs_multiset(self.segments@)).add(
            self.buffer@.to_multiset(),
        )
    }

    /// The running item count.
    pub closed spec fn count_spec(self) -> int {
        self.count as int
    }

    /// The configured maximum buffer length before a spill.
    pub closed spec fn segment_size(self) -> int {
        self.options.segment_size as int
    }

    /// The configured segment count at which the merge switches strategy.
    pub closed spec fn heap_iter_segment_count(self) -> int {
        self.options.heap_iter_segment_count as int
    }

    /// Whether buffers are sorted across several cores.
    pub closed spec fn parallel(self) -> bool {
        self.options.parallel
    }

    /// The comparator every output is ascending under.
    pub closed spec fn cmp_spec(self) -> C {
        self.cmp
    }

    /// The directory configured for segment data, if any.
    pub closed spec fn sort_dir_spec(self) -> Option<Seq<char>> {
        match self.options.sort_dir {
            Some(d) => Some(d@),
            None => None,
        }
    }

    /// The directory configured for segment data, for the embedding program
    /// to store exported runs in; `None` asks it to use a scratch location
    /// of its own.
    pub fn sort_dir_setting(&self) -> (r: Option<&String>)
        ensures
            match r {
                Some(d) => self.sort_dir_spec() == Some(d@),
                None => self.sort_dir_spec() is None,
            },
    {
        self.options.sort_dir.as_ref()
    }

    /// How many items currently wait in the in-memory buffer.
    pub closed spec fn buffered(self) -> int {
        self.buffer@.len() as int
    }

    /// The items currently waiting in the in-memory buffer, in push order.
    pub closed spec fn buffer_view(self) -> Seq<T> {
        self.buffer@
    }

    /// How many segments were spilled so far, handed out or still held.
    pub closed spec fn num_segments(self) -> int {
        self.exported@.len() + self.segments@.len() as int
    }

    /// The item runs of the segments handed out through `export_segments`,
    /// oldest first.
    pub closed spec fn exported_runs(self) -> Seq<Seq<T>> {
        self.exported@
    }

    /// How many spilled segments were handed out and have to come back at
    /// finalization.
    pub closed spec fn num_exported(self) -> int {
        self.exported@.len() as int
    }

    /// The engine's invariant: segments are sorted, fully unread runs of
    /// exactly `segment_size + 1` items each, the buffer holds the rest, and
    /// the count adds up.
    pub closed spec fn wf(self) -> bool {
        &&& segs_ok(self.cmp, self.segments@)
        &&& forall|i: int|
            0 <= i < self.segments@.len() ==> (#[trigger] self.segments@[i]).items().len()
                == self.segment_size() + 1
        &&& forall|i: int|
            0 <= i < self.exported@.len() ==> sorted_cmp(self.cmp, #[trigger] self.exported@[i])
                && self.exported@[i].len() == self.segment_size() + 1
        &&& self.exported_count as int == self.exported@.len()
        &&& self.buffer@.len() <= self.segment_size()
        &&& self.count as int == (self.exported@.len() + self.segments@.len()) * (
        self.segment_size() + 1) + self.buffer@.len()
        &&& self.contents().len() == self.count as int
    }

    /// A fresh, empty engine.
    pub(crate) fn new(options: ExternalSorterOptions, cmp: C) -> (s: Self)
        ensures
            s.wf(),
            s.contents() == Multiset::<T>::empty(),
            s.count_spec() == 0,
            s.segment_size() == options.segment_size as int,
            s.heap_iter_segment_count() == options.heap_iter_segment_count as int,
            s.parallel() == options.parallel,
            s.cmp_spec() == cmp,
            s.num_exported() == 0,
    {
        let s = PushExternalSorter {
            options,
            count: 0,
            exported_count: 0,
            segments: Vec::new(),
            buffer: Vec::new(),
            cmp,
            exported: Ghost(Seq::empty()),
        };
        proof {
            lemma_empty_multiset(Seq::<T>::empty());
            let f = |r: Seq<T>| r.to_multiset();
            assert(s.exported@.map_values(f).len() == 0);
            assert(s.contents() =~= Multiset::<T>::empty());
        }
        s
    }

    /// Sorts the buffer (in parallel when configured) and appends it as one
    /// new segment, emptying the buffer. Fails only if the codec's `encode`
    /// fails; the engine's items are kept either way.
    fn spill(&mut self) -> (r: Result<(), Error>)
        requires
            segs_ok(old(self).cmp, old(self).segments@),
            old(self).buffer@.len() > 0,
        ensures
            final(self).options == old(self).options,
            final(self).cmp == old(self).cmp,
            final(self).count == old(self).count,
            final(self).exported == old(self).exported,
            final(self).exported_count == old(self).exported_count,
            final(self).contents() == old(self).contents(),
            r is Ok ==> {
                &&& final(self).segments@.len() == old(self).segments@.len() + 1
                &&& final(self).segments@ == old(self).segments@.push(
                    final(self).segments@.last(),
                )
                &&& final(self).segments@.last().items().len() == old(self).buffer@.len()
                &&& final(self).buffer@.len() == 0
                &&& segs_ok(final(self).cmp, final(self).segments@)
            },
            r is Err ==> {
                &&& final(self).segments@ == old(self).segments@
                &&& final(self).buffer@.to_multiset() == old(self).buffer@.to_multiset()
                &&& final(self).buffer@.len() == old(self).buffer@.len()
            },
    {
        broadcast use vstd::seq_lib::group_to_multiset_ensures;

        if self.options.parallel {
            par_sort_buffer(&self.cmp, &mut self.buffer);
        } else {
            sort_buffer(&self.cmp, &mut self.buffer);
        }
        let seg = match segment_from_items(&self.buffer) {
            Ok(seg) => seg,
            Err(e) => {
                proof {
                    assert(self.contents() =~= old(self).contents());
                }
                return Err(e);
            },
        };
        let ghost presegs = self.segments@;
        let ghost prebuf = self.buffer@;
        let ghost sg = seg;
        self.segments.push(seg);
        self.buffer.clear();
        proof {
            lemma_segs_multiset_push(presegs, sg);
            lemma_empty_multiset(self.buffer@);
            assert(self.contents() =~= runs_multiset(self.exported@).add(
                segs_multiset(presegs),
            ).add(prebuf.to_multiset()));
            assert(self.contents() =~= old(self).contents());
            assert(self.segments@.drop_last() =~= presegs);
            assert forall|i: int| 0 <= i < self.segments@.len() implies {
                let s = #[trigger] self.segments@[i];
                &&& s.wf()
                &&& s.consumed() == 0
                &&& s.heap_count == 0
                &&& !s.done
                &&& sorted_cmp(self.cmp, s.items())
                &&& s.items().len() > 0
            } by {
                if i < presegs.len() {
                    assert(self.segments@[i] == presegs[i]);
                    assert(segs_ok(self.cmp, presegs));
                } else {
                    assert(self.segments@[i] == sg);
                }
            }
        }
        Ok(())
    }

    /// Pushes a single item into the sorter, spilling a segment once the
    /// buffer exceeds the segment size. An error can come only from such a
    /// spill (the buffer was full and the codec's `encode` failed); the
    /// engine still holds every item then, but is not usable further.
    pub fn push(&mut self, item: T) -> (r: Result<(), Error>)
        requires
            old(self).wf(),
            old(self).count_spec() < u64::MAX,
        ensures
            final(self).count_spec() == old(self).count_spec() + 1,
            final(self).contents() == old(self).contents().insert(item),
            final(self).segment_size() == old(self).segment_size(),
            final(self).heap_iter_segment_count() == old(self).heap_iter_segment_count(),
            final(self).parallel() == old(self).parallel(),
            final(self).cmp_spec() == old(self).cmp_spec(),
            r is Ok ==> final(self).wf(),
            r is Err ==> old(self).buffered() == old(self).segment_size(),
            final(self).exported_runs() == old(self).exported_runs(),
            final(self).num_exported() == old(self).num_exported(),
            old(self).buffered() < old(self).segment_size() ==> {
                &&& r is Ok
                &&& final(self).buffer_view() == old(self).buffer_view().push(item)
                &&& final(self).num_segments() == old(self).num_segments()
            },
    {
        broadcast use vstd::seq_lib::group_to_multiset_ensures;

        let ghost pre = *self;
        self.buffer.push(item);
        self.count = self.count + 1;
        proof {
            assert(self.buffer@.to_multiset() == pre.buffer@.to_multiset().insert(item));
            assert(self.contents() =~= pre.contents().insert(item));
        }
        if self.buffer.len() > self.options.segment_size {
            let ghost atspill = *self;
            let r = self.spill();
            if r.is_err() {
                return Err(Error::Encode);
            }
            proof {
                let n = pre.num_exported() + pre.segments@.len();
                let s = pre.segment_size();
                assert((n + 1) * (s + 1) == n * (s + 1) + (s + 1)) by (nonlinear_arith);
                assert(self.segments@.drop_last() =~= atspill.segments@);
                assert(self.segments@.last().items().len() == s + 1);
                assert forall|i: int| 0 <= i < self.segments@.len() implies (#[trigger] self.segments@[i]).items().len()
                    == self.segment_size() + 1 by {
                    if i < atspill.segments@.len() {
                        assert(self.segments@[i] == atspill.segments@[i]);
                        assert(atspill.segments@[i].items().len() == pre.segment_size() + 1);
                    }
                }
            }
            return Ok(());
        }
        Ok(())
    }

    /// Pushes every element of `items` in order: equivalent to repeated
    /// `push`.
    pub fn push_iter(&mut self, items: Vec<T>) -> (r: Result<(), Error>)
        requires
            old(self).wf(),
            old(self).count_spec() + items@.len() <= u64::MAX,
        ensures
            final(self).segment_size() == old(self).segment_size(),
            final(self).heap_iter_segment_count() == old(self).heap_iter_segment_count(),
            final(self).parallel() == old(self).parallel(),
            final(self).cmp_spec() == old(self).cmp_spec(),
            final(self).exported_runs() == old(self).exported_runs(),
            final(self).num_exported() == old(self).num_exported(),
            r is Ok ==> final(self).wf() && final(self).contents() == old(self).contents().add(
                items@.to_multiset(),
            ) && final(self).count_spec() == old(self).count_spec() + items@.len(),
            r is Err ==> old(self).count_spec() + items@.len() > old(self).segment_size(),
            r is Err ==> exists|k: int|
                #![trigger items@.take(k + 1)]
                0 <= k < items@.len() && final(self).contents() == old(self).contents().add(
                    items@.take(k + 1).to_multiset(),
                ) && final(self).count_spec() == old(self).count_spec() + k + 1,
    {
        broadcast use vstd::seq_lib::group_to_multiset_ensures;

        let ghost all = items@;
        let mut rest = items;
        proof {
            assert(all.take(0) =~= Seq::<T>::empty());
            lemma_empty_multiset(all.take(0));
            assert(self.contents() =~= old(self).contents().add(all.take(0).to_multiset()));
            assert(rest@ =~= all.skip(0));
        }
        while rest.len() > 0
            invariant
                all == items@,
                self.wf(),
                self.count_spec() + rest@.len() <= u64::MAX,
                rest@.len() <= all.len(),
                rest@ == all.skip(all.len() - rest@.len()),
                self.contents() == old(self).contents().add(
                    all.take(all.len() - rest@.len()).to_multiset(),
                ),
                self.count_spec() + rest@.len() == old(self).count_spec() + all.len(),
                self.segment_size() == old(self).segment_size(),
                self.heap_iter_segment_count() == old(self).heap_iter_segment_count(),
                self.parallel() == old(self).parallel(),
                self.cmp_spec() == old(self).cmp_spec(),
                self.exported_runs() == old(self).exported_runs(),
            decreases rest@.len(),
        {
            let ghost prerest = rest@;
            let ghost j = all.len() - prerest.len();
            proof {
                assert(rest@ == all.skip(all.len() - rest@.len()));
                assert(prerest == all.skip(j));
                assert(0 <= j < all.len());
                assert(prerest[0] == all.skip(j)[0]);
            }
            let x = rest.remove(0);
            proof {
                assert(prerest[0] == all[j]);
                assert(x == all[j]);
                assert(rest@ =~= all.skip(j + 1));
                assert(all.take(j + 1) =~= all.take(j).push(all[j]));
            }
            let ghost atpush = *self;
            match self.push(x) {
                Ok(()) => {},
                Err(e) => {
                    proof {
                        // Only a full buffer can fail, so the whole batch
                        // must overflow one segment; the items up to and
                        // including the failing one were taken in.
                        let sz = atpush.segment_size();
                        let f = atpush.num_segments();
                        assert(f * (sz + 1) >= 0) by (nonlinear_arith)
                            requires
                                f >= 0,
                                sz >= 0,
                        ;
                        assert(atpush.count_spec() >= sz);
                        assert(prerest.len() >= 1);
                        vstd::seq_lib::to_multiset_build(all.take(j), all[j]);
                        assert(self.contents() =~= old(self).contents().add(
                            all.take(j + 1).to_multiset(),
                        ));
                        assert(self.count_spec() == old(self).count_spec() + j + 1);
                        assert(0 <= j < all.len());
                    }
                    return Err(e);
                },
            }
            proof {
                vstd::seq_lib::to_multiset_build(all.take(j), all[j]);
                assert(self.contents() =~= old(self).contents().add(
                    all.take(j + 1).to_multiset(),
                ));
            }
        }
        proof {
            assert(all.take(all.len() as int) =~= all);
        }
        Ok(())
    }

    /// A dataset that never exceeds the segment size never spills: the whole
    /// sort stays in memory.
    pub proof fn lemma_small_sort_in_memory(self)
        requires
            self.wf(),
            self.count_spec() <= self.segment_size(),
        ensures
            self.num_segments() == 0,
    {
        let f = self.num_segments();
        let s = self.segment_size();
        assert(f >= 1 ==> f * (s + 1) >= s + 1) by (nonlinear_arith)
            requires
                s >= 0,
        ;
    }

    /// Hands out the encoded byte runs of every spilled segment not yet
    /// handed out, oldest first, so the embedding program can keep segment
    /// data on disk — one file per run in the configured sort directory,
    /// named by its sequence number — instead of in memory. The same runs,
    /// unchanged and in the same order, come back through
    /// `done_with_segments` at finalization; until then the engine counts
    /// their items but no longer holds their bytes.
    pub fn export_segments(&mut self) -> (out: Vec<Vec<u8>>)
        requires
            old(self).wf(),
        ensures
            final(self).wf(),
            final(self).contents() == old(self).contents(),
            final(self).count_spec() == old(self).count_spec(),
            final(self).buffered() == old(self).buffered(),
            final(self).buffer_view() == old(self).buffer_view(),
            final(self).num_segments() == old(self).num_segments(),
            final(self).segment_size() == old(self).segment_size(),
            final(self).heap_iter_segment_count() == old(self).heap_iter_segment_count(),
            final(self).parallel() == old(self).parallel(),
            final(self).cmp_spec() == old(self).cmp_spec(),
            final(self).num_exported() == old(self).num_segments(),
            out@.len() == final(self).num_exported() - old(self).num_exported(),
            final(self).exported_runs().take(old(self).num_exported()) == old(
                self,
            ).exported_runs(),
            forall|i: int|
                0 <= i < out@.len() ==> out@[i]@ == encoding_of(
                    #[trigger] final(self).exported_runs()[old(self).num_exported() + i],
                ),
    {
        let ghost e0 = old(self).exported@.len() as int;
        let mut out: Vec<Vec<u8>> = Vec::new();
        proof {
            assert(self.exported@.take(e0) =~= old(self).exported@);
        }
        while self.segments.len() > 0
            invariant
                self.wf(),
                self.options == old(self).options,
                self.cmp == old(self).cmp,
                self.count == old(self).count,
                self.buffer@ == old(self).buffer@,
                self.contents() == old(self).contents(),
                e0 == old(self).exported@.len() as int,
                self.exported@.len() + self.segments@.len() == old(self).exported@.len() + old(
                    self,
                ).segments@.len(),
                self.exported@.len() >= e0,
                self.exported@.take(e0) == old(self).exported@,
                out@.len() == self.exported@.len() - e0,
                forall|i: int|
                    0 <= i < out@.len() ==> out@[i]@ == encoding_of(
                        #[trigger] self.exported@[e0 + i],
                    ),
            decreases self.segments@.len(),
        {
            let ghost pre = *self;
            let ghost presegs = self.segments@;
            let ghost preexp = self.exported@;
            proof {
                // the handed-out counter stays below the item count
                let e = preexp.len() as int;
                let n = presegs.len() as int;
                let sz = self.segment_size();
                assert((e + n) * (sz + 1) >= (e + n) * 1) by (nonlinear_arith)
                    requires
                        sz >= 0,
                        e + n >= 0,
                ;
                assert(self.exported_count < u64::MAX);
            }
            let seg = self.segments.remove(0);
            let ghost sg = seg;
            proof {
                self.exported@ = preexp.push(sg.items());
            }
            self.exported_count = self.exported_count + 1;
            let Segment { reader, .. } = seg;
            out.push(reader.data);
            proof {
                presegs.remove_ensures(0);
                let f = |sv: Segment<T>| sv.items().to_multiset();
                lemma_ms_fold_remove_first(presegs.map_values(f));
                assert(presegs.map_values(f)[0] == sg.items().to_multiset());
                assert(presegs.map_values(f).remove(0) =~= self.segments@.map_values(f));
                lemma_runs_multiset_push(preexp, sg.items());
                assert(self.contents() =~= pre.contents());
                assert(self.exported@.take(e0) =~= preexp.take(e0));
                assert forall|i: int| 0 <= i < self.segments@.len() implies {
                    let sv = #[trigger] self.segments@[i];
                    &&& sv.wf()
                    &&& sv.consumed() == 0
                    &&& sv.heap_count == 0
                    &&& !sv.done
                    &&& sorted_cmp(self.cmp, sv.items())
                    &&& sv.items().len() > 0
                    &&& sv.items().len() == self.segment_size() + 1
                } by {
                    assert(self.segments@[i] == presegs[i + 1]);
                    assert(segs_ok(pre.cmp, presegs));
                    assert(presegs[i + 1].items().len() == pre.segment_size() + 1);
                }
                assert(sg.items().len() == pre.segment_size() + 1);
                assert(sorted_cmp(self.cmp, sg.items()));
                assert(reader.data@ == encoding_of(sg.items()));
            }
        }
        out
    }

    /// Finalizes an engine whose spilled segments were handed out through
    /// `export_segments`, taking the same byte runs back, oldest first; a
    /// sort that never exported anything passes no runs (that is `done`).
    /// The runs are trusted to come back unchanged — the trust a disk-backed
    /// sort places in its storage.
    ///
    /// If nothing was ever spilled, the buffer is sorted one last time and
    /// kept as the in-memory queue (no segment exists); otherwise a
    /// non-empty buffer is flushed as one final segment and the merge runs
    /// over segments alone. The iterator starts over exactly the accumulated
    /// items, and its segment count follows the spill-then-finalize
    /// arithmetic: never more than one flush, never a kept buffer next to
    /// segments.
    pub fn done_with_segments(self, stored: Vec<Vec<u8>>) -> (res: Result<
        SortedIterator<T, C>,
        Error,
    >)
        requires
            self.wf(),
            stored@.len() == self.num_exported(),
            forall|i: int|
                0 <= i < stored@.len() ==> (#[trigger] stored@[i])@ == encoding_of(
                    self.exported_runs()[i],
                ),
        ensures
            res matches Ok(it) ==> {
                &&& it.inv()
                &&& !it.errored()
                &&& it.produced() == Seq::<T>::empty()
                &&& it.input() == self.contents()
                &&& it.remaining() == self.contents()
                &&& it.count_spec() == self.count_spec()
                &&& it.cmp_spec() == self.cmp_spec()
                &&& it.num_segments() == expected_segments(
                    self.count_spec(),
                    self.segment_size(),
                )
                &&& (self.count_spec() <= self.segment_size() ==> it.num_segments() == 0)
            },
            self.num_segments() == 0 ==> res is Ok,
            self.buffered() == 0 && self.num_segments() >= self.heap_iter_segment_count()
                ==> res is Ok,
    {
        broadcast use vstd::seq_lib::group_to_multiset_ensures;

        let ghost pre = self;
        let PushExternalSorter {
            options,
            count,
            exported_count: _,
            mut segments,
            mut buffer,
            cmp,
            exported,
        } = self;
        // Rebuild the returned runs as segments, in front of the held ones.
        let ghost runs = exported@;
        let mut rebuilt: Vec<Segment<T>> = Vec::new();
        let mut stored = stored;
        while stored.len() > 0
            invariant
                runs == pre.exported_runs(),
                rebuilt@.len() + stored@.len() == runs.len(),
                forall|i: int|
                    0 <= i < stored@.len() ==> (#[trigger] stored@[i])@ == encoding_of(
                        runs[rebuilt@.len() + i],
                    ),
                forall|i: int|
                    0 <= i < rebuilt@.len() ==> {
                        let sv = #[trigger] rebuilt@[i];
                        &&& sv.wf()
                        &&& sv.consumed() == 0
                        &&& sv.heap_count == 0
                        &&& !sv.done
                        &&& sv.items() == runs[i]
                    },
            decreases stored@.len(),
        {
            let ghost k = rebuilt@.len() as int;
            let data = stored.remove(0);
            let seg = Segment {
                reader: SegmentReader { data, pos: 0 },
                heap_count: 0,
                done: false,
                contents: Ghost(runs[k]),
                read_count: Ghost(0),
            };
            proof {
                assert(runs[k].take(0) =~= Seq::<T>::empty());
                assert(seg.wf());
            }
            rebuilt.push(seg);
        }
        let mut all_segs = rebuilt;
        let ghost rb = all_segs@;
        let ghost insegs = segments@;
        all_segs.append(&mut segments);
        proof {
            // The combined list carries exactly the accumulated segments.
            let f = |sv: Segment<T>| sv.items().to_multiset();
            let g = |r: Seq<T>| r.to_multiset();
            assert(all_segs@ == rb + insegs);
            assert((rb + insegs).map_values(f) =~= rb.map_values(f) + insegs.map_values(f));
            lemma_ms_fold_append(rb.map_values(f), insegs.map_values(f));
            assert forall|i: int|
                0 <= i < rb.len() implies rb.map_values(f)[i] == runs.map_values(g)[i] by {
                assert(rb[i].items() == runs[i]);
            }
            assert(rb.map_values(f) =~= runs.map_values(g));
            assert(segs_multiset(all_segs@) == runs_multiset(runs).add(segs_multiset(insegs)));
            assert(segs_multiset(all_segs@).add(buffer@.to_multiset()) =~= pre.contents());
            assert(segs_ok(cmp, all_segs@)) by {
                assert forall|i: int| 0 <= i < all_segs@.len() implies {
                    let sv = #[trigger] all_segs@[i];
                    &&& sv.wf()
                    &&& sv.consumed() == 0
                    &&& sv.heap_count == 0
                    &&& !sv.done
                    &&& sorted_cmp(cmp, sv.items())
                    &&& sv.items().len() > 0
                } by {
                    if i < rb.len() {
                        assert(all_segs@[i] == rb[i]);
                        assert(sorted_cmp(pre.cmp_spec(), runs[i]) && runs[i].len()
                            == pre.segment_size() + 1);
                    } else {
                        assert(all_segs@[i] == insegs[i - rb.len()]);
                        assert(segs_ok(pre.cmp_spec(), insegs));
                    }
                }
            }
            // The spill arithmetic pins the segment count.
            let n = pre.count_spec();
            let sz = pre.segment_size();
            let fc = all_segs@.len() as int;
            let b = buffer@.len() as int;
            assert(fc == pre.num_segments());
            vstd::arithmetic::div_mod::lemma_fundamental_div_mod_converse(n, sz + 1, fc, b);
            assert(n / (sz + 1) == fc && n % (sz + 1) == b);
            assert(fc >= 1 ==> fc * (sz + 1) >= sz + 1) by (nonlinear_arith)
                requires
                    sz >= 0,
            ;
        }
        if all_segs.len() == 0 {
            // Everything fit in memory: keep the buffer as the queue.
            sort_buffer(&cmp, &mut buffer);
            let ghost sortedbuf = buffer@;
            let mut queue: VecDeque<T> = VecDeque::new();
            while buffer.len() > 0
                invariant
                    queue@ + buffer@ == sortedbuf,
                decreases buffer@.len(),
            {
                let ghost prebuf = buffer@;
                let ghost preq = queue@;
                let x = buffer.remove(0);
                queue.push_back(x);
                proof {
                    assert(queue@ + buffer@ =~= preq + prebuf);
                }
            }
            proof {
                assert(queue@ =~= sortedbuf);
                let f = |sv: Segment<T>| sv.items().to_multiset();
                assert(all_segs@.map_values(f).len() == 0);
                assert(segs_multiset(all_segs@) == Multiset::<T>::empty());
                assert(pre.contents() =~= queue@.to_multiset());
            }
            SortedIterator::new(Some(queue), all_segs, count, cmp, options)
        } else {
            if buffer.len() > 0 {
                // Flush the remainder as one final segment.
                sort_buffer(&cmp, &mut buffer);
                let seg = match segment_from_items(&buffer) {
                    Ok(seg) => seg,
                    Err(e) => {
                        return Err(e);
                    },
                };
                let ghost presegs = all_segs@;
                let ghost sg = seg;
                all_segs.push(seg);
                proof {
                    lemma_segs_multiset_push(presegs, sg);
                    assert(segs_ok(cmp, all_segs@)) by {
                        assert forall|i: int| 0 <= i < all_segs@.len() implies {
                            let sv = #[trigger] all_segs@[i];
                            &&& sv.wf()
                            &&& sv.consumed() == 0
                            &&& sv.heap_count == 0
                            &&& !sv.done
                            &&& sorted_cmp(cmp, sv.items())
                            &&& sv.items().len() > 0
                        } by {
                            if i < presegs.len() {
                                assert(all_segs@[i] == presegs[i]);
                                assert(segs_ok(cmp, presegs));
                            } else {
                                assert(all_segs@[i] == sg);
                            }
                        }
                    }
                    assert(segs_multiset(all_segs@) =~= pre.contents());
                }
                SortedIterator::new(None, all_segs, count, cmp, options)
            } else {
                proof {
                    lemma_empty_multiset(buffer@);
                    assert(segs_multiset(all_segs@) =~= pre.contents());
                }
                SortedIterator::new(None, all_segs, count, cmp, options)
            }
        }
    }

    /// Finalizes an engine that kept all its segments in memory (no run was
    /// exported). See `done_with_segments`.
    pub fn done(self) -> (res: Result<SortedIterator<T, C>, Error>)
        requires
            self.wf(),
            self.num_exported() == 0,
        ensures
            res matches Ok(it) ==> {
                &&& it.inv()
                &&& !it.errored()
                &&& it.produced() == Seq::<T>::empty()
                &&& it.input() == self.contents()
                &&& it.remaining() == self.contents()
                &&& it.count_spec() == self.count_spec()
                &&& it.cmp_spec() == self.cmp_spec()
                &&& it.num_segments() == expected_segments(
                    self.count_spec(),
                    self.segment_size(),
                )
                &&& (self.count_spec() <= self.segment_size() ==> it.num_segments() == 0)
            },
            self.num_segments() == 0 ==> res is Ok,
            self.buffered() == 0 && self.num_segments() >= self.heap_iter_segment_count()
                ==> res is Ok,
    {
        self.done_with_segments(Vec::new())
    }
}

} // verus!
