//! Configuration front-end.
//!
//! [`ExternalSorter`] collects the numeric options of a sort and constructs
//! the push engine, either directly (`pushed*`) or wrapped in one-shot entry
//! points that consume a whole input sequence (`sort*`).

use vstd::multiset::Multiset;
use vstd::prelude::*;

use crate::Error;
use crate::ExternalSorterOptions;
use crate::codec::Sortable;
use crate::iter::SortedIterator;
use crate::order::Comparator;
use crate::order::KeyComparator;
use crate::order::KeyFn;
use crate::order::NaturalComparator;
use crate::order::NaturalOrder;
use crate::push::PushExternalSorter;
use crate::push::expected_segments;

verus! {

/// Configures and constructs external sorts.
///
/// An in-memory buffer is sorted and spilled as an encoded segment each time
/// it grows past the segment size; the result is a lazy iterator merging the
/// buffered remainder and all segments.
pub struct ExternalSorter {
    options: ExternalSorterOptions,
}

impl ExternalSorter {
    /// The configured maximum buffer length before a spill.
    pub closed spec fn segment_size(self) -> int {
        self.options.segment_size as int
    }

    /// The configured segment count at which the merge switches to the
    /// heap-based strategy.
    pub closed spec fn heap_iter_segment_count(self) -> int {
        self.options.heap_iter_segment_count as int
    }

    /// The configured directory for segment data, if any.
    pub closed spec fn sort_dir(self) -> Option<Seq<char>> {
        match self.options.sort_dir {
            Some(d) => Some(d@),
            None => None,
        }
    }

    /// Whether buffers are sorted across several cores.
    pub closed spec fn parallel(self) -> bool {
        self.options.parallel
    }

    /// A sorter with the default configuration: segment size 10000, heap
    /// merge from 20 segments on, a scratch location owned by the sort, and
    /// sequential buffer sorting.
    pub fn new() -> (r: ExternalSorter)
        ensures
            r.segment_size() == 10000,
            r.heap_iter_segment_count() == 20,
            r.sort_dir() is None,
            !r.parallel(),
    {
        ExternalSorter { options: ExternalSorterOptions::defaults() }
    }

    /// Sets the maximum size of each segment in number of sorted items.
    ///
    /// This number of items needs to fit in memory: while sorting, an
    /// in-memory buffer collects the items to be sorted, and once it exceeds
    /// this size it is sorted and spilled as a segment.
    pub fn with_segment_size(self, size: usize) -> (r: Self)
        ensures
            r.segment_size() == size as int,
            r.heap_iter_segment_count() == self.heap_iter_segment_count(),
            r.sort_dir() == self.sort_dir(),
            r.parallel() == self.parallel(),
    {
        let mut options = self.options;
        options.segment_size = size;
        ExternalSorter { options }
    }

    /// Sets the directory in which segment data is to be kept when the
    /// embedding program stores segments on disk: it takes each spilled
    /// run out through `PushExternalSorter::export_segments`, writes it
    /// there, and hands the runs back at finalization.
    ///
    /// Default is a scratch location owned by the sort.
    pub fn with_sort_dir(self, path: String) -> (r: Self)
        ensures
            r.sort_dir() == Some(path@),
            r.segment_size() == self.segment_size(),
            r.heap_iter_segment_count() == self.heap_iter_segment_count(),
            r.parallel() == self.parallel(),
    {
        let mut options = self.options;
        options.sort_dir = Some(path);
        ExternalSorter { options }
    }

    /// Sorts each in-memory buffer across the available cores before it is
    /// spilled.
    ///
    /// This may not pay off unless the buffer is big enough for parallelism
    /// to win over the overhead of coordinating threads.
    pub fn with_parallel_sort(self) -> (r: Self)
        ensures
            r.parallel(),
            r.segment_size() == self.segment_size(),
            r.heap_iter_segment_count() == self.heap_iter_segment_count(),
            r.sort_dir() == self.sort_dir(),
    {
        let mut options = self.options;
        options.parallel = true;
        ExternalSorter { options }
    }

    /// From how many segments on the merge iterator switches to a priority
    /// queue keeping track of the smallest item of each segment.
    ///
    /// For a small number of segments it is faster to peek over all segment
    /// heads at each step than to maintain the queue.
    pub fn with_heap_iter_segment_count(self, count: usize) -> (r: Self)
        ensures
            r.heap_iter_segment_count() == count as int,
            r.segment_size() == self.segment_size(),
            r.sort_dir() == self.sort_dir(),
            r.parallel() == self.parallel(),
    {
        let mut options = self.options;
        options.heap_iter_segment_count = count;
        ExternalSorter { options }
    }

    /// The directory configured for segment data, for the embedding program
    /// to store exported runs in; `None` asks it to use a scratch location
    /// of its own.
    pub fn sort_dir_setting(&self) -> (r: Option<&String>)
        ensures
            match r {
                Some(d) => self.sort_dir() == Some(d@),
                None => self.sort_dir() is None,
            },
    {
        self.options.sort_dir.as_ref()
    }

    /// Sorts a given sequence by its items' natural order, returning the
    /// lazy iterator over the sorted items. See [`Self::sort_by`].
    pub fn sort<T: Sortable + NaturalOrder>(self, items: Vec<T>) -> (res: Result<
        SortedIterator<T, NaturalComparator>,
        Error,
    >)
        requires
            items@.len() <= u64::MAX,
        ensures
            res matches Ok(it) ==> {
                &&& it.inv()
                &&& !it.errored()
                &&& it.produced() == Seq::<T>::empty()
                &&& it.input() == items@.to_multiset()
                &&& it.remaining() == items@.to_multiset()
                &&& it.count_spec() == items@.len()
                &&& it.cmp_spec() == NaturalComparator
                &&& it.num_segments() == expected_segments(
                    items@.len() as int,
                    self.segment_size(),
                )
            },
            items@.len() <= self.segment_size() ==> res is Ok,
    {
        self.sort_by(items, NaturalComparator)
    }

    /// Sorts a given sequence by the keys a [`KeyFn`] extracts, returning
    /// the lazy iterator over the sorted items. See [`Self::sort_by`].
    pub fn sort_by_key<T: Sortable, F: KeyFn<T>>(self, items: Vec<T>, f: F) -> (res: Result<
        SortedIterator<T, KeyComparator<F>>,
        Error,
    >)
        requires
            items@.len() <= u64::MAX,
        ensures
            res matches Ok(it) ==> {
                &&& it.inv()
                &&& !it.errored()
                &&& it.produced() == Seq::<T>::empty()
                &&& it.input() == items@.to_multiset()
                &&& it.remaining() == items@.to_multiset()
                &&& it.count_spec() == items@.len()
                &&& it.cmp_spec() == (KeyComparator { f })
                &&& it.num_segments() == expected_segments(
                    items@.len() as int,
                    self.segment_size(),
                )
            },
            items@.len() <= self.segment_size() ==> res is Ok,
    {
        self.sort_by(items, KeyComparator { f })
    }

    /// Sorts a given sequence by the given comparator, fully consuming it
    /// through the push engine and returning the lazy iterator over the
    /// sorted items.
    ///
    /// The iterator starts over exactly the input's items, counts them, and
    /// spills segments by the spill-then-finalize arithmetic. An error can
    /// come only from the codec (`encode` while spilling, or the first
    /// decode of each segment when the linear-scan merge is set up); in
    /// particular, an input that fits in one buffer always succeeds, without
    /// any segment.
    pub fn sort_by<T: Sortable, C: Comparator<T>>(self, items: Vec<T>, cmp: C) -> (res: Result<
        SortedIterator<T, C>,
        Error,
    >)
        requires
            items@.len() <= u64::MAX,
        ensures
            res matches Ok(it) ==> {
                &&& it.inv()
                &&& !it.errored()
                &&& it.produced() == Seq::<T>::empty()
                &&& it.input() == items@.to_multiset()
                &&& it.remaining() == items@.to_multiset()
                &&& it.count_spec() == items@.len()
                &&& it.cmp_spec() == cmp
                &&& it.num_segments() == expected_segments(
                    items@.len() as int,
                    self.segment_size(),
                )
            },
            items@.len() <= self.segment_size() ==> res is Ok,
    {
        let ghost n = items@.len();
        let ghost sz = self.segment_size();
        let mut sorter = PushExternalSorter::new(self.options, cmp);
        let pushed = sorter.push_iter(items);
        if pushed.is_err() {
            return Err(Error::Encode);
        }
        proof {
            assert(sorter.contents() =~= items@.to_multiset());
            if n <= sz {
                sorter.lemma_small_sort_in_memory();
            }
        }
        sorter.done()
    }

    /// Creates a push engine that compares items by their natural order.
    pub fn pushed<T: Sortable + NaturalOrder>(self) -> (s: PushExternalSorter<
        T,
        NaturalComparator,
    >)
        ensures
            s.wf(),
            s.contents() == Multiset::<T>::empty(),
            s.count_spec() == 0,
            s.segment_size() == self.segment_size(),
            s.heap_iter_segment_count() == self.heap_iter_segment_count(),
            s.parallel() == self.parallel(),
            s.cmp_spec() == NaturalComparator,
            s.num_exported() == 0,
    {
        self.pushed_by(NaturalComparator)
    }

    /// Creates a push engine that compares items by the given comparator.
    pub fn pushed_by<T: Sortable, C: Comparator<T>>(self, cmp: C) -> (s: PushExternalSorter<T, C>)
        ensures
            s.wf(),
            s.contents() == Multiset::<T>::empty(),
            s.count_spec() == 0,
            s.segment_size() == self.segment_size(),
            s.heap_iter_segment_count() == self.heap_iter_segment_count(),
            s.parallel() == self.parallel(),
            s.cmp_spec() == cmp,
            s.num_exported() == 0,
    {
        PushExternalSorter::new(self.options, cmp)
    }

    /// Creates a push engine that compares items by the keys a [`KeyFn`]
    /// extracts.
    pub fn pushed_by_key<T: Sortable, F: KeyFn<T>>(self, f: F) -> (s: PushExternalSorter<
        T,
        KeyComparator<F>,
    >)
        ensures
            s.wf(),
            s.contents() == Multiset::<T>::empty(),
            s.count_spec() == 0,
            s.segment_size() == self.segment_size(),
            s.heap_iter_segment_count() == self.heap_iter_segment_count(),
            s.parallel() == self.parallel(),
            s.cmp_spec() == (KeyComparator { f }),
            s.num_exported() == 0,
    {
        self.pushed_by(KeyComparator { f })
    }
}

impl Default for ExternalSorter {
    fn default() -> (r: Self)
        ensures
            r.segment_size() == 10000,
            r.heap_iter_segment_count() == 20,
            r.sort_dir() is None,
            !r.parallel(),
    {
        ExternalSorter::new()
    }
}

} // verus!
