//! External sorting: sorting sequences larger than the configured in-memory
//! buffer by spilling sorted, encoded runs ("segments").
//!
//! Items are accumulated in an in-memory buffer. When the buffer exceeds the
//! configured segment size it is sorted and spilled as a *segment*: a sorted
//! run of encoded items. Once accumulation is finished, a [`SortedIterator`]
//! lazily merges the buffered remainder and all segments into one ascending
//! sequence.
//!
//! The engine does no I/O of its own: by default it holds the spilled runs
//! in memory, and an embedding program that keeps them on disk instead takes
//! each run out through [`PushExternalSorter::export_segments`], stores it
//! (for instance in the directory set by [`ExternalSorter::with_sort_dir`]),
//! and hands the runs back to [`PushExternalSorter::done_with_segments`]
//! when accumulation ends.
//!
//! Byte-level encoding of items is left to the caller through the
//! [`Sortable`] trait; the order is supplied as a [`order::Comparator`].

use vstd::prelude::*;

pub mod codec;
pub mod iter;
pub mod order;
pub mod push;
pub mod sorter;

mod bufsort;
mod queue;
mod segment;

pub use crate::codec::DecodeError;
pub use crate::codec::SegmentReader;
pub use crate::codec::Sortable;
pub use crate::iter::SortedIterator;
pub use crate::order::Comparator;
pub use crate::order::KeyComparator;
pub use crate::order::KeyFn;
pub use crate::order::NaturalComparator;
pub use crate::order::NaturalOrder;
pub use crate::push::PushExternalSorter;
pub use crate::sorter::ExternalSorter;

verus! {

/// The single error kind of the engine. `Encode` reports a failure while an
/// item was being written into a segment during accumulation; `Decode`
/// reports a failure (other than a clean end of stream) while an item was
/// being read back during the merge.
#[derive(Clone, Copy, Debug, PartialEq, Eq, Structural)]
pub enum Error {
    Encode,
    Decode,
}

/// Configuration shared by the front-end, the push engine and the merge
/// iterator.
pub(crate) struct ExternalSorterOptions {
    /// Maximum number of buffered items before a spill is triggered.
    pub segment_size: usize,
    /// Minimum segment count at which the merge switches from the
    /// linear-scan strategy to the heap-based strategy.
    pub heap_iter_segment_count: usize,
    /// Directory in which the embedding program is to store exported
    /// segment runs; `None` asks it to use a scratch location of its own.
    pub sort_dir: Option<String>,
    /// Whether the in-memory buffer is sorted across several cores.
    pub parallel: bool,
}

impl ExternalSorterOptions {
    pub(crate) fn defaults() -> (r: Self)
        ensures
            r.segment_size == 10000,
            r.heap_iter_segment_count == 20,
            r.sort_dir is None,
            !r.parallel,
    {
        ExternalSorterOptions {
            segment_size: 10000,
            heap_iter_segment_count: 20,
            sort_dir: None,
            parallel: false,
        }
    }
}

} // verus!
