//! Segments: finished, sorted, immutable runs of encoded items, each with a
//! live read cursor used during the merge.
//!
//! A segment's bytes are exactly the concatenation of its items' encodings,
//! and the cursor always sits at a record boundary: `consumed()` items have
//! been decoded and the cursor is right behind their encodings. Decoding one
//! more item therefore yields exactly the next written item — the round trip
//! through the codec is proved here once, for every codec that meets the
//! [`Sortable`] contract.

use vstd::multiset::Multiset;
use vstd::prelude::*;

use crate::Error;
use crate::codec::DecodeError;
use crate::codec::SegmentReader;
use crate::codec::Sortable;
use crate::codec::encoding_of;
use crate::codec::lemma_encoding_of_split;
use crate::codec::lemma_encoding_of_take_succ;
use crate::order::Comparator;
use crate::order::sorted_cmp;

verus! {

/// One sorted run of encoded items.
pub(crate) struct Segment<T: Sortable> {
    /// Read cursor over the segment's bytes.
    pub(crate) reader: SegmentReader,
    /// During heap-based merging: how many of this segment's decoded items
    /// currently sit in the priority queue.
    pub(crate) heap_count: usize,
    /// During heap-based merging: whether the clean end of this segment was
    /// reached.
    pub(crate) done: bool,
    /// The items written into this segment, in order.
    pub(crate) contents: Ghost<Seq<T>>,
    /// How many of them have been decoded so far.
    pub(crate) read_count: Ghost<int>,
}

impl<T: Sortable> Segment<T> {
    /// The items written into this segment, in order.
    pub(crate) open spec fn items(self) -> Seq<T> {
        self.contents@
    }

    /// How many items have been decoded so far.
    pub(crate) open spec fn consumed(self) -> int {
        self.read_count@
    }

    /// The items not yet decoded.
    pub(crate) open spec fn pending(self) -> Seq<T> {
        self.items().skip(self.consumed())
    }

    /// The cursor sits at the record boundary behind the `consumed()` first
    /// items of the stream that encodes `items()`.
    pub(crate) open spec fn wf(self) -> bool {
        &&& 0 <= self.consumed() <= self.items().len()
        &&& self.reader.data@ == encoding_of(self.items())
        &&& self.reader.pos as int == encoding_of(self.items().take(self.consumed())).len()
        &&& self.reader.wf()
    }
}

/// Builds one segment by encoding `items` in order into a fresh byte run.
/// Fails only when the codec's `encode` fails, with that error.
pub(crate) fn segment_from_items<T: Sortable>(items: &Vec<T>) -> (res: Result<Segment<T>, Error>)
    ensures
        res matches Ok(s) ==> s.wf() && s.items() == items@ && s.consumed() == 0 && s.heap_count
            == 0 && !s.done,
{
    let mut data: Vec<u8> = Vec::new();
    let mut i: usize = 0;
    while i < items.len()
        invariant
            0 <= i <= items@.len(),
            data@ == encoding_of(items@.take(i as int)),
        decreases items@.len() - i,
    {
        items[i].encode(&mut data)?;
        proof {
            lemma_encoding_of_take_succ(items@, i as int);
        }
        i = i + 1;
    }
    proof {
        assert(items@.take(items@.len() as int) =~= items@);
        assert(items@.take(0) =~= Seq::<T>::empty());
    }
    Ok(
        Segment {
            reader: SegmentReader { data, pos: 0 },
            heap_count: 0,
            done: false,
            contents: Ghost(items@),
            read_count: Ghost(0),
        },
    )
}

/// Decodes the next item of a well-formed segment. On success the item is
/// exactly the next written one. A clean end of stream comes if and only if
/// every item was decoded, and leaves the segment as it was. A corrupt
/// decode leaves the cursor untracked; the merge then surfaces the error and
/// stops relying on this segment.
pub(crate) fn segment_next<T: Sortable>(seg: &mut Segment<T>) -> (res: Result<T, DecodeError>)
    requires
        old(seg).wf(),
    ensures
        final(seg).items() == old(seg).items(),
        final(seg).heap_count == old(seg).heap_count,
        final(seg).done == old(seg).done,
        final(seg).reader.wf(),
        match res {
            Ok(v) => final(seg).wf() && old(seg).consumed() < old(seg).items().len() && v == old(
                seg,
            ).items()[old(seg).consumed()] && final(seg).consumed() == old(seg).consumed() + 1,
            Err(DecodeError::Eof) => final(seg).wf() && final(seg).consumed() == old(
                seg,
            ).consumed() && old(seg).consumed() == old(seg).items().len(),
            Err(DecodeError::Corrupt) => true,
        },
{
    let ghost pre = *seg;
    let res = T::decode(&mut seg.reader);
    proof {
        let items = pre.items();
        let c = pre.consumed();
        let data = pre.reader.data@;
        let pos = pre.reader.pos as int;
        lemma_encoding_of_split(items, c);
        // data == encoding_of(take(c)) + encoding_of(skip(c)), and pos == |encoding_of(take(c))|.
        if res is Ok {
            let v = res->Ok_0;
            {
                let pos2 = seg.reader.pos as int;
                v.lemma_enc_nonempty();
                if c == items.len() {
                    assert(items.skip(c) =~= Seq::<T>::empty());
                    assert(encoding_of(items.skip(c)) == Seq::<u8>::empty());
                    assert(pos == data.len());
                    assert(false);
                }
                // The bytes after the cursor start with the next item's encoding.
                assert(items.skip(c).first() == items[c]);
                assert(items.skip(c).drop_first() =~= items.skip(c + 1));
                assert(encoding_of(items.skip(c)) == items[c].enc() + encoding_of(
                    items.skip(c + 1),
                ));
                assert(encoding_of(items.skip(c)) =~= data.subrange(pos, data.len() as int));
                // They also start with the returned item's encoding.
                assert(data.subrange(pos, pos2) == v.enc());
                assert(data.subrange(pos, data.len() as int) =~= v.enc() + data.subrange(
                    pos2,
                    data.len() as int,
                ));
                T::lemma_enc_prefix_free(
                    v,
                    items[c],
                    data.subrange(pos2, data.len() as int),
                    encoding_of(items.skip(c + 1)),
                );
                assert(v == items[c]);
                lemma_encoding_of_take_succ(items, c);
            }
        } else if res->Err_0 is Eof {
            // The cursor was at the end, so everything was consumed.
            assert(pos == data.len());
            assert(encoding_of(items.skip(c)).len() == 0);
            if c < items.len() {
                items[c].lemma_enc_nonempty();
                assert(items.skip(c).first() == items[c]);
                assert(encoding_of(items.skip(c)) == items.skip(c).first().enc() + encoding_of(
                    items.skip(c).drop_first(),
                ));
                assert(false);
            }
        }
    }
    match res {
        Ok(v) => {
            proof {
                seg.read_count@ = pre.consumed() + 1;
            }
            Ok(v)
        },
        Err(e) => Err(e),
    }
}

/// Every segment is well formed, fully unread, untouched by the heap
/// bookkeeping, non-empty, and sorted under `cmp`: the state in which the
/// engine hands segments to the merge iterator.
pub(crate) open spec fn segs_ok<T: Sortable, C: Comparator<T>>(
    cmp: C,
    segs: Seq<Segment<T>>,
) -> bool {
    forall|i: int|
        0 <= i < segs.len() ==> {
            let s = #[trigger] segs[i];
            &&& s.wf()
            &&& s.consumed() == 0
            &&& s.heap_count == 0
            &&& !s.done
            &&& sorted_cmp(cmp, s.items())
            &&& s.items().len() > 0
        }
}

/// The union of a sequence of multisets.
pub(crate) open spec fn ms_fold<T>(s: Seq<Multiset<T>>) -> Multiset<T>
    decreases s.len(),
{
    if s.len() == 0 {
        Multiset::empty()
    } else {
        ms_fold(s.drop_last()).add(s.last())
    }
}

/// All the items held across `segs`.
pub(crate) open spec fn segs_multiset<T: Sortable>(segs: Seq<Segment<T>>) -> Multiset<T> {
    ms_fold(segs.map_values(|s: Segment<T>| s.items().to_multiset()))
}

/// Appending a segment adds its items.
pub(crate) proof fn lemma_segs_multiset_push<T: Sortable>(segs: Seq<Segment<T>>, seg: Segment<T>)
    ensures
        segs_multiset(segs.push(seg)) == segs_multiset(segs).add(seg.items().to_multiset()),
{
    let f = |s: Segment<T>| s.items().to_multiset();
    assert(segs.push(seg).map_values(f) =~= segs.map_values(f).push(f(seg)));
    assert(segs.map_values(f).push(f(seg)).drop_last() =~= segs.map_values(f));
}

/// All the items across a sequence of item runs.
pub(crate) open spec fn runs_multiset<T>(runs: Seq<Seq<T>>) -> Multiset<T> {
    ms_fold(runs.map_values(|r: Seq<T>| r.to_multiset()))
}

/// Appending a run adds its items.
pub(crate) proof fn lemma_runs_multiset_push<T>(runs: Seq<Seq<T>>, run: Seq<T>)
    ensures
        runs_multiset(runs.push(run)) == runs_multiset(runs).add(run.to_multiset()),
{
    let f = |r: Seq<T>| r.to_multiset();
    assert(runs.push(run).map_values(f) =~= runs.map_values(f).push(f(run)));
    assert(runs.map_values(f).push(f(run)).drop_last() =~= runs.map_values(f));
}

/// A fold distributes over concatenation.
pub(crate) proof fn lemma_ms_fold_append<T>(s1: Seq<Multiset<T>>, s2: Seq<Multiset<T>>)
    ensures
        ms_fold(s1 + s2) == ms_fold(s1).add(ms_fold(s2)),
    decreases s2.len(),
{
    if s2.len() == 0 {
        assert(s1 + s2 =~= s1);
        assert(ms_fold(s1 + s2) =~= ms_fold(s1).add(ms_fold(s2)));
    } else {
        lemma_ms_fold_append(s1, s2.drop_last());
        assert((s1 + s2).drop_last() =~= s1 + s2.drop_last());
        assert((s1 + s2).last() == s2.last());
        assert(ms_fold(s1 + s2) =~= ms_fold(s1).add(ms_fold(s2)));
    }
}

/// A fold splits off its first member.
pub(crate) proof fn lemma_ms_fold_remove_first<T>(s: Seq<Multiset<T>>)
    requires
        s.len() > 0,
    ensures
        ms_fold(s) == s[0].add(ms_fold(s.remove(0))),
    decreases s.len(),
{
    if s.len() == 1 {
        assert(s.remove(0) =~= Seq::<Multiset<T>>::empty());
        assert(s.drop_last() =~= Seq::<Multiset<T>>::empty());
        assert(s.last() == s[0]);
        assert(ms_fold(s) =~= s[0].add(ms_fold(s.remove(0))));
    } else {
        lemma_ms_fold_remove_first(s.drop_last());
        assert(s.remove(0).drop_last() =~= s.drop_last().remove(0));
        assert(s.remove(0).last() == s.last());
        assert(s.drop_last()[0] == s[0]);
        assert(ms_fold(s) =~= s[0].add(ms_fold(s.remove(0))));
    }
}

/// A fold of empty multisets is empty.
pub(crate) proof fn lemma_ms_fold_empty<T>(s: Seq<Multiset<T>>)
    requires
        forall|i: int| 0 <= i < s.len() ==> (#[trigger] s[i]).len() == 0,
    ensures
        ms_fold(s).len() == 0,
    decreases s.len(),
{
    if s.len() > 0 {
        assert(s.last() == s[s.len() - 1]);
        lemma_ms_fold_empty(s.drop_last());
    }
}

/// Removing one occurrence from one member removes it from the fold.
pub(crate) proof fn lemma_ms_fold_remove_at<T>(s: Seq<Multiset<T>>, t: int, v: T)
    requires
        0 <= t < s.len(),
        s[t].count(v) > 0,
    ensures
        ms_fold(s.update(t, s[t].remove(v))) == ms_fold(s).remove(v),
    decreases s.len(),
{
    let w = s.update(t, s[t].remove(v));
    if t == s.len() - 1 {
        assert(w.drop_last() =~= s.drop_last());
        assert(w.last() == s[t].remove(v));
        assert(ms_fold(w) =~= ms_fold(s).remove(v));
    } else {
        assert(w.drop_last() =~= s.drop_last().update(t, s[t].remove(v)));
        assert(w.last() == s.last());
        assert(s.drop_last()[t] == s[t]);
        lemma_ms_fold_remove_at(s.drop_last(), t, v);
        lemma_ms_fold_count_at_least(s.drop_last(), t, v);
        assert(ms_fold(w) == ms_fold(w.drop_last()).add(w.last()));
        assert(ms_fold(w.drop_last()) == ms_fold(s.drop_last()).remove(v));
        assert(ms_fold(w) =~= ms_fold(s).remove(v));
    }
}

/// An item counted somewhere is counted in the fold.
pub(crate) proof fn lemma_ms_fold_count_at_least<T>(s: Seq<Multiset<T>>, t: int, y: T)
    requires
        0 <= t < s.len(),
    ensures
        ms_fold(s).count(y) >= s[t].count(y),
    decreases s.len(),
{
    if t == s.len() - 1 {
        assert(s.last() == s[t]);
    } else {
        lemma_ms_fold_count_at_least(s.drop_last(), t, y);
        assert(s.drop_last()[t] == s[t]);
    }
}

/// An item in the fold is in some member.
pub(crate) proof fn lemma_ms_fold_member<T>(s: Seq<Multiset<T>>, y: T)
    requires
        ms_fold(s).count(y) > 0,
    ensures
        exists|i: int| 0 <= i < s.len() && (#[trigger] s[i]).count(y) > 0,
    decreases s.len(),
{
    if s.last().count(y) > 0 {
        assert(s[s.len() - 1].count(y) > 0);
    } else {
        lemma_ms_fold_member(s.drop_last(), y);
        let i = choose|i: int| 0 <= i < s.drop_last().len() && (#[trigger] s.drop_last()[i]).count(
            y,
        ) > 0;
        assert(s[i].count(y) > 0);
    }
}

/// Skipping one more item moves it out of the pending multiset.
pub(crate) proof fn lemma_skip_multiset<T>(items: Seq<T>, c: int)
    requires
        0 <= c < items.len(),
    ensures
        items.skip(c).to_multiset() == items.skip(c + 1).to_multiset().insert(items[c]),
{
    let s = items.skip(c);
    assert(s[0] == items[c]);
    assert(s.remove(0) =~= items.skip(c + 1));
    vstd::seq_lib::to_multiset_remove(s, 0);
    vstd::seq_lib::to_multiset_contains(s, items[c]);
    assert(s.contains(items[c]));
    assert(items.skip(c + 1).to_multiset().insert(items[c]) =~= s.to_multiset());
}

/// An empty sequence holds the empty multiset.
pub(crate) proof fn lemma_empty_multiset<T>(s: Seq<T>)
    requires
        s.len() == 0,
    ensures
        s.to_multiset().len() == 0,
        s.to_multiset() == Multiset::<T>::empty(),
{
    broadcast use vstd::seq_lib::group_to_multiset_ensures;

    assert forall|y: T| s.to_multiset().count(y) == 0 by {
        assert(!s.contains(y));
    }
    assert(s.to_multiset() =~= Multiset::<T>::empty());
}

} // verus!
