//! The byte-level item contract.
//!
//! A segment is a flat, headerless concatenation of encoded items; record
//! boundaries come entirely from the codec's own framing. The [`Sortable`]
//! trait states what the engine needs from a codec: every value has one
//! non-empty encoding, no encoding is a prefix of another one's start of
//! stream (so a concatenation parses only one way), `encode` appends exactly
//! that encoding, and `decode` consumes exactly the encoding of the value it
//! returns. A decode may fail at any point with [`DecodeError::Corrupt`]; the
//! clean end-of-stream signal [`DecodeError::Eof`] is only allowed at the
//! exact end of the data, which is what lets the merge retire a segment
//! silently while surfacing real corruption.

use vstd::prelude::*;

use crate::Error;

verus! {

/// Read cursor over one segment's encoded bytes.
pub struct SegmentReader {
    /// The segment's bytes.
    pub data: Vec<u8>,
    /// Offset of the next byte to read.
    pub pos: usize,
}

impl SegmentReader {
    /// The cursor sits inside (or at the end of) the data.
    pub open spec fn wf(self) -> bool {
        self.pos <= self.data@.len()
    }
}

/// Why a decode returned no item: `Eof` is the clean end of the stream at a
/// record boundary; `Corrupt` is any other failure (a truncated or malformed
/// record) and is surfaced as an error by the merge.
#[derive(Clone, Copy, Debug, PartialEq, Eq, Structural)]
pub enum DecodeError {
    Eof,
    Corrupt,
}

/// The capability a record type must provide to be sorted externally: an
/// unambiguous byte encoding, written by `encode` and read back by `decode`.
pub trait Sortable: Sized + Send {
    /// The value's byte encoding.
    spec fn enc(self) -> Seq<u8>;

    /// Every encoding holds at least one byte, so a stream of records ends
    /// only at the end of the data.
    proof fn lemma_enc_nonempty(self)
        ensures
            self.enc().len() > 0,
    ;

    /// Two encoded streams that start equal carry the same first value: a
    /// concatenation of encodings parses only one way.
    proof fn lemma_enc_prefix_free(a: Self, b: Self, rest_a: Seq<u8>, rest_b: Seq<u8>)
        requires
            a.enc() + rest_a == b.enc() + rest_b,
        ensures
            a == b,
            rest_a == rest_b,
    ;

    /// Appends the value's encoding to `out`; may fail with the writer-side
    /// error, in which case the sort is aborted.
    fn encode(&self, out: &mut Vec<u8>) -> (r: Result<(), Error>)
        ensures
            r is Ok ==> final(out)@ == old(out)@ + self.enc(),
    ;

    /// Reads the next value. Returns `Err(DecodeError::Eof)` only at the
    /// exact end of the data, leaving the cursor in place; on success the
    /// cursor advances over exactly the returned value's encoding. Any other
    /// failure is `Err(DecodeError::Corrupt)` and may leave the cursor
    /// anywhere at or after where it was.
    fn decode(r: &mut SegmentReader) -> (res: Result<Self, DecodeError>)
        requires
            old(r).wf(),
        ensures
            final(r).wf(),
            final(r).data@ == old(r).data@,
            old(r).pos <= final(r).pos,
            match res {
                Ok(v) => final(r).pos as int == old(r).pos as int + v.enc().len()
                    && final(r).data@.subrange(old(r).pos as int, final(r).pos as int) == v.enc(),
                Err(DecodeError::Eof) => final(r).pos == old(r).pos && old(r).pos as int
                    == final(r).data@.len(),
                Err(DecodeError::Corrupt) => true,
            },
    ;
}

/// The byte stream that encodes `items` in order: the concatenation of the
/// items' encodings.
pub open spec fn encoding_of<T: Sortable>(items: Seq<T>) -> Seq<u8>
    decreases items.len(),
{
    if items.len() == 0 {
        Seq::empty()
    } else {
        items.first().enc() + encoding_of(items.drop_first())
    }
}

/// Appending an item appends its encoding.
pub proof fn lemma_encoding_of_push<T: Sortable>(items: Seq<T>, x: T)
    ensures
        encoding_of(items.push(x)) == encoding_of(items) + x.enc(),
    decreases items.len(),
{
    let s = items.push(x);
    if items.len() == 0 {
        assert(s.first() == x);
        assert(s.drop_first() =~= Seq::<T>::empty());
        assert(encoding_of(s) == x.enc() + encoding_of(Seq::<T>::empty()));
        assert(encoding_of(Seq::<T>::empty()) == Seq::<u8>::empty());
        assert(items =~= Seq::<T>::empty());
        assert(encoding_of(s) =~= encoding_of(items) + x.enc());
    } else {
        lemma_encoding_of_push(items.drop_first(), x);
        assert(s.first() == items.first());
        assert(s.drop_first() =~= items.drop_first().push(x));
        assert(encoding_of(s) == s.first().enc() + encoding_of(s.drop_first()));
        assert(encoding_of(items) == items.first().enc() + encoding_of(items.drop_first()));
        assert(encoding_of(s) =~= encoding_of(items) + x.enc());
    }
}

/// One more decoded item extends the consumed prefix by its encoding.
pub proof fn lemma_encoding_of_take_succ<T: Sortable>(items: Seq<T>, i: int)
    requires
        0 <= i < items.len(),
    ensures
        encoding_of(items.take(i + 1)) == encoding_of(items.take(i)) + items[i].enc(),
{
    assert(items.take(i + 1) =~= items.take(i).push(items[i]));
    lemma_encoding_of_push(items.take(i), items[i]);
}

/// The stream splits at any record boundary.
pub proof fn lemma_encoding_of_split<T: Sortable>(items: Seq<T>, i: int)
    requires
        0 <= i <= items.len(),
    ensures
        encoding_of(items) == encoding_of(items.take(i)) + encoding_of(items.skip(i)),
    decreases i,
{
    if i == 0 {
        assert(items.take(0) =~= Seq::<T>::empty());
        assert(items.skip(0) =~= items);
        assert(encoding_of(items) =~= encoding_of(items.take(0)) + encoding_of(items.skip(0)));
    } else {
        lemma_encoding_of_take_succ(items, i - 1);
        lemma_encoding_of_split(items, i - 1);
        assert(items.skip(i - 1).len() > 0);
        assert(items.skip(i - 1).first() == items[i - 1]);
        assert(items.skip(i - 1).drop_first() =~= items.skip(i));
        assert(encoding_of(items.skip(i - 1)) == items[i - 1].enc() + encoding_of(items.skip(i)));
        assert(encoding_of(items) =~= encoding_of(items.take(i)) + encoding_of(items.skip(i)));
    }
}

/// A stream of records is at least as long as the record count.
pub proof fn lemma_encoding_of_len<T: Sortable>(items: Seq<T>)
    ensures
        encoding_of(items).len() >= items.len(),
    decreases items.len(),
{
    if items.len() > 0 {
        items.first().lemma_enc_nonempty();
        lemma_encoding_of_len(items.drop_first());
    }
}

/// Equal encoded streams carry equal item sequences: encoding N records and
/// reading them back in stream order reproduces each record unchanged.
pub proof fn lemma_encoding_of_injective<T: Sortable>(s1: Seq<T>, s2: Seq<T>)
    requires
        encoding_of(s1) == encoding_of(s2),
    ensures
        s1 == s2,
    decreases s1.len(),
{
    if s1.len() == 0 {
        lemma_encoding_of_len(s2);
        assert(s2.len() == 0);
        assert(s1 =~= s2);
    } else if s2.len() == 0 {
        lemma_encoding_of_len(s1);
        assert(false);
    } else {
        T::lemma_enc_prefix_free(
            s1.first(),
            s2.first(),
            encoding_of(s1.drop_first()),
            encoding_of(s2.drop_first()),
        );
        lemma_encoding_of_injective(s1.drop_first(), s2.drop_first());
        assert(s1.len() == s2.len());
        assert forall|i: int| 0 <= i < s1.len() implies s1[i] == s2[i] by {
            if i == 0 {
                assert(s1.first() == s2.first());
            } else {
                assert(s1[i] == s1.drop_first()[i - 1]);
                assert(s2[i] == s2.drop_first()[i - 1]);
            }
        }
        assert(s1 =~= s2);
    }
}

/// The little-endian four-byte encoding used by the `u32` codec.
pub open spec fn u32_le_bytes(x: u32) -> Seq<u8> {
    seq![
        (x & 0xff) as u8,
        ((x >> 8) & 0xff) as u8,
        ((x >> 16) & 0xff) as u8,
        ((x >> 24) & 0xff) as u8,
    ]
}

impl Sortable for u32 {
    open spec fn enc(self) -> Seq<u8> {
        u32_le_bytes(self)
    }

    proof fn lemma_enc_nonempty(self) {
    }

    proof fn lemma_enc_prefix_free(a: Self, b: Self, rest_a: Seq<u8>, rest_b: Seq<u8>) {
        let sa = a.enc() + rest_a;
        let sb = b.enc() + rest_b;
        assert(a.enc() == u32_le_bytes(a));
        assert(b.enc() == u32_le_bytes(b));
        assert(a.enc().len() == 4);
        assert(b.enc().len() == 4);
        assert((a & 0xff) as u8 == (b & 0xff) as u8) by {
            assert(sa[0] == sb[0]);
        }
        assert(((a >> 8) & 0xff) as u8 == ((b >> 8) & 0xff) as u8) by {
            assert(sa[1] == sb[1]);
        }
        assert(((a >> 16) & 0xff) as u8 == ((b >> 16) & 0xff) as u8) by {
            assert(sa[2] == sb[2]);
        }
        assert(((a >> 24) & 0xff) as u8 == ((b >> 24) & 0xff) as u8) by {
            assert(sa[3] == sb[3]);
        }
        assert(a == b) by (bit_vector)
            requires
                (a & 0xff) as u8 == (b & 0xff) as u8,
                ((a >> 8) & 0xff) as u8 == ((b >> 8) & 0xff) as u8,
                ((a >> 16) & 0xff) as u8 == ((b >> 16) & 0xff) as u8,
                ((a >> 24) & 0xff) as u8 == ((b >> 24) & 0xff) as u8,
        ;
        assert(sa == sb);
        assert(sa.len() == a.enc().len() + rest_a.len());
        assert(sb.len() == b.enc().len() + rest_b.len());
        assert(rest_a.len() == rest_b.len());
        assert forall|i: int| 0 <= i < rest_a.len() implies rest_a[i] == rest_b[i] by {
            assert(sa[i + 4] == sb[i + 4]);
        }
        assert(rest_a =~= rest_b);
    }

    fn encode(&self, out: &mut Vec<u8>) -> (r: Result<(), Error>) {
        let x = *self;
        out.push((x & 0xff) as u8);
        out.push(((x >> 8) & 0xff) as u8);
        out.push(((x >> 16) & 0xff) as u8);
        out.push(((x >> 24) & 0xff) as u8);
        proof {
            assert(out@ =~= old(out)@ + self.enc());
        }
        Ok(())
    }

    fn decode(r: &mut SegmentReader) -> (res: Result<Self, DecodeError>) {
        if r.pos == r.data.len() {
            return Err(DecodeError::Eof);
        }
        if r.data.len() - r.pos < 4 {
            // A truncated record is corruption, not a clean end of stream.
            return Err(DecodeError::Corrupt);
        }
        let b0 = r.data[r.pos];
        let b1 = r.data[r.pos + 1];
        let b2 = r.data[r.pos + 2];
        let b3 = r.data[r.pos + 3];
        let x = (b0 as u32) | ((b1 as u32) << 8) | ((b2 as u32) << 16) | ((b3 as u32) << 24);
        r.pos = r.pos + 4;
        proof {
            assert((x & 0xff) as u8 == b0 && ((x >> 8) & 0xff) as u8 == b1 && ((x >> 16) & 0xff)
                as u8 == b2 && ((x >> 24) & 0xff) as u8 == b3) by (bit_vector)
                requires
                    x == (b0 as u32) | ((b1 as u32) << 8) | ((b2 as u32) << 16) | ((b3 as u32)
                        << 24),
            ;
            assert(r.data@.subrange(old(r).pos as int, r.pos as int) =~= x.enc());
        }
        Ok(x)
    }
}

} // verus!
