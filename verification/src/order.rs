//! Pluggable total orders.
//!
//! A sort is parametrized by a [`Comparator`]: a first-class value carrying a
//! total preorder over the item type. The relation itself lives at the
//! specification level (`le`), together with proof obligations that make it a
//! total preorder; the executable [`Comparator::compare`] must agree with it.
//! Items that tie under the order (`le` both ways) may be distinct values, so
//! sorting is not guaranteed stable.

use core::cmp::Ordering;
use vstd::multiset::Multiset;
use vstd::prelude::*;

verus! {

/// A total preorder over `T`, supplied once at sort construction and used
/// identically while sorting buffers and while merging segments.
pub trait Comparator<T>: Sized + Send + Sync {
    /// The order as a relation: `le(a, b)` says `a` sorts no later than `b`.
    spec fn le(self, a: T, b: T) -> bool;

    /// Any two items are comparable.
    proof fn le_total(self, a: T, b: T)
        ensures
            self.le(a, b) || self.le(b, a),
    ;

    /// The relation is transitive.
    proof fn le_trans(self, a: T, b: T, c: T)
        requires
            self.le(a, b),
            self.le(b, c),
        ensures
            self.le(a, c),
    ;

    /// Three-way comparison, consistent with `le`.
    fn compare(&self, a: &T, b: &T) -> (o: Ordering)
        ensures
            (o == Ordering::Less <==> (self.le(*a, *b) && !self.le(*b, *a))),
            (o == Ordering::Equal <==> (self.le(*a, *b) && self.le(*b, *a))),
            (o == Ordering::Greater <==> (!self.le(*a, *b) && self.le(*b, *a))),
    ;
}

/// `s` is ascending under `cmp`.
pub open spec fn sorted_cmp<T, C: Comparator<T>>(cmp: C, s: Seq<T>) -> bool {
    forall|i: int, j: int| 0 <= i < j < s.len() ==> #[trigger] cmp.le(s[i], s[j])
}

/// Within `m`, items that tie under `cmp` are the same value. Under this
/// assumption an ascending arrangement of `m` is unique.
pub open spec fn ties_are_equal<T, C: Comparator<T>>(cmp: C, m: Multiset<T>) -> bool {
    forall|a: T, b: T|
        #![trigger cmp.le(a, b), cmp.le(b, a)]
        m.contains(a) && m.contains(b) && cmp.le(a, b) && cmp.le(b, a) ==> a == b
}

/// A type that carries its own natural total order, used by the entry points
/// that take no explicit comparator.
pub trait NaturalOrder: Sized {
    /// The natural order as a relation.
    spec fn natural_le(self, other: Self) -> bool;

    /// Any two values are comparable.
    proof fn natural_le_total(a: Self, b: Self)
        ensures
            a.natural_le(b) || b.natural_le(a),
    ;

    /// The relation is transitive.
    proof fn natural_le_trans(a: Self, b: Self, c: Self)
        requires
            a.natural_le(b),
            b.natural_le(c),
        ensures
            a.natural_le(c),
    ;

    /// Three-way comparison, consistent with `natural_le`.
    fn natural_compare(a: &Self, b: &Self) -> (o: Ordering)
        ensures
            (o == Ordering::Less <==> (a.natural_le(*b) && !b.natural_le(*a))),
            (o == Ordering::Equal <==> (a.natural_le(*b) && b.natural_le(*a))),
            (o == Ordering::Greater <==> (!a.natural_le(*b) && b.natural_le(*a))),
    ;
}

/// The comparator induced by a type's own [`NaturalOrder`].
pub struct NaturalComparator;

impl<T: NaturalOrder> Comparator<T> for NaturalComparator {
    open spec fn le(self, a: T, b: T) -> bool {
        a.natural_le(b)
    }

    proof fn le_total(self, a: T, b: T) {
        T::natural_le_total(a, b);
    }

    proof fn le_trans(self, a: T, b: T, c: T) {
        T::natural_le_trans(a, b, c);
    }

    fn compare(&self, a: &T, b: &T) -> (o: Ordering) {
        T::natural_compare(a, b)
    }
}

impl NaturalOrder for u32 {
    open spec fn natural_le(self, other: Self) -> bool {
        self <= other
    }

    proof fn natural_le_total(a: Self, b: Self) {
    }

    proof fn natural_le_trans(a: Self, b: Self, c: Self) {
    }

    fn natural_compare(a: &Self, b: &Self) -> (o: Ordering) {
        if *a < *b {
            Ordering::Less
        } else if *a == *b {
            Ordering::Equal
        } else {
            Ordering::Greater
        }
    }
}

/// `v` sorts no later than anything in `m` under `cmp`.
pub open spec fn min_of<T, C: Comparator<T>>(cmp: C, m: Multiset<T>, v: T) -> bool {
    forall|y: T| #[trigger] m.count(y) > 0 ==> cmp.le(v, y)
}

/// Whether `a` sorts strictly before `b` under `cmp`.
pub(crate) fn is_strictly_before<T, C: Comparator<T>>(cmp: &C, a: &T, b: &T) -> (r: bool)
    ensures
        r == (cmp.le(*a, *b) && !cmp.le(*b, *a)),
{
    matches!(cmp.compare(a, b), Ordering::Less)
}

/// Extracts a sort key from an item; the induced order compares keys by
/// their natural order.
pub trait KeyFn<T>: Sized + Send + Sync {
    /// The key type.
    type K: NaturalOrder;

    /// The key as a function.
    spec fn key_spec(self, t: T) -> Self::K;

    /// Computes the key.
    fn key(&self, t: &T) -> (k: Self::K)
        ensures
            k == self.key_spec(*t),
    ;
}

/// The comparator induced by a key-extraction function: items sort by their
/// keys' natural order. Distinct items with equal keys tie.
pub struct KeyComparator<F> {
    /// The key-extraction function.
    pub f: F,
}

impl<T, F: KeyFn<T>> Comparator<T> for KeyComparator<F> {
    open spec fn le(self, a: T, b: T) -> bool {
        self.f.key_spec(a).natural_le(self.f.key_spec(b))
    }

    proof fn le_total(self, a: T, b: T) {
        <F::K as NaturalOrder>::natural_le_total(self.f.key_spec(a), self.f.key_spec(b));
    }

    proof fn le_trans(self, a: T, b: T, c: T) {
        <F::K as NaturalOrder>::natural_le_trans(
            self.f.key_spec(a),
            self.f.key_spec(b),
            self.f.key_spec(c),
        );
    }

    fn compare(&self, a: &T, b: &T) -> (o: Ordering) {
        let ka = self.f.key(a);
        let kb = self.f.key(b);
        <F::K as NaturalOrder>::natural_compare(&ka, &kb)
    }
}

/// Law: under a comparator whose ties within the data are equal values, the
/// ascending arrangement of a multiset is unique — two sorted sequences
/// carrying the same items are the same sequence, whichever strategy (or
/// spill layout, or degree of parallelism) produced them.
pub proof fn lemma_sorted_unique<T, C: Comparator<T>>(cmp: C, s1: Seq<T>, s2: Seq<T>)
    requires
        sorted_cmp(cmp, s1),
        sorted_cmp(cmp, s2),
        s1.to_multiset() == s2.to_multiset(),
        ties_are_equal(cmp, s1.to_multiset()),
    ensures
        s1 == s2,
    decreases s1.len(),
{
    broadcast use vstd::seq_lib::group_to_multiset_ensures;

    if s1.len() == 0 {
        assert(s2.to_multiset().len() == 0);
        assert(s1 =~= s2);
    } else {
        assert(s1.to_multiset().len() == s1.len());
        assert(s2.to_multiset().len() == s2.len());
        assert(s2.len() == s1.len());
        let a = s1[0];
        let b = s2[0];
        assert(s1.contains(a));
        assert(s2.contains(b));
        assert(s1.to_multiset().count(a) > 0);
        assert(s2.to_multiset().count(b) > 0);
        assert(s1.to_multiset().count(b) > 0);
        assert(s2.to_multiset().count(a) > 0);
        assert(s1.contains(b));
        assert(s2.contains(a));
        if a != b {
            let kb = choose|k: int| 0 <= k < s1.len() && s1[k] == b;
            assert(kb > 0);
            assert(cmp.le(s1[0], s1[kb]));
            let ka = choose|k: int| 0 <= k < s2.len() && s2[k] == a;
            assert(ka > 0);
            assert(cmp.le(s2[0], s2[ka]));
            assert(false);
        }
        let t1 = s1.drop_first();
        let t2 = s2.drop_first();
        assert(s1.remove(0) =~= t1);
        assert(s2.remove(0) =~= t2);
        vstd::seq_lib::to_multiset_remove(s1, 0);
        vstd::seq_lib::to_multiset_remove(s2, 0);
        assert(t1.to_multiset() == t2.to_multiset());
        assert forall|i: int, j: int| 0 <= i < j < t1.len() implies #[trigger] cmp.le(
            t1[i],
            t1[j],
        ) by {
            assert(cmp.le(s1[i + 1], s1[j + 1]));
        }
        assert forall|i: int, j: int| 0 <= i < j < t2.len() implies #[trigger] cmp.le(
            t2[i],
            t2[j],
        ) by {
            assert(cmp.le(s2[i + 1], s2[j + 1]));
        }
        assert forall|x: T, y: T|
            #![trigger cmp.le(x, y), cmp.le(y, x)]
            t1.to_multiset().contains(x) && t1.to_multiset().contains(y) && cmp.le(x, y)
                && cmp.le(y, x) implies x == y by {
            assert(s1.to_multiset().count(x) >= t1.to_multiset().count(x));
            assert(s1.to_multiset().count(y) >= t1.to_multiset().count(y));
        }
        lemma_sorted_unique(cmp, t1, t2);
        assert forall|i: int| 0 <= i < s1.len() implies s1[i] == s2[i] by {
            if i > 0 {
                assert(s1[i] == t1[i - 1]);
                assert(s2[i] == t2[i - 1]);
            }
        }
        assert(s1 =~= s2);
    }
}

/// Whether `a` sorts strictly after `b` under `cmp`.
pub(crate) fn is_strictly_after<T, C: Comparator<T>>(cmp: &C, a: &T, b: &T) -> (r: bool)
    ensures
        r == (!cmp.le(*a, *b) && cmp.le(*b, *a)),
{
    matches!(cmp.compare(a, b), Ordering::Greater)
}

} // verus!
