//! The ordering collaborators of the container: a total order on the stored
//! key type, and an order-preserving relation between a lookup key type and
//! the stored key type (the container's notion of a borrowed view of a key).

use vstd::prelude::*;

verus! {

/// A total order on `Self`, given as a specification-level relation `le`
/// together with the laws that make it total, and an executable comparison
/// that decides it.
///
/// Antisymmetry is not required: two distinct values may compare equal in
/// both directions. Such values form one equivalence class of the order, and
/// the container treats them as duplicates of one key.
pub trait TotalOrder: Sized {
    /// `self` comes no later than `other` in the order.
    spec fn le(self, other: Self) -> bool;

    /// Any two values are comparable.
    proof fn lemma_le_total(a: Self, b: Self)
        ensures
            a.le(b) || b.le(a),
    ;

    /// The order is transitive.
    proof fn lemma_le_transitive(a: Self, b: Self, c: Self)
        requires
            a.le(b),
            b.le(c),
        ensures
            a.le(c),
    ;

    /// Decides the relation `le`.
    fn leq(&self, other: &Self) -> (r: bool)
        ensures
            r == self.le(*other),
    ;
}

/// `a` comes strictly before `b`: by totality, the same as `!b.le(a)`.
pub open spec fn strict_lt<T: TotalOrder>(a: T, b: T) -> bool {
    !b.le(a)
}

/// A lookup key type for stored keys of type `T`: a value of `Self` can be
/// compared against stored keys, and those comparisons respect `T`'s own
/// order. A stored key matches the lookup key when it compares equal in both
/// directions.
pub trait LookupKey<T: TotalOrder> {
    /// The lookup key comes no later than the stored key.
    spec fn key_le(&self, stored: T) -> bool;

    /// The stored key comes no later than the lookup key.
    spec fn key_ge(&self, stored: T) -> bool;

    /// A lookup key is comparable with any stored key.
    proof fn lemma_key_total(q: &Self, a: T)
        ensures
            q.key_le(a) || q.key_ge(a),
    ;

    /// Being below a stored key extends along `T`'s order.
    proof fn lemma_key_le_extends(q: &Self, a: T, b: T)
        requires
            q.key_le(a),
            a.le(b),
        ensures
            q.key_le(b),
    ;

    /// Being above a stored key extends backwards along `T`'s order.
    proof fn lemma_key_ge_extends(q: &Self, a: T, b: T)
        requires
            a.le(b),
            q.key_ge(b),
        ensures
            q.key_ge(a),
    ;

    /// Stored keys on either side of the lookup key are ordered through it.
    proof fn lemma_key_between(q: &Self, a: T, b: T)
        requires
            q.key_ge(a),
            q.key_le(b),
        ensures
            a.le(b),
    ;

    /// Decides `key_le`.
    fn cmp_le(&self, stored: &T) -> (r: bool)
        ensures
            r == self.key_le(*stored),
    ;

    /// Decides `key_ge`.
    fn cmp_ge(&self, stored: &T) -> (r: bool)
        ensures
            r == self.key_ge(*stored),
    ;
}

/// The stored key `t` compares equal to the lookup key `q`.
pub open spec fn key_matches<T: TotalOrder, Q: LookupKey<T> + ?Sized>(q: &Q, t: T) -> bool {
    q.key_le(t) && q.key_ge(t)
}

/// Some element of `s` compares equal to the lookup key `q`.
pub open spec fn has_match<T: TotalOrder, Q: LookupKey<T> + ?Sized>(q: &Q, s: Seq<T>) -> bool {
    exists|j: int| 0 <= j < s.len() && #[trigger] key_matches(q, s[j])
}

/// The sequence is non-decreasing under the order of `T`.
pub open spec fn sorted_le<T: TotalOrder>(s: Seq<T>) -> bool {
    forall|i: int, j: int| #![trigger s[i], s[j]] 0 <= i < j < s.len() ==> s[i].le(s[j])
}

/// `s1` is `s0` with `item` placed at position `i`: after every element that
/// comes no later than `item`, and before every element that comes strictly
/// after it. For a sorted `s0` this determines `i` uniquely — it is the
/// number of elements of `s0` that compare less than or equal to `item`.
pub open spec fn inserted_at<T: TotalOrder>(s0: Seq<T>, item: T, i: int, s1: Seq<T>) -> bool {
    &&& 0 <= i <= s0.len()
    &&& s1 == s0.insert(i, item)
    &&& forall|j: int| 0 <= j < i ==> (#[trigger] s0[j]).le(item)
    &&& forall|j: int| i <= j < s0.len() ==> strict_lt(item, #[trigger] s0[j])
}

/// Every stored key is a lookup key for its own type, comparing by the
/// order itself.
impl<T: TotalOrder> LookupKey<T> for T {
    open spec fn key_le(&self, stored: T) -> bool {
        (*self).le(stored)
    }

    open spec fn key_ge(&self, stored: T) -> bool {
        stored.le(*self)
    }

    proof fn lemma_key_total(q: &T, a: T) {
        T::lemma_le_total(*q, a);
    }

    proof fn lemma_key_le_extends(q: &T, a: T, b: T) {
        T::lemma_le_transitive(*q, a, b);
    }

    proof fn lemma_key_ge_extends(q: &T, a: T, b: T) {
        T::lemma_le_transitive(a, b, *q);
    }

    proof fn lemma_key_between(q: &T, a: T, b: T) {
        T::lemma_le_transitive(a, *q, b);
    }

    fn cmp_le(&self, stored: &T) -> (r: bool) {
        self.leq(stored)
    }

    fn cmp_ge(&self, stored: &T) -> (r: bool) {
        stored.leq(self)
    }
}

impl TotalOrder for i32 {
    open spec fn le(self, other: Self) -> bool {
        self <= other
    }

    proof fn lemma_le_total(a: Self, b: Self) {
    }

    proof fn lemma_le_transitive(a: Self, b: Self, c: Self) {
    }

    fn leq(&self, other: &Self) -> (r: bool) {
        *self <= *other
    }
}

impl TotalOrder for u64 {
    open spec fn le(self, other: Self) -> bool {
        self <= other
    }

    proof fn lemma_le_total(a: Self, b: Self) {
    }

    proof fn lemma_le_transitive(a: Self, b: Self, c: Self) {
    }

    fn leq(&self, other: &Self) -> (r: bool) {
        *self <= *other
    }
}

/// A key held in a sequence of stored keys matches itself as a lookup key:
/// together with the container's contracts, a key that was inserted and not
/// deleted is reported present by `contains` and returned by `get` as a key
/// equal to itself.
pub proof fn lemma_contained_key_matches<T: TotalOrder>(s: Seq<T>, k: T)
    requires
        s.contains(k),
    ensures
        has_match(&k, s),
{
    let j = choose|j: int| 0 <= j < s.len() && s[j] == k;
    T::lemma_le_total(k, k);
    assert(key_matches(&k, s[j]));
}

/// A freshly inserted key is held by the resulting sequence and matches
/// itself there.
pub proof fn lemma_inserted_key_present<T: TotalOrder>(s0: Seq<T>, item: T, i: int, s1: Seq<T>)
    requires
        inserted_at(s0, item, i, s1),
    ensures
        s1.contains(item),
        has_match(&item, s1),
{
    assert(s1[i] == item);
    assert(s1.contains(item));
    lemma_contained_key_matches(s1, item);
}

/// Removing the only element of `s` that matches `q` leaves a sequence with
/// no match for `q` at all: a later deletion of the same key finds nothing
/// and is a no-op.
pub proof fn lemma_remove_only_match<T: TotalOrder, Q: LookupKey<T> + ?Sized>(
    s: Seq<T>,
    q: &Q,
    i: int,
)
    requires
        0 <= i < s.len(),
        key_matches(q, s[i]),
        forall|j: int| 0 <= j < s.len() && j != i ==> !#[trigger] key_matches(q, s[j]),
    ensures
        !has_match(q, s.remove(i)),
{
    let s2 = s.remove(i);
    assert forall|j: int| 0 <= j < s2.len() implies !#[trigger] key_matches(q, s2[j]) by {
        if j < i {
            assert(s2[j] == s[j]);
        } else {
            assert(s2[j] == s[j + 1]);
        }
    }
}

} // verus!
