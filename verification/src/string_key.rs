//! String keys: the lexicographic order on strings by Unicode code point,
//! decided character by character, so that owned strings can be stored in
//! the tree and looked up by a borrowed string slice.

use crate::total_order::{LookupKey, TotalOrder};
use vstd::prelude::*;

verus! {

/// `a` comes no later than `b` in code-point lexicographic order: at the
/// first differing position the smaller code point decides, and a prefix
/// comes before every extension of it.
pub open spec fn chars_le(a: Seq<char>, b: Seq<char>) -> bool
    decreases a.len(),
{
    if a.len() == 0 {
        true
    } else if b.len() == 0 {
        false
    } else if (a[0] as int) < (b[0] as int) {
        true
    } else if (b[0] as int) < (a[0] as int) {
        false
    } else {
        chars_le(a.drop_first(), b.drop_first())
    }
}

/// Any two character sequences are comparable.
pub proof fn lemma_chars_le_total(a: Seq<char>, b: Seq<char>)
    ensures
        chars_le(a, b) || chars_le(b, a),
    decreases a.len(),
{
    if a.len() != 0 && b.len() != 0 && (a[0] as int) == (b[0] as int) {
        lemma_chars_le_total(a.drop_first(), b.drop_first());
    }
}

/// Lexicographic order is transitive.
pub proof fn lemma_chars_le_transitive(a: Seq<char>, b: Seq<char>, c: Seq<char>)
    requires
        chars_le(a, b),
        chars_le(b, c),
    ensures
        chars_le(a, c),
    decreases a.len(),
{
    if a.len() != 0 && !((a[0] as int) < (c[0] as int)) {
        lemma_chars_le_transitive(a.drop_first(), b.drop_first(), c.drop_first());
    }
}

/// Two sequences each coming no later than the other are the same sequence:
/// for string keys, comparing equal in both directions means equality, so a
/// lookup that matches hands back exactly the queried characters.
pub proof fn lemma_chars_le_antisymmetric(a: Seq<char>, b: Seq<char>)
    requires
        chars_le(a, b),
        chars_le(b, a),
    ensures
        a == b,
    decreases a.len(),
{
    if a.len() == 0 {
        assert(a =~= b);
    } else {
        assert(b.len() > 0);
        if (a[0] as int) < (b[0] as int) {
            assert(!chars_le(b, a));
            assert(false);
        }
        if (b[0] as int) < (a[0] as int) {
            assert(!chars_le(a, b));
            assert(false);
        }
        assert(a[0] == b[0]);
        lemma_chars_le_antisymmetric(a.drop_first(), b.drop_first());
        assert forall|i: int| 0 <= i < a.len() implies a[i] == b[i] by {
            if i > 0 {
                assert(a.drop_first()[i - 1] == b.drop_first()[i - 1]);
            }
        }
        assert(a =~= b);
    }
}

/// Sequences that agree on their first `i` characters are ordered as their
/// remainders are.
proof fn lemma_chars_le_skip(a: Seq<char>, b: Seq<char>, i: int)
    requires
        0 <= i <= a.len(),
        i <= b.len(),
        forall|j: int| 0 <= j < i ==> a[j] == b[j],
    ensures
        chars_le(a, b) == chars_le(a.skip(i), b.skip(i)),
    decreases i,
{
    if i == 0 {
        assert(a.skip(0) =~= a);
        assert(b.skip(0) =~= b);
    } else {
        assert(a[0] == b[0]);
        assert forall|j: int| 0 <= j < i - 1 implies a.drop_first()[j] == b.drop_first()[j] by {
            assert(a.drop_first()[j] == a[j + 1]);
            assert(b.drop_first()[j] == b[j + 1]);
        }
        lemma_chars_le_skip(a.drop_first(), b.drop_first(), i - 1);
        assert(a.drop_first().skip(i - 1) =~= a.skip(i));
        assert(b.drop_first().skip(i - 1) =~= b.skip(i));
    }
}

/// Decides the lexicographic order on string slices, comparing code points
/// one position at a time.
pub fn str_leq(a: &str, b: &str) -> (r: bool)
    ensures
        r == chars_le(a@, b@),
{
    let alen = a.unicode_len();
    let blen = b.unicode_len();
    let mut i: usize = 0;
    loop
        invariant
            0 <= i <= alen,
            i <= blen,
            alen as nat == a@.len(),
            blen as nat == b@.len(),
            forall|j: int| 0 <= j < i ==> a@[j] == b@[j],
        decreases alen - i,
    {
        proof {
            lemma_chars_le_skip(a@, b@, i as int);
        }
        if i == alen {
            // `a` is exhausted: it is a prefix of `b`.
            return true;
        }
        if i == blen {
            // `b` is a strict prefix of `a`.
            assert(a@.skip(i as int).len() > 0);
            return false;
        }
        let ca = a.get_char(i);
        let cb = b.get_char(i);
        if (ca as u32) < (cb as u32) {
            assert(a@.skip(i as int)[0] == a@[i as int]);
            assert(b@.skip(i as int)[0] == b@[i as int]);
            return true;
        } else if (cb as u32) < (ca as u32) {
            assert(a@.skip(i as int)[0] == a@[i as int]);
            assert(b@.skip(i as int)[0] == b@[i as int]);
            return false;
        }
        proof {
            assert(a@[i as int] == b@[i as int]);
        }
        i = i + 1;
    }
}

impl TotalOrder for String {
    open spec fn le(self, other: Self) -> bool {
        chars_le(self@, other@)
    }

    proof fn lemma_le_total(a: Self, b: Self) {
        lemma_chars_le_total(a@, b@);
    }

    proof fn lemma_le_transitive(a: Self, b: Self, c: Self) {
        lemma_chars_le_transitive(a@, b@, c@);
    }

    fn leq(&self, other: &Self) -> (r: bool) {
        str_leq(self.as_str(), other.as_str())
    }
}

impl<'s> TotalOrder for &'s str {
    open spec fn le(self, other: Self) -> bool {
        chars_le(self@, other@)
    }

    proof fn lemma_le_total(a: Self, b: Self) {
        lemma_chars_le_total(a@, b@);
    }

    proof fn lemma_le_transitive(a: Self, b: Self, c: Self) {
        lemma_chars_le_transitive(a@, b@, c@);
    }

    fn leq(&self, other: &Self) -> (r: bool) {
        str_leq(*self, *other)
    }
}

/// A borrowed string slice looks up owned string keys: the slice's view and
/// the stored string's view are compared in the same lexicographic order, so
/// the borrowed view preserves the stored order.
impl LookupKey<String> for str {
    open spec fn key_le(&self, stored: String) -> bool {
        chars_le(self@, stored@)
    }

    open spec fn key_ge(&self, stored: String) -> bool {
        chars_le(stored@, self@)
    }

    proof fn lemma_key_total(q: &Self, a: String) {
        lemma_chars_le_total(q@, a@);
    }

    proof fn lemma_key_le_extends(q: &Self, a: String, b: String) {
        lemma_chars_le_transitive(q@, a@, b@);
    }

    proof fn lemma_key_ge_extends(q: &Self, a: String, b: String) {
        lemma_chars_le_transitive(a@, b@, q@);
    }

    proof fn lemma_key_between(q: &Self, a: String, b: String) {
        lemma_chars_le_transitive(a@, q@, b@);
    }

    fn cmp_le(&self, stored: &String) -> (r: bool) {
        str_leq(self, stored.as_str())
    }

    fn cmp_ge(&self, stored: &String) -> (r: bool) {
        str_leq(stored.as_str(), self)
    }
}

/// A string slice also looks up stored string-slice keys, by the same
/// lexicographic order.
impl<'s> LookupKey<&'s str> for str {
    open spec fn key_le(&self, stored: &'s str) -> bool {
        chars_le(self@, stored@)
    }

    open spec fn key_ge(&self, stored: &'s str) -> bool {
        chars_le(stored@, self@)
    }

    proof fn lemma_key_total(q: &Self, a: &'s str) {
        lemma_chars_le_total(q@, a@);
    }

    proof fn lemma_key_le_extends(q: &Self, a: &'s str, b: &'s str) {
        lemma_chars_le_transitive(q@, a@, b@);
    }

    proof fn lemma_key_ge_extends(q: &Self, a: &'s str, b: &'s str) {
        lemma_chars_le_transitive(a@, b@, q@);
    }

    proof fn lemma_key_between(q: &Self, a: &'s str, b: &'s str) {
        lemma_chars_le_transitive(a@, q@, b@);
    }

    fn cmp_le(&self, stored: &&'s str) -> (r: bool) {
        str_leq(self, *stored)
    }

    fn cmp_ge(&self, stored: &&'s str) -> (r: bool) {
        str_leq(*stored, self)
    }
}

} // verus!
