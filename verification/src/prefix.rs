//! The prefix capability: what a key type must offer so that a trie can be
//! built over it, together with the mathematics of bit strings that the trie's
//! contracts are stated in.
//!
//! A prefix is modelled as the sequence of its significant bits, most
//! significant first. Everything the trie proves is stated over such sequences,
//! so that no argument depends on the width of a concrete address family.

use vstd::prelude::*;

verus! {

/// `a` is a leading part of `b`: every address matched by `b` is matched by `a`.
pub open spec fn covers(a: Seq<bool>, b: Seq<bool>) -> bool {
    &&& a.len() <= b.len()
    &&& forall|i: int| #![trigger a[i]] #![trigger b[i]] 0 <= i < a.len() ==> a[i] == b[i]
}

/// `n` is the number of leading bits on which `a` and `b` agree.
pub open spec fn is_common_length(a: Seq<bool>, b: Seq<bool>, n: int) -> bool {
    &&& 0 <= n <= a.len()
    &&& n <= b.len()
    &&& forall|i: int| #![trigger a[i]] #![trigger b[i]] 0 <= i < n ==> a[i] == b[i]
    &&& (n < a.len() && n < b.len() ==> a[n] != b[n])
}

/// The number of leading bits shared by `a` and `b`, counted from position `from`
/// on the assumption that all earlier positions agree.
pub open spec fn common_length_from(a: Seq<bool>, b: Seq<bool>, from: int) -> int
    decreases a.len() - from,
{
    if 0 <= from < a.len() && from < b.len() && a[from] == b[from] {
        common_length_from(a, b, from + 1)
    } else {
        from
    }
}

/// The number of leading bits on which `a` and `b` agree.
pub open spec fn common_length(a: Seq<bool>, b: Seq<bool>) -> int {
    common_length_from(a, b, 0)
}

/// The order in which a left-before-right, parent-before-child walk over a
/// binary trie meets its keys: a prefix comes before each of its extensions,
/// and where two keys part ways the one with a 0 bit comes first.
pub open spec fn precedes(a: Seq<bool>, b: Seq<bool>) -> bool {
    let n = common_length(a, b);
    if n == a.len() {
        n < b.len()
    } else {
        n < b.len() && b[n]
    }
}

/// Every prefix covers itself.
pub proof fn lemma_covers_reflexive(a: Seq<bool>)
    ensures
        covers(a, a),
{
}

/// Covering is transitive.
pub proof fn lemma_covers_transitive(a: Seq<bool>, b: Seq<bool>, c: Seq<bool>)
    requires
        covers(a, b),
        covers(b, c),
    ensures
        covers(a, c),
{
    assert forall|i: int| 0 <= i < a.len() implies a[i] == c[i] by {
        assert(a[i] == b[i]);
        assert(b[i] == c[i]);
    }
}

/// Two prefixes that cover each other are the same prefix.
pub proof fn lemma_covers_antisymmetric(a: Seq<bool>, b: Seq<bool>)
    requires
        covers(a, b),
        a.len() >= b.len(),
    ensures
        a == b,
{
    assert(a =~= b);
}

/// Two prefixes of one bit string are comparable: the shorter covers the longer.
pub proof fn lemma_covers_comparable(a: Seq<bool>, b: Seq<bool>, q: Seq<bool>)
    requires
        covers(a, q),
        covers(b, q),
        a.len() <= b.len(),
    ensures
        covers(a, b),
{
    assert forall|i: int| 0 <= i < a.len() implies a[i] == b[i] by {
        assert(a[i] == q[i]);
        assert(b[i] == q[i]);
    }
}

/// A prefix covers `q` exactly when it is one of the leading parts of `q`.
pub proof fn lemma_covers_is_take(a: Seq<bool>, q: Seq<bool>)
    requires
        covers(a, q),
    ensures
        a == q.take(a.len() as int),
{
    assert(a =~= q.take(a.len() as int));
}

proof fn lemma_common_length_from(a: Seq<bool>, b: Seq<bool>, from: int)
    requires
        0 <= from <= a.len(),
        from <= b.len(),
        forall|i: int| #![trigger a[i]] #![trigger b[i]] 0 <= i < from ==> a[i] == b[i],
    ensures
        is_common_length(a, b, common_length_from(a, b, from)),
        common_length_from(a, b, from) >= from,
    decreases a.len() - from,
{
    if from < a.len() && from < b.len() && a[from] == b[from] {
        lemma_common_length_from(a, b, from + 1);
    }
}

/// `common_length` is what `is_common_length` describes.
pub proof fn lemma_common_length(a: Seq<bool>, b: Seq<bool>)
    ensures
        is_common_length(a, b, common_length(a, b)),
{
    lemma_common_length_from(a, b, 0);
}

/// Only one number is the common length of two prefixes.
pub proof fn lemma_common_length_unique(a: Seq<bool>, b: Seq<bool>, n: int)
    requires
        is_common_length(a, b, n),
    ensures
        common_length(a, b) == n,
{
    lemma_common_length(a, b);
    let m = common_length(a, b);
    if m < n {
        assert(a[m] == b[m]);
    } else if n < m {
        assert(a[n] == b[n]);
    }
}

/// The common length does not depend on the order of its arguments, and is
/// bounded by the length of either.
pub proof fn lemma_common_length_symmetric(a: Seq<bool>, b: Seq<bool>)
    ensures
        common_length(a, b) == common_length(b, a),
        0 <= common_length(a, b) <= a.len(),
        common_length(a, b) <= b.len(),
{
    lemma_common_length(a, b);
    let n = common_length(a, b);
    assert(is_common_length(b, a, n)) by {
        assert forall|i: int| 0 <= i < n implies b[i] == a[i] by {
            assert(a[i] == b[i]);
        }
    }
    lemma_common_length_unique(b, a, n);
}

/// A prefix covers another exactly when their common length is its own length.
pub proof fn lemma_covers_common_length(a: Seq<bool>, b: Seq<bool>)
    ensures
        covers(a, b) <==> common_length(a, b) == a.len(),
{
    lemma_common_length(a, b);
    if covers(a, b) {
        assert(is_common_length(a, b, a.len() as int));
        lemma_common_length_unique(a, b, a.len() as int);
    }
}

/// A prefix comes before each of its proper extensions.
pub proof fn lemma_precedes_extension(a: Seq<bool>, b: Seq<bool>)
    requires
        covers(a, b),
        a.len() < b.len(),
    ensures
        precedes(a, b),
{
    lemma_covers_common_length(a, b);
}

/// Where `a` and `b` first part ways at position `n`, with `a` taking the 0
/// branch and `b` the 1 branch, `a` comes first.
pub proof fn lemma_precedes_fork(a: Seq<bool>, b: Seq<bool>, n: int)
    requires
        is_common_length(a, b, n),
        n < a.len(),
        n < b.len(),
        !a[n],
        b[n],
    ensures
        precedes(a, b),
{
    lemma_common_length_unique(a, b, n);
}

/// No prefix comes before itself, and of two prefixes at most one comes before
/// the other.
pub proof fn lemma_precedes_asymmetric(a: Seq<bool>, b: Seq<bool>)
    requires
        precedes(a, b),
    ensures
        !precedes(b, a),
        a != b,
{
    lemma_common_length_symmetric(a, b);
    lemma_common_length(a, b);
}

/// A key type for the trie: a bit string of bounded length with the
/// comparisons that the trie's walks are made of.
///
/// An implementation chooses `bits`, the significant bits of a value from the
/// most significant down, and answers every question below about that
/// sequence. Two values with the same bits are the same key.
pub trait Prefix: Sized {
    /// The significant bits, most significant first.
    spec fn bits(&self) -> Seq<bool>;

    /// A prefix has at most 255 bits, so that its length fits the `u8` in
    /// which it is reported.
    proof fn lemma_bits_bounded(&self)
        ensures
            self.bits().len() <= u8::MAX,
    ;

    /// The prefix of length zero, which covers every other.
    fn zero() -> (r: Self)
        ensures
            r.bits().len() == 0,
    ;

    /// The number of significant bits.
    fn prefix_len(&self) -> (r: u8)
        ensures
            r as nat == self.bits().len(),
    ;

    /// The bit at `position`, counted from the most significant bit.
    fn is_bit_set(&self, position: u8) -> (r: bool)
        requires
            (position as nat) < self.bits().len(),
        ensures
            r == self.bits()[position as int],
    ;

    /// Whether `self` covers `other`: `other` is `self` or an extension of it.
    fn contains(&self, other: &Self) -> (r: bool)
        ensures
            r == covers(self.bits(), other.bits()),
    ;

    /// The number of leading bits that `self` and `other` share.
    fn common_length(&self, other: &Self) -> (r: u8)
        ensures
            r as int == common_length(self.bits(), other.bits()),
    ;

    /// The leading `len` bits of `self` as a prefix of their own.
    fn truncate(&self, len: u8) -> (r: Self)
        requires
            len as nat <= self.bits().len(),
        ensures
            r.bits() == self.bits().take(len as int),
    ;
}

/// Which slot of a branch node a child belongs in: `true` for the right slot
/// (the child's bit just past the branch's prefix is 1), `false` for the left.
pub fn to_right<P: Prefix>(branch_p: &P, child_p: &P) -> (r: bool)
    requires
        branch_p.bits().len() < child_p.bits().len(),
    ensures
        r == child_p.bits()[branch_p.bits().len() as int],
{
    child_p.is_bit_set(branch_p.prefix_len())
}

} // verus!
