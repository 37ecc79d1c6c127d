//! What it means for a sequence of entries to list part of a map, and the
//! orders in which the trie's walks produce their entries.

use vstd::prelude::*;
use crate::prefix::Prefix;
use crate::prefix::covers;
use crate::prefix::precedes;
use crate::prefix::lemma_precedes_asymmetric;

verus! {

/// The bits of the prefix of the entry at position `i`.
pub open spec fn key_at<P: Prefix, T>(r: Seq<(&P, &T)>, i: int) -> Seq<bool> {
    r[i].0.bits()
}

/// `r` lists the entries of `m` whose keys are among `wanted`, and nothing
/// else: every element is such an entry with its value, and every such entry
/// is an element.
pub open spec fn is_listing<P: Prefix, T>(
    r: Seq<(&P, &T)>,
    m: Map<Seq<bool>, T>,
    wanted: Set<Seq<bool>>,
) -> bool {
    &&& forall|i: int|
        0 <= i < r.len() ==> wanted.contains(#[trigger] key_at(r, i)) && m.contains_key(
            key_at(r, i),
        ) && m[key_at(r, i)] == *r[i].1
    &&& forall|k: Seq<bool>|
        wanted.contains(k) && #[trigger] m.contains_key(k) ==> exists|i: int|
            0 <= i < r.len() && #[trigger] key_at(r, i) == k
}

/// No prefix occurs twice in `r`.
pub open spec fn no_repeats<P: Prefix, T>(r: Seq<(&P, &T)>) -> bool {
    forall|i: int, j: int|
        0 <= i < r.len() && 0 <= j < r.len() && i != j ==> #[trigger] key_at(r, i)
            != #[trigger] key_at(r, j)
}

/// The entries of `r` come in the order of a walk that visits a node before
/// its children and the 0 branch before the 1 branch.
pub open spec fn in_walk_order<P: Prefix, T>(r: Seq<(&P, &T)>) -> bool {
    forall|i: int, j: int|
        0 <= i < j < r.len() ==> precedes(#[trigger] key_at(r, i), #[trigger] key_at(r, j))
}

/// The entries of `r` come from the shortest prefix to the longest.
pub open spec fn by_length<P: Prefix, T>(r: Seq<(&P, &T)>) -> bool {
    forall|i: int, j: int|
        0 <= i < j < r.len() ==> (#[trigger] key_at(r, i)).len() < (#[trigger] key_at(r, j)).len()
}

/// The prefixes that `q` covers: `q` itself and everything more specific.
pub open spec fn extensions_of(q: Seq<bool>) -> Set<Seq<bool>> {
    Set::new(|k: Seq<bool>| covers(q, k))
}

/// The prefixes that cover `q`: `q` itself and everything less specific.
pub open spec fn leading_parts_of(q: Seq<bool>) -> Set<Seq<bool>> {
    Set::new(|k: Seq<bool>| covers(k, q))
}

/// Entries in walk order are pairwise different.
pub proof fn lemma_walk_order_no_repeats<P: Prefix, T>(r: Seq<(&P, &T)>)
    requires
        in_walk_order(r),
    ensures
        no_repeats(r),
{
    assert forall|i: int, j: int|
        0 <= i < r.len() && 0 <= j < r.len() && i != j implies #[trigger] key_at(r, i)
        != #[trigger] key_at(r, j) by {
        if i < j {
            lemma_precedes_asymmetric(key_at(r, i), key_at(r, j));
        } else {
            lemma_precedes_asymmetric(key_at(r, j), key_at(r, i));
        }
    }
}

/// The bits of the prefix at position `i`.
pub open spec fn prefix_at<P: Prefix>(r: Seq<&P>, i: int) -> Seq<bool> {
    r[i].bits()
}

/// `r` lists the members of `s` that are among `wanted`, and nothing else.
pub open spec fn is_member_listing<P: Prefix>(
    r: Seq<&P>,
    s: Set<Seq<bool>>,
    wanted: Set<Seq<bool>>,
) -> bool {
    &&& forall|i: int|
        0 <= i < r.len() ==> wanted.contains(#[trigger] prefix_at(r, i)) && s.contains(
            prefix_at(r, i),
        )
    &&& forall|k: Seq<bool>|
        wanted.contains(k) && #[trigger] s.contains(k) ==> exists|i: int|
            0 <= i < r.len() && #[trigger] prefix_at(r, i) == k
}

/// No prefix occurs twice in `r`.
pub open spec fn no_repeated_members<P: Prefix>(r: Seq<&P>) -> bool {
    forall|i: int, j: int|
        0 <= i < r.len() && 0 <= j < r.len() && i != j ==> #[trigger] prefix_at(r, i)
            != #[trigger] prefix_at(r, j)
}

/// The prefixes of `r` come in the order of a walk that visits a node before
/// its children and the 0 branch before the 1 branch.
pub open spec fn members_in_walk_order<P: Prefix>(r: Seq<&P>) -> bool {
    forall|i: int, j: int|
        0 <= i < j < r.len() ==> precedes(#[trigger] prefix_at(r, i), #[trigger] prefix_at(r, j))
}

/// The prefixes of `r` come from the shortest to the longest.
pub open spec fn members_by_length<P: Prefix>(r: Seq<&P>) -> bool {
    forall|i: int, j: int|
        0 <= i < j < r.len() ==> (#[trigger] prefix_at(r, i)).len() < (#[trigger] prefix_at(
            r,
            j,
        )).len()
}

} // verus!
