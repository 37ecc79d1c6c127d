//! What the trie's operations mean for the map from prefixes to values that a
//! trie stands for, and the laws that hold between them.

use vstd::prelude::*;
use crate::prefix::covers;
use crate::prefix::lemma_covers_is_take;

verus! {

/// The longest leading part of `q`, of length at most `n`, that is one of `keys`.
pub open spec fn longest_match_upto(keys: Set<Seq<bool>>, q: Seq<bool>, n: int) -> Option<
    Seq<bool>,
>
    decreases n + 1,
{
    if n < 0 {
        None
    } else if keys.contains(q.take(n)) {
        Some(q.take(n))
    } else {
        longest_match_upto(keys, q, n - 1)
    }
}

/// The most specific of `keys` that covers `q`, if any does.
pub open spec fn longest_match(keys: Set<Seq<bool>>, q: Seq<bool>) -> Option<Seq<bool>> {
    longest_match_upto(keys, q, q.len() as int)
}

proof fn lemma_longest_match_upto(keys: Set<Seq<bool>>, q: Seq<bool>, n: int)
    requires
        n <= q.len(),
    ensures
        match longest_match_upto(keys, q, n) {
            Some(k) => {
                &&& keys.contains(k)
                &&& covers(k, q)
                &&& k.len() <= n
                &&& forall|other: Seq<bool>|
                    #![trigger keys.contains(other)]
                    keys.contains(other) && covers(other, q) && other.len() <= n ==> other.len()
                        <= k.len()
            },
            None => forall|other: Seq<bool>|
                #![trigger keys.contains(other)]
                keys.contains(other) && covers(other, q) ==> other.len() > n,
        },
    decreases n + 1,
{
    if n < 0 {
    } else if keys.contains(q.take(n)) {
    } else {
        lemma_longest_match_upto(keys, q, n - 1);
        assert forall|other: Seq<bool>|
            keys.contains(other) && covers(other, q) implies other.len() != n by {
            if other.len() == n {
                lemma_covers_is_take(other, q);
            }
        }
    }
}

/// The longest match is one of the keys, covers the query, and no key that
/// covers the query is longer; there is none exactly when no key covers the
/// query.
pub proof fn lemma_longest_match(keys: Set<Seq<bool>>, q: Seq<bool>)
    ensures
        match longest_match(keys, q) {
            Some(k) => {
                &&& keys.contains(k)
                &&& covers(k, q)
                &&& forall|other: Seq<bool>|
                    #![trigger keys.contains(other)]
                    keys.contains(other) && covers(other, q) ==> other.len() <= k.len()
            },
            None => forall|other: Seq<bool>|
                #![trigger keys.contains(other)]
                keys.contains(other) && covers(other, q) ==> false,
        },
{
    lemma_longest_match_upto(keys, q, q.len() as int);
}

/// A key that covers the query and is at least as long as every other key
/// that does is the longest match.
pub proof fn lemma_longest_match_is(keys: Set<Seq<bool>>, q: Seq<bool>, k: Seq<bool>)
    requires
        keys.contains(k),
        covers(k, q),
        forall|other: Seq<bool>|
            #![trigger keys.contains(other)]
            keys.contains(other) && covers(other, q) ==> other.len() <= k.len(),
    ensures
        longest_match(keys, q) == Some(k),
{
    lemma_longest_match(keys, q);
    let found = longest_match(keys, q)->0;
    assert(found.len() == k.len());
    lemma_covers_is_take(found, q);
    lemma_covers_is_take(k, q);
}

/// Where no key covers the query there is no match.
pub proof fn lemma_longest_match_none(keys: Set<Seq<bool>>, q: Seq<bool>)
    requires
        forall|other: Seq<bool>|
            #![trigger keys.contains(other)]
            keys.contains(other) ==> !covers(other, q),
    ensures
        longest_match(keys, q) is None,
{
    lemma_longest_match(keys, q);
}

/// What is stored under a prefix is what a lookup of that prefix finds: in the
/// map left by inserting `v` under `p`, `p` leads to `v`.
pub proof fn lemma_insert_then_get<T>(m: Map<Seq<bool>, T>, p: Seq<bool>, v: T)
    ensures
        m.insert(p, v).get(p) == Some(v),
{
}

/// Inserting twice under one prefix overwrites: the second insertion finds
/// the first value there, which is what it hands back, and leaves the second.
pub proof fn lemma_insert_overwrites<T>(m: Map<Seq<bool>, T>, p: Seq<bool>, v1: T, v2: T)
    ensures
        m.insert(p, v1).get(p) == Some(v1),
        m.insert(p, v1).insert(p, v2).get(p) == Some(v2),
        m.insert(p, v1).insert(p, v2) == m.insert(p, v2),
{
    assert(m.insert(p, v1).insert(p, v2) =~= m.insert(p, v2));
}

/// After a removal the prefix is not found, and a second removal finds
/// nothing to hand back and changes nothing.
pub proof fn lemma_remove_then_miss<T>(m: Map<Seq<bool>, T>, p: Seq<bool>, v: T)
    ensures
        m.insert(p, v).remove(p).get(p) is None,
        m.insert(p, v).remove(p).remove(p) == m.insert(p, v).remove(p),
{
    assert(m.insert(p, v).remove(p).remove(p) =~= m.insert(p, v).remove(p));
}

/// Where a prefix of length zero is the only entry, it is the longest match
/// of every query, whatever the query's bits and length, and its value is
/// what the query finds.
pub proof fn lemma_default_route<T>(root: Seq<bool>, d: T, q: Seq<bool>)
    requires
        root.len() == 0,
    ensures
        longest_match(Map::<Seq<bool>, T>::empty().insert(root, d).dom(), q) == Some(root),
        Map::<Seq<bool>, T>::empty().insert(root, d)[root] == d,
{
    let keys = Map::<Seq<bool>, T>::empty().insert(root, d).dom();
    assert(keys.contains(root));
    assert forall|other: Seq<bool>| #![trigger keys.contains(other)] keys.contains(other) implies other.len()
        <= root.len() by {
        assert(other == root);
    }
    lemma_longest_match_is(keys, q, root);
}

/// An entry that covers the query is found unless a longer one is: the
/// longest match is never shorter than any entry that covers the query.
pub proof fn lemma_longest_match_specific(keys: Set<Seq<bool>>, q: Seq<bool>, k: Seq<bool>)
    requires
        keys.contains(k),
        covers(k, q),
    ensures
        longest_match(keys, q) is Some,
        k.len() <= longest_match(keys, q)->0.len(),
        covers(longest_match(keys, q)->0, q),
        keys.contains(longest_match(keys, q)->0),
{
    lemma_longest_match(keys, q);
}

} // verus!
