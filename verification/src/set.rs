//! `PrefixSet`: a set of prefixes, kept as a `PrefixMap` whose values say
//! nothing.

use vstd::prelude::*;
use crate::prefix::Prefix;
use crate::map::PrefixMap;
use crate::model::longest_match;
use crate::listing::key_at;
use crate::listing::is_listing;
use crate::listing::in_walk_order;
use crate::listing::by_length;
use crate::listing::no_repeats;
use crate::listing::extensions_of;
use crate::listing::leading_parts_of;
use crate::listing::prefix_at;
use crate::listing::is_member_listing;
use crate::listing::no_repeated_members;
use crate::listing::members_in_walk_order;
use crate::listing::members_by_length;

verus! {

/// A set of prefixes.
pub struct PrefixSet<P: Prefix> {
    map: PrefixMap<P, ()>,
}

impl<P: Prefix> View for PrefixSet<P> {
    type V = Set<Seq<bool>>;

    /// The bits of each prefix in the set.
    closed spec fn view(&self) -> Set<Seq<bool>> {
        self.map@.dom()
    }
}

/// The prefixes of a sequence of entries, in the same order.
fn prefixes_of<'a, P: Prefix>(entries: Vec<(&'a P, &'a ())>) -> (r: Vec<&'a P>)
    ensures
        r@.len() == entries@.len(),
        forall|i: int| 0 <= i < r@.len() ==> #[trigger] prefix_at(r@, i) == key_at(entries@, i),
{
    let mut out: Vec<&'a P> = Vec::new();
    let mut i: usize = 0;
    while i < entries.len()
        invariant
            i <= entries@.len(),
            out@.len() == i,
            forall|k: int| 0 <= k < i ==> #[trigger] prefix_at(out@, k) == key_at(entries@, k),
        decreases entries@.len() - i,
    {
        let ghost before = out@;
        out.push(entries[i].0);
        proof {
            assert forall|k: int| 0 <= k < i + 1 implies #[trigger] prefix_at(out@, k) == key_at(
                entries@,
                k,
            ) by {
                if k < i {
                    assert(prefix_at(before, k) == key_at(entries@, k));
                }
            }
        }
        i += 1;
    }
    out
}

/// What holds of a listing of entries holds of the listing of their prefixes.
proof fn lemma_members<P: Prefix>(
    entries: Seq<(&P, &())>,
    r: Seq<&P>,
    m: Map<Seq<bool>, ()>,
    wanted: Set<Seq<bool>>,
)
    requires
        r.len() == entries.len(),
        forall|i: int| 0 <= i < r.len() ==> #[trigger] prefix_at(r, i) == key_at(entries, i),
        is_listing(entries, m, wanted),
        no_repeats(entries),
    ensures
        is_member_listing(r, m.dom(), wanted),
        no_repeated_members(r),
        in_walk_order(entries) ==> members_in_walk_order(r),
        by_length(entries) ==> members_by_length(r),
{
    assert forall|i: int| 0 <= i < r.len() implies wanted.contains(#[trigger] prefix_at(r, i))
        && m.dom().contains(prefix_at(r, i)) by {
        assert(prefix_at(r, i) == key_at(entries, i));
    }
    assert forall|k: Seq<bool>| wanted.contains(k) && #[trigger] m.dom().contains(k) implies exists|
        i: int,
    |
        0 <= i < r.len() && #[trigger] prefix_at(r, i) == k by {
        assert(m.contains_key(k));
        let i = choose|i: int| 0 <= i < entries.len() && #[trigger] key_at(entries, i) == k;
        assert(prefix_at(r, i) == k);
    }
    assert forall|i: int, j: int|
        0 <= i < r.len() && 0 <= j < r.len() && i != j implies #[trigger] prefix_at(r, i)
        != #[trigger] prefix_at(r, j) by {
        assert(key_at(entries, i) != key_at(entries, j));
    }
    if in_walk_order(entries) {
        assert forall|i: int, j: int| 0 <= i < j < r.len() implies crate::prefix::precedes(
            #[trigger] prefix_at(r, i),
            #[trigger] prefix_at(r, j),
        ) by {
            assert(crate::prefix::precedes(key_at(entries, i), key_at(entries, j)));
        }
    }
    if by_length(entries) {
        assert forall|i: int, j: int| 0 <= i < j < r.len() implies (#[trigger] prefix_at(
            r,
            i,
        )).len() < (#[trigger] prefix_at(r, j)).len() by {
            assert(key_at(entries, i).len() < key_at(entries, j).len());
        }
    }
}

impl<P: Prefix> PrefixSet<P> {
    /// The invariant that every operation keeps.
    pub closed spec fn wf(&self) -> bool {
        self.map.wf()
    }

    /// An empty set.
    pub fn new() -> (r: Self)
        ensures
            r.wf(),
            r@ == Set::<Seq<bool>>::empty(),
    {
        let r = PrefixSet { map: PrefixMap::new() };
        proof {
            assert(r@ =~= Set::<Seq<bool>>::empty());
        }
        r
    }

    /// Adds `prefix` to the set, and says whether it was new.
    pub fn insert(&mut self, prefix: P) -> (r: bool)
        requires
            old(self).wf(),
        ensures
            final(self).wf(),
            final(self)@ == old(self)@.insert(prefix.bits()),
            r == !old(self)@.contains(prefix.bits()),
    {
        let ghost before = self.map@;
        let previous = self.map.insert(prefix, ());
        proof {
            assert(before.insert(prefix.bits(), ()).dom() =~= before.dom().insert(prefix.bits()));
        }
        previous.is_none()
    }

    /// Takes `prefix` out of the set, and says whether it was there.
    pub fn remove(&mut self, prefix: &P) -> (r: bool)
        requires
            old(self).wf(),
        ensures
            final(self).wf(),
            final(self)@ == old(self)@.remove(prefix.bits()),
            r == old(self)@.contains(prefix.bits()),
    {
        let ghost before = self.map@;
        let previous = self.map.remove(prefix);
        proof {
            assert(before.remove(prefix.bits()).dom() =~= before.dom().remove(prefix.bits()));
        }
        previous.is_some()
    }

    /// Whether exactly `prefix` is in the set.
    pub fn contains(&self, prefix: &P) -> (r: bool)
        requires
            self.wf(),
        ensures
            r == self@.contains(prefix.bits()),
    {
        self.map.contains_key(prefix)
    }

    /// The most specific member of the set that covers `prefix`.
    pub fn get_longest_match(&self, prefix: &P) -> (r: Option<&P>)
        requires
            self.wf(),
        ensures
            match r {
                Some(p) => longest_match(self@, prefix.bits()) == Some(p.bits()),
                None => longest_match(self@, prefix.bits()) is None,
            },
    {
        match self.map.get_longest_match(prefix) {
            Some((p, _)) => Some(p),
            None => None,
        }
    }

    /// Every member of the set, each once, in the order of a walk that visits
    /// a node before its children and the 0 branch before the 1 branch.
    pub fn entries(&self) -> (r: Vec<&P>)
        requires
            self.wf(),
        ensures
            is_member_listing(r@, self@, Set::full()),
            members_in_walk_order(r@),
            no_repeated_members(r@),
    {
        let entries = self.map.entries();
        let ghost listed = entries@;
        let r = prefixes_of(entries);
        proof {
            lemma_members(listed, r@, self.map@, Set::full());
        }
        r
    }

    /// Every member that is `prefix` or more specific, each once, in walk
    /// order.
    pub fn children(&self, prefix: &P) -> (r: Vec<&P>)
        requires
            self.wf(),
        ensures
            is_member_listing(r@, self@, extensions_of(prefix.bits())),
            members_in_walk_order(r@),
            no_repeated_members(r@),
    {
        let entries = self.map.children(prefix);
        let ghost listed = entries@;
        let r = prefixes_of(entries);
        proof {
            lemma_members(listed, r@, self.map@, extensions_of(prefix.bits()));
        }
        r
    }

    /// Every member that is `prefix` or less specific, each once, from the
    /// least specific to the most specific.
    pub fn cover(&self, prefix: &P) -> (r: Vec<&P>)
        requires
            self.wf(),
        ensures
            is_member_listing(r@, self@, leading_parts_of(prefix.bits())),
            members_by_length(r@),
            no_repeated_members(r@),
    {
        let entries = self.map.cover(prefix);
        let ghost listed = entries@;
        let r = prefixes_of(entries);
        proof {
            lemma_members(listed, r@, self.map@, leading_parts_of(prefix.bits()));
        }
        r
    }
}

} // verus!
