//! The trie's structure as mathematics: which nodes exist, how they are linked,
//! and the invariant that makes every walk over them a search.
//!
//! A `Shape` forgets the payloads and keeps, for every slot of the node store,
//! the node's key and links. All structural reasoning is done here, once, on
//! plain sequences and maps; the executable operations only show that what
//! they did to the node store is one of the edits proved below.

use vstd::prelude::*;
use crate::prefix::covers;
use crate::prefix::lemma_covers_antisymmetric;

verus! {

/// One slot of the node store, payload forgotten.
pub struct Slot {
    /// The prefix that the node stands for.
    pub key: Seq<bool>,
    /// Whether the node carries a value; a node without one is a placeholder.
    pub filled: bool,
    /// The child whose next bit is 0.
    pub left: Option<usize>,
    /// The child whose next bit is 1.
    pub right: Option<usize>,
    /// The node whose child this is.
    pub parent: Option<usize>,
}

/// The node store as a whole: the slots, the slot in which each key lives, and
/// the slots waiting to be used again.
pub struct Shape {
    pub slots: Seq<Slot>,
    pub index: Map<Seq<bool>, int>,
    pub free: Seq<usize>,
}

impl Slot {
    pub open spec fn child(self, right: bool) -> Option<usize> {
        if right {
            self.right
        } else {
            self.left
        }
    }

    pub open spec fn with_child(self, right: bool, c: Option<usize>) -> Slot {
        if right {
            Slot { right: c, ..self }
        } else {
            Slot { left: c, ..self }
        }
    }

    pub open spec fn with_parent(self, p: Option<usize>) -> Slot {
        Slot { parent: p, ..self }
    }

    pub open spec fn with_filled(self, filled: bool) -> Slot {
        Slot { filled, ..self }
    }

    /// A node with no children yet.
    pub open spec fn fresh(key: Seq<bool>, filled: bool, parent: usize) -> Slot {
        Slot { key, filled, left: None, right: None, parent: Some(parent) }
    }
}

impl Shape {
    /// Slot `i` holds a node of the trie (and not a leftover of a removed one).
    pub open spec fn live(self, i: int) -> bool {
        &&& 0 <= i < self.slots.len()
        &&& self.index.contains_key(self.slots[i].key)
        &&& self.index[self.slots[i].key] == i
    }

    pub open spec fn key(self, i: int) -> Seq<bool> {
        self.slots[i].key
    }

    pub open spec fn child(self, i: int, right: bool) -> Option<usize> {
        self.slots[i].child(right)
    }

    /// Slot 0 is the root: always there, standing for the empty prefix.
    pub open spec fn root_ok(self) -> bool {
        &&& self.live(0)
        &&& self.key(0).len() == 0
        &&& self.slots[0].parent is None
    }

    /// Every indexed key is the key of the slot it is indexed at.
    pub open spec fn index_ok(self) -> bool {
        forall|k: Seq<bool>| #[trigger]
            self.index.contains_key(k) ==> 0 <= self.index[k] < self.slots.len()
                && self.slots[self.index[k]].key == k
    }

    /// The link out of slot `i` on the given side, if there is one, leads to a
    /// live node that extends `i`'s prefix with that side's bit and points back.
    pub open spec fn link_ok(self, i: int, right: bool) -> bool {
        match self.child(i, right) {
            Some(j) => {
                &&& self.live(j as int)
                &&& self.slots[j as int].parent == Some(i as usize)
                &&& covers(self.key(i), self.key(j as int))
                &&& self.key(i).len() < self.key(j as int).len()
                &&& self.key(j as int)[self.key(i).len() as int] == right
            },
            None => true,
        }
    }

    pub open spec fn links_ok(self) -> bool {
        forall|i: int, right: bool| self.live(i) ==> #[trigger] self.link_ok(i, right)
    }

    /// Every node but the root hangs in one of its parent's two slots.
    pub open spec fn parent_ok(self, i: int) -> bool {
        i != 0 ==> match self.slots[i].parent {
            Some(p) => {
                &&& self.live(p as int)
                &&& (self.child(p as int, false) == Some(i as usize) || self.child(p as int, true)
                    == Some(i as usize))
            },
            None => false,
        }
    }

    pub open spec fn parents_ok(self) -> bool {
        forall|i: int| self.live(i) ==> #[trigger] self.parent_ok(i)
    }

    /// If node `i` covers another node `n`, then `n` is found below `i`, in the
    /// slot that `n`'s next bit selects.
    pub open spec fn cover_ok(self, i: int, n: int) -> bool {
        covers(self.key(i), self.key(n)) && i != n ==> match self.child(
            i,
            self.key(n)[self.key(i).len() as int],
        ) {
            Some(j) => covers(self.key(j as int), self.key(n)),
            None => false,
        }
    }

    pub open spec fn covers_ok(self) -> bool {
        forall|i: int, n: int| self.live(i) && self.live(n) ==> #[trigger] self.cover_ok(i, n)
    }

    /// The slots waiting for reuse hold no node, and none is listed twice.
    pub open spec fn free_ok(self) -> bool {
        &&& forall|f: int|
            0 <= f < self.free.len() ==> (#[trigger] self.free[f]) < self.slots.len()
                && !self.live(self.free[f] as int)
        &&& forall|f: int, g: int|
            0 <= f < g < self.free.len() ==> #[trigger] self.free[f] != #[trigger] self.free[g]
    }

    /// Everything that holds of the links between nodes, whether or not they
    /// carry values.
    pub open spec fn structure(self) -> bool {
        &&& self.slots.len() <= usize::MAX
        &&& self.root_ok()
        &&& self.index_ok()
        &&& self.links_ok()
        &&& self.parents_ok()
        &&& self.covers_ok()
        &&& self.free_ok()
    }

    /// A placeholder other than the root is a real fork: it has both children.
    pub open spec fn placeholder_ok(self, i: int) -> bool {
        i != 0 && !self.slots[i].filled ==> self.slots[i].left is Some && self.slots[i].right
            is Some
    }

    /// Every node is a value or a real fork, with the possible exception of `x`.
    pub open spec fn tidy_but(self, x: int) -> bool {
        forall|i: int| self.live(i) && i != x ==> #[trigger] self.placeholder_ok(i)
    }

    /// The invariant of the trie between operations.
    pub open spec fn wf(self) -> bool {
        &&& self.structure()
        &&& self.tidy_but(-1)
    }

    /// Where a new node goes: into the most recently freed slot, or, when none
    /// is waiting, at the end of the store.
    pub open spec fn vacant(self, at: int) -> bool {
        if self.free.len() > 0 {
            at == self.free.last()
        } else {
            at == self.slots.len()
        }
    }

    pub open spec fn set_child(self, i: int, right: bool, c: Option<usize>) -> Shape {
        Shape { slots: self.slots.update(i, self.slots[i].with_child(right, c)), ..self }
    }

    pub open spec fn set_parent(self, i: int, p: Option<usize>) -> Shape {
        Shape { slots: self.slots.update(i, self.slots[i].with_parent(p)), ..self }
    }

    pub open spec fn set_filled(self, i: int, filled: bool) -> Shape {
        Shape { slots: self.slots.update(i, self.slots[i].with_filled(filled)), ..self }
    }

    /// The store with `slot` put into the vacant slot `at`.
    pub open spec fn place(self, at: int, slot: Slot) -> Shape {
        if at == self.slots.len() {
            Shape {
                slots: self.slots.push(slot),
                index: self.index.insert(slot.key, at),
                free: self.free,
            }
        } else {
            Shape {
                slots: self.slots.update(at, slot),
                index: self.index.insert(slot.key, at),
                free: self.free.drop_last(),
            }
        }
    }

    /// The store with the node in slot `x` given up and the slot listed for reuse.
    pub open spec fn discard(self, x: usize) -> Shape {
        Shape {
            slots: self.slots,
            index: self.index.remove(self.slots[x as int].key),
            free: self.free.push(x),
        }
    }

    /// No two nodes stand for the same prefix.
    pub proof fn lemma_live_unique(self, i: int, n: int)
        requires
            self.live(i),
            self.live(n),
            self.key(i) == self.key(n),
        ensures
            i == n,
    {
    }

    /// A node that covers another node is strictly shorter.
    pub proof fn lemma_cover_shorter(self, i: int, n: int)
        requires
            self.live(i),
            self.live(n),
            covers(self.key(i), self.key(n)),
            i != n,
        ensures
            self.key(i).len() < self.key(n).len(),
    {
        if self.key(i).len() >= self.key(n).len() {
            lemma_covers_antisymmetric(self.key(i), self.key(n));
        }
    }

    /// A key that is indexed is the key of a live node.
    pub proof fn lemma_indexed_live(self, k: Seq<bool>)
        requires
            self.index_ok(),
            self.index.contains_key(k),
        ensures
            self.live(self.index[k]),
            self.key(self.index[k]) == k,
    {
    }

    /// Putting a node into a vacant slot disturbs no other node.
    pub proof fn lemma_place(self, at: usize, slot: Slot)
        requires
            self.index_ok(),
            self.free_ok(),
            self.vacant(at as int),
            !self.index.contains_key(slot.key),
        ensures
            !self.live(at as int),
            self.place(at as int, slot).live(at as int),
            self.place(at as int, slot).index_ok(),
            self.place(at as int, slot).free_ok(),
            self.place(at as int, slot).slots[at as int] == slot,
            self.place(at as int, slot).slots.len() >= self.slots.len(),
            forall|i: int|
                i != at ==> (#[trigger] self.place(at as int, slot).live(i)) == self.live(i),
            forall|i: int|
                0 <= i < self.slots.len() && i != at ==> (#[trigger] self.place(
                    at as int,
                    slot,
                ).slots[i]) == self.slots[i],
    {
        let t = self.place(at as int, slot);
        if self.free.len() > 0 {
            assert(self.free[self.free.len() - 1] == at);
        }
        assert forall|k: Seq<bool>| #[trigger] t.index.contains_key(k) implies 0 <= t.index[k]
            < t.slots.len() && t.slots[t.index[k]].key == k by {
            if k != slot.key {
                assert(self.index.contains_key(k));
                assert(self.live(self.index[k]));
            }
        }
        assert forall|i: int| i != at implies (#[trigger] t.live(i)) == self.live(i) by {
            if 0 <= i < self.slots.len() {
                assert(t.slots[i] == self.slots[i]);
                if self.slots[i].key == slot.key {
                    assert(!self.live(i));
                    assert(!t.live(i));
                }
            }
        }
        assert forall|f: int| 0 <= f < t.free.len() implies (#[trigger] t.free[f]) < t.slots.len()
            && !t.live(t.free[f] as int) by {
            assert(t.free[f] == self.free[f]);
            if self.free.len() > 0 {
                assert(self.free[f] != self.free[self.free.len() - 1]);
            }
            assert(!self.live(self.free[f] as int));
        }
        assert forall|f: int, g: int| 0 <= f < g < t.free.len() implies #[trigger] t.free[f]
            != #[trigger] t.free[g] by {
            assert(t.free[f] == self.free[f]);
            assert(t.free[g] == self.free[g]);
        }
    }

    /// Giving up a node disturbs no other node.
    pub proof fn lemma_discard(self, x: usize)
        requires
            self.index_ok(),
            self.free_ok(),
            self.live(x as int),
        ensures
            !self.discard(x).live(x as int),
            self.discard(x).index_ok(),
            self.discard(x).free_ok(),
            forall|i: int| i != x ==> (#[trigger] self.discard(x).live(i)) == self.live(i),
    {
        let t = self.discard(x);
        assert forall|i: int| i != x implies (#[trigger] t.live(i)) == self.live(i) by {
            if 0 <= i < self.slots.len() && self.slots[i].key == self.slots[x as int].key {
                assert(!self.live(i));
            }
        }
        assert forall|f: int| 0 <= f < t.free.len() implies (#[trigger] t.free[f]) < t.slots.len()
            && !t.live(t.free[f] as int) by {
            if f < self.free.len() {
                assert(t.free[f] == self.free[f]);
                assert(!self.live(self.free[f] as int));
            }
        }
        assert forall|f: int, g: int| 0 <= f < g < t.free.len() implies #[trigger] t.free[f]
            != #[trigger] t.free[g] by {
            assert(t.free[f] == self.free[f]);
            if g < self.free.len() {
                assert(t.free[g] == self.free[g]);
            } else {
                assert(!self.live(self.free[f] as int));
            }
        }
    }
}

} // verus!
