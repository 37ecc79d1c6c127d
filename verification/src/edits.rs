//! The edits that insertion and removal make to the trie's structure, each
//! with the proof that it keeps the invariant.

use vstd::prelude::*;
use crate::prefix::covers;
use crate::prefix::lemma_covers_transitive;
use crate::prefix::lemma_covers_comparable;
use crate::prefix::lemma_covers_antisymmetric;
use crate::shape::Shape;
use crate::shape::Slot;

verus! {

impl Shape {
    /// The store after a childless node for `key` was hung below `cur`.
    pub open spec fn add_leaf(self, cur: usize, key: Seq<bool>, at: usize) -> Shape {
        self.place(at as int, Slot::fresh(key, true, cur)).set_child(
            cur as int,
            key[self.key(cur as int).len() as int],
            Some(at),
        )
    }

    /// The store after a node for `key` was put between `cur` and its child `j`.
    pub open spec fn add_between(
        self,
        cur: usize,
        j: usize,
        key: Seq<bool>,
        filled: bool,
        at: usize,
    ) -> Shape {
        self.place(
            at as int,
            Slot::fresh(key, filled, cur).with_child(self.key(j as int)[key.len() as int], Some(j)),
        ).set_child(cur as int, key[self.key(cur as int).len() as int], Some(at)).set_parent(
            j as int,
            Some(at),
        )
    }

    /// The slot of `x`'s parent.
    pub open spec fn parent_of(self, x: usize) -> usize {
        self.slots[x as int].parent->0
    }

    /// The side of its parent on which `x` hangs.
    pub open spec fn side_of(self, x: usize) -> bool {
        self.key(x as int)[self.key(self.parent_of(x) as int).len() as int]
    }

    /// The store after the childless node `x` was taken off its parent.
    pub open spec fn detach(self, x: usize) -> Shape {
        self.set_child(self.parent_of(x) as int, self.side_of(x), None).discard(x)
    }

    /// The store after node `x` was taken out and its only child `c` hung in
    /// its place.
    pub open spec fn splice(self, x: usize, c: usize) -> Shape {
        self.set_child(self.parent_of(x) as int, self.side_of(x), Some(c)).set_parent(
            c as int,
            Some(self.parent_of(x)),
        ).discard(x)
    }

    /// Whether a node carries a value has no bearing on the links.
    pub proof fn lemma_set_filled(self, i: usize, filled: bool)
        requires
            self.structure(),
            self.live(i as int),
        ensures
            self.set_filled(i as int, filled).structure(),
            forall|x: int|
                self.tidy_but(x) && (filled || x == i) ==> #[trigger] self.set_filled(
                    i as int,
                    filled,
                ).tidy_but(x),
    {
        let t = self.set_filled(i as int, filled);
        assert forall|k: int| (#[trigger] t.live(k)) == self.live(k) by {}
        assert forall|k: Seq<bool>| #[trigger] t.index.contains_key(k) implies 0 <= t.index[k]
            < t.slots.len() && t.slots[t.index[k]].key == k by {
            assert(self.index.contains_key(k));
        }
        assert forall|k: int, right: bool| t.live(k) implies #[trigger] t.link_ok(k, right) by {
            assert(self.link_ok(k, right));
        }
        assert forall|k: int| t.live(k) implies #[trigger] t.parent_ok(k) by {
            assert(self.parent_ok(k));
        }
        assert forall|k: int, n: int| t.live(k) && t.live(n) implies #[trigger] t.cover_ok(
            k,
            n,
        ) by {
            assert(self.cover_ok(k, n));
            assert(t.key(k) == self.key(k) && t.key(n) == self.key(n));
            if covers(t.key(k), t.key(n)) && k != n {
                let r = self.key(n)[self.key(k).len() as int];
                assert(t.child(k, r) == self.child(k, r));
                assert(self.link_ok(k, r));
                assert(t.key(self.child(k, r)->0 as int) == self.key(self.child(k, r)->0 as int));
            }
        }
        assert forall|f: int| 0 <= f < t.free.len() implies (#[trigger] t.free[f]) < t.slots.len()
            && !t.live(t.free[f] as int) by {
            assert(!self.live(self.free[f] as int));
        }
        assert forall|x: int| self.tidy_but(x) && (filled || x == i) implies #[trigger] t.tidy_but(
            x,
        ) by {
            assert forall|k: int| t.live(k) && k != x implies #[trigger] t.placeholder_ok(k) by {
                assert(self.placeholder_ok(k));
            }
        }
    }

    /// No node stands for `key` when the slot in which the walk for `key`
    /// would go on from `cur` is empty.
    pub proof fn lemma_absent_below_gap(self, cur: usize, key: Seq<bool>)
        requires
            self.structure(),
            self.live(cur as int),
            covers(self.key(cur as int), key),
            self.key(cur as int).len() < key.len(),
            self.child(cur as int, key[self.key(cur as int).len() as int]) is None,
        ensures
            forall|n: int| self.live(n) && covers(key, #[trigger] self.key(n)) ==> false,
            !self.index.contains_key(key),
    {
        assert forall|n: int| self.live(n) && covers(key, #[trigger] self.key(n)) implies false by {
            lemma_covers_transitive(self.key(cur as int), key, self.key(n));
            assert(self.cover_ok(cur as int, n));
        }
        if self.index.contains_key(key) {
            self.lemma_indexed_live(key);
            assert(covers(key, self.key(self.index[key])));
        }
    }

    /// Hanging a new childless node for `key` below `cur`, in the empty slot
    /// that `key`'s next bit selects, keeps the invariant. Where `cur` was a
    /// placeholder with one child, it is a real fork afterwards.
    pub proof fn lemma_add_leaf(self, cur: usize, key: Seq<bool>, at: usize)
        requires
            self.structure(),
            self.tidy_but(cur as int),
            self.live(cur as int),
            covers(self.key(cur as int), key),
            self.key(cur as int).len() < key.len(),
            self.child(cur as int, key[self.key(cur as int).len() as int]) is None,
            self.placeholder_ok(cur as int) || self.child(
                cur as int,
                !key[self.key(cur as int).len() as int],
            ) is Some,
            self.vacant(at as int),
            at < usize::MAX,
        ensures
            self.add_leaf(cur, key, at).wf(),
            self.add_leaf(cur, key, at).live(at as int),
            !self.live(at as int),
            !self.index.contains_key(key),
    {
        let side = key[self.key(cur as int).len() as int];
        let slot = Slot::fresh(key, true, cur);
        let t1 = self.place(at as int, slot);
        let t = self.add_leaf(cur, key, at);
        self.lemma_absent_below_gap(cur, key);
        self.lemma_place(at, slot);
        assert(cur != at);
        assert forall|i: int| (#[trigger] t.live(i)) == t1.live(i) by {}
        assert forall|i: int| 0 <= i < self.slots.len() && i != at && i != cur implies (
        #[trigger] t.slots[i]) == self.slots[i] by {
            assert(t1.slots[i] == self.slots[i]);
        }
        assert(t.slots[cur as int] == self.slots[cur as int].with_child(side, Some(at))) by {
            assert(t1.slots[cur as int] == self.slots[cur as int]);
        }
        assert(t.slots[at as int] == slot);
        assert(t.root_ok()) by {
            assert(t1.live(0));
            assert(t.slots[0].key == self.slots[0].key);
        }
        assert(t.index_ok()) by {
            assert forall|k: Seq<bool>| #[trigger] t.index.contains_key(k) implies 0 <= t.index[k]
                < t.slots.len() && t.slots[t.index[k]].key == k by {
                assert(t1.index.contains_key(k));
            }
        }
        assert(t.free_ok()) by {
            assert forall|f: int| 0 <= f < t.free.len() implies (#[trigger] t.free[f])
                < t.slots.len() && !t.live(t.free[f] as int) by {
                assert(!t1.live(t1.free[f] as int));
            }
        }
        assert forall|i: int, right: bool| t.live(i) implies #[trigger] t.link_ok(i, right) by {
            if i == at {
            } else if i == cur && right == side {
            } else {
                assert(self.live(i));
                assert(self.link_ok(i, right));
                assert(t.child(i, right) == self.child(i, right));
                match self.child(i, right) {
                    Some(j) => {
                        assert(self.live(j as int));
                        assert(j != at);
                        assert(t.slots[j as int].key == self.slots[j as int].key);
                        assert(t.slots[j as int].parent == self.slots[j as int].parent);
                    },
                    None => {},
                }
            }
        }
        assert forall|i: int| t.live(i) implies #[trigger] t.parent_ok(i) by {
            if i == at {
                assert(t.child(cur as int, side) == Some(at));
            } else {
                assert(self.live(i));
                assert(self.parent_ok(i));
                if i != 0 {
                    let p = self.slots[i].parent->0;
                    assert(t.slots[i].parent == Some(p));
                    assert(self.live(p as int));
                    assert(p != at);
                    assert(t.child(p as int, false) == self.child(p as int, false) || p == cur);
                    assert(t.child(p as int, true) == self.child(p as int, true) || p == cur);
                }
            }
        }
        assert forall|i: int, n: int| t.live(i) && t.live(n) implies #[trigger] t.cover_ok(
            i,
            n,
        ) by {
            if covers(t.key(i), t.key(n)) && i != n {
                if i == at {
                    assert(self.live(n));
                    assert(t.key(n) == self.key(n));
                    assert(false);
                } else if n == at {
                    assert(self.live(i));
                    assert(t.key(i) == self.key(i));
                    if i == cur {
                        assert(t.child(cur as int, side) == Some(at));
                    } else if self.key(i).len() <= self.key(cur as int).len() {
                        lemma_covers_comparable(self.key(i), self.key(cur as int), key);
                        self.lemma_cover_shorter(i, cur as int);
                        assert(self.cover_ok(i, cur as int));
                        let c = self.child(i, self.key(cur as int)[self.key(i).len() as int])->0;
                        assert(self.link_ok(i, self.key(cur as int)[self.key(i).len() as int]));
                        assert(c != at);
                        assert(t.key(c as int) == self.key(c as int));
                        lemma_covers_transitive(self.key(c as int), self.key(cur as int), key);
                    } else {
                        lemma_covers_comparable(self.key(cur as int), self.key(i), key);
                        assert(self.cover_ok(cur as int, i));
                        assert(false);
                    }
                } else {
                    assert(self.live(i) && self.live(n));
                    assert(t.key(i) == self.key(i) && t.key(n) == self.key(n));
                    assert(self.cover_ok(i, n));
                    self.lemma_cover_shorter(i, n);
                    let r = self.key(n)[self.key(i).len() as int];
                    assert(self.link_ok(i, r));
                    let c = self.child(i, r)->0;
                    assert(c != at);
                    assert(t.child(i, r) == Some(c));
                    assert(t.key(c as int) == self.key(c as int));
                }
            }
        }
        assert forall|i: int| t.live(i) && i != -1 implies #[trigger] t.placeholder_ok(i) by {
            if i == at {
            } else if i == cur {
            } else {
                assert(self.placeholder_ok(i));
            }
        }
    }

    /// Putting a node for `key` between `cur` and its child `j`, where `key`
    /// extends `cur`'s prefix and is itself extended by `j`'s, keeps the links
    /// sound. The new node has `j` as its only child, so if it carries no
    /// value it is the one node that is not yet a real fork.
    pub proof fn lemma_add_between(self, cur: usize, j: usize, key: Seq<bool>, filled: bool, at: usize)
        requires
            self.wf(),
            self.live(cur as int),
            covers(self.key(cur as int), key),
            self.key(cur as int).len() < key.len(),
            self.child(cur as int, key[self.key(cur as int).len() as int]) == Some(j),
            covers(key, self.key(j as int)),
            key.len() < self.key(j as int).len(),
            self.vacant(at as int),
            at < usize::MAX,
        ensures
            self.add_between(cur, j, key, filled, at).structure(),
            self.add_between(cur, j, key, filled, at).tidy_but(at as int),
            filled ==> self.add_between(cur, j, key, filled, at).wf(),
            self.add_between(cur, j, key, filled, at).live(at as int),
            self.add_between(cur, j, key, filled, at).slots[at as int] == Slot::fresh(
                key,
                filled,
                cur,
            ).with_child(self.key(j as int)[key.len() as int], Some(j)),
            !self.live(at as int),
            !self.index.contains_key(key),
    {
        let side = key[self.key(cur as int).len() as int];
        let below = self.key(j as int)[key.len() as int];
        let slot = Slot::fresh(key, filled, cur).with_child(below, Some(j));
        let t1 = self.place(at as int, slot);
        let t = self.add_between(cur, j, key, filled, at);
        assert(self.link_ok(cur as int, side));
        if self.index.contains_key(key) {
            self.lemma_indexed_live(key);
            assert(self.cover_ok(cur as int, self.index[key]));
            assert(false);
        }
        self.lemma_place(at, slot);
        assert(cur != at && j != at && j != cur);
        assert forall|i: int| (#[trigger] t.live(i)) == t1.live(i) by {}
        assert forall|i: int|
            0 <= i < self.slots.len() && i != at && i != cur && i != j implies (
        #[trigger] t.slots[i]) == self.slots[i] by {
            assert(t1.slots[i] == self.slots[i]);
        }
        assert(t.slots[cur as int] == self.slots[cur as int].with_child(side, Some(at))) by {
            assert(t1.slots[cur as int] == self.slots[cur as int]);
        }
        assert(t.slots[j as int] == self.slots[j as int].with_parent(Some(at))) by {
            assert(t1.slots[j as int] == self.slots[j as int]);
        }
        assert(t.slots[at as int] == slot);
        assert forall|i: int| t.live(i) implies #[trigger] t.key(i) == if i == at {
            key
        } else {
            self.key(i)
        } by {}
        assert(t.root_ok()) by {
            assert(t1.live(0));
        }
        assert(t.index_ok()) by {
            assert forall|k: Seq<bool>| #[trigger] t.index.contains_key(k) implies 0 <= t.index[k]
                < t.slots.len() && t.slots[t.index[k]].key == k by {
                assert(t1.index.contains_key(k));
                if k != key {
                    assert(self.live(self.index[k]));
                }
            }
        }
        assert(t.free_ok()) by {
            assert forall|f: int| 0 <= f < t.free.len() implies (#[trigger] t.free[f])
                < t.slots.len() && !t.live(t.free[f] as int) by {
                assert(!t1.live(t1.free[f] as int));
            }
        }
        assert forall|i: int, right: bool| t.live(i) implies #[trigger] t.link_ok(i, right) by {
            if i == at {
            } else if i == cur && right == side {
            } else {
                assert(self.live(i));
                assert(self.link_ok(i, right));
                assert(t.child(i, right) == self.child(i, right));
                match self.child(i, right) {
                    Some(c) => {
                        assert(self.live(c as int));
                        assert(c != at);
                        assert(c != j);
                        assert(t.slots[c as int].key == self.slots[c as int].key);
                        assert(t.slots[c as int].parent == self.slots[c as int].parent);
                    },
                    None => {},
                }
            }
        }
        assert forall|i: int| t.live(i) implies #[trigger] t.parent_ok(i) by {
            if i == at {
                assert(t.child(cur as int, side) == Some(at));
            } else if i == j {
                assert(t.child(at as int, below) == Some(j));
            } else {
                assert(self.live(i));
                assert(self.parent_ok(i));
                if i != 0 {
                    let p = self.slots[i].parent->0;
                    assert(t.slots[i].parent == Some(p));
                    assert(self.live(p as int));
                    assert(p != at);
                    if p == cur {
                        assert(self.child(cur as int, side) != Some(i as usize));
                        assert(t.child(cur as int, !side) == self.child(cur as int, !side));
                    } else {
                        assert(t.child(p as int, false) == self.child(p as int, false));
                        assert(t.child(p as int, true) == self.child(p as int, true));
                    }
                }
            }
        }
        assert forall|i: int, n: int| t.live(i) && t.live(n) implies #[trigger] t.cover_ok(
            i,
            n,
        ) by {
            if covers(t.key(i), t.key(n)) && i != n {
                if i == at {
                    assert(self.live(n));
                    lemma_covers_transitive(self.key(cur as int), key, self.key(n));
                    assert(self.cover_ok(cur as int, n));
                    assert(self.key(n)[self.key(cur as int).len() as int] == side);
                    assert(self.key(n)[key.len() as int] == below);
                    assert(t.child(at as int, below) == Some(j));
                } else if n == at {
                    assert(self.live(i));
                    if i == cur {
                        assert(t.child(cur as int, side) == Some(at));
                    } else {
                        lemma_covers_transitive(self.key(i), key, self.key(j as int));
                        assert(self.cover_ok(i, j as int));
                        let r = self.key(j as int)[self.key(i).len() as int];
                        assert(self.link_ok(i, r));
                        let c = self.child(i, r)->0;
                        if self.key(i).len() >= key.len() {
                            lemma_covers_antisymmetric(self.key(i), key);
                        }
                        assert(r == key[self.key(i).len() as int]);
                        assert(c != at);
                        assert(t.child(i, r) == Some(c));
                        if self.key(i).len() < self.key(cur as int).len() {
                            lemma_covers_comparable(
                                self.key(i),
                                self.key(cur as int),
                                self.key(j as int),
                            );
                            assert(self.cover_ok(i, cur as int));
                            lemma_covers_comparable(self.key(c as int), key, self.key(j as int));
                        } else {
                            lemma_covers_comparable(
                                self.key(cur as int),
                                self.key(i),
                                self.key(j as int),
                            );
                            self.lemma_cover_shorter(cur as int, i);
                            assert(self.cover_ok(cur as int, i));
                            assert(self.key(i)[self.key(cur as int).len() as int] == side);
                            assert(false);
                        }
                    }
                } else {
                    assert(self.live(i) && self.live(n));
                    assert(self.cover_ok(i, n));
                    self.lemma_cover_shorter(i, n);
                    let r = self.key(n)[self.key(i).len() as int];
                    assert(self.link_ok(i, r));
                    let c = self.child(i, r)->0;
                    assert(c != at);
                    if i == cur && r == side {
                        lemma_covers_transitive(key, self.key(j as int), self.key(n));
                    } else {
                        assert(t.child(i, r) == Some(c));
                    }
                }
            }
        }
        assert forall|i: int| t.live(i) && i != at implies #[trigger] t.placeholder_ok(i) by {
            assert(self.placeholder_ok(i));
        }
    }

    /// A node other than the root hangs on the side of its parent that its
    /// own key selects.
    pub proof fn lemma_hangs_on_side(self, x: usize)
        requires
            self.structure(),
            self.live(x as int),
            x != 0,
        ensures
            self.slots[x as int].parent is Some,
            self.live(self.parent_of(x) as int),
            self.parent_of(x) != x,
            self.child(self.parent_of(x) as int, self.side_of(x)) == Some(x),
            covers(self.key(self.parent_of(x) as int), self.key(x as int)),
            self.key(self.parent_of(x) as int).len() < self.key(x as int).len(),
    {
        assert(self.parent_ok(x as int));
        let p = self.parent_of(x);
        assert(self.link_ok(p as int, false));
        assert(self.link_ok(p as int, true));
    }

    /// Taking a childless placeholder off its parent keeps the links sound;
    /// afterwards only the parent may have stopped being a real fork.
    pub proof fn lemma_detach(self, x: usize)
        requires
            self.structure(),
            self.tidy_but(x as int),
            self.live(x as int),
            x != 0,
            self.child(x as int, false) is None,
            self.child(x as int, true) is None,
        ensures
            self.detach(x).structure(),
            self.detach(x).tidy_but(self.parent_of(x) as int),
            self.detach(x).live(self.parent_of(x) as int),
            !self.detach(x).live(x as int),
            forall|i: int| i != x ==> (#[trigger] self.detach(x).live(i)) == self.live(i),
    {
        let p = self.parent_of(x);
        let side = self.side_of(x);
        let t = self.detach(x);
        let d = self.discard(x);
        self.lemma_hangs_on_side(x);
        self.lemma_discard(x);
        assert forall|i: int| (#[trigger] t.live(i)) == d.live(i) by {}
        assert forall|i: int| 0 <= i < self.slots.len() && i != p implies (#[trigger] t.slots[i])
            == self.slots[i] by {}
        assert(t.slots[p as int] == self.slots[p as int].with_child(side, None));
        assert(t.index_ok()) by {
            assert forall|k: Seq<bool>| #[trigger] t.index.contains_key(k) implies 0 <= t.index[k]
                < t.slots.len() && t.slots[t.index[k]].key == k by {
                assert(d.index.contains_key(k));
            }
        }
        assert(t.free_ok()) by {
            assert forall|f: int| 0 <= f < t.free.len() implies (#[trigger] t.free[f])
                < t.slots.len() && !t.live(t.free[f] as int) by {
                assert(!d.live(d.free[f] as int));
            }
        }
        assert forall|i: int, right: bool| t.live(i) implies #[trigger] t.link_ok(i, right) by {
            assert(self.live(i));
            assert(self.link_ok(i, right));
            if i == p && right == side {
            } else {
                assert(t.child(i, right) == self.child(i, right));
                match self.child(i, right) {
                    Some(c) => {
                        assert(c != x);
                    },
                    None => {},
                }
            }
        }
        assert forall|i: int| t.live(i) implies #[trigger] t.parent_ok(i) by {
            assert(self.live(i));
            assert(self.parent_ok(i));
            if i != 0 {
                let q = self.slots[i].parent->0;
                assert(q != x);
                assert(t.live(q as int));
            }
        }
        assert forall|i: int, n: int| t.live(i) && t.live(n) implies #[trigger] t.cover_ok(
            i,
            n,
        ) by {
            assert(self.live(i) && self.live(n));
            if covers(t.key(i), t.key(n)) && i != n {
                assert(self.cover_ok(i, n));
                self.lemma_cover_shorter(i, n);
                let r = self.key(n)[self.key(i).len() as int];
                assert(self.link_ok(i, r));
                let c = self.child(i, r)->0;
                if c == x {
                    assert(self.cover_ok(x as int, n));
                    assert(false);
                }
                assert(t.child(i, r) == Some(c));
            }
        }
        assert forall|i: int| t.live(i) && i != p implies #[trigger] t.placeholder_ok(i) by {
            assert(self.placeholder_ok(i));
        }
    }

    /// Taking out a node with a single child, and hanging that child in its
    /// place, restores the invariant in full.
    pub proof fn lemma_splice(self, x: usize, c: usize, below: bool)
        requires
            self.structure(),
            self.tidy_but(x as int),
            self.live(x as int),
            x != 0,
            self.child(x as int, below) == Some(c),
            self.child(x as int, !below) is None,
        ensures
            self.splice(x, c).wf(),
            !self.splice(x, c).live(x as int),
            forall|i: int| i != x ==> (#[trigger] self.splice(x, c).live(i)) == self.live(i),
    {
        let p = self.parent_of(x);
        let side = self.side_of(x);
        let t = self.splice(x, c);
        let d = self.discard(x);
        self.lemma_hangs_on_side(x);
        self.lemma_discard(x);
        assert(self.link_ok(x as int, below));
        assert(c != x && c != p && p != x);
        lemma_covers_transitive(self.key(p as int), self.key(x as int), self.key(c as int));
        assert forall|i: int| (#[trigger] t.live(i)) == d.live(i) by {}
        assert forall|i: int|
            0 <= i < self.slots.len() && i != p && i != c implies (#[trigger] t.slots[i])
            == self.slots[i] by {}
        assert(t.slots[p as int] == self.slots[p as int].with_child(side, Some(c)));
        assert(t.slots[c as int] == self.slots[c as int].with_parent(Some(p)));
        assert(t.index_ok()) by {
            assert forall|k: Seq<bool>| #[trigger] t.index.contains_key(k) implies 0 <= t.index[k]
                < t.slots.len() && t.slots[t.index[k]].key == k by {
                assert(d.index.contains_key(k));
            }
        }
        assert(t.free_ok()) by {
            assert forall|f: int| 0 <= f < t.free.len() implies (#[trigger] t.free[f])
                < t.slots.len() && !t.live(t.free[f] as int) by {
                assert(!d.live(d.free[f] as int));
            }
        }
        assert forall|i: int, right: bool| t.live(i) implies #[trigger] t.link_ok(i, right) by {
            assert(self.live(i));
            assert(self.link_ok(i, right));
            if i == p && right == side {
            } else {
                assert(t.child(i, right) == self.child(i, right));
                match self.child(i, right) {
                    Some(k) => {
                        assert(k != x);
                        assert(k != c);
                    },
                    None => {},
                }
            }
        }
        assert forall|i: int| t.live(i) implies #[trigger] t.parent_ok(i) by {
            assert(self.live(i));
            assert(self.parent_ok(i));
            if i == c {
                assert(t.child(p as int, side) == Some(c));
            } else if i != 0 {
                let q = self.slots[i].parent->0;
                assert(self.link_ok(x as int, false));
                assert(self.link_ok(x as int, true));
                assert(q != x);
                assert(t.live(q as int));
            }
        }
        assert forall|i: int, n: int| t.live(i) && t.live(n) implies #[trigger] t.cover_ok(
            i,
            n,
        ) by {
            assert(self.live(i) && self.live(n));
            if covers(t.key(i), t.key(n)) && i != n {
                assert(self.cover_ok(i, n));
                self.lemma_cover_shorter(i, n);
                let r = self.key(n)[self.key(i).len() as int];
                assert(self.link_ok(i, r));
                let k = self.child(i, r)->0;
                if k == x {
                    assert(self.cover_ok(x as int, n));
                    assert(self.link_ok(x as int, self.key(n)[self.key(x as int).len() as int]));
                    assert(t.child(i, r) == Some(c));
                } else {
                    assert(t.child(i, r) == Some(k));
                }
            }
        }
        assert forall|i: int| t.live(i) && i != -1 implies #[trigger] t.placeholder_ok(i) by {
            assert(self.placeholder_ok(i));
        }
    }
}

} // verus!
