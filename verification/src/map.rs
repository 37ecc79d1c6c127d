//! `PrefixMap`: a map from prefixes to values, kept as a compressed binary
//! trie in an arena of nodes.

use vstd::prelude::*;
use crate::prefix::Prefix;
use crate::prefix::covers;
use crate::prefix::lemma_covers_antisymmetric;
use crate::prefix::lemma_covers_comparable;
use crate::prefix::lemma_covers_transitive;
use crate::prefix::lemma_common_length;
use crate::prefix::to_right;
use crate::prefix::precedes;
use crate::prefix::is_common_length;
use crate::prefix::lemma_precedes_extension;
use crate::prefix::lemma_precedes_fork;
use crate::listing::key_at;
use crate::listing::is_listing;
use crate::listing::in_walk_order;
use crate::listing::no_repeats;
use crate::listing::by_length;
use crate::listing::extensions_of;
use crate::listing::leading_parts_of;
use crate::listing::lemma_walk_order_no_repeats;
use crate::shape::Shape;
use crate::shape::Slot;
use crate::model::longest_match;
use crate::model::lemma_longest_match_is;
use crate::model::lemma_longest_match_none;

verus! {

/// A node of the trie. It stands for one prefix; it carries a value if that
/// prefix was inserted, and is a placeholder where two longer prefixes fork.
struct Node<P, T> {
    /// The prefix that the node stands for.
    prefix: P,
    /// The value stored under the prefix, if one is.
    value: Option<T>,
    /// The slot of the child whose next bit is 0.
    left: Option<usize>,
    /// The slot of the child whose next bit is 1.
    right: Option<usize>,
    /// The slot of the node whose child this is; the root has none.
    parent: Option<usize>,
}

/// A map from prefixes to values.
///
/// The nodes live in an arena and refer to each other by index. Slot 0 is the
/// root, which stands for the empty prefix. Slots of removed nodes are listed
/// in `free` and used again by later insertions.
pub struct PrefixMap<P: Prefix, T> {
    /// The arena.
    nodes: Vec<Node<P, T>>,
    /// The slots of the arena that hold no node at present.
    free: Vec<usize>,
    /// For each prefix that a node stands for, the slot of that node. It is
    /// there for the proofs only and leaves no trace in the compiled code.
    index: Ghost<Map<Seq<bool>, int>>,
}

impl<P: Prefix, T> Node<P, T> {
    spec fn slot(self) -> Slot {
        Slot {
            key: self.prefix.bits(),
            filled: self.value is Some,
            left: self.left,
            right: self.right,
            parent: self.parent,
        }
    }
}

impl<P: Prefix, T> View for PrefixMap<P, T> {
    type V = Map<Seq<bool>, T>;

    /// The map that the trie stands for: the bits of each inserted prefix,
    /// and the value under it.
    closed spec fn view(&self) -> Map<Seq<bool>, T> {
        Map::new(
            |k: Seq<bool>| self.index@.contains_key(k) && self.nodes[self.index@[k]].value is Some,
            |k: Seq<bool>| self.nodes[self.index@[k]].value->0,
        )
    }
}

impl<P: Prefix, T> PrefixMap<P, T> {
    /// The links between the nodes, payloads forgotten.
    pub closed spec fn shape(&self) -> Shape {
        Shape {
            slots: Seq::new(self.nodes.len() as nat, |i: int| self.nodes[i].slot()),
            index: self.index@,
            free: self.free@,
        }
    }

    /// The invariant that every operation keeps.
    pub closed spec fn wf(&self) -> bool {
        self.shape().wf()
    }

    /// `i` is a node that carries a value and covers `q`.
    spec fn candidate(&self, i: int, q: Seq<bool>) -> bool {
        &&& self.shape().live(i)
        &&& self.nodes[i].value is Some
        &&& covers(self.shape().key(i), q)
    }

    /// A key is in the map exactly when a node with a value stands for it.
    proof fn lemma_view_node(&self, i: int)
        requires
            self.shape().index_ok(),
            self.shape().live(i),
        ensures
            self@.contains_key(self.shape().key(i)) == (self.nodes[i].value is Some),
            self.nodes[i].value is Some ==> self@[self.shape().key(i)] == self.nodes[i].value->0,
    {
    }

    /// Every key of the map is the key of a node with a value.
    proof fn lemma_view_key(&self, k: Seq<bool>)
        requires
            self.shape().index_ok(),
            self@.contains_key(k),
        ensures
            self.shape().live(self.index@[k]),
            self.shape().key(self.index@[k]) == k,
            self.nodes[self.index@[k]].value == Some(self@[k]),
    {
    }

    /// An empty map.
    pub fn new() -> (r: Self)
        ensures
            r.wf(),
            r@ == Map::<Seq<bool>, T>::empty(),
    {
        let root = Node { prefix: P::zero(), value: None, left: None, right: None, parent: None };
        let ghost key = root.prefix.bits();
        let mut nodes: Vec<Node<P, T>> = Vec::new();
        nodes.push(root);
        let r = PrefixMap { nodes, free: Vec::new(), index: Ghost(Map::empty().insert(key, 0int)) };
        proof {
            let s = r.shape();
            assert(s.live(0));
            assert forall|i: int, n: int| s.live(i) && s.live(n) implies #[trigger] s.cover_ok(
                i,
                n,
            ) by {}
            assert(r@ =~= Map::<Seq<bool>, T>::empty());
        }
        r
    }

    fn child_of(&self, i: usize, right: bool) -> (r: Option<usize>)
        requires
            i < self.nodes.len(),
        ensures
            r == self.shape().child(i as int, right),
    {
        if right {
            self.nodes[i].right
        } else {
            self.nodes[i].left
        }
    }

    /// The node that stands for exactly `prefix`, placeholder or not.
    fn find(&self, prefix: &P) -> (r: Option<usize>)
        requires
            self.wf(),
        ensures
            match r {
                Some(i) => self.shape().live(i as int) && self.shape().key(i as int)
                    == prefix.bits(),
                None => !self.index@.contains_key(prefix.bits()),
            },
    {
        let target_len = prefix.prefix_len();
        let mut cur: usize = 0;
        loop
            invariant
                self.wf(),
                self.shape().live(cur as int),
                covers(self.shape().key(cur as int), prefix.bits()),
                target_len as nat == prefix.bits().len(),
            decreases prefix.bits().len() - self.shape().key(cur as int).len(),
        {
            let cur_len = self.nodes[cur].prefix.prefix_len();
            if cur_len == target_len {
                proof {
                    lemma_covers_antisymmetric(self.shape().key(cur as int), prefix.bits());
                }
                return Some(cur);
            }
            let right = prefix.is_bit_set(cur_len);
            match self.child_of(cur, right) {
                None => {
                    proof {
                        self.shape().lemma_absent_below_gap(cur, prefix.bits());
                    }
                    return None;
                },
                Some(j) => {
                    proof {
                        assert(self.shape().link_ok(cur as int, right));
                    }
                    if self.nodes[j].prefix.contains(prefix) {
                        cur = j;
                    } else {
                        proof {
                            let s = self.shape();
                            if s.index.contains_key(prefix.bits()) {
                                s.lemma_indexed_live(prefix.bits());
                                assert(s.cover_ok(cur as int, s.index[prefix.bits()]));
                            }
                        }
                        return None;
                    }
                },
            }
        }
    }

    /// The value stored under exactly `prefix`.
    pub fn get(&self, prefix: &P) -> (r: Option<&T>)
        requires
            self.wf(),
        ensures
            match r {
                Some(v) => self@.contains_key(prefix.bits()) && self@[prefix.bits()] == *v,
                None => !self@.contains_key(prefix.bits()),
            },
    {
        match self.find(prefix) {
            Some(i) => {
                proof {
                    self.lemma_view_node(i as int);
                }
                self.nodes[i].value.as_ref()
            },
            None => None,
        }
    }

    /// Whether a value is stored under exactly `prefix`.
    pub fn contains_key(&self, prefix: &P) -> (r: bool)
        requires
            self.wf(),
        ensures
            r == self@.contains_key(prefix.bits()),
    {
        self.get(prefix).is_some()
    }

    /// The deepest node with a value on the walk towards `prefix`.
    fn find_longest(&self, prefix: &P) -> (r: Option<usize>)
        requires
            self.wf(),
        ensures
            match r {
                Some(b) => {
                    &&& self.candidate(b as int, prefix.bits())
                    &&& forall|n: int| #[trigger]
                        self.candidate(n, prefix.bits()) ==> self.shape().key(n).len()
                            <= self.shape().key(b as int).len()
                },
                None => forall|n: int| !#[trigger] self.candidate(n, prefix.bits()),
            },
    {
        let target_len = prefix.prefix_len();
        let mut cur: usize = 0;
        let mut best: Option<usize> = None;
        loop
            invariant
                self.wf(),
                self.shape().live(cur as int),
                covers(self.shape().key(cur as int), prefix.bits()),
                target_len as nat == prefix.bits().len(),
                match best {
                    Some(b) => self.candidate(b as int, prefix.bits()),
                    None => true,
                },
                forall|n: int| #[trigger]
                    self.candidate(n, prefix.bits()) && self.shape().key(n).len()
                        < self.shape().key(cur as int).len() ==> best is Some
                        && self.shape().key(n).len() <= self.shape().key(best->0 as int).len(),
            decreases prefix.bits().len() - self.shape().key(cur as int).len(),
        {
            if self.nodes[cur].value.is_some() {
                best = Some(cur);
            }
            let cur_len = self.nodes[cur].prefix.prefix_len();
            let ghost s = self.shape();
            let ghost q = prefix.bits();
            proof {
                assert forall|n: int| #[trigger]
                    self.candidate(n, q) && s.key(n).len() <= s.key(cur as int).len()
                    implies best is Some && s.key(n).len() <= s.key(best->0 as int).len() by {
                    if s.key(n).len() == s.key(cur as int).len() {
                        lemma_covers_comparable(s.key(n), s.key(cur as int), q);
                        lemma_covers_antisymmetric(s.key(n), s.key(cur as int));
                        s.lemma_live_unique(n, cur as int);
                    }
                }
            }
            if cur_len == target_len {
                return best;
            }
            let right = prefix.is_bit_set(cur_len);
            match self.child_of(cur, right) {
                None => {
                    proof {
                        s.lemma_absent_below_gap(cur, q);
                        assert forall|n: int| #[trigger]
                            self.candidate(n, q) implies s.key(n).len() <= s.key(
                            cur as int,
                        ).len() by {
                            if s.key(n).len() > s.key(cur as int).len() {
                                lemma_covers_comparable(s.key(cur as int), s.key(n), q);
                                assert(s.cover_ok(cur as int, n));
                            }
                        }
                    }
                    return best;
                },
                Some(j) => {
                    proof {
                        assert(s.link_ok(cur as int, right));
                    }
                    if self.nodes[j].prefix.contains(prefix) {
                        proof {
                            assert forall|n: int| #[trigger]
                                self.candidate(n, q) && s.key(n).len() < s.key(
                                    j as int,
                                ).len() implies s.key(n).len() <= s.key(cur as int).len() by {
                                if s.key(n).len() > s.key(cur as int).len() {
                                    lemma_covers_comparable(s.key(cur as int), s.key(n), q);
                                    assert(s.cover_ok(cur as int, n));
                                }
                            }
                        }
                        cur = j;
                    } else {
                        proof {
                            assert forall|n: int| #[trigger]
                                self.candidate(n, q) implies s.key(n).len() <= s.key(
                                cur as int,
                            ).len() by {
                                if s.key(n).len() > s.key(cur as int).len() {
                                    lemma_covers_comparable(s.key(cur as int), s.key(n), q);
                                    assert(s.cover_ok(cur as int, n));
                                    lemma_covers_transitive(s.key(j as int), s.key(n), q);
                                }
                            }
                        }
                        return best;
                    }
                },
            }
        }
    }

    /// The most specific entry whose prefix covers `prefix`: of all stored
    /// prefixes that `prefix` is equal to or an extension of, the longest,
    /// with its value.
    pub fn get_longest_match(&self, prefix: &P) -> (r: Option<(&P, &T)>)
        requires
            self.wf(),
        ensures
            match r {
                Some((p, v)) => {
                    &&& longest_match(self@.dom(), prefix.bits()) == Some(p.bits())
                    &&& self@[p.bits()] == *v
                },
                None => longest_match(self@.dom(), prefix.bits()) is None,
            },
    {
        let ghost q = prefix.bits();
        let ghost s = self.shape();
        match self.find_longest(prefix) {
            Some(b) => {
                proof {
                    self.lemma_view_node(b as int);
                    assert forall|other: Seq<bool>|
                        #![trigger self@.dom().contains(other)]
                        self@.dom().contains(other) && covers(other, q) implies other.len()
                        <= s.key(b as int).len() by {
                        self.lemma_view_key(other);
                        assert(self.candidate(self.index@[other], q));
                    }
                    lemma_longest_match_is(self@.dom(), q, s.key(b as int));
                }
                match self.nodes[b].value.as_ref() {
                    Some(v) => Some((&self.nodes[b].prefix, v)),
                    None => None,
                }
            },
            None => {
                proof {
                    assert forall|other: Seq<bool>|
                        #![trigger self@.dom().contains(other)]
                        self@.dom().contains(other) implies !covers(other, q) by {
                        self.lemma_view_key(other);
                        assert(self.candidate(self.index@[other], q) || !covers(other, q));
                    }
                    lemma_longest_match_none(self@.dom(), q);
                }
                None
            },
        }
    }

    /// Puts `node` into the slot that the store offers for a new node.
    fn occupy(&mut self, node: Node<P, T>) -> (at: usize)
        requires
            old(self).shape().index_ok(),
            old(self).shape().free_ok(),
        ensures
            old(self).shape().vacant(at as int),
            at < usize::MAX,
            final(self).shape() == old(self).shape().place(at as int, node.slot()),
            final(self).nodes.len() >= old(self).nodes.len(),
            at < final(self).nodes.len(),
            final(self).nodes[at as int] == node,
            forall|i: int|
                0 <= i < old(self).nodes.len() && i != at ==> final(self).nodes[i] == old(
                    self,
                ).nodes[i],
    {
        let ghost pre = self.shape();
        let ghost key = node.prefix.bits();
        let ghost slot = node.slot();
        match self.free.pop() {
            Some(at) => {
                proof {
                    assert(pre.free[pre.free.len() - 1] == at);
                }
                self.nodes[at] = node;
                proof {
                    self.index@ = self.index@.insert(key, at as int);
                    assert(self.shape().slots =~= pre.place(at as int, slot).slots);
                    assert(self.shape().free =~= pre.place(at as int, slot).free);
                }
                at
            },
            None => {
                let at = self.nodes.len();
                self.nodes.push(node);
                // A vector's length fits a `usize`, so `at` is not the last one.
                let grown = self.nodes.len();
                assert(at < grown);
                proof {
                    self.index@ = self.index@.insert(key, at as int);
                    assert(self.shape().slots =~= pre.place(at as int, slot).slots);
                    assert(self.shape().free =~= pre.place(at as int, slot).free);
                }
                at
            },
        }
    }

    fn set_child(&mut self, i: usize, right: bool, c: Option<usize>)
        requires
            i < old(self).nodes.len(),
        ensures
            final(self).shape() == old(self).shape().set_child(i as int, right, c),
            final(self).nodes.len() == old(self).nodes.len(),
            final(self).index == old(self).index,
            forall|k: int|
                0 <= k < old(self).nodes.len() ==> (#[trigger] final(self).nodes[k]).value == old(
                    self,
                ).nodes[k].value,
    {
        let ghost pre = self.shape();
        if right {
            self.nodes[i].right = c;
        } else {
            self.nodes[i].left = c;
        }
        proof {
            assert(self.shape().slots =~= pre.set_child(i as int, right, c).slots);
        }
    }

    fn set_parent(&mut self, i: usize, p: Option<usize>)
        requires
            i < old(self).nodes.len(),
        ensures
            final(self).shape() == old(self).shape().set_parent(i as int, p),
            final(self).nodes.len() == old(self).nodes.len(),
            final(self).index == old(self).index,
            forall|k: int|
                0 <= k < old(self).nodes.len() ==> (#[trigger] final(self).nodes[k]).value == old(
                    self,
                ).nodes[k].value,
    {
        let ghost pre = self.shape();
        self.nodes[i].parent = p;
        proof {
            assert(self.shape().slots =~= pre.set_parent(i as int, p).slots);
        }
    }

    /// Gives up the node in slot `x` and lists the slot for reuse.
    fn release(&mut self, x: usize)
        requires
            x < old(self).nodes.len(),
        ensures
            final(self).shape() == old(self).shape().discard(x),
            final(self).nodes == old(self).nodes,
            final(self).index@ == old(self).index@.remove(old(self).shape().key(x as int)),
    {
        let ghost pre = self.shape();
        self.free.push(x);
        proof {
            self.index@ = self.index@.remove(pre.key(x as int));
            assert(self.shape().slots =~= pre.discard(x).slots);
        }
    }

    /// Hangs a new node that carries `value` under `prefix` below `cur`, in
    /// the empty slot on the side that `prefix` continues on.
    fn attach_leaf(&mut self, cur: usize, right: bool, prefix: P, value: T)
        requires
            old(self).shape().structure(),
            old(self).shape().tidy_but(cur as int),
            old(self).shape().live(cur as int),
            covers(old(self).shape().key(cur as int), prefix.bits()),
            old(self).shape().key(cur as int).len() < prefix.bits().len(),
            right == prefix.bits()[old(self).shape().key(cur as int).len() as int],
            old(self).shape().child(cur as int, right) is None,
            old(self).shape().placeholder_ok(cur as int) || old(self).shape().child(
                cur as int,
                !right,
            ) is Some,
        ensures
            final(self).wf(),
            final(self)@ == old(self)@.insert(prefix.bits(), value),
    {
        let ghost pre = *self;
        let ghost s = self.shape();
        let ghost key = prefix.bits();
        proof {
            s.lemma_absent_below_gap(cur, key);
        }
        let node = Node { prefix, value: Some(value), left: None, right: None, parent: Some(cur) };
        let at = self.occupy(node);
        self.set_child(cur, right, Some(at));
        proof {
            assert(node.slot() == Slot::fresh(key, true, cur));
            assert(self.shape() == s.add_leaf(cur, key, at));
            s.lemma_add_leaf(cur, key, at);
            assert forall|k: Seq<bool>| k != key && pre.index@.contains_key(k) implies (
            #[trigger] self.nodes[self.index@[k]]).value == pre.nodes[pre.index@[k]].value by {
                s.lemma_indexed_live(k);
            }
            assert(self@ =~= pre@.insert(key, value));
        }
    }

    /// Puts a new node for `prefix` between `cur` and its child `j`, with
    /// `value` if it is to carry one. Left without a value, the new node has
    /// one child only and waits for its second.
    fn attach_between(&mut self, cur: usize, right: bool, j: usize, prefix: P, value: Option<T>) -> (at:
        usize)
        requires
            old(self).wf(),
            old(self).shape().live(cur as int),
            covers(old(self).shape().key(cur as int), prefix.bits()),
            old(self).shape().key(cur as int).len() < prefix.bits().len(),
            right == prefix.bits()[old(self).shape().key(cur as int).len() as int],
            old(self).shape().child(cur as int, right) == Some(j),
            covers(prefix.bits(), old(self).shape().key(j as int)),
            prefix.bits().len() < old(self).shape().key(j as int).len(),
        ensures
            final(self).shape().structure(),
            final(self).shape().tidy_but(at as int),
            final(self).shape().live(at as int),
            final(self).shape().key(at as int) == prefix.bits(),
            final(self).shape().child(
                at as int,
                old(self).shape().key(j as int)[prefix.bits().len() as int],
            ) is Some,
            final(self).shape().child(
                at as int,
                !old(self).shape().key(j as int)[prefix.bits().len() as int],
            ) is None,
            value is Some ==> final(self).wf(),
            final(self)@ == (match value {
                Some(v) => old(self)@.insert(prefix.bits(), v),
                None => old(self)@,
            }),
    {
        let ghost pre = *self;
        let ghost s = self.shape();
        let ghost key = prefix.bits();
        let ghost filled = value is Some;
        let ghost payload = value;
        proof {
            assert(s.link_ok(cur as int, right));
        }
        let below = self.nodes[j].prefix.is_bit_set(prefix.prefix_len());
        let node = if below {
            Node { prefix, value, left: None, right: Some(j), parent: Some(cur) }
        } else {
            Node { prefix, value, left: Some(j), right: None, parent: Some(cur) }
        };
        let at = self.occupy(node);
        self.set_child(cur, right, Some(at));
        self.set_parent(j, Some(at));
        proof {
            assert(node.slot() == Slot::fresh(key, filled, cur).with_child(below, Some(j)));
            assert(self.shape() == s.add_between(cur, j, key, filled, at));
            s.lemma_add_between(cur, j, key, filled, at);
            assert forall|k: Seq<bool>| k != key && pre.index@.contains_key(k) implies (
            #[trigger] self.nodes[self.index@[k]]).value == pre.nodes[pre.index@[k]].value by {
                s.lemma_indexed_live(k);
            }
            match payload {
                Some(v) => {
                    assert(self@ =~= pre@.insert(key, v));
                },
                None => {
                    assert(self@ =~= pre@);
                },
            }
        }
        at
    }

    /// Stores `value` in node `i`, and returns what the node carried before.
    fn put_value(&mut self, i: usize, value: T) -> (r: Option<T>)
        requires
            old(self).wf(),
            old(self).shape().live(i as int),
        ensures
            final(self).wf(),
            final(self)@ == old(self)@.insert(old(self).shape().key(i as int), value),
            r == old(self)@.get(old(self).shape().key(i as int)),
    {
        let ghost pre = *self;
        let ghost s = self.shape();
        let previous = self.nodes[i].value.take();
        self.nodes[i].value = Some(value);
        proof {
            assert(self.shape().slots =~= s.set_filled(i as int, true).slots);
            s.lemma_set_filled(i, true);
            assert(s.set_filled(i as int, true).tidy_but(-1));
            pre.lemma_view_node(i as int);
            assert forall|k: Seq<bool>| pre.index@.contains_key(k) implies (pre.index@[k] == i)
                == (k == s.key(i as int)) by {
                s.lemma_indexed_live(k);
            }
            assert(self@ =~= pre@.insert(s.key(i as int), value));
        }
        previous
    }

    /// Stores `value` under `prefix`, and returns the value that was stored
    /// under it before, if there was one.
    pub fn insert(&mut self, prefix: P, value: T) -> (r: Option<T>)
        requires
            old(self).wf(),
        ensures
            final(self).wf(),
            final(self)@ == old(self)@.insert(prefix.bits(), value),
            r == old(self)@.get(prefix.bits()),
    {
        let ghost q = prefix.bits();
        let target_len = prefix.prefix_len();
        let mut cur: usize = 0;
        loop
            invariant
                *self == *old(self),
                self.wf(),
                self.shape().live(cur as int),
                covers(self.shape().key(cur as int), q),
                q == prefix.bits(),
                target_len as nat == q.len(),
            decreases q.len() - self.shape().key(cur as int).len(),
        {
            let ghost s = self.shape();
            let cur_len = self.nodes[cur].prefix.prefix_len();
            if cur_len == target_len {
                proof {
                    lemma_covers_antisymmetric(s.key(cur as int), q);
                }
                return self.put_value(cur, value);
            }
            let right = prefix.is_bit_set(cur_len);
            match self.child_of(cur, right) {
                None => {
                    proof {
                        s.lemma_absent_below_gap(cur, q);
                        assert(s.placeholder_ok(cur as int));
                        assert(!self@.contains_key(q));
                    }
                    self.attach_leaf(cur, right, prefix, value);
                    return None;
                },
                Some(j) => {
                    proof {
                        assert(s.link_ok(cur as int, right));
                    }
                    let shared = self.nodes[j].prefix.common_length(&prefix);
                    let j_len = self.nodes[j].prefix.prefix_len();
                    proof {
                        lemma_common_length(s.key(j as int), q);
                        if shared <= cur_len {
                            assert(s.key(j as int)[shared as int] == s.key(cur as int)[shared as int]
                                || shared == cur_len);
                            assert(q[shared as int] == s.key(cur as int)[shared as int] || shared
                                == cur_len);
                        }
                        assert(shared > cur_len);
                    }
                    if shared == j_len {
                        cur = j;
                    } else {
                        proof {
                            if s.index.contains_key(q) {
                                s.lemma_indexed_live(q);
                                assert(s.cover_ok(cur as int, s.index[q]));
                                assert(false);
                            }
                            assert(!self@.contains_key(q));
                        }
                        if shared == target_len {
                            self.attach_between(cur, right, j, prefix, Some(value));
                            return None;
                        } else {
                            let fork = prefix.truncate(shared);
                            proof {
                                assert(covers(s.key(cur as int), fork.bits()));
                                assert(covers(fork.bits(), s.key(j as int)));
                                assert(covers(fork.bits(), q));
                            }
                            let at = self.attach_between(cur, right, j, fork, None);
                            let side = prefix.is_bit_set(shared);
                            self.attach_leaf(at, side, prefix, value);
                            return None;
                        }
                    }
                },
            }
        }
    }

    /// Takes the childless placeholder `x` off its parent, and returns the
    /// parent.
    fn detach(&mut self, x: usize) -> (p: usize)
        requires
            old(self).shape().structure(),
            old(self).shape().tidy_but(x as int),
            old(self).shape().live(x as int),
            x != 0,
            old(self).nodes[x as int].value is None,
            old(self).shape().child(x as int, false) is None,
            old(self).shape().child(x as int, true) is None,
        ensures
            final(self).shape().structure(),
            final(self).shape().tidy_but(p as int),
            final(self).shape().live(p as int),
            final(self).shape().key(p as int).len() < old(self).shape().key(x as int).len(),
            final(self)@ == old(self)@,
    {
        let ghost pre = *self;
        let ghost s = self.shape();
        proof {
            s.lemma_hangs_on_side(x);
            s.lemma_detach(x);
        }
        let p = match self.nodes[x].parent {
            Some(p) => p,
            None => x,
        };
        let side = to_right(&self.nodes[p].prefix, &self.nodes[x].prefix);
        self.set_child(p, side, None);
        self.release(x);
        proof {
            assert(self.shape() == s.detach(x));
            assert forall|k: Seq<bool>| k != s.key(x as int) && pre.index@.contains_key(k) implies (
            #[trigger] self.nodes[self.index@[k]]).value == pre.nodes[pre.index@[k]].value by {
                s.lemma_indexed_live(k);
            }
            assert(self@ =~= pre@);
        }
        p
    }

    /// Takes the placeholder `x` out of the trie and hangs its only child `c`
    /// in its place.
    fn splice(&mut self, x: usize, c: usize, below: bool)
        requires
            old(self).shape().structure(),
            old(self).shape().tidy_but(x as int),
            old(self).shape().live(x as int),
            x != 0,
            old(self).nodes[x as int].value is None,
            old(self).shape().child(x as int, below) == Some(c),
            old(self).shape().child(x as int, !below) is None,
        ensures
            final(self).wf(),
            final(self)@ == old(self)@,
    {
        let ghost pre = *self;
        let ghost s = self.shape();
        proof {
            s.lemma_hangs_on_side(x);
            s.lemma_splice(x, c, below);
            assert(s.link_ok(x as int, below));
        }
        let p = match self.nodes[x].parent {
            Some(p) => p,
            None => x,
        };
        let side = to_right(&self.nodes[p].prefix, &self.nodes[x].prefix);
        self.set_child(p, side, Some(c));
        self.set_parent(c, Some(p));
        self.release(x);
        proof {
            assert(self.shape() == s.splice(x, c));
            assert forall|k: Seq<bool>| k != s.key(x as int) && pre.index@.contains_key(k) implies (
            #[trigger] self.nodes[self.index@[k]]).value == pre.nodes[pre.index@[k]].value by {
                s.lemma_indexed_live(k);
            }
            assert(self@ =~= pre@);
        }
    }

    /// Walks up from `start`, the one node that may have stopped being a value
    /// or a real fork, and takes out every placeholder that has become
    /// redundant: a childless one is taken off its parent and the walk goes
    /// on there; one with a single child is replaced by that child, which
    /// ends the walk. The root always stays.
    fn prune(&mut self, start: usize)
        requires
            old(self).shape().structure(),
            old(self).shape().tidy_but(start as int),
            old(self).shape().live(start as int),
        ensures
            final(self).wf(),
            final(self)@ == old(self)@,
    {
        let mut cur = start;
        loop
            invariant_except_break
                self.shape().structure(),
                self.shape().tidy_but(cur as int),
                self.shape().live(cur as int),
            invariant
                self@ == old(self)@,
            ensures
                self.wf(),
            decreases self.shape().key(cur as int).len(),
        {
            let ghost s = self.shape();
            if cur == 0 || self.nodes[cur].value.is_some() {
                proof {
                    assert(s.placeholder_ok(cur as int));
                    assert forall|i: int| s.live(i) && i != -1 implies #[trigger] s.placeholder_ok(
                        i,
                    ) by {}
                }
                break ;
            }
            let left = self.nodes[cur].left;
            let right = self.nodes[cur].right;
            match (left, right) {
                (Some(_), Some(_)) => {
                    proof {
                        assert(s.placeholder_ok(cur as int));
                        assert forall|i: int|
                            s.live(i) && i != -1 implies #[trigger] s.placeholder_ok(i) by {}
                    }
                    break ;
                },
                (None, None) => {
                    cur = self.detach(cur);
                },
                (Some(c), None) => {
                    self.splice(cur, c, false);
                    break ;
                },
                (None, Some(c)) => {
                    self.splice(cur, c, true);
                    break ;
                },
            }
        }
    }

    /// Removes the value stored under exactly `prefix` and returns it; the
    /// map is left as it was if there is none.
    pub fn remove(&mut self, prefix: &P) -> (r: Option<T>)
        requires
            old(self).wf(),
        ensures
            final(self).wf(),
            final(self)@ == old(self)@.remove(prefix.bits()),
            r == old(self)@.get(prefix.bits()),
    {
        let ghost pre = *self;
        let ghost s = self.shape();
        let ghost q = prefix.bits();
        match self.find(prefix) {
            None => {
                proof {
                    assert(self@ =~= pre@.remove(q));
                }
                None
            },
            Some(i) => {
                proof {
                    pre.lemma_view_node(i as int);
                }
                if self.nodes[i].value.is_none() {
                    proof {
                        assert(self@ =~= pre@.remove(q));
                    }
                    return None;
                }
                let taken = self.nodes[i].value.take();
                proof {
                    assert(self.shape().slots =~= s.set_filled(i as int, false).slots);
                    s.lemma_set_filled(i, false);
                    assert(s.set_filled(i as int, false).tidy_but(i as int));
                    assert forall|k: Seq<bool>| pre.index@.contains_key(k) implies (pre.index@[k]
                        == i) == (k == q) by {
                        s.lemma_indexed_live(k);
                    }
                    assert(self@ =~= pre@.remove(q));
                }
                self.prune(i);
                taken
            },
        }
    }

    /// Position `p` of `r` holds an entry of the map that lies at or below `node`.
    spec fn entry_under(&self, r: Seq<(&P, &T)>, p: int, node: int) -> bool {
        &&& self@.contains_key(key_at(r, p))
        &&& self@[key_at(r, p)] == *r[p].1
        &&& covers(self.shape().key(node), key_at(r, p))
    }

    /// Positions `a` up to `b` of `r` hold the entries at or below `node`,
    /// all of them, in walk order.
    spec fn segment(&self, r: Seq<(&P, &T)>, a: int, b: int, node: int) -> bool {
        &&& 0 <= a <= b <= r.len()
        &&& forall|p: int| a <= p < b ==> #[trigger] self.entry_under(r, p, node)
        &&& forall|k: Seq<bool>| #[trigger]
            self@.contains_key(k) && covers(self.shape().key(node), k) ==> exists|p: int|
                a <= p < b && #[trigger] key_at(r, p) == k
        &&& forall|p: int, p2: int|
            a <= p < p2 < b ==> precedes(#[trigger] key_at(r, p), #[trigger] key_at(r, p2))
    }

    /// A segment is a matter of the positions it spans only.
    proof fn lemma_segment_frame(&self, r: Seq<(&P, &T)>, r2: Seq<(&P, &T)>, a: int, b: int, node: int)
        requires
            self.segment(r, a, b, node),
            b <= r2.len(),
            forall|p: int| a <= p < b ==> r2[p] == r[p],
        ensures
            self.segment(r2, a, b, node),
    {
        assert forall|p: int| a <= p < b implies #[trigger] self.entry_under(r2, p, node) by {
            assert(self.entry_under(r, p, node));
        }
        assert forall|k: Seq<bool>| #[trigger]
            self@.contains_key(k) && covers(self.shape().key(node), k) implies exists|p: int|
            a <= p < b && #[trigger] key_at(r2, p) == k by {
            let p = choose|p: int| a <= p < b && #[trigger] key_at(r, p) == k;
            assert(key_at(r2, p) == k);
        }
        assert forall|p: int, p2: int| a <= p < p2 < b implies precedes(
            #[trigger] key_at(r2, p),
            #[trigger] key_at(r2, p2),
        ) by {
            assert(precedes(key_at(r, p), key_at(r, p2)));
        }
    }

    /// The entries at or below a node are the node's own, if it carries a
    /// value, then those below its left child, then those below its right
    /// child.
    proof fn lemma_segment_join(&self, r: Seq<(&P, &T)>, i: usize, a: int, b: int, c: int, d: int)
        requires
            self.wf(),
            self.shape().live(i as int),
            0 <= a <= b <= c <= d <= r.len(),
            match self.nodes[i as int].value {
                Some(v) => b == a + 1 && key_at(r, a) == self.shape().key(i as int) && *r[a].1 == v,
                None => b == a,
            },
            match self.shape().child(i as int, false) {
                Some(l) => self.segment(r, b, c, l as int),
                None => c == b,
            },
            match self.shape().child(i as int, true) {
                Some(h) => self.segment(r, c, d, h as int),
                None => d == c,
            },
        ensures
            self.segment(r, a, d, i as int),
    {
        let s = self.shape();
        let top = s.key(i as int);
        assert(s.link_ok(i as int, false));
        assert(s.link_ok(i as int, true));
        self.lemma_view_node(i as int);
        assert forall|p: int| a <= p < d implies #[trigger] self.entry_under(r, p, i as int) by {
            if p < b {
            } else if p < c {
                let l = s.child(i as int, false)->0;
                assert(self.entry_under(r, p, l as int));
                lemma_covers_transitive(top, s.key(l as int), key_at(r, p));
            } else {
                let h = s.child(i as int, true)->0;
                assert(self.entry_under(r, p, h as int));
                lemma_covers_transitive(top, s.key(h as int), key_at(r, p));
            }
        }
        assert forall|k: Seq<bool>| #[trigger] self@.contains_key(k) && covers(top, k) implies exists|
            p: int,
        |
            a <= p < d && #[trigger] key_at(r, p) == k by {
            self.lemma_view_key(k);
            let n = self.index@[k];
            if n == i {
                assert(key_at(r, a) == k);
            } else {
                assert(s.cover_ok(i as int, n));
                s.lemma_cover_shorter(i as int, n);
                if k[top.len() as int] {
                    let h = s.child(i as int, true)->0;
                    let p = choose|p: int| c <= p < d && #[trigger] key_at(r, p) == k;
                    assert(key_at(r, p) == k);
                } else {
                    let l = s.child(i as int, false)->0;
                    let p = choose|p: int| b <= p < c && #[trigger] key_at(r, p) == k;
                    assert(key_at(r, p) == k);
                }
            }
        }
        assert forall|p: int, p2: int| a <= p < p2 < d implies precedes(
            #[trigger] key_at(r, p),
            #[trigger] key_at(r, p2),
        ) by {
            let k = key_at(r, p);
            let k2 = key_at(r, p2);
            if p < b {
                if p2 < c {
                    let l = s.child(i as int, false)->0;
                    assert(self.entry_under(r, p2, l as int));
                    lemma_covers_transitive(top, s.key(l as int), k2);
                } else {
                    let h = s.child(i as int, true)->0;
                    assert(self.entry_under(r, p2, h as int));
                    lemma_covers_transitive(top, s.key(h as int), k2);
                }
                lemma_precedes_extension(k, k2);
            } else if p < c && c <= p2 {
                let l = s.child(i as int, false)->0;
                let h = s.child(i as int, true)->0;
                assert(self.entry_under(r, p, l as int));
                assert(self.entry_under(r, p2, h as int));
                lemma_covers_transitive(top, s.key(l as int), k);
                lemma_covers_transitive(top, s.key(h as int), k2);
                assert(is_common_length(k, k2, top.len() as int)) by {
                    assert forall|x: int| 0 <= x < top.len() implies k[x] == k2[x] by {
                        assert(k[x] == top[x]);
                        assert(k2[x] == top[x]);
                    }
                    assert(k[top.len() as int] == s.key(l as int)[top.len() as int]);
                    assert(k2[top.len() as int] == s.key(h as int)[top.len() as int]);
                }
                lemma_precedes_fork(k, k2, top.len() as int);
            } else {
            }
        }
    }

    /// Appends to `out` the entries at or below node `i`, the node's own
    /// first, then the left subtree's, then the right subtree's.
    fn collect<'a>(&'a self, i: usize, out: &mut Vec<(&'a P, &'a T)>)
        requires
            self.wf(),
            self.shape().live(i as int),
        ensures
            old(out)@.len() <= final(out)@.len(),
            forall|p: int| 0 <= p < old(out)@.len() ==> final(out)@[p] == old(out)@[p],
            self.segment(final(out)@, old(out)@.len() as int, final(out)@.len() as int, i as int),
        decreases 256 - self.shape().key(i as int).len(),
    {
        let ghost s = self.shape();
        let ghost a = out@.len() as int;
        proof {
            self.nodes[i as int].prefix.lemma_bits_bounded();
            assert(s.link_ok(i as int, false));
            assert(s.link_ok(i as int, true));
        }
        match &self.nodes[i].value {
            Some(v) => {
                out.push((&self.nodes[i].prefix, v));
            },
            None => {},
        }
        let ghost r1 = out@;
        let ghost b = out@.len() as int;
        match self.nodes[i].left {
            Some(l) => {
                proof {
                    self.nodes[l as int].prefix.lemma_bits_bounded();
                }
                self.collect(l, out);
            },
            None => {},
        }
        let ghost r2 = out@;
        let ghost c = out@.len() as int;
        match self.nodes[i].right {
            Some(h) => {
                proof {
                    self.nodes[h as int].prefix.lemma_bits_bounded();
                }
                self.collect(h, out);
            },
            None => {},
        }
        proof {
            let r3 = out@;
            let d = r3.len() as int;
            match s.child(i as int, false) {
                Some(l) => {
                    self.lemma_segment_frame(r2, r3, b, c, l as int);
                },
                None => {},
            }
            self.lemma_segment_join(r3, i, a, b, c, d);
        }
    }

    /// A segment that spans a whole sequence is a listing in walk order.
    proof fn lemma_segment_listing(&self, r: Seq<(&P, &T)>, node: int, wanted: Set<Seq<bool>>)
        requires
            self.segment(r, 0, r.len() as int, node),
            forall|k: Seq<bool>| #[trigger]
                self@.contains_key(k) ==> (wanted.contains(k) <==> covers(
                    self.shape().key(node),
                    k,
                )),
        ensures
            is_listing(r, self@, wanted),
            in_walk_order(r),
            no_repeats(r),
    {
        assert forall|p: int| 0 <= p < r.len() implies wanted.contains(#[trigger] key_at(r, p))
            && self@.contains_key(key_at(r, p)) && self@[key_at(r, p)] == *r[p].1 by {
            assert(self.entry_under(r, p, node));
        }
        assert forall|k: Seq<bool>|
            wanted.contains(k) && #[trigger] self@.contains_key(k) implies exists|p: int|
            0 <= p < r.len() && #[trigger] key_at(r, p) == k by {
            let p = choose|p: int| 0 <= p < r.len() && #[trigger] key_at(r, p) == k;
            assert(key_at(r, p) == k);
        }
        lemma_walk_order_no_repeats(r);
    }

    /// Every entry of the map, each once, in the order of a walk that visits
    /// a node before its children and the 0 branch before the 1 branch.
    pub fn entries(&self) -> (r: Vec<(&P, &T)>)
        requires
            self.wf(),
        ensures
            is_listing(r@, self@, Set::full()),
            in_walk_order(r@),
            no_repeats(r@),
    {
        let mut out: Vec<(&P, &T)> = Vec::new();
        self.collect(0, &mut out);
        proof {
            self.lemma_segment_listing(out@, 0, Set::full());
        }
        out
    }

    /// Every entry whose prefix is `prefix` or more specific, each once, in
    /// walk order.
    pub fn children(&self, prefix: &P) -> (r: Vec<(&P, &T)>)
        requires
            self.wf(),
        ensures
            is_listing(r@, self@, extensions_of(prefix.bits())),
            in_walk_order(r@),
            no_repeats(r@),
    {
        let ghost s = self.shape();
        let ghost q = prefix.bits();
        let mut out: Vec<(&P, &T)> = Vec::new();
        let target_len = prefix.prefix_len();
        let mut cur: usize = 0;
        loop
            invariant
                self.wf(),
                s == self.shape(),
                q == prefix.bits(),
                s.live(cur as int),
                covers(s.key(cur as int), q),
                target_len as nat == q.len(),
                out@.len() == 0,
            decreases q.len() - s.key(cur as int).len(),
        {
            let cur_len = self.nodes[cur].prefix.prefix_len();
            if cur_len == target_len {
                proof {
                    lemma_covers_antisymmetric(s.key(cur as int), q);
                }
                self.collect(cur, &mut out);
                proof {
                    self.lemma_segment_listing(out@, cur as int, extensions_of(q));
                }
                return out;
            }
            let right = prefix.is_bit_set(cur_len);
            match self.child_of(cur, right) {
                None => {
                    proof {
                        s.lemma_absent_below_gap(cur, q);
                        assert forall|k: Seq<bool>| #[trigger] self@.contains_key(k) implies !covers(
                            q,
                            k,
                        ) by {
                            self.lemma_view_key(k);
                        }
                    }
                    return out;
                },
                Some(j) => {
                    proof {
                        assert(s.link_ok(cur as int, right));
                        assert forall|k: Seq<bool>| #[trigger]
                            self@.contains_key(k) && covers(q, k) implies covers(
                            s.key(j as int),
                            k,
                        ) by {
                            self.lemma_view_key(k);
                            lemma_covers_transitive(s.key(cur as int), q, k);
                            assert(s.cover_ok(cur as int, self.index@[k]));
                        }
                    }
                    if self.nodes[j].prefix.contains(prefix) {
                        cur = j;
                    } else if prefix.contains(&self.nodes[j].prefix) {
                        self.collect(j, &mut out);
                        proof {
                            assert forall|k: Seq<bool>| #[trigger]
                                self@.contains_key(k) && covers(s.key(j as int), k) implies covers(
                                q,
                                k,
                            ) by {
                                lemma_covers_transitive(q, s.key(j as int), k);
                            }
                            self.lemma_segment_listing(out@, j as int, extensions_of(q));
                        }
                        return out;
                    } else {
                        proof {
                            assert forall|k: Seq<bool>| #[trigger]
                                self@.contains_key(k) implies !covers(q, k) by {
                                if covers(q, k) {
                                    if q.len() <= s.key(j as int).len() {
                                        lemma_covers_comparable(q, s.key(j as int), k);
                                    } else {
                                        lemma_covers_comparable(s.key(j as int), q, k);
                                    }
                                }
                            }
                        }
                        return out;
                    }
                },
            }
        }
    }

    /// `r` holds the entries that cover `q` and are shorter than `bound`, all
    /// of them, from the shortest to the longest.
    spec fn chain(&self, r: Seq<(&P, &T)>, q: Seq<bool>, bound: int) -> bool {
        &&& forall|p: int|
            0 <= p < r.len() ==> {
                &&& self@.contains_key(#[trigger] key_at(r, p))
                &&& self@[key_at(r, p)] == *r[p].1
                &&& covers(key_at(r, p), q)
                &&& key_at(r, p).len() < bound
            }
        &&& forall|k: Seq<bool>| #[trigger]
            self@.contains_key(k) && covers(k, q) && k.len() < bound ==> exists|p: int|
                0 <= p < r.len() && #[trigger] key_at(r, p) == k
        &&& by_length(r)
    }

    /// With node `cur` on the walk towards `q` looked at, and its entry
    /// appended if it has one, the chain is complete up to `cur`'s length.
    proof fn lemma_chain_step(&self, before: Seq<(&P, &T)>, after: Seq<(&P, &T)>, q: Seq<bool>, cur: usize)
        requires
            self.wf(),
            self.shape().live(cur as int),
            covers(self.shape().key(cur as int), q),
            self.chain(before, q, self.shape().key(cur as int).len() as int),
            match self.nodes[cur as int].value {
                Some(v) => after.len() == before.len() + 1 && key_at(after, before.len() as int)
                    == self.shape().key(cur as int) && *after[before.len() as int].1 == v,
                None => after.len() == before.len(),
            },
            forall|p: int| 0 <= p < before.len() ==> after[p] == before[p],
        ensures
            self.chain(after, q, self.shape().key(cur as int).len() as int + 1),
    {
        let s = self.shape();
        let top = s.key(cur as int);
        self.lemma_view_node(cur as int);
        assert forall|p: int| 0 <= p < after.len() implies {
            &&& self@.contains_key(#[trigger] key_at(after, p))
            &&& self@[key_at(after, p)] == *after[p].1
            &&& covers(key_at(after, p), q)
            &&& key_at(after, p).len() < top.len() + 1
        } by {
            if p < before.len() {
                assert(key_at(before, p) == key_at(after, p));
            }
        }
        assert forall|k: Seq<bool>| #[trigger]
            self@.contains_key(k) && covers(k, q) && k.len() < top.len() + 1 implies exists|p: int|
            0 <= p < after.len() && #[trigger] key_at(after, p) == k by {
            if k.len() < top.len() {
                let p = choose|p: int| 0 <= p < before.len() && #[trigger] key_at(before, p) == k;
                assert(key_at(after, p) == k);
            } else {
                lemma_covers_comparable(k, top, q);
                lemma_covers_antisymmetric(k, top);
                assert(key_at(after, before.len() as int) == k);
            }
        }
        assert forall|p: int, p2: int| 0 <= p < p2 < after.len() implies (#[trigger] key_at(
            after,
            p,
        )).len() < (#[trigger] key_at(after, p2)).len() by {
            assert(key_at(before, p) == key_at(after, p));
            if p2 < before.len() {
                assert(key_at(before, p2) == key_at(after, p2));
            }
        }
    }

    /// The walk towards `q` meets no entry between a node and the child it
    /// goes on to.
    proof fn lemma_chain_descend(&self, r: Seq<(&P, &T)>, q: Seq<bool>, cur: usize, j: usize)
        requires
            self.wf(),
            self.shape().live(cur as int),
            covers(self.shape().key(cur as int), q),
            self.shape().key(cur as int).len() < q.len(),
            self.shape().child(cur as int, q[self.shape().key(cur as int).len() as int]) == Some(j),
            self.chain(r, q, self.shape().key(cur as int).len() as int + 1),
        ensures
            self.chain(r, q, self.shape().key(j as int).len() as int),
    {
        let s = self.shape();
        let top = s.key(cur as int);
        assert(s.link_ok(cur as int, q[top.len() as int]));
        assert forall|k: Seq<bool>| #[trigger]
            self@.contains_key(k) && covers(k, q) && k.len() < s.key(j as int).len() implies k.len()
            < top.len() + 1 by {
            if k.len() > top.len() {
                self.lemma_view_key(k);
                lemma_covers_comparable(top, k, q);
                assert(s.cover_ok(cur as int, self.index@[k]));
            }
        }
    }

    /// The walk towards `q` meets no entry after the node at which it ends.
    proof fn lemma_chain_end(&self, r: Seq<(&P, &T)>, q: Seq<bool>, cur: usize)
        requires
            self.wf(),
            self.shape().live(cur as int),
            covers(self.shape().key(cur as int), q),
            self.chain(r, q, self.shape().key(cur as int).len() as int + 1),
            self.shape().key(cur as int).len() < q.len() ==> match self.shape().child(
                cur as int,
                q[self.shape().key(cur as int).len() as int],
            ) {
                Some(j) => !covers(self.shape().key(j as int), q),
                None => true,
            },
        ensures
            is_listing(r, self@, leading_parts_of(q)),
            by_length(r),
            no_repeats(r),
    {
        let s = self.shape();
        let top = s.key(cur as int);
        assert forall|k: Seq<bool>| #[trigger] self@.contains_key(k) && covers(k, q) implies k.len()
            < top.len() + 1 by {
            if k.len() > top.len() {
                self.lemma_view_key(k);
                lemma_covers_comparable(top, k, q);
                assert(s.cover_ok(cur as int, self.index@[k]));
                let j = s.child(cur as int, q[top.len() as int])->0;
                lemma_covers_transitive(s.key(j as int), k, q);
            }
        }
        assert forall|k: Seq<bool>|
            leading_parts_of(q).contains(k) && #[trigger] self@.contains_key(k) implies exists|
            p: int,
        |
            0 <= p < r.len() && #[trigger] key_at(r, p) == k by {
            let p = choose|p: int| 0 <= p < r.len() && #[trigger] key_at(r, p) == k;
            assert(key_at(r, p) == k);
        }
    }

    /// Every entry whose prefix is `prefix` or less specific, each once, from
    /// the least specific to the most specific.
    pub fn cover(&self, prefix: &P) -> (r: Vec<(&P, &T)>)
        requires
            self.wf(),
        ensures
            is_listing(r@, self@, leading_parts_of(prefix.bits())),
            by_length(r@),
            no_repeats(r@),
    {
        let ghost s = self.shape();
        let ghost q = prefix.bits();
        let mut out: Vec<(&P, &T)> = Vec::new();
        let target_len = prefix.prefix_len();
        let mut cur: usize = 0;
        loop
            invariant
                self.wf(),
                s == self.shape(),
                q == prefix.bits(),
                s.live(cur as int),
                covers(s.key(cur as int), q),
                target_len as nat == q.len(),
                self.chain(out@, q, s.key(cur as int).len() as int),
            decreases q.len() - s.key(cur as int).len(),
        {
            let ghost before = out@;
            match &self.nodes[cur].value {
                Some(v) => {
                    out.push((&self.nodes[cur].prefix, v));
                },
                None => {},
            }
            proof {
                self.lemma_chain_step(before, out@, q, cur);
            }
            let cur_len = self.nodes[cur].prefix.prefix_len();
            if cur_len == target_len {
                proof {
                    self.lemma_chain_end(out@, q, cur);
                }
                return out;
            }
            let right = prefix.is_bit_set(cur_len);
            match self.child_of(cur, right) {
                None => {
                    proof {
                        self.lemma_chain_end(out@, q, cur);
                    }
                    return out;
                },
                Some(j) => {
                    proof {
                        assert(s.link_ok(cur as int, right));
                    }
                    if self.nodes[j].prefix.contains(prefix) {
                        proof {
                            self.lemma_chain_descend(out@, q, cur, j);
                        }
                        cur = j;
                    } else {
                        proof {
                            self.lemma_chain_end(out@, q, cur);
                        }
                        return out;
                    }
                },
            }
        }
    }

    /// No two nodes of the trie stand for the same prefix, and every
    /// placeholder other than the root has both of its children.
    pub proof fn lemma_structure(&self)
        requires
            self.wf(),
        ensures
            forall|i: int, j: int|
                self.shape().live(i) && self.shape().live(j) && #[trigger] self.shape().key(i)
                    == #[trigger] self.shape().key(j) ==> i == j,
            forall|i: int|
                self.shape().live(i) && i != 0 && !(#[trigger] self.shape().slots[i]).filled
                    ==> self.shape().slots[i].left is Some && self.shape().slots[i].right is Some,
            forall|i: int| #[trigger]
                self.shape().live(i) ==> (self.shape().slots[i].filled <==> self@.contains_key(
                    self.shape().key(i),
                )),
            forall|k: Seq<bool>| #[trigger]
                self@.contains_key(k) ==> self.shape().index.contains_key(k) && self.shape().live(
                    self.shape().index[k],
                ) && self.shape().key(self.shape().index[k]) == k,
    {
        let s = self.shape();
        assert forall|i: int|
            s.live(i) && i != 0 && !(#[trigger] s.slots[i]).filled implies s.slots[i].left is Some
            && s.slots[i].right is Some by {
            assert(s.placeholder_ok(i));
        }
        assert forall|i: int| #[trigger] s.live(i) implies (s.slots[i].filled
            <==> self@.contains_key(s.key(i))) by {
            self.lemma_view_node(i);
        }
        assert forall|k: Seq<bool>| #[trigger] self@.contains_key(k) implies s.index.contains_key(k)
            && s.live(s.index[k]) && s.key(s.index[k]) == k by {
            self.lemma_view_key(k);
        }
    }
}

} // verus!
