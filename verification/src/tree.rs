use vstd::prelude::*;

use crate::node::{black_height, color_ok, height, height_balanced, in_order, keys, ordered, red,
    Node};
use crate::node::{lemma_in_order_props, lemma_keys_finite, lemma_node_height};

verus! {

/// A key reads as present after an insert exactly when it is the inserted
/// key or was already present: inserting never disturbs any other key.
/// Together with the contract of [`Tree::insert`] (the view becomes
/// `old view + key`) and of [`Tree::contains`], membership after any
/// sequence of inserts is pinned down.
pub proof fn lemma_insert_membership(s: Set<u64>, k: u64, j: u64)
    ensures
        s.insert(k).contains(j) == (j == k || s.contains(j)),
{
}

/// After a removal the removed key reads as absent, and no other key is
/// disturbed.  Together with the contract of [`Tree::remove`] (the view
/// becomes `old view - key`) and of [`Tree::contains`], a key is reported
/// present exactly when it was inserted and not since removed.
pub proof fn lemma_remove_membership(s: Set<u64>, k: u64, j: u64)
    ensures
        !s.remove(k).contains(k),
        s.remove(k).contains(j) == (j != k && s.contains(j)),
{
}

/// The balance guarantee of a well-formed tree: its height never exceeds
/// twice its black-height, while it holds at least `2^black-height - 1`
/// keys.  Together the two bounds keep the height within about
/// `2 * log2(size + 1)`, which is what makes every operation
/// logarithmic.
pub proof fn lemma_logarithmic_height(t: Tree)
    requires
        t.well_formed(),
    ensures
        t.spec_height() <= 2 * t.spec_black_height(),
        t@.len() + 1 >= vstd::arithmetic::power2::pow2(t.spec_black_height()),
{
    lemma_node_height(t.root);
}

/// An ordered, mutable set of `u64` keys, kept balanced as a red-black
/// tree.  The tree owns its whole node graph; dropping the tree frees
/// every node.
pub struct Tree {
    root: Option<Box<Node>>,
    size: usize,
}

impl View for Tree {
    type V = Set<u64>;

    /// A tree is viewed abstractly as the set of keys it holds.
    closed spec fn view(&self) -> Set<u64> {
        keys(self.root)
    }
}

impl Tree {
    /// The tree's invariants: every node is red or black with no red node
    /// having a red child, the root is black, every path from a node to an
    /// absent child passes through the same number of black nodes, the
    /// keys are in strict binary-search-tree order, and `size` counts the
    /// nodes reachable from the root.
    pub closed spec fn well_formed(self) -> bool {
        &&& ordered(self.root)
        &&& color_ok(self.root)
        &&& height_balanced(self.root)
        &&& !red(self.root)
        &&& self.size == self@.len()
    }

    /// The number of nodes on the longest chain from the root down to an
    /// absent child.
    pub closed spec fn spec_height(self) -> nat {
        height(self.root)
    }

    /// The number of black nodes on any path from the root down to an
    /// absent child.
    pub closed spec fn spec_black_height(self) -> nat {
        black_height(self.root)
    }

    /// Constructs a new, empty tree.
    pub fn new() -> (t: Tree)
        ensures
            t.well_formed(),
            t@ == Set::<u64>::empty(),
    {
        Tree { root: None, size: 0 }
    }

    /// Checks whether the tree holds any key at all.
    pub fn is_empty(&self) -> (r: bool)
        requires
            self.well_formed(),
        ensures
            r == self@.is_empty(),
            r == (self@.len() == 0),
    {
        proof {
            lemma_keys_finite(self.root);
            if self@.len() == 0 {
                self@.lemma_len0_is_empty();
            }
        }
        match &self.root {
            None => true,
            Some(b) => {
                proof {
                    assert(!self@.is_empty()) by {
                        assert(self@.contains(b.key));
                    }
                }
                false
            },
        }
    }

    /// Insert a key.  A key that is already present is rejected: the tree
    /// is left untouched and `false` comes back.  Otherwise the key is
    /// added, the tree is rebalanced, and `true` comes back.  All
    /// invariants hold again afterwards.
    ///
    /// The tree cannot grow beyond `usize::MAX` keys, since the size
    /// counter must fit in a machine word.
    pub fn insert(&mut self, key: u64) -> (inserted: bool)
        requires
            old(self).well_formed(),
            old(self)@.len() < usize::MAX,
        ensures
            final(self).well_formed(),
            final(self)@ == old(self)@.insert(key),
            inserted == !old(self)@.contains(key),
            final(self)@.len() == old(self)@.len() + if inserted {
                1int
            } else {
                0int
            },
    {
        proof {
            lemma_keys_finite(self.root);
        }
        let inserted = Node::insert(&mut self.root, key);
        Node::blacken(&mut self.root);
        if inserted {
            self.size = self.size + 1;
        }
        proof {
            assert(self@ =~= old(self)@.insert(key));
        }
        inserted
    }

    /// Remove a key.  If the key is present it is removed, the tree is
    /// rebalanced, and `true` comes back; all invariants hold again
    /// afterwards.  An absent key leaves the tree untouched and `false`
    /// comes back.
    pub fn remove(&mut self, key: u64) -> (removed: bool)
        requires
            old(self).well_formed(),
        ensures
            final(self).well_formed(),
            final(self)@ == old(self)@.remove(key),
            removed == old(self)@.contains(key),
            final(self)@.len() == old(self)@.len() - if removed {
                1int
            } else {
                0int
            },
    {
        proof {
            lemma_keys_finite(self.root);
        }
        let removed = Node::remove(&mut self.root, key);
        Node::blacken(&mut self.root);
        if removed {
            self.size = self.size - 1;
        }
        proof {
            assert(self@ =~= old(self)@.remove(key));
        }
        removed
    }

    /// Checks whether a key is present, by a standard binary search
    /// descent without mutation.
    pub fn contains(&self, key: u64) -> (present: bool)
        requires
            self.well_formed(),
        ensures
            present == self@.contains(key),
    {
        Node::contains_key(&self.root, key)
    }

    /// The number of keys currently held.
    pub fn size(&self) -> (n: usize)
        requires
            self.well_formed(),
        ensures
            n == self@.len(),
    {
        self.size
    }

    /// The keys of the tree, in ascending order.  The result lists every
    /// key exactly once, so its length equals [`Tree::size`].  The tree is
    /// not changed; the walk may be repeated at will.
    pub fn traverse_in_order(&self) -> (out: Vec<u64>)
        requires
            self.well_formed(),
        ensures
            out@.len() == self@.len(),
            out@.no_duplicates(),
            forall|k: u64| out@.contains(k) == self@.contains(k),
            forall|i: int, j: int| 0 <= i < j < out@.len() ==> out@[i] < out@[j],
    {
        let mut out: Vec<u64> = Vec::new();
        Node::in_order_traverse(&self.root, &mut out);
        proof {
            lemma_in_order_props(self.root);
            assert(out@ =~= in_order(self.root));
            assert forall|k: u64| out@.contains(k) == self@.contains(k) by {
                assert(out@.to_set().contains(k) == out@.contains(k));
            }
        }
        out
    }
}

} // verus!
