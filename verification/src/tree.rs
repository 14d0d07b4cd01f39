//! The ordered key store under its earliest interface: insertion, lookup and
//! removal at the two ends, nothing else.

use vstd::prelude::*;

use crate::map::tree::BinaryTree;
use crate::map::OrderedMap;

verus! {

/// An ordered store of integer keys; see [`crate::map::tree::BinaryTree`],
/// which holds the tree itself.
pub struct Tree {
    entry: BinaryTree,
}

impl Tree {
    /// The structural invariant of the underlying tree.
    pub closed spec fn inv(&self) -> bool {
        self.entry.inv()
    }

    /// The held keys in walking order, smallest first.
    pub closed spec fn key_seq(&self) -> Seq<i64> {
        self.entry.key_seq()
    }

    pub fn new() -> (empty: Tree)
        ensures
            empty.inv(),
            empty.key_seq() == Seq::<i64>::empty(),
    {
        Tree { entry: BinaryTree::new() }
    }

    /// Adds `val`; the result says whether it is genuinely new.
    pub fn insert(&mut self, val: i64) -> (fresh: bool)
        requires
            old(self).inv(),
            old(self).key_seq().len() < usize::MAX,
        ensures
            final(self).inv(),
            final(self).key_seq().to_set() == old(self).key_seq().to_set().insert(val),
            fresh == !old(self).key_seq().contains(val),
    {
        let fresh = !self.entry.has(val);
        self.entry.insert(val);
        fresh
    }

    /// Says whether `val` is held.
    pub fn has(&self, val: i64) -> (held: bool)
        requires
            self.inv(),
        ensures
            held == self.key_seq().contains(val),
    {
        self.entry.has(val)
    }

    /// Drops the largest key, handing it back.
    pub fn remove_max(&mut self) -> (popped: Option<i64>)
        requires
            old(self).inv(),
        ensures
            final(self).inv(),
            old(self).key_seq().len() == 0 ==> popped.is_none() && final(self).key_seq()
                == old(self).key_seq(),
            old(self).key_seq().len() > 0 ==> popped == Some(old(self).key_seq().last())
                && final(self).key_seq() == old(self).key_seq().drop_last(),
    {
        self.entry.remove_max()
    }

    /// Drops the smallest key, handing it back.
    pub fn remove_min(&mut self) -> (popped: Option<i64>)
        requires
            old(self).inv(),
        ensures
            final(self).inv(),
            old(self).key_seq().len() == 0 ==> popped.is_none() && final(self).key_seq()
                == old(self).key_seq(),
            old(self).key_seq().len() > 0 ==> popped == Some(old(self).key_seq().first())
                && final(self).key_seq() == old(self).key_seq().drop_first(),
    {
        self.entry.remove_min()
    }

    /// How many keys are held.
    pub fn size(&self) -> (n: usize)
        requires
            self.inv(),
        ensures
            n == self.key_seq().len(),
    {
        self.entry.size()
    }

    /// The held keys, smallest first.
    pub fn in_order(&self) -> (keys: Vec<i64>)
        requires
            self.inv(),
        ensures
            keys@ == self.key_seq(),
    {
        self.entry.in_order()
    }
}

/// The store's walking order is sound; see
/// [`crate::map::tree::lemma_in_order_ascending`], which this hands on.
pub proof fn lemma_in_order_ascending(store: &Tree)
    requires
        store.inv(),
    ensures
        crate::map::strictly_increasing(store.key_seq()),
        store.key_seq().to_set().len() == store.key_seq().len(),
{
    crate::map::tree::lemma_in_order_ascending(&store.entry);
}

} // verus!
