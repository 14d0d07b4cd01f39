//! The ordered key store under its older, free-standing interface: the same
//! tree as [`crate::map::tree::BinaryTree`], with `insert` and `remove`
//! reporting what they did.

use vstd::prelude::*;

use crate::map::tree;
use crate::map::OrderedMap;

verus! {

/// Makes an empty store.
pub fn new() -> (empty: BinaryTree)
    ensures
        empty.inv(),
        empty.key_seq() == Seq::<i64>::empty(),
{
    BinaryTree { inner: tree::BinaryTree::new() }
}

/// An ordered store of integer keys; see [`crate::map::tree::BinaryTree`],
/// which holds the tree itself.
pub struct BinaryTree {
    inner: tree::BinaryTree,
}

impl BinaryTree {
    /// The structural invariant of the underlying tree.
    pub closed spec fn inv(&self) -> bool {
        self.inner.inv()
    }

    /// The held keys in walking order, smallest first.
    pub closed spec fn key_seq(&self) -> Seq<i64> {
        self.inner.key_seq()
    }

    /// Adds `val`; the result says whether it is genuinely new.
    pub fn insert(&mut self, val: i64) -> (fresh: bool)
        requires
            old(self).inv(),
            old(self).key_seq().len() < usize::MAX,
        ensures
            final(self).inv(),
            final(self).key_seq().to_set() == old(self).key_seq().to_set().insert(val),
            fresh == !old(self).key_seq().contains(val),
    {
        let fresh = !self.inner.has(val);
        self.inner.insert(val);
        fresh
    }

    /// Says whether `val` is held.
    pub fn has(&self, val: i64) -> (held: bool)
        requires
            self.inv(),
        ensures
            held == self.key_seq().contains(val),
    {
        self.inner.has(val)
    }

    /// Drops the largest key, handing it back.
    pub fn remove_max(&mut self) -> (popped: Option<i64>)
        requires
            old(self).inv(),
        ensures
            final(self).inv(),
            old(self).key_seq().len() == 0 ==> popped.is_none() && final(self).key_seq()
                == old(self).key_seq(),
            old(self).key_seq().len() > 0 ==> popped == Some(old(self).key_seq().last())
                && final(self).key_seq() == old(self).key_seq().drop_last(),
    {
        self.inner.remove_max()
    }

    /// Drops the smallest key, handing it back.
    pub fn remove_min(&mut self) -> (popped: Option<i64>)
        requires
            old(self).inv(),
        ensures
            final(self).inv(),
            old(self).key_seq().len() == 0 ==> popped.is_none() && final(self).key_seq()
                == old(self).key_seq(),
            old(self).key_seq().len() > 0 ==> popped == Some(old(self).key_seq().first())
                && final(self).key_seq() == old(self).key_seq().drop_first(),
    {
        self.inner.remove_min()
    }

    /// Drops `val` if held; the result says whether it was.
    pub fn remove(&mut self, val: i64) -> (held: bool)
        requires
            old(self).inv(),
        ensures
            final(self).inv(),
            held == old(self).key_seq().contains(val),
            final(self).key_seq().to_set() == old(self).key_seq().to_set().remove(val),
    {
        self.inner.remove(val)
    }

    /// Drops everything.
    pub fn remove_all(&mut self) -> (done: bool)
        requires
            old(self).inv(),
        ensures
            final(self).inv(),
            final(self).key_seq() == Seq::<i64>::empty(),
            done,
    {
        self.inner.remove_all()
    }

    /// Consumes `another` and folds its keys into `self`.
    pub fn join(self, another: Self) -> (joined: Self)
        requires
            self.inv(),
            another.inv(),
            self.key_seq().len() + another.key_seq().len() <= usize::MAX,
        ensures
            joined.inv(),
            joined.key_seq().to_set() == self.key_seq().to_set() + another.key_seq().to_set(),
    {
        BinaryTree { inner: self.inner.join(another.inner) }
    }

    /// How many keys are held.
    pub fn size(&self) -> (n: usize)
        requires
            self.inv(),
        ensures
            n == self.key_seq().len(),
    {
        self.inner.size()
    }

    /// The held keys, smallest first.
    pub fn in_order(&self) -> (keys: Vec<i64>)
        requires
            self.inv(),
        ensures
            keys@ == self.key_seq(),
    {
        self.inner.in_order()
    }
}

/// The store's walking order is sound; see
/// [`crate::map::tree::lemma_in_order_ascending`], which this hands on.
pub proof fn lemma_in_order_ascending(store: &BinaryTree)
    requires
        store.inv(),
    ensures
        crate::map::strictly_increasing(store.key_seq()),
        store.key_seq().to_set().len() == store.key_seq().len(),
{
    tree::lemma_in_order_ascending(&store.inner);
}

} // verus!
