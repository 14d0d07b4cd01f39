//! Ordered containers backed by a binary search tree.
//!
//! The tree structure itself lives in [`node`]; the container types in
//! [`tree`] and [`binary_tree`] are shells around it, each keeping the
//! interface of one historical variant of the store.

use vstd::prelude::*;

pub(crate) mod node;
pub mod binary_tree;
pub mod tree;

pub use node::strictly_increasing;

verus! {

/// An ordered container of keys. `key_seq` is the container's content in its
/// walking order, which implementations keep strictly ascending; `inv` is the
/// structural invariant that every operation preserves.
pub trait OrderedMap<T>: Sized {
    spec fn inv(&self) -> bool;

    spec fn key_seq(&self) -> Seq<T>;

    /// Adds `val`, keeping one copy of a key already present.
    fn insert(&mut self, val: T)
        requires
            old(self).inv(),
            old(self).key_seq().len() < usize::MAX,
        ensures
            final(self).inv(),
            final(self).key_seq().to_set() == old(self).key_seq().to_set().insert(val),
    ;

    /// Says whether `val` is held.
    fn has(&self, val: T) -> (held: bool)
        requires
            self.inv(),
        ensures
            held == self.key_seq().contains(val),
    ;

    /// Drops the largest key, handing it back.
    fn remove_max(&mut self) -> (popped: Option<T>)
        requires
            old(self).inv(),
        ensures
            final(self).inv(),
            old(self).key_seq().len() == 0 ==> popped.is_none() && final(self).key_seq()
                == old(self).key_seq(),
            old(self).key_seq().len() > 0 ==> popped == Some(old(self).key_seq().last())
                && final(self).key_seq() == old(self).key_seq().drop_last(),
    ;

    /// Drops the smallest key, handing it back.
    fn remove_min(&mut self) -> (popped: Option<T>)
        requires
            old(self).inv(),
        ensures
            final(self).inv(),
            old(self).key_seq().len() == 0 ==> popped.is_none() && final(self).key_seq()
                == old(self).key_seq(),
            old(self).key_seq().len() > 0 ==> popped == Some(old(self).key_seq().first())
                && final(self).key_seq() == old(self).key_seq().drop_first(),
    ;

    /// Drops `val` if held; the result says whether it was.
    fn remove(&mut self, val: T) -> (held: bool)
        requires
            old(self).inv(),
        ensures
            final(self).inv(),
            held == old(self).key_seq().contains(val),
            final(self).key_seq().to_set() == old(self).key_seq().to_set().remove(val),
    ;

    /// Drops everything.
    fn remove_all(&mut self) -> (done: bool)
        requires
            old(self).inv(),
        ensures
            final(self).inv(),
            final(self).key_seq() == Seq::<T>::empty(),
            done,
    ;

    /// Consumes `another` and folds its keys into `self`.
    fn join(self, another: Self) -> (joined: Self)
        requires
            self.inv(),
            another.inv(),
            self.key_seq().len() + another.key_seq().len() <= usize::MAX,
        ensures
            joined.inv(),
            joined.key_seq().to_set() == self.key_seq().to_set() + another.key_seq().to_set(),
    ;

    /// How many keys are held.
    fn size(&self) -> (n: usize)
        requires
            self.inv(),
        ensures
            n == self.key_seq().len(),
    ;
}

/// A keyed store of values. Keys are plain integers; callers that index by
/// richer data hash it down to a key first.
pub trait AMap<V>: Sized {
    spec fn inv(&self) -> bool;

    spec fn map_view(&self) -> Map<i64, V>;

    /// Binds `val` to `key`, overwriting any earlier binding.
    fn insert(&mut self, key: i64, val: V)
        requires
            old(self).inv(),
            old(self).map_view().len() < usize::MAX,
        ensures
            final(self).inv(),
            final(self).map_view() == old(self).map_view().insert(key, val),
    ;

    /// Says whether `key` is bound.
    fn has(&self, key: i64) -> (bound: bool)
        requires
            self.inv(),
        ensures
            bound == self.map_view().dom().contains(key),
    ;

    /// Unbinds `key`, handing back the value it was bound to, if any.
    fn remove(&mut self, key: i64) -> (unbound: Option<V>)
        requires
            old(self).inv(),
        ensures
            final(self).inv(),
            final(self).map_view() == old(self).map_view().remove(key),
            unbound.is_some() == old(self).map_view().dom().contains(key),
            unbound.is_some() ==> unbound == Some(old(self).map_view()[key]),
    ;

    /// Drops every binding.
    fn remove_all(&mut self) -> (done: bool)
        requires
            old(self).inv(),
        ensures
            final(self).inv(),
            final(self).map_view() == Map::<i64, V>::empty(),
            done,
    ;

    /// Consumes `another` and folds its bindings into `self`; on a key bound
    /// by both, the binding of `another` wins.
    fn join(self, another: Self) -> (joined: Self)
        requires
            self.inv(),
            another.inv(),
            self.map_view().len() + another.map_view().len() <= usize::MAX,
        ensures
            joined.inv(),
            joined.map_view() == self.map_view().union_prefer_right(another.map_view()),
    ;

    /// How many bindings are held.
    fn size(&self) -> (n: usize)
        requires
            self.inv(),
        ensures
            n == self.map_view().len(),
    ;
}

} // verus!
