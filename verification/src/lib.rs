//! An ordered key-value store built on a binary search tree, together with
//! the small container and parsing utilities that grew around it: linked-list
//! queues, a URL parser, and decimal parsing helpers.

use vstd::prelude::*;

pub mod binarytree;
pub mod list;
pub mod listrc;
pub mod map;
pub mod parse;
pub mod tree;
pub mod url;
pub mod zoo;

verus! {

/// A keyed store of values, looked up and removed by key.
pub trait Tree<V>: Sized {
    spec fn inv(&self) -> bool;

    spec fn map_view(&self) -> Map<i64, V>;

    /// Binds `value` to `key`, overwriting any earlier binding.
    fn put(&mut self, key: i64, value: V)
        requires
            old(self).inv(),
            old(self).map_view().len() < usize::MAX,
        ensures
            final(self).inv(),
            final(self).map_view() == old(self).map_view().insert(key, value),
    ;

    /// Borrows the value bound to `key`, if any.
    fn get(&self, key: i64) -> (found: Option<&V>)
        requires
            self.inv(),
        ensures
            found.is_some() == self.map_view().dom().contains(key),
            found.is_some() ==> *found.unwrap() == self.map_view()[key],
    ;

    /// Unbinds `key`, handing back the value it was bound to, if any.
    fn remove(&mut self, key: i64) -> (removed: Option<V>)
        requires
            old(self).inv(),
        ensures
            final(self).inv(),
            final(self).map_view() == old(self).map_view().remove(key),
            removed.is_some() == old(self).map_view().dom().contains(key),
            removed.is_some() ==> removed == Some(old(self).map_view()[key]),
    ;
}

/// A first-in, first-out container.
pub trait Queue<T>: Sized {
    spec fn inv(&self) -> bool;

    spec fn items(&self) -> Seq<T>;

    /// Adds `item` at the back.
    fn enqueue(&mut self, item: T)
        requires
            old(self).inv(),
        ensures
            final(self).inv(),
            final(self).items() == old(self).items().push(item),
    ;

    /// Takes the item at the front, if any.
    fn dequeue(&mut self) -> (front: Option<T>)
        requires
            old(self).inv(),
        ensures
            final(self).inv(),
            old(self).items().len() == 0 ==> front.is_none() && final(self).items()
                == old(self).items(),
            old(self).items().len() > 0 ==> front == Some(old(self).items().first())
                && final(self).items() == old(self).items().drop_first(),
    ;
}

/// A last-in, first-out container. No type here implements it yet; it is
/// declared for callers that bring their own.
pub trait Stack<T>: Sized {
    fn push(&mut self, item: T);

    fn pop(&mut self) -> Option<T>;
}

} // verus!
