//! The keyed store under its key-value interface, [`crate::Tree`].

use vstd::prelude::*;

use crate::map::node::{bst_ordered, entries, insert_at, lemma_tree_shape, lookup_at, remove_at, Link};
use crate::Tree;

verus! {

/// A map from integer keys to values, backed by the crate's binary search
/// tree and driven through the [`Tree`] trait.
pub struct BinaryTree<V> {
    entry: Link<V>,
}

impl<V> BinaryTree<V> {
    pub fn new() -> (empty: Self)
        ensures
            empty.inv(),
            empty.map_view() == Map::<i64, V>::empty(),
    {
        BinaryTree { entry: None }
    }
}

impl<V> Tree<V> for BinaryTree<V> {
    closed spec fn inv(&self) -> bool {
        bst_ordered(self.entry) && entries(self.entry).len() <= usize::MAX
    }

    closed spec fn map_view(&self) -> Map<i64, V> {
        entries(self.entry)
    }

    fn put(&mut self, key: i64, value: V) {
        proof {
            lemma_tree_shape(self.entry);
        }
        insert_at(&mut self.entry, key, value);
        proof {
            lemma_tree_shape(self.entry);
            assert(entries(self.entry) == entries(old(self).entry).insert(key, value));
        }
    }

    fn get(&self, key: i64) -> (found: Option<&V>) {
        lookup_at(&self.entry, key)
    }

    fn remove(&mut self, key: i64) -> (removed: Option<V>) {
        proof {
            lemma_tree_shape(self.entry);
        }
        let removed = remove_at(&mut self.entry, key);
        proof {
            lemma_tree_shape(self.entry);
            assert(entries(self.entry) == entries(old(self).entry).remove(key));
        }
        removed
    }
}

} // verus!
