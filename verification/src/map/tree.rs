//! The two tree-backed containers: an ordered key store and a keyed map.

use vstd::prelude::*;

use crate::map::node::{
    bst_ordered, count_at, entries, inorder_keys, insert_at, lemma_drop_first_set,
    lemma_drop_last_set, lemma_increasing_same_set, lemma_tree_shape, lookup_at, pop_max_at,
    pop_min_at, push_keys_at, remove_at, strictly_increasing, Link,
};
use crate::map::{AMap, OrderedMap};

verus! {

/// A node of the binary search tree: one key, one value, and exclusive
/// ownership of the subtrees on either side. Every container in this crate
/// stores its content in these nodes.
pub struct ABinaryTreeNode<V> {
    pub(crate) key: i64,
    pub(crate) value: V,
    pub(crate) left: Link<V>,
    pub(crate) right: Link<V>,
}

/// An ordered store of integer keys, walked in ascending order.
pub struct BinaryTree {
    root: Link<()>,
}

impl BinaryTree {
    pub fn new() -> (empty: Self)
        ensures
            empty.inv(),
            empty.key_seq() == Seq::<i64>::empty(),
    {
        BinaryTree { root: None }
    }

    /// The held keys, smallest first.
    pub fn in_order(&self) -> (keys: Vec<i64>)
        requires
            self.inv(),
        ensures
            keys@ == self.key_seq(),
    {
        let mut keys: Vec<i64> = Vec::new();
        push_keys_at(&self.root, &mut keys);
        proof {
            assert(keys@ =~= inorder_keys(self.root));
        }
        keys
    }
}

impl OrderedMap<i64> for BinaryTree {
    closed spec fn inv(&self) -> bool {
        bst_ordered(self.root) && entries(self.root).len() <= usize::MAX
    }

    closed spec fn key_seq(&self) -> Seq<i64> {
        inorder_keys(self.root)
    }

    fn insert(&mut self, val: i64) {
        proof {
            lemma_tree_shape(self.root);
        }
        insert_at(&mut self.root, val, ());
        proof {
            lemma_tree_shape(self.root);
            assert(entries(self.root).dom() =~= entries(old(self).root).dom().insert(val));
        }
    }

    fn has(&self, val: i64) -> (held: bool) {
        proof {
            lemma_tree_shape(self.root);
        }
        lookup_at(&self.root, val).is_some()
    }

    fn remove_max(&mut self) -> (popped: Option<i64>) {
        proof {
            lemma_tree_shape(self.root);
        }
        if self.root.is_none() {
            None
        } else {
            let (max_key, _) = pop_max_at(&mut self.root);
            proof {
                let before = inorder_keys(old(self).root);
                lemma_tree_shape(self.root);
                assert(before.to_set().contains(max_key));
                let i = choose|i: int| 0 <= i < before.len() && before[i] == max_key;
                assert(before.to_set().contains(before.last()));
                assert(max_key == before.last());
                lemma_drop_last_set(before);
                assert(inorder_keys(self.root).to_set() =~= before.drop_last().to_set());
                lemma_increasing_same_set(inorder_keys(self.root), before.drop_last());
            }
            Some(max_key)
        }
    }

    fn remove_min(&mut self) -> (popped: Option<i64>) {
        proof {
            lemma_tree_shape(self.root);
        }
        if self.root.is_none() {
            None
        } else {
            let (min_key, _) = pop_min_at(&mut self.root);
            proof {
                let before = inorder_keys(old(self).root);
                lemma_tree_shape(self.root);
                assert(before.to_set().contains(min_key));
                let i = choose|i: int| 0 <= i < before.len() && before[i] == min_key;
                assert(before.to_set().contains(before.first()));
                assert(min_key == before.first());
                lemma_drop_first_set(before);
                assert(inorder_keys(self.root).to_set() =~= before.drop_first().to_set());
                lemma_increasing_same_set(inorder_keys(self.root), before.drop_first());
            }
            Some(min_key)
        }
    }

    fn remove(&mut self, val: i64) -> (held: bool) {
        proof {
            lemma_tree_shape(self.root);
        }
        let removed = remove_at(&mut self.root, val);
        proof {
            lemma_tree_shape(self.root);
            assert(entries(self.root).dom() =~= entries(old(self).root).dom().remove(val));
        }
        removed.is_some()
    }

    fn remove_all(&mut self) -> (done: bool) {
        self.root = None;
        proof {
            assert(entries(self.root).dom() =~= Set::empty());
        }
        true
    }

    fn join(self, another: Self) -> (joined: Self) {
        let ghost whole = self.key_seq().to_set() + another.key_seq().to_set();
        let mut joined = self;
        let mut rest = another;
        let mut left = rest.size();
        while left > 0
            invariant
                joined.inv(),
                rest.inv(),
                left == rest.key_seq().len(),
                joined.key_seq().to_set() + rest.key_seq().to_set() == whole,
                joined.key_seq().len() + rest.key_seq().len() <= usize::MAX,
            decreases left,
        {
            proof {
                lemma_tree_shape(rest.root);
                lemma_tree_shape(joined.root);
            }
            let ghost prev = rest.key_seq();
            let popped = rest.remove_min();
            if let Some(min_key) = popped {
                joined.insert(min_key);
                proof {
                    lemma_drop_first_set(prev);
                    lemma_tree_shape(joined.root);
                    lemma_tree_shape(rest.root);
                    assert(joined.key_seq().to_set() + rest.key_seq().to_set() =~= whole);
                }
            }
            left = left - 1;
        }
        proof {
            assert(rest.key_seq().to_set() =~= Set::empty());
            assert(joined.key_seq().to_set() =~= whole);
        }
        joined
    }

    fn size(&self) -> (n: usize) {
        proof {
            lemma_tree_shape(self.root);
        }
        count_at(&self.root)
    }
}

/// A keyed map from integer keys to values of any one type.
pub struct ABinaryTree<V> {
    entry: Link<V>,
}

impl<V> ABinaryTree<V> {
    pub fn new() -> (empty: Self)
        ensures
            empty.inv(),
            empty.map_view() == Map::<i64, V>::empty(),
    {
        ABinaryTree { entry: None }
    }
}

impl<V> AMap<V> for ABinaryTree<V> {
    closed spec fn inv(&self) -> bool {
        bst_ordered(self.entry) && entries(self.entry).len() <= usize::MAX
    }

    closed spec fn map_view(&self) -> Map<i64, V> {
        entries(self.entry)
    }

    fn insert(&mut self, key: i64, val: V) {
        proof {
            lemma_tree_shape(self.entry);
        }
        insert_at(&mut self.entry, key, val);
        proof {
            lemma_tree_shape(self.entry);
            assert(entries(self.entry) == entries(old(self).entry).insert(key, val));
        }
    }

    fn has(&self, key: i64) -> (bound: bool) {
        lookup_at(&self.entry, key).is_some()
    }

    fn remove(&mut self, key: i64) -> (unbound: Option<V>) {
        proof {
            lemma_tree_shape(self.entry);
        }
        let unbound = remove_at(&mut self.entry, key);
        proof {
            lemma_tree_shape(self.entry);
            assert(entries(self.entry) == entries(old(self).entry).remove(key));
        }
        unbound
    }

    fn remove_all(&mut self) -> (done: bool) {
        self.entry = None;
        proof {
            assert(entries(self.entry) =~= Map::<i64, V>::empty());
        }
        true
    }

    fn join(self, another: Self) -> (joined: Self) {
        let ghost whole = self.map_view().union_prefer_right(another.map_view());
        let mut joined = self;
        let mut rest = another;
        let mut left = rest.size();
        while left > 0
            invariant
                joined.inv(),
                rest.inv(),
                left == rest.map_view().len(),
                joined.map_view().union_prefer_right(rest.map_view()) == whole,
                joined.map_view().len() + rest.map_view().len() <= usize::MAX,
            decreases left,
        {
            proof {
                lemma_tree_shape(rest.entry);
                lemma_tree_shape(joined.entry);
                if rest.entry.is_none() {
                    assert(entries(rest.entry) =~= Map::<i64, V>::empty());
                }
            }
            let ghost before = joined.map_view();
            let ghost rest_before = rest.map_view();
            let (min_key, min_val) = pop_min_at(&mut rest.entry);
            proof {
                lemma_tree_shape(rest.entry);
                broadcast use vstd::set::axiom_set_remove_len;

                assert(rest.map_view().dom() =~= rest_before.dom().remove(min_key));
            }
            joined.insert(min_key, min_val);
            proof {
                lemma_tree_shape(joined.entry);
                broadcast use vstd::set::axiom_set_insert_len;

                assert(joined.map_view().dom() =~= before.dom().insert(min_key));
                if before.dom().contains(min_key) {
                    assert(before.dom().insert(min_key) =~= before.dom());
                }
                assert(joined.map_view().union_prefer_right(rest.map_view()) =~= whole);
            }
            left = left - 1;
        }
        proof {
            lemma_tree_shape(rest.entry);
            rest.map_view().dom().lemma_len0_is_empty();
            assert(rest.map_view() =~= Map::<i64, V>::empty());
            assert(joined.map_view() =~= whole);
        }
        joined
    }

    fn size(&self) -> (n: usize) {
        proof {
            lemma_tree_shape(self.entry);
        }
        count_at(&self.entry)
    }
}

/// The tree's walking order is sound: for a store holding its invariant, the
/// in-order key sequence is strictly increasing, and its length is the
/// number of distinct keys held. `in_order` and `size` return exactly these,
/// so a full traversal always comes out sorted and counts what `size` says.
pub proof fn lemma_in_order_ascending(store: &BinaryTree)
    requires
        store.inv(),
    ensures
        strictly_increasing(store.key_seq()),
        store.key_seq().to_set().len() == store.key_seq().len(),
        store.key_seq().to_set().finite(),
{
    lemma_tree_shape(store.root);
    store.key_seq().unique_seq_to_set();
}

/// The set left after keys have been taken out, one by one, front of `order`
/// first; each `remove(key)` leaves exactly this per its contract.
pub open spec fn drained(start: Set<i64>, order: Seq<i64>) -> Set<i64>
    decreases order.len(),
{
    if order.len() == 0 {
        start
    } else {
        drained(start.remove(order.first()), order.drop_first())
    }
}

/// The set held after the keys of `keys` have been added, one by one; each
/// `insert(key)` grows the store's key set exactly so, per its contract.
pub open spec fn filled(keys: Seq<i64>) -> Set<i64>
    decreases keys.len(),
{
    if keys.len() == 0 {
        Set::empty()
    } else {
        filled(keys.drop_last()).insert(keys.last())
    }
}

/// Round trip: inserting any keys into an empty store gives it exactly their
/// set; then removing the distinct keys in any order, each removal still
/// finds its key (so `remove` returns a hit every time, by its contract),
/// and the store ends empty.
pub proof fn lemma_round_trip(keys: Seq<i64>, order: Seq<i64>)
    requires
        order.to_set() == keys.to_set(),
        order.no_duplicates(),
    ensures
        filled(keys) == keys.to_set(),
        drained(keys.to_set(), order) == Set::<i64>::empty(),
        forall|i: int|
            0 <= i < order.len() ==> drained(keys.to_set(), order.subrange(0, i)).contains(
                order[i],
            ),
{
    lemma_filled_is_set(keys);
    lemma_drained_all(keys.to_set(), order);
}

proof fn lemma_filled_is_set(keys: Seq<i64>)
    ensures
        filled(keys) == keys.to_set(),
    decreases keys.len(),
{
    if keys.len() == 0 {
        assert(keys.to_set() =~= Set::<i64>::empty());
    } else {
        lemma_filled_is_set(keys.drop_last());
        assert(keys.drop_last().to_set().insert(keys.last()) =~= keys.to_set()) by {
            assert forall|x: i64| keys.to_set().contains(x) implies keys.drop_last().to_set().insert(
                keys.last(),
            ).contains(x) by {
                let i = choose|i: int| 0 <= i < keys.len() && keys[i] == x;
                if i < keys.len() - 1 {
                    assert(keys.drop_last()[i] == x);
                }
            }
            assert forall|x: i64| keys.drop_last().to_set().contains(x) implies keys.to_set().contains(
                x,
            ) by {
                let j = choose|j: int| 0 <= j < keys.drop_last().len() && keys.drop_last()[j] == x;
                assert(keys[j] == x);
            }
            assert(keys.to_set().contains(keys.last()));
        }
    }
}

proof fn lemma_drained_all(start: Set<i64>, order: Seq<i64>)
    requires
        start == order.to_set(),
        order.no_duplicates(),
    ensures
        drained(start, order) == Set::<i64>::empty(),
        forall|i: int|
            0 <= i < order.len() ==> drained(start, order.subrange(0, i)).contains(order[i]),
    decreases order.len(),
{
    if order.len() == 0 {
        assert(order.to_set() =~= Set::<i64>::empty());
    } else {
        let head = order.first();
        let rest = order.drop_first();
        assert(order.to_set().contains(head));
        assert forall|k: i64| rest.to_set().contains(k) implies start.remove(head).contains(
            k,
        ) by {
            let j = choose|j: int| 0 <= j < rest.len() && rest[j] == k;
            assert(order[j + 1] == k);
            assert(k != head);
        }
        assert forall|k: i64| start.remove(head).contains(k) implies rest.to_set().contains(
            k,
        ) by {
            let j = choose|j: int| 0 <= j < order.len() && order[j] == k;
            assert(j != 0);
            assert(rest[j - 1] == k);
        }
        assert(start.remove(head) =~= rest.to_set());
        lemma_drained_all(start.remove(head), rest);
        assert forall|i: int|
            0 <= i < order.len() implies drained(start, order.subrange(0, i)).contains(
            order[i],
        ) by {
            if i == 0 {
                assert(order.subrange(0, 0) =~= Seq::<i64>::empty());
                assert(drained(start, order.subrange(0, 0)) == start);
            } else {
                assert(rest.subrange(0, i - 1) =~= order.subrange(0, i).drop_first());
                assert(order.subrange(0, i).first() == head);
                assert(drained(start, order.subrange(0, i)) == drained(
                    start.remove(head),
                    rest.subrange(0, i - 1),
                ));
                assert(rest[i - 1] == order[i]);
            }
        }
    }
}

/// Repeated `remove_min` is ascending: on a sorted key sequence of at least
/// two keys, the first key taken is below the next one, and what is left
/// stays sorted — so chaining `remove_min` yields strictly ascending keys.
pub proof fn lemma_pop_min_ascending(s: Seq<i64>)
    requires
        strictly_increasing(s),
        s.len() >= 2,
    ensures
        strictly_increasing(s.drop_first()),
        s.first() < s.drop_first().first(),
{
    lemma_drop_first_set(s);
}

/// Repeated `remove_max` is descending: on a sorted key sequence of at least
/// two keys, the last key taken is above the next one, and what is left
/// stays sorted — so chaining `remove_max` yields strictly descending keys.
pub proof fn lemma_pop_max_descending(s: Seq<i64>)
    requires
        strictly_increasing(s),
        s.len() >= 2,
    ensures
        strictly_increasing(s.drop_last()),
        s.last() > s.drop_last().last(),
{
    lemma_drop_last_set(s);
}

/// A key is gone once removed: whatever `remove(val)` leaves holds every key
/// but `val`, so `has(val)` answers `false` afterwards, by its contract.
pub proof fn lemma_removed_key_absent(before: Seq<i64>, after: Seq<i64>, val: i64)
    requires
        after.to_set() == before.to_set().remove(val),
    ensures
        !after.contains(val),
{
    if after.contains(val) {
        assert(after.to_set().contains(val));
    }
}

/// Removing an absent key moves nothing: the store's key sequence after
/// `remove(val)` is the one before, unchanged, and `remove` reported the
/// miss by returning `false`, by its contract.
pub proof fn lemma_remove_missing_keeps_walk(before: Seq<i64>, after: Seq<i64>, val: i64)
    requires
        strictly_increasing(before),
        strictly_increasing(after),
        !before.contains(val),
        after.to_set() == before.to_set().remove(val),
    ensures
        after == before,
{
    assert(before.to_set().remove(val) =~= before.to_set());
    lemma_increasing_same_set(after, before);
}

} // verus!
