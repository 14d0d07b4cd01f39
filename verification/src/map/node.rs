//! The operations on the one tree structure shared by every container in
//! this crate.
//!
//! An [`ABinaryTreeNode`] owns its two subtrees outright; no parent pointers exist, so all
//! operations walk top-down. The binary-search-tree discipline is captured by
//! [`bst_ordered`], the abstract content of a subtree by [`entries`] (a map
//! from key to value) and by [`inorder_keys`] (the left-to-right key order).
//! Removal overwrites a doomed node's key and value in place with those of a
//! donor (the largest key of the left subtree) and never rebuilds subtrees.

use vstd::prelude::*;

use crate::map::tree::ABinaryTreeNode;

verus! {

pub(crate) type Link<V> = Option<Box<ABinaryTreeNode<V>>>;

/// The key-value pairs held below (and including) `link`.
pub(crate) open spec fn entries<V>(link: Link<V>) -> Map<i64, V>
    decreases link,
{
    match link {
        None => Map::empty(),
        Some(n) => entries(n.left).union_prefer_right(entries(n.right)).insert(n.key, n.value),
    }
}

/// The binary-search-tree discipline: within every subtree, all keys to the
/// left are smaller and all keys to the right are larger than the root key.
pub(crate) open spec fn bst_ordered<V>(link: Link<V>) -> bool
    decreases link,
{
    match link {
        None => true,
        Some(n) => {
            &&& bst_ordered(n.left)
            &&& bst_ordered(n.right)
            &&& (forall|k: i64| entries(n.left).dom().contains(k) ==> k < n.key)
            &&& (forall|k: i64| entries(n.right).dom().contains(k) ==> k > n.key)
        },
    }
}

/// The keys below `link` in left-to-right (in-order) walking order.
pub(crate) open spec fn inorder_keys<V>(link: Link<V>) -> Seq<i64>
    decreases link,
{
    match link {
        None => Seq::empty(),
        Some(n) => inorder_keys(n.left) + seq![n.key] + inorder_keys(n.right),
    }
}

/// Each element of `s` is strictly smaller than any later one.
pub open spec fn strictly_increasing(s: Seq<i64>) -> bool {
    forall|i: int, j: int| 0 <= i < j < s.len() ==> s[i] < s[j]
}

/// The in-order walk of an ordered subtree lists exactly the stored keys,
/// once each, in strictly increasing order; so the map is finite and has as
/// many entries as the walk has keys.
pub(crate) proof fn lemma_tree_shape<V>(link: Link<V>)
    requires
        bst_ordered(link),
    ensures
        entries(link).dom().finite(),
        entries(link).dom() =~= inorder_keys(link).to_set(),
        entries(link).len() == inorder_keys(link).len(),
        strictly_increasing(inorder_keys(link)),
    decreases link,
{
    broadcast use vstd::seq_lib::seq_to_set_is_finite;

    match link {
        None => {
            assert(inorder_keys::<V>(link).to_set() =~= Set::empty());
        },
        Some(n) => {
            lemma_tree_shape(n.left);
            lemma_tree_shape(n.right);
            let mid = seq![n.key];
            let walk = inorder_keys(n.left) + mid + inorder_keys(n.right);
            vstd::seq_lib::seq_to_set_distributes_over_add(inorder_keys(n.left), mid);
            vstd::seq_lib::seq_to_set_distributes_over_add(inorder_keys(n.left) + mid, inorder_keys(n.right));
            assert(mid.to_set() =~= Set::empty().insert(n.key)) by {
                assert(mid[0] == n.key);
                assert forall|x: i64| mid.to_set().contains(x) implies x == n.key by {
                    let i = choose|i: int| 0 <= i < mid.len() && mid[i] == x;
                    assert(mid[i] == x);
                }
            }
            assert(entries(link).dom() =~= walk.to_set());
            assert forall|i: int, j: int| 0 <= i < j < walk.len() implies walk[i] < walk[j] by {
                let nl = inorder_keys(n.left).len() as int;
                let before = inorder_keys(n.left);
                let after = inorder_keys(n.right);
                if i < nl {
                    assert(before.to_set().contains(before[i]));
                }
                if j > nl {
                    assert(after.to_set().contains(after[j - nl - 1]));
                }
                if i < nl && j < nl {
                    assert(before[i] < before[j]);
                }
                if i > nl && j > nl {
                    assert(after[i - nl - 1] < after[j - nl - 1]);
                }
            }
            assert(walk.no_duplicates());
            walk.unique_seq_to_set();
        },
    }
}

/// Dropping the last element of a strictly increasing sequence removes
/// exactly its largest member.
pub proof fn lemma_drop_last_set(s: Seq<i64>)
    requires
        strictly_increasing(s),
        s.len() > 0,
    ensures
        strictly_increasing(s.drop_last()),
        s.drop_last().to_set() =~= s.to_set().remove(s.last()),
{
    assert forall|x: i64| s.drop_last().to_set().contains(x) implies s.to_set().remove(
        s.last(),
    ).contains(x) by {
        let i = choose|i: int| 0 <= i < s.drop_last().len() && s.drop_last()[i] == x;
        assert(s[i] == x);
        assert(s[i] < s.last());
    }
    assert forall|x: i64| s.to_set().remove(s.last()).contains(x) implies s.drop_last().to_set().contains(x) by {
        let i = choose|i: int| 0 <= i < s.len() && s[i] == x;
        assert(i < s.len() - 1);
        assert(s.drop_last()[i] == x);
    }
}

/// Dropping the first element of a strictly increasing sequence removes
/// exactly its smallest member.
pub proof fn lemma_drop_first_set(s: Seq<i64>)
    requires
        strictly_increasing(s),
        s.len() > 0,
    ensures
        strictly_increasing(s.drop_first()),
        s.drop_first().to_set() =~= s.to_set().remove(s.first()),
{
    assert forall|x: i64| s.drop_first().to_set().contains(x) implies s.to_set().remove(
        s.first(),
    ).contains(x) by {
        let i = choose|i: int| 0 <= i < s.drop_first().len() && s.drop_first()[i] == x;
        assert(s[i + 1] == x);
        assert(s.first() < s[i + 1]);
    }
    assert forall|x: i64| s.to_set().remove(s.first()).contains(x) implies s.drop_first().to_set().contains(x) by {
        let i = choose|i: int| 0 <= i < s.len() && s[i] == x;
        assert(i > 0);
        assert(s.drop_first()[i - 1] == x);
    }
}

/// Two strictly increasing sequences over the same set of keys are the same
/// sequence: a sorted, duplicate-free listing of a set is unique.
pub proof fn lemma_increasing_same_set(a: Seq<i64>, b: Seq<i64>)
    requires
        strictly_increasing(a),
        strictly_increasing(b),
        a.to_set() == b.to_set(),
    ensures
        a == b,
    decreases a.len(),
{
    if a.len() == 0 {
        if b.len() > 0 {
            assert(b.to_set().contains(b[0]));
            assert(a.contains(b[0]));
        }
        assert(a =~= b);
    } else {
        assert(a.to_set().contains(a.last()));
        assert(b.contains(a.last()));
        assert(b.len() > 0);
        assert(b.to_set().contains(b.last()));
        assert(a.contains(b.last()));
        let i = choose|i: int| 0 <= i < b.len() && b[i] == a.last();
        assert(b[i] <= b.last());
        let j = choose|j: int| 0 <= j < a.len() && a[j] == b.last();
        assert(a[j] <= a.last());
        assert(a.last() == b.last());
        lemma_drop_last_set(a);
        lemma_drop_last_set(b);
        assert(a.drop_last().to_set() =~= b.drop_last().to_set());
        lemma_increasing_same_set(a.drop_last(), b.drop_last());
        assert(a =~= b) by {
            assert(a.len() == b.len());
            assert(forall|k: int| 0 <= k < a.len() - 1 ==> a[k] == a.drop_last()[k] && b[k] == b.drop_last()[k]);
        }
    }
}

/// Places `value` under `key`, overwriting any value already there; the
/// result says whether the key is genuinely new.
pub(crate) fn insert_at<V>(link: &mut Link<V>, key: i64, value: V) -> (fresh: bool)
    requires
        bst_ordered(*old(link)),
    ensures
        bst_ordered(*final(link)),
        entries(*final(link)) =~= entries(*old(link)).insert(key, value),
        fresh == !entries(*old(link)).dom().contains(key),
    decreases *old(link),
{
    match link.take() {
        None => {
            *link = Some(Box::new(ABinaryTreeNode { key, value, left: None, right: None }));
            true
        },
        Some(mut n) => {
            let fresh = if key == n.key {
                n.value = value;
                false
            } else if key < n.key {
                let fresh = insert_at(&mut n.left, key, value);
                proof {
                    assert(!entries(n.right).dom().contains(key));
                }
                fresh
            } else {
                let fresh = insert_at(&mut n.right, key, value);
                proof {
                    assert(!entries(n.left).dom().contains(key));
                }
                fresh
            };
            *link = Some(n);
            fresh
        },
    }
}

/// Finds the value stored under `key`, if any.
pub(crate) fn lookup_at<'a, V>(link: &'a Link<V>, key: i64) -> (found: Option<&'a V>)
    requires
        bst_ordered(*link),
    ensures
        found.is_some() == entries(*link).dom().contains(key),
        found.is_some() ==> *found.unwrap() == entries(*link)[key],
    decreases *link,
{
    match link {
        None => None,
        Some(n) => {
            if key == n.key {
                Some(&n.value)
            } else if key < n.key {
                proof {
                    assert(!entries(n.right).dom().contains(key));
                }
                lookup_at(&n.left, key)
            } else {
                proof {
                    assert(!entries(n.left).dom().contains(key));
                }
                lookup_at(&n.right, key)
            }
        },
    }
}

/// Unlinks the node holding the largest key below `link` and hands its pair
/// back; the node's left subtree takes its place.
pub(crate) fn pop_max_at<V>(link: &mut Link<V>) -> (popped: (i64, V))
    requires
        old(link).is_some(),
        bst_ordered(*old(link)),
    ensures
        bst_ordered(*final(link)),
        entries(*final(link)) =~= entries(*old(link)).remove(popped.0),
        entries(*old(link)).dom().contains(popped.0),
        entries(*old(link))[popped.0] == popped.1,
        forall|k: i64| entries(*old(link)).dom().contains(k) ==> k <= popped.0,
    decreases *old(link),
{
    let mut n = link.take().unwrap();
    if n.right.is_none() {
        proof {
            assert(entries(n.right) =~= Map::empty());
            assert(!entries(n.left).dom().contains(n.key));
        }
        *link = n.left;
        (n.key, n.value)
    } else {
        let popped = pop_max_at(&mut n.right);
        proof {
            assert(!entries(n.left).dom().contains(popped.0));
        }
        *link = Some(n);
        popped
    }
}

/// Unlinks the node holding the smallest key below `link` and hands its pair
/// back; the node's right subtree takes its place.
pub(crate) fn pop_min_at<V>(link: &mut Link<V>) -> (popped: (i64, V))
    requires
        old(link).is_some(),
        bst_ordered(*old(link)),
    ensures
        bst_ordered(*final(link)),
        entries(*final(link)) =~= entries(*old(link)).remove(popped.0),
        entries(*old(link)).dom().contains(popped.0),
        entries(*old(link))[popped.0] == popped.1,
        forall|k: i64| entries(*old(link)).dom().contains(k) ==> k >= popped.0,
    decreases *old(link),
{
    let mut n = link.take().unwrap();
    if n.left.is_none() {
        proof {
            assert(entries(n.left) =~= Map::empty());
            assert(!entries(n.right).dom().contains(n.key));
        }
        *link = n.right;
        (n.key, n.value)
    } else {
        let popped = pop_min_at(&mut n.left);
        proof {
            assert(!entries(n.right).dom().contains(popped.0));
        }
        *link = Some(n);
        popped
    }
}

/// Detaches `key` from the subtree and hands its value back, or leaves the
/// subtree untouched when the key is absent. A node with two children keeps
/// its place: only its key and value change, to those of the donor popped
/// from its left subtree.
pub(crate) fn remove_at<V>(link: &mut Link<V>, key: i64) -> (removed: Option<V>)
    requires
        bst_ordered(*old(link)),
    ensures
        bst_ordered(*final(link)),
        entries(*final(link)) =~= entries(*old(link)).remove(key),
        removed.is_some() == entries(*old(link)).dom().contains(key),
        removed.is_some() ==> removed == Some(entries(*old(link))[key]),
    decreases *old(link),
{
    match link.take() {
        None => None,
        Some(mut n) => {
            if key == n.key {
                proof {
                    assert(!entries(n.left).dom().contains(key));
                    assert(!entries(n.right).dom().contains(key));
                }
                if n.left.is_none() {
                    proof {
                        assert(entries(n.left) =~= Map::empty());
                    }
                    *link = n.right;
                    Some(n.value)
                } else if n.right.is_none() {
                    proof {
                        assert(entries(n.right) =~= Map::empty());
                    }
                    *link = n.left;
                    Some(n.value)
                } else {
                    let (donor_key, donor_value) = pop_max_at(&mut n.left);
                    let mut out = donor_value;
                    core::mem::swap(&mut n.value, &mut out);
                    n.key = donor_key;
                    *link = Some(n);
                    Some(out)
                }
            } else if key < n.key {
                let removed = remove_at(&mut n.left, key);
                proof {
                    assert(!entries(n.right).dom().contains(key));
                    assert(key != n.key);
                }
                *link = Some(n);
                removed
            } else {
                let removed = remove_at(&mut n.right, key);
                proof {
                    assert(!entries(n.left).dom().contains(key));
                    assert(key != n.key);
                }
                *link = Some(n);
                removed
            }
        },
    }
}

/// Counts the stored pairs by walking the whole subtree.
pub(crate) fn count_at<V>(link: &Link<V>) -> (n: usize)
    requires
        bst_ordered(*link),
        entries(*link).len() <= usize::MAX,
    ensures
        n == entries(*link).len(),
    decreases *link,
{
    match link {
        None => {
            proof {
                assert(entries::<V>(*link).dom() =~= Set::empty());
            }
            0
        },
        Some(n) => {
            proof {
                lemma_tree_shape(*link);
                lemma_tree_shape(n.left);
                lemma_tree_shape(n.right);
            }
            let in_left = count_at(&n.left);
            let in_right = count_at(&n.right);
            in_left + in_right + 1
        },
    }
}

/// Appends the keys below `link` to `out`, in ascending (in-order) order.
pub(crate) fn push_keys_at<V>(link: &Link<V>, out: &mut Vec<i64>)
    ensures
        final(out)@ == old(out)@ + inorder_keys(*link),
    decreases *link,
{
    match link {
        None => {
            proof {
                assert(out@ =~= old(out)@ + inorder_keys(*link));
            }
        },
        Some(n) => {
            push_keys_at(&n.left, out);
            out.push(n.key);
            push_keys_at(&n.right, out);
            proof {
                assert(out@ =~= old(out)@ + inorder_keys(*link));
            }
        },
    }
}

} // verus!
