use collection::map::binary_tree;
use collection::map::tree::{ABinaryTree, BinaryTree};
use collection::map::{AMap, OrderedMap};

#[test]
fn binary_tree_basic_test() {
    let keys = vec![40i64, 10, 20, 35, 5, 15, 25];
    let mut key_tree = BinaryTree::new();
    for key in &keys {
        key_tree.insert(*key);
    }
    assert_eq!(key_tree.size(), keys.len());

    for key in &keys {
        // removal of a held key must report a hit
        assert!(key_tree.remove(*key));
    }
    // after removing all the elements, the size should equal 0
    assert_eq!(key_tree.size(), 0);

    let mut key_tree = BinaryTree::new();
    for key in &keys {
        key_tree.insert(*key);
    }
    let size = key_tree.size();
    let mut max: Option<i64> = None;
    for _ in 0..size {
        match (max, key_tree.remove_max()) {
            (Some(ref max), Some(ref removed)) => {
                assert!(!(max < removed));
            }
            (None, Some(removed)) => {
                max = Some(removed);
            }
            (_, None) => {
                assert!(false);
            }
        }
    }

    let mut key_tree = BinaryTree::new();
    for key in &keys {
        key_tree.insert(*key);
    }
    let size = key_tree.size();
    let mut min: Option<i64> = None;
    for _ in 0..size {
        match (min, key_tree.remove_min()) {
            (Some(ref min), Some(ref removed)) => {
                assert!(!(min > removed));
            }
            (None, Some(removed)) => {
                min = Some(removed);
            }
            (_, None) => {
                assert!(false);
            }
        }
    }

    assert_eq!(key_tree.size(), 0);
}

#[test]
fn scenario_mixed_removals() {
    // insert [5,6,24,7,3,1,2]; take the max, the min, then the two-child key 5
    let mut tree = BinaryTree::new();
    for key in [5i64, 6, 24, 7, 3, 1, 2] {
        tree.insert(key);
    }
    assert_eq!(tree.size(), 7);
    assert_eq!(tree.remove_max(), Some(24));
    assert_eq!(tree.size(), 6);
    assert_eq!(tree.remove_min(), Some(1));
    assert_eq!(tree.size(), 5);
    assert!(tree.remove(5));
    assert_eq!(tree.in_order(), vec![2i64, 3, 6, 7]);
}

#[test]
fn scenario_join_disjoint_trees() {
    let mut low = BinaryTree::new();
    for key in [2i64, 1, 3] {
        low.insert(key);
    }
    let mut high = BinaryTree::new();
    for key in [8i64, 7, 9] {
        high.insert(key);
    }
    let joined = low.join(high);
    assert_eq!(joined.size(), 6);
    assert_eq!(joined.in_order(), vec![1i64, 2, 3, 7, 8, 9]);
}

#[test]
fn traversal_is_sorted_and_counts_match() {
    let mut tree = BinaryTree::new();
    for key in [9i64, -4, 17, 0, 3, -20, 5, 11] {
        tree.insert(key);
    }
    let walk = tree.in_order();
    assert_eq!(walk.len(), tree.size());
    for pair in walk.windows(2) {
        assert!(pair[0] < pair[1]);
    }
}

#[test]
fn duplicate_insert_keeps_one_copy() {
    let mut tree = BinaryTree::new();
    tree.insert(4);
    tree.insert(4);
    tree.insert(4);
    assert_eq!(tree.size(), 1);
    assert_eq!(tree.in_order(), vec![4i64]);
}

#[test]
fn round_trip_in_scrambled_order() {
    let keys = [13i64, 7, 21, 3, 9, 16, 30, 1, 5];
    let order = [9i64, 30, 13, 1, 21, 5, 3, 16, 7];
    let mut tree = BinaryTree::new();
    for key in keys {
        tree.insert(key);
    }
    for key in order {
        // every removal must find its key
        assert!(tree.remove(key));
    }
    assert_eq!(tree.size(), 0);
    assert_eq!(tree.in_order(), Vec::<i64>::new());
}

#[test]
fn has_is_false_after_remove() {
    let mut tree = BinaryTree::new();
    for key in [10i64, 4, 14, 2, 6] {
        tree.insert(key);
    }
    assert!(tree.has(4));
    assert!(tree.remove(4));
    assert!(!tree.has(4));
}

#[test]
fn remove_of_missing_key_changes_nothing() {
    let mut tree = BinaryTree::new();
    for key in [10i64, 4, 14] {
        tree.insert(key);
    }
    let before = tree.in_order();
    assert!(!tree.remove(7));
    assert_eq!(tree.size(), 3);
    assert_eq!(tree.in_order(), before);
}

#[test]
fn remove_all_empties_the_store() {
    let mut tree = BinaryTree::new();
    for key in [1i64, 2, 3] {
        tree.insert(key);
    }
    assert!(tree.remove_all());
    assert_eq!(tree.size(), 0);
    assert_eq!(tree.remove_max(), None);
    assert_eq!(tree.remove_min(), None);
}

#[test]
fn free_standing_interface_reports_freshness() {
    let mut tree = binary_tree::new();
    assert!(tree.insert(5));
    assert!(tree.insert(9));
    assert!(!tree.insert(5));
    assert_eq!(tree.size(), 2);
    assert!(tree.remove(9));
    assert!(!tree.remove(9));
    assert_eq!(tree.remove_min(), Some(5));
    assert_eq!(tree.size(), 0);
}

#[test]
fn free_standing_join_and_order() {
    let mut left = binary_tree::new();
    left.insert(12);
    left.insert(-1);
    let mut right = binary_tree::new();
    right.insert(4);
    right.insert(12);
    let joined = left.join(right);
    assert_eq!(joined.in_order(), vec![-1i64, 4, 12]);
    assert_eq!(joined.size(), 3);
}

#[test]
fn keyed_map_binds_and_unbinds() {
    let mut map: ABinaryTree<String> = ABinaryTree::new();
    map.insert(3, "three".to_string());
    map.insert(1, "one".to_string());
    map.insert(3, "still three".to_string());
    assert_eq!(map.size(), 2);
    assert!(map.has(3));
    assert!(!map.has(2));
    assert_eq!(map.remove(3), Some("still three".to_string()));
    assert_eq!(map.remove(3), None);
    assert_eq!(map.size(), 1);
}

#[test]
fn keyed_map_join_prefers_the_other_side() {
    let mut base: ABinaryTree<u32> = ABinaryTree::new();
    base.insert(1, 10);
    base.insert(2, 20);
    let mut add: ABinaryTree<u32> = ABinaryTree::new();
    add.insert(2, 200);
    add.insert(3, 300);
    let mut joined = base.join(add);
    assert_eq!(joined.size(), 3);
    assert_eq!(joined.remove(2), Some(200));
    assert_eq!(joined.remove(1), Some(10));
    assert_eq!(joined.remove(3), Some(300));
    assert!(joined.remove_all());
    assert_eq!(joined.size(), 0);
}
