use collection::tree::Tree;

#[test]
fn early_interface_inserts_and_pops_both_ends() {
    let mut tree = Tree::new();
    assert!(tree.insert(5));
    assert!(tree.insert(6));
    assert!(tree.insert(24));
    assert!(tree.insert(7));
    assert!(tree.insert(3));
    assert!(tree.insert(1));
    assert!(tree.insert(2));
    assert!(!tree.insert(6));
    assert_eq!(tree.size(), 7);
    assert!(tree.has(24));
    assert!(!tree.has(25));
    assert_eq!(tree.remove_max(), Some(24));
    assert_eq!(tree.remove_min(), Some(1));
    assert_eq!(tree.size(), 5);
    assert_eq!(tree.in_order(), vec![2i64, 3, 5, 6, 7]);
}

#[test]
fn early_interface_empty_pops_are_none() {
    let mut tree = Tree::new();
    assert_eq!(tree.remove_max(), None);
    assert_eq!(tree.remove_min(), None);
    assert_eq!(tree.size(), 0);
    assert!(!tree.has(0));
}
