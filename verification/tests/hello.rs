use collection::binarytree::BinaryTree;
use collection::list::List;
use collection::{Queue, Tree};

#[test]
fn put_and_lookup() {
    let mut t = BinaryTree::new();
    for i in 0..5i64 {
        t.put(i, i.to_string());
    }
    for i in 0..5i64 {
        assert_eq!(t.get(i).unwrap().as_str(), i.to_string().as_str());
    }
}

#[test]
fn symmetric_enqueue_dequeue() {
    let mut l = List::new();
    for i in 0..5 {
        l.enqueue(i.to_string());
    }

    for i in 0..5 {
        assert_eq!(l.dequeue(), Some(i.to_string()));
    }
}

#[test]
fn put_overwrites_on_same_key() {
    let mut t = BinaryTree::new();
    t.put(1, "first".to_string());
    t.put(1, "second".to_string());
    assert_eq!(t.get(1).unwrap().as_str(), "second");
    assert_eq!(t.remove(1), Some("second".to_string()));
    assert_eq!(t.get(1), None);
}

#[test]
fn tree_remove_returns_value_and_clears_key() {
    let mut t = BinaryTree::new();
    for i in [5i64, 2, 8, 1, 3, 7, 9] {
        t.put(i, (i * 10).to_string());
    }
    assert_eq!(t.remove(5), Some("50".to_string()));
    assert!(t.get(5).is_none());
    assert_eq!(t.remove(5), None);
    for i in [1i64, 2, 3, 7, 8, 9] {
        assert_eq!(t.get(i).unwrap().as_str(), (i * 10).to_string().as_str());
    }
}

#[test]
fn list_iterator_walks_in_order() {
    let mut l = List::new();
    for i in 0..4u32 {
        l.enqueue(i);
    }
    let mut it = l.iter();
    for i in 0..4u32 {
        assert_eq!(it.next(), Some(&i));
    }
    assert_eq!(it.next(), None);
    // A fresh walk starts over from the front.
    let mut again = l.iter();
    assert_eq!(again.next(), Some(&0));
}

#[test]
fn dequeue_on_empty_list_is_none() {
    let mut l: List<u8> = List::new();
    assert_eq!(l.dequeue(), None);
}
