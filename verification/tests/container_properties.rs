use derpy::base_tree::InternalBinarySearchTree;
use derpy::binary_search_tree::BinarySearchTree;
use derpy::node::Color;
use derpy::node::Node;
use derpy::red_black_tree::RedBlackTree;

fn leaf(key: u64) -> Node {
    Node { key, color: Color::Red, left: None, right: None, parent: None }
}

#[test]
fn size_tracks_inserts_and_removes() {
    let mut b_tree = BinarySearchTree::new();
    let mut expected: usize = 0;
    for k in [8u64, 3, 10, 1, 6, 14, 4, 7, 13] {
        b_tree.insert(k);
        expected += 1;
        assert_eq!(b_tree.get_size(), expected);
    }
    for k in [3u64, 14, 8] {
        assert!(b_tree.remove(k).is_ok());
        expected -= 1;
        assert_eq!(b_tree.get_size(), expected);
    }
    // a failed remove changes nothing
    assert!(b_tree.remove(999).is_err());
    assert_eq!(b_tree.get_size(), expected);
}

#[test]
fn remove_present_key_forgets_it() {
    let mut b_tree = BinarySearchTree::new();
    for k in [8u64, 3, 10, 1, 6, 14] {
        b_tree.insert(k);
    }
    assert!(b_tree.contains(6));
    assert!(b_tree.remove(6).is_ok());
    assert!(!b_tree.contains(6));
    assert_eq!(b_tree.get_size(), 5);
}

#[test]
fn remove_absent_key_leaves_tree_unchanged() {
    let mut b_tree = BinarySearchTree::new();
    for k in [8u64, 3, 10, 1, 6, 14] {
        b_tree.insert(k);
    }
    let bfs_before = b_tree.bfs_iter();
    let dfs_before = b_tree.dfs_iter();
    assert!(b_tree.remove(7).is_err());
    assert_eq!(b_tree.bfs_iter(), bfs_before);
    assert_eq!(b_tree.dfs_iter(), dfs_before);
    assert_eq!(b_tree.get_size(), 6);
}

#[test]
fn traversals_recover_distinct_keys_exactly_once() {
    let keys = [41u64, 7, 93, 2, 58, 100, 33, 12, 76, 5];
    let mut b_tree = BinarySearchTree::new();
    let mut rb_tree = RedBlackTree::new();
    for k in keys {
        b_tree.insert(k);
        rb_tree.insert(k);
    }
    let mut sorted = keys.to_vec();
    sorted.sort();
    for order in [b_tree.bfs_iter(), b_tree.dfs_iter(), rb_tree.bfs_iter(), rb_tree.dfs_iter()] {
        let mut got = order.clone();
        got.sort();
        assert_eq!(got, sorted);
    }
}

#[test]
fn duplicate_keys_survive_rotations() {
    let mut rb_tree = RedBlackTree::new();
    rb_tree.insert(5);
    rb_tree.insert(5);
    rb_tree.insert(5);
    assert_eq!(rb_tree.get_size(), 3);
    assert!(rb_tree.contains(5));
    let mut order = rb_tree.bfs_iter();
    order.sort();
    assert_eq!(order, vec![5, 5, 5]);
}

#[test]
fn empty_tree_behaviour() {
    let b_tree = BinarySearchTree::new();
    assert_eq!(b_tree.get_size(), 0);
    assert_eq!(b_tree.bfs_iter(), Vec::<u64>::new());
    assert_eq!(b_tree.dfs_iter(), Vec::<u64>::new());
    assert!(!b_tree.contains(1));

    let mut rb_tree = RedBlackTree::new();
    assert_eq!(rb_tree.get_size(), 0);
    assert!(rb_tree.remove(1).is_err());
}

#[test]
fn extreme_keys() {
    let mut b_tree = BinarySearchTree::new();
    b_tree.insert(u64::MAX);
    b_tree.insert(0);
    b_tree.insert(u64::MAX);
    assert!(b_tree.contains(u64::MAX));
    assert!(b_tree.contains(0));
    assert_eq!(b_tree.bfs_iter(), vec![u64::MAX, 0, u64::MAX]);
}

#[test]
fn not_found_error_has_message() {
    let mut b_tree = BinarySearchTree::new();
    b_tree.insert(1);
    let err = b_tree.remove(2).unwrap_err();
    assert!(!err.message().is_empty());
}

#[test]
fn rb_remove_is_structural_delete() {
    let mut rb_tree = RedBlackTree::new();
    for k in [42u64, 25, 60, 66, 50, 41, 12] {
        rb_tree.insert(k);
    }
    let size_before = rb_tree.get_size();
    assert!(rb_tree.remove(25).is_ok());
    assert!(!rb_tree.contains(25));
    assert_eq!(rb_tree.get_size(), size_before - 1);
    // the tree keeps working after a delete
    rb_tree.insert(26);
    assert!(rb_tree.contains(26));
    assert_eq!(rb_tree.get_size(), size_before);
}

#[test]
fn engine_operations() {
    let mut tree = InternalBinarySearchTree::new();
    let h55 = tree.insert_node(leaf(55));
    let _ = tree.insert_node(leaf(42));
    let _ = tree.insert_node(leaf(70));
    let _ = tree.insert_node(leaf(60));
    assert_eq!(tree.len(), 4);
    assert_eq!(tree.dfs_keys(), vec![55, 42, 70, 60]);
    assert_eq!(tree.bfs_keys(), vec![55, 42, 70, 60]);

    let found = tree.find_node_index(55);
    assert_eq!(found, Some(h55));
    assert!(tree.find_node_index(61).is_none());

    // 55 has a right subtree, so its inorder successor is the leftmost node
    // there (60); removing 55 promotes exactly that key.
    assert!(tree.get_inorder_successor(h55).is_some());
    tree.remove_node(h55);
    assert_eq!(tree.len(), 3);
    assert!(tree.find_node_index(55).is_none());
    assert_eq!(tree.bfs_keys(), vec![60, 42, 70]);
}
