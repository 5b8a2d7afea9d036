use derpy::red_black_tree::RedBlackTree;

fn verify_tree_bfs(bst: &RedBlackTree, expected_vals: Vec<u64>) {
    assert!(
        bst.get_size() == expected_vals.len(),
        "Expected tree size to be {}, but it was {}",
        expected_vals.len(),
        bst.get_size()
    );

    let order = bst.bfs_iter();
    assert_eq!(order, expected_vals);
}

fn verify_tree_dfs(bst: &RedBlackTree, expected_vals: Vec<u64>) {
    assert_eq!(bst.get_size(), expected_vals.len());
    let order = bst.dfs_iter();
    assert_eq!(order, expected_vals);
}

#[test]
fn rb_tree_tests_test_instantiation() {
    let _b_tree: RedBlackTree = RedBlackTree::new();
}

#[test]
fn rb_tree_tests_test_insert_root_node() {
    let mut b_tree = RedBlackTree::new();
    b_tree.insert(42);
}

#[test]
fn rb_tree_tests_test_get_size_after_insert() {
    let mut b_tree = RedBlackTree::new();
    b_tree.insert(55);
    assert_eq!(b_tree.get_size(), 1);

    b_tree.insert(55);
    assert_eq!(b_tree.get_size(), 2);
}

#[test]
fn rb_tree_tests_dfs_traversal() {
    let mut b_tree = RedBlackTree::new();
    b_tree.insert(55);
    b_tree.insert(60);
    b_tree.insert(25);
    b_tree.insert(12);
    b_tree.insert(66);
    b_tree.insert(55);
    b_tree.insert(54);

    let it = b_tree.dfs_iter();
    assert_eq!(it[0], 55);
    assert_eq!(it[1], 25);
    assert_eq!(it[2], 12);
    assert_eq!(it[3], 54);
    assert_eq!(it[4], 60);
    assert_eq!(it[5], 55);
    assert_eq!(it[6], 66);
    assert_eq!(it.len(), 7);
}

#[test]
fn rb_tree_tests_bst_insertion() {
    let mut b_tree = RedBlackTree::new();
    b_tree.insert(55);
    b_tree.insert(60);
    b_tree.insert(25);
    b_tree.insert(12);
    b_tree.insert(66);
    b_tree.insert(55);
    b_tree.insert(54);

    let expected_order = vec![55, 25, 12, 54, 60, 55, 66];
    verify_tree_dfs(&b_tree, expected_order);
}

#[test]
fn rb_tree_tests_bfs_traversal() {
    let mut b_tree = RedBlackTree::new();
    b_tree.insert(55);
    b_tree.insert(60);
    b_tree.insert(25);
    b_tree.insert(12);
    b_tree.insert(66);
    b_tree.insert(55);
    b_tree.insert(54);

    let expected_order = vec![55, 25, 60, 12, 54, 55, 66];
    verify_tree_bfs(&b_tree, expected_order);
}

#[test]
fn right_subtree_with_root_rotation() {
    let mut b_tree = RedBlackTree::new();
    b_tree.insert(42);
    b_tree.insert(25);
    b_tree.insert(60);
    b_tree.insert(66);
    b_tree.insert(50);
    b_tree.insert(41);
    b_tree.insert(12);
    b_tree.insert(69);
    b_tree.insert(54);
    b_tree.insert(55);
    b_tree.insert(56);

    let expected_order = vec![54, 42, 60, 25, 50, 55, 66, 12, 41, 56, 69];
    verify_tree_bfs(&b_tree, expected_order)
}

#[test]
fn right_subtree_rl_case() {
    let mut b_tree = RedBlackTree::new();
    b_tree.insert(42);
    b_tree.insert(25);
    b_tree.insert(60);
    b_tree.insert(66);
    b_tree.insert(50);
    b_tree.insert(41);
    b_tree.insert(12);
    b_tree.insert(69);
    b_tree.insert(54);
    b_tree.insert(55);
    b_tree.insert(49);

    let expected_order = vec![54, 42, 60, 25, 50, 55, 66, 12, 41, 49, 69];
    verify_tree_bfs(&b_tree, expected_order);
}

#[test]
fn left_subtree_with_root_rotation() {
    let mut b_tree = RedBlackTree::new();
    b_tree.insert(42);
    b_tree.insert(25);
    b_tree.insert(60);
    b_tree.insert(66);
    b_tree.insert(50);
    b_tree.insert(41);
    b_tree.insert(12);
    b_tree.insert(15);
    b_tree.insert(17);
    b_tree.insert(22);

    let expected_order = vec![25, 15, 42, 12, 17, 41, 60, 22, 50, 66];
    verify_tree_bfs(&b_tree, expected_order);
}

#[test]
fn rb_tree_tests_find_items() {
    let mut b_tree = RedBlackTree::new();
    b_tree.insert(42);
    b_tree.insert(25);
    b_tree.insert(60);
    b_tree.insert(66);
    b_tree.insert(50);
    b_tree.insert(41);
    b_tree.insert(12);
    b_tree.insert(15);
    b_tree.insert(17);
    b_tree.insert(22);

    assert_eq!(b_tree.contains(42), true);
    assert_eq!(b_tree.contains(25), true);
    assert_eq!(b_tree.contains(60), true);
    assert_eq!(b_tree.contains(66), true);
    assert_eq!(b_tree.contains(50), true);
    assert_eq!(b_tree.contains(50), true);
    assert_eq!(b_tree.contains(41), true);
    assert_eq!(b_tree.contains(12), true);
    assert_eq!(b_tree.contains(15), true);
    assert_eq!(b_tree.contains(22), true);
    assert_eq!(b_tree.contains(59), false);
}
