use derpy::red_black_tree::RedBlackTree;

#[test]
fn red_black_tree_tests_test_instantiation() {
    let _rb_tree: RedBlackTree = RedBlackTree::new();
}

#[test]
fn red_black_tree_tests_test_insert_root_node() {
    let mut rb_tree = RedBlackTree::new();
    rb_tree.insert(42);
}

#[test]
fn test_get_size_after_instert() {
    let mut rb_tree = RedBlackTree::new();
    rb_tree.insert(55);
    assert_eq!(rb_tree.get_size(), 1);

    rb_tree.insert(55);
    assert_eq!(rb_tree.get_size(), 2);
}
