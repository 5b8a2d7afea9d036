//! The public plain binary search tree: a thin wrapper over the engine that
//! keeps the ordering invariant and exposes contracts over the model tree.

use vstd::prelude::*;

use crate::arena_store::arena_view;
use crate::base_tree::InternalBinarySearchTree;
use crate::laws::lemma_insert_bst;
use crate::laws::lemma_remove;
use crate::model::KeyTree;
use crate::model::bst_ok;
use crate::model::level_order;
use crate::model::preorder;
use crate::model::tree_insert;
use crate::model::tree_remove;
use crate::model::tree_search;
use crate::model::tree_size;
use crate::node::Color;
use crate::node::Node;
use crate::rep::lemma_find_h;
use crate::tree_errs::NodeNotFoundErr;

verus! {

/// An unbalanced binary search tree over `u64` keys; duplicate keys are
/// permitted and route right. Its abstract value is the model tree `self@`.
pub struct BinarySearchTree {
    tree: InternalBinarySearchTree,
}

impl View for BinarySearchTree {
    type V = KeyTree;

    closed spec fn view(&self) -> KeyTree {
        self.tree.shape@
    }
}

impl BinarySearchTree {
    /// The tree is laid out well in its arena and satisfies the ordering
    /// invariant; every operation preserves this.
    pub closed spec fn wf(self) -> bool {
        &&& self.tree.wf()
        &&& bst_ok(self.tree.shape@)
    }

    /// An empty tree.
    pub fn new() -> (r: Self)
        ensures
            r.wf(),
            r@ == KeyTree::Leaf,
    {
        BinarySearchTree { tree: InternalBinarySearchTree::new() }
    }

    /// The number of nodes currently stored.
    pub fn get_size(&self) -> (n: usize)
        requires
            self.wf(),
        ensures
            n == tree_size(self@),
    {
        self.tree.len()
    }

    /// Insert `val` at the first empty link along the comparison walk; always
    /// succeeds, ties go right.
    pub fn insert(&mut self, val: u64)
        requires
            old(self).wf(),
            tree_size(old(self)@) < usize::MAX,
        ensures
            final(self).wf(),
            final(self)@ == tree_insert(old(self)@, val, Color::Red),
    {
        let new_leaf = Node { key: val, color: Color::Red, left: None, right: None, parent: None };
        let _ = self.tree.insert_node(new_leaf);
        proof {
            lemma_insert_bst(old(self).tree.shape@, val, Color::Red);
        }
    }

    /// Whether some node holds `item`.
    pub fn contains(&self, item: u64) -> (r: bool)
        requires
            self.wf(),
        ensures
            r == tree_search(self@, item),
    {
        self.tree.find_node_index(item).is_some()
    }

    /// Remove the first node that the comparison walk for `item` finds.
    /// Succeeds exactly when the key is present; an absent key returns
    /// `NodeNotFoundErr` and leaves the tree untouched.
    pub fn remove(&mut self, item: u64) -> (r: Result<(), NodeNotFoundErr>)
        requires
            old(self).wf(),
        ensures
            final(self).wf(),
            r is Ok <==> tree_search(old(self)@, item),
            tree_search(old(self)@, item) ==> final(self)@ == tree_remove(old(self)@, item),
            !tree_search(old(self)@, item) ==> *final(self) == *old(self),
    {
        let found = self.tree.find_node_index(item);
        match found {
            None => Err(NodeNotFoundErr),
            Some(node_idx) => {
                proof {
                    lemma_find_h(
                        arena_view(self.tree.nodes),
                        self.tree.root,
                        self.tree.shape@,
                        None,
                        item,
                    );
                    lemma_remove(self.tree.shape@, item);
                }
                self.tree.remove_node(node_idx);
                Ok(())
            }
        }
    }

    /// The keys in depth-first pre-order.
    pub fn dfs_iter(&self) -> (r: Vec<u64>)
        requires
            self.wf(),
        ensures
            r@ == preorder(self@),
    {
        self.tree.dfs_keys()
    }

    /// The keys in breadth-first (level) order.
    pub fn bfs_iter(&self) -> (r: Vec<u64>)
        requires
            self.wf(),
        ensures
            r@ == level_order(self@),
    {
        self.tree.bfs_keys()
    }
}

} // verus!
