//! The red-black variant: the same engine, plus the insertion fixup that
//! restores balance by recoloring and rotation. Colors live in the node
//! records; absent links count as Black.

use vstd::prelude::*;

use crate::arena_store::arena_get;
use crate::arena_store::arena_set;
use crate::arena_store::arena_view;
use crate::base_tree::InternalBinarySearchTree;
use crate::laws::lemma_bst_update_at;
use crate::laws::lemma_insert_keys;
use crate::laws::lemma_insert_weak;
use crate::laws::lemma_no_red_red_cut;
use crate::laws::lemma_no_red_red_graft;
use crate::laws::lemma_no_red_red_recolor_black;
use crate::laws::lemma_no_red_red_subtree;
use crate::laws::lemma_recolor_bst;
use crate::laws::lemma_remove_weak;
use crate::laws::lemma_rotate_left_bst;
use crate::laws::lemma_rotate_right_bst;
use crate::laws::lemma_size_keys;
use crate::model::KeyTree;
use crate::model::bst_weak;
use crate::model::child_of;
use crate::model::color_of;
use crate::model::no_red_red;
use crate::model::no_red_red_except;
use crate::model::insert_path;
use crate::model::level_order;
use crate::model::lemma_insert_cut;
use crate::model::lemma_subtree_update;
use crate::model::lemma_subtree_update_suffix;
use crate::model::lemma_update_override;
use crate::model::lemma_update_self;
use crate::model::lemma_valid_prefix;
use crate::model::preorder;
use crate::model::recolor;
use crate::model::root_black;
use crate::model::rotate_left_spec;
use crate::model::rotate_right_spec;
use crate::model::subtree_at;
use crate::model::tree_keys;
use crate::model::tree_remove;
use crate::model::tree_search;
use crate::model::tree_size;
use crate::model::update_at;
use crate::model::valid_path;
use crate::node::Color;
use crate::node::Handle;
use crate::node::Node;
use crate::rep::color_opt;
use crate::rep::handle_at;
use crate::rep::hset;
use crate::rep::lemma_at_path;
use crate::rep::lemma_find_h;
use crate::rep::lemma_handle_at_append;
use crate::rep::lemma_rep_frame;
use crate::rep::lemma_rep_in_dom;
use crate::rep::lemma_update_at;
use crate::rep::path_parent;
use crate::rep::rep;
use crate::rep::uniq;
use crate::tree_errs::NodeNotFoundErr;

verus! {

/// A self-balancing binary search tree over `u64` keys: the engine's tree
/// with the red-black insertion fixup layered on top. Duplicate keys are
/// permitted and route right on insertion; because rotations may carry an
/// equal key into a left subtree, the tree maintains the non-strict ordering
/// invariant, under which membership search stays exact.
pub struct RedBlackTree {
    bst: InternalBinarySearchTree,
}

impl View for RedBlackTree {
    type V = KeyTree;

    closed spec fn view(&self) -> KeyTree {
        self.bst.shape@
    }
}

impl RedBlackTree {
    /// The tree is laid out well in its arena, keeps the non-strict ordering
    /// invariant, and has a Black root.
    pub closed spec fn wf(self) -> bool {
        &&& self.bst.wf()
        &&& bst_weak(self.bst.shape@)
        &&& root_black(self.bst.shape@)
    }

    /// An empty tree.
    pub fn new() -> (r: Self)
        ensures
            r.wf(),
            r@ == KeyTree::Leaf,
            crate::model::rb_invariant(r@),
    {
        RedBlackTree { bst: InternalBinarySearchTree::new() }
    }

    /// The number of nodes currently stored.
    pub fn get_size(&self) -> (n: usize)
        requires
            self.wf(),
        ensures
            n == tree_size(self@),
    {
        self.bst.len()
    }

    /// Whether some node holds `item`; exact even in the presence of
    /// duplicates moved by rotations.
    pub fn contains(&self, item: u64) -> (r: bool)
        requires
            self.wf(),
        ensures
            r == tree_search(self@, item),
            r == tree_keys(self@).contains(item),
    {
        proof {
            crate::laws::lemma_search_member_weak(self.bst.shape@, item);
        }
        self.bst.find_node_index(item).is_some()
    }

    /// Remove the first node the comparison walk for `item` finds, by the
    /// plain structural delete, then recolor the root Black. The full
    /// red-black deletion rebalance is not provided: after a removal the
    /// root-Black and ordering clauses still hold, but black-height balance
    /// is not restored.
    pub fn remove(&mut self, item: u64) -> (r: Result<(), NodeNotFoundErr>)
        requires
            old(self).wf(),
        ensures
            final(self).wf(),
            r is Ok <==> tree_search(old(self)@, item),
            tree_search(old(self)@, item) ==> final(self)@ == recolor(
                tree_remove(old(self)@, item),
                Color::Black,
            ),
            !tree_search(old(self)@, item) ==> *final(self) == *old(self),
    {
        let found = self.bst.find_node_index(item);
        match found {
            None => Err(NodeNotFoundErr),
            Some(node_idx) => {
                proof {
                    lemma_find_h(
                        arena_view(self.bst.nodes),
                        self.bst.root,
                        self.bst.shape@,
                        None,
                        item,
                    );
                    lemma_remove_weak(self.bst.shape@, item);
                }
                self.bst.remove_node(node_idx);
                proof {
                    lemma_recolor_bst(self.bst.shape@, Color::Black);
                }
                match self.bst.root {
                    None => {
                        proof {
                            assert(self.bst.shape@ is Leaf);
                        }
                    }
                    Some(r0) => {
                        proof {
                            assert(self.bst.shape@ is Branch);
                        }
                        self.set_node_color(r0, Color::Black, Ghost(Seq::empty()));
                    }
                }
                Ok(())
            }
        }
    }

    /// Insert `item`: the engine's structural insert of a Red leaf, followed
    /// by the fixup walk from the new node. Always succeeds; ties go right.
    /// On a tree that satisfies the red-black color discipline the fixup
    /// restores it, so by induction from `new` it holds after any sequence
    /// of inserts.
    pub fn insert(&mut self, item: u64)
        requires
            old(self).wf(),
            tree_size(old(self)@) < usize::MAX,
        ensures
            final(self).wf(),
            tree_keys(final(self)@) == tree_keys(old(self)@).insert(item),
            tree_size(final(self)@) == tree_size(old(self)@) + 1,
            no_red_red(old(self)@) ==> no_red_red(final(self)@),
            crate::model::rb_invariant(old(self)@) ==> crate::model::rb_invariant(final(self)@),
    {
        let leaf = Node { key: item, color: Color::Red, left: None, right: None, parent: None };
        let ghost t0 = self.bst.shape@;
        let new_leaf_idx = self.bst.insert_node(leaf);
        let ghost t1 = self.bst.shape@;
        proof {
            lemma_insert_keys(t0, item, Color::Red);
            lemma_insert_weak(t0, item, Color::Red);
            crate::model::lemma_insert_path(t0, item, Color::Red);
            if insert_path(t0, item).len() >= 1 {
                assert(t0 is Branch);
                assert(root_black(t1));
            }
            if no_red_red(t0) {
                lemma_insert_cut(t0, item, Color::Red);
                assert(no_red_red(update_at(t1, insert_path(t0, item), KeyTree::Leaf)));
                assert(no_red_red(KeyTree::Leaf));
                assert(no_red_red(subtree_at(t1, insert_path(t0, item))));
                assert(no_red_red_except(t1, insert_path(t0, item)));
                if crate::model::balanced_black(t0) {
                    crate::laws::lemma_insert_balanced(t0, item);
                    assert(crate::model::balanced_black(t1));
                }
            }
        }
        self.recolor_nodes(new_leaf_idx, Ghost(insert_path(t0, item)));
        proof {
            lemma_size_keys(self.bst.shape@);
            lemma_size_keys(t0);
        }
    }

    /// The insertion fixup, walking upward from the node the path `p` leads
    /// to. A node that reaches the root is colored Black; a Black parent (or
    /// node) needs nothing; a Red parent with a Red uncle pushes the
    /// grandparent's blackness down and continues from the grandparent; a
    /// Red parent with a Black or absent uncle is resolved by one rotation
    /// (same-side shapes) or two (opposite-side shapes) and a color swap
    /// between the old grandparent and the node that took its place.
    #[verifier::rlimit(100)]
    #[verifier::spinoff_prover]
    fn recolor_nodes(&mut self, node_idx: Handle, Ghost(p): Ghost<Seq<bool>>)
        requires
            old(self).bst.wf(),
            bst_weak(old(self).bst.shape@),
            valid_path(old(self).bst.shape@, p),
            subtree_at(old(self).bst.shape@, p) is Branch,
            handle_at(
                arena_view(old(self).bst.nodes),
                old(self).bst.root,
                old(self).bst.shape@,
                p,
            ) == Some(node_idx),
            p.len() >= 1 ==> root_black(old(self).bst.shape@),
        ensures
            final(self).bst.wf(),
            bst_weak(final(self).bst.shape@),
            root_black(final(self).bst.shape@),
            tree_keys(final(self).bst.shape@) == tree_keys(old(self).bst.shape@),
            no_red_red_except(old(self).bst.shape@, p) ==> no_red_red(final(self).bst.shape@),
            no_red_red_except(old(self).bst.shape@, p) && crate::model::balanced_black(
                old(self).bst.shape@,
            ) ==> crate::model::balanced_black(final(self).bst.shape@),
        decreases 3 * p.len() + 2,
    {
        let ghost t0 = self.bst.shape@;
        let ghost m0 = arena_view(self.bst.nodes);
        proof {
            lemma_at_path(m0, self.bst.root, t0, None, p);
        }
        let is_root = match self.bst.root {
            Some(r) => r == node_idx,
            None => false,
        };
        if is_root {
            proof {
                assert(p.len() == 0);
                assert(subtree_at(t0, p) == t0);
            }
            self.set_node_color(node_idx, Color::Black, Ghost(p));
            proof {
                lemma_recolor_bst(t0, Color::Black);
                assert(self.bst.shape@ == recolor(t0, Color::Black));
                if no_red_red_except(t0, p) {
                    assert(no_red_red(t0));
                    lemma_no_red_red_recolor_black(t0);
                    if crate::model::balanced_black(t0) {
                        crate::laws::lemma_balanced_recolor(t0, Color::Black);
                    }
                }
            }
            return ;
        }
        proof {
            assert(p.len() >= 1);
        }
        let node = arena_get(&self.bst.nodes, node_idx);
        let ghost q = p.drop_last();
        proof {
            lemma_valid_prefix(t0, p);
            lemma_at_path(m0, self.bst.root, t0, None, q);
            assert(node.parent == handle_at(m0, self.bst.root, t0, q));
        }
        let parent_idx_opt = node.parent;
        let parent_color = self.get_node_color(parent_idx_opt);
        let node_color = self.get_node_color(Some(node_idx));
        proof {
            // the colors the walk reads are the model's colors
            assert(node_color == color_of(subtree_at(t0, p)));
            assert(subtree_at(t0, q) is Branch);
            assert(handle_at(m0, self.bst.root, t0, q) is Some);
            assert(parent_color == color_of(subtree_at(t0, q)));
        }
        if parent_color == Color::Black || node_color == Color::Black {
            proof {
                if no_red_red_except(t0, p) {
                    lemma_no_red_red_graft(t0, p, subtree_at(t0, p));
                    lemma_update_self(t0, p);
                    assert(no_red_red(t0));
                }
            }
            return ;
        }
        proof {
            if p.len() == 1 {
                assert(q.len() == 0);
                assert(handle_at(m0, self.bst.root, t0, q) == self.bst.root);
                assert(root_black(t0));
                assert(color_opt(m0, self.bst.root) == Color::Black);
                assert(false);
            }
            assert(q.len() >= 1);
            lemma_valid_prefix(t0, q);
            lemma_at_path(m0, self.bst.root, t0, None, q.drop_last());
        }
        let parent_idx = match parent_idx_opt {
            Some(x) => x,
            None => {
                proof {
                    assert(false);
                }
                node_idx
            },
        };
        let parent_node = arena_get(&self.bst.nodes, parent_idx);
        let ghost qq = q.drop_last();
        let ghost xqq = subtree_at(t0, qq);
        proof {
            assert(parent_node.parent == handle_at(m0, self.bst.root, t0, qq));
        }
        let grandparent_idx = match parent_node.parent {
            Some(x) => x,
            None => {
                proof {
                    assert(false);
                }
                node_idx
            },
        };
        let grandparent_node = arena_get(&self.bst.nodes, grandparent_idx);
        let (parent_is_left, uncle_idx_opt) = match grandparent_node.left {
            Some(x) => if x == parent_idx {
                (true, grandparent_node.right)
            } else {
                (false, grandparent_node.left)
            },
            None => (false, grandparent_node.left),
        };
        proof {
            crate::rep::lemma_parent_link(m0, self.bst.root, t0, None, q);
            assert((if q.last() {
                m0[grandparent_idx].right
            } else {
                m0[grandparent_idx].left
            }) == Some(parent_idx));
            assert(rep(m0, Some(grandparent_idx), xqq, path_parent(m0, self.bst.root, t0, None, qq)));
            assert(uniq(m0, Some(grandparent_idx), xqq));
            // the side the parent hangs off is the path's last step
            if parent_is_left != (q.last() == false) {
                let ghost (gl, gr) = match xqq {
                    KeyTree::Leaf => (KeyTree::Leaf, KeyTree::Leaf),
                    KeyTree::Branch { left, right, .. } => (*left, *right),
                };
                assert(rep(m0, m0[grandparent_idx].left, gl, Some(grandparent_idx)));
                assert(rep(m0, m0[grandparent_idx].right, gr, Some(grandparent_idx)));
                if q.last() {
                    assert(m0[grandparent_idx].left == Some(parent_idx));
                    assert(hset(m0, m0[grandparent_idx].left, gl).contains(parent_idx));
                    assert(hset(m0, m0[grandparent_idx].right, gr).contains(parent_idx));
                    assert(false);
                } else {
                    assert(m0[grandparent_idx].left == Some(parent_idx));
                    assert(false);
                }
            }
            assert(uncle_idx_opt == (if q.last() {
                m0[grandparent_idx].left
            } else {
                m0[grandparent_idx].right
            }));
            if let Some(u) = uncle_idx_opt {
                let ghost (gl, gr) = match xqq {
                    KeyTree::Leaf => (KeyTree::Leaf, KeyTree::Leaf),
                    KeyTree::Branch { left, right, .. } => (*left, *right),
                };
                assert(rep(m0, m0[grandparent_idx].left, gl, Some(grandparent_idx)));
                assert(rep(m0, m0[grandparent_idx].right, gr, Some(grandparent_idx)));
                assert(m0.contains_key(u));
            }
        }
        let uncle_color = self.get_node_color(uncle_idx_opt);
        match uncle_color {
            Color::Red => {
                // the grandparent's blackness is pushed down to both children
                proof {
                    assert(uncle_idx_opt is Some);
                    assert(m0[grandparent_idx].left is Some);
                    assert(m0[grandparent_idx].right is Some);
                }
                self.push_blackness(grandparent_idx, Ghost(qq));
                let ghost s1 = crate::model::push_blackness_down(xqq);
                proof {
                    crate::laws::lemma_push_blackness_bst(xqq);
                    crate::laws::lemma_bst_weak_subtree(t0, qq);
                    lemma_bst_update_at(t0, qq, s1);
                    lemma_subtree_update(t0, qq, s1);
                    if qq.len() >= 1 {
                        assert(root_black(self.bst.shape@));
                    }
                    if no_red_red_except(t0, p) {
                        let cutp = update_at(t0, p, KeyTree::Leaf);
                        let suf = seq![q.last(), p.last()];
                        assert(p =~= qq + suf);
                        lemma_subtree_update(t0, p, KeyTree::Leaf);
                        lemma_valid_prefix(cutp, p);
                        lemma_valid_prefix(cutp, p.drop_last());
                        lemma_subtree_update_suffix(t0, qq, suf, KeyTree::Leaf);
                        lemma_no_red_red_subtree(cutp, qq);
                        let gcut = update_at(xqq, suf, KeyTree::Leaf);
                        assert(subtree_at(cutp, qq) == gcut);
                        assert(no_red_red(gcut));
                        assert(suf[0] == q.last());
                        assert(suf.drop_first() =~= seq![p.last()]);
                        let psub = subtree_at(t0, q);
                        assert(child_of(xqq, q.last()) == psub);
                        let pcut = update_at(psub, seq![p.last()], KeyTree::Leaf);
                        let usub = child_of(xqq, !q.last());
                        crate::laws::lemma_update_child(xqq, suf, KeyTree::Leaf);
                        assert(child_of(gcut, q.last()) == pcut);
                        assert(child_of(gcut, !q.last()) == usub);
                        crate::laws::lemma_no_red_red_children(gcut);
                        assert(no_red_red(pcut));
                        assert(no_red_red(usub));
                        assert(color_of(psub) == Color::Red);
                        crate::laws::lemma_update_child(psub, seq![p.last()], KeyTree::Leaf);
                        assert(color_of(pcut) == Color::Red);
                        assert(color_of(gcut) == color_of(xqq));
                        assert(color_of(xqq) == Color::Black);
                        let nodesub = subtree_at(t0, p);
                        assert(no_red_red(nodesub));
                        assert(seq![p.last()][0] == p.last());
                        assert(seq![p.last()].drop_first() =~= Seq::<bool>::empty());
                        assert(child_of(pcut, p.last()) == KeyTree::Leaf);
                        crate::laws::lemma_no_red_red_children(pcut);
                        let sib = child_of(psub, !p.last());
                        assert(child_of(pcut, !p.last()) == sib);
                        assert(no_red_red(sib));
                        assert(no_red_red(child_of(psub, p.last())));
                        assert(no_red_red(child_of(psub, false)) && no_red_red(
                            child_of(psub, true),
                        ));
                        assert(no_red_red(recolor(psub, Color::Black)));
                        lemma_no_red_red_recolor_black(usub);
                        assert(no_red_red(recolor(child_of(xqq, false), Color::Black))
                            && no_red_red(recolor(child_of(xqq, true), Color::Black)));
                        assert(no_red_red(s1));
                        lemma_update_override(t0, qq, suf, KeyTree::Leaf, KeyTree::Leaf);
                        assert(update_at(cutp, qq, KeyTree::Leaf) == update_at(
                            t0,
                            qq,
                            KeyTree::Leaf,
                        ));
                        lemma_no_red_red_cut(cutp, qq);
                        assert(no_red_red(update_at(t0, qq, KeyTree::Leaf)));
                        assert(qq + Seq::<bool>::empty() =~= qq);
                        lemma_update_override(t0, qq, Seq::empty(), s1, KeyTree::Leaf);
                        assert(update_at(self.bst.shape@, qq, KeyTree::Leaf) == update_at(
                            t0,
                            qq,
                            KeyTree::Leaf,
                        ));
                        assert(no_red_red_except(self.bst.shape@, qq));
                        if crate::model::balanced_black(t0) {
                            crate::laws::lemma_balanced_subtree(t0, qq);
                            assert(crate::model::balanced_black(xqq));
                            assert(crate::model::balanced_black(psub));
                            assert(crate::model::balanced_black(usub));
                            assert(color_of(child_of(xqq, false)) == Color::Red && color_of(
                                child_of(xqq, true),
                            ) == Color::Red);
                            crate::laws::lemma_balanced_recolor(
                                child_of(xqq, false),
                                Color::Black,
                            );
                            crate::laws::lemma_balanced_recolor(child_of(xqq, true), Color::Black);
                            assert(crate::model::black_height(
                                recolor(child_of(xqq, false), Color::Black),
                            ) == crate::model::black_height(child_of(xqq, false)) + 1);
                            assert(crate::model::black_height(
                                recolor(child_of(xqq, true), Color::Black),
                            ) == crate::model::black_height(child_of(xqq, true)) + 1);
                            assert(crate::model::black_height(child_of(xqq, false))
                                == crate::model::black_height(child_of(xqq, true)));
                            assert(crate::model::balanced_black(s1));
                            assert(crate::model::black_height(s1) == crate::model::black_height(
                                xqq,
                            ));
                            crate::laws::lemma_balanced_update(t0, qq, s1);
                            assert(crate::model::balanced_black(self.bst.shape@));
                        }
                    }
                }
                let ghost t1_case = self.bst.shape@;
                self.recolor_nodes(grandparent_idx, Ghost(qq));
                proof {
                    if no_red_red_except(t0, p) {
                        assert(no_red_red_except(t1_case, qq));
                        assert(no_red_red(self.bst.shape@));
                    }
                }
            }
            Color::Black => {
                let node_is_left = match parent_node.left {
                    Some(x) => x == node_idx,
                    None => false,
                };
                proof {
                    crate::rep::lemma_parent_link(m0, self.bst.root, t0, None, p);
                    assert((if p.last() {
                        m0[parent_idx].right
                    } else {
                        m0[parent_idx].left
                    }) == Some(node_idx));
                    let xq = subtree_at(t0, q);
                    assert(rep(m0, Some(parent_idx), xq, path_parent(m0, self.bst.root, t0, None, q)));
                    assert(uniq(m0, Some(parent_idx), xq));
                    if node_is_left != (p.last() == false) {
                        let ghost (pl, pr) = match xq {
                            KeyTree::Leaf => (KeyTree::Leaf, KeyTree::Leaf),
                            KeyTree::Branch { left, right, .. } => (*left, *right),
                        };
                        assert(rep(m0, m0[parent_idx].left, pl, Some(parent_idx)));
                        assert(rep(m0, m0[parent_idx].right, pr, Some(parent_idx)));
                        if p.last() {
                            assert(m0[parent_idx].left == Some(node_idx));
                            assert(hset(m0, m0[parent_idx].left, pl).contains(node_idx));
                            assert(hset(m0, m0[parent_idx].right, pr).contains(node_idx));
                            assert(false);
                        } else {
                            assert(m0[parent_idx].left == Some(node_idx));
                            assert(false);
                        }
                    }
                    assert(root_black(t0));
                    // the uncle is Black, whether absent or present
                    let ghost (gl, gr) = match xqq {
                        KeyTree::Leaf => (KeyTree::Leaf, KeyTree::Leaf),
                        KeyTree::Branch { left, right, .. } => (*left, *right),
                    };
                    assert(rep(m0, m0[grandparent_idx].left, gl, Some(grandparent_idx)));
                    assert(rep(m0, m0[grandparent_idx].right, gr, Some(grandparent_idx)));
                    match uncle_idx_opt {
                        None => {
                            assert(child_of(xqq, !q.last()) is Leaf);
                        }
                        Some(u) => {
                            assert(m0[u].color == color_of(child_of(xqq, !q.last())));
                        }
                    }
                    assert(color_of(child_of(xqq, !q.last())) == Color::Black);
                    assert(node_color == color_of(subtree_at(t0, p)));
                }
                self.resolve_black_uncle(
                    node_idx,
                    parent_idx,
                    grandparent_idx,
                    parent_is_left,
                    node_is_left,
                    Ghost(p),
                );
            }
        }
    }

    /// The Black-uncle half of the fixup: classify the four shapes, rotate
    /// once or twice, swap the colors of the old grandparent and the node
    /// that took its place, and take the walk's final step from there.
    #[verifier::rlimit(100)]
    #[verifier::spinoff_prover]
    fn resolve_black_uncle(
        &mut self,
        node_idx: Handle,
        parent_idx: Handle,
        grandparent_idx: Handle,
        parent_is_left: bool,
        node_is_left: bool,
        Ghost(p): Ghost<Seq<bool>>,
    )
        requires
            old(self).bst.wf(),
            bst_weak(old(self).bst.shape@),
            valid_path(old(self).bst.shape@, p),
            subtree_at(old(self).bst.shape@, p) is Branch,
            handle_at(
                arena_view(old(self).bst.nodes),
                old(self).bst.root,
                old(self).bst.shape@,
                p,
            ) == Some(node_idx),
            p.len() >= 2,
            root_black(old(self).bst.shape@),
            handle_at(
                arena_view(old(self).bst.nodes),
                old(self).bst.root,
                old(self).bst.shape@,
                p.drop_last(),
            ) == Some(parent_idx),
            handle_at(
                arena_view(old(self).bst.nodes),
                old(self).bst.root,
                old(self).bst.shape@,
                p.drop_last().drop_last(),
            ) == Some(grandparent_idx),
            color_of(subtree_at(old(self).bst.shape@, p)) == Color::Red,
            color_of(subtree_at(old(self).bst.shape@, p.drop_last())) == Color::Red,
            color_of(
                child_of(
                    subtree_at(old(self).bst.shape@, p.drop_last().drop_last()),
                    !p.drop_last().last(),
                ),
            ) == Color::Black,
            parent_is_left == (p.drop_last().last() == false),
            node_is_left == (p.last() == false),
        ensures
            final(self).bst.wf(),
            bst_weak(final(self).bst.shape@),
            root_black(final(self).bst.shape@),
            tree_keys(final(self).bst.shape@) == tree_keys(old(self).bst.shape@),
            no_red_red_except(old(self).bst.shape@, p) ==> no_red_red(final(self).bst.shape@),
            no_red_red_except(old(self).bst.shape@, p) && crate::model::balanced_black(
                old(self).bst.shape@,
            ) ==> crate::model::balanced_black(final(self).bst.shape@),
        decreases 3 * p.len() + 1,
    {
        let ghost t0 = self.bst.shape@;
        let ghost m0 = arena_view(self.bst.nodes);
        let ghost q = p.drop_last();
        let ghost qq = q.drop_last();
        let ghost xqq = subtree_at(t0, qq);
        proof {
            lemma_at_path(m0, self.bst.root, t0, None, p);
            lemma_valid_prefix(t0, p);
            lemma_at_path(m0, self.bst.root, t0, None, q);
            lemma_valid_prefix(t0, q);
            lemma_at_path(m0, self.bst.root, t0, None, qq);
            crate::rep::lemma_parent_link(m0, self.bst.root, t0, None, q);
            assert((if q.last() {
                m0[grandparent_idx].right
            } else {
                m0[grandparent_idx].left
            }) == Some(parent_idx));
            crate::rep::lemma_parent_link(m0, self.bst.root, t0, None, p);
            assert((if p.last() {
                m0[parent_idx].right
            } else {
                m0[parent_idx].left
            }) == Some(node_idx));
        }
                let ghost cutp = update_at(t0, p, KeyTree::Leaf);
                let ghost psub = subtree_at(t0, q);
                let ghost nodesub = subtree_at(t0, p);
                let ghost usub = child_of(xqq, !q.last());
                let ghost sib = child_of(psub, !p.last());
                let ghost pcut = update_at(psub, seq![p.last()], KeyTree::Leaf);
                let ghost suf = seq![q.last(), p.last()];
                proof {
                    if no_red_red_except(t0, p) {
                        assert(p =~= qq + suf);
                        lemma_subtree_update(t0, p, KeyTree::Leaf);
                        lemma_valid_prefix(cutp, p);
                        lemma_valid_prefix(cutp, p.drop_last());
                        lemma_subtree_update_suffix(t0, qq, suf, KeyTree::Leaf);
                        lemma_no_red_red_subtree(cutp, qq);
                        let gcut = update_at(xqq, suf, KeyTree::Leaf);
                        assert(subtree_at(cutp, qq) == gcut);
                        assert(no_red_red(gcut));
                        assert(suf[0] == q.last());
                        assert(suf.drop_first() =~= seq![p.last()]);
                        assert(child_of(xqq, q.last()) == psub);
                        crate::laws::lemma_update_child(xqq, suf, KeyTree::Leaf);
                        assert(child_of(gcut, q.last()) == pcut);
                        assert(child_of(gcut, !q.last()) == usub);
                        crate::laws::lemma_no_red_red_children(gcut);
                        assert(no_red_red(pcut));
                        assert(no_red_red(usub));
                        assert(color_of(psub) == Color::Red);
                        assert(color_of(nodesub) == Color::Red);
                        crate::laws::lemma_update_child(psub, seq![p.last()], KeyTree::Leaf);
                        assert(color_of(pcut) == Color::Red);
                        assert(color_of(gcut) == color_of(xqq));
                        assert(color_of(xqq) == Color::Black);
                        assert(no_red_red(nodesub));
                        crate::laws::lemma_no_red_red_children(nodesub);
                        assert(seq![p.last()][0] == p.last());
                        assert(seq![p.last()].drop_first() =~= Seq::<bool>::empty());
                        assert(child_of(pcut, p.last()) == KeyTree::Leaf);
                        crate::laws::lemma_no_red_red_children(pcut);
                        assert(child_of(pcut, !p.last()) == sib);
                        assert(no_red_red(sib));
                        assert(color_of(sib) == Color::Black);
                        assert(color_of(usub) == Color::Black);
                        // the red-red check cut out above the grandparent
                        lemma_update_override(t0, qq, suf, KeyTree::Leaf, KeyTree::Leaf);
                        assert(update_at(cutp, qq, KeyTree::Leaf) == update_at(
                            t0,
                            qq,
                            KeyTree::Leaf,
                        ));
                        lemma_no_red_red_cut(cutp, qq);
                        assert(no_red_red(update_at(t0, qq, KeyTree::Leaf)));
                    }
                }
                match (parent_is_left, node_is_left) {
                    (true, true) => {
                        proof {
                            assert(q.last() == false);
                            crate::laws::lemma_bst_weak_subtree(t0, qq);
                            lemma_rotate_right_bst(xqq);
                            assert(child_of(xqq, false) == subtree_at(t0, q));
                            assert(rotate_right_spec(xqq) is Branch);
                        }
                        self.rotate_node_right(parent_idx, Ghost(q));
                        let ghost t1 = self.bst.shape@;
                        proof {
                            lemma_bst_update_at(t0, qq, rotate_right_spec(xqq));
                            lemma_subtree_update(t0, qq, rotate_right_spec(xqq));
                            assert(arena_view(self.bst.nodes).contains_key(parent_idx));
                            assert(arena_view(self.bst.nodes).contains_key(grandparent_idx));
                        }
                        let c_top = self.get_node_color(Some(parent_idx));
                        let c_g = self.get_node_color(Some(grandparent_idx));
                        proof {
                            assert(arena_view(self.bst.nodes)[parent_idx].right == Some(
                                grandparent_idx,
                            ));
                        }
                        proof {
                            let mcur = arena_view(self.bst.nodes);
                            let tcur = self.bst.shape@;
                            assert(child_of(subtree_at(tcur, qq), true) is Branch);
                            if no_red_red_except(t0, p) {
                                lemma_at_path(mcur, self.bst.root, tcur, None, qq);
                                let rr = subtree_at(tcur, qq);
                                assert(rr == rotate_right_spec(xqq));
                                assert(rep(
                                    mcur,
                                    Some(parent_idx),
                                    rr,
                                    path_parent(mcur, self.bst.root, tcur, None, qq),
                                ));
                                assert(mcur[parent_idx].right == Some(grandparent_idx));
                                assert(rep(
                                    mcur,
                                    mcur[parent_idx].right,
                                    child_of(rr, true),
                                    Some(parent_idx),
                                ));
                                assert(mcur[grandparent_idx].color == color_of(child_of(rr, true)));
                                assert(color_of(child_of(rr, true)) == color_of(xqq));
                                assert(c_g == Color::Black);
                                assert(qq + Seq::<bool>::empty() =~= qq);
                                lemma_update_override(
                                    t0,
                                    qq,
                                    Seq::empty(),
                                    rotate_right_spec(xqq),
                                    KeyTree::Leaf,
                                );
                                assert(update_at(tcur, qq, KeyTree::Leaf) == update_at(
                                    t0,
                                    qq,
                                    KeyTree::Leaf,
                                ));
                                assert(child_of(rr, false) == nodesub);
                                assert(child_of(child_of(rr, true), false) == sib);
                                assert(child_of(child_of(rr, true), true) == usub);
                                let inner3 = recolor(child_of(rr, true), c_top);
                                assert(inner3 is Branch);
                                assert(child_of(inner3, false) == sib);
                                assert(child_of(inner3, true) == usub);
                                assert(color_of(inner3) == c_top);
                                assert(no_red_red(inner3));
                                let s3c = crate::model::recolor_top_child(rr, true, c_g, c_top);
                                assert(child_of(s3c, false) == nodesub);
                                assert(child_of(s3c, true) == inner3);
                                assert(color_of(s3c) == c_g);
                                assert(no_red_red(s3c));
                                if crate::model::balanced_black(t0) {
                                    crate::laws::lemma_balanced_subtree(t0, qq);
                                    assert(crate::model::balanced_black(xqq));
                                    assert(crate::model::balanced_black(psub));
                                    assert(crate::model::balanced_black(usub));
                                    assert(crate::model::black_height(psub)
                                        == crate::model::black_height(usub));
                                    assert(crate::model::balanced_black(nodesub));
                                    assert(crate::model::balanced_black(sib));
                                    assert(crate::model::black_height(nodesub)
                                        == crate::model::black_height(sib));
                                    assert(crate::model::black_height(psub)
                                        == crate::model::black_height(nodesub));
                                    assert(c_top == color_of(rr));
                                    assert(c_top == Color::Red);
                                    assert(crate::model::black_height(inner3)
                                        == crate::model::black_height(sib));
                                    assert(crate::model::balanced_black(inner3));
                                    assert(crate::model::balanced_black(s3c));
                                    assert(crate::model::black_height(s3c)
                                        == crate::model::black_height(xqq));
                                    lemma_update_override(
                                        t0,
                                        qq,
                                        Seq::empty(),
                                        rotate_right_spec(xqq),
                                        s3c,
                                    );
                                    assert(update_at(tcur, qq, s3c) == update_at(t0, qq, s3c));
                                    crate::laws::lemma_balanced_update(t0, qq, s3c);
                                    assert(crate::model::balanced_black(
                                        update_at(tcur, qq, s3c),
                                    ));
                                }
                            }
                            if qq.len() == 0 {
                                assert(tcur == rotate_right_spec(t0));
                                crate::model::lemma_extend_path(
                                    tcur,
                                    Seq::<bool>::empty(),
                                    true,
                                );
                                lemma_at_path(mcur, self.bst.root, tcur, None, seq![true]);
                                assert(seq![true].drop_first() =~= Seq::<bool>::empty());
                                assert(seq![true][0] == true);
                                assert(handle_at(
                                    mcur,
                                    if true {
                                        mcur[parent_idx].right
                                    } else {
                                        mcur[parent_idx].left
                                    },
                                    child_of(tcur, true),
                                    Seq::<bool>::empty(),
                                ) == (if true {
                                    mcur[parent_idx].right
                                } else {
                                    mcur[parent_idx].left
                                }));
                                assert(handle_at(mcur, self.bst.root, tcur, seq![true])
                                    == Some(grandparent_idx));
                                assert(c_g == Color::Black);
                            }
                        }
                        self.finish_rotation_case(
                            parent_idx,
                            grandparent_idx,
                            c_g,
                            c_top,
                            Ghost(qq),
                            Ghost(true),
                        );
                    }
                    (false, false) => {
                        proof {
                            assert(q.last() == true);
                            crate::laws::lemma_bst_weak_subtree(t0, qq);
                            lemma_rotate_left_bst(xqq);
                            assert(child_of(xqq, true) == subtree_at(t0, q));
                            assert(rotate_left_spec(xqq) is Branch);
                        }
                        self.rotate_node_left(parent_idx, Ghost(q));
                        let ghost t1 = self.bst.shape@;
                        proof {
                            lemma_bst_update_at(t0, qq, rotate_left_spec(xqq));
                            lemma_subtree_update(t0, qq, rotate_left_spec(xqq));
                            assert(arena_view(self.bst.nodes).contains_key(parent_idx));
                            assert(arena_view(self.bst.nodes).contains_key(grandparent_idx));
                        }
                        let c_top = self.get_node_color(Some(parent_idx));
                        let c_g = self.get_node_color(Some(grandparent_idx));
                        proof {
                            assert(arena_view(self.bst.nodes)[parent_idx].left == Some(
                                grandparent_idx,
                            ));
                        }
                        proof {
                            let mcur = arena_view(self.bst.nodes);
                            let tcur = self.bst.shape@;
                            assert(child_of(subtree_at(tcur, qq), false) is Branch);
                            if no_red_red_except(t0, p) {
                                lemma_at_path(mcur, self.bst.root, tcur, None, qq);
                                let rr = subtree_at(tcur, qq);
                                assert(rr == rotate_left_spec(xqq));
                                assert(rep(
                                    mcur,
                                    Some(parent_idx),
                                    rr,
                                    path_parent(mcur, self.bst.root, tcur, None, qq),
                                ));
                                assert(mcur[parent_idx].left == Some(grandparent_idx));
                                assert(rep(
                                    mcur,
                                    mcur[parent_idx].left,
                                    child_of(rr, false),
                                    Some(parent_idx),
                                ));
                                assert(mcur[grandparent_idx].color == color_of(
                                    child_of(rr, false),
                                ));
                                assert(color_of(child_of(rr, false)) == color_of(xqq));
                                assert(c_g == Color::Black);
                                assert(qq + Seq::<bool>::empty() =~= qq);
                                lemma_update_override(
                                    t0,
                                    qq,
                                    Seq::empty(),
                                    rotate_left_spec(xqq),
                                    KeyTree::Leaf,
                                );
                                assert(update_at(tcur, qq, KeyTree::Leaf) == update_at(
                                    t0,
                                    qq,
                                    KeyTree::Leaf,
                                ));
                                assert(child_of(rr, true) == nodesub);
                                assert(child_of(child_of(rr, false), true) == sib);
                                assert(child_of(child_of(rr, false), false) == usub);
                                let inner3 = recolor(child_of(rr, false), c_top);
                                assert(inner3 is Branch);
                                assert(child_of(inner3, true) == sib);
                                assert(child_of(inner3, false) == usub);
                                assert(color_of(inner3) == c_top);
                                assert(no_red_red(inner3));
                                let s3c = crate::model::recolor_top_child(rr, false, c_g, c_top);
                                assert(child_of(s3c, true) == nodesub);
                                assert(child_of(s3c, false) == inner3);
                                assert(color_of(s3c) == c_g);
                                assert(no_red_red(s3c));
                                if crate::model::balanced_black(t0) {
                                    crate::laws::lemma_balanced_subtree(t0, qq);
                                    assert(crate::model::balanced_black(xqq));
                                    assert(crate::model::balanced_black(psub));
                                    assert(crate::model::balanced_black(usub));
                                    assert(crate::model::black_height(psub)
                                        == crate::model::black_height(usub));
                                    assert(crate::model::balanced_black(nodesub));
                                    assert(crate::model::balanced_black(sib));
                                    assert(crate::model::black_height(nodesub)
                                        == crate::model::black_height(sib));
                                    assert(crate::model::black_height(psub)
                                        == crate::model::black_height(nodesub));
                                    assert(c_top == color_of(rr));
                                    assert(c_top == Color::Red);
                                    assert(crate::model::black_height(inner3)
                                        == crate::model::black_height(usub));
                                    assert(crate::model::balanced_black(inner3));
                                    assert(crate::model::balanced_black(s3c));
                                    assert(crate::model::black_height(s3c)
                                        == crate::model::black_height(xqq));
                                    lemma_update_override(
                                        t0,
                                        qq,
                                        Seq::empty(),
                                        rotate_left_spec(xqq),
                                        s3c,
                                    );
                                    assert(update_at(tcur, qq, s3c) == update_at(t0, qq, s3c));
                                    crate::laws::lemma_balanced_update(t0, qq, s3c);
                                    assert(crate::model::balanced_black(
                                        update_at(tcur, qq, s3c),
                                    ));
                                }
                            }
                            if qq.len() == 0 {
                                assert(tcur == rotate_left_spec(t0));
                                crate::model::lemma_extend_path(
                                    tcur,
                                    Seq::<bool>::empty(),
                                    false,
                                );
                                lemma_at_path(mcur, self.bst.root, tcur, None, seq![false]);
                                assert(seq![false].drop_first() =~= Seq::<bool>::empty());
                                assert(seq![false][0] == false);
                                assert(handle_at(
                                    mcur,
                                    if false {
                                        mcur[parent_idx].right
                                    } else {
                                        mcur[parent_idx].left
                                    },
                                    child_of(tcur, false),
                                    Seq::<bool>::empty(),
                                ) == (if false {
                                    mcur[parent_idx].right
                                } else {
                                    mcur[parent_idx].left
                                }));
                                assert(handle_at(mcur, self.bst.root, tcur, seq![false])
                                    == Some(grandparent_idx));
                                assert(c_g == Color::Black);
                            }
                        }
                        self.finish_rotation_case(
                            parent_idx,
                            grandparent_idx,
                            c_g,
                            c_top,
                            Ghost(qq),
                            Ghost(false),
                        );
                    }
                    (true, false) => {
                        proof {
                            assert(q.last() == false);
                            assert(p.last() == true);
                            let xq = subtree_at(t0, q);
                            crate::laws::lemma_bst_weak_subtree(t0, q);
                            lemma_rotate_left_bst(xq);
                            assert(child_of(xq, true) == subtree_at(t0, p));
                            assert(rotate_left_spec(xq) is Branch);
                        }
                        self.rotate_node_left(node_idx, Ghost(p));
                        let ghost t1 = self.bst.shape@;
                        let ghost m1 = arena_view(self.bst.nodes);
                        proof {
                            lemma_bst_update_at(t0, q, rotate_left_spec(subtree_at(t0, q)));
                            lemma_subtree_update(t0, q, rotate_left_spec(subtree_at(t0, q)));
                            lemma_valid_prefix(t1, q);
                            lemma_at_path(m1, self.bst.root, t1, None, q);
                            lemma_at_path(m1, self.bst.root, t1, None, qq);
                            assert(m1.contains_key(node_idx));
                            assert(m1[node_idx].parent == handle_at(m1, self.bst.root, t1, qq));
                        }
                        let np = arena_get(&self.bst.nodes, node_idx).parent;
                        let gch = match np {
                            Some(x) => x,
                            None => {
                                proof {
                                    assert(false);
                                }
                                node_idx
                            },
                        };
                        proof {
                            crate::laws::lemma_bst_weak_subtree(t1, qq);
                            lemma_rotate_right_bst(subtree_at(t1, qq));
                            assert(child_of(subtree_at(t1, qq), false) == subtree_at(t1, q));
                            assert(rotate_right_spec(subtree_at(t1, qq)) is Branch);
                        }
                        self.rotate_node_right(node_idx, Ghost(q));
                        proof {
                            lemma_bst_update_at(t1, qq, rotate_right_spec(subtree_at(t1, qq)));
                            lemma_subtree_update(t1, qq, rotate_right_spec(subtree_at(t1, qq)));
                            assert(arena_view(self.bst.nodes).contains_key(node_idx));
                            assert(arena_view(self.bst.nodes).contains_key(gch));
                        }
                        let c_top = self.get_node_color(Some(node_idx));
                        let c_g = self.get_node_color(Some(gch));
                        proof {
                            assert(arena_view(self.bst.nodes)[node_idx].right == Some(gch));
                        }
                        proof {
                            let mcur = arena_view(self.bst.nodes);
                            let tcur = self.bst.shape@;
                            assert(child_of(subtree_at(tcur, qq), true) is Branch);
                            if no_red_red_except(t0, p) {
                                lemma_at_path(mcur, self.bst.root, tcur, None, qq);
                                let rr = subtree_at(tcur, qq);
                                assert(q =~= qq + seq![q.last()]);
                                lemma_subtree_update_suffix(
                                    t0,
                                    qq,
                                    seq![q.last()],
                                    rotate_left_spec(psub),
                                );
                                let mid = update_at(xqq, seq![q.last()], rotate_left_spec(psub));
                                assert(subtree_at(t1, qq) == mid);
                                assert(seq![q.last()][0] == q.last());
                                assert(seq![q.last()].drop_first() =~= Seq::<bool>::empty());
                                crate::laws::lemma_update_child(
                                    xqq,
                                    seq![q.last()],
                                    rotate_left_spec(psub),
                                );
                                assert(update_at(psub, Seq::<bool>::empty(), rotate_left_spec(psub))
                                    == rotate_left_spec(psub));
                                assert(child_of(mid, q.last()) == rotate_left_spec(psub));
                                assert(child_of(mid, !q.last()) == usub);
                                assert(color_of(mid) == Color::Black);
                                let rl1 = rotate_left_spec(psub);
                                assert(rl1 is Branch);
                                assert(color_of(rl1) == color_of(nodesub));
                                assert(child_of(rl1, false) is Branch);
                                assert(color_of(child_of(rl1, false)) == Color::Red);
                                assert(child_of(child_of(rl1, false), false) == sib);
                                assert(child_of(child_of(rl1, false), true) == child_of(
                                    nodesub,
                                    false,
                                ));
                                assert(child_of(rl1, true) == child_of(nodesub, true));
                                assert(rr == rotate_right_spec(mid));
                                assert(color_of(rr) == color_of(rl1));
                                assert(child_of(rr, false) == child_of(rl1, false));
                                assert(child_of(rr, true) is Branch);
                                assert(color_of(child_of(rr, true)) == color_of(mid));
                                assert(child_of(child_of(rr, true), false) == child_of(
                                    rl1,
                                    true,
                                ));
                                assert(child_of(child_of(rr, true), true) == usub);
                                assert(rep(
                                    mcur,
                                    Some(node_idx),
                                    rr,
                                    path_parent(mcur, self.bst.root, tcur, None, qq),
                                ));
                                assert(mcur[node_idx].right == Some(gch));
                                assert(rep(
                                    mcur,
                                    mcur[node_idx].right,
                                    child_of(rr, true),
                                    Some(node_idx),
                                ));
                                assert(mcur[gch].color == color_of(child_of(rr, true)));
                                assert(c_g == Color::Black);
                                assert(qq + Seq::<bool>::empty() =~= qq);
                                lemma_update_override(
                                    t1,
                                    qq,
                                    Seq::empty(),
                                    rotate_right_spec(subtree_at(t1, qq)),
                                    KeyTree::Leaf,
                                );
                                lemma_update_override(
                                    t0,
                                    qq,
                                    seq![q.last()],
                                    rotate_left_spec(psub),
                                    KeyTree::Leaf,
                                );
                                assert(update_at(t1, qq, KeyTree::Leaf) == update_at(
                                    t0,
                                    qq,
                                    KeyTree::Leaf,
                                ));
                                assert(update_at(tcur, qq, KeyTree::Leaf) == update_at(
                                    t0,
                                    qq,
                                    KeyTree::Leaf,
                                ));
                                assert(no_red_red(child_of(rr, false)));
                                let inner3 = recolor(child_of(rr, true), c_top);
                                assert(inner3 is Branch);
                                assert(child_of(inner3, false) == child_of(nodesub, true));
                                assert(child_of(inner3, true) == usub);
                                assert(color_of(inner3) == c_top);
                                assert(no_red_red(inner3));
                                let s3c = crate::model::recolor_top_child(rr, true, c_g, c_top);
                                assert(child_of(s3c, false) == child_of(rr, false));
                                assert(child_of(s3c, true) == inner3);
                                assert(color_of(s3c) == c_g);
                                assert(no_red_red(s3c));
                                if crate::model::balanced_black(t0) {
                                    crate::laws::lemma_balanced_subtree(t0, qq);
                                    assert(crate::model::balanced_black(xqq));
                                    assert(crate::model::balanced_black(psub));
                                    assert(crate::model::balanced_black(usub));
                                    assert(crate::model::black_height(psub)
                                        == crate::model::black_height(usub));
                                    assert(crate::model::balanced_black(nodesub));
                                    assert(crate::model::balanced_black(sib));
                                    assert(crate::model::black_height(nodesub)
                                        == crate::model::black_height(sib));
                                    assert(crate::model::black_height(psub)
                                        == crate::model::black_height(nodesub));
                                    assert(c_top == color_of(rr));
                                    assert(c_top == Color::Red);
                                    assert(crate::model::balanced_black(
                                        child_of(nodesub, false),
                                    ) && crate::model::balanced_black(child_of(nodesub, true)));
                                    assert(crate::model::black_height(child_of(nodesub, false))
                                        == crate::model::black_height(child_of(nodesub, true)));
                                    assert(crate::model::black_height(nodesub)
                                        == crate::model::black_height(child_of(nodesub, false)));
                                    let lp = child_of(rr, false);
                                    assert(crate::model::black_height(lp)
                                        == crate::model::black_height(sib));
                                    assert(crate::model::balanced_black(lp));
                                    assert(crate::model::black_height(inner3)
                                        == crate::model::black_height(child_of(nodesub, true)));
                                    assert(crate::model::balanced_black(inner3));
                                    assert(crate::model::balanced_black(s3c));
                                    assert(crate::model::black_height(s3c)
                                        == crate::model::black_height(xqq));
                                    lemma_update_override(
                                        t1,
                                        qq,
                                        Seq::empty(),
                                        rotate_right_spec(subtree_at(t1, qq)),
                                        s3c,
                                    );
                                    lemma_update_override(
                                        t0,
                                        qq,
                                        seq![q.last()],
                                        rotate_left_spec(psub),
                                        s3c,
                                    );
                                    assert(update_at(tcur, qq, s3c) == update_at(t0, qq, s3c));
                                    crate::laws::lemma_balanced_update(t0, qq, s3c);
                                    assert(crate::model::balanced_black(
                                        update_at(tcur, qq, s3c),
                                    ));
                                }
                            }
                            if qq.len() == 0 {
                                assert(tcur == rotate_right_spec(t1));
                                crate::model::lemma_extend_path(
                                    tcur,
                                    Seq::<bool>::empty(),
                                    true,
                                );
                                lemma_at_path(mcur, self.bst.root, tcur, None, seq![true]);
                                assert(seq![true].drop_first() =~= Seq::<bool>::empty());
                                assert(seq![true][0] == true);
                                assert(handle_at(
                                    mcur,
                                    if true {
                                        mcur[node_idx].right
                                    } else {
                                        mcur[node_idx].left
                                    },
                                    child_of(tcur, true),
                                    Seq::<bool>::empty(),
                                ) == (if true {
                                    mcur[node_idx].right
                                } else {
                                    mcur[node_idx].left
                                }));
                                assert(handle_at(mcur, self.bst.root, tcur, seq![true])
                                    == Some(gch));
                                assert(c_g == Color::Black);
                            }
                        }
                        self.finish_rotation_case(
                            node_idx,
                            gch,
                            c_g,
                            c_top,
                            Ghost(qq),
                            Ghost(true),
                        );
                    }
                    (false, true) => {
                        proof {
                            assert(q.last() == true);
                            assert(p.last() == false);
                            let xq = subtree_at(t0, q);
                            crate::laws::lemma_bst_weak_subtree(t0, q);
                            lemma_rotate_right_bst(xq);
                            assert(child_of(xq, false) == subtree_at(t0, p));
                            assert(rotate_right_spec(xq) is Branch);
                        }
                        self.rotate_node_right(node_idx, Ghost(p));
                        let ghost t1 = self.bst.shape@;
                        let ghost m1 = arena_view(self.bst.nodes);
                        proof {
                            lemma_bst_update_at(t0, q, rotate_right_spec(subtree_at(t0, q)));
                            lemma_subtree_update(t0, q, rotate_right_spec(subtree_at(t0, q)));
                            lemma_valid_prefix(t1, q);
                            lemma_at_path(m1, self.bst.root, t1, None, q);
                            lemma_at_path(m1, self.bst.root, t1, None, qq);
                            assert(m1.contains_key(node_idx));
                            assert(m1[node_idx].parent == handle_at(m1, self.bst.root, t1, qq));
                        }
                        let np = arena_get(&self.bst.nodes, node_idx).parent;
                        let gch = match np {
                            Some(x) => x,
                            None => {
                                proof {
                                    assert(false);
                                }
                                node_idx
                            },
                        };
                        proof {
                            crate::laws::lemma_bst_weak_subtree(t1, qq);
                            lemma_rotate_left_bst(subtree_at(t1, qq));
                            assert(child_of(subtree_at(t1, qq), true) == subtree_at(t1, q));
                            assert(rotate_left_spec(subtree_at(t1, qq)) is Branch);
                        }
                        self.rotate_node_left(node_idx, Ghost(q));
                        proof {
                            lemma_bst_update_at(t1, qq, rotate_left_spec(subtree_at(t1, qq)));
                            lemma_subtree_update(t1, qq, rotate_left_spec(subtree_at(t1, qq)));
                            assert(arena_view(self.bst.nodes).contains_key(node_idx));
                            assert(arena_view(self.bst.nodes).contains_key(gch));
                        }
                        let c_top = self.get_node_color(Some(node_idx));
                        let c_g = self.get_node_color(Some(gch));
                        proof {
                            assert(arena_view(self.bst.nodes)[node_idx].left == Some(gch));
                        }
                        proof {
                            let mcur = arena_view(self.bst.nodes);
                            let tcur = self.bst.shape@;
                            assert(child_of(subtree_at(tcur, qq), false) is Branch);
                            if no_red_red_except(t0, p) {
                                lemma_at_path(mcur, self.bst.root, tcur, None, qq);
                                let rr = subtree_at(tcur, qq);
                                assert(q =~= qq + seq![q.last()]);
                                lemma_subtree_update_suffix(
                                    t0,
                                    qq,
                                    seq![q.last()],
                                    rotate_right_spec(psub),
                                );
                                let mid = update_at(xqq, seq![q.last()], rotate_right_spec(psub));
                                assert(subtree_at(t1, qq) == mid);
                                assert(seq![q.last()][0] == q.last());
                                assert(seq![q.last()].drop_first() =~= Seq::<bool>::empty());
                                crate::laws::lemma_update_child(
                                    xqq,
                                    seq![q.last()],
                                    rotate_right_spec(psub),
                                );
                                assert(update_at(
                                    psub,
                                    Seq::<bool>::empty(),
                                    rotate_right_spec(psub),
                                ) == rotate_right_spec(psub));
                                assert(child_of(mid, q.last()) == rotate_right_spec(psub));
                                assert(child_of(mid, !q.last()) == usub);
                                assert(color_of(mid) == Color::Black);
                                let rl1 = rotate_right_spec(psub);
                                assert(rl1 is Branch);
                                assert(color_of(rl1) == color_of(nodesub));
                                assert(child_of(rl1, true) is Branch);
                                assert(color_of(child_of(rl1, true)) == Color::Red);
                                assert(child_of(child_of(rl1, true), true) == sib);
                                assert(child_of(child_of(rl1, true), false) == child_of(
                                    nodesub,
                                    true,
                                ));
                                assert(child_of(rl1, false) == child_of(nodesub, false));
                                assert(rr == rotate_left_spec(mid));
                                assert(color_of(rr) == color_of(rl1));
                                assert(child_of(rr, true) == child_of(rl1, true));
                                assert(child_of(rr, false) is Branch);
                                assert(color_of(child_of(rr, false)) == color_of(mid));
                                assert(child_of(child_of(rr, false), true) == child_of(
                                    rl1,
                                    false,
                                ));
                                assert(child_of(child_of(rr, false), false) == usub);
                                assert(rep(
                                    mcur,
                                    Some(node_idx),
                                    rr,
                                    path_parent(mcur, self.bst.root, tcur, None, qq),
                                ));
                                assert(mcur[node_idx].left == Some(gch));
                                assert(rep(
                                    mcur,
                                    mcur[node_idx].left,
                                    child_of(rr, false),
                                    Some(node_idx),
                                ));
                                assert(mcur[gch].color == color_of(child_of(rr, false)));
                                assert(c_g == Color::Black);
                                assert(qq + Seq::<bool>::empty() =~= qq);
                                lemma_update_override(
                                    t1,
                                    qq,
                                    Seq::empty(),
                                    rotate_left_spec(subtree_at(t1, qq)),
                                    KeyTree::Leaf,
                                );
                                lemma_update_override(
                                    t0,
                                    qq,
                                    seq![q.last()],
                                    rotate_right_spec(psub),
                                    KeyTree::Leaf,
                                );
                                assert(update_at(t1, qq, KeyTree::Leaf) == update_at(
                                    t0,
                                    qq,
                                    KeyTree::Leaf,
                                ));
                                assert(update_at(tcur, qq, KeyTree::Leaf) == update_at(
                                    t0,
                                    qq,
                                    KeyTree::Leaf,
                                ));
                                assert(no_red_red(child_of(rr, true)));
                                let inner3 = recolor(child_of(rr, false), c_top);
                                assert(inner3 is Branch);
                                assert(child_of(inner3, true) == child_of(nodesub, false));
                                assert(child_of(inner3, false) == usub);
                                assert(color_of(inner3) == c_top);
                                assert(no_red_red(inner3));
                                let s3c = crate::model::recolor_top_child(rr, false, c_g, c_top);
                                assert(child_of(s3c, true) == child_of(rr, true));
                                assert(child_of(s3c, false) == inner3);
                                assert(color_of(s3c) == c_g);
                                assert(no_red_red(s3c));
                                if crate::model::balanced_black(t0) {
                                    crate::laws::lemma_balanced_subtree(t0, qq);
                                    assert(crate::model::balanced_black(xqq));
                                    assert(crate::model::balanced_black(psub));
                                    assert(crate::model::balanced_black(usub));
                                    assert(crate::model::black_height(psub)
                                        == crate::model::black_height(usub));
                                    assert(crate::model::balanced_black(nodesub));
                                    assert(crate::model::balanced_black(sib));
                                    assert(crate::model::black_height(nodesub)
                                        == crate::model::black_height(sib));
                                    assert(crate::model::black_height(psub)
                                        == crate::model::black_height(nodesub));
                                    assert(c_top == color_of(rr));
                                    assert(c_top == Color::Red);
                                    assert(crate::model::balanced_black(
                                        child_of(nodesub, false),
                                    ) && crate::model::balanced_black(child_of(nodesub, true)));
                                    assert(crate::model::black_height(child_of(nodesub, false))
                                        == crate::model::black_height(child_of(nodesub, true)));
                                    assert(crate::model::black_height(nodesub)
                                        == crate::model::black_height(child_of(nodesub, false)));
                                    let rp = child_of(rr, true);
                                    assert(crate::model::black_height(rp)
                                        == crate::model::black_height(child_of(nodesub, true)));
                                    assert(crate::model::balanced_black(rp));
                                    assert(crate::model::black_height(inner3)
                                        == crate::model::black_height(usub));
                                    assert(crate::model::balanced_black(inner3));
                                    assert(crate::model::balanced_black(s3c));
                                    assert(crate::model::black_height(s3c)
                                        == crate::model::black_height(xqq));
                                    lemma_update_override(
                                        t1,
                                        qq,
                                        Seq::empty(),
                                        rotate_left_spec(subtree_at(t1, qq)),
                                        s3c,
                                    );
                                    lemma_update_override(
                                        t0,
                                        qq,
                                        seq![q.last()],
                                        rotate_right_spec(psub),
                                        s3c,
                                    );
                                    assert(update_at(tcur, qq, s3c) == update_at(t0, qq, s3c));
                                    crate::laws::lemma_balanced_update(t0, qq, s3c);
                                    assert(crate::model::balanced_black(
                                        update_at(tcur, qq, s3c),
                                    ));
                                }
                            }
                            if qq.len() == 0 {
                                assert(tcur == rotate_left_spec(t1));
                                crate::model::lemma_extend_path(
                                    tcur,
                                    Seq::<bool>::empty(),
                                    false,
                                );
                                lemma_at_path(mcur, self.bst.root, tcur, None, seq![false]);
                                assert(seq![false].drop_first() =~= Seq::<bool>::empty());
                                assert(seq![false][0] == false);
                                assert(handle_at(
                                    mcur,
                                    if false {
                                        mcur[node_idx].right
                                    } else {
                                        mcur[node_idx].left
                                    },
                                    child_of(tcur, false),
                                    Seq::<bool>::empty(),
                                ) == (if false {
                                    mcur[node_idx].right
                                } else {
                                    mcur[node_idx].left
                                }));
                                assert(handle_at(mcur, self.bst.root, tcur, seq![false])
                                    == Some(gch));
                                assert(c_g == Color::Black);
                            }
                        }
                        self.finish_rotation_case(
                            node_idx,
                            gch,
                            c_g,
                            c_top,
                            Ghost(qq),
                            Ghost(false),
                        );
                    }
                }
    }

    /// The tail every rotation case shares: swap the colors of the node now
    /// at `qq` and the old grandparent (its child on side `dir`), then take
    /// the upward walk's final step from the old grandparent, which stops at
    /// once because its new parent is Black.
    fn finish_rotation_case(
        &mut self,
        top_idx: Handle,
        g_idx: Handle,
        c_g: Color,
        c_top: Color,
        Ghost(qq): Ghost<Seq<bool>>,
        Ghost(dir): Ghost<bool>,
    )
        requires
            old(self).bst.wf(),
            bst_weak(old(self).bst.shape@),
            valid_path(old(self).bst.shape@, qq),
            subtree_at(old(self).bst.shape@, qq) is Branch,
            handle_at(
                arena_view(old(self).bst.nodes),
                old(self).bst.root,
                old(self).bst.shape@,
                qq,
            ) == Some(top_idx),
            (if dir {
                arena_view(old(self).bst.nodes)[top_idx].right
            } else {
                arena_view(old(self).bst.nodes)[top_idx].left
            }) == Some(g_idx),
            child_of(subtree_at(old(self).bst.shape@, qq), dir) is Branch,
            c_g == color_opt(arena_view(old(self).bst.nodes), Some(g_idx)),
            c_top == color_opt(arena_view(old(self).bst.nodes), Some(top_idx)),
            qq.len() >= 1 ==> root_black(old(self).bst.shape@),
            qq.len() == 0 ==> c_g == Color::Black,
        ensures
            final(self).bst.wf(),
            bst_weak(final(self).bst.shape@),
            root_black(final(self).bst.shape@),
            tree_keys(final(self).bst.shape@) == tree_keys(old(self).bst.shape@),
            no_red_red(update_at(old(self).bst.shape@, qq, KeyTree::Leaf)) && no_red_red(
                crate::model::recolor_top_child(
                    subtree_at(old(self).bst.shape@, qq),
                    dir,
                    c_g,
                    c_top,
                ),
            ) && c_g == Color::Black ==> no_red_red(final(self).bst.shape@),
            no_red_red(update_at(old(self).bst.shape@, qq, KeyTree::Leaf)) && no_red_red(
                crate::model::recolor_top_child(
                    subtree_at(old(self).bst.shape@, qq),
                    dir,
                    c_g,
                    c_top,
                ),
            ) && c_g == Color::Black && crate::model::balanced_black(
                update_at(
                    old(self).bst.shape@,
                    qq,
                    crate::model::recolor_top_child(
                        subtree_at(old(self).bst.shape@, qq),
                        dir,
                        c_g,
                        c_top,
                    ),
                ),
            ) ==> crate::model::balanced_black(final(self).bst.shape@),
        decreases 3 * qq.len() + 6,
    {
        let ghost t2 = self.bst.shape@;
        self.swap_top_child_colors(top_idx, g_idx, c_g, c_top, Ghost(qq), Ghost(dir));
        let ghost s3 = crate::model::recolor_top_child(subtree_at(t2, qq), dir, c_g, c_top);
        let ghost t3 = self.bst.shape@;
        proof {
            crate::laws::lemma_bst_weak_subtree(t2, qq);
            crate::laws::lemma_recolor_top_child_bst(subtree_at(t2, qq), dir, c_g, c_top);
            lemma_bst_update_at(t2, qq, s3);
            lemma_subtree_update(t2, qq, s3);
            crate::model::lemma_extend_path(t3, qq, dir);
            assert(subtree_at(t3, qq.push(dir)) == child_of(s3, dir));
            assert(child_of(s3, dir) is Branch);
            if qq.len() == 0 {
                assert(t3 == s3);
                assert(root_black(t3));
            } else {
                assert(root_black(t3));
            }
            if no_red_red(update_at(t2, qq, KeyTree::Leaf)) && no_red_red(s3) && c_g
                == Color::Black {
                assert(color_of(s3) == Color::Black);
                lemma_no_red_red_graft(t2, qq, s3);
                assert(no_red_red(t3));
                lemma_no_red_red_cut(t3, qq.push(dir));
                lemma_no_red_red_subtree(t3, qq.push(dir));
                assert(no_red_red_except(t3, qq.push(dir)));
                if crate::model::balanced_black(update_at(t2, qq, s3)) {
                    assert(crate::model::balanced_black(t3));
                }
            }
        }
        self.recolor_nodes(g_idx, Ghost(qq.push(dir)));
    }

    /// The keys in depth-first pre-order.
    pub fn dfs_iter(&self) -> (r: Vec<u64>)
        requires
            self.wf(),
        ensures
            r@ == preorder(self@),
    {
        self.bst.dfs_keys()
    }

    /// The keys in breadth-first (level) order.
    pub fn bfs_iter(&self) -> (r: Vec<u64>)
        requires
            self.wf(),
        ensures
            r@ == level_order(self@),
    {
        self.bst.bfs_keys()
    }

    /// The color of an optional handle: absent links are Black.
    fn get_node_color(&self, node_opt: Option<Handle>) -> (c: Color)
        requires
            node_opt matches Some(h) ==> arena_view(self.bst.nodes).contains_key(h),
        ensures
            c == color_opt(arena_view(self.bst.nodes), node_opt),
    {
        match node_opt {
            None => Color::Black,
            Some(h) => arena_get(&self.bst.nodes, h).color,
        }
    }

    /// The uncle-Red fixup step: color the grandparent (led to by the path
    /// `qq`, with both children present) Red and both of its children Black,
    /// in one structural step.
    fn push_blackness(&mut self, g_idx: Handle, Ghost(qq): Ghost<Seq<bool>>)
        requires
            old(self).bst.wf(),
            valid_path(old(self).bst.shape@, qq),
            subtree_at(old(self).bst.shape@, qq) is Branch,
            handle_at(
                arena_view(old(self).bst.nodes),
                old(self).bst.root,
                old(self).bst.shape@,
                qq,
            ) == Some(g_idx),
            arena_view(old(self).bst.nodes)[g_idx].left is Some,
            arena_view(old(self).bst.nodes)[g_idx].right is Some,
        ensures
            final(self).bst.wf(),
            final(self).bst.shape@ == update_at(
                old(self).bst.shape@,
                qq,
                crate::model::push_blackness_down(subtree_at(old(self).bst.shape@, qq)),
            ),
            final(self).bst.root == old(self).bst.root,
            handle_at(
                arena_view(final(self).bst.nodes),
                final(self).bst.root,
                final(self).bst.shape@,
                qq,
            ) == Some(g_idx),
            arena_view(final(self).bst.nodes).dom() == arena_view(old(self).bst.nodes).dom(),
    {
        let ghost t0 = self.bst.shape@;
        let ghost m0 = arena_view(self.bst.nodes);
        let ghost xqq = subtree_at(t0, qq);
        let ghost s2 = crate::model::push_blackness_down(xqq);
        proof {
            lemma_at_path(m0, self.bst.root, t0, None, qq);
        }
        let g = arena_get(&self.bst.nodes, g_idx);
        let ghost (xl, xr) = match xqq {
            KeyTree::Leaf => (KeyTree::Leaf, KeyTree::Leaf),
            KeyTree::Branch { left, right, .. } => (*left, *right),
        };
        let ghost pp = path_parent(m0, self.bst.root, t0, None, qq);
        proof {
            assert(rep(m0, Some(g_idx), xqq, pp));
            assert(rep(m0, g.left, xl, Some(g_idx)));
            assert(rep(m0, g.right, xr, Some(g_idx)));
            assert(uniq(m0, g.left, xl));
            assert(uniq(m0, g.right, xr));
            assert(hset(m0, g.left, xl).disjoint(hset(m0, g.right, xr)));
            assert(xl is Branch && xr is Branch);
        }
        let lh = match g.left {
            Some(x) => x,
            None => {
                proof {
                    assert(false);
                }
                g_idx
            },
        };
        let rh = match g.right {
            Some(x) => x,
            None => {
                proof {
                    assert(false);
                }
                g_idx
            },
        };
        proof {
            assert(hset(m0, g.left, xl).contains(lh));
            assert(hset(m0, g.right, xr).contains(rh));
            assert(lh != g_idx && rh != g_idx && lh != rh);
        }
        let ln = arena_get(&self.bst.nodes, lh);
        arena_set(
            &mut self.bst.nodes,
            lh,
            Node { key: ln.key, color: Color::Black, left: ln.left, right: ln.right, parent: ln.parent },
        );
        let rn = arena_get(&self.bst.nodes, rh);
        arena_set(
            &mut self.bst.nodes,
            rh,
            Node { key: rn.key, color: Color::Black, left: rn.left, right: rn.right, parent: rn.parent },
        );
        arena_set(
            &mut self.bst.nodes,
            g_idx,
            Node { key: g.key, color: Color::Red, left: g.left, right: g.right, parent: g.parent },
        );
        proof {
            let m3 = arena_view(self.bst.nodes);
            assert(m3.dom() =~= m0.dom());
            assert(rn == m0[rh]);
            let ghost (xll, xlr) = match xl {
                KeyTree::Leaf => (KeyTree::Leaf, KeyTree::Leaf),
                KeyTree::Branch { left, right, .. } => (*left, *right),
            };
            let ghost (xrl, xrr) = match xr {
                KeyTree::Leaf => (KeyTree::Leaf, KeyTree::Leaf),
                KeyTree::Branch { left, right, .. } => (*left, *right),
            };
            assert(rep(m0, m0[lh].left, xll, Some(lh)));
            assert(rep(m0, m0[lh].right, xlr, Some(lh)));
            assert(rep(m0, m0[rh].left, xrl, Some(rh)));
            assert(rep(m0, m0[rh].right, xrr, Some(rh)));
            assert forall|y: Handle| #[trigger]
                hset(m0, m0[lh].left, xll).contains(y) implies m3.contains_key(y) && m3[y]
                == m0[y] && m0.contains_key(y) by {
                lemma_rep_in_dom(m0, m0[lh].left, xll, Some(lh));
                assert(hset(m0, g.left, xl).contains(y));
                assert(hset(m0, Some(g_idx), xqq).contains(y));
                assert(y != lh && y != rh && y != g_idx);
            }
            lemma_rep_frame(m0, m3, m0[lh].left, xll, Some(lh));
            assert forall|y: Handle| #[trigger]
                hset(m0, m0[lh].right, xlr).contains(y) implies m3.contains_key(y) && m3[y]
                == m0[y] && m0.contains_key(y) by {
                lemma_rep_in_dom(m0, m0[lh].right, xlr, Some(lh));
                assert(hset(m0, g.left, xl).contains(y));
                assert(hset(m0, Some(g_idx), xqq).contains(y));
                assert(y != lh && y != rh && y != g_idx);
            }
            lemma_rep_frame(m0, m3, m0[lh].right, xlr, Some(lh));
            assert forall|y: Handle| #[trigger]
                hset(m0, m0[rh].left, xrl).contains(y) implies m3.contains_key(y) && m3[y]
                == m0[y] && m0.contains_key(y) by {
                lemma_rep_in_dom(m0, m0[rh].left, xrl, Some(rh));
                assert(hset(m0, g.right, xr).contains(y));
                assert(hset(m0, Some(g_idx), xqq).contains(y));
                assert(y != lh && y != rh && y != g_idx);
            }
            lemma_rep_frame(m0, m3, m0[rh].left, xrl, Some(rh));
            assert forall|y: Handle| #[trigger]
                hset(m0, m0[rh].right, xrr).contains(y) implies m3.contains_key(y) && m3[y]
                == m0[y] && m0.contains_key(y) by {
                lemma_rep_in_dom(m0, m0[rh].right, xrr, Some(rh));
                assert(hset(m0, g.right, xr).contains(y));
                assert(hset(m0, Some(g_idx), xqq).contains(y));
                assert(y != lh && y != rh && y != g_idx);
            }
            lemma_rep_frame(m0, m3, m0[rh].right, xrr, Some(rh));
            assert(rep(m3, g.left, recolor(xl, Color::Black), Some(g_idx)));
            assert(rep(m3, g.right, recolor(xr, Color::Black), Some(g_idx)));
            assert(rep(m3, Some(g_idx), s2, pp));
            assert(hset(m3, g.left, recolor(xl, Color::Black)) =~= hset(m0, g.left, xl));
            assert(hset(m3, g.right, recolor(xr, Color::Black)) =~= hset(m0, g.right, xr));
            assert(uniq(m0, m0[lh].left, xll));
            assert(uniq(m0, m0[lh].right, xlr));
            assert(uniq(m0, m0[rh].left, xrl));
            assert(uniq(m0, m0[rh].right, xrr));
            assert(uniq(m3, g.left, recolor(xl, Color::Black)));
            assert(uniq(m3, g.right, recolor(xr, Color::Black)));
            assert(uniq(m3, Some(g_idx), s2));
            assert(hset(m3, Some(g_idx), s2) =~= hset(m0, Some(g_idx), xqq));
            if qq.len() == 0 {
                self.bst.shape@ = s2;
                assert(update_at(t0, qq, s2) == s2);
                assert(hset(m3, self.bst.root, s2) =~= m3.dom());
            } else {
                crate::rep::lemma_parent_link(m0, self.bst.root, t0, None, qq);
                let hqv = match handle_at(m0, self.bst.root, t0, qq.drop_last()) {
                    Some(x) => x,
                    None => g_idx,
                };
                assert(hqv != g_idx && hqv != lh && hqv != rh);
                assert(m3[hqv] == m0[hqv]);
                lemma_update_at(m0, m3, self.bst.root, t0, None, qq, s2, Some(g_idx));
                self.bst.shape@ = update_at(t0, qq, s2);
                assert(hset(m3, self.bst.root, self.bst.shape@) =~= m3.dom());
            }
        }
    }

    /// The post-rotation color swap, in one structural step: the node now at
    /// `qq` takes `tc`, and its child on side `dir` takes `cc`.
    fn swap_top_child_colors(
        &mut self,
        top_idx: Handle,
        child_idx: Handle,
        tc: Color,
        cc: Color,
        Ghost(qq): Ghost<Seq<bool>>,
        Ghost(dir): Ghost<bool>,
    )
        requires
            old(self).bst.wf(),
            valid_path(old(self).bst.shape@, qq),
            subtree_at(old(self).bst.shape@, qq) is Branch,
            handle_at(
                arena_view(old(self).bst.nodes),
                old(self).bst.root,
                old(self).bst.shape@,
                qq,
            ) == Some(top_idx),
            (if dir {
                arena_view(old(self).bst.nodes)[top_idx].right
            } else {
                arena_view(old(self).bst.nodes)[top_idx].left
            }) == Some(child_idx),
        ensures
            final(self).bst.wf(),
            final(self).bst.shape@ == update_at(
                old(self).bst.shape@,
                qq,
                crate::model::recolor_top_child(subtree_at(old(self).bst.shape@, qq), dir, tc, cc),
            ),
            final(self).bst.root == old(self).bst.root,
            handle_at(
                arena_view(final(self).bst.nodes),
                final(self).bst.root,
                final(self).bst.shape@,
                qq.push(dir),
            ) == Some(child_idx),
            arena_view(final(self).bst.nodes).dom() == arena_view(old(self).bst.nodes).dom(),
    {
        let ghost t0 = self.bst.shape@;
        let ghost m0 = arena_view(self.bst.nodes);
        let ghost xqq = subtree_at(t0, qq);
        let ghost s2 = crate::model::recolor_top_child(xqq, dir, tc, cc);
        let ghost pp = path_parent(m0, self.bst.root, t0, None, qq);
        proof {
            lemma_at_path(m0, self.bst.root, t0, None, qq);
        }
        let top = arena_get(&self.bst.nodes, top_idx);
        let ghost (xl, xr) = match xqq {
            KeyTree::Leaf => (KeyTree::Leaf, KeyTree::Leaf),
            KeyTree::Branch { left, right, .. } => (*left, *right),
        };
        let ghost xc = if dir {
            xr
        } else {
            xl
        };
        proof {
            assert(rep(m0, Some(top_idx), xqq, pp));
            assert(rep(m0, top.left, xl, Some(top_idx)));
            assert(rep(m0, top.right, xr, Some(top_idx)));
            assert(rep(m0, Some(child_idx), xc, Some(top_idx)));
            assert(uniq(m0, top.left, xl));
            assert(uniq(m0, top.right, xr));
            assert(hset(m0, top.left, xl).disjoint(hset(m0, top.right, xr)));
            assert(xc is Branch);
            assert(hset(m0, Some(child_idx), xc).contains(child_idx));
            assert(child_idx != top_idx);
        }
        let cn = arena_get(&self.bst.nodes, child_idx);
        arena_set(
            &mut self.bst.nodes,
            child_idx,
            Node { key: cn.key, color: cc, left: cn.left, right: cn.right, parent: cn.parent },
        );
        arena_set(
            &mut self.bst.nodes,
            top_idx,
            Node { key: top.key, color: tc, left: top.left, right: top.right, parent: top.parent },
        );
        proof {
            let m3 = arena_view(self.bst.nodes);
            assert(m3.dom() =~= m0.dom());
            let ghost (xcl, xcr) = match xc {
                KeyTree::Leaf => (KeyTree::Leaf, KeyTree::Leaf),
                KeyTree::Branch { left, right, .. } => (*left, *right),
            };
            assert(rep(m0, m0[child_idx].left, xcl, Some(child_idx)));
            assert(rep(m0, m0[child_idx].right, xcr, Some(child_idx)));
            assert forall|y: Handle| #[trigger]
                hset(m0, m0[child_idx].left, xcl).contains(y) implies m3.contains_key(y) && m3[y]
                == m0[y] && m0.contains_key(y) by {
                lemma_rep_in_dom(m0, m0[child_idx].left, xcl, Some(child_idx));
                assert(hset(m0, Some(child_idx), xc).contains(y));
                assert(hset(m0, Some(top_idx), xqq).contains(y));
                assert(y != child_idx && y != top_idx);
            }
            lemma_rep_frame(m0, m3, m0[child_idx].left, xcl, Some(child_idx));
            assert forall|y: Handle| #[trigger]
                hset(m0, m0[child_idx].right, xcr).contains(y) implies m3.contains_key(y) && m3[y]
                == m0[y] && m0.contains_key(y) by {
                lemma_rep_in_dom(m0, m0[child_idx].right, xcr, Some(child_idx));
                assert(hset(m0, Some(child_idx), xc).contains(y));
                assert(hset(m0, Some(top_idx), xqq).contains(y));
                assert(y != child_idx && y != top_idx);
            }
            lemma_rep_frame(m0, m3, m0[child_idx].right, xcr, Some(child_idx));
            assert(rep(m3, Some(child_idx), recolor(xc, cc), Some(top_idx)));
            let ghost other = if dir {
                xl
            } else {
                xr
            };
            let ghost other_link = if dir {
                top.left
            } else {
                top.right
            };
            assert(rep(m0, other_link, other, Some(top_idx)));
            assert forall|y: Handle| #[trigger]
                hset(m0, other_link, other).contains(y) implies m3.contains_key(y) && m3[y]
                == m0[y] && m0.contains_key(y) by {
                lemma_rep_in_dom(m0, other_link, other, Some(top_idx));
                assert(hset(m0, Some(top_idx), xqq).contains(y));
                assert(y != top_idx);
                assert(!hset(m0, Some(child_idx), xc).contains(y));
                assert(y != child_idx);
            }
            lemma_rep_frame(m0, m3, other_link, other, Some(top_idx));
            assert(rep(m3, Some(top_idx), s2, pp));
            assert(hset(m3, Some(child_idx), recolor(xc, cc)) =~= hset(m0, Some(child_idx), xc));
            assert(uniq(m0, m0[child_idx].left, xcl));
            assert(uniq(m0, m0[child_idx].right, xcr));
            assert(uniq(m3, Some(child_idx), recolor(xc, cc)));
            assert(uniq(m3, other_link, other));
            assert(uniq(m3, Some(top_idx), s2));
            assert(hset(m3, Some(top_idx), s2) =~= hset(m0, Some(top_idx), xqq));
            let t2 = update_at(t0, qq, s2);
            if qq.len() == 0 {
                self.bst.shape@ = s2;
                assert(update_at(t0, qq, s2) == s2);
                assert(hset(m3, self.bst.root, s2) =~= m3.dom());
            } else {
                crate::rep::lemma_parent_link(m0, self.bst.root, t0, None, qq);
                let hqv = match handle_at(m0, self.bst.root, t0, qq.drop_last()) {
                    Some(x) => x,
                    None => top_idx,
                };
                assert(hqv != top_idx && hqv != child_idx);
                assert(m3[hqv] == m0[hqv]);
                lemma_update_at(m0, m3, self.bst.root, t0, None, qq, s2, Some(top_idx));
                self.bst.shape@ = t2;
                assert(hset(m3, self.bst.root, self.bst.shape@) =~= m3.dom());
            }
            // the recolored child keeps its place one step below `qq`
            lemma_subtree_update(t0, qq, s2);
            assert(qq.push(dir) =~= qq + seq![dir]);
            lemma_handle_at_append(m3, self.bst.root, self.bst.shape@, qq, seq![dir]);
            assert(seq![dir].drop_first() =~= Seq::<bool>::empty());
            assert(seq![dir][0] == dir);
            assert(handle_at(
                m3,
                if dir {
                    m3[top_idx].right
                } else {
                    m3[top_idx].left
                },
                child_of(s2, dir),
                Seq::<bool>::empty(),
            ) == (if dir {
                m3[top_idx].right
            } else {
                m3[top_idx].left
            }));
            assert(handle_at(m3, self.bst.root, self.bst.shape@, qq.push(dir)) == Some(
                child_idx,
            ));
        }
    }

    /// Rotate the node at `node_idx` (led to by the path `p`, necessarily a
    /// left child) over its parent: the parent's left link takes the node's
    /// right subtree, the node takes the parent's place under the
    /// grandparent (or becomes the root), and the parent becomes the node's
    /// right child. All parent back-references are updated in the same step.
    fn rotate_node_right(&mut self, node_idx: Handle, Ghost(p): Ghost<Seq<bool>>)
        requires
            old(self).bst.wf(),
            valid_path(old(self).bst.shape@, p),
            p.len() >= 1,
            p.last() == false,
            subtree_at(old(self).bst.shape@, p) is Branch,
            handle_at(
                arena_view(old(self).bst.nodes),
                old(self).bst.root,
                old(self).bst.shape@,
                p,
            ) == Some(node_idx),
        ensures
            final(self).bst.wf(),
            final(self).bst.shape@ == update_at(
                old(self).bst.shape@,
                p.drop_last(),
                rotate_right_spec(subtree_at(old(self).bst.shape@, p.drop_last())),
            ),
            handle_at(
                arena_view(final(self).bst.nodes),
                final(self).bst.root,
                final(self).bst.shape@,
                p.drop_last(),
            ) == Some(node_idx),
            arena_view(final(self).bst.nodes).dom() == arena_view(old(self).bst.nodes).dom(),
            arena_view(final(self).bst.nodes)[node_idx].right == arena_view(
                old(self).bst.nodes,
            )[node_idx].parent,
    {
        let ghost t0 = self.bst.shape@;
        let ghost m0 = arena_view(self.bst.nodes);
        let ghost q = p.drop_last();
        let ghost xp = subtree_at(t0, p);
        let ghost xq = subtree_at(t0, q);
        let ghost s2 = rotate_right_spec(xq);
        proof {
            lemma_at_path(m0, self.bst.root, t0, None, p);
            lemma_valid_prefix(t0, p);
            lemma_at_path(m0, self.bst.root, t0, None, q);
            assert(p =~= q + seq![false]);
            lemma_handle_at_append(m0, self.bst.root, t0, q, seq![false]);
            assert(seq![false].drop_first() =~= Seq::<bool>::empty());
            assert(seq![false][0] == false);
        }
        let node = arena_get(&self.bst.nodes, node_idx);
        let parent_idx = match node.parent {
            Some(x) => x,
            None => {
                proof {
                    assert(false);
                }
                node_idx
            },
        };
        proof {
            assert(Some(parent_idx) == handle_at(m0, self.bst.root, t0, q));
            assert(handle_at(
                m0,
                m0[parent_idx].left,
                child_of(subtree_at(t0, q), false),
                Seq::<bool>::empty(),
            ) == m0[parent_idx].left);
            assert(m0[parent_idx].left == Some(node_idx));
        }
        let parent_node = arena_get(&self.bst.nodes, parent_idx);
        let gp_opt = parent_node.parent;
        let c_opt = node.right;
        let ghost (tb, tc) = match xp {
            KeyTree::Leaf => (KeyTree::Leaf, KeyTree::Leaf),
            KeyTree::Branch { left, right, .. } => (*left, *right),
        };
        let ghost td = match xq {
            KeyTree::Leaf => KeyTree::Leaf,
            KeyTree::Branch { right, .. } => *right,
        };
        proof {
            // the three moving subtrees and the handles that must stay apart
            assert(rep(m0, Some(parent_idx), xq, gp_opt));
            assert(rep(m0, Some(node_idx), xp, Some(parent_idx)));
            assert(rep(m0, node.left, tb, Some(node_idx)));
            assert(rep(m0, c_opt, tc, Some(node_idx)));
            assert(rep(m0, parent_node.right, td, Some(parent_idx)));
            assert(parent_idx != node_idx);
            assert(!hset(m0, Some(node_idx), xp).contains(parent_idx));
            assert(!hset(m0, node.left, tb).contains(node_idx));
            assert(!hset(m0, c_opt, tc).contains(node_idx));
            lemma_rep_in_dom(m0, Some(parent_idx), xq, gp_opt);
        }
        arena_set(
            &mut self.bst.nodes,
            node_idx,
            Node {
                key: node.key,
                color: node.color,
                left: node.left,
                right: Some(parent_idx),
                parent: gp_opt,
            },
        );
        arena_set(
            &mut self.bst.nodes,
            parent_idx,
            Node {
                key: parent_node.key,
                color: parent_node.color,
                left: c_opt,
                right: parent_node.right,
                parent: Some(node_idx),
            },
        );
        if let Some(ch) = c_opt {
            proof {
                assert(hset(m0, c_opt, tc).contains(ch));
                assert(arena_view(self.bst.nodes).contains_key(ch));
                assert(ch != node_idx && ch != parent_idx);
            }
            let cn = arena_get(&self.bst.nodes, ch);
            arena_set(
                &mut self.bst.nodes,
                ch,
                Node {
                    key: cn.key,
                    color: cn.color,
                    left: cn.left,
                    right: cn.right,
                    parent: Some(parent_idx),
                },
            );
        }
        let ghost m3 = arena_view(self.bst.nodes);
        proof {
            // reassemble the rotated subtree's layout in the updated arena
            assert(m3.dom() =~= m0.dom());
            assert forall|y: Handle| #[trigger]
                hset(m0, node.left, tb).contains(y) implies m3.contains_key(y) && m3[y] == m0[y]
                && m0.contains_key(y) by {
                lemma_rep_in_dom(m0, node.left, tb, Some(node_idx));
                assert(hset(m0, Some(node_idx), xp).contains(y));
                assert(hset(m0, Some(parent_idx), xq).contains(y));
                assert(y != node_idx && y != parent_idx);
                if c_opt is Some {
                    assert(!hset(m0, c_opt, tc).contains(y));
                }
            }
            lemma_rep_frame(m0, m3, node.left, tb, Some(node_idx));
            assert forall|y: Handle| #[trigger]
                hset(m0, c_opt, tc).contains(y) && Some(y) != c_opt implies m3.contains_key(y)
                && m3[y] == m0[y] by {
                lemma_rep_in_dom(m0, c_opt, tc, Some(node_idx));
                assert(hset(m0, Some(node_idx), xp).contains(y));
                assert(hset(m0, Some(parent_idx), xq).contains(y));
                assert(y != node_idx && y != parent_idx);
            }
            crate::rep::lemma_reparent_across(
                m0,
                m3,
                c_opt,
                tc,
                Some(node_idx),
                Some(parent_idx),
            );
            assert forall|y: Handle| #[trigger]
                hset(m0, parent_node.right, td).contains(y) implies m3.contains_key(y) && m3[y]
                == m0[y] && m0.contains_key(y) by {
                lemma_rep_in_dom(m0, parent_node.right, td, Some(parent_idx));
                assert(hset(m0, Some(parent_idx), xq).contains(y));
                assert(y != parent_idx);
                assert(!hset(m0, Some(node_idx), xp).contains(y));
                assert(y != node_idx);
                if c_opt is Some {
                    assert(hset(m0, c_opt, tc).contains(y) == false);
                }
            }
            lemma_rep_frame(m0, m3, parent_node.right, td, Some(parent_idx));
            let inner = KeyTree::Branch {
                key: parent_node.key,
                color: parent_node.color,
                left: Box::new(tc),
                right: Box::new(td),
            };
            assert(rep(m3, Some(parent_idx), inner, Some(node_idx)));
            assert(uniq(m3, Some(parent_idx), inner));
            assert(s2 == KeyTree::Branch {
                key: node.key,
                color: node.color,
                left: Box::new(tb),
                right: Box::new(inner),
            });
            assert(rep(m3, Some(node_idx), s2, gp_opt));
            assert(hset(m3, Some(parent_idx), inner) =~= hset(m0, c_opt, tc) + hset(
                m0,
                parent_node.right,
                td,
            ) + Set::empty().insert(parent_idx));
            assert(uniq(m3, Some(node_idx), s2));
            assert(hset(m3, Some(node_idx), s2) =~= hset(m0, Some(parent_idx), xq));
        }
        match gp_opt {
            None => {
                self.bst.root = Some(node_idx);
                proof {
                    assert(q.len() == 0) by {
                        if q.len() >= 1 {
                            lemma_valid_prefix(t0, q);
                            assert(m0[parent_idx].parent == path_parent(
                                m0,
                                old(self).bst.root,
                                t0,
                                None,
                                q,
                            ));
                            lemma_at_path(m0, old(self).bst.root, t0, None, q.drop_last());
                        }
                    }
                    self.bst.shape@ = update_at(t0, q, s2);
                    assert(update_at(t0, q, s2) == s2);
                    let m4 = arena_view(self.bst.nodes);
                    assert(hset(m4, self.bst.root, s2) =~= m4.dom());
                }
            }
            Some(g) => {
                proof {
                    assert(q.len() >= 1) by {
                        if q.len() == 0 {
                            assert(m0[parent_idx].parent == None::<Handle>);
                        }
                    }
                    lemma_valid_prefix(t0, q);
                    lemma_at_path(m0, old(self).bst.root, t0, None, q.drop_last());
                    assert(Some(g) == handle_at(m0, old(self).bst.root, t0, q.drop_last()));
                    assert(q =~= q.drop_last() + seq![q.last()]);
                    lemma_handle_at_append(
                        m0,
                        old(self).bst.root,
                        t0,
                        q.drop_last(),
                        seq![q.last()],
                    );
                    assert(seq![q.last()].drop_first() =~= Seq::<bool>::empty());
                    assert(seq![q.last()][0] == q.last());
                    let xqq = subtree_at(t0, q.drop_last());
                    assert(rep(
                        m0,
                        Some(g),
                        xqq,
                        path_parent(m0, old(self).bst.root, t0, None, q.drop_last()),
                    ));
                    assert(uniq(m0, Some(g), xqq));
                    assert(handle_at(
                        m0,
                        if q.last() {
                            m0[g].right
                        } else {
                            m0[g].left
                        },
                        child_of(xqq, q.last()),
                        Seq::<bool>::empty(),
                    ) == (if q.last() {
                        m0[g].right
                    } else {
                        m0[g].left
                    }));
                    assert((if q.last() {
                        m0[g].right
                    } else {
                        m0[g].left
                    }) == Some(parent_idx));
                    assert(hset(m0, Some(parent_idx), xq).contains(parent_idx));
                    assert(g != parent_idx && g != node_idx);
                    assert(!hset(m0, Some(parent_idx), xq).contains(g));
                    if c_opt is Some {
                        assert(!hset(m0, Some(parent_idx), xq).contains(g));
                    }
                    assert(m3.contains_key(g) && m3[g] == m0[g]);
                }
                let gn = arena_get(&self.bst.nodes, g);
                let g_is_left = match gn.left {
                    Some(x) => x == parent_idx,
                    None => false,
                };
                proof {
                    // the side the parent hangs off is the path's last step
                    if g_is_left != (q.last() == false) {
                        let xqq = subtree_at(t0, q.drop_last());
                        if q.last() {
                            let gl = match t0 {
                                KeyTree::Leaf => KeyTree::Leaf,
                                KeyTree::Branch { .. } => match xqq {
                                    KeyTree::Leaf => KeyTree::Leaf,
                                    KeyTree::Branch { left, .. } => *left,
                                },
                            };
                            assert(rep(m0, m0[g].left, gl, Some(g)));
                            assert(hset(m0, m0[g].left, gl).contains(parent_idx));
                            assert(hset(m0, m0[g].right, child_of(xqq, true)).contains(
                                parent_idx,
                            ));
                            assert(false);
                        } else {
                            let gr = match xqq {
                                KeyTree::Leaf => KeyTree::Leaf,
                                KeyTree::Branch { right, .. } => *right,
                            };
                            assert(rep(m0, m0[g].right, gr, Some(g)));
                            assert(gn.left == m0[g].left);
                            assert(gn.left is None || !(gn.left matches Some(x) && x
                                == parent_idx));
                            assert(m0[g].left == Some(parent_idx));
                            assert(false);
                        }
                    }
                }
                if g_is_left {
                    arena_set(
                        &mut self.bst.nodes,
                        g,
                        Node {
                            key: gn.key,
                            color: gn.color,
                            left: Some(node_idx),
                            right: gn.right,
                            parent: gn.parent,
                        },
                    );
                } else {
                    arena_set(
                        &mut self.bst.nodes,
                        g,
                        Node {
                            key: gn.key,
                            color: gn.color,
                            left: gn.left,
                            right: Some(node_idx),
                            parent: gn.parent,
                        },
                    );
                }
                proof {
                    let m4 = arena_view(self.bst.nodes);
                    assert(m4.dom() =~= m0.dom());
                    assert forall|y: Handle| #[trigger]
                        hset(m3, Some(node_idx), s2).contains(y) implies m4.contains_key(y)
                        && m4[y] == m3[y] && m3.contains_key(y) by {
                        lemma_rep_in_dom(m3, Some(node_idx), s2, gp_opt);
                        assert(hset(m0, Some(parent_idx), xq).contains(y));
                        assert(y != g);
                    }
                    lemma_rep_frame(m3, m4, Some(node_idx), s2, gp_opt);
                    lemma_update_at(m0, m4, old(self).bst.root, t0, None, q, s2, Some(node_idx));
                    self.bst.shape@ = update_at(t0, q, s2);
                    assert(hset(m4, self.bst.root, self.bst.shape@) =~= m4.dom());
                }
            }
        }
    }

    /// The mirror image: rotate the node at `node_idx` (led to by the path
    /// `p`, necessarily a right child) over its parent: the parent's right
    /// link takes the node's left subtree, the node takes the parent's place
    /// under the grandparent (or becomes the root), and the parent becomes
    /// the node's left child.
    fn rotate_node_left(&mut self, node_idx: Handle, Ghost(p): Ghost<Seq<bool>>)
        requires
            old(self).bst.wf(),
            valid_path(old(self).bst.shape@, p),
            p.len() >= 1,
            p.last() == true,
            subtree_at(old(self).bst.shape@, p) is Branch,
            handle_at(
                arena_view(old(self).bst.nodes),
                old(self).bst.root,
                old(self).bst.shape@,
                p,
            ) == Some(node_idx),
        ensures
            final(self).bst.wf(),
            final(self).bst.shape@ == update_at(
                old(self).bst.shape@,
                p.drop_last(),
                rotate_left_spec(subtree_at(old(self).bst.shape@, p.drop_last())),
            ),
            handle_at(
                arena_view(final(self).bst.nodes),
                final(self).bst.root,
                final(self).bst.shape@,
                p.drop_last(),
            ) == Some(node_idx),
            arena_view(final(self).bst.nodes).dom() == arena_view(old(self).bst.nodes).dom(),
            arena_view(final(self).bst.nodes)[node_idx].left == arena_view(
                old(self).bst.nodes,
            )[node_idx].parent,
    {
        let ghost t0 = self.bst.shape@;
        let ghost m0 = arena_view(self.bst.nodes);
        let ghost q = p.drop_last();
        let ghost xp = subtree_at(t0, p);
        let ghost xq = subtree_at(t0, q);
        let ghost s2 = rotate_left_spec(xq);
        proof {
            lemma_at_path(m0, self.bst.root, t0, None, p);
            lemma_valid_prefix(t0, p);
            lemma_at_path(m0, self.bst.root, t0, None, q);
            assert(p =~= q + seq![true]);
            lemma_handle_at_append(m0, self.bst.root, t0, q, seq![true]);
            assert(seq![true].drop_first() =~= Seq::<bool>::empty());
            assert(seq![true][0] == true);
        }
        let node = arena_get(&self.bst.nodes, node_idx);
        let parent_idx = match node.parent {
            Some(x) => x,
            None => {
                proof {
                    assert(false);
                }
                node_idx
            },
        };
        proof {
            assert(Some(parent_idx) == handle_at(m0, self.bst.root, t0, q));
            assert(handle_at(
                m0,
                m0[parent_idx].right,
                child_of(subtree_at(t0, q), true),
                Seq::<bool>::empty(),
            ) == m0[parent_idx].right);
            assert(m0[parent_idx].right == Some(node_idx));
        }
        let parent_node = arena_get(&self.bst.nodes, parent_idx);
        let gp_opt = parent_node.parent;
        let c_opt = node.left;
        let ghost (tc, tb) = match xp {
            KeyTree::Leaf => (KeyTree::Leaf, KeyTree::Leaf),
            KeyTree::Branch { left, right, .. } => (*left, *right),
        };
        let ghost td = match xq {
            KeyTree::Leaf => KeyTree::Leaf,
            KeyTree::Branch { left, .. } => *left,
        };
        proof {
            assert(rep(m0, Some(parent_idx), xq, gp_opt));
            assert(rep(m0, Some(node_idx), xp, Some(parent_idx)));
            assert(rep(m0, node.right, tb, Some(node_idx)));
            assert(rep(m0, c_opt, tc, Some(node_idx)));
            assert(rep(m0, parent_node.left, td, Some(parent_idx)));
            assert(parent_idx != node_idx);
            assert(!hset(m0, Some(node_idx), xp).contains(parent_idx));
            assert(!hset(m0, node.right, tb).contains(node_idx));
            assert(!hset(m0, c_opt, tc).contains(node_idx));
            lemma_rep_in_dom(m0, Some(parent_idx), xq, gp_opt);
        }
        arena_set(
            &mut self.bst.nodes,
            node_idx,
            Node {
                key: node.key,
                color: node.color,
                left: Some(parent_idx),
                right: node.right,
                parent: gp_opt,
            },
        );
        arena_set(
            &mut self.bst.nodes,
            parent_idx,
            Node {
                key: parent_node.key,
                color: parent_node.color,
                left: parent_node.left,
                right: c_opt,
                parent: Some(node_idx),
            },
        );
        if let Some(ch) = c_opt {
            proof {
                assert(hset(m0, c_opt, tc).contains(ch));
                assert(arena_view(self.bst.nodes).contains_key(ch));
                assert(ch != node_idx && ch != parent_idx);
            }
            let cn = arena_get(&self.bst.nodes, ch);
            arena_set(
                &mut self.bst.nodes,
                ch,
                Node {
                    key: cn.key,
                    color: cn.color,
                    left: cn.left,
                    right: cn.right,
                    parent: Some(parent_idx),
                },
            );
        }
        let ghost m3 = arena_view(self.bst.nodes);
        proof {
            assert(m3.dom() =~= m0.dom());
            assert forall|y: Handle| #[trigger]
                hset(m0, node.right, tb).contains(y) implies m3.contains_key(y) && m3[y] == m0[y]
                && m0.contains_key(y) by {
                lemma_rep_in_dom(m0, node.right, tb, Some(node_idx));
                assert(hset(m0, Some(node_idx), xp).contains(y));
                assert(hset(m0, Some(parent_idx), xq).contains(y));
                assert(y != node_idx && y != parent_idx);
                if c_opt is Some {
                    assert(!hset(m0, c_opt, tc).contains(y));
                }
            }
            lemma_rep_frame(m0, m3, node.right, tb, Some(node_idx));
            assert forall|y: Handle| #[trigger]
                hset(m0, c_opt, tc).contains(y) && Some(y) != c_opt implies m3.contains_key(y)
                && m3[y] == m0[y] by {
                lemma_rep_in_dom(m0, c_opt, tc, Some(node_idx));
                assert(hset(m0, Some(node_idx), xp).contains(y));
                assert(hset(m0, Some(parent_idx), xq).contains(y));
                assert(y != node_idx && y != parent_idx);
            }
            crate::rep::lemma_reparent_across(
                m0,
                m3,
                c_opt,
                tc,
                Some(node_idx),
                Some(parent_idx),
            );
            assert forall|y: Handle| #[trigger]
                hset(m0, parent_node.left, td).contains(y) implies m3.contains_key(y) && m3[y]
                == m0[y] && m0.contains_key(y) by {
                lemma_rep_in_dom(m0, parent_node.left, td, Some(parent_idx));
                assert(hset(m0, Some(parent_idx), xq).contains(y));
                assert(y != parent_idx);
                assert(!hset(m0, Some(node_idx), xp).contains(y));
                assert(y != node_idx);
                if c_opt is Some {
                    assert(hset(m0, c_opt, tc).contains(y) == false);
                }
            }
            lemma_rep_frame(m0, m3, parent_node.left, td, Some(parent_idx));
            let inner = KeyTree::Branch {
                key: parent_node.key,
                color: parent_node.color,
                left: Box::new(td),
                right: Box::new(tc),
            };
            assert(rep(m3, Some(parent_idx), inner, Some(node_idx)));
            assert(uniq(m3, Some(parent_idx), inner));
            assert(s2 == KeyTree::Branch {
                key: node.key,
                color: node.color,
                left: Box::new(inner),
                right: Box::new(tb),
            });
            assert(rep(m3, Some(node_idx), s2, gp_opt));
            assert(hset(m3, Some(parent_idx), inner) =~= hset(m0, c_opt, tc) + hset(
                m0,
                parent_node.left,
                td,
            ) + Set::empty().insert(parent_idx));
            assert(uniq(m3, Some(node_idx), s2));
            assert(hset(m3, Some(node_idx), s2) =~= hset(m0, Some(parent_idx), xq));
        }
        match gp_opt {
            None => {
                self.bst.root = Some(node_idx);
                proof {
                    assert(q.len() == 0) by {
                        if q.len() >= 1 {
                            lemma_valid_prefix(t0, q);
                            assert(m0[parent_idx].parent == path_parent(
                                m0,
                                old(self).bst.root,
                                t0,
                                None,
                                q,
                            ));
                            lemma_at_path(m0, old(self).bst.root, t0, None, q.drop_last());
                        }
                    }
                    self.bst.shape@ = update_at(t0, q, s2);
                    assert(update_at(t0, q, s2) == s2);
                    let m4 = arena_view(self.bst.nodes);
                    assert(hset(m4, self.bst.root, s2) =~= m4.dom());
                }
            }
            Some(g) => {
                proof {
                    assert(q.len() >= 1) by {
                        if q.len() == 0 {
                            assert(m0[parent_idx].parent == None::<Handle>);
                        }
                    }
                    lemma_valid_prefix(t0, q);
                    lemma_at_path(m0, old(self).bst.root, t0, None, q.drop_last());
                    assert(Some(g) == handle_at(m0, old(self).bst.root, t0, q.drop_last()));
                    assert(q =~= q.drop_last() + seq![q.last()]);
                    lemma_handle_at_append(
                        m0,
                        old(self).bst.root,
                        t0,
                        q.drop_last(),
                        seq![q.last()],
                    );
                    assert(seq![q.last()].drop_first() =~= Seq::<bool>::empty());
                    assert(seq![q.last()][0] == q.last());
                    let xqq = subtree_at(t0, q.drop_last());
                    assert(rep(
                        m0,
                        Some(g),
                        xqq,
                        path_parent(m0, old(self).bst.root, t0, None, q.drop_last()),
                    ));
                    assert(uniq(m0, Some(g), xqq));
                    assert(handle_at(
                        m0,
                        if q.last() {
                            m0[g].right
                        } else {
                            m0[g].left
                        },
                        child_of(xqq, q.last()),
                        Seq::<bool>::empty(),
                    ) == (if q.last() {
                        m0[g].right
                    } else {
                        m0[g].left
                    }));
                    assert((if q.last() {
                        m0[g].right
                    } else {
                        m0[g].left
                    }) == Some(parent_idx));
                    assert(hset(m0, Some(parent_idx), xq).contains(parent_idx));
                    assert(g != parent_idx && g != node_idx);
                    assert(!hset(m0, Some(parent_idx), xq).contains(g));
                    assert(m3.contains_key(g) && m3[g] == m0[g]);
                }
                let gn = arena_get(&self.bst.nodes, g);
                let g_is_left = match gn.left {
                    Some(x) => x == parent_idx,
                    None => false,
                };
                proof {
                    if g_is_left != (q.last() == false) {
                        let xqq = subtree_at(t0, q.drop_last());
                        if q.last() {
                            let gl = match xqq {
                                KeyTree::Leaf => KeyTree::Leaf,
                                KeyTree::Branch { left, .. } => *left,
                            };
                            assert(rep(m0, m0[g].left, gl, Some(g)));
                            assert(hset(m0, m0[g].left, gl).contains(parent_idx));
                            assert(hset(m0, m0[g].right, child_of(xqq, true)).contains(
                                parent_idx,
                            ));
                            assert(false);
                        } else {
                            let gr = match xqq {
                                KeyTree::Leaf => KeyTree::Leaf,
                                KeyTree::Branch { right, .. } => *right,
                            };
                            assert(rep(m0, m0[g].right, gr, Some(g)));
                            assert(gn.left == m0[g].left);
                            assert(m0[g].left == Some(parent_idx));
                            assert(false);
                        }
                    }
                }
                if g_is_left {
                    arena_set(
                        &mut self.bst.nodes,
                        g,
                        Node {
                            key: gn.key,
                            color: gn.color,
                            left: Some(node_idx),
                            right: gn.right,
                            parent: gn.parent,
                        },
                    );
                } else {
                    arena_set(
                        &mut self.bst.nodes,
                        g,
                        Node {
                            key: gn.key,
                            color: gn.color,
                            left: gn.left,
                            right: Some(node_idx),
                            parent: gn.parent,
                        },
                    );
                }
                proof {
                    let m4 = arena_view(self.bst.nodes);
                    assert(m4.dom() =~= m0.dom());
                    assert forall|y: Handle| #[trigger]
                        hset(m3, Some(node_idx), s2).contains(y) implies m4.contains_key(y)
                        && m4[y] == m3[y] && m3.contains_key(y) by {
                        lemma_rep_in_dom(m3, Some(node_idx), s2, gp_opt);
                        assert(hset(m0, Some(parent_idx), xq).contains(y));
                        assert(y != g);
                    }
                    lemma_rep_frame(m3, m4, Some(node_idx), s2, gp_opt);
                    lemma_update_at(m0, m4, old(self).bst.root, t0, None, q, s2, Some(node_idx));
                    self.bst.shape@ = update_at(t0, q, s2);
                    assert(hset(m4, self.bst.root, self.bst.shape@) =~= m4.dom());
                }
            }
        }
    }

    /// Recolor the node at `node_idx`, which the path `p` leads to.
    fn set_node_color(&mut self, node_idx: Handle, color: Color, Ghost(p): Ghost<Seq<bool>>)
        requires
            old(self).bst.wf(),
            valid_path(old(self).bst.shape@, p),
            subtree_at(old(self).bst.shape@, p) is Branch,
            handle_at(
                arena_view(old(self).bst.nodes),
                old(self).bst.root,
                old(self).bst.shape@,
                p,
            ) == Some(node_idx),
        ensures
            final(self).bst.wf(),
            final(self).bst.shape@ == update_at(
                old(self).bst.shape@,
                p,
                recolor(subtree_at(old(self).bst.shape@, p), color),
            ),
            final(self).bst.root == old(self).bst.root,
            handle_at(
                arena_view(final(self).bst.nodes),
                final(self).bst.root,
                final(self).bst.shape@,
                p,
            ) == Some(node_idx),
            arena_view(final(self).bst.nodes).dom() == arena_view(old(self).bst.nodes).dom(),
    {
        let ghost t0 = self.bst.shape@;
        let ghost m0 = arena_view(self.bst.nodes);
        let ghost x = subtree_at(t0, p);
        let ghost s2 = recolor(x, color);
        proof {
            lemma_at_path(m0, self.bst.root, t0, None, p);
        }
        let n = arena_get(&self.bst.nodes, node_idx);
        arena_set(
            &mut self.bst.nodes,
            node_idx,
            Node { key: n.key, color, left: n.left, right: n.right, parent: n.parent },
        );
        proof {
            let m2 = arena_view(self.bst.nodes);
            let pp = path_parent(m0, self.bst.root, t0, None, p);
            let ghost (xl, xr) = match x {
                KeyTree::Leaf => (KeyTree::Leaf, KeyTree::Leaf),
                KeyTree::Branch { left, right, .. } => (*left, *right),
            };
            assert(rep(m0, Some(node_idx), x, pp));
            assert(rep(m0, n.left, xl, Some(node_idx)));
            assert(rep(m0, n.right, xr, Some(node_idx)));
            assert forall|y: Handle| #[trigger]
                hset(m0, n.left, xl).contains(y) implies m2.contains_key(y) && m2[y] == m0[y]
                && m0.contains_key(y) by {
                lemma_rep_in_dom(m0, n.left, xl, Some(node_idx));
                assert(y != node_idx);
            }
            assert forall|y: Handle| #[trigger]
                hset(m0, n.right, xr).contains(y) implies m2.contains_key(y) && m2[y] == m0[y]
                && m0.contains_key(y) by {
                lemma_rep_in_dom(m0, n.right, xr, Some(node_idx));
                assert(y != node_idx);
            }
            lemma_rep_frame(m0, m2, n.left, xl, Some(node_idx));
            lemma_rep_frame(m0, m2, n.right, xr, Some(node_idx));
            assert(rep(m2, Some(node_idx), s2, pp));
            assert(uniq(m2, Some(node_idx), s2));
            assert(hset(m2, Some(node_idx), s2) =~= hset(m0, Some(node_idx), x));
            assert(m2.dom() =~= m0.dom());
            if p.len() == 0 {
                self.bst.shape@ = s2;
                assert(update_at(t0, p, s2) == s2);
                assert(hset(m2, self.bst.root, s2) =~= m2.dom());
            } else {
                lemma_valid_prefix(t0, p);
                lemma_at_path(m0, self.bst.root, t0, None, p.drop_last());
                assert(p =~= p.drop_last() + seq![p.last()]);
                lemma_handle_at_append(m0, self.bst.root, t0, p.drop_last(), seq![p.last()]);
                assert(seq![p.last()].drop_first() =~= Seq::<bool>::empty());
                let hq_opt = handle_at(m0, self.bst.root, t0, p.drop_last());
                if let Some(hqv) = hq_opt {
                    let xq = subtree_at(t0, p.drop_last());
                    assert(hset(m0, Some(node_idx), x).contains(node_idx));
                    assert(rep(
                        m0,
                        hq_opt,
                        xq,
                        path_parent(m0, self.bst.root, t0, None, p.drop_last()),
                    ));
                    assert(uniq(m0, hq_opt, xq));
                    assert(handle_at(m0, hq_opt, xq, seq![p.last()]) == Some(node_idx));
                    assert(seq![p.last()][0] == p.last());
                    assert(handle_at(
                        m0,
                        if p.last() {
                            m0[hqv].right
                        } else {
                            m0[hqv].left
                        },
                        child_of(xq, p.last()),
                        Seq::<bool>::empty(),
                    ) == (if p.last() {
                        m0[hqv].right
                    } else {
                        m0[hqv].left
                    }));
                    assert((if p.last() {
                        m0[hqv].right
                    } else {
                        m0[hqv].left
                    }) == Some(node_idx));
                    assert(hqv != node_idx);
                    assert(m2[hqv] == m0[hqv]);
                }
                lemma_update_at(m0, m2, self.bst.root, t0, None, p, s2, Some(node_idx));
                self.bst.shape@ = update_at(t0, p, s2);
                assert(hset(m2, self.bst.root, self.bst.shape@) =~= m2.dom());
            }
        }
    }
}

} // verus!
