//! The container's laws, proved over the model: what insertion, search,
//! removal and the traversals do to the multiset of keys, and that the
//! binary-search-tree ordering invariant is preserved by every operation.

use vstd::multiset::Multiset;
use vstd::prelude::*;

use crate::model::KeyTree;
use crate::model::bst_ok;
use crate::model::bst_weak;
use crate::model::level_order;
use crate::model::level_order_queue;
use crate::model::preorder;
use crate::model::queue_size;
use crate::model::tree_delete_min;
use crate::model::tree_insert;
use crate::model::tree_keys;
use crate::model::tree_min;
use crate::model::tree_remove;
use crate::model::tree_remove_root;
use crate::model::tree_search;
use crate::model::tree_size;
use crate::model::valid_path;
use crate::node::Color;

verus! {

broadcast use vstd::multiset::group_multiset_axioms;

/// A tree holds exactly as many keys as it has nodes.
pub proof fn lemma_size_keys(t: KeyTree)
    ensures
        tree_keys(t).len() == tree_size(t),
    decreases t,
{
    match t {
        KeyTree::Leaf => {
        }
        KeyTree::Branch { left, right, .. } => {
            lemma_size_keys(*left);
            lemma_size_keys(*right);
        }
    }
}

/// Inserting a key adds exactly that key to the multiset of keys, and grows
/// the tree by exactly one node: one half of the size bookkeeping law.
pub proof fn lemma_insert_keys(t: KeyTree, k: u64, c: Color)
    ensures
        tree_keys(tree_insert(t, k, c)) == tree_keys(t).insert(k),
        tree_size(tree_insert(t, k, c)) == tree_size(t) + 1,
    decreases t,
{
    match t {
        KeyTree::Leaf => {
            assert(tree_keys(tree_insert(t, k, c)) =~= tree_keys(t).insert(k));
        }
        KeyTree::Branch { key, left, right, .. } => {
            if k < key {
                lemma_insert_keys(*left, k, c);
            } else {
                lemma_insert_keys(*right, k, c);
            }
            assert(tree_keys(tree_insert(t, k, c)) =~= tree_keys(t).insert(k));
        }
    }
}

/// Insertion preserves the ordering invariant: ties go right, everything
/// smaller goes left.
pub proof fn lemma_insert_bst(t: KeyTree, k: u64, c: Color)
    requires
        bst_ok(t),
    ensures
        bst_ok(tree_insert(t, k, c)),
    decreases t,
{
    match t {
        KeyTree::Leaf => {
            assert(tree_keys(KeyTree::Leaf) =~= Multiset::empty());
            assert(bst_ok(KeyTree::Leaf));
            assert(bst_ok(tree_insert(t, k, c)));
        }
        KeyTree::Branch { key, left, right, .. } => {
            if k < key {
                lemma_insert_bst(*left, k, c);
                lemma_insert_keys(*left, k, c);
                assert forall|x: u64| #[trigger]
                    tree_keys(tree_insert(*left, k, c)).contains(x) implies x < key by {
                    if x != k {
                        assert(tree_keys(*left).contains(x));
                    }
                }
                assert(bst_ok(tree_insert(t, k, c)));
            } else {
                lemma_insert_bst(*right, k, c);
                lemma_insert_keys(*right, k, c);
                assert forall|x: u64| #[trigger]
                    tree_keys(tree_insert(*right, k, c)).contains(x) implies x >= key by {
                    if x != k {
                        assert(tree_keys(*right).contains(x));
                    }
                }
                assert(bst_ok(tree_insert(t, k, c)));
            }
        }
    }
}

/// Under the ordering invariant the comparison walk is a decision procedure
/// for membership: it succeeds exactly when the key occurs in the tree.
pub proof fn lemma_search_member(t: KeyTree, k: u64)
    requires
        bst_ok(t),
    ensures
        tree_search(t, k) <==> tree_keys(t).contains(k),
    decreases t,
{
    match t {
        KeyTree::Leaf => {
        }
        KeyTree::Branch { key, left, right, .. } => {
            lemma_search_member(*left, k);
            lemma_search_member(*right, k);
        }
    }
}

/// What unlinking the leftmost node does: the leftmost key is the minimum of
/// the tree, it occurs in the tree, removing it removes exactly one copy of
/// it, and the ordering invariant survives.
pub proof fn lemma_delete_min(t: KeyTree)
    requires
        bst_ok(t),
        t is Branch,
    ensures
        tree_keys(t).contains(tree_min(t)),
        tree_keys(tree_delete_min(t)) == tree_keys(t).remove(tree_min(t)),
        tree_size(tree_delete_min(t)) + 1 == tree_size(t),
        bst_ok(tree_delete_min(t)),
        forall|x: u64| #[trigger] tree_keys(t).contains(x) ==> tree_min(t) <= x,
    decreases t,
{
    match t {
        KeyTree::Leaf => {
        }
        KeyTree::Branch { key, left, right, .. } => {
            if *left is Leaf {
                assert(tree_keys(*left) =~= Multiset::empty());
                assert(tree_keys(tree_delete_min(t)) =~= tree_keys(t).remove(key));
                lemma_size_keys(t);
                lemma_size_keys(tree_delete_min(t));
                assert(bst_ok(tree_delete_min(t)));
                assert forall|x: u64| #[trigger] tree_keys(t).contains(x) implies key <= x by {
                    if x != key {
                        assert(tree_keys(*left).contains(x) || tree_keys(*right).contains(x));
                    }
                }
            } else {
                lemma_delete_min(*left);
                assert(tree_keys(tree_delete_min(t)) =~= tree_keys(t).remove(tree_min(*left)));
                lemma_size_keys(t);
                lemma_size_keys(tree_delete_min(t));
                assert forall|x: u64| #[trigger]
                    tree_keys(tree_delete_min(*left)).contains(x) implies x < key by {
                    assert(tree_keys(*left).remove(tree_min(*left)).contains(x));
                    assert(tree_keys(*left).contains(x));
                }
                assert(bst_ok(tree_delete_min(t)));
                assert forall|x: u64| #[trigger] tree_keys(t).contains(x) implies tree_min(t)
                    <= x by {
                    if tree_keys(*left).contains(x) {
                    } else if x == key {
                        assert(tree_keys(*left).contains(tree_min(*left)));
                    } else {
                        assert(tree_keys(*right).contains(x));
                        assert(tree_keys(*left).contains(tree_min(*left)));
                    }
                }
            }
        }
    }
}

/// What removal does to the model: an absent key leaves the tree untouched; a
/// present key loses exactly one copy and one node; and the ordering
/// invariant survives either way.
pub proof fn lemma_remove(t: KeyTree, k: u64)
    requires
        bst_ok(t),
    ensures
        bst_ok(tree_remove(t, k)),
        tree_search(t, k) ==> tree_keys(tree_remove(t, k)) == tree_keys(t).remove(k)
            && tree_size(tree_remove(t, k)) + 1 == tree_size(t),
        !tree_search(t, k) ==> tree_remove(t, k) == t,
    decreases t,
{
    match t {
        KeyTree::Leaf => {
        }
        KeyTree::Branch { key, left, right, .. } => {
            if k == key {
                lemma_remove_root(t);
            } else if k < key {
                lemma_remove(*left, k);
                if tree_search(*left, k) {
                    assert(tree_keys(tree_remove(t, k)) == tree_keys(
                        tree_remove(*left, k),
                    ).add(tree_keys(*right)).insert(key));
                    assert(tree_keys(tree_remove(*left, k)) == tree_keys(*left).remove(k));
                    lemma_search_member(*left, k);
                    assert(tree_keys(*left).contains(k));
                    assert(tree_keys(tree_remove(t, k)) =~= tree_keys(t).remove(k));
                    lemma_size_keys(t);
                    lemma_size_keys(tree_remove(t, k));
                    assert forall|x: u64| #[trigger]
                        tree_keys(tree_remove(*left, k)).contains(x) implies x < key by {
                        assert(tree_keys(*left).remove(k).contains(x));
                        assert(tree_keys(*left).contains(x));
                    }
                } else {
                    assert(tree_remove(t, k) =~= t);
                }
            } else {
                lemma_remove(*right, k);
                if tree_search(*right, k) {
                    assert(tree_keys(tree_remove(t, k)) == tree_keys(*left).add(
                        tree_keys(tree_remove(*right, k)),
                    ).insert(key));
                    assert(tree_keys(tree_remove(*right, k)) == tree_keys(*right).remove(k));
                    lemma_search_member(*right, k);
                    assert(tree_keys(*right).contains(k));
                    assert(tree_keys(tree_remove(t, k)) =~= tree_keys(t).remove(k));
                    lemma_size_keys(t);
                    lemma_size_keys(tree_remove(t, k));
                    assert forall|x: u64| #[trigger]
                        tree_keys(tree_remove(*right, k)).contains(x) implies x >= key by {
                        assert(tree_keys(*right).remove(k).contains(x));
                        assert(tree_keys(*right).contains(x));
                    }
                } else {
                    assert(tree_remove(t, k) =~= t);
                }
            }
        }
    }
}

/// The root-removal cases: the sole child takes an underpopulated root's
/// place; a root with two children takes its successor's key and the
/// successor is unlinked.
pub proof fn lemma_remove_root(t: KeyTree)
    requires
        bst_ok(t),
        t is Branch,
    ensures
        bst_ok(tree_remove_root(t)),
        ({
            let key = match t {
                KeyTree::Leaf => 0u64,
                KeyTree::Branch { key, .. } => key,
            };
            &&& tree_keys(tree_remove_root(t)) == tree_keys(t).remove(key)
            &&& tree_size(tree_remove_root(t)) + 1 == tree_size(t)
        }),
{
    match t {
        KeyTree::Leaf => {
        }
        KeyTree::Branch { key, left, right, .. } => {
            if *left is Leaf {
                assert(tree_keys(*left) =~= Multiset::empty());
                assert(tree_keys(tree_remove_root(t)) =~= tree_keys(t).remove(key));
                lemma_size_keys(t);
                lemma_size_keys(tree_remove_root(t));
            } else if *right is Leaf {
                assert(tree_keys(*right) =~= Multiset::empty());
                assert(tree_keys(tree_remove_root(t)) =~= tree_keys(t).remove(key));
                lemma_size_keys(t);
                lemma_size_keys(tree_remove_root(t));
            } else {
                lemma_delete_min(*right);
                let mr = tree_min(*right);
                assert(tree_keys(*right).contains(mr));
                assert(mr >= key);
                assert(tree_keys(tree_remove_root(t)) =~= tree_keys(t).remove(key));
                lemma_size_keys(t);
                lemma_size_keys(tree_remove_root(t));
                assert forall|x: u64| #[trigger] tree_keys(*left).contains(x) implies x < mr by {}
                assert forall|x: u64| #[trigger]
                    tree_keys(tree_delete_min(*right)).contains(x) implies x >= mr by {
                    assert(tree_keys(*right).remove(mr).contains(x));
                    assert(tree_keys(*right).contains(x));
                }
            }
        }
    }
}

/// Replacing the subtree at a valid path by one with the same keys and a
/// sound ordering keeps the whole tree's keys and its ordering invariant.
pub proof fn lemma_bst_update_at(t: KeyTree, p: Seq<bool>, s: KeyTree)
    requires
        bst_weak(t),
        valid_path(t, p),
        bst_weak(s),
        tree_keys(s) == tree_keys(crate::model::subtree_at(t, p)),
    ensures
        bst_weak(crate::model::update_at(t, p, s)),
        tree_keys(crate::model::update_at(t, p, s)) == tree_keys(t),
    decreases p.len(),
{
    if p.len() == 0 {
    } else {
        match t {
            KeyTree::Leaf => {
            }
            KeyTree::Branch { key, left, right, .. } => {
                if p[0] {
                    lemma_bst_update_at(*right, p.drop_first(), s);
                    assert(tree_keys(crate::model::update_at(t, p, s)) =~= tree_keys(t));
                } else {
                    lemma_bst_update_at(*left, p.drop_first(), s);
                    assert(tree_keys(crate::model::update_at(t, p, s)) =~= tree_keys(t));
                }
            }
        }
    }
}

/// A right rotation rearranges the links but keeps the keys and the ordering
/// invariant.
pub proof fn lemma_rotate_right_bst(x: KeyTree)
    requires
        bst_weak(x),
    ensures
        bst_weak(crate::model::rotate_right_spec(x)),
        tree_keys(crate::model::rotate_right_spec(x)) == tree_keys(x),
{
    match x {
        KeyTree::Leaf => {
        }
        KeyTree::Branch { key, color, left, right } => {
            match *left {
                KeyTree::Leaf => {
                }
                KeyTree::Branch { key: lk, color: lc, left: ll, right: lr } => {
                    let inner = KeyTree::Branch { key, color, left: lr, right };
                    assert(bst_weak(*left));
                    assert(bst_weak(*right));
                    assert(tree_keys(*left).contains(lk));
                    assert forall|v: u64| #[trigger] tree_keys(*lr).contains(v) implies v
                        <= key by {
                        assert(tree_keys(*left).contains(v));
                    }
                    assert(bst_weak(inner));
                    assert forall|v: u64| #[trigger] tree_keys(inner).contains(v) implies v
                        >= lk by {
                        if v != key && !tree_keys(*lr).contains(v) {
                            assert(tree_keys(*right).contains(v));
                            assert(v >= key);
                        }
                    }
                    assert(tree_keys(inner) =~= tree_keys(*lr).add(tree_keys(*right)).insert(
                        key,
                    ));
                    assert(bst_weak(crate::model::rotate_right_spec(x)));
                    assert(tree_keys(crate::model::rotate_right_spec(x)) =~= tree_keys(x));
                }
            }
        }
    }
}

/// A left rotation rearranges the links but keeps the keys and the ordering
/// invariant.
pub proof fn lemma_rotate_left_bst(x: KeyTree)
    requires
        bst_weak(x),
    ensures
        bst_weak(crate::model::rotate_left_spec(x)),
        tree_keys(crate::model::rotate_left_spec(x)) == tree_keys(x),
{
    match x {
        KeyTree::Leaf => {
        }
        KeyTree::Branch { key, color, left, right } => {
            match *right {
                KeyTree::Leaf => {
                }
                KeyTree::Branch { key: rk, color: rc, left: rl, right: rr } => {
                    let inner = KeyTree::Branch { key, color, left, right: rl };
                    assert(bst_weak(*left));
                    assert(bst_weak(*right));
                    assert(tree_keys(*right).contains(rk));
                    assert forall|v: u64| #[trigger] tree_keys(*rl).contains(v) implies v
                        >= key by {
                        assert(tree_keys(*right).contains(v));
                    }
                    assert(bst_weak(inner));
                    assert forall|v: u64| #[trigger] tree_keys(inner).contains(v) implies v
                        <= rk by {
                        if v != key && !tree_keys(*rl).contains(v) {
                            assert(tree_keys(*left).contains(v));
                            assert(v <= key);
                            assert(key <= rk);
                        }
                    }
                    assert(tree_keys(inner) =~= tree_keys(*left).add(tree_keys(*rl)).insert(
                        key,
                    ));
                    assert(bst_weak(crate::model::rotate_left_spec(x)));
                    assert(tree_keys(crate::model::rotate_left_spec(x)) =~= tree_keys(x));
                }
            }
        }
    }
}

/// Changing only a node's color changes neither the keys nor the ordering.
pub proof fn lemma_recolor_bst(x: KeyTree, c: Color)
    ensures
        tree_keys(crate::model::recolor(x, c)) == tree_keys(x),
        bst_ok(x) ==> bst_ok(crate::model::recolor(x, c)),
        bst_weak(x) ==> bst_weak(crate::model::recolor(x, c)),
{
    match x {
        KeyTree::Leaf => {
        }
        KeyTree::Branch { .. } => {
            assert(tree_keys(crate::model::recolor(x, c)) =~= tree_keys(x));
        }
    }
}

/// Every subtree of a tree with the non-strict ordering invariant has it
/// too.
pub proof fn lemma_bst_weak_subtree(t: KeyTree, p: Seq<bool>)
    requires
        bst_weak(t),
        valid_path(t, p),
    ensures
        bst_weak(crate::model::subtree_at(t, p)),
    decreases p.len(),
{
    if p.len() > 0 {
        match t {
            KeyTree::Leaf => {
            }
            KeyTree::Branch { left, right, .. } => {
                lemma_bst_weak_subtree(crate::model::child_of(t, p[0]), p.drop_first());
            }
        }
    }
}

/// The uncle-Red fixup step changes only colors: keys and ordering survive.
pub proof fn lemma_push_blackness_bst(x: KeyTree)
    ensures
        tree_keys(crate::model::push_blackness_down(x)) == tree_keys(x),
        bst_weak(x) ==> bst_weak(crate::model::push_blackness_down(x)),
{
    match x {
        KeyTree::Leaf => {
        }
        KeyTree::Branch { key, left, right, .. } => {
            lemma_recolor_bst(*left, Color::Black);
            lemma_recolor_bst(*right, Color::Black);
            assert(tree_keys(crate::model::push_blackness_down(x)) =~= tree_keys(x));
            if bst_weak(x) {
                assert(bst_weak(crate::model::push_blackness_down(x)));
            }
        }
    }
}

/// The post-rotation color swap changes only colors: keys and ordering
/// survive.
pub proof fn lemma_recolor_top_child_bst(x: KeyTree, dir: bool, tc: Color, cc: Color)
    ensures
        tree_keys(crate::model::recolor_top_child(x, dir, tc, cc)) == tree_keys(x),
        bst_weak(x) ==> bst_weak(crate::model::recolor_top_child(x, dir, tc, cc)),
{
    match x {
        KeyTree::Leaf => {
        }
        KeyTree::Branch { key, left, right, .. } => {
            lemma_recolor_bst(*left, cc);
            lemma_recolor_bst(*right, cc);
            assert(tree_keys(crate::model::recolor_top_child(x, dir, tc, cc)) =~= tree_keys(x));
            if bst_weak(x) {
                assert(bst_weak(crate::model::recolor_top_child(x, dir, tc, cc)));
            }
        }
    }
}

/// All keys held by a queue of subtrees.
pub open spec fn queue_keys(q: Seq<KeyTree>) -> Multiset<u64>
    decreases q.len(),
{
    if q.len() == 0 {
        Multiset::empty()
    } else {
        tree_keys(q[0]).add(queue_keys(q.drop_first()))
    }
}

/// Appending a subtree at the back adds its keys to the queue's.
pub proof fn lemma_queue_keys_push(q: Seq<KeyTree>, t: KeyTree)
    ensures
        queue_keys(q.push(t)) == queue_keys(q).add(tree_keys(t)),
    decreases q.len(),
{
    if q.len() == 0 {
        assert(q.push(t).drop_first() =~= q);
        assert(queue_keys(q.push(t)) =~= queue_keys(q).add(tree_keys(t)));
    } else {
        assert(q.push(t).drop_first() =~= q.drop_first().push(t));
        lemma_queue_keys_push(q.drop_first(), t);
        assert(queue_keys(q.push(t)) =~= queue_keys(q).add(tree_keys(t)));
    }
}

/// A depth-first pre-order traversal yields each key of the tree exactly as
/// often as the tree holds it.
pub proof fn lemma_preorder_keys(t: KeyTree)
    ensures
        preorder(t).to_multiset() == tree_keys(t),
    decreases t,
{
    broadcast use vstd::seq_lib::group_to_multiset_ensures;

    match t {
        KeyTree::Leaf => {
            assert(preorder(t).to_multiset() =~= tree_keys(t));
        }
        KeyTree::Branch { key, left, right, .. } => {
            lemma_preorder_keys(*left);
            lemma_preorder_keys(*right);
            vstd::seq_lib::lemma_multiset_commutative(seq![key] + preorder(*left), preorder(
                *right,
            ));
            vstd::seq_lib::lemma_multiset_commutative(seq![key], preorder(*left));
            assert(seq![key] =~= Seq::empty().push(key));
            assert(seq![key].to_multiset() =~= Multiset::empty().insert(key));
            assert(preorder(t).to_multiset() =~= tree_keys(t));
        }
    }
}

/// A breadth-first traversal of a queue of subtrees yields each key exactly
/// as often as the queue holds it.
pub proof fn lemma_level_order_queue_keys(q: Seq<KeyTree>)
    ensures
        level_order_queue(q).to_multiset() == queue_keys(q),
    decreases queue_size(q), q.len(),
{
    broadcast use vstd::seq_lib::group_to_multiset_ensures;

    if q.len() == 0 {
        assert(level_order_queue(q).to_multiset() =~= queue_keys(q));
    } else {
        match q[0] {
            KeyTree::Leaf => {
                lemma_level_order_queue_keys(q.drop_first());
                assert(tree_keys(q[0]) =~= Multiset::empty());
                assert(level_order_queue(q).to_multiset() =~= queue_keys(q));
            }
            KeyTree::Branch { key, left, right, .. } => {
                let q2 = q.drop_first().push(*left).push(*right);
                crate::model::lemma_queue_size_push(q.drop_first(), *left);
                crate::model::lemma_queue_size_push(q.drop_first().push(*left), *right);
                lemma_level_order_queue_keys(q2);
                lemma_queue_keys_push(q.drop_first(), *left);
                lemma_queue_keys_push(q.drop_first().push(*left), *right);
                vstd::seq_lib::lemma_multiset_commutative(seq![key], level_order_queue(q2));
                assert(seq![key] =~= Seq::empty().push(key));
                assert(seq![key].to_multiset() =~= Multiset::empty().insert(key));
                assert(level_order_queue(q).to_multiset() =~= queue_keys(q));
            }
        }
    }
}

/// A breadth-first traversal of a tree yields each key exactly as often as
/// the tree holds it.
pub proof fn lemma_level_order_keys(t: KeyTree)
    ensures
        level_order(t).to_multiset() == tree_keys(t),
{
    lemma_level_order_queue_keys(seq![t]);
    assert(seq![t].drop_first() =~= Seq::<KeyTree>::empty());
    assert(queue_keys(Seq::<KeyTree>::empty()) =~= Multiset::<u64>::empty());
    assert(queue_keys(seq![t]) =~= tree_keys(t));
}

/// The tree produced by inserting a sequence of keys in order, each colored
/// Red on creation, into an empty tree.
pub open spec fn build_tree(s: Seq<u64>) -> KeyTree
    decreases s.len(),
{
    if s.len() == 0 {
        KeyTree::Leaf
    } else {
        tree_insert(build_tree(s.drop_last()), s.last(), Color::Red)
    }
}

/// A built tree holds exactly the inserted keys and satisfies the ordering
/// invariant, whatever the insertion order.
pub proof fn lemma_build_tree(s: Seq<u64>)
    ensures
        tree_keys(build_tree(s)) == s.to_multiset(),
        bst_ok(build_tree(s)),
    decreases s.len(),
{
    broadcast use vstd::seq_lib::group_to_multiset_ensures;

    if s.len() == 0 {
        assert(tree_keys(build_tree(s)) =~= s.to_multiset());
    } else {
        lemma_build_tree(s.drop_last());
        lemma_insert_keys(build_tree(s.drop_last()), s.last(), Color::Red);
        lemma_insert_bst(build_tree(s.drop_last()), s.last(), Color::Red);
        assert(s =~= s.drop_last().push(s.last()));
        assert(s.to_multiset() =~= s.drop_last().to_multiset().insert(s.last()));
    }
}

/// Round trip: inserting any sequence of keys and then traversing, depth- or
/// breadth-first, yields each inserted key exactly as often as it was
/// inserted — for a permutation of distinct keys, each key exactly once.
pub proof fn lemma_traversal_round_trip(s: Seq<u64>)
    ensures
        preorder(build_tree(s)).to_multiset() == s.to_multiset(),
        level_order(build_tree(s)).to_multiset() == s.to_multiset(),
{
    lemma_build_tree(s);
    lemma_preorder_keys(build_tree(s));
    lemma_level_order_keys(build_tree(s));
}

/// Every subtree of a tree without red-red pairs is without them too.
pub proof fn lemma_no_red_red_subtree(t: KeyTree, q: Seq<bool>)
    requires
        crate::model::no_red_red(t),
        valid_path(t, q),
    ensures
        crate::model::no_red_red(crate::model::subtree_at(t, q)),
    decreases q.len(),
{
    if q.len() > 0 {
        match t {
            KeyTree::Leaf => {
            }
            KeyTree::Branch { .. } => {
                lemma_no_red_red_subtree(crate::model::child_of(t, q[0]), q.drop_first());
            }
        }
    }
}

/// Cutting a subtree out cannot create a red-red pair.
pub proof fn lemma_no_red_red_cut(t: KeyTree, q: Seq<bool>)
    requires
        crate::model::no_red_red(t),
        valid_path(t, q),
    ensures
        crate::model::no_red_red(crate::model::update_at(t, q, KeyTree::Leaf)),
    decreases q.len(),
{
    if q.len() > 0 {
        match t {
            KeyTree::Leaf => {
            }
            KeyTree::Branch { .. } => {
                lemma_no_red_red_cut(crate::model::child_of(t, q[0]), q.drop_first());
                assert(q.drop_first().len() >= 1 ==> crate::model::color_of(
                    crate::model::update_at(
                        crate::model::child_of(t, q[0]),
                        q.drop_first(),
                        KeyTree::Leaf,
                    ),
                ) == crate::model::color_of(crate::model::child_of(t, q[0])));
            }
        }
    }
}

/// Grafting a subtree free of red-red pairs into the cut position yields a
/// tree free of them, provided the seam itself cannot be red-red: the graft
/// is at the root, or has a Black root, or hangs off a Black parent.
pub proof fn lemma_no_red_red_graft(t: KeyTree, q: Seq<bool>, s: KeyTree)
    requires
        crate::model::no_red_red(crate::model::update_at(t, q, KeyTree::Leaf)),
        crate::model::no_red_red(s),
        valid_path(t, q),
        q.len() == 0 || crate::model::color_of(s) == Color::Black || crate::model::color_of(
            crate::model::subtree_at(t, q.drop_last()),
        ) == Color::Black,
    ensures
        crate::model::no_red_red(crate::model::update_at(t, q, s)),
    decreases q.len(),
{
    if q.len() == 0 {
    } else {
        match t {
            KeyTree::Leaf => {
            }
            KeyTree::Branch { .. } => {
                let c = crate::model::child_of(t, q[0]);
                if q.len() == 1 {
                    assert(q.drop_last() =~= Seq::<bool>::empty());
                    assert(crate::model::subtree_at(t, q.drop_last()) == t);
                    assert(q.drop_first() =~= Seq::<bool>::empty());
                    assert(crate::model::update_at(c, q.drop_first(), s) == s);
                    assert(crate::model::update_at(c, q.drop_first(), KeyTree::Leaf)
                        == KeyTree::Leaf);
                    assert(crate::model::no_red_red(crate::model::update_at(t, q, s)));
                } else {
                    assert(q.drop_last()[0] == q[0]);
                    assert(q.drop_last().drop_first() =~= q.drop_first().drop_last());
                    assert(crate::model::subtree_at(t, q.drop_last()) == crate::model::subtree_at(
                        c,
                        q.drop_first().drop_last(),
                    ));
                    lemma_no_red_red_graft(c, q.drop_first(), s);
                    assert(crate::model::color_of(
                        crate::model::update_at(c, q.drop_first(), s),
                    ) == crate::model::color_of(c));
                    assert(crate::model::color_of(
                        crate::model::update_at(c, q.drop_first(), KeyTree::Leaf),
                    ) == crate::model::color_of(c));
                    assert(crate::model::no_red_red(crate::model::update_at(t, q, s)));
                }
            }
        }
    }
}

/// One unfolding of the red-red clause, child by child.
pub proof fn lemma_no_red_red_children(t: KeyTree)
    requires
        crate::model::no_red_red(t),
    ensures
        crate::model::no_red_red(crate::model::child_of(t, false)),
        crate::model::no_red_red(crate::model::child_of(t, true)),
        crate::model::color_of(t) == Color::Red ==> crate::model::color_of(
            crate::model::child_of(t, false),
        ) == Color::Black && crate::model::color_of(crate::model::child_of(t, true))
            == Color::Black,
{
    match t {
        KeyTree::Leaf => {
        }
        KeyTree::Branch { .. } => {
        }
    }
}

/// One step of an update below a nonempty node: the stepped-into child is
/// updated along the rest of the path, the other child and the node's own
/// key and color stay.
pub proof fn lemma_update_child(t: KeyTree, p: Seq<bool>, s: KeyTree)
    requires
        p.len() >= 1,
        t is Branch,
    ensures
        crate::model::child_of(crate::model::update_at(t, p, s), p[0]) == crate::model::update_at(
            crate::model::child_of(t, p[0]),
            p.drop_first(),
            s,
        ),
        crate::model::child_of(crate::model::update_at(t, p, s), !p[0]) == crate::model::child_of(
            t,
            !p[0],
        ),
        crate::model::color_of(crate::model::update_at(t, p, s)) == crate::model::color_of(t),
        crate::model::update_at(t, p, s) is Branch,
{
}

/// Changing only a node's color leaves every black-height comparison below
/// it untouched.
pub proof fn lemma_balanced_recolor(x: KeyTree, c: Color)
    ensures
        crate::model::balanced_black(crate::model::recolor(x, c)) == crate::model::balanced_black(
            x,
        ),
{
    match x {
        KeyTree::Leaf => {
        }
        KeyTree::Branch { .. } => {
        }
    }
}

/// Every subtree of a black-balanced tree is black-balanced.
pub proof fn lemma_balanced_subtree(t: KeyTree, q: Seq<bool>)
    requires
        crate::model::balanced_black(t),
        valid_path(t, q),
    ensures
        crate::model::balanced_black(crate::model::subtree_at(t, q)),
    decreases q.len(),
{
    if q.len() > 0 {
        match t {
            KeyTree::Leaf => {
            }
            KeyTree::Branch { .. } => {
                lemma_balanced_subtree(crate::model::child_of(t, q[0]), q.drop_first());
            }
        }
    }
}

/// Replacing the subtree at a valid path by a black-balanced one of the same
/// black-height keeps the whole tree black-balanced, at the same height.
pub proof fn lemma_balanced_update(t: KeyTree, q: Seq<bool>, s: KeyTree)
    requires
        crate::model::balanced_black(t),
        valid_path(t, q),
        crate::model::balanced_black(s),
        crate::model::black_height(s) == crate::model::black_height(
            crate::model::subtree_at(t, q),
        ),
    ensures
        crate::model::balanced_black(crate::model::update_at(t, q, s)),
        crate::model::black_height(crate::model::update_at(t, q, s))
            == crate::model::black_height(t),
    decreases q.len(),
{
    if q.len() > 0 {
        match t {
            KeyTree::Leaf => {
            }
            KeyTree::Branch { left, right, .. } => {
                lemma_balanced_update(crate::model::child_of(t, q[0]), q.drop_first(), s);
            }
        }
    }
}

/// Structural insertion of a Red leaf changes no black-height anywhere.
pub proof fn lemma_insert_balanced(t: KeyTree, k: u64)
    requires
        crate::model::balanced_black(t),
    ensures
        crate::model::balanced_black(tree_insert(t, k, Color::Red)),
        crate::model::black_height(tree_insert(t, k, Color::Red)) == crate::model::black_height(
            t,
        ),
    decreases t,
{
    match t {
        KeyTree::Leaf => {
        }
        KeyTree::Branch { key, left, right, .. } => {
            if k < key {
                lemma_insert_balanced(*left, k);
            } else {
                lemma_insert_balanced(*right, k);
            }
        }
    }
}

/// Recoloring a node Black cannot create a red-red pair.
pub proof fn lemma_no_red_red_recolor_black(x: KeyTree)
    requires
        crate::model::no_red_red(x),
    ensures
        crate::model::no_red_red(crate::model::recolor(x, Color::Black)),
{
    match x {
        KeyTree::Leaf => {
        }
        KeyTree::Branch { .. } => {
        }
    }
}

/// Keys inserted in order into an existing tree, each colored Red.
pub open spec fn build_into(t: KeyTree, s: Seq<u64>) -> KeyTree
    decreases s.len(),
{
    if s.len() == 0 {
        t
    } else {
        tree_insert(build_into(t, s.drop_last()), s.last(), Color::Red)
    }
}

/// Building splits over concatenation.
pub proof fn lemma_build_into_concat(t: KeyTree, s1: Seq<u64>, s2: Seq<u64>)
    ensures
        build_into(t, s1 + s2) == build_into(build_into(t, s1), s2),
    decreases s2.len(),
{
    if s2.len() == 0 {
        assert(s1 + s2 =~= s1);
    } else {
        assert((s1 + s2).drop_last() =~= s1 + s2.drop_last());
        assert((s1 + s2).last() == s2.last());
        lemma_build_into_concat(t, s1, s2.drop_last());
    }
}

/// Keys strictly below the root all route into the left subtree.
pub proof fn lemma_build_into_left(t: KeyTree, s: Seq<u64>)
    requires
        t is Branch,
        forall|i: int| 0 <= i < s.len() ==> s[i] < (match t {
            KeyTree::Leaf => 0u64,
            KeyTree::Branch { key, .. } => key,
        }),
    ensures
        build_into(t, s) == (match t {
            KeyTree::Leaf => t,
            KeyTree::Branch { key, color, left, right } => KeyTree::Branch {
                key,
                color,
                left: Box::new(build_into(*left, s)),
                right,
            },
        }),
    decreases s.len(),
{
    if s.len() == 0 {
    } else {
        lemma_build_into_left(t, s.drop_last());
        assert(s.drop_last().len() == s.len() - 1);
        assert(forall|i: int| 0 <= i < s.drop_last().len() ==> s.drop_last()[i] == s[i]);
    }
}

/// Keys at or above the root all route into the right subtree.
pub proof fn lemma_build_into_right(t: KeyTree, s: Seq<u64>)
    requires
        t is Branch,
        forall|i: int| 0 <= i < s.len() ==> s[i] >= (match t {
            KeyTree::Leaf => 0u64,
            KeyTree::Branch { key, .. } => key,
        }),
    ensures
        build_into(t, s) == (match t {
            KeyTree::Leaf => t,
            KeyTree::Branch { key, color, left, right } => KeyTree::Branch {
                key,
                color,
                left,
                right: Box::new(build_into(*right, s)),
            },
        }),
    decreases s.len(),
{
    if s.len() == 0 {
    } else {
        lemma_build_into_right(t, s.drop_last());
        assert(forall|i: int| 0 <= i < s.drop_last().len() ==> s.drop_last()[i] == s[i]);
    }
}

/// Every node of the tree carries the color new nodes are created with;
/// true of any tree grown by structural inserts alone.
pub open spec fn all_red(t: KeyTree) -> bool
    decreases t,
{
    match t {
        KeyTree::Leaf => true,
        KeyTree::Branch { color, left, right, .. } => color == Color::Red && all_red(*left)
            && all_red(*right),
    }
}

/// The depth-first pre-order reproduces the exact insertion-derived shape:
/// feeding a plain tree's pre-order back into an empty tree rebuilds that
/// tree node for node, under the tie-goes-right policy.
pub proof fn lemma_preorder_rebuilds(t: KeyTree)
    requires
        bst_ok(t),
        all_red(t),
    ensures
        build_into(KeyTree::Leaf, preorder(t)) == t,
    decreases t,
{
    broadcast use vstd::seq_lib::group_to_multiset_ensures;

    match t {
        KeyTree::Leaf => {
            assert(preorder(t) =~= Seq::<u64>::empty());
        }
        KeyTree::Branch { key, color, left, right } => {
            lemma_preorder_rebuilds(*left);
            lemma_preorder_rebuilds(*right);
            lemma_preorder_keys(*left);
            lemma_preorder_keys(*right);
            let a = preorder(*left);
            let b = preorder(*right);
            assert(preorder(t) =~= (seq![key] + a) + b);
            lemma_build_into_concat(KeyTree::Leaf, seq![key] + a, b);
            lemma_build_into_concat(KeyTree::Leaf, seq![key], a);
            let root1 = build_into(KeyTree::Leaf, seq![key]);
            assert(seq![key].drop_last() =~= Seq::<u64>::empty());
            assert(seq![key].last() == key);
            assert(build_into(KeyTree::Leaf, Seq::<u64>::empty()) == KeyTree::Leaf);
            assert(root1 == tree_insert(KeyTree::Leaf, key, Color::Red));
            assert(root1 == KeyTree::Branch {
                key,
                color: Color::Red,
                left: Box::new(KeyTree::Leaf),
                right: Box::new(KeyTree::Leaf),
            });
            assert forall|i: int| 0 <= i < a.len() implies a[i] < key by {
                assert(a.to_multiset().contains(a[i]));
                assert(tree_keys(*left).contains(a[i]));
            }
            lemma_build_into_left(root1, a);
            let after_a = build_into(root1, a);
            assert(after_a == KeyTree::Branch {
                key,
                color: Color::Red,
                left: Box::new(*left),
                right: Box::new(KeyTree::Leaf),
            });
            assert forall|i: int| 0 <= i < b.len() implies b[i] >= key by {
                assert(b.to_multiset().contains(b[i]));
                assert(tree_keys(*right).contains(b[i]));
            }
            lemma_build_into_right(after_a, b);
            assert(build_into(after_a, b) == t);
        }
    }
}

/// Insertion of a Red node keeps every node Red.
pub proof fn lemma_insert_all_red(t: KeyTree, k: u64)
    requires
        all_red(t),
    ensures
        all_red(tree_insert(t, k, Color::Red)),
    decreases t,
{
    match t {
        KeyTree::Leaf => {
        }
        KeyTree::Branch { key, left, right, .. } => {
            if k < key {
                lemma_insert_all_red(*left, k);
            } else {
                lemma_insert_all_red(*right, k);
            }
        }
    }
}

/// A built tree is built key by key, and all its nodes are Red.
pub proof fn lemma_build_tree_into(s: Seq<u64>)
    ensures
        build_tree(s) == build_into(KeyTree::Leaf, s),
        all_red(build_tree(s)),
    decreases s.len(),
{
    if s.len() > 0 {
        lemma_build_tree_into(s.drop_last());
        lemma_insert_all_red(build_tree(s.drop_last()), s.last());
    }
}

/// For every insertion sequence, the depth-first pre-order reproduces the
/// exact insertion-derived shape: replaying it rebuilds the same tree.
pub proof fn lemma_dfs_reproduces_shape(s: Seq<u64>)
    ensures
        build_tree(preorder(build_tree(s))) == build_tree(s),
{
    lemma_build_tree_into(s);
    lemma_build_tree(s);
    lemma_preorder_rebuilds(build_tree(s));
    lemma_build_tree_into(preorder(build_tree(s)));
}

/// Removing a key that occurs exactly once: afterwards the key is no longer
/// found, the tree has exactly one node less, and the ordering invariant
/// still holds.
pub proof fn lemma_remove_present(t: KeyTree, k: u64)
    requires
        bst_ok(t),
        tree_keys(t).count(k) == 1,
    ensures
        !tree_search(tree_remove(t, k), k),
        tree_size(tree_remove(t, k)) + 1 == tree_size(t),
        bst_ok(tree_remove(t, k)),
{
    lemma_search_member(t, k);
    lemma_remove(t, k);
    lemma_search_member(tree_remove(t, k), k);
}

/// Insertion also preserves the non-strict ordering invariant.
pub proof fn lemma_insert_weak(t: KeyTree, k: u64, c: Color)
    requires
        bst_weak(t),
    ensures
        bst_weak(tree_insert(t, k, c)),
    decreases t,
{
    match t {
        KeyTree::Leaf => {
            assert(tree_keys(KeyTree::Leaf) =~= Multiset::empty());
            assert(bst_weak(KeyTree::Leaf));
            assert(bst_weak(tree_insert(t, k, c)));
        }
        KeyTree::Branch { key, left, right, .. } => {
            if k < key {
                lemma_insert_weak(*left, k, c);
                lemma_insert_keys(*left, k, c);
                assert forall|x: u64| #[trigger]
                    tree_keys(tree_insert(*left, k, c)).contains(x) implies x <= key by {
                    if x != k {
                        assert(tree_keys(*left).contains(x));
                    }
                }
                assert(bst_weak(tree_insert(t, k, c)));
            } else {
                lemma_insert_weak(*right, k, c);
                lemma_insert_keys(*right, k, c);
                assert forall|x: u64| #[trigger]
                    tree_keys(tree_insert(*right, k, c)).contains(x) implies x >= key by {
                    if x != k {
                        assert(tree_keys(*right).contains(x));
                    }
                }
                assert(bst_weak(tree_insert(t, k, c)));
            }
        }
    }
}

/// Even under the non-strict ordering invariant the comparison walk still
/// decides membership: equal keys can only sit where the walk passes.
pub proof fn lemma_search_member_weak(t: KeyTree, k: u64)
    requires
        bst_weak(t),
    ensures
        tree_search(t, k) <==> tree_keys(t).contains(k),
    decreases t,
{
    match t {
        KeyTree::Leaf => {
        }
        KeyTree::Branch { key, left, right, .. } => {
            lemma_search_member_weak(*left, k);
            lemma_search_member_weak(*right, k);
        }
    }
}

/// Unlinking the leftmost node under the non-strict ordering invariant.
pub proof fn lemma_delete_min_weak(t: KeyTree)
    requires
        bst_weak(t),
        t is Branch,
    ensures
        tree_keys(t).contains(tree_min(t)),
        tree_keys(tree_delete_min(t)) == tree_keys(t).remove(tree_min(t)),
        bst_weak(tree_delete_min(t)),
        forall|x: u64| #[trigger] tree_keys(t).contains(x) ==> tree_min(t) <= x,
    decreases t,
{
    match t {
        KeyTree::Leaf => {
        }
        KeyTree::Branch { key, left, right, .. } => {
            if *left is Leaf {
                assert(tree_keys(*left) =~= Multiset::empty());
                assert(tree_keys(tree_delete_min(t)) =~= tree_keys(t).remove(key));
                assert(bst_weak(tree_delete_min(t)));
                assert forall|x: u64| #[trigger] tree_keys(t).contains(x) implies key <= x by {
                    if x != key {
                        assert(tree_keys(*left).contains(x) || tree_keys(*right).contains(x));
                    }
                }
            } else {
                lemma_delete_min_weak(*left);
                assert(tree_keys(tree_delete_min(t)) =~= tree_keys(t).remove(tree_min(*left)));
                assert forall|x: u64| #[trigger]
                    tree_keys(tree_delete_min(*left)).contains(x) implies x <= key by {
                    assert(tree_keys(*left).remove(tree_min(*left)).contains(x));
                    assert(tree_keys(*left).contains(x));
                }
                assert(bst_weak(tree_delete_min(t)));
                assert forall|x: u64| #[trigger] tree_keys(t).contains(x) implies tree_min(t)
                    <= x by {
                    if tree_keys(*left).contains(x) {
                    } else if x == key {
                        assert(tree_keys(*left).contains(tree_min(*left)));
                    } else {
                        assert(tree_keys(*right).contains(x));
                        assert(tree_keys(*left).contains(tree_min(*left)));
                    }
                }
            }
        }
    }
}

/// Structural removal under the non-strict ordering invariant: the same
/// key-multiset bookkeeping, and the invariant survives.
pub proof fn lemma_remove_weak(t: KeyTree, k: u64)
    requires
        bst_weak(t),
    ensures
        bst_weak(tree_remove(t, k)),
        tree_search(t, k) ==> tree_keys(tree_remove(t, k)) == tree_keys(t).remove(k),
        !tree_search(t, k) ==> tree_remove(t, k) == t,
    decreases t,
{
    match t {
        KeyTree::Leaf => {
        }
        KeyTree::Branch { key, left, right, .. } => {
            if k == key {
                lemma_remove_root_weak(t);
            } else if k < key {
                lemma_remove_weak(*left, k);
                if tree_search(*left, k) {
                    assert(tree_keys(tree_remove(t, k)) == tree_keys(
                        tree_remove(*left, k),
                    ).add(tree_keys(*right)).insert(key));
                    assert(tree_keys(tree_remove(*left, k)) == tree_keys(*left).remove(k));
                    lemma_search_member_weak(*left, k);
                    assert(tree_keys(*left).contains(k));
                    assert(tree_keys(tree_remove(t, k)) =~= tree_keys(t).remove(k));
                    assert forall|x: u64| #[trigger]
                        tree_keys(tree_remove(*left, k)).contains(x) implies x <= key by {
                        assert(tree_keys(*left).remove(k).contains(x));
                        assert(tree_keys(*left).contains(x));
                    }
                } else {
                    assert(tree_remove(t, k) =~= t);
                }
            } else {
                lemma_remove_weak(*right, k);
                if tree_search(*right, k) {
                    assert(tree_keys(tree_remove(t, k)) == tree_keys(*left).add(
                        tree_keys(tree_remove(*right, k)),
                    ).insert(key));
                    assert(tree_keys(tree_remove(*right, k)) == tree_keys(*right).remove(k));
                    lemma_search_member_weak(*right, k);
                    assert(tree_keys(*right).contains(k));
                    assert(tree_keys(tree_remove(t, k)) =~= tree_keys(t).remove(k));
                    assert forall|x: u64| #[trigger]
                        tree_keys(tree_remove(*right, k)).contains(x) implies x >= key by {
                        assert(tree_keys(*right).remove(k).contains(x));
                        assert(tree_keys(*right).contains(x));
                    }
                } else {
                    assert(tree_remove(t, k) =~= t);
                }
            }
        }
    }
}

/// The root-removal cases under the non-strict ordering invariant.
pub proof fn lemma_remove_root_weak(t: KeyTree)
    requires
        bst_weak(t),
        t is Branch,
    ensures
        bst_weak(tree_remove_root(t)),
        ({
            let key = match t {
                KeyTree::Leaf => 0u64,
                KeyTree::Branch { key, .. } => key,
            };
            tree_keys(tree_remove_root(t)) == tree_keys(t).remove(key)
        }),
{
    match t {
        KeyTree::Leaf => {
        }
        KeyTree::Branch { key, left, right, .. } => {
            if *left is Leaf {
                assert(tree_keys(*left) =~= Multiset::empty());
                assert(tree_keys(tree_remove_root(t)) =~= tree_keys(t).remove(key));
            } else if *right is Leaf {
                assert(tree_keys(*right) =~= Multiset::empty());
                assert(tree_keys(tree_remove_root(t)) =~= tree_keys(t).remove(key));
            } else {
                lemma_delete_min_weak(*right);
                let mr = tree_min(*right);
                assert(tree_keys(*right).contains(mr));
                assert(mr >= key);
                assert(tree_keys(tree_remove_root(t)) =~= tree_keys(t).remove(key));
                assert forall|x: u64| #[trigger] tree_keys(*left).contains(x) implies x <= mr by {}
                assert forall|x: u64| #[trigger]
                    tree_keys(tree_delete_min(*right)).contains(x) implies x >= mr by {
                    assert(tree_keys(*right).remove(mr).contains(x));
                    assert(tree_keys(*right).contains(x));
                }
            }
        }
    }
}

} // verus!
