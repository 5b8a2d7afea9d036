//! The mathematical model of the container: a recursive binary tree of keys
//! and colors, together with the specification-level operations that the
//! executable engine is proved to implement.
//!
//! Paths into the model are sequences of directions; `false` descends into the
//! left child and `true` into the right child.

use vstd::multiset::Multiset;
use vstd::prelude::*;

verus! {

/// The abstract shape of a tree: every node carries its key and its color.
/// The plain binary search tree simply ignores the colors.
pub enum KeyTree {
    Leaf,
    Branch { key: u64, color: crate::node::Color, left: Box<KeyTree>, right: Box<KeyTree> },
}

/// Number of nodes.
pub open spec fn tree_size(t: KeyTree) -> nat
    decreases t,
{
    match t {
        KeyTree::Leaf => 0,
        KeyTree::Branch { left, right, .. } => 1 + tree_size(*left) + tree_size(*right),
    }
}

/// The multiset of keys held by the tree (duplicates are permitted).
pub open spec fn tree_keys(t: KeyTree) -> Multiset<u64>
    decreases t,
{
    match t {
        KeyTree::Leaf => Multiset::empty(),
        KeyTree::Branch { key, left, right, .. } => tree_keys(*left).add(
            tree_keys(*right),
        ).insert(key),
    }
}

/// The comparison walk used by every engine operation: at each node go left on
/// a strictly smaller key, right otherwise (ties go right), and stop at the
/// first node whose key matches.
pub open spec fn tree_search(t: KeyTree, k: u64) -> bool
    decreases t,
{
    match t {
        KeyTree::Leaf => false,
        KeyTree::Branch { key, left, right, .. } => if k == key {
            true
        } else if k < key {
            tree_search(*left, k)
        } else {
            tree_search(*right, k)
        },
    }
}

/// Insertion at the first empty link along the comparison walk; the new node
/// is a leaf with color `c`.
pub open spec fn tree_insert(t: KeyTree, k: u64, c: crate::node::Color) -> KeyTree
    decreases t,
{
    match t {
        KeyTree::Leaf => KeyTree::Branch {
            key: k,
            color: c,
            left: Box::new(KeyTree::Leaf),
            right: Box::new(KeyTree::Leaf),
        },
        KeyTree::Branch { key, color, left, right } => if k < key {
            KeyTree::Branch { key, color, left: Box::new(tree_insert(*left, k, c)), right }
        } else {
            KeyTree::Branch { key, color, left, right: Box::new(tree_insert(*right, k, c)) }
        },
    }
}

/// The path (from the root of `t`) at which `tree_insert(t, k, c)` places the
/// new node.
pub open spec fn insert_path(t: KeyTree, k: u64) -> Seq<bool>
    decreases t,
{
    match t {
        KeyTree::Leaf => Seq::empty(),
        KeyTree::Branch { key, left, right, .. } => if k < key {
            seq![false] + insert_path(*left, k)
        } else {
            seq![true] + insert_path(*right, k)
        },
    }
}

/// The key of the leftmost node: the minimum under the ordering invariant.
pub open spec fn tree_min(t: KeyTree) -> u64
    decreases t,
{
    match t {
        KeyTree::Leaf => 0,
        KeyTree::Branch { key, left, .. } => if *left is Leaf {
            key
        } else {
            tree_min(*left)
        },
    }
}

/// Unlinking of the leftmost node: its right subtree takes its place.
pub open spec fn tree_delete_min(t: KeyTree) -> KeyTree
    decreases t,
{
    match t {
        KeyTree::Leaf => KeyTree::Leaf,
        KeyTree::Branch { key, color, left, right } => if *left is Leaf {
            *right
        } else {
            KeyTree::Branch { key, color, left: Box::new(tree_delete_min(*left)), right }
        },
    }
}

/// Structural removal of the root of `t`. With zero or one child the sole
/// child (if any) takes the root's place; with two children the root keeps its
/// handle and color but takes its inorder successor's key, and the successor
/// (the leftmost node of the right subtree) is unlinked.
pub open spec fn tree_remove_root(t: KeyTree) -> KeyTree {
    match t {
        KeyTree::Leaf => KeyTree::Leaf,
        KeyTree::Branch { key, color, left, right } => if *left is Leaf {
            *right
        } else if *right is Leaf {
            *left
        } else {
            KeyTree::Branch {
                key: tree_min(*right),
                color,
                left,
                right: Box::new(tree_delete_min(*right)),
            }
        },
    }
}

/// Removal of the first node whose key matches the comparison walk for `k`;
/// absent keys leave the tree unchanged.
pub open spec fn tree_remove(t: KeyTree, k: u64) -> KeyTree
    decreases t,
{
    match t {
        KeyTree::Leaf => KeyTree::Leaf,
        KeyTree::Branch { key, color, left, right } => if k == key {
            tree_remove_root(t)
        } else if k < key {
            KeyTree::Branch { key, color, left: Box::new(tree_remove(*left, k)), right }
        } else {
            KeyTree::Branch { key, color, left, right: Box::new(tree_remove(*right, k)) }
        },
    }
}

/// The subtree rooted at the node where the comparison walk for `k` stops.
pub open spec fn found_sub(t: KeyTree, k: u64) -> KeyTree
    decreases t,
{
    match t {
        KeyTree::Leaf => KeyTree::Leaf,
        KeyTree::Branch { key, left, right, .. } => if k == key {
            t
        } else if k < key {
            found_sub(*left, k)
        } else {
            found_sub(*right, k)
        },
    }
}

/// The right subtree of a nonempty tree.
pub open spec fn tree_right(t: KeyTree) -> KeyTree {
    match t {
        KeyTree::Leaf => KeyTree::Leaf,
        KeyTree::Branch { right, .. } => *right,
    }
}

/// Depth-first pre-order: the node's key, then the left subtree, then the
/// right subtree.
pub open spec fn preorder(t: KeyTree) -> Seq<u64>
    decreases t,
{
    match t {
        KeyTree::Leaf => Seq::empty(),
        KeyTree::Branch { key, left, right, .. } => seq![key] + preorder(*left) + preorder(
            *right,
        ),
    }
}

/// Pre-order of a stack of subtrees, top (the sequence's last element)
/// first: what a depth-first walk still has to produce.
pub open spec fn preorder_stack(q: Seq<KeyTree>) -> Seq<u64>
    decreases q.len(),
{
    if q.len() == 0 {
        Seq::empty()
    } else {
        preorder(q.last()) + preorder_stack(q.drop_last())
    }
}

/// Total node count of a stack of subtrees; the termination measure of the
/// depth-first walk.
pub open spec fn stack_size(q: Seq<KeyTree>) -> nat
    decreases q.len(),
{
    if q.len() == 0 {
        0
    } else {
        tree_size(q.last()) + stack_size(q.drop_last())
    }
}

/// Total node count of a queue of subtrees; the termination measure of the
/// breadth-first specification.
pub open spec fn queue_size(q: Seq<KeyTree>) -> nat
    decreases q.len(),
{
    if q.len() == 0 {
        0
    } else {
        tree_size(q[0]) + queue_size(q.drop_first())
    }
}

/// Breadth-first order of a queue of subtrees: the front subtree's root key is
/// produced and its children join the back of the queue; empty subtrees are
/// skipped.
pub open spec fn level_order_queue(q: Seq<KeyTree>) -> Seq<u64>
    decreases queue_size(q), q.len(),
    via level_order_queue_decreases
{
    if q.len() == 0 {
        Seq::empty()
    } else {
        match q[0] {
            KeyTree::Leaf => level_order_queue(q.drop_first()),
            KeyTree::Branch { key, left, right, .. } => seq![key] + level_order_queue(
                q.drop_first().push(*left).push(*right),
            ),
        }
    }
}

#[via_fn]
proof fn level_order_queue_decreases(q: Seq<KeyTree>) {
    if q.len() > 0 {
        match q[0] {
            KeyTree::Leaf => {
            }
            KeyTree::Branch { key, left, right, .. } => {
                lemma_queue_size_push(q.drop_first(), *left);
                lemma_queue_size_push(q.drop_first().push(*left), *right);
            }
        }
    }
}

/// Appending a subtree at the back adds its size to the queue's measure.
pub proof fn lemma_queue_size_push(q: Seq<KeyTree>, t: KeyTree)
    ensures
        queue_size(q.push(t)) == queue_size(q) + tree_size(t),
    decreases q.len(),
{
    if q.len() == 0 {
        assert(q.push(t).drop_first() =~= q);
    } else {
        assert(q.push(t).drop_first() =~= q.drop_first().push(t));
        lemma_queue_size_push(q.drop_first(), t);
    }
}

/// Breadth-first (level) order of a whole tree.
pub open spec fn level_order(t: KeyTree) -> Seq<u64> {
    level_order_queue(seq![t])
}

/// The binary-search-tree ordering invariant: at every node, every key in the
/// left subtree is strictly smaller than the node's key and every key in the
/// right subtree is greater or equal (ties go right).
pub open spec fn bst_ok(t: KeyTree) -> bool
    decreases t,
{
    match t {
        KeyTree::Leaf => true,
        KeyTree::Branch { key, left, right, .. } => {
            &&& bst_ok(*left)
            &&& bst_ok(*right)
            &&& forall|k: u64| #[trigger] tree_keys(*left).contains(k) ==> k < key
            &&& forall|k: u64| #[trigger] tree_keys(*right).contains(k) ==> k >= key
        },
    }
}

/// The non-strict ordering invariant: left keys at most the node's key,
/// right keys at least it. Rotations around equal keys (which the tie-goes-
/// right policy permits) can move an equal key into a left subtree, so this,
/// not `bst_ok`, is what the balanced variant maintains; the comparison walk
/// still decides membership correctly under it.
pub open spec fn bst_weak(t: KeyTree) -> bool
    decreases t,
{
    match t {
        KeyTree::Leaf => true,
        KeyTree::Branch { key, left, right, .. } => {
            &&& bst_weak(*left)
            &&& bst_weak(*right)
            &&& forall|k: u64| #[trigger] tree_keys(*left).contains(k) ==> k <= key
            &&& forall|k: u64| #[trigger] tree_keys(*right).contains(k) ==> k >= key
        },
    }
}

/// The color a link presents: an empty subtree counts as Black.
pub open spec fn color_of(t: KeyTree) -> crate::node::Color {
    match t {
        KeyTree::Leaf => crate::node::Color::Black,
        KeyTree::Branch { color, .. } => color,
    }
}

/// The red-red clause of the red-black invariants: no Red node has a Red
/// child.
pub open spec fn no_red_red(t: KeyTree) -> bool
    decreases t,
{
    match t {
        KeyTree::Leaf => true,
        KeyTree::Branch { color, left, right, .. } => {
            &&& no_red_red(*left)
            &&& no_red_red(*right)
            &&& (color == crate::node::Color::Red ==> color_of(*left) == crate::node::Color::Black
                && color_of(*right) == crate::node::Color::Black)
        },
    }
}

/// The black-height clause of the red-black invariants: every downward path
/// from a node passes the same number of Black nodes; `black_height` follows
/// the left spine, which under the clause is every path's count.
pub open spec fn black_height(t: KeyTree) -> nat
    decreases t,
{
    match t {
        KeyTree::Leaf => 0,
        KeyTree::Branch { color, left, .. } => black_height(*left) + (if color
            == crate::node::Color::Black {
            1nat
        } else {
            0nat
        }),
    }
}

/// Black-height consistency at every node.
pub open spec fn balanced_black(t: KeyTree) -> bool
    decreases t,
{
    match t {
        KeyTree::Leaf => true,
        KeyTree::Branch { left, right, .. } => {
            &&& balanced_black(*left)
            &&& balanced_black(*right)
            &&& black_height(*left) == black_height(*right)
        },
    }
}

/// The full red-black color discipline: a Black root, no Red node with a
/// Red child, and the same number of Black nodes on every downward path.
pub open spec fn rb_invariant(t: KeyTree) -> bool {
    &&& root_black(t)
    &&& no_red_red(t)
    &&& balanced_black(t)
}

/// The fixup walk's color invariant: no red-red pair anywhere, except that
/// the node the path leads to may be Red under a Red parent. Cutting the
/// node's subtree out leaves no violation, and the subtree itself has none.
pub open spec fn no_red_red_except(t: KeyTree, p: Seq<bool>) -> bool {
    &&& no_red_red(update_at(t, p, KeyTree::Leaf))
    &&& no_red_red(subtree_at(t, p))
}

/// Putting a subtree back where it came from changes nothing.
pub proof fn lemma_update_self(t: KeyTree, p: Seq<bool>)
    requires
        valid_path(t, p),
    ensures
        update_at(t, p, subtree_at(t, p)) == t,
    decreases p.len(),
{
    if p.len() > 0 {
        match t {
            KeyTree::Leaf => {
            }
            KeyTree::Branch { .. } => {
                lemma_update_self(child_of(t, p[0]), p.drop_first());
            }
        }
    }
}

/// Replacing below a longer path and then below its prefix is just replacing
/// below the prefix.
pub proof fn lemma_update_override(t: KeyTree, q: Seq<bool>, r: Seq<bool>, s1: KeyTree, s2: KeyTree)
    ensures
        update_at(update_at(t, q + r, s1), q, s2) == update_at(t, q, s2),
    decreases q.len(),
{
    if q.len() == 0 {
        assert(update_at(t, q, s2) == s2);
        assert(update_at(update_at(t, q + r, s1), q, s2) == s2);
    } else {
        assert((q + r)[0] == q[0]);
        assert((q + r).drop_first() =~= q.drop_first() + r);
        match t {
            KeyTree::Leaf => {
            }
            KeyTree::Branch { .. } => {
                lemma_update_override(child_of(t, q[0]), q.drop_first(), r, s1, s2);
            }
        }
    }
}

/// A subtree of an update below a longer path is the update of the subtree.
pub proof fn lemma_subtree_update_suffix(t: KeyTree, q: Seq<bool>, r: Seq<bool>, s: KeyTree)
    requires
        valid_path(t, q),
    ensures
        subtree_at(update_at(t, q + r, s), q) == update_at(subtree_at(t, q), r, s),
    decreases q.len(),
{
    if q.len() == 0 {
        assert(q + r =~= r);
    } else {
        assert((q + r)[0] == q[0]);
        assert((q + r).drop_first() =~= q.drop_first() + r);
        match t {
            KeyTree::Leaf => {
            }
            KeyTree::Branch { .. } => {
                lemma_subtree_update_suffix(child_of(t, q[0]), q.drop_first(), r, s);
                assert(child_of(update_at(t, q + r, s), q[0]) == update_at(
                    child_of(t, q[0]),
                    q.drop_first() + r,
                    s,
                ));
            }
        }
    }
}

/// Cutting the inserted node back out of an insertion restores the tree.
pub proof fn lemma_insert_cut(t: KeyTree, k: u64, c: crate::node::Color)
    ensures
        update_at(tree_insert(t, k, c), insert_path(t, k), KeyTree::Leaf) == t,
    decreases t,
{
    match t {
        KeyTree::Leaf => {
        }
        KeyTree::Branch { key, left, right, .. } => {
            if k < key {
                lemma_insert_cut(*left, k, c);
                assert(insert_path(t, k)[0] == false);
                assert(insert_path(t, k).drop_first() =~= insert_path(*left, k));
            } else {
                lemma_insert_cut(*right, k, c);
                assert(insert_path(t, k)[0] == true);
                assert(insert_path(t, k).drop_first() =~= insert_path(*right, k));
            }
        }
    }
}

/// The one red-black clause the delete operation also keeps: a nonempty tree
/// has a Black root.
pub open spec fn root_black(t: KeyTree) -> bool {
    match t {
        KeyTree::Leaf => true,
        KeyTree::Branch { color, .. } => color == crate::node::Color::Black,
    }
}

/// The child selected by one direction; `false` is left, `true` is right.
pub open spec fn child_of(t: KeyTree, d: bool) -> KeyTree {
    match t {
        KeyTree::Leaf => t,
        KeyTree::Branch { left, right, .. } => if d {
            *right
        } else {
            *left
        },
    }
}

/// A path stays inside the tree: every step leaves from a nonempty node.
pub open spec fn valid_path(t: KeyTree, p: Seq<bool>) -> bool
    decreases p.len(),
{
    if p.len() == 0 {
        true
    } else {
        t is Branch && valid_path(child_of(t, p[0]), p.drop_first())
    }
}

/// The subtree that a path leads to.
pub open spec fn subtree_at(t: KeyTree, p: Seq<bool>) -> KeyTree
    decreases p.len(),
{
    if p.len() == 0 {
        t
    } else {
        subtree_at(child_of(t, p[0]), p.drop_first())
    }
}

/// The tree with the subtree at `p` replaced by `s`.
pub open spec fn update_at(t: KeyTree, p: Seq<bool>, s: KeyTree) -> KeyTree
    decreases p.len(),
{
    if p.len() == 0 {
        s
    } else {
        match t {
            KeyTree::Leaf => t,
            KeyTree::Branch { key, color, left, right } => if p[0] {
                KeyTree::Branch {
                    key,
                    color,
                    left,
                    right: Box::new(update_at(*right, p.drop_first(), s)),
                }
            } else {
                KeyTree::Branch {
                    key,
                    color,
                    left: Box::new(update_at(*left, p.drop_first(), s)),
                    right,
                }
            },
        }
    }
}

/// A nonempty path's prefix is itself a path, and it ends at a node that has
/// the child the last step takes.
pub proof fn lemma_valid_prefix(t: KeyTree, p: Seq<bool>)
    requires
        valid_path(t, p),
        p.len() >= 1,
    ensures
        valid_path(t, p.drop_last()),
        subtree_at(t, p.drop_last()) is Branch,
        subtree_at(t, p) == child_of(subtree_at(t, p.drop_last()), p.last()),
    decreases p.len(),
{
    if p.len() == 1 {
        assert(p.drop_last() =~= Seq::<bool>::empty());
        assert(p[0] == p.last());
        assert(subtree_at(t, p.drop_last()) == t);
        assert(p.drop_first() =~= Seq::<bool>::empty());
        assert(subtree_at(child_of(t, p[0]), p.drop_first()) == child_of(t, p[0]));
    } else {
        lemma_valid_prefix(child_of(t, p[0]), p.drop_first());
        assert(p.drop_last()[0] == p[0]);
        assert(p.drop_last().drop_first() =~= p.drop_first().drop_last());
        assert(p.drop_first().last() == p.last());
    }
}

/// Replacing the subtree at a valid path leaves a tree in which the same
/// path is valid and leads to the replacement.
pub proof fn lemma_subtree_update(t: KeyTree, p: Seq<bool>, s: KeyTree)
    requires
        valid_path(t, p),
    ensures
        valid_path(update_at(t, p, s), p),
        subtree_at(update_at(t, p, s), p) == s,
    decreases p.len(),
{
    if p.len() > 0 {
        lemma_subtree_update(child_of(t, p[0]), p.drop_first(), s);
        assert(child_of(update_at(t, p, s), p[0]) == update_at(child_of(t, p[0]), p.drop_first(), s));
    }
}

/// Extending a valid path by one step into a nonempty node stays valid and
/// lands on that node's chosen child.
pub proof fn lemma_extend_path(t: KeyTree, q: Seq<bool>, d: bool)
    requires
        valid_path(t, q),
        subtree_at(t, q) is Branch,
    ensures
        valid_path(t, q.push(d)),
        subtree_at(t, q.push(d)) == child_of(subtree_at(t, q), d),
    decreases q.len(),
{
    if q.len() == 0 {
        assert(q.push(d)[0] == d);
        assert(q.push(d).drop_first() =~= Seq::<bool>::empty());
        assert(valid_path(child_of(t, d), Seq::<bool>::empty()));
        assert(subtree_at(child_of(t, d), Seq::<bool>::empty()) == child_of(t, d));
        assert(subtree_at(t, q) == t);
    } else {
        assert(q.push(d)[0] == q[0]);
        assert(q.push(d).drop_first() =~= q.drop_first().push(d));
        lemma_extend_path(child_of(t, q[0]), q.drop_first(), d);
    }
}

/// The same node with another color.
pub open spec fn recolor(t: KeyTree, c: crate::node::Color) -> KeyTree {
    match t {
        KeyTree::Leaf => t,
        KeyTree::Branch { key, left, right, .. } => KeyTree::Branch { key, color: c, left, right },
    }
}

/// The uncle-Red fixup step: push the grandparent's blackness down to both
/// of its children and color it Red.
pub open spec fn push_blackness_down(t: KeyTree) -> KeyTree {
    match t {
        KeyTree::Leaf => t,
        KeyTree::Branch { key, left, right, .. } => KeyTree::Branch {
            key,
            color: crate::node::Color::Red,
            left: Box::new(recolor(*left, crate::node::Color::Black)),
            right: Box::new(recolor(*right, crate::node::Color::Black)),
        },
    }
}

/// The post-rotation color swap: the node now on top takes one color and its
/// child on side `dir` takes the other.
pub open spec fn recolor_top_child(t: KeyTree, dir: bool, tc: crate::node::Color, cc: crate::node::Color) -> KeyTree {
    match t {
        KeyTree::Leaf => t,
        KeyTree::Branch { key, left, right, .. } => if dir {
            KeyTree::Branch { key, color: tc, left, right: Box::new(recolor(*right, cc)) }
        } else {
            KeyTree::Branch { key, color: tc, left: Box::new(recolor(*left, cc)), right }
        },
    }
}

/// The new node of `tree_insert` sits at `insert_path`, as a Red-free leaf
/// of the stated form, and the path is valid.
pub proof fn lemma_insert_path(t: KeyTree, k: u64, c: crate::node::Color)
    ensures
        valid_path(tree_insert(t, k, c), insert_path(t, k)),
        subtree_at(tree_insert(t, k, c), insert_path(t, k)) == (KeyTree::Branch {
            key: k,
            color: c,
            left: Box::new(KeyTree::Leaf),
            right: Box::new(KeyTree::Leaf),
        }),
    decreases t,
{
    match t {
        KeyTree::Leaf => {
        }
        KeyTree::Branch { key, left, right, .. } => {
            if k < key {
                lemma_insert_path(*left, k, c);
                assert(insert_path(t, k)[0] == false);
                assert(insert_path(t, k).drop_first() =~= insert_path(*left, k));
            } else {
                lemma_insert_path(*right, k, c);
                assert(insert_path(t, k)[0] == true);
                assert(insert_path(t, k).drop_first() =~= insert_path(*right, k));
            }
        }
    }
}

/// A single right rotation of a node over its left child: the left child comes
/// to the top, its right subtree is reattached as the displaced node's left
/// subtree. Keys and colors travel with their nodes.
pub open spec fn rotate_right_spec(t: KeyTree) -> KeyTree {
    match t {
        KeyTree::Leaf => t,
        KeyTree::Branch { key, color, left, right } => match *left {
            KeyTree::Leaf => t,
            KeyTree::Branch { key: lk, color: lc, left: ll, right: lr } => KeyTree::Branch {
                key: lk,
                color: lc,
                left: ll,
                right: Box::new(KeyTree::Branch { key, color, left: lr, right }),
            },
        },
    }
}

/// The mirror image: a single left rotation of a node over its right child.
pub open spec fn rotate_left_spec(t: KeyTree) -> KeyTree {
    match t {
        KeyTree::Leaf => t,
        KeyTree::Branch { key, color, left, right } => match *right {
            KeyTree::Leaf => t,
            KeyTree::Branch { key: rk, color: rc, left: rl, right: rr } => KeyTree::Branch {
                key: rk,
                color: rc,
                left: Box::new(KeyTree::Branch { key, color, left, right: rl }),
                right: rr,
            },
        },
    }
}

} // verus!
