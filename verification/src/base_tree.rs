//! The arena-indexed binary search tree engine: insertion, exact-match
//! lookup, inorder-successor lookup, and structural removal, shared by the
//! plain and the red-black variant.

use vstd::prelude::*;

use crate::arena_store::arena_get;
use crate::arena_store::arena_insert;
use crate::arena_store::arena_len;
use crate::arena_store::arena_new;
use crate::arena_store::arena_remove;
use crate::arena_store::arena_set;
use crate::arena_store::arena_view;
use crate::model::KeyTree;
use crate::model::found_sub;
use crate::model::insert_path;
use crate::model::level_order;
use crate::model::level_order_queue;
use crate::model::lemma_queue_size_push;
use crate::model::preorder;
use crate::model::preorder_stack;
use crate::model::queue_size;
use crate::model::stack_size;
use crate::model::tree_delete_min;
use crate::model::tree_insert;
use crate::model::tree_min;
use crate::model::tree_remove;
use crate::model::tree_right;
use crate::model::tree_search;
use crate::model::tree_size;
use crate::node::Color;
use crate::node::Handle;
use crate::node::Node;
use crate::rep::find_h;
use crate::rep::handle_at;
use crate::rep::hset;
use crate::rep::lemma_find_h;
use crate::rep::lemma_found_sub;
use crate::rep::lemma_hset_card;
use crate::rep::lemma_rep_frame;
use crate::rep::lemma_rep_in_dom;
use crate::rep::lemma_reparent;
use crate::rep::rep;
use crate::rep::uniq;
use generational_arena::Arena;

verus! {

/// The tree engine's state: the optional root handle and the arena that owns
/// every node record, together with the ghost model tree they lay out.
pub struct InternalBinarySearchTree {
    pub root: Option<Handle>,
    pub nodes: Arena<Node>,
    pub shape: Ghost<KeyTree>,
}

impl InternalBinarySearchTree {
    /// Structural well-formedness: the arena lays out exactly the model tree,
    /// every parent back-reference mirrors the child link that owns the node,
    /// no handle occurs twice, and no other slot is live.
    pub open spec fn wf(self) -> bool {
        &&& rep(arena_view(self.nodes), self.root, self.shape@, None)
        &&& uniq(arena_view(self.nodes), self.root, self.shape@)
        &&& arena_view(self.nodes).dom() == hset(arena_view(self.nodes), self.root, self.shape@)
    }

    /// An empty tree.
    pub fn new() -> (r: Self)
        ensures
            r.wf(),
            r.shape@ == KeyTree::Leaf,
    {
        let a = arena_new();
        let r = InternalBinarySearchTree { root: None, nodes: a, shape: Ghost(KeyTree::Leaf) };
        proof {
            assert(arena_view(r.nodes).dom() =~= hset(
                arena_view(r.nodes),
                r.root,
                r.shape@,
            ));
        }
        r
    }

    /// The number of live nodes, straight from the arena.
    pub fn len(&self) -> (n: usize)
        requires
            self.wf(),
        ensures
            n == tree_size(self.shape@),
    {
        proof {
            lemma_hset_card(arena_view(self.nodes), self.root, self.shape@, None);
        }
        arena_len(&self.nodes)
    }

    /// Walk from the root by comparison: left on a strictly smaller key,
    /// right otherwise, stopping at the first node whose key matches `item`.
    pub fn find_node_index(&self, item: u64) -> (r: Option<Handle>)
        requires
            self.wf(),
        ensures
            r == find_h(arena_view(self.nodes), self.root, self.shape@, item),
            r is Some <==> tree_search(self.shape@, item),
    {
        proof {
            lemma_find_h(arena_view(self.nodes), self.root, self.shape@, None, item);
        }
        find_rec(&self.nodes, self.root, item, Ghost(self.shape@), Ghost(None))
    }

    /// Remove the node at `node_idx`: with zero or one children it is
    /// unlinked from its parent and its sole child (if any) takes its place;
    /// with two children it takes its inorder successor's key (keeping its
    /// own handle and color) and the successor is unlinked instead. The
    /// handle must be the one the comparison walk finds for its own key, as
    /// `find_node_index` returns it.
    pub fn remove_node(&mut self, node_idx: Handle)
        requires
            old(self).wf(),
            arena_view(old(self).nodes).contains_key(node_idx),
            find_h(
                arena_view(old(self).nodes),
                old(self).root,
                old(self).shape@,
                arena_view(old(self).nodes)[node_idx].key,
            ) == Some(node_idx),
        ensures
            final(self).wf(),
            final(self).shape@ == tree_remove(
                old(self).shape@,
                arena_view(old(self).nodes)[node_idx].key,
            ),
    {
        let node = arena_get(&self.nodes, node_idx);
        let k = node.key;
        proof {
            lemma_find_h(arena_view(self.nodes), self.root, self.shape@, None, k);
            assert(tree_search(self.shape@, k));
            assert(self.shape@ is Branch);
        }
        let r0 = match self.root {
            Some(x) => x,
            None => {
                proof {
                    assert(false);
                }
                node_idx
            },
        };
        let (nr, t2) = remove_rec(&mut self.nodes, r0, None, k, Ghost(self.shape@));
        self.root = nr;
        proof {
            self.shape@ = t2@;
            assert(arena_view(self.nodes).dom() =~= hset(
                arena_view(self.nodes),
                self.root,
                t2@,
            ));
        }
    }

    /// The inorder successor of the node at `node_idx`: the leftmost node of
    /// its right subtree, which must exist. The handle must be the one the
    /// comparison walk finds for its own key.
    pub fn get_inorder_successor(&self, node_idx: Handle) -> (r: Option<Handle>)
        requires
            self.wf(),
            arena_view(self.nodes).contains_key(node_idx),
            find_h(
                arena_view(self.nodes),
                self.root,
                self.shape@,
                arena_view(self.nodes)[node_idx].key,
            ) == Some(node_idx),
            arena_view(self.nodes)[node_idx].right is Some,
        ensures
            r matches Some(s) ==> arena_view(self.nodes).contains_key(s) && arena_view(
                self.nodes,
            )[s].key == tree_min(tree_right(found_sub(self.shape@, arena_view(self.nodes)[node_idx].key))),
            r is Some,
    {
        let node = arena_get(&self.nodes, node_idx);
        let ghost m0 = arena_view(self.nodes);
        let ghost ft = found_sub(self.shape@, node.key);
        proof {
            lemma_found_sub(m0, self.root, self.shape@, None, node.key);
            let pp = choose|pp: Option<Handle>| rep(m0, Some(node_idx), ft, pp);
            assert(rep(m0, Some(node_idx), ft, pp));
            assert(m0[node_idx].right is Some);
            assert(rep(m0, m0[node_idx].right, tree_right(ft), Some(node_idx)));
            assert(tree_right(ft) is Branch);
        }
        let rh0 = match node.right {
            Some(x) => x,
            None => {
                proof {
                    assert(false);
                }
                node_idx
            },
        };
        Some(min_rec(&self.nodes, rh0, Ghost(tree_right(ft)), Ghost(Some(node_idx))))
    }

    /// Insert a fresh leaf record at the first empty link along the
    /// comparison walk for its key; ties go right. Returns the new node's
    /// handle.
    pub fn insert_node(&mut self, new_leaf: Node) -> (leaf_id: Handle)
        requires
            old(self).wf(),
            new_leaf.left is None,
            new_leaf.right is None,
            new_leaf.parent is None,
            tree_size(old(self).shape@) < usize::MAX,
        ensures
            final(self).wf(),
            final(self).shape@ == tree_insert(old(self).shape@, new_leaf.key, new_leaf.color),
            handle_at(
                arena_view(final(self).nodes),
                final(self).root,
                final(self).shape@,
                insert_path(old(self).shape@, new_leaf.key),
            ) == Some(leaf_id),
    {
        proof {
            lemma_hset_card(arena_view(self.nodes), self.root, self.shape@, None);
        }
        let ghost t0 = self.shape@;
        match self.root {
            None => {
                proof {
                    assert(t0 is Leaf);
                }
                let h = arena_insert(&mut self.nodes, new_leaf);
                self.root = Some(h);
                let ghost t2 = tree_insert(t0, new_leaf.key, new_leaf.color);
                proof {
                    self.shape@ = t2;
                    let m1 = arena_view(self.nodes);
                    assert(rep(m1, None, KeyTree::Leaf, Some(h)));
                    assert(rep(m1, Some(h), t2, None));
                    assert(hset(m1, None, KeyTree::Leaf) =~= Set::<Handle>::empty());
                    assert(hset(m1, Some(h), t2) =~= Set::empty().insert(h));
                    assert(uniq(m1, None, KeyTree::Leaf));
                    assert(uniq(m1, Some(h), t2));
                    assert(insert_path(t0, new_leaf.key) =~= Seq::<bool>::empty());
                    assert(handle_at(m1, Some(h), t2, insert_path(t0, new_leaf.key)) == Some(h));
                    assert(arena_view(self.nodes).dom() =~= hset(
                        arena_view(self.nodes),
                        self.root,
                        t2,
                    ));
                }
                h
            }
            Some(r0) => {
                let (h, t2) = insert_rec(
                    &mut self.nodes,
                    r0,
                    new_leaf.key,
                    new_leaf.color,
                    Ghost(self.shape@),
                    Ghost(None),
                );
                proof {
                    self.shape@ = t2@;
                    assert(arena_view(self.nodes).dom() =~= hset(
                        arena_view(self.nodes),
                        self.root,
                        t2@,
                    ));
                }
                h
            }
        }
    }
}

impl InternalBinarySearchTree {
    /// The keys in depth-first pre-order, by the stack walk: pop a node,
    /// yield its key, and push its right then left child handle, so the left
    /// child is processed next.
    pub fn dfs_keys(&self) -> (r: Vec<u64>)
        requires
            self.wf(),
        ensures
            r@ == preorder(self.shape@),
    {
        let mut out: Vec<u64> = Vec::new();
        let mut stack: Vec<Handle> = Vec::new();
        let ghost mut gstack: Seq<KeyTree> = Seq::empty();
        let ghost mut gpar: Seq<Option<Handle>> = Seq::empty();
        match self.root {
            Some(r0) => {
                stack.push(r0);
                proof {
                    gstack = gstack.push(self.shape@);
                    gpar = gpar.push(None);
                    assert(stack@ =~= seq![r0]);
                    assert(gstack =~= seq![self.shape@]);
                    assert(rep(arena_view(self.nodes), Some(r0), self.shape@, None));
                    assert(gstack.drop_last() =~= Seq::<KeyTree>::empty());
                    assert(preorder_stack(gstack.drop_last()) =~= Seq::<u64>::empty());
                    assert(out@ + preorder_stack(gstack) =~= preorder(self.shape@));
                }
            }
            None => {
                proof {
                    assert(self.shape@ is Leaf);
                    assert(out@ + preorder_stack(gstack) =~= preorder(self.shape@));
                }
            }
        }
        while stack.len() > 0
            invariant
                stack@.len() == gstack.len(),
                gpar.len() == gstack.len(),
                forall|i: int| #![auto]
                    0 <= i < gstack.len() ==> gstack[i] is Branch && rep(
                        arena_view(self.nodes),
                        Some(stack@[i]),
                        gstack[i],
                        gpar[i],
                    ),
                out@ + preorder_stack(gstack) == preorder(self.shape@),
            decreases stack_size(gstack),
        {
            let ghost m = arena_view(self.nodes);
            let ghost out0 = out@;
            let ghost gentry = gstack;
            let h = match stack.pop() {
                Some(x) => x,
                None => {
                    proof {
                        assert(false);
                    }
                    Handle { slot: 0, generation: 0 }
                },
            };
            let ghost x = gstack.last();
            let ghost grest = gstack.drop_last();
            let ghost xpar = gpar.last();
            proof {
                assert(gstack[gstack.len() - 1] is Branch);
                assert(rep(m, Some(h), x, xpar));
                gstack = grest;
                gpar = gpar.drop_last();
            }
            let node = arena_get(&self.nodes, h);
            let ghost (xl, xr) = match x {
                KeyTree::Leaf => (KeyTree::Leaf, KeyTree::Leaf),
                KeyTree::Branch { left, right, .. } => (*left, *right),
            };
            proof {
                assert(m[h] == node);
                assert(rep(m, node.left, xl, Some(h)));
                assert(rep(m, node.right, xr, Some(h)));
            }
            out.push(node.key);
            if let Some(rh) = node.right {
                stack.push(rh);
                proof {
                    gstack = gstack.push(xr);
                    gpar = gpar.push(Some(h));
                }
            }
            if let Some(lh) = node.left {
                stack.push(lh);
                proof {
                    gstack = gstack.push(xl);
                    gpar = gpar.push(Some(h));
                }
            }
            proof {
                assert(gentry.last() == x);
                assert(gentry.drop_last() =~= grest);
                assert(preorder_stack(gentry) =~= preorder(x) + preorder_stack(grest));
                assert(stack_size(gentry) == tree_size(x) + stack_size(grest));
                assert(node.left is None ==> xl is Leaf && preorder(xl) =~= Seq::<u64>::empty()
                    && tree_size(xl) == 0);
                assert(node.right is None ==> xr is Leaf && preorder(xr) =~= Seq::<u64>::empty()
                    && tree_size(xr) == 0);
                if node.left is Some && node.right is Some {
                    assert(grest.push(xr).drop_last() =~= grest);
                    assert(preorder_stack(grest.push(xr)) =~= preorder(xr) + preorder_stack(
                        grest,
                    ));
                    assert(stack_size(grest.push(xr)) == tree_size(xr) + stack_size(grest));
                    assert(gstack.drop_last() =~= grest.push(xr));
                    assert(gstack.last() == xl);
                } else if node.left is Some {
                    assert(gstack.drop_last() =~= grest);
                    assert(gstack.last() == xl);
                } else if node.right is Some {
                    assert(gstack.drop_last() =~= grest);
                    assert(gstack.last() == xr);
                }
                assert(preorder_stack(gstack) =~= preorder(xl) + preorder(xr) + preorder_stack(
                    grest,
                ));
                assert(stack_size(gstack) == tree_size(xl) + tree_size(xr) + stack_size(grest));
                assert(out@ =~= out0 + seq![node.key]);
                assert(preorder(x) =~= seq![node.key] + preorder(xl) + preorder(xr));
                assert(out@ + preorder_stack(gstack) =~= preorder(self.shape@));
            }
        }
        proof {
            assert(preorder_stack(gstack) =~= Seq::<u64>::empty());
            assert(out@ =~= preorder(self.shape@));
        }
        out
    }

    /// The keys in breadth-first (level) order, by the queue walk: dequeue a
    /// link, yield the node's key if the link is occupied, and enqueue its
    /// left then right child link.
    pub fn bfs_keys(&self) -> (r: Vec<u64>)
        requires
            self.wf(),
        ensures
            r@ == level_order(self.shape@),
    {
        let mut out: Vec<u64> = Vec::new();
        let mut queue: Vec<Option<Handle>> = Vec::new();
        let mut head: usize = 0;
        let ghost mut gq: Seq<KeyTree> = Seq::empty();
        let ghost mut gqpar: Seq<Option<Handle>> = Seq::empty();
        match self.root {
            Some(r0) => {
                queue.push(Some(r0));
                proof {
                    gq = gq.push(self.shape@);
                    gqpar = gqpar.push(None);
                    assert(queue@ =~= seq![Some(r0)]);
                    assert(gq =~= seq![self.shape@]);
                    assert(rep(arena_view(self.nodes), Some(r0), self.shape@, None));
                    assert(gq.subrange(0, 1) =~= seq![self.shape@]);
                }
            }
            None => {
                proof {
                    assert(self.shape@ is Leaf);
                    assert(level_order_queue(seq![self.shape@].drop_first())
                        =~= Seq::<u64>::empty());
                    assert(level_order(self.shape@) =~= Seq::<u64>::empty());
                }
            }
        }
        while head < queue.len()
            invariant
                head <= queue.len(),
                queue@.len() == gq.len(),
                gqpar.len() == gq.len(),
                forall|i: int| #![auto]
                    0 <= i < gq.len() ==> (queue@[i] is None <==> gq[i] is Leaf) && (queue@[i]
                        matches Some(hh) ==> gq[i] is Branch && rep(
                        arena_view(self.nodes),
                        Some(hh),
                        gq[i],
                        gqpar[i],
                    )),
                out@ + level_order_queue(gq.subrange(head as int, gq.len() as int)) == level_order(
                    self.shape@,
                ),
            decreases queue_size(gq.subrange(head as int, gq.len() as int)), gq.len() - head,
        {
            let ghost m = arena_view(self.nodes);
            let ghost out0 = out@;
            let ghost rest = gq.subrange(head as int, gq.len() as int);
            let link = queue[head];
            head = head + 1;
            proof {
                assert(rest[0] == gq[head - 1]);
                assert(rest.drop_first() =~= gq.subrange(head as int, gq.len() as int));
            }
            match link {
                None => {
                    proof {
                        assert(gq[head - 1] is Leaf);
                        assert(level_order_queue(rest) == level_order_queue(rest.drop_first()));
                    }
                }
                Some(h) => {
                    let ghost x = gq[head - 1];
                    proof {
                        assert(rep(m, Some(h), x, gqpar[head - 1]));
                    }
                    let node = arena_get(&self.nodes, h);
                    let ghost (xl, xr) = match x {
                        KeyTree::Leaf => (KeyTree::Leaf, KeyTree::Leaf),
                        KeyTree::Branch { left, right, .. } => (*left, *right),
                    };
                    proof {
                        assert(m[h] == node);
                        assert(rep(m, node.left, xl, Some(h)));
                        assert(rep(m, node.right, xr, Some(h)));
                    }
                    out.push(node.key);
                    queue.push(node.left);
                    queue.push(node.right);
                    proof {
                        gq = gq.push(xl).push(xr);
                        gqpar = gqpar.push(Some(h)).push(Some(h));
                        let rest2 = gq.subrange(head as int, gq.len() as int);
                        assert(rest2 =~= rest.drop_first().push(xl).push(xr));
                        assert(level_order_queue(rest) == seq![node.key] + level_order_queue(
                            rest2,
                        ));
                        assert(out@ =~= out0 + seq![node.key]);
                        lemma_queue_size_push(rest.drop_first(), xl);
                        lemma_queue_size_push(rest.drop_first().push(xl), xr);
                        assert(queue_size(rest) == tree_size(x) + queue_size(rest.drop_first()));
                        assert(queue_size(rest2) < queue_size(rest));
                    }
                }
            }
        }
        proof {
            assert(gq.subrange(head as int, gq.len() as int).len() == 0);
            assert(level_order_queue(gq.subrange(head as int, gq.len() as int)) =~= Seq::<
                u64,
            >::empty());
            assert(out@ =~= level_order(self.shape@));
        }
        out
    }
}

/// The recursive comparison walk under a subtree laid out at `ro`.
fn find_rec(
    a: &Arena<Node>,
    ro: Option<Handle>,
    k: u64,
    Ghost(t): Ghost<KeyTree>,
    Ghost(par): Ghost<Option<Handle>>,
) -> (r: Option<Handle>)
    requires
        rep(arena_view(*a), ro, t, par),
    ensures
        r == find_h(arena_view(*a), ro, t, k),
    decreases t,
{
    match ro {
        None => None,
        Some(h) => {
            let node = arena_get(a, h);
            let ghost (tl, tr) = match t {
                KeyTree::Leaf => (KeyTree::Leaf, KeyTree::Leaf),
                KeyTree::Branch { left, right, .. } => (*left, *right),
            };
            if k == node.key {
                Some(h)
            } else if k < node.key {
                find_rec(a, node.left, k, Ghost(tl), Ghost(Some(h)))
            } else {
                find_rec(a, node.right, k, Ghost(tr), Ghost(Some(h)))
            }
        }
    }
}

/// The recursive insertion worker: descends the comparison walk below `cur`
/// and attaches the new leaf at the first empty link, setting its parent
/// back-reference to the node it hangs off.
fn insert_rec(
    a: &mut Arena<Node>,
    cur: Handle,
    k: u64,
    c: Color,
    Ghost(t): Ghost<KeyTree>,
    Ghost(par): Ghost<Option<Handle>>,
) -> (res: (Handle, Ghost<KeyTree>))
    requires
        rep(arena_view(*old(a)), Some(cur), t, par),
        uniq(arena_view(*old(a)), Some(cur), t),
        arena_view(*old(a)).dom().len() < usize::MAX,
    ensures
        res.1@ == tree_insert(t, k, c),
        rep(arena_view(*final(a)), Some(cur), res.1@, par),
        uniq(arena_view(*final(a)), Some(cur), res.1@),
        !arena_view(*old(a)).contains_key(res.0),
        arena_view(*final(a)).dom() == arena_view(*old(a)).dom().insert(res.0),
        forall|x: Handle| #![auto]
            arena_view(*old(a)).contains_key(x) && !hset(
                arena_view(*old(a)),
                Some(cur),
                t,
            ).contains(x) ==> arena_view(*final(a))[x] == arena_view(*old(a))[x],
        hset(arena_view(*final(a)), Some(cur), res.1@) == hset(
            arena_view(*old(a)),
            Some(cur),
            t,
        ).insert(res.0),
        handle_at(arena_view(*final(a)), Some(cur), res.1@, insert_path(t, k)) == Some(res.0),
    decreases t,
{
    let node = arena_get(a, cur);
    let ghost m0 = arena_view(*a);
    let ghost (tl, tr) = match t {
        KeyTree::Leaf => (KeyTree::Leaf, KeyTree::Leaf),
        KeyTree::Branch { left, right, .. } => (*left, *right),
    };
    proof {
        lemma_rep_in_dom(m0, Some(cur), t, par);
        assert(t is Branch);
        assert(m0[cur] == node);
        assert(rep(m0, node.left, tl, Some(cur)));
        assert(rep(m0, node.right, tr, Some(cur)));
    }
    if k < node.key {
        match node.left {
            None => {
                let leaf = Node { key: k, color: c, left: None, right: None, parent: Some(cur) };
                let h = arena_insert(a, leaf);
                let node2 = Node {
                    key: node.key,
                    color: node.color,
                    left: Some(h),
                    right: node.right,
                    parent: node.parent,
                };
                arena_set(a, cur, node2);
                let ghost t2 = tree_insert(t, k, c);
                proof {
                    let m2 = arena_view(*a);
                    assert(tl is Leaf);
                    assert forall|x: Handle| #[trigger]
                        hset(m0, node.right, tr).contains(x) implies m2.contains_key(x) && m2[x]
                        == m0[x] && m0.contains_key(x) by {
                        assert(hset(m0, Some(cur), t).contains(x));
                    }
                    lemma_rep_frame(m0, m2, node.right, tr, Some(cur));
                    assert(rep(m2, None, KeyTree::Leaf, Some(h)));
                    assert(rep(m2, Some(h), tree_insert(tl, k, c), Some(cur)));
                    assert(rep(m2, Some(cur), t2, par));
                    assert(hset(m2, None, KeyTree::Leaf) =~= Set::<Handle>::empty());
                    assert(hset(m2, Some(h), tree_insert(tl, k, c)) =~= Set::empty().insert(h));
                    assert(hset(m2, Some(cur), t2) =~= hset(m0, Some(cur), t).insert(h));
                    assert(m2.dom() =~= m0.dom().insert(h));
                    assert(uniq(m2, None, KeyTree::Leaf));
                    assert(uniq(m2, Some(h), tree_insert(tl, k, c)));
                    assert(uniq(m2, Some(cur), t2));
                    let p = insert_path(t, k);
                    assert(p =~= seq![false]);
                    assert(p[0] == false);
                    assert(p.drop_first() =~= Seq::<bool>::empty());
                    assert(handle_at(m2, Some(h), tree_insert(tl, k, c), p.drop_first())
                        == Some(h));
                    assert(handle_at(m2, Some(cur), t2, p) == Some(h));
                }
                (h, Ghost(t2))
            }
            Some(lh) => {
                let (h, t2l) = insert_rec(a, lh, k, c, Ghost(tl), Ghost(Some(cur)));
                let ghost t2 = tree_insert(t, k, c);
                proof {
                    let m2 = arena_view(*a);
                    assert(m2[cur] == m0[cur]);
                    assert forall|x: Handle| #[trigger]
                        hset(m0, node.right, tr).contains(x) implies m2.contains_key(x) && m2[x]
                        == m0[x] && m0.contains_key(x) by {
                        assert(hset(m0, Some(cur), t).contains(x));
                    }
                    lemma_rep_frame(m0, m2, node.right, tr, Some(cur));
                    assert(rep(m2, Some(cur), t2, par));
                    assert(hset(m2, Some(cur), t2) =~= hset(m0, Some(cur), t).insert(h));
                    assert(uniq(m2, Some(cur), t2));
                    let p = insert_path(t, k);
                    assert(p =~= seq![false] + insert_path(tl, k));
                    assert(p[0] == false);
                    assert(p.drop_first() =~= insert_path(tl, k));
                    assert(handle_at(m2, Some(cur), t2, p) == handle_at(
                        m2,
                        Some(lh),
                        t2l@,
                        insert_path(tl, k),
                    ));
                }
                (h, Ghost(t2))
            }
        }
    } else {
        match node.right {
            None => {
                let leaf = Node { key: k, color: c, left: None, right: None, parent: Some(cur) };
                let h = arena_insert(a, leaf);
                let node2 = Node {
                    key: node.key,
                    color: node.color,
                    left: node.left,
                    right: Some(h),
                    parent: node.parent,
                };
                arena_set(a, cur, node2);
                let ghost t2 = tree_insert(t, k, c);
                proof {
                    let m2 = arena_view(*a);
                    assert(tr is Leaf);
                    assert forall|x: Handle| #[trigger]
                        hset(m0, node.left, tl).contains(x) implies m2.contains_key(x) && m2[x]
                        == m0[x] && m0.contains_key(x) by {
                        assert(hset(m0, Some(cur), t).contains(x));
                    }
                    lemma_rep_frame(m0, m2, node.left, tl, Some(cur));
                    assert(rep(m2, None, KeyTree::Leaf, Some(h)));
                    assert(rep(m2, Some(h), tree_insert(tr, k, c), Some(cur)));
                    assert(rep(m2, Some(cur), t2, par));
                    assert(hset(m2, None, KeyTree::Leaf) =~= Set::<Handle>::empty());
                    assert(hset(m2, Some(h), tree_insert(tr, k, c)) =~= Set::empty().insert(h));
                    assert(hset(m2, Some(cur), t2) =~= hset(m0, Some(cur), t).insert(h));
                    assert(m2.dom() =~= m0.dom().insert(h));
                    assert(uniq(m2, None, KeyTree::Leaf));
                    assert(uniq(m2, Some(h), tree_insert(tr, k, c)));
                    assert(uniq(m2, Some(cur), t2));
                    let p = insert_path(t, k);
                    assert(p =~= seq![true]);
                    assert(p[0] == true);
                    assert(p.drop_first() =~= Seq::<bool>::empty());
                    assert(handle_at(m2, Some(h), tree_insert(tr, k, c), p.drop_first())
                        == Some(h));
                    assert(handle_at(m2, Some(cur), t2, p) == Some(h));
                }
                (h, Ghost(t2))
            }
            Some(rh) => {
                let (h, t2r) = insert_rec(a, rh, k, c, Ghost(tr), Ghost(Some(cur)));
                let ghost t2 = tree_insert(t, k, c);
                proof {
                    let m2 = arena_view(*a);
                    assert(m2[cur] == m0[cur]);
                    assert forall|x: Handle| #[trigger]
                        hset(m0, node.left, tl).contains(x) implies m2.contains_key(x) && m2[x]
                        == m0[x] && m0.contains_key(x) by {
                        assert(hset(m0, Some(cur), t).contains(x));
                    }
                    lemma_rep_frame(m0, m2, node.left, tl, Some(cur));
                    assert(rep(m2, Some(cur), t2, par));
                    assert(hset(m2, Some(cur), t2) =~= hset(m0, Some(cur), t).insert(h));
                    assert(uniq(m2, Some(cur), t2));
                    let p = insert_path(t, k);
                    assert(p =~= seq![true] + insert_path(tr, k));
                    assert(p[0] == true);
                    assert(p.drop_first() =~= insert_path(tr, k));
                    assert(handle_at(m2, Some(cur), t2, p) == handle_at(
                        m2,
                        Some(rh),
                        t2r@,
                        insert_path(tr, k),
                    ));
                }
                (h, Ghost(t2))
            }
        }
    }
}

/// Descend left links from `cur` to the leftmost node of its subtree.
fn min_rec(
    a: &Arena<Node>,
    cur: Handle,
    Ghost(t): Ghost<KeyTree>,
    Ghost(par): Ghost<Option<Handle>>,
) -> (r: Handle)
    requires
        rep(arena_view(*a), Some(cur), t, par),
    ensures
        arena_view(*a).contains_key(r),
        arena_view(*a)[r].key == tree_min(t),
    decreases t,
{
    let node = arena_get(a, cur);
    let ghost (tl, tr) = match t {
        KeyTree::Leaf => (KeyTree::Leaf, KeyTree::Leaf),
        KeyTree::Branch { left, right, .. } => (*left, *right),
    };
    proof {
        assert(t is Branch);
        assert(rep(arena_view(*a), node.left, tl, Some(cur)));
    }
    match node.left {
        None => cur,
        Some(lh0) => min_rec(a, lh0, Ghost(tl), Ghost(Some(cur))),
    }
}

/// Unlink the leftmost node of the subtree laid out at `cur`, whose parent
/// node is `par`. Returns the unlinked node's key, the subtree's new root
/// (already re-parented to `par`), and the new model.
fn remove_min(a: &mut Arena<Node>, cur: Handle, par: Handle, Ghost(t): Ghost<KeyTree>) -> (res: (
    u64,
    Option<Handle>,
    Ghost<KeyTree>,
))
    requires
        rep(arena_view(*old(a)), Some(cur), t, Some(par)),
        uniq(arena_view(*old(a)), Some(cur), t),
    ensures
        res.2@ == tree_delete_min(t),
        res.0 == tree_min(t),
        rep(arena_view(*final(a)), res.1, res.2@, Some(par)),
        uniq(arena_view(*final(a)), res.1, res.2@),
        exists|rh: Handle|
            {
                &&& #[trigger] hset(arena_view(*old(a)), Some(cur), t).contains(rh)
                &&& arena_view(*final(a)).dom() == arena_view(*old(a)).dom().remove(rh)
                &&& hset(arena_view(*final(a)), res.1, res.2@) == hset(
                    arena_view(*old(a)),
                    Some(cur),
                    t,
                ).remove(rh)
            },
        forall|x: Handle| #![auto]
            arena_view(*old(a)).contains_key(x) && !hset(
                arena_view(*old(a)),
                Some(cur),
                t,
            ).contains(x) ==> arena_view(*final(a)).contains_key(x) && arena_view(*final(a))[x]
                == arena_view(*old(a))[x],
    decreases t,
{
    let node = arena_get(a, cur);
    let ghost m0 = arena_view(*a);
    let ghost (tl, tr) = match t {
        KeyTree::Leaf => (KeyTree::Leaf, KeyTree::Leaf),
        KeyTree::Branch { left, right, .. } => (*left, *right),
    };
    proof {
        assert(t is Branch);
        assert(m0[cur] == node);
        assert(rep(m0, node.left, tl, Some(cur)));
        assert(rep(m0, node.right, tr, Some(cur)));
        lemma_rep_in_dom(m0, Some(cur), t, Some(par));
    }
    match node.left {
        None => {
            // `cur` is the leftmost node: promote its right child into its
            // place and hand it the old parent back-reference.
            if let Some(rh0) = node.right {
                let rn = arena_get(a, rh0);
                let rn2 = Node {
                    key: rn.key,
                    color: rn.color,
                    left: rn.left,
                    right: rn.right,
                    parent: Some(par),
                };
                arena_set(a, rh0, rn2);
                proof {
                    lemma_reparent(m0, rh0, tr, Some(cur), Some(par));
                }
            }
            let ghost m1 = arena_view(*a);
            let _ = arena_remove(a, cur);
            proof {
                let m2 = arena_view(*a);
                assert(tl is Leaf);
                assert(rep(m1, node.right, tr, Some(par)));
                assert(uniq(m1, node.right, tr));
                assert(hset(m1, node.right, tr) == hset(m0, node.right, tr));
                assert(!hset(m0, node.right, tr).contains(cur));
                assert forall|x: Handle| #[trigger]
                    hset(m1, node.right, tr).contains(x) implies m2.contains_key(x) && m2[x]
                    == m1[x] && m1.contains_key(x) by {
                    lemma_rep_in_dom(m1, node.right, tr, Some(par));
                    assert(x != cur);
                }
                lemma_rep_frame(m1, m2, node.right, tr, Some(par));
                assert(tree_delete_min(t) == tr);
                assert(tree_min(t) == node.key);
                assert(hset(m0, Some(cur), t).contains(cur));
                assert(m2.dom() =~= m0.dom().remove(cur));
                assert(hset(m2, node.right, tr) =~= hset(m0, Some(cur), t).remove(cur));
            }
            (node.key, node.right, Ghost(tr))
        }
        Some(lh0) => {
            let (mk, nl, t2l) = remove_min(a, lh0, cur, Ghost(tl));
            let ghost m1 = arena_view(*a);
            let node2 = Node {
                key: node.key,
                color: node.color,
                left: nl,
                right: node.right,
                parent: node.parent,
            };
            arena_set(a, cur, node2);
            let ghost t2 = KeyTree::Branch {
                key: node.key,
                color: node.color,
                left: Box::new(t2l@),
                right: Box::new(tr),
            };
            proof {
                let m2 = arena_view(*a);
                assert(tl is Branch);
                let rh = choose|rh: Handle|
                    {
                        &&& #[trigger] hset(m0, Some(lh0), tl).contains(rh)
                        &&& m1.dom() == m0.dom().remove(rh)
                        &&& hset(m1, nl, t2l@) == hset(m0, Some(lh0), tl).remove(rh)
                    };
                assert(!hset(m0, Some(lh0), tl).contains(cur));
                assert(m1.contains_key(cur) && m1[cur] == m0[cur]);
                // the right subtree was untouched by the recursive call
                assert forall|x: Handle| #[trigger]
                    hset(m0, node.right, tr).contains(x) implies m1.contains_key(x) && m1[x]
                    == m0[x] && m0.contains_key(x) by {
                    lemma_rep_in_dom(m0, node.right, tr, Some(cur));
                    assert(hset(m0, Some(cur), t).contains(x));
                    assert(!hset(m0, Some(lh0), tl).contains(x));
                }
                lemma_rep_frame(m0, m1, node.right, tr, Some(cur));
                // rewriting cur's left link touches neither subtree layout
                assert forall|x: Handle| #[trigger]
                    hset(m1, nl, t2l@).contains(x) implies m2.contains_key(x) && m2[x] == m1[x]
                    && m1.contains_key(x) by {
                    lemma_rep_in_dom(m1, nl, t2l@, Some(cur));
                    assert(hset(m0, Some(lh0), tl).contains(x));
                    assert(x != cur);
                }
                lemma_rep_frame(m1, m2, nl, t2l@, Some(cur));
                assert forall|x: Handle| #[trigger]
                    hset(m1, node.right, tr).contains(x) implies m2.contains_key(x) && m2[x]
                    == m1[x] && m1.contains_key(x) by {
                    lemma_rep_in_dom(m1, node.right, tr, Some(cur));
                    assert(hset(m1, node.right, tr) == hset(m0, node.right, tr));
                    assert(x != cur);
                }
                lemma_rep_frame(m1, m2, node.right, tr, Some(cur));
                assert(rep(m2, Some(cur), t2, Some(par)));
                assert(uniq(m2, Some(cur), t2));
                assert(tree_delete_min(t) == t2);
                assert(tree_min(t) == tree_min(tl));
                assert(hset(m0, Some(cur), t).contains(rh));
                assert(m2.dom() =~= m0.dom().remove(rh));
                assert(hset(m2, Some(cur), t2) =~= hset(m0, Some(cur), t).remove(rh));
            }
            (mk, Some(cur), Ghost(t2))
        }
    }
}

/// The recursive removal worker: descends the comparison walk for `k` below
/// `cur` (the key is known to be present there) and removes the first node
/// whose key matches, per the zero/one/two-children cases.
fn remove_rec(
    a: &mut Arena<Node>,
    cur: Handle,
    parent: Option<Handle>,
    k: u64,
    Ghost(t): Ghost<KeyTree>,
) -> (res: (Option<Handle>, Ghost<KeyTree>))
    requires
        rep(arena_view(*old(a)), Some(cur), t, parent),
        uniq(arena_view(*old(a)), Some(cur), t),
        tree_search(t, k),
    ensures
        res.1@ == tree_remove(t, k),
        rep(arena_view(*final(a)), res.0, res.1@, parent),
        uniq(arena_view(*final(a)), res.0, res.1@),
        exists|rh: Handle|
            {
                &&& #[trigger] hset(arena_view(*old(a)), Some(cur), t).contains(rh)
                &&& arena_view(*final(a)).dom() == arena_view(*old(a)).dom().remove(rh)
                &&& hset(arena_view(*final(a)), res.0, res.1@) == hset(
                    arena_view(*old(a)),
                    Some(cur),
                    t,
                ).remove(rh)
            },
        forall|x: Handle| #![auto]
            arena_view(*old(a)).contains_key(x) && !hset(
                arena_view(*old(a)),
                Some(cur),
                t,
            ).contains(x) ==> arena_view(*final(a)).contains_key(x) && arena_view(*final(a))[x]
                == arena_view(*old(a))[x],
    decreases t,
{
    let node = arena_get(a, cur);
    let ghost m0 = arena_view(*a);
    let ghost (tl, tr) = match t {
        KeyTree::Leaf => (KeyTree::Leaf, KeyTree::Leaf),
        KeyTree::Branch { left, right, .. } => (*left, *right),
    };
    proof {
        assert(t is Branch);
        assert(m0[cur] == node);
        assert(rep(m0, node.left, tl, Some(cur)));
        assert(rep(m0, node.right, tr, Some(cur)));
        lemma_rep_in_dom(m0, Some(cur), t, parent);
    }
    if k == node.key {
        match (node.left, node.right) {
            (Some(lh0), Some(rh0)) => {
                // Two children: take the inorder successor's key and unlink
                // the successor (the leftmost node of the right subtree).
                let (mk, nr, t2r) = remove_min(a, rh0, cur, Ghost(tr));
                let ghost m1 = arena_view(*a);
                let node2 = Node {
                    key: mk,
                    color: node.color,
                    left: node.left,
                    right: nr,
                    parent: node.parent,
                };
                arena_set(a, cur, node2);
                let ghost t2 = KeyTree::Branch {
                    key: mk,
                    color: node.color,
                    left: Box::new(tl),
                    right: Box::new(t2r@),
                };
                proof {
                    let m2 = arena_view(*a);
                    assert(tl is Branch);
                    assert(tr is Branch);
                    let rh = choose|rh: Handle|
                        {
                            &&& #[trigger] hset(m0, Some(rh0), tr).contains(rh)
                            &&& m1.dom() == m0.dom().remove(rh)
                            &&& hset(m1, nr, t2r@) == hset(m0, Some(rh0), tr).remove(rh)
                        };
                    assert(!hset(m0, Some(rh0), tr).contains(cur));
                    assert(m1.contains_key(cur) && m1[cur] == m0[cur]);
                    assert forall|x: Handle| #[trigger]
                        hset(m0, node.left, tl).contains(x) implies m1.contains_key(x) && m1[x]
                        == m0[x] && m0.contains_key(x) by {
                        lemma_rep_in_dom(m0, node.left, tl, Some(cur));
                        assert(hset(m0, Some(cur), t).contains(x));
                        assert(!hset(m0, Some(rh0), tr).contains(x));
                    }
                    lemma_rep_frame(m0, m1, node.left, tl, Some(cur));
                    assert forall|x: Handle| #[trigger]
                        hset(m1, nr, t2r@).contains(x) implies m2.contains_key(x) && m2[x] == m1[x]
                        && m1.contains_key(x) by {
                        lemma_rep_in_dom(m1, nr, t2r@, Some(cur));
                        assert(hset(m0, Some(rh0), tr).contains(x));
                        assert(x != cur);
                    }
                    lemma_rep_frame(m1, m2, nr, t2r@, Some(cur));
                    assert forall|x: Handle| #[trigger]
                        hset(m1, node.left, tl).contains(x) implies m2.contains_key(x) && m2[x]
                        == m1[x] && m1.contains_key(x) by {
                        lemma_rep_in_dom(m1, node.left, tl, Some(cur));
                        assert(hset(m1, node.left, tl) == hset(m0, node.left, tl));
                        assert(x != cur);
                    }
                    lemma_rep_frame(m1, m2, node.left, tl, Some(cur));
                    assert(rep(m2, Some(cur), t2, parent));
                    assert(uniq(m2, Some(cur), t2));
                    assert(tree_remove(t, k) == t2);
                    assert(hset(m0, Some(cur), t).contains(rh));
                    assert(m2.dom() =~= m0.dom().remove(rh));
                    assert(hset(m2, Some(cur), t2) =~= hset(m0, Some(cur), t).remove(rh));
                }
                (Some(cur), Ghost(t2))
            }
            (left_opt, right_opt) => {
                // Zero or one child: unlink `cur` and promote the sole child
                // (if any), handing it the old parent back-reference.
                let (promoted, ghost_sub) = if let Some(lh0) = left_opt {
                    (Some(lh0), Ghost(tl))
                } else {
                    (right_opt, Ghost(tr))
                };
                proof {
                    assert(left_opt is Some ==> tr is Leaf);
                    assert(left_opt is None ==> tl is Leaf);
                    assert(rep(m0, promoted, ghost_sub@, Some(cur)));
                    assert(uniq(m0, promoted, ghost_sub@));
                    assert(tree_remove(t, k) == ghost_sub@);
                }
                if let Some(ph) = promoted {
                    let pn = arena_get(a, ph);
                    let pn2 = Node {
                        key: pn.key,
                        color: pn.color,
                        left: pn.left,
                        right: pn.right,
                        parent,
                    };
                    arena_set(a, ph, pn2);
                    proof {
                        lemma_reparent(m0, ph, ghost_sub@, Some(cur), parent);
                    }
                }
                let ghost m1 = arena_view(*a);
                let _ = arena_remove(a, cur);
                proof {
                    let m2 = arena_view(*a);
                    assert(rep(m1, promoted, ghost_sub@, parent));
                    assert(uniq(m1, promoted, ghost_sub@));
                    assert(hset(m1, promoted, ghost_sub@) == hset(m0, promoted, ghost_sub@));
                    assert(!hset(m0, promoted, ghost_sub@).contains(cur));
                    assert forall|x: Handle| #[trigger]
                        hset(m1, promoted, ghost_sub@).contains(x) implies m2.contains_key(x)
                        && m2[x] == m1[x] && m1.contains_key(x) by {
                        lemma_rep_in_dom(m1, promoted, ghost_sub@, parent);
                        assert(x != cur);
                    }
                    lemma_rep_frame(m1, m2, promoted, ghost_sub@, parent);
                    assert(hset(m0, Some(cur), t).contains(cur));
                    assert(m2.dom() =~= m0.dom().remove(cur));
                    assert(hset(m2, promoted, ghost_sub@) =~= hset(m0, Some(cur), t).remove(cur));
                }
                (promoted, ghost_sub)
            }
        }
    } else if k < node.key {
        proof {
            assert(tree_search(tl, k));
            assert(tl is Branch);
        }
        let lh0 = match node.left {
            Some(x) => x,
            None => {
                proof {
                    assert(false);
                }
                cur
            },
        };
        let (nl, t2l) = remove_rec(a, lh0, Some(cur), k, Ghost(tl));
        let ghost m1 = arena_view(*a);
        let node2 = Node {
            key: node.key,
            color: node.color,
            left: nl,
            right: node.right,
            parent: node.parent,
        };
        arena_set(a, cur, node2);
        let ghost t2 = KeyTree::Branch {
            key: node.key,
            color: node.color,
            left: Box::new(t2l@),
            right: Box::new(tr),
        };
        proof {
            let m2 = arena_view(*a);
            let rh = choose|rh: Handle|
                {
                    &&& #[trigger] hset(m0, Some(lh0), tl).contains(rh)
                    &&& m1.dom() == m0.dom().remove(rh)
                    &&& hset(m1, nl, t2l@) == hset(m0, Some(lh0), tl).remove(rh)
                };
            assert(!hset(m0, Some(lh0), tl).contains(cur));
            assert(m1.contains_key(cur) && m1[cur] == m0[cur]);
            assert forall|x: Handle| #[trigger]
                hset(m0, node.right, tr).contains(x) implies m1.contains_key(x) && m1[x] == m0[x]
                && m0.contains_key(x) by {
                lemma_rep_in_dom(m0, node.right, tr, Some(cur));
                assert(hset(m0, Some(cur), t).contains(x));
                assert(!hset(m0, Some(lh0), tl).contains(x));
            }
            lemma_rep_frame(m0, m1, node.right, tr, Some(cur));
            assert forall|x: Handle| #[trigger]
                hset(m1, nl, t2l@).contains(x) implies m2.contains_key(x) && m2[x] == m1[x]
                && m1.contains_key(x) by {
                lemma_rep_in_dom(m1, nl, t2l@, Some(cur));
                assert(hset(m0, Some(lh0), tl).contains(x));
                assert(x != cur);
            }
            lemma_rep_frame(m1, m2, nl, t2l@, Some(cur));
            assert forall|x: Handle| #[trigger]
                hset(m1, node.right, tr).contains(x) implies m2.contains_key(x) && m2[x] == m1[x]
                && m1.contains_key(x) by {
                lemma_rep_in_dom(m1, node.right, tr, Some(cur));
                assert(hset(m1, node.right, tr) == hset(m0, node.right, tr));
                assert(x != cur);
            }
            lemma_rep_frame(m1, m2, node.right, tr, Some(cur));
            assert(rep(m2, Some(cur), t2, parent));
            assert(uniq(m2, Some(cur), t2));
            assert(tree_remove(t, k) == t2);
            assert(hset(m0, Some(cur), t).contains(rh));
            assert(m2.dom() =~= m0.dom().remove(rh));
            assert(hset(m2, Some(cur), t2) =~= hset(m0, Some(cur), t).remove(rh));
        }
        (Some(cur), Ghost(t2))
    } else {
        proof {
            assert(tree_search(tr, k));
            assert(tr is Branch);
        }
        let rh0 = match node.right {
            Some(x) => x,
            None => {
                proof {
                    assert(false);
                }
                cur
            },
        };
        let (nr, t2r) = remove_rec(a, rh0, Some(cur), k, Ghost(tr));
        let ghost m1 = arena_view(*a);
        let node2 = Node {
            key: node.key,
            color: node.color,
            left: node.left,
            right: nr,
            parent: node.parent,
        };
        arena_set(a, cur, node2);
        let ghost t2 = KeyTree::Branch {
            key: node.key,
            color: node.color,
            left: Box::new(tl),
            right: Box::new(t2r@),
        };
        proof {
            let m2 = arena_view(*a);
            let rh = choose|rh: Handle|
                {
                    &&& #[trigger] hset(m0, Some(rh0), tr).contains(rh)
                    &&& m1.dom() == m0.dom().remove(rh)
                    &&& hset(m1, nr, t2r@) == hset(m0, Some(rh0), tr).remove(rh)
                };
            assert(!hset(m0, Some(rh0), tr).contains(cur));
            assert(m1.contains_key(cur) && m1[cur] == m0[cur]);
            assert forall|x: Handle| #[trigger]
                hset(m0, node.left, tl).contains(x) implies m1.contains_key(x) && m1[x] == m0[x]
                && m0.contains_key(x) by {
                lemma_rep_in_dom(m0, node.left, tl, Some(cur));
                assert(hset(m0, Some(cur), t).contains(x));
                assert(!hset(m0, Some(rh0), tr).contains(x));
            }
            lemma_rep_frame(m0, m1, node.left, tl, Some(cur));
            assert forall|x: Handle| #[trigger]
                hset(m1, nr, t2r@).contains(x) implies m2.contains_key(x) && m2[x] == m1[x]
                && m1.contains_key(x) by {
                lemma_rep_in_dom(m1, nr, t2r@, Some(cur));
                assert(hset(m0, Some(rh0), tr).contains(x));
                assert(x != cur);
            }
            lemma_rep_frame(m1, m2, nr, t2r@, Some(cur));
            assert forall|x: Handle| #[trigger]
                hset(m1, node.left, tl).contains(x) implies m2.contains_key(x) && m2[x] == m1[x]
                && m1.contains_key(x) by {
                lemma_rep_in_dom(m1, node.left, tl, Some(cur));
                assert(hset(m1, node.left, tl) == hset(m0, node.left, tl));
                assert(x != cur);
            }
            lemma_rep_frame(m1, m2, node.left, tl, Some(cur));
            assert(rep(m2, Some(cur), t2, parent));
            assert(uniq(m2, Some(cur), t2));
            assert(tree_remove(t, k) == t2);
            assert(hset(m0, Some(cur), t).contains(rh));
            assert(m2.dom() =~= m0.dom().remove(rh));
            assert(hset(m2, Some(cur), t2) =~= hset(m0, Some(cur), t).remove(rh));
        }
        (Some(cur), Ghost(t2))
    }
}

} // verus!
