//! The representation predicate: what it means for the arena contents, a root
//! handle, and the parent back-references to lay out a given model tree, plus
//! the framing lemmas every structural operation relies on.

use vstd::prelude::*;

use crate::model::KeyTree;
use crate::model::child_of;
use crate::model::found_sub;
use crate::model::subtree_at;
use crate::model::update_at;
use crate::model::valid_path;
use crate::model::tree_search;
use crate::model::tree_size;
use crate::node::Color;
use crate::node::Handle;
use crate::node::Node;

verus! {

/// The node records reachable from `ro` lay out exactly the model tree `t`,
/// and the record at the root of every subtree points back at `par`.
pub open spec fn rep(m: Map<Handle, Node>, ro: Option<Handle>, t: KeyTree, par: Option<
    Handle,
>) -> bool
    decreases t,
{
    match t {
        KeyTree::Leaf => ro is None,
        KeyTree::Branch { key, color, left, right } => match ro {
            Option::None => false,
            Option::Some(h) => {
                &&& m.contains_key(h)
                &&& m[h].key == key
                &&& m[h].color == color
                &&& m[h].parent == par
                &&& rep(m, m[h].left, *left, Some(h))
                &&& rep(m, m[h].right, *right, Some(h))
            },
        },
    }
}

/// The set of handles that the layout of `t` below `ro` occupies.
pub open spec fn hset(m: Map<Handle, Node>, ro: Option<Handle>, t: KeyTree) -> Set<Handle>
    decreases t,
{
    match t {
        KeyTree::Leaf => Set::empty(),
        KeyTree::Branch { left, right, .. } => match ro {
            Option::None => Set::empty(),
            Option::Some(h) => (hset(m, m[h].left, *left) + hset(m, m[h].right, *right)).insert(
                h,
            ),
        },
    }
}

/// No handle occurs twice in the layout: the subtrees use disjoint handle
/// sets and no node is its own descendant.
pub open spec fn uniq(m: Map<Handle, Node>, ro: Option<Handle>, t: KeyTree) -> bool
    decreases t,
{
    match t {
        KeyTree::Leaf => true,
        KeyTree::Branch { left, right, .. } => match ro {
            Option::None => true,
            Option::Some(h) => {
                &&& uniq(m, m[h].left, *left)
                &&& uniq(m, m[h].right, *right)
                &&& !hset(m, m[h].left, *left).contains(h)
                &&& !hset(m, m[h].right, *right).contains(h)
                &&& hset(m, m[h].left, *left).disjoint(hset(m, m[h].right, *right))
            },
        },
    }
}

/// The handle that the comparison walk for `k` stops at, if any.
pub open spec fn find_h(m: Map<Handle, Node>, ro: Option<Handle>, t: KeyTree, k: u64) -> Option<
    Handle,
>
    decreases t,
{
    match t {
        KeyTree::Leaf => Option::None,
        KeyTree::Branch { key, left, right, .. } => match ro {
            Option::None => Option::None,
            Option::Some(h) => if k == key {
                Option::Some(h)
            } else if k < key {
                find_h(m, m[h].left, *left, k)
            } else {
                find_h(m, m[h].right, *right, k)
            },
        },
    }
}

/// The handle that a path leads to.
pub open spec fn handle_at(m: Map<Handle, Node>, ro: Option<Handle>, t: KeyTree, p: Seq<
    bool,
>) -> Option<Handle>
    decreases p.len(),
{
    if p.len() == 0 {
        ro
    } else {
        match t {
            KeyTree::Leaf => Option::None,
            KeyTree::Branch { .. } => match ro {
                Option::None => Option::None,
                Option::Some(h) => handle_at(
                    m,
                    if p[0] {
                        m[h].right
                    } else {
                        m[h].left
                    },
                    child_of(t, p[0]),
                    p.drop_first(),
                ),
            },
        }
    }
}

/// The color of an optional handle: absent handles are Black.
pub open spec fn color_opt(m: Map<Handle, Node>, ho: Option<Handle>) -> Color {
    match ho {
        Option::None => Color::Black,
        Option::Some(h) => m[h].color,
    }
}

/// `m2` holds the same records as `m1` on every handle in `s`.
pub open spec fn agrees_on(m1: Map<Handle, Node>, m2: Map<Handle, Node>, s: Set<Handle>) -> bool {
    forall|h: Handle| #[trigger]
        s.contains(h) ==> m2.contains_key(h) && m2[h] == m1[h] && m1.contains_key(h)
}

/// Framing: a layout only depends on the records of the handles it occupies,
/// so a map that agrees there carries the same layout, the same handle set,
/// and the same uniqueness.
pub proof fn lemma_rep_frame(
    m1: Map<Handle, Node>,
    m2: Map<Handle, Node>,
    ro: Option<Handle>,
    t: KeyTree,
    par: Option<Handle>,
)
    requires
        rep(m1, ro, t, par),
        agrees_on(m1, m2, hset(m1, ro, t)),
    ensures
        rep(m2, ro, t, par),
        hset(m2, ro, t) == hset(m1, ro, t),
        uniq(m1, ro, t) ==> uniq(m2, ro, t),
    decreases t,
{
    match t {
        KeyTree::Leaf => {
        }
        KeyTree::Branch { left, right, .. } => {
            if let Option::Some(h) = ro {
                assert(hset(m1, ro, t).contains(h));
                assert forall|x: Handle| #[trigger]
                    hset(m1, m1[h].left, *left).contains(x) implies m2.contains_key(x) && m2[x]
                    == m1[x] && m1.contains_key(x) by {
                    assert(hset(m1, ro, t).contains(x));
                }
                assert forall|x: Handle| #[trigger]
                    hset(m1, m1[h].right, *right).contains(x) implies m2.contains_key(x) && m2[x]
                    == m1[x] && m1.contains_key(x) by {
                    assert(hset(m1, ro, t).contains(x));
                }
                lemma_rep_frame(m1, m2, m1[h].left, *left, Some(h));
                lemma_rep_frame(m1, m2, m1[h].right, *right, Some(h));
                assert(m2[h] == m1[h]);
                assert(hset(m2, ro, t) =~= hset(m1, ro, t));
            }
        }
    }
}

/// Every handle a layout occupies is live in the map.
pub proof fn lemma_rep_in_dom(
    m: Map<Handle, Node>,
    ro: Option<Handle>,
    t: KeyTree,
    par: Option<Handle>,
)
    requires
        rep(m, ro, t, par),
    ensures
        forall|x: Handle| #[trigger] hset(m, ro, t).contains(x) ==> m.contains_key(x),
    decreases t,
{
    match t {
        KeyTree::Leaf => {
            assert(hset(m, ro, t) =~= Set::empty());
        }
        KeyTree::Branch { left, right, .. } => {
            if let Option::Some(h) = ro {
                lemma_rep_in_dom(m, m[h].left, *left, Some(h));
                lemma_rep_in_dom(m, m[h].right, *right, Some(h));
                assert forall|x: Handle| #[trigger]
                    hset(m, ro, t).contains(x) implies m.contains_key(x) by {
                    if x != h {
                        assert(hset(m, m[h].left, *left).contains(x) || hset(
                            m,
                            m[h].right,
                            *right,
                        ).contains(x));
                    }
                }
            }
        }
    }
}

/// Without duplicate handles, a layout occupies exactly as many handles as
/// the model has nodes.
pub proof fn lemma_hset_card(
    m: Map<Handle, Node>,
    ro: Option<Handle>,
    t: KeyTree,
    par: Option<Handle>,
)
    requires
        rep(m, ro, t, par),
        uniq(m, ro, t),
    ensures
        hset(m, ro, t).finite(),
        hset(m, ro, t).len() == tree_size(t),
    decreases t,
{
    match t {
        KeyTree::Leaf => {
            assert(hset(m, ro, t) =~= Set::empty());
        }
        KeyTree::Branch { left, right, .. } => {
            if let Option::Some(h) = ro {
                lemma_hset_card(m, m[h].left, *left, Some(h));
                lemma_hset_card(m, m[h].right, *right, Some(h));
                vstd::set_lib::lemma_set_disjoint_lens(
                    hset(m, m[h].left, *left),
                    hset(m, m[h].right, *right),
                );
            }
        }
    }
}

/// Rewriting only the parent back-reference of a subtree's root record moves
/// the whole layout under a new parent.
pub proof fn lemma_reparent(
    m: Map<Handle, Node>,
    h: Handle,
    t: KeyTree,
    p1: Option<Handle>,
    p2: Option<Handle>,
)
    requires
        rep(m, Some(h), t, p1),
        uniq(m, Some(h), t),
    ensures
        ({
            let n2 = Node {
                key: m[h].key,
                color: m[h].color,
                left: m[h].left,
                right: m[h].right,
                parent: p2,
            };
            &&& rep(m.insert(h, n2), Some(h), t, p2)
            &&& uniq(m.insert(h, n2), Some(h), t)
            &&& hset(m.insert(h, n2), Some(h), t) == hset(m, Some(h), t)
        }),
{
    let n2 = Node {
        key: m[h].key,
        color: m[h].color,
        left: m[h].left,
        right: m[h].right,
        parent: p2,
    };
    let m2 = m.insert(h, n2);
    match t {
        KeyTree::Leaf => {
        }
        KeyTree::Branch { left, right, .. } => {
            assert forall|x: Handle| #[trigger]
                hset(m, m[h].left, *left).contains(x) implies m2.contains_key(x) && m2[x] == m[x]
                && m.contains_key(x) by {
                lemma_rep_in_dom(m, m[h].left, *left, Some(h));
                assert(x != h);
            }
            assert forall|x: Handle| #[trigger]
                hset(m, m[h].right, *right).contains(x) implies m2.contains_key(x) && m2[x] == m[x]
                && m.contains_key(x) by {
                lemma_rep_in_dom(m, m[h].right, *right, Some(h));
                assert(x != h);
            }
            lemma_rep_frame(m, m2, m[h].left, *left, Some(h));
            lemma_rep_frame(m, m2, m[h].right, *right, Some(h));
            assert(hset(m2, Some(h), t) =~= hset(m, Some(h), t));
        }
    }
}

/// What the comparison walk's answer means: it succeeds exactly when the
/// model search succeeds, and the handle it returns is live and carries the
/// searched key.
pub proof fn lemma_find_h(
    m: Map<Handle, Node>,
    ro: Option<Handle>,
    t: KeyTree,
    par: Option<Handle>,
    k: u64,
)
    requires
        rep(m, ro, t, par),
    ensures
        find_h(m, ro, t, k) is Some <==> tree_search(t, k),
        find_h(m, ro, t, k) matches Option::Some(h) ==> m.contains_key(h) && m[h].key == k && hset(
            m,
            ro,
            t,
        ).contains(h),
    decreases t,
{
    match t {
        KeyTree::Leaf => {
        }
        KeyTree::Branch { key, left, right, .. } => {
            if let Option::Some(h) = ro {
                lemma_find_h(m, m[h].left, *left, Some(h), k);
                lemma_find_h(m, m[h].right, *right, Some(h), k);
            }
        }
    }
}

/// The handle of the parent of the node a nonempty path leads to; for the
/// empty path, the parent of the whole layout.
pub open spec fn path_parent(
    m: Map<Handle, Node>,
    ro: Option<Handle>,
    t: KeyTree,
    par: Option<Handle>,
    p: Seq<bool>,
) -> Option<Handle> {
    if p.len() == 0 {
        par
    } else {
        handle_at(m, ro, t, p.drop_last())
    }
}

/// Walking a valid path to a nonempty node yields a live handle whose record
/// lays out exactly the subtree there, parented at the path's previous node;
/// and that handle lies inside the layout's handle set.
pub proof fn lemma_at_path(
    m: Map<Handle, Node>,
    ro: Option<Handle>,
    t: KeyTree,
    par: Option<Handle>,
    p: Seq<bool>,
)
    requires
        rep(m, ro, t, par),
        uniq(m, ro, t),
        valid_path(t, p),
        subtree_at(t, p) is Branch,
    ensures
        handle_at(m, ro, t, p) is Some,
        rep(m, handle_at(m, ro, t, p), subtree_at(t, p), path_parent(m, ro, t, par, p)),
        uniq(m, handle_at(m, ro, t, p), subtree_at(t, p)),
        handle_at(m, ro, t, p) matches Option::Some(hp) ==> m.contains_key(hp) && hset(
            m,
            ro,
            t,
        ).contains(hp),
        forall|x: Handle| #[trigger]
            hset(m, handle_at(m, ro, t, p), subtree_at(t, p)).contains(x) ==> hset(
                m,
                ro,
                t,
            ).contains(x),
        p.len() >= 1 ==> (ro matches Option::Some(r0) ==> handle_at(m, ro, t, p) != Some(r0)),
    decreases p.len(),
{
    if p.len() == 0 {
    } else {
        match t {
            KeyTree::Leaf => {
            }
            KeyTree::Branch { left, right, .. } => {
                if let Option::Some(h0) = ro {
                    let clink = if p[0] {
                        m[h0].right
                    } else {
                        m[h0].left
                    };
                    let c = child_of(t, p[0]);
                    lemma_at_path(m, clink, c, Some(h0), p.drop_first());
                    assert(handle_at(m, ro, t, p) == handle_at(m, clink, c, p.drop_first()));
                    assert(subtree_at(t, p) == subtree_at(c, p.drop_first()));
                    if p.len() == 1 {
                        assert(p.drop_last() =~= Seq::<bool>::empty());
                        assert(p.drop_first() =~= Seq::<bool>::empty());
                        assert(path_parent(m, ro, t, par, p) == Some(h0));
                    } else {
                        assert(p.drop_last()[0] == p[0]);
                        assert(p.drop_last().drop_first() =~= p.drop_first().drop_last());
                        assert(handle_at(m, ro, t, p.drop_last()) == handle_at(
                            m,
                            clink,
                            c,
                            p.drop_first().drop_last(),
                        ));
                    }
                    if let Option::Some(hp) = handle_at(m, clink, c, p.drop_first()) {
                        if p.drop_first().len() == 0 {
                            assert(hset(m, clink, c).contains(hp));
                        }
                        assert(hset(m, ro, t).contains(hp));
                        assert(!hset(m, m[h0].left, *left).contains(h0));
                        assert(!hset(m, m[h0].right, *right).contains(h0));
                        assert(hp != h0);
                    }
                    assert forall|x: Handle| #[trigger]
                        hset(m, handle_at(m, ro, t, p), subtree_at(t, p)).contains(
                            x,
                        ) implies hset(m, ro, t).contains(x) by {
                        assert(hset(m, clink, c).contains(x));
                    }
                }
            }
        }
    }
}

/// Every path through an empty tree stays empty.
pub proof fn lemma_subtree_at_leaf(q: Seq<bool>)
    ensures
        subtree_at(KeyTree::Leaf, q) == KeyTree::Leaf,
    decreases q.len(),
{
    if q.len() > 0 {
        lemma_subtree_at_leaf(q.drop_first());
    }
}

/// Path concatenation: walking `q` then `r` is walking `q + r`.
pub proof fn lemma_handle_at_append(
    m: Map<Handle, Node>,
    ro: Option<Handle>,
    t: KeyTree,
    q: Seq<bool>,
    r: Seq<bool>,
)
    ensures
        handle_at(m, ro, t, q + r) == handle_at(
            m,
            handle_at(m, ro, t, q),
            subtree_at(t, q),
            r,
        ),
    decreases q.len(),
{
    if q.len() == 0 {
        assert(q + r =~= r);
    } else {
        assert((q + r)[0] == q[0]);
        assert((q + r).drop_first() =~= q.drop_first() + r);
        match t {
            KeyTree::Leaf => {
                lemma_subtree_at_leaf(q);
            }
            KeyTree::Branch { .. } => {
                match ro {
                    Option::None => {
                        lemma_handle_at_append(
                            m,
                            Option::None,
                            child_of(t, q[0]),
                            q.drop_first(),
                            r,
                        );
                    }
                    Option::Some(h0) => {
                        let clink = if q[0] {
                            m[h0].right
                        } else {
                            m[h0].left
                        };
                        lemma_handle_at_append(m, clink, child_of(t, q[0]), q.drop_first(), r);
                    }
                }
            }
        }
    }
}

/// The link that owns the node a nonempty path leads to: the previous node's
/// child link on the path's last side, which the path's handle also is; and
/// that previous node lies outside the subtree's handle set.
pub proof fn lemma_parent_link(
    m: Map<Handle, Node>,
    ro: Option<Handle>,
    t: KeyTree,
    par: Option<Handle>,
    p: Seq<bool>,
)
    requires
        rep(m, ro, t, par),
        uniq(m, ro, t),
        valid_path(t, p),
        p.len() >= 1,
    ensures
        handle_at(m, ro, t, p.drop_last()) is Some,
        handle_at(m, ro, t, p.drop_last()) matches Option::Some(hq) ==> ({
            &&& m.contains_key(hq)
            &&& (if p.last() {
                m[hq].right
            } else {
                m[hq].left
            }) == handle_at(m, ro, t, p)
            &&& !hset(m, handle_at(m, ro, t, p), subtree_at(t, p)).contains(hq)
        }),
{
    crate::model::lemma_valid_prefix(t, p);
    lemma_at_path(m, ro, t, par, p.drop_last());
    assert(p =~= p.drop_last() + seq![p.last()]);
    lemma_handle_at_append(m, ro, t, p.drop_last(), seq![p.last()]);
    assert(seq![p.last()].drop_first() =~= Seq::<bool>::empty());
    assert(seq![p.last()][0] == p.last());
    let hq_opt = handle_at(m, ro, t, p.drop_last());
    if let Option::Some(hq) = hq_opt {
        let xq = subtree_at(t, p.drop_last());
        assert(rep(m, hq_opt, xq, path_parent(m, ro, t, par, p.drop_last())));
        assert(uniq(m, hq_opt, xq));
        assert(handle_at(
            m,
            if p.last() {
                m[hq].right
            } else {
                m[hq].left
            },
            child_of(xq, p.last()),
            Seq::<bool>::empty(),
        ) == (if p.last() {
            m[hq].right
        } else {
            m[hq].left
        }));
        assert(subtree_at(t, p) == child_of(xq, p.last()));
    }
}

/// A layout carried unchanged into another map, except that its root record
/// may point at a new parent, is a layout under that parent.
pub proof fn lemma_reparent_across(
    m1: Map<Handle, Node>,
    m2: Map<Handle, Node>,
    ro: Option<Handle>,
    t: KeyTree,
    p1: Option<Handle>,
    p2: Option<Handle>,
)
    requires
        rep(m1, ro, t, p1),
        uniq(m1, ro, t),
        ro matches Option::Some(rh) ==> ({
            &&& m2.contains_key(rh)
            &&& m2[rh].key == m1[rh].key
            &&& m2[rh].color == m1[rh].color
            &&& m2[rh].left == m1[rh].left
            &&& m2[rh].right == m1[rh].right
            &&& m2[rh].parent == p2
        }),
        forall|x: Handle| #![trigger hset(m1, ro, t).contains(x)]
            hset(m1, ro, t).contains(x) && Some(x) != ro ==> m2.contains_key(x) && m2[x] == m1[x],
    ensures
        rep(m2, ro, t, p2),
        uniq(m2, ro, t),
        hset(m2, ro, t) == hset(m1, ro, t),
    decreases t,
{
    match t {
        KeyTree::Leaf => {
        }
        KeyTree::Branch { left, right, .. } => {
            if let Option::Some(rh) = ro {
                assert forall|x: Handle| #[trigger]
                    hset(m1, m1[rh].left, *left).contains(x) implies m2.contains_key(x) && m2[x]
                    == m1[x] && m1.contains_key(x) by {
                    lemma_rep_in_dom(m1, m1[rh].left, *left, Some(rh));
                    assert(hset(m1, ro, t).contains(x));
                    assert(x != rh);
                }
                assert forall|x: Handle| #[trigger]
                    hset(m1, m1[rh].right, *right).contains(x) implies m2.contains_key(x) && m2[x]
                    == m1[x] && m1.contains_key(x) by {
                    lemma_rep_in_dom(m1, m1[rh].right, *right, Some(rh));
                    assert(hset(m1, ro, t).contains(x));
                    assert(x != rh);
                }
                lemma_rep_frame(m1, m2, m1[rh].left, *left, Some(rh));
                lemma_rep_frame(m1, m2, m1[rh].right, *right, Some(rh));
                assert(hset(m2, ro, t) =~= hset(m1, ro, t));
            }
        }
    }
}

/// The workhorse of the balancing layer: replacing the layout below a valid
/// nonempty path with another layout over the same handles — rewriting only
/// the path's last parent link and records inside the replaced region —
/// yields a layout of the updated model.
#[verifier::rlimit(60)]
pub proof fn lemma_update_at(
    m1: Map<Handle, Node>,
    m2: Map<Handle, Node>,
    ro: Option<Handle>,
    t: KeyTree,
    par: Option<Handle>,
    p: Seq<bool>,
    s2: KeyTree,
    r2: Option<Handle>,
)
    requires
        rep(m1, ro, t, par),
        uniq(m1, ro, t),
        valid_path(t, p),
        p.len() >= 1,
        m2.dom() == m1.dom(),
        handle_at(m1, ro, t, p.drop_last()) is Some,
        handle_at(m1, ro, t, p.drop_last()) matches Option::Some(hq) ==> ({
            &&& m2.contains_key(hq)
            &&& m2[hq].key == m1[hq].key
            &&& m2[hq].color == m1[hq].color
            &&& m2[hq].parent == m1[hq].parent
            &&& (p.last() ==> m2[hq].right == r2 && m2[hq].left == m1[hq].left)
            &&& (!p.last() ==> m2[hq].left == r2 && m2[hq].right == m1[hq].right)
        }),
        rep(m2, r2, s2, handle_at(m1, ro, t, p.drop_last())),
        uniq(m2, r2, s2),
        hset(m2, r2, s2) == hset(m1, handle_at(m1, ro, t, p), subtree_at(t, p)),
        forall|x: Handle| #![auto]
            m1.contains_key(x) && !hset(m1, handle_at(m1, ro, t, p), subtree_at(t, p)).contains(
                x,
            ) && Some(x) != handle_at(m1, ro, t, p.drop_last()) ==> m2.contains_key(x) && m2[x]
                == m1[x],
    ensures
        rep(m2, ro, update_at(t, p, s2), par),
        uniq(m2, ro, update_at(t, p, s2)),
        hset(m2, ro, update_at(t, p, s2)) == hset(m1, ro, t),
        handle_at(m2, ro, update_at(t, p, s2), p) == r2,
    decreases p.len(),
{
    match t {
        KeyTree::Leaf => {
        }
        KeyTree::Branch { left, right, .. } => {
            if let Option::Some(h0) = ro {
                let clink = if p[0] {
                    m1[h0].right
                } else {
                    m1[h0].left
                };
                let c = child_of(t, p[0]);
                let other_link = if p[0] {
                    m1[h0].left
                } else {
                    m1[h0].right
                };
                let other = child_of(t, !p[0]);
                let t2 = update_at(t, p, s2);
                lemma_rep_in_dom(m1, ro, t, par);
                if p.len() == 1 {
                    assert(p.drop_last() =~= Seq::<bool>::empty());
                    assert(handle_at(m1, ro, t, p.drop_last()) == Some(h0));
                    assert(p[0] == p.last());
                    assert(subtree_at(t, p) == c);
                    assert(handle_at(m1, ro, t, p) == handle_at(m1, clink, c, Seq::empty()));
                    assert(handle_at(m1, ro, t, p) == clink);
                    // the untouched sibling keeps its layout
                    assert forall|x: Handle| #[trigger]
                        hset(m1, other_link, other).contains(x) implies m2.contains_key(x) && m2[x]
                        == m1[x] && m1.contains_key(x) by {
                        lemma_rep_in_dom(m1, other_link, other, Some(h0));
                        assert(hset(m1, ro, t).contains(x));
                        assert(x != h0);
                    }
                    lemma_rep_frame(m1, m2, other_link, other, Some(h0));
                    assert(m2.contains_key(h0));
                    assert(m2[h0].key == m1[h0].key);
                    assert(m2[h0].color == m1[h0].color);
                    assert(m2[h0].parent == par);
                    assert(p.drop_first() =~= Seq::<bool>::empty());
                    if p[0] {
                        assert(m2[h0].right == r2);
                        assert(m2[h0].left == m1[h0].left);
                        assert(rep(m2, m2[h0].left, other, Some(h0)));
                        assert(rep(m2, m2[h0].right, s2, Some(h0)));
                        assert(update_at(child_of(t, true), p.drop_first(), s2) == s2);
                    } else {
                        assert(m2[h0].left == r2);
                        assert(m2[h0].right == m1[h0].right);
                        assert(rep(m2, m2[h0].right, other, Some(h0)));
                        assert(rep(m2, m2[h0].left, s2, Some(h0)));
                        assert(update_at(child_of(t, false), p.drop_first(), s2) == s2);
                    }
                    assert(rep(m2, ro, t2, par));
                    assert(uniq(m2, ro, t2));
                    assert(hset(m2, ro, t2) =~= hset(m1, ro, t));
                    assert(handle_at(m2, ro, t2, p) == handle_at(
                        m2,
                        r2,
                        s2,
                        p.drop_first(),
                    ));
                } else {
                    assert(p.drop_last()[0] == p[0]);
                    assert(p.drop_last().drop_first() =~= p.drop_first().drop_last());
                    assert(p.drop_first().last() == p.last());
                    assert(handle_at(m1, ro, t, p.drop_last()) == handle_at(
                        m1,
                        clink,
                        c,
                        p.drop_first().drop_last(),
                    ));
                    assert(handle_at(m1, ro, t, p) == handle_at(m1, clink, c, p.drop_first()));
                    assert(subtree_at(t, p) == subtree_at(c, p.drop_first()));
                    lemma_update_at(m1, m2, clink, c, Some(h0), p.drop_first(), s2, r2);
                    // the node at the path head is outside the replaced region
                    crate::model::lemma_valid_prefix(t, p);
                    lemma_at_path(m1, clink, c, Some(h0), p.drop_first().drop_last());
                    let hq = match handle_at(m1, ro, t, p.drop_last()) {
                        Option::Some(x) => x,
                        Option::None => h0,
                    };
                    assert(hset(m1, clink, c).contains(hq));
                    assert(h0 != hq);
                    assert forall|x: Handle|
                        hset(m1, handle_at(m1, ro, t, p), subtree_at(t, p)).contains(
                            x,
                        ) implies #[trigger] hset(m1, clink, c).contains(x) by {
                        lemma_at_path(m1, clink, c, Some(h0), p.drop_first());
                    }
                    assert(m2.contains_key(h0) && m2[h0] == m1[h0]);
                    // the untouched sibling keeps its layout
                    assert forall|x: Handle| #[trigger]
                        hset(m1, other_link, other).contains(x) implies m2.contains_key(x) && m2[x]
                        == m1[x] && m1.contains_key(x) by {
                        lemma_rep_in_dom(m1, other_link, other, Some(h0));
                        assert(hset(m1, ro, t).contains(x));
                        assert(x != h0);
                        assert(!hset(m1, clink, c).contains(x));
                        assert(x != hq);
                    }
                    lemma_rep_frame(m1, m2, other_link, other, Some(h0));
                    assert(rep(m2, ro, t2, par));
                    assert(uniq(m2, ro, t2));
                    assert(hset(m2, ro, t2) =~= hset(m1, ro, t));
                    assert(handle_at(m2, ro, t2, p) == handle_at(
                        m2,
                        if p[0] {
                            m2[h0].right
                        } else {
                            m2[h0].left
                        },
                        child_of(t2, p[0]),
                        p.drop_first(),
                    ));
                }
            }
        }
    }
}

/// The node the comparison walk stops at is itself the root of a laid-out
/// subtree, namely `found_sub` of the model.
pub proof fn lemma_found_sub(
    m: Map<Handle, Node>,
    ro: Option<Handle>,
    t: KeyTree,
    par: Option<Handle>,
    k: u64,
)
    requires
        rep(m, ro, t, par),
    ensures
        find_h(m, ro, t, k) matches Option::Some(h) ==> found_sub(t, k) is Branch && exists|
            pp: Option<Handle>,
        | rep(m, Some(h), found_sub(t, k), pp),
    decreases t,
{
    match t {
        KeyTree::Leaf => {
        }
        KeyTree::Branch { key, left, right, .. } => {
            if let Option::Some(h0) = ro {
                if k == key {
                    assert(rep(m, Some(h0), found_sub(t, k), par));
                } else if k < key {
                    lemma_found_sub(m, m[h0].left, *left, Some(h0), k);
                } else {
                    lemma_found_sub(m, m[h0].right, *right, Some(h0), k);
                }
            }
        }
    }
}

} // verus!
