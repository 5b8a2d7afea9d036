//! The slot arena that owns every node record, behind a small trusted layer.
//!
//! The arena itself is `generational_arena::Arena`; verified code sees it only
//! through the uninterpreted contents map `arena_view` and the wrappers below,
//! whose contracts state what the crate's documented operations do to that
//! map. Handles are the raw `(slot, generation)` parts of the crate's `Index`.

use vstd::prelude::*;

use crate::node::Handle;
use crate::node::Node;
use generational_arena::Arena;
use generational_arena::Index;

verus! {

#[verifier::external_type_specification]
#[verifier::external_body]
#[verifier::reject_recursive_types(T)]
pub struct ExArena<T>(Arena<T>);

/// The live contents of the arena, as a map from handle to stored record.
pub uninterp spec fn arena_view(a: Arena<Node>) -> Map<Handle, Node>;

/// The contents of an arena that holds nothing.
pub open spec fn empty_store() -> Map<Handle, Node> {
    Map::empty()
}

/// Relies on `generational_arena::Arena::new`: it constructs an arena that
/// contains no elements.
#[verifier::external_body]
pub(crate) fn arena_new() -> (a: Arena<Node>)
    ensures
        arena_view(a) == empty_store(),
{
    Arena::new()
}

/// Relies on `generational_arena::Arena::insert` and
/// `Index::into_raw_parts`: insert stores the value under a previously free
/// slot and returns its index, whose generation tag keeps it distinct from
/// every index of a currently live element.
#[verifier::external_body]
pub(crate) fn arena_insert(a: &mut Arena<Node>, n: Node) -> (h: Handle)
    requires
        arena_view(*old(a)).dom().len() < usize::MAX,
    ensures
        !arena_view(*old(a)).contains_key(h),
        arena_view(*final(a)) == arena_view(*old(a)).insert(h, n),
{
    let (slot, generation) = a.insert(n).into_raw_parts();
    Handle { slot, generation }
}

/// Relies on `generational_arena::Arena::get` and `Index::from_raw_parts`:
/// get returns a reference to the element stored under a live index.
#[verifier::external_body]
pub(crate) fn arena_get(a: &Arena<Node>, h: Handle) -> (n: Node)
    requires
        arena_view(*a).contains_key(h),
    ensures
        n == arena_view(*a)[h],
{
    *a.get(Index::from_raw_parts(h.slot, h.generation)).unwrap()
}

/// Relies on `generational_arena::Arena::get_mut` and
/// `Index::from_raw_parts`: get_mut returns an exclusive reference to the
/// element stored under a live index, leaving every other element in place.
#[verifier::external_body]
pub(crate) fn arena_set(a: &mut Arena<Node>, h: Handle, n: Node)
    requires
        arena_view(*old(a)).contains_key(h),
    ensures
        arena_view(*final(a)) == arena_view(*old(a)).insert(h, n),
{
    *a.get_mut(Index::from_raw_parts(h.slot, h.generation)).unwrap() = n;
}

/// Relies on `generational_arena::Arena::remove` and
/// `Index::from_raw_parts`: remove releases the slot of a live index and
/// returns the element that was stored there.
#[verifier::external_body]
pub(crate) fn arena_remove(a: &mut Arena<Node>, h: Handle) -> (n: Node)
    requires
        arena_view(*old(a)).contains_key(h),
    ensures
        n == arena_view(*old(a))[h],
        arena_view(*final(a)) == arena_view(*old(a)).remove(h),
{
    a.remove(Index::from_raw_parts(h.slot, h.generation)).unwrap()
}

/// Relies on `generational_arena::Arena::len`: it returns the number of
/// elements the arena currently holds.
#[verifier::external_body]
pub(crate) fn arena_len(a: &Arena<Node>) -> (n: usize)
    ensures
        n == arena_view(*a).dom().len(),
{
    a.len()
}

} // verus!
