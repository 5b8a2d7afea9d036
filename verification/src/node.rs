//! The node record stored in the arena, the handle type that addresses it, and
//! the node color used by the red-black overlay.

use vstd::prelude::*;

verus! {

/// A stable, generation-checked reference to one node slot in the arena.
///
/// The two fields are exactly the raw parts of a `generational_arena::Index`:
/// the slot number and the generation under which the slot was filled. A
/// handle is valid between the insert that produced it and the remove that
/// releases its slot; the generation tag keeps a reused slot from aliasing a
/// stale handle.
#[derive(Clone, Copy, Debug, PartialEq, Eq, Structural)]
pub struct Handle {
    pub slot: usize,
    pub generation: u64,
}

/// The color of a live node. Absent handles (empty child links) are implicitly
/// `Black`.
#[derive(Clone, Copy, Debug, PartialEq, Eq, Structural)]
pub enum Color {
    Red,
    Black,
}

/// One node record: the key payload, the color overlay entry, the owning links
/// to the children, and the non-owning back-reference to the parent.
///
/// `parent` must always mirror the unique node whose `left` or `right` link
/// holds this node's handle, or be `None` for the root.
#[derive(Clone, Copy, Debug)]
pub struct Node {
    pub key: u64,
    pub color: Color,
    pub left: Option<Handle>,
    pub right: Option<Handle>,
    pub parent: Option<Handle>,
}

} // verus!
