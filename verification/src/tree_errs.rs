//! The single recoverable error condition of the container.

use vstd::prelude::*;

verus! {

/// Returned by `remove` when no node with the requested key exists.
#[derive(Clone, Copy, Debug, PartialEq, Eq, Structural)]
pub struct NodeNotFoundErr;

impl NodeNotFoundErr {
    /// A human-readable description of the condition.
    pub fn message(&self) -> (s: &'static str)
        ensures
            s@.len() > 0,
    {
        proof {
            reveal_strlit("No node with the specified value exists");
        }
        "No node with the specified value exists"
    }
}

} // verus!
