//! An in-process ordered container: an arena-indexed binary search tree with a
//! red-black balancing layer on top of the same engine.
//!
//! Node records live in a `generational_arena::Arena` and refer to each other
//! through generation-checked handles; every structural operation is verified
//! against a recursive mathematical tree model.

pub mod arena_store;
pub mod base_tree;
pub mod binary_search_tree;
pub mod laws;
pub mod model;
pub mod node;
pub mod red_black_tree;
pub mod rep;
pub mod tree_errs;
