//! Edit trees: the rule that rewrites one string into another, found by
//! splitting both around their longest common substring, and applied to new
//! strings that share the same shape.
//!
//! - `tree`: the tree, its model, and how it is applied.
//! - `builder`: building a tree from a pair of strings.
//! - `codec`: the canonical byte form of a tree.
//! - `text`: the readable text form of a tree.
//! - `py_tree`: the handle that host bindings use, over strings.

pub mod tree;
pub mod builder;
pub mod codec;
pub mod text;
pub mod py_tree;
