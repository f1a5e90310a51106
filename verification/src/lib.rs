//! An AVL-balanced binary search tree over `i64` values.
//!
//! The tree supports insertion, membership test, deletion and in-order
//! traversal. Every public operation carries a contract: the tree is
//! well-formed (binary-search ordering, AVL balance, exact cached heights)
//! before and after each mutation, and each operation's effect is stated
//! against the tree's abstract view as a set of values. Both mutations
//! are also pinned down to the node: spec-level models of the insertion
//! and deletion algorithms compute the exact resulting trees, and
//! `insert` and `delete` are proved to produce them. Inserting a value
//! already present, or deleting one that is absent, provably leaves the
//! tree untouched.

pub mod bounds;
pub mod laws;
pub mod order;
pub mod tree;
