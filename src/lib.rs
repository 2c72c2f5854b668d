//! A virtual-tree diffing engine: immutable node trees, stable pre-order
//! node addressing, attribute-set diffing and keyed child reconciliation.
//!
//! `diff::diff` compares an old tree, as it was mounted, with a new one and
//! returns the patches that turn the live copy of the old tree into the new
//! one. Each patch names nodes only by their pre-order index in the old tree
//! (see `index`), so a live tree that tagged its nodes when it was mounted
//! can apply the patches in order without walking the new tree.
pub mod node;
pub mod builders;
pub mod index;
pub mod attr_diff;
pub mod reconcile;
pub mod lis;
pub mod diff;
pub mod sameness;
