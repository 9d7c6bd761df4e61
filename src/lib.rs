//! A lazily expanded, filterable tree over the flat, dotted names of a
//! system control tree.

pub mod dotted;
pub mod tree_entry;
pub mod ctl_tree;
pub mod facts;
