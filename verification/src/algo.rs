//! The overlap tree and the blocks stored in it.

pub mod ancestry;
pub mod calendar_block;
pub mod calendar_tree;
pub mod calendar_trie;
pub mod depths;
pub mod graph;
pub mod insertion;
pub mod laws;
pub mod tree_view;
pub mod walk;
