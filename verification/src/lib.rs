//! Event stacking for the calendar of one day.
//!
//! Blocks of the day enter an overlap tree, in which a block comes to hang
//! below the block that swallows it. The tree is flattened level by level
//! into a list of blocks with their levels, and from a level and the depth
//! below a block follow the offset and the width at which the block is
//! drawn, so that overlapping blocks stand side by side.
//!
//! - [`algo::calendar_block`]: blocks, how two of them relate, and the order
//!   in which they are handed to the tree.
//! - [`algo::calendar_tree`] and [`algo::calendar_trie`]: the tree itself.
//! - [`algo::tree_view`]: the tree as a mathematical value, over which the
//!   contracts of the tree are stated.
//! - [`algo::laws`]: what holds of every tree.
//! - [`algo::graph`]: the graph below the tree, and what is taken on trust
//!   about it.
//! - [`get_position_offsets`]: from levels to offsets and widths.

pub mod algo;
pub mod get_position_offsets;
