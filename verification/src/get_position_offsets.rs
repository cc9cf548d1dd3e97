//! From a block's place in the tree to its place in the column: a
//! horizontal offset and a width, as exact fractions.

use vstd::prelude::*;

verus! {

/// The width of a column.
pub const MAX_COL_WIDTH: i128 = 500;

/// The distance by which each further level is set in.
pub const BLOCK_STACK_PADDING: i128 = 10;

/// The share of its lane that a block with descendants gets, in tenths.
pub const DEEP_SHARE_TENTHS: i128 = 18;

/// The share of its lane that a leaf gets, in tenths.
pub const LEAF_SHARE_TENTHS: i128 = 10;

/// The number `base + (tenths / 10) / denominator + shift`, kept as its
/// terms, so that it is exact and a caller can evaluate it in this order.
/// The denominator is never negative. A zero denominator stands for a
/// quotient without bound, with the sign of `tenths`.
#[derive(Debug, Clone, Copy, PartialEq, Eq, Structural)]
pub struct Length {
    pub base: i128,
    pub tenths: i128,
    pub denominator: i128,
    pub shift: i128,
}

impl Length {
    /// The whole number `n`.
    pub open spec fn of(n: int) -> Length {
        Length { base: n as i128, tenths: 0, denominator: 1, shift: 0 }
    }

    /// The number `base + (tenths / 10) / denominator + shift`.
    pub open spec fn sum(base: int, tenths: int, denominator: int, shift: int) -> Length {
        Length {
            base: base as i128,
            tenths: tenths as i128,
            denominator: denominator as i128,
            shift: shift as i128,
        }
    }
}

/// Offset and width of a block at `stack_position`, each level narrower
/// than the one before and set in by the padding: the width is the column
/// divided by the level above, less twice the separation; the offset is the
/// column less that quotient, plus the separation. The root level takes the
/// whole column. At level 1 the quotient has a zero denominator.
pub open spec fn linear_layout(stack_position: int) -> (Length, Length) {
    if stack_position < 1 {
        (Length::of(0), Length::of(MAX_COL_WIDTH as int))
    } else {
        let separation = stack_position * BLOCK_STACK_PADDING;
        (
            Length::sum(MAX_COL_WIDTH as int, -10 * MAX_COL_WIDTH, stack_position - 1, separation),
            Length::sum(0, 10 * MAX_COL_WIDTH, stack_position - 1, -2 * separation),
        )
    }
}

/// Offset and width of a block at `stack_position` with `subtree_depth`
/// levels below it, as shares of the column. The column is divided into as
/// many lanes as there are levels from the root through the deepest
/// descendant; a block with descendants gets 1.8 lanes, a leaf one lane.
/// The root level takes the whole column.
pub open spec fn proportional_layout(stack_position: int, subtree_depth: int) -> (Length, Length) {
    if stack_position < 1 {
        (Length::of(0), Length::of(MAX_COL_WIDTH as int))
    } else {
        let divisor = stack_position + subtree_depth;
        (
            Length::sum(0, 10 * (stack_position - 1), divisor, 0),
            if subtree_depth > 0 {
                Length::sum(0, DEEP_SHARE_TENTHS as int, divisor, 0)
            } else {
                Length::sum(0, LEAF_SHARE_TENTHS as int, divisor, 0)
            },
        )
    }
}

/// The two ways of placing a block in the column.
#[derive(Debug, Clone, Copy, PartialEq, Eq, Structural)]
pub enum StackingAlgorithm {
    /// By level alone, in column units.
    Linear,
    /// By level and by the depth below the block, in shares of the column.
    DepthAware,
}

impl StackingAlgorithm {
    /// The other way of placing blocks.
    pub fn switched(self) -> (other: StackingAlgorithm)
        ensures
            other != self,
    {
        match self {
            StackingAlgorithm::Linear => StackingAlgorithm::DepthAware,
            StackingAlgorithm::DepthAware => StackingAlgorithm::Linear,
        }
    }
}

/// Offset and width of a block under the way of placing that the caller
/// chose.
pub open spec fn layout(algorithm: StackingAlgorithm, stack_position: int, subtree_depth: int) -> (
    Length,
    Length,
) {
    match algorithm {
        StackingAlgorithm::Linear => linear_layout(stack_position),
        StackingAlgorithm::DepthAware => proportional_layout(stack_position, subtree_depth),
    }
}

/// Offset and width of a block at `stack_position` with `subtree_depth`
/// levels below it, under the way of placing that the caller chose.
pub fn get_layout(algorithm: StackingAlgorithm, stack_position: usize, subtree_depth: usize) -> (found:
    (Length, Length))
    ensures
        found == layout(algorithm, stack_position as int, subtree_depth as int),
{
    match algorithm {
        StackingAlgorithm::Linear => get_position_offsets(stack_position),
        StackingAlgorithm::DepthAware => get_subtree_depth_transforms(stack_position, subtree_depth),
    }
}

/// Offset and width, in column units, of a block at `stack_position`.
pub fn get_position_offsets(stack_position: usize) -> (layout: (Length, Length))
    ensures
        layout == linear_layout(stack_position as int),
        stack_position == 0 ==> layout == (Length::of(0), Length::of(MAX_COL_WIDTH as int)),
{
    if stack_position < 1 {
        (
            Length { base: 0, tenths: 0, denominator: 1, shift: 0 },
            Length { base: MAX_COL_WIDTH, tenths: 0, denominator: 1, shift: 0 },
        )
    } else {
        let level = stack_position as i128;
        let stack_separation = level * BLOCK_STACK_PADDING;
        assert(0 < stack_separation <= 10 * 0xffff_ffff_ffff_ffff);
        (
            Length {
                base: MAX_COL_WIDTH,
                tenths: -(10 * MAX_COL_WIDTH),
                denominator: level - 1,
                shift: stack_separation,
            },
            Length {
                base: 0,
                tenths: 10 * MAX_COL_WIDTH,
                denominator: level - 1,
                shift: -(2 * stack_separation),
            },
        )
    }
}

/// Offset and width, as shares of the column, of a block at
/// `stack_position` with `subtree_depth` levels below it.
pub fn get_subtree_depth_transforms(stack_position: usize, subtree_depth: usize) -> (layout: (
    Length,
    Length,
))
    ensures
        layout == proportional_layout(stack_position as int, subtree_depth as int),
{
    if stack_position < 1 {
        (
            Length { base: 0, tenths: 0, denominator: 1, shift: 0 },
            Length { base: MAX_COL_WIDTH, tenths: 0, denominator: 1, shift: 0 },
        )
    } else {
        let width_divisor = stack_position as i128 + subtree_depth as i128;
        let width = if subtree_depth > 0 {
            Length { base: 0, tenths: DEEP_SHARE_TENTHS, denominator: width_divisor, shift: 0 }
        } else {
            Length { base: 0, tenths: LEAF_SHARE_TENTHS, denominator: width_divisor, shift: 0 }
        };
        (
            Length {
                base: 0,
                tenths: 10 * (stack_position as i128 - 1),
                denominator: width_divisor,
                shift: 0,
            },
            width,
        )
    }
}

} // verus!
