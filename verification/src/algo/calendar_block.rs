//! Blocks of the day, how two of them relate, and the order in which the
//! calendar hands them to the tree.

use vstd::prelude::*;

verus! {

/// What kind of entry a block is. `Wrapper` is reserved for the synthetic
/// root that spans the whole day.
#[derive(Debug, Clone, Copy, PartialEq, Eq, Structural)]
pub enum CalendarBlockType {
    Busy,
    Available,
    Wrapper,
}

impl CalendarBlockType {
    /// The name of the kind.
    pub open spec fn name(self) -> Seq<char> {
        match self {
            CalendarBlockType::Wrapper => "Wrapper"@,
            CalendarBlockType::Busy => "Busy"@,
            CalendarBlockType::Available => "Available"@,
        }
    }

    /// The name of the kind, as text.
    pub fn to_string(&self) -> (text: String)
        ensures
            text@ == self.name(),
    {
        let block_type = match self {
            CalendarBlockType::Wrapper => "Wrapper",
            CalendarBlockType::Busy => "Busy",
            CalendarBlockType::Available => "Available",
        };
        block_type.to_owned()
    }
}

/// How one block relates to another that it overlaps.
#[derive(Debug, Clone, Copy, PartialEq, Eq, Structural)]
pub enum CalendarBlockOverlap {
    Swallows,
    GetsSwallowed,
}

/// A half-open interval `[start_minute, end_minute)` of the day.
#[derive(Debug, PartialEq)]
pub struct CalendarBlock {
    pub id: u128,
    pub start_minute: u32,
    pub end_minute: u32,
    pub block_type: CalendarBlockType,
    pub subtree_depth: usize,
    pub label: String,
}

/// Whether `a` and `b` count as overlapping when `a` is held against `b`.
/// A block that ends exactly where the other starts still overlaps it; a
/// block that starts exactly where the other ends does not.
pub open spec fn overlaps(a: CalendarBlock, b: CalendarBlock) -> bool {
    !(a.start_minute >= b.end_minute || a.end_minute < b.start_minute)
}

/// Whether `a` is the inner block of the pair: it starts later, or it starts
/// together with `b` and does not end later.
pub open spec fn is_inner(a: CalendarBlock, b: CalendarBlock) -> bool {
    a.start_minute > b.start_minute || (a.start_minute == b.start_minute && a.end_minute
        <= b.end_minute)
}

/// How `a` relates to `b`.
pub open spec fn classify(a: CalendarBlock, b: CalendarBlock) -> Option<CalendarBlockOverlap> {
    if !overlaps(a, b) {
        None
    } else if is_inner(a, b) {
        Some(CalendarBlockOverlap::GetsSwallowed)
    } else {
        Some(CalendarBlockOverlap::Swallows)
    }
}

impl CalendarBlock {
    /// This block with another subtree depth.
    pub open spec fn with_depth(self, depth: usize) -> CalendarBlock {
        CalendarBlock {
            id: self.id,
            start_minute: self.start_minute,
            end_minute: self.end_minute,
            block_type: self.block_type,
            subtree_depth: depth,
            label: self.label,
        }
    }

    /// Whether this block is handed to the tree before `other` when blocks
    /// are put in order: the earlier start first, and of two that start
    /// together the one that ends later.
    pub open spec fn precedes(self, other: CalendarBlock) -> bool {
        self.start_minute < other.start_minute || (self.start_minute == other.start_minute
            && self.end_minute >= other.end_minute)
    }

    /// Whether this block is handed to the tree before `other`.
    pub fn sorts_before(&self, other: &CalendarBlock) -> (before: bool)
        ensures
            before == self.precedes(*other),
    {
        self.start_minute < other.start_minute || (self.start_minute == other.start_minute
            && self.end_minute >= other.end_minute)
    }

    /// How this block relates to `block`.
    pub fn does_overlap(&self, block: CalendarBlock) -> (r: Option<CalendarBlockOverlap>)
        ensures
            r == classify(*self, block),
    {
        if self.start_minute >= block.end_minute || self.end_minute < block.start_minute {
            return None;
        }
        if self.start_minute > block.start_minute || (self.start_minute == block.start_minute
            && self.end_minute <= block.end_minute) {
            return Some(CalendarBlockOverlap::GetsSwallowed);
        }
        Some(CalendarBlockOverlap::Swallows)
    }
}

/// Whether each block of the list precedes all that come after it.
pub open spec fn in_order(blocks: Seq<CalendarBlock>) -> bool {
    forall|j: int, k: int| 0 <= j < k < blocks.len() ==> blocks[j].precedes(blocks[k])
}

/// The place of `block` in `list`: before the first block that does not
/// precede it, or at the end.
pub open spec fn slot(list: Seq<CalendarBlock>, block: CalendarBlock) -> int
    decreases list.len(),
{
    if list.len() == 0 || !list[0].precedes(block) {
        0
    } else {
        1 + slot(list.drop_first(), block)
    }
}

/// The blocks in order: each takes its place among those that came before
/// it, so that blocks with the same span keep the order in which they came.
pub open spec fn arranged(blocks: Seq<CalendarBlock>) -> Seq<CalendarBlock>
    decreases blocks.len(),
{
    if blocks.len() == 0 {
        blocks
    } else {
        let front = arranged(blocks.drop_last());
        front.insert(slot(front, blocks.last()), blocks.last())
    }
}

/// The place of a block is where the blocks that precede it end.
pub proof fn lemma_slot(list: Seq<CalendarBlock>, block: CalendarBlock, at: int)
    requires
        0 <= at <= list.len(),
        forall|j: int| 0 <= j < at ==> (#[trigger] list[j]).precedes(block),
        at < list.len() ==> !list[at].precedes(block),
    ensures
        slot(list, block) == at,
    decreases list.len(),
{
    if at > 0 {
        let rest = list.drop_first();
        lemma_slot(rest, block, at - 1);
    }
}

/// The place of a block lies within the list, after blocks that precede it
/// and before a block that does not.
pub proof fn lemma_slot_found(list: Seq<CalendarBlock>, block: CalendarBlock)
    ensures
        0 <= slot(list, block) <= list.len(),
        forall|j: int| 0 <= j < slot(list, block) ==> (#[trigger] list[j]).precedes(block),
        slot(list, block) < list.len() ==> !list[slot(list, block)].precedes(block),
    decreases list.len(),
{
    if list.len() > 0 && list[0].precedes(block) {
        let rest = list.drop_first();
        lemma_slot_found(rest, block);
        assert forall|j: int| 0 <= j < slot(list, block) implies (#[trigger] list[j]).precedes(
            block,
        ) by {
            if j > 0 {
                assert(rest[j - 1] == list[j]);
            }
        }
    }
}

/// The arranged blocks are in order, and they are the blocks that were
/// given, each as often as it was given.
pub proof fn lemma_arranged(blocks: Seq<CalendarBlock>)
    ensures
        in_order(arranged(blocks)),
        arranged(blocks).len() == blocks.len(),
        arranged(blocks).to_multiset() == blocks.to_multiset(),
    decreases blocks.len(),
{
    broadcast use vstd::seq_lib::to_multiset_insert, vstd::seq_lib::to_multiset_build;

    if blocks.len() > 0 {
        let rest = blocks.drop_last();
        let block = blocks.last();
        let front = arranged(rest);
        lemma_arranged(rest);
        lemma_slot_found(front, block);
        let at = slot(front, block);
        let out = front.insert(at, block);
        assert(rest.push(block) =~= blocks);
        assert forall|j: int, k: int| 0 <= j < k < out.len() implies out[j].precedes(out[k]) by {
            if j == at && at < k - 1 {
                assert(front[at].precedes(front[k - 1]));
            }
        }
    }
}

/// The blocks in the order in which the tree takes them: earlier starts
/// first, of equal starts the later end first, and blocks with the same span
/// in the order in which they were given.
pub fn sort_blocks(blocks: &Vec<CalendarBlock>) -> (sorted: Vec<CalendarBlock>)
    ensures
        sorted@ == arranged(blocks@),
        in_order(sorted@),
        sorted@.to_multiset() == blocks@.to_multiset(),
{
    let mut sorted: Vec<CalendarBlock> = Vec::new();
    let mut i: usize = 0;
    while i < blocks.len()
        invariant
            i <= blocks.len(),
            sorted@ == arranged(blocks@.take(i as int)),
            sorted@.len() == i,
        decreases blocks.len() - i,
    {
        let block = blocks[i].clone();
        let mut at: usize = 0;
        while at < sorted.len() && sorted[at].sorts_before(&block)
            invariant
                at <= sorted.len(),
                forall|j: int| 0 <= j < at ==> (#[trigger] sorted@[j]).precedes(block),
            decreases sorted.len() - at,
        {
            at += 1;
        }
        proof {
            lemma_slot(sorted@, block, at as int);
            assert(blocks@.take(i + 1).drop_last() =~= blocks@.take(i as int));
        }
        sorted.insert(at, block);
        i += 1;
    }
    proof {
        assert(blocks@.take(blocks@.len() as int) =~= blocks@);
        lemma_arranged(blocks@);
    }
    sorted
}

/// `block` after the block with identifier `id`, which spanned
/// `[start, end)`, was moved to start at `offset`: the block with that
/// identifier spans `[offset, offset + end - start)`, any other block is as
/// it was.
pub open spec fn moved_to(
    block: CalendarBlock,
    id: u128,
    start: u32,
    end: u32,
    offset: u32,
) -> CalendarBlock {
    if block.id == id {
        CalendarBlock {
            id: block.id,
            start_minute: offset,
            end_minute: (end - start + offset) as u32,
            block_type: block.block_type,
            subtree_depth: block.subtree_depth,
            label: block.label,
        }
    } else {
        block
    }
}

/// The blocks after the block with identifier `id`, which spanned
/// `[start, end)`, was moved to start at `offset`.
pub fn move_block(blocks: &Vec<CalendarBlock>, id: u128, start: u32, end: u32, offset: u32) -> (moved:
    Vec<CalendarBlock>)
    requires
        start <= end,
        end - start + offset <= u32::MAX,
    ensures
        moved@.len() == blocks@.len(),
        forall|i: int|
            0 <= i < blocks@.len() ==> #[trigger] moved@[i] == moved_to(
                blocks@[i],
                id,
                start,
                end,
                offset,
            ),
{
    let mut moved: Vec<CalendarBlock> = Vec::new();
    let mut i: usize = 0;
    while i < blocks.len()
        invariant
            i <= blocks.len(),
            start <= end,
            end - start + offset <= u32::MAX,
            moved@.len() == i,
            forall|j: int|
                0 <= j < i ==> #[trigger] moved@[j] == moved_to(blocks@[j], id, start, end, offset),
        decreases blocks.len() - i,
    {
        let mut block = blocks[i].clone();
        if block.id == id {
            block.start_minute = offset;
            block.end_minute = end - start + offset;
        }
        moved.push(block);
        i += 1;
    }
    moved
}

impl Clone for CalendarBlock {
    fn clone(&self) -> (r: Self)
        ensures
            r == *self,
    {
        CalendarBlock {
            id: self.id,
            start_minute: self.start_minute,
            end_minute: self.end_minute,
            block_type: self.block_type,
            subtree_depth: self.subtree_depth,
            label: self.label.clone(),
        }
    }
}

} // verus!
