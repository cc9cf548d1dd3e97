//! The overlap tree under the name by which the calendar view builds it.

use super::calendar_block::CalendarBlock;
use super::calendar_tree::entry_node;
use super::calendar_tree::CalendarBlockTree;
use super::calendar_tree::InsertError;
use super::graph::is_random_id;
use super::tree_view::TreeView;
use vstd::prelude::*;

pub use super::calendar_tree::FlattenedCalendarBlock;

verus! {

/// An overlap tree that the calendar view rebuilds from its blocks whenever
/// they change.
pub struct CalendarTrie {
    tree: CalendarBlockTree,
}

impl View for CalendarTrie {
    type V = TreeView;

    closed spec fn view(&self) -> TreeView {
        self.tree@
    }
}

impl CalendarTrie {
    /// What holds of every trie between two calls.
    pub closed spec fn inv(&self) -> bool {
        self.tree.inv()
    }

    /// The text of the trie's graph in the DOT language.
    pub closed spec fn dot_text(&self) -> Seq<char> {
        self.tree.dot_text()
    }

    /// A trie between two calls is well formed and fits the graph's indices.
    pub proof fn lemma_inv(&self)
        requires
            self.inv(),
        ensures
            self@.well_formed(),
            self@.len() <= u32::MAX,
    {
        self.tree.lemma_inv();
    }

    /// A trie that holds only the root, under the identifier `id`.
    pub fn with_root_id(id: u128) -> (trie: Self)
        ensures
            trie.inv(),
            trie@.is_fresh(),
            trie@.ids[0] == id,
    {
        CalendarTrie { tree: CalendarBlockTree::with_root_id(id) }
    }

    /// A trie that holds only the root.
    pub fn new() -> (trie: Self)
        ensures
            trie.inv(),
            trie@.is_fresh(),
            is_random_id(trie@.ids[0]),
    {
        CalendarTrie { tree: CalendarBlockTree::new() }
    }

    /// Takes `block` into the trie, entering at `destination` or at the
    /// root. A block that does not end after its start is refused and the
    /// trie stays as it was.
    pub fn add(&mut self, block: CalendarBlock, destination: Option<usize>) -> (result: Result<
        (),
        InsertError,
    >)
        requires
            old(self).inv(),
            old(self)@.len() < u32::MAX,
            match destination {
                Some(node) => node < old(self)@.len(),
                None => true,
            },
        ensures
            final(self).inv(),
            block.end_minute <= block.start_minute ==> result == Err::<(), InsertError>(
                InsertError::InvalidInterval,
            ) && final(self)@ == old(self)@,
            block.end_minute > block.start_minute ==> result == Ok::<(), InsertError>(())
                && final(self)@ == old(self)@.inserted(block, entry_node(destination)),
    {
        self.tree.add(block, destination)
    }

    /// Takes the blocks into the trie at the root, one after the other.
    /// Blocks that do not end after their start are passed over.
    pub fn add_all(&mut self, blocks: &Vec<CalendarBlock>)
        requires
            old(self).inv(),
            old(self)@.len() + blocks.len() < u32::MAX,
        ensures
            final(self).inv(),
            final(self)@ == old(self)@.grown(blocks@),
    {
        self.tree.add_all(blocks)
    }

    /// The trie's graph in the DOT language.
    pub fn display(&self) -> (text: String)
        ensures
            text@ == self.dot_text(),
    {
        self.tree.display()
    }

    /// The flattened trie: the root first, then level after level.
    pub fn traverse(&self) -> (entries: Vec<FlattenedCalendarBlock>)
        requires
            self.inv(),
        ensures
            entries@ == self@.flattened(),
    {
        self.tree.traverse()
    }
}

} // verus!
