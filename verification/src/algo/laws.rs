//! What holds of every tree, stated over the tree as a value.

use super::calendar_block::classify;
use super::calendar_block::in_order;
use super::calendar_block::CalendarBlock;
use super::calendar_block::CalendarBlockOverlap;
use super::calendar_block::CalendarBlockType;
use super::calendar_tree::FlattenedCalendarBlock;
use super::tree_view::deeper;
use super::tree_view::tagged;
use super::tree_view::TreeView;
use vstd::prelude::*;

verus! {

/// Blocks that touch: where `a` ends at the minute at which `b` starts, `a`
/// overlaps `b` and swallows it, and `b` does not overlap `a`.
pub proof fn law_touching_blocks(a: CalendarBlock, b: CalendarBlock)
    requires
        a.start_minute < a.end_minute,
        b.start_minute < b.end_minute,
        a.end_minute == b.start_minute,
    ensures
        classify(a, b) == Some(CalendarBlockOverlap::Swallows),
        classify(b, a) is None,
{
}

/// Of two blocks only one swallows the other, and blocks with the same
/// span get swallowed by each other.
pub proof fn law_swallowing_is_one_way(a: CalendarBlock, b: CalendarBlock)
    ensures
        classify(a, b) == Some(CalendarBlockOverlap::Swallows) ==> classify(b, a) != Some(
            CalendarBlockOverlap::Swallows,
        ),
        a.start_minute == b.start_minute && a.end_minute == b.end_minute && a.start_minute
            < a.end_minute ==> classify(a, b) == Some(CalendarBlockOverlap::GetsSwallowed)
            && classify(b, a) == Some(CalendarBlockOverlap::GetsSwallowed),
{
}

/// Whether one of two blocks overlaps the other.
pub open spec fn related(a: CalendarBlock, b: CalendarBlock) -> bool {
    classify(a, b) is Some || classify(b, a) is Some
}

impl TreeView {
    /// No node carries the identifier `id`.
    pub open spec fn lacks_id(self, id: u128) -> bool {
        forall|i: int| 0 <= i < self.len() ==> #[trigger] self.ids[i] != id
    }

    /// The landing node of `block` has no child that `block` swallows.
    pub open spec fn displaces_nothing(self, block: CalendarBlock, destination: int) -> bool {
        self.displaced_among(block, self.children[self.landing(block, destination)]).len() == 0
    }

    /// Whether `block`, entering at the root, overlaps every block that
    /// hangs below a block it takes below itself.
    pub open spec fn overlaps_what_it_takes(self, block: CalendarBlock) -> bool {
        forall|x: int, d: usize|
            0 <= x < self.len() && self.displaced_among(
                block,
                self.children[self.landing(block, 0)],
            ).contains(d) && x != d && #[trigger] self.under(x, d as int) ==> related(
                block,
                self.block(x),
            )
    }

    /// Every block overlaps the block of its parent or is overlapped by it,
    /// unless the parent is the root.
    pub open spec fn links_overlap(self) -> bool {
        forall|i: int|
            0 < i < self.len() && #[trigger] self.parent[i] != Some(0usize) ==> related(
                self.block(i),
                self.block(self.parent[i].unwrap() as int),
            )
    }

    /// The flattened tree has an entry whose block carries the identifier
    /// `id`.
    pub open spec fn lists(self, id: u128) -> bool {
        exists|a: int|
            0 <= a < self.flattened().len() && (#[trigger] self.flattened()[a]).block.id == id
    }

    /// Every block is swallowed by the block of each node above it, the
    /// root aside.
    pub open spec fn kin_swallowed(self) -> bool {
        forall|i: int, a: int|
            0 < i < self.len() && 0 < a < self.len() && i != a && #[trigger] self.under(i, a)
                ==> classify(self.block(i), self.block(a)) == Some(
                CalendarBlockOverlap::GetsSwallowed,
            )
    }

    /// Every block overlaps the block of each node above it or is
    /// overlapped by it, the root aside.
    pub open spec fn kin_overlap(self) -> bool {
        forall|i: int, a: int|
            0 < i < self.len() && 0 < a < self.len() && i != a && #[trigger] self.under(i, a)
                ==> related(self.block(i), self.block(a))
    }

    /// A tree that holds its root alone is well formed.
    pub proof fn law_fresh_is_well_formed(self)
        requires
            self.is_fresh(),
        ensures
            self.well_formed(),
    {
    }

    /// The level of a node counts the edges between it and the root: so
    /// many steps up from the node lead to the root, and fewer do not.
    pub proof fn law_level_counts_edges(self, i: int, steps: nat)
        requires
            self.well_formed(),
            0 <= i < self.len(),
            steps <= self.level[i],
        ensures
            self.ancestor_at(i, steps) == 0 <==> steps == self.level[i],
        decreases steps,
    {
        if i > 0 {
            assert(self.hangs(i));
            if steps > 0 {
                self.law_level_counts_edges(
                    self.parent[i].unwrap() as int,
                    (steps - 1) as nat,
                );
            }
        }
    }

    /// The flattened tree goes level by level: the root comes first, and no
    /// entry stands before an entry of a lesser level.
    pub proof fn law_flatten_goes_level_by_level(self)
        requires
            self.well_formed(),
        ensures
            self.flattened()[0] == self.entry((0, 0)),
            forall|a: int, b: int|
                0 <= a < b < self.flattened().len() ==> (#[trigger] self.flattened()[a]).stack_position
                    <= (#[trigger] self.flattened()[b]).stack_position,
    {
        self.lemma_walk_rises(self.len());
        self.lemma_walk_permutes();
        assert(self.walk_upto(1) =~= self.walk_upto(0) + tagged(self.level_nodes(0), 0));
        assert(self.walk_upto(1)[0] == (0usize, 0usize));
        self.lemma_walk_starts(1, self.len());
    }

    /// The flattened tree has one entry for each node: as many entries as
    /// nodes, no node twice, and for every node the entry with its block,
    /// its level and the depth noted in its block.
    pub proof fn law_flatten_lists_every_node_once(self)
        requires
            self.well_formed(),
        ensures
            self.flattened().len() == self.len(),
            forall|a: int, b: int|
                0 <= a < b < self.walk().len() ==> (#[trigger] self.walk()[a]).0 != (
                #[trigger] self.walk()[b]).0,
            forall|i: int|
                0 <= i < self.len() ==> self.flattened().contains(
                    #[trigger] self.entry((i as usize, self.level[i] as usize)),
                ),
            forall|a: int|
                0 <= a < self.flattened().len() ==> (#[trigger] self.flattened()[a]).block.id
                    == self.ids[self.walk()[a].0 as int],
    {
        self.lemma_walk_permutes();
        let walk = self.walk();
        let flat = self.flattened();
        assert forall|i: int| 0 <= i < self.len() implies flat.contains(
            #[trigger] self.entry((i as usize, self.level[i] as usize)),
        ) by {
            let m = choose|m: int|
                0 <= m < walk.len() && walk[m] == (i as usize, self.level[i] as usize);
            assert(flat[m] == self.entry(walk[m]));
        }
    }

    /// After blocks entered a tree that held its root alone, the flattened
    /// tree has exactly one entry for each block that was taken and one for
    /// the root: the nodes are the root and the blocks in the order in which
    /// they came, and the flattened tree lists every node once.
    pub proof fn law_flatten_after_inserts(self, blocks: Seq<CalendarBlock>)
        requires
            self.is_fresh(),
            blocks.len() + 1 < usize::MAX,
            forall|j: int|
                0 <= j < blocks.len() ==> (#[trigger] blocks[j]).end_minute
                    > blocks[j].start_minute,
        ensures
            self.grown(blocks).well_formed(),
            self.grown(blocks).ids == seq![self.ids[0]] + blocks.map_values(
                |b: CalendarBlock| b.id,
            ),
            self.grown(blocks).flattened().len() == blocks.len() + 1,
            forall|a: int, b: int|
                0 <= a < b < self.grown(blocks).walk().len() ==> (#[trigger] self.grown(
                    blocks,
                ).walk()[a]).0 != (#[trigger] self.grown(blocks).walk()[b]).0,
            forall|j: int|
                0 <= j < blocks.len() ==> self.grown(blocks).flattened().contains(
                    #[trigger] self.grown(blocks).entry(
                        ((j + 1) as usize, self.grown(blocks).level[j + 1] as usize),
                    ),
                ),
            self.grown(blocks).flattened().contains(self.grown(blocks).entry((0, 0))),
        decreases blocks.len(),
    {
        let after = self.grown(blocks);
        if blocks.len() == 0 {
            self.law_fresh_is_well_formed();
        } else {
            let front = blocks.drop_last();
            let before = self.grown(front);
            self.law_flatten_after_inserts(front);
            before.lemma_inserted_well_formed(blocks.last(), 0);
        }
        after.law_flatten_lists_every_node_once();
    }

    /// An insertion changes nothing of the blocks that were there but the
    /// depths noted in them, and no depth gets less; the new node holds the
    /// new block with a depth that is not less than the one it came with.
    /// The new block brings a new identifier.
    pub proof fn law_insert_keeps_blocks(self, block: CalendarBlock, destination: int, i: int)
        requires
            self.well_formed(),
            0 <= destination < self.len(),
            self.len() < usize::MAX,
            self.lacks_id(block.id),
            0 <= i < self.len(),
        ensures
            self.inserted(block, destination).block(i) == self.block(i).with_depth(
                self.inserted(block, destination).block(i).subtree_depth,
            ),
            self.inserted(block, destination).block(i).subtree_depth >= self.block(
                i,
            ).subtree_depth,
            self.inserted(block, destination).block(self.len() as int) == block.with_depth(
                self.inserted(block, destination).block(self.len() as int).subtree_depth,
            ),
            self.inserted(block, destination).block(self.len() as int).subtree_depth
                >= block.subtree_depth,
    {
        self.lemma_inserted_parts(block, destination);
    }

    /// A block that enters at the root comes to hang below a block that
    /// swallows it or below the root, and takes below itself only blocks
    /// that it swallows. So if every block overlapped its parent before,
    /// every block does after.
    pub proof fn law_parents_overlap(self, block: CalendarBlock)
        requires
            self.well_formed(),
            self.len() < usize::MAX,
            self.lacks_id(block.id),
            self.links_overlap(),
        ensures
            self.inserted(block, 0).links_overlap(),
    {
        let after = self.inserted(block, 0);
        let cursor = self.landing(block, 0);
        let moved = self.displaced_among(block, self.children[cursor]);
        let n = self.len() as int;
        self.lemma_inserted_parts(block, 0);
        self.lemma_landing_way(block, 0);
        self.lemma_displaced_among(block, self.children[cursor]);
        assert forall|i: int|
            0 < i < after.len() && #[trigger] after.parent[i] != Some(0usize) implies related(
            after.block(i),
            after.block(after.parent[i].unwrap() as int),
        ) by {
            if i == n {
                self.law_insert_keeps_blocks(block, 0, cursor);
                assert(self.under(cursor, cursor));
            } else if moved.contains(i as usize) {
                self.law_insert_keeps_blocks(block, 0, i);
            } else {
                assert(self.hangs(i));
                self.law_insert_keeps_blocks(block, 0, i);
                self.law_insert_keeps_blocks(block, 0, self.parent[i].unwrap() as int);
            }
        }
    }

    /// Blocks that do not overlap do not come to lie one above the other:
    /// if every block overlapped each block above it before a block entered
    /// at the root, and the new block overlaps whatever hangs below the
    /// blocks that it takes below itself, then every block overlaps each
    /// block above it afterwards.
    pub proof fn law_ancestors_overlap(self, block: CalendarBlock)
        requires
            self.well_formed(),
            self.len() < usize::MAX,
            self.lacks_id(block.id),
            self.kin_overlap(),
            self.overlaps_what_it_takes(block),
        ensures
            self.inserted(block, 0).kin_overlap(),
    {
        let after = self.inserted(block, 0);
        let cursor = self.landing(block, 0);
        let moved = self.displaced_among(block, self.children[cursor]);
        let n = self.len() as int;
        self.lemma_inserted_parts(block, 0);
        self.lemma_landing_way(block, 0);
        self.lemma_displaced_among(block, self.children[cursor]);
        assert forall|i: int, a: int|
            0 < i < after.len() && 0 < a < after.len() && i != a && #[trigger] after.under(
                i,
                a,
            ) implies related(after.block(i), after.block(a)) by {
            if i < n && a < n {
                self.lemma_under_old(block, 0, i, a);
                self.law_insert_keeps_blocks(block, 0, i);
                self.law_insert_keeps_blocks(block, 0, a);
            } else if i == n {
                self.lemma_new_under(block, 0, a);
                self.law_insert_keeps_blocks(block, 0, a);
            } else {
                self.lemma_under_new(block, 0, i);
                self.lemma_shifted_under(cursor, moved, i);
                self.law_insert_keeps_blocks(block, 0, i);
            }
        }
    }

    /// Only so: where the new block fails to overlap a block that hangs
    /// below one it takes below itself, it comes to lie above a block that
    /// it does not overlap.
    pub proof fn law_ancestors_overlap_only_so(self, block: CalendarBlock)
        requires
            self.well_formed(),
            self.len() < usize::MAX,
            self.lacks_id(block.id),
            self.inserted(block, 0).kin_overlap(),
        ensures
            self.overlaps_what_it_takes(block),
    {
        let after = self.inserted(block, 0);
        let cursor = self.landing(block, 0);
        let moved = self.displaced_among(block, self.children[cursor]);
        self.lemma_inserted_parts(block, 0);
        assert forall|x: int, d: usize|
            0 <= x < self.len() && moved.contains(d) && x != d && #[trigger] self.under(
                x,
                d as int,
            ) implies related(block, self.block(x)) by {
            self.lemma_shifted_below(cursor, moved, x, d as int);
            self.lemma_under_new(block, 0, x);
            self.law_insert_keeps_blocks(block, 0, x);
        }
    }

    /// Depths stay exact: if the depth noted in every block was the length
    /// of the longest chain below its node and identifiers are distinct,
    /// then after a block with depth 0 and a new identifier entered, the
    /// depth noted in every block is again the length of the longest chain
    /// below its node.
    pub proof fn law_depths_stay_exact(self, block: CalendarBlock, destination: int)
        requires
            self.well_formed(),
            0 <= destination < self.len(),
            self.len() < usize::MAX,
            self.distinct_ids(),
            self.lacks_id(block.id),
            self.depths_exact(),
            block.subtree_depth == 0,
        ensures
            self.inserted(block, destination).depths_exact(),
    {
        let after = self.inserted(block, destination);
        let cursor = self.landing(block, destination);
        let moved = self.displaced_among(block, self.children[cursor]);
        let n = self.len() as int;
        let brought = self.depth_with(block, moved) as int;
        let base = self.level[cursor] as int;
        self.lemma_inserted_parts(block, destination);
        self.lemma_inserted_well_formed(block, destination);
        self.lemma_exact_rises(cursor);
        self.lemma_depth_above(moved);
        self.lemma_exact_bounded();
        assert(brought + base + 1 <= n) by {
        }
        assert forall|y: int|
            0 <= y < n && self.shifted(cursor, moved, y) implies #[trigger] self.level[y] < base
            + brought + 1 by {
            self.lemma_shifted_under(cursor, moved, y);
            let d = self.ancestor_at(y, (self.level[y] - base - 1) as nat);
            assert(self.tops(d, self.block(d).subtree_depth as int));
        }
        assert forall|a: int| 0 <= a < after.len() implies #[trigger] after.tops(
            a,
            after.block(a).subtree_depth as int,
        ) by {
            if a == n {
                after.lemma_under_self(n);
                if moved.len() > 0 {
                    self.lemma_deepest_taken(block, destination);
                }
                assert forall|y: int| 0 <= y < after.len() && #[trigger] after.under(
                    y,
                    n,
                ) implies after.level[y] <= after.level[n] + brought by {
                    if y < n {
                        self.lemma_under_new(block, destination, y);
                    }
                }
            } else {
                self.lemma_raised_on_way(self.blocks, cursor, deeper(brought as usize), a);
                self.lemma_new_under(block, destination, a);
                let before = self.block(a).subtree_depth as int;
                let now = after.block(a).subtree_depth as int;
                assert(self.tops(a, before));
                let x = choose|x: int|
                    0 <= x < self.len() && #[trigger] self.under(x, a) && self.level[x]
                        == self.level[a] + before;
                self.lemma_under_old(block, destination, x, a);
                if self.shifted(cursor, moved, a) {
                    self.lemma_shifted_below(cursor, moved, x, a);
                } else if now == before {
                    if self.shifted(cursor, moved, x) {
                        self.lemma_shifted_through(cursor, moved, x, a);
                    }
                } else if moved.len() == 0 {
                } else {
                    self.lemma_deepest_taken(block, destination);
                    let top = choose|top: int|
                        0 <= top < n && #[trigger] after.under(top, n) && after.level[top]
                            == after.level[n] + brought;
                    after.lemma_under_chain(top, n, a);
                }
                assert forall|y: int| 0 <= y < after.len() && #[trigger] after.under(
                    y,
                    a,
                ) implies after.level[y] <= after.level[a] + now by {
                    if y < n {
                        self.lemma_under_old(block, destination, y, a);
                        if self.shifted(cursor, moved, a) {
                            self.lemma_shifted_below(cursor, moved, y, a);
                        } else if self.shifted(cursor, moved, y) {
                            self.lemma_shifted_through(cursor, moved, y, a);
                        }
                    }
                }
            }
        }
    }

    /// Where a block with depth 0 takes blocks below itself, one of the
    /// nodes that come to lie under the new node lies as many levels below
    /// it as the new block notes.
    pub proof fn lemma_deepest_taken(self, block: CalendarBlock, destination: int)
        requires
            self.well_formed(),
            0 <= destination < self.len(),
            self.len() < usize::MAX,
            self.depths_exact(),
            self.displaced_among(block, self.children[self.landing(block, destination)]).len()
                > 0,
            block.subtree_depth == 0,
        ensures
            exists|top: int|
                0 <= top < self.len() && #[trigger] self.inserted(block, destination).under(
                    top,
                    self.len() as int,
                ) && self.inserted(block, destination).level[top] == self.inserted(
                    block,
                    destination,
                ).level[self.len() as int] + self.depth_with(
                    block,
                    self.displaced_among(
                        block,
                        self.children[self.landing(block, destination)],
                    ),
                ),
    {
        let cursor = self.landing(block, destination);
        let moved = self.displaced_among(block, self.children[cursor]);
        self.lemma_inserted_parts(block, destination);
        self.lemma_depth_above(moved);
        self.lemma_exact_bounded();
        let d = choose|d: usize|
            #[trigger] moved.contains(d) && deeper(self.block(d as int).subtree_depth)
                == self.depth_above(moved);
        assert(self.tops(d as int, self.block(d as int).subtree_depth as int));
        let x = choose|x: int|
            0 <= x < self.len() && #[trigger] self.under(x, d as int) && self.level[x]
                == self.level[d as int] + self.block(d as int).subtree_depth;
        self.lemma_shifted_below(cursor, moved, x, d as int);
        self.lemma_under_new(block, destination, x);
    }

    /// Where the depths are exact, the root notes the greatest level of the
    /// tree: some node lies that many levels below the root, and no node's
    /// level and depth together exceed it.
    pub proof fn law_root_notes_greatest_level(self)
        requires
            self.well_formed(),
            self.depths_exact(),
        ensures
            exists|x: int|
                0 <= x < self.len() && #[trigger] self.level[x] == self.block(0).subtree_depth,
            forall|i: int|
                0 <= i < self.len() ==> #[trigger] self.level[i] + self.block(i).subtree_depth
                    <= self.block(0).subtree_depth,
    {
        assert(self.tops(0, self.block(0).subtree_depth as int));
        assert forall|i: int| 0 <= i < self.len() implies #[trigger] self.level[i] + self.block(
            i,
        ).subtree_depth <= self.block(0).subtree_depth by {
            assert(self.tops(i, self.block(i).subtree_depth as int));
            let y = choose|y: int|
                0 <= y < self.len() && #[trigger] self.under(y, i) && self.level[y]
                    == self.level[i] + self.block(i).subtree_depth;
            self.law_level_counts_edges(i, self.level[i]);
            self.lemma_under_chain(y, i, 0);
        }
    }

    /// A block that every block of the tree precedes takes no block below
    /// itself: blocks that come in order only ever descend.
    pub proof fn law_ordered_displaces_nothing(self, block: CalendarBlock, destination: int)
        requires
            self.well_formed(),
            0 <= destination < self.len(),
            forall|i: int| 0 < i < self.len() ==> (#[trigger] self.block(i)).precedes(block),
        ensures
            self.displaces_nothing(block, destination),
    {
        let cursor = self.landing(block, destination);
        self.lemma_landing(block, destination);
        let kids = self.children[cursor];
        let moved = self.displaced_among(block, kids);
        self.lemma_displaced_among(block, kids);
        if moved.len() > 0 {
            let d = moved[0];
            assert(moved.contains(d));
            self.lemma_child(cursor, d);
        }
    }

    /// A block that takes no block below itself and enters at the root comes
    /// to hang as a leaf below blocks that all swallow it. So if every block
    /// was swallowed by each block above it before, the root aside, every
    /// block is afterwards.
    pub proof fn law_descent_keeps_nesting(self, block: CalendarBlock)
        requires
            self.well_formed(),
            self.len() < usize::MAX,
            self.lacks_id(block.id),
            self.kin_swallowed(),
            self.displaces_nothing(block, 0),
        ensures
            self.inserted(block, 0).kin_swallowed(),
            self.inserted(block, 0).children[self.len() as int].len() == 0,
    {
        let after = self.inserted(block, 0);
        let n = self.len() as int;
        self.lemma_inserted_parts(block, 0);
        self.lemma_landing_way(block, 0);
        assert forall|i: int, a: int|
            0 < i < after.len() && 0 < a < after.len() && i != a && #[trigger] after.under(
                i,
                a,
            ) implies classify(after.block(i), after.block(a)) == Some(
            CalendarBlockOverlap::GetsSwallowed,
        ) by {
            if i < n && a < n {
                self.lemma_under_old(block, 0, i, a);
                self.law_insert_keeps_blocks(block, 0, i);
                self.law_insert_keeps_blocks(block, 0, a);
            } else if i == n {
                self.lemma_new_under(block, 0, a);
                self.law_insert_keeps_blocks(block, 0, a);
            } else {
                self.lemma_under_new(block, 0, i);
            }
        }
    }

    /// Blocks that enter a tree that held its root alone, with identifiers
    /// that differ from each other and from the root's: the flattened tree
    /// has exactly one entry for each block and one for the root, which
    /// comes first. No two entries carry the same identifier, and every
    /// node holds the block that came for it, up to the depth noted in it.
    pub proof fn law_flatten_one_entry_per_block(self, blocks: Seq<CalendarBlock>)
        requires
            self.is_fresh(),
            blocks.len() + 1 < usize::MAX,
            forall|j: int|
                0 <= j < blocks.len() ==> (#[trigger] blocks[j]).end_minute
                    > blocks[j].start_minute && blocks[j].id != self.ids[0],
            forall|j: int, k: int|
                0 <= j < k < blocks.len() ==> (#[trigger] blocks[j]).id != (
                #[trigger] blocks[k]).id,
        ensures
            self.grown(blocks).well_formed(),
            self.grown(blocks).len() == blocks.len() + 1,
            self.grown(blocks).distinct_ids(),
            self.grown(blocks).flattened().len() == blocks.len() + 1,
            self.grown(blocks).flattened()[0].block.id == self.ids[0],
            self.grown(blocks).flattened()[0].block.block_type == CalendarBlockType::Wrapper,
            forall|a: int, b: int|
                0 <= a < b < self.grown(blocks).flattened().len() ==> (#[trigger] self.grown(
                    blocks,
                ).flattened()[a]).block.id != (#[trigger] self.grown(
                    blocks,
                ).flattened()[b]).block.id,
            forall|j: int|
                0 <= j < blocks.len() ==> self.grown(blocks).lists((#[trigger] blocks[j]).id),
            forall|j: int|
                0 <= j < blocks.len() ==> #[trigger] self.grown(blocks).block(j + 1)
                    == blocks[j].with_depth(self.grown(blocks).block(j + 1).subtree_depth),
            self.grown(blocks).block(0) == self.block(0).with_depth(
                self.grown(blocks).block(0).subtree_depth,
            ),
        decreases blocks.len(),
    {
        let after = self.grown(blocks);
        self.law_flatten_after_inserts(blocks);
        if blocks.len() > 0 {
            let front = blocks.drop_last();
            let block = blocks.last();
            let before = self.grown(front);
            self.law_flatten_one_entry_per_block(front);
            self.law_flatten_after_inserts(front);
            let n = before.len() as int;
            assert(before.lacks_id(block.id)) by {
                assert forall|i: int| 0 <= i < before.len() implies #[trigger] before.ids[i]
                    != block.id by {
                }
            }
            assert(after.distinct_ids()) by {
                assert forall|i: int, j: int| 0 <= i < j < after.len() implies after.ids[i]
                    != after.ids[j] by {
                }
            }
            before.law_insert_keeps_blocks(block, 0, 0);
            assert forall|j: int| 0 <= j < blocks.len() implies #[trigger] after.block(j + 1)
                == blocks[j].with_depth(after.block(j + 1).subtree_depth) by {
                if j + 1 < n {
                    before.law_insert_keeps_blocks(block, 0, j + 1);
                }
            }
        }
        after.law_flatten_lists_every_node_once();
        after.law_flatten_goes_level_by_level();
        after.lemma_walk_permutes();
        let flat = after.flattened();
        assert forall|j: int| 0 <= j < blocks.len() implies after.lists(
            (#[trigger] blocks[j]).id,
        ) by {
            let e = after.entry(((j + 1) as usize, after.level[j + 1] as usize));
            let a = choose|a: int| 0 <= a < flat.len() && flat[a] == e;
        }
    }

    /// Blocks that enter a tree that held its root alone keep the depths
    /// exact, in whatever order they come: the depth noted in every block
    /// is the length of the longest chain below its node. The blocks come
    /// with depth 0 and with identifiers that differ from each other and
    /// from the root's.
    pub proof fn law_inserts_keep_depths(self, blocks: Seq<CalendarBlock>)
        requires
            self.is_fresh(),
            blocks.len() + 1 < usize::MAX,
            forall|j: int|
                0 <= j < blocks.len() ==> (#[trigger] blocks[j]).end_minute
                    > blocks[j].start_minute && blocks[j].subtree_depth == 0 && blocks[j].id
                    != self.ids[0],
            forall|j: int, k: int|
                0 <= j < k < blocks.len() ==> (#[trigger] blocks[j]).id != (
                #[trigger] blocks[k]).id,
        ensures
            self.grown(blocks).well_formed(),
            self.grown(blocks).depths_exact(),
        decreases blocks.len(),
    {
        self.law_flatten_one_entry_per_block(blocks);
        if blocks.len() == 0 {
            self.lemma_under_self(0);
        } else {
            let front = blocks.drop_last();
            let block = blocks.last();
            let before = self.grown(front);
            self.law_inserts_keep_depths(front);
            self.law_flatten_one_entry_per_block(front);
            self.law_flatten_after_inserts(front);
            assert(before.lacks_id(block.id)) by {
                assert forall|i: int| 0 <= i < before.len() implies #[trigger] before.ids[i]
                    != block.id by {
                }
            }
            before.law_depths_stay_exact(block, 0);
        }
    }

    /// Blocks that come in order build a tree in which every block is
    /// swallowed by each block above it, the root aside, and in which each
    /// block came to hang as a leaf. The blocks come with identifiers that
    /// differ from each other and from the root's.
    pub proof fn law_ordered_inserts(self, blocks: Seq<CalendarBlock>)
        requires
            self.is_fresh(),
            blocks.len() + 1 < usize::MAX,
            in_order(blocks),
            forall|j: int|
                0 <= j < blocks.len() ==> (#[trigger] blocks[j]).end_minute
                    > blocks[j].start_minute && blocks[j].id != self.ids[0],
            forall|j: int, k: int|
                0 <= j < k < blocks.len() ==> (#[trigger] blocks[j]).id != (
                #[trigger] blocks[k]).id,
        ensures
            self.grown(blocks).well_formed(),
            self.grown(blocks).kin_swallowed(),
            self.grown(blocks).kin_overlap(),
            blocks.len() > 0 ==> self.grown(blocks.drop_last()).displaces_nothing(
                blocks.last(),
                0,
            ) && self.grown(blocks).children[blocks.len() as int].len() == 0,
        decreases blocks.len(),
    {
        self.law_flatten_one_entry_per_block(blocks);
        if blocks.len() > 0 {
            let front = blocks.drop_last();
            let block = blocks.last();
            let before = self.grown(front);
            self.law_ordered_inserts(front);
            self.law_flatten_one_entry_per_block(front);
            self.law_flatten_after_inserts(front);
            assert(before.lacks_id(block.id)) by {
                assert forall|i: int| 0 <= i < before.len() implies #[trigger] before.ids[i]
                    != block.id by {
                }
            }
            assert forall|i: int| 0 < i < before.len() implies (#[trigger] before.block(
                i,
            )).precedes(block) by {
                assert(before.block(i - 1 + 1) == front[i - 1].with_depth(
                    before.block(i - 1 + 1).subtree_depth,
                ));
                assert(blocks[i - 1].precedes(blocks[blocks.len() - 1]));
            }
            before.law_ordered_displaces_nothing(block, 0);
            before.law_descent_keeps_nesting(block);
        }
    }

    /// Flattening is a function of the tree: two lists that both are the
    /// flattened tree are the same list.
    pub proof fn law_flatten_repeats(
        self,
        first: Seq<FlattenedCalendarBlock>,
        second: Seq<FlattenedCalendarBlock>,
    )
        requires
            first == self.flattened(),
            second == self.flattened(),
        ensures
            first == second,
    {
    }
}

} // verus!
