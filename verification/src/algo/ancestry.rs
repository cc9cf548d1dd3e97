//! Facts about the ways from nodes to the root, before and after an
//! insertion.

use super::calendar_block::classify;
use super::calendar_block::CalendarBlock;
use super::calendar_block::CalendarBlockOverlap;
use super::tree_view::TreeView;
use vstd::prelude::*;

verus! {

impl TreeView {
    /// Walking up in two stages reaches the same node as walking up at once.
    pub proof fn lemma_ancestor_composes(self, i: int, first: nat, then: nat)
        ensures
            self.ancestor_at(i, first + then) == self.ancestor_at(
                self.ancestor_at(i, first),
                then,
            ),
        decreases first,
    {
        if first > 0 {
            match self.parent[i] {
                Some(p) => {
                    self.lemma_ancestor_composes(p as int, (first - 1) as nat, then);
                },
                None => {
                },
            }
        }
    }

    /// A node lies under another exactly if it is that node or its parent
    /// lies under it.
    pub proof fn lemma_under_step(self, i: int, a: int)
        requires
            self.well_formed(),
            0 <= i < self.len(),
            0 <= a < self.len(),
        ensures
            self.under(i, a) == (i == a || (i > 0 && self.under(
                self.parent[i].unwrap() as int,
                a,
            ))),
    {
        if i > 0 {
            assert(self.hangs(i));
        }
    }

    /// Lying under is transitive.
    pub proof fn lemma_under_chain(self, i: int, a: int, b: int)
        requires
            self.under(i, a),
            self.under(a, b),
        ensures
            self.under(i, b),
    {
        self.lemma_ancestor_composes(
            i,
            (self.level[i] - self.level[a]) as nat,
            (self.level[a] - self.level[b]) as nat,
        );
    }

    /// The landing node lies under the node at which the block entered, and
    /// every node on the way between them, the landing node included,
    /// swallows the block.
    pub proof fn lemma_landing_way(self, block: CalendarBlock, cursor: int)
        requires
            self.well_formed(),
            0 <= cursor < self.len(),
        ensures
            self.under(self.landing(block, cursor), cursor),
            forall|a: int|
                0 <= a < self.len() && #[trigger] self.under(self.landing(block, cursor), a)
                    && self.level[a] > self.level[cursor] ==> classify(block, self.block(a))
                    == Some(CalendarBlockOverlap::GetsSwallowed),
        decreases self.len() - self.level[cursor],
    {
        let end = self.landing(block, cursor);
        match self.first_inner(block, self.children[cursor]) {
            Some(c) => {
                self.lemma_first_inner(block, self.children[cursor]);
                self.lemma_child(cursor, c);
                self.lemma_landing_way(block, c as int);
                self.lemma_landing(block, c as int);
                self.lemma_under_step(c as int, cursor);
                self.lemma_under_chain(end, c as int, cursor);
            },
            None => {
            },
        }
    }

    /// Between nodes that were there before, an insertion changes nothing
    /// about who lies under whom.
    pub proof fn lemma_under_old(self, block: CalendarBlock, destination: int, i: int, a: int)
        requires
            self.well_formed(),
            0 <= destination < self.len(),
            self.len() < usize::MAX,
            0 <= i < self.len(),
            0 <= a < self.len(),
        ensures
            self.inserted(block, destination).under(i, a) == self.under(i, a),
        decreases self.level[i],
    {
        let after = self.inserted(block, destination);
        let cursor = self.landing(block, destination);
        let moved = self.displaced_among(block, self.children[cursor]);
        let n = self.len() as int;
        self.lemma_inserted_well_formed(block, destination);
        self.lemma_inserted_parts(block, destination);
        after.lemma_under_step(i, a);
        self.lemma_under_step(i, a);
        if i != a && i > 0 {
            assert(self.hangs(i));
            if moved.contains(i as usize) {
                after.lemma_under_step(n, a);
                self.lemma_under_old(block, destination, cursor, a);
            } else {
                self.lemma_under_old(block, destination, self.parent[i].unwrap() as int, a);
            }
        }
    }

    /// After an insertion the nodes under the new node are the displaced
    /// nodes and what hangs below them.
    pub proof fn lemma_under_new(self, block: CalendarBlock, destination: int, i: int)
        requires
            self.well_formed(),
            0 <= destination < self.len(),
            self.len() < usize::MAX,
            0 <= i < self.len(),
        ensures
            self.inserted(block, destination).under(i, self.len() as int) == self.shifted(
                self.landing(block, destination),
                self.displaced_among(
                    block,
                    self.children[self.landing(block, destination)],
                ),
                i,
            ),
        decreases self.level[i],
    {
        let after = self.inserted(block, destination);
        let cursor = self.landing(block, destination);
        let moved = self.displaced_among(block, self.children[cursor]);
        let n = self.len() as int;
        self.lemma_inserted_well_formed(block, destination);
        self.lemma_inserted_parts(block, destination);
        after.lemma_under_step(i, n);
        if i > 0 {
            assert(self.hangs(i));
            if moved.contains(i as usize) {
                after.lemma_under_step(n, n);
            } else {
                self.lemma_under_new(block, destination, self.parent[i].unwrap() as int);
                self.lemma_shifted_with_parent(cursor, moved, i);
            }
        }
    }

    /// After an insertion the new node lies under the landing node and
    /// under what the landing node lay under.
    pub proof fn lemma_new_under(self, block: CalendarBlock, destination: int, a: int)
        requires
            self.well_formed(),
            0 <= destination < self.len(),
            self.len() < usize::MAX,
            0 <= a < self.len(),
        ensures
            self.inserted(block, destination).under(self.len() as int, a) == self.under(
                self.landing(block, destination),
                a,
            ),
    {
        let after = self.inserted(block, destination);
        let cursor = self.landing(block, destination);
        let n = self.len() as int;
        self.lemma_inserted_well_formed(block, destination);
        self.lemma_inserted_parts(block, destination);
        after.lemma_under_step(n, a);
        self.lemma_under_old(block, destination, cursor, a);
    }

    /// Of two nodes above the same node, the lower lies under the higher.
    pub proof fn lemma_under_comparable(self, y: int, a: int, d: int)
        requires
            self.under(y, a),
            self.under(y, d),
            self.level[a] <= self.level[d],
        ensures
            self.under(d, a),
    {
        self.lemma_ancestor_composes(
            y,
            (self.level[y] - self.level[d]) as nat,
            (self.level[d] - self.level[a]) as nat,
        );
    }

    /// What lies under a node that sinks, sinks.
    pub proof fn lemma_shifted_below(self, cursor: int, moved: Seq<usize>, y: int, a: int)
        requires
            self.well_formed(),
            0 <= cursor < self.len(),
            0 <= y < self.len(),
            0 <= a < self.len(),
            forall|d: usize| #[trigger]
                moved.contains(d) ==> d < self.len() && self.level[d as int]
                    == self.level[cursor] + 1,
            self.shifted(cursor, moved, a),
            self.under(y, a),
        ensures
            self.shifted(cursor, moved, y),
        decreases self.level[y],
    {
        if y != a {
            self.lemma_under_step(y, a);
            assert(self.hangs(y));
            if !moved.contains(y as usize) {
                self.lemma_shifted_below(cursor, moved, self.parent[y].unwrap() as int, a);
                self.lemma_shifted_with_parent(cursor, moved, y);
            }
        }
    }

    /// A node that sinks although a node above it stays lies under the
    /// landing node's child, and the node that stays is the landing node or
    /// lies above it.
    pub proof fn lemma_shifted_through(self, cursor: int, moved: Seq<usize>, y: int, a: int)
        requires
            self.well_formed(),
            0 <= cursor < self.len(),
            0 <= y < self.len(),
            0 <= a < self.len(),
            forall|d: usize| #[trigger]
                moved.contains(d) ==> 0 < d < self.len() && self.level[d as int]
                    == self.level[cursor] + 1 && self.parent[d as int] == Some(cursor as usize),
            self.shifted(cursor, moved, y),
            !self.shifted(cursor, moved, a),
            self.under(y, a),
        ensures
            self.under(cursor, a),
    {
        self.lemma_shifted_under(cursor, moved, y);
        let d = self.ancestor_at(y, (self.level[y] - self.level[cursor] - 1) as nat);
        if self.level[a] > self.level[d] {
            self.lemma_under_comparable(y, d, a);
        } else {
            self.lemma_under_comparable(y, a, d);
            self.lemma_under_step(d, a);
        }
    }

    /// A node that sinks in an insertion lies under one of the displaced
    /// nodes.
    pub proof fn lemma_shifted_under(self, cursor: int, moved: Seq<usize>, i: int)
        requires
            self.well_formed(),
            0 <= cursor < self.len(),
            0 <= i < self.len(),
            forall|d: usize| #[trigger]
                moved.contains(d) ==> d < self.len() && self.level[d as int]
                    == self.level[cursor] + 1,
            self.shifted(cursor, moved, i),
        ensures
            0 <= self.ancestor_at(i, (self.level[i] - self.level[cursor] - 1) as nat)
                < self.len(),
            moved.contains(
                self.ancestor_at(i, (self.level[i] - self.level[cursor] - 1) as nat) as usize,
            ),
            self.under(
                i,
                self.ancestor_at(i, (self.level[i] - self.level[cursor] - 1) as nat),
            ),
    {
        let steps = (self.level[i] - self.level[cursor] - 1) as nat;
        self.lemma_ancestor_in_range(i, steps);
    }
}

} // verus!
