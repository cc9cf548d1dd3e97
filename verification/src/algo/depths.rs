//! How the walk that raises depths relates to the longest chains below the
//! nodes.

use super::calendar_block::CalendarBlock;
use super::tree_view::deeper;
use super::tree_view::TreeView;
use vstd::prelude::*;

verus! {

impl TreeView {
    /// The depth that `blocks` notes for node `i`.
    pub open spec fn noted(self, blocks: Map<u128, CalendarBlock>, i: int) -> int {
        blocks[self.ids[i]].subtree_depth as int
    }

    /// No two nodes carry the same identifier.
    pub open spec fn distinct_ids(self) -> bool {
        forall|i: int, j: int| 0 <= i < j < self.len() ==> self.ids[i] != self.ids[j]
    }

    /// The longest chain that hangs below node `i` has `h` edges: some node
    /// under `i` lies `h` levels below it, and none lies further below.
    pub open spec fn tops(self, i: int, h: int) -> bool {
        &&& exists|x: int|
            0 <= x < self.len() && #[trigger] self.under(x, i) && self.level[x] == self.level[i]
                + h
        &&& forall|x: int|
            0 <= x < self.len() && #[trigger] self.under(x, i) ==> self.level[x]
                <= self.level[i] + h
    }

    /// The depth noted in every block is the length of the longest chain
    /// below its node.
    pub open spec fn depths_exact(self) -> bool {
        forall|i: int|
            0 <= i < self.len() ==> #[trigger] self.tops(i, self.block(i).subtree_depth as int)
    }

    /// On the way from `node` to the root every parent notes a greater depth
    /// than its child.
    pub open spec fn rises_above(self, blocks: Map<u128, CalendarBlock>, node: int) -> bool {
        forall|a: int|
            0 < a < self.len() && #[trigger] self.under(node, a) ==> self.noted(
                blocks,
                self.parent[a].unwrap() as int,
            ) > self.noted(blocks, a)
    }

    /// What the depth above a list of nodes is: 0 for no nodes, else one
    /// more than the depth of one of them, and not less than one more than
    /// the depth of any.
    pub proof fn lemma_depth_above(self, moved: Seq<usize>)
        ensures
            moved.len() == 0 ==> self.depth_above(moved) == 0,
            forall|d: usize| #[trigger]
                moved.contains(d) ==> deeper(self.block(d as int).subtree_depth)
                    <= self.depth_above(moved),
            moved.len() > 0 ==> exists|d: usize|
                #[trigger] moved.contains(d) && deeper(self.block(d as int).subtree_depth)
                    == self.depth_above(moved),
        decreases moved.len(),
    {
        if moved.len() > 0 {
            let front = moved.drop_last();
            let last = moved.last();
            self.lemma_depth_above(front);
            assert(moved.contains(last));
            assert forall|d: usize| #[trigger] moved.contains(d) implies deeper(
                self.block(d as int).subtree_depth,
            ) <= self.depth_above(moved) by {
                let k = choose|k: int| 0 <= k < moved.len() && moved[k] == d;
                if k < front.len() {
                    assert(front[k] == d);
                    assert(front.contains(d));
                }
            }
            if front.len() > 0 {
                let d = choose|d: usize|
                    #[trigger] front.contains(d) && deeper(self.block(d as int).subtree_depth)
                        == self.depth_above(front);
                assert(moved.contains(d));
            }
        }
    }

    /// Where the depths are exact, the level of a node and the depth noted
    /// in it together stay below the number of nodes.
    pub proof fn lemma_exact_bounded(self)
        requires
            self.well_formed(),
            self.depths_exact(),
        ensures
            forall|i: int|
                0 <= i < self.len() ==> #[trigger] self.block(i).subtree_depth + self.level[i]
                    < self.len(),
    {
        assert forall|i: int| 0 <= i < self.len() implies #[trigger] self.block(i).subtree_depth
            + self.level[i] < self.len() by {
            assert(self.tops(i, self.block(i).subtree_depth as int));
        }
    }

    /// Every node lies under itself.
    pub proof fn lemma_under_self(self, i: int)
        ensures
            self.under(i, i),
    {
    }

    /// Where the depths are exact, every parent notes a greater depth than
    /// its child.
    pub proof fn lemma_exact_rises(self, node: int)
        requires
            self.well_formed(),
            self.depths_exact(),
        ensures
            self.rises_above(self.blocks, node),
    {
        assert forall|a: int| 0 < a < self.len() && #[trigger] self.under(node, a) implies self.noted(
            self.blocks,
            self.parent[a].unwrap() as int,
        ) > self.noted(self.blocks, a) by {
            assert(self.hangs(a));
            let p = self.parent[a].unwrap() as int;
            assert(self.tops(a, self.block(a).subtree_depth as int));
            assert(self.tops(p, self.block(p).subtree_depth as int));
            let x = choose|x: int|
                0 <= x < self.len() && #[trigger] self.under(x, a) && self.level[x]
                    == self.level[a] + self.block(a).subtree_depth;
            self.lemma_under_self(p);
            self.lemma_under_step(a, p);
            self.lemma_under_chain(x, a, p);
        }
    }

    /// Where depths rise towards the root, a node above another notes at
    /// least as much more as it lies higher.
    pub proof fn lemma_rising(self, blocks: Map<u128, CalendarBlock>, node: int, i: int)
        requires
            self.well_formed(),
            0 <= node < self.len(),
            0 <= i < self.len(),
            self.rises_above(blocks, node),
            self.under(node, i),
        ensures
            self.noted(blocks, i) >= self.noted(blocks, node) + self.level[node] - self.level[i],
        decreases self.level[node],
    {
        if node != i {
            self.lemma_under_step(node, i);
            assert(self.hangs(node));
            let p = self.parent[node].unwrap() as int;
            self.lemma_under_self(node);
            self.lemma_under_self(p);
            self.lemma_under_step(node, p);
            assert forall|a: int| 0 < a < self.len() && #[trigger] self.under(p, a) implies self.noted(
                blocks,
                self.parent[a].unwrap() as int,
            ) > self.noted(blocks, a) by {
                self.lemma_under_chain(node, p, a);
            }
            self.lemma_rising(blocks, p, i);
        }
    }

    /// Where identifiers are distinct and depths rise towards the root, the
    /// walk that raises depths leaves on the way from `node` to the root the
    /// greater of what was noted and of `value` plus the distance from
    /// `node`, and elsewhere what was noted.
    pub proof fn lemma_raised_on_way(
        self,
        blocks: Map<u128, CalendarBlock>,
        node: int,
        value: usize,
        i: int,
    )
        requires
            self.well_formed(),
            self.distinct_ids(),
            0 <= node < self.len(),
            0 <= i < self.len(),
            value + self.level[node] <= usize::MAX,
            forall|k: int| 0 <= k < self.len() ==> blocks.contains_key(#[trigger] self.ids[k]),
            self.rises_above(blocks, node),
        ensures
            self.under(node, i) && self.noted(blocks, i) < value + self.level[node]
                - self.level[i] ==> self.noted(self.raised(blocks, node, value), i) == value
                + self.level[node] - self.level[i],
            !(self.under(node, i) && self.noted(blocks, i) < value + self.level[node]
                - self.level[i]) ==> self.noted(self.raised(blocks, node, value), i)
                == self.noted(blocks, i),
        decreases self.level[node],
    {
        let id = self.ids[node];
        self.lemma_under_step(node, i);
        self.lemma_under_self(node);
        if blocks[id].subtree_depth < value {
            let lifted = blocks.insert(id, blocks[id].with_depth(value));
            if node > 0 {
                assert(self.hangs(node));
                let p = self.parent[node].unwrap() as int;
                self.lemma_under_self(p);
                self.lemma_under_step(node, p);
                assert forall|a: int|
                    0 < a < self.len() && #[trigger] self.under(p, a) implies self.noted(
                    lifted,
                    self.parent[a].unwrap() as int,
                ) > self.noted(lifted, a) by {
                    self.lemma_under_chain(node, p, a);
                }
                self.lemma_raised_on_way(lifted, p, deeper(value), i);
            }
        } else {
            if self.under(node, i) {
                self.lemma_rising(blocks, node, i);
            }
        }
    }
}

} // verus!
