//! The overlap tree as a mathematical value, and what insertion and the
//! breadth-first walk mean on it.

use super::calendar_block::classify;
use super::calendar_block::CalendarBlock;
use super::calendar_block::CalendarBlockOverlap;
use vstd::prelude::*;

verus! {

/// A rooted tree of blocks. Nodes are numbered in the order in which they
/// were added; node 0 is the root.
pub struct TreeView {
    /// The identifier of the block at each node.
    pub ids: Seq<u128>,
    /// The children of each node, the one attached last first.
    pub children: Seq<Seq<usize>>,
    /// The parent of each node; the root has none.
    pub parent: Seq<Option<usize>>,
    /// The number of edges between each node and the root.
    pub level: Seq<nat>,
    /// The attributes of the blocks, by identifier.
    pub blocks: Map<u128, CalendarBlock>,
}

/// `list` without the first occurrence of `x`.
pub open spec fn without_first(list: Seq<usize>, x: usize) -> Seq<usize>
    decreases list.len(),
{
    if list.len() == 0 {
        list
    } else if list[0] == x {
        list.drop_first()
    } else {
        seq![list[0]] + without_first(list.drop_first(), x)
    }
}

/// One more than `depth`; the largest number stays as it is.
pub open spec fn deeper(depth: usize) -> usize {
    if depth < usize::MAX {
        (depth + 1) as usize
    } else {
        depth
    }
}

/// `list` after each entry of `taken` was taken out of it once.
pub open spec fn without(list: Seq<usize>, taken: Seq<usize>) -> Seq<usize>
    decreases taken.len(),
{
    if taken.len() == 0 {
        list
    } else {
        without(without_first(list, taken.last()), taken.drop_last())
    }
}

/// Each node of `nodes` paired with the level `k`.
pub open spec fn tagged(nodes: Seq<usize>, k: nat) -> Seq<(usize, usize)> {
    Seq::new(nodes.len(), |i: int| (nodes[i], k as usize))
}

impl TreeView {
    /// The number of nodes.
    pub open spec fn len(self) -> nat {
        self.ids.len()
    }

    /// The block at node `i`.
    pub open spec fn block(self, i: int) -> CalendarBlock {
        self.blocks[self.ids[i]]
    }

    /// The attributes hold a block under `id` that carries this identifier.
    pub open spec fn known(self, id: u128) -> bool {
        self.blocks.contains_key(id) && self.blocks[id].id == id
    }

    /// Node `i` has a parent one level above it that lists it as a child.
    pub open spec fn hangs(self, i: int) -> bool {
        match self.parent[i] {
            Some(p) => {
                &&& p < self.len()
                &&& self.level[i] == self.level[p as int] + 1
                &&& self.children[p as int].contains(i as usize)
            },
            None => false,
        }
    }

    /// The `k`-th child of node `i` is a node whose parent is `i`.
    pub open spec fn holds(self, i: int, k: int) -> bool {
        let c = self.children[i][k];
        c < self.len() && self.parent[c as int] == Some(i as usize)
    }

    /// The shape of a tree: every node but the root hangs below exactly one
    /// parent, the lists of children agree with the parents, levels count the
    /// edges to the root, and every node's block is known under its
    /// identifier.
    pub open spec fn well_formed(self) -> bool {
        &&& 1 <= self.ids.len() <= usize::MAX
        &&& self.children.len() == self.ids.len()
        &&& self.parent.len() == self.ids.len()
        &&& self.level.len() == self.ids.len()
        &&& self.parent[0] is None
        &&& self.level[0] == 0
        &&& forall|i: int| 0 <= i < self.len() ==> self.known(#[trigger] self.ids[i])
        &&& forall|i: int| 0 < i < self.len() ==> #[trigger] self.hangs(i)
        &&& forall|i: int| 0 <= i < self.len() ==> #[trigger] self.level[i] < self.len()
        &&& forall|i: int| 0 <= i < self.len() ==> (#[trigger] self.children[i]).no_duplicates()
        &&& forall|i: int, k: int|
            0 <= i < self.len() && 0 <= k < self.children[i].len() ==> #[trigger] self.holds(i, k)
    }

    /// The node `steps` edges above `i`, or the root where the way is shorter.
    pub open spec fn ancestor_at(self, i: int, steps: nat) -> int
        decreases steps,
    {
        if steps == 0 {
            i
        } else {
            match self.parent[i] {
                Some(p) => self.ancestor_at(p as int, (steps - 1) as nat),
                None => i,
            }
        }
    }

    /// Whether node `a` lies on the way from node `i` to the root, `i` itself
    /// included.
    pub open spec fn under(self, i: int, a: int) -> bool {
        self.level[i] >= self.level[a] && self.ancestor_at(
            i,
            (self.level[i] - self.level[a]) as nat,
        ) == a
    }

    /// The first node of `kids` whose block swallows `block`.
    pub open spec fn first_inner(self, block: CalendarBlock, kids: Seq<usize>) -> Option<usize>
        decreases kids.len(),
    {
        if kids.len() == 0 {
            None
        } else if classify(block, self.block(kids[0] as int)) == Some(
            CalendarBlockOverlap::GetsSwallowed,
        ) {
            Some(kids[0])
        } else {
            self.first_inner(block, kids.drop_first())
        }
    }

    /// The nodes of `kids` whose blocks `block` swallows, in the order of
    /// `kids`.
    pub open spec fn displaced_among(self, block: CalendarBlock, kids: Seq<usize>) -> Seq<usize>
        decreases kids.len(),
    {
        if kids.len() == 0 {
            kids
        } else {
            let rest = self.displaced_among(block, kids.drop_last());
            if classify(block, self.block(kids.last() as int)) == Some(
                CalendarBlockOverlap::Swallows,
            ) {
                rest.push(kids.last())
            } else {
                rest
            }
        }
    }

    /// The node below which `block` comes to hang when it enters at
    /// `cursor`: from `cursor`, step into the first child that swallows
    /// `block`, and again from there, until no child does.
    pub open spec fn landing(self, block: CalendarBlock, cursor: int) -> int
        decreases self.len() - self.level[cursor],
        when self.well_formed() && 0 <= cursor < self.len()
        via Self::landing_decreases
    {
        match self.first_inner(block, self.children[cursor]) {
            Some(c) => self.landing(block, c as int),
            None => cursor,
        }
    }

    #[via_fn]
    proof fn landing_decreases(self, block: CalendarBlock, cursor: int) {
        match self.first_inner(block, self.children[cursor]) {
            Some(c) => {
                self.lemma_first_inner(block, self.children[cursor]);
                self.lemma_child(cursor, c);
            },
            None => {},
        }
    }

    /// The depth that a block notes above the nodes of `moved`: one more
    /// than the greatest depth noted in them, 0 where there are none.
    pub open spec fn depth_above(self, moved: Seq<usize>) -> usize
        decreases moved.len(),
    {
        if moved.len() == 0 {
            0
        } else {
            let rest = self.depth_above(moved.drop_last());
            let last = deeper(self.block(moved.last() as int).subtree_depth);
            if last > rest {
                last
            } else {
                rest
            }
        }
    }

    /// The depth that `block` notes once `moved` hang below it: the depth
    /// it came with, or the depth above `moved` where that is greater.
    pub open spec fn depth_with(self, block: CalendarBlock, moved: Seq<usize>) -> usize {
        if self.depth_above(moved) > block.subtree_depth {
            self.depth_above(moved)
        } else {
            block.subtree_depth
        }
    }

    /// The blocks after the walk that records a chain of `value` edges below
    /// `node`: where the depth noted at `node` is less than `value` it
    /// becomes `value`, and the walk goes on at the parent with one more; it
    /// ends at the first node whose depth is not less, or at the root.
    pub open spec fn raised(
        self,
        blocks: Map<u128, CalendarBlock>,
        node: int,
        value: usize,
    ) -> Map<u128, CalendarBlock>
        decreases self.level[node],
        when self.well_formed() && 0 <= node < self.len()
        via Self::raised_decreases
    {
        let id = self.ids[node];
        if blocks.contains_key(id) && blocks[id].subtree_depth < value {
            let lifted = blocks.insert(id, blocks[id].with_depth(value));
            match self.parent[node] {
                Some(p) => self.raised(lifted, p as int, deeper(value)),
                None => lifted,
            }
        } else {
            blocks
        }
    }

    #[via_fn]
    proof fn raised_decreases(self, blocks: Map<u128, CalendarBlock>, node: int, value: usize) {
        if node > 0 {
            assert(self.hangs(node));
        }
    }

    /// Whether node `i` hangs below one of `moved`, which are children of
    /// `cursor`, or is one of them.
    pub open spec fn shifted(self, cursor: int, moved: Seq<usize>, i: int) -> bool {
        self.level[i] > self.level[cursor] && moved.contains(
            self.ancestor_at(i, (self.level[i] - self.level[cursor] - 1) as nat) as usize,
        )
    }

    /// The tree after `block` entered it at node `destination`.
    ///
    /// The new node hangs below the landing node as its first child. The
    /// children of the landing node that `block` swallows move below the new
    /// node, in the order they had, and everything below them sinks one
    /// level. The new block notes the depth it came with, or one more than
    /// the greatest depth among the blocks it takes below itself where that
    /// is greater. The depths noted along the way to the root are raised for
    /// a chain of one edge more below the landing node. The new block
    /// enters the attributes last.
    pub open spec fn inserted(self, block: CalendarBlock, destination: int) -> TreeView {
        let cursor = self.landing(block, destination);
        let moved = self.displaced_among(block, self.children[cursor]);
        let n = self.len();
        TreeView {
            ids: self.ids.push(block.id),
            children: self.children.update(
                cursor,
                seq![n as usize] + without(self.children[cursor], moved),
            ).push(moved),
            parent: Seq::new(
                n + 1,
                |i: int|
                    if i == n {
                        Some(cursor as usize)
                    } else if moved.contains(i as usize) {
                        Some(n as usize)
                    } else {
                        self.parent[i]
                    },
            ),
            level: Seq::new(
                n + 1,
                |i: int|
                    if i == n {
                        self.level[cursor] + 1
                    } else if self.shifted(cursor, moved, i) {
                        self.level[i] + 1
                    } else {
                        self.level[i]
                    },
            ),
            blocks: self.raised(
                self.blocks,
                cursor,
                deeper(self.depth_with(block, moved)),
            ).insert(block.id, block.with_depth(self.depth_with(block, moved))),
        }
    }

    /// The tree after the blocks of `blocks` entered it at the root, one
    /// after the other; those that do not end after their start are passed
    /// over.
    pub open spec fn grown(self, blocks: Seq<CalendarBlock>) -> TreeView
        decreases blocks.len(),
    {
        if blocks.len() == 0 {
            self
        } else {
            let before = self.grown(blocks.drop_last());
            let block = blocks.last();
            if block.end_minute > block.start_minute {
                before.inserted(block, 0)
            } else {
                before
            }
        }
    }

    /// The children of the nodes of `nodes`, list after list.
    pub open spec fn children_of_all(self, nodes: Seq<usize>) -> Seq<usize>
        decreases nodes.len(),
    {
        if nodes.len() == 0 {
            nodes
        } else {
            self.children_of_all(nodes.drop_last()) + self.children[nodes.last() as int]
        }
    }

    /// The nodes `k` edges below the root, in the order in which a
    /// breadth-first walk meets them.
    pub open spec fn level_nodes(self, k: nat) -> Seq<usize>
        decreases k,
    {
        if k == 0 {
            seq![0usize]
        } else {
            self.children_of_all(self.level_nodes((k - 1) as nat))
        }
    }

    /// The levels above level `k`, one after the other, each node with its
    /// level.
    pub open spec fn walk_upto(self, k: nat) -> Seq<(usize, usize)>
        decreases k,
    {
        if k == 0 {
            Seq::empty()
        } else {
            self.walk_upto((k - 1) as nat) + tagged(
                self.level_nodes((k - 1) as nat),
                (k - 1) as nat,
            )
        }
    }

    /// The breadth-first walk of the whole tree: every level, the root's
    /// first, each node with its level.
    pub open spec fn walk(self) -> Seq<(usize, usize)> {
        self.walk_upto(self.len())
    }

    /// What `first_inner` finds is an entry of the list, it swallows
    /// `block`, and no entry before it does.
    pub proof fn lemma_first_inner(self, block: CalendarBlock, kids: Seq<usize>)
        ensures
            match self.first_inner(block, kids) {
                Some(c) => exists|k: int|
                    {
                        &&& 0 <= k < kids.len()
                        &&& #[trigger] kids[k] == c
                        &&& classify(block, self.block(c as int)) == Some(
                            CalendarBlockOverlap::GetsSwallowed,
                        )
                        &&& forall|j: int|
                            0 <= j < k ==> classify(block, self.block(#[trigger] kids[j] as int))
                                != Some(CalendarBlockOverlap::GetsSwallowed)
                    },
                None => forall|j: int|
                    0 <= j < kids.len() ==> classify(block, self.block(#[trigger] kids[j] as int))
                        != Some(CalendarBlockOverlap::GetsSwallowed),
            },
        decreases kids.len(),
    {
        if kids.len() > 0 && classify(block, self.block(kids[0] as int)) != Some(
            CalendarBlockOverlap::GetsSwallowed,
        ) {
            let rest = kids.drop_first();
            self.lemma_first_inner(block, rest);
            match self.first_inner(block, rest) {
                Some(c) => {
                    let k = choose|k: int|
                        {
                            &&& 0 <= k < rest.len()
                            &&& #[trigger] rest[k] == c
                            &&& classify(block, self.block(c as int)) == Some(
                                CalendarBlockOverlap::GetsSwallowed,
                            )
                            &&& forall|j: int|
                                0 <= j < k ==> classify(
                                    block,
                                    self.block(#[trigger] rest[j] as int),
                                ) != Some(CalendarBlockOverlap::GetsSwallowed)
                        };
                    assert forall|j: int| 0 <= j < k + 1 implies classify(
                        block,
                        self.block(#[trigger] kids[j] as int),
                    ) != Some(CalendarBlockOverlap::GetsSwallowed) by {
                        if j > 0 {
                            assert(kids[j] == rest[j - 1]);
                        }
                    }
                },
                None => {
                    assert forall|j: int| 0 <= j < kids.len() implies classify(
                        block,
                        self.block(#[trigger] kids[j] as int),
                    ) != Some(CalendarBlockOverlap::GetsSwallowed) by {
                        if j > 0 {
                            assert(kids[j] == rest[j - 1]);
                        }
                    }
                },
            }
        }
    }

    /// A child of a node of a tree is another node, one level further down,
    /// and not the root.
    pub proof fn lemma_child(self, i: int, c: usize)
        requires
            self.well_formed(),
            0 <= i < self.len(),
            self.children[i].contains(c),
        ensures
            0 < c < self.len(),
            self.parent[c as int] == Some(i as usize),
            self.level[c as int] == self.level[i] + 1,
            self.level[i] + 1 < self.len(),
    {
        let k = choose|k: int| 0 <= k < self.children[i].len() && self.children[i][k] == c;
        assert(self.holds(i, k));
        assert(self.hangs(c as int));
    }
}

} // verus!
