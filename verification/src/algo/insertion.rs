//! Insertion keeps a tree well formed.

use super::calendar_block::classify;
use super::calendar_block::CalendarBlock;
use super::calendar_block::CalendarBlockOverlap;
use super::tree_view::deeper;
use super::tree_view::without;
use super::tree_view::without_first;
use super::tree_view::TreeView;
use vstd::prelude::*;

verus! {

/// Taking a value out of a list without repetitions leaves the other
/// entries, still without repetitions.
pub proof fn lemma_without_first(list: Seq<usize>, x: usize)
    requires
        list.no_duplicates(),
    ensures
        without_first(list, x).no_duplicates(),
        forall|y: usize| #[trigger]
            without_first(list, x).contains(y) <==> list.contains(y) && y != x,
    decreases list.len(),
{
    let out = without_first(list, x);
    if list.len() > 0 {
        let rest = list.drop_first();
        assert forall|y: usize| #[trigger] rest.contains(y) <==> list.contains(y) && y
            != list[0] by {
            if list.contains(y) && y != list[0] {
                let k = choose|k: int| 0 <= k < list.len() && list[k] == y;
                assert(rest[k - 1] == y);
            }
        }
        if list[0] != x {
            lemma_without_first(rest, x);
            let tail = without_first(rest, x);
            assert forall|y: usize| #[trigger] out.contains(y) <==> list.contains(y) && y
                != x by {
                if out.contains(y) {
                    let k = choose|k: int| 0 <= k < out.len() && out[k] == y;
                    if k > 0 {
                        assert(tail.contains(y));
                    }
                }
                if list.contains(y) && y != x {
                    if y == list[0] {
                    } else {
                        assert(tail.contains(y));
                        let k = choose|k: int| 0 <= k < tail.len() && tail[k] == y;
                        assert(out[k + 1] == y);
                    }
                }
            }
            assert forall|a: int, b: int| 0 <= a < out.len() && 0 <= b < out.len() && a
                != b implies out[a] != out[b] by {
                if a > 0 {
                    assert(tail.contains(out[a]));
                }
                if b > 0 {
                    assert(tail.contains(out[b]));
                }
            }
        }
    }
}

/// In a list without repetitions, taking out the entry at a place is taking
/// out the first occurrence of the value there.
pub proof fn lemma_remove_is_without_first(list: Seq<usize>, at: int)
    requires
        list.no_duplicates(),
        0 <= at < list.len(),
    ensures
        list.remove(at) == without_first(list, list[at]),
    decreases list.len(),
{
    if at == 0 {
    } else {
        let rest = list.drop_first();
        lemma_remove_is_without_first(rest, at - 1);
    }
}

/// Taking several values out of a list without repetitions leaves the
/// entries that are none of them, still without repetitions.
pub proof fn lemma_without(list: Seq<usize>, taken: Seq<usize>)
    requires
        list.no_duplicates(),
    ensures
        without(list, taken).no_duplicates(),
        forall|y: usize| #[trigger]
            without(list, taken).contains(y) <==> list.contains(y) && !taken.contains(y),
    decreases taken.len(),
{
    if taken.len() > 0 {
        let x = taken.last();
        let front = taken.drop_last();
        let less = without_first(list, x);
        lemma_without_first(list, x);
        lemma_without(less, front);
        assert forall|y: usize| #[trigger]
            without(list, taken).contains(y) <==> list.contains(y) && !taken.contains(y) by {
            if taken.contains(y) && y != x {
                let k = choose|k: int| 0 <= k < taken.len() && taken[k] == y;
                assert(front[k] == y);
            }
        }
    }
}

impl TreeView {
    /// The displaced nodes are those entries of the list that `block`
    /// swallows; where the list repeats nothing, neither do they.
    pub proof fn lemma_displaced_among(self, block: CalendarBlock, kids: Seq<usize>)
        ensures
            forall|y: usize| #[trigger]
                self.displaced_among(block, kids).contains(y) <==> kids.contains(y) && classify(
                    block,
                    self.block(y as int),
                ) == Some(CalendarBlockOverlap::Swallows),
            kids.no_duplicates() ==> self.displaced_among(block, kids).no_duplicates(),
        decreases kids.len(),
    {
        let out = self.displaced_among(block, kids);
        if kids.len() > 0 {
            let front = kids.drop_last();
            let last = kids.last();
            let rest = self.displaced_among(block, front);
            self.lemma_displaced_among(block, front);
            let takes = classify(block, self.block(last as int)) == Some(
                CalendarBlockOverlap::Swallows,
            );
            assert forall|y: usize| #[trigger] front.contains(y) implies kids.contains(y) by {
                let k = choose|k: int| 0 <= k < front.len() && front[k] == y;
            }
            assert forall|y: usize| #[trigger]
                out.contains(y) <==> kids.contains(y) && classify(block, self.block(y as int))
                    == Some(CalendarBlockOverlap::Swallows) by {
                if out.contains(y) {
                    let k = choose|k: int| 0 <= k < out.len() && out[k] == y;
                    if k < rest.len() {
                        assert(rest.contains(y));
                    }
                }
                if kids.contains(y) && classify(block, self.block(y as int)) == Some(
                    CalendarBlockOverlap::Swallows,
                ) {
                    let k = choose|k: int| 0 <= k < kids.len() && kids[k] == y;
                    if k < front.len() {
                        assert(front[k] == y);
                        assert(rest.contains(y));
                        let m = choose|m: int| 0 <= m < rest.len() && rest[m] == y;
                        assert(out[m] == y);
                    } else {
                        assert(out[out.len() - 1] == y);
                    }
                }
            }
            if kids.no_duplicates() {
                if takes {
                    assert forall|a: int, b: int|
                        0 <= a < out.len() && 0 <= b < out.len() && a != b implies out[a]
                        != out[b] by {
                        if a < rest.len() {
                            assert(rest.contains(rest[a]));
                        }
                        if b < rest.len() {
                            assert(rest.contains(rest[b]));
                        }
                    }
                }
            }
        }
    }

    /// Walking up from a node of a tree stays among its nodes.
    pub proof fn lemma_ancestor_in_range(self, i: int, steps: nat)
        requires
            self.well_formed(),
            0 <= i < self.len(),
        ensures
            0 <= self.ancestor_at(i, steps) < self.len(),
        decreases steps,
    {
        if steps > 0 && i > 0 {
            assert(self.hangs(i));
            self.lemma_ancestor_in_range(self.parent[i].unwrap() as int, (steps - 1) as nat);
        }
    }

    /// The landing node is a node of the tree, and none of its children
    /// swallows the block.
    pub proof fn lemma_landing(self, block: CalendarBlock, cursor: int)
        requires
            self.well_formed(),
            0 <= cursor < self.len(),
        ensures
            0 <= self.landing(block, cursor) < self.len(),
            self.first_inner(block, self.children[self.landing(block, cursor)]) is None,
        decreases self.len() - self.level[cursor],
    {
        match self.first_inner(block, self.children[cursor]) {
            Some(c) => {
                self.lemma_first_inner(block, self.children[cursor]);
                self.lemma_child(cursor, c);
                self.lemma_landing(block, c as int);
            },
            None => {},
        }
    }

    /// A node that is not displaced sinks exactly when its parent does.
    pub proof fn lemma_shifted_with_parent(self, cursor: int, moved: Seq<usize>, i: int)
        requires
            self.well_formed(),
            0 <= cursor < self.len(),
            0 < i < self.len(),
            !moved.contains(i as usize),
        ensures
            self.shifted(cursor, moved, i) == self.shifted(
                cursor,
                moved,
                self.parent[i].unwrap() as int,
            ),
    {
        assert(self.hangs(i));
    }

    /// The parts of the tree after an insertion, named for the proofs below.
    pub proof fn lemma_inserted_parts(self, block: CalendarBlock, destination: int)
        requires
            self.well_formed(),
            0 <= destination < self.len(),
            self.len() < usize::MAX,
        ensures
            ({
                let cursor = self.landing(block, destination);
                let moved = self.displaced_among(block, self.children[cursor]);
                let after = self.inserted(block, destination);
                &&& 0 <= cursor < self.len()
                &&& moved.no_duplicates()
                &&& without(self.children[cursor], moved).no_duplicates()
                &&& forall|d: usize| #[trigger]
                    moved.contains(d) ==> 0 < d < self.len() && self.parent[d as int] == Some(
                        cursor as usize,
                    ) && self.level[d as int] == self.level[cursor] + 1
                        && self.children[cursor].contains(d)
                &&& forall|y: usize| #[trigger]
                    without(self.children[cursor], moved).contains(y)
                        <==> self.children[cursor].contains(y) && !moved.contains(y)
                &&& after.len() == self.len() + 1
                &&& after.children.len() == self.len() + 1
                &&& after.parent.len() == self.len() + 1
                &&& after.level.len() == self.len() + 1
                &&& after.blocks.dom() == self.blocks.dom().insert(block.id)
                &&& forall|id: u128| #[trigger]
                    self.blocks.contains_key(id) && id != block.id ==> after.blocks[id]
                        == self.blocks[id].with_depth(after.blocks[id].subtree_depth)
                        && after.blocks[id].subtree_depth >= self.blocks[id].subtree_depth
                &&& after.blocks[block.id] == block.with_depth(self.depth_with(block, moved))
                &&& self.level[cursor] + 1 < self.len() + 1
            }),
    {
        let cursor = self.landing(block, destination);
        self.lemma_landing(block, destination);
        let kids = self.children[cursor];
        let moved = self.displaced_among(block, kids);
        self.lemma_displaced_among(block, kids);
        lemma_without(kids, moved);
        self.lemma_raised_keys(self.blocks, cursor, deeper(self.depth_with(block, moved)));
        assert forall|d: usize| #[trigger] moved.contains(d) implies 0 < d < self.len()
            && self.parent[d as int] == Some(cursor as usize) && self.level[d as int]
            == self.level[cursor] + 1 && self.children[cursor].contains(d) by {
            self.lemma_child(cursor, d);
        }
    }

    /// Insertion keeps a tree well formed.
    pub proof fn lemma_inserted_well_formed(self, block: CalendarBlock, destination: int)
        requires
            self.well_formed(),
            0 <= destination < self.len(),
            self.len() < usize::MAX,
        ensures
            self.inserted(block, destination).well_formed(),
    {
        let cursor = self.landing(block, destination);
        let kids = self.children[cursor];
        let moved = self.displaced_among(block, kids);
        let kept = without(kids, moved);
        let n = self.len() as int;
        let after = self.inserted(block, destination);
        self.lemma_inserted_parts(block, destination);
        assert forall|i: int| 0 < i < after.len() implies #[trigger] after.hangs(i) by {
            if i == n {
                assert(after.children[cursor][0] == n as usize);
            } else if !moved.contains(i as usize) {
                assert(self.hangs(i));
                let p = self.parent[i].unwrap() as int;
                self.lemma_shifted_with_parent(cursor, moved, i);
                if p == cursor {
                    assert(kept.contains(i as usize));
                    let k = choose|k: int| 0 <= k < kept.len() && kept[k] == i as usize;
                    assert(after.children[cursor][k + 1] == i as usize);
                }
            }
        }
        assert forall|i: int| 0 <= i < after.len() implies (#[trigger] after.children[i])
            .no_duplicates() by {
            if i == n {
            } else if i == cursor {
                let list = after.children[i];
                assert forall|a: int, b: int|
                    0 <= a < list.len() && 0 <= b < list.len() && a != b implies list[a]
                    != list[b] by {
                    if a > 0 {
                        assert(kept.contains(kept[a - 1]));
                        self.lemma_child(cursor, kept[a - 1]);
                    }
                    if b > 0 {
                        assert(kept.contains(kept[b - 1]));
                        self.lemma_child(cursor, kept[b - 1]);
                    }
                }
            }
        }
        assert forall|i: int, k: int|
            0 <= i < after.len() && 0 <= k < after.children[i].len() implies #[trigger] after.holds(
            i,
            k,
        ) by {
            if i == n {
                assert(moved.contains(moved[k]));
            } else if i == cursor {
                if k > 0 {
                    let x = kept[k - 1];
                    assert(kept.contains(x));
                    self.lemma_child(cursor, x);
                }
            } else {
                assert(self.holds(i, k));
            }
        }
    }

    /// Raising depths changes no key of the attributes and nothing of a
    /// block but its depth, which does not get less.
    pub proof fn lemma_raised_keys(self, blocks: Map<u128, CalendarBlock>, node: int, value: usize)
        requires
            self.well_formed(),
            0 <= node < self.len(),
        ensures
            self.raised(blocks, node, value).dom() == blocks.dom(),
            forall|id: u128| #[trigger]
                blocks.contains_key(id) ==> self.raised(blocks, node, value)[id]
                    == blocks[id].with_depth(self.raised(blocks, node, value)[id].subtree_depth)
                    && self.raised(blocks, node, value)[id].subtree_depth
                    >= blocks[id].subtree_depth,
        decreases self.level[node],
    {
        let id = self.ids[node];
        if blocks.contains_key(id) && blocks[id].subtree_depth < value {
            let lifted = blocks.insert(id, blocks[id].with_depth(value));
            assert(lifted.dom() =~= blocks.dom());
            if node > 0 {
                assert(self.hangs(node));
                self.lemma_raised_keys(lifted, self.parent[node].unwrap() as int, deeper(value));
            }
        }
    }
}

} // verus!
