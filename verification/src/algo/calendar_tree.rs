//! The overlap tree: blocks arranged so that a block hangs below the block
//! that swallows it.

use super::calendar_block::classify;
use super::calendar_block::CalendarBlock;
use super::calendar_block::CalendarBlockOverlap;
use super::calendar_block::CalendarBlockType;
use super::graph::fresh_id;
use super::graph::graph_add_edge;
use super::graph::graph_add_node;
use super::graph::graph_dot;
use super::graph::graph_dot_text;
use super::graph::graph_edges;
use super::graph::graph_find_edge;
use super::graph::graph_new;
use super::graph::graph_node_count;
use super::graph::graph_predecessors;
use super::graph::graph_predecessors_of;
use super::graph::graph_remove_edge;
use super::graph::graph_successors;
use super::graph::graph_successors_of;
use super::graph::graph_weight;
use super::graph::graph_weights;
use super::graph::is_random_id;
use super::insertion::lemma_remove_is_without_first;
use super::insertion::lemma_without_first;
use super::tree_view::deeper;
use super::tree_view::without;
use super::tree_view::without_first;
use super::tree_view::tagged;
use super::tree_view::TreeView;
use petgraph::graph::Graph;
use std::collections::HashMap;
use std::collections::VecDeque;
use uuid::Uuid;
use vstd::prelude::*;

verus! {

broadcast use vstd::std_specs::hash::group_hash_axioms;

/// One entry of the flattened tree: a block, the level at which it hangs
/// and the length of the longest chain noted below it.
#[derive(Debug, PartialEq)]
pub struct FlattenedCalendarBlock {
    pub block: CalendarBlock,
    pub stack_position: usize,
    pub subtree_depth: usize,
}

impl Clone for FlattenedCalendarBlock {
    fn clone(&self) -> (copy: Self)
        ensures
            copy == *self,
    {
        FlattenedCalendarBlock {
            block: self.block.clone(),
            stack_position: self.stack_position,
            subtree_depth: self.subtree_depth,
        }
    }
}

/// Why a block was not taken into the tree.
#[derive(Debug, Clone, Copy, PartialEq, Eq, Structural)]
pub enum InsertError {
    /// The block ends before or where it starts.
    InvalidInterval,
}

/// The node at which a block enters the tree: the one named, or the root.
pub open spec fn entry_node(destination: Option<usize>) -> int {
    match destination {
        Some(node) => node as int,
        None => 0,
    }
}

/// The root block of a tree with identifier `id`: the whole day.
pub open spec fn is_root_block(block: CalendarBlock, id: u128) -> bool {
    &&& block.id == id
    &&& block.start_minute == 0
    &&& block.end_minute == 1440
    &&& block.block_type == CalendarBlockType::Wrapper
    &&& block.subtree_depth == 0
    &&& block.label@ == "Today's Date"@
}

impl TreeView {
    /// Whether the tree holds its root and nothing else.
    pub open spec fn is_fresh(self) -> bool {
        &&& self.ids.len() == 1
        &&& self.children == seq![Seq::<usize>::empty()]
        &&& self.parent == seq![None::<usize>]
        &&& self.level == seq![0nat]
        &&& self.blocks.dom() == set![self.ids[0]]
        &&& is_root_block(self.block(0), self.ids[0])
    }

    /// The entry that the flattened tree holds for a node at a level.
    pub open spec fn entry(self, at: (usize, usize)) -> FlattenedCalendarBlock {
        FlattenedCalendarBlock {
            block: self.block(at.0 as int),
            stack_position: at.1,
            subtree_depth: self.block(at.0 as int).subtree_depth,
        }
    }

    /// The flattened tree: one entry for each step of the breadth-first walk.
    pub open spec fn flattened(self) -> Seq<FlattenedCalendarBlock> {
        Seq::new(self.walk().len(), |i: int| self.entry(self.walk()[i]))
    }
}

/// The overlap tree of one day. Its shape is kept in a graph whose nodes
/// carry the identifiers of the blocks; the blocks themselves are kept by
/// identifier.
pub struct CalendarBlockTree {
    root_idx: usize,
    adjacency: Graph<Uuid, usize>,
    id_to_block_map: HashMap<u128, CalendarBlock>,
    levels: Ghost<Seq<nat>>,
}

impl View for CalendarBlockTree {
    type V = TreeView;

    closed spec fn view(&self) -> TreeView {
        let pred = graph_predecessors(self.adjacency);
        TreeView {
            ids: graph_weights(self.adjacency),
            children: graph_successors(self.adjacency),
            parent: Seq::new(
                pred.len(),
                |i: int|
                    if pred[i].len() > 0 {
                        Some(pred[i][0])
                    } else {
                        None
                    },
            ),
            level: self.levels@,
            blocks: self.id_to_block_map@,
        }
    }
}

impl CalendarBlockTree {
    /// What holds of every tree between two calls: the graph and the
    /// attributes describe a well-formed tree rooted at node 0, small enough
    /// for the graph's indices.
    pub closed spec fn inv(&self) -> bool {
        let weights = graph_weights(self.adjacency);
        let succ = graph_successors(self.adjacency);
        let pred = graph_predecessors(self.adjacency);
        &&& self.root_idx == 0
        &&& weights.len() <= u32::MAX
        &&& succ.len() == weights.len()
        &&& pred.len() == weights.len()
        &&& forall|i: int| 0 <= i < pred.len() ==> (#[trigger] pred[i]).len() <= 1
        &&& graph_edges(self.adjacency).len() + 1 == weights.len()
        &&& self@.well_formed()
    }

    /// The text of the tree's graph in the DOT language.
    pub closed spec fn dot_text(&self) -> Seq<char> {
        graph_dot_text(self.adjacency)
    }

    /// A tree between two calls is well formed and fits the graph's indices.
    pub proof fn lemma_inv(&self)
        requires
            self.inv(),
        ensures
            self@.well_formed(),
            self@.len() <= u32::MAX,
    {
    }

    /// A tree that holds only the root: the whole day, under the
    /// identifier `id`.
    pub fn with_root_id(id: u128) -> (tree: Self)
        ensures
            tree.inv(),
            tree@.is_fresh(),
            tree@.ids[0] == id,
    {
        let mut id_to_block_map: HashMap<u128, CalendarBlock> = HashMap::new();
        let root_node = CalendarBlock {
            id,
            start_minute: 0,
            end_minute: 1440,
            block_type: CalendarBlockType::Wrapper,
            subtree_depth: 0,
            label: "Today's Date".to_owned(),
        };
        id_to_block_map.insert(id, root_node);
        let mut adjacency = graph_new();
        let root_idx = graph_add_node(&mut adjacency, id);
        let ghost levels = seq![0nat];
        let tree = CalendarBlockTree { root_idx, adjacency, id_to_block_map, levels: Ghost(levels) };
        proof {
            let view = tree@;
            assert(view.parent =~= seq![None::<usize>]);
        }
        tree
    }

    /// A tree that holds only the root: the whole day, under a random
    /// identifier.
    pub fn new() -> (tree: Self)
        ensures
            tree.inv(),
            tree@.is_fresh(),
            is_random_id(tree@.ids[0]),
    {
        Self::with_root_id(fresh_id())
    }

    /// Takes `block` into the tree, entering at `destination` or at the
    /// root. A block that does not end after its start is refused and the
    /// tree stays as it was.
    pub fn add(&mut self, block: CalendarBlock, destination: Option<usize>) -> (result: Result<
        (),
        InsertError,
    >)
        requires
            old(self).inv(),
            old(self)@.len() < u32::MAX,
            match destination {
                Some(node) => node < old(self)@.len(),
                None => true,
            },
        ensures
            final(self).inv(),
            block.end_minute <= block.start_minute ==> result == Err::<(), InsertError>(
                InsertError::InvalidInterval,
            ) && final(self)@ == old(self)@,
            block.end_minute > block.start_minute ==> result == Ok::<(), InsertError>(())
                && final(self)@ == old(self)@.inserted(block, entry_node(destination)),
    {
        if block.end_minute <= block.start_minute {
            return Err(InsertError::InvalidInterval);
        }
        let ghost t = self@;
        let destination = match destination {
            Some(node) => node,
            None => self.root_idx,
        };
        let mut cursor = destination;
        let mut kids = graph_successors_of(&self.adjacency, cursor);
        let mut displaced: Vec<usize> = Vec::new();
        let mut depth: usize = block.subtree_depth;
        let mut pos: usize = 0;
        while pos < kids.len()
            invariant
                self.inv(),
                self@ == t,
                *self == *old(self),
                cursor < t.len(),
                kids@ == t.children[cursor as int],
                pos <= kids.len(),
                t.well_formed(),
                destination < t.len(),
                t.landing(block, cursor as int) == t.landing(block, destination as int),
                forall|j: int|
                    0 <= j < pos ==> classify(block, t.block(#[trigger] kids@[j] as int)) != Some(
                        CalendarBlockOverlap::GetsSwallowed,
                    ),
                displaced@ == t.displaced_among(block, kids@.take(pos as int)),
                depth == t.depth_with(block, displaced@),
            decreases t.len() - t.level[cursor as int], kids.len() - pos,
        {
            let child = kids[pos];
            proof {
                assert(t.holds(cursor as int, pos as int));
                assert(kids@.take(pos + 1).drop_last() =~= kids@.take(pos as int));
            }
            let current_block = self.block_at(child);
            match block.does_overlap(current_block.clone()) {
                Some(CalendarBlockOverlap::GetsSwallowed) => {
                    proof {
                        t.lemma_first_inner(block, kids@);
                        t.lemma_child(cursor as int, child);
                    }
                    cursor = child;
                    kids = graph_successors_of(&self.adjacency, cursor);
                    displaced = Vec::new();
                    depth = block.subtree_depth;
                    pos = 0;
                },
                Some(CalendarBlockOverlap::Swallows) => {
                    let below = current_block.subtree_depth.saturating_add(1);
                    if below > depth {
                        depth = below;
                    }
                    proof {
                        assert(displaced@.push(child).drop_last() =~= displaced@);
                    }
                    displaced.push(child);
                    pos += 1;
                },
                None => {
                    pos += 1;
                },
            }
        }
        let ghost moved = displaced@;
        let ghost list = t.children[cursor as int];
        proof {
            assert(kids@.take(pos as int) =~= kids@);
            t.lemma_first_inner(block, kids@);
            t.lemma_inserted_parts(block, destination as int);
            t.lemma_inserted_well_formed(block, destination as int);
            assert forall|y: usize| list.contains(y) implies y < t.len() by {
                t.lemma_child(cursor as int, y);
            }
        }
        // The depths are raised while the tree is still whole: the way from
        // the landing node to the root is the same before and after.
        self.update_subtree_depth_until_root(cursor, depth.saturating_add(1));
        let ghost weights = graph_weights(self.adjacency);
        let ghost succ = graph_successors(self.adjacency);
        let ghost pred = graph_predecessors(self.adjacency);
        let node = graph_add_node(&mut self.adjacency, block.id);
        graph_add_edge(&mut self.adjacency, cursor, node);
        let ghost mut rest = list;
        proof {
            assert(moved.skip(moved.len() as int) =~= Seq::<usize>::empty());
            assert(moved.take(moved.len() as int) =~= moved);
        }
        let mut k: usize = displaced.len();
        while k > 0
            invariant
                k <= displaced.len(),
                displaced@ == moved,
                node == t.len(),
                cursor < t.len(),
                t.len() < u32::MAX,
                self.root_idx == 0,
                moved.no_duplicates(),
                forall|d: usize| #[trigger]
                    moved.contains(d) ==> 0 < d < t.len() && pred[d as int] == seq![
                        cursor,
                    ] && d != cursor,
                succ.len() == t.len(),
                pred.len() == t.len(),
                graph_weights(self.adjacency) == weights.push(block.id),
                weights.len() == t.len(),
                graph_edges(self.adjacency).len() == t.len(),
                graph_successors(self.adjacency) == succ.push(moved.skip(k as int)).update(
                    cursor as int,
                    seq![node] + rest,
                ),
                without(rest, moved.take(k as int)) == without(list, moved),
                rest.no_duplicates(),
                forall|y: usize| #[trigger]
                    rest.contains(y) <==> list.contains(y) && !moved.skip(k as int).contains(y),
                forall|d: usize| #[trigger] moved.contains(d) ==> list.contains(d),
                forall|y: usize| #[trigger] list.contains(y) ==> y < t.len(),
                self.id_to_block_map@ == t.raised(
                    t.blocks,
                    cursor as int,
                    deeper(t.depth_with(block, moved)),
                ),
                graph_predecessors(self.adjacency) == Seq::new(
                    (t.len() + 1) as nat,
                    |i: int|
                        if i == t.len() {
                            seq![cursor]
                        } else if moved.skip(k as int).contains(i as usize) {
                            seq![node]
                        } else {
                            pred[i]
                        },
                ),
            decreases k,
        {
            k -= 1;
            let d = displaced[k];
            let ghost succ_before = graph_successors(self.adjacency);
            let ghost tail = moved.skip(k as int + 1);
            let ghost here = moved.skip(k as int);
            let ghost hanging = seq![node] + rest;
            proof {
                assert(moved.contains(d));
                assert(!tail.contains(d));
                assert(here[0] == d);
                assert(rest.contains(d));
                let m = choose|m: int| 0 <= m < rest.len() && rest[m] == d;
                assert(hanging.no_duplicates()) by {
                    assert forall|a: int, b: int|
                        0 <= a < hanging.len() && 0 <= b < hanging.len() && a
                            != b implies hanging[a] != hanging[b] by {
                        if a > 0 {
                            assert(rest.contains(rest[a - 1]));
                        }
                        if b > 0 {
                            assert(rest.contains(rest[b - 1]));
                        }
                    }
                }
                assert(hanging.drop_first() =~= rest);
                assert(moved.take(k + 1).drop_last() =~= moved.take(k as int));
                lemma_without_first(rest, d);
            }
            let found = graph_find_edge(&self.adjacency, cursor, d);
            if let Some(edge) = found {
                graph_remove_edge(&mut self.adjacency, edge);
                proof {
                    let at = choose|at: int|
                        0 <= at < succ_before[cursor as int].len() && succ_before[cursor as int][at]
                            == d && graph_successors(self.adjacency) == succ_before.update(
                            cursor as int,
                            #[trigger] succ_before[cursor as int].remove(at),
                        );
                    lemma_remove_is_without_first(hanging, at);
                }
            }
            graph_add_edge(&mut self.adjacency, node, d);
            proof {
                rest = without_first(rest, d);
                assert(seq![d] + tail =~= here);
                assert forall|y: usize| #[trigger]
                    rest.contains(y) <==> list.contains(y) && !here.contains(y) by {
                    if tail.contains(y) {
                        let m = choose|m: int| 0 <= m < tail.len() && tail[m] == y;
                        assert(here[m + 1] == y);
                    }
                }
                assert forall|i: int| 0 <= i < t.len() + 1 implies (#[trigger] graph_predecessors(
                    self.adjacency,
                )[i]) == (if i == t.len() {
                    seq![cursor]
                } else if here.contains(i as usize) {
                    seq![node]
                } else {
                    pred[i]
                }) by {
                    if i < t.len() {
                        if tail.contains(i as usize) {
                            let m = choose|m: int| 0 <= m < tail.len() && tail[m] == i as usize;
                            assert(here[m + 1] == i as usize);
                        }
                    }
                }
            }
        }
        let mut noted = block;
        noted.subtree_depth = depth;
        self.id_to_block_map.insert(noted.id, noted);
        proof {
            let after = t.inserted(block, destination as int);
            self.levels = Ghost(after.level);
            assert(self@.children =~= after.children);
            assert(self@.parent =~= after.parent);
        }
        Ok(())
    }

    /// Takes the blocks into the tree at the root, one after the other.
    /// Blocks that do not end after their start are passed over.
    pub fn add_all(&mut self, blocks: &Vec<CalendarBlock>)
        requires
            old(self).inv(),
            old(self)@.len() + blocks.len() < u32::MAX,
        ensures
            final(self).inv(),
            final(self)@ == old(self)@.grown(blocks@),
    {
        let ghost t = self@;
        let mut i: usize = 0;
        while i < blocks.len()
            invariant
                i <= blocks.len(),
                self.inv(),
                self@ == t.grown(blocks@.take(i as int)),
                self@.len() <= t.len() + i,
                t.len() + blocks.len() < u32::MAX,
            decreases blocks.len() - i,
        {
            proof {
                assert(blocks@.take(i + 1).drop_last() =~= blocks@.take(i as int));
            }
            let _ = self.add(blocks[i].clone(), None);
            i += 1;
        }
        proof {
            assert(blocks@.take(blocks@.len() as int) =~= blocks@);
        }
    }

    /// Notes along the way from `node_idx` to the root that a chain of
    /// `value` edges hangs below `node_idx`: each depth that is less is
    /// raised, and the walk ends at the first that is not.
    fn update_subtree_depth_until_root(&mut self, node_idx: usize, value: usize)
        requires
            old(self).inv(),
            node_idx < old(self)@.len(),
        ensures
            final(self).inv(),
            final(self).adjacency == old(self).adjacency,
            final(self).levels == old(self).levels,
            final(self)@.ids == old(self)@.ids,
            final(self)@.children == old(self)@.children,
            final(self)@.parent == old(self)@.parent,
            final(self)@.level == old(self)@.level,
            final(self)@.blocks == old(self)@.raised(old(self)@.blocks, node_idx as int, value),
    {
        let ghost t = self@;
        let ghost target = t.raised(t.blocks, node_idx as int, value);
        let mut node = node_idx;
        let mut value = value;
        let mut walking = true;
        while walking
            invariant
                self.inv(),
                self.adjacency == old(self).adjacency,
                self.levels == old(self).levels,
                self.root_idx == old(self).root_idx,
                t == old(self)@,
                t.well_formed(),
                node < t.len(),
                walking ==> t.raised(self@.blocks, node as int, value) == target,
                !walking ==> self@.blocks == target,
            decreases t.level[node as int] + (if walking { 1nat } else { 0nat }),
        {
            let id = graph_weight(&self.adjacency, node);
            let ghost shape = self@;
            let current = self.id_to_block_map.get(&id).unwrap();
            if current.subtree_depth < value {
                let mut lifted = current.clone();
                lifted.subtree_depth = value;
                self.id_to_block_map.insert(id, lifted);
                proof {
                    assert forall|i: int| 0 < i < self@.len() implies #[trigger] self@.hangs(
                        i,
                    ) by {
                        assert(shape.hangs(i));
                    }
                    assert forall|i: int, k: int|
                        0 <= i < self@.len() && 0 <= k
                            < self@.children[i].len() implies #[trigger] self@.holds(i, k) by {
                        assert(shape.holds(i, k));
                    }
                }
                let parents = graph_predecessors_of(&self.adjacency, node);
                if parents.len() > 0 {
                    proof {
                        if node > 0 {
                            assert(t.hangs(node as int));
                        }
                    }
                    node = parents[0];
                    value = value.saturating_add(1);
                } else {
                    walking = false;
                }
            } else {
                walking = false;
            }
        }
    }

    /// The number of nodes, the root included.
    pub fn len(&self) -> (n: usize)
        requires
            self.inv(),
        ensures
            n == self@.len(),
    {
        graph_node_count(&self.adjacency)
    }

    /// The parent of node `node`; the root has none.
    pub fn parent_of(&self, node: usize) -> (parent: Option<usize>)
        requires
            self.inv(),
            node < self@.len(),
        ensures
            parent == self@.parent[node as int],
    {
        let parents = graph_predecessors_of(&self.adjacency, node);
        if parents.len() > 0 {
            Some(parents[0])
        } else {
            None
        }
    }

    /// The children of node `node`, the one attached last first.
    pub fn children_of(&self, node: usize) -> (children: Vec<usize>)
        requires
            self.inv(),
            node < self@.len(),
        ensures
            children@ == self@.children[node as int],
    {
        graph_successors_of(&self.adjacency, node)
    }

    /// The block of node `node`.
    pub fn block_of(&self, node: usize) -> (block: CalendarBlock)
        requires
            self.inv(),
            node < self@.len(),
        ensures
            block == self@.block(node as int),
    {
        self.block_at(node).clone()
    }

    /// The block of node `node`, borrowed.
    fn block_at(&self, node: usize) -> (block: &CalendarBlock)
        requires
            self.inv(),
            node < self@.len(),
        ensures
            *block == self@.block(node as int),
    {
        let id = graph_weight(&self.adjacency, node);
        let found = self.id_to_block_map.get(&id);
        found.unwrap()
    }

    /// The breadth-first walk of the tree: each node with its level.
    fn walk_order(&self) -> (buffer: Vec<(usize, usize)>)
        requires
            self.inv(),
        ensures
            buffer@ == self@.walk(),
            forall|i: int| 0 <= i < buffer@.len() ==> (#[trigger] buffer@[i]).0 < self@.len(),
    {
        let ghost t = self@;
        let mut queue: VecDeque<(usize, usize)> = VecDeque::new();
        let mut buffer: Vec<(usize, usize)> = Vec::new();
        queue.push_back((self.root_idx, 0));
        let ghost mut k: nat = 0;
        let ghost mut j: nat = 0;
        while queue.len() > 0
            invariant
                self.inv(),
                t == self@,
                j <= t.level_nodes(k).len(),
                j == t.level_nodes(k).len() ==> j == 0,
                k <= t.len(),
                buffer@ == t.walk_upto(k) + tagged(t.level_nodes(k).take(j as int), k),
                queue@ == tagged(t.level_nodes(k).skip(j as int), k) + tagged(
                    t.children_of_all(t.level_nodes(k).take(j as int)),
                    k + 1,
                ),
                forall|i: int| 0 <= i < buffer@.len() ==> (#[trigger] buffer@[i]).0 < t.len(),
            decreases t.len() - k, t.level_nodes(k).len() - j,
        {
            let ghost level = t.level_nodes(k);
            let ghost done = level.take(j as int);
            proof {
                t.lemma_level_nodes_levels(k);
                t.lemma_level_in_range(k);
            }
            let (node, stack_position) = queue.pop_front().unwrap();
            buffer.push((node, stack_position));
            let kids = graph_successors_of(&self.adjacency, node);
            let ghost base = queue@;
            let mut m: usize = 0;
            while m < kids.len()
                invariant
                    m <= kids.len(),
                    stack_position < u32::MAX,
                    queue@ == base + tagged(kids@.take(m as int), (stack_position + 1) as nat),
                decreases kids.len() - m,
            {
                queue.push_back((kids[m], stack_position + 1));
                m += 1;
            }
            proof {
                let next = level.take(j as int + 1);
                assert(next.drop_last() =~= done);
                j = j + 1;
                if j == level.len() {
                    k = k + 1;
                    j = 0;
                }
            }
        }
        proof {
            t.lemma_levels_run_out(k, t.len());
        }
        buffer
    }

    /// The flattened tree: the root first, then level after level, each
    /// node's children in their order.
    pub fn traverse(&self) -> (entries: Vec<FlattenedCalendarBlock>)
        requires
            self.inv(),
        ensures
            entries@ == self@.flattened(),
    {
        let buffer = self.walk_order();
        let mut entries: Vec<FlattenedCalendarBlock> = Vec::new();
        let mut i: usize = 0;
        while i < buffer.len()
            invariant
                self.inv(),
                i <= buffer.len(),
                buffer@ == self@.walk(),
                forall|m: int| 0 <= m < buffer@.len() ==> (#[trigger] buffer@[m]).0 < self@.len(),
                entries@.len() == i,
                forall|m: int| 0 <= m < i ==> entries@[m] == self@.entry(#[trigger] buffer@[m]),
            decreases buffer.len() - i,
        {
            let (node, stack_position) = buffer[i];
            let current_block = self.block_at(node);
            entries.push(
                FlattenedCalendarBlock {
                    block: current_block.clone(),
                    stack_position,
                    subtree_depth: current_block.subtree_depth,
                },
            );
            i += 1;
        }
        entries
    }

    /// The tree's graph in the DOT language, one line for each node and
    /// each edge.
    pub fn display(&self) -> (text: String)
        ensures
            text@ == self.dot_text(),
    {
        graph_dot(&self.adjacency)
    }
}

} // verus!
