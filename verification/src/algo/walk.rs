//! Facts about the breadth-first walk of a well-formed tree.

use super::tree_view::tagged;
use super::tree_view::TreeView;
use vstd::prelude::*;
use vstd::set_lib::lemma_int_range;
use vstd::set_lib::set_int_range;

verus! {

impl TreeView {
    /// The children of nodes of level `k` are nodes of level `k + 1`.
    pub proof fn lemma_children_of_all_levels(self, nodes: Seq<usize>, k: nat)
        requires
            self.well_formed(),
            forall|i: int|
                0 <= i < nodes.len() ==> (#[trigger] nodes[i]) < self.len()
                    && self.level[nodes[i] as int] == k,
        ensures
            forall|i: int|
                0 <= i < self.children_of_all(nodes).len() ==> (#[trigger] self.children_of_all(
                    nodes,
                )[i]) < self.len() && self.level[self.children_of_all(nodes)[i] as int] == k + 1,
        decreases nodes.len(),
    {
        if nodes.len() > 0 {
            let front = nodes.drop_last();
            let last = nodes.last();
            self.lemma_children_of_all_levels(front, k);
            let head = self.children_of_all(front);
            let all = self.children_of_all(nodes);
            assert forall|i: int| 0 <= i < all.len() implies (#[trigger] all[i]) < self.len()
                && self.level[all[i] as int] == k + 1 by {
                if i >= head.len() {
                    let c = self.children[last as int][i - head.len()];
                    self.lemma_child(last as int, c);
                }
            }
        }
    }

    /// Level `k` of the walk holds nodes of level `k`.
    pub proof fn lemma_level_nodes_levels(self, k: nat)
        requires
            self.well_formed(),
        ensures
            forall|i: int|
                0 <= i < self.level_nodes(k).len() ==> (#[trigger] self.level_nodes(k)[i])
                    < self.len() && self.level[self.level_nodes(k)[i] as int] == k,
        decreases k,
    {
        if k > 0 {
            self.lemma_level_nodes_levels((k - 1) as nat);
            self.lemma_children_of_all_levels(self.level_nodes((k - 1) as nat), (k - 1) as nat);
        }
    }

    /// A level that holds a node is one of the first `len()` levels.
    pub proof fn lemma_level_in_range(self, k: nat)
        requires
            self.well_formed(),
            self.level_nodes(k).len() > 0,
        ensures
            k < self.len(),
    {
        self.lemma_level_nodes_levels(k);
        let x = self.level_nodes(k)[0];
    }

    /// The children of a node of the list are among the children of all.
    pub proof fn lemma_children_of_all_has(self, nodes: Seq<usize>, p: usize, c: usize)
        requires
            nodes.contains(p),
            self.children[p as int].contains(c),
        ensures
            self.children_of_all(nodes).contains(c),
        decreases nodes.len(),
    {
        let front = nodes.drop_last();
        let head = self.children_of_all(front);
        let all = self.children_of_all(nodes);
        if nodes.last() == p {
            let k = choose|k: int|
                0 <= k < self.children[p as int].len() && self.children[p as int][k] == c;
            assert(all[head.len() + k] == c);
        } else {
            let k = choose|k: int| 0 <= k < nodes.len() && nodes[k] == p;
            assert(front[k] == p);
            self.lemma_children_of_all_has(front, p, c);
            let m = choose|m: int| 0 <= m < head.len() && head[m] == c;
            assert(all[m] == c);
        }
    }

    /// Each of the children of all has its parent in the list.
    pub proof fn lemma_children_of_all_parent(self, nodes: Seq<usize>, c: usize)
        requires
            self.well_formed(),
            forall|i: int| 0 <= i < nodes.len() ==> (#[trigger] nodes[i]) < self.len(),
            self.children_of_all(nodes).contains(c),
        ensures
            c < self.len(),
            self.parent[c as int] is Some,
            nodes.contains(self.parent[c as int].unwrap()),
        decreases nodes.len(),
    {
        let all = self.children_of_all(nodes);
        let k = choose|k: int| 0 <= k < all.len() && all[k] == c;
        if nodes.len() > 0 {
            let front = nodes.drop_last();
            let last = nodes.last();
            let head = self.children_of_all(front);
            if k < head.len() {
                self.lemma_children_of_all_parent(front, c);
            } else {
                self.lemma_child(last as int, c);
            }
        }
    }

    /// The children of distinct nodes are distinct.
    pub proof fn lemma_children_of_all_distinct(self, nodes: Seq<usize>)
        requires
            self.well_formed(),
            nodes.no_duplicates(),
            forall|i: int| 0 <= i < nodes.len() ==> (#[trigger] nodes[i]) < self.len(),
        ensures
            self.children_of_all(nodes).no_duplicates(),
        decreases nodes.len(),
    {
        if nodes.len() > 0 {
            let front = nodes.drop_last();
            let last = nodes.last();
            let head = self.children_of_all(front);
            let all = self.children_of_all(nodes);
            self.lemma_children_of_all_distinct(front);
            assert forall|a: int, b: int|
                0 <= a < all.len() && 0 <= b < all.len() && a != b implies all[a] != all[b] by {
                if a < head.len() && b >= head.len() {
                    self.lemma_distinct_parts(nodes, a, b);
                } else if b < head.len() && a >= head.len() {
                    self.lemma_distinct_parts(nodes, b, a);
                }
            }
        }
    }

    /// A child of one of the first nodes of a list is no child of the last.
    proof fn lemma_distinct_parts(self, nodes: Seq<usize>, a: int, b: int)
        requires
            self.well_formed(),
            nodes.no_duplicates(),
            nodes.len() > 0,
            forall|i: int| 0 <= i < nodes.len() ==> (#[trigger] nodes[i]) < self.len(),
            0 <= a < self.children_of_all(nodes.drop_last()).len(),
            self.children_of_all(nodes.drop_last()).len() <= b < self.children_of_all(nodes).len(),
        ensures
            self.children_of_all(nodes)[a] != self.children_of_all(nodes)[b],
    {
        let front = nodes.drop_last();
        let last = nodes.last();
        let head = self.children_of_all(front);
        let x = head[a];
        self.lemma_children_of_all_parent(front, x);
        let y = self.children[last as int][b - head.len()];
        self.lemma_child(last as int, y);
    }

    /// No node occurs twice in a level.
    pub proof fn lemma_level_nodes_distinct(self, k: nat)
        requires
            self.well_formed(),
        ensures
            self.level_nodes(k).no_duplicates(),
        decreases k,
    {
        if k > 0 {
            let above = (k - 1) as nat;
            self.lemma_level_nodes_distinct(above);
            self.lemma_level_nodes_levels(above);
            self.lemma_children_of_all_distinct(self.level_nodes(above));
        }
    }

    /// Every node occurs in the level that its own level names.
    pub proof fn lemma_node_in_its_level(self, i: int)
        requires
            self.well_formed(),
            0 <= i < self.len(),
        ensures
            self.level_nodes(self.level[i]).contains(i as usize),
        decreases self.level[i],
    {
        if i == 0 {
            assert(self.level_nodes(0)[0] == 0usize);
        } else {
            assert(self.hangs(i));
            let p = self.parent[i].unwrap();
            self.lemma_node_in_its_level(p as int);
            self.lemma_children_of_all_has(
                self.level_nodes(self.level[p as int]),
                p,
                i as usize,
            );
        }
    }

    /// The first `k` levels of the walk hold every node of a level below
    /// `k`, each once and with its level.
    pub proof fn lemma_walk_upto(self, k: nat)
        requires
            self.well_formed(),
        ensures
            forall|a: int|
                0 <= a < self.walk_upto(k).len() ==> (#[trigger] self.walk_upto(k)[a]).0
                    < self.len() && self.walk_upto(k)[a].1 == self.level[self.walk_upto(
                    k,
                )[a].0 as int] && self.level[self.walk_upto(k)[a].0 as int] < k,
            forall|a: int, b: int|
                0 <= a < b < self.walk_upto(k).len() ==> (#[trigger] self.walk_upto(k)[a]).0 != (
                #[trigger] self.walk_upto(k)[b]).0,
            forall|i: int|
                0 <= i < self.len() && self.level[i] < k ==> self.walk_upto(k).contains(
                    (i as usize, #[trigger] self.level[i] as usize),
                ),
        decreases k,
    {
        if k > 0 {
            let above = (k - 1) as nat;
            self.lemma_walk_upto(above);
            self.lemma_level_nodes_levels(above);
            self.lemma_level_nodes_distinct(above);
            let head = self.walk_upto(above);
            let level = self.level_nodes(above);
            let tail = tagged(level, above);
            let all = self.walk_upto(k);
            assert forall|i: int| 0 <= i < self.len() && self.level[i] < k implies all.contains(
                (i as usize, #[trigger] self.level[i] as usize),
            ) by {
                if self.level[i] < above {
                    let m = choose|m: int|
                        0 <= m < head.len() && head[m] == (i as usize, self.level[i] as usize);
                    assert(all[m] == head[m]);
                } else {
                    self.lemma_node_in_its_level(i);
                    let m = choose|m: int| 0 <= m < level.len() && level[m] == i as usize;
                    assert(all[head.len() + m] == tail[m]);
                }
            }
        }
    }

    /// The walk of a tree passes every node exactly once, and the level it
    /// gives with a node is the node's level.
    pub proof fn lemma_walk_permutes(self)
        requires
            self.well_formed(),
        ensures
            self.walk().len() == self.len(),
            forall|a: int|
                0 <= a < self.walk().len() ==> (#[trigger] self.walk()[a]).0 < self.len()
                    && self.walk()[a].1 == self.level[self.walk()[a].0 as int],
            forall|a: int, b: int|
                0 <= a < b < self.walk().len() ==> (#[trigger] self.walk()[a]).0 != (
                #[trigger] self.walk()[b]).0,
            forall|i: int|
                0 <= i < self.len() ==> self.walk().contains(
                    (i as usize, #[trigger] self.level[i] as usize),
                ),
    {
        let walk = self.walk();
        self.lemma_walk_upto(self.len());
        let nodes = Seq::new(walk.len(), |a: int| walk[a].0 as int);
        assert(nodes.to_set() =~= set_int_range(0, self.len() as int)) by {
            assert forall|i: int| 0 <= i < self.len() implies nodes.to_set().contains(i) by {
                let m = choose|m: int|
                    0 <= m < walk.len() && walk[m] == (i as usize, self.level[i] as usize);
                assert(nodes[m] == i);
            }
        }
        nodes.unique_seq_to_set();
        lemma_int_range(0, self.len() as int);
    }

    /// The first levels of the walk go level by level.
    pub proof fn lemma_walk_rises(self, k: nat)
        requires
            self.well_formed(),
        ensures
            forall|a: int|
                0 <= a < self.walk_upto(k).len() ==> (#[trigger] self.walk_upto(k)[a]).1 < k,
            forall|a: int, b: int|
                0 <= a < b < self.walk_upto(k).len() ==> (#[trigger] self.walk_upto(k)[a]).1 <= (
                #[trigger] self.walk_upto(k)[b]).1,
        decreases k,
    {
        if k > 0 {
            let above = (k - 1) as nat;
            self.lemma_walk_rises(above);
            self.lemma_level_nodes_levels(above);
            let head = self.walk_upto(above);
            let all = self.walk_upto(k);
            assert forall|a: int| 0 <= a < all.len() implies (#[trigger] all[a]).1 < k by {
            }
            assert forall|a: int, b: int| 0 <= a < b < all.len() implies (#[trigger] all[a]).1 <= (
            #[trigger] all[b]).1 by {
            }
        }
    }

    /// The walk through more levels starts as the walk through fewer does.
    pub proof fn lemma_walk_starts(self, k: nat, later: nat)
        requires
            k <= later,
        ensures
            self.walk_upto(k).len() <= self.walk_upto(later).len(),
            forall|a: int|
                0 <= a < self.walk_upto(k).len() ==> self.walk_upto(later)[a]
                    == #[trigger] self.walk_upto(k)[a],
        decreases later - k,
    {
        if later > k {
            self.lemma_walk_starts(k, (later - 1) as nat);
        }
    }

    /// Below an empty level every level is empty, and the walk is over.
    pub proof fn lemma_levels_run_out(self, k: nat, later: nat)
        requires
            self.level_nodes(k).len() == 0,
            k <= later,
        ensures
            self.level_nodes(later).len() == 0,
            self.walk_upto(later) == self.walk_upto(k),
        decreases later - k,
    {
        if later > k {
            let before = (later - 1) as nat;
            self.lemma_levels_run_out(k, before);
        }
    }
}

} // verus!
