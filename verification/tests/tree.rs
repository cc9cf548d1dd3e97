use calendar_overlap::algo::calendar_block::{CalendarBlock, CalendarBlockType};
use calendar_overlap::algo::calendar_tree::{
    CalendarBlockTree, FlattenedCalendarBlock, InsertError,
};
use calendar_overlap::algo::calendar_trie::CalendarTrie;

fn block(id: u128, start_minute: u32, end_minute: u32, block_type: CalendarBlockType) -> CalendarBlock {
    CalendarBlock {
        id,
        start_minute,
        end_minute,
        block_type,
        subtree_depth: 0,
        label: format!("block {id}"),
    }
}

fn busy(id: u128, start_minute: u32, end_minute: u32) -> CalendarBlock {
    block(id, start_minute, end_minute, CalendarBlockType::Busy)
}

fn calibration_tree() -> CalendarBlockTree {
    let mut tree = CalendarBlockTree::new();
    assert_eq!(tree.add(block(1, 10, 180, CalendarBlockType::Available), None), Ok(()));
    assert_eq!(tree.add(busy(2, 20, 90), None), Ok(()));
    assert_eq!(tree.add(busy(3, 20, 90), None), Ok(()));
    assert_eq!(tree.add(busy(4, 20, 110), None), Ok(()));
    assert_eq!(tree.add(busy(5, 140, 155), None), Ok(()));
    tree
}

fn walk(entries: &[FlattenedCalendarBlock]) -> Vec<(u128, usize, usize)> {
    entries
        .iter()
        .map(|entry| (entry.block.id, entry.stack_position, entry.subtree_depth))
        .collect()
}

#[test]
fn a_new_tree_holds_the_root_alone() {
    let tree = CalendarBlockTree::new();
    assert_eq!(tree.len(), 1);
    assert_eq!(tree.parent_of(0), None);
    assert_eq!(tree.children_of(0), Vec::<usize>::new());
    let entries = tree.traverse();
    assert_eq!(entries.len(), 1);
    let root = &entries[0];
    assert_eq!(root.stack_position, 0);
    assert_eq!(root.subtree_depth, 0);
    assert_eq!(root.block.start_minute, 0);
    assert_eq!(root.block.end_minute, 1440);
    assert_eq!(root.block.block_type, CalendarBlockType::Wrapper);
    assert_eq!(root.block.subtree_depth, 0);
    assert_eq!(root.block.label, "Today's Date");
    assert_eq!(tree.block_of(0), root.block);
}

#[test]
fn the_root_has_a_random_identifier() {
    let tree = CalendarBlockTree::new();
    let id = tree.block_of(0).id;
    assert_eq!(uuid::Uuid::from_u128(id).get_version_num(), 4);
    assert_eq!(id & 0x0000_0000_0000_f000_c000_0000_0000_0000, 0x0000_0000_0000_4000_8000_0000_0000_0000);
    let other = CalendarBlockTree::new();
    assert_ne!(other.block_of(0).id, id);
}

#[test]
fn the_calibration_scenario_has_the_shape_that_insertion_gives_it() {
    let tree = calibration_tree();
    assert_eq!(tree.len(), 6);
    assert_eq!(tree.children_of(0), vec![1]);
    assert_eq!(tree.children_of(1), vec![5, 4]);
    assert_eq!(tree.children_of(4), vec![2]);
    assert_eq!(tree.children_of(2), vec![3]);
    assert_eq!(tree.children_of(3), Vec::<usize>::new());
    assert_eq!(tree.children_of(5), Vec::<usize>::new());
    assert_eq!(tree.parent_of(0), None);
    assert_eq!(tree.parent_of(1), Some(0));
    assert_eq!(tree.parent_of(2), Some(4));
    assert_eq!(tree.parent_of(3), Some(2));
    assert_eq!(tree.parent_of(4), Some(1));
    assert_eq!(tree.parent_of(5), Some(1));
    for node in 1..6 {
        assert_eq!(tree.block_of(node).id, node as u128);
    }
}

#[test]
fn the_calibration_scenario_flattens_level_by_level() {
    let tree = calibration_tree();
    let root_id = tree.block_of(0).id;
    assert_eq!(
        walk(&tree.traverse()),
        vec![(root_id, 0, 4), (1, 1, 3), (5, 2, 0), (4, 2, 2), (2, 3, 1), (3, 4, 0)]
    );
}

#[test]
fn the_calibration_scenario_step_by_step() {
    let mut tree = CalendarBlockTree::new();
    let root_id = tree.block_of(0).id;
    tree.add(block(1, 10, 180, CalendarBlockType::Available), None).unwrap();
    assert_eq!(walk(&tree.traverse()), vec![(root_id, 0, 1), (1, 1, 0)]);
    tree.add(busy(2, 20, 90), None).unwrap();
    assert_eq!(walk(&tree.traverse()), vec![(root_id, 0, 2), (1, 1, 1), (2, 2, 0)]);
    tree.add(busy(3, 20, 90), None).unwrap();
    assert_eq!(
        walk(&tree.traverse()),
        vec![(root_id, 0, 3), (1, 1, 2), (2, 2, 1), (3, 3, 0)]
    );
    tree.add(busy(4, 20, 110), None).unwrap();
    assert_eq!(
        walk(&tree.traverse()),
        vec![(root_id, 0, 4), (1, 1, 3), (4, 2, 2), (2, 3, 1), (3, 4, 0)]
    );
    tree.add(busy(5, 140, 155), None).unwrap();
    assert_eq!(
        walk(&tree.traverse()),
        vec![(root_id, 0, 4), (1, 1, 3), (5, 2, 0), (4, 2, 2), (2, 3, 1), (3, 4, 0)]
    );
}

#[test]
fn flatten_lists_every_block_once_and_the_root() {
    let tree = calibration_tree();
    let entries = tree.traverse();
    assert_eq!(entries.len(), 6);
    let mut ids: Vec<u128> = entries.iter().map(|entry| entry.block.id).collect();
    ids.sort();
    let mut expected = vec![1, 2, 3, 4, 5, tree.block_of(0).id];
    expected.sort();
    assert_eq!(ids, expected);
}

#[test]
fn flatten_twice_gives_the_same_list() {
    let tree = calibration_tree();
    assert_eq!(tree.traverse(), tree.traverse());
}

#[test]
fn flatten_copies_the_blocks() {
    let tree = calibration_tree();
    let entries = tree.traverse();
    assert_eq!(entries[1].block.start_minute, 10);
    assert_eq!(entries[1].block.end_minute, 180);
    assert_eq!(entries[1].block.block_type, CalendarBlockType::Available);
    assert_eq!(entries[1].block.label, "block 1");
    assert_eq!(entries[1].block.subtree_depth, 3);
    assert_eq!(entries[1].subtree_depth, 3);
}

#[test]
fn a_block_that_ends_where_it_starts_is_refused() {
    let mut tree = calibration_tree();
    let before = tree.traverse();
    assert_eq!(tree.add(busy(9, 30, 30), None), Err(InsertError::InvalidInterval));
    assert_eq!(tree.len(), 6);
    assert_eq!(tree.traverse(), before);
}

#[test]
fn a_block_that_ends_before_it_starts_is_refused() {
    let mut tree = CalendarBlockTree::new();
    assert_eq!(tree.add(busy(9, 31, 30), None), Err(InsertError::InvalidInterval));
    assert_eq!(tree.len(), 1);
    assert_eq!(tree.traverse().len(), 1);
}

#[test]
fn touching_blocks_stay_siblings_when_the_earlier_comes_first() {
    let mut tree = CalendarBlockTree::new();
    tree.add(busy(1, 0, 10), None).unwrap();
    tree.add(busy(2, 10, 20), None).unwrap();
    assert_eq!(tree.children_of(0), vec![2, 1]);
    assert_eq!(tree.parent_of(1), Some(0));
    assert_eq!(tree.parent_of(2), Some(0));
    let root_id = tree.block_of(0).id;
    assert_eq!(walk(&tree.traverse()), vec![(root_id, 0, 1), (2, 1, 0), (1, 1, 0)]);
}

#[test]
fn a_block_that_ends_where_an_earlier_one_starts_takes_it_below_itself() {
    let mut tree = CalendarBlockTree::new();
    tree.add(busy(1, 10, 20), None).unwrap();
    tree.add(busy(2, 0, 10), None).unwrap();
    assert_eq!(tree.children_of(0), vec![2]);
    assert_eq!(tree.children_of(2), vec![1]);
    assert_eq!(tree.parent_of(1), Some(2));
}

#[test]
fn disjoint_blocks_are_children_of_the_root() {
    let mut tree = CalendarBlockTree::new();
    tree.add(busy(1, 0, 10), None).unwrap();
    tree.add(busy(2, 20, 30), None).unwrap();
    tree.add(busy(3, 40, 50), None).unwrap();
    assert_eq!(tree.children_of(0), vec![3, 2, 1]);
    let root_id = tree.block_of(0).id;
    assert_eq!(
        walk(&tree.traverse()),
        vec![(root_id, 0, 1), (3, 1, 0), (2, 1, 0), (1, 1, 0)]
    );
}

#[test]
fn a_container_takes_several_siblings_below_itself_in_their_order() {
    let mut tree = CalendarBlockTree::new();
    tree.add(busy(1, 10, 20), None).unwrap();
    tree.add(busy(2, 30, 40), None).unwrap();
    tree.add(busy(3, 200, 210), None).unwrap();
    tree.add(busy(4, 50, 60), None).unwrap();
    assert_eq!(tree.children_of(0), vec![4, 3, 2, 1]);
    tree.add(busy(5, 5, 100), None).unwrap();
    assert_eq!(tree.children_of(0), vec![5, 3]);
    assert_eq!(tree.children_of(5), vec![4, 2, 1]);
    assert_eq!(tree.parent_of(1), Some(5));
    assert_eq!(tree.parent_of(2), Some(5));
    assert_eq!(tree.parent_of(3), Some(0));
    assert_eq!(tree.parent_of(4), Some(5));
    assert_eq!(tree.parent_of(5), Some(0));
    let root_id = tree.block_of(0).id;
    assert_eq!(
        walk(&tree.traverse()),
        vec![(root_id, 0, 2), (5, 1, 1), (3, 1, 0), (4, 2, 0), (2, 2, 0), (1, 2, 0)]
    );
}

#[test]
fn displaced_blocks_take_their_descendants_along() {
    let mut tree = CalendarBlockTree::new();
    tree.add(busy(1, 10, 20), None).unwrap();
    tree.add(busy(2, 15, 18), None).unwrap();
    tree.add(busy(3, 0, 12), None).unwrap();
    assert_eq!(tree.children_of(0), vec![3]);
    assert_eq!(tree.children_of(3), vec![1]);
    assert_eq!(tree.children_of(1), vec![2]);
    let root_id = tree.block_of(0).id;
    assert_eq!(
        walk(&tree.traverse()),
        vec![(root_id, 0, 3), (3, 1, 2), (1, 2, 1), (2, 3, 0)]
    );
}

#[test]
fn the_scan_steps_into_the_first_child_that_swallows_the_block() {
    let mut tree = CalendarBlockTree::new();
    tree.add(busy(1, 0, 100), None).unwrap();
    tree.add(busy(2, 0, 100), Some(0)).unwrap();
    assert_eq!(tree.parent_of(2), Some(1));
    tree.add(busy(3, 50, 200), Some(0)).unwrap();
    assert_eq!(tree.parent_of(3), Some(2));
}

#[test]
fn depths_count_the_longest_chain_when_blocks_come_in_order() {
    let mut tree = CalendarBlockTree::new();
    tree.add(busy(1, 0, 100), None).unwrap();
    tree.add(busy(2, 10, 90), None).unwrap();
    tree.add(busy(3, 20, 80), None).unwrap();
    tree.add(busy(4, 200, 300), None).unwrap();
    tree.add(busy(5, 210, 220), None).unwrap();
    let root_id = tree.block_of(0).id;
    assert_eq!(
        walk(&tree.traverse()),
        vec![(root_id, 0, 3), (4, 1, 1), (1, 1, 2), (5, 2, 0), (2, 2, 1), (3, 3, 0)]
    );
}

#[test]
fn a_depth_that_is_already_noted_stops_the_walk_to_the_root() {
    let mut tree = CalendarBlockTree::new();
    tree.add(busy(1, 0, 100), None).unwrap();
    tree.add(busy(2, 10, 90), None).unwrap();
    tree.add(busy(3, 20, 30), None).unwrap();
    tree.add(busy(4, 95, 99), None).unwrap();
    assert_eq!(tree.block_of(0).subtree_depth, 3);
    assert_eq!(tree.block_of(1).subtree_depth, 2);
    assert_eq!(tree.block_of(2).subtree_depth, 1);
    assert_eq!(tree.block_of(3).subtree_depth, 0);
    assert_eq!(tree.block_of(4).subtree_depth, 0);
    assert_eq!(tree.parent_of(4), Some(1));
}

#[test]
fn a_block_keeps_the_depth_it_came_with_and_its_parent_notes_one_more() {
    let mut tree = CalendarBlockTree::new();
    let mut deep = busy(1, 0, 100);
    deep.subtree_depth = 7;
    tree.add(deep, None).unwrap();
    assert_eq!(tree.block_of(1).subtree_depth, 7);
    assert_eq!(tree.block_of(0).subtree_depth, 8);
}

#[test]
fn a_block_can_enter_below_a_node_that_does_not_overlap_it() {
    let mut tree = CalendarBlockTree::new();
    tree.add(busy(1, 0, 10), None).unwrap();
    tree.add(busy(2, 500, 600), Some(1)).unwrap();
    assert_eq!(tree.parent_of(2), Some(1));
    assert_eq!(tree.children_of(1), vec![2]);
    assert_eq!(tree.block_of(1).subtree_depth, 1);
    assert_eq!(tree.block_of(0).subtree_depth, 2);
}

#[test]
fn a_second_block_with_the_same_identifier_replaces_the_attributes() {
    let mut tree = CalendarBlockTree::new();
    tree.add(busy(1, 0, 10), None).unwrap();
    tree.add(busy(1, 20, 30), None).unwrap();
    assert_eq!(tree.len(), 3);
    assert_eq!(tree.block_of(1).start_minute, 20);
    assert_eq!(tree.block_of(2).start_minute, 20);
    assert_eq!(tree.traverse().len(), 3);
}

#[test]
fn display_renders_nodes_and_edges() {
    let tree = calibration_tree();
    let root = uuid::Uuid::from_u128(tree.block_of(0).id);
    let mut expected = String::from("digraph {\n");
    expected.push_str(&format!("    0 [ label = \"{root}\" ]\n"));
    for node in 1..6 {
        expected.push_str(&format!(
            "    {node} [ label = \"00000000-0000-0000-0000-00000000000{node}\" ]\n"
        ));
    }
    for (from, to) in [(0, 1), (1, 4), (2, 3), (4, 2), (1, 5)] {
        expected.push_str(&format!("    {from} -> {to} [ label = \"1\" ]\n"));
    }
    expected.push_str("}\n");
    assert_eq!(tree.display(), expected);
}

#[test]
fn display_of_a_new_tree_shows_the_root() {
    let tree = CalendarBlockTree::new();
    let root = uuid::Uuid::from_u128(tree.block_of(0).id);
    assert_eq!(
        tree.display(),
        format!("digraph {{\n    0 [ label = \"{root}\" ]\n}}\n")
    );
}

#[test]
fn a_trie_behaves_as_the_tree_does() {
    let mut trie = CalendarTrie::new();
    assert_eq!(trie.traverse().len(), 1);
    trie.add(block(1, 10, 180, CalendarBlockType::Available), None).unwrap();
    trie.add(busy(2, 20, 90), None).unwrap();
    trie.add(busy(3, 20, 110), None).unwrap();
    assert_eq!(trie.add(busy(4, 5, 5), None), Err(InsertError::InvalidInterval));
    let entries = trie.traverse();
    let root_id = entries[0].block.id;
    assert_eq!(walk(&entries), vec![(root_id, 0, 3), (1, 1, 2), (3, 2, 1), (2, 3, 0)]);
    let root = uuid::Uuid::from_u128(root_id);
    let mut expected = String::from("digraph {\n");
    expected.push_str(&format!("    0 [ label = \"{root}\" ]\n"));
    for node in 1..4 {
        expected.push_str(&format!(
            "    {node} [ label = \"00000000-0000-0000-0000-00000000000{node}\" ]\n"
        ));
    }
    for (from, to) in [(0, 1), (1, 3), (3, 2)] {
        expected.push_str(&format!("    {from} -> {to} [ label = \"1\" ]\n"));
    }
    expected.push_str("}\n");
    assert_eq!(trie.display(), expected);
}

#[test]
fn a_block_beyond_the_end_of_the_day_hangs_below_the_root() {
    let mut tree = CalendarBlockTree::new();
    tree.add(busy(1, 1440, 1500), None).unwrap();
    tree.add(busy(2, 2000, 3000), None).unwrap();
    tree.add(busy(3, 1450, 1460), None).unwrap();
    assert_eq!(tree.parent_of(1), Some(0));
    assert_eq!(tree.parent_of(2), Some(0));
    assert_eq!(tree.parent_of(3), Some(1));
}

#[test]
fn depths_never_get_less() {
    let mut tree = CalendarBlockTree::new();
    let mut deep = busy(1, 0, 100);
    deep.subtree_depth = 5;
    tree.add(deep, None).unwrap();
    tree.add(busy(2, 10, 20), None).unwrap();
    tree.add(busy(3, 11, 12), None).unwrap();
    assert_eq!(tree.block_of(1).subtree_depth, 5);
    assert_eq!(tree.block_of(2).subtree_depth, 1);
    assert_eq!(tree.block_of(0).subtree_depth, 6);
}

#[test]
fn a_container_that_comes_late_notes_the_chain_below_it() {
    let mut tree = CalendarBlockTree::new();
    tree.add(busy(1, 20, 30), None).unwrap();
    tree.add(busy(2, 10, 40), None).unwrap();
    let entries = tree.traverse();
    let spans: Vec<(u32, u32, usize, usize)> = entries
        .iter()
        .map(|entry| {
            (
                entry.block.start_minute,
                entry.block.end_minute,
                entry.stack_position,
                entry.subtree_depth,
            )
        })
        .collect();
    assert_eq!(spans, vec![(0, 1440, 0, 2), (10, 40, 1, 1), (20, 30, 2, 0)]);
}

#[test]
fn a_depth_at_the_largest_number_stays_there() {
    let mut tree = CalendarBlockTree::new();
    let mut deep = busy(1, 20, 30);
    deep.subtree_depth = usize::MAX;
    tree.add(deep, None).unwrap();
    assert_eq!(tree.block_of(1).subtree_depth, usize::MAX);
    assert_eq!(tree.block_of(0).subtree_depth, usize::MAX);
    tree.add(busy(2, 10, 40), None).unwrap();
    assert_eq!(tree.parent_of(1), Some(2));
    assert_eq!(tree.block_of(2).subtree_depth, usize::MAX);
}

#[test]
fn a_tree_can_start_from_a_given_root_identifier() {
    let tree = CalendarBlockTree::with_root_id(42);
    assert_eq!(tree.len(), 1);
    let root = tree.block_of(0);
    assert_eq!(root.id, 42);
    assert_eq!(root.start_minute, 0);
    assert_eq!(root.end_minute, 1440);
    assert_eq!(root.block_type, CalendarBlockType::Wrapper);
    assert_eq!(root.subtree_depth, 0);
    assert_eq!(root.label, "Today's Date");
    assert_eq!(
        tree.display(),
        "digraph {\n    0 [ label = \"00000000-0000-0000-0000-00000000002a\" ]\n}\n"
    );
}
