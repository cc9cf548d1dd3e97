use calendar_overlap::algo::calendar_block::{
    move_block, sort_blocks, CalendarBlock, CalendarBlockType,
};
use calendar_overlap::algo::calendar_tree::CalendarBlockTree;
use calendar_overlap::algo::calendar_trie::CalendarTrie;

fn busy(id: u128, start_minute: u32, end_minute: u32) -> CalendarBlock {
    CalendarBlock {
        id,
        start_minute,
        end_minute,
        block_type: CalendarBlockType::Busy,
        subtree_depth: 0,
        label: format!("block {id}"),
    }
}

fn a_day() -> Vec<CalendarBlock> {
    vec![
        busy(1, 330, 630),
        busy(2, 350, 390),
        busy(3, 350, 380),
        busy(4, 405, 465),
        busy(5, 405, 430),
        busy(6, 435, 510),
        busy(7, 450, 630),
    ]
}

fn ids(blocks: &[CalendarBlock]) -> Vec<u128> {
    blocks.iter().map(|block| block.id).collect()
}

fn longest_chain(tree: &CalendarBlockTree, node: usize) -> usize {
    tree.children_of(node)
        .into_iter()
        .map(|child| 1 + longest_chain(tree, child))
        .max()
        .unwrap_or(0)
}

fn overlap_either_way(a: &CalendarBlock, b: &CalendarBlock) -> bool {
    a.does_overlap(b.clone()).is_some() || b.does_overlap(a.clone()).is_some()
}

#[test]
fn sorting_puts_earlier_starts_first_and_longer_blocks_before_shorter() {
    let blocks = vec![busy(1, 10, 20), busy(2, 5, 50), busy(3, 10, 30), busy(4, 0, 1)];
    assert_eq!(ids(&sort_blocks(&blocks)), vec![4, 2, 3, 1]);
}

#[test]
fn sorting_keeps_blocks_with_the_same_span_in_the_order_given() {
    let blocks = vec![busy(1, 5, 50), busy(2, 0, 9), busy(3, 5, 50), busy(4, 5, 50)];
    assert_eq!(ids(&sort_blocks(&blocks)), vec![2, 1, 3, 4]);
}

#[test]
fn sorting_keeps_every_block_as_it_is() {
    let blocks = vec![busy(1, 10, 20), busy(2, 5, 50)];
    let sorted = sort_blocks(&blocks);
    assert_eq!(sorted.len(), 2);
    assert_eq!(sorted[0], blocks[1]);
    assert_eq!(sorted[1], blocks[0]);
    assert_eq!(sort_blocks(&Vec::new()), Vec::new());
}

#[test]
fn sorting_a_sorted_day_changes_nothing() {
    let day = a_day();
    assert_eq!(ids(&sort_blocks(&day)), vec![1, 2, 3, 4, 5, 6, 7]);
    let mut reversed = a_day();
    reversed.reverse();
    assert_eq!(ids(&sort_blocks(&reversed)), vec![1, 2, 3, 4, 5, 6, 7]);
}

#[test]
fn adding_all_is_adding_one_after_the_other() {
    let mut blocks = a_day();
    blocks.insert(3, busy(8, 100, 100));
    let mut all_at_once = CalendarBlockTree::new();
    all_at_once.add_all(&blocks);
    let mut one_by_one = CalendarBlockTree::new();
    for block in &blocks {
        let _ = one_by_one.add(block.clone(), None);
    }
    assert_eq!(all_at_once.len(), 8);
    assert_eq!(one_by_one.len(), 8);
    for node in 0..8 {
        assert_eq!(all_at_once.children_of(node), one_by_one.children_of(node));
        assert_eq!(all_at_once.parent_of(node), one_by_one.parent_of(node));
    }
    for node in 1..8 {
        assert_eq!(all_at_once.block_of(node), one_by_one.block_of(node));
    }
}

#[test]
fn a_sorted_day_stacks_as_the_calendar_shows_it() {
    let mut trie = CalendarTrie::new();
    trie.add_all(&sort_blocks(&a_day()));
    let entries = trie.traverse();
    let walk: Vec<(u128, usize, usize)> = entries[1..]
        .iter()
        .map(|entry| (entry.block.id, entry.stack_position, entry.subtree_depth))
        .collect();
    assert_eq!(
        walk,
        vec![(1, 1, 3), (4, 2, 2), (2, 2, 1), (6, 3, 1), (5, 3, 0), (3, 3, 0), (7, 4, 0)]
    );
    assert_eq!(entries[0].stack_position, 0);
    assert_eq!(entries[0].subtree_depth, 4);
}

#[test]
fn blocks_that_come_in_order_leave_exact_depths() {
    let mut tree = CalendarBlockTree::new();
    tree.add_all(&sort_blocks(&a_day()));
    for node in 0..tree.len() {
        assert_eq!(tree.block_of(node).subtree_depth, longest_chain(&tree, node));
    }
}

#[test]
fn blocks_that_come_in_order_overlap_every_block_above_them() {
    let mut tree = CalendarBlockTree::new();
    tree.add_all(&sort_blocks(&a_day()));
    for node in 1..tree.len() {
        let block = tree.block_of(node);
        let mut above = tree.parent_of(node);
        while let Some(ancestor) = above {
            if ancestor != 0 {
                assert!(overlap_either_way(&block, &tree.block_of(ancestor)));
            }
            above = tree.parent_of(ancestor);
        }
    }
}

#[test]
fn a_block_that_takes_others_below_itself_notes_the_chain_below_it() {
    let mut tree = CalendarBlockTree::new();
    tree.add(busy(1, 10, 180), None).unwrap();
    tree.add(busy(2, 20, 90), None).unwrap();
    tree.add(busy(3, 20, 110), None).unwrap();
    assert_eq!(tree.children_of(3), vec![2]);
    assert_eq!(tree.block_of(3).subtree_depth, 1);
    assert_eq!(tree.block_of(1).subtree_depth, 2);
    assert_eq!(tree.block_of(0).subtree_depth, 3);
    for node in 0..tree.len() {
        assert_eq!(tree.block_of(node).subtree_depth, longest_chain(&tree, node));
    }
}

#[test]
fn a_container_that_takes_deep_blocks_below_itself_keeps_depths_exact() {
    let mut tree = CalendarBlockTree::new();
    tree.add(busy(1, 10, 180), None).unwrap();
    tree.add(busy(2, 20, 90), None).unwrap();
    tree.add(busy(3, 30, 40), None).unwrap();
    tree.add(busy(4, 100, 110), None).unwrap();
    tree.add(busy(5, 100, 105), None).unwrap();
    tree.add(busy(6, 101, 102), None).unwrap();
    tree.add(busy(7, 20, 100), None).unwrap();
    assert_eq!(tree.children_of(7), vec![4, 2]);
    assert_eq!(tree.children_of(1), vec![7]);
    assert_eq!(tree.block_of(7).subtree_depth, 3);
    assert_eq!(tree.block_of(1).subtree_depth, 4);
    assert_eq!(tree.block_of(0).subtree_depth, 5);
    for node in 0..tree.len() {
        assert_eq!(tree.block_of(node).subtree_depth, longest_chain(&tree, node));
    }
}

#[test]
fn blocks_in_any_order_leave_exact_depths() {
    let day = a_day();
    let orders: [[usize; 7]; 5] = [
        [6, 5, 4, 3, 2, 1, 0],
        [3, 0, 6, 1, 5, 2, 4],
        [2, 1, 0, 6, 5, 4, 3],
        [5, 3, 1, 0, 2, 4, 6],
        [0, 6, 1, 5, 2, 4, 3],
    ];
    for order in orders {
        let blocks: Vec<CalendarBlock> = order.iter().map(|&at| day[at].clone()).collect();
        let mut tree = CalendarBlockTree::new();
        tree.add_all(&blocks);
        assert_eq!(tree.len(), 8);
        for node in 0..tree.len() {
            assert_eq!(tree.block_of(node).subtree_depth, longest_chain(&tree, node));
        }
        let entries = tree.traverse();
        let greatest = entries.iter().map(|entry| entry.stack_position).max().unwrap();
        assert_eq!(greatest, entries[0].block.subtree_depth);
        for entry in &entries {
            assert!(entry.stack_position + entry.subtree_depth <= entries[0].subtree_depth);
        }
        let mut ids: Vec<u128> = entries.iter().map(|entry| entry.block.id).collect();
        ids.sort();
        let mut expected = vec![1, 2, 3, 4, 5, 6, 7, entries[0].block.id];
        expected.sort();
        assert_eq!(ids, expected);
    }
}

#[test]
fn moving_a_block_keeps_its_length_and_the_other_blocks() {
    let blocks = vec![busy(1, 10, 20), busy(2, 30, 45), busy(3, 50, 60)];
    let moved = move_block(&blocks, 2, 30, 45, 100);
    assert_eq!(moved.len(), 3);
    assert_eq!(moved[0], blocks[0]);
    assert_eq!(moved[2], blocks[2]);
    let mut expected = busy(2, 100, 115);
    expected.label = String::from("block 2");
    assert_eq!(moved[1], expected);
}

#[test]
fn moving_a_block_that_is_not_there_changes_nothing() {
    let blocks = vec![busy(1, 10, 20), busy(2, 30, 45)];
    assert_eq!(move_block(&blocks, 9, 0, 1440, 7), blocks);
    assert_eq!(move_block(&Vec::new(), 9, 0, 1440, 7), Vec::new());
}

#[test]
fn moving_goes_by_the_span_given_and_keeps_the_depth() {
    let mut deep = busy(1, 10, 20);
    deep.subtree_depth = 3;
    let moved = move_block(&vec![deep, busy(1, 0, 5)], 1, 100, 130, u32::MAX - 30);
    assert_eq!(moved[0].start_minute, u32::MAX - 30);
    assert_eq!(moved[0].end_minute, u32::MAX);
    assert_eq!(moved[0].subtree_depth, 3);
    assert_eq!(moved[1].start_minute, u32::MAX - 30);
    assert_eq!(moved[1].end_minute, u32::MAX);
}

#[test]
fn a_block_can_come_to_lie_above_a_block_that_it_does_not_overlap() {
    let mut tree = CalendarBlockTree::new();
    tree.add(busy(1, 10, 20), None).unwrap();
    tree.add(busy(2, 15, 18), None).unwrap();
    tree.add(busy(3, 0, 12), None).unwrap();
    assert_eq!(tree.parent_of(2), Some(1));
    assert_eq!(tree.parent_of(1), Some(3));
    assert!(!overlap_either_way(&tree.block_of(3), &tree.block_of(2)));
    assert!(overlap_either_way(&tree.block_of(3), &tree.block_of(1)));
    assert!(overlap_either_way(&tree.block_of(1), &tree.block_of(2)));
}
