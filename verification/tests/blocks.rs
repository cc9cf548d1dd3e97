use calendar_overlap::algo::calendar_block::{CalendarBlock, CalendarBlockOverlap, CalendarBlockType};

fn span(start_minute: u32, end_minute: u32) -> CalendarBlock {
    CalendarBlock {
        id: 7,
        start_minute,
        end_minute,
        block_type: CalendarBlockType::Busy,
        subtree_depth: 0,
        label: String::from("span"),
    }
}

#[test]
fn a_block_that_starts_where_the_other_ends_does_not_overlap() {
    assert_eq!(span(10, 20).does_overlap(span(0, 10)), None);
}

#[test]
fn a_block_that_ends_where_the_other_starts_overlaps() {
    assert_eq!(
        span(0, 10).does_overlap(span(10, 20)),
        Some(CalendarBlockOverlap::Swallows)
    );
}

#[test]
fn a_block_that_ends_before_the_other_starts_does_not_overlap() {
    assert_eq!(span(0, 9).does_overlap(span(10, 20)), None);
}

#[test]
fn a_block_that_starts_just_before_the_other_ends_overlaps() {
    assert_eq!(
        span(9, 20).does_overlap(span(0, 10)),
        Some(CalendarBlockOverlap::GetsSwallowed)
    );
}

#[test]
fn a_block_that_starts_after_the_other_ends_does_not_overlap() {
    assert_eq!(span(11, 20).does_overlap(span(0, 10)), None);
}

#[test]
fn the_later_start_is_the_inner_block() {
    assert_eq!(
        span(20, 90).does_overlap(span(10, 180)),
        Some(CalendarBlockOverlap::GetsSwallowed)
    );
    assert_eq!(
        span(10, 180).does_overlap(span(20, 90)),
        Some(CalendarBlockOverlap::Swallows)
    );
}

#[test]
fn the_later_start_is_the_inner_block_even_where_it_ends_later() {
    assert_eq!(
        span(5, 100).does_overlap(span(0, 10)),
        Some(CalendarBlockOverlap::GetsSwallowed)
    );
    assert_eq!(
        span(0, 10).does_overlap(span(5, 100)),
        Some(CalendarBlockOverlap::Swallows)
    );
}

#[test]
fn of_two_blocks_that_start_together_the_shorter_is_the_inner() {
    assert_eq!(
        span(20, 90).does_overlap(span(20, 110)),
        Some(CalendarBlockOverlap::GetsSwallowed)
    );
    assert_eq!(
        span(20, 110).does_overlap(span(20, 90)),
        Some(CalendarBlockOverlap::Swallows)
    );
}

#[test]
fn equal_spans_swallow_each_other() {
    assert_eq!(
        span(20, 90).does_overlap(span(20, 90)),
        Some(CalendarBlockOverlap::GetsSwallowed)
    );
}

#[test]
fn does_overlap_ignores_everything_but_the_span() {
    let mut other = span(20, 90);
    other.id = 99;
    other.block_type = CalendarBlockType::Available;
    other.subtree_depth = 4;
    other.label = String::from("other");
    assert_eq!(
        span(30, 40).does_overlap(other),
        Some(CalendarBlockOverlap::GetsSwallowed)
    );
}

#[test]
fn block_types_have_their_names() {
    assert_eq!(CalendarBlockType::Wrapper.to_string(), "Wrapper");
    assert_eq!(CalendarBlockType::Busy.to_string(), "Busy");
    assert_eq!(CalendarBlockType::Available.to_string(), "Available");
}

#[test]
fn the_earlier_start_sorts_first() {
    assert!(span(10, 20).sorts_before(&span(11, 12)));
    assert!(!span(11, 12).sorts_before(&span(10, 20)));
}

#[test]
fn of_equal_starts_the_longer_sorts_first() {
    assert!(span(10, 30).sorts_before(&span(10, 20)));
    assert!(!span(10, 20).sorts_before(&span(10, 30)));
    assert!(span(10, 20).sorts_before(&span(10, 20)));
}

#[test]
fn a_clone_equals_its_original() {
    let block = span(3, 4);
    assert_eq!(block.clone(), block);
}
