use syntax_select::range::{Direction, Range};
use syntax_select::selection::Selection;
use syntax_select::tree::SyntaxTree;

fn spans(selection: &Selection) -> Vec<(usize, usize)> {
    selection.ranges().iter().map(|r| (r.anchor, r.head)).collect()
}

#[test]
fn range_ends_and_direction() {
    let forward = Range::new(2, 7);
    let backward = Range::new(7, 2);
    let point = Range::point(4);
    assert_eq!((forward.from(), forward.to(), forward.direction()), (2, 7, Direction::Forward));
    assert_eq!((backward.from(), backward.to(), backward.direction()), (2, 7, Direction::Backward));
    assert_eq!((point.from(), point.to(), point.direction()), (4, 4, Direction::Forward));
    assert_eq!(backward.with_extent(1, 3), Range::new(3, 1));
    assert_eq!(forward.with_extent(1, 3), Range::new(1, 3));
    assert_eq!(point.with_extent(1, 3), Range::new(1, 3));
}

#[test]
fn range_overlaps() {
    let range = Range::new(2, 7);
    assert!(range.overlaps(&Range::new(6, 9)));
    assert!(range.overlaps(&Range::new(9, 6)));
    assert!(!range.overlaps(&Range::new(7, 9)));
    assert!(!range.overlaps(&Range::new(0, 2)));
    assert!(range.overlaps(&Range::point(2)));
    assert!(range.overlaps(&Range::point(5)));
    assert!(!range.overlaps(&Range::point(7)));
    assert!(Range::point(7).overlaps(&Range::point(7)));
    assert!(!Range::point(7).overlaps(&Range::point(8)));
}

#[test]
fn range_merge() {
    assert_eq!(Range::new(2, 7).merge(Range::new(5, 9)), Range::new(2, 9));
    assert_eq!(Range::new(7, 2).merge(Range::new(9, 5)), Range::new(9, 2));
    assert_eq!(Range::new(7, 2).merge(Range::new(5, 9)), Range::new(2, 9));
    assert_eq!(Range::new(2, 7).merge(Range::new(9, 5)), Range::new(2, 9));
    assert_eq!(Range::new(5, 9).merge(Range::new(2, 7)), Range::new(2, 9));
    assert_eq!(Range::new(2, 9).merge(Range::new(4, 5)), Range::new(2, 9));
}

#[test]
fn selection_needs_a_primary_range() {
    assert!(Selection::new(vec![], 0).is_none());
    assert!(Selection::new(vec![Range::new(1, 2)], 1).is_none());
    let one = Selection::new(vec![Range::new(2, 1)], 0).expect("a primary range");
    assert_eq!(spans(&one), vec![(2, 1)]);
    assert_eq!(one.primary(), Range::new(2, 1));
    assert_eq!(one.len(), 1);
    let single = Selection::single(3, 9);
    assert_eq!(spans(&single), vec![(3, 9)]);
    assert_eq!(single.primary_index(), 0);
}

#[test]
fn selection_is_put_in_order() {
    let selection = Selection::new(vec![Range::new(20, 22), Range::new(1, 3), Range::new(12, 10)], 0)
        .expect("a primary range");
    assert_eq!(spans(&selection), vec![(1, 3), (12, 10), (20, 22)]);
    assert_eq!(selection.primary_index(), 2);
    assert_eq!(selection.primary(), Range::new(20, 22));
}

#[test]
fn selection_joins_what_touches() {
    let selection = Selection::new(
        vec![Range::new(10, 14), Range::new(1, 3), Range::new(2, 5), Range::new(12, 11), Range::new(5, 6)],
        3,
    )
    .expect("a primary range");
    assert_eq!(spans(&selection), vec![(1, 5), (5, 6), (10, 14)]);
    assert_eq!(selection.primary_index(), 2);
    let backward = Selection::new(vec![Range::new(5, 2), Range::new(3, 1), Range::new(9, 9)], 1)
        .expect("a primary range");
    assert_eq!(spans(&backward), vec![(5, 1), (9, 9)]);
    assert_eq!(backward.primary_index(), 0);
    let same = Selection::new(vec![Range::new(4, 5), Range::new(4, 5), Range::new(4, 5)], 2)
        .expect("a primary range");
    assert_eq!(spans(&same), vec![(4, 5)]);
    assert_eq!(same.primary_index(), 0);
    let chain = Selection::new(vec![Range::new(6, 9), Range::new(0, 4), Range::new(3, 7)], 0)
        .expect("a primary range");
    assert_eq!(spans(&chain), vec![(0, 9)]);
}

#[test]
fn selection_keeps_cursors_at_the_ends_apart() {
    let selection = Selection::new(vec![Range::new(0, 3), Range::point(3), Range::new(3, 5)], 1)
        .expect("a primary range");
    assert_eq!(spans(&selection), vec![(0, 3), (3, 5)]);
    assert_eq!(selection.primary_index(), 1);
    let selection = Selection::new(vec![Range::new(3, 5), Range::point(5)], 1).expect("a primary range");
    assert_eq!(spans(&selection), vec![(3, 5), (5, 5)]);
    assert_eq!(selection.primary_index(), 1);
}

#[test]
fn selection_in_order_stays_as_it_is() {
    let ranges = vec![Range::new(1, 3), Range::new(5, 3), Range::point(5), Range::new(6, 8)];
    let selection = Selection::new(ranges.clone(), 2).expect("a primary range");
    assert_eq!(selection.ranges(), &ranges);
    assert_eq!(selection.primary_index(), 2);
}

#[test]
fn tree_takes_children_that_nest() {
    assert!(SyntaxTree::new(3, 2, true).is_none());
    let mut tree = SyntaxTree::new(2, 20, true).expect("a root");
    assert_eq!(tree.len(), 1);
    assert_eq!(tree.root(), 0);
    assert_eq!(tree.add_child(1, 2, 3, true), None);
    assert_eq!(tree.add_child(0, 1, 3, true), None);
    assert_eq!(tree.add_child(0, 18, 21, true), None);
    assert_eq!(tree.add_child(0, 5, 4, true), None);
    assert_eq!(tree.len(), 1);
    assert_eq!(tree.add_child(0, 2, 8, false), Some(1));
    assert_eq!(tree.add_child(0, 7, 9, true), None);
    assert_eq!(tree.add_child(0, 8, 8, true), Some(2));
    assert_eq!(tree.add_child(0, 8, 20, true), Some(3));
    assert_eq!(tree.add_child(1, 2, 8, true), Some(4));
    assert_eq!(tree.add_child(0, 20, 20, true), Some(5));
    assert_eq!(tree.len(), 6);
    assert_eq!(tree.child_count(0), 4);
    assert_eq!(tree.child_count(1), 1);
    assert_eq!(tree.child_count(9), 0);
    assert_eq!(tree.child(0, 2), Some(3));
    assert_eq!(tree.child(0, 4), None);
    assert_eq!(tree.child(9, 0), None);
    assert_eq!(tree.parent(4), Some(1));
    assert_eq!(tree.parent(0), None);
    assert_eq!(tree.parent(9), None);
    assert_eq!(tree.byte_range(3), Some((8, 20)));
    assert_eq!(tree.byte_range(6), None);
    assert_eq!(tree.named_children(0), vec![2, 3, 5]);
    assert_eq!(tree.named_children(4), Vec::<usize>::new());
    assert_eq!(tree.named_children(9), Vec::<usize>::new());
    let node = tree.node(4).expect("node 4");
    assert_eq!((node.start_byte, node.end_byte, node.named, node.parent, node.position), (2, 8, true, Some(1), 0));
    assert_eq!(tree.node(0).expect("the root").children, vec![1, 2, 3, 5]);
    assert!(tree.node(6).is_none());
}

#[test]
fn tree_finds_the_smallest_node_over_a_range() {
    let mut tree = SyntaxTree::new(0, 20, true).expect("a root");
    tree.add_child(0, 0, 8, true);
    tree.add_child(0, 8, 20, true);
    tree.add_child(1, 0, 8, true);
    tree.add_child(3, 2, 4, true);
    tree.add_child(2, 8, 8, true);
    tree.add_child(2, 8, 12, true);
    assert_eq!(tree.descendant_for_byte_range(2, 4), Some(4));
    assert_eq!(tree.descendant_for_byte_range(3, 3), Some(4));
    assert_eq!(tree.descendant_for_byte_range(4, 4), Some(3));
    assert_eq!(tree.descendant_for_byte_range(0, 8), Some(3));
    assert_eq!(tree.descendant_for_byte_range(7, 9), Some(0));
    // A node that ends at the start of the range does not hold it.
    assert_eq!(tree.descendant_for_byte_range(8, 8), Some(6));
    assert_eq!(tree.descendant_for_byte_range(8, 12), Some(6));
    assert_eq!(tree.descendant_for_byte_range(12, 12), Some(2));
    assert_eq!(tree.descendant_for_byte_range(20, 20), Some(0));
    assert_eq!(tree.descendant_for_byte_range(0, 21), None);
    assert_eq!(tree.descendant_for_byte_range(21, 21), None);
    assert_eq!(tree.descendant_for_byte_range(5, 4), None);
}

#[test]
fn tree_steps_between_named_siblings() {
    let mut tree = SyntaxTree::new(0, 20, true).expect("a root");
    tree.add_child(0, 0, 2, true);
    tree.add_child(0, 2, 4, false);
    tree.add_child(0, 4, 6, false);
    tree.add_child(0, 6, 8, true);
    tree.add_child(0, 8, 9, false);
    assert_eq!(tree.next_named_sibling(1), Some(4));
    assert_eq!(tree.next_named_sibling(2), Some(4));
    assert_eq!(tree.next_named_sibling(4), None);
    assert_eq!(tree.next_named_sibling(5), None);
    assert_eq!(tree.prev_named_sibling(4), Some(1));
    assert_eq!(tree.prev_named_sibling(5), Some(4));
    assert_eq!(tree.prev_named_sibling(1), None);
    assert_eq!(tree.prev_named_sibling(0), None);
    assert_eq!(tree.next_named_sibling(0), None);
    assert_eq!(tree.next_named_sibling(9), None);
}
