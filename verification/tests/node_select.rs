use ropey::Rope;
use syntax_select::object::{
    choose_node, covering_node, expand_range, expand_selection, find_parent_with_more_children,
    find_sibling_recursive, range_of_node, select_all_in_range, select_children, select_node,
    select_node_impl, select_sibling, shrink_selection, NodeChoice, SiblingStep,
};
use syntax_select::parse_tree::snapshot;
use syntax_select::range::Range;
use syntax_select::selection::Selection;
use syntax_select::tree::SyntaxTree;

const CALL: &str = "let foo = bar(a, b, c);\n";

fn rust_tree(text: &str) -> SyntaxTree {
    let mut parser = tree_sitter::Parser::new();
    parser.set_language(tree_sitter_rust::language()).expect("the grammar loads");
    let tree = parser.parse(text, None).expect("the text parses");
    snapshot(&tree).expect("the nodes nest")
}

/// The tree of `bar(a, b, c)`: a call with a name and a list of arguments.
fn call_tree() -> SyntaxTree {
    let mut tree = SyntaxTree::new(0, 12, true).expect("a root");
    assert_eq!(tree.add_child(0, 0, 3, true), Some(1));
    assert_eq!(tree.add_child(0, 3, 12, true), Some(2));
    assert_eq!(tree.add_child(2, 3, 4, false), Some(3));
    assert_eq!(tree.add_child(2, 4, 5, true), Some(4));
    assert_eq!(tree.add_child(2, 5, 6, false), Some(5));
    assert_eq!(tree.add_child(2, 7, 8, true), Some(6));
    assert_eq!(tree.add_child(2, 8, 9, false), Some(7));
    assert_eq!(tree.add_child(2, 10, 11, true), Some(8));
    assert_eq!(tree.add_child(2, 11, 12, false), Some(9));
    tree
}

fn spans(selection: &Selection) -> Vec<(usize, usize)> {
    selection.ranges().iter().map(|r| (r.anchor, r.head)).collect()
}

#[test]
fn expand_climbs_to_the_next_larger_node() {
    let tree = rust_tree(CALL);
    let text = Rope::from_str(CALL);
    // `a`, the arguments, the call, the declaration, the file.
    let mut range = Range::new(14, 15);
    let mut seen = vec![];
    for _ in 0..6 {
        range = expand_range(&tree, &text, range);
        seen.push((range.anchor, range.head));
    }
    assert_eq!(seen, vec![(13, 22), (10, 22), (0, 23), (0, 24), (0, 24), (0, 24)]);
}

#[test]
fn expand_from_a_cursor_selects_the_node_under_it() {
    let tree = rust_tree(CALL);
    let text = Rope::from_str(CALL);
    assert_eq!(expand_range(&tree, &text, Range::point(11)), Range::new(10, 13));
    assert_eq!(expand_range(&tree, &text, Range::new(17, 17)), Range::new(17, 18));
}

#[test]
fn expand_keeps_the_direction() {
    let tree = rust_tree(CALL);
    let text = Rope::from_str(CALL);
    assert_eq!(expand_range(&tree, &text, Range::new(15, 14)), Range::new(22, 13));
    assert_eq!(expand_range(&tree, &text, Range::new(24, 0)), Range::new(24, 0));
}

#[test]
fn expand_never_spans_less() {
    let tree = rust_tree(CALL);
    let text = Rope::from_str(CALL);
    for from in 0..=24 {
        for to in from..=24 {
            for range in [Range::new(from, to), Range::new(to, from)] {
                let out = expand_range(&tree, &text, range);
                assert!(out.from() <= from && to <= out.to());
                assert!(out.from() == out.to() || (out.head < out.anchor) == (range.head < range.anchor));
                let again = expand_range(&tree, &text, out);
                assert!(again.from() <= out.from() && out.to() <= again.to());
            }
        }
    }
}

#[test]
fn expand_leaves_a_range_beyond_the_text() {
    let tree = rust_tree(CALL);
    let text = Rope::from_str(CALL);
    assert_eq!(expand_range(&tree, &text, Range::new(14, 25)), Range::new(14, 25));
    assert_eq!(expand_range(&tree, &text, Range::new(30, 25)), Range::new(30, 25));
}

#[test]
fn expand_leaves_a_range_that_no_node_covers() {
    let tree = SyntaxTree::new(2, 5, true).expect("a root");
    let text = Rope::from_str("abcdefgh");
    assert_eq!(expand_range(&tree, &text, Range::new(0, 3)), Range::new(0, 3));
    assert_eq!(expand_range(&tree, &text, Range::new(4, 6)), Range::new(4, 6));
    assert_eq!(expand_range(&tree, &text, Range::new(3, 4)), Range::new(2, 5));
}

#[test]
fn expand_leaves_a_range_under_a_node_beyond_the_text() {
    let tree = call_tree();
    let short = Rope::from_str("bar(a, b");
    assert_eq!(expand_range(&tree, &short, Range::new(4, 5)), Range::new(4, 5));
    assert_eq!(select_node(&tree, &short, Range::new(3, 8), NodeChoice::FirstChild), Range::new(3, 4));
}

#[test]
fn expand_counts_characters_not_bytes() {
    // `é` takes two bytes: the string literal runs from byte 8 to byte 13.
    let source = "let a = \"\u{e9}\u{e9}\";\n";
    let tree = rust_tree(source);
    let text = Rope::from_str(source);
    assert_eq!(expand_range(&tree, &text, Range::new(9, 10)), Range::new(8, 12));
    assert_eq!(expand_range(&tree, &text, Range::new(8, 12)), Range::new(0, 13));
    assert_eq!(expand_range(&tree, &text, Range::new(13, 0)), Range::new(14, 0));
}

#[test]
fn shrink_selects_the_first_child() {
    let tree = rust_tree(CALL);
    let text = Rope::from_str(CALL);
    let selection = Selection::single(13, 22);
    let shrunk = shrink_selection(&tree, &text, selection);
    assert_eq!(spans(&shrunk), vec![(13, 14)]);
    // A node without children stays selected.
    let shrunk = shrink_selection(&tree, &text, Selection::single(15, 14));
    assert_eq!(spans(&shrunk), vec![(15, 14)]);
    let shrunk = shrink_selection(&tree, &text, Selection::single(23, 0));
    assert_eq!(spans(&shrunk), vec![(3, 0)]);
}

#[test]
fn shrink_after_expand_selects_the_first_child_of_the_root() {
    // The file is as large as its only statement; the statement is the
    // smallest node that covers the whole text.
    let source = "bar(a, b, c);";
    let tree = rust_tree(source);
    let text = Rope::from_str(source);
    let whole = Selection::single(0, 13);
    let expanded = expand_selection(&tree, &text, whole);
    assert_eq!(spans(&expanded), vec![(0, 13)]);
    let shrunk = shrink_selection(&tree, &text, expanded);
    assert_eq!(spans(&shrunk), vec![(0, 12)]);
}

#[test]
fn expand_selection_joins_what_touches() {
    let tree = rust_tree(CALL);
    let text = Rope::from_str(CALL);
    let selection = Selection::new(vec![Range::new(14, 15), Range::new(17, 18), Range::new(4, 7)], 1)
        .expect("a primary range");
    let expanded = expand_selection(&tree, &text, selection);
    assert_eq!(spans(&expanded), vec![(0, 23)]);
    assert_eq!(expanded.primary_index(), 0);
    let selection = Selection::new(vec![Range::new(18, 17), Range::new(11, 10)], 0).expect("a primary range");
    let expanded = expand_selection(&tree, &text, selection);
    assert_eq!(spans(&expanded), vec![(13, 10), (22, 13)]);
    assert_eq!(expanded.primary_index(), 1);
}

#[test]
fn sibling_is_looked_for_above() {
    let tree = rust_tree(CALL);
    let text = Rope::from_str(CALL);
    let next = select_sibling(&tree, &text, Selection::single(14, 15), SiblingStep::Next);
    assert_eq!(spans(&next), vec![(17, 18)]);
    let previous = select_sibling(&tree, &text, Selection::single(18, 17), SiblingStep::Previous);
    assert_eq!(spans(&previous), vec![(15, 14)]);
    // `bar` has no earlier sibling, nor has the call; the name of the
    // variable stands before the call.
    let previous = select_sibling(&tree, &text, Selection::single(10, 13), SiblingStep::Previous);
    assert_eq!(spans(&previous), vec![(4, 7)]);
    // Behind `c` there is nothing, up to the root.
    let next = select_sibling(&tree, &text, Selection::single(20, 21), SiblingStep::Next);
    assert_eq!(spans(&next), vec![(20, 21)]);
    let both = Selection::new(vec![Range::new(14, 15), Range::new(17, 18)], 0).expect("a primary range");
    let next = select_sibling(&tree, &text, both, SiblingStep::Next);
    assert_eq!(spans(&next), vec![(17, 18), (20, 21)]);
    assert_eq!(next.primary_index(), 0);
}

#[test]
fn sibling_skips_nodes_without_a_name() {
    let tree = call_tree();
    assert_eq!(find_sibling_recursive(&tree, 4, NodeChoice::NextSibling), Some(6));
    assert_eq!(find_sibling_recursive(&tree, 5, NodeChoice::NextSibling), Some(6));
    assert_eq!(find_sibling_recursive(&tree, 8, NodeChoice::NextSibling), None);
    assert_eq!(find_sibling_recursive(&tree, 8, NodeChoice::PrevSibling), Some(6));
    assert_eq!(find_sibling_recursive(&tree, 4, NodeChoice::PrevSibling), Some(1));
    assert_eq!(find_sibling_recursive(&tree, 3, NodeChoice::PrevSibling), Some(1));
    assert_eq!(find_sibling_recursive(&tree, 1, NodeChoice::PrevSibling), None);
    assert_eq!(find_sibling_recursive(&tree, 0, NodeChoice::NextSibling), None);
    assert_eq!(find_sibling_recursive(&tree, 99, NodeChoice::NextSibling), None);
}

#[test]
fn parent_with_more_children_is_looked_for_above() {
    let mut tree = SyntaxTree::new(0, 9, true).expect("a root");
    tree.add_child(0, 0, 4, true);
    tree.add_child(0, 5, 9, true);
    tree.add_child(2, 5, 9, true);
    tree.add_child(3, 6, 8, true);
    assert_eq!(find_parent_with_more_children(&tree, 4), Some(0));
    assert_eq!(find_parent_with_more_children(&tree, 2), Some(0));
    assert_eq!(find_parent_with_more_children(&tree, 0), None);
    assert_eq!(find_parent_with_more_children(&tree, 7), None);
    let mut chain = SyntaxTree::new(0, 9, true).expect("a root");
    chain.add_child(0, 0, 9, true);
    chain.add_child(1, 0, 9, true);
    assert_eq!(find_parent_with_more_children(&chain, 2), None);
}

#[test]
fn covering_node_is_the_smallest() {
    let tree = call_tree();
    let text = Rope::from_str("bar(a, b, c)");
    assert_eq!(covering_node(&tree, &text, Range::new(4, 5)), Some((4, 4, 5)));
    assert_eq!(covering_node(&tree, &text, Range::new(5, 4)), Some((4, 4, 5)));
    assert_eq!(covering_node(&tree, &text, Range::new(4, 8)), Some((2, 4, 8)));
    assert_eq!(covering_node(&tree, &text, Range::new(2, 5)), Some((0, 2, 5)));
    assert_eq!(covering_node(&tree, &text, Range::point(6)), Some((2, 6, 6)));
    assert_eq!(covering_node(&tree, &text, Range::point(12)), Some((0, 12, 12)));
    assert_eq!(covering_node(&tree, &text, Range::point(13)), None);
    let narrow = SyntaxTree::new(2, 5, true).expect("a root");
    assert_eq!(covering_node(&narrow, &text, Range::new(1, 3)), None);
}

#[test]
fn chosen_node_by_choice() {
    let tree = call_tree();
    assert_eq!(choose_node(&tree, 4, 4, 5, NodeChoice::Parent), Some(2));
    assert_eq!(choose_node(&tree, 4, 4, 4, NodeChoice::Parent), Some(4));
    assert_eq!(choose_node(&tree, 0, 0, 12, NodeChoice::Parent), None);
    assert_eq!(choose_node(&tree, 2, 3, 12, NodeChoice::FirstChild), Some(3));
    assert_eq!(choose_node(&tree, 4, 4, 5, NodeChoice::FirstChild), Some(4));
    assert_eq!(choose_node(&tree, 4, 4, 5, NodeChoice::NextSibling), Some(6));
    assert_eq!(choose_node(&tree, 6, 7, 8, NodeChoice::PrevSibling), Some(4));
}

#[test]
fn range_of_node_points_as_the_range_does() {
    let tree = call_tree();
    let text = Rope::from_str("bar(a, b, c)");
    assert_eq!(range_of_node(&tree, &text, 2, Range::new(0, 1)), Range::new(3, 12));
    assert_eq!(range_of_node(&tree, &text, 2, Range::new(1, 0)), Range::new(12, 3));
    assert_eq!(range_of_node(&tree, &text, 2, Range::point(1)), Range::new(3, 12));
    assert_eq!(range_of_node(&tree, &text, 42, Range::new(1, 0)), Range::new(1, 0));
    let short = Rope::from_str("bar(a");
    assert_eq!(range_of_node(&tree, &short, 2, Range::new(1, 0)), Range::new(1, 0));
    assert_eq!(range_of_node(&tree, &short, 4, Range::new(1, 0)), Range::new(5, 4));
}

#[test]
fn children_are_counted_by_name() {
    let tree = call_tree();
    let text = Rope::from_str("bar(a, b, c)");
    let forward = Range::new(0, 1);
    assert_eq!(
        select_children(&tree, &text, 2, forward),
        Some(vec![Range::new(4, 5), Range::new(7, 8), Range::new(10, 11)])
    );
    assert_eq!(select_children(&tree, &text, 0, forward), Some(vec![Range::new(0, 3), Range::new(3, 12)]));
    assert_eq!(select_children(&tree, &text, 4, forward), None);
    let short = Rope::from_str("bar(a, b, c");
    assert_eq!(select_children(&tree, &short, 2, forward), None);
    let mut unnamed = SyntaxTree::new(0, 2, true).expect("a root");
    unnamed.add_child(0, 0, 1, false);
    unnamed.add_child(0, 1, 2, false);
    assert_eq!(select_children(&unnamed, &text, 0, forward), None);
    assert_eq!(select_all_in_range(&unnamed, &text, Range::new(1, 0), true), vec![Range::new(1, 0)]);
    assert_eq!(select_all_in_range(&unnamed, &text, Range::new(2, 0), false), vec![Range::new(2, 0)]);
}

#[test]
fn fan_out_of_one_range() {
    let tree = call_tree();
    let text = Rope::from_str("bar(a, b, c)");
    let items = vec![Range::new(5, 4), Range::new(8, 7), Range::new(11, 10)];
    assert_eq!(select_all_in_range(&tree, &text, Range::new(8, 7), true), items);
    assert_eq!(select_all_in_range(&tree, &text, Range::new(12, 3), false), items);
    assert_eq!(select_all_in_range(&tree, &text, Range::new(7, 8), false), vec![Range::new(7, 8)]);
    assert_eq!(
        select_all_in_range(&tree, &text, Range::new(3, 12), true),
        vec![Range::new(0, 3), Range::new(3, 12)]
    );
    assert_eq!(select_all_in_range(&tree, &text, Range::new(0, 12), true), vec![Range::new(0, 12)]);
    assert_eq!(select_all_in_range(&tree, &text, Range::new(0, 13), true), vec![Range::new(0, 13)]);
}

#[test]
fn node_impl_moves_every_range() {
    let tree = call_tree();
    let text = Rope::from_str("bar(a, b, c)");
    let selection = Selection::new(vec![Range::new(1, 2), Range::new(7, 8)], 1).expect("a primary range");
    let moved = select_node_impl(&tree, &text, selection.clone(), NodeChoice::Parent);
    assert_eq!(spans(&moved), vec![(0, 3), (3, 12)]);
    assert_eq!(moved.primary_index(), 1);
    let moved = select_node_impl(&tree, &text, selection.clone(), NodeChoice::PrevSibling);
    assert_eq!(spans(&moved), vec![(1, 2), (4, 5)]);
    // The arguments, next to `bar`, take in `c`, next to `b`.
    let moved = select_node_impl(&tree, &text, selection, NodeChoice::NextSibling);
    assert_eq!(spans(&moved), vec![(3, 12)]);
    assert_eq!(moved.primary_index(), 0);
}

#[test]
fn node_that_ends_within_a_character() {
    // Four bytes, two characters: byte 1 belongs to the first character,
    // byte 3 to the second.
    let text = Rope::from_str("\u{e9}\u{e9}");
    let mut tree = SyntaxTree::new(0, 4, true).expect("a root");
    assert_eq!(tree.add_child(0, 1, 3, true), Some(1));
    assert_eq!(range_of_node(&tree, &text, 1, Range::new(0, 0)), Range::new(0, 1));
    assert_eq!(range_of_node(&tree, &text, 0, Range::new(1, 0)), Range::new(2, 0));
    assert_eq!(covering_node(&tree, &text, Range::new(1, 2)), Some((0, 2, 4)));
    assert_eq!(covering_node(&tree, &text, Range::new(0, 1)), Some((0, 0, 2)));
}

#[test]
fn range_over_an_empty_node_has_no_direction() {
    let text = Rope::from_str("abcd");
    let mut tree = SyntaxTree::new(0, 4, true).expect("a root");
    assert_eq!(tree.add_child(0, 2, 2, true), Some(1));
    assert_eq!(select_all_in_range(&tree, &text, Range::new(4, 0), false), vec![Range::new(2, 2)]);
    assert_eq!(select_node(&tree, &text, Range::new(4, 0), NodeChoice::FirstChild), Range::new(2, 2));
}
