use syntax_select::parse_tree::{node_text, snapshot};

fn parse(text: &str) -> tree_sitter::Tree {
    let mut parser = tree_sitter::Parser::new();
    parser.set_language(tree_sitter_rust::language()).expect("the grammar loads");
    parser.parse(text, None).expect("the text parses")
}

/// What a walk over the nodes gives, written down in the order of the walk.
fn walk(node: tree_sitter::Node, parent: Option<usize>, out: &mut Vec<(usize, usize, bool, Option<usize>)>) {
    let id = out.len();
    out.push((node.start_byte(), node.end_byte(), node.is_named(), parent));
    for i in 0..node.child_count() {
        walk(node.child(i).expect("a child"), Some(id), out);
    }
}

#[test]
fn snapshot_holds_every_node() {
    let source = "fn main() {\n    let a = [1, 2];\n    call(a, \"\u{e9}\");\n}\n\nstruct S;\n";
    let parsed = parse(source);
    let tree = snapshot(&parsed).expect("the nodes nest");
    let mut expected = vec![];
    walk(parsed.root_node(), None, &mut expected);
    assert_eq!(tree.len(), expected.len());
    for (id, (start, end, named, parent)) in expected.iter().enumerate() {
        let node = tree.node(id).expect("a node");
        assert_eq!((node.start_byte, node.end_byte, node.named, node.parent), (*start, *end, *named, *parent));
    }
    let root = parsed.root_node();
    assert_eq!(tree.child_count(0), root.child_count());
    for i in 0..root.child_count() {
        let child = tree.child(0, i).expect("a child");
        assert_eq!(tree.byte_range(child), Some((root.child(i).unwrap().start_byte(), root.child(i).unwrap().end_byte())));
        assert_eq!(tree.node(child).expect("a node").position, i);
    }
}

#[test]
fn snapshot_answers_as_the_parser_does() {
    let source = "fn main() {\n    let a = [1, 2];\n    call(a, b);\n}\n";
    let parsed = parse(source);
    let tree = snapshot(&parsed).expect("the nodes nest");
    let root = parsed.root_node();
    for from in 0..=source.len() {
        for to in from..=source.len() {
            let found = tree.descendant_for_byte_range(from, to).expect("the file covers the range");
            let expected = root.descendant_for_byte_range(from, to).expect("a node");
            assert_eq!(tree.byte_range(found), Some((expected.start_byte(), expected.end_byte())));
            assert_eq!(tree.node(found).unwrap().named, expected.is_named());
            assert_eq!(tree.child_count(found), expected.child_count());
            assert_eq!(tree.named_children(found).len(), expected.named_child_count());
            let next = tree.next_named_sibling(found).map(|n| tree.byte_range(n).unwrap());
            assert_eq!(next, expected.next_named_sibling().map(|n| (n.start_byte(), n.end_byte())));
            let previous = tree.prev_named_sibling(found).map(|n| tree.byte_range(n).unwrap());
            assert_eq!(previous, expected.prev_named_sibling().map(|n| (n.start_byte(), n.end_byte())));
        }
    }
}

#[test]
fn snapshot_of_an_empty_text() {
    let parsed = parse("");
    let tree = snapshot(&parsed).expect("the nodes nest");
    assert_eq!(tree.len(), 1);
    assert_eq!(tree.byte_range(0), Some((0, 0)));
    assert_eq!(tree.descendant_for_byte_range(0, 0), Some(0));
}

#[test]
fn node_text_within_the_source() {
    let source = "hello".as_bytes();
    assert_eq!(node_text(source, 1, 3), "el".as_bytes());
    assert_eq!(node_text(source, 0, 5), source);
    assert_eq!(node_text(source, 5, 5), "".as_bytes());
    assert_eq!(node_text(source, 3, 6), "".as_bytes());
    assert_eq!(node_text(source, 4, 2), "".as_bytes());
}
