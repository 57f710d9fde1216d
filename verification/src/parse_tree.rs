//! What the library asks of the parser: the extents of nodes, and the
//! matches of a query. The parse tree, its nodes and the query are values of
//! `tree_sitter`; nothing is known of what they hold but what the calls below
//! hand back.
use crate::context::{Capture, ContextMatch};
use crate::tree::{node_ok, well_formed, SyntaxNode, SyntaxTree};
use tree_sitter::{Node, Query, Tree, TreeCursor};
use vstd::prelude::*;
use vstd::slice::slice_subrange;

verus! {

/// `tree_sitter::Tree`, a parse tree.
#[verifier::external_type_specification]
#[verifier::external_body]
pub struct ExTree(tree_sitter::Tree);

/// `tree_sitter::Query`, a compiled query.
#[verifier::external_type_specification]
#[verifier::external_body]
pub struct ExQuery(tree_sitter::Query);

/// `tree_sitter::Node`, a node of a parse tree.
#[verifier::external_type_specification]
#[verifier::external_body]
pub struct ExNode<'a>(tree_sitter::Node<'a>);

/// `tree_sitter::TreeCursor`, a place in a parse tree that can be moved.
#[verifier::external_type_specification]
#[verifier::external_body]
pub struct ExTreeCursor<'a>(tree_sitter::TreeCursor<'a>);

/// The bytes of `source` from `start` up to `end`, or nothing where the
/// text has no such bytes.
pub fn node_text(source: &[u8], start: usize, end: usize) -> (r: &[u8])
    ensures
        r@ == if start <= end <= source@.len() {
            source@.subrange(start as int, end as int)
        } else {
            Seq::<u8>::empty()
        },
{
    if start <= end && end <= source.len() {
        slice_subrange(source, start, end)
    } else {
        slice_subrange(source, 0, 0)
    }
}

/// `Node::start_byte`, `Node::end_byte`, `Node::start_position` and
/// `Node::end_position`: the extent of a node in bytes and rows. Nothing is
/// claimed of the numbers.
#[verifier::external_body]
pub(crate) fn capture_of(node: &Node) -> Capture {
    Capture {
        start_byte: node.start_byte(),
        end_byte: node.end_byte(),
        start_row: node.start_position().row,
        end_row: node.end_position().row,
    }
}

/// `Query::capture_index_for_name`: the index of the capture of that name,
/// if the query has one. Nothing is claimed of the index.
#[verifier::external_body]
pub(crate) fn capture_index(query: &Query, name: &str) -> Option<u32> {
    query.capture_index_for_name(name)
}

/// `QueryCursor::matches` on the root of `tree`, with the cursor limited by
/// `QueryCursor::set_byte_range` to the bytes before `scan_end`: of every
/// match, in the order in which they are found, the nodes that
/// `QueryMatch::nodes_for_capture_index` gives for the two captures. Nothing
/// is claimed of the matches.
#[verifier::external_body]
pub(crate) fn context_matches(
    query: &Query,
    tree: &Tree,
    source: &[u8],
    scan_end: usize,
    context_index: u32,
    end_index: u32,
) -> Vec<ContextMatch> {
    let mut cursor = tree_sitter::QueryCursor::new();
    cursor.set_byte_range(0..scan_end);
    let provider = |n: Node| std::iter::once(node_text(source, n.start_byte(), n.end_byte()));
    cursor.matches(query, tree.root_node(), provider).map(|m| ContextMatch {
        contexts: m.nodes_for_capture_index(context_index).map(|n| capture_of(&n)).collect(),
        ends: m.nodes_for_capture_index(end_index).map(|n| capture_of(&n)).collect(),
    }).collect()
}

/// `Tree::walk`: a cursor that stands on the root of the tree.
#[verifier::external_body]
pub(crate) fn walk(tree: &Tree) -> TreeCursor<'_> {
    tree.walk()
}

/// `TreeCursor::node`: the node on which the cursor stands.
#[verifier::external_body]
pub(crate) fn cursor_node<'a>(cursor: &TreeCursor<'a>) -> Node<'a> {
    cursor.node()
}

/// `Node::is_named`: whether the grammar names the node.
#[verifier::external_body]
pub(crate) fn node_is_named(node: &Node) -> bool {
    node.is_named()
}

/// `TreeCursor::goto_first_child`: moves the cursor to the first child of
/// its node and says whether there was one.
#[verifier::external_body]
pub(crate) fn goto_first_child(cursor: &mut TreeCursor) -> bool {
    cursor.goto_first_child()
}

/// `TreeCursor::goto_next_sibling`: moves the cursor to the next sibling of
/// its node and says whether there was one.
#[verifier::external_body]
pub(crate) fn goto_next_sibling(cursor: &mut TreeCursor) -> bool {
    cursor.goto_next_sibling()
}

/// `TreeCursor::goto_parent`: moves the cursor to the parent of its node
/// and says whether there was one.
#[verifier::external_body]
pub(crate) fn goto_parent(cursor: &mut TreeCursor) -> bool {
    cursor.goto_parent()
}

/// The node under which a cursor's node is added, where the cursor came to
/// it from node `current`: `current` itself where the cursor went down to a
/// first child, the parent of `current` where it went across to the next
/// sibling.
pub open spec fn cursor_parent(s: Seq<SyntaxNode>, current: usize, across: bool) -> Option<usize> {
    if current >= s.len() {
        None
    } else if across {
        s[current as int].parent
    } else {
        Some(current)
    }
}

/// Whether `after` is `before` with one node more, which reaches from
/// `start_byte` to `end_byte` and is the last child of `parent`.
pub open spec fn appended(
    before: Seq<SyntaxNode>,
    after: Seq<SyntaxNode>,
    parent: usize,
    start_byte: usize,
    end_byte: usize,
    named: bool,
) -> bool {
    let id = before.len() as int;
    &&& after.len() == id + 1
    &&& after[id].start_byte == start_byte
    &&& after[id].end_byte == end_byte
    &&& after[id].named == named
    &&& after[id].parent == Some(parent)
    &&& after[id].position == before[parent as int].children@.len()
    &&& after[id].children@.len() == 0
    &&& after[parent as int].children@ == before[parent as int].children@.push(id as usize)
    &&& after[parent as int].start_byte == before[parent as int].start_byte
    &&& after[parent as int].end_byte == before[parent as int].end_byte
    &&& after[parent as int].named == before[parent as int].named
    &&& after[parent as int].parent == before[parent as int].parent
    &&& after[parent as int].position == before[parent as int].position
    &&& forall|n: int| 0 <= n < id && n != parent ==> after[n] == before[n]
}

/// Whether node `a` is node `n` or stands above it.
pub open spec fn above_or_same(s: Seq<SyntaxNode>, a: int, n: int) -> bool
    decreases n,
{
    if a == n {
        true
    } else if 0 < n < s.len() && s[n].parent is Some && s[n].parent.unwrap() < n {
        above_or_same(s, a, s[n].parent.unwrap() as int)
    } else {
        false
    }
}

/// Whether the nodes stand in the order in which a walk reaches them, every
/// node before its children and every child before its next sibling: the
/// parent of each node but the root is the node just before it or a node
/// above that one.
pub open spec fn in_walk_order(s: Seq<SyntaxNode>) -> bool {
    forall|n: int|
        0 < n < s.len() ==> (#[trigger] s[n]).parent is Some && above_or_same(
            s,
            s[n].parent.unwrap() as int,
            n - 1,
        )
}

/// What stands above a node depends on the parents of the nodes up to it
/// alone.
proof fn lemma_above_unchanged(before: Seq<SyntaxNode>, after: Seq<SyntaxNode>, a: int, n: int)
    requires
        n < before.len() <= after.len(),
        forall|k: int| 0 <= k <= n ==> (#[trigger] after[k]).parent == before[k].parent,
    ensures
        above_or_same(after, a, n) == above_or_same(before, a, n),
    decreases n,
{
    if a != n && 0 < n && before[n].parent is Some && before[n].parent.unwrap() < n {
        assert(after[n].parent == before[n].parent);
        lemma_above_unchanged(before, after, a, before[n].parent.unwrap() as int);
    } else if a != n && 0 < n {
        assert(after[n].parent == before[n].parent);
    }
}

/// The parent of a node that stands above `n`, or is `n`, stands above `n`.
proof fn lemma_above_parent(s: Seq<SyntaxNode>, a: int, n: int)
    requires
        well_formed(s),
        0 < a < s.len(),
        0 <= n < s.len(),
        above_or_same(s, a, n),
    ensures
        above_or_same(s, s[a].parent.unwrap() as int, n),
    decreases n,
{
    assert(node_ok(s, a));
    assert(node_ok(s, n));
    let p = s[a].parent.unwrap() as int;
    if a != n {
        lemma_above_parent(s, a, s[n].parent.unwrap() as int);
    } else {
        assert(above_or_same(s, p, p));
    }
}

/// Walk order is kept when a node is added under the last node or under a
/// node above it.
proof fn lemma_walk_order_appended(
    before: Seq<SyntaxNode>,
    after: Seq<SyntaxNode>,
    parent: usize,
    start_byte: usize,
    end_byte: usize,
    named: bool,
)
    requires
        before.len() > 0,
        parent < before.len(),
        in_walk_order(before),
        above_or_same(before, parent as int, before.len() - 1),
        appended(before, after, parent, start_byte, end_byte, named),
    ensures
        in_walk_order(after),
{
    assert forall|k: int| 0 <= k < before.len() implies (#[trigger] after[k]).parent
        == before[k].parent by {
        if k != parent {
            assert(after[k] == before[k]);
        }
    }
    assert forall|n: int| 0 < n < after.len() implies (#[trigger] after[n]).parent is Some
        && above_or_same(after, after[n].parent.unwrap() as int, n - 1) by {
        if n < before.len() {
            assert(before[n].parent is Some);
            lemma_above_unchanged(before, after, before[n].parent.unwrap() as int, n - 1);
        } else {
            lemma_above_unchanged(before, after, parent as int, n - 1);
        }
    }
}

/// The extent of the node on which the cursor stands, and whether the
/// grammar names it.
fn cursor_extent(cursor: &TreeCursor) -> (Capture, bool) {
    let node = cursor_node(cursor);
    (capture_of(&node), node_is_named(&node))
}

/// Adds the node that a cursor has reached from node `current`: as the last
/// child of `current` where the cursor went down, as the last child of the
/// parent of `current` where it went `across`. Where the node cannot stand
/// there, the tree stays as it is.
fn add_cursor_node(
    out: &mut SyntaxTree,
    extent: &Capture,
    named: bool,
    current: usize,
    across: bool,
) -> (r: Option<usize>)
    requires
        old(out).wf(),
    ensures
        final(out).wf(),
        r is Some <==> cursor_parent(old(out)@, current, across) is Some && SyntaxTree::can_add(
            old(out)@,
            cursor_parent(old(out)@, current, across).unwrap(),
            extent.start_byte,
            extent.end_byte,
        ),
        r is None ==> final(out)@ == old(out)@,
        r matches Some(id) ==> id == old(out)@.len() && appended(
            old(out)@,
            final(out)@,
            cursor_parent(old(out)@, current, across).unwrap(),
            extent.start_byte,
            extent.end_byte,
            named,
        ),
{
    let parent = if across {
        match out.parent(current) {
            Some(parent) => parent,
            None => return None,
        }
    } else {
        current
    };
    out.add_child(parent, extent.start_byte, extent.end_byte, named)
}

/// A snapshot of the parse tree: every node that a cursor reaches from the
/// root, with its extent, in the order in which the cursor reaches them.
/// `None` where the nodes that the parser hands out do not nest, or are more
/// than can be counted.
pub fn snapshot(tree: &Tree) -> (r: Option<SyntaxTree>)
    ensures
        r matches Some(out) ==> out.wf() && in_walk_order(out@),
{
    let mut cursor = walk(tree);
    let (extent, named) = cursor_extent(&cursor);
    let mut out = match SyntaxTree::new(extent.start_byte, extent.end_byte, named) {
        Some(out) => out,
        None => return None,
    };
    let mut current: usize = 0;
    let mut descend = true;
    let mut steps: usize = usize::MAX;
    while steps > 0
        invariant
            out.wf(),
            current < out@.len(),
            in_walk_order(out@),
            above_or_same(out@, current as int, out@.len() - 1),
        decreases steps,
    {
        steps -= 1;
        let ghost before = out@;
        if descend && goto_first_child(&mut cursor) {
            let (extent, named) = cursor_extent(&cursor);
            let ghost reached = current;
            current = match add_cursor_node(&mut out, &extent, named, current, false) {
                Some(id) => id,
                None => return None,
            };
            proof {
                lemma_walk_order_appended(
                    before,
                    out@,
                    reached,
                    extent.start_byte,
                    extent.end_byte,
                    named,
                );
            }
        } else if goto_next_sibling(&mut cursor) {
            let (extent, named) = cursor_extent(&cursor);
            let ghost reached = current;
            current = match add_cursor_node(&mut out, &extent, named, current, true) {
                Some(id) => id,
                None => return None,
            };
            proof {
                assert(node_ok(before, reached as int));
                lemma_above_parent(before, reached as int, before.len() - 1);
                lemma_walk_order_appended(
                    before,
                    out@,
                    before[reached as int].parent.unwrap(),
                    extent.start_byte,
                    extent.end_byte,
                    named,
                );
            }
            descend = true;
        } else if goto_parent(&mut cursor) {
            proof {
                if current > 0 {
                    lemma_above_parent(out@, current as int, out@.len() - 1);
                }
            }
            current = match out.parent(current) {
                Some(parent) => parent,
                None => return None,
            };
            descend = false;
        } else {
            return Some(out);
        }
    }
    None
}

} // verus!
