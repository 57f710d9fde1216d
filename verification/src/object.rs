//! Selecting by the syntax tree: from the node that covers a range to its
//! parent, its first child, a sibling, or all the children of a node.
use crate::range::Range;
use crate::selection::{absorbed, absorbs, normalized, Selection};
use crate::text::{
    byte_to_char, char_of_byte, char_to_byte, lemma_char_of_byte, lemma_char_of_byte_monotonic,
    lemma_char_round_trip, lemma_prefix_bytes_increasing, prefix_bytes, rope_chars, total_bytes,
};
use crate::tree::{
    covering, lemma_descend, lemma_within_root, named_children, next_named_sibling,
    node_ok, prev_named_sibling, well_formed, SyntaxNode, SyntaxTree,
};
use ropey::Rope;
use vstd::prelude::*;

verus! {

/// Which node is selected, seen from the node that covers the range.
#[derive(Clone, Copy, Debug, PartialEq, Eq, Structural)]
pub enum NodeChoice {
    /// The nearest node above that is larger than the range.
    Parent,
    /// The first child, or the node itself where it has none.
    FirstChild,
    /// The next named sibling of the node or of the nearest node above it
    /// that has one.
    NextSibling,
    /// The previous named sibling, found in the same way.
    PrevSibling,
}

/// The bytes that the range takes in a text of `chars`, where the range
/// lies within the text.
pub open spec fn range_bytes(chars: Seq<char>, range: Range) -> Option<(int, int)> {
    if range.end() <= chars.len() {
        Some((prefix_bytes(chars, range.start() as int), prefix_bytes(chars, range.end() as int)))
    } else {
        None
    }
}

/// The range over node `n` that points as `range` does; `range` itself
/// where the node reaches beyond the text.
pub open spec fn node_range(s: Seq<SyntaxNode>, chars: Seq<char>, n: int, range: Range) -> Range {
    if 0 <= n < s.len() && s[n].end_byte <= total_bytes(chars) {
        range.oriented(
            char_of_byte(chars, s[n].start_byte as int) as usize,
            char_of_byte(chars, s[n].end_byte as int) as usize,
        )
    } else {
        range
    }
}

/// The nearest of node `n` and the nodes above it whose extent is not
/// exactly the bytes from `from` to `to`. `None` where all of them up to the
/// root have that extent.
pub open spec fn climb(s: Seq<SyntaxNode>, n: int, from: int, to: int) -> Option<int>
    decreases n,
{
    if 0 <= n < s.len() && s[n].start_byte == from && s[n].end_byte == to {
        match s[n].parent {
            Some(p) => if p < n {
                climb(s, p as int, from, to)
            } else {
                None
            },
            None => None,
        }
    } else {
        Some(n)
    }
}

/// The named sibling of `n` on the side that `choice` names.
pub open spec fn sibling_of(s: Seq<SyntaxNode>, n: int, choice: NodeChoice) -> Option<usize> {
    if choice == NodeChoice::PrevSibling {
        prev_named_sibling(s, n)
    } else {
        next_named_sibling(s, n)
    }
}

/// The sibling of `n`, or of the nearest node above it that has one.
pub open spec fn find_sibling(s: Seq<SyntaxNode>, n: int, choice: NodeChoice) -> Option<int>
    decreases n,
{
    match sibling_of(s, n, choice) {
        Some(found) => Some(found as int),
        None => if 0 <= n < s.len() && s[n].parent is Some && s[n].parent.unwrap() < n {
            find_sibling(s, s[n].parent.unwrap() as int, choice)
        } else {
            None
        },
    }
}

/// The nearest node above `n` that has more than one child.
pub open spec fn wider_parent(s: Seq<SyntaxNode>, n: int) -> Option<int>
    decreases n,
{
    if 0 <= n < s.len() && s[n].parent is Some && s[n].parent.unwrap() < n {
        if s[s[n].parent.unwrap() as int].children@.len() > 1 {
            Some(s[n].parent.unwrap() as int)
        } else {
            wider_parent(s, s[n].parent.unwrap() as int)
        }
    } else {
        None
    }
}

/// The node that `choice` names, seen from node `n`, which covers the
/// bytes from `from` to `to`.
pub open spec fn chosen(
    s: Seq<SyntaxNode>,
    n: int,
    from: int,
    to: int,
    choice: NodeChoice,
) -> Option<int> {
    match choice {
        NodeChoice::Parent => climb(s, n, from, to),
        NodeChoice::FirstChild => if s[n].children@.len() > 0 {
            Some(s[n].children@[0] as int)
        } else {
            Some(n)
        },
        NodeChoice::NextSibling => find_sibling(s, n, choice),
        NodeChoice::PrevSibling => find_sibling(s, n, choice),
    }
}

/// The range that takes the place of `range`: the range over the node that
/// `choice` names, seen from the smallest node that covers `range`. It is
/// `range` itself where the range lies beyond the text, no node covers it,
/// there is no node to choose, or that node reaches beyond the text.
pub open spec fn moved(
    s: Seq<SyntaxNode>,
    chars: Seq<char>,
    range: Range,
    choice: NodeChoice,
) -> Range {
    match range_bytes(chars, range) {
        Some((from, to)) => match covering(s, from, to) {
            Some(n) => match chosen(s, n, from, to, choice) {
                Some(m) => node_range(s, chars, m, range),
                None => range,
            },
            None => range,
        },
        None => range,
    }
}

/// The ranges over the named children of node `n`, each pointing as
/// `range` does; `range` alone where the node has no named child or reaches
/// beyond the text.
pub open spec fn fan_out(s: Seq<SyntaxNode>, chars: Seq<char>, n: int, range: Range) -> Seq<Range> {
    if named_children(s, n).len() == 0 || s[n].end_byte > total_bytes(chars) {
        seq![range]
    } else {
        named_children(s, n).map_values(|c: usize| node_range(s, chars, c as int, range))
    }
}

/// The ranges that take the place of `range` when all children are
/// selected: those over the named children of the smallest node that covers
/// the range.
pub open spec fn children_ranges(s: Seq<SyntaxNode>, chars: Seq<char>, range: Range) -> Seq<Range> {
    match range_bytes(chars, range) {
        Some((from, to)) => match covering(s, from, to) {
            Some(n) => fan_out(s, chars, n, range),
            None => seq![range],
        },
        None => seq![range],
    }
}

/// The ranges that take the place of `range` when all siblings are
/// selected: those over the named children of the nearest node with more
/// than one child above the smallest node that covers the range.
pub open spec fn sibling_ranges(s: Seq<SyntaxNode>, chars: Seq<char>, range: Range) -> Seq<Range> {
    match range_bytes(chars, range) {
        Some((from, to)) => match covering(s, from, to) {
            Some(n) => match wider_parent(s, n) {
                Some(p) => fan_out(s, chars, p, range),
                None => seq![range],
            },
            None => seq![range],
        },
        None => seq![range],
    }
}

/// Whether `out` points as `range` does, as far as an empty range can.
pub open spec fn keeps_direction(out: Range, range: Range) -> bool {
    &&& out.backward() ==> range.backward()
    &&& out.start() < out.end() ==> (out.backward() <==> range.backward())
}

/// Climbing from a node that covers the bytes ends at a node that covers
/// them and is larger.
pub proof fn lemma_climb(s: Seq<SyntaxNode>, n: int, from: int, to: int)
    requires
        well_formed(s),
        0 <= n < s.len(),
        s[n].start_byte <= from,
        to <= s[n].end_byte,
    ensures
        climb(s, n, from, to) matches Some(m) ==> 0 <= m <= n && s[m].start_byte <= from && to
            <= s[m].end_byte && !(s[m].start_byte == from && s[m].end_byte == to),
    decreases n,
{
    assert(node_ok(s, n));
    if s[n].start_byte == from && s[n].end_byte == to && s[n].parent is Some {
        lemma_climb(s, s[n].parent.unwrap() as int, from, to);
    }
}

/// From a node as large as the root there is nothing to climb to.
pub proof fn lemma_climb_root(s: Seq<SyntaxNode>, n: int)
    requires
        well_formed(s),
        0 <= n < s.len(),
        s[n].start_byte == s[0].start_byte,
        s[n].end_byte == s[0].end_byte,
    ensures
        climb(s, n, s[0].start_byte as int, s[0].end_byte as int) is None,
    decreases n,
{
    assert(node_ok(s, n));
    if n > 0 {
        let p = s[n].parent.unwrap() as int;
        lemma_within_root(s, p);
        lemma_climb_root(s, p);
    }
}

/// The smallest node that covers the range, with the bytes of the range.
pub fn covering_node(tree: &SyntaxTree, text: &Rope, range: Range) -> (r: Option<
    (usize, usize, usize),
>)
    requires
        tree.wf(),
    ensures
        r is Some <==> range_bytes(rope_chars(*text), range) is Some && covering(
            tree@,
            range_bytes(rope_chars(*text), range).unwrap().0,
            range_bytes(rope_chars(*text), range).unwrap().1,
        ) is Some,
        r matches Some((n, from, to)) ==> {
            &&& range_bytes(rope_chars(*text), range) == Some((from as int, to as int))
            &&& covering(tree@, from as int, to as int) == Some(n as int)
            &&& n < tree@.len()
            &&& tree@[n as int].start_byte <= from <= to <= tree@[n as int].end_byte
        },
{
    let to = match char_to_byte(text, range.to()) {
        Some(byte) => byte,
        None => return None,
    };
    let from = match char_to_byte(text, range.from()) {
        Some(byte) => byte,
        None => return None,
    };
    proof {
        lemma_prefix_bytes_increasing(
            rope_chars(*text),
            range.start() as int,
            range.end() as int,
        );
    }
    match tree.descendant_for_byte_range(from, to) {
        Some(n) => Some((n, from, to)),
        None => None,
    }
}

/// The range over node `n` that points as `range` does.
pub fn range_of_node(tree: &SyntaxTree, text: &Rope, n: usize, range: Range) -> (r: Range)
    requires
        tree.wf(),
    ensures
        r == node_range(tree@, rope_chars(*text), n as int, range),
        keeps_direction(r, range),
        n < tree@.len() && tree@[n as int].end_byte <= total_bytes(rope_chars(*text)) ==> {
            &&& r.start() == char_of_byte(rope_chars(*text), tree@[n as int].start_byte as int)
            &&& r.end() == char_of_byte(rope_chars(*text), tree@[n as int].end_byte as int)
        },
{
    let (start_byte, end_byte) = match tree.byte_range(n) {
        Some(bytes) => bytes,
        None => return range,
    };
    let end = match byte_to_char(text, end_byte) {
        Some(end) => end,
        None => return range,
    };
    proof {
        assert(node_ok(tree@, n as int));
        lemma_char_of_byte_monotonic(rope_chars(*text), start_byte as int, end_byte as int);
    }
    let start = match byte_to_char(text, start_byte) {
        Some(start) => start,
        None => return range,
    };
    range.with_extent(start, end)
}

/// The nearest node above `node` that has more than one child.
pub fn find_parent_with_more_children(tree: &SyntaxTree, node: usize) -> (r: Option<usize>)
    requires
        tree.wf(),
    ensures
        r is Some <==> wider_parent(tree@, node as int) is Some,
        r matches Some(p) ==> p as int == wider_parent(tree@, node as int).unwrap() && p
            < tree@.len(),
{
    let mut current = node;
    loop
        invariant
            tree.wf(),
            wider_parent(tree@, node as int) == wider_parent(tree@, current as int),
        decreases current,
    {
        match tree.parent(current) {
            Some(parent) => {
                if tree.child_count(parent) > 1 {
                    return Some(parent);
                }
                current = parent;
            },
            None => {
                return None;
            },
        }
    }
}

/// The sibling of `node` on the side that `choice` names, or that of the
/// nearest node above it that has one.
pub fn find_sibling_recursive(tree: &SyntaxTree, node: usize, choice: NodeChoice) -> (r: Option<
    usize,
>)
    requires
        tree.wf(),
    ensures
        r is Some <==> find_sibling(tree@, node as int, choice) is Some,
        r matches Some(found) ==> found as int == find_sibling(tree@, node as int, choice).unwrap()
            && found < tree@.len(),
{
    let mut current = node;
    loop
        invariant
            tree.wf(),
            find_sibling(tree@, node as int, choice) == find_sibling(tree@, current as int, choice),
        decreases current,
    {
        let sibling = match choice {
            NodeChoice::PrevSibling => tree.prev_named_sibling(current),
            _ => tree.next_named_sibling(current),
        };
        match sibling {
            Some(found) => {
                return Some(found);
            },
            None => {},
        }
        match tree.parent(current) {
            Some(parent) => {
                current = parent;
            },
            None => {
                return None;
            },
        }
    }
}

/// The node that `choice` names, seen from `node`.
pub fn choose_node(
    tree: &SyntaxTree,
    node: usize,
    from: usize,
    to: usize,
    choice: NodeChoice,
) -> (r: Option<usize>)
    requires
        tree.wf(),
        node < tree@.len(),
    ensures
        r is Some <==> chosen(tree@, node as int, from as int, to as int, choice) is Some,
        r matches Some(m) ==> m as int == chosen(
            tree@,
            node as int,
            from as int,
            to as int,
            choice,
        ).unwrap() && m < tree@.len(),
{
    match choice {
        NodeChoice::Parent => {
            let mut current = node;
            loop
                invariant
                    tree.wf(),
                    choice == NodeChoice::Parent,
                    current < tree@.len(),
                    climb(tree@, node as int, from as int, to as int) == climb(
                        tree@,
                        current as int,
                        from as int,
                        to as int,
                    ),
                decreases current,
            {
                let (start_byte, end_byte) = match tree.byte_range(current) {
                    Some(bytes) => bytes,
                    None => return None,
                };
                if start_byte != from || end_byte != to {
                    return Some(current);
                }
                match tree.parent(current) {
                    Some(parent) => {
                        current = parent;
                    },
                    None => {
                        return None;
                    },
                }
            }
        },
        NodeChoice::FirstChild => {
            match tree.child(node, 0) {
                Some(child) => Some(child),
                None => Some(node),
            }
        },
        _ => find_sibling_recursive(tree, node, choice),
    }
}

/// The range that takes the place of `range` when the node that `choice`
/// names is selected.
pub fn select_node(tree: &SyntaxTree, text: &Rope, range: Range, choice: NodeChoice) -> (r: Range)
    requires
        tree.wf(),
    ensures
        r == moved(tree@, rope_chars(*text), range, choice),
        keeps_direction(r, range),
        choice == NodeChoice::Parent ==> r.spans(range),
        choice == NodeChoice::Parent && range_bytes(rope_chars(*text), range) == Some(
            (tree@[0].start_byte as int, tree@[0].end_byte as int),
        ) ==> r == range,
{
    let (node, from, to) = match covering_node(tree, text, range) {
        Some(found) => found,
        None => return range,
    };
    proof {
        lemma_expand_node(tree@, rope_chars(*text), range);
    }
    match choose_node(tree, node, from, to, choice) {
        Some(picked) => range_of_node(tree, text, picked, range),
        None => range,
    }
}

/// The node that expanding selects covers the range, in characters as in
/// bytes; from a range over the whole root there is no node to select.
pub proof fn lemma_expand_node(s: Seq<SyntaxNode>, chars: Seq<char>, range: Range)
    requires
        well_formed(s),
        range_bytes(chars, range) is Some,
        covering(
            s,
            range_bytes(chars, range).unwrap().0,
            range_bytes(chars, range).unwrap().1,
        ) is Some,
    ensures
        ({
            let (from, to) = range_bytes(chars, range).unwrap();
            let n = covering(s, from, to).unwrap();
            &&& 0 <= n < s.len()
            &&& s[n].start_byte <= from <= to <= s[n].end_byte
            &&& from == s[0].start_byte && to == s[0].end_byte ==> climb(s, n, from, to) is None
            &&& climb(s, n, from, to) matches Some(m) ==> {
                &&& 0 <= m < s.len()
                &&& s[m].end_byte <= total_bytes(chars) ==> {
                    &&& 0 <= char_of_byte(chars, s[m].start_byte as int) <= range.start()
                    &&& range.end() <= char_of_byte(chars, s[m].end_byte as int)
                    &&& char_of_byte(chars, s[m].end_byte as int) <= chars.len()
                }
            }
        }),
{
    let (from, to) = range_bytes(chars, range).unwrap();
    lemma_prefix_bytes_increasing(chars, 0, range.start() as int);
    lemma_prefix_bytes_increasing(chars, range.start() as int, range.end() as int);
    let n = covering(s, from, to).unwrap();
    lemma_descend(s, 0, from, to);
    lemma_climb(s, n, from, to);
    if from == s[0].start_byte && to == s[0].end_byte {
        lemma_within_root(s, n);
        lemma_climb_root(s, n);
    }
    if climb(s, n, from, to) is Some {
        let m = climb(s, n, from, to).unwrap();
        if s[m].end_byte <= total_bytes(chars) {
            let a = s[m].start_byte as int;
            let b = s[m].end_byte as int;
            lemma_char_of_byte(chars, a);
            lemma_char_of_byte(chars, b);
            lemma_char_of_byte_monotonic(chars, a, from);
            lemma_char_of_byte_monotonic(chars, to, b);
            lemma_char_round_trip(chars, range.start() as int);
            lemma_char_round_trip(chars, range.end() as int);
        }
    }
}

/// Expanding a range never makes it span less, and a range over the whole
/// root stays as it is.
pub proof fn lemma_expand_spans(s: Seq<SyntaxNode>, chars: Seq<char>, range: Range)
    requires
        well_formed(s),
        chars.len() <= usize::MAX,
    ensures
        moved(s, chars, range, NodeChoice::Parent).spans(range),
        range_bytes(chars, range) == Some((s[0].start_byte as int, s[0].end_byte as int)) ==> moved(
            s,
            chars,
            range,
            NodeChoice::Parent,
        ) == range,
{
    if range_bytes(chars, range) is Some {
        let (from, to) = range_bytes(chars, range).unwrap();
        if covering(s, from, to) is Some {
            lemma_expand_node(s, chars, range);
        }
    }
}

/// The range over the nearest node that is larger than `range`. It never
/// spans less than `range`, and a range over the whole root stays as it is.
pub fn expand_range(tree: &SyntaxTree, text: &Rope, range: Range) -> (r: Range)
    requires
        tree.wf(),
    ensures
        r == moved(tree@, rope_chars(*text), range, NodeChoice::Parent),
        keeps_direction(r, range),
        r.spans(range),
        range_bytes(rope_chars(*text), range) == Some(
            (tree@[0].start_byte as int, tree@[0].end_byte as int),
        ) ==> r == range,
{
    select_node(tree, text, range, NodeChoice::Parent)
}

/// The ranges over the named children of `node`, each pointing as `range`
/// does. `None` where the node has no named child or reaches beyond the
/// text.
pub fn select_children(tree: &SyntaxTree, text: &Rope, node: usize, range: Range) -> (r: Option<
    Vec<Range>,
>)
    requires
        tree.wf(),
        node < tree@.len(),
    ensures
        r is Some <==> named_children(tree@, node as int).len() > 0 && tree@[node as int].end_byte
            <= total_bytes(rope_chars(*text)),
        r matches Some(ranges) ==> {
            &&& ranges@ == fan_out(tree@, rope_chars(*text), node as int, range)
            &&& ranges@.len() == named_children(tree@, node as int).len()
            &&& forall|k: int|
                0 <= k < ranges@.len() ==> keeps_direction(#[trigger] ranges@[k], range)
        },
{
    let named = tree.named_children(node);
    if named.len() == 0 {
        return None;
    }
    let end_byte = match tree.byte_range(node) {
        Some(bytes) => bytes.1,
        None => return None,
    };
    if byte_to_char(text, end_byte).is_none() {
        return None;
    }
    let mut ranges: Vec<Range> = Vec::new();
    let mut k: usize = 0;
    while k < named.len()
        invariant
            tree.wf(),
            0 <= k <= named.len(),
            ranges@.len() == k,
            forall|j: int|
                0 <= j < k ==> #[trigger] ranges@[j] == node_range(
                    tree@,
                    rope_chars(*text),
                    named@[j] as int,
                    range,
                ) && keeps_direction(ranges@[j], range),
        decreases named.len() - k,
    {
        ranges.push(range_of_node(tree, text, named[k], range));
        k += 1;
    }
    assert(ranges@ =~= fan_out(tree@, rope_chars(*text), node as int, range));
    Some(ranges)
}

/// The ranges that take the place of `range` when all children, or all
/// siblings, are selected.
pub open spec fn fan_ranges(
    s: Seq<SyntaxNode>,
    chars: Seq<char>,
    range: Range,
    siblings: bool,
) -> Seq<Range> {
    if siblings {
        sibling_ranges(s, chars, range)
    } else {
        children_ranges(s, chars, range)
    }
}

/// The node whose named children are selected for `range`.
pub open spec fn fan_node(
    s: Seq<SyntaxNode>,
    chars: Seq<char>,
    range: Range,
    siblings: bool,
) -> Option<int> {
    match range_bytes(chars, range) {
        Some((from, to)) => match covering(s, from, to) {
            Some(n) => if siblings {
                wider_parent(s, n)
            } else {
                Some(n)
            },
            None => None,
        },
        None => None,
    }
}

/// The ranges over the named children of the node that covers `range`, or,
/// for `siblings`, of the nearest node above it with more than one child.
/// There are as many of them as that node has named children; where it has
/// none, or there is no such node, `range` comes back alone.
pub fn select_all_in_range(tree: &SyntaxTree, text: &Rope, range: Range, siblings: bool) -> (r: Vec<
    Range,
>)
    requires
        tree.wf(),
    ensures
        r@ == fan_ranges(tree@, rope_chars(*text), range, siblings),
        r@.len() >= 1,
        forall|k: int| 0 <= k < r@.len() ==> keeps_direction(#[trigger] r@[k], range),
        match fan_node(tree@, rope_chars(*text), range, siblings) {
            Some(n) => if named_children(tree@, n).len() > 0 && tree@[n].end_byte <= total_bytes(
                rope_chars(*text),
            ) {
                r@.len() == named_children(tree@, n).len()
            } else {
                r@ == seq![range]
            },
            None => r@ == seq![range],
        },
{
    let mut alone: Vec<Range> = Vec::new();
    alone.push(range);
    let node = match covering_node(tree, text, range) {
        Some(found) => found.0,
        None => return alone,
    };
    let above = if siblings {
        match find_parent_with_more_children(tree, node) {
            Some(parent) => parent,
            None => return alone,
        }
    } else {
        node
    };
    match select_children(tree, text, above, range) {
        Some(ranges) => ranges,
        None => alone,
    }
}

/// The ranges of `ranges`, each moved to the node that `choice` names.
pub open spec fn moved_all(
    s: Seq<SyntaxNode>,
    chars: Seq<char>,
    ranges: Seq<Range>,
    choice: NodeChoice,
) -> Seq<Range> {
    ranges.map_values(|range: Range| moved(s, chars, range, choice))
}

/// What takes the place of the first `n` ranges of `ranges` when all
/// children, or all siblings, are selected, in the order of the ranges.
pub open spec fn fanned(
    s: Seq<SyntaxNode>,
    chars: Seq<char>,
    ranges: Seq<Range>,
    n: int,
    siblings: bool,
) -> Seq<Range>
    decreases n,
{
    if n <= 0 {
        Seq::empty()
    } else {
        fanned(s, chars, ranges, n - 1, siblings) + fan_ranges(s, chars, ranges[n - 1], siblings)
    }
}

/// Whether some range of `list` spans `range`.
pub open spec fn covered(list: Seq<Range>, range: Range) -> bool {
    exists|j: int| 0 <= j < list.len() && (#[trigger] list[j]).spans(range)
}

/// Moves every range of the selection to the node that `choice` names, and
/// puts the ranges in order again.
pub fn select_node_impl(
    tree: &SyntaxTree,
    text: &Rope,
    selection: Selection,
    choice: NodeChoice,
) -> (r: Selection)
    requires
        tree.wf(),
        selection.wf(),
    ensures
        r.wf(),
        r@ == normalized(moved_all(tree@, rope_chars(*text), selection@, choice)),
        absorbs(
            r@[r.primary_at()],
            moved(tree@, rope_chars(*text), selection@[selection.primary_at()], choice),
        ),
        forall|i: int|
            0 <= i < selection@.len() ==> absorbed(
                r@,
                moved(tree@, rope_chars(*text), #[trigger] selection@[i], choice),
            ),
        choice == NodeChoice::Parent ==> forall|i: int|
            0 <= i < selection@.len() ==> covered(r@, #[trigger] selection@[i]),
{
    let mut ranges: Vec<Range> = Vec::new();
    let mut i: usize = 0;
    while i < selection.len()
        invariant
            tree.wf(),
            0 <= i <= selection@.len(),
            ranges@.len() == i,
            forall|j: int|
                0 <= j < i ==> #[trigger] ranges@[j] == moved(
                    tree@,
                    rope_chars(*text),
                    selection@[j],
                    choice,
                ),
            choice == NodeChoice::Parent ==> forall|j: int|
                0 <= j < i ==> (#[trigger] ranges@[j]).spans(selection@[j]),
        decreases selection@.len() - i,
    {
        let range = selection.ranges()[i];
        ranges.push(select_node(tree, text, range, choice));
        i += 1;
    }
    assert(ranges@ =~= moved_all(tree@, rope_chars(*text), selection@, choice));
    match Selection::new(ranges, selection.primary_index()) {
        Some(result) => {
            assert forall|i: int| 0 <= i < selection@.len() implies absorbed(
                result@,
                moved(tree@, rope_chars(*text), #[trigger] selection@[i], choice),
            ) by {
                assert(ranges@[i] == moved(tree@, rope_chars(*text), selection@[i], choice));
            }
            assert forall|i: int|
                choice == NodeChoice::Parent && 0 <= i < selection@.len() implies covered(
                result@,
                #[trigger] selection@[i],
            ) by {
                assert(absorbed(result@, ranges@[i]));
                let j = choose|j: int|
                    0 <= j < result@.len() && absorbs(#[trigger] result@[j], ranges@[i]);
                assert(result@[j].spans(selection@[i]));
            }
            result
        },
        None => selection,
    }
}

/// Expands every range to the nearest node that is larger than it. No
/// range of the selection is lost: each lies within a range of the result.
pub fn expand_selection(tree: &SyntaxTree, text: &Rope, selection: Selection) -> (r: Selection)
    requires
        tree.wf(),
        selection.wf(),
    ensures
        r.wf(),
        r@ == normalized(moved_all(tree@, rope_chars(*text), selection@, NodeChoice::Parent)),
        absorbs(
            r@[r.primary_at()],
            moved(tree@, rope_chars(*text), selection@[selection.primary_at()], NodeChoice::Parent),
        ),
        forall|i: int| 0 <= i < selection@.len() ==> covered(r@, #[trigger] selection@[i]),
{
    select_node_impl(tree, text, selection, NodeChoice::Parent)
}

/// Shrinks every range to the first child of the node that covers it.
pub fn shrink_selection(tree: &SyntaxTree, text: &Rope, selection: Selection) -> (r: Selection)
    requires
        tree.wf(),
        selection.wf(),
    ensures
        r.wf(),
        r@ == normalized(moved_all(tree@, rope_chars(*text), selection@, NodeChoice::FirstChild)),
        absorbs(
            r@[r.primary_at()],
            moved(
                tree@,
                rope_chars(*text),
                selection@[selection.primary_at()],
                NodeChoice::FirstChild,
            ),
        ),
{
    select_node_impl(tree, text, selection, NodeChoice::FirstChild)
}

/// Which sibling is selected.
#[derive(Clone, Copy, Debug, PartialEq, Eq, Structural)]
pub enum SiblingStep {
    Next,
    Previous,
}

/// The choice of a node that stands for a step to a sibling.
pub open spec fn step_choice(step: SiblingStep) -> NodeChoice {
    match step {
        SiblingStep::Next => NodeChoice::NextSibling,
        SiblingStep::Previous => NodeChoice::PrevSibling,
    }
}

/// Moves every range to the next or the previous named sibling of the node
/// that covers it, or of the nearest node above it that has one.
pub fn select_sibling(
    tree: &SyntaxTree,
    text: &Rope,
    selection: Selection,
    step: SiblingStep,
) -> (r: Selection)
    requires
        tree.wf(),
        selection.wf(),
    ensures
        r.wf(),
        r@ == normalized(moved_all(tree@, rope_chars(*text), selection@, step_choice(step))),
        absorbs(
            r@[r.primary_at()],
            moved(tree@, rope_chars(*text), selection@[selection.primary_at()], step_choice(step)),
        ),
{
    let choice = match step {
        SiblingStep::Next => NodeChoice::NextSibling,
        SiblingStep::Previous => NodeChoice::PrevSibling,
    };
    select_node_impl(tree, text, selection, choice)
}

/// Replaces every range by the ranges over the named children of a node,
/// and puts the ranges in order again.
fn select_all(tree: &SyntaxTree, text: &Rope, selection: Selection, siblings: bool) -> (r:
    Selection)
    requires
        tree.wf(),
        selection.wf(),
    ensures
        r.wf(),
        r@ == normalized(
            fanned(tree@, rope_chars(*text), selection@, selection@.len() as int, siblings),
        ),
        absorbs(
            r@[r.primary_at()],
            fan_ranges(tree@, rope_chars(*text), selection@[selection.primary_at()], siblings)[0],
        ),
        forall|i: int, k: int|
            0 <= i < selection@.len() && 0 <= k < fan_ranges(
                tree@,
                rope_chars(*text),
                selection@[i],
                siblings,
            ).len() ==> absorbed(
                r@,
                #[trigger] fan_ranges(tree@, rope_chars(*text), selection@[i], siblings)[k],
            ),
{
    let ghost s = tree@;
    let ghost chars = rope_chars(*text);
    let mut ranges: Vec<Range> = Vec::new();
    let mut primary: usize = 0;
    let mut i: usize = 0;
    while i < selection.len()
        invariant
            tree.wf(),
            selection.wf(),
            s == tree@,
            chars == rope_chars(*text),
            0 <= i <= selection@.len(),
            ranges@ == fanned(s, chars, selection@, i as int, siblings),
            i > selection.primary_at() ==> primary < ranges@.len() && ranges@[primary as int]
                == fan_ranges(s, chars, selection@[selection.primary_at()], siblings)[0],
            forall|j: int, k: int|
                0 <= j < i && 0 <= k < fan_ranges(s, chars, selection@[j], siblings).len()
                    ==> ranges@.contains(
                    #[trigger] fan_ranges(s, chars, selection@[j], siblings)[k],
                ),
        decreases selection@.len() - i,
    {
        let range = selection.ranges()[i];
        let out = select_all_in_range(tree, text, range, siblings);
        let ghost before = ranges@;
        if i == selection.primary_index() {
            primary = ranges.len();
        }
        let mut k: usize = 0;
        assert(out@.take(0) =~= Seq::<Range>::empty());
        assert(before + out@.take(0) =~= before);
        while k < out.len()
            invariant
                0 <= k <= out@.len(),
                ranges@ == before + out@.take(k as int),
            decreases out@.len() - k,
        {
            ranges.push(out[k]);
            assert(out@.take(k + 1) =~= out@.take(k as int).push(out@[k as int]));
            assert(ranges@ =~= before + out@.take(k + 1));
            k += 1;
        }
        proof {
            assert(out@.take(k as int) =~= out@);
            assert forall|j: int, k: int|
                0 <= j < i + 1 && 0 <= k < fan_ranges(
                    s,
                    chars,
                    selection@[j],
                    siblings,
                ).len() implies ranges@.contains(
                #[trigger] fan_ranges(s, chars, selection@[j], siblings)[k],
            ) by {
                let wanted = fan_ranges(s, chars, selection@[j], siblings)[k];
                if j < i {
                    assert(before.contains(wanted));
                    let t = choose|t: int| 0 <= t < before.len() && before[t] == wanted;
                    assert(ranges@[t] == wanted);
                } else {
                    assert(ranges@[before.len() + k] == wanted);
                }
            }
        }
        i += 1;
    }
    match Selection::new(ranges, primary) {
        Some(result) => {
            assert forall|i: int, k: int|
                0 <= i < selection@.len() && 0 <= k < fan_ranges(
                    s,
                    chars,
                    selection@[i],
                    siblings,
                ).len() implies absorbed(
                result@,
                #[trigger] fan_ranges(s, chars, selection@[i], siblings)[k],
            ) by {
                let wanted = fan_ranges(s, chars, selection@[i], siblings)[k];
                assert(ranges@.contains(wanted));
                let t = choose|t: int| 0 <= t < ranges@.len() && ranges@[t] == wanted;
                assert(absorbed(result@, ranges@[t]));
            }
            result
        },
        None => selection,
    }
}

/// Replaces every range by the ranges over the named children of the
/// nearest node with more than one child above the node that covers it.
pub fn select_all_siblings(tree: &SyntaxTree, text: &Rope, selection: Selection) -> (r: Selection)
    requires
        tree.wf(),
        selection.wf(),
    ensures
        r.wf(),
        r@ == normalized(
            fanned(tree@, rope_chars(*text), selection@, selection@.len() as int, true),
        ),
        absorbs(
            r@[r.primary_at()],
            sibling_ranges(tree@, rope_chars(*text), selection@[selection.primary_at()])[0],
        ),
        forall|i: int, k: int|
            0 <= i < selection@.len() && 0 <= k < sibling_ranges(
                tree@,
                rope_chars(*text),
                selection@[i],
            ).len() ==> absorbed(
                r@,
                #[trigger] sibling_ranges(tree@, rope_chars(*text), selection@[i])[k],
            ),
{
    let ghost before = selection@;
    let r = select_all(tree, text, selection, true);
    proof {
        assert forall|i: int, k: int|
            0 <= i < before.len() && 0 <= k < sibling_ranges(
                tree@,
                rope_chars(*text),
                before[i],
            ).len() implies absorbed(
            r@,
            #[trigger] sibling_ranges(tree@, rope_chars(*text), before[i])[k],
        ) by {
            assert(absorbed(r@, fan_ranges(tree@, rope_chars(*text), before[i], true)[k]));
        }
    }
    r
}

/// Replaces every range by the ranges over the named children of the node
/// that covers it.
pub fn select_all_children(tree: &SyntaxTree, text: &Rope, selection: Selection) -> (r: Selection)
    requires
        tree.wf(),
        selection.wf(),
    ensures
        r.wf(),
        r@ == normalized(
            fanned(tree@, rope_chars(*text), selection@, selection@.len() as int, false),
        ),
        absorbs(
            r@[r.primary_at()],
            children_ranges(tree@, rope_chars(*text), selection@[selection.primary_at()])[0],
        ),
        forall|i: int, k: int|
            0 <= i < selection@.len() && 0 <= k < children_ranges(
                tree@,
                rope_chars(*text),
                selection@[i],
            ).len() ==> absorbed(
                r@,
                #[trigger] children_ranges(tree@, rope_chars(*text), selection@[i])[k],
            ),
{
    let ghost before = selection@;
    let r = select_all(tree, text, selection, false);
    proof {
        assert forall|i: int, k: int|
            0 <= i < before.len() && 0 <= k < children_ranges(
                tree@,
                rope_chars(*text),
                before[i],
            ).len() implies absorbed(
            r@,
            #[trigger] children_ranges(tree@, rope_chars(*text), before[i])[k],
        ) by {
            assert(absorbed(r@, fan_ranges(tree@, rope_chars(*text), before[i], false)[k]));
        }
    }
    r
}

/// Shrinking a range over a node that has a child, and that is the
/// smallest to cover its own bytes, selects the first child of the node.
pub proof fn lemma_shrink_selects_first_child(
    s: Seq<SyntaxNode>,
    chars: Seq<char>,
    range: Range,
    n: int,
)
    requires
        0 <= n < s.len(),
        s[n].children@.len() > 0,
        range_bytes(chars, range) == Some((s[n].start_byte as int, s[n].end_byte as int)),
        covering(s, s[n].start_byte as int, s[n].end_byte as int) == Some(n),
    ensures
        moved(s, chars, range, NodeChoice::FirstChild) == node_range(
            s,
            chars,
            s[n].children@[0] as int,
            range,
        ),
{
}

/// Shrinking after expanding, from a range over a node that is as large as
/// the root and the smallest to cover its bytes, selects the first child of
/// that node.
pub proof fn lemma_shrink_after_expand(s: Seq<SyntaxNode>, chars: Seq<char>, range: Range, n: int)
    requires
        well_formed(s),
        chars.len() <= usize::MAX,
        0 <= n < s.len(),
        s[n].children@.len() > 0,
        range_bytes(chars, range) == Some((s[n].start_byte as int, s[n].end_byte as int)),
        covering(s, s[n].start_byte as int, s[n].end_byte as int) == Some(n),
        s[n].start_byte == s[0].start_byte,
        s[n].end_byte == s[0].end_byte,
    ensures
        moved(s, chars, moved(s, chars, range, NodeChoice::Parent), NodeChoice::FirstChild)
            == node_range(s, chars, s[n].children@[0] as int, range),
{
    lemma_expand_spans(s, chars, range);
}

} // verus!
