//! Sticky context: the headers of the blocks that enclose the top of the
//! viewport, kept as an ordered list of lines to pin above the content.
use crate::parse_tree::{capture_index, context_matches};
use crate::text::{
    char_to_byte, char_to_line, line_start_byte, line_to_byte, prefix_bytes, prefix_lines,
    rope_chars, text_bytes, total_lines,
};
use ropey::Rope;
use tree_sitter::{Query, Tree};
use vstd::prelude::*;

verus! {

/// `Range::clone`, which the derived `Clone` of `StickyNode` calls on its
/// byte range. Nothing is claimed of the copy.
pub assume_specification<Idx>[ <std::ops::Range<Idx> as std::clone::Clone>::clone ](
    range: &std::ops::Range<Idx>,
) -> std::ops::Range<Idx> where Idx: std::clone::Clone
;

/// One line pinned above the viewport, or the divider drawn beneath the
/// pinned lines.
#[derive(Debug, Clone)]
pub struct StickyNode {
    /// Line of the document that is pinned; `usize::MAX` for the divider.
    pub line: usize,
    /// Row of the viewport on which the line is shown.
    pub visual_line: u16,
    /// Start of the header and, for a header that runs over several lines,
    /// the byte just before the end of its signature.
    pub byte_range: std::ops::Range<usize>,
    /// The divider's text; `None` for a pinned line.
    pub indicator: Option<String>,
    /// Offset of the top of the viewport when the list was computed.
    pub anchor: usize,
    /// Whether `byte_range` ends at the end of a signature.
    pub has_context_end: bool,
}

/// What a `StickyNode` holds, with the divider's text as a sequence of
/// characters.
pub struct StickyNodeView {
    pub line: usize,
    pub visual_line: u16,
    pub start: usize,
    pub end: usize,
    pub indicator: Option<Seq<char>>,
    pub anchor: usize,
    pub has_context_end: bool,
}

impl View for StickyNode {
    type V = StickyNodeView;

    open spec fn view(&self) -> StickyNodeView {
        StickyNodeView {
            line: self.line,
            visual_line: self.visual_line,
            start: self.byte_range.start,
            end: self.byte_range.end,
            indicator: match self.indicator {
                Some(s) => Some(s@),
                None => None,
            },
            anchor: self.anchor,
            has_context_end: self.has_context_end,
        }
    }
}

/// The views of a list of nodes, in order.
pub open spec fn views(nodes: Seq<StickyNode>) -> Seq<StickyNodeView> {
    nodes.map_values(|n: StickyNode| n@)
}

/// The extent of a node that a query captured.
#[derive(Debug, Clone, Copy, PartialEq, Eq, Structural)]
pub struct Capture {
    pub start_byte: usize,
    pub end_byte: usize,
    pub start_row: usize,
    pub end_row: usize,
}

/// One match of the context query: the nodes captured as context, and the
/// nodes captured as the end of a signature.
#[derive(Debug, Clone)]
pub struct ContextMatch {
    pub contexts: Vec<Capture>,
    pub ends: Vec<Capture>,
}

/// What the caller knows of the view: the character offset at the top of
/// the viewport, and the viewport's size in cells.
#[derive(Debug, Clone, Copy, PartialEq, Eq, Structural)]
pub struct Viewport {
    pub anchor: usize,
    pub height: u16,
    pub width: u16,
}

/// The three settings of the sticky context.
#[derive(Debug, Clone, Copy, PartialEq, Eq, Structural)]
pub struct StickyConfig {
    pub follow_cursor: bool,
    pub max_lines: u16,
    pub indicator: bool,
}

/// The bytes between which the context is looked for.
#[derive(Debug, Clone, Copy, PartialEq, Eq, Structural)]
pub struct ScanBounds {
    /// Line at the top of the viewport.
    pub anchor_line: usize,
    /// First byte of the first line below the lines pinned before.
    pub top_first_byte: usize,
    /// Last byte that the query has to reach.
    pub last_scan_byte: usize,
}

/// Whether byte `b` lies within the captured node.
pub open spec fn holds_byte(c: Capture, b: usize) -> bool {
    c.start_byte <= b < c.end_byte
}

/// Whether the captured node encloses both ends of the scan.
pub open spec fn encloses(c: Capture, bounds: ScanBounds) -> bool {
    holds_byte(c, bounds.top_first_byte) && holds_byte(c, bounds.last_scan_byte)
}

/// Whether `end` closes the signature of `context`: it ends within the
/// context, on another row than the one on which the context starts.
pub open spec fn closes(context: Capture, end: Capture) -> bool {
    context.start_row != end.end_row && holds_byte(context, end.end_byte)
}

/// The byte before `b`, or 0.
pub open spec fn byte_before(b: usize) -> usize {
    if b == 0 {
        0
    } else {
        (b - 1) as usize
    }
}

/// The byte range of a header that runs over several lines: from the start
/// of `context` to the byte before the end of the first of `ends` that
/// closes it. `None` where none of them does.
pub open spec fn paired_range(context: Capture, ends: Seq<Capture>) -> Option<(usize, usize)>
    decreases ends.len(),
{
    if ends.len() == 0 {
        None
    } else if closes(context, ends[0]) {
        Some((context.start_byte, byte_before(ends[0].end_byte)))
    } else {
        paired_range(context, ends.drop_first())
    }
}

/// Whether a captured context is taken into the list: it encloses both ends
/// of the scan, or it starts on the row that the list expects next and its
/// signature has an end.
pub open spec fn qualifies(
    context: Capture,
    ends: Seq<Capture>,
    bounds: ScanBounds,
    found: int,
) -> bool {
    encloses(context, bounds) || (context.start_row == bounds.anchor_line + found && paired_range(
        context,
        ends,
    ) is Some)
}

/// The node that stands for a captured context.
pub open spec fn candidate(context: Capture, ends: Seq<Capture>, anchor: usize) -> StickyNodeView {
    let paired = paired_range(context, ends);
    StickyNodeView {
        line: context.start_row,
        visual_line: 0,
        start: if paired is Some {
            paired.unwrap().0
        } else {
            context.start_byte
        },
        end: if paired is Some {
            paired.unwrap().1
        } else {
            context.start_byte
        },
        indicator: None,
        anchor,
        has_context_end: paired is Some,
    }
}

/// The list `found` once the first `k` contexts of one match were looked
/// at, in order.
pub open spec fn take_contexts(
    found: Seq<StickyNodeView>,
    contexts: Seq<Capture>,
    ends: Seq<Capture>,
    k: int,
    bounds: ScanBounds,
    anchor: usize,
) -> Seq<StickyNodeView>
    decreases k,
{
    if k <= 0 {
        found
    } else {
        let before = take_contexts(found, contexts, ends, k - 1, bounds, anchor);
        if qualifies(contexts[k - 1], ends, bounds, before.len() as int) {
            before.push(candidate(contexts[k - 1], ends, anchor))
        } else {
            before
        }
    }
}

/// The contexts that qualify among the first `n` matches, in the order of
/// the matches.
pub open spec fn candidates(
    matches: Seq<ContextMatch>,
    n: int,
    bounds: ScanBounds,
    anchor: usize,
) -> Seq<StickyNodeView>
    decreases n,
{
    if n <= 0 {
        Seq::empty()
    } else {
        take_contexts(
            candidates(matches, n - 1, bounds, anchor),
            matches[n - 1].contexts@,
            matches[n - 1].ends@,
            matches[n - 1].contexts@.len() as int,
            bounds,
            anchor,
        )
    }
}

/// Looks among `ends` for the first that closes the signature of `context`.
pub fn get_context_paired_range(context: &Capture, ends: &Vec<Capture>) -> (r: Option<
    std::ops::Range<usize>,
>)
    ensures
        r is Some <==> paired_range(*context, ends@) is Some,
        r is Some ==> (r.unwrap().start, r.unwrap().end) == paired_range(*context, ends@).unwrap(),
{
    let mut i: usize = 0;
    assert(ends@.skip(0) =~= ends@);
    while i < ends.len()
        invariant
            0 <= i <= ends.len(),
            paired_range(*context, ends@) == paired_range(*context, ends@.skip(i as int)),
        decreases ends.len() - i,
    {
        let end = ends[i];
        proof {
            assert(ends@.skip(i as int)[0] == end);
            assert(ends@.skip(i as int).drop_first() =~= ends@.skip(i + 1));
        }
        if context.start_row != end.end_row && context.start_byte <= end.end_byte && end.end_byte
            < context.end_byte {
            return Some(context.start_byte..end.end_byte.saturating_sub(1));
        }
        i += 1;
    }
    None
}

/// Looks at every context of every match, in order, and lists those that
/// qualify.
pub fn collect_candidates(matches: &Vec<ContextMatch>, bounds: &ScanBounds, anchor: usize) -> (r:
    Vec<StickyNode>)
    ensures
        views(r@) == candidates(matches@, matches@.len() as int, *bounds, anchor),
{
    let mut found: Vec<StickyNode> = Vec::new();
    let mut n: usize = 0;
    assert(views(found@) =~= candidates(matches@, 0, *bounds, anchor));
    while n < matches.len()
        invariant
            0 <= n <= matches.len(),
            views(found@) == candidates(matches@, n as int, *bounds, anchor),
        decreases matches.len() - n,
    {
        let query_match = &matches[n];
        let ghost before = views(found@);
        let mut k: usize = 0;
        while k < query_match.contexts.len()
            invariant
                0 <= k <= query_match.contexts.len(),
                views(found@) == take_contexts(
                    before,
                    query_match.contexts@,
                    query_match.ends@,
                    k as int,
                    *bounds,
                    anchor,
                ),
            decreases query_match.contexts.len() - k,
        {
            let context = query_match.contexts[k];
            let paired = get_context_paired_range(&context, &query_match.ends);
            let enclosing = context.start_byte <= bounds.top_first_byte && bounds.top_first_byte
                < context.end_byte && context.start_byte <= bounds.last_scan_byte
                && bounds.last_scan_byte < context.end_byte;
            let expected = context.start_row >= bounds.anchor_line && context.start_row
                - bounds.anchor_line == found.len();
            assert(found@.len() == views(found@).len());
            if enclosing || (expected && paired.is_some()) {
                let ghost old_found = found@;
                let has_context_end = paired.is_some();
                let byte_range = match paired {
                    Some(range) => range,
                    None => context.start_byte..context.start_byte,
                };
                let node = StickyNode {
                    line: context.start_row,
                    visual_line: 0,
                    byte_range,
                    indicator: None,
                    anchor,
                    has_context_end,
                };
                found.push(node);
                assert(views(found@) =~= views(old_found).push(node@));
                assert(node@ == candidate(context, query_match.ends@, anchor));
            }
            k += 1;
        }
        n += 1;
    }
    found
}

/// Where a node of line `line` belongs in a list ordered by line: the index
/// of the first node whose line is not smaller.
pub open spec fn position(list: Seq<StickyNodeView>, line: usize) -> int
    decreases list.len(),
{
    if list.len() == 0 || list[0].line >= line {
        0
    } else {
        1 + position(list.drop_first(), line)
    }
}

/// The list with `node` at its place, unless the list has its line already.
pub open spec fn place(list: Seq<StickyNodeView>, node: StickyNodeView) -> Seq<StickyNodeView> {
    let k = position(list, node.line);
    if k < list.len() && list[k].line == node.line {
        list
    } else {
        list.insert(k, node)
    }
}

/// The nodes of `found` by ascending line, with the first node of each line
/// only.
pub open spec fn sorted_dedup(found: Seq<StickyNodeView>) -> Seq<StickyNodeView>
    decreases found.len(),
{
    if found.len() == 0 {
        Seq::empty()
    } else {
        place(sorted_dedup(found.drop_last()), found.last())
    }
}

/// Whether the lines of `list` grow strictly.
pub open spec fn lines_increase(list: Seq<StickyNodeView>) -> bool {
    forall|i: int, j: int| 0 <= i < j < list.len() ==> list[i].line < list[j].line
}

/// Whether `list` has a node of line `line`.
pub open spec fn has_line(list: Seq<StickyNodeView>, line: usize) -> bool {
    exists|i: int| 0 <= i < list.len() && #[trigger] list[i].line == line
}

/// Whether `node` is the first node of its line in `found`.
pub open spec fn first_of_line(found: Seq<StickyNodeView>, node: StickyNodeView) -> bool {
    exists|k: int|
        0 <= k < found.len() && #[trigger] found[k] == node && forall|j: int|
            0 <= j < k ==> (#[trigger] found[j]).line != node.line
}

/// What `position` returns in a list ordered by line.
pub proof fn lemma_position(list: Seq<StickyNodeView>, line: usize)
    requires
        lines_increase(list),
    ensures
        0 <= position(list, line) <= list.len(),
        forall|i: int| 0 <= i < position(list, line) ==> (#[trigger] list[i]).line < line,
        forall|i: int| position(list, line) <= i < list.len() ==> (#[trigger] list[i]).line >= line,
    decreases list.len(),
{
    if list.len() == 0 || list[0].line >= line {
        assert forall|i: int| 0 <= i < list.len() implies (#[trigger] list[i]).line >= line by {
            if i > 0 {
                assert(list[0].line < list[i].line);
            }
        }
    } else {
        let rest = list.drop_first();
        assert forall|i: int, j: int| 0 <= i < j < rest.len() implies rest[i].line
            < rest[j].line by {
            assert(list[i + 1].line < list[j + 1].line);
        }
        lemma_position(rest, line);
        assert forall|i: int| 0 <= i < position(list, line) implies (#[trigger] list[i]).line
            < line by {
            if i > 0 {
                assert(list[i] == rest[i - 1]);
            }
        }
        assert forall|i: int| position(list, line) <= i < list.len() implies (
        #[trigger] list[i]).line >= line by {
            assert(list[i] == rest[i - 1]);
        }
    }
}

/// Whether `list` is `found` ordered by line and without a second node of
/// any line: its lines grow strictly, it holds every line of `found`, and it
/// holds of each line the node that comes first in `found`.
pub open spec fn is_sorted_dedup(list: Seq<StickyNodeView>, found: Seq<StickyNodeView>) -> bool {
    &&& lines_increase(list)
    &&& list.len() <= found.len()
    &&& forall|k: int| 0 <= k < found.len() ==> has_line(list, (#[trigger] found[k]).line)
    &&& forall|i: int| 0 <= i < list.len() ==> first_of_line(found, #[trigger] list[i])
}

/// A node that comes first of its line in `front` does so in `front` with
/// one more node behind it.
proof fn lemma_first_of_line_push(
    front: Seq<StickyNodeView>,
    last: StickyNodeView,
    node: StickyNodeView,
)
    requires
        first_of_line(front, node),
    ensures
        first_of_line(front.push(last), node),
{
    let found = front.push(last);
    let w = choose|w: int|
        0 <= w < front.len() && #[trigger] front[w] == node && forall|j: int|
            0 <= j < w ==> (#[trigger] front[j]).line != node.line;
    assert(found[w] == node);
    assert forall|j: int| 0 <= j < w implies (#[trigger] found[j]).line != node.line by {
        assert(found[j] == front[j]);
    }
}

/// A line of `list` is a line of `list` with `node` put in at `k`.
proof fn lemma_has_line_insert(list: Seq<StickyNodeView>, k: int, node: StickyNodeView, line: usize)
    requires
        0 <= k <= list.len(),
        has_line(list, line) || node.line == line,
    ensures
        has_line(list.insert(k, node), line),
{
    let out = list.insert(k, node);
    if has_line(list, line) {
        let i = choose|i: int| 0 <= i < list.len() && #[trigger] list[i].line == line;
        let t = if i < k { i } else { i + 1 };
        assert(out[t].line == line);
    } else {
        assert(out[k].line == line);
    }
}

/// Placing the node that follows `front` keeps the list ordered and
/// without a second node of any line.
proof fn lemma_place(list: Seq<StickyNodeView>, front: Seq<StickyNodeView>, node: StickyNodeView)
    requires
        is_sorted_dedup(list, front),
    ensures
        is_sorted_dedup(place(list, node), front.push(node)),
{
    let found = front.push(node);
    let out = place(list, node);
    lemma_position(list, node.line);
    let k = position(list, node.line);
    assert forall|i: int| 0 <= i < list.len() implies first_of_line(found, #[trigger] list[i]) by {
        lemma_first_of_line_push(front, node, list[i]);
    }
    if k < list.len() && list[k].line == node.line {
        assert forall|n: int| 0 <= n < found.len() implies has_line(
            out,
            (#[trigger] found[n]).line,
        ) by {
            if n < front.len() {
                assert(found[n] == front[n]);
            } else {
                assert(out[k].line == node.line);
            }
        }
    } else {
        assert(out == list.insert(k, node));
        assert forall|i: int, j: int| 0 <= i < j < out.len() implies out[i].line
            < out[j].line by {
            let a = if i < k { i } else { i - 1 };
            let b = if j < k { j } else { j - 1 };
            if i != k && j != k {
                assert(out[i] == list[a] && out[j] == list[b]);
            } else if i == k {
                assert(out[j] == list[b]);
            } else {
                assert(out[i] == list[a]);
            }
        }
        assert forall|n: int| 0 <= n < found.len() implies has_line(
            out,
            (#[trigger] found[n]).line,
        ) by {
            if n < front.len() {
                assert(found[n] == front[n]);
            }
            lemma_has_line_insert(list, k, node, found[n].line);
        }
        assert(!has_line(list, node.line)) by {
            if has_line(list, node.line) {
                let q = choose|q: int| 0 <= q < list.len() && #[trigger] list[q].line == node.line;
                if q > k {
                    assert(list[k].line < list[q].line);
                }
            }
        }
        assert(first_of_line(found, node)) by {
            let w = found.len() - 1;
            assert(found[w] == node);
            assert forall|j: int| 0 <= j < w implies (#[trigger] found[j]).line != node.line by {
                assert(found[j] == front[j]);
                assert(has_line(list, front[j].line));
            }
        }
        assert forall|i: int| 0 <= i < out.len() implies first_of_line(
            found,
            #[trigger] out[i],
        ) by {
            if i != k {
                let a = if i < k { i } else { i - 1 };
                assert(out[i] == list[a]);
            }
        }
    }
}

/// The list that `sorted_dedup` gives is ordered by strictly growing line,
/// holds every line of `found`, and holds of each line the node that comes
/// first in `found`.
pub proof fn lemma_sorted_dedup(found: Seq<StickyNodeView>)
    ensures
        is_sorted_dedup(sorted_dedup(found), found),
    decreases found.len(),
{
    if found.len() > 0 {
        lemma_sorted_dedup(found.drop_last());
        lemma_place(sorted_dedup(found.drop_last()), found.drop_last(), found.last());
        assert(found.drop_last().push(found.last()) =~= found);
    }
}

/// A node with the same contents.
fn copy_node(node: &StickyNode) -> (r: StickyNode)
    ensures
        r@ == node@,
{
    StickyNode {
        line: node.line,
        visual_line: node.visual_line,
        byte_range: node.byte_range.start..node.byte_range.end,
        indicator: match &node.indicator {
            Some(text) => Some(text.clone()),
            None => None,
        },
        anchor: node.anchor,
        has_context_end: node.has_context_end,
    }
}

/// Orders the nodes by line and keeps, of several nodes of one line, the
/// one that comes first.
pub fn sort_and_dedup(found: &Vec<StickyNode>) -> (r: Vec<StickyNode>)
    ensures
        views(r@) == sorted_dedup(views(found@)),
        lines_increase(views(r@)),
        r@.len() <= found@.len(),
        forall|k: int| 0 <= k < found@.len() ==> has_line(views(r@), (#[trigger] found@[k]).line),
        forall|i: int| 0 <= i < r@.len() ==> first_of_line(views(found@), (#[trigger] r@[i])@),
{
    let mut list: Vec<StickyNode> = Vec::new();
    let mut n: usize = 0;
    assert(views(found@).take(0) =~= Seq::<StickyNodeView>::empty());
    assert(views(list@) =~= sorted_dedup(views(found@).take(0)));
    while n < found.len()
        invariant
            0 <= n <= found.len(),
            views(list@) == sorted_dedup(views(found@).take(n as int)),
        decreases found.len() - n,
    {
        let node = copy_node(&found[n]);
        let ghost before = views(list@);
        proof {
            assert(views(found@).take(n + 1).drop_last() =~= views(found@).take(n as int));
            assert(views(found@).take(n + 1).last() == node@);
            lemma_sorted_dedup(views(found@).take(n as int));
        }
        let mut k: usize = 0;
        assert(before.skip(0) =~= before);
        while k < list.len() && list[k].line < node.line
            invariant
                0 <= k <= list.len(),
                before == views(list@),
                position(before, node.line) == k + position(before.skip(k as int), node.line),
            decreases list.len() - k,
        {
            proof {
                assert(before.skip(k as int)[0] == before[k as int]);
                assert(before.skip(k as int).drop_first() =~= before.skip(k + 1));
            }
            k += 1;
        }
        proof {
            if k < list.len() {
                assert(before.skip(k as int)[0] == before[k as int]);
            }
        }
        if k < list.len() && list[k].line == node.line {
        } else {
            list.insert(k, node);
            assert(views(list@) =~= before.insert(k as int, node@));
        }
        n += 1;
    }
    proof {
        assert(views(found@).take(n as int) =~= views(found@));
        lemma_sorted_dedup(views(found@));
        assert forall|i: int| 0 <= i < list@.len() implies first_of_line(
            views(found@),
            (#[trigger] list@[i])@,
        ) by {
            assert(views(list@)[i] == list@[i]@);
        }
        assert forall|k: int| 0 <= k < found@.len() implies has_line(
            views(list@),
            (#[trigger] found@[k]).line,
        ) by {
            assert(views(found@)[k].line == found@[k].line);
        }
    }
    list
}

/// The most lines that are pinned: the configured number, or a third of the
/// viewport's height where that is more.
pub open spec fn max_nodes(config: StickyConfig, view: Viewport) -> int {
    let third = view.height as int / 3;
    if config.max_lines as int >= third {
        config.max_lines as int
    } else {
        third
    }
}

/// How many of `len` ordered nodes are shown: at most `cap`, and none on or
/// below the row of the cursor, where the divider takes one row more.
pub open spec fn shown_count(len: int, cap: int, indicator: bool, row: int) -> int {
    let kept = if len <= cap { len } else { cap };
    let stop = row - if indicator { 1int } else { 0int };
    if 0 <= stop < kept {
        stop
    } else {
        kept
    }
}

/// The node as it is shown on row `row`.
pub open spec fn on_row(node: StickyNodeView, row: int) -> StickyNodeView {
    StickyNodeView {
        line: node.line,
        visual_line: row as u16,
        start: node.start,
        end: node.end,
        indicator: node.indicator,
        anchor: node.anchor,
        has_context_end: node.has_context_end,
    }
}

/// The nodes that are shown: of the last `cap` nodes of `sorted` the first
/// `shown_count`, each on the row of its index.
pub open spec fn shown(sorted: Seq<StickyNodeView>, cap: int, indicator: bool, row: int) -> Seq<
    StickyNodeView,
> {
    let kept = if sorted.len() <= cap { sorted.len() as int } else { cap };
    let skip = sorted.len() - kept;
    Seq::new(
        shown_count(sorted.len() as int, cap, indicator, row) as nat,
        |i: int| on_row(sorted[skip + i], i),
    )
}

/// The text of a divider as wide as the viewport.
pub open spec fn divider_chars(width: u16) -> Seq<char> {
    Seq::new(width as nat, |i: int| '\u{2500}')
}

/// The divider that is drawn on row `row`.
pub open spec fn divider(width: u16, row: int, anchor: usize) -> StickyNodeView {
    StickyNodeView {
        line: usize::MAX,
        visual_line: row as u16,
        start: 0,
        end: 0,
        indicator: Some(divider_chars(width)),
        anchor,
        has_context_end: false,
    }
}

/// The list that is pinned for the given matches of the context query:
/// nothing where no context qualifies, else the shown nodes and, where the
/// configuration asks for it, the divider behind them.
pub open spec fn sticky_list(
    matches: Seq<ContextMatch>,
    bounds: ScanBounds,
    view: Viewport,
    config: StickyConfig,
    row: u16,
) -> Option<Seq<StickyNodeView>> {
    let found = candidates(matches, matches.len() as int, bounds, view.anchor);
    if found.len() == 0 {
        None
    } else {
        let list = shown(
            sorted_dedup(found),
            max_nodes(config, view),
            config.indicator,
            row as int,
        );
        if config.indicator {
            Some(list.push(divider(view.width, list.len() as int, view.anchor)))
        } else {
            Some(list)
        }
    }
}

/// What holds of every list that is computed: the pinned lines grow
/// strictly, there are at most `cap` of them, each node is shown on the row
/// of its index, and a divider stands at the end where `indicator` is set,
/// and nowhere else.
pub open spec fn is_sticky_list(list: Seq<StickyNodeView>, cap: int, indicator: bool) -> bool {
    let lines = if indicator { list.len() - 1 } else { list.len() as int };
    &&& 0 <= lines <= cap
    &&& forall|i: int, j: int| 0 <= i < j < lines ==> list[i].line < list[j].line
    &&& forall|i: int| 0 <= i < list.len() ==> (#[trigger] list[i]).visual_line == i
    &&& forall|i: int| 0 <= i < lines ==> (#[trigger] list[i]).indicator is None
    &&& indicator ==> list[lines].indicator is Some && list[lines].line == usize::MAX
}

/// Every list that `sticky_list` gives is ordered, capped and numbered as
/// `is_sticky_list` says.
pub proof fn lemma_sticky_list(
    matches: Seq<ContextMatch>,
    bounds: ScanBounds,
    view: Viewport,
    config: StickyConfig,
    row: u16,
)
    ensures
        sticky_list(matches, bounds, view, config, row) matches Some(list) ==> is_sticky_list(
            list,
            max_nodes(config, view),
            config.indicator,
        ),
{
    let found = candidates(matches, matches.len() as int, bounds, view.anchor);
    if found.len() > 0 {
        let sorted = sorted_dedup(found);
        let cap = max_nodes(config, view);
        lemma_sorted_dedup(found);
        lemma_candidates_plain(matches, matches.len() as int, bounds, view.anchor);
        let list = shown(sorted, cap, config.indicator, row as int);
        let kept = if sorted.len() <= cap { sorted.len() as int } else { cap };
        let skip = sorted.len() - kept;
        assert forall|i: int| 0 <= i < list.len() implies (#[trigger] list[i]).indicator
            is None by {
            assert(first_of_line(found, sorted[skip + i]));
        }
    }
}

/// No candidate is a divider.
pub proof fn lemma_candidates_plain(
    matches: Seq<ContextMatch>,
    n: int,
    bounds: ScanBounds,
    anchor: usize,
)
    ensures
        forall|i: int|
            0 <= i < candidates(matches, n, bounds, anchor).len() ==> (#[trigger] candidates(
                matches,
                n,
                bounds,
                anchor,
            )[i]).indicator is None,
    decreases n,
{
    if n > 0 {
        lemma_candidates_plain(matches, n - 1, bounds, anchor);
        lemma_take_contexts_plain(
            candidates(matches, n - 1, bounds, anchor),
            matches[n - 1].contexts@,
            matches[n - 1].ends@,
            matches[n - 1].contexts@.len() as int,
            bounds,
            anchor,
        );
    }
}

/// Looking at the contexts of a match adds no divider.
pub proof fn lemma_take_contexts_plain(
    found: Seq<StickyNodeView>,
    contexts: Seq<Capture>,
    ends: Seq<Capture>,
    k: int,
    bounds: ScanBounds,
    anchor: usize,
)
    requires
        forall|i: int| 0 <= i < found.len() ==> (#[trigger] found[i]).indicator is None,
    ensures
        forall|i: int|
            0 <= i < take_contexts(found, contexts, ends, k, bounds, anchor).len() ==> (
            #[trigger] take_contexts(found, contexts, ends, k, bounds, anchor)[i]).indicator
                is None,
    decreases k,
{
    if k > 0 {
        lemma_take_contexts_plain(found, contexts, ends, k - 1, bounds, anchor);
    }
}

/// `str::repeat` on the divider's character: a string of `width` of them.
#[verifier::external_body]
fn divider_text(width: u16) -> (text: String)
    ensures
        text@ == divider_chars(width),
{
    "\u{2500}".repeat(width as usize)
}

/// Keeps of the ordered nodes the last `cap`, drops what would stand on or
/// below the row of the cursor, and numbers the rest by row.
pub fn visible_nodes(sorted: &Vec<StickyNode>, cap: u16, indicator: bool, row: u16) -> (r: Vec<
    StickyNode,
>)
    ensures
        views(r@) == shown(views(sorted@), cap as int, indicator, row as int),
{
    let kept: usize = if sorted.len() <= cap as usize {
        sorted.len()
    } else {
        cap as usize
    };
    let skip: usize = sorted.len() - kept;
    let reserved: usize = if indicator {
        1
    } else {
        0
    };
    let mut list: Vec<StickyNode> = Vec::new();
    let mut i: usize = 0;
    while i < kept && i + reserved != row as usize
        invariant
            0 <= i <= kept <= u16::MAX,
            skip + kept == sorted.len(),
            reserved == if indicator { 1int } else { 0int },
            list@.len() == i,
            i + reserved <= row || row < reserved,
            forall|j: int| 0 <= j < i ==> (#[trigger] list@[j])@ == on_row(sorted@[skip + j]@, j),
        decreases kept - i,
    {
        let node = &sorted[skip + i];
        list.push(
            StickyNode {
                line: node.line,
                visual_line: i as u16,
                byte_range: node.byte_range.start..node.byte_range.end,
                indicator: match &node.indicator {
                    Some(text) => Some(text.clone()),
                    None => None,
                },
                anchor: node.anchor,
                has_context_end: node.has_context_end,
            },
        );
        i += 1;
    }
    assert(views(list@) =~= shown(views(sorted@), cap as int, indicator, row as int));
    list
}

/// The list that is pinned for the given matches of the context query.
pub fn sticky_nodes_from_matches(
    matches: &Vec<ContextMatch>,
    bounds: &ScanBounds,
    view: &Viewport,
    config: &StickyConfig,
    visual_cursor_row: u16,
) -> (r: Option<Vec<StickyNode>>)
    ensures
        r is Some <==> sticky_list(matches@, *bounds, *view, *config, visual_cursor_row) is Some,
        r is Some ==> views(r.unwrap()@) == sticky_list(
            matches@,
            *bounds,
            *view,
            *config,
            visual_cursor_row,
        ).unwrap(),
        r is Some ==> is_sticky_list(
            views(r.unwrap()@),
            max_nodes(*config, *view),
            config.indicator,
        ),
{
    let found = collect_candidates(matches, bounds, view.anchor);
    assert(found@.len() == views(found@).len());
    if found.len() == 0 {
        return None;
    }
    let sorted = sort_and_dedup(&found);
    let third = view.height / 3;
    let cap = if config.max_lines >= third {
        config.max_lines
    } else {
        third
    };
    let mut list = visible_nodes(&sorted, cap, config.indicator, visual_cursor_row);
    assert(list@.len() == views(list@).len());
    if config.indicator {
        let ghost before = list@;
        assert(shown_count(
            views(sorted@).len() as int,
            cap as int,
            config.indicator,
            visual_cursor_row as int,
        ) <= u16::MAX);
        let node = StickyNode {
            line: usize::MAX,
            visual_line: list.len() as u16,
            byte_range: 0..0,
            indicator: Some(divider_text(view.width)),
            anchor: view.anchor,
            has_context_end: false,
        };
        list.push(node);
        assert(views(list@) =~= views(before).push(node@));
    }
    proof {
        lemma_sticky_list(matches@, *bounds, *view, *config, visual_cursor_row);
    }
    Some(list)
}

/// The bounds of the scan for a text of `chars`, with `pinned` lines pinned
/// before: the line of the top of the viewport, the first byte of the line
/// that many lines below it, and the byte of the cursor where the scan
/// follows the cursor, else that first byte again. `None` where the top of
/// the viewport or the cursor lies beyond the text, or the text has no such
/// line.
pub open spec fn scan_bounds_of(
    chars: Seq<char>,
    pinned: int,
    anchor: usize,
    follow_cursor: bool,
    cursor: usize,
) -> Option<(int, int, int)> {
    let line = prefix_lines(chars, anchor as int) + pinned;
    if anchor > chars.len() || cursor > chars.len() || line > usize::MAX || line > total_lines(
        chars,
    ) {
        None
    } else {
        let top = line_start_byte(chars, line);
        Some(
            (
                prefix_lines(chars, anchor as int),
                top,
                if follow_cursor {
                    prefix_bytes(chars, cursor as int)
                } else {
                    top
                },
            ),
        )
    }
}

/// Number of nodes of a list that may be missing.
pub open spec fn pinned_before(nodes: Option<Vec<StickyNode>>) -> int {
    match nodes {
        Some(list) => list@.len() as int,
        None => 0,
    }
}

/// Works out between which bytes the context is looked for.
pub fn scan_bounds(
    nodes: &Option<Vec<StickyNode>>,
    text: &Rope,
    view: &Viewport,
    config: &StickyConfig,
    cursor: usize,
) -> (r: Option<ScanBounds>)
    ensures
        r is Some <==> scan_bounds_of(
            rope_chars(*text),
            pinned_before(*nodes),
            view.anchor,
            config.follow_cursor,
            cursor,
        ) is Some,
        r is Some ==> (
            r.unwrap().anchor_line as int,
            r.unwrap().top_first_byte as int,
            r.unwrap().last_scan_byte as int,
        ) == scan_bounds_of(
            rope_chars(*text),
            pinned_before(*nodes),
            view.anchor,
            config.follow_cursor,
            cursor,
        ).unwrap(),
{
    let cursor_byte = match char_to_byte(text, cursor) {
        Some(byte) => byte,
        None => return None,
    };
    let anchor_line = match char_to_line(text, view.anchor) {
        Some(line) => line,
        None => return None,
    };
    let pinned: usize = match nodes {
        Some(list) => list.len(),
        None => 0,
    };
    let line = match anchor_line.checked_add(pinned) {
        Some(line) => line,
        None => return None,
    };
    let top_first_byte = match line_to_byte(text, line) {
        Some(byte) => byte,
        None => return None,
    };
    let last_scan_byte = if config.follow_cursor {
        cursor_byte
    } else {
        top_first_byte
    };
    Some(ScanBounds { anchor_line, top_first_byte, last_scan_byte })
}

/// Whether a node of the list was computed with the top of the viewport at
/// `anchor`.
pub open spec fn anchored_at(nodes: Seq<StickyNodeView>, anchor: usize) -> bool {
    exists|i: int| 0 <= i < nodes.len() && #[trigger] nodes[i].anchor == anchor
}

/// What is kept of a list computed before, while the viewport has not
/// moved: its nodes above the row of the cursor. `None` where there is no
/// such list or the viewport has moved.
pub open spec fn cached_list(nodes: Option<Vec<StickyNode>>, anchor: usize, row: u16) -> Option<
    Seq<StickyNodeView>,
> {
    match nodes {
        Some(list) => if anchored_at(views(list@), anchor) {
            Some(
                views(list@).take(
                    if row <= list@.len() {
                        row as int
                    } else {
                        list@.len() as int
                    },
                ),
            )
        } else {
            None
        },
        None => None,
    }
}

/// The nodes of the list computed before that can be shown again.
pub fn cached_nodes(nodes: &Option<Vec<StickyNode>>, anchor: usize, visual_cursor_row: u16) -> (r:
    Option<Vec<StickyNode>>)
    ensures
        r is Some <==> cached_list(*nodes, anchor, visual_cursor_row) is Some,
        r is Some ==> views(r.unwrap()@) == cached_list(*nodes, anchor, visual_cursor_row).unwrap(),
{
    let list = match nodes {
        Some(list) => list,
        None => return None,
    };
    let mut hit = false;
    let mut i: usize = 0;
    while i < list.len()
        invariant
            0 <= i <= list.len(),
            hit <==> exists|j: int| 0 <= j < i && #[trigger] views(list@)[j].anchor == anchor,
        decreases list.len() - i,
    {
        if list[i].anchor == anchor {
            assert(views(list@)[i as int].anchor == anchor);
            hit = true;
        }
        i += 1;
    }
    if !hit {
        return None;
    }
    let count: usize = if visual_cursor_row as usize <= list.len() {
        visual_cursor_row as usize
    } else {
        list.len()
    };
    let mut kept: Vec<StickyNode> = Vec::new();
    let mut k: usize = 0;
    while k < count
        invariant
            0 <= k <= count <= list.len(),
            kept@.len() == k,
            forall|j: int| 0 <= j < k ==> (#[trigger] kept@[j])@ == list@[j]@,
        decreases count - k,
    {
        kept.push(copy_node(&list[k]));
        k += 1;
    }
    assert(views(kept@) =~= views(list@).take(count as int));
    Some(kept)
}

/// Number of pinned lines of a list: its nodes but for a divider at its end.
pub open spec fn pinned_lines(list: Seq<StickyNodeView>) -> int {
    if list.len() > 0 && list.last().indicator is Some {
        list.len() - 1
    } else {
        list.len() as int
    }
}

/// Whether the list pins at most `cap` lines, in strictly growing order,
/// with no divider but, at most, one at its end.
pub open spec fn is_capped_list(list: Seq<StickyNodeView>, cap: int) -> bool {
    &&& pinned_lines(list) <= cap
    &&& forall|i: int, j: int| 0 <= i < j < pinned_lines(list) ==> list[i].line < list[j].line
    &&& forall|i: int| 0 <= i < pinned_lines(list) ==> (#[trigger] list[i]).indicator is None
}

/// A list as `is_sticky_list` describes it pins at most `cap` lines, in
/// strictly growing order.
pub proof fn lemma_sticky_capped(list: Seq<StickyNodeView>, cap: int, indicator: bool)
    requires
        is_sticky_list(list, cap, indicator),
    ensures
        is_capped_list(list, cap),
{
    if !indicator && list.len() > 0 {
        assert(list[list.len() - 1].indicator is None);
    }
}

/// The first nodes of a list that pins at most `cap` lines pin at most
/// `cap` lines.
pub proof fn lemma_take_capped(list: Seq<StickyNodeView>, cap: int, count: int)
    requires
        is_capped_list(list, cap),
        0 <= count <= list.len(),
    ensures
        is_capped_list(list.take(count), cap),
{
    let kept = list.take(count);
    if count > 0 && count < list.len() {
        if list.last().indicator is Some {
            assert(kept.last() == list[count - 1]);
        }
    }
    assert forall|i: int| 0 <= i < pinned_lines(kept) implies (#[trigger] kept[i]).indicator
        is None by {
        assert(kept[i] == list[i]);
    }
}

/// Whether there is anything to pin for: the cursor stands below the first
/// row of the viewport, there is a tree, and the scan has bounds.
pub open spec fn can_pin(
    nodes: Option<Vec<StickyNode>>,
    chars: Seq<char>,
    has_tree: bool,
    view: Viewport,
    config: StickyConfig,
    cursor: usize,
    cursor_row: Option<u16>,
) -> bool {
    &&& cursor_row is Some
    &&& cursor_row.unwrap() > 0
    &&& has_tree
    &&& scan_bounds_of(chars, pinned_before(nodes), view.anchor, config.follow_cursor, cursor)
        is Some
}

/// The list of pinned lines for the frame that is drawn next.
///
/// Nothing is pinned while the cursor stands on the first row of the
/// viewport or its row is unknown, where there is no tree, and where the
/// bounds of the scan cannot be had. While the viewport has not moved since
/// `nodes` was computed, `nodes` is shown again, cut above the cursor. Else
/// the context query is run on the tree up to the last byte of the scan, and
/// the list is the one that `sticky_list` gives for its matches; without a
/// query, or without a capture named `context` in it, nothing is pinned.
///
/// Where `nodes` pins no more lines than the view and the configuration
/// allow, in growing order, so does the result.
pub fn calculate_sticky_nodes(
    nodes: &Option<Vec<StickyNode>>,
    text: &Rope,
    tree: Option<&Tree>,
    query: Option<&Query>,
    view: &Viewport,
    config: &StickyConfig,
    cursor: usize,
    cursor_row: Option<u16>,
) -> (r: Option<Vec<StickyNode>>)
    ensures
        !can_pin(*nodes, rope_chars(*text), tree is Some, *view, *config, cursor, cursor_row)
            ==> r is None,
        can_pin(*nodes, rope_chars(*text), tree is Some, *view, *config, cursor, cursor_row)
            ==> match cached_list(*nodes, view.anchor, cursor_row.unwrap()) {
            Some(kept) => r is Some && views(r.unwrap()@) == kept,
            None => r is Some ==> query is Some && exists|
                matches: Seq<ContextMatch>,
                bounds: ScanBounds,
            |
                scanned(
                    r.unwrap()@,
                    matches,
                    bounds,
                    *nodes,
                    rope_chars(*text),
                    *view,
                    *config,
                    cursor,
                    cursor_row.unwrap(),
                ),
        },
        r is Some && (nodes matches Some(list) ==> is_capped_list(
            views(list@),
            max_nodes(*config, *view),
        )) ==> is_capped_list(views(r.unwrap()@), max_nodes(*config, *view)),
{
    let visual_cursor_row = match cursor_row {
        Some(row) => row,
        None => return None,
    };
    let tree = match tree {
        Some(tree) => tree,
        None => return None,
    };
    if visual_cursor_row == 0 {
        return None;
    }
    let bounds = match scan_bounds(nodes, text, view, config, cursor) {
        Some(bounds) => bounds,
        None => return None,
    };
    match cached_nodes(nodes, view.anchor, visual_cursor_row) {
        Some(kept) => {
            proof {
                let list = views(nodes.unwrap()@);
                if is_capped_list(list, max_nodes(*config, *view)) {
                    lemma_take_capped(
                        list,
                        max_nodes(*config, *view),
                        if visual_cursor_row <= list.len() {
                            visual_cursor_row as int
                        } else {
                            list.len() as int
                        },
                    );
                }
            }
            return Some(kept);
        },
        None => {},
    }
    let query = match query {
        Some(query) => query,
        None => return None,
    };
    let context_index = match capture_index(query, "context") {
        Some(index) => index,
        None => return None,
    };
    let end_index = match capture_index(query, "context.params") {
        Some(index) => index,
        None => context_index,
    };
    let source = text_bytes(text);
    let matches = context_matches(
        query,
        tree,
        source.as_slice(),
        bounds.last_scan_byte,
        context_index,
        end_index,
    );
    let list = sticky_nodes_from_matches(&matches, &bounds, view, config, visual_cursor_row);
    proof {
        if list is Some {
            lemma_sticky_capped(
                views(list.unwrap()@),
                max_nodes(*config, *view),
                config.indicator,
            );
            assert(scanned(
                list.unwrap()@,
                matches@,
                bounds,
                *nodes,
                rope_chars(*text),
                *view,
                *config,
                cursor,
                visual_cursor_row,
            ));
        }
    }
    list
}

/// Whether `list` is what is pinned after a scan between `bounds` that
/// found `matches`: the bounds are those of the text and the view, and the
/// list is the one that `sticky_list` gives.
pub open spec fn scanned(
    list: Seq<StickyNode>,
    matches: Seq<ContextMatch>,
    bounds: ScanBounds,
    nodes: Option<Vec<StickyNode>>,
    chars: Seq<char>,
    view: Viewport,
    config: StickyConfig,
    cursor: usize,
    row: u16,
) -> bool {
    &&& scan_bounds_of(chars, pinned_before(nodes), view.anchor, config.follow_cursor, cursor)
        == Some(
        (bounds.anchor_line as int, bounds.top_first_byte as int, bounds.last_scan_byte as int),
    )
    &&& sticky_list(matches, bounds, view, config, row) == Some(views(list))
    &&& is_sticky_list(views(list), max_nodes(config, view), config.indicator)
}

} // verus!
