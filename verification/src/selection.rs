//! A selection: one or more ranges, ordered by their starts, of which no
//! two share text, and one of which is the primary range.
use crate::range::Range;
use vstd::prelude::*;

verus! {

/// A selection over the text.
#[derive(Debug, Clone)]
pub struct Selection {
    ranges: Vec<Range>,
    primary_index: usize,
}

/// Whether the starts of the ranges never fall.
pub open spec fn starts_ascend(s: Seq<Range>) -> bool {
    forall|i: int, j: int| 0 <= i < j < s.len() ==> s[i].start() <= s[j].start()
}

/// Whether the ranges are in order and apart: each starts behind the start
/// of every range before it, and not before the end of any of them.
pub open spec fn is_normal(s: Seq<Range>) -> bool {
    forall|i: int, j: int|
        0 <= i < j < s.len() ==> s[i].start() < s[j].start() && s[i].end() <= s[j].start()
}

/// Where a range that starts at `start` goes in a list ordered by start:
/// behind every range that starts there or before.
pub open spec fn slot(list: Seq<Range>, start: usize) -> int
    decreases list.len(),
{
    if list.len() == 0 || list[0].start() > start {
        0
    } else {
        1 + slot(list.drop_first(), start)
    }
}

/// The ranges by ascending start; ranges of one start keep their order.
pub open spec fn ordered(s: Seq<Range>) -> Seq<Range>
    decreases s.len(),
{
    if s.len() == 0 {
        Seq::empty()
    } else {
        ordered(s.drop_last()).insert(slot(ordered(s.drop_last()), s.last().start()), s.last())
    }
}

/// The ranges of a list ordered by start, with every range that touches
/// what came before it joined to it.
pub open spec fn merged(s: Seq<Range>) -> Seq<Range>
    decreases s.len(),
{
    if s.len() == 0 {
        Seq::empty()
    } else {
        let before = merged(s.drop_last());
        if before.len() > 0 && before.last().touches(s.last()) {
            before.drop_last().push(before.last().joined(s.last()))
        } else {
            before.push(s.last())
        }
    }
}

/// The ranges in order, with those that touch joined.
pub open spec fn normalized(s: Seq<Range>) -> Seq<Range> {
    merged(ordered(s))
}

/// Whether `out` has taken `range` in: it spans it and touches it.
pub open spec fn absorbs(out: Range, range: Range) -> bool {
    out.spans(range) && out.touches(range)
}

/// Whether some range of `list` has taken `range` in.
pub open spec fn absorbed(list: Seq<Range>, range: Range) -> bool {
    exists|j: int| 0 <= j < list.len() && absorbs(#[trigger] list[j], range)
}

/// What `slot` returns in a list ordered by start.
pub proof fn lemma_slot(list: Seq<Range>, start: usize)
    requires
        starts_ascend(list),
    ensures
        0 <= slot(list, start) <= list.len(),
        forall|i: int| 0 <= i < slot(list, start) ==> (#[trigger] list[i]).start() <= start,
        forall|i: int| slot(list, start) <= i < list.len() ==> (#[trigger] list[i]).start() > start,
    decreases list.len(),
{
    if list.len() == 0 || list[0].start() > start {
        assert forall|i: int| 0 <= i < list.len() implies (#[trigger] list[i]).start() > start by {
            if i > 0 {
                assert(list[0].start() <= list[i].start());
            }
        }
    } else {
        let rest = list.drop_first();
        assert forall|i: int, j: int| 0 <= i < j < rest.len() implies rest[i].start()
            <= rest[j].start() by {
            assert(list[i + 1].start() <= list[j + 1].start());
        }
        lemma_slot(rest, start);
        assert forall|i: int| 0 <= i < slot(list, start) implies (#[trigger] list[i]).start()
            <= start by {
            if i > 0 {
                assert(list[i] == rest[i - 1]);
            }
        }
        assert forall|i: int| slot(list, start) <= i < list.len() implies (
        #[trigger] list[i]).start() > start by {
            assert(list[i] == rest[i - 1]);
        }
    }
}

/// Putting a range in at its slot keeps the list ordered by start.
pub proof fn lemma_insert_ordered(list: Seq<Range>, range: Range)
    requires
        starts_ascend(list),
    ensures
        starts_ascend(list.insert(slot(list, range.start()), range)),
{
    lemma_slot(list, range.start());
    let k = slot(list, range.start());
    let out = list.insert(k, range);
    assert forall|i: int, j: int| 0 <= i < j < out.len() implies out[i].start()
        <= out[j].start() by {
        let a = if i < k { i } else { i - 1 };
        let b = if j < k { j } else { j - 1 };
        if i != k && j != k {
            assert(out[i] == list[a] && out[j] == list[b]);
        } else if i == k {
            assert(out[j] == list[b]);
        } else {
            assert(out[i] == list[a]);
        }
    }
}

/// `ordered` gives the same ranges, by ascending start.
pub proof fn lemma_ordered(s: Seq<Range>)
    ensures
        starts_ascend(ordered(s)),
        ordered(s).len() == s.len(),
        forall|i: int| 0 <= i < s.len() ==> ordered(s).contains(#[trigger] s[i]),
        forall|j: int| 0 <= j < ordered(s).len() ==> s.contains(#[trigger] ordered(s)[j]),
    decreases s.len(),
{
    if s.len() > 0 {
        let front = s.drop_last();
        let list = ordered(front);
        lemma_ordered(front);
        lemma_slot(list, s.last().start());
        lemma_insert_ordered(list, s.last());
        let k = slot(list, s.last().start());
        let out = ordered(s);
        assert forall|i: int| 0 <= i < s.len() implies out.contains(#[trigger] s[i]) by {
            if i < front.len() {
                assert(front[i] == s[i]);
                assert(list.contains(front[i]));
                let j = choose|j: int| 0 <= j < list.len() && list[j] == front[i];
                let t = if j < k { j } else { j + 1 };
                assert(out[t] == s[i]);
            } else {
                assert(out[k] == s[i]);
            }
        }
        assert forall|j: int| 0 <= j < out.len() implies s.contains(#[trigger] out[j]) by {
            if j == k {
                assert(s[s.len() - 1] == out[j]);
            } else {
                let a = if j < k { j } else { j - 1 };
                assert(out[j] == list[a]);
                assert(front.contains(list[a]));
                let i = choose|i: int| 0 <= i < front.len() && front[i] == list[a];
                assert(s[i] == out[j]);
            }
        }
    }
}

/// Joining what touches, in a list ordered by start, leaves ranges that are
/// in order and apart, none of which starts behind the last range of the
/// list, and each range of the list is taken in by one of them.
pub proof fn lemma_merged(s: Seq<Range>)
    requires
        starts_ascend(s),
    ensures
        is_normal(merged(s)),
        merged(s).len() <= s.len(),
        s.len() > 0 ==> merged(s).len() > 0 && absorbs(merged(s).last(), s.last()),
        forall|i: int| 0 <= i < s.len() ==> absorbed(merged(s), #[trigger] s[i]),
        forall|j: int|
            0 <= j < merged(s).len() ==> s.len() > 0 && (#[trigger] merged(s)[j]).start()
                <= s.last().start(),
    decreases s.len(),
{
    if s.len() > 0 {
        let front = s.drop_last();
        let last = s.last();
        assert forall|i: int, j: int| 0 <= i < j < front.len() implies front[i].start()
            <= front[j].start() by {
            assert(s[i].start() <= s[j].start());
        }
        lemma_merged(front);
        let before = merged(front);
        let out = merged(s);
        if front.len() > 0 {
            assert(front.last() == s[s.len() - 2]);
            assert(s[s.len() - 2].start() <= s[s.len() - 1].start());
        }
        if before.len() > 0 && before.last().touches(last) {
            let top = before.len() - 1;
            assert(out.len() == before.len());
            assert(out[top] == before.last().joined(last));
            assert forall|i: int, j: int| 0 <= i < j < out.len() implies out[i].start()
                < out[j].start() && out[i].end() <= out[j].start() by {
                assert(out[i] == before[i]);
                if j < top {
                    assert(out[j] == before[j]);
                } else {
                    assert(before[i].start() < before[top].start());
                }
            }
            assert forall|i: int| 0 <= i < s.len() implies absorbed(out, #[trigger] s[i]) by {
                if i < front.len() {
                    assert(s[i] == front[i]);
                    assert(absorbed(before, front[i]));
                    let j = choose|j: int|
                        0 <= j < before.len() && absorbs(#[trigger] before[j], front[i]);
                    if j < top {
                        assert(out[j] == before[j]);
                    } else {
                        assert(absorbs(out[top], s[i]));
                    }
                } else {
                    assert(absorbs(out[top], s[i]));
                }
            }
            assert forall|j: int| 0 <= j < out.len() implies (#[trigger] out[j]).start()
                <= last.start() by {
                if j < top {
                    assert(out[j] == before[j]);
                }
            }
        } else {
            let top = before.len() as int;
            assert(out == before.push(last));
            assert forall|i: int, j: int| 0 <= i < j < out.len() implies out[i].start()
                < out[j].start() && out[i].end() <= out[j].start() by {
                assert(out[i] == before[i]);
                if j < top {
                    assert(out[j] == before[j]);
                } else {
                    assert(before[i].start() <= front.last().start());
                    assert(before[i].start() <= before.last().start());
                    if i < top - 1 {
                        assert(before[i].end() <= before[top - 1].start());
                    }
                }
            }
            assert forall|i: int| 0 <= i < s.len() implies absorbed(out, #[trigger] s[i]) by {
                if i < front.len() {
                    assert(s[i] == front[i]);
                    assert(absorbed(before, front[i]));
                    let j = choose|j: int|
                        0 <= j < before.len() && absorbs(#[trigger] before[j], front[i]);
                    assert(out[j] == before[j]);
                } else {
                    assert(absorbs(out[top], s[i]));
                }
            }
            assert forall|j: int| 0 <= j < out.len() implies (#[trigger] out[j]).start()
                <= last.start() by {
                if j < top {
                    assert(out[j] == before[j]);
                }
            }
        }
    }
}

/// The ranges of `normalized` are in order and apart, and each of the
/// ranges they were made from is taken in by one of them.
pub proof fn lemma_normalized(s: Seq<Range>)
    ensures
        is_normal(normalized(s)),
        normalized(s).len() <= s.len(),
        s.len() > 0 ==> normalized(s).len() > 0,
        forall|i: int| 0 <= i < s.len() ==> absorbed(normalized(s), #[trigger] s[i]),
{
    lemma_ordered(s);
    lemma_merged(ordered(s));
    assert forall|i: int| 0 <= i < s.len() implies absorbed(normalized(s), #[trigger] s[i]) by {
        assert(ordered(s).contains(s[i]));
        let j = choose|j: int| 0 <= j < ordered(s).len() && ordered(s)[j] == s[i];
        assert(absorbed(merged(ordered(s)), ordered(s)[j]));
    }
}

/// Ranges that are in order already stay in their order.
pub proof fn lemma_ordered_fixed(s: Seq<Range>)
    requires
        is_normal(s),
    ensures
        ordered(s) == s,
    decreases s.len(),
{
    if s.len() > 0 {
        let front = s.drop_last();
        assert forall|i: int, j: int| 0 <= i < j < front.len() implies front[i].start()
            < front[j].start() && front[i].end() <= front[j].start() by {
            assert(s[i].start() < s[j].start() && s[i].end() <= s[j].start());
        }
        lemma_ordered_fixed(front);
        lemma_slot(front, s.last().start());
        let k = slot(front, s.last().start());
        if k < front.len() {
            assert(front[k] == s[k]);
            assert(s[k].start() < s[s.len() - 1].start());
        }
        assert(front.insert(k, s.last()) =~= s);
    }
}

/// Ranges that are in order and apart have nothing to join.
pub proof fn lemma_merged_fixed(s: Seq<Range>)
    requires
        is_normal(s),
    ensures
        merged(s) == s,
    decreases s.len(),
{
    if s.len() > 0 {
        let front = s.drop_last();
        assert forall|i: int, j: int| 0 <= i < j < front.len() implies front[i].start()
            < front[j].start() && front[i].end() <= front[j].start() by {
            assert(s[i].start() < s[j].start() && s[i].end() <= s[j].start());
        }
        lemma_merged_fixed(front);
        if front.len() > 0 {
            assert(front.last() == s[s.len() - 2]);
            assert(s[s.len() - 2].start() < s[s.len() - 1].start());
        }
        assert(front.push(s.last()) =~= s);
    }
}

/// Ranges that are in order and apart stay as they are.
pub proof fn lemma_normal_fixed(s: Seq<Range>)
    requires
        is_normal(s),
    ensures
        normalized(s) == s,
{
    lemma_ordered_fixed(s);
    lemma_merged_fixed(s);
}

/// The ranges by ascending start, with the place to which the range at
/// `primary` went.
fn sort_ranges(ranges: &Vec<Range>, primary: usize) -> (r: (Vec<Range>, usize))
    requires
        primary < ranges@.len(),
    ensures
        r.0@ == ordered(ranges@),
        r.1 < r.0@.len(),
        r.0@[r.1 as int] == ranges@[primary as int],
{
    let mut list: Vec<Range> = Vec::new();
    let mut place: usize = 0;
    let mut n: usize = 0;
    assert(ranges@.take(0) =~= Seq::<Range>::empty());
    while n < ranges.len()
        invariant
            0 <= n <= ranges.len(),
            primary < ranges@.len(),
            list@ == ordered(ranges@.take(n as int)),
            list@.len() == n,
            n > primary ==> place < list@.len() && list@[place as int] == ranges@[primary as int],
        decreases ranges.len() - n,
    {
        let range = ranges[n];
        let ghost before = list@;
        proof {
            assert(ranges@.take(n + 1).drop_last() =~= ranges@.take(n as int));
            assert(ranges@.take(n + 1).last() == range);
        }
        let mut k: usize = 0;
        assert(before.skip(0) =~= before);
        while k < list.len() && list[k].from() <= range.from()
            invariant
                0 <= k <= list.len(),
                before == list@,
                slot(before, range.start()) == k + slot(before.skip(k as int), range.start()),
            decreases list.len() - k,
        {
            proof {
                assert(before.skip(k as int)[0] == before[k as int]);
                assert(before.skip(k as int).drop_first() =~= before.skip(k + 1));
            }
            k += 1;
        }
        proof {
            if k < list.len() {
                assert(before.skip(k as int)[0] == before[k as int]);
            }
        }
        list.insert(k, range);
        if n == primary {
            place = k;
        } else if n > primary && k <= place {
            place = place + 1;
        }
        n += 1;
    }
    assert(ranges@.take(n as int) =~= ranges@);
    (list, place)
}

/// Joins every range of a list ordered by start to what it touches, and
/// follows the range at `primary` to the range that takes it in.
fn merge_ranges(sorted: &Vec<Range>, primary: usize) -> (r: (Vec<Range>, usize))
    requires
        starts_ascend(sorted@),
        primary < sorted@.len(),
    ensures
        r.0@ == merged(sorted@),
        r.1 < r.0@.len(),
        absorbs(r.0@[r.1 as int], sorted@[primary as int]),
{
    let mut list: Vec<Range> = Vec::new();
    let mut place: usize = 0;
    let mut n: usize = 0;
    assert(sorted@.take(0) =~= Seq::<Range>::empty());
    while n < sorted.len()
        invariant
            0 <= n <= sorted.len(),
            primary < sorted@.len(),
            starts_ascend(sorted@),
            list@ == merged(sorted@.take(n as int)),
            n > primary ==> place < list@.len() && absorbs(
                list@[place as int],
                sorted@[primary as int],
            ),
        decreases sorted.len() - n,
    {
        let range = sorted[n];
        let ghost before = list@;
        proof {
            assert(sorted@.take(n + 1).drop_last() =~= sorted@.take(n as int));
            assert(sorted@.take(n + 1).last() == range);
            assert forall|i: int, j: int| 0 <= i < j < n implies sorted@.take(n as int)[i].start()
                <= sorted@.take(n as int)[j].start() by {
                assert(sorted@[i].start() <= sorted@[j].start());
            }
            lemma_merged(sorted@.take(n as int));
            if n > 0 {
                assert(sorted@.take(n as int).last() == sorted@[n - 1]);
                assert(sorted@[n - 1].start() <= sorted@[n as int].start());
            }
        }
        let count = list.len();
        if count > 0 && list[count - 1].overlaps(&range) {
            let joined = list[count - 1].merge(range);
            list.set(count - 1, joined);
            assert(list@ =~= before.drop_last().push(before.last().joined(range)));
            if n == primary {
                place = count - 1;
            }
        } else {
            list.push(range);
            if n == primary {
                place = count;
            }
        }
        n += 1;
    }
    assert(sorted@.take(n as int) =~= sorted@);
    (list, place)
}

impl View for Selection {
    type V = Seq<Range>;

    closed spec fn view(&self) -> Seq<Range> {
        self.ranges@
    }
}

impl Selection {
    /// The index of the primary range.
    pub closed spec fn primary_at(&self) -> int {
        self.primary_index as int
    }

    /// Whether the selection has a range, its primary range is one of its
    /// ranges, and its ranges are in order and apart.
    pub open spec fn wf(&self) -> bool {
        &&& self@.len() > 0
        &&& 0 <= self.primary_at() < self@.len()
        &&& is_normal(self@)
    }

    /// The selection of the given ranges, put in order and with those that
    /// touch joined. Its primary range is the one that has taken in the
    /// range at `primary_index`. `None` where there is no range or no range
    /// at `primary_index`.
    pub fn new(ranges: Vec<Range>, primary_index: usize) -> (r: Option<Selection>)
        ensures
            r is Some <==> primary_index < ranges@.len(),
            r matches Some(selection) ==> {
                &&& selection.wf()
                &&& selection@ == normalized(ranges@)
                &&& absorbs(selection@[selection.primary_at()], ranges@[primary_index as int])
                &&& forall|i: int|
                    0 <= i < ranges@.len() ==> absorbed(selection@, #[trigger] ranges@[i])
            },
    {
        if primary_index >= ranges.len() {
            return None;
        }
        let (sorted, place) = sort_ranges(&ranges, primary_index);
        proof {
            lemma_ordered(ranges@);
            lemma_normalized(ranges@);
        }
        let (joined, primary) = merge_ranges(&sorted, place);
        Some(Selection { ranges: joined, primary_index: primary })
    }

    /// A selection of one range.
    pub fn single(anchor: usize, head: usize) -> (r: Selection)
        ensures
            r.wf(),
            r@ == seq![Range { anchor, head }],
            r.primary_at() == 0,
    {
        let mut ranges: Vec<Range> = Vec::new();
        ranges.push(Range { anchor, head });
        Selection { ranges, primary_index: 0 }
    }

    /// The ranges, in order.
    pub fn ranges(&self) -> (r: &Vec<Range>)
        ensures
            r@ == self@,
    {
        &self.ranges
    }

    /// Number of ranges.
    pub fn len(&self) -> (r: usize)
        ensures
            r == self@.len(),
    {
        self.ranges.len()
    }

    /// The index of the primary range.
    pub fn primary_index(&self) -> (r: usize)
        ensures
            r == self.primary_at(),
    {
        self.primary_index
    }

    /// The primary range.
    pub fn primary(&self) -> (r: Range)
        requires
            self.wf(),
        ensures
            r == self@[self.primary_at()],
    {
        self.ranges[self.primary_index]
    }
}

} // verus!
