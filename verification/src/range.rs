//! A range of the selection: an anchor, which stays, and a head, which moves.
use vstd::prelude::*;

verus! {

/// The way in which a range points.
#[derive(Clone, Copy, Debug, PartialEq, Eq, Structural)]
pub enum Direction {
    Forward,
    Backward,
}

/// A range over character offsets of the text.
#[derive(Clone, Copy, Debug, PartialEq, Eq, Structural)]
pub struct Range {
    /// The end that stays where it is while the range is extended.
    pub anchor: usize,
    /// The end that moves.
    pub head: usize,
}

impl Range {
    /// The smaller of anchor and head.
    pub open spec fn start(self) -> usize {
        if self.anchor <= self.head {
            self.anchor
        } else {
            self.head
        }
    }

    /// The larger of anchor and head.
    pub open spec fn end(self) -> usize {
        if self.anchor <= self.head {
            self.head
        } else {
            self.anchor
        }
    }

    /// Whether the head stands before the anchor.
    pub open spec fn backward(self) -> bool {
        self.head < self.anchor
    }

    /// Whether the two ranges are merged when a selection is put in order:
    /// they start at the same offset, or each starts before the other ends.
    pub open spec fn touches(self, other: Range) -> bool {
        self.start() == other.start() || (self.end() > other.start() && other.end()
            > self.start())
    }

    /// The range from the start of the first of the two to the end of the
    /// last; it points backward where both do.
    pub open spec fn joined(self, other: Range) -> Range {
        let start = if self.start() <= other.start() {
            self.start()
        } else {
            other.start()
        };
        let end = if self.end() >= other.end() {
            self.end()
        } else {
            other.end()
        };
        if self.backward() && other.backward() {
            Range { anchor: end, head: start }
        } else {
            Range { anchor: start, head: end }
        }
    }

    /// Whether `other` lies within this range.
    pub open spec fn spans(self, other: Range) -> bool {
        self.start() <= other.start() && other.end() <= self.end()
    }

    /// The range from `start` to `end` that points as `self` does.
    pub open spec fn oriented(self, start: usize, end: usize) -> Range {
        if self.backward() {
            Range { anchor: end, head: start }
        } else {
            Range { anchor: start, head: end }
        }
    }

    /// The range from `anchor` to `head`.
    pub fn new(anchor: usize, head: usize) -> (r: Range)
        ensures
            r == (Range { anchor, head }),
    {
        Range { anchor, head }
    }

    /// An empty range at `pos`.
    pub fn point(pos: usize) -> (r: Range)
        ensures
            r == (Range { anchor: pos, head: pos }),
    {
        Range { anchor: pos, head: pos }
    }

    /// The start of the range.
    pub fn from(&self) -> (r: usize)
        ensures
            r == self.start(),
    {
        if self.anchor <= self.head {
            self.anchor
        } else {
            self.head
        }
    }

    /// The end of the range.
    pub fn to(&self) -> (r: usize)
        ensures
            r == self.end(),
    {
        if self.anchor <= self.head {
            self.head
        } else {
            self.anchor
        }
    }

    /// `Backward` where the head stands before the anchor, else `Forward`.
    pub fn direction(&self) -> (r: Direction)
        ensures
            r == if self.backward() {
                Direction::Backward
            } else {
                Direction::Forward
            },
    {
        if self.head < self.anchor {
            Direction::Backward
        } else {
            Direction::Forward
        }
    }

    /// Whether the two ranges start at the same offset or share text.
    pub fn overlaps(&self, other: &Range) -> (r: bool)
        ensures
            r == self.touches(*other),
    {
        self.from() == other.from() || (self.to() > other.from() && other.to() > self.from())
    }

    /// One range over both.
    pub fn merge(&self, other: Range) -> (r: Range)
        ensures
            r == self.joined(other),
    {
        let start = if self.from() <= other.from() {
            self.from()
        } else {
            other.from()
        };
        let end = if self.to() >= other.to() {
            self.to()
        } else {
            other.to()
        };
        if self.head < self.anchor && other.head < other.anchor {
            Range { anchor: end, head: start }
        } else {
            Range { anchor: start, head: end }
        }
    }

    /// The range from `start` to `end`, pointing as this range does.
    pub fn with_extent(&self, start: usize, end: usize) -> (r: Range)
        ensures
            r == self.oriented(start, end),
    {
        if self.head < self.anchor {
            Range { anchor: end, head: start }
        } else {
            Range { anchor: start, head: end }
        }
    }
}

} // verus!
