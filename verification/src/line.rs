//! Half-open intervals of page addresses.

use vstd::prelude::*;

use crate::address::Address;

verus! {

/// The half-open interval `[start, end)` of addresses.
///
/// Any two addresses make a line: one with `end <= start` covers nothing.
#[derive(Clone, Copy, Debug, PartialEq, Eq, Structural)]
pub struct Line {
    /// The first address of the interval.
    pub start: Address,
    /// The first address after the interval.
    pub end: Address,
}

impl View for Line {
    type V = (int, int);

    open spec fn view(&self) -> (int, int) {
        (self.start@, self.end@)
    }
}

impl Default for Line {
    /// The line without pages at address zero.
    fn default() -> (line: Line)
        ensures
            line@ == (0int, 0int),
    {
        Line { start: Address::default(), end: Address::default() }
    }
}

impl Line {
    /// The line from `start` up to, and without, `end`.
    pub fn new(start: Address, end: Address) -> (line: Line)
        ensures
            line == (Line { start, end }),
    {
        Line { start, end }
    }

    /// Whether the interval holds at least one page.
    pub open spec fn proper(self) -> bool {
        self.start@ < self.end@
    }

    /// Whether the two intervals share an address.
    pub open spec fn overlaps(self, other: Line) -> bool {
        self.start@ < other.end@ && other.start@ < self.end@
    }

    /// Whether `inner` lies wholly inside this interval.
    pub open spec fn encloses(self, inner: Line) -> bool {
        self.start@ <= inner.start@ && inner.end@ <= self.end@
    }
}

} // verus!
