//! The search for free space between the ranges of a ledger.

use vstd::prelude::*;

use super::Ledger;
use crate::address::{Address, Offset, PAGE_SIZE};
use crate::line::Line;
use crate::model::{left_of, no_room, picks, placement, representable, right_of, roomy};
use crate::region::Error;
use crate::trusted::{pages_between, span_line, step_back};

verus! {

impl<V: Eq + Copy, const N: usize> Ledger<V, N> {
    /// The low side of window `j`.
    fn low_side(&self, j: usize) -> (line: Line)
        requires
            self.wf(),
            j <= self@.len(),
        ensures
            line == left_of(self.limits(), self@, j as int),
    {
        if j == 0 {
            Line::new(self.limits.start, self.limits.start)
        } else {
            self.regions[j - 1].limits
        }
    }

    /// The high side of window `j`.
    fn high_side(&self, j: usize) -> (line: Line)
        requires
            self.wf(),
            j <= self@.len(),
        ensures
            line == right_of(self.limits(), self@, j as int),
    {
        if j == self.len {
            Line::new(self.limits.end, self.limits.end)
        } else {
            self.regions[j].limits
        }
    }

    /// Whether window `j` offers room for `len`.
    fn offers(&self, j: usize, len: Offset) -> (yes: bool)
        requires
            self.wf(),
            j <= self@.len(),
        ensures
            yes == roomy(self.limits(), self@, j as int, len@),
    {
        let l = self.low_side(j);
        let r = self.high_side(j);
        pages_between(r.end.raw(), l.start.raw()) > len.items()
    }

    /// The place for `len` in window `j`, which offers room for it.
    fn place(&self, j: usize, len: Offset, front: bool) -> (res: Result<Line, Error>)
        requires
            self.wf(),
            j <= self@.len(),
            roomy(self.limits(), self@, j as int, len@),
        ensures
            match res {
                Ok(line) => line@ == placement(self.limits(), self@, len@, front, j as int),
                Err(e) => e == Error::OutOfSpace && !representable(
                    placement(self.limits(), self@, len@, front, j as int),
                ),
            },
    {
        let l = self.low_side(j);
        let r = self.high_side(j);
        proof {
            r.end.lemma_bounded();
            l.start.lemma_bounded();
        }
        let bytes = len.items() * PAGE_SIZE;
        if front {
            let at = l.end.raw();
            if bytes > usize::MAX - at {
                return Err(Error::OutOfSpace);
            }
            let ends = span_line(at, len.items());
            Ok(Line::new(Address::new(ends.0), Address::new(ends.1)))
        } else {
            let at = r.start.raw();
            if bytes > at {
                return Err(Error::OutOfSpace);
            }
            let ends = span_line(step_back(at, len.items()), len.items());
            Ok(Line::new(Address::new(ends.0), Address::new(ends.1)))
        }
    }

    /// Find space for a region.
    ///
    /// The windows between neighbouring ranges, and between the outermost
    /// ranges and the bounds of the ledger, are tried from the low end if
    /// `front` is set, else from the high end. The first whose span, from
    /// the start of its low side to the end of its high side, exceeds `len`
    /// is settled on, and `len` pages are laid against its low side, or
    /// against its high side when searching from the back.
    ///
    /// The span counts the pages of the two sides themselves, so the place
    /// returned may reach into a range in use.
    ///
    /// Fails with `OutOfSpace` if no window offers room, or if the place in
    /// the window settled on has an end that is no address of the machine.
    pub fn find_free(&self, len: Offset, front: bool) -> (res: Result<Line, Error>)
        requires
            self.wf(),
        ensures
            match res {
                Ok(line) => exists|j: int|
                    picks(self.limits(), self@, len@, front, j) && line@ == placement(
                        self.limits(),
                        self@,
                        len@,
                        front,
                        j,
                    ),
                Err(e) => e == Error::OutOfSpace && (no_room(self.limits(), self@, len@)
                    || exists|j: int|
                    picks(self.limits(), self@, len@, front, j) && !representable(
                        placement(self.limits(), self@, len@, front, j),
                    )),
            },
    {
        let mut j: usize = if front {
            0
        } else {
            self.len
        };
        loop
            invariant
                self.wf(),
                0 <= j <= self@.len(),
                front ==> forall|k: int|
                    0 <= k < j ==> !#[trigger] roomy(self.limits(), self@, k, len@),
                !front ==> forall|k: int|
                    j < k <= self@.len() ==> !#[trigger] roomy(self.limits(), self@, k, len@),
            decreases (if front {
                self@.len() - j
            } else {
                j as int
            }),
        {
            if self.offers(j, len) {
                assert(picks(self.limits(), self@, len@, front, j as int));
                return self.place(j, len, front);
            }
            if front {
                if j == self.len {
                    return Err(Error::OutOfSpace);
                }
                j += 1;
            } else {
                if j == 0 {
                    return Err(Error::OutOfSpace);
                }
                j -= 1;
            }
        }
    }
}

} // verus!
