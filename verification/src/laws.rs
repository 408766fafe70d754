//! What holds of the ledger's operations taken together.

use vstd::prelude::*;

use crate::address::PAGE_SIZE;
use crate::line::Line;
use crate::model::{
    can_join_after, can_join_before, fits, grown_after, grown_before, left_of, lemma_separated,
    picks, placement, right_of, same_tag, settled, slot_of,
    touches_after, touches_before, well_formed,
};
use crate::region::{Error, Region};

verus! {

/// Whether the free space of window `j`, from the end of its low side to
/// the start of its high side, holds `pages` pages.
pub open spec fn gap_holds<V>(limits: Line, s: Seq<Region<V>>, j: int, pages: int) -> bool {
    left_of(limits, s, j).end@ + pages * PAGE_SIZE <= right_of(limits, s, j).start@
}

/// A line is determined by its view: the pair of addresses that
/// `find_free` states of the place it returns leaves one line only.
pub proof fn lemma_line_determined(a: Line, b: Line)
    requires
        a@ == b@,
    ensures
        a == b,
{
    a.start.lemma_view_determines(b.start);
    a.end.lemma_view_determines(b.end);
}

/// A search settles on one window only: the window that `find_free` speaks
/// of is determined by the ledger, the length and the direction.
pub proof fn lemma_pick_unique<V>(
    limits: Line,
    s: Seq<Region<V>>,
    pages: int,
    front: bool,
    j: int,
    k: int,
)
    requires
        picks(limits, s, pages, front, j),
        picks(limits, s, pages, front, k),
    ensures
        j == k,
{
}

/// A new range that starts where no range in use starts has one place only
/// in the order of start addresses: the sequence that `insert` leaves when
/// it gives a range a slot of its own is determined.
pub proof fn lemma_slot_unique<V>(s: Seq<Region<V>>, new: Region<V>, j: int, k: int)
    requires
        slot_of(s, new, j),
        slot_of(s, new, k),
    ensures
        j == k,
{
    if j < k {
        assert(s[j].limits.start@ < new.limits.start@);
    } else if k < j {
        assert(s[k].limits.start@ < new.limits.start@);
    }
}

/// A range that touches a range in use with an equal tag is merged into
/// it: the insertion succeeds, also in a full ledger, the count of ranges
/// stays, and one touching range with an equal tag covers the new one as
/// well while every other range is as before. Where a range on each side
/// qualifies, the one that ends where the new range begins grows.
///
/// `res` and `t` are what an insertion of `new`, for which the ledger has
/// the addresses free, returns and leaves, as [`settled`] states it.
pub proof fn lemma_touching_range_grows<V: PartialEq>(
    limits: Line,
    s: Seq<Region<V>>,
    slots: nat,
    new: Region<V>,
    res: Result<(), Error>,
    t: Seq<Region<V>>,
)
    requires
        well_formed(limits, s),
        settled(limits, s, slots, new, res, t),
        fits(limits, s, new.limits),
        can_join_after(s, new) || can_join_before(s, new),
    ensures
        res is Ok,
        t.len() == s.len(),
        can_join_after(s, new) ==> exists|i: int|
            0 <= i < s.len() && touches_after(#[trigger] s[i], new) && same_tag(
                s[i].value,
                new.value,
            ) && t == s.update(i, grown_after(s[i], new)),
        !can_join_after(s, new) ==> exists|i: int|
            0 <= i < s.len() && touches_before(#[trigger] s[i], new) && same_tag(
                s[i].value,
                new.value,
            ) && t == s.update(i, grown_before(s[i], new)),
{
    if can_join_after(s, new) {
        let i = choose|i: int|
            0 <= i < s.len() && touches_after(#[trigger] s[i], new) && t == s.update(
                i,
                grown_after(s[i], new),
            );
        let j = choose|j: int|
            0 <= j < s.len() && touches_after(#[trigger] s[j], new) && same_tag(
                s[j].value,
                new.value,
            );
        // Two ranges that end at the same address are one range.
        if i < j {
            lemma_separated(limits, s, i, j);
        } else if j < i {
            lemma_separated(limits, s, j, i);
        }
        assert(s[j].limits.proper() && s[i].limits.proper());
        assert(i == j);
    } else {
        let i = choose|i: int|
            0 <= i < s.len() && touches_before(#[trigger] s[i], new) && t == s.update(
                i,
                grown_before(s[i], new),
            );
        let j = choose|j: int|
            0 <= j < s.len() && touches_before(#[trigger] s[j], new) && same_tag(
                s[j].value,
                new.value,
            );
        // Two ranges that begin at the same address are one range.
        assert(i == j) by {
            if i < j {
                assert(s[i].limits.start@ < s[j].limits.start@);
            } else if j < i {
                assert(s[j].limits.start@ < s[i].limits.start@);
            }
        }
    }
}

/// A full ledger refuses a range that no range with an equal tag touches:
/// the insertion fails for want of capacity, and every range is as before.
///
/// `res` and `t` are what an insertion of `new`, for which the ledger has
/// the addresses free, returns and leaves, as [`settled`] states it.
pub proof fn lemma_full_ledger_refuses<V: PartialEq>(
    limits: Line,
    s: Seq<Region<V>>,
    slots: nat,
    new: Region<V>,
    res: Result<(), Error>,
    t: Seq<Region<V>>,
)
    requires
        settled(limits, s, slots, new, res, t),
        fits(limits, s, new.limits),
        !can_join_after(s, new),
        !can_join_before(s, new),
        s.len() == slots,
    ensures
        res matches Err(Error::OutOfCapacity),
        t == s,
{
}

/// The place that a search for free space returns is one that an insertion
/// admits, exactly when it has at least one page and the free space of the
/// window that the search settled on holds it.
///
/// `line` is the place in window `j`, on which a search for `pages` pages
/// in a well-formed ledger settles. The ledger has it free, so that
/// `insert` returns neither `InvalidRegion` nor `Overlap` for it, if and
/// only if `pages` is positive and the gap of the window holds `pages`
/// pages. A window is taken to offer room by its span, which counts the
/// pages of its two sides too: where the gap is smaller than that, the
/// place reaches into a range in use or past a bound of the ledger.
pub proof fn lemma_found_space_is_admitted<V>(
    limits: Line,
    s: Seq<Region<V>>,
    pages: int,
    front: bool,
    j: int,
    line: Line,
)
    requires
        well_formed(limits, s),
        picks(limits, s, pages, front, j),
        line@ == placement(limits, s, pages, front, j),
    ensures
        fits(limits, s, line) <==> pages > 0 && gap_holds(limits, s, j, pages),
{
    if 0 < j < s.len() {
        lemma_separated(limits, s, j - 1, j);
    }
    if pages > 0 && gap_holds(limits, s, j, pages) {
        assert forall|i: int| 0 <= i < s.len() implies !(#[trigger] s[i]).limits.overlaps(line) by {
            if i < j - 1 {
                lemma_separated(limits, s, i, j - 1);
            }
            if i > j {
                lemma_separated(limits, s, j, i);
            }
        }
    }
}

/// In a ledger without ranges, every place that a search for at least one
/// page returns is one that an insertion admits: there the span of the one
/// window is its gap.
pub proof fn lemma_found_space_in_empty_ledger<V>(
    limits: Line,
    s: Seq<Region<V>>,
    pages: int,
    front: bool,
    j: int,
    line: Line,
)
    requires
        well_formed(limits, s),
        s.len() == 0,
        pages > 0,
        picks(limits, s, pages, front, j),
        line@ == placement(limits, s, pages, front, j),
    ensures
        fits(limits, s, line),
{
    lemma_found_space_is_admitted(limits, s, pages, front, j, line);
}

} // verus!
