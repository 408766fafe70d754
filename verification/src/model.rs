//! The mathematical description of a ledger: what its ranges must satisfy,
//! and what an insertion may do to them.

use vstd::prelude::*;
use vstd::std_specs::cmp::PartialEqSpec;

use crate::address::PAGE_SIZE;
use crate::line::Line;
use crate::region::{Error, Region};

verus! {

/// Every range holds at least one page.
pub open spec fn all_proper<V>(s: Seq<Region<V>>) -> bool {
    forall|i: int| 0 <= i < s.len() ==> (#[trigger] s[i]).limits.proper()
}

/// The ranges are strictly ascending by start address.
pub open spec fn ascending<V>(s: Seq<Region<V>>) -> bool {
    forall|i: int, j: int|
        0 <= i < j < s.len() ==> (#[trigger] s[i]).limits.start@ < (#[trigger] s[j]).limits.start@
}

/// No two ranges share an address.
pub open spec fn disjoint<V>(s: Seq<Region<V>>) -> bool {
    forall|i: int, j: int|
        0 <= i < s.len() && 0 <= j < s.len() && i != j ==> !(#[trigger] s[i]).limits.overlaps(
            (#[trigger] s[j]).limits,
        )
}

/// Every range lies inside `limits`.
pub open spec fn all_enclosed<V>(limits: Line, s: Seq<Region<V>>) -> bool {
    forall|i: int| 0 <= i < s.len() ==> limits.encloses((#[trigger] s[i]).limits)
}

/// What holds of the active ranges `s` of a ledger over the window `limits`.
pub open spec fn well_formed<V>(limits: Line, s: Seq<Region<V>>) -> bool {
    &&& limits.start@ <= limits.end@
    &&& all_proper(s)
    &&& ascending(s)
    &&& disjoint(s)
    &&& all_enclosed(limits, s)
}

/// Whether a ledger over `limits` can hold the range `line` at all: it has
/// at least one page and lies inside the window.
pub open spec fn admissible(limits: Line, line: Line) -> bool {
    line.proper() && limits.encloses(line)
}

/// Whether `line` shares an address with one of the ranges.
pub open spec fn collides<V>(s: Seq<Region<V>>, line: Line) -> bool {
    exists|i: int| 0 <= i < s.len() && (#[trigger] s[i]).limits.overlaps(line)
}

/// Whether a ledger over `limits` with the ranges `s` has the addresses of
/// `line` free for a new range: `line` is [`admissible`] and shares no
/// address with a range in use.
pub open spec fn fits<V>(limits: Line, s: Seq<Region<V>>, line: Line) -> bool {
    admissible(limits, line) && !collides(s, line)
}

/// Whether the tag of a held range compares equal to that of a new one.
pub open spec fn same_tag<V: PartialEq>(held: Option<V>, new: Option<V>) -> bool {
    held.eq_spec(&new)
}

/// Whether it is known how the tag of `new` compares with the tag of each
/// range of `s`: `==` of `V` does as its specification says, or no
/// comparison has a tag on both sides, so that `==` of `V` is not asked.
pub open spec fn tags_known<V: PartialEq>(s: Seq<Region<V>>, new: Region<V>) -> bool {
    ||| V::obeys_eq_spec()
    ||| new.value is None
    ||| forall|i: int| 0 <= i < s.len() ==> (#[trigger] s[i]).value is None
}

/// `new` begins where `held` ends.
pub open spec fn touches_after<V>(held: Region<V>, new: Region<V>) -> bool {
    held.limits.end@ == new.limits.start@
}

/// `new` ends where `held` begins.
pub open spec fn touches_before<V>(held: Region<V>, new: Region<V>) -> bool {
    held.limits.start@ == new.limits.end@
}

/// `held` with its end moved up to the end of `new`.
pub open spec fn grown_after<V>(held: Region<V>, new: Region<V>) -> Region<V> {
    Region { limits: Line { start: held.limits.start, end: new.limits.end }, value: held.value }
}

/// `held` with its start moved down to the start of `new`.
pub open spec fn grown_before<V>(held: Region<V>, new: Region<V>) -> Region<V> {
    Region { limits: Line { start: new.limits.start, end: held.limits.end }, value: held.value }
}

/// Some range ends where `new` begins and carries an equal tag.
pub open spec fn can_join_after<V: PartialEq>(s: Seq<Region<V>>, new: Region<V>) -> bool {
    exists|i: int|
        0 <= i < s.len() && touches_after(#[trigger] s[i], new) && same_tag(s[i].value, new.value)
}

/// Some range begins where `new` ends and carries an equal tag.
pub open spec fn can_join_before<V: PartialEq>(s: Seq<Region<V>>, new: Region<V>) -> bool {
    exists|i: int|
        0 <= i < s.len() && touches_before(#[trigger] s[i], new) && same_tag(s[i].value, new.value)
}

/// `t` is `s` with the range that ends where `new` begins grown over `new`.
pub open spec fn merged_after<V>(s: Seq<Region<V>>, t: Seq<Region<V>>, new: Region<V>) -> bool {
    exists|i: int|
        0 <= i < s.len() && touches_after(#[trigger] s[i], new) && t == s.update(
            i,
            grown_after(s[i], new),
        )
}

/// `t` is `s` with the range that begins where `new` ends grown over `new`.
pub open spec fn merged_before<V>(s: Seq<Region<V>>, t: Seq<Region<V>>, new: Region<V>) -> bool {
    exists|i: int|
        0 <= i < s.len() && touches_before(#[trigger] s[i], new) && t == s.update(
            i,
            grown_before(s[i], new),
        )
}

/// `k` is where `new` belongs among `s`: what stands before starts lower,
/// what stands from there on starts higher.
pub open spec fn slot_of<V>(s: Seq<Region<V>>, new: Region<V>, k: int) -> bool {
    &&& 0 <= k <= s.len()
    &&& forall|j: int| 0 <= j < k ==> (#[trigger] s[j]).limits.start@ < new.limits.start@
    &&& forall|j: int| k <= j < s.len() ==> new.limits.start@ < (#[trigger] s[j]).limits.start@
}

/// `t` is `s` with `new` put in as a range of its own, at its place in the
/// order of start addresses.
pub open spec fn placed<V>(s: Seq<Region<V>>, t: Seq<Region<V>>, new: Region<V>) -> bool {
    exists|k: int| slot_of(s, new, k) && #[trigger] s.insert(k, new) == t
}

/// `t` is what a ledger with `slots` slots and the ranges `s` holds once it
/// has taken in `new`: one range that touches `new` has grown over it, or
/// `new` stands as a range of its own in a slot that was free.
pub open spec fn taken_in<V>(
    s: Seq<Region<V>>,
    t: Seq<Region<V>>,
    new: Region<V>,
    slots: nat,
) -> bool {
    ||| merged_after(s, t, new)
    ||| merged_before(s, t, new)
    ||| s.len() < slots && placed(s, t, new)
}

/// Whether `slot` holds what an unused slot of a ledger holds: no pages at
/// address zero, and no tag.
pub open spec fn filler<V>(slot: Region<V>) -> bool {
    slot.limits@ == (0int, 0int) && slot.value is None
}

/// What an insertion of `new` settles where the comparison of tags is
/// known: `res` is what it returns to a ledger over `limits` with `slots`
/// slots and the ranges `s`, and `t` is what the ledger holds afterwards.
///
/// It succeeds if and only if the ledger has the addresses free and either
/// a range that touches `new` carries an equal tag or a slot is unused. The
/// range that ends where `new` begins grows if it carries an equal tag;
/// else the range that begins where `new` ends, if that one does; else
/// `new` takes a slot of its own. With no such range and no unused slot it
/// fails for want of capacity. A failure leaves the ranges as they were.
pub open spec fn settled<V: PartialEq>(
    limits: Line,
    s: Seq<Region<V>>,
    slots: nat,
    new: Region<V>,
    res: Result<(), Error>,
    t: Seq<Region<V>>,
) -> bool {
    let free = fits(limits, s, new.limits);
    let after = can_join_after(s, new);
    let before = can_join_before(s, new);
    &&& res is Ok <==> free && (after || before || s.len() < slots)
    &&& (res matches Err(Error::OutOfCapacity)) <==> free && !after && !before && s.len() >= slots
    &&& res is Ok && after ==> merged_after(s, t, new)
    &&& res is Ok && !after && before ==> merged_before(s, t, new)
    &&& res is Ok && !after && !before ==> placed(s, t, new)
    &&& res is Err ==> t == s
}

/// The low side of window `j`. The search for free space looks at one
/// window for each pair of neighbours among: the lower bound of `limits`,
/// taken as a range without pages; the ranges of `s` in order; and the upper
/// bound of `limits`, taken likewise. Window `0` has the lower bound on its
/// low side, window `j > 0` the range `s[j - 1]`.
pub open spec fn left_of<V>(limits: Line, s: Seq<Region<V>>, j: int) -> Line {
    if j == 0 {
        Line { start: limits.start, end: limits.start }
    } else {
        s[j - 1].limits
    }
}

/// The high side of window `j`: the range `s[j]`, or the upper bound of
/// `limits` for the last window, `j == s.len()`.
pub open spec fn right_of<V>(limits: Line, s: Seq<Region<V>>, j: int) -> Line {
    if j == s.len() {
        Line { start: limits.end, end: limits.end }
    } else {
        s[j].limits
    }
}

/// The number of whole pages from the start of `left` to the end of
/// `right`. It counts the pages of the two ranges along with the gap
/// between them.
pub open spec fn span_pages(left: Line, right: Line) -> int {
    (right.end@ - left.start@) / (PAGE_SIZE as int)
}

/// Whether window `j` is taken to offer room for `pages` pages: its span
/// exceeds them.
pub open spec fn roomy<V>(limits: Line, s: Seq<Region<V>>, j: int, pages: int) -> bool {
    span_pages(left_of(limits, s, j), right_of(limits, s, j)) > pages
}

/// No window offers room for `pages` pages.
pub open spec fn no_room<V>(limits: Line, s: Seq<Region<V>>, pages: int) -> bool {
    forall|j: int| 0 <= j <= s.len() ==> !#[trigger] roomy(limits, s, j, pages)
}

/// Window `j` is the one that a search for `pages` pages settles on: the
/// lowest window that offers room when searching from the front, the
/// highest when searching from the back.
pub open spec fn picks<V>(limits: Line, s: Seq<Region<V>>, pages: int, front: bool, j: int) -> bool {
    &&& 0 <= j <= s.len()
    &&& roomy(limits, s, j, pages)
    &&& front ==> forall|k: int| 0 <= k < j ==> !#[trigger] roomy(limits, s, k, pages)
    &&& !front ==> forall|k: int| j < k <= s.len() ==> !#[trigger] roomy(limits, s, k, pages)
}

/// Where `pages` pages go in window `j`, as a pair of byte addresses: right
/// after the low side when searching from the front, right before the high
/// side when searching from the back.
pub open spec fn placement<V>(
    limits: Line,
    s: Seq<Region<V>>,
    pages: int,
    front: bool,
    j: int,
) -> (int, int) {
    if front {
        let at = left_of(limits, s, j).end@;
        (at, at + pages * PAGE_SIZE)
    } else {
        let at = right_of(limits, s, j).start@;
        (at - pages * PAGE_SIZE, at)
    }
}

/// Whether both ends of a placement are addresses that the machine has.
pub open spec fn representable(place: (int, int)) -> bool {
    0 <= place.0 && place.1 <= usize::MAX
}

/// In a well-formed sequence a range ends before any later one begins.
pub proof fn lemma_separated<V>(limits: Line, s: Seq<Region<V>>, i: int, j: int)
    requires
        well_formed(limits, s),
        0 <= i < j < s.len(),
    ensures
        s[i].limits.end@ <= s[j].limits.start@,
{
}

/// Growing the range at `i` over a new range that begins where it ends
/// keeps the sequence well formed, provided the new range is clear of the
/// range after `i`; it is then clear of all of them.
pub proof fn lemma_grow_after<V>(limits: Line, s: Seq<Region<V>>, new: Region<V>, i: int)
    requires
        well_formed(limits, s),
        admissible(limits, new.limits),
        0 <= i < s.len(),
        touches_after(s[i], new),
        i + 1 < s.len() ==> !s[i + 1].limits.overlaps(new.limits),
    ensures
        !collides(s, new.limits),
        well_formed(limits, s.update(i, grown_after(s[i], new))),
{
    // What stands before `i` ends below it; what stands after begins past
    // the end of the new range.
    assert forall|j: int| 0 <= j < s.len() implies !(#[trigger] s[j]).limits.overlaps(
        new.limits,
    ) && (j < i ==> s[j].limits.end@ <= s[i].limits.start@) && (j > i ==> new.limits.end@
        <= s[j].limits.start@) by {
        if j < i {
            lemma_separated(limits, s, j, i);
        } else if j > i {
            lemma_separated(limits, s, i, i + 1);
            if j > i + 1 {
                lemma_separated(limits, s, i + 1, j);
            }
        }
    }
}

/// Growing the range at `i` over a new range that ends where it begins
/// keeps the sequence well formed, provided the new range is clear of the
/// range before `i`; it is then clear of all of them.
pub proof fn lemma_grow_before<V>(limits: Line, s: Seq<Region<V>>, new: Region<V>, i: int)
    requires
        well_formed(limits, s),
        admissible(limits, new.limits),
        0 <= i < s.len(),
        touches_before(s[i], new),
        i > 0 ==> !s[i - 1].limits.overlaps(new.limits),
    ensures
        !collides(s, new.limits),
        well_formed(limits, s.update(i, grown_before(s[i], new))),
{
    // What stands before `i` ends below the start of the new range; what
    // stands after begins past the end of `i`.
    assert forall|j: int| 0 <= j < s.len() implies !(#[trigger] s[j]).limits.overlaps(
        new.limits,
    ) && (j < i ==> s[j].limits.end@ <= new.limits.start@) && (j > i ==> s[i].limits.end@
        <= s[j].limits.start@) by {
        if j < i {
            lemma_separated(limits, s, i - 1, i);
            if j < i - 1 {
                lemma_separated(limits, s, j, i - 1);
            }
        } else if j > i {
            lemma_separated(limits, s, i, j);
        }
    }
}

/// Putting a new range at its place among ranges in ascending order
/// leaves them in ascending order.
pub proof fn lemma_placed_ascending<V>(s: Seq<Region<V>>, t: Seq<Region<V>>, new: Region<V>)
    requires
        ascending(s),
        placed(s, t, new),
    ensures
        ascending(t),
{
    let k = choose|k: int| slot_of(s, new, k) && #[trigger] s.insert(k, new) == t;
    assert forall|a: int, b: int| 0 <= a < b < t.len() implies (#[trigger] t[a]).limits.start@ < (
    #[trigger] t[b]).limits.start@ by {
        if a != k {
            assert(t[a] == s[if a < k { a } else { a - 1 }]);
        }
        if b != k {
            assert(t[b] == s[if b < k { b } else { b - 1 }]);
        }
    }
}

/// Putting a new range that is clear of all the others at its place in the
/// order keeps the sequence well formed.
pub proof fn lemma_place<V>(limits: Line, s: Seq<Region<V>>, t: Seq<Region<V>>, new: Region<V>)
    requires
        well_formed(limits, s),
        admissible(limits, new.limits),
        !collides(s, new.limits),
        placed(s, t, new),
    ensures
        well_formed(limits, t),
{
    let k = choose|k: int| slot_of(s, new, k) && #[trigger] s.insert(k, new) == t;
    assert forall|a: int| 0 <= a < t.len() implies (#[trigger] t[a]).limits.proper()
        && limits.encloses(t[a].limits) && (a != k ==> !t[a].limits.overlaps(new.limits)) by {}
}

} // verus!
