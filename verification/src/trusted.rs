//! The calls into `lset` and `primordial`, each behind a contract that is
//! taken on trust.

use vstd::prelude::*;

use crate::address::PAGE_SIZE;

verus! {

type PageAddress = primordial::Address<usize, primordial::Page>;

type PageCount = primordial::Offset<usize, primordial::Page>;

/// What `lset::Line::intersection` returns for the lines `[a.0, a.1)` and
/// `[b.0, b.1)`, as its source computes it: the part of `b` whose start or
/// end lies inside `a`. A line `b` that reaches past `a` on both sides has
/// neither inside `a` and yields `None`.
pub open spec fn intersection_of(a: (usize, usize), b: (usize, usize)) -> Option<(usize, usize)> {
    let start_inside = a.0 <= b.0 && b.0 < a.1;
    let end_inside = a.0 < b.1 && b.1 <= a.1;
    if start_inside && end_inside {
        Some(b)
    } else if start_inside {
        Some((b.0, a.1))
    } else if end_inside {
        Some((a.0, b.1))
    } else {
        None
    }
}

/// `lset::Line::intersection` on lines of `primordial::Address<usize, Page>`.
///
/// The addresses are built with `Address::new`, which panics on a value that
/// is not page-aligned; the precondition rules that out. The result is
/// claimed to be exactly [`intersection_of`].
#[verifier::external_body]
pub(crate) fn intersection(a: (usize, usize), b: (usize, usize)) -> (r: Option<(usize, usize)>)
    requires
        a.0 % PAGE_SIZE == 0,
        a.1 % PAGE_SIZE == 0,
        b.0 % PAGE_SIZE == 0,
        b.1 % PAGE_SIZE == 0,
    ensures
        r == intersection_of(a, b),
{
    let a = lset::Line::new(PageAddress::new(a.0), PageAddress::new(a.1));
    let b = lset::Line::new(PageAddress::new(b.0), PageAddress::new(b.1));
    match a.intersection(b) {
        Some(line) => Some((line.start.raw(), line.end.raw())),
        None => None,
    }
}

/// `primordial`'s `Address - Address`: the distance from `lo` up to `hi`,
/// in whole pages.
///
/// The subtraction underflows when `hi` is below `lo`, and `Address::new`
/// panics on a value that is not page-aligned; the preconditions rule out
/// both.
#[verifier::external_body]
pub(crate) fn pages_between(hi: usize, lo: usize) -> (pages: usize)
    requires
        hi % PAGE_SIZE == 0,
        lo % PAGE_SIZE == 0,
        lo <= hi,
    ensures
        pages == (hi - lo) / (PAGE_SIZE as int),
{
    (PageAddress::new(hi) - PageAddress::new(lo)).items()
}

/// The conversion of an `lset::Span` into an `lset::Line`, which adds the
/// span's page count to its start with `primordial`'s `Address + Offset`.
/// Returns the line's two ends.
///
/// The addition overflows when the end lies past `usize::MAX`, and
/// `Address::new` panics on a value that is not page-aligned; the
/// preconditions rule out both.
#[verifier::external_body]
pub(crate) fn span_line(start: usize, pages: usize) -> (r: (usize, usize))
    requires
        start % PAGE_SIZE == 0,
        start + pages * PAGE_SIZE <= usize::MAX,
    ensures
        r.0 == start,
        r.1 == start + pages * PAGE_SIZE,
{
    let span = lset::Span::new(PageAddress::new(start), PageCount::from_items(pages));
    let line: lset::Line<PageAddress> = span.into();
    (line.start.raw(), line.end.raw())
}

/// `primordial`'s `Address - Offset`: the address `pages` pages below
/// `from`.
///
/// The subtraction underflows when `from` is less than `pages` pages above
/// zero, and `Address::new` panics on a value that is not page-aligned; the
/// preconditions rule out both.
#[verifier::external_body]
pub(crate) fn step_back(from: usize, pages: usize) -> (to: usize)
    requires
        from % PAGE_SIZE == 0,
        pages * PAGE_SIZE <= from,
    ensures
        to == from - pages * PAGE_SIZE,
{
    (PageAddress::new(from) - PageCount::from_items(pages)).raw()
}

} // verus!
