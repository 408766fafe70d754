//! Tagged ranges and the ways an operation on them can fail.

use vstd::prelude::*;

use crate::address::Address;
use crate::line::Line;

verus! {

/// A ledger region.
#[derive(Debug, PartialEq, Eq, Structural)]
pub struct Region<V> {
    /// Limits for the region.
    pub limits: Line,
    /// Fill value for the region.
    pub value: Option<V>,
}

impl<V: Copy> Clone for Region<V> {
    fn clone(&self) -> (copy: Self)
        ensures
            copy == *self,
    {
        *self
    }
}

impl<V: Copy> Copy for Region<V> {

}

impl<V> Default for Region<V> {
    /// No pages at address zero, and no tag.
    fn default() -> (region: Region<V>)
        ensures
            region.limits@ == (0int, 0int),
            region.value is None,
    {
        Region::empty()
    }
}

impl<V> Region<V> {
    /// The region that covers `limits` and carries `value`.
    pub fn new(limits: Line, value: Option<V>) -> (region: Region<V>)
        ensures
            region == (Region { limits, value }),
    {
        Region { limits, value }
    }

    /// The filler of unused slots: no pages at address zero, no tag.
    pub(crate) fn empty() -> (region: Region<V>)
        ensures
            region.limits@ == (0int, 0int),
            region.value is None,
    {
        Region::new(Line::new(Address::new(0), Address::new(0)), None)
    }
}

/// Ledger error conditions.
#[derive(Clone, Copy, Debug, PartialEq, Eq, Structural)]
pub enum Error {
    /// Out of storage capacity
    OutOfCapacity,
    /// No space for the region
    OutOfSpace,
    /// Overlapping with the existing regions
    Overlap,
    /// Invalid region given as input
    InvalidRegion,
}

} // verus!
