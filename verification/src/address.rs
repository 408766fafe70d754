//! Page-granular addresses and page counts.

use vstd::prelude::*;

verus! {

/// The size of one page in bytes. Every [`Address`] is a multiple of it.
pub const PAGE_SIZE: usize = 4096;

/// The address of a page boundary, in bytes.
#[derive(Clone, Copy, Debug, PartialEq, Eq, Structural)]
pub struct Address {
    raw: usize,
}

impl View for Address {
    type V = int;

    closed spec fn view(&self) -> int {
        self.raw as int
    }
}

impl Default for Address {
    /// The address zero.
    fn default() -> (a: Address)
        ensures
            a@ == 0,
    {
        Address { raw: 0 }
    }
}

impl Address {
    #[verifier::type_invariant]
    spec fn aligned(self) -> bool {
        self.raw % PAGE_SIZE == 0
    }

    /// The address of the page boundary `raw` bytes into the address space.
    pub fn new(raw: usize) -> (a: Address)
        requires
            raw % PAGE_SIZE == 0,
        ensures
            a@ == raw,
    {
        Address { raw }
    }

    /// An address is a machine word.
    pub proof fn lemma_bounded(self)
        ensures
            0 <= self@ <= usize::MAX,
    {
    }

    /// An address is determined by its view.
    pub proof fn lemma_view_determines(self, other: Address)
        requires
            self@ == other@,
        ensures
            self == other,
    {
    }

    /// The address in bytes.
    pub fn raw(self) -> (raw: usize)
        ensures
            raw == self@,
            raw % PAGE_SIZE == 0,
    {
        proof {
            use_type_invariant(&self);
        }
        self.raw
    }
}

/// A length, counted in pages.
#[derive(Clone, Copy, Debug, PartialEq, Eq, Structural)]
pub struct Offset {
    items: usize,
}

impl View for Offset {
    type V = int;

    closed spec fn view(&self) -> int {
        self.items as int
    }
}

impl Default for Offset {
    /// No pages.
    fn default() -> (o: Offset)
        ensures
            o@ == 0,
    {
        Offset { items: 0 }
    }
}

impl Offset {
    /// The length of `items` pages.
    pub fn from_items(items: usize) -> (o: Offset)
        ensures
            o@ == items,
    {
        Offset { items }
    }

    /// The number of pages.
    pub fn items(self) -> (items: usize)
        ensures
            items == self@,
    {
        self.items
    }
}

} // verus!
