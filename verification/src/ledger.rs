//! The ledger: a bounded, ordered record of the tagged ranges in use.

mod search;

use vstd::prelude::*;
use vstd::seq_lib::{to_multiset_build, to_multiset_contains, to_multiset_insert};
use vstd::std_specs::cmp::PartialEqSpec;

use crate::line::Line;
use crate::model::{
    admissible, ascending, collides, filler, fits, grown_after,
    grown_before, lemma_grow_after, lemma_grow_before, lemma_place, lemma_placed_ascending,
    lemma_separated,
    placed, same_tag, settled, slot_of, tags_known, taken_in, touches_after, touches_before,
    well_formed,
};
use crate::region::{Error, Region};
use crate::trusted::intersection;

verus! {

/// A virtual memory map ledger.
///
/// It records up to `N` tagged ranges inside one window of the address
/// space. Its view is the sequence of the ranges in use, in ascending
/// order.
#[derive(Debug)]
pub struct Ledger<V, const N: usize> {
    limits: Line,
    regions: [Region<V>; N],
    len: usize,
}

impl<V, const N: usize> View for Ledger<V, N> {
    type V = Seq<Region<V>>;

    closed spec fn view(&self) -> Seq<Region<V>> {
        self.regions@.subrange(0, self.len as int)
    }
}

impl<V: Copy, const N: usize> Clone for Ledger<V, N> {
    fn clone(&self) -> (copy: Self)
        ensures
            copy == *self,
    {
        Self { limits: self.limits, regions: self.regions, len: self.len }
    }
}

/// Whether two lines of at least one page each share an address.
///
/// An intersection as `lset` computes it misses a second line that reaches
/// past the first on both sides, so the lines are tried both ways round.
fn intersects(a: Line, b: Line) -> (yes: bool)
    requires
        a.proper(),
        b.proper(),
    ensures
        yes == a.overlaps(b),
{
    let a = (a.start.raw(), a.end.raw());
    let b = (b.start.raw(), b.end.raw());
    intersection(a, b).is_some() || intersection(b, a).is_some()
}

/// Whether the tag of a held range equals that of a new one.
///
/// `==` of `V` is asked only where both ranges carry a tag: where one of
/// them carries none, the answer does not depend on it.
fn tags_equal<V: Eq + Copy>(held: Option<V>, new: Option<V>) -> (yes: bool)
    ensures
        V::obeys_eq_spec() || held is None || new is None ==> yes == same_tag(held, new),
{
    match (held, new) {
        (Some(held), Some(new)) => held == new,
        (None, None) => true,
        _ => false,
    }
}

impl<V: Eq + Copy, const N: usize> Ledger<V, N> {
    /// The window of the address space that the ledger covers.
    pub closed spec fn limits(&self) -> Line {
        self.limits
    }

    /// The count of ranges in use does not exceed the number of slots.
    pub closed spec fn within_capacity(&self) -> bool {
        self.len <= N
    }

    /// The slots that hold no range, in the order in which insertions take
    /// them.
    pub closed spec fn spare(&self) -> Seq<Region<V>> {
        self.regions@.subrange(self.len as int, N as int)
    }

    /// The ledger's invariant: the `N` slots are shared between the ranges
    /// in use and the spare slots. The ranges in use are [`well_formed`]
    /// inside the window: each holds a page at least, they ascend by start
    /// address, no two of them share an address, and none reaches outside
    /// the window. Every spare slot holds the [`filler`].
    pub open spec fn wf(&self) -> bool {
        &&& self.within_capacity()
        &&& self@.len() + self.spare().len() == N
        &&& well_formed(self.limits(), self@)
        &&& forall|i: int| 0 <= i < self.spare().len() ==> filler(#[trigger] self.spare()[i])
    }

    /// Moves the range in slot `m` down to its place among the ranges
    /// before it, which are in order already. No other slot changes.
    fn settle(&mut self, m: usize)
        requires
            m < old(self).len <= N,
            ascending(old(self)@.subrange(0, m as int)),
            forall|j: int|
                0 <= j < m ==> (#[trigger] old(self)@[j]).limits.start@ != old(self)@[m as int].limits.start@,
        ensures
            final(self).limits == old(self).limits,
            final(self).len == old(self).len,
            forall|j: int|
                m < j < N ==> (#[trigger] final(self).regions@[j]) == old(self).regions@[j],
            placed(
                old(self)@.subrange(0, m as int),
                final(self)@.subrange(0, m + 1),
                old(self)@[m as int],
            ),
    {
        let ghost s = self@.subrange(0, m as int);
        let ghost x = self@[m as int];
        let mut k: usize = m;
        assert(self@.subrange(0, m + 1) =~= s.insert(k as int, x));
        while k > 0 && self.regions[k - 1].limits.start.raw() > self.regions[k].limits.start.raw()
            invariant
                0 <= k <= m < self.len <= N,
                self.len == old(self).len,
                self.limits == old(self).limits,
                s.len() == m,
                ascending(s),
                forall|j: int| 0 <= j < s.len() ==> (#[trigger] s[j]).limits.start@ != x.limits.start@,
                forall|j: int|
                    m < j < N ==> (#[trigger] self.regions@[j]) == old(self).regions@[j],
                self@.subrange(0, m + 1) == s.insert(k as int, x),
                forall|j: int| k <= j < s.len() ==> x.limits.start@ < (#[trigger] s[j]).limits.start@,
            decreases k,
        {
            let ghost before = self@.subrange(0, m + 1);
            let below = self.regions[k - 1];
            let moved = self.regions[k];
            assert(before[k as int] == x);
            assert(before[k - 1] == s[k - 1]);
            self.regions[k] = below;
            self.regions[k - 1] = moved;
            k -= 1;
            assert forall|j: int| 0 <= j <= m implies self@.subrange(0, m + 1)[j] == s.insert(
                k as int,
                x,
            )[j] by {
                if j != k && j != k + 1 {
                    assert(self@.subrange(0, m + 1)[j] == before[j]);
                }
            }
            assert(self@.subrange(0, m + 1) =~= s.insert(k as int, x));
        }
        proof {
            let now = self@.subrange(0, m + 1);
            assert(now[k as int] == x);
            if k > 0 {
                assert(now[k - 1] == s[k - 1]);
            }
            assert(slot_of(s, x, k as int));
        }
    }

    /// Sort the regions.
    ///
    /// The ranges in use, no two of which start at the same address, are
    /// put in ascending order of their start addresses. None is lost or
    /// doubled, and the unused slots stay as they are. Where all but the
    /// last range are in order already, the last one is moved down to its
    /// place among them.
    fn sort(&mut self)
        requires
            old(self).len <= N,
            forall|i: int, j: int|
                0 <= i < j < old(self)@.len() ==> (#[trigger] old(self)@[i]).limits.start@ != (
                #[trigger] old(self)@[j]).limits.start@,
        ensures
            final(self).limits == old(self).limits,
            final(self).len == old(self).len,
            forall|j: int|
                old(self).len <= j < N ==> (#[trigger] final(self).regions@[j]) == old(
                    self,
                ).regions@[j],
            ascending(final(self)@),
            final(self)@.to_multiset() == old(self)@.to_multiset(),
            0 < old(self).len && ascending(old(self)@.drop_last()) ==> placed(
                old(self)@.drop_last(),
                final(self)@,
                old(self)@.last(),
            ),
    {
        let ghost start = self@;
        let mut m: usize = 0;
        assert(self@.subrange(0, 0) =~= start.subrange(0, 0));
        while m < self.len
            invariant
                0 <= m <= self.len <= N,
                self.len == old(self).len,
                self.limits == old(self).limits,
                start == old(self)@,
                start.len() == self.len,
                forall|i: int, j: int|
                    0 <= i < j < start.len() ==> (#[trigger] start[i]).limits.start@ != (
                    #[trigger] start[j]).limits.start@,
                forall|j: int|
                    m <= j < N ==> (#[trigger] self.regions@[j]) == old(self).regions@[j],
                ascending(self@.subrange(0, m as int)),
                self@.subrange(0, m as int).to_multiset() == start.subrange(
                    0,
                    m as int,
                ).to_multiset(),
                m < self.len && ascending(start.drop_last()) ==> self@ == start,
                m == self.len && 0 < self.len && ascending(start.drop_last()) ==> placed(
                    start.drop_last(),
                    self@,
                    start.last(),
                ),
            decreases self.len - m,
        {
            let ghost before = self@;
            let ghost sorted = before.subrange(0, m as int);
            let ghost x = before[m as int];
            proof {
                assert(x == start[m as int]);
                assert forall|j: int| 0 <= j < m implies (#[trigger] before[j]).limits.start@
                    != x.limits.start@ by {
                    let held = start.subrange(0, m as int);
                    assert(sorted[j] == before[j]);
                    assert(sorted.contains(before[j]));
                    to_multiset_contains(sorted, before[j]);
                    to_multiset_contains(held, before[j]);
                    let i = choose|i: int| 0 <= i < held.len() && held[i] == before[j];
                    assert(held[i] == start[i]);
                }
            }
            self.settle(m);
            proof {
                let grown = self@.subrange(0, m + 1);
                lemma_placed_ascending(sorted, grown, x);
                let k = choose|k: int| slot_of(sorted, x, k) && #[trigger] sorted.insert(k, x) == grown;
                to_multiset_insert(sorted, k, x);
                to_multiset_build(start.subrange(0, m as int), x);
                assert(start.subrange(0, m as int).push(x) =~= start.subrange(0, m + 1));
                assert forall|j: int| 0 <= j <= m implies self@[j] == grown[j] by {}
                if ascending(start.drop_last()) {
                    if m + 1 < self.len {
                        assert forall|j: int| 0 <= j < m implies (#[trigger] sorted[j]).limits.start@
                            < x.limits.start@ by {
                            assert(sorted[j] == start.drop_last()[j]);
                            assert(x == start.drop_last()[m as int]);
                        }
                        assert(k == m) by {
                            if k < m {
                                assert(x.limits.start@ < sorted[k].limits.start@);
                            }
                        }
                        assert(self@ =~= start) by {
                            assert forall|j: int| 0 <= j < start.len() implies self@[j]
                                == start[j] by {
                                if j < m {
                                    assert(grown[j] == sorted[j]);
                                } else if j == m {
                                    assert(grown[j] == x);
                                }
                            }
                        }
                    } else {
                        assert(sorted =~= start.drop_last());
                        assert(grown =~= self@);
                    }
                }
            }
            m += 1;
        }
        assert(self@.subrange(0, m as int) =~= self@);
        assert(start.subrange(0, m as int) =~= start);
    }

    /// Create a new instance.
    ///
    /// The ledger covers the window `limits` and holds no range.
    pub fn new(limits: Line) -> (ledger: Self)
        requires
            limits.start@ <= limits.end@,
        ensures
            ledger.wf(),
            ledger.limits() == limits,
            ledger@ == Seq::<Region<V>>::empty(),
            ledger.spare().len() == N,
    {
        Self { limits, regions: [Region::empty(); N], len: 0 }
    }

    /// Get an immutable view of the regions.
    ///
    /// The slice holds the ranges in use, in ascending order.
    pub fn regions(&self) -> (active: &[Region<V>])
        requires
            self.wf(),
        ensures
            active@ == self@,
    {
        &self.regions[0..self.len]
    }

    /// Insert a new region into the ledger.
    ///
    /// A region without pages, or one that reaches outside the window, is
    /// refused as `InvalidRegion`; one that shares an address with a range
    /// in use, as `Overlap`. Otherwise a range in use that touches the new
    /// one and carries an equal tag grows over it: the range that ends where
    /// the new one begins, or else the range that begins where it ends. No
    /// more than one range grows, even where the new region closes the gap
    /// between two ranges with its tag. If no range grows, the region takes
    /// a slot of its own, at its place in the order; with every slot taken
    /// that fails with `OutOfCapacity`.
    ///
    /// Whatever is refused leaves the ledger as it was.
    ///
    /// Tags are compared with `==`, and `==` of `V` is asked only for two
    /// ranges that both carry a tag. Where the comparison is known (see
    /// [`tags_known`]), the last clause says which of the outcomes it is.
    /// The clauses before it hold for every `V` and every tag.
    pub fn insert(&mut self, region: Region<V>) -> (res: Result<(), Error>)
        requires
            old(self).wf(),
        ensures
            final(self).wf(),
            final(self).limits() == old(self).limits(),
            res is Err ==> *final(self) == *old(self),
            (res matches Err(Error::InvalidRegion)) <==> !admissible(
                old(self).limits(),
                region.limits,
            ),
            (res matches Err(Error::Overlap)) <==> admissible(old(self).limits(), region.limits)
                && collides(old(self)@, region.limits),
            (res matches Err(Error::OutOfCapacity)) ==> old(self)@.len() == N,
            !(res matches Err(Error::OutOfSpace)),
            fits(old(self).limits(), old(self)@, region.limits) && old(self)@.len() < N
                ==> res is Ok,
            res is Ok ==> taken_in(old(self)@, final(self)@, region, N as nat),
            res is Ok && final(self)@.len() == old(self)@.len() ==> final(self).spare() == old(
                self,
            ).spare(),
            res is Ok && final(self)@.len() != old(self)@.len() ==> final(self).spare() == old(
                self,
            ).spare().drop_first(),
            tags_known(old(self)@, region) ==> settled(
                old(self).limits(),
                old(self)@,
                N as nat,
                region,
                res,
                final(self)@,
            ),
    {
        if region.limits.start.raw() >= region.limits.end.raw() {
            return Err(Error::InvalidRegion);
        }
        // Make sure the region fits in our address space.
        if region.limits.start.raw() < self.limits.start.raw() || region.limits.end.raw()
            > self.limits.end.raw() {
            return Err(Error::InvalidRegion);
        }
        let ghost s = self@;
        let ghost spare = self.spare();

        // Loop over the regions looking for merges. Before a range may grow,
        // the region is known to be clear of it and of the range after it,
        // and so of every range.
        let mut i: usize = 0;
        while i < self.len
            invariant
                *self == *old(self),
                s == self@,
                spare == self.spare(),
                self.wf(),
                admissible(self.limits(), region.limits),
                0 <= i <= self.len,
                forall|j: int| 0 <= j < i ==> !(#[trigger] s[j]).limits.overlaps(region.limits),
                tags_known(s, region) ==> forall|j: int|
                    0 <= j < i ==> !(touches_after(#[trigger] s[j], region) && same_tag(
                        s[j].value,
                        region.value,
                    )),
                tags_known(s, region) ==> forall|j: int|
                    0 <= j < i ==> !(touches_before(#[trigger] s[j], region) && same_tag(
                        s[j].value,
                        region.value,
                    )),
            decreases self.len - i,
        {
            let held = self.regions[i];
            if intersects(held.limits, region.limits) {
                return Err(Error::Overlap);
            }
            if i + 1 < self.len {
                let next = self.regions[i + 1];
                assert(next == s[i + 1]);
                if intersects(next.limits, region.limits) {
                    return Err(Error::Overlap);
                }
            }
            if tags_equal(held.value, region.value) {
                // Merge after.
                if held.limits.end.raw() == region.limits.start.raw() {
                    self.regions[i] = Region::new(
                        Line::new(held.limits.start, region.limits.end),
                        held.value,
                    );
                    proof {
                        lemma_grow_after(self.limits(), s, region, i as int);
                        assert(self@ =~= s.update(i as int, grown_after(s[i as int], region)));
                        assert(self.spare() =~= spare);
                    }
                    return Ok(());
                }
                // Merge before.
                if held.limits.start.raw() == region.limits.end.raw() {
                    self.regions[i] = Region::new(
                        Line::new(region.limits.start, held.limits.end),
                        held.value,
                    );
                    proof {
                        lemma_grow_before(self.limits(), s, region, i as int);
                        assert(self@ =~= s.update(i as int, grown_before(s[i as int], region)));
                        assert(self.spare() =~= spare);
                        assert forall|j: int| i <= j < s.len() implies !touches_after(
                            #[trigger] s[j],
                            region,
                        ) by {
                            if j > i {
                                lemma_separated(self.limits(), s, i as int, j);
                            }
                        }
                    }
                    return Ok(());
                }
            }
            i += 1;
        }

        if self.len < N {
            self.regions[self.len] = region;
            self.len += 1;
            proof {
                let grown = self@;
                assert(grown.drop_last() =~= s);
                assert forall|a: int, b: int| 0 <= a < b < grown.len() implies (
                #[trigger] grown[a]).limits.start@ != (#[trigger] grown[b]).limits.start@ by {
                    assert(grown[a] == s[a]);
                    if b < s.len() {
                        assert(grown[b] == s[b]);
                    } else {
                        assert(s[a].limits.proper() && !s[a].limits.overlaps(region.limits));
                    }
                }
            }
            self.sort();
            proof {
                lemma_place(self.limits(), s, self@, region);
                assert(self.spare() =~= spare.drop_first());
            }
            return Ok(());
        }
        Err(Error::OutOfCapacity)
    }
}

} // verus!
