//! Insertion into the ledger.

use mmledger::{Address, Error, Ledger, Line, Region};

fn line(start: usize, end: usize) -> Line {
    Line::new(Address::new(start), Address::new(end))
}

fn limits() -> Line {
    line(0x1000, 0x10000)
}

fn spans<V: Copy + Eq, const N: usize>(ledger: &Ledger<V, N>) -> Vec<(usize, usize)> {
    let mut out = Vec::new();
    for region in ledger.regions() {
        out.push((region.limits.start.raw(), region.limits.end.raw()));
    }
    out
}

#[test]
fn insert() {
    let x = line(0xe000, 0x10000);

    let mut ledger: Ledger<(), 1> = Ledger::new(limits());
    assert_eq!(ledger.regions().len(), 0);
    ledger.insert(Region::new(x, None)).unwrap();
    assert_eq!(ledger.regions(), &[Region::<()>::new(x, None)]);
}

#[test]
fn merge_after() {
    let a = line(0x4000, 0x5000);
    let b = line(0x8000, 0x9000);

    let x = line(0x5000, 0x6000);
    let y = line(0x4000, 0x6000);

    let mut ledger: Ledger<(), 8> = Ledger::new(limits());
    ledger.insert(Region::new(a, None)).unwrap();
    ledger.insert(Region::new(b, None)).unwrap();
    ledger.insert(Region::new(x, None)).unwrap();

    assert_eq!(ledger.regions().len(), 2);
    assert_eq!(ledger.regions()[0], Region::new(y, None));
    assert_eq!(ledger.regions()[1].limits, b);
}

#[test]
fn merge_before() {
    let a = line(0x4000, 0x5000);
    let b = line(0x8000, 0x9000);

    let x = line(0x7000, 0x8000);
    let y = line(0x7000, 0x9000);

    let mut ledger: Ledger<(), 8> = Ledger::new(limits());
    ledger.insert(Region::new(a, None)).unwrap();
    ledger.insert(Region::new(b, None)).unwrap();
    ledger.insert(Region::new(x, None)).unwrap();

    assert_eq!(ledger.regions().len(), 2);
    assert_eq!(ledger.regions()[0].limits, a);
    assert_eq!(ledger.regions()[1], Region::new(y, None));
}

#[test]
fn new_ledger_is_empty() {
    let ledger: Ledger<u8, 4> = Ledger::new(limits());
    assert!(ledger.regions().is_empty());

    let nothing: Ledger<u8, 0> = Ledger::new(line(0x2000, 0x2000));
    assert!(nothing.regions().is_empty());
}

#[test]
fn insert_keeps_tag_and_limits() {
    let mut ledger: Ledger<u8, 2> = Ledger::new(limits());
    ledger.insert(Region::new(line(0x2000, 0x4000), Some(7))).unwrap();
    let held = ledger.regions()[0];
    assert_eq!(held.limits.start.raw(), 0x2000);
    assert_eq!(held.limits.end.raw(), 0x4000);
    assert_eq!(held.value, Some(7));
}

#[test]
fn insert_fills_the_whole_window() {
    let mut ledger: Ledger<u8, 1> = Ledger::new(limits());
    ledger.insert(Region::new(limits(), Some(1))).unwrap();
    assert_eq!(spans(&ledger), vec![(0x1000, 0x10000)]);
}

#[test]
fn insert_rejects_region_without_pages() {
    let mut ledger: Ledger<u8, 4> = Ledger::new(limits());
    let empty = ledger.insert(Region::new(line(0x4000, 0x4000), Some(1)));
    assert_eq!(empty, Err(Error::InvalidRegion));
    let inverted = ledger.insert(Region::new(line(0x5000, 0x4000), Some(1)));
    assert_eq!(inverted, Err(Error::InvalidRegion));
    assert!(ledger.regions().is_empty());
}

#[test]
fn insert_rejects_region_outside_window() {
    let mut ledger: Ledger<u8, 4> = Ledger::new(limits());
    ledger.insert(Region::new(line(0x4000, 0x5000), Some(1))).unwrap();
    let before = spans(&ledger);

    let below = ledger.insert(Region::new(line(0x0000, 0x2000), Some(1)));
    assert_eq!(below, Err(Error::InvalidRegion));
    let above = ledger.insert(Region::new(line(0xf000, 0x11000), Some(1)));
    assert_eq!(above, Err(Error::InvalidRegion));
    let beyond = ledger.insert(Region::new(line(0x20000, 0x21000), Some(1)));
    assert_eq!(beyond, Err(Error::InvalidRegion));
    assert_eq!(spans(&ledger), before);
}

#[test]
fn insert_rejects_overlap_and_leaves_regions() {
    let mut ledger: Ledger<u8, 4> = Ledger::new(limits());
    ledger.insert(Region::new(line(0x4000, 0x6000), Some(1))).unwrap();
    ledger.insert(Region::new(line(0x8000, 0xa000), Some(2))).unwrap();
    let before = ledger.regions().to_vec();

    // The same range, a range inside, one across each end, one across both.
    for (start, end) in [
        (0x4000, 0x6000),
        (0x5000, 0x6000),
        (0x4000, 0x5000),
        (0x3000, 0x5000),
        (0x5000, 0x7000),
        (0x3000, 0x7000),
        (0x7000, 0x9000),
        (0x5000, 0x9000),
        (0x2000, 0xf000),
    ] {
        for tag in [Some(1), Some(2), Some(3), None] {
            let res = ledger.insert(Region::new(line(start, end), tag));
            assert_eq!(res, Err(Error::Overlap));
            assert_eq!(ledger.regions(), &before[..]);
        }
    }
}

#[test]
fn insert_rejects_region_that_covers_a_smaller_one() {
    let mut ledger: Ledger<(), 4> = Ledger::new(limits());
    ledger.insert(Region::new(line(0x4000, 0x5000), None)).unwrap();
    let res = ledger.insert(Region::new(line(0x3000, 0x6000), None));
    assert_eq!(res, Err(Error::Overlap));
    assert_eq!(spans(&ledger), vec![(0x4000, 0x5000)]);
}

#[test]
fn insert_sorts_by_start() {
    let mut ledger: Ledger<u8, 8> = Ledger::new(limits());
    ledger.insert(Region::new(line(0xc000, 0xd000), Some(1))).unwrap();
    ledger.insert(Region::new(line(0x2000, 0x3000), Some(2))).unwrap();
    ledger.insert(Region::new(line(0x8000, 0x9000), Some(3))).unwrap();
    ledger.insert(Region::new(line(0x1000, 0x2000), Some(4))).unwrap();
    ledger.insert(Region::new(line(0xe000, 0x10000), Some(5))).unwrap();
    assert_eq!(
        spans(&ledger),
        vec![
            (0x1000, 0x2000),
            (0x2000, 0x3000),
            (0x8000, 0x9000),
            (0xc000, 0xd000),
            (0xe000, 0x10000),
        ]
    );
    let tags: Vec<Option<u8>> = ledger.regions().iter().map(|r| r.value).collect();
    assert_eq!(tags, vec![Some(4), Some(2), Some(3), Some(1), Some(5)]);
}

#[test]
fn active_ranges_ascend_and_never_intersect() {
    let mut ledger: Ledger<u8, 6> = Ledger::new(limits());
    let tries = [
        (0x9000, 0xa000, 1),
        (0x3000, 0x5000, 2),
        (0x4000, 0x6000, 3),
        (0x5000, 0x6000, 2),
        (0xa000, 0xb000, 1),
        (0x1000, 0x2000, 4),
        (0x0000, 0x1000, 4),
        (0xf000, 0x10000, 5),
        (0x7000, 0x8000, 6),
        (0xc000, 0xd000, 7),
        (0xd000, 0xe000, 8),
        (0x8000, 0x9000, 1),
    ];
    for (start, end, tag) in tries {
        let _ = ledger.insert(Region::new(line(start, end), Some(tag)));
        let held = spans(&ledger);
        assert!(held.len() <= 6);
        for (lo, hi) in &held {
            assert!(lo < hi);
            assert!(0x1000 <= *lo && *hi <= 0x10000);
        }
        for pair in held.windows(2) {
            assert!(pair[0].0 < pair[1].0);
            assert!(pair[0].1 <= pair[1].0);
        }
    }
    assert_eq!(
        spans(&ledger),
        vec![
            (0x1000, 0x2000),
            (0x3000, 0x6000),
            (0x7000, 0x8000),
            (0x8000, 0xb000),
            (0xc000, 0xd000),
            (0xf000, 0x10000),
        ]
    );
}

#[test]
fn merge_needs_equal_tags() {
    let mut ledger: Ledger<u8, 8> = Ledger::new(limits());
    ledger.insert(Region::new(line(0x4000, 0x5000), Some(1))).unwrap();
    ledger.insert(Region::new(line(0x5000, 0x6000), Some(2))).unwrap();
    ledger.insert(Region::new(line(0x3000, 0x4000), None)).unwrap();
    assert_eq!(
        ledger.regions(),
        &[
            Region::new(line(0x3000, 0x4000), None),
            Region::new(line(0x4000, 0x5000), Some(1)),
            Region::new(line(0x5000, 0x6000), Some(2)),
        ]
    );
}

#[test]
fn merge_does_not_add_a_range() {
    let mut ledger: Ledger<u8, 2> = Ledger::new(limits());
    ledger.insert(Region::new(line(0x4000, 0x5000), Some(1))).unwrap();
    ledger.insert(Region::new(line(0x8000, 0x9000), Some(2))).unwrap();

    // Both slots are taken: a range that merges is still accepted.
    ledger.insert(Region::new(line(0x5000, 0x7000), Some(1))).unwrap();
    assert_eq!(spans(&ledger), vec![(0x4000, 0x7000), (0x8000, 0x9000)]);
    ledger.insert(Region::new(line(0x7000, 0x8000), Some(2))).unwrap();
    assert_eq!(
        ledger.regions(),
        &[
            Region::new(line(0x4000, 0x7000), Some(1)),
            Region::new(line(0x7000, 0x9000), Some(2)),
        ]
    );
}

#[test]
fn merge_before_the_first_range() {
    let mut ledger: Ledger<u8, 4> = Ledger::new(limits());
    ledger.insert(Region::new(line(0x8000, 0x9000), Some(1))).unwrap();
    ledger.insert(Region::new(line(0x7000, 0x8000), Some(1))).unwrap();
    assert_eq!(ledger.regions(), &[Region::new(line(0x7000, 0x9000), Some(1))]);
}

#[test]
fn merge_after_the_last_range() {
    let mut ledger: Ledger<u8, 4> = Ledger::new(limits());
    ledger.insert(Region::new(line(0x2000, 0x3000), Some(1))).unwrap();
    ledger.insert(Region::new(line(0x8000, 0x9000), Some(1))).unwrap();
    ledger.insert(Region::new(line(0x9000, 0x10000), Some(1))).unwrap();
    assert_eq!(spans(&ledger), vec![(0x2000, 0x3000), (0x8000, 0x10000)]);
}

#[test]
fn merge_joins_one_neighbour_only() {
    let mut ledger: Ledger<u8, 4> = Ledger::new(limits());
    ledger.insert(Region::new(line(0x4000, 0x5000), Some(1))).unwrap();
    ledger.insert(Region::new(line(0x6000, 0x7000), Some(1))).unwrap();

    // The new range closes the gap. It joins the range below it; the range
    // above stays a range of its own.
    ledger.insert(Region::new(line(0x5000, 0x6000), Some(1))).unwrap();
    assert_eq!(
        ledger.regions(),
        &[
            Region::new(line(0x4000, 0x6000), Some(1)),
            Region::new(line(0x6000, 0x7000), Some(1)),
        ]
    );
}

#[test]
fn merge_prefers_the_range_below() {
    let mut ledger: Ledger<u8, 4> = Ledger::new(limits());
    ledger.insert(Region::new(line(0x4000, 0x5000), Some(2))).unwrap();
    ledger.insert(Region::new(line(0x6000, 0x7000), Some(1))).unwrap();

    // Only the range above carries the tag.
    ledger.insert(Region::new(line(0x5000, 0x6000), Some(1))).unwrap();
    assert_eq!(
        ledger.regions(),
        &[
            Region::new(line(0x4000, 0x5000), Some(2)),
            Region::new(line(0x5000, 0x7000), Some(1)),
        ]
    );
}

#[test]
fn full_ledger_rejects_new_range() {
    let mut ledger: Ledger<u8, 2> = Ledger::new(limits());
    ledger.insert(Region::new(line(0x2000, 0x3000), Some(1))).unwrap();
    ledger.insert(Region::new(line(0x6000, 0x7000), Some(1))).unwrap();
    let before = ledger.regions().to_vec();

    let apart = ledger.insert(Region::new(line(0xa000, 0xb000), Some(1)));
    assert_eq!(apart, Err(Error::OutOfCapacity));
    let touching = ledger.insert(Region::new(line(0x3000, 0x4000), Some(9)));
    assert_eq!(touching, Err(Error::OutOfCapacity));
    assert_eq!(ledger.regions(), &before[..]);

    // What is wrong with the range itself comes first.
    let outside = ledger.insert(Region::new(line(0x10000, 0x11000), Some(1)));
    assert_eq!(outside, Err(Error::InvalidRegion));
    let across = ledger.insert(Region::new(line(0x2000, 0x4000), Some(1)));
    assert_eq!(across, Err(Error::Overlap));
    assert_eq!(ledger.regions(), &before[..]);
}

#[test]
fn ledger_without_slots_rejects_every_range() {
    let mut ledger: Ledger<u8, 0> = Ledger::new(limits());
    let res = ledger.insert(Region::new(line(0x2000, 0x3000), Some(1)));
    assert_eq!(res, Err(Error::OutOfCapacity));
    assert!(ledger.regions().is_empty());
}

#[test]
fn clone_is_independent() {
    let mut ledger: Ledger<u8, 4> = Ledger::new(limits());
    ledger.insert(Region::new(line(0x2000, 0x3000), Some(1))).unwrap();
    let copy = ledger.clone();
    ledger.insert(Region::new(line(0x6000, 0x7000), Some(1))).unwrap();
    assert_eq!(spans(&copy), vec![(0x2000, 0x3000)]);
    assert_eq!(spans(&ledger), vec![(0x2000, 0x3000), (0x6000, 0x7000)]);
}

#[test]
fn default_region_has_no_pages() {
    let region: Region<u8> = Region::default();
    assert_eq!(region.limits, line(0, 0));
    assert_eq!(region.value, None);
    assert_eq!(Line::default(), line(0, 0));
    assert_eq!(Address::default().raw(), 0);
}

/// A tag whose comparison must never be asked for.
#[derive(Clone, Copy, Debug)]
struct Mute(u8);

impl PartialEq for Mute {
    fn eq(&self, _other: &Self) -> bool {
        panic!("two tags were compared")
    }
}

impl Eq for Mute {}

#[test]
fn untagged_range_is_compared_without_asking_the_tag_type() {
    let mut ledger: Ledger<Mute, 4> = Ledger::new(limits());
    ledger.insert(Region::new(line(0x4000, 0x5000), None)).unwrap();
    ledger.insert(Region::new(line(0x8000, 0x9000), Some(Mute(1)))).unwrap();

    // No tag on either side: the ranges merge.
    ledger.insert(Region::new(line(0x5000, 0x6000), None)).unwrap();
    assert_eq!(spans(&ledger), vec![(0x4000, 0x6000), (0x8000, 0x9000)]);
    ledger.insert(Region::new(line(0x3000, 0x4000), None)).unwrap();
    assert_eq!(spans(&ledger), vec![(0x3000, 0x6000), (0x8000, 0x9000)]);

    // A tag on one side only: the ranges differ.
    ledger.insert(Region::new(line(0x9000, 0xa000), None)).unwrap();
    ledger.insert(Region::new(line(0x7000, 0x8000), None)).unwrap();
    assert_eq!(
        spans(&ledger),
        vec![(0x3000, 0x6000), (0x7000, 0x8000), (0x8000, 0x9000), (0x9000, 0xa000)]
    );
    let tagged: Vec<bool> = ledger.regions().iter().map(|r| r.value.is_some()).collect();
    assert_eq!(tagged, vec![false, false, true, false]);
}

#[test]
fn equal_tags_merge_and_unequal_tags_do_not() {
    let mut ledger: Ledger<(u8, bool), 4> = Ledger::new(limits());
    ledger.insert(Region::new(line(0x4000, 0x5000), Some((1, true)))).unwrap();
    ledger.insert(Region::new(line(0x5000, 0x6000), Some((1, false)))).unwrap();
    ledger.insert(Region::new(line(0x6000, 0x7000), Some((1, false)))).unwrap();
    ledger.insert(Region::new(line(0x3000, 0x4000), Some((1, true)))).unwrap();
    assert_eq!(
        ledger.regions(),
        &[
            Region::new(line(0x3000, 0x5000), Some((1, true))),
            Region::new(line(0x5000, 0x7000), Some((1, false))),
        ]
    );
}
