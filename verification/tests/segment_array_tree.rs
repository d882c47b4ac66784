use std::collections::HashSet;
use std::iter::FromIterator;

use photorec::segment_array_tree::segs_are_valid;
use photorec::{AddStatus, SegmentArrayTree, SegmentArrayTreeError, TaggedSegment, TaggedSegmentArray};

fn build(vec: Vec<(u64, u64)>, num: u64) -> TaggedSegmentArray {
    TaggedSegmentArray {
        segs: vec.into_iter().map(|(start, end)| TaggedSegment { start, end, tag: 0 }).collect(),
        num,
    }
}

#[test]
fn segment_array_tree_smoke() {
    let mut sat = SegmentArrayTree::new();
    assert_eq!(sat.add(build(vec![(1, 3), (7, 10), (13, 15)], 0)), Ok(AddStatus::Added));
    assert_eq!(
        sat.add(build(vec![(1, 3), (7, 10), (13, 15), (17, 18)], 10)),
        Ok(AddStatus::Replaced(build(vec![(1, 3), (7, 10), (13, 15)], 0)))
    );
    assert_eq!(
        sat.add(build(vec![(1, 3), (7, 10), (13, 15), (17, 18)], 20)),
        Ok(AddStatus::AlreadyContained(build(vec![(1, 3), (7, 10), (13, 15), (17, 18)], 20)))
    );
    if let Ok(Some(i)) = sat.search_intersecting(&build(vec![(1, 3), (13, 15), (20, 22)], 25)) {
        assert_eq!(sat.get_by_idx(i).num, 10);
    } else {
        panic!();
    }
    assert_eq!(sat.add(build(vec![(3, 6), (10, 13), (16, 17)], 30)), Ok(AddStatus::Added));
    if let Err(SegmentArrayTreeError::OverlappingSegmentArrays(i1, i2)) =
        sat.search_intersecting(&build(vec![(1, 3), (10, 13)], 40))
    {
        assert_eq!(sat.get_by_idx(i1).num, 10);
        assert_eq!(sat.get_by_idx(i2).num, 30);
    } else {
        panic!();
    }
    if let Err((sv, SegmentArrayTreeError::OverlappingSegmentArrays(i1, i2))) =
        sat.add(build(vec![(1, 3), (10, 13)], 40))
    {
        assert_eq!(sv.num, 40);
        assert_eq!(sat.get_by_idx(i1).num, 10);
        assert_eq!(sat.get_by_idx(i2).num, 30);
    } else {
        panic!();
    }
    if let Err((sv, SegmentArrayTreeError::IntersectingSegment(i))) =
        sat.add(build(vec![(2, 4)], 50))
    {
        assert_eq!(sv.num, 50);
        assert_eq!(sat.get_by_idx(i).num, 10);
    } else {
        panic!();
    }
    if let Err((sv, SegmentArrayTreeError::IncompatibleSegmentArrays(i))) =
        sat.add(build(vec![(3, 6), (16, 17)], 60))
    {
        assert_eq!(sv.num, 60);
        assert_eq!(sat.get_by_idx(i).num, 30);
    } else {
        panic!();
    }
    if let Err((sv, SegmentArrayTreeError::IncompatibleSegmentArrays(i))) =
        sat.add(build(vec![(3, 6), (10, 13), (18, 19)], 70))
    {
        assert_eq!(sv.num, 70);
        assert_eq!(sat.get_by_idx(i).num, 30);
    } else {
        panic!();
    }
    assert_eq!(
        sat.iter().iter().map(|sv| sv.num).collect::<HashSet<u64>>(),
        HashSet::<u64>::from_iter(vec![10, 30])
    );
}

fn rich_build(vec: Vec<(u64, u64, char)>, num: u64) -> TaggedSegmentArray {
    TaggedSegmentArray {
        segs: vec
            .into_iter()
            .map(|(start, end, extra)| TaggedSegment { start, end, tag: extra as u64 })
            .collect(),
        num,
    }
}

#[test]
fn test_elem_comparison() {
    let mut sat = SegmentArrayTree::new();
    assert_eq!(
        sat.add(rich_build(vec![(1, 3, 'a'), (7, 10, 'b'), (13, 15, 'c')], 0)),
        Ok(AddStatus::Added)
    );
    if let Err((sv, SegmentArrayTreeError::IncompatibleSegmentArrays(i))) =
        sat.add(rich_build(vec![(1, 3, 'a'), (7, 10, 'd'), (13, 15, 'c')], 1))
    {
        assert_eq!(sv.num, 1);
        assert_eq!(sat.get_by_idx(i).num, 0);
    } else {
        panic!();
    }
}

#[test]
fn test_segment_array_validity_check() {
    assert!(segs_are_valid(&build(vec![(1, 3), (3, 5), (7, 9)], 0)));
    // A degenerate segment.
    assert!(!segs_are_valid(&build(vec![(1, 3), (5, 5)], 0)));
    // Two segments of the same array sharing a point.
    assert!(!segs_are_valid(&build(vec![(1, 4), (3, 6)], 0)));
}
