use photorec::{Entry, Segment, SegmentTree, SegmentTreeError};

#[derive(Debug, PartialEq, Eq)]
struct X(u64);

#[test]
fn segment_tree_smoke() {
    let mut st = SegmentTree::new();
    assert_eq!(st.get_segment(&Segment::new(1, 3)), Ok(None));
    assert_eq!(st.contains_segment(&Segment::new(1, 3)), Ok(false));
    assert_eq!(st.insert_segment(Segment::new(1, 3), X(0)), Ok(None));
    assert_eq!(st.get_segment(&Segment::new(1, 3)), Ok(Some(&X(0))));
    assert_eq!(st.contains_segment(&Segment::new(1, 3)), Ok(true));
    assert_eq!(st.contains_segment(&Segment::new(2, 3)), Err(SegmentTreeError::Intersect(2)));
    assert_eq!(st.contains_segment(&Segment::new(2, 4)), Err(SegmentTreeError::Intersect(2)));
    assert_eq!(st.contains_segment(&Segment::new(0, 2)), Err(SegmentTreeError::Intersect(1)));
    assert_eq!(st.contains_segment(&Segment::new(0, 4)), Err(SegmentTreeError::Intersect(1)));
    assert_eq!(st.contains_segment(&Segment::new(3, 6)), Ok(false));
    assert_eq!(st.contains_segment(&Segment::new(0, 1)), Ok(false));
    assert_eq!(st.insert_segment(Segment::new(7, 9), X(1)), Ok(None));
    assert_eq!(
        st.insert_segment(Segment::new(1, 5), X(2)),
        Err((X(2), SegmentTreeError::Intersect(1)))
    );
    assert_eq!(st.insert_segment(Segment::new(1, 3), X(3)), Ok(Some(X(0))));
    assert_eq!(st.insert_segment(Segment::new(3, 4), X(4)), Ok(None));
    assert_eq!(st.contains_segment(&Segment::new(4, 7)), Ok(false));
    if let Ok(Entry::Vacant(entry)) = st.entry_segment(Segment::new(5, 7)) {
        entry.insert(&mut st, X(5));
        assert_eq!(st.get_segment(&Segment::new(5, 7)), Ok(Some(&X(5))));
    } else {
        panic!();
    }
    assert_eq!(st.insert_segment(Segment::new(4, 5), X(6)), Ok(None));
    assert_eq!(st.get_segment(&Segment::new(1, 3)), Ok(Some(&X(3))));
    assert_eq!(st.get_segment(&Segment::new(3, 4)), Ok(Some(&X(4))));
    assert_eq!(st.get_segment(&Segment::new(4, 5)), Ok(Some(&X(6))));
    assert_eq!(st.get_segment(&Segment::new(5, 7)), Ok(Some(&X(5))));
    assert_eq!(st.get_segment(&Segment::new(7, 9)), Ok(Some(&X(1))));
    if let Ok(Entry::Occupied(entry)) = st.entry_segment(Segment::new(4, 5)) {
        assert_eq!(entry.remove(&mut st), X(6));
    } else {
        panic!();
    }
    assert_eq!(st.get_segment(&Segment::new(4, 5)), Ok(None));
    if let Ok(Entry::Occupied(entry)) = st.entry_segment(Segment::new(5, 7)) {
        assert_eq!(entry.insert(&mut st, X(7)), X(5));
    } else {
        panic!();
    }
    if let Err(SegmentTreeError::Intersect(1)) = st.entry_segment(Segment::new(0, 9)) {
    } else {
        panic!();
    }
    assert_eq!(st.remove_segment(&Segment::new(0, 9)), Err(SegmentTreeError::Intersect(1)));
    assert_eq!(st.remove_segment(&Segment::new(4, 5)), Ok(None));
    assert_eq!(st.remove_segment(&Segment::new(5, 7)), Ok(Some(X(7))));
    assert_eq!(st.get_containing_segment(&0), None);
    assert_eq!(st.get_containing_segment(&1), Some((Segment::new(1, 3), &X(3))));
    assert_eq!(st.get_containing_segment(&2), Some((Segment::new(1, 3), &X(3))));
    assert_eq!(st.get_containing_segment(&3), Some((Segment::new(3, 4), &X(4))));
    assert_eq!(st.get_containing_segment(&4), None);
    assert_eq!(st.get_containing_segment(&5), None);
    assert_eq!(st.get_containing_segment(&7), Some((Segment::new(7, 9), &X(1))));
    assert_eq!(st.get_containing_segment(&9), None);
    assert_eq!(st.get_containing_segment(&10), None);
}

#[test]
fn segment_tree_touching_and_entry_keys() {
    let mut st: SegmentTree<u64> = SegmentTree::new();
    assert_eq!(st.insert_segment(Segment::new(1, 3), 10), Ok(None));
    assert_eq!(st.insert_segment(Segment::new(3, 5), 11), Ok(None));
    // Touching segments coexist; the shared point belongs to the right one.
    assert_eq!(st.get_containing_segment(&2), Some((Segment::new(1, 3), &10)));
    assert_eq!(st.get_containing_segment(&3), Some((Segment::new(3, 5), &11)));
    assert_eq!(st.get_containing_segment(&5), None);
    match st.entry_segment(Segment::new(5, 8)) {
        Ok(Entry::Vacant(v)) => {
            assert_eq!(*v.key(), Segment::new(5, 8));
            assert_eq!(v.into_key(), Segment::new(5, 8));
        },
        _ => panic!(),
    }
    match st.entry_segment(Segment::new(3, 5)) {
        Ok(Entry::Occupied(o)) => {
            assert_eq!(*o.key(), Segment::new(3, 5));
            assert_eq!(*o.get(&st), 11);
            let (seg, v) = o.remove_entry(&mut st);
            assert_eq!(seg, Segment::new(3, 5));
            assert_eq!(v, 11);
        },
        _ => panic!(),
    }
    assert_eq!(st.get_containing_segment(&3), None);
}

#[test]
fn segment_tree_or_insert() {
    let mut st: SegmentTree<u64> = SegmentTree::new();
    match st.entry_segment(Segment::new(1, 3)) {
        Ok(e) => e.or_insert(&mut st, 5),
        _ => panic!(),
    }
    assert_eq!(st.get_segment(&Segment::new(1, 3)), Ok(Some(&5)));
    match st.entry_segment(Segment::new(1, 3)) {
        Ok(e) => e.or_insert(&mut st, 9),
        _ => panic!(),
    }
    // The occupied entry keeps its payload.
    assert_eq!(st.get_segment(&Segment::new(1, 3)), Ok(Some(&5)));
}
