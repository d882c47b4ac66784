use photorec::{ByteRun, FileDescription, FileDescriptionTree, FileDescriptionTreeError, SegmentTreeError};

#[test]
fn file_description_tree_smoke() {
    let _fdt: FileDescriptionTree<FileDescription> = FileDescriptionTree::new();
}

fn desc(size: u64, runs: Vec<(u64, u64, u64)>) -> FileDescription {
    FileDescription::new(
        size,
        runs.into_iter()
            .map(|(file_offset, disk_pos, len)| ByteRun { file_offset, disk_pos, len })
            .collect(),
    )
    .unwrap()
}

#[test]
fn file_description_tree_add_sequence() {
    let mut fdt: FileDescriptionTree<FileDescription> = FileDescriptionTree::new();
    let a = desc(10, vec![(0, 100, 5), (5, 200, 5)]);
    let b = desc(15, vec![(0, 100, 5), (5, 200, 5), (10, 300, 5)]);
    assert!(fdt.add(a.clone()).unwrap().is_none());
    // The longer compatible extension replaces the stored variant, which
    // comes back.
    let replaced = fdt.add(b.clone()).unwrap().unwrap();
    assert_eq!(replaced.as_ref(), a.as_ref());
    // Re-adding the stored variant hands the argument back unchanged.
    let contained = fdt.add(b.clone()).unwrap().unwrap();
    assert_eq!(contained.as_ref(), b.as_ref());
    // A partial intersection reports the raw witness point.
    let c = desc(4, vec![(0, 102, 4)]);
    match fdt.add(c) {
        Err(FileDescriptionTreeError::SegmentTreeError(SegmentTreeError::Intersect(p))) => {
            assert_eq!(p, 102);
        },
        _ => panic!(),
    }
}
