use photorec::{ByteRun, ByteRunsReaderAt, ByteRunsRef, FileDescription, SliceSource};

fn sample_ref() -> ByteRunsRef {
    ByteRunsRef::new(
        18,
        vec![
            ByteRun { file_offset: 0, disk_pos: 0, len: 6 },
            ByteRun { file_offset: 6, disk_pos: 10, len: 6 },
            ByteRun { file_offset: 12, disk_pos: 20, len: 6 },
        ],
    )
    .unwrap()
}

#[test]
fn test_byte_runs_reader_at_short() {
    let br = sample_ref();
    let reader = SliceSource::new((0..26).collect::<Vec<u8>>());
    let brr = ByteRunsReaderAt::new(reader, br);
    assert_eq!(brr.read_at(0, 4), vec![0, 1, 2, 3]);
    assert_eq!(brr.read_at(1, 4), vec![1, 2, 3, 4]);
    assert_eq!(brr.read_at(2, 4), vec![2, 3, 4, 5]);
    assert_eq!(brr.read_at(3, 4), vec![3, 4, 5, 10]);
}

#[test]
fn test_byte_runs_reader_at_long() {
    let br = sample_ref();
    let reader = SliceSource::new((0..26).collect::<Vec<u8>>());
    let brr = ByteRunsReaderAt::new(reader, br);
    assert_eq!(brr.read_at(4, 10), vec![4, 5, 10, 11, 12, 13, 14, 15, 20, 21]);
}

#[test]
fn test_byte_runs_reader_at_eof() {
    let br = sample_ref();
    let reader = SliceSource::new((0..26).collect::<Vec<u8>>());
    let brr = ByteRunsReaderAt::new(reader, br);
    assert_eq!(brr.read_at(15, 5), vec![23, 24, 25]);
    assert_eq!(brr.read_at(18, 5), Vec::<u8>::new());
    assert_eq!(brr.read_at(30, 5), Vec::<u8>::new());
}

#[test]
fn test_byte_runs_reader_at_description() {
    let fd = FileDescription::new(
        18,
        vec![
            ByteRun { file_offset: 0, disk_pos: 0, len: 6 },
            ByteRun { file_offset: 6, disk_pos: 10, len: 6 },
            ByteRun { file_offset: 12, disk_pos: 20, len: 6 },
        ],
    )
    .unwrap();
    let reader = SliceSource::with_chunk((0..26).collect::<Vec<u8>>(), 2);
    let brr = ByteRunsReaderAt::new(reader, fd);
    assert_eq!(
        brr.read_at(0, 18),
        vec![0, 1, 2, 3, 4, 5, 10, 11, 12, 13, 14, 15, 20, 21, 22, 23, 24, 25]
    );
}
