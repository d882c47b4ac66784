use photorec::{ByteRun, ByteRunsReader, ByteRunsRef, ReadAt, SliceSource};

#[test]
fn test_byte_runs_reader_easy() {
    let br = ByteRunsRef::new(
        18,
        vec![
            ByteRun { file_offset: 0, disk_pos: 0, len: 6 },
            ByteRun { file_offset: 6, disk_pos: 10, len: 6 },
            ByteRun { file_offset: 12, disk_pos: 20, len: 6 },
        ],
    )
    .unwrap();
    let brf = br.at_pos(0);
    let reader = SliceSource::new((0..26).collect::<Vec<u8>>());
    let mut brr = ByteRunsReader::new(reader, brf);
    let out = brr.read_to_end();
    assert_eq!(out.len(), 18);
    assert_eq!(out, vec![0, 1, 2, 3, 4, 5, 10, 11, 12, 13, 14, 15, 20, 21, 22, 23, 24, 25]);
}

#[test]
fn test_byte_runs_reader_small_read() {
    let br = ByteRunsRef::new(
        18,
        vec![
            ByteRun { file_offset: 0, disk_pos: 0, len: 6 },
            ByteRun { file_offset: 6, disk_pos: 10, len: 6 },
            ByteRun { file_offset: 12, disk_pos: 20, len: 6 },
        ],
    )
    .unwrap();
    let brf = br.at_pos(0);
    let reader = SliceSource::new((0..26).collect::<Vec<u8>>());
    let mut brr = ByteRunsReader::new(reader, brf);
    let out = brr.read_step(3);
    assert_eq!(out, vec![0, 1, 2]);
    assert_eq!(brr.seek_from_start(11), 11);
    let out = brr.read_step(3);
    assert_eq!(out, vec![15]);
}

#[test]
fn test_byte_runs_reader_hard() {
    // A disk source that hands back at most three bytes per read.
    let br = ByteRunsRef::new(
        18,
        vec![
            ByteRun { file_offset: 0, disk_pos: 0, len: 6 },
            ByteRun { file_offset: 6, disk_pos: 10, len: 6 },
            ByteRun { file_offset: 12, disk_pos: 20, len: 6 },
        ],
    )
    .unwrap();
    let brf = br.at_pos(0);
    let reader = SliceSource::with_chunk((0..26).collect::<Vec<u8>>(), 3);
    let mut brr = ByteRunsReader::new(reader, brf);
    let out = brr.read_to_end();
    assert_eq!(out.len(), 18);
    assert_eq!(out, vec![0, 1, 2, 3, 4, 5, 10, 11, 12, 13, 14, 15, 20, 21, 22, 23, 24, 25]);
}

#[test]
fn test_slice_source_short_reads() {
    let src = SliceSource::with_chunk((0..10).collect::<Vec<u8>>(), 3);
    let out = src.read_at(0, 8);
    assert_eq!(out, vec![0, 1, 2]);
    let out = src.read_at(8, 8);
    assert_eq!(out, vec![8, 9]);
    let out = src.read_at(10, 8);
    assert_eq!(out, Vec::<u8>::new());
}

#[test]
fn test_byte_runs_reader_empty_after_end() {
    let br = ByteRunsRef::new(
        18,
        vec![
            ByteRun { file_offset: 0, disk_pos: 0, len: 6 },
            ByteRun { file_offset: 6, disk_pos: 10, len: 6 },
            ByteRun { file_offset: 12, disk_pos: 20, len: 6 },
        ],
    )
    .unwrap();
    let brf = br.at_pos(0);
    let reader = SliceSource::new((0..26).collect::<Vec<u8>>());
    let mut brr = ByteRunsReader::new(reader, brf);
    assert_eq!(brr.read_to_end().len(), 18);
    // The stream now stands at its end: further reads hand back nothing.
    assert_eq!(brr.read_step(8), Vec::<u8>::new());
    assert_eq!(brr.read_to_end(), Vec::<u8>::new());
}
