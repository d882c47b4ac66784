use photorec::{ByteRun, ByteRunsRef, ByteRunsRefError};

#[test]
fn test_byte_runs_ref_ctor() {
    let br = ByteRunsRef::new(
        123,
        vec![
            ByteRun { file_offset: 50, disk_pos: 8000, len: 50 },
            ByteRun { file_offset: 100, disk_pos: 2000, len: 50 },
            ByteRun { file_offset: 0, disk_pos: 16000, len: 50 },
        ],
    )
    .unwrap();
    assert_eq!(br.size(), 123);
    assert_eq!(br.as_ref()[0], ByteRun { file_offset: 0, disk_pos: 16000, len: 50 });
    assert_eq!(br.as_ref()[1], ByteRun { file_offset: 50, disk_pos: 8000, len: 50 });
    assert_eq!(br.as_ref()[2], ByteRun { file_offset: 100, disk_pos: 2000, len: 23 });
}

#[test]
fn test_byte_runs_ref_ctor_integrity() {
    if let Err(ByteRunsRefError::Empty) = ByteRunsRef::new(123, vec![]) {
    } else {
        panic!();
    }
    if let Err(ByteRunsRefError::PreGap(y)) = ByteRunsRef::new(
        123,
        vec![
            ByteRun { file_offset: 100, disk_pos: 2000, len: 50 },
            ByteRun { file_offset: 50, disk_pos: 8000, len: 50 },
        ],
    ) {
        assert_eq!(y, ByteRun { file_offset: 50, disk_pos: 8000, len: 50 });
    } else {
        panic!();
    }
    if let Err(ByteRunsRefError::Gap(x, y)) = ByteRunsRef::new(
        123,
        vec![
            ByteRun { file_offset: 100, disk_pos: 2000, len: 50 },
            ByteRun { file_offset: 0, disk_pos: 16000, len: 50 },
        ],
    ) {
        assert_eq!(x, ByteRun { file_offset: 0, disk_pos: 16000, len: 50 });
        assert_eq!(y, ByteRun { file_offset: 100, disk_pos: 2000, len: 50 });
    } else {
        panic!();
    }
    if let Err(ByteRunsRefError::Overlap(x, y)) = ByteRunsRef::new(
        123,
        vec![
            ByteRun { file_offset: 50, disk_pos: 8000, len: 50 },
            ByteRun { file_offset: 100, disk_pos: 2000, len: 50 },
            ByteRun { file_offset: 0, disk_pos: 16000, len: 60 },
        ],
    ) {
        assert_eq!(x, ByteRun { file_offset: 0, disk_pos: 16000, len: 60 });
        assert_eq!(y, ByteRun { file_offset: 50, disk_pos: 8000, len: 50 });
    } else {
        panic!();
    }
}

#[test]
fn test_byte_runs_ref_pos_seek() {
    let br = ByteRunsRef::new(
        123,
        vec![
            ByteRun { file_offset: 50, disk_pos: 8000, len: 50 },
            ByteRun { file_offset: 100, disk_pos: 2000, len: 50 },
            ByteRun { file_offset: 0, disk_pos: 16000, len: 50 },
        ],
    )
    .unwrap();
    let mut brf = br.at_pos(0);
    assert_eq!(brf.seek_from_start(3), 3);
    assert_eq!(brf.seek_from_start(6), 6);
    assert_eq!(brf.seek_from_current(0x7ffffffffffffff0).unwrap(), 0x7ffffffffffffff6);
    assert_eq!(brf.seek_from_current(0x10).unwrap(), 0x8000000000000006);
    assert!(brf.seek_from_current(0x7ffffffffffffffd).is_err());
    assert_eq!(brf.seek_from_current(-0x8000000000000000).unwrap(), 6);
    assert_eq!(brf.seek_from_end(10).unwrap(), 133);
    assert_eq!(brf.seek_from_end(-10).unwrap(), 113);
    assert!(brf.seek_from_end(-1000).is_err());
}

#[test]
fn test_byte_runs_ref_at_pos() {
    let br = ByteRunsRef::new(
        123,
        vec![
            ByteRun { file_offset: 50, disk_pos: 8000, len: 50 },
            ByteRun { file_offset: 100, disk_pos: 2000, len: 50 },
            ByteRun { file_offset: 0, disk_pos: 16000, len: 50 },
        ],
    )
    .unwrap();
    let brp = br.at_pos(0);
    assert_eq!(brp.pos(), 0);
    assert_eq!(brp.cur_run(), 0);
    assert_eq!(brp.offset_in_run(), 0);
    let brp = br.at_pos(70);
    assert_eq!(brp.pos(), 70);
    assert_eq!(brp.cur_run(), 1);
    assert_eq!(brp.offset_in_run(), 20);
    let brp = br.at_pos(170);
    assert_eq!(brp.pos(), 170);
    assert_eq!(brp.cur_run(), 3);
    assert_eq!(brp.offset_in_run(), 0);
}

#[test]
fn test_byte_runs_ref_trailing_and_missing() {
    if let Err(ByteRunsRefError::Missing(want, got)) =
        ByteRunsRef::new(123, vec![ByteRun { file_offset: 0, disk_pos: 1, len: 10 }])
    {
        assert_eq!(want, 123);
        assert_eq!(got, 10);
    } else {
        panic!();
    }
    if let Err(ByteRunsRefError::Trailing(run, size)) = ByteRunsRef::new(
        3,
        vec![
            ByteRun { file_offset: 0, disk_pos: 1, len: 5 },
            ByteRun { file_offset: 5, disk_pos: 9, len: 2 },
        ],
    ) {
        assert_eq!(run, ByteRun { file_offset: 5, disk_pos: 9, len: 2 });
        assert_eq!(size, 3);
    } else {
        panic!();
    }
}
