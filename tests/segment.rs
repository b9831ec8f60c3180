use proglog::commit_log::{self, CommitLogError, Log};
use proglog::record::Record;
use proglog::segment::{nearest_multiple, Config, Segment};

fn segment(max_index_bytes: u64, max_store_bytes: u64) -> Segment {
    Segment::new(
        0,
        Config {
            initial_offset: 0,
            max_index_bytes,
            max_store_bytes,
        },
        Vec::new(),
        Vec::new(),
    )
    .unwrap()
}

#[test]
fn segment_append_then_read() {
    let mut segment = segment(1024, 128);

    let bytes = "hello_world".as_bytes().to_vec();

    let offset = segment.append(bytes.clone()).unwrap();

    assert_eq!(
        Record {
            value: bytes.clone(),
            offset: 0,
        },
        segment.read(offset).unwrap()
    );

    let offset = segment.append(bytes.clone()).unwrap();

    assert_eq!(
        Record {
            value: bytes,
            offset: 1,
        },
        segment.read(offset).unwrap()
    );
}

#[test]
fn test_is_maxed_returns_true_when_store_file_is_full() {
    let mut segment = segment(128, 128);

    assert_eq!(false, segment.is_maxed());

    // Append an entry big enough to fill the store file.
    segment.append(vec![0u8; 128]).unwrap();

    // true because the store file is full.
    assert_eq!(true, segment.is_maxed());
}

#[test]
fn test_is_maxed_returns_true_when_index_file_is_full() {
    let mut segment = segment(24, 128);

    assert_eq!(false, segment.is_maxed());

    // Two entries in the index, each taking 12 bytes:
    // 4 for the offset and 8 for the position.
    segment.append(vec![0u8; 128]).unwrap();
    segment.append(vec![0u8; 128]).unwrap();

    // true because the index file is full.
    assert_eq!(true, segment.is_maxed());
}

#[test]
fn foo() {
    let mut segment = segment(24, 128);

    assert_eq!(false, segment.is_maxed());

    segment.append(vec![0u8; 8]).unwrap();

    let files = vec![segment.close()];
    let config = commit_log::Config {
        initial_offset: 0,
        max_store_bytes_per_segment: 128,
        max_index_bytes_per_segment: 24,
    };
    let log = Log::new(String::from("dir"), config, files).unwrap();
    assert_eq!(log.segments().len(), 1);
    assert_eq!(log.highest_offset(), 1);
    assert_eq!(log.read(0).unwrap().value, vec![0u8; 8]);
}

#[test]
fn index_full_fails_before_the_store_is_written() {
    let mut segment = segment(12, 4096);
    assert_eq!(segment.append(b"one".to_vec()), Ok(0));
    assert_eq!(segment.append(b"two".to_vec()), Err(CommitLogError::IndexFull));
    assert_eq!(segment.next_offset(), 1);
    let files = segment.close();
    // Only the first record reached the store: 8 bytes of length, 5 of record.
    assert_eq!(files.store.len(), 13);
    assert_eq!(files.index.len(), 12);
}

#[test]
fn segment_read_outside_its_range_fails() {
    let mut segment = Segment::new(
        10,
        Config {
            initial_offset: 0,
            max_index_bytes: 1024,
            max_store_bytes: 1024,
        },
        Vec::new(),
        Vec::new(),
    )
    .unwrap();
    segment.append(b"x".to_vec()).unwrap();
    assert_eq!(segment.base_offset(), 10);
    assert_eq!(segment.next_offset(), 11);
    assert_eq!(segment.read(10).unwrap().offset, 10);
    assert_eq!(segment.read(9), Err(CommitLogError::OffsetOutOfBounds(9)));
    assert_eq!(segment.read(11), Err(CommitLogError::OffsetOutOfBounds(11)));
}

#[test]
fn segment_reopens_from_its_files() {
    let mut segment = segment(1024, 1024);
    segment.append(b"a".to_vec()).unwrap();
    segment.append(b"b".to_vec()).unwrap();
    let files = segment.close();
    let config = Config {
        initial_offset: 0,
        max_index_bytes: 1024,
        max_store_bytes: 1024,
    };
    let segment = Segment::new(0, config, files.store, files.index).unwrap();
    assert_eq!(segment.next_offset(), 2);
    assert_eq!(segment.read(1).unwrap().value, b"b".to_vec());
}

#[test]
fn segment_with_non_dense_index_is_corrupt() {
    let config = Config {
        initial_offset: 0,
        max_index_bytes: 1024,
        max_store_bytes: 1024,
    };
    let index = vec![0, 0, 0, 5, 0, 0, 0, 0, 0, 0, 0, 0];
    assert_eq!(
        Segment::new(0, config, Vec::new(), index).err(),
        Some(CommitLogError::CorruptDirectory)
    );
}

#[test]
fn nearest_multiple_rounds_down() {
    assert_eq!(nearest_multiple(9, 4), 8);
    assert_eq!(nearest_multiple(12, 12), 12);
    assert_eq!(nearest_multiple(11, 12), 0);
    assert_eq!(nearest_multiple(u64::MAX, 12), u64::MAX - 3);
}
