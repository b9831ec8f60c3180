use proglog::index::{Config, Index, IndexError, SegmentConfig};

fn config(max_index_bytes: u64) -> Config {
    Config {
        segment: SegmentConfig { max_index_bytes },
    }
}

#[test]
fn index_rebuilds_state_from_file_if_file_is_not_empty() {
    let mut index1 = Index::new(Vec::new(), config(1024));

    index1.write(1, 10).unwrap();

    // The file contents left behind once the index is closed.
    let file = index1.close();

    // The file has one entry, so an index made from it holds that entry.
    let index2 = Index::new(file, config(1024));

    assert_eq!(Ok(10), index2.read(0));
}

#[test]
fn write() {
    let mut index = Index::new(Vec::new(), config(1024));

    index.write(0, 0).unwrap();
    index.write(1, 10).unwrap();
    index.write(2, 1000).unwrap();

    let buffer = index.close();

    // Expected file bytes, in decimal.
    let expected = vec![
        0, 0, 0, 0, // offset (4 bytes) = 0
        0, 0, 0, 0, 0, 0, 0, 0, // position (8 bytes) = 0
        0, 0, 0, 1, // offset (4 bytes) = 1
        0, 0, 0, 0, 0, 0, 0, 10, // position (8 bytes) = 10
        0, 0, 0, 2, // offset (4 bytes) = 2
        0, 0, 0, 0, 0, 0, 3, 232, // position (8 bytes) = 1000
    ];

    assert_eq!(expected, buffer);
}

#[test]
fn read_returns_error_if_offset_is_greater_than_the_index_size() {
    let mut index = Index::new(Vec::new(), config(1024));

    // Index size is 0.
    assert_eq!(
        Err(IndexError::OffsetOutOfBounds {
            index_len: 0,
            offset: 0,
        }),
        index.read(0)
    );

    index.write(0, 11).unwrap();

    // Index size is 1 but to read the first entry we call read(0).
    assert_eq!(
        Err(IndexError::OffsetOutOfBounds {
            index_len: 1,
            offset: 1,
        }),
        index.read(1)
    );
}

#[test]
fn read_returns_position_thats_mapped_to_the_offset() {
    let mut index = Index::new(Vec::new(), config(1024));

    index.write(0, 10).unwrap();
    index.write(1, 0).unwrap();
    index.write(2, 1).unwrap();
    index.write(3, 333).unwrap();
    index.write(999, 42).unwrap();

    assert_eq!(Ok(10), index.read(0));
    assert_eq!(Ok(0), index.read(1));
    assert_eq!(Ok(1), index.read(2));
    assert_eq!(Ok(333), index.read(3));
    assert_eq!(Ok(42), index.read(4));
}

#[test]
fn index_entry_byte_layout() {
    let mut index = Index::new(Vec::new(), config(1024));
    index.write(2, 1000).unwrap();
    assert_eq!(index.size(), 12);
    assert_eq!(index.close(), vec![0, 0, 0, 2, 0, 0, 0, 0, 0, 0, 3, 232]);
}

#[test]
fn index_write_fails_when_full() {
    let mut index = Index::new(Vec::new(), config(24));
    assert!(!index.is_full());
    index.write(0, 5).unwrap();
    index.write(1, 6).unwrap();
    assert!(index.is_full());
    assert_eq!(index.write(2, 7), Err(IndexError::IndexIsFull));
    assert_eq!(index.len(), 2);
    assert_eq!(index.last_offset(), Some(1));
    assert_eq!(index.read(1), Ok(6));
}

#[test]
fn index_recovery_rounds_down_to_whole_entries_and_cuts_to_mapped_size() {
    let mut index = Index::new(Vec::new(), config(1024));
    index.write(0, 1).unwrap();
    index.write(1, 2).unwrap();
    let mut file = index.close();
    // A partly written third entry is not counted.
    file.extend_from_slice(&[0, 0, 0, 2, 0]);
    let index = Index::new(file.clone(), config(1024));
    assert_eq!(index.len(), 2);
    assert_eq!(index.size(), 24);
    assert_eq!(index.last_offset(), Some(1));
    // Mapped at 12 bytes, only the first entry fits.
    let index = Index::new(file, config(12));
    assert_eq!(index.len(), 1);
    assert!(index.is_full());
    assert_eq!(index.read(0), Ok(1));
}

#[test]
fn empty_index_has_no_last_offset() {
    let index = Index::new(Vec::new(), config(1024));
    assert!(index.is_empty());
    assert_eq!(index.last_offset(), None);
    assert_eq!(index.size(), 0);
}
