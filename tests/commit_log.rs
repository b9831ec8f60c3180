use proglog::commit_log::{CommitLogError, Config, Log};
use proglog::record::Record;
use proglog::segment::SegmentFiles;

fn new_log() -> Log {
    Log::new(String::from("log_dir"), Config::default(), Vec::new()).unwrap()
}

fn log_with(config: Config) -> Log {
    Log::new(String::from("log_dir"), config, Vec::new()).unwrap()
}

#[test]
fn commit_log_append_then_read() {
    let mut log = new_log();

    let tests = vec![("a", 0), ("b", 1), ("c", 2)];

    for (input, expected_offset) in tests {
        let input = input.as_bytes().to_vec();

        let offset = log.append(input.clone()).unwrap();

        assert_eq!(expected_offset, offset);

        assert_eq!(
            Record {
                offset: expected_offset,
                value: input,
            },
            log.read(offset).unwrap(),
        );
    }
}

#[test]
fn log_reuses_data_stored_on_disk_by_prior_log_instances() {
    let mut log = new_log();

    let data = vec![(0, "a"), (1, "b"), (2, "c")];

    for (_, input) in &data {
        log.append(input.as_bytes().to_vec()).unwrap();
    }

    let directory = log.directory().clone();
    let config = log.config();

    // The contents the files are left with.
    let files = log.close();

    // A new log over those files holds the records of the first one.
    let log = Log::new(directory, config, files).unwrap();

    for (expected_offset, input) in data {
        assert_eq!(
            Record {
                offset: expected_offset,
                value: input.as_bytes().to_vec(),
            },
            log.read(expected_offset).unwrap()
        );
    }
    assert_eq!(log.highest_offset(), 3);
}

#[test]
fn lowest_offset_returns_base_offset_of_the_first_segment() {
    let mut log = new_log();

    assert_eq!(log.config().initial_offset, log.lowest_offset());

    log.new_segment(log.config().initial_offset + 1).unwrap();

    assert_eq!(log.config().initial_offset, log.lowest_offset());
}

#[test]
fn highest_offset_returns_the_next_offset_that_will_be_used_by_the_newest_segment() {
    let mut log = new_log();

    // The log is empty, so the next offset is the initial offset.
    assert_eq!(log.config().initial_offset, log.highest_offset());

    log.append("hello world".as_bytes().to_vec()).unwrap();

    assert_eq!(log.config().initial_offset + 1, log.highest_offset());
}

#[test]
fn test_truncate() {
    let mut log = new_log();

    log.new_segment(1).unwrap();
    log.new_segment(2).unwrap();

    // Initial segment + 2 segments added.
    assert_eq!(3, log.segments().len());

    let removed = log.truncate(1);

    assert_eq!(removed, vec![0, 1]);
    assert_eq!(1, log.segments().len());
    assert_eq!(2, log.segments()[0].base_offset())
}

#[test]
fn three_appends_and_reads() {
    let mut log = new_log();
    assert_eq!(log.append(b"a".to_vec()), Ok(0));
    assert_eq!(log.append(b"b".to_vec()), Ok(1));
    assert_eq!(log.append(b"c".to_vec()), Ok(2));
    assert_eq!(log.read(0).unwrap().value, b"a".to_vec());
    assert_eq!(log.read(2).unwrap().value, b"c".to_vec());
    assert_eq!(log.read(3), Err(CommitLogError::OffsetOutOfBounds(3)));
}

#[test]
fn store_full_rolls_over() {
    let mut log = log_with(Config {
        initial_offset: 0,
        max_store_bytes_per_segment: 128,
        max_index_bytes_per_segment: 4096,
    });
    log.append(vec![1u8; 128]).unwrap();
    assert_eq!(log.segments().len(), 2);
    assert_eq!(log.segments()[1].base_offset(), 1);
    assert_eq!(log.highest_offset(), 1);
}

#[test]
fn index_full_rolls_over() {
    let mut log = log_with(Config {
        initial_offset: 0,
        max_store_bytes_per_segment: 4096,
        max_index_bytes_per_segment: 24,
    });
    log.append(vec![1]).unwrap();
    assert_eq!(log.segments().len(), 1);
    log.append(vec![2]).unwrap();
    assert_eq!(log.segments().len(), 2);
    assert_eq!(log.append(vec![3]), Ok(2));
    assert_eq!(log.segments().len(), 2);
    assert_eq!(log.segments()[1].base_offset(), 2);
    assert_eq!(log.segments()[1].next_offset(), 3);
    assert_eq!(log.read(1).unwrap().value, vec![2]);
    assert_eq!(log.read(2).unwrap().value, vec![3]);
}

#[test]
fn appends_read_back_across_segments_from_initial_offset() {
    let mut log = log_with(Config {
        initial_offset: 1000,
        max_store_bytes_per_segment: 64,
        max_index_bytes_per_segment: 36,
    });
    let values: Vec<Vec<u8>> = (0..20u8).map(|i| vec![i; (i as usize) * 3]).collect();
    for (i, v) in values.iter().enumerate() {
        assert_eq!(log.append(v.clone()), Ok(1000 + i as u64));
    }
    assert!(log.segments().len() > 1);
    assert_eq!(log.lowest_offset(), 1000);
    assert_eq!(log.highest_offset(), 1020);
    for (i, v) in values.iter().enumerate() {
        let offset = 1000 + i as u64;
        assert_eq!(
            log.read(offset),
            Ok(Record {
                offset,
                value: v.clone()
            })
        );
    }
}

#[test]
fn reopened_log_keeps_records_across_segments() {
    let config = Config {
        initial_offset: 7,
        max_store_bytes_per_segment: 40,
        max_index_bytes_per_segment: 1024,
    };
    let mut log = log_with(config);
    for i in 0..10u8 {
        log.append(vec![i; 10]).unwrap();
    }
    let segments = log.segments().len();
    let files = log.close();
    assert_eq!(files.len(), segments);
    let log = Log::new(String::from("log_dir"), config, files).unwrap();
    assert_eq!(log.segments().len(), segments);
    assert_eq!(log.lowest_offset(), 7);
    assert_eq!(log.highest_offset(), 17);
    for i in 0..10u8 {
        assert_eq!(log.read(7 + i as u64).unwrap().value, vec![i; 10]);
    }
}

#[test]
fn reading_highest_offset_fails() {
    let mut log = new_log();
    assert_eq!(log.read(0), Err(CommitLogError::OffsetOutOfBounds(0)));
    log.append(b"x".to_vec()).unwrap();
    let highest = log.highest_offset();
    assert_eq!(log.read(highest), Err(CommitLogError::OffsetOutOfBounds(highest)));
}

#[test]
fn reading_below_lowest_offset_fails() {
    let mut log = log_with(Config {
        initial_offset: 10,
        max_store_bytes_per_segment: 1024,
        max_index_bytes_per_segment: 1024,
    });
    log.append(b"x".to_vec()).unwrap();
    for offset in 0..10 {
        assert_eq!(log.read(offset), Err(CommitLogError::OffsetOutOfBounds(offset)));
    }
    assert!(log.read(10).is_ok());
}

#[test]
fn segment_count_depends_on_payload_lengths_only() {
    let config = Config {
        initial_offset: 0,
        max_store_bytes_per_segment: 50,
        max_index_bytes_per_segment: 1024,
    };
    let mut a = log_with(config);
    let mut b = log_with(config);
    for i in 0..30u8 {
        a.append(vec![i; (i % 7) as usize]).unwrap();
        if i % 3 == 0 {
            let _ = b.read(0);
        }
        b.append(vec![255 - i; (i % 7) as usize]).unwrap();
        let _ = b.read(i as u64);
    }
    assert_eq!(a.segments().len(), b.segments().len());
    assert!(a.segments().len() > 1);
}

#[test]
fn truncate_without_a_matching_segment_keeps_everything() {
    let mut log = log_with(Config {
        initial_offset: 5,
        max_store_bytes_per_segment: 1024,
        max_index_bytes_per_segment: 1024,
    });
    log.append(b"x".to_vec()).unwrap();
    assert_eq!(log.truncate(3), Vec::<u64>::new());
    assert_eq!(log.segments().len(), 1);
    assert_eq!(log.lowest_offset(), 5);
}

#[test]
fn truncate_keeps_last_segment_ending_at_or_below_the_limit() {
    let mut log = log_with(Config {
        initial_offset: 0,
        max_store_bytes_per_segment: 1024,
        max_index_bytes_per_segment: 24,
    });
    for i in 0..6u8 {
        log.append(vec![i]).unwrap();
    }
    // Segments: [0, 2), [2, 4), [4, 6), [6, 6).
    assert_eq!(log.segments().len(), 4);
    assert_eq!(log.truncate(3), vec![0]);
    assert_eq!(log.lowest_offset(), 2);
    assert_eq!(log.read(1), Err(CommitLogError::OffsetOutOfBounds(1)));
    assert_eq!(log.read(2).unwrap().value, vec![2]);
    assert_eq!(log.highest_offset(), 6);
}

#[test]
fn new_segment_below_highest_offset_fails() {
    let mut log = new_log();
    log.append(b"a".to_vec()).unwrap();
    log.append(b"b".to_vec()).unwrap();
    assert_eq!(log.new_segment(1), Err(CommitLogError::OffsetOutOfBounds(1)));
    assert_eq!(log.segments().len(), 1);
    assert_eq!(log.new_segment(5), Ok(()));
    assert_eq!(log.highest_offset(), 5);
    assert_eq!(log.read(3), Err(CommitLogError::OffsetOutOfBounds(3)));
    assert_eq!(log.read(1).unwrap().value, b"b".to_vec());
}

#[test]
fn index_too_small_for_an_entry_fails_with_index_full() {
    let mut log = log_with(Config {
        initial_offset: 0,
        max_store_bytes_per_segment: 1024,
        max_index_bytes_per_segment: 8,
    });
    assert_eq!(log.append(b"a".to_vec()), Err(CommitLogError::IndexFull));
    assert_eq!(log.highest_offset(), 0);
}

#[test]
fn recovery_rejects_segments_that_do_not_chain() {
    let config = Config::default();
    let mut log = new_log();
    log.append(b"a".to_vec()).unwrap();
    let mut files = log.close();
    files.push(SegmentFiles {
        base_offset: 5,
        store: Vec::new(),
        index: Vec::new(),
    });
    assert_eq!(
        Log::new(String::from("log_dir"), config, files).err(),
        Some(CommitLogError::CorruptDirectory)
    );
    let files = vec![
        SegmentFiles {
            base_offset: 3,
            store: Vec::new(),
            index: Vec::new(),
        },
        SegmentFiles {
            base_offset: 3,
            store: Vec::new(),
            index: Vec::new(),
        },
    ];
    assert_eq!(
        Log::new(String::from("log_dir"), config, files).err(),
        Some(CommitLogError::CorruptDirectory)
    );
}

#[test]
fn default_config() {
    let config = Config::default();
    assert_eq!(config.initial_offset, 0);
    assert_eq!(config.max_store_bytes_per_segment, 1024);
    assert_eq!(config.max_index_bytes_per_segment, 1024);
}
