use proglog::commit_log::CommitLogError;
use proglog::directory::store_offsets;

fn names(list: &[&str]) -> Vec<String> {
    list.iter().map(|s| s.to_string()).collect()
}

#[test]
fn store_offsets_are_read_from_store_file_names_in_order() {
    let found = names(&["2.store", "2.index", "0.index", "10.store", "0.store", "notes.txt"]);
    assert_eq!(store_offsets(&found), Ok(vec![0, 2, 10]));
}

#[test]
fn store_offsets_of_an_empty_directory() {
    assert_eq!(store_offsets(&Vec::new()), Ok(Vec::new()));
    assert_eq!(store_offsets(&names(&["store", "x.index"])), Ok(Vec::new()));
}

#[test]
fn store_offsets_reach_u64_max() {
    let found = names(&["18446744073709551615.store"]);
    assert_eq!(store_offsets(&found), Ok(vec![u64::MAX]));
}

#[test]
fn store_offsets_reject_bad_stems() {
    for bad in [".store", "a.store", "1a.store", "18446744073709551616.store"] {
        assert_eq!(
            store_offsets(&names(&[bad])),
            Err(CommitLogError::CorruptDirectory),
            "{}",
            bad
        );
    }
}

#[test]
fn store_offsets_reject_two_names_for_one_offset() {
    assert_eq!(
        store_offsets(&names(&["7.store", "007.store"])),
        Err(CommitLogError::CorruptDirectory)
    );
}
