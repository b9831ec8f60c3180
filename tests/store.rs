use proglog::commit_log::CommitLogError;
use proglog::store::{AppendOutput, Store, LEN_WIDTH};

#[test]
fn test_append() {
    let mut store = Store::new(Vec::new());

    let bytes = "hello world".as_bytes();

    // appended_at should be 0 because the store is empty.
    assert_eq!(
        AppendOutput {
            appended_at: 0,
            bytes_written: LEN_WIDTH + bytes.len() as u64,
        },
        store.append(bytes).unwrap(),
    );

    // appended_at should be 19 because the store holds one entry.
    assert_eq!(
        AppendOutput {
            appended_at: 19,
            bytes_written: LEN_WIDTH + bytes.len() as u64,
        },
        store.append(bytes).unwrap(),
    );
}

#[test]
fn test_read() {
    let mut store = Store::new(Vec::new());

    let tests = vec!["hello world", r#"{"key": "value"}"#];

    for input in tests {
        let bytes = input.as_bytes();

        let output = store.append(bytes).unwrap();

        assert_eq!(bytes.to_vec(), store.read(output.appended_at).unwrap());
    }
}

#[test]
fn test_read_at() {
    let mut store = Store::new(Vec::new());

    let tests = vec!["hello world", r#"{"key": "value"}"#];

    for input in tests {
        let bytes = input.as_bytes();

        let mut buffer = vec![0u8; bytes.len()];

        let output = store.append(bytes).unwrap();

        store.read_at(&mut buffer, output.appended_at).unwrap();

        assert_eq!(bytes.to_vec(), buffer);
    }
}

#[test]
fn test_size() {
    let mut store = Store::new(Vec::new());

    assert_eq!(store.size(), 0);

    let bytes = "abc 123".as_bytes();

    store.append(bytes).unwrap();

    assert_eq!(store.size(), bytes.len() as u64 + LEN_WIDTH);
}

#[test]
fn store_entry_byte_layout() {
    let mut store = Store::new(Vec::new());
    store.append(&[0x68, 0x69, 0x21]).unwrap();
    assert_eq!(
        store.close(),
        vec![0, 0, 0, 0, 0, 0, 0, 3, 0x68, 0x69, 0x21]
    );
}

#[test]
fn store_read_after_append_returns_payload_for_each_entry() {
    let mut store = Store::new(vec![0, 0, 0, 0, 0, 0, 0, 1, 42]);
    assert_eq!(store.size(), 9);
    let payloads: Vec<Vec<u8>> = vec![vec![], vec![1, 2, 3], vec![7; 300]];
    let mut positions = Vec::new();
    for p in &payloads {
        positions.push(store.append(p).unwrap().appended_at);
    }
    assert_eq!(positions, vec![9, 17, 28]);
    for (p, at) in payloads.iter().zip(positions) {
        assert_eq!(&store.read(at).unwrap(), p);
    }
    assert_eq!(store.read(0).unwrap(), vec![42]);
}

#[test]
fn store_read_past_end_fails_with_io_failure() {
    let mut store = Store::new(Vec::new());
    store.append(b"abc").unwrap();
    assert_eq!(store.read(11), Err(CommitLogError::IoFailure));
    assert_eq!(store.read(100), Err(CommitLogError::IoFailure));
    // A length prefix that announces more bytes than the file holds.
    let store = Store::new(vec![0, 0, 0, 0, 0, 0, 0, 9, 1, 2]);
    assert_eq!(store.read(0), Err(CommitLogError::IoFailure));
}

#[test]
fn store_read_at_short_file_leaves_buffer_unchanged() {
    let mut store = Store::new(Vec::new());
    store.append(b"ab").unwrap();
    let mut buffer = vec![9u8; 3];
    assert_eq!(store.read_at(&mut buffer, 0), Err(CommitLogError::IoFailure));
    assert_eq!(buffer, vec![9, 9, 9]);
}
