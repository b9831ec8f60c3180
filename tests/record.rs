use proglog::commit_log::CommitLogError;
use proglog::record::{decode_record, encode_record, Record};

#[test]
fn record_encoding_leaves_out_default_fields() {
    assert_eq!(encode_record(0, b""), Vec::<u8>::new());
    assert_eq!(encode_record(0, b"a"), vec![0x0a, 1, b'a']);
    assert_eq!(encode_record(5, b""), vec![0x10, 5]);
}

#[test]
fn record_encoding_uses_multi_byte_varints() {
    assert_eq!(
        encode_record(300, b"hi"),
        vec![0x0a, 2, b'h', b'i', 0x10, 0xac, 0x02]
    );
    let value = vec![7u8; 200];
    let bytes = encode_record(u64::MAX, &value);
    assert_eq!(&bytes[..3], &[0x0a, 0xc8, 0x01]);
    assert_eq!(bytes[203], 0x10);
    assert_eq!(
        &bytes[204..],
        &[0xff, 0xff, 0xff, 0xff, 0xff, 0xff, 0xff, 0xff, 0xff, 0x01]
    );
}

#[test]
fn record_round_trip() {
    for (offset, value) in [
        (0u64, Vec::new()),
        (0, b"a".to_vec()),
        (1, b"b".to_vec()),
        (127, vec![1; 127]),
        (128, vec![2; 128]),
        (u64::MAX, vec![3; 1000]),
    ] {
        let bytes = encode_record(offset, &value);
        assert_eq!(decode_record(&bytes), Ok(Record { offset, value }));
    }
}

#[test]
fn record_decoding_rejects_malformed_bytes() {
    // Unknown field.
    assert_eq!(decode_record(&[0x18, 1]), Err(CommitLogError::EncodingFailure));
    // Value shorter than its length says.
    assert_eq!(decode_record(&[0x0a, 5, 1, 2]), Err(CommitLogError::EncodingFailure));
    // Truncated varint.
    assert_eq!(decode_record(&[0x10, 0x80]), Err(CommitLogError::EncodingFailure));
    // Trailing bytes.
    assert_eq!(decode_record(&[0x10, 1, 0]), Err(CommitLogError::EncodingFailure));
}
