use kvs::{decode_record, encode_record, record_len, Command};

#[test]
fn remove_record_bytes() {
    let bytes = encode_record(&Command::Remove { key: "a".to_owned() });
    assert_eq!(bytes, vec![0x52, 1, 0, 0, 0, 0, 0, 0, 0, 0x61]);
}

#[test]
fn put_record_bytes() {
    let bytes = encode_record(&Command::Put { key: "ab".to_owned(), value: "é".to_owned() });
    assert_eq!(
        bytes,
        vec![0x53, 2, 0, 0, 0, 0, 0, 0, 0, 0x61, 0x62, 2, 0, 0, 0, 0, 0, 0, 0, 0xc3, 0xa9]
    );
    assert_eq!(record_len(&Command::Put { key: "ab".to_owned(), value: "é".to_owned() }), Some(21));
}

#[test]
fn decode_concatenated_records() {
    let a = Command::Put { key: "key".to_owned(), value: "value".to_owned() };
    let b = Command::Remove { key: "key".to_owned() };
    let mut bytes = encode_record(&a);
    let first_len = bytes.len();
    bytes.extend(encode_record(&b));
    assert_eq!(decode_record(&bytes, 0), Some((a, first_len)));
    assert_eq!(decode_record(&bytes, first_len), Some((b, bytes.len())));
    assert_eq!(decode_record(&bytes, bytes.len()), None);
}

#[test]
fn decode_rejects_bad_tag_and_truncation() {
    let mut bytes = encode_record(&Command::Remove { key: "k".to_owned() });
    assert_eq!(decode_record(&bytes[..bytes.len() - 1], 0), None);
    bytes[0] = b'X';
    assert_eq!(decode_record(&bytes, 0), None);
}

#[test]
fn decode_rejects_invalid_utf8() {
    let bytes = vec![0x52, 1, 0, 0, 0, 0, 0, 0, 0, 0xff];
    assert_eq!(decode_record(&bytes, 0), None);
}

#[test]
fn decode_rejects_oversized_length() {
    let bytes = vec![0x52, 0xff, 0xff, 0xff, 0xff, 0xff, 0xff, 0xff, 0xff, 0x61];
    assert_eq!(decode_record(&bytes, 0), None);
}
