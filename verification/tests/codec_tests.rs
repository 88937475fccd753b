use masswhois::codec::{decode_records, encode_record, u64_from_le_bytes, u64_to_le_bytes};

#[test]
fn le_bytes_round_trip() {
    let b = u64_to_le_bytes(0x0102_0304_0506_0708);
    assert_eq!(b, vec![0x08, 0x07, 0x06, 0x05, 0x04, 0x03, 0x02, 0x01]);
    let v = u64_from_le_bytes(b.as_slice(), 0);
    assert_eq!(v, 0x0102_0304_0506_0708);
}

#[test]
fn binary_output_exact_bytes() {
    // "a" with an empty body, then "bb" with body "ok"
    let r1 = encode_record(b"a", b"");
    let r2 = encode_record(b"bb", b"ok");
    let mut stream = r1.clone();
    stream.extend(r2.clone());
    let expected: Vec<u8> = vec![
        0x01, 0x00, 0x00, 0x00, 0x00, 0x00, 0x00, 0x00, b'a', 0x00, 0x00, 0x00, 0x00, 0x00, 0x00,
        0x00, 0x00, 0x02, 0x00, 0x00, 0x00, 0x00, 0x00, 0x00, 0x00, b'b', b'b', 0x02, 0x00, 0x00,
        0x00, 0x00, 0x00, 0x00, 0x00, b'o', b'k',
    ];
    assert_eq!(stream, expected);
}

#[test]
fn records_are_self_delimiting() {
    let mut stream = encode_record(b"first", b"body one");
    stream.extend(encode_record(b"", b""));
    stream.extend(encode_record(b"third", b"xyz"));
    let pairs = decode_records(stream.as_slice()).expect("well-formed stream");
    assert_eq!(pairs.len(), 3);
    assert_eq!(pairs[0].0, b"first".to_vec());
    assert_eq!(pairs[0].1, b"body one".to_vec());
    assert_eq!(pairs[1].0, Vec::<u8>::new());
    assert_eq!(pairs[1].1, Vec::<u8>::new());
    assert_eq!(pairs[2].0, b"third".to_vec());
    assert_eq!(pairs[2].1, b"xyz".to_vec());
}

#[test]
fn truncated_stream_is_rejected() {
    let mut stream = encode_record(b"q", b"data");
    stream.pop();
    assert!(decode_records(stream.as_slice()).is_none());
}

#[test]
fn empty_stream_decodes_empty() {
    let pairs = decode_records(&[]).expect("empty stream is valid");
    assert_eq!(pairs.len(), 0);
}
