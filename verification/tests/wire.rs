use adb_client::wire::{encode_request, parse_hex_length, parse_request_status, AdbRequestStatus};
use adb_client::RustADBError;

#[test]
fn request_is_framed_with_four_hex_digits() {
    assert_eq!(encode_request(b"host:features"), b"000dhost:features".to_vec());
}

#[test]
fn status_words() {
    assert!(matches!(parse_request_status(b"OKAY"), Ok(AdbRequestStatus::Okay)));
    assert!(matches!(parse_request_status(b"FAIL"), Ok(AdbRequestStatus::Fail)));
    match parse_request_status(b"WHAT") {
        Err(RustADBError::UnknownResponseType(s)) => assert_eq!(s, "WHAT"),
        other => panic!("unexpected {:?}", other),
    }
    assert!(matches!(parse_request_status(&[0xff, 0xfe, 0x41, 0x41]), Err(RustADBError::Utf8StrError)));
}

#[test]
fn hex_lengths() {
    assert_eq!(parse_hex_length(b"000a").unwrap(), 10);
    assert_eq!(parse_hex_length(b"FFFF").unwrap(), 0xffff);
    assert_eq!(parse_hex_length(b"+00a").unwrap(), 10);
    assert!(matches!(parse_hex_length(b"zz00"), Err(RustADBError::ParseIntError)));
    assert!(matches!(parse_hex_length(&[0xc3, 0x28, 0x30, 0x30]), Err(RustADBError::Utf8StrError)));
}

#[test]
fn long_requests_widen_the_length_prefix() {
    let payload = vec![b'a'; 0x12345];
    let framed = encode_request(&payload);
    assert_eq!(&framed[..5], b"12345");
    assert_eq!(framed.len(), 5 + 0x12345);
}

#[test]
fn short_request_lengths_are_padded() {
    assert_eq!(encode_request(b""), b"0000".to_vec());
    assert_eq!(encode_request(&[0u8; 255])[..4], *b"00ff");
}

#[test]
fn decimal_and_little_endian_encodings() {
    let mut v = Vec::new();
    adb_client::wire::push_decimal(&mut v, 0);
    adb_client::wire::push_decimal(&mut v, 4096);
    assert_eq!(v, b"04096".to_vec());
    let mut w = Vec::new();
    adb_client::wire::push_le(&mut w, 0x0102_0304, 4);
    assert_eq!(w, vec![4, 3, 2, 1]);
    assert_eq!(adb_client::wire::parse_le_length(&[4, 3, 2, 1]), 0x0102_0304);
}

#[test]
fn length_prefix_reads_back_as_the_length() {
    for n in [0usize, 1, 13, 255, 4096, 0xffff] {
        let framed = encode_request(&vec![b'x'; n]);
        assert_eq!(parse_hex_length(&framed[..4]).unwrap() as usize, n);
    }
}

#[test]
fn little_endian_lengths_read_back() {
    for n in [0u64, 1, 255, 256, 65_535, 0xdead_beef, 0xffff_ffff] {
        let mut b = Vec::new();
        adb_client::wire::push_le(&mut b, n, 4);
        assert_eq!(adb_client::wire::parse_le_length(&b) as u64, n);
    }
}
