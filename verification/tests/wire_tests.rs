use minipg::wire::{
    dec_i64, dec_u64, dec_u64_string, encode_error_response, frame_message, read_string,
    read_u16_be, read_u32_be, ErrorSeverity, ProtocolError,
};

#[test]
fn big_endian_reads() {
    let buf = vec![0x04, 0xd2, 0x16, 0x2f, 0x00];
    assert_eq!(read_u16_be(&buf, 0), 1234);
    assert_eq!(read_u16_be(&buf, 2), 5679);
    assert_eq!(read_u32_be(&buf, 0), 0x04d2162f);
    assert_eq!(read_u32_be(&buf, 1), 0xd2162f00);
}

#[test]
fn decimal_rendering() {
    assert_eq!(dec_u64(0), b"0");
    assert_eq!(dec_u64(7), b"7");
    assert_eq!(dec_u64(1234567890), b"1234567890");
    assert_eq!(dec_u64(u64::MAX), b"18446744073709551615");
    assert_eq!(dec_i64(-1), b"-1");
    assert_eq!(dec_i64(42), b"42");
    assert_eq!(dec_i64(i64::MIN), b"-9223372036854775808");
    assert_eq!(dec_i64(i64::MAX), b"9223372036854775807");
    assert_eq!(dec_u64_string(9081726354), "9081726354");
}

#[test]
fn framing_counts_the_length_word() {
    let framed = frame_message(b'D', &vec![1, 2, 3]).unwrap();
    assert_eq!(framed, vec![b'D', 0, 0, 0, 7, 1, 2, 3]);
    let empty = frame_message(b'1', &Vec::new()).unwrap();
    assert_eq!(empty, vec![b'1', 0, 0, 0, 4]);
}

#[test]
fn read_string_consumes_through_the_terminator() {
    let buf = b"abc\0def\0".to_vec();
    let (s, n) = read_string(&buf, 0).unwrap();
    assert_eq!(s, "abc");
    assert_eq!(n, 4);
    let (s2, n2) = read_string(&buf, n).unwrap();
    assert_eq!(s2, "def");
    assert_eq!(n2, 4);
}

#[test]
fn read_string_reports_a_missing_terminator() {
    let buf = b"abc".to_vec();
    assert_eq!(read_string(&buf, 0), Err(false));
}

#[test]
fn read_string_reports_invalid_utf8() {
    let buf = vec![0xff, 0xfe, 0x00];
    assert_eq!(read_string(&buf, 0), Err(true));
}

#[test]
fn read_string_of_an_empty_field() {
    let buf = vec![0x00, b'x'];
    let (s, n) = read_string(&buf, 0).unwrap();
    assert_eq!(s, "");
    assert_eq!(n, 1);
}

#[test]
fn error_response_field_layout() {
    let err = ProtocolError::with_detail(
        ErrorSeverity::Error,
        "42000".to_string(),
        "Oops".to_string(),
        "why".to_string(),
    );
    let bytes = encode_error_response(&err).unwrap();
    let mut expected: Vec<u8> = Vec::new();
    expected.push(b'S');
    expected.extend_from_slice(b"ERROR");
    expected.push(0);
    expected.push(b'V');
    expected.extend_from_slice(b"ERROR");
    expected.push(0);
    expected.push(b'C');
    expected.extend_from_slice(b"42000");
    expected.push(0);
    expected.push(b'M');
    expected.extend_from_slice(b"Oops");
    expected.push(0);
    expected.push(b'D');
    expected.extend_from_slice(b"why");
    expected.push(0);
    expected.push(0);
    let mut framed: Vec<u8> = Vec::new();
    framed.push(b'E');
    framed.extend_from_slice(&((expected.len() as u32 + 4).to_be_bytes()));
    framed.extend_from_slice(&expected);
    assert_eq!(bytes, framed);
}

#[test]
fn error_response_with_optional_fields_absent_ends_with_one_zero() {
    let err = ProtocolError::with_detail(
        ErrorSeverity::Error,
        "42601".to_string(),
        "Syntax error".to_string(),
        String::new(),
    );
    let bytes = encode_error_response(&err).unwrap();
    assert_eq!(bytes[0], b'E');
    assert_eq!(*bytes.last().unwrap(), 0);
}
