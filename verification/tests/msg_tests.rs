use rosrust::msg::{u32_from_le, String as StringMsg};

#[test]
fn u32_from_le_reads_bytes_in_order() {
    assert_eq!(u32_from_le(0, 0, 0, 0), 0);
    assert_eq!(u32_from_le(1, 2, 0, 0), 513);
    assert_eq!(u32_from_le(255, 255, 255, 255), u32::MAX);
}

#[test]
fn from_stream_reads_length_prefixed_text() {
    let bytes: Vec<u8> = vec![5, 0, 0, 0, b'h', b'e', b'l', b'l', b'o', b'!'];
    let mut stream: &[u8] = bytes.as_slice();
    let msg = StringMsg::from_stream(&mut stream).expect("well-formed message");
    assert_eq!(msg.data, "hello");
}

#[test]
fn from_stream_rejects_short_header() {
    let bytes: Vec<u8> = vec![1, 2];
    let mut stream: &[u8] = bytes.as_slice();
    let err = StringMsg::from_stream(&mut stream).expect_err("header is too short");
    assert_eq!(err, "Failed to read string length");
}

#[test]
fn from_stream_rejects_short_data() {
    let bytes: Vec<u8> = vec![9, 0, 0, 0, b'h', b'i'];
    let mut stream: &[u8] = bytes.as_slice();
    let err = StringMsg::from_stream(&mut stream).expect_err("data is too short");
    assert_eq!(err, "Failed to read string data field");
}

#[test]
fn from_stream_rejects_invalid_utf8() {
    let bytes: Vec<u8> = vec![2, 0, 0, 0, 0xff, 0xfe];
    let mut stream: &[u8] = bytes.as_slice();
    let err = StringMsg::from_stream(&mut stream).expect_err("bytes are not utf8");
    assert_eq!(err, "Failed to interpret string data as utf8 string");
}
