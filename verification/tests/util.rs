use bytes::Bytes;
use h2::util::{debug_flags, is_valid_scheme, strip_padding, Error};

#[test]
fn scheme_grammar() {
    assert!(is_valid_scheme("http"));
    assert!(is_valid_scheme("https"));
    assert!(is_valid_scheme("HTTP"));
    assert!(is_valid_scheme("a"));
    assert!(is_valid_scheme("a+b-c.1"));
    assert!(!is_valid_scheme(""));
    assert!(!is_valid_scheme("1http"));
    assert!(!is_valid_scheme("+http"));
    assert!(!is_valid_scheme("ht!tp"));
}

#[test]
fn scheme_rejects_bytes_outside_grammar() {
    assert!(!is_valid_scheme("ht tp"));
    assert!(!is_valid_scheme("http:"));
    assert!(is_valid_scheme("z9.z"));
}

#[test]
fn strip_padding_returns_data_and_pad_length() {
    let mut payload = Bytes::from(vec![3u8, b'a', b'b', 0, 0, 0]);
    assert_eq!(strip_padding(&mut payload), Ok(3));
    assert_eq!(&payload[..], b"ab");
}

#[test]
fn strip_padding_without_padding() {
    let mut payload = Bytes::from(vec![0u8, b'x', b'y']);
    assert_eq!(strip_padding(&mut payload), Ok(0));
    assert_eq!(&payload[..], b"xy");
}

#[test]
fn strip_padding_empty_payload_is_error() {
    let mut payload = Bytes::new();
    assert_eq!(strip_padding(&mut payload), Err(Error::TooMuchPadding));
    assert!(payload.is_empty());
}

#[test]
fn strip_padding_pad_equal_to_length_is_error() {
    let mut payload = Bytes::from(vec![2u8, 0]);
    assert_eq!(strip_padding(&mut payload), Err(Error::TooMuchPadding));
    assert_eq!(&payload[..], &[2u8, 0][..]);
}

#[test]
fn strip_padding_all_padding_leaves_nothing() {
    let mut payload = Bytes::from(vec![2u8, 0, 0]);
    assert_eq!(strip_padding(&mut payload), Ok(2));
    assert!(payload.is_empty());
}

#[test]
fn debug_flags_text() {
    let mut d = debug_flags(0x5);
    d.flag_if(true, "END_STREAM");
    d.flag_if(false, "PADDED");
    d.flag_if(true, "PRIORITY");
    assert_eq!(d.finish(), b"(0x5: END_STREAM | PRIORITY)".to_vec());
}

#[test]
fn debug_flags_without_flags() {
    let mut d = debug_flags(0);
    d.flag_if(false, "ACK");
    assert_eq!(d.finish(), b"(0x0)".to_vec());
    let mut e = debug_flags(0xff);
    assert_eq!(e.finish(), b"(0xff)".to_vec());
}
