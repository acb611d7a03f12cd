use vision_rust_core::error::VisionError;
use vision_rust_core::text::{count_occurrences, latin1_text, validate_and_decode_utf8, verify_encoding_bytes, verify_encoding_impl, TextDecodeError};

#[test]
fn test_validate_utf8() {
    let valid = b"Hello, World!";
    assert!(validate_and_decode_utf8(valid).is_ok());

    let json = b"{\"key\": \"value\"}";
    assert!(validate_and_decode_utf8(json).is_ok());
}

#[test]
fn test_utf8() {
    let data = b"Hello, World!";
    let (content, encoding) = verify_encoding_impl(data).unwrap();
    assert_eq!(content, "Hello, World!");
    assert_eq!(encoding, "utf-8");
}

#[test]
fn test_utf8_with_unicode() {
    let data = "Héllo, 世界!".as_bytes();
    let (content, encoding) = verify_encoding_impl(data).unwrap();
    assert_eq!(content, "Héllo, 世界!");
    assert_eq!(encoding, "utf-8");
}

#[test]
fn test_json_content() {
    let data = br#"{"key": "value", "number": 123}"#;
    let (content, encoding) = verify_encoding_impl(data).unwrap();
    assert!(content.contains("key"));
    assert_eq!(encoding, "utf-8");
}

#[test]
fn test_utf8_bom() {
    let data = b"\xef\xbb\xbfHello";
    let (content, encoding) = verify_encoding_impl(data).unwrap();
    assert_eq!(content, "Hello");
    assert_eq!(encoding, "utf-8");
}

#[test]
fn utf16_with_byte_order_marks() {
    let le = [0xFF, 0xFE, b'H', 0, b'i', 0, 0x16, 0x4E];
    assert_eq!(verify_encoding_bytes(&le).unwrap(), ("Hi\u{4E16}".to_string(), "utf-16-le".to_string()));
    let be = [0xFE, 0xFF, 0, b'H', 0, b'i'];
    assert_eq!(verify_encoding_bytes(&be).unwrap(), ("Hi".to_string(), "utf-16-be".to_string()));
}

#[test]
fn utf16_surrogate_pair_decodes() {
    let le = [0xFF, 0xFE, 0x3D, 0xD8, 0x00, 0xDE];
    assert_eq!(verify_encoding_bytes(&le).unwrap().0, "\u{1F600}");
}

#[test]
fn odd_utf16_length_is_refused() {
    let err = verify_encoding_impl(&[0xFF, 0xFE, b'a']).unwrap_err();
    assert_eq!(err, TextDecodeError::OddUtf16Length { big_endian: false });
    assert_eq!(err.message(), "Invalid UTF-16 LE data length");
    let err = verify_encoding_impl(&[0xFE, 0xFF, 0, b'a', 0]).unwrap_err();
    assert_eq!(err.message(), "Invalid UTF-16 BE data length");
}

#[test]
fn lone_surrogate_is_refused() {
    let err = verify_encoding_impl(&[0xFF, 0xFE, 0x00, 0xD8]).unwrap_err();
    assert!(matches!(err, TextDecodeError::InvalidUtf16 { .. }));
}

#[test]
fn lightly_damaged_utf8_is_repaired() {
    let mut data = vec![b'a'; 300];
    data[10] = 0xFF;
    let (content, encoding) = verify_encoding_impl(&data).unwrap();
    assert_eq!(encoding, "utf-8-lossy");
    assert_eq!(content.chars().count(), 300);
    assert_eq!(content.chars().nth(10), Some('\u{FFFD}'));
}

#[test]
fn heavily_damaged_bytes_fall_back_to_latin1() {
    let data = [b'c', b'a', b'f', 0xE9];
    let (content, encoding) = verify_encoding_impl(&data).unwrap();
    assert_eq!(encoding, "latin-1");
    assert_eq!(content, "caf\u{e9}");
}

#[test]
fn latin1_maps_each_byte_to_its_code_point() {
    assert_eq!(latin1_text(&[0x41, 0xE9, 0xFF]), "A\u{e9}\u{ff}");
}

#[test]
fn counting_a_character() {
    assert_eq!(count_occurrences("a\u{FFFD}b\u{FFFD}", '\u{FFFD}'), 2);
    assert_eq!(count_occurrences("", 'x'), 0);
}

#[test]
fn latin1_text_is_accepted_when_it_looks_like_text() {
    assert_eq!(validate_and_decode_utf8(&[b'{', 0x80]).unwrap(), "{\u{80}");
    assert_eq!(validate_and_decode_utf8(&[b'a', 0xE9]).unwrap(), "a\u{e9}");
}

#[test]
fn latin1_control_bytes_are_refused() {
    match validate_and_decode_utf8(&[b'a', 0x85]) {
        Err(VisionError::EncodingError(m)) => assert_eq!(m, "Unable to decode file as UTF-8 or Latin-1"),
        other => panic!("unexpected {other:?}"),
    }
}

#[test]
fn bytes_without_a_utf16_mark_always_decode() {
    for data in [&[0xC3u8, 0x28, 0xA0, 0xA1][..], &[0x80, 0x81, 0x82], &[], &[0xFF], &[0xFE, 0x00]] {
        assert!(verify_encoding_bytes(data).is_ok());
    }
}
