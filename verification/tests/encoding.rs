use kagi::base32::{base32_decode, base32_encode};
use kagi::base64::{decode, decode_or_empty, encode, encode_standard};
use kagi::bytes::{
    bytes_equal, contains_byte, copy_field, copy_into, equal_letters, find, position, put, put_u64,
    starts_with, to_lower, trim, u64_dec,
};
use kagi::wire::{
    correlation, put_field16, put_field8, put_u32_le, read_field16, read_field8, read_u32,
    read_u64, u32_bytes, u64_bytes,
};

#[test]
fn base64_of_known_strings() {
    assert_eq!(encode(b""), b"");
    assert_eq!(encode(b"f"), b"Zg");
    assert_eq!(encode(b"fo"), b"Zm8");
    assert_eq!(encode(b"foo"), b"Zm9v");
    assert_eq!(encode(b"foobar"), b"Zm9vYmFy");
    assert_eq!(encode(&[0xfb, 0xff]), b"-_8");
    assert_eq!(encode_standard(b"fo"), b"Zm8=");
    assert_eq!(encode_standard(b"f"), b"Zg==");
    assert_eq!(encode_standard(&[0xfb, 0xff]), b"+/8=");
}

#[test]
fn base64_decodes_what_it_encodes() {
    let data: Vec<u8> = (0..=255u8).collect();
    assert_eq!(decode(&encode(&data), 256), Some(data));
    assert_eq!(decode(b"Zm8", 2), Some(b"fo".to_vec()));
}

#[test]
fn base64_has_one_spelling() {
    assert_eq!(decode(b"Zh", 8), None);
    assert_eq!(decode(b"Zm9", 8), None);
    assert_eq!(decode(b"Z", 8), None);
    assert_eq!(decode(b"Zg==", 8), None);
    assert_eq!(decode(b"Zm+v", 8), None);
}

#[test]
fn base64_keeps_its_limit() {
    assert_eq!(decode(b"Zm9v", 2), None);
    assert_eq!(decode(b"Zm9v", 3), Some(b"foo".to_vec()));
    assert_eq!(decode_or_empty(b"Zm9v", 2), Vec::<u8>::new());
}

#[test]
fn base32_of_known_strings() {
    assert_eq!(base32_encode(b""), b"");
    assert_eq!(base32_encode(b"f"), b"MY");
    assert_eq!(base32_encode(b"fo"), b"MZXQ");
    assert_eq!(base32_encode(b"foo"), b"MZXW6");
    assert_eq!(base32_encode(b"foob"), b"MZXW6YQ");
    assert_eq!(base32_encode(b"fooba"), b"MZXW6YTB");
    assert_eq!(base32_encode(b"foobar"), b"MZXW6YTBOI");
}

#[test]
fn base32_decodes_what_it_encodes() {
    let secret: Vec<u8> = (0..32u8).collect();
    let text = base32_encode(&secret);
    assert_eq!(text.len(), 52);
    assert_eq!(base32_decode(&text, 64), Some(secret.clone()));
    assert_eq!(base32_decode(&text, 31), None);
    assert_eq!(base32_decode(b"MZ1", 64), None);
    assert_eq!(base32_decode(b"mzxw6", 64), None);
    assert_eq!(base32_decode(b"MZ", 64), None);
}

#[test]
fn numerals() {
    assert_eq!(u64_dec(0), b"0");
    assert_eq!(u64_dec(1200), b"1200");
    assert_eq!(u64_dec(u64::MAX), b"18446744073709551615");
}

#[test]
fn put_stops_at_its_limit() {
    let mut out = b"ab".to_vec();
    assert!(put(&mut out, 4, b"cd").is_some());
    assert!(put(&mut out, 4, b"e").is_none());
    assert_eq!(out, b"abcd");
    assert!(put_u64(&mut out, 6, 12).is_some());
    assert!(put_u64(&mut out, 6, 3).is_none());
    assert_eq!(out, b"abcd12");
}

#[test]
fn searching() {
    assert_eq!(find(b"abcabd", b"abd"), Some(3));
    assert_eq!(find(b"abc", b"abd"), None);
    assert_eq!(position(b"abc", b'c'), 2);
    assert_eq!(position(b"abc", b'x'), 3);
    assert!(contains_byte(b"abc", b'b'));
    assert!(!contains_byte(b"abc", b'B'));
    assert!(starts_with(b"/token/x", b"/token"));
    assert!(!starts_with(b"/tok", b"/token"));
    assert!(bytes_equal(b"ab", b"ab"));
    assert!(!bytes_equal(b"ab", b"abc"));
}

#[test]
fn copying_and_cutting() {
    assert_eq!(copy_field(b"abcdef", 3), b"abc");
    assert_eq!(copy_into(b"abc", 3), b"abc");
    assert_eq!(copy_into(b"abcd", 3), b"");
}

#[test]
fn letters_and_spaces() {
    assert_eq!(to_lower(b'Q'), b'q');
    assert_eq!(to_lower(b'-'), b'-');
    assert!(equal_letters(b"DPoP", b"dpop"));
    assert!(!equal_letters(b"DPoP", b"dpo"));
    assert_eq!(trim(b" \t a b \r\n"), b"a b");
    assert_eq!(trim(b"  "), b"");
}

#[test]
fn numbers_on_the_wire() {
    assert_eq!(u32_bytes(0x0102_0304), [4, 3, 2, 1]);
    assert_eq!(u64_bytes(0x0102_0304_0506_0708), [8, 7, 6, 5, 4, 3, 2, 1]);
    let mut frame = vec![9u8];
    frame.extend_from_slice(&u32_bytes(70_000));
    frame.extend_from_slice(&u64_bytes(5_000_000_000));
    assert_eq!(read_u32(&frame, 1), 70_000);
    assert_eq!(read_u64(&frame, 5), 5_000_000_000);
    assert_eq!(correlation(&[7, 0, 0, 0, 9]), Some(7));
    assert_eq!(correlation(&[7, 0, 0]), None);
}

#[test]
fn fields_read_back() {
    let mut out = Vec::new();
    assert!(put_u32_le(&mut out, 64, 5).is_some());
    assert!(put_field8(&mut out, 64, b"kid").is_some());
    assert!(put_field16(&mut out, 64, b"value").is_some());
    assert_eq!(out, b"\x05\x00\x00\x00\x03kid\x05\x00value");
    assert_eq!(read_u32(&out, 0), 5);
    assert_eq!(read_field8(&out, 4), Some(&b"kid"[..]));
    assert_eq!(read_field16(&out, 8), Some(&b"value"[..]));
}

#[test]
fn a_field_that_is_cut_short_is_none() {
    assert_eq!(read_field8(b"\x04kid", 0), None);
    assert_eq!(read_field16(b"\x04\x00kid", 0), None);
    let long = vec![7u8; 300];
    let mut out = Vec::new();
    assert!(put_field8(&mut out, 1024, &long).is_none());
    assert!(put_field16(&mut out, 200, &long).is_none());
}
