use kagi::claims::{
    claim_array, claim_array_raw, claim_is, claim_number_or, claim_or_empty, claim_str, claim_u64,
    json_safe, json_string, put_json_string, write_json_field, RecordWriter,
};
use kagi::http::{
    body_of, header_value, headers_of, is_complete, json_reply, path_of, raw_header_value,
    read_credential, read_frame, read_proof, respond, strip_dpop_scheme,
};

const RECORD: &[u8] = br#"{"cnf":{"jkt":"abc"},"sub":"tenant_1","exp":1700,"amr":["email","pop"],"last":"x"}"#;

#[test]
fn claims_are_read() {
    assert_eq!(claim_str(RECORD, b"sub"), Some(&b"tenant_1"[..]));
    assert_eq!(claim_str(RECORD, b"jkt"), Some(&b"abc"[..]));
    assert_eq!(claim_str(RECORD, b"exp"), None);
    assert_eq!(claim_str(RECORD, b"nothing"), None);
    assert_eq!(claim_u64(RECORD, b"exp"), Some(1700));
    assert_eq!(claim_u64(RECORD, b"sub"), None);
    assert_eq!(claim_number_or(RECORD, b"nothing", 9), 9);
    assert_eq!(claim_or_empty(RECORD, b"nothing"), b"");
    assert!(claim_is(RECORD, b"last", b"x"));
    assert!(!claim_is(RECORD, b"last", b"y"));
    assert_eq!(claim_array_raw(RECORD, b"amr"), Some(br#"["email","pop"]"#.to_vec()));
    assert_eq!(claim_array(RECORD, b"amr"), vec![b"email".to_vec(), b"pop".to_vec()]);
    assert_eq!(claim_array(RECORD, b"sub"), Vec::<Vec<u8>>::new());
}

#[test]
fn the_first_member_of_a_name_counts() {
    assert_eq!(claim_str(br#"{"a":"1","a":"2"}"#, b"a"), Some(&b"1"[..]));
}

#[test]
fn a_number_that_is_too_large_is_none() {
    assert_eq!(claim_u64(br#"{"n":18446744073709551615}"#, b"n"), Some(u64::MAX));
    assert_eq!(claim_u64(br#"{"n":18446744073709551616}"#, b"n"), None);
}

#[test]
fn short_strings_only() {
    assert_eq!(json_string(RECORD, b"sub", 8), b"tenant_1");
    assert_eq!(json_string(RECORD, b"sub", 7), b"");
}

#[test]
fn what_can_stand_in_a_record() {
    assert!(json_safe(b"abc-_."));
    assert!(!json_safe(b"a\"b"));
    assert!(!json_safe(b"a\\b"));
    assert!(!json_safe(b"a\nb"));
}

#[test]
fn records_read_back() {
    let mut w = RecordWriter::new();
    w.object("cnf", "jkt", b"thumb");
    w.text("sub", b"dev");
    w.number("exp", 12);
    w.list("amr", br#""pop""#);
    let record = w.close();
    assert_eq!(record, br#"{"cnf":{"jkt":"thumb"},"sub":"dev","exp":12,"amr":["pop"]}"#);
    assert_eq!(claim_str(&record, b"jkt"), Some(&b"thumb"[..]));
    assert_eq!(claim_u64(&record, b"exp"), Some(12));
    assert_eq!(claim_array(&record, b"amr"), vec![b"pop".to_vec()]);
    assert_eq!(claim_str(&record, b"iss"), None);
}

#[test]
fn a_record_keeps_its_limit() {
    let mut w = RecordWriter::new();
    w.text("a", b"b");
    assert_eq!(w.finish(8), None);
    let mut w = RecordWriter::new();
    w.text("a", b"b");
    assert_eq!(w.finish(9), Some(br#"{"a":"b"}"#.to_vec()));
    assert_eq!(RecordWriter::new().close(), b"{}");
}

#[test]
fn one_field() {
    assert_eq!(write_json_field(64, b"token", b"abc"), br#"{"token":"abc"}"#);
    let mut out = Vec::new();
    assert!(put_json_string(&mut out, 64, b"abc").is_some());
    assert!(put_json_string(&mut out, 64, b"a\"c").is_none());
    assert_eq!(out, b"\"abc\"");
    assert!(put_json_string(&mut out, 3, b"a\"c").is_none());
    assert!(put_json_string(&mut out, 3, b"").is_none());
    assert_eq!(out, b"\"abc\"");
}

fn request(method: u8, path: &[u8], headers: &[u8], body: &[u8]) -> Vec<u8> {
    let mut r = vec![0x34, 0x12, 7, 0, method, 0];
    r.extend_from_slice(&(path.len() as u16).to_le_bytes());
    r.extend_from_slice(&(headers.len() as u16).to_le_bytes());
    r.extend_from_slice(&(body.len() as u16).to_le_bytes());
    r.extend_from_slice(path);
    r.extend_from_slice(headers);
    r.extend_from_slice(body);
    r
}

#[test]
fn a_request_frame() {
    let r = request(3, b"/start", b"a: b\r\n", b"{}");
    let frame = read_frame(&r).unwrap();
    assert_eq!((frame.conn, frame.stream, frame.method), (0x1234, 7, 3));
    assert!(is_complete(&r, &frame));
    assert_eq!(path_of(&r, &frame), b"/start");
    assert_eq!(headers_of(&r, &frame), b"a: b\r\n");
    assert_eq!(body_of(&r, &frame), b"{}");
    assert!(read_frame(&r[..11]).is_none());
    let cut = &r[..r.len() - 1];
    assert!(!is_complete(cut, &read_frame(cut).unwrap()));
}

#[test]
fn a_response_envelope() {
    let reply = json_reply(0x1234, 7, 404, "{}");
    let bytes = respond(&reply, 64).unwrap();
    assert_eq!(&bytes[..12], &[0x34, 0x12, 7, 0, 0x94, 1, 0, 16, 0, 0, 2, 0]);
    assert_eq!(&bytes[12..], b"application/json{}");
    assert!(respond(&reply, 29).is_none());
}

#[test]
fn headers() {
    let block = b"Host: x\r\nAuthorization: DPoP  token \r\nDPoP:proof\n";
    assert_eq!(header_value(block, b"authorization"), Some(&b"DPoP  token"[..]));
    assert_eq!(raw_header_value(block, b"dpop"), Some(&b"proof"[..]));
    assert_eq!(header_value(block, b"cookie"), None);
    assert_eq!(strip_dpop_scheme(b"dpop  token"), Some(&b"token"[..]));
    assert_eq!(strip_dpop_scheme(b"Bearer token"), None);
    assert_eq!(strip_dpop_scheme(b"DPoP "), None);
    assert_eq!(read_credential(block, 64), b"token");
    assert_eq!(read_credential(block, 4), b"");
    assert_eq!(read_proof(block, 64), b"proof");
}
