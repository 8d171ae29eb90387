use kagi::secret_record::{open_record, seal_into, sealed_len, RecordView};
use kagi::secret_store::{
    aead_open, aead_seal, fmt_ver_dec, parse_dec_u32, reply_ack, reply_value, Answer, OpenOutcome,
    Record, RequestKind, SecretStatus, Store, ValueReply, WriteOutcome, SLOT_LEN,
};

fn store() -> Store {
    let mut s = Store::module_new(1000);
    key(&mut s, 7, 9);
    s
}

fn key(s: &mut Store, epoch: u32, byte: u8) {
    let mut update = epoch.to_le_bytes().to_vec();
    update.extend_from_slice(&[byte; 32]);
    assert!(s.drain_key_updates(&update));
}

fn id_payload(id: &[u8]) -> Vec<u8> {
    let mut p = vec![5, 0, 0, 0, id.len() as u8];
    p.extend_from_slice(id);
    p
}

fn put_payload(id: &[u8], ver: &[u8], value: &[u8]) -> Vec<u8> {
    let mut p = id_payload(id);
    p.push(ver.len() as u8);
    p.extend_from_slice(ver);
    p.extend_from_slice(&(value.len() as u16).to_le_bytes());
    p.extend_from_slice(value);
    p
}

fn put(s: &mut Store, id: &[u8], value: &[u8]) {
    assert_eq!(s.handle_put(&put_payload(id, b"v1", value)), SecretStatus::Success);
}

fn get(s: &mut Store, id: &[u8]) -> ValueReply {
    s.handle_get(&id_payload(id))
}

#[test]
fn a_key_update_is_taken_whole() {
    let mut s = Store::module_new(1);
    assert!(!s.drain_key_updates(&[0u8; 35]));
    assert!(!s.has_kek);
    assert!(s.drain_key_updates(&[3u8; 40]));
    assert_eq!((s.kek, s.kek_epoch), ([3u8; 32], 0x0303_0303));
}

#[test]
fn a_value_is_sealed_and_opened() {
    let mut data = b"value".to_vec();
    let tag = aead_seal(&[1; 32], &[2; 12], b"aad", &mut data);
    assert_ne!(data, b"value");
    let sealed = data.clone();
    assert!(!aead_open(&[1; 32], &[2; 12], b"other", &mut data, &tag));
    assert_eq!(data, sealed);
    assert!(aead_open(&[1; 32], &[2; 12], b"aad", &mut data, &tag));
    assert_eq!(data, b"value");
}

#[test]
fn a_record_is_sealed_and_opened() {
    let key = [1u8; 32];
    let record = seal_into(&key, &[2; 12], b"id", b"7", b"value", SLOT_LEN).unwrap();
    assert_eq!(record.len(), sealed_len(2, 1, 5));
    assert!(record.starts_with(b"\x02\x02\x02\x02\x02\x02\x02\x02\x02\x02\x02\x02\x02id\x017\x05\0"));
    assert_eq!(open_record(&key, &record, 1024), Some((b"7".to_vec(), b"value".to_vec())));
    assert_eq!(open_record(&[3; 32], &record, 1024), None);
    assert_eq!(open_record(&key, &record, 4), None);
    let mut renamed = record.clone();
    renamed[13] = b'x';
    assert_eq!(open_record(&key, &renamed, 1024), None);
    let mut aged = record.clone();
    aged[16] = b'8';
    assert_eq!(open_record(&key, &aged, 1024), None);
    assert_eq!(open_record(&key, &record[..record.len() - 1], 1024), None);
    let mut long = record.clone();
    long.extend_from_slice(b"tail");
    let view = RecordView::parse(&long).unwrap();
    assert_eq!((&view.id[..], &view.version_id[..]), (&b"id"[..], &b"7"[..]));
    assert_eq!(view.encoded_len, record.len());
    assert_eq!(view.open_into(&key, 5), Some(b"value".to_vec()));
    assert!(seal_into(&key, &[2; 12], b"id", b"7", b"value", record.len() - 1).is_none());
    assert!(seal_into(&key, &[2; 12], &[0; 256], b"7", b"value", 4096).is_none());
    assert_eq!(sealed_len(64, 16, 1024), SLOT_LEN);
}

#[test]
fn what_was_put_is_got() {
    let mut s = store();
    put(&mut s, b"db/password", b"hunter2");
    put(&mut s, b"db/user", b"root");
    let reply = get(&mut s, b"db/password");
    assert_eq!((reply.status, &reply.id[..]), (SecretStatus::Success, &b"db/password"[..]));
    assert_eq!((&reply.ver[..], &reply.value[..]), (&b"v1"[..], &b"hunter2"[..]));
    put(&mut s, b"db/password", b"hunter3");
    assert_eq!(get(&mut s, b"db/password").value, b"hunter3");
    assert_eq!(get(&mut s, b"db/user").value, b"root");
    assert_eq!((s.records_count, s.put_ops, s.get_ops), (2, 3, 3));
    assert_eq!(s.bytes_stored as usize, sealed_len(11, 2, 7) + sealed_len(7, 2, 4));
}

#[test]
fn gets_that_find_nothing() {
    let mut s = store();
    put(&mut s, b"a", b"x");
    assert_eq!(get(&mut s, b"b").status, SecretStatus::NotFound);
    assert_eq!(s.handle_get(&[5, 0, 0, 0, 9, 1]).status, SecretStatus::Malformed);
    assert_eq!(get(&mut s, &[b'a'; 65]).status, SecretStatus::Malformed);
    key(&mut s, 8, 10);
    assert_eq!(get(&mut s, b"a").status, SecretStatus::DecryptFailed);
    assert_eq!(s.decrypt_failures, 1);
    s.has_kek = false;
    assert_eq!(get(&mut s, b"a").status, SecretStatus::NoKey);
}

#[test]
fn puts_that_are_refused() {
    let mut s = store();
    assert_eq!(s.handle_put(&put_payload(b"", b"1", b"v")), SecretStatus::Malformed);
    assert_eq!(s.handle_put(&put_payload(b"a", &[b'1'; 17], b"v")), SecretStatus::Malformed);
    assert_eq!(s.handle_put(&put_payload(b"a", b"1", &[0; 1025])), SecretStatus::Malformed);
    assert_eq!(s.handle_put(&id_payload(b"a")), SecretStatus::Malformed);
    for n in 0..32u8 {
        put(&mut s, &[b'a' + n], b"x");
    }
    assert_eq!(s.handle_put(&put_payload(b"more", b"1", b"v")), SecretStatus::Full);
    put(&mut s, b"a", b"y");
    s.has_kek = false;
    assert_eq!(s.handle_put(&put_payload(b"a", b"1", b"v")), SecretStatus::NoKey);
    assert_eq!(s.put_ops, 39);
}

#[test]
fn the_largest_secret() {
    let mut s = store();
    let (id, ver, value) = ([b'i'; 64], [b'v'; 16], [7u8; 1024]);
    assert_eq!(s.handle_put(&put_payload(&id, &ver, &value)), SecretStatus::Success);
    let reply = get(&mut s, &id);
    assert_eq!((&reply.ver[..], &reply.value[..]), (&ver[..], &value[..]));
    assert_eq!(s.bytes_stored as usize, SLOT_LEN);
}

#[test]
fn no_nonce_is_used_twice() {
    let mut s = store();
    put(&mut s, b"a", b"x");
    let one = s.records[0].data[..12].to_vec();
    put(&mut s, b"a", b"x");
    let two = s.records[0].data[..12].to_vec();
    assert_eq!(one, [&7u32.to_le_bytes()[..], &1001u64.to_le_bytes()[..]].concat());
    assert_eq!(two, [&7u32.to_le_bytes()[..], &1002u64.to_le_bytes()[..]].concat());
    assert_eq!(s.next_nonce()[4], 235);
}

#[test]
fn a_secret_is_rotated() {
    let mut s = store();
    put(&mut s, b"a", b"value");
    let before = s.records[0].data.clone();
    assert_eq!(s.handle_rotate(&id_payload(b"a")), SecretStatus::Success);
    assert_ne!(s.records[0].data, before);
    assert_eq!(s.records[0].ver_ctr, 2);
    let reply = get(&mut s, b"a");
    assert_eq!((&reply.ver[..], &reply.value[..]), (&b"2"[..], &b"value"[..]));
    assert_eq!(s.handle_rotate(&id_payload(b"b")), SecretStatus::NotFound);
    assert_eq!(s.handle_rotate(&id_payload(b"")), SecretStatus::Malformed);
    assert_eq!(s.handle_rotate(&[5, 0, 0, 0]), SecretStatus::Malformed);
    key(&mut s, 8, 10);
    assert_eq!(s.handle_rotate(&id_payload(b"a")), SecretStatus::DecryptFailed);
    s.has_kek = false;
    assert_eq!(s.handle_rotate(&id_payload(b"a")), SecretStatus::NoKey);
    assert_eq!((s.rotate_ops, s.decrypt_failures), (6, 1));
}

#[test]
fn ids_are_listed_by_prefix() {
    let mut s = store();
    put(&mut s, b"db/a", b"v");
    put(&mut s, b"web/b", b"v");
    put(&mut s, b"db/c", b"v");
    assert_eq!(s.handle_list(5, &id_payload(b"db/")), b"\x05\0\0\0\x02\x04db/a\x04db/c\0");
    assert_eq!(s.handle_list(5, &[5, 0, 0, 0]), b"\x05\0\0\0\x03\x04db/a\x05web/b\x04db/c\0");
    assert_eq!(s.list_ops, 2);
}

#[test]
fn requests_are_told_apart() {
    let mut s = store();
    assert!(s.handle_request(RequestKind::Get, &[1, 2, 3]).is_none());
    let (corr, answer) = s.handle_request(RequestKind::List, &[5, 0, 0, 0]).unwrap();
    assert_eq!(corr, 5);
    assert!(matches!(answer, Answer::Page(_)));
    let (_, answer) = s.handle_request(RequestKind::Get, &id_payload(b"a")).unwrap();
    assert!(matches!(answer, Answer::Value(_)));
    let (_, answer) = s.handle_request(RequestKind::Put, &put_payload(b"a", b"", b"")).unwrap();
    assert!(matches!(answer, Answer::Ack(SecretStatus::Success)));
    let (_, answer) = s.handle_request(RequestKind::Rotate, &id_payload(b"b")).unwrap();
    assert!(matches!(answer, Answer::Ack(SecretStatus::NotFound)));
}

#[test]
fn the_table_survives_a_restart() {
    let mut s = store();
    put(&mut s, b"a", b"one");
    put(&mut s, b"b", b"two");
    assert_eq!(s.handle_rotate(&id_payload(b"b")), SecretStatus::Success);
    let mut image = s.persist().unwrap();
    assert!(image.starts_with(b"KSF1"));
    assert_eq!(image[4] as usize, image.len() - 8);
    image.extend_from_slice(b"left behind by a longer file");
    let mut again = Store::module_new(2000);
    assert!(again.load_opened(OpenOutcome::Opened));
    again.step_load(&image);
    assert!(!again.loading);
    key(&mut again, 7, 9);
    assert_eq!(get(&mut again, b"a").value, b"one");
    assert_eq!(get(&mut again, b"b").value, b"two");
    assert_eq!((again.records[0].ver_ctr, again.records[1].ver_ctr), (1, 2));
    assert_eq!((again.records_count, again.bytes_stored), (s.records_count, s.bytes_stored));
    assert_eq!(again.find_record(b"b"), Some(1));
    assert_eq!(again.persist(), s.persist());
}

#[test]
fn a_file_that_is_torn_or_is_another() {
    let mut s = store();
    put(&mut s, b"a", b"one");
    put(&mut s, b"b", b"two");
    let image = s.persist().unwrap();
    let loaded = |file: &[u8]| {
        let mut again = Store::module_new(2000);
        again.step_load(file);
        again.records_count
    };
    assert_eq!(loaded(&image), 2);
    assert_eq!(loaded(&image[..image.len() - 1]), 1);
    assert_eq!(loaded(b"KSF1"), 0);
    let mut other = image.clone();
    other[3] = b'2';
    assert_eq!(loaded(&other), 0);
    let mut nameless = b"KSF1".to_vec();
    let record = seal_into(&[9; 32], &[0; 12], b"", b"1", b"v", SLOT_LEN).unwrap();
    nameless.extend_from_slice(&(record.len() as u32).to_le_bytes());
    nameless.extend_from_slice(&record);
    assert_eq!(loaded(&nameless), 0);
}

#[test]
fn writes_that_are_owed() {
    let mut s = store();
    s.persisted(WriteOutcome::Again);
    assert!(s.dirty);
    s.persisted(WriteOutcome::Written);
    assert!(!s.dirty);
    s.persisted(WriteOutcome::Short);
    assert!(s.dirty);
    s.persisted(WriteOutcome::NoProvider);
    assert!(!s.dirty && s.no_fs);
    assert!(s.persist().is_none());
    assert!(s.loading);
    assert!(!s.load_opened(OpenOutcome::Again));
    assert!(s.loading);
    assert!(!s.load_opened(OpenOutcome::Absent));
    assert!(!s.loading);
}

#[test]
fn versions_and_replies() {
    assert_eq!(fmt_ver_dec(4294967295), b"4294967295");
    assert_eq!(parse_dec_u32(b"4294967295"), Some(4294967295));
    assert_eq!(parse_dec_u32(b"4294967296"), None);
    assert_eq!(parse_dec_u32(b""), None);
    assert_eq!(parse_dec_u32(b"1a"), None);
    assert_eq!(reply_ack(5, 3), [5, 0, 0, 0, 3]);
    assert_eq!(reply_value(5, 0, b"id", b"1", b"v"), b"\x05\0\0\0\0\x02id\x011\x01\0v");
    assert!(!Record::zero().used);
}
