use kagi::base64::{encode, encode_standard};
use kagi::certificate_endpoint::{
    algorithm, root_served, write_pem, Authority, Decision, IssueStep, Order, SigningAlgorithm,
    SubjectKey, ROOT_SERIAL,
};
use kagi::crypto::sha256_into;
use kagi::http::Reply;
use kagi::keys::{KeyRecord, KeyState, KeyUse, Suite};

const NOW: u64 = 1_700_000_000;

fn record(suite: Option<Suite>, key_use: KeyUse, label: &[u8]) -> KeyRecord {
    KeyRecord {
        issuer: b"ca".to_vec(),
        profile_id: 9,
        kid: b"kid".to_vec(),
        suite,
        state: KeyState::Active,
        key_use,
        generation: 0,
        activate_after_unix: 0,
        remove_after_unix: 0,
        key_ref: label.to_vec(),
    }
}

fn authority(suite: Suite, public: Vec<u8>) -> Authority {
    let mut a = Authority::new(9, b"Example CA", b"example.org");
    let rec = record(Some(suite), KeyUse::Sign, b"ca-key");
    assert!(a.takes_key(&rec));
    let announced = a.drain_key(&rec, Some(public.clone())).unwrap();
    assert_eq!((announced.key_use, &announced.key_ref), (KeyUse::Verify, &public));
    assert_eq!((&announced.kid[..], announced.suite), (&b"kid"[..], Some(suite)));
    a
}

fn request(method: u8, path: &str, body: &str) -> Vec<u8> {
    let mut r = vec![9, 0, 2, 0, method, 0];
    r.extend_from_slice(&(path.len() as u16).to_le_bytes());
    r.extend_from_slice(&0u16.to_le_bytes());
    r.extend_from_slice(&(body.len() as u16).to_le_bytes());
    r.extend_from_slice(path.as_bytes());
    r.extend_from_slice(body.as_bytes());
    r
}

fn body(key: &[u8]) -> String {
    format!(
        r#"{{"subject":"dev","tenant":"tenant_1","device":"dev_1","public_key":"{}"}}"#,
        String::from_utf8(encode(key)).unwrap()
    )
}

fn status(d: Decision) -> u16 {
    match d {
        Decision::Reply(reply) => at(&reply),
        _ => panic!("a reply"),
    }
}

fn at(reply: &Reply) -> u16 {
    assert_eq!((reply.conn, reply.stream), (9, 2));
    reply.status
}

fn order(a: &mut Authority, key: &[u8]) -> Order {
    match a.handle_request(&request(3, "/pki/certificate", &body(key))) {
        Decision::Issue(order) => order,
        _ => panic!("an order"),
    }
}

#[test]
fn a_certificate_is_laid_out_and_served() {
    let mut a = authority(Suite::Ed25519, vec![7; 32]);
    let o = order(&mut a, &[5; 32]);
    assert_eq!((&o.subject[..], &o.tenant[..], &o.device[..]), (&b"dev"[..], &b"tenant_1"[..], &b"dev_1"[..]));
    let name = b"spiffe://example.org/tenant_1/dev_1".to_vec();
    match a.issue(o, Some(name.clone()), Some(NOW)) {
        IssueStep::Sign(t) => {
            assert_eq!((t.serial, t.not_before, t.not_after), (2, NOW, NOW + 2_592_000));
            assert_eq!((&t.issuer_cn[..], &t.subject[..]), (&b"Example CA"[..], &b"dev"[..]));
            assert_eq!((t.san, t.algorithm), (name.clone(), SigningAlgorithm::Ed25519));
            assert!(matches!(t.key, SubjectKey::Ed25519(k) if k == [5; 32]));
        }
        IssueStep::Reply(_) => panic!("a template"),
    }
    let reply = a.issued(9, 2, &name, Some(b"der".to_vec()));
    assert_eq!(at(&reply), 200);
    assert_eq!(
        reply.body,
        br#"{"certificate":"ZGVy","spiffe_id":"spiffe://example.org/tenant_1/dev_1"}"#
    );
    assert_eq!((a.next_serial, a.certificate_issued), (3, 1));
    assert_eq!(at(&a.issued(9, 2, &name, None)), 500);
    assert_eq!((a.next_serial, a.certificate_issued), (3, 1));
    assert_eq!(at(&a.issued(9, 2, &name, Some(vec![0; 4000]))), 500);
    assert_eq!(a.next_serial, 4);
    a.next_serial = u64::MAX;
    a.issued(9, 2, &name, Some(b"der".to_vec()));
    assert_eq!(a.next_serial, u64::MAX);
}

#[test]
fn keys_of_either_kind() {
    let mut point = vec![4u8];
    point.extend_from_slice(&[6; 64]);
    let mut a = authority(Suite::Es256, point.clone());
    assert!(matches!(order(&mut a, &point).key, SubjectKey::P256(k) if k == point));
    assert!(matches!(order(&mut a, &[5; 32]).key, SubjectKey::Ed25519(_)));
    point[0] = 3;
    for bad in [&point[..], &[5; 31][..], &[][..]] {
        let asked = a.handle_request(&request(3, "/pki/certificate", &body(bad)));
        assert_eq!(status(asked), 400);
    }
    assert_eq!(a.certificate_malformed, 3);
    assert_eq!(algorithm(Some(Suite::Es256)), SigningAlgorithm::P256);
    assert_eq!(algorithm(None), SigningAlgorithm::Ed25519);
    let mut digest = [0u8; 32];
    sha256_into(b"tbs", &mut digest);
    assert_eq!(a.sign_tbs(b"tbs"), digest);
    assert_eq!(authority(Suite::Ed25519, vec![7; 32]).sign_tbs(b"tbs"), b"tbs");
}

#[test]
fn requests_that_get_no_certificate() {
    let mut a = Authority::new(9, b"Example CA", b"example.org");
    assert!(matches!(a.handle_request(&[0; 11]), Decision::Ignore));
    let whole = request(3, "/pki/certificate", &body(&[5; 32]));
    assert_eq!(status(a.handle_request(&whole)), 503);
    assert_eq!(a.certificate_no_key, 1);
    let mut a = authority(Suite::Ed25519, vec![7; 32]);
    assert_eq!(status(a.handle_request(&whole[..whole.len() - 1])), 400);
    assert_eq!(status(a.handle_request(&request(3, "/pki/other", ""))), 404);
    assert_eq!(status(a.handle_request(&request(1, "/pki/certificate", ""))), 405);
    let nameless = body(&[5; 32]).replace("tenant_1", "");
    assert_eq!(status(a.handle_request(&request(3, "/pki/certificate", &nameless))), 400);
    let o = order(&mut a, &[5; 32]);
    match a.issue(o, None, Some(NOW)) {
        IssueStep::Reply(reply) => assert_eq!(at(&reply), 400),
        IssueStep::Sign(_) => panic!("a reply"),
    }
    let o = order(&mut a, &[5; 32]);
    match a.issue(o, Some(b"spiffe://x".to_vec()), None) {
        IssueStep::Reply(reply) => assert_eq!(at(&reply), 503),
        IssueStep::Sign(_) => panic!("a reply"),
    }
    assert_eq!((a.certificate_malformed, a.next_serial), (3, 2));
}

#[test]
fn the_authoritys_own_certificate() {
    let mut a = authority(Suite::Ed25519, vec![7; 32]);
    match a.handle_request(&request(1, "/pki/ca", "")) {
        Decision::Root { conn, stream } => assert_eq!((conn, stream), (9, 2)),
        _ => panic!("the root"),
    }
    match a.serve_ca(9, 2, Some(NOW)) {
        IssueStep::Sign(t) => {
            assert_eq!((t.serial, t.not_after), (1, NOW + 315_360_000));
            assert_eq!((&t.issuer_cn, t.san.len()), (&t.subject, 0));
            assert!(matches!(t.key, SubjectKey::Ed25519(k) if k == [7; 32]));
        }
        IssueStep::Reply(_) => panic!("a template"),
    }
    let o = order(&mut a, &[5; 32]);
    match a.issue(o, Some(b"spiffe://x".to_vec()), Some(NOW)) {
        IssueStep::Sign(t) => assert_eq!(t.serial, ROOT_SERIAL + 1),
        IssueStep::Reply(_) => panic!("a template"),
    }
    assert!(matches!(a.serve_ca(9, 2, None), IssueStep::Reply(_)));
    let mut odd = authority(Suite::Es256, vec![7; 32]);
    assert!(odd.ca_public_key().is_none());
    assert!(matches!(odd.serve_ca(9, 2, Some(NOW)), IssueStep::Reply(_)));
    let mut none = Authority::new(9, b"", b"");
    assert!(matches!(none.serve_ca(9, 2, Some(NOW)), IssueStep::Reply(_)));
    assert_eq!(none.certificate_no_key, 1);
    let der = vec![1u8; 60];
    let text = String::from_utf8(encode_standard(&der)).unwrap();
    let pem = format!(
        "-----BEGIN CERTIFICATE-----\n{}\n{}\n-----END CERTIFICATE-----\n",
        &text[..64],
        &text[64..]
    );
    let reply = root_served(9, 2, Some(der.clone()));
    assert_eq!((at(&reply), reply.content_type), (200, "application/x-pem-file"));
    assert_eq!(reply.body, pem.as_bytes());
    assert_eq!(at(&root_served(9, 2, None)), 500);
    assert_eq!(write_pem(&der, pem.len()), Some(pem.into_bytes()));
    assert_eq!(write_pem(&der, 100), None);
}

#[test]
fn keys_that_are_not_the_authoritys() {
    let mut a = Authority::new(9, b"Example CA", b"example.org");
    assert!(!a.takes_key(&record(Some(Suite::Es256), KeyUse::Verify, b"k")));
    assert!(!a.takes_key(&record(None, KeyUse::Sign, b"k")));
    assert!(!a.takes_key(&record(Some(Suite::Es256), KeyUse::Sign, b"")));
    assert!(!a.takes_key(&record(Some(Suite::Es256), KeyUse::Sign, &[b'k'; 33])));
    let other = KeyRecord { profile_id: 8, ..record(Some(Suite::Es256), KeyUse::Sign, b"k") };
    assert!(!a.takes_key(&other));
    assert!(a.drain_key(&record(Some(Suite::Es256), KeyUse::Sign, b"k"), None).is_none());
    assert!(!a.key_open);
}

#[test]
fn certificates_are_sealed() {
    let a = authority(Suite::Ed25519, vec![7; 32]);
    let der = a.seal(b"\x30\x01t", Some(&[9; 64])).unwrap();
    assert!(der.starts_with(&[0x30, 77, 0x30, 0x01, b't', 0x30, 5, 6, 3, 0x2b, 0x65, 0x70]));
    assert!(der[12..].starts_with(&[3, 65, 0, 9]));
    assert_eq!(der.len(), 79);
    assert_eq!(a.seal(b"tbs", None), None);
    let long = a.seal(&[1; 1900], Some(&[9; 64])).unwrap();
    assert!(long.starts_with(&[0x30, 0x82, 7, 182, 1]));
    assert_eq!(a.seal(&[1; 2048], Some(&[9; 64])), None);
    assert_eq!(a.seal(&[1; 1975], Some(&[9; 64])), None);
    let mut point = vec![4u8];
    point.extend_from_slice(&[6; 64]);
    let a = authority(Suite::Es256, point);
    let mut raw = [0u8; 64];
    raw[31] = 5;
    raw[32] = 0x80;
    let der = a.seal(b"t", Some(&raw)).unwrap();
    assert_eq!(der[..3], [0x30, 56, b't']);
    assert_eq!(der[3..15], [0x30, 10, 6, 8, 0x2a, 0x86, 0x48, 0xce, 0x3d, 4, 3, 2]);
    assert_eq!(der[15..26], [3, 41, 0, 0x30, 38, 2, 1, 5, 2, 33, 0]);
    assert_eq!(der[26], 0x80);
    assert_eq!(der.len(), 58);
}
