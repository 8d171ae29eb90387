use ed25519_dalek::{Signer, SigningKey};

use kagi::base64::{decode, encode};
use kagi::claims::{claim_str, claim_u64};
use kagi::e2ee_credential_endpoint::{
    canonical_jwk_of, find_member, verify_with_jwk, Asked, CredentialEndpoint, DirectoryStep,
    IssueStep, Pending, Refusal, RequestStep,
};
use kagi::e2ee_router::{starts_with, Endpoint as Owner, Ready, Route, Router};
use kagi::e2ee_state_endpoint::{
    AuthenticatedDevice, Marker, Operation, RequestStep as StateStep, StateStore,
};
use kagi::http::Reply;
use kagi::jose;
use kagi::jwk::{read_canonical, thumbprint_from_canonical};
use kagi::keypackage_endpoint::KeyPackages;
use kagi::keys::{KeyRecord, KeyState, KeyUse, Suite};
use kagi::ledger::{StateReply, Status};

fn request(path: &str, headers: &str, body: &str) -> Vec<u8> {
    let mut r = vec![5, 0, 1, 0, 3, 0];
    r.extend_from_slice(&(path.len() as u16).to_le_bytes());
    r.extend_from_slice(&(headers.len() as u16).to_le_bytes());
    r.extend_from_slice(&(body.len() as u16).to_le_bytes());
    r.extend_from_slice(path.as_bytes());
    r.extend_from_slice(headers.as_bytes());
    r.extend_from_slice(body.as_bytes());
    r
}

fn says(reply: &Reply, status: u16, body: &str) {
    assert_eq!((reply.conn, reply.stream), (5, 1));
    assert_eq!(reply.status, status);
    assert_eq!(std::str::from_utf8(&reply.body).unwrap(), body);
}

const READY: Ready = Ready { key_package: true, state: true, credential: true };

#[test]
fn a_path_is_owned_by_one_endpoint() {
    let mut router = Router::module_new();
    let owner = |router: &mut Router, path: &str| match router.route(&request(path, "", ""), READY) {
        Route::Forward(owner) => Some(owner),
        _ => None,
    };
    assert!(matches!(owner(&mut router, "/e2ee/keypackages/claim"), Some(Owner::KeyPackage)));
    assert!(matches!(owner(&mut router, "/e2ee/state/load"), Some(Owner::State)));
    assert!(matches!(owner(&mut router, "/e2ee/credential"), Some(Owner::Credential)));
    assert!(owner(&mut router, "/e2ee/other").is_none());
    assert_eq!(
        (router.routed_keypackage, router.routed_state, router.routed_credential, router.unrouted),
        (1, 1, 1, 1)
    );
    assert!(starts_with(b"/e2ee/state/load", b"/e2ee/state"));
}

#[test]
fn a_request_that_cannot_be_routed_is_answered() {
    let mut router = Router::module_new();
    match router.route(&request("/x", "", ""), READY) {
        Route::Reply(reply) => says(&reply, 404, r#"{"error":"not_found"}"#),
        _ => panic!("a reply"),
    }
    let busy = Ready { key_package: true, state: false, credential: true };
    match router.route(&request("/e2ee/state", "", ""), busy) {
        Route::Reply(reply) => says(&reply, 503, r#"{"error":"temporarily_unavailable"}"#),
        _ => panic!("a reply"),
    }
    let whole = request("/e2ee/state", "", "");
    let ready = Ready { key_package: true, state: true, credential: true };
    assert!(matches!(router.route(&whole[..15], ready), Route::Ignore));
}

#[test]
fn markers_advance() {
    let at = |epoch, generation| Marker { epoch, generation };
    assert!(at(2, 0).advances_on(at(1, 9)));
    assert!(at(1, 3).advances_on(at(1, 2)));
    assert!(!at(1, 2).advances_on(at(1, 2)));
    assert!(!at(1, 9).advances_on(at(2, 0)));
}

#[test]
fn a_device_owns_what_begins_with_its_id() {
    let device = AuthenticatedDevice { id: b"dev_1".to_vec() };
    assert!(device.owns(b"dev_1/group"));
    assert!(!device.owns(b"dev_2/group"));
    assert_eq!(device.as_bytes(), b"dev_1");
}

fn commit(s: &mut StateStore, expected: u64, epoch: u64, generation: u64, payload: &str) -> Reply {
    let device = AuthenticatedDevice { id: b"dev_1".to_vec() };
    let text = String::from_utf8(encode(payload.as_bytes())).unwrap();
    let body = format!(
        r#"{{"endpoint":"dev_1/g","payload":"{text}","expected_revision":{expected},"epoch":{epoch},"generation":{generation}}}"#
    );
    s.commit(&request("/e2ee/state/commit", "", &body), &device)
}

fn load(s: &mut StateStore, id: &str, key: &str) -> Reply {
    let device = AuthenticatedDevice { id: id.as_bytes().to_vec() };
    s.load(&request("/e2ee/state/load", "", &format!(r#"{{"endpoint":"{key}"}}"#)), &device)
}

#[test]
fn committed_state_is_loaded() {
    let mut s = StateStore::module_new();
    says(&load(&mut s, "dev_1", "dev_1/g"), 200, r#"{"revision":0,"present":false}"#);
    says(&commit(&mut s, 0, 1, 0, "first"), 200, r#"{"committed":true,"revision":1}"#);
    says(
        &load(&mut s, "dev_1", "dev_1/g"),
        200,
        r#"{"epoch":1,"generation":0,"payload":"Zmlyc3Q","present":true,"revision":1}"#,
    );
    says(&commit(&mut s, 1, 1, 1, "second"), 200, r#"{"committed":true,"revision":2}"#);
    assert_eq!((s.state_committed, s.state_loaded), (2, 2));
}

#[test]
fn a_commit_that_was_overtaken() {
    let mut s = StateStore::module_new();
    says(&commit(&mut s, 3, 1, 0, "x"), 409, r#"{"error":"superseded","found":0}"#);
    commit(&mut s, 0, 1, 0, "first");
    says(&commit(&mut s, 0, 2, 0, "late"), 409, r#"{"error":"superseded","found":1}"#);
    assert_eq!(s.state_superseded, 2);
}

#[test]
fn a_backward_commit_stops_its_endpoint() {
    let mut s = StateStore::module_new();
    commit(&mut s, 0, 5, 5, "first");
    says(&commit(&mut s, 1, 5, 5, "again"), 409, r#"{"error":"not_advancing"}"#);
    says(&commit(&mut s, 1, 4, 9, "back"), 409, r#"{"error":"rolled_back"}"#);
    says(&commit(&mut s, 1, 6, 0, "on"), 409, r#"{"error":"poisoned"}"#);
    says(
        &load(&mut s, "dev_1", "dev_1/g"),
        409,
        r#"{"error":"poisoned","detail":"the endpoint is stopped and needs a person"}"#,
    );
    assert_eq!((s.state_not_advancing, s.state_rolled_back, s.state_poisoned), (1, 1, 2));
}

#[test]
fn state_of_others_is_out_of_reach() {
    let mut s = StateStore::module_new();
    says(&load(&mut s, "dev_2", "dev_1/g"), 403, r#"{"error":"forbidden"}"#);
    says(&load(&mut s, "dev_2", ""), 400, r#"{"error":"invalid_request"}"#);
    let device = AuthenticatedDevice { id: b"dev_2".to_vec() };
    let body = r#"{"endpoint":"dev_1/g","payload":"Zg","expected_revision":0,"epoch":1,"generation":1}"#;
    let reply = s.commit(&request("/e2ee/state/commit", "", body), &device);
    says(&reply, 403, r#"{"error":"forbidden"}"#);
    assert_eq!(s.state_not_owner, 2);
}

#[test]
fn a_seventeenth_endpoint_finds_no_room() {
    let mut s = StateStore::module_new();
    let device = AuthenticatedDevice { id: b"dev_1".to_vec() };
    for n in 0..17 {
        let body = format!(
            r#"{{"endpoint":"dev_1/{n}","payload":"Zg","expected_revision":0,"epoch":1,"generation":1}}"#
        );
        let reply = s.commit(&request("/e2ee/state/commit", "", &body), &device);
        assert_eq!(reply.status, if n < 16 { 200 } else { 503 });
    }
    assert_eq!(s.state_table_full, 1);
}

#[test]
fn who_asks_for_state_is_checked() {
    let mut s = StateStore::module_new();
    let headers = "Authorization: DPoP cert\r\nDPoP: proof\r\n";
    let status = |step: StateStep| match step {
        StateStep::Reply(reply) => reply.status,
        _ => panic!("a reply"),
    };
    let load = request("/e2ee/state/load", headers, "{}");
    match s.handle_request(&load, false, Some(7)) {
        StateStep::Authenticate(p) => {
            assert_eq!(p.operation, Operation::Load);
            assert_eq!((&p.credential[..], &p.proof[..]), (&b"cert"[..], &b"proof"[..]));
            assert_eq!((&p.uri[..], p.now), (&b"/e2ee/state/load"[..], 7));
        }
        _ => panic!("a presentation"),
    }
    assert_eq!(status(s.handle_request(&load, true, Some(7))), 503);
    assert_eq!(status(s.handle_request(&load, false, None)), 503);
    assert_eq!(status(s.handle_request(&request("/e2ee/state/load", "", ""), false, Some(7))), 401);
    assert_eq!(status(s.handle_request(&request("/e2ee/state", headers, ""), false, Some(7))), 404);
    let mut get = load.clone();
    get[4] = 1;
    assert_eq!(status(s.handle_request(&get, false, Some(7))), 405);
    assert_eq!(status(s.handle_request(&load[..load.len() - 1], false, Some(7))), 400);
    assert!(matches!(s.handle_request(&load[..5], false, Some(7)), StateStep::Ignore));
    assert_eq!(s.authenticate(&load, Some(br#"{"device_id":"dev_9"}"#)).ok().unwrap().id, b"dev_9");
    assert_eq!(s.authenticate(&load, Some(b"{}")).err().unwrap().status, 401);
    assert_eq!(s.authenticate(&load, None).err().unwrap().status, 401);
}

fn publish(k: &mut KeyPackages, generation: u64, payload: &str, reuse: &str) -> Reply {
    let text = String::from_utf8(encode(payload.as_bytes())).unwrap();
    let body = format!(
        r#"{{"device_id":"dev_1","payload":"{text}","generation":{generation},"not_after":100,"reuse":"{reuse}","suite":7}}"#
    );
    k.publish(&request("/e2ee/keypackages", "", &body))
}

fn claim(k: &mut KeyPackages, now: u64) -> Reply {
    k.claim(&request("/e2ee/keypackages/claim", "", r#"{"device_id":"dev_1"}"#), now)
}

#[test]
fn a_package_is_claimed_once() {
    let mut k = KeyPackages::module_new(vec![7]);
    says(&publish(&mut k, 3, "one", "once"), 200, r#"{"published":true}"#);
    says(
        &claim(&mut k, 50),
        200,
        r#"{"exclusive":true,"generation":3,"payload":"b25l"}"#,
    );
    says(&claim(&mut k, 50), 404, r#"{"error":"no_packages"}"#);
    assert_eq!((k.package_published, k.package_claimed_exclusive, k.package_pool_empty), (1, 1, 1));
}

#[test]
fn the_last_resort_comes_last_and_stays() {
    let mut k = KeyPackages::module_new(vec![7]);
    publish(&mut k, 1, "last", "last_resort");
    publish(&mut k, 1, "one", "once");
    assert_eq!(claim_str(&claim(&mut k, 50).body, b"payload"), Some(&b"b25l"[..]));
    for _ in 0..2 {
        says(
            &claim(&mut k, 50),
            200,
            r#"{"exclusive":false,"generation":1,"payload":"bGFzdA"}"#,
        );
    }
    assert_eq!(claim(&mut k, 100).status, 404);
}

#[test]
fn a_newer_generation_empties_the_pool() {
    let mut k = KeyPackages::module_new(vec![7]);
    publish(&mut k, 1, "old", "once");
    publish(&mut k, 2, "new", "once");
    assert_eq!(claim_u64(&claim(&mut k, 50).body, b"generation"), Some(2));
    assert_eq!(claim(&mut k, 50).status, 404);
    says(&publish(&mut k, 1, "old", "once"), 503, r#"{"error":"temporarily_unavailable"}"#);
}

#[test]
fn a_long_id_gets_no_pool() {
    let mut k = KeyPackages::module_new(vec![7]);
    assert_eq!(k.pool_for(&[b'd'; 64], 1), Some(0));
    assert_eq!(k.pool_for(&[b'd'; 64], 2), Some(0));
    assert_eq!(k.pool_for(&[b'd'; 65], 1), None);
    assert!(!k.pools[1].live);
}

#[test]
fn a_pool_holds_eight_packages() {
    let mut k = KeyPackages::module_new(vec![7]);
    for _ in 0..8 {
        assert_eq!(publish(&mut k, 1, "x", "once").status, 200);
    }
    says(&publish(&mut k, 1, "x", "once"), 409, r#"{"error":"pool_full"}"#);
    assert_eq!(k.package_pool_full, 1);
}

#[test]
fn packages_that_are_refused() {
    let mut k = KeyPackages::module_new(vec![7, 9]);
    let bodies = [
        r#"{"payload":"Zg","generation":1,"not_after":9,"suite":7}"#,
        r#"{"device_id":"d","generation":1,"not_after":9,"suite":7}"#,
        r#"{"device_id":"d","payload":"Zg","not_after":9,"suite":7}"#,
        r#"{"device_id":"d","payload":"Zg","generation":1,"suite":7}"#,
        r#"{"device_id":"d","payload":"Zg","generation":1,"not_after":9,"suite":8}"#,
        r#"{"device_id":"d","payload":"Zg","generation":4294967296,"not_after":9,"suite":9}"#,
    ];
    for body in bodies {
        let reply = k.publish(&request("/e2ee/keypackages", "", body));
        says(&reply, 400, r#"{"error":"invalid_request"}"#);
    }
    assert_eq!(k.package_malformed, 6);
    let reply = k.claim(&request("/e2ee/keypackages/claim", "", "{}"), 0);
    says(&reply, 400, r#"{"error":"invalid_request"}"#);
    assert_eq!(k.handle_request(&request("/e2ee/keypackages/x", "", ""), 0).unwrap().status, 404);
    let mut get = request("/e2ee/keypackages", "", "");
    get[4] = 1;
    assert_eq!(k.handle_request(&get, 0).unwrap().status, 405);
    assert!(k.handle_request(b"x", 0).is_none());
}

// Credentials.

fn key(n: u8) -> SigningKey {
    SigningKey::from_bytes(&[n; 32])
}

fn jwk(key: &SigningKey) -> String {
    let x = String::from_utf8(encode(&key.verifying_key().to_bytes())).unwrap();
    format!(r#"{{"crv":"Ed25519","kty":"OKP","x":"{x}"}}"#)
}

fn thumb(key: &SigningKey) -> String {
    String::from_utf8(thumbprint_from_canonical(&read_canonical(jwk(key).as_bytes()).unwrap()))
        .unwrap()
}

fn issuer_record() -> KeyRecord {
    KeyRecord {
        issuer: b"iss".to_vec(),
        profile_id: 6,
        kid: b"ke-1".to_vec(),
        suite: Some(Suite::Ed25519),
        state: KeyState::Active,
        key_use: KeyUse::Sign,
        generation: 0,
        activate_after_unix: 0,
        remove_after_unix: 0,
        key_ref: b"ke".to_vec(),
    }
}

fn credentials() -> CredentialEndpoint {
    let mut e = CredentialEndpoint::module_new(6, 21, b"https://id.example");
    assert!(e.takes_key(&issuer_record()));
    e.drain_key(&issuer_record(), true);
    e
}

const MESSAGE: &[u8] = b"what the device signs";

fn credential_body(signature: &[u8]) -> String {
    format!(
        r#"{{"device_id":"dev_1","device_pubkey":{},"sig_jwk":{},"hpke_jwk":{},"nonce":"n-1","generation":3,"pop_sig":"{}"}}"#,
        jwk(&key(1)),
        jwk(&key(2)),
        jwk(&key(3)),
        String::from_utf8(encode(signature)).unwrap()
    )
}

fn ask(e: &mut CredentialEndpoint, signature: &[u8]) -> (usize, Pending) {
    let body = credential_body(signature);
    match e.handle_request(&request("/e2ee/credential", "", &body), true) {
        RequestStep::Ask { index, slot } => (index, slot),
        _ => panic!("a question"),
    }
}

fn directory(corr: u32, status: Status, value: &str) -> StateReply {
    StateReply {
        client: 2,
        correlation: corr,
        status,
        value: value.as_bytes().to_vec(),
        etag: Vec::new(),
    }
}

fn checked(e: &mut CredentialEndpoint, jkt: &str, signature: &[u8]) -> IssueStep {
    let (index, slot) = ask(e, signature);
    let corr = slot.corr;
    assert!(e.asked(index, slot, Asked::Sent).is_none());
    let record = format!(r#"{{"cnf":{{"jkt":"{jkt}"}},"sub":"tenant_1"}}"#);
    match e.drain_directory(&directory(corr, Status::Success, &record)) {
        DirectoryStep::Check { slot, record } => e.issue(&slot, &record, Some(MESSAGE), 1000),
        _ => panic!("a check"),
    }
}

#[test]
fn members_are_found_in_their_own_object() {
    let body = br#"{"a":{"crv":"c1","kty":"OKP","x":"1"},"b":{"crv":"c2","kty":"OKP","x":"2"}}"#;
    assert_eq!(find_member(body, b"b"), Some(42));
    assert_eq!(find_member(body, b"d"), None);
    assert_eq!(
        canonical_jwk_of(body, b"b"),
        Some(br#"{"crv":"c2","kty":"OKP","x":"2"}"#.to_vec())
    );
    assert_eq!(canonical_jwk_of(body, b"d"), None);
    assert_eq!(canonical_jwk_of(br#"{"a":{"crv":"c""#, b"a"), None);
    let signature = key(1).sign(b"m").to_bytes();
    let canonical = read_canonical(jwk(&key(1)).as_bytes()).unwrap();
    assert!(verify_with_jwk(&canonical, b"m", &signature));
    assert!(!verify_with_jwk(&canonical, b"n", &signature));
}

#[test]
fn a_credential_is_issued_to_the_enrolled_key() {
    let mut e = credentials();
    let signature = key(1).sign(MESSAGE).to_bytes();
    let input = match checked(&mut e, &thumb(&key(1)), &signature) {
        IssueStep::Sign { conn, stream, input } => {
            assert_eq!((conn, stream), (5, 1));
            input
        }
        IssueStep::Reply(_) => panic!("something to sign"),
    };
    let reply = e.sign_jws(5, 1, &input, Some(&[9u8; 64]));
    assert_eq!(reply.status, 200);
    assert_eq!(e.credential_issued, 1);
    let token = claim_str(&reply.body, b"credential").unwrap();
    let jws = jose::split(token).unwrap();
    assert_eq!(
        decode(jws.header_b64, 256).unwrap(),
        br#"{"alg":"EdDSA","cty":"ke+jwt","kid":"ke-1","typ":"JWT"}"#
    );
    let claims = String::from_utf8(decode(jws.payload_b64, 1024).unwrap()).unwrap();
    assert_eq!(
        claims,
        format!(
            r#"{{"exp":87400,"gen":3,"hpke_jwk_thumbprint":"{}","iat":1000,"iss":"https://id.example","sig_jwk_thumbprint":"{}","sub":"dev_1","suite":21,"tid":"tenant_1"}}"#,
            thumb(&key(3)),
            thumb(&key(2))
        )
    );
}

#[test]
fn credentials_that_are_refused() {
    let status = |step: IssueStep| match step {
        IssueStep::Reply(reply) => reply.status,
        IssueStep::Sign { .. } => panic!("a refusal"),
    };
    let mut e = credentials();
    let good = key(1).sign(MESSAGE).to_bytes();
    assert_eq!(status(checked(&mut e, &thumb(&key(7)), &good)), 401);
    let stolen = key(7).sign(MESSAGE).to_bytes();
    assert_eq!(status(checked(&mut e, &thumb(&key(1)), &stolen)), 401);
    assert_eq!(e.credential_bad_possession, 2);
    let (_, slot) = ask(&mut e, &good);
    assert_eq!(status(e.issue(&slot, b"{}", Some(MESSAGE), 1000)), 401);
    let record = format!(r#"{{"jkt":"{}"}}"#, thumb(&key(1)));
    assert_eq!(status(e.issue(&slot, record.as_bytes(), None, 1000)), 400);
    assert_eq!(e.sign_jws(5, 1, b"a.b", None).status, 400);
    let unknown = ask(&mut e, &good);
    let corr = unknown.1.corr;
    e.asked(unknown.0, unknown.1, Asked::Sent);
    match e.drain_directory(&directory(corr, Status::NotFound, "")) {
        DirectoryStep::Reply(reply) => says(&reply, 401, r#"{"error":"invalid_grant"}"#),
        _ => panic!("a reply"),
    }
    assert_eq!(e.credential_unknown_device, 1);
    assert!(matches!(
        e.drain_directory(&directory(corr, Status::Success, "")),
        DirectoryStep::Ignore
    ));
}

#[test]
fn credential_requests_that_go_nowhere() {
    let mut e = credentials();
    let status = |step: RequestStep| match step {
        RequestStep::Reply(reply) => reply.status,
        _ => panic!("a reply"),
    };
    let good = credential_body(&[1u8; 64]);
    let whole = request("/e2ee/credential", "", &good);
    assert!(matches!(e.handle_request(&whole[..7], true), RequestStep::Ignore));
    assert_eq!(status(e.handle_request(&whole[..whole.len() - 1], true)), 400);
    assert_eq!(status(e.handle_request(&request("/e2ee/x", "", &good), true)), 404);
    let mut get = whole.clone();
    get[4] = 1;
    assert_eq!(status(e.handle_request(&get, true)), 405);
    assert_eq!(status(e.handle_request(&whole, false)), 503);
    for (what, instead) in [
        ("device_id", "x"),
        ("sig_jwk", "x"),
        ("hpke_jwk", "x"),
        ("device_pubkey", "x"),
        ("nonce", "x"),
        (r#""generation":3"#, r#""generation":0"#),
        (r#""generation":3"#, r#""generation":4294967296"#),
        ("pop_sig", "x"),
    ] {
        let body = good.replace(what, instead);
        assert_eq!(status(e.handle_request(&request("/e2ee/credential", "", &body), true)), 400);
    }
    assert_eq!((e.credential_malformed, e.credential_in_flight_full), (8, 1));
    e.drain_key(&issuer_record(), false);
    assert_eq!(status(e.handle_request(&whole, true)), 503);
    assert_eq!(e.credential_no_key, 1);
}

#[test]
fn four_credentials_are_in_flight() {
    let mut e = credentials();
    for n in 0..4 {
        let (index, slot) = ask(&mut e, &[1u8; 64]);
        assert_eq!((index, slot.corr), (n, n as u32 + 1));
        assert!(e.asked(index, slot, Asked::Sent).is_none());
    }
    match e.handle_request(&request("/e2ee/credential", "", &credential_body(&[1u8; 64])), true) {
        RequestStep::Reply(reply) => says(&reply, 503, r#"{"error":"temporarily_unavailable"}"#),
        _ => panic!("a reply"),
    }
    let taken = e.take_pending(2).unwrap();
    assert_eq!(taken.corr, 2);
    assert!(e.take_pending(2).is_none());
    let (index, slot) = ask(&mut e, &[1u8; 64]);
    assert_eq!(index, 1);
    says(&e.asked(index, slot, Asked::Unwritten).unwrap(), 503, r#"{"error":"temporarily_unavailable"}"#);
    let (index, slot) = ask(&mut e, &[1u8; 64]);
    says(&e.asked(index, slot, Asked::Unencodable).unwrap(), 400, r#"{"error":"invalid_request"}"#);
}

#[test]
fn credential_refusals_tell_little() {
    assert_eq!(Refusal::UnknownDevice.status(), Refusal::BadPossession.status());
    assert_eq!(Refusal::UnknownDevice.body(), Refusal::BadPossession.body());
    assert_eq!((Refusal::NoKey.status(), Refusal::Busy.status()), (503, 503));
    assert_eq!((Refusal::Malformed.status(), Refusal::Malformed.body()), (400, r#"{"error":"invalid_request"}"#));
}
