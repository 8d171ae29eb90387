use ed25519_dalek::{Signer, SigningKey};
use p256::ecdsa::signature::Signer as EcdsaSigner;

use kagi::authcode::{self, AuthCode, AuthorizeRequest, AuthzErr};
use kagi::base64::encode;
use kagi::crypto::sha256_into;
use kagi::device_auth::{
    access_tokens, authenticate, credential_kid, device_certificates, select_issuer, AuthError,
    Held, IssuerKey, Policy, Presentation,
};
use kagi::e2ee_state_endpoint::{self, StateStore};
use kagi::enrollment_endpoint::{Enrollment, TotpAsk};
use kagi::jose;
use kagi::jwk::{tenant_id, thumbprint_from_canonical};
use kagi::keys::{KeyRecord, KeyState, KeyUse, Suite};
use kagi::mint_admission::{Admission, AdmitErr, Ask, HandleStep};
use kagi::replay::ReplayWindow;
use kagi::resource_gate::{Gate, GateStep};
use kagi::token_verify::Verifier;

const NOW: u64 = 1_700_000_000;

fn issuer() -> SigningKey {
    SigningKey::from_bytes(&[31u8; 32])
}

fn device() -> SigningKey {
    SigningKey::from_bytes(&[32u8; 32])
}

fn record(kid: &str, public: &[u8]) -> KeyRecord {
    KeyRecord {
        issuer: b"https://id.example".to_vec(),
        profile_id: 5,
        kid: kid.as_bytes().to_vec(),
        suite: Some(Suite::Ed25519),
        state: KeyState::Active,
        key_use: KeyUse::Verify,
        generation: 0,
        activate_after_unix: 0,
        remove_after_unix: 0,
        key_ref: public.to_vec(),
    }
}

fn keys() -> Verifier {
    let mut v = Verifier::new();
    assert!(v.add_key(&record("k1", &issuer().verifying_key().to_bytes())).is_some());
    v
}

fn jwk(key: &SigningKey) -> String {
    let x = String::from_utf8(encode(&key.verifying_key().to_bytes())).unwrap();
    format!(r#"{{"crv":"Ed25519","kty":"OKP","x":"{x}"}}"#)
}

fn thumb(jwk: &str) -> String {
    String::from_utf8(thumbprint_from_canonical(jwk.as_bytes())).unwrap()
}

fn signed(key: &SigningKey, header: &str, claims: &str) -> Vec<u8> {
    let input = jose::write_signing_input(header.as_bytes(), claims.as_bytes());
    let signature = Signer::sign(key, &input).to_bytes();
    jose::close_jws(&input, &signature, 4096).unwrap()
}

fn certificate(jkt: &str) -> Vec<u8> {
    let claims = format!(
        r#"{{"cnf":{{"jkt":"{jkt}"}},"sub":"tenant_1","device_id":"dev_1","iat":{NOW},"exp":{}}}"#,
        NOW + 3600
    );
    signed(&issuer(), r#"{"alg":"EdDSA","cty":"dc+jwt","kid":"k1","typ":"JWT"}"#, &claims)
}

fn own_certificate() -> Vec<u8> {
    certificate(&thumb(&jwk(&device())))
}

fn access_token() -> Vec<u8> {
    let claims = format!(
        r#"{{"cnf":{{"jkt":"{}"}},"sub":"tenant_1","iat":{NOW},"exp":{}}}"#,
        thumb(&jwk(&device())),
        NOW + 300
    );
    signed(&issuer(), r#"{"alg":"EdDSA","kid":"k1","typ":"JWT"}"#, &claims)
}

fn possession(method: &str, uri: &str, iat: u64, jti: &str) -> Vec<u8> {
    let header = format!(r#"{{"typ":"dpop+jwt","alg":"EdDSA","jwk":{}}}"#, jwk(&device()));
    let claims = format!(r#"{{"htm":"{method}","htu":"{uri}","iat":{iat},"jti":"{jti}"}}"#);
    signed(&device(), &header, &claims)
}

fn check(
    window: &mut ReplayWindow,
    credential: &[u8],
    proof: &[u8],
    policy: &Policy,
    now: u64,
) -> Result<Held, AuthError> {
    let issuer = select_issuer(&keys(), credential, now);
    let p = Presentation { credential, proof, method: b"POST", uri: b"/token" };
    authenticate(&issuer, window, &p, policy, now)
}

fn once(credential: &[u8], proof: &[u8], now: u64) -> Result<Held, AuthError> {
    check(&mut ReplayWindow::new(), credential, proof, &device_certificates(), now)
}

fn why(r: Result<Held, AuthError>) -> AuthError {
    match r {
        Ok(_) => panic!("a refusal"),
        Err(why) => why,
    }
}

#[test]
fn a_device_is_authenticated() {
    let held = once(&own_certificate(), &possession("POST", "/token", NOW, "p1"), NOW).ok().unwrap();
    assert!(held.claims.starts_with(br#"{"cnf":{"jkt":""#));
    assert_eq!(held.thumbprint, thumb(&jwk(&device())).into_bytes());
    let mut digest = [0u8; 32];
    sha256_into(b"p1", &mut digest);
    assert_eq!(held.proof_id, digest);
}

#[test]
fn credentials_that_do_not_hold() {
    let good = possession("POST", "/token", NOW, "p1");
    assert_eq!(why(once(b"a.b", &good, NOW)), AuthError::Credential);
    assert_eq!(why(once(&access_token(), &good, NOW)), AuthError::Credential);
    assert_eq!(why(once(&own_certificate(), &good, NOW + 3600)), AuthError::Credential);
    assert_eq!(why(once(&own_certificate(), &good, NOW - 61)), AuthError::Credential);
    let mut forged = own_certificate();
    let n = forged.len() - 8;
    forged[n] = if forged[n] == b'A' { b'B' } else { b'A' };
    assert_eq!(why(once(&forged, &good, NOW)), AuthError::Credential);
    let header = r#"{"alg":"EdDSA","cty":"dc+jwt","kid":"k2"}"#;
    let stranger = signed(&issuer(), header, "{}");
    assert_eq!(credential_kid(&stranger), Some(b"k2".to_vec()));
    assert_eq!(why(once(&stranger, &good, NOW)), AuthError::Credential);
    let confused = signed(&issuer(), r#"{"alg":"ES256","cty":"dc+jwt","kid":"k1"}"#, "{}");
    assert_eq!(why(once(&confused, &good, NOW)), AuthError::Credential);
    let long = format!(r#"{{"pad":"{}"}}"#, "a".repeat(1100));
    let over = signed(&issuer(), r#"{"alg":"EdDSA","cty":"dc+jwt","kid":"k1"}"#, &long);
    assert_eq!(why(once(&over, &good, NOW)), AuthError::Overflow);
    assert_eq!(credential_kid(b"no token"), None);
}

#[test]
fn proofs_that_do_not_hold() {
    let c = own_certificate();
    let refused = |proof: Vec<u8>| why(once(&c, &proof, NOW));
    assert_eq!(refused(possession("GET", "/token", NOW, "p1")), AuthError::Proof);
    assert_eq!(refused(possession("POST", "/other", NOW, "p1")), AuthError::Proof);
    assert_eq!(refused(possession("POST", "/token", NOW - 300, "p1")), AuthError::Proof);
    assert_eq!(refused(possession("POST", "/token", NOW + 1, "p1")), AuthError::Proof);
    assert_eq!(refused(possession("POST", "/token", NOW, "")), AuthError::Proof);
    assert_eq!(refused(b"a.b.c".to_vec()), AuthError::Proof);
    assert!(once(&c, &possession("POST", "/token", NOW - 299, "p1"), NOW).is_ok());
    assert!(once(&c, &possession("POST", "/token", NOW, "p1"), NOW).is_ok());
    let claims = format!(r#"{{"htm":"POST","htu":"/token","iat":{NOW},"jti":"p1"}}"#);
    let header = format!(r#"{{"typ":"JWT","alg":"EdDSA","jwk":{}}}"#, jwk(&device()));
    assert_eq!(refused(signed(&device(), &header, &claims)), AuthError::Proof);
    let header = format!(r#"{{"typ":"dpop+jwt","alg":"EdDSA","jwk":{}}}"#, jwk(&device()));
    assert_eq!(refused(signed(&issuer(), &header, &claims)), AuthError::Proof);
    let keyless = signed(&device(), r#"{"typ":"dpop+jwt","alg":"EdDSA"}"#, &claims);
    assert_eq!(refused(keyless), AuthError::Proof);
}

#[test]
fn a_proof_has_to_be_by_the_bound_key() {
    let good = possession("POST", "/token", NOW, "p1");
    let other = certificate(&thumb(&jwk(&issuer())));
    assert_eq!(why(once(&other, &good, NOW)), AuthError::NotBound);
}

#[test]
fn a_p256_proof() {
    let key = p256::ecdsa::SigningKey::from_slice(&[9u8; 32]).unwrap();
    let point = key.verifying_key().to_encoded_point(false);
    let part = |i: usize| String::from_utf8(encode(&point.as_bytes()[i..i + 32])).unwrap();
    let jwk = format!(r#"{{"crv":"P-256","kty":"EC","x":"{}","y":"{}"}}"#, part(1), part(33));
    let header = format!(r#"{{"typ":"dpop+jwt","alg":"ES256","jwk":{jwk}}}"#);
    let claims = format!(r#"{{"htm":"POST","htu":"/token","iat":{NOW},"jti":"p1"}}"#);
    let input = jose::write_signing_input(header.as_bytes(), claims.as_bytes());
    let signature: p256::ecdsa::Signature = EcdsaSigner::sign(&key, &input);
    let proof = jose::close_jws(&input, &signature.to_bytes(), 4096).unwrap();
    assert!(once(&certificate(&thumb(&jwk)), &proof, NOW).is_ok());
}

#[test]
fn a_proof_authenticates_once() {
    let mut window = ReplayWindow::new();
    let c = own_certificate();
    let policy = device_certificates();
    let one = possession("POST", "/token", NOW, "p1");
    assert_eq!(why(check(&mut window, &c, b"a.b.c", &policy, NOW)), AuthError::Proof);
    assert!(check(&mut window, &c, &one, &policy, NOW).is_ok());
    assert_eq!(why(check(&mut window, &c, &one, &policy, NOW + 299)), AuthError::Replay);
    for later in [NOW + 300, NOW + 301, NOW + 360] {
        assert_eq!(why(check(&mut window, &c, &one, &policy, later)), AuthError::Proof);
    }
    assert!(check(&mut window, &c, &possession("POST", "/token", NOW, "p2"), &policy, NOW).is_ok());
    assert_eq!(window.spent.len(), 2);
    assert!(check(&mut window, &access_token(), &one, &access_tokens(), NOW + 300).is_err());
}

#[test]
fn an_unknown_suite_verifies_nothing() {
    let c = own_certificate();
    let one = possession("POST", "/token", NOW, "p1");
    let p = Presentation { credential: &c, proof: &one, method: b"POST", uri: b"/token" };
    let mut window = ReplayWindow::new();
    let key = Some(IssuerKey { suite: None, public: vec![1; 32] });
    let r = authenticate(&key, &mut window, &p, &device_certificates(), NOW);
    assert_eq!(why(r), AuthError::Credential);
    let none = authenticate(&None, &mut window, &p, &device_certificates(), NOW);
    assert_eq!(why(none), AuthError::Credential);
}

#[test]
fn a_presenter_asks_for_admission() {
    let mut a =
        Admission::module_new(true, true, b"iss", b"aud", b"scope", 300, Suite::Ed25519).unwrap();
    let mut window = ReplayWindow::new();
    let ask = || Ask {
        corr: 7,
        method: b"POST".to_vec(),
        uri: b"/token".to_vec(),
        credential: own_certificate(),
        proof: possession("POST", "/token", NOW, "p1"),
        otp: Vec::new(),
        grant: false,
    };
    match a.present(&ask(), &keys(), &mut window, Some(NOW)) {
        HandleStep::Claim(c) => assert_eq!((&c.entry.sub[..], c.entry.caller_corr), (&b"tenant_1"[..], 7)),
        HandleStep::Refuse(_) => panic!("a claim"),
    }
    let status = |step: HandleStep| match step {
        HandleStep::Refuse(r) => r.status,
        HandleStep::Claim(_) => panic!("a refusal"),
    };
    assert_eq!(status(a.present(&ask(), &keys(), &mut window, Some(NOW))), AdmitErr::Replay);
    let none = Verifier::new();
    assert_eq!(status(a.present(&ask(), &none, &mut window, Some(NOW))), AdmitErr::NoKey);
    assert_eq!(status(a.present(&ask(), &keys(), &mut window, None)), AdmitErr::NoClock);
    let token = Ask { credential: access_token(), ..ask() };
    assert_eq!(
        status(a.present(&token, &keys(), &mut window, Some(NOW))),
        AdmitErr::Unauthenticated
    );
}

#[test]
fn a_presenter_asks_for_a_code() {
    let mut f = AuthCode::module_new(b"iss", b"aud", 300, 600, 1, true).unwrap();
    let mut window = ReplayWindow::new();
    let request = || AuthorizeRequest {
        corr: 7,
        method: b"GET".to_vec(),
        uri: b"/authorize".to_vec(),
        credential: own_certificate(),
        proof: possession("GET", "/authorize", NOW, "p1"),
        client_id: b"client".to_vec(),
        redirect_uri: b"https://app.example/cb".to_vec(),
        nonce: Vec::new(),
        state: Vec::new(),
        code_challenge: vec![b'c'; 43],
    };
    match f.authorize(&request(), &keys(), &mut window, Some(NOW)) {
        authcode::RequestStep::Lookup(l) => assert_eq!((&l.key[..], &l.entry.device_id[..]), (&b"client"[..], &b"dev_1"[..])),
        authcode::RequestStep::Refuse(_) => panic!("a lookup"),
    }
    match f.authorize(&request(), &keys(), &mut window, Some(NOW)) {
        authcode::RequestStep::Refuse(r) => assert_eq!(r.status, AuthzErr::Replay),
        authcode::RequestStep::Lookup(_) => panic!("a refusal"),
    }
}

fn http(method: u8, path: &str, credential: &[u8], proof: &[u8]) -> Vec<u8> {
    http_with(method, path, credential, proof, "")
}

fn http_with(method: u8, path: &str, credential: &[u8], proof: &[u8], body: &str) -> Vec<u8> {
    let mut headers = b"authorization: DPoP ".to_vec();
    headers.extend_from_slice(credential);
    headers.extend_from_slice(b"\r\ndpop: ");
    headers.extend_from_slice(proof);
    headers.extend_from_slice(b"\r\n");
    let mut r = vec![9, 0, 2, 0, method, 0];
    r.extend_from_slice(&(path.len() as u16).to_le_bytes());
    r.extend_from_slice(&(headers.len() as u16).to_le_bytes());
    r.extend_from_slice(&(body.len() as u16).to_le_bytes());
    r.extend_from_slice(path.as_bytes());
    r.extend_from_slice(&headers);
    r.extend_from_slice(body.as_bytes());
    r
}

#[test]
fn a_resource_is_asked_for() {
    let mut g = Gate::module_new(false, b"", 0);
    let mut window = ReplayWindow::new();
    let request = http(1, "/r", &access_token(), &possession("GET", "/r", NOW, "p1"));
    let p = match g.handle_request(&request, false, Some(NOW)) {
        GateStep::Authenticate(p) => p,
        _ => panic!("a presentation"),
    };
    let held = p.check(&keys(), &mut window);
    let admitted = g.admit_request(p.conn, p.stream, held, true, p.now).ok().unwrap();
    assert_eq!(admitted.subject, b"tenant_1");
    assert_eq!(why(p.check(&keys(), &mut window)), AuthError::Replay);
}

#[test]
fn a_device_asks_for_its_state() {
    let mut s = StateStore::module_new();
    let mut window = ReplayWindow::new();
    let path = "/e2ee/state/load";
    let request = http(3, path, &own_certificate(), &possession("POST", path, NOW, "p1"));
    let p = match s.handle_request(&request, false, Some(NOW)) {
        e2ee_state_endpoint::RequestStep::Authenticate(p) => p,
        _ => panic!("a presentation"),
    };
    let held = p.check(&keys(), &mut window).ok().unwrap();
    let device = s.authenticate(&request, Some(&held.claims)).ok().unwrap();
    assert_eq!(device.as_bytes(), b"dev_1");
}

#[test]
fn state_is_served_to_the_device_that_owns_it() {
    let mut s = StateStore::module_new();
    let mut window = ReplayWindow::new();
    let ask = |path: &str, id: &str, body: &str| {
        http_with(3, path, &own_certificate(), &possession("POST", path, NOW, id), body)
    };
    let (load, commit) = ("/e2ee/state/load", "/e2ee/state/commit");
    let offer = r#"{"endpoint":"dev_1/g","payload":"Zg","expected_revision":0,"epoch":1,"generation":1}"#;
    let mut serve = |request: &[u8], keys: &Verifier, now: Option<u64>| {
        s.serve(request, keys, &mut window, now).map(|r| (r.status, String::from_utf8(r.body).unwrap()))
    };
    let said = |status: u16, body: &str| Some((status, body.to_string()));
    assert_eq!(serve(&[0; 11], &keys(), Some(NOW)), None);
    let first = ask(commit, "p1", offer);
    assert_eq!(
        serve(&first, &Verifier::new(), Some(NOW)),
        said(503, r#"{"error":"temporarily_unavailable"}"#)
    );
    assert_eq!(
        serve(&first, &keys(), None),
        said(503, r#"{"error":"temporarily_unavailable"}"#)
    );
    assert_eq!(
        serve(&first, &keys(), Some(NOW)),
        said(200, r#"{"committed":true,"revision":1}"#)
    );
    assert_eq!(serve(&first, &keys(), Some(NOW)), said(401, r#"{"error":"invalid_client"}"#));
    let body = r#"{"endpoint":"dev_1/g"}"#;
    assert_eq!(
        serve(&ask(load, "p2", body), &keys(), Some(NOW)),
        said(200, r#"{"epoch":1,"generation":1,"payload":"Zg","present":true,"revision":1}"#)
    );
    assert_eq!(
        serve(&ask(load, "p3", r#"{"endpoint":"dev_2/g"}"#), &keys(), Some(NOW)),
        said(403, r#"{"error":"forbidden"}"#)
    );
    assert_eq!((s.state_committed, s.state_loaded, s.state_not_owner), (1, 1, 1));
    assert_eq!(s.state_unauthenticated, 2);
}

#[test]
fn a_device_asks_about_its_authenticator() {
    let mut e = Enrollment::module_new(4, 5, true, b"iss", b"seed", b"from@id.example");
    let rec = KeyRecord { profile_id: 4, key_use: KeyUse::Sign, ..record("k1", b"label") };
    let public = issuer().verifying_key().to_bytes().to_vec();
    assert!(e.drain_key(&rec, Some((public, vec![0; 64]))).is_some());
    let path = "/authenticators/totp";
    let ask = TotpAsk {
        conn: 9,
        stream: 2,
        confirming: false,
        credential: own_certificate(),
        proof: possession("POST", path, NOW, "p1"),
        uri: path.as_bytes().to_vec(),
        code: Vec::new(),
    };
    let mut window = ReplayWindow::new();
    assert!(e.totp_route(&ask, Some(NOW)).is_none());
    assert!(e.check_device(&ask, &mut window, NOW).is_ok());
    assert_eq!(why(e.check_device(&ask, &mut window, NOW)), AuthError::Replay);
}

#[test]
fn an_inbox_is_one_tenant() {
    let one = tenant_id(b"secret", b"Alice@Example.com");
    assert_eq!(one, tenant_id(b"secret", b"alice@example.COM"));
    assert_ne!(one, tenant_id(b"secret", b"bob@example.com"));
    assert_ne!(one, tenant_id(b"other", b"alice@example.com"));
    assert_eq!(one.len(), 22);
}
