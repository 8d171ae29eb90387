use ed25519_dalek::{Signer, SigningKey};

use kagi::base64::{decode, encode};
use kagi::claims::{claim_array_raw, claim_str, claim_u64};
use kagi::device_record::{verify_presented_code, write_device_record};
use kagi::enrollment_ceremony::{
    canonical_device_jwk, code_hash, compose_certificate, compose_challenge, enrolment_mail,
    examine, hashes_equal, open_challenge, verify_device_possession, write_consumed,
    write_transaction, write_wrong_code, CodeDraw, DrawStep, Refusal, Verdict,
};
use kagi::enrollment_endpoint::{
    header_value, route, strip_dpop_scheme, trim_ws, Enrollment, LedgerAsk, LedgerOp, Namespace,
    Pending, RedeemStep, RequestStep, Route, Sent, Stage, StartStep, Step, TotpAsk, CODE_BODY,
    CODE_KEY_DOMAIN, CONSUMED_BODY, UNAVAILABLE_BODY,
};
use kagi::http::Reply;
use kagi::jose;
use kagi::jwk::{device_id_from_canonical, encode_digest, thumbprint_from_canonical};
use kagi::keys::{KeyRecord, KeyState, KeyUse, Suite};
use kagi::ledger::{StateReply, Status};
use kagi::totp::hotp;

const NOW: u64 = 1_700_000_000;
const VERIFIER: &str = "dBjftJeZ4CVP-mB92K27uhbUJU1p1r_wW1gFWFOEjXk";
const CHALLENGE: &str = "E9Melhoa2OwvFrEMTJguCHaoeK1t8URWbuGJSstw-cM";

fn issuer() -> SigningKey {
    SigningKey::from_bytes(&[11u8; 32])
}

fn device() -> SigningKey {
    SigningKey::from_bytes(&[22u8; 32])
}

fn jwk(key: &SigningKey) -> String {
    let x = String::from_utf8(encode(&key.verifying_key().to_bytes())).unwrap();
    format!(r#"{{"crv":"Ed25519","kty":"OKP","x":"{x}"}}"#)
}

fn record(label: &str) -> KeyRecord {
    KeyRecord {
        issuer: b"https://id.example".to_vec(),
        profile_id: 4,
        kid: b"kid-1".to_vec(),
        suite: Some(Suite::Ed25519),
        state: KeyState::Active,
        key_use: KeyUse::Sign,
        generation: 0,
        activate_after_unix: 0,
        remove_after_unix: 0,
        key_ref: label.as_bytes().to_vec(),
    }
}

fn endpoint() -> Enrollment {
    let mut e =
        Enrollment::module_new(4, 5, true, b"https://id.example", b"seed", b"no-reply@id.example");
    let rec = record("enrol");
    assert!(e.takes_key(&rec));
    let key = issuer();
    let opened = (
        key.verifying_key().to_bytes().to_vec(),
        key.sign(CODE_KEY_DOMAIN.as_bytes()).to_bytes().to_vec(),
    );
    let announced = e.drain_key(&rec, Some(opened)).unwrap();
    assert_eq!(announced.profile_id, 5);
    assert_eq!(announced.key_use, KeyUse::Verify);
    assert_eq!(announced.key_ref, key.verifying_key().to_bytes());
    e
}

fn request(path: &str, headers: &str, body: &str) -> Vec<u8> {
    let mut r = vec![9, 0, 2, 0, 3, 0];
    r.extend_from_slice(&(path.len() as u16).to_le_bytes());
    r.extend_from_slice(&(headers.len() as u16).to_le_bytes());
    r.extend_from_slice(&(body.len() as u16).to_le_bytes());
    r.extend_from_slice(path.as_bytes());
    r.extend_from_slice(headers.as_bytes());
    r.extend_from_slice(body.as_bytes());
    r
}

fn start_body(delivery: &str) -> String {
    format!(
        r#"{{{delivery},"code_challenge":"{CHALLENGE}","device_pubkey":{}}}"#,
        jwk(&device())
    )
}

fn mailed() -> String {
    start_body(r#""email":"alice@example.com""#)
}

fn redeem_body(token: &str, code: &str, verifier: &str, key: &SigningKey) -> String {
    let sig = String::from_utf8(encode(&key.sign(token.as_bytes()).to_bytes())).unwrap();
    format!(
        r#"{{"challenge_token":"{token}","code":"{code}","code_verifier":"{verifier}","pop_sig":"{sig}","device_pubkey":{}}}"#,
        jwk(key)
    )
}

fn challenge_token(delivery: &str, at: u64) -> (String, Vec<u8>) {
    let draft = compose_challenge(
        start_body(delivery).as_bytes(),
        b"https://id.example",
        b"kid-1",
        b"seed",
        Some([1u8; 16]),
        Some(*b"12345678"),
        Some(at),
    )
    .ok()
    .unwrap();
    let signature = issuer().sign(&draft.input).to_bytes();
    let token = jose::close_jws(&draft.input, &signature, 2048).unwrap();
    (String::from_utf8(token).unwrap(), draft.nonce)
}

fn reply_of(step: Step) -> Reply {
    match step {
        Step::Reply(reply) => reply,
        _ => panic!("no reply"),
    }
}

fn asked(step: Step) -> (LedgerAsk, Pending) {
    match step {
        Step::Ask { ask, entry } => (ask, entry),
        _ => panic!("no question"),
    }
}

fn answer(corr: u32, status: Status, value: &[u8]) -> StateReply {
    StateReply {
        client: 1,
        correlation: corr,
        status,
        value: value.to_vec(),
        etag: b"etag".to_vec(),
    }
}

#[test]
fn refusals_have_their_status_and_body() {
    let all = [
        (Refusal::NoKey, 503, r#"{"error":"temporarily_unavailable"}"#),
        (Refusal::NoEntropy, 500, r#"{"error":"server_error","detail":"entropy"}"#),
        (Refusal::Malformed, 400, r#"{"error":"invalid_request"}"#),
        (Refusal::BadChallenge, 401, r#"{"error":"invalid_grant","detail":"challenge"}"#),
        (Refusal::PkceMismatch, 401, r#"{"error":"invalid_grant","detail":"pkce"}"#),
        (Refusal::BadPossession, 401, r#"{"error":"invalid_grant","detail":"possession"}"#),
        (Refusal::Unauthenticated, 401, r#"{"error":"invalid_client"}"#),
        (Refusal::AlreadyRegistered, 409, r#"{"error":"conflict","detail":"authenticator_exists"}"#),
        (Refusal::NoAuthenticator, 404, r#"{"error":"not_found","detail":"no_authenticator"}"#),
        (Refusal::BadCode, 401, r#"{"error":"invalid_grant","detail":"code"}"#),
    ];
    for (why, status, body) in all {
        assert_eq!(why.status(), status);
        assert_eq!(why.body(), body);
    }
}

#[test]
fn a_code_is_bound_to_its_transaction() {
    let key = [5u8; 32];
    let one = code_hash(&key, b"nonce-a", b"12345678");
    assert_eq!(one.len(), 43);
    assert_eq!(one, code_hash(&key, b"nonce-a", b"12345678"));
    assert_ne!(one, code_hash(&key, b"nonce-b", b"12345678"));
    assert_ne!(one, code_hash(&key, b"nonce-a", b"12345679"));
    assert_ne!(one, code_hash(&[6u8; 32], b"nonce-a", b"12345678"));
    let expected = kagi::crypto::hmac_sha256_into(&key, b"nonce-a12345678", 32);
    assert_eq!(one, encode(&expected));
}

#[test]
fn hashes_are_compared_whole() {
    assert!(hashes_equal(b"abc", b"abc"));
    assert!(!hashes_equal(b"abc", b"abd"));
    assert!(!hashes_equal(b"abc", b"xbc"));
    assert!(!hashes_equal(b"abc", b"ab"));
    assert!(hashes_equal(b"", b""));
}

#[test]
fn codes_are_drawn_without_bias() {
    let mut draw = CodeDraw::new();
    let raw: [u8; 16] = [250, 255, 0, 9, 10, 249, 251, 123, 48, 31, 7, 200, 1, 1, 1, 1];
    match draw.draw_code(Some(&raw)) {
        DrawStep::Code(code) => assert_eq!(&code, b"09093817"),
        _ => panic!("eight bytes are usable"),
    }
}

#[test]
fn a_draw_goes_on_until_there_are_eight_digits() {
    let mut draw = CodeDraw::new();
    let mut raw = [255u8; 16];
    raw[0] = 1;
    assert!(matches!(draw.draw_code(Some(&raw)), DrawStep::More));
    let more = [42u8; 16];
    match draw.draw_code(Some(&more)) {
        DrawStep::Code(code) => assert_eq!(&code, b"12222222"),
        _ => panic!("eight digits"),
    }
}

#[test]
fn a_draw_without_randomness_fails() {
    assert!(matches!(CodeDraw::new().draw_code(None), DrawStep::NoEntropy));
    let mut draw = CodeDraw::new();
    let useless = [255u8; 16];
    for _ in 0..15 {
        assert!(matches!(draw.draw_code(Some(&useless)), DrawStep::More));
    }
    assert!(matches!(draw.draw_code(Some(&useless)), DrawStep::NoEntropy));
}

#[test]
fn the_mail_carries_the_code() {
    let mail = enrolment_mail(b"a@b", b"c@d", b"12345678");
    assert_eq!(
        mail,
        b"From: a@b\r\nTo: c@d\r\nSubject: Your enrolment code\r\nContent-Type: text/plain\r\n\r\nEnrolment code: 12345678\r\n"
    );
    assert_eq!(enrolment_mail(&[b'a'; 600], b"c@d", b"12345678").len(), 512);
}

#[test]
fn transactions_are_records() {
    assert_eq!(
        write_transaction(0, b"hash", "pending"),
        br#"{"attempts":0,"code_hash":"hash","state":"pending"}"#
    );
    assert_eq!(write_consumed(), br#"{"attempts":0,"code_hash":"","state":"consumed"}"#);
    let (next, burned) = write_wrong_code(3, b"hash");
    assert_eq!(next, br#"{"attempts":4,"code_hash":"hash","state":"pending"}"#);
    assert!(!burned);
    let (next, burned) = write_wrong_code(4, b"hash");
    assert_eq!(next, br#"{"attempts":5,"code_hash":"","state":"burned"}"#);
    assert!(burned);
    assert!(write_wrong_code(u64::MAX, b"hash").1);
}

#[test]
fn a_code_is_examined() {
    let key = [5u8; 32];
    let hash = code_hash(&key, b"nonce", b"12345678");
    let pending = write_transaction(2, &hash, "pending");
    assert!(matches!(
        examine(&key, b"nonce", b"12345678", Status::Success, &pending),
        Verdict::Right
    ));
    match examine(&key, b"nonce", b"12345679", Status::Success, &pending) {
        Verdict::Wrong { attempts, stored } => {
            assert_eq!(attempts, 2);
            assert_eq!(stored, hash);
        }
        _ => panic!("the code is wrong"),
    }
    assert!(matches!(
        examine(&key, b"nonce", b"12345678", Status::NotFound, b""),
        Verdict::Absent
    ));
    assert!(matches!(
        examine(&key, b"nonce", b"12345678", Status::Unavailable, b""),
        Verdict::Unavailable
    ));
    assert!(matches!(
        examine(&key, b"nonce", b"12345678", Status::Success, br#"{"state":"pending"}"#),
        Verdict::Unavailable
    ));
    assert!(matches!(
        examine(&key, b"nonce", b"12345678", Status::Success, &write_consumed()),
        Verdict::Spent
    ));
    let burned = write_wrong_code(4, &hash).0;
    assert!(matches!(
        examine(&key, b"nonce", b"12345678", Status::Success, &burned),
        Verdict::Absent
    ));
}

#[test]
fn a_challenge_holds_what_it_was_started_with() {
    let (token, nonce) = challenge_token(r#""email":"alice@example.com""#, NOW);
    assert_eq!(nonce, encode(&[1u8; 16]));
    assert_eq!(nonce.len(), 22);
    let public = issuer().verifying_key().to_bytes();
    let claims = open_challenge(token.as_bytes(), &public).unwrap();
    let canonical = canonical_device_jwk(mailed().as_bytes()).unwrap();
    let expected = format!(
        r#"{{"aud":"https://id.example","code_challenge":"{CHALLENGE}","code_challenge_method":"S256","email_hash":"{}","exp":1700000600,"iat":1700000000,"iss":"https://id.example","nbf":1700000000,"nonce":"AQEBAQEBAQEBAQEBAQEBAQ","pubkey_hash":"{}","tenant":"{}"}}"#,
        String::from_utf8(encode_digest(b"alice@example.com")).unwrap(),
        String::from_utf8(thumbprint_from_canonical(&canonical)).unwrap(),
        String::from_utf8(kagi::jwk::tenant_id(b"seed", b"alice@example.com")).unwrap(),
    );
    assert_eq!(String::from_utf8(claims).unwrap(), expected);
    let header = token.split('.').next().unwrap();
    assert_eq!(
        decode(header.as_bytes(), 256).unwrap(),
        br#"{"alg":"EdDSA","cty":"challenge+jwt","kid":"kid-1","typ":"JWT"}"#
    );
    assert!(open_challenge(token.as_bytes(), &device().verifying_key().to_bytes()).is_none());
    assert!(open_challenge(token.as_bytes(), &public[..31]).is_none());
}

#[test]
fn starts_that_are_refused() {
    let try_start = |body: &str, drawn: Option<[u8; 16]>, code: Option<[u8; 8]>, now: Option<u64>| {
        compose_challenge(
            body.as_bytes(),
            b"https://id.example",
            b"kid-1",
            b"seed",
            drawn,
            code,
            now,
        )
        .err()
        .unwrap()
    };
    let (drawn, code) = (Some([1u8; 16]), Some(*b"12345678"));
    let both = start_body(r#""email":"a@b","transaction":"ABCDEFGHIJK""#);
    assert_eq!(try_start(&both, drawn, code, Some(NOW)), Refusal::Malformed);
    assert_eq!(try_start(&start_body(r#""x":"y""#), drawn, code, Some(NOW)), Refusal::Malformed);
    let mail_nonce = start_body(r#""transaction":"AQEBAQEBAQEBAQEBAQEBAQ""#);
    assert_eq!(try_start(&mail_nonce, drawn, code, Some(NOW)), Refusal::Malformed);
    let short = mailed().replace(CHALLENGE, "short");
    assert_eq!(try_start(&short, drawn, code, Some(NOW)), Refusal::Malformed);
    let keyless = mailed().replace("OKP", "RSA");
    assert_eq!(try_start(&keyless, drawn, code, Some(NOW)), Refusal::Malformed);
    assert_eq!(try_start(&mailed(), None, code, Some(NOW)), Refusal::NoEntropy);
    assert_eq!(try_start(&mailed(), drawn, None, Some(NOW)), Refusal::NoEntropy);
    assert_eq!(try_start(&mailed(), drawn, code, None), Refusal::NoKey);
    assert_eq!(try_start(&mailed(), drawn, code, Some(0)), Refusal::NoKey);
}

#[test]
fn an_adopted_transaction_needs_no_randomness() {
    let body = start_body(r#""transaction":"ABCDEFGHIJK""#);
    let draft = compose_challenge(body.as_bytes(), b"iss", b"kid", b"seed", None, None, Some(NOW))
        .ok()
        .unwrap();
    assert!(draft.adopted);
    assert_eq!(draft.nonce, b"ABCDEFGHIJK");
    assert!(draft.code.is_empty());
}

fn redeem_error(body: &str, now: Option<u64>) -> Refusal {
    compose_certificate(
        body.as_bytes(),
        &issuer().verifying_key().to_bytes(),
        b"https://id.example",
        b"kid-1",
        b"seed",
        now,
    )
    .err()
    .unwrap()
}

#[test]
fn redemptions_that_are_refused() {
    let (token, _) = challenge_token(r#""email":"alice@example.com""#, NOW);
    let good = redeem_body(&token, "12345678", VERIFIER, &device());
    assert_eq!(redeem_error(&good.replace("12345678", "1234567"), Some(NOW)), Refusal::Malformed);
    assert_eq!(redeem_error(&good.replace("12345678", "1234567x"), Some(NOW)), Refusal::Malformed);
    assert_eq!(redeem_error(&good.replace(VERIFIER, "short"), Some(NOW)), Refusal::Malformed);
    assert_eq!(redeem_error(&good.replace("pop_sig", "pop"), Some(NOW)), Refusal::Malformed);
    assert_eq!(redeem_error(&good, None), Refusal::BadChallenge);
    assert_eq!(redeem_error(&good, Some(NOW + 600)), Refusal::BadChallenge);
    assert_eq!(redeem_error(&good, Some(NOW - 61)), Refusal::BadChallenge);
    let forged = redeem_body(&token.replace("challenge", "x"), "12345678", VERIFIER, &device());
    assert_eq!(redeem_error(&forged.replace(&token, "a.b.c"), Some(NOW)), Refusal::BadChallenge);
    let other = VERIFIER.replace('d', "e");
    assert_eq!(redeem_error(&good.replace(VERIFIER, &other), Some(NOW)), Refusal::PkceMismatch);
    let thief = SigningKey::from_bytes(&[33u8; 32]);
    let stolen = redeem_body(&token, "12345678", VERIFIER, &thief);
    assert_eq!(redeem_error(&stolen, Some(NOW)), Refusal::BadPossession);
    let (other_token, _) = challenge_token(r#""email":"alice@example.com""#, NOW + 1);
    let sig = |t: &str| String::from_utf8(encode(&device().sign(t.as_bytes()).to_bytes())).unwrap();
    let lifted = good.replace(&sig(&token), &sig(&other_token));
    assert_eq!(redeem_error(&lifted, Some(NOW)), Refusal::BadPossession);
}

#[test]
fn a_certificate_is_not_a_challenge() {
    let (token, _) = challenge_token(r#""email":"alice@example.com""#, NOW);
    let body = redeem_body(&token, "12345678", VERIFIER, &device());
    let public = issuer().verifying_key().to_bytes();
    let draft = compose_certificate(
        body.as_bytes(),
        &public,
        b"https://id.example",
        b"kid-1",
        b"seed",
        Some(NOW + 599),
    )
    .ok()
    .unwrap();
    let signature = issuer().sign(&draft.input).to_bytes();
    let certificate = jose::close_jws(&draft.input, &signature, 2048).unwrap();
    assert!(open_challenge(&certificate, &public).is_none());
    let again = redeem_body(
        std::str::from_utf8(&certificate).unwrap(),
        "12345678",
        VERIFIER,
        &device(),
    );
    assert_eq!(redeem_error(&again, Some(NOW)), Refusal::BadChallenge);
}

#[test]
fn a_certificate_says_what_was_proved() {
    let (token, nonce) = challenge_token(r#""email":"alice@example.com""#, NOW);
    let body = redeem_body(&token, "12345678", VERIFIER, &device());
    let draft = compose_certificate(
        body.as_bytes(),
        &issuer().verifying_key().to_bytes(),
        b"https://id.example",
        b"kid-1",
        b"seed",
        Some(NOW),
    )
    .ok()
    .unwrap();
    let canonical = canonical_device_jwk(body.as_bytes()).unwrap();
    let id = String::from_utf8(device_id_from_canonical(&canonical)).unwrap();
    assert_eq!(draft.nonce, nonce);
    assert_eq!(draft.code, b"12345678");
    assert_eq!(draft.device_id, format!("dev_{id}").as_bytes());
    let c = &draft.claims;
    assert_eq!(claim_str(c, b"jkt").unwrap(), thumbprint_from_canonical(&canonical));
    assert_eq!(claim_str(c, b"device_id").unwrap(), draft.device_id);
    assert_eq!(claim_str(c, b"email_hash").unwrap(), encode_digest(b"alice@example.com"));
    assert_eq!(claim_array_raw(c, b"amr").unwrap(), br#"["email","pop"]"#);
    assert_eq!(claim_str(c, b"key_binding").unwrap(), b"software");
    assert_eq!(claim_u64(c, b"exp"), Some(NOW + 2_592_000));
    assert_eq!(claim_u64(c, b"iat"), Some(NOW));
    assert_eq!(claim_str(c, b"iss").unwrap(), b"https://id.example");
    let tenant = kagi::jwk::tenant_id(b"seed", b"alice@example.com");
    assert_eq!(
        claim_str(c, b"sub").unwrap(),
        format!("tenant_{}", String::from_utf8(tenant).unwrap()).as_bytes()
    );
    assert_eq!(claim_str(c, b"status"), None);
    assert_eq!(claim_str(c, b"totp_secret"), None);
}

#[test]
fn possession_is_proved_with_the_devices_own_key() {
    let canonical = canonical_device_jwk(mailed().as_bytes()).unwrap();
    let signature = device().sign(b"message").to_bytes();
    assert!(verify_device_possession(&canonical, b"message", &signature));
    assert!(!verify_device_possession(&canonical, b"other", &signature));
}

const HELD: &[u8] = br#"{"cnf":{"jkt":"thumb"},"device_id":"dev_1","email_hash":"eh","amr":["email","pop"],"key_binding":"software","exp":9,"iat":8,"iss":"i","sub":"tenant_1"}"#;

#[test]
fn a_device_record_keeps_what_it_held() {
    let record = write_device_record(HELD, b"MZXW6", false, 0).unwrap();
    assert_eq!(
        String::from_utf8(record).unwrap(),
        r#"{"cnf":{"jkt":"thumb"},"device_id":"dev_1","email_hash":"eh","iss":"i","sub":"tenant_1","key_binding":"software","exp":9,"iat":8,"amr":["email","pop"],"totp_secret":"MZXW6","totp_confirmed":"false","totp_counter":0}"#
    );
    let again = write_device_record(
        &write_device_record(HELD, b"MZXW6", false, 0).unwrap(),
        b"MZXW6",
        true,
        77,
    )
    .unwrap();
    assert_eq!(claim_str(&again, b"jkt"), Some(&b"thumb"[..]));
    assert_eq!(claim_str(&again, b"totp_confirmed"), Some(&b"true"[..]));
    assert_eq!(claim_u64(&again, b"totp_counter"), Some(77));
    assert_eq!(claim_array_raw(&again, b"amr").unwrap(), br#"["email","pop"]"#);
}

#[test]
fn a_device_record_that_cannot_be_written() {
    assert!(write_device_record(HELD, b"a\"b", false, 0).is_none());
    assert!(write_device_record(HELD, &[b'A'; 1536], false, 0).is_none());
    let bare = write_device_record(b"{}", b"A", false, 0).unwrap();
    assert_eq!(bare, br#"{"totp_secret":"A","totp_confirmed":"false","totp_counter":0}"#);
}

#[test]
fn a_confirming_code_is_taken_once() {
    let secret = [4u8; 32];
    let text = kagi::base32::base32_encode(&secret);
    let record = write_device_record(HELD, &text, false, 0).unwrap();
    let step = NOW / 30;
    let code = format!("{:06}", hotp(&secret, step));
    let matched = verify_presented_code(code.as_bytes(), &text, &record, NOW);
    assert_eq!(matched, Some(step));
    let confirmed = write_device_record(&record, &text, true, step).unwrap();
    assert_eq!(verify_presented_code(code.as_bytes(), &text, &confirmed, NOW), None);
    let next = format!("{:06}", hotp(&secret, step + 1));
    assert_eq!(
        verify_presented_code(next.as_bytes(), &text, &confirmed, NOW + 30),
        Some(step + 1)
    );
    assert_eq!(verify_presented_code(b"12345", &text, &record, NOW), None);
    assert_eq!(verify_presented_code(code.as_bytes(), b"not base32", &record, NOW), None);
}

#[test]
fn header_values_are_stripped_of_blanks() {
    assert_eq!(trim_ws(b" \ta b\r "), b"a b");
    assert_eq!(trim_ws(b"\x0ca"), b"\x0ca");
    assert_eq!(trim_ws(b" \t"), b"");
    let block = b"X: 1\r\nAuthorization:  DPoP abc \r\n";
    assert_eq!(header_value(block, b"authorization"), Some(&b"DPoP abc"[..]));
    assert_eq!(header_value(block, b"dpop"), None);
    assert_eq!(strip_dpop_scheme(b"dPoP  abc"), Some(&b"abc"[..]));
    assert_eq!(strip_dpop_scheme(b"Bearer abc"), None);
}

#[test]
fn routes() {
    assert_eq!(route(b"/start"), Route::Start);
    assert_eq!(route(b"/redeem?x"), Route::Redeem);
    assert_eq!(route(b"/authenticators/totp"), Route::Register);
    assert_eq!(route(b"/authenticators/totp/confirm"), Route::Confirm);
    assert_eq!(route(b"/"), Route::Nothing);
}

#[test]
fn requests_that_go_nowhere() {
    let mut e = endpoint();
    assert!(matches!(e.handle_request(b"short"), RequestStep::Ignore));
    let status = |step: RequestStep| match step {
        RequestStep::Reply(reply) => reply.status,
        _ => panic!("no reply"),
    };
    assert_eq!(status(e.handle_request(&request("/nothing", "", ""))), 404);
    let mut get = request("/start", "", "");
    get[4] = 1;
    assert_eq!(status(e.handle_request(&get)), 405);
    let whole = request("/start", "", "{}");
    assert_eq!(status(e.handle_request(&whole[..whole.len() - 1])), 400);
    e.drain_key(&record("other"), None);
    assert_eq!(status(e.handle_request(&request("/start", "", "{}"))), 503);
    assert_eq!(e.enrol_no_key, 1);
}

#[test]
fn keys_that_are_taken() {
    let e = endpoint();
    assert!(!e.takes_key(&record("enrol")));
    assert!(e.takes_key(&record("another")));
    assert!(!e.takes_key(&KeyRecord { suite: Some(Suite::Es256), ..record("another") }));
    assert!(!e.takes_key(&KeyRecord { profile_id: 3, ..record("another") }));
    assert!(!e.takes_key(&KeyRecord { key_use: KeyUse::Verify, ..record("another") }));
    assert!(!e.takes_key(&KeyRecord { kid: Vec::new(), ..record("another") }));
    assert!(!e.takes_key(&record("a label that is longer than what fits")));
}

#[test]
fn the_code_key_survives_a_restart() {
    assert_eq!(endpoint().code_key, endpoint().code_key);
    assert_ne!(endpoint().code_key, [0u8; 32]);
}

/// Start with a mailbox, up to the challenge that is handed over.
fn started(e: &mut Enrollment) -> (String, Vec<u8>, Vec<u8>) {
    let (conn, stream, body) = match e.handle_request(&request("/start", "", &mailed())) {
        RequestStep::Start { conn, stream, body } => (conn, stream, body),
        _ => panic!("a start"),
    };
    let draft = match e.start(conn, stream, &body, Some([1u8; 16]), Some(*b"24681357"), Some(NOW)) {
        StartStep::Sign(draft) => draft,
        StartStep::Reply(_) => panic!("a draft"),
    };
    let signature = issuer().sign(&draft.input).to_bytes();
    let (ask, entry) = asked(e.begin_start(conn, stream, draft, Some(&signature)));
    assert_eq!(ask.op, LedgerOp::PutIfAbsent);
    assert_eq!(ask.namespace, Namespace::Transaction);
    assert_eq!(ask.expires_at, NOW + 600);
    let corr = ask.correlation;
    assert!(matches!(e.dispatch(entry, Sent::Written), Step::Idle));
    let (mail, reply) = match e.drain_state(&answer(corr, Status::Success, b""), Some(NOW)) {
        Step::Mail { mail, reply } => (mail, reply),
        _ => panic!("a mail"),
    };
    assert_eq!(mail.to, b"alice@example.com");
    assert_eq!(mail.from, b"no-reply@id.example");
    assert!(String::from_utf8(mail.text).unwrap().ends_with("Enrolment code: 24681357\r\n"));
    assert_eq!((reply.conn, reply.stream, reply.status), (9, 2, 200));
    let token = claim_str(&reply.body, b"challenge_token").unwrap().to_vec();
    (String::from_utf8(token).unwrap(), ask.key, ask.value)
}

/// Bring a challenge back, up to the question for its transaction.
fn looked_up(e: &mut Enrollment, token: &str, code: &str) -> u32 {
    let body = redeem_body(token, code, VERIFIER, &device());
    let (conn, stream, body) = match e.handle_request(&request("/redeem", "", &body)) {
        RequestStep::Redeem { conn, stream, body } => (conn, stream, body),
        _ => panic!("a redemption"),
    };
    let draft = match e.redeem(conn, stream, &body, Some(NOW + 5)) {
        RedeemStep::Sign(draft) => draft,
        RedeemStep::Reply(_) => panic!("a draft"),
    };
    let signature = issuer().sign(&draft.input).to_bytes();
    let (ask, entry) = asked(e.begin_lookup(conn, stream, draft, Some(&signature)));
    assert_eq!(ask.op, LedgerOp::Get);
    assert_eq!(entry.stage, Stage::Lookup);
    let corr = ask.correlation;
    assert!(matches!(e.dispatch(entry, Sent::Written), Step::Idle));
    corr
}

#[test]
fn a_device_enrols() {
    let mut e = endpoint();
    let (token, nonce, value) = started(&mut e);
    assert_eq!(nonce, encode(&[1u8; 16]));
    let corr = looked_up(&mut e, &token, "24681357");
    let (spend, entry) = asked(e.drain_state(&answer(corr, Status::Success, &value), Some(NOW)));
    assert_eq!(spend.op, LedgerOp::CompareAndSwap);
    assert_eq!(spend.etag, b"etag");
    assert_eq!(spend.value, write_consumed());
    let corr = spend.correlation;
    assert!(matches!(e.dispatch(entry, Sent::Written), Step::Idle));
    let (commit, entry) = asked(e.drain_state(&answer(corr, Status::Success, b""), Some(NOW)));
    assert_eq!((commit.op, commit.namespace), (LedgerOp::PutIfAbsent, Namespace::Device));
    assert_eq!(claim_str(&commit.value, b"device_id").unwrap(), commit.key);
    assert_eq!(commit.expires_at, 0);
    let corr = commit.correlation;
    assert!(matches!(e.dispatch(entry, Sent::Written), Step::Idle));
    let reply = reply_of(e.drain_state(&answer(corr, Status::Success, b""), Some(NOW)));
    assert_eq!(reply.status, 200);
    let certificate = claim_str(&reply.body, b"device_certificate").unwrap();
    let payload = jose::split(certificate).unwrap().payload_b64;
    assert_eq!(decode(payload, 1024).unwrap(), commit.value);
    assert_eq!((e.enrol_started, e.enrol_redeemed, e.enrol_recorded), (2, 2, 1));
}

#[test]
fn wrong_codes_cost_attempts_and_then_the_transaction() {
    let mut e = endpoint();
    let (token, _, mut value) = started(&mut e);
    for n in 1..=5u64 {
        let corr = looked_up(&mut e, &token, "00000000");
        let (ask, reply) = match e.drain_state(&answer(corr, Status::Success, &value), Some(NOW)) {
            Step::Note { ask, reply } => (ask, reply),
            _ => panic!("a note"),
        };
        assert_eq!((reply.status, &reply.body[..]), (401, CODE_BODY.as_bytes()));
        assert_eq!(claim_u64(&ask.value, b"attempts"), Some(n));
        value = ask.value;
    }
    assert_eq!(claim_str(&value, b"state"), Some(&b"burned"[..]));
    assert_eq!((e.enrol_code_bad, e.enrol_txn_burned), (5, 1));
    let corr = looked_up(&mut e, &token, "24681357");
    let reply = reply_of(e.drain_state(&answer(corr, Status::Success, &value), Some(NOW)));
    assert_eq!((reply.status, &reply.body[..]), (401, CODE_BODY.as_bytes()));
    assert_eq!((e.enrol_code_bad, e.enrol_replayed), (6, 0));
}

#[test]
fn a_spent_transaction_says_so() {
    let mut e = endpoint();
    let (token, _, _) = started(&mut e);
    let corr = looked_up(&mut e, &token, "24681357");
    let spent = answer(corr, Status::Success, &write_consumed());
    let reply = reply_of(e.drain_state(&spent, Some(NOW)));
    assert_eq!((reply.status, &reply.body[..]), (409, CONSUMED_BODY.as_bytes()));
    assert_eq!((e.enrol_code_bad, e.enrol_replayed), (0, 1));
}

#[test]
fn a_wrong_code_leaves_the_right_one_good() {
    let mut e = endpoint();
    let (token, _, value) = started(&mut e);
    let corr = looked_up(&mut e, &token, "00000000");
    let after = match e.drain_state(&answer(corr, Status::Success, &value), Some(NOW)) {
        Step::Note { ask, .. } => ask.value,
        _ => panic!("a note"),
    };
    let corr = looked_up(&mut e, &token, "24681357");
    let (ask, _) = asked(e.drain_state(&answer(corr, Status::Success, &after), Some(NOW)));
    assert_eq!(ask.value, write_consumed());
}

#[test]
fn a_missing_transaction_looks_like_a_wrong_code() {
    let mut e = endpoint();
    let (token, _, _) = started(&mut e);
    let corr = looked_up(&mut e, &token, "24681357");
    let reply = reply_of(e.drain_state(&answer(corr, Status::NotFound, b""), Some(NOW)));
    assert_eq!((reply.status, &reply.body[..]), (401, CODE_BODY.as_bytes()));
    let corr = looked_up(&mut e, &token, "24681357");
    let reply = reply_of(e.drain_state(&answer(corr, Status::Unavailable, b""), Some(NOW)));
    assert_eq!((reply.status, &reply.body[..]), (503, UNAVAILABLE_BODY.as_bytes()));
}

#[test]
fn of_two_redemptions_one_wins() {
    let mut e = endpoint();
    let (token, _, value) = started(&mut e);
    let corr = looked_up(&mut e, &token, "24681357");
    let (spend, entry) = asked(e.drain_state(&answer(corr, Status::Success, &value), Some(NOW)));
    e.dispatch(entry, Sent::Written);
    let lost = answer(spend.correlation, Status::Conflict, b"");
    let reply = reply_of(e.drain_state(&lost, Some(NOW)));
    assert_eq!((reply.status, &reply.body[..]), (409, CONSUMED_BODY.as_bytes()));
    assert_eq!(e.enrol_replayed, 1);
}

#[test]
fn no_certificate_without_a_record() {
    let mut e = endpoint();
    let (token, _, value) = started(&mut e);
    let corr = looked_up(&mut e, &token, "24681357");
    let (spend, entry) = asked(e.drain_state(&answer(corr, Status::Success, &value), Some(NOW)));
    e.dispatch(entry, Sent::Written);
    let spent = answer(spend.correlation, Status::Success, b"");
    let (commit, entry) = asked(e.drain_state(&spent, Some(NOW)));
    e.dispatch(entry, Sent::Written);
    let reply = reply_of(e.drain_state(&answer(commit.correlation, Status::Full, b""), Some(NOW)));
    assert_eq!((reply.status, &reply.body[..]), (503, UNAVAILABLE_BODY.as_bytes()));
    assert_eq!(e.enrol_recorded, 0);
}

#[test]
fn replies_for_others_are_left_alone() {
    let mut e = endpoint();
    let (token, _, value) = started(&mut e);
    let corr = looked_up(&mut e, &token, "24681357");
    let other = StateReply { client: 2, ..answer(corr, Status::Success, &value) };
    assert!(matches!(e.drain_state(&other, Some(NOW)), Step::Idle));
    assert!(matches!(
        e.drain_state(&answer(corr + 100, Status::Success, &value), Some(NOW)),
        Step::Idle
    ));
    assert!(matches!(
        e.drain_state(&answer(corr, Status::Success, &value), Some(NOW)),
        Step::Ask { .. }
    ));
    assert!(matches!(
        e.drain_state(&answer(corr, Status::Success, &value), Some(NOW)),
        Step::Idle
    ));
}

#[test]
fn a_fifth_redemption_is_refused() {
    let mut e = endpoint();
    let (token, _, _) = started(&mut e);
    for _ in 0..4 {
        looked_up(&mut e, &token, "24681357");
    }
    let entry = Pending { stage: Stage::Lookup, conn: 3, ..Pending::zero() };
    let reply = reply_of(e.dispatch(entry, Sent::Written));
    assert_eq!((reply.conn, reply.status), (3, 503));
    assert_eq!(e.enrol_state_unavailable, 1);
}

#[test]
fn a_commit_that_does_not_fit_is_not_counted() {
    let mut e = endpoint();
    let entry = || Pending { stage: Stage::Commit, ..Pending::zero() };
    assert_eq!(reply_of(e.dispatch(entry(), Sent::Unencodable)).status, 503);
    assert_eq!(e.enrol_state_unavailable, 0);
    assert_eq!(reply_of(e.dispatch(entry(), Sent::Unwritten)).status, 503);
    assert_eq!(e.enrol_state_unavailable, 1);
}

#[test]
fn an_operators_authorisation_is_adopted() {
    let mut e = endpoint();
    let step = e.mint_authorisation(77, 3600, Some([2u8; 8]), Some(*b"11223344"), Some(NOW));
    let (ask, entry) = asked(step);
    assert_eq!(ask.key.len(), 11);
    assert_eq!(ask.expires_at, NOW + 300);
    e.dispatch(entry, Sent::Written);
    let grant = match e.drain_state(&answer(ask.correlation, Status::Success, b""), Some(NOW)) {
        Step::Operator(reply) => {
            assert_eq!(reply.correlation, 77);
            reply.grant.unwrap()
        }
        _ => panic!("an answer to the operator"),
    };
    assert_eq!(grant.secret, b"11223344");
    assert_eq!(grant.expires_at, NOW + 300);
    let id = String::from_utf8(grant.auth_id).unwrap();
    let body = start_body(&format!(r#""transaction":"{id}""#));
    let draft = match e.start(1, 1, body.as_bytes(), None, None, Some(NOW)) {
        StartStep::Sign(draft) => draft,
        StartStep::Reply(_) => panic!("a draft"),
    };
    let signature = issuer().sign(&draft.input).to_bytes();
    let reply = reply_of(e.begin_start(1, 1, draft, Some(&signature)));
    let token = String::from_utf8(claim_str(&reply.body, b"challenge_token").unwrap().to_vec()).unwrap();
    let corr = looked_up(&mut e, &token, "11223344");
    let (spend, _) = asked(e.drain_state(&answer(corr, Status::Success, &ask.value), Some(NOW)));
    assert_eq!(spend.key, ask.key);
    assert_eq!(spend.value, write_consumed());
}

#[test]
fn an_operator_is_told_no() {
    let denied = |step: Step| match step {
        Step::Operator(reply) => reply.correlation == 7 && reply.grant.is_none(),
        _ => false,
    };
    let mut e = endpoint();
    let code = Some(*b"11223344");
    assert!(denied(e.mint_authorisation(7, 60, None, code, Some(NOW))));
    assert!(denied(e.mint_authorisation(7, 60, Some([2u8; 8]), None, Some(NOW))));
    assert!(denied(e.mint_authorisation(7, 60, Some([2u8; 8]), code, None)));
    assert!(denied(e.mint_authorisation(7, 60, Some([2u8; 8]), code, Some(0))));
    let (ask, entry) = asked(e.mint_authorisation(7, 60, Some([2u8; 8]), code, Some(NOW)));
    assert_eq!(ask.expires_at, NOW + 60);
    assert!(denied(e.dispatch(entry, Sent::Unwritten)));
    let (ask, entry) = asked(e.mint_authorisation(7, 0, Some([2u8; 8]), code, Some(NOW)));
    assert_eq!(ask.expires_at, NOW + 300);
    e.dispatch(entry, Sent::Written);
    assert!(denied(e.drain_state(&answer(ask.correlation, Status::Conflict, b""), Some(NOW))));
    e.drain_key(&record("x"), None);
    assert!(denied(e.mint_authorisation(7, 60, Some([2u8; 8]), code, Some(NOW))));
}

#[test]
fn a_start_without_a_ledger_or_a_signature() {
    let mut e = endpoint();
    let draft = |e: &mut Enrollment| {
        match e.start(1, 1, mailed().as_bytes(), Some([1; 16]), Some([48; 8]), Some(NOW)) {
            StartStep::Sign(draft) => draft,
            StartStep::Reply(_) => panic!("a draft"),
        }
    };
    let unsigned = draft(&mut e);
    assert_eq!(reply_of(e.begin_start(1, 1, unsigned, None)).status, 400);
    assert_eq!((e.enrol_malformed, e.enrol_started), (1, 0));
    e.state_wired = false;
    let signed = draft(&mut e);
    let reply = reply_of(e.begin_start(1, 1, signed, Some(&[0u8; 64])));
    assert_eq!((reply.status, &reply.body[..]), (503, UNAVAILABLE_BODY.as_bytes()));
    assert_eq!((e.enrol_started, e.enrol_state_unavailable), (1, 1));
}

#[test]
fn a_start_whose_transaction_was_not_written() {
    let mut e = endpoint();
    let entry = Pending { stage: Stage::Start, corr: 5, ..Pending::zero() };
    assert!(matches!(e.dispatch(entry, Sent::Written), Step::Idle));
    let reply = reply_of(e.drain_state(&answer(5, Status::Conflict, b""), Some(NOW)));
    assert_eq!((reply.status, &reply.body[..]), (503, UNAVAILABLE_BODY.as_bytes()));
    e.submit_mail(true);
    e.submit_mail(false);
    e.drain_mail(true);
    e.drain_mail(false);
    assert_eq!((e.enrol_mail_submitted, e.enrol_mail_failed), (1, 2));
}

fn totp_ask(e: &mut Enrollment, confirming: bool, code: &str) -> TotpAsk {
    let path = if confirming { "/authenticators/totp/confirm" } else { "/authenticators/totp" };
    let headers = "Authorization: DPoP cert\r\nDPoP: proof\r\n";
    match e.handle_request(&request(path, headers, &format!(r#"{{"code":"{code}"}}"#))) {
        RequestStep::Totp(ask) => ask,
        _ => panic!("about an authenticator"),
    }
}

#[test]
fn an_authenticator_is_registered_and_confirmed() {
    let mut e = endpoint();
    let ask = totp_ask(&mut e, false, "");
    assert_eq!((&ask.credential[..], &ask.proof[..]), (&b"cert"[..], &b"proof"[..]));
    assert!(e.totp_route(&ask, Some(NOW)).is_none());
    let secret = [4u8; 32];
    let (read, entry) = asked(e.authenticate_device(&ask, Some(HELD), Some(secret)));
    assert_eq!((read.op, read.namespace), (LedgerOp::Get, Namespace::Device));
    assert_eq!(read.key, b"dev_1");
    e.dispatch(entry, Sent::Written);
    let (write, entry) =
        asked(e.drain_state(&answer(read.correlation, Status::Success, HELD), Some(NOW)));
    assert_eq!((write.op, &write.key[..]), (LedgerOp::CompareAndSwap, &b"dev_1"[..]));
    let record = write.value.clone();
    assert_eq!(claim_str(&record, b"totp_confirmed"), Some(&b"false"[..]));
    e.dispatch(entry, Sent::Written);
    let reply =
        reply_of(e.drain_state(&answer(write.correlation, Status::Success, b""), Some(NOW)));
    assert_eq!(
        String::from_utf8(reply.body).unwrap(),
        format!(
            r#"{{"secret":"{}","algorithm":"SHA256","digits":6,"period":30,"confirmed":false}}"#,
            String::from_utf8(kagi::base32::base32_encode(&secret)).unwrap()
        )
    );
    let code = format!("{:06}", hotp(&secret, NOW / 30));
    let ask = totp_ask(&mut e, true, &code);
    let (read, entry) = asked(e.authenticate_device(&ask, Some(HELD), None));
    e.dispatch(entry, Sent::Written);
    let (write, entry) =
        asked(e.drain_state(&answer(read.correlation, Status::Success, &record), Some(NOW)));
    assert_eq!(claim_str(&write.value, b"totp_confirmed"), Some(&b"true"[..]));
    assert_eq!(claim_u64(&write.value, b"totp_counter"), Some(NOW / 30));
    e.dispatch(entry, Sent::Written);
    let reply =
        reply_of(e.drain_state(&answer(write.correlation, Status::Success, b""), Some(NOW)));
    assert_eq!((reply.status, &reply.body[..]), (200, &br#"{"confirmed":true}"#[..]));
    assert_eq!((e.enrol_totp_registered, e.enrol_totp_confirmed), (1, 1));
}

#[test]
fn authenticator_requests_that_are_refused() {
    let mut e = endpoint();
    let ask = totp_ask(&mut e, false, "");
    assert_eq!(e.totp_route(&ask, None).unwrap().status, 503);
    let bare = TotpAsk { credential: Vec::new(), ..totp_ask(&mut e, false, "") };
    assert_eq!(e.totp_route(&bare, Some(NOW)).unwrap().status, 401);
    assert_eq!(reply_of(e.authenticate_device(&ask, None, Some([4; 32]))).status, 401);
    assert_eq!(reply_of(e.authenticate_device(&ask, Some(b"{}"), Some([4; 32]))).status, 401);
    assert_eq!(reply_of(e.authenticate_device(&ask, Some(HELD), None)).status, 500);
    let codeless = totp_ask(&mut e, true, "");
    assert_eq!(reply_of(e.authenticate_device(&codeless, Some(HELD), None)).status, 400);
    e.state_wired = false;
    assert_eq!(reply_of(e.authenticate_device(&ask, Some(HELD), Some([4; 32]))).status, 503);
}

fn read_authenticator(e: &mut Enrollment, confirming: bool, status: Status, value: &[u8], now: Option<u64>) -> Step {
    let ask = totp_ask(e, confirming, "123456");
    let (read, entry) = asked(e.authenticate_device(&ask, Some(HELD), Some([4; 32])));
    e.dispatch(entry, Sent::Written);
    e.drain_state(&answer(read.correlation, status, value), now)
}

#[test]
fn authenticators_that_are_not_there_or_are_already() {
    let mut e = endpoint();
    let registered = write_device_record(HELD, b"MZXW6", false, 0).unwrap();
    let at = Some(NOW);
    assert_eq!(reply_of(read_authenticator(&mut e, false, Status::NotFound, b"", at)).status, 401);
    assert_eq!(reply_of(read_authenticator(&mut e, false, Status::Full, b"", at)).status, 503);
    assert_eq!(
        reply_of(read_authenticator(&mut e, false, Status::Success, &registered, at)).status,
        409
    );
    assert_eq!(reply_of(read_authenticator(&mut e, true, Status::Success, HELD, at)).status, 404);
    assert_eq!(
        reply_of(read_authenticator(&mut e, true, Status::Success, &registered, None)).status,
        503
    );
    let step = read_authenticator(&mut e, true, Status::Success, &registered, at);
    let wrong = reply_of(step);
    assert_eq!((wrong.status, e.enrol_totp_bad_code), (401, 1));
    let (write, entry) = asked(read_authenticator(&mut e, false, Status::Success, HELD, at));
    e.dispatch(entry, Sent::Written);
    let lost = answer(write.correlation, Status::Conflict, b"");
    assert_eq!(reply_of(e.drain_state(&lost, at)).status, 409);
    assert_eq!(e.enrol_totp_conflict, 2);
}

#[test]
fn an_inbox_is_one_tenant_in_any_case() {
    let enrolled = |email: &str| {
        let (token, _) = challenge_token(&format!(r#""email":"{email}""#), NOW);
        enrolled_under(&token)
    };
    let lower = enrolled("alice@example.com");
    assert_eq!(lower, enrolled("Alice@Example.COM"));
    assert_ne!(lower, enrolled("alicia@example.com"));
}

fn enrolled_under(token: &str) -> Vec<u8> {
    let body = redeem_body(token, "12345678", VERIFIER, &device());
    let draft = compose_certificate(
        body.as_bytes(),
        &issuer().verifying_key().to_bytes(),
        b"https://id.example",
        b"kid-1",
        b"seed",
        Some(NOW),
    )
    .ok()
    .unwrap();
    claim_str(&draft.claims, b"sub").unwrap().to_vec()
}

#[test]
fn a_challenge_that_names_no_tenant() {
    let (token, _) = challenge_token(r#""email":"alice@example.com""#, NOW);
    let public = issuer().verifying_key().to_bytes();
    let claims = String::from_utf8(open_challenge(token.as_bytes(), &public).unwrap()).unwrap();
    let short = format!("{}}}", &claims[..claims.find(r#","tenant""#).unwrap()]);
    let header = token.split('.').next().unwrap();
    let input = format!("{header}.{}", String::from_utf8(encode(short.as_bytes())).unwrap());
    let signature = issuer().sign(input.as_bytes()).to_bytes();
    let resigned = jose::close_jws(input.as_bytes(), &signature, 2048).unwrap();
    let tenant = kagi::jwk::tenant_id(b"seed", &encode_digest(b"alice@example.com"));
    assert_eq!(
        enrolled_under(std::str::from_utf8(&resigned).unwrap()),
        format!("tenant_{}", String::from_utf8(tenant).unwrap()).as_bytes()
    );
}

#[test]
fn a_bound_string_is_carried_across() {
    let held = br#"{"cnf":"key-1","jkt":"thumb","device_id":"dev_1"}"#;
    let record = write_device_record(held, b"A", false, 0).unwrap();
    assert_eq!(
        String::from_utf8(record).unwrap(),
        r#"{"cnf":"key-1","jkt":"thumb","device_id":"dev_1","totp_secret":"A","totp_confirmed":"false","totp_counter":0}"#
    );
    let alone = write_device_record(br#"{"cnf":"key-1"}"#, b"A", false, 0).unwrap();
    assert_eq!(claim_str(&alone, b"cnf"), Some(&b"key-1"[..]));
    assert_eq!(claim_str(&alone, b"jkt"), None);
}

#[test]
fn what_a_record_did_not_say_stays_unsaid() {
    let record = write_device_record(HELD, b"A", true, 3).unwrap();
    assert_eq!(claim_str(&record, b"cnf"), None);
    assert_eq!(claim_str(&record, b"status"), None);
    let bare = write_device_record(br#"{"status":"revoked"}"#, b"A", true, 3).unwrap();
    assert_eq!(claim_str(&bare, b"status"), Some(&b"revoked"[..]));
    assert_eq!(claim_str(&bare, b"jkt"), None);
    assert_eq!(claim_u64(&bare, b"exp"), None);
    assert_eq!(claim_array_raw(&bare, b"amr"), None);
}
