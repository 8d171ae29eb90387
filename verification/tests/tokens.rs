use ed25519_dalek::{Signer, SigningKey};
use p256::ecdsa::signature::Signer as EcdsaSigner;

use kagi::assurance::{
    amr_contains, level_from, read_evidence, read_level, with_amr, AssuranceLevel, AuthMethod,
    Evidence, KeyBinding,
};
use kagi::base64::encode;
use kagi::jose;
use kagi::keys::{advance_correlation, count, KeyRecord, KeyRef, KeyState, KeyUse, Suite};
use kagi::token_mint::{
    assurance_claims, emit, fill_slot, jose_alg, kv_key_type, write_token, ClaimValue, KeySlot,
    Mint, MintClaim, MintErr, MintRequest, MintStep, Order,
};
use kagi::token_verify::{
    fill_key, level_from_discriminant, Verifier, VerifyErr, VerifyKey, VerifyRequest, VerifyStep,
};

const NOW: u64 = 1_700_000_000;

fn record(kid: &str, suite: Suite, key_use: KeyUse, key_ref: &[u8]) -> KeyRecord {
    KeyRecord {
        issuer: b"https://id.example".to_vec(),
        profile_id: 1,
        kid: kid.as_bytes().to_vec(),
        suite: Some(suite),
        state: KeyState::Active,
        key_use,
        generation: 0,
        activate_after_unix: 0,
        remove_after_unix: 0,
        key_ref: key_ref.to_vec(),
    }
}

fn key_ref(kid: &str, arg: u64) -> KeyRef {
    KeyRef {
        issuer: b"https://id.example".to_vec(),
        profile_id: 1,
        kid: kid.as_bytes().to_vec(),
        arg,
    }
}

fn signing(kid: &str) -> KeyRecord {
    record(kid, Suite::Ed25519, KeyUse::Sign, b"label")
}

fn mint_request(kid: &str) -> MintRequest {
    MintRequest {
        suite: Some(Suite::Ed25519),
        profile_id: 1,
        kid: kid.as_bytes().to_vec(),
        ttl_seconds: 300,
        iss: b"https://id.example".to_vec(),
        sub: b"tenant_1".to_vec(),
        aud: b"api".to_vec(),
        scope: b"read".to_vec(),
        jkt: None,
        extra: Vec::new(),
    }
}

fn mint(kids: &[&str]) -> Mint {
    let mut m = Mint::new(4);
    for kid in kids {
        let step = m.apply_key_add(&signing(kid));
        let announced = m.open_slot_key(step.open.unwrap(), Some(vec![7; 32])).unwrap();
        assert_eq!(announced.key_use, KeyUse::Verify);
        assert_eq!(announced.key_ref, [7; 32]);
    }
    m
}

fn refusal(step: MintStep) -> MintErr {
    match step {
        MintStep::Refuse(why) => why,
        MintStep::Build(_) => panic!("a refusal"),
    }
}

#[test]
fn suites_have_names_and_types() {
    assert_eq!(jose_alg(Suite::Es256), "ES256");
    assert_eq!(jose_alg(Suite::Ed25519), "EdDSA");
    assert_eq!(jose_alg(Suite::MlDsa65), "ML-DSA-65");
    for suite in [Suite::Es256, Suite::Ed25519, Suite::MlDsa44, Suite::MlDsa65, Suite::MlDsa87] {
        assert_eq!(jose::from_jose_alg(jose_alg(suite).as_bytes()), Some(suite));
    }
    assert_eq!(jose::from_jose_alg(b"none"), None);
    assert_eq!((kv_key_type(Suite::Ed25519), kv_key_type(Suite::Es256)), (2, 1));
}

#[test]
fn a_mint_needs_a_vault_that_will_do() {
    assert!(Mint::module_new(1, true, 4).is_some());
    assert!(Mint::module_new(0, true, 4).is_none());
    assert!(Mint::module_new(-1, true, 4).is_none());
    assert!(Mint::module_new(1, false, 4).is_none());
}

#[test]
fn a_token_is_minted() {
    let mut m = mint(&["k1"]);
    let order = match m.handle_mint(Some(mint_request("")), Some(NOW)) {
        MintStep::Build(order) => order,
        MintStep::Refuse(_) => panic!("an order"),
    };
    assert_eq!((order.iat, order.exp), (NOW, NOW + 300));
    assert_eq!((&order.kid[..], order.alg), (&b"k1"[..], "EdDSA"));
    let (input, to_sign) =
        m.built(Suite::Ed25519, Some((b"{}".to_vec(), b"{}".to_vec()))).ok().unwrap();
    assert_eq!((&input[..], &to_sign[..]), (&b"e30.e30"[..], &b"e30.e30"[..]));
    let token = m.signed(input, Some(vec![0xfb, 0xff])).ok().unwrap();
    assert_eq!(token, b"e30.e30.-_8");
    assert_eq!((m.mint_ok, m.sign_ops, m.mint_err), (1, 1, 0));
    let (_, digest) = m.built(Suite::Es256, Some((b"{}".to_vec(), b"{}".to_vec()))).ok().unwrap();
    assert_eq!(digest.len(), 32);
}

#[test]
fn mints_that_are_refused() {
    let mut m = mint(&["k1"]);
    assert_eq!(refusal(m.handle_mint(None, Some(NOW))), MintErr::Malformed);
    let unknown = MintRequest { suite: None, ..mint_request("") };
    assert_eq!(refusal(m.handle_mint(Some(unknown), Some(NOW))), MintErr::UnsupportedSuite);
    assert_eq!(refusal(m.handle_mint(Some(mint_request("")), None)), MintErr::SignFailed);
    assert_eq!(refusal(m.handle_mint(Some(mint_request("k2")), Some(NOW))), MintErr::UnknownKid);
    let other = MintRequest { profile_id: 2, ..mint_request("") };
    assert_eq!(refusal(m.handle_mint(Some(other), Some(NOW))), MintErr::NoKey);
    let es = MintRequest { suite: Some(Suite::Es256), ..mint_request("") };
    assert_eq!(refusal(m.handle_mint(Some(es), Some(NOW))), MintErr::SuiteNotPermitted);
    assert_eq!((m.mint_err, m.no_key_errors), (4, 2));
    assert_eq!(m.built(Suite::Ed25519, None).err(), Some(MintErr::Malformed));
    let long = (vec![0; 3000], vec![0; 3000]);
    assert_eq!(m.built(Suite::Ed25519, Some(long)).err(), Some(MintErr::Malformed));
    assert_eq!(m.signed(b"a.b".to_vec(), None).err(), Some(MintErr::SignFailed));
    assert_eq!(m.signed(vec![b'a'; 4096], Some(vec![1])).err(), Some(MintErr::Malformed));
}

#[test]
fn one_key_is_active() {
    let mut m = mint(&["k1", "k2"]);
    assert!(m.activate(&key_ref("k2", 9)).is_some());
    assert_eq!(m.keys[0].state, KeyState::Retired);
    assert_eq!((m.keys[1].state, m.keys[1].generation), (KeyState::Active, 9));
    assert_eq!(m.select_key(&mint_request(""), NOW), Some(1));
    assert_eq!(m.select_key(&mint_request("k1"), NOW), Some(0));
    assert!(m.activate(&key_ref("k3", 9)).is_none());
}

#[test]
fn activating_a_key_leaves_other_issuers_alone() {
    let mut m = mint(&["k1"]);
    let other = KeyRecord { issuer: b"https://other.example".to_vec(), ..signing("k2") };
    m.apply_key_add(&other);
    assert!(m.activate(&key_ref("k1", 1)).is_some());
    assert_eq!(m.keys[1].state, KeyState::Active);
}

#[test]
fn retired_and_removed_keys() {
    let mut m = mint(&["k1"]);
    assert!(m.retire(&key_ref("k1", NOW + 10)).is_some());
    assert_eq!(m.select_key(&mint_request(""), NOW), None);
    assert_eq!(m.select_key(&mint_request("k1"), NOW + 9), Some(0));
    assert_eq!(m.select_key(&mint_request("k1"), NOW + 10), None);
    assert!(m.remove(&key_ref("k1", 0)).is_some());
    assert!(m.find_slot(b"https://id.example", 1, b"k1").is_none());
    assert!(m.remove(&key_ref("k1", 0)).is_none());
}

#[test]
fn a_keyset_that_is_full_gives_no_key_up() {
    let mut m = mint(&["1", "2", "3", "4", "5", "6", "7", "8"]);
    let step = m.apply_key_add(&signing("9"));
    assert!(step.close.is_none() && step.open.is_none());
    let again = m.apply_key_add(&signing("3"));
    assert_eq!((again.close, again.open), (Some(2), Some(2)));
    assert!(m.open_slot_key(2, None).is_none());
    assert!(!m.keys[2].live);
}

#[test]
fn a_snapshot_is_taken_whole() {
    let mut m = mint(&["k1"]);
    let bad = KeyRecord { kid: Vec::new(), ..signing("x") };
    assert!(!m.apply_snapshot(&vec![signing("k2"), bad]));
    assert!(m.find_slot(b"https://id.example", 1, b"k1").is_some());
    assert!(m.apply_snapshot(&vec![signing("k2")]));
    assert!(m.find_slot(b"https://id.example", 1, b"k1").is_none());
    assert!(m.find_slot(b"https://id.example", 1, b"k2").is_some());
    let nine: Vec<KeyRecord> = (0..9).map(|n| signing(&format!("k{n}"))).collect();
    assert!(!m.apply_snapshot(&nine));
}

#[test]
fn slots_hold_signing_keys_only() {
    let mut slot = KeySlot::empty();
    assert!(!fill_slot(&mut slot, &record("k", Suite::Ed25519, KeyUse::Verify, b"label")));
    assert!(!slot.live);
    assert!(fill_slot(&mut slot, &signing("k")));
    assert!(slot.matches(b"https://id.example", 1, b"k"));
    assert!(!slot.matches(b"https://id.example", 2, b"k"));
}

#[test]
fn mint_responses() {
    assert_eq!(emit(5, 0, 1, 3, b"tok"), b"\x05\0\0\0\0\x01\x03\0\0\0\x03\0tok");
    assert_eq!(emit(5, 0, 1, 3, &[0; 5000]).len(), 10);
}

// Verification.

fn ed_key() -> SigningKey {
    SigningKey::from_bytes(&[17u8; 32])
}

fn checker() -> Verifier {
    let mut v = Verifier::new();
    let public = ed_key().verifying_key().to_bytes();
    assert!(v.add_key(&record("k1", Suite::Ed25519, KeyUse::Verify, &public)).is_some());
    v
}

fn token(header: &str, claims: &str) -> Vec<u8> {
    let input = jose::write_signing_input(header.as_bytes(), claims.as_bytes());
    let signature = Signer::sign(&ed_key(), &input).to_bytes();
    jose::close_jws(&input, &signature, 4096).unwrap()
}

const CLAIMS: &str = r#"{"iss":"https://id.example","sub":"tenant_1","aud":"api","scope":"read","cnf":{"jkt":"thumb"},"iat":1700000000,"exp":1700000300,"amr":["pop","swk"],"jti":"t1"}"#;
const HEADER: &str = r#"{"alg":"EdDSA","kid":"k1"}"#;

fn verify(v: &mut Verifier, credential: Vec<u8>, now: Option<u64>) -> VerifyStep {
    let request = VerifyRequest {
        credential,
        expected_issuer: b"https://id.example".to_vec(),
        expected_audience: b"api".to_vec(),
        expected_profile: Some(1),
        min_assurance: 0,
    };
    v.handle_verify(9, Some(request), now)
}

fn why(step: VerifyStep) -> VerifyErr {
    match step {
        VerifyStep::Refuse(why) => why,
        VerifyStep::Score(_) => panic!("a refusal"),
    }
}

#[test]
fn a_token_is_verified() {
    let mut v = checker();
    let verified = match verify(&mut v, token(HEADER, CLAIMS), Some(NOW + 1)) {
        VerifyStep::Score(verified) => verified,
        VerifyStep::Refuse(_) => panic!("a token that holds"),
    };
    assert_eq!(verified.claimed, None);
    let id = v.scored(verified, AssuranceLevel::Aal1, false).ok().unwrap();
    assert_eq!((id.correlation, id.profile_id, &id.kid[..]), (9, 1, &b"k1"[..]));
    assert_eq!((&id.subject[..], &id.key_thumbprint[..]), (&b"tenant_1"[..], &b"thumb"[..]));
    assert_eq!((id.issued_at, id.expires_at, id.auth_time), (NOW, NOW + 300, NOW));
    assert_eq!((&id.scope[..], &id.credential_id[..]), (&b"read"[..], &b"t1"[..]));
    assert_eq!(id.application, CLAIMS.as_bytes());
    assert!(id.evidence.pop && id.evidence.swk && !id.evidence.otp);
    assert_eq!(id.evidence.binding, KeyBinding::Software);
    assert_eq!(v.verify_ok, 1);
}

#[test]
fn an_es256_token_is_verified() {
    let key = p256::ecdsa::SigningKey::from_slice(&[9u8; 32]).unwrap();
    let point = key.verifying_key().to_encoded_point(false);
    let mut v = Verifier::new();
    assert!(v.add_key(&record("k1", Suite::Es256, KeyUse::Verify, point.as_bytes())).is_some());
    let header = r#"{"alg":"ES256","kid":"k1"}"#;
    let input = jose::write_signing_input(header.as_bytes(), CLAIMS.as_bytes());
    let signature: p256::ecdsa::Signature = EcdsaSigner::sign(&key, &input);
    let credential = jose::close_jws(&input, &signature.to_bytes(), 4096).unwrap();
    assert!(matches!(verify(&mut v, credential, Some(NOW)), VerifyStep::Score(_)));
}

#[test]
fn tokens_that_are_refused() {
    let mut v = checker();
    let good = token(HEADER, CLAIMS);
    let at = Some(NOW);
    assert_eq!(why(verify(&mut Verifier::new(), good.clone(), at)), VerifyErr::NoKey);
    assert_eq!(why(v.handle_verify(9, None, at)), VerifyErr::Malformed);
    assert_eq!(why(verify(&mut v, b"a.b".to_vec(), at)), VerifyErr::Malformed);
    assert_eq!(why(verify(&mut v, good.clone(), None)), VerifyErr::NoClock);
    let stranger = token(r#"{"alg":"EdDSA","kid":"k2"}"#, CLAIMS);
    assert_eq!(why(verify(&mut v, stranger, at)), VerifyErr::UnknownKid);
    let confused = token(r#"{"alg":"ES256","kid":"k1"}"#, CLAIMS);
    assert_eq!(why(verify(&mut v, confused, at)), VerifyErr::SuiteMismatch);
    let mut forged = good.clone();
    let n = forged.len() - 10;
    forged[n] = if forged[n] == b'A' { b'B' } else { b'A' };
    assert_eq!(why(verify(&mut v, forged, at)), VerifyErr::BadSignature);
    assert_eq!(why(verify(&mut v, good.clone(), Some(NOW + 300))), VerifyErr::Expired);
    assert_eq!(why(verify(&mut v, good, Some(NOW - 61))), VerifyErr::Expired);
    let padded = |n: usize| CLAIMS.replace("t1", &"x".repeat(n + 2 - CLAIMS.len()));
    assert!(matches!(verify(&mut v, token(HEADER, &padded(1024)), at), VerifyStep::Score(_)));
    let (expired, malformed) = (v.verify_expired, v.verify_malformed);
    assert_eq!(why(verify(&mut v, token(HEADER, &padded(1025)), at)), VerifyErr::Expired);
    let mut input = token(HEADER, "");
    input.truncate(encode(HEADER.as_bytes()).len() + 1);
    input.extend_from_slice(&[b'A'; 1369]);
    let signature = Signer::sign(&ed_key(), &input).to_bytes();
    let unreadable = jose::close_jws(&input, &signature, 4096).unwrap();
    assert_eq!(why(verify(&mut v, unreadable, at)), VerifyErr::Malformed);
    assert_eq!((v.verify_expired, v.verify_malformed), (expired + 1, malformed + 1));
    let elsewhere = token(HEADER, &CLAIMS.replace("id.example", "id.other"));
    assert_eq!(why(verify(&mut v, elsewhere, at)), VerifyErr::WrongIssuer);
    let other = token(HEADER, &CLAIMS.replace("api", "web"));
    assert_eq!(why(verify(&mut v, other, at)), VerifyErr::WrongAudience);
    let request = VerifyRequest {
        credential: token(HEADER, CLAIMS),
        expected_issuer: Vec::new(),
        expected_audience: Vec::new(),
        expected_profile: Some(2),
        min_assurance: 0,
    };
    assert_eq!(why(v.handle_verify(9, Some(request), at)), VerifyErr::WrongProfile);
}

fn claim(key: &str, value: ClaimValue) -> MintClaim {
    MintClaim { key: key.as_bytes().to_vec(), value }
}

fn ordered(m: &mut Mint, request: MintRequest) -> Order {
    match m.handle_mint(Some(request), Some(NOW)) {
        MintStep::Build(order) => order,
        MintStep::Refuse(_) => panic!("an order"),
    }
}

#[test]
fn tokens_are_written() {
    let mut m = mint(&["k1"]);
    let bare = ordered(&mut m, mint_request(""));
    let (header, claims) = write_token(&bare).unwrap();
    assert_eq!(header, br#"{"alg":"EdDSA","kid":"k1","typ":"JWT"}"#);
    let plain = r#""iat":1700000000,"exp":1700000300,"iss":"https://id.example","sub":"tenant_1","aud":"api","scope":"read""#;
    assert_eq!(String::from_utf8(claims).unwrap(), format!("{{{plain}}}"));
    let rich = MintRequest {
        jkt: Some(b"thumb".to_vec()),
        extra: vec![
            claim("acr", ClaimValue::Str(b"aal1".to_vec())),
            claim("auth_time", ClaimValue::U64(7)),
            claim("first", ClaimValue::Bool(true)),
            claim("amr", ClaimValue::Raw(br#"["pop"]"#.to_vec())),
        ],
        ..mint_request("")
    };
    let (_, claims) = write_token(&ordered(&mut m, rich)).unwrap();
    assert_eq!(
        String::from_utf8(claims).unwrap(),
        format!(
            r#"{{"cnf":{{"jkt":"thumb"}},{plain},"acr":"aal1","auth_time":7,"first":true,"amr":["pop"]}}"#
        )
    );
    let proved = MintRequest {
        extra: assurance_claims(br#"["otp"]"#, b"aal2", 9),
        ..mint_request("")
    };
    let (_, claims) = write_token(&ordered(&mut m, proved)).unwrap();
    assert_eq!(
        String::from_utf8(claims).unwrap(),
        format!(r#"{{{plain},"amr":["otp"],"acr":"aal2","auth_time":9}}"#)
    );
    let quoted = MintRequest { sub: b"a\"b".to_vec(), ..mint_request("") };
    assert!(write_token(&ordered(&mut m, quoted)).is_none());
    let keyed = MintRequest {
        extra: vec![claim("a\\", ClaimValue::U64(1))],
        ..mint_request("")
    };
    let order = ordered(&mut m, keyed);
    assert_eq!(m.compose(&order).err(), Some(MintErr::Malformed));
    let long = MintRequest { sub: vec![b'a'; 4096], ..mint_request("") };
    assert!(write_token(&ordered(&mut m, long)).is_none());
}

#[test]
fn a_minted_token_verifies() {
    let mut m = mint(&["k1"]);
    let request = MintRequest {
        jkt: Some(b"thumb".to_vec()),
        extra: vec![claim("sub", ClaimValue::Str(b"somebody else".to_vec()))],
        ..mint_request("")
    };
    let order = ordered(&mut m, request);
    let (input, to_sign) = m.compose(&order).ok().unwrap();
    assert_eq!(input, to_sign);
    let signature = Signer::sign(&ed_key(), &to_sign).to_bytes().to_vec();
    let token = m.signed(input, Some(signature)).ok().unwrap();
    let mut v = checker();
    let verified = match verify(&mut v, token, Some(NOW + 299)) {
        VerifyStep::Score(verified) => verified,
        VerifyStep::Refuse(_) => panic!("a token that holds"),
    };
    let id = v.scored(verified, AssuranceLevel::Aal1, false).ok().unwrap();
    assert_eq!((&id.subject[..], &id.audience[..]), (&b"tenant_1"[..], &b"api"[..]));
    assert_eq!((&id.scope[..], &id.key_thumbprint[..]), (&b"read"[..], &b"thumb"[..]));
    assert_eq!((id.issued_at, id.expires_at), (NOW, NOW + 300));
}

#[test]
fn assurance_is_required() {
    let mut v = checker();
    let mut score = |claims: &str, floor: u8, presented: AssuranceLevel, supports: bool| {
        let request = VerifyRequest {
            credential: token(HEADER, claims),
            expected_issuer: Vec::new(),
            expected_audience: Vec::new(),
            expected_profile: None,
            min_assurance: floor,
        };
        match v.handle_verify(9, Some(request), Some(NOW)) {
            VerifyStep::Score(verified) => v.scored(verified, presented, supports).err(),
            VerifyStep::Refuse(_) => panic!("a token that holds"),
        }
    };
    assert_eq!(score(CLAIMS, 0, AssuranceLevel::Aal1, false), None);
    assert_eq!(score(CLAIMS, 1, AssuranceLevel::Aal2, false), None);
    let low = Some(VerifyErr::InsufficientAssurance);
    assert_eq!(score(CLAIMS, 1, AssuranceLevel::Aal1, false), low);
    assert_eq!(score(CLAIMS, 3, AssuranceLevel::Aal3, true), low);
    let claiming = CLAIMS.replace(r#""jti""#, r#""acr":"aal2","jti""#);
    assert_eq!(score(&claiming, 0, AssuranceLevel::Aal1, false), low);
    assert_eq!(score(&claiming, 0, AssuranceLevel::Aal2, true), None);
}

#[test]
fn verifying_keys_are_held_by_name() {
    let mut v = checker();
    assert!(v.find_key(b"https://id.example", 1, b"k1").is_some());
    assert!(v.retire(&key_ref("k1", NOW + 10)).is_some());
    assert_eq!(v.select_key(b"k1", NOW + 9), Some(0));
    assert_eq!(v.select_key(b"k1", NOW + 10), None);
    assert!(v.activate(&key_ref("k1", 3)).is_some());
    assert!(v.remove(&key_ref("k1", 0)).is_some());
    assert!(v.find_key(b"https://id.example", 1, b"k1").is_none());
    let mut slot = VerifyKey::empty();
    assert!(!fill_key(&mut slot, &record("k", Suite::Ed25519, KeyUse::Verify, &[0; 31])));
    assert!(!fill_key(&mut slot, &record("k", Suite::Ed25519, KeyUse::Sign, &[0; 32])));
    assert!(!fill_key(&mut slot, &record("k", Suite::MlDsa44, KeyUse::Verify, &[0; 32])));
    assert!(fill_key(&mut slot, &record("k", Suite::Es256, KeyUse::Verify, &[0; 65])));
    assert!(!v.apply_snapshot(&vec![record("k", Suite::Ed25519, KeyUse::Sign, &[0; 32])]));
    assert!(v.apply_snapshot(&vec![record("k", Suite::Ed25519, KeyUse::Verify, &[0; 32])]));
    assert_eq!(level_from_discriminant(2), Some(AssuranceLevel::Aal3));
    assert_eq!(level_from_discriminant(3), None);
}

#[test]
fn levels_and_evidence() {
    assert_eq!(level_from(b"aal2"), Some(AssuranceLevel::Aal2));
    assert_eq!(level_from(b"aal4"), None);
    assert_eq!(read_level(br#"{"acr":"aal3"}"#), Some(AssuranceLevel::Aal3));
    assert_eq!(read_level(b"{}"), None);
    assert!(AssuranceLevel::Aal2.reaches(AssuranceLevel::Aal1));
    assert!(!AssuranceLevel::Aal1.reaches(AssuranceLevel::Aal2));
    let one = read_evidence(br#"{"amr":["otp","email"],"auth_time":7}"#);
    let two = read_evidence(br#"{"amr":["email","otp"],"auth_time":7}"#);
    assert!(one.otp && one.email && two.otp && two.email && !two.pop);
    assert_eq!(one.auth_time, 7);
    assert!(amr_contains(br#"{"amr":["otp"]}"#, AuthMethod::Otp));
    assert!(!amr_contains(br#"{"amr":["otp"]}"#, AuthMethod::Pop));
    let e = with_amr(Evidence::at(3).with(AuthMethod::Pop), br#"{"amr":["hwk","user"]}"#);
    assert!(e.pop && e.hwk && e.user_verified);
    assert_eq!(e.binding, KeyBinding::Hardware);
    assert!(Evidence::at(3).with_amr_name(b"webauthn").phishing_resistant);
    assert_eq!(AuthMethod::Webauthn.as_str(), "webauthn");
}

#[test]
fn correlations_and_counters() {
    assert_eq!(advance_correlation(7), 8);
    assert_eq!(advance_correlation(u32::MAX), 1);
    let mut n = u32::MAX - 1;
    count(&mut n);
    count(&mut n);
    assert_eq!(n, u32::MAX);
}
