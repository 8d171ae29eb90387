use ed25519_dalek::{Signer, SigningKey};
use p256::ecdsa::signature::Signer as EcdsaSigner;

use kagi::base64::encode;
use kagi::crypto::{hkdf_into, hmac_sha256_into, sha256_into};
use kagi::jwk::{
    device_id_from_canonical, encode_digest, read_canonical, tenant_id, thumbprint_from_canonical,
    verify,
};
use kagi::secret_store::{aead_open, aead_seal};
use kagi::totp::{code_of_mac, hotp, parse_code, verify_totp};

fn unhex(text: &str) -> Vec<u8> {
    (0..text.len() / 2).map(|i| u8::from_str_radix(&text[2 * i..2 * i + 2], 16).unwrap()).collect()
}

#[test]
fn sha256_of_a_known_string() {
    let mut digest = [0u8; 32];
    sha256_into(b"abc", &mut digest);
    assert_eq!(
        digest.to_vec(),
        unhex("ba7816bf8f01cfea414140de5dae2223b00361a396177a9cb410ff61f20015ad")
    );
}

#[test]
fn hmac_of_a_known_string() {
    assert_eq!(
        hmac_sha256_into(b"Jefe", b"what do ya want for nothing?", 32),
        unhex("5bdcc146bf60754e6a042426089575c75a003f089d2739839dec58b964ec3843")
    );
    assert_eq!(hmac_sha256_into(b"Jefe", b"what do ya want for nothing?", 4), unhex("5bdcc146"));
    assert_eq!(hmac_sha256_into(b"Jefe", b"", 64).len(), 32);
}

#[test]
fn hkdf_of_known_input() {
    let mut okm = [0u8; 32];
    hkdf_into(
        &unhex("000102030405060708090a0b0c"),
        &[0x0b; 22],
        &unhex("f0f1f2f3f4f5f6f7f8f9"),
        &mut okm,
    );
    assert_eq!(
        okm.to_vec(),
        unhex("3cb25f25faacd57a90434f64d0362f2a2d2d0a90cf1a5a4c5db02d56ecc4c5bf")
    );
}

#[test]
fn sealing_a_known_block() {
    let (key, nonce) = ([0u8; 32], [0u8; 12]);
    let mut data = vec![0u8; 16];
    let tag = aead_seal(&key, &nonce, b"", &mut data);
    assert_eq!(data, unhex("cea7403d4d606b6e074ec5d3baf39d18"));
    assert_eq!(tag.to_vec(), unhex("d0d1c8a799996bf0265b98b5d48ab919"));
    assert!(aead_open(&key, &nonce, b"", &mut data, &tag));
    assert_eq!(data, vec![0u8; 16]);
}

#[test]
fn what_was_sealed_opens_only_as_it_was() {
    let (key, nonce) = ([7u8; 32], [9u8; 12]);
    let mut data = b"a secret".to_vec();
    let tag = aead_seal(&key, &nonce, b"about", &mut data);
    assert_ne!(data, b"a secret");
    let mut copy = data.clone();
    assert!(!aead_open(&key, &nonce, b"elsewhere", &mut copy, &tag));
    let mut copy = data.clone();
    copy[0] ^= 1;
    assert!(!aead_open(&key, &nonce, b"about", &mut copy, &tag));
    let mut bad = tag;
    bad[15] ^= 1;
    let mut copy = data.clone();
    assert!(!aead_open(&key, &nonce, b"about", &mut copy, &bad));
    assert!(aead_open(&key, &nonce, b"about", &mut data, &tag));
    assert_eq!(data, b"a secret");
}

#[test]
fn a_thumbprint_of_a_known_key() {
    let spelled = br#"{"x":"11qYAYKxCrfVS_7TyWQHOg7hcvPapiMlrwIaaPcHURo","use":"sig","kty":"OKP","crv":"Ed25519"}"#;
    let canonical = read_canonical(spelled).unwrap();
    assert_eq!(
        canonical,
        br#"{"crv":"Ed25519","kty":"OKP","x":"11qYAYKxCrfVS_7TyWQHOg7hcvPapiMlrwIaaPcHURo"}"#
    );
    assert_eq!(
        thumbprint_from_canonical(&canonical),
        b"kPrK_qmxVWaYVA9wwBF6Iuo3vVzz7TxHCTwXBygrS4k"
    );
    assert_eq!(device_id_from_canonical(&canonical), b"kPrK_qmxVWaYVA9wwBF6Iu");
    assert_eq!(encode_digest(b"abc"), b"ungWv48Bz-pBQUDeXa4iI7ADYaOWF3qctBD_YfIAFa0");
}

#[test]
fn keys_of_no_known_kind_have_no_canonical_form() {
    assert!(read_canonical(br#"{"kty":"RSA","n":"x","e":"y"}"#).is_none());
    assert!(read_canonical(br#"{"crv":"P-256","kty":"EC","x":"a"}"#).is_none());
    assert!(read_canonical(br#"{"crv":"Ed25519","x":"a"}"#).is_none());
    let long = format!(r#"{{"crv":"Ed25519","kty":"OKP","x":"{}"}}"#, "a".repeat(129));
    assert!(read_canonical(long.as_bytes()).is_none());
}

#[test]
fn a_tenant_is_derived_from_the_secret() {
    let one = tenant_id(b"secret", b"Alice@Example.com");
    assert_eq!(one.len(), 22);
    assert_eq!(one, tenant_id(b"secret", b"alice@example.com"));
    assert_ne!(one, tenant_id(b"other", b"alice@example.com"));
    assert_ne!(one, tenant_id(b"secret", b"bob@example.com"));
}

#[test]
fn an_ed25519_signature_of_a_known_key() {
    let public = unhex("3d4017c3e843895a92b70aa74d1b7ebc9c982ccf2ec4968cc0cd55f12af4660c");
    let signature = unhex(
        "92a009a9f0d4cab8720e820b5f642540a2b27b5416503f8fb3762223ebdb69da\
         085ac1e43e15996e458f3613d0f11d8c387b2eaeb4302aeeb00d291612bb0c00",
    );
    let x = String::from_utf8(encode(&public)).unwrap();
    let canonical = format!(r#"{{"crv":"Ed25519","kty":"OKP","x":"{x}"}}"#);
    assert!(verify(canonical.as_bytes(), &[0x72], &signature));
    assert!(!verify(canonical.as_bytes(), &[0x73], &signature));
    assert!(!verify(canonical.as_bytes(), &[0x72], &signature[..63]));
    let mut bad = signature.clone();
    bad[0] ^= 1;
    assert!(!verify(canonical.as_bytes(), &[0x72], &bad));
}

#[test]
fn signatures_of_both_kinds() {
    let key = SigningKey::from_bytes(&[3u8; 32]);
    let x = String::from_utf8(encode(&key.verifying_key().to_bytes())).unwrap();
    let canonical = format!(r#"{{"crv":"Ed25519","kty":"OKP","x":"{x}"}}"#);
    let signature = Signer::sign(&key, b"message").to_bytes();
    assert!(verify(canonical.as_bytes(), b"message", &signature));

    let key = p256::ecdsa::SigningKey::from_slice(&[5u8; 32]).unwrap();
    let point = key.verifying_key().to_encoded_point(false);
    let x = String::from_utf8(encode(point.x().unwrap())).unwrap();
    let y = String::from_utf8(encode(point.y().unwrap())).unwrap();
    let canonical = format!(r#"{{"crv":"P-256","kty":"EC","x":"{x}","y":"{y}"}}"#);
    let signature: p256::ecdsa::Signature = EcdsaSigner::sign(&key, b"message");
    assert!(verify(canonical.as_bytes(), b"message", &signature.to_bytes()));
    assert!(!verify(canonical.as_bytes(), b"massage", &signature.to_bytes()));
    let swapped = format!(r#"{{"crv":"P-256","kty":"EC","x":"{y}","y":"{x}"}}"#);
    assert!(!verify(swapped.as_bytes(), b"message", &signature.to_bytes()));
    assert!(!verify(br#"{"kty":"oct"}"#, b"message", &signature.to_bytes()));
}

#[test]
fn one_time_codes_of_a_known_secret() {
    let secret = b"12345678901234567890123456789012";
    assert_eq!(hotp(secret, 1), 119246);
    assert_eq!(hotp(secret, 37037036), 84774);
    assert_eq!(parse_code(b"084774"), Some(84774));
    assert_eq!(parse_code(b"84774"), None);
    assert_eq!(parse_code(b"08477a"), None);
    let mut mac = [0u8; 32];
    mac[31] = 1;
    mac[1] = 0x81;
    mac[4] = 7;
    assert_eq!(code_of_mac(&mac), (0x0100_0007) % 1_000_000);
}

#[test]
fn a_code_holds_for_three_steps_and_once() {
    let secret = b"12345678901234567890123456789012";
    let code = hotp(secret, 37037036);
    let start = 37037036 * 30;
    assert_eq!(verify_totp(secret, code, start, None), Some(37037036));
    assert_eq!(verify_totp(secret, code, start + 59, None), Some(37037036));
    assert_eq!(verify_totp(secret, code, start - 30, None), Some(37037036));
    assert_eq!(verify_totp(secret, code, start + 60, None), None);
    assert_eq!(verify_totp(secret, code, start - 31, None), None);
    assert_eq!(verify_totp(secret, code, start, Some(37037035)), Some(37037036));
    assert_eq!(verify_totp(secret, code, start, Some(37037036)), None);
    assert_eq!(verify_totp(secret, code + 1, start, None), None);
}
