//! The cryptographic primitives, behind names for what they compute.
use aes_gcm::aead::{AeadInPlace, KeyInit};
use aes_gcm::Aes256Gcm;
use ed25519_dalek::Verifier;
use hkdf::Hkdf;
use hmac::{Hmac, Mac};
use p256::ecdsa::signature::hazmat::PrehashVerifier;
use sha2::{Digest, Sha256};
use vstd::prelude::*;

verus! {

/// The SHA-256 digest of `data`.
pub uninterp spec fn sha256(data: Seq<u8>) -> Seq<u8>;

/// The HMAC-SHA-256 of `message` under `key`.
pub uninterp spec fn hmac_sha256(key: Seq<u8>, message: Seq<u8>) -> Seq<u8>;

/// The first 32 bytes of HKDF-SHA-256 over `ikm`, under `salt` and for `info`.
pub uninterp spec fn hkdf_sha256(salt: Seq<u8>, ikm: Seq<u8>, info: Seq<u8>) -> Seq<u8>;

/// What AES-256-GCM makes of `data`: the ciphertext and the tag.
pub uninterp spec fn gcm_sealed(key: Seq<u8>, nonce: Seq<u8>, aad: Seq<u8>, data: Seq<u8>) -> (
    Seq<u8>,
    Seq<u8>,
);

/// What AES-256-GCM makes of a ciphertext and its tag: the plaintext, or nothing where the tag
/// does not hold.
pub uninterp spec fn gcm_opened(
    key: Seq<u8>,
    nonce: Seq<u8>,
    aad: Seq<u8>,
    data: Seq<u8>,
    tag: Seq<u8>,
) -> Option<Seq<u8>>;

/// Whether `signature` is an ECDSA signature (r and s, fixed width) of the digest `hash` under
/// the SEC1 P-256 point `public`.
pub uninterp spec fn ecdsa_valid(public: Seq<u8>, hash: Seq<u8>, signature: Seq<u8>) -> bool;

/// Whether `signature` is an Ed25519 signature of `message` under `public`.
pub uninterp spec fn ed25519_valid(public: Seq<u8>, message: Seq<u8>, signature: Seq<u8>) -> bool;

/// `sha2::Sha256::digest`: the digest of `data`, which is 32 bytes.
#[verifier::external_body]
pub(crate) fn digest(data: &[u8]) -> (r: [u8; 32])
    ensures
        r@ == sha256(data@),
{
    Sha256::digest(data).into()
}

/// `hmac::Hmac<Sha256>` over one message: it takes a key of any length.
#[verifier::external_body]
pub(crate) fn authenticate(key: &[u8], message: &[u8]) -> (r: [u8; 32])
    ensures
        r@ == hmac_sha256(key@, message@),
{
    let mut mac = <Hmac<Sha256> as Mac>::new_from_slice(key).expect("any key length");
    mac.update(message);
    mac.finalize().into_bytes().into()
}

/// `hkdf::Hkdf<Sha256>`, extract and then expand to 32 bytes, which is never too many.
#[verifier::external_body]
pub(crate) fn derive(salt: &[u8], ikm: &[u8], info: &[u8]) -> (r: [u8; 32])
    ensures
        r@ == hkdf_sha256(salt@, ikm@, info@),
{
    let mut okm = [0u8; 32];
    Hkdf::<Sha256>::new(Some(salt), ikm).expand(info, &mut okm).expect("one block");
    okm
}

/// `aes_gcm::Aes256Gcm::encrypt_in_place_detached`: `data` becomes the ciphertext, as long as
/// the plaintext was, and the tag is handed back. Under the same key, nonce and associated data
/// the two open to the plaintext again. The bounds are below those that it refuses.
#[verifier::external_body]
pub(crate) fn seal(key: &[u8; 32], nonce: &[u8; 12], aad: &[u8], data: &mut Vec<u8>) -> (r: [u8; 16])
    requires
        old(data)@.len() <= 0x1_0000_0000,
        aad@.len() <= 0x1_0000_0000,
    ensures
        gcm_sealed(key@, nonce@, aad@, old(data)@) == (final(data)@, r@),
        gcm_opened(key@, nonce@, aad@, final(data)@, r@) == Some(old(data)@),
        final(data)@.len() == old(data)@.len(),
{
    let cipher = Aes256Gcm::new(key.into());
    cipher.encrypt_in_place_detached(nonce.into(), aad, data).expect("within bounds").into()
}

/// `aes_gcm::Aes256Gcm::decrypt_in_place_detached`: where the tag holds, `data` becomes the
/// plaintext, as long as the ciphertext was; where it does not, `data` stays as it was.
#[verifier::external_body]
pub(crate) fn open(
    key: &[u8; 32],
    nonce: &[u8; 12],
    aad: &[u8],
    data: &mut Vec<u8>,
    tag: &[u8; 16],
) -> (r: bool)
    requires
        old(data)@.len() <= 0x1_0000_0000,
        aad@.len() <= 0x1_0000_0000,
    ensures
        gcm_opened(key@, nonce@, aad@, old(data)@, tag@) == (if r {
            Some(final(data)@)
        } else {
            None
        }),
        final(data)@.len() == old(data)@.len(),
        !r ==> final(data)@ == old(data)@,
{
    let cipher = Aes256Gcm::new(key.into());
    cipher.decrypt_in_place_detached(nonce.into(), aad, data, tag.into()).is_ok()
}

/// `p256::ecdsa::VerifyingKey::verify_prehash` on the key and the signature that the two
/// strings hold; a string that holds none is answered `false`.
#[verifier::external_body]
pub(crate) fn ecdsa_verify(public: &[u8], hash: &[u8], signature: &[u8]) -> (r: bool)
    ensures
        r == ecdsa_valid(public@, hash@, signature@),
{
    let parsed = p256::ecdsa::Signature::from_slice(signature);
    p256::ecdsa::VerifyingKey::from_sec1_bytes(public)
        .and_then(|key| parsed.and_then(|sig| key.verify_prehash(hash, &sig)))
        .is_ok()
}

/// `ed25519_dalek::VerifyingKey::verify` on the key and the signature that the two strings
/// hold; a string that holds none is answered `false`.
#[verifier::external_body]
pub(crate) fn ed25519_verify(public: &[u8], message: &[u8], signature: &[u8]) -> (r: bool)
    ensures
        r == ed25519_valid(public@, message@, signature@),
{
    let parsed = ed25519_dalek::Signature::from_slice(signature);
    ed25519_dalek::VerifyingKey::try_from(public)
        .and_then(|key| parsed.and_then(|sig| key.verify(message, &sig)))
        .is_ok()
}

/// The SHA-256 digest of `data`, written to `out`.
pub fn sha256_into(data: &[u8], out: &mut [u8; 32])
    ensures
        final(out)@ == sha256(data@),
{
    *out = digest(data);
}

/// HMAC-SHA-256, cut at `limit` bytes.
pub fn hmac_sha256_into(key: &[u8], message: &[u8], limit: usize) -> (r: Vec<u8>)
    ensures
        r@ == crate::bytes::clipped(hmac_sha256(key@, message@), limit as nat),
{
    let mac = authenticate(key, message);
    crate::bytes::copy_field(mac.as_slice(), limit)
}

/// HKDF-SHA-256, 32 bytes of it.
pub fn hkdf_into(salt: &[u8], ikm: &[u8], info: &[u8], okm: &mut [u8; 32])
    ensures
        final(okm)@ == hkdf_sha256(salt@, ikm@, info@),
{
    *okm = derive(salt, ikm, info);
}

} // verus!
