//! Device authentication: a credential that an issuer signed, and a proof that whoever presents
//! it holds the key that it is bound to. The signatures are checked before what they sign is
//! read, and a proof is recorded as spent only once it has been found good.
use vstd::prelude::*;
use vstd::slice::slice_to_vec;

use crate::base64;
use crate::bytes;
use crate::claims;
use crate::claims::{claim_is, claim_number_or, claim_or_empty, claim_str, claim_u64};
use crate::crypto;
use crate::crypto::sha256_into;
use crate::e2ee_credential_endpoint;
use crate::e2ee_credential_endpoint::canonical_jwk_of;
use crate::jose;
use crate::jwk;
use crate::keys::Suite;
use crate::replay::{Replay, ReplayWindow};
use crate::token_verify;
use crate::token_verify::{signature_verifies, Verifier, VerifyKey};

verus! {

/// Longest header or payload, decoded.
pub const MAX_SEGMENT: usize = 1024;

/// The letters that the longest payload is encoded in.
pub const MAX_PAYLOAD_B64: usize = 1366;

/// How a presentation failed.
#[derive(Clone, Copy, Debug, PartialEq, Eq, Structural)]
pub enum AuthError {
    /// The proof holds, but by another key than the credential's.
    NotBound,
    Proof,
    /// The proof was seen already, or could not be recorded.
    Replay,
    Credential,
    Overflow,
}

/// What a credential and its proof are held to.
pub struct Policy {
    pub proof_max_age_secs: u64,
    pub clock_skew_secs: u64,
    /// The content type that the credential has to name, where it has to name one.
    pub expected_cty: Option<&'static str>,
}

/// A credential, a proof, and the request that the proof is for.
pub struct Presentation<'a> {
    pub credential: &'a [u8],
    pub proof: &'a [u8],
    pub method: &'a [u8],
    pub uri: &'a [u8],
}

/// The key that a credential has to be signed with. A suite that is neither ES256 nor Ed25519
/// verifies nothing here.
pub struct IssuerKey {
    pub suite: Option<Suite>,
    pub public: Vec<u8>,
}

/// An issuer's key, as bytes.
pub struct Issuer {
    pub suite: Option<Suite>,
    pub public: Seq<u8>,
}

pub open spec fn issuer_of(key: Option<IssuerKey>) -> Option<Issuer> {
    match key {
        Some(k) => Some(Issuer { suite: k.suite, public: k.public@ }),
        None => None,
    }
}

/// What is presented, as bytes.
pub struct Shown {
    pub credential: Seq<u8>,
    pub proof: Seq<u8>,
    pub method: Seq<u8>,
    pub uri: Seq<u8>,
}

impl<'a> Presentation<'a> {
    pub open spec fn shown(self) -> Shown {
        Shown {
            credential: self.credential@,
            proof: self.proof@,
            method: self.method@,
            uri: self.uri@,
        }
    }
}

/// What a device certificate and its proof are held to: five minutes for a proof, a minute between
/// clocks, and a device certificate and nothing else.
pub open spec fn certificate_policy() -> Policy {
    Policy { proof_max_age_secs: 300, clock_skew_secs: 60, expected_cty: Some("dc+jwt") }
}

pub fn device_certificates() -> (r: Policy)
    ensures
        r == certificate_policy(),
{
    Policy { proof_max_age_secs: 300, clock_skew_secs: 60, expected_cty: Some("dc+jwt") }
}

/// What an access token and its proof are held to: it names no content type.
pub open spec fn token_policy() -> Policy {
    Policy { proof_max_age_secs: 300, clock_skew_secs: 60, expected_cty: None }
}

pub fn access_tokens() -> (r: Policy)
    ensures
        r == token_policy(),
{
    Policy { proof_max_age_secs: 300, clock_skew_secs: 60, expected_cty: None }
}

/// What a good presentation establishes.
pub struct Held {
    /// The claims of the credential.
    pub claims: Vec<u8>,
    /// The thumbprint of the key that it is bound to.
    pub thumbprint: Vec<u8>,
    /// The digest of the proof's identifier.
    pub proof_id: [u8; 32],
}

/// The decoded header of a token.
pub open spec fn header(token: Seq<u8>) -> Option<Seq<u8>> {
    match jose::parts(token) {
        Some(p) => base64::decoded(p.0, 1024),
        None => None,
    }
}

/// The decoded payload of a token.
pub open spec fn payload(token: Seq<u8>) -> Option<Seq<u8>> {
    match jose::parts(token) {
        Some(p) => base64::decoded(p.1, 1024),
        None => None,
    }
}

/// The kid that a credential names in its header.
pub open spec fn kid_of(credential: Seq<u8>) -> Option<Seq<u8>> {
    match header(credential) {
        Some(h) => claims::text_claim(h, bytes::text("kid")),
        None => None,
    }
}

/// The kid that a credential names in its header.
pub fn credential_kid(credential: &[u8]) -> (r: Option<Vec<u8>>)
    ensures
        match r {
            Some(kid) => kid_of(credential@) == Some(kid@),
            None => kid_of(credential@) is None,
        },
{
    match jose::split(credential) {
        Some(jws) => match base64::decode(jws.header_b64, MAX_SEGMENT) {
            Some(h) => match claim_str(h.as_slice(), "kid".as_bytes()) {
                Some(kid) => Some(slice_to_vec(kid)),
                None => None,
            },
            None => None,
        },
        None => None,
    }
}

/// The key that a credential names, where it is held. No other key stands in for it.
pub open spec fn named_key(keys: Seq<VerifyKey>, credential: Seq<u8>, now: u64) -> Option<Issuer> {
    match kid_of(credential) {
        Some(kid) => match token_verify::selected(keys, kid, now) {
            Some(i) => Some(Issuer { suite: keys[i].suite, public: keys[i].pubkey@ }),
            None => None,
        },
        None => None,
    }
}

/// The key that a credential names. It is looked up, never guessed.
pub fn select_issuer(keys: &Verifier, credential: &[u8], now: u64) -> (r: Option<IssuerKey>)
    ensures
        issuer_of(r) == named_key(keys.keys@, credential@, now),
{
    match credential_kid(credential) {
        Some(kid) => match keys.select_key(kid.as_slice(), now) {
            Some(slot) => Some(
                IssuerKey {
                    suite: keys.keys[slot].suite,
                    public: slice_to_vec(keys.keys[slot].pubkey.as_slice()),
                },
            ),
            None => None,
        },
        None => None,
    }
}

/// The header of a credential names the algorithm of its key, and the content type that is asked
/// for.
pub open spec fn header_fits(h: Seq<u8>, suite: Option<Suite>, cty: Option<&'static str>) -> bool {
    &&& suite is Some
    &&& jose::suite_of_alg(claims::text_or_empty(h, bytes::text("alg"))) == suite
    &&& cty is Some ==> claims::text_claim(h, bytes::text("cty")) == Some(bytes::text(cty->0))
}

/// The claims are inside their window.
pub open spec fn in_window(json: Seq<u8>, now: u64, skew: u64) -> bool {
    jose::live(
        now,
        claims::number_or(json, bytes::text("iat"), 0),
        claims::number_or(json, bytes::text("exp"), 0),
        skew,
    )
}

/// The credential was signed by the key, is of the kind that is asked for, and is inside its
/// window.
pub open spec fn credential_holds(key: Issuer, credential: Seq<u8>, policy: Policy, now: u64) -> bool {
    &&& header(credential) matches Some(h)
    &&& header_fits(h, key.suite, policy.expected_cty)
    &&& token_verify::signature_holds(credential, key.suite, key.public)
    &&& payload(credential) matches Some(json)
    &&& in_window(json, now, policy.clock_skew_secs)
}

/// What is wrong with a credential.
pub open spec fn credential_fault(
    issuer: Option<Issuer>,
    credential: Seq<u8>,
    policy: Policy,
    now: u64,
) -> Option<AuthError> {
    if issuer is None || jose::parts(credential) is None {
        Some(AuthError::Credential)
    } else if (jose::parts(credential)->0).1.len() > 1366 {
        Some(AuthError::Overflow)
    } else if credential_holds(issuer->0, credential, policy, now) {
        None
    } else {
        Some(AuthError::Credential)
    }
}

/// The key that a proof carries in its own header, in its canonical form.
pub open spec fn proof_key(proof: Seq<u8>) -> Option<Seq<u8>> {
    match header(proof) {
        Some(h) => e2ee_credential_endpoint::member_key(h, bytes::text("jwk")),
        None => None,
    }
}

/// The proof is signed by the key that it carries, in the way of that key.
pub open spec fn proof_signed(proof: Seq<u8>) -> bool {
    let p = jose::parts(proof)->0;
    &&& proof_key(proof) matches Some(key)
    &&& jwk::signed_by(key, jose::signing_input(p.0, p.1), base64::decoded_or_empty(p.2, 64))
}

/// The claims of a proof are for this request, and fresh: the proof was made by now, and less than
/// its greatest age ago.
pub open spec fn proof_is_for(
    json: Seq<u8>,
    method: Seq<u8>,
    uri: Seq<u8>,
    policy: Policy,
    now: u64,
) -> bool {
    &&& claims::text_claim(json, bytes::text("htm")) == Some(method)
    &&& claims::text_claim(json, bytes::text("htu")) == Some(uri)
    &&& claims::number_claim(json, bytes::text("iat")) matches Some(iat)
    &&& iat <= now < iat + policy.proof_max_age_secs
    &&& claims::text_or_empty(json, bytes::text("jti")).len() > 0
}

/// The proof is one of possession, is signed by the key that it carries, and is for this request.
pub open spec fn proof_holds(
    proof: Seq<u8>,
    method: Seq<u8>,
    uri: Seq<u8>,
    policy: Policy,
    now: u64,
) -> bool {
    &&& header(proof) matches Some(h)
    &&& claims::text_claim(h, bytes::text("typ")) == Some(bytes::text("dpop+jwt"))
    &&& proof_signed(proof)
    &&& payload(proof) matches Some(json)
    &&& proof_is_for(json, method, uri, policy, now)
}

/// The key of the proof is the one that the credential is bound to.
pub open spec fn bound(credential: Seq<u8>, proof: Seq<u8>) -> bool {
    claims::text_claim(payload(credential)->0, bytes::text("jkt")) == Some(
        jwk::thumbprint(proof_key(proof)->0),
    )
}

/// What is wrong with a presentation, before it is asked whether its proof was seen.
pub open spec fn fault(
    issuer: Option<Issuer>,
    credential: Seq<u8>,
    proof: Seq<u8>,
    method: Seq<u8>,
    uri: Seq<u8>,
    policy: Policy,
    now: u64,
) -> Option<AuthError> {
    match credential_fault(issuer, credential, policy, now) {
        Some(e) => Some(e),
        None => if !proof_holds(proof, method, uri, policy, now) {
            Some(AuthError::Proof)
        } else if !bound(credential, proof) {
            Some(AuthError::NotBound)
        } else {
            None
        },
    }
}

/// The digest by which a proof is remembered.
pub open spec fn proof_digest(proof: Seq<u8>) -> Seq<u8> {
    crypto::sha256(claims::text_or_empty(payload(proof)->0, bytes::text("jti")))
}

/// What a presentation comes to, and what it does to the window: nothing, unless it is good.
#[verifier::opaque]
pub open spec fn authenticated(
    issuer: Option<Issuer>,
    before: ReplayWindow,
    after: ReplayWindow,
    p: Shown,
    policy: Policy,
    now: u64,
    r: Result<Held, AuthError>,
) -> bool {
    match fault(issuer, p.credential, p.proof, p.method, p.uri, policy, now) {
        Some(e) => r == Err::<Held, AuthError>(e) && after == before,
        None => {
            let id = proof_digest(p.proof);
            let until = (now + policy.proof_max_age_secs) as u64;
            if before.remembers(id, now) || before.saturated(now) {
                &&& r == Err::<Held, AuthError>(AuthError::Replay)
                &&& forall|other: Seq<u8>, t: u64|
                    now <= t ==> (#[trigger] after.remembers(other, t) == before.remembers(
                        other,
                        t,
                    ))
            } else {
                &&& ReplayWindow::offered(before, after, id, now, until, Replay::Recorded)
                &&& r matches Ok(held)
                &&& held.claims@ == payload(p.credential)->0
                &&& held.thumbprint@ == jwk::thumbprint(proof_key(p.proof)->0)
                &&& held.proof_id@ == id
            }
        },
    }
}

/// The claims that a presentation shows to be held: those of its credential, where nothing is
/// wrong with it, its proof was not seen before and there is room to remember it.
pub open spec fn shown_claims(
    issuer: Option<Issuer>,
    before: ReplayWindow,
    p: Shown,
    policy: Policy,
    now: u64,
) -> Option<Seq<u8>> {
    if fault(issuer, p.credential, p.proof, p.method, p.uri, policy, now) is None
        && !before.remembers(proof_digest(p.proof), now) && !before.saturated(now) {
        Some(payload(p.credential)->0)
    } else {
        None
    }
}

/// A check answers with the claims that were shown, and with none where none were.
pub proof fn a_check_answers_what_was_shown(
    issuer: Option<Issuer>,
    before: ReplayWindow,
    after: ReplayWindow,
    p: Shown,
    policy: Policy,
    now: u64,
    r: Result<Held, AuthError>,
)
    requires
        authenticated(issuer, before, after, p, policy, now, r),
    ensures
        match r {
            Ok(held) => shown_claims(issuer, before, p, policy, now) == Some(held.claims@),
            Err(_) => shown_claims(issuer, before, p, policy, now) is None,
        },
{
    reveal(authenticated);
}

fn is_for(json: &[u8], method: &[u8], uri: &[u8], policy: &Policy, now: u64) -> (r: bool)
    ensures
        r == proof_is_for(json@, method@, uri@, *policy, now),
{
    if !claim_is(json, "htm".as_bytes(), method) || !claim_is(json, "htu".as_bytes(), uri) {
        return false;
    }
    let iat: u64 = match claim_u64(json, "iat".as_bytes()) {
        Some(iat) => iat,
        None => {
            return false;
        },
    };
    iat <= now && now - iat < policy.proof_max_age_secs && claim_or_empty(json, "jti".as_bytes()).len() > 0
}

/// The claims of a credential, where it holds under a key.
fn open_credential(
    issuer: &Option<IssuerKey>,
    credential: &[u8],
    policy: &Policy,
    now: u64,
) -> (r: Result<Vec<u8>, AuthError>)
    ensures
        match credential_fault(issuer_of(*issuer), credential@, *policy, now) {
            Some(e) => r == Err::<Vec<u8>, AuthError>(e),
            None => r matches Ok(json) && payload(credential@) == Some(json@),
        },
{
    let key = match issuer {
        Some(key) => key,
        None => {
            return Err(AuthError::Credential);
        },
    };
    let jws = match jose::split(credential) {
        Some(jws) => jws,
        None => {
            return Err(AuthError::Credential);
        },
    };
    if jws.payload_b64.len() > MAX_PAYLOAD_B64 {
        return Err(AuthError::Overflow);
    }
    let head = match base64::decode(jws.header_b64, MAX_SEGMENT) {
        Some(head) => head,
        None => {
            return Err(AuthError::Credential);
        },
    };
    let suite = key.suite;
    if suite.is_none() || jose::from_jose_alg(claim_or_empty(head.as_slice(), "alg".as_bytes()))
        != suite {
        return Err(AuthError::Credential);
    }
    match policy.expected_cty {
        Some(cty) => {
            if !claim_is(head.as_slice(), "cty".as_bytes(), cty.as_bytes()) {
                return Err(AuthError::Credential);
            }
        },
        None => {},
    }
    if !signature_verifies(&jws, suite, key.public.as_slice()) {
        return Err(AuthError::Credential);
    }
    let json = match base64::decode(jws.payload_b64, MAX_SEGMENT) {
        Some(json) => json,
        None => {
            return Err(AuthError::Credential);
        },
    };
    let iat: u64 = claim_number_or(json.as_slice(), "iat".as_bytes(), 0);
    let exp: u64 = claim_number_or(json.as_slice(), "exp".as_bytes(), 0);
    if !jose::within_window(now, iat, exp, policy.clock_skew_secs) {
        return Err(AuthError::Credential);
    }
    Ok(json)
}

/// The key of a proof and the digest of its identifier, where the proof holds for a request.
fn open_proof(
    proof: &[u8],
    method: &[u8],
    uri: &[u8],
    policy: &Policy,
    now: u64,
) -> (r: Option<(Vec<u8>, [u8; 32])>)
    ensures
        match r {
            Some(o) => {
                &&& proof_holds(proof@, method@, uri@, *policy, now)
                &&& proof_key(proof@) == Some(o.0@)
                &&& o.1@ == proof_digest(proof@)
            },
            None => !proof_holds(proof@, method@, uri@, *policy, now),
        },
{
    let jws = match jose::split(proof) {
        Some(jws) => jws,
        None => {
            return None;
        },
    };
    let head = match base64::decode(jws.header_b64, MAX_SEGMENT) {
        Some(head) => head,
        None => {
            return None;
        },
    };
    if !claim_is(head.as_slice(), "typ".as_bytes(), "dpop+jwt".as_bytes()) {
        return None;
    }
    let key = match canonical_jwk_of(head.as_slice(), "jwk".as_bytes()) {
        Some(key) => key,
        None => {
            return None;
        },
    };
    let signature = base64::decode_or_empty(jws.signature_b64, 64);
    if !jwk::verify(key.as_slice(), jws.signing_input, signature.as_slice()) {
        return None;
    }
    let json = match base64::decode(jws.payload_b64, MAX_SEGMENT) {
        Some(json) => json,
        None => {
            return None;
        },
    };
    if !is_for(json.as_slice(), method, uri, policy, now) {
        return None;
    }
    let mut digest: [u8; 32] = [0u8; 32];
    sha256_into(claim_or_empty(json.as_slice(), "jti".as_bytes()), &mut digest);
    Some((key, digest))
}

/// Check a credential and its proof, and spend the proof.
pub fn authenticate(
    issuer: &Option<IssuerKey>,
    window: &mut ReplayWindow,
    p: &Presentation<'_>,
    policy: &Policy,
    now: u64,
) -> (r: Result<Held, AuthError>)
    requires
        old(window).wf(),
        now + policy.proof_max_age_secs <= u64::MAX,
    ensures
        final(window).wf(),
        authenticated(
            issuer_of(*issuer),
            *old(window),
            *final(window),
            p.shown(),
            *policy,
            now,
            r,
        ),
{
    proof {
        reveal(authenticated);
    }
    let claims = open_credential(issuer, p.credential, policy, now)?;
    let (key, proof_id) = match open_proof(p.proof, p.method, p.uri, policy, now) {
        Some(o) => o,
        None => {
            return Err(AuthError::Proof);
        },
    };
    let thumbprint = jwk::thumbprint_from_canonical(key.as_slice());
    if !claim_is(claims.as_slice(), "jkt".as_bytes(), thumbprint.as_slice()) {
        return Err(AuthError::NotBound);
    }
    match window.offer(&proof_id, now, now + policy.proof_max_age_secs) {
        Replay::Recorded => Ok(Held { claims, thumbprint, proof_id }),
        _ => Err(AuthError::Replay),
    }
}

/// Whoever is authenticated presented a credential that was signed by the issuer and is inside
/// its window, and a proof for this request, fresh, and signed by the key that the credential is
/// bound to. The proof is spent by it.
pub proof fn authenticated_means_bound(
    issuer: Option<Issuer>,
    before: ReplayWindow,
    after: ReplayWindow,
    p: Shown,
    policy: Policy,
    now: u64,
    held: Held,
)
    requires
        authenticated(issuer, before, after, p, policy, now, Ok(held)),
        now + policy.proof_max_age_secs <= u64::MAX,
    ensures
        issuer matches Some(key) && token_verify::signature_holds(
            p.credential,
            key.suite,
            key.public,
        ),
        payload(p.credential) == Some(held.claims@),
        in_window(held.claims@, now, policy.clock_skew_secs),
        proof_signed(p.proof),
        proof_is_for(payload(p.proof)->0, p.method, p.uri, policy, now),
        held.thumbprint@ == jwk::thumbprint(proof_key(p.proof)->0),
        claims::text_claim(held.claims@, bytes::text("jkt")) == Some(held.thumbprint@),
        !before.remembers(held.proof_id@, now),
        after.remembers(held.proof_id@, now),
{
    reveal(authenticated);
}

/// A key that a credential names is one that is held, under the very kid that the credential
/// names.
pub proof fn named_means_held(keys: Seq<VerifyKey>, credential: Seq<u8>, now: u64)
    requires
        named_key(keys, credential, now) is Some,
    ensures
        exists|i: int|
            {
                &&& 0 <= i < keys.len()
                &&& (#[trigger] keys[i]).live
                &&& Some(keys[i].kid@) == kid_of(credential)
                &&& named_key(keys, credential, now) == Some(
                    Issuer { suite: keys[i].suite, public: keys[i].pubkey@ },
                )
            },
{
    let kid = kid_of(credential)->0;
    token_verify::lemma_selected_is_first(keys, kid, now, 0);
    let i = token_verify::selected(keys, kid, now)->0;
    assert(keys[i].selectable(kid, now));
}

/// A proof that is fresh now is stale by the time at which it is forgotten: whoever remembers it for
/// as long as its greatest age leaves no gap in which it could be taken again.
pub proof fn remembered_while_fresh(
    json: Seq<u8>,
    first: Shown,
    second: Shown,
    policy: Policy,
    now: u64,
    later: u64,
)
    requires
        proof_is_for(json, first.method, first.uri, policy, now),
        proof_is_for(json, second.method, second.uri, policy, later),
    ensures
        later < now + policy.proof_max_age_secs,
{
}

/// What is remembered stays so, whatever is presented: no presentation makes the window forget an
/// identifier before its time.
pub proof fn nothing_is_forgotten_early(
    issuer: Option<Issuer>,
    before: ReplayWindow,
    after: ReplayWindow,
    p: Shown,
    policy: Policy,
    now: u64,
    r: Result<Held, AuthError>,
    id: Seq<u8>,
    t: u64,
)
    requires
        authenticated(issuer, before, after, p, policy, now, r),
        now <= t,
        before.remembers(id, t),
    ensures
        after.remembers(id, t),
{
    reveal(authenticated);
}

/// One proof authenticates once, and never again: whatever else is presented with it, for whatever
/// request and however much later. `then` is the window of that time, which remembers what the
/// window remembered once the proof was taken.
pub proof fn a_proof_is_taken_once(
    before: ReplayWindow,
    between: ReplayWindow,
    then: ReplayWindow,
    after: ReplayWindow,
    one: Option<Issuer>,
    first: Shown,
    other: Option<Issuer>,
    second: Shown,
    policy: Policy,
    now: u64,
    later: u64,
    held: Held,
    r: Result<Held, AuthError>,
)
    requires
        now + policy.proof_max_age_secs <= u64::MAX,
        authenticated(one, before, between, first, policy, now, Ok(held)),
        now <= later,
        forall|id: Seq<u8>| between.remembers(id, later) ==> #[trigger] then.remembers(id, later),
        authenticated(other, then, after, second, policy, later, r),
        second.proof == first.proof,
    ensures
        r is Err,
{
    reveal(authenticated);
    if fault(
        other,
        second.credential,
        second.proof,
        second.method,
        second.uri,
        policy,
        later,
    ) is None {
        remembered_while_fresh(payload(first.proof)->0, first, second, policy, now, later);
        assert(between.remembers(held.proof_id@, later));
        assert(then.remembers(held.proof_id@, later));
    }
}

/// No other proof of the same identifier authenticates either, for as long as the first was fresh
/// at most.
pub proof fn an_identifier_is_taken_once(
    before: ReplayWindow,
    between: ReplayWindow,
    then: ReplayWindow,
    after: ReplayWindow,
    one: Option<Issuer>,
    first: Shown,
    other: Option<Issuer>,
    second: Shown,
    policy: Policy,
    now: u64,
    later: u64,
    held: Held,
    r: Result<Held, AuthError>,
)
    requires
        authenticated(one, before, between, first, policy, now, Ok(held)),
        now <= later < now + policy.proof_max_age_secs <= u64::MAX,
        forall|id: Seq<u8>| between.remembers(id, later) ==> #[trigger] then.remembers(id, later),
        authenticated(other, then, after, second, policy, later, r),
        proof_digest(second.proof) == held.proof_id@,
    ensures
        r is Err,
{
    reveal(authenticated);
    assert(between.remembers(held.proof_id@, later));
    assert(then.remembers(held.proof_id@, later));
}

/// The presentation of a device certificate is taken exactly when: the key that its header names is
/// held, the header names the algorithm of that key and says that it is a device certificate, the
/// key has signed it, it has not expired and was not issued more than a minute ahead; the proof is
/// one of possession, signed by the key that it carries, made for this method and address, by now
/// and less than five minutes ago, and has an identifier that was not seen; and the certificate is
/// bound to the key of the proof. What is held then are the claims of the certificate.
pub proof fn a_certificate_is_taken_exactly_when_it_holds(
    issuer: Option<Issuer>,
    before: ReplayWindow,
    after: ReplayWindow,
    p: Shown,
    now: u64,
    r: Result<Held, AuthError>,
    header_json: Seq<u8>,
    json: Seq<u8>,
    signature: Seq<u8>,
    proof_header: Seq<u8>,
    proof_json: Seq<u8>,
    proof_signature: Seq<u8>,
)
    requires
        authenticated(issuer, before, after, p, certificate_policy(), now, r),
        shows(p, header_json, json, signature, proof_header, proof_json, proof_signature),
    ensures
        r is Ok <==> {
            &&& claims::text_claim(header_json, bytes::text("cty")) == Some(bytes::text("dc+jwt"))
            &&& good(issuer, before, p, now, header_json, json, proof_header, proof_json, proof_signature)
        },
        r matches Ok(held) ==> held.claims@ == json && Some(held.thumbprint@)
            == claims::text_claim(json, bytes::text("jkt")),
{
    reveal(authenticated);
    lemma_shown(p, header_json, json, signature, proof_header, proof_json, proof_signature);
}

/// The presentation of an access token is taken exactly when the same holds of it, but for the kind
/// of the credential: an access token does not say one.
pub proof fn a_token_is_taken_exactly_when_it_holds(
    issuer: Option<Issuer>,
    before: ReplayWindow,
    after: ReplayWindow,
    p: Shown,
    now: u64,
    r: Result<Held, AuthError>,
    header_json: Seq<u8>,
    json: Seq<u8>,
    signature: Seq<u8>,
    proof_header: Seq<u8>,
    proof_json: Seq<u8>,
    proof_signature: Seq<u8>,
)
    requires
        authenticated(issuer, before, after, p, token_policy(), now, r),
        shows(p, header_json, json, signature, proof_header, proof_json, proof_signature),
    ensures
        r is Ok <==> good(
            issuer,
            before,
            p,
            now,
            header_json,
            json,
            proof_header,
            proof_json,
            proof_signature,
        ),
        r matches Ok(held) ==> held.claims@ == json && Some(held.thumbprint@)
            == claims::text_claim(json, bytes::text("jkt")),
{
    reveal(authenticated);
    lemma_shown(p, header_json, json, signature, proof_header, proof_json, proof_signature);
}

/// What is presented is made of these parts.
pub open spec fn shows(
    p: Shown,
    header_json: Seq<u8>,
    json: Seq<u8>,
    signature: Seq<u8>,
    proof_header: Seq<u8>,
    proof_json: Seq<u8>,
    proof_signature: Seq<u8>,
) -> bool {
    &&& p.credential == base64::encoded(header_json) + seq![46u8] + base64::encoded(json)
        + seq![46u8] + base64::encoded(signature)
    &&& p.proof == base64::encoded(proof_header) + seq![46u8] + base64::encoded(proof_json)
        + seq![46u8] + base64::encoded(proof_signature)
    &&& header_json.len() <= 1024 && json.len() <= 1024
    &&& proof_header.len() <= 1024 && proof_json.len() <= 1024 && proof_signature.len() <= 64
}

/// A credential of these parts and its proof are good, whatever the kind of the credential.
pub open spec fn good(
    issuer: Option<Issuer>,
    window: ReplayWindow,
    p: Shown,
    now: u64,
    header_json: Seq<u8>,
    json: Seq<u8>,
    proof_header: Seq<u8>,
    proof_json: Seq<u8>,
    proof_signature: Seq<u8>,
) -> bool {
    let alg = claims::text_claim(header_json, bytes::text("alg"));
    let key = e2ee_credential_endpoint::member_key(proof_header, bytes::text("jwk"));
    let jti = claims::text_claim(proof_json, bytes::text("jti"));
    &&& issuer is Some
    &&& issuer->0.suite == Some(Suite::Ed25519) && alg == Some(bytes::text("EdDSA"))
        || issuer->0.suite == Some(Suite::Es256) && alg == Some(bytes::text("ES256"))
    &&& token_verify::signature_holds(p.credential, issuer->0.suite, issuer->0.public)
    &&& claims::number_claim(json, bytes::text("exp")) is Some
    &&& now < claims::number_claim(json, bytes::text("exp"))->0
    &&& claims::number_claim(json, bytes::text("iat")) is Some ==> claims::number_claim(
        json,
        bytes::text("iat"),
    )->0 <= now + 60
    &&& claims::text_claim(proof_header, bytes::text("typ")) == Some(bytes::text("dpop+jwt"))
    &&& key is Some
    &&& jwk::signed_by(
        key->0,
        base64::encoded(proof_header) + seq![46u8] + base64::encoded(proof_json),
        proof_signature,
    )
    &&& claims::text_claim(proof_json, bytes::text("htm")) == Some(p.method)
    &&& claims::text_claim(proof_json, bytes::text("htu")) == Some(p.uri)
    &&& claims::number_claim(proof_json, bytes::text("iat")) is Some
    &&& claims::number_claim(proof_json, bytes::text("iat"))->0 <= now
    &&& now < claims::number_claim(proof_json, bytes::text("iat"))->0 + 300
    &&& jti is Some && jti->0.len() > 0
    &&& forall|i: int|
        0 <= i < window.spent@.len() && (#[trigger] window.spent@[i]).id@ == crypto::sha256(jti->0)
            ==> window.spent@[i].until <= now
    &&& window.spent@.len() != 128 || exists|i: int|
        0 <= i < 128 && (#[trigger] window.spent@[i]).until <= now
    &&& claims::text_claim(json, bytes::text("jkt")) == Some(
        base64::encoded(crypto::sha256(key->0)),
    )
}

proof fn lemma_shown(
    p: Shown,
    header_json: Seq<u8>,
    json: Seq<u8>,
    signature: Seq<u8>,
    proof_header: Seq<u8>,
    proof_json: Seq<u8>,
    proof_signature: Seq<u8>,
)
    requires
        shows(p, header_json, json, signature, proof_header, proof_json, proof_signature),
    ensures
        jose::parts(p.credential) is Some,
        jose::parts(p.proof) is Some,
        header(p.credential) == Some(header_json),
        payload(p.credential) == Some(json),
        (jose::parts(p.credential)->0).1.len() <= 1366,
        header(p.proof) == Some(proof_header),
        payload(p.proof) == Some(proof_json),
        base64::decoded_or_empty((jose::parts(p.proof)->0).2, 64) == proof_signature,
        jose::signing_input((jose::parts(p.proof)->0).0, (jose::parts(p.proof)->0).1)
            == base64::encoded(proof_header) + seq![46u8] + base64::encoded(proof_json),
        bytes::text("EdDSA") != bytes::text("ES256"),
        bytes::text("EdDSA").len() == 5,
        bytes::text("ES256").len() == 5,
{
    jose::compact_splits(header_json, json, signature);
    jose::compact_splits(proof_header, proof_json, proof_signature);
    assert(p.credential =~= jose::compact(header_json, json, signature));
    assert(p.proof =~= jose::compact(proof_header, proof_json, proof_signature));
    base64::encoded_decodes(header_json, 1024);
    base64::encoded_decodes(json, 1024);
    base64::encoded_decodes(proof_header, 1024);
    base64::encoded_decodes(proof_json, 1024);
    base64::encoded_decodes(proof_signature, 64);
    base64::encoding_length(json);
    reveal_strlit("EdDSA");
    reveal_strlit("ES256");
    assert("EdDSA".is_ascii() && "ES256".is_ascii());
    assert(bytes::text("EdDSA")[1] == 100 && bytes::text("ES256")[1] == 83);
}

} // verus!
