//! Verifying a signed token: the key that it names, its signature, its window, and the policy
//! that the request asks for. The answer is a typed identity.
use vstd::prelude::*;

use crate::assurance;
use crate::assurance::{read_evidence, read_level, AssuranceLevel, AuthMethod, Evidence, KeyBinding};
use crate::base64;
use crate::bytes;
use crate::bytes::bytes_equal;
use crate::claims;
use crate::claims::{claim_number_or, claim_or_empty};
use crate::crypto;
use crate::jose;
use crate::keys;
use crate::keys::{count, KeyRecord, KeyRef, KeyState, KeyUse, Suite};

verus! {

/// Clock skew tolerated on `iat`, in seconds.
pub const CLOCK_SKEW_SECS: u64 = 60;

/// Longest decoded payload.
pub const MAX_CLAIMS_BYTES: usize = 1024;

pub const MAX_KID_LEN: usize = 64;

pub const MAX_ISSUER_LEN: usize = 64;

/// Verification keys held at once.
pub const MAX_KEYS: usize = 8;

/// One verification key.
pub struct VerifyKey {
    pub live: bool,
    pub issuer: Vec<u8>,
    pub profile_id: u16,
    pub kid: Vec<u8>,
    pub suite: Option<Suite>,
    pub state: KeyState,
    pub generation: u32,
    pub remove_after_unix: u64,
    pub pubkey: Vec<u8>,
}

impl VerifyKey {
    pub open spec fn named(self, issuer: Seq<u8>, profile_id: u16, kid: Seq<u8>) -> bool {
        self.live && self.profile_id == profile_id && self.issuer@ == issuer && self.kid@ == kid
    }

    /// The key may be selected by `kid` at `now`: it is held, and not past its removal deadline.
    pub open spec fn selectable(self, kid: Seq<u8>, now: u64) -> bool {
        self.live && (self.remove_after_unix == 0 || now < self.remove_after_unix) && self.kid@
            == kid
    }

    /// The key holds what the record says.
    pub open spec fn holds(self, rec: KeyRecord) -> bool {
        &&& self.live
        &&& self.issuer@ == rec.issuer@
        &&& self.profile_id == rec.profile_id
        &&& self.kid@ == rec.kid@
        &&& self.suite == rec.suite
        &&& self.state == rec.state
        &&& self.generation == rec.generation
        &&& self.remove_after_unix == rec.remove_after_unix
        &&& self.pubkey@ == rec.key_ref@
    }

    /// A slot that holds no key.
    pub open spec fn vacant(self) -> bool {
        &&& !self.live
        &&& self.issuer@.len() == 0
        &&& self.profile_id == 0
        &&& self.kid@.len() == 0
        &&& self.suite is None
        &&& self.state == KeyState::Added
        &&& self.generation == 0
        &&& self.remove_after_unix == 0
        &&& self.pubkey@.len() == 0
    }

    pub fn empty() -> (r: Self)
        ensures
            r.vacant(),
    {
        VerifyKey {
            live: false,
            issuer: Vec::new(),
            profile_id: 0,
            kid: Vec::new(),
            suite: None,
            state: KeyState::Added,
            generation: 0,
            remove_after_unix: 0,
            pubkey: Vec::new(),
        }
    }
}

/// A public key of `n` bytes can belong to `suite`: a SEC1 point, compressed or not, or the 32
/// bytes of an Ed25519 key.
pub open spec fn key_length_fits(suite: Option<Suite>, n: nat) -> bool {
    match suite {
        Some(Suite::Es256) => n == 33 || n == 65,
        Some(Suite::Ed25519) => n == 32,
        _ => false,
    }
}

/// A record that this verifier can hold.
pub open spec fn acceptable(rec: KeyRecord) -> bool {
    &&& rec.key_use == KeyUse::Verify
    &&& key_length_fits(rec.suite, rec.key_ref@.len())
    &&& 0 < rec.issuer@.len() <= 64
    &&& 0 < rec.kid@.len() <= 64
}

/// Copy a record into a slot, unless it is not one to hold.
pub fn fill_key(slot: &mut VerifyKey, rec: &KeyRecord) -> (r: bool)
    ensures
        r == acceptable(*rec),
        r ==> final(slot).holds(*rec),
        !r ==> *final(slot) == *old(slot),
{
    if rec.key_use != KeyUse::Verify {
        return false;
    }
    let n: usize = rec.key_ref.len();
    let fits = match rec.suite {
        Some(Suite::Es256) => n == 33 || n == 65,
        Some(Suite::Ed25519) => n == 32,
        _ => false,
    };
    if !fits || rec.issuer.len() == 0 || rec.issuer.len() > MAX_ISSUER_LEN || rec.kid.len() == 0
        || rec.kid.len() > MAX_KID_LEN {
        return false;
    }
    *slot = VerifyKey {
        live: true,
        issuer: vstd::slice::slice_to_vec(rec.issuer.as_slice()),
        profile_id: rec.profile_id,
        kid: vstd::slice::slice_to_vec(rec.kid.as_slice()),
        suite: rec.suite,
        state: rec.state,
        generation: rec.generation,
        remove_after_unix: rec.remove_after_unix,
        pubkey: vstd::slice::slice_to_vec(rec.key_ref.as_slice()),
    };
    true
}

#[derive(Clone, Copy, Debug, PartialEq, Eq, Structural)]
pub enum VerifyErr {
    NoKey,
    Malformed,
    NoClock,
    UnknownKid,
    SuiteMismatch,
    BadSignature,
    Expired,
    WrongIssuer,
    WrongAudience,
    WrongProfile,
    InsufficientAssurance,
}

/// A token and the policy that it must satisfy. An empty expectation is no rule.
pub struct VerifyRequest {
    pub credential: Vec<u8>,
    pub expected_issuer: Vec<u8>,
    pub expected_audience: Vec<u8>,
    pub expected_profile: Option<u16>,
    pub min_assurance: u8,
}

/// What a verified token says of its holder.
pub struct Identity {
    pub correlation: u32,
    pub profile_id: u16,
    pub issuer: Vec<u8>,
    pub kid: Vec<u8>,
    pub suite: Option<Suite>,
    pub subject: Vec<u8>,
    /// Empty for a token that is bound to no key.
    pub key_thumbprint: Vec<u8>,
    pub audience: Vec<u8>,
    pub scope: Vec<u8>,
    pub issued_at: u64,
    pub expires_at: u64,
    pub auth_time: u64,
    pub evidence: Evidence,
    pub credential_id: Vec<u8>,
    /// The payload itself, for a consumer that needs a claim of its own.
    pub application: Vec<u8>,
}

/// What has been verified, before the evidence is scored.
pub struct Verified {
    pub identity: Identity,
    /// The level that the token itself claims.
    pub claimed: Option<AssuranceLevel>,
    pub min_assurance: u8,
}

pub enum VerifyStep {
    Refuse(VerifyErr),
    Score(Verified),
}

pub struct Verifier {
    pub keys: Vec<VerifyKey>,
    pub verify_ok: u32,
    pub verify_bad_sig: u32,
    pub verify_expired: u32,
    pub verify_malformed: u32,
    pub no_key_errors: u32,
}

/// The index of the first key from `i` on that `kid` selects at `now`.
pub open spec fn selected_from(keys: Seq<VerifyKey>, kid: Seq<u8>, now: u64, i: int) -> Option<int>
    decreases keys.len() - i,
{
    if i < 0 || i >= keys.len() {
        None
    } else if keys[i].selectable(kid, now) {
        Some(i)
    } else {
        selected_from(keys, kid, now, i + 1)
    }
}

pub open spec fn selected(keys: Seq<VerifyKey>, kid: Seq<u8>, now: u64) -> Option<int> {
    selected_from(keys, kid, now, 0)
}

/// No two keys have the same issuer, profile and kid.
pub open spec fn names_differ(keys: Seq<VerifyKey>) -> bool {
    forall|i: int, j: int|
        0 <= i < j < keys.len() && (#[trigger] keys[i]).live && (#[trigger] keys[j]).live ==> !(
        keys[i].profile_id == keys[j].profile_id && keys[i].issuer@ == keys[j].issuer@
            && keys[i].kid@ == keys[j].kid@)
}

/// The header of a token, or nothing where it does not decode.
pub open spec fn token_header(token: Seq<u8>) -> Seq<u8> {
    base64::decoded_or_empty((jose::parts(token)->0).0, 512)
}

pub open spec fn token_claims(token: Seq<u8>) -> Option<Seq<u8>> {
    base64::decoded((jose::parts(token)->0).1, 1024)
}

/// The payload of a token decodes, to more than can be taken.
pub open spec fn payload_too_long(token: Seq<u8>) -> bool {
    exists|d: Seq<u8>|
        #[trigger] base64::decodes_to((jose::parts(token)->0).1, d) && d.len() > MAX_CLAIMS_BYTES
}

pub open spec fn token_kid(token: Seq<u8>) -> Seq<u8> {
    claims::text_or_empty(token_header(token), bytes::text("kid"))
}

/// The token's 64-byte signature holds under `public`, in the way of `suite`.
pub open spec fn signature_holds(token: Seq<u8>, suite: Option<Suite>, public: Seq<u8>) -> bool {
    let p = jose::parts(token)->0;
    let input = jose::signing_input(p.0, p.1);
    match base64::decoded(p.2, 64) {
        Some(sig) => sig.len() == 64 && match suite {
            Some(Suite::Es256) => crypto::ecdsa_valid(public, crypto::sha256(input), sig),
            Some(Suite::Ed25519) => crypto::ed25519_valid(public, input, sig),
            _ => false,
        },
        None => false,
    }
}

/// Why a request is refused before its evidence is scored; nothing where it is not.
pub open spec fn refusal(
    keys: Seq<VerifyKey>,
    request: Option<VerifyRequest>,
    now: Option<u64>,
) -> Option<VerifyErr> {
    if forall|i: int| 0 <= i < keys.len() ==> !(#[trigger] keys[i]).live {
        Some(VerifyErr::NoKey)
    } else if request is None {
        Some(VerifyErr::Malformed)
    } else if jose::parts(request->0.credential@) is None {
        Some(VerifyErr::Malformed)
    } else if now is None {
        Some(VerifyErr::NoClock)
    } else {
        let token = request->0.credential@;
        match selected(keys, token_kid(token), now->0) {
            None => Some(VerifyErr::UnknownKid),
            Some(slot) => token_refusal(keys[slot], request->0, now->0),
        }
    }
}

/// Why a request is refused once the key that its token names is known. A payload that is too long
/// to be taken fails closed as one that has expired.
pub open spec fn token_refusal(key: VerifyKey, request: VerifyRequest, now: u64) -> Option<VerifyErr> {
    let token = request.credential@;
    let alg = claims::text_or_empty(token_header(token), bytes::text("alg"));
    if jose::suite_of_alg(alg) != key.suite {
        Some(VerifyErr::SuiteMismatch)
    } else if !signature_holds(token, key.suite, key.pubkey@) {
        Some(VerifyErr::BadSignature)
    } else {
        match token_claims(token) {
            None => if payload_too_long(token) {
                Some(VerifyErr::Expired)
            } else {
                Some(VerifyErr::Malformed)
            },
            Some(json) => policy_refusal(json, key.profile_id, request, now),
        }
    }
}

/// Why the claims of a token whose signature holds are refused.
pub open spec fn policy_refusal(
    json: Seq<u8>,
    profile_id: u16,
    request: VerifyRequest,
    now: u64,
) -> Option<VerifyErr> {
    if !jose::live(
        now,
        claims::number_or(json, bytes::text("iat"), 0),
        claims::number_or(json, bytes::text("exp"), 0),
        CLOCK_SKEW_SECS,
    ) {
        Some(VerifyErr::Expired)
    } else if request.expected_issuer@.len() > 0 && claims::text_or_empty(json, bytes::text("iss"))
        != request.expected_issuer@ {
        Some(VerifyErr::WrongIssuer)
    } else if request.expected_audience@.len() > 0 && claims::text_or_empty(
        json,
        bytes::text("aud"),
    ) != request.expected_audience@ {
        Some(VerifyErr::WrongAudience)
    } else if request.expected_profile is Some && request.expected_profile != Some(profile_id) {
        Some(VerifyErr::WrongProfile)
    } else {
        None
    }
}

/// The identity says what the claims and the key say.
pub open spec fn reports(id: Identity, corr: u32, key: VerifyKey, json: Seq<u8>) -> bool {
    &&& id.correlation == corr
    &&& id.profile_id == key.profile_id
    &&& id.kid@ == key.kid@
    &&& id.suite == key.suite
    &&& id.issuer@ == claims::text_or_empty(json, bytes::text("iss"))
    &&& id.subject@ == claims::text_or_empty(json, bytes::text("sub"))
    &&& id.key_thumbprint@ == claims::text_or_empty(json, bytes::text("jkt"))
    &&& id.audience@ == claims::text_or_empty(json, bytes::text("aud"))
    &&& id.scope@ == claims::text_or_empty(json, bytes::text("scope"))
    &&& id.credential_id@ == claims::text_or_empty(json, bytes::text("jti"))
    &&& id.issued_at == claims::number_or(json, bytes::text("iat"), 0)
    &&& id.expires_at == claims::number_or(json, bytes::text("exp"), 0)
    &&& id.auth_time == claims::number_or(json, bytes::text("auth_time"), id.issued_at)
    &&& id.application@ == json
    &&& evidence_of(id.evidence, json)
}

/// The evidence is what the claims carry.
pub open spec fn evidence_of(e: Evidence, json: Seq<u8>) -> bool {
    let names = assurance::amr(json);
    &&& e.auth_time == claims::number_or(json, bytes::text("auth_time"), 0)
    &&& forall|m: AuthMethod| #[trigger] e.has(m) == names.contains(m.name())
    &&& e.binding == if names.contains(bytes::text("hwk")) {
        KeyBinding::Hardware
    } else if names.contains(bytes::text("swk")) {
        KeyBinding::Software
    } else {
        KeyBinding::Unstated
    }
    &&& e.user_verified == names.contains(bytes::text("user"))
    &&& e.phishing_resistant == names.contains(bytes::text("webauthn"))
}

/// The level that a policy floor names; none for a floor that means nothing here.
pub fn level_from_discriminant(value: u8) -> (r: Option<AssuranceLevel>)
    ensures
        r == floor_level(value),
{
    match value {
        0 => Some(AssuranceLevel::Aal1),
        1 => Some(AssuranceLevel::Aal2),
        2 => Some(AssuranceLevel::Aal3),
        _ => None,
    }
}

pub open spec fn floor_level(value: u8) -> Option<AssuranceLevel> {
    if value == 0 {
        Some(AssuranceLevel::Aal1)
    } else if value == 1 {
        Some(AssuranceLevel::Aal2)
    } else if value == 2 {
        Some(AssuranceLevel::Aal3)
    } else {
        None
    }
}

pub(crate) fn signature_verifies(jws: &jose::Jws<'_>, suite: Option<Suite>, public: &[u8]) -> (r: bool)
    ensures
        forall|token: Seq<u8>|
            jose::parts(token) == Some(
                (jws.header_b64@, jws.payload_b64@, jws.signature_b64@),
            ) && jws.signing_input@ == jose::signing_input(jws.header_b64@, jws.payload_b64@)
                ==> r == #[trigger] signature_holds(token, suite, public@),
{
    let sig = match base64::decode(jws.signature_b64, 64) {
        Some(sig) => sig,
        None => {
            return false;
        },
    };
    if sig.len() != 64 {
        return false;
    }
    match suite {
        Some(Suite::Es256) => {
            let hash = crypto::digest(jws.signing_input);
            crypto::ecdsa_verify(public, hash.as_slice(), sig.as_slice())
        },
        Some(Suite::Ed25519) => crypto::ed25519_verify(public, jws.signing_input, sig.as_slice()),
        _ => false,
    }
}

/// Whether an encoding that does not decode to a payload stands for bytes all the same.
fn too_long(payload_b64: &[u8]) -> (r: bool)
    requires
        base64::decoded(payload_b64@, MAX_CLAIMS_BYTES as nat) is None,
    ensures
        r == exists|d: Seq<u8>|
            #[trigger] base64::decodes_to(payload_b64@, d) && d.len() > MAX_CLAIMS_BYTES,
{
    let decoded = base64::decode(payload_b64, payload_b64.len());
    proof {
        assert forall|d: Seq<u8>| #[trigger] base64::decodes_to(payload_b64@, d) implies
            MAX_CLAIMS_BYTES < d.len() <= payload_b64@.len() by {
            base64::encoding_length(d);
            assert(base64::encoded(d) == payload_b64@);
        }
        if decoded is Some {
            assert(base64::decodes_to(payload_b64@, decoded->0@));
        }
    }
    decoded.is_some()
}

impl Verifier {
    pub open spec fn wf(self) -> bool {
        self.keys@.len() == 8
    }

    /// Key `i` is the first with these names.
    pub open spec fn first_named(
        self,
        i: int,
        issuer: Seq<u8>,
        profile_id: u16,
        kid: Seq<u8>,
    ) -> bool {
        &&& self.keys@[i].named(issuer, profile_id, kid)
        &&& forall|j: int|
            0 <= j < i ==> !(#[trigger] self.keys@[j]).named(issuer, profile_id, kid)
    }

    /// The counters are as in `other`.
    pub open spec fn same_counters(self, other: Self) -> bool {
        &&& self.verify_ok == other.verify_ok
        &&& self.verify_bad_sig == other.verify_bad_sig
        &&& self.verify_expired == other.verify_expired
        &&& self.verify_malformed == other.verify_malformed
        &&& self.no_key_errors == other.no_key_errors
    }

    /// One refusal was counted since `other`, in the counter that its reason belongs to.
    pub open spec fn refused_since(self, other: Self, why: VerifyErr) -> bool {
        &&& self.verify_ok == other.verify_ok
        &&& self.no_key_errors == if why == VerifyErr::NoKey {
            keys::counted(other.no_key_errors)
        } else {
            other.no_key_errors
        }
        &&& self.verify_malformed == if why == VerifyErr::Malformed {
            keys::counted(other.verify_malformed)
        } else {
            other.verify_malformed
        }
        &&& self.verify_expired == if why == VerifyErr::NoClock || why == VerifyErr::Expired {
            keys::counted(other.verify_expired)
        } else {
            other.verify_expired
        }
        &&& self.verify_bad_sig == if why == VerifyErr::NoKey || why == VerifyErr::Malformed || why
            == VerifyErr::NoClock || why == VerifyErr::Expired {
            other.verify_bad_sig
        } else {
            keys::counted(other.verify_bad_sig)
        }
    }

    /// A verifier that holds no key.
    pub fn new() -> (r: Self)
        ensures
            r.wf(),
            forall|i: int| 0 <= i < 8 ==> (#[trigger] r.keys@[i]).vacant(),
            r.verify_ok == 0,
            r.verify_bad_sig == 0,
            r.verify_expired == 0,
            r.verify_malformed == 0,
            r.no_key_errors == 0,
    {
        let mut slots: Vec<VerifyKey> = Vec::new();
        while slots.len() < MAX_KEYS
            invariant
                slots@.len() <= 8,
                forall|i: int| 0 <= i < slots@.len() ==> (#[trigger] slots@[i]).vacant(),
            decreases 8 - slots@.len(),
        {
            slots.push(VerifyKey::empty());
        }
        Verifier {
            keys: slots,
            verify_ok: 0,
            verify_bad_sig: 0,
            verify_expired: 0,
            verify_malformed: 0,
            no_key_errors: 0,
        }
    }

    /// The first key with this issuer, profile and kid.
    pub fn find_key(&self, issuer: &[u8], profile_id: u16, kid: &[u8]) -> (r: Option<usize>)
        ensures
            match r {
                Some(i) => i < self.keys@.len() && self.keys@[i as int].named(
                    issuer@,
                    profile_id,
                    kid@,
                ) && forall|j: int|
                    0 <= j < i ==> !(#[trigger] self.keys@[j]).named(issuer@, profile_id, kid@),
                None => forall|j: int|
                    0 <= j < self.keys@.len() ==> !(#[trigger] self.keys@[j]).named(
                        issuer@,
                        profile_id,
                        kid@,
                    ),
            },
    {
        let mut i: usize = 0;
        while i < self.keys.len()
            invariant
                i <= self.keys@.len(),
                forall|j: int|
                    0 <= j < i ==> !(#[trigger] self.keys@[j]).named(issuer@, profile_id, kid@),
            decreases self.keys@.len() - i,
        {
            let k = &self.keys[i];
            if k.live && k.profile_id == profile_id && bytes_equal(k.issuer.as_slice(), issuer)
                && bytes_equal(k.kid.as_slice(), kid) {
                return Some(i);
            }
            i = i + 1;
        }
        None
    }

    /// The first slot that holds no key.
    fn vacancy(&self) -> (r: Option<usize>)
        ensures
            match r {
                Some(i) => i < self.keys@.len() && !self.keys@[i as int].live && forall|j: int|
                    0 <= j < i ==> (#[trigger] self.keys@[j]).live,
                None => forall|j: int| 0 <= j < self.keys@.len() ==> (#[trigger] self.keys@[j]).live,
            },
    {
        let mut i: usize = 0;
        while i < self.keys.len()
            invariant
                i <= self.keys@.len(),
                forall|j: int| 0 <= j < i ==> (#[trigger] self.keys@[j]).live,
            decreases self.keys@.len() - i,
        {
            if !self.keys[i].live {
                return Some(i);
            }
            i = i + 1;
        }
        None
    }

    /// The key of `rec` is held in slot `i`, and the other keys are as they were.
    pub open spec fn added(before: Self, after: Self, rec: KeyRecord, i: int) -> bool {
        &&& 0 <= i < 8
        &&& after.keys@[i].holds(rec)
        &&& forall|j: int| 0 <= j < 8 && j != i ==> #[trigger] after.keys@[j] == before.keys@[j]
        &&& if exists|j: int|
            0 <= j < 8 && (#[trigger] before.keys@[j]).named(
                rec.issuer@,
                rec.profile_id,
                rec.kid@,
            ) {
            before.first_named(i, rec.issuer@, rec.profile_id, rec.kid@)
        } else {
            !before.keys@[i].live && forall|j: int|
                0 <= j < i ==> (#[trigger] before.keys@[j]).live
        }
        &&& acceptable(rec)
    }

    /// Hold a delivered key: in the place of the one with the same names, or in the first free
    /// slot. A key that is not acceptable, or for which there is no room, changes nothing, and no
    /// other key is ever given up for it.
    pub fn add_key(&mut self, rec: &KeyRecord) -> (r: Option<usize>)
        requires
            old(self).wf(),
        ensures
            final(self).wf(),
            final(self).same_counters(*old(self)),
            match r {
                Some(i) => Self::added(*old(self), *final(self), *rec, i as int),
                None => final(self).keys@ == old(self).keys@ && (!acceptable(*rec) || forall|j: int|

                    0 <= j < 8 ==> (#[trigger] old(self).keys@[j]).live && !old(self).keys@[j].named(
                        rec.issuer@,
                        rec.profile_id,
                        rec.kid@,
                    )),
            },
            names_differ(old(self).keys@) ==> names_differ(final(self).keys@),
    {
        let found = match self.find_key(
            rec.issuer.as_slice(),
            rec.profile_id,
            rec.kid.as_slice(),
        ) {
            Some(i) => Some(i),
            None => self.vacancy(),
        };
        match found {
            Some(i) => {
                let mut slot = VerifyKey::empty();
                if fill_key(&mut slot, rec) {
                    self.keys[i] = slot;
                    Some(i)
                } else {
                    None
                }
            },
            None => None,
        }
    }

    /// Replace the whole set by the whole snapshot, or leave it where the snapshot is too large
    /// or holds a record that is not acceptable.
    pub fn apply_snapshot(&mut self, records: &Vec<KeyRecord>) -> (r: bool)
        requires
            old(self).wf(),
        ensures
            final(self).wf(),
            final(self).same_counters(*old(self)),
            r == (records@.len() <= 8 && forall|i: int|
                0 <= i < records@.len() ==> acceptable(#[trigger] records@[i])),
            r ==> forall|i: int|
                0 <= i < 8 ==> if i < records@.len() {
                    (#[trigger] final(self).keys@[i]).holds(records@[i])
                } else {
                    final(self).keys@[i].vacant()
                },
            !r ==> final(self).keys@ == old(self).keys@,
    {
        if records.len() > MAX_KEYS {
            return false;
        }
        let mut fresh: Vec<VerifyKey> = Vec::new();
        while fresh.len() < records.len()
            invariant
                old(self).wf(),
                *self == *old(self),
                fresh@.len() <= records@.len() <= 8,
                forall|i: int| 0 <= i < fresh@.len() ==> acceptable(#[trigger] records@[i]),
                forall|i: int|
                    0 <= i < fresh@.len() ==> (#[trigger] fresh@[i]).holds(records@[i]),
            decreases records@.len() - fresh@.len(),
        {
            let mut slot = VerifyKey::empty();
            if !fill_key(&mut slot, &records[fresh.len()]) {
                return false;
            }
            fresh.push(slot);
        }
        while fresh.len() < MAX_KEYS
            invariant
                records@.len() <= fresh@.len() <= 8,
                forall|i: int|
                    0 <= i < fresh@.len() ==> if i < records@.len() {
                        (#[trigger] fresh@[i]).holds(records@[i])
                    } else {
                        fresh@[i].vacant()
                    },
            decreases 8 - fresh@.len(),
        {
            fresh.push(VerifyKey::empty());
        }
        self.keys = fresh;
        true
    }

    /// Mark the key active.
    pub fn activate(&mut self, kr: &KeyRef) -> (r: Option<usize>)
        requires
            old(self).wf(),
        ensures
            final(self).wf(),
            final(self).same_counters(*old(self)),
            match r {
                Some(i) => i < 8 && old(self).first_named(i as int, kr.issuer@, kr.profile_id, kr.kid@)
                    && final(self).keys@ == old(self).keys@.update(
                    i as int,
                    VerifyKey { state: KeyState::Active, ..old(self).keys@[i as int] },
                ),
                None => final(self).keys@ == old(self).keys@ && forall|j: int|
                    0 <= j < 8 ==> !(#[trigger] old(self).keys@[j]).named(
                        kr.issuer@,
                        kr.profile_id,
                        kr.kid@,
                    ),
            },
    {
        match self.find_key(kr.issuer.as_slice(), kr.profile_id, kr.kid.as_slice()) {
            Some(i) => {
                self.keys[i].state = KeyState::Active;
                Some(i)
            },
            None => None,
        }
    }

    /// Key `i`, the one that `kr` names, is retired, with its deadline.
    pub open spec fn retired(before: Self, after: Self, kr: KeyRef, i: int) -> bool {
        &&& 0 <= i < 8
        &&& before.first_named(i, kr.issuer@, kr.profile_id, kr.kid@)
        &&& after.keys@ =~= before.keys@.update(
            i,
            VerifyKey { state: KeyState::Retired, remove_after_unix: kr.arg, ..before.keys@[i] },
        )
    }

    /// Key `i`, the one that `kr` names, is given up.
    pub open spec fn removed(before: Self, after: Self, kr: KeyRef, i: int) -> bool {
        &&& 0 <= i < 8
        &&& before.first_named(i, kr.issuer@, kr.profile_id, kr.kid@)
        &&& after.keys@[i].vacant()
        &&& forall|j: int| 0 <= j < 8 && j != i ==> #[trigger] after.keys@[j] == before.keys@[j]
    }

    /// Mark the key retired, with the deadline after which it is not selected any more.
    pub fn retire(&mut self, kr: &KeyRef) -> (r: Option<usize>)
        requires
            old(self).wf(),
        ensures
            final(self).wf(),
            final(self).same_counters(*old(self)),
            match r {
                Some(i) => Self::retired(*old(self), *final(self), *kr, i as int),
                None => final(self).keys@ == old(self).keys@ && forall|j: int|
                    0 <= j < 8 ==> !(#[trigger] old(self).keys@[j]).named(
                        kr.issuer@,
                        kr.profile_id,
                        kr.kid@,
                    ),
            },
    {
        match self.find_key(kr.issuer.as_slice(), kr.profile_id, kr.kid.as_slice()) {
            Some(i) => {
                self.keys[i].state = KeyState::Retired;
                self.keys[i].remove_after_unix = kr.arg;
                Some(i)
            },
            None => None,
        }
    }

    /// Give the key up.
    pub fn remove(&mut self, kr: &KeyRef) -> (r: Option<usize>)
        requires
            old(self).wf(),
        ensures
            final(self).wf(),
            final(self).same_counters(*old(self)),
            match r {
                Some(i) => Self::removed(*old(self), *final(self), *kr, i as int),
                None => final(self).keys@ == old(self).keys@ && forall|j: int|
                    0 <= j < 8 ==> !(#[trigger] old(self).keys@[j]).named(
                        kr.issuer@,
                        kr.profile_id,
                        kr.kid@,
                    ),
            },
    {
        match self.find_key(kr.issuer.as_slice(), kr.profile_id, kr.kid.as_slice()) {
            Some(i) => {
                self.keys[i] = VerifyKey::empty();
                Some(i)
            },
            None => None,
        }
    }

    /// The key that a token names, by the kid in its header. No other key stands in for it.
    pub fn select_key(&self, kid: &[u8], now: u64) -> (r: Option<usize>)
        ensures
            match r {
                Some(i) => selected(self.keys@, kid@, now) == Some(i as int) && i < self.keys@.len()
                    && self.keys@[i as int].selectable(kid@, now),
                None => selected(self.keys@, kid@, now) is None,
            },
    {
        let mut i: usize = 0;
        while i < self.keys.len()
            invariant
                i <= self.keys@.len(),
                selected(self.keys@, kid@, now) == selected_from(self.keys@, kid@, now, i as int),
            decreases self.keys@.len() - i,
        {
            let k = &self.keys[i];
            if k.live && (k.remove_after_unix == 0 || now < k.remove_after_unix) && bytes_equal(
                k.kid.as_slice(),
                kid,
            ) {
                return Some(i);
            }
            i = i + 1;
        }
        None
    }

    /// Some key is held.
    pub open spec fn any_live(self) -> bool {
        exists|i: int| 0 <= i < self.keys@.len() && (#[trigger] self.keys@[i]).live
    }

    /// Whether any key is held.
    pub fn holds_any(&self) -> (r: bool)
        ensures
            r == self.any_live(),
    {
        let mut i: usize = 0;
        while i < self.keys.len()
            invariant
                i <= self.keys@.len(),
                forall|j: int| 0 <= j < i ==> !(#[trigger] self.keys@[j]).live,
            decreases self.keys@.len() - i,
        {
            if self.keys[i].live {
                return true;
            }
            i = i + 1;
        }
        false
    }

    fn refuse(&mut self, why: VerifyErr) -> (r: VerifyStep)
        ensures
            r == VerifyStep::Refuse(why),
            final(self).refused_since(*old(self), why),
            final(self).keys == old(self).keys,
    {
        match why {
            VerifyErr::NoKey => count(&mut self.no_key_errors),
            VerifyErr::Malformed => count(&mut self.verify_malformed),
            VerifyErr::NoClock | VerifyErr::Expired => count(&mut self.verify_expired),
            _ => count(&mut self.verify_bad_sig),
        }
        VerifyStep::Refuse(why)
    }

    /// What a request to verify comes to, up to the scoring of the evidence: a refusal, or what the
    /// token says of its holder.
    pub open spec fn verified(
        before: Self,
        after: Self,
        corr: u32,
        request: Option<VerifyRequest>,
        now: Option<u64>,
        r: VerifyStep,
    ) -> bool {
        match refusal(before.keys@, request, now) {
            Some(why) => r == VerifyStep::Refuse(why) && after.refused_since(before, why),
            None => {
                let token = request->0.credential@;
                let json = token_claims(token)->0;
                let slot = selected(before.keys@, token_kid(token), now->0)->0;
                &&& after.same_counters(before)
                &&& r matches VerifyStep::Score(v)
                &&& reports(v.identity, corr, before.keys@[slot], json)
                &&& v.claimed == assurance::claimed_level(json)
                &&& v.min_assurance == request->0.min_assurance
            },
        }
    }

    /// Check a token and the policy that came with it, up to the scoring of its evidence.
    /// `request` is absent where it did not decode, `now` where no clock can be trusted.
    pub fn handle_verify(&mut self, corr: u32, request: Option<VerifyRequest>, now: Option<u64>) -> (r:
        VerifyStep)
        ensures
            final(self).keys == old(self).keys,
            Self::verified(*old(self), *final(self), corr, request, now, r),
    {
        if !self.holds_any() {
            return self.refuse(VerifyErr::NoKey);
        }
        let req = match request {
            Some(req) => req,
            None => {
                return self.refuse(VerifyErr::Malformed);
            },
        };
        let jws = match jose::split(req.credential.as_slice()) {
            Some(jws) => jws,
            None => {
                return self.refuse(VerifyErr::Malformed);
            },
        };
        let header = base64::decode_or_empty(jws.header_b64, 512);
        let kid = claim_or_empty(header.as_slice(), "kid".as_bytes());
        let now: u64 = match now {
            Some(now) => now,
            None => {
                return self.refuse(VerifyErr::NoClock);
            },
        };
        let slot: usize = match self.select_key(kid, now) {
            Some(slot) => slot,
            None => {
                return self.refuse(VerifyErr::UnknownKid);
            },
        };
        let alg = claim_or_empty(header.as_slice(), "alg".as_bytes());
        let suite = self.keys[slot].suite;
        if jose::from_jose_alg(alg) != suite {
            return self.refuse(VerifyErr::SuiteMismatch);
        }
        if !signature_verifies(&jws, suite, self.keys[slot].pubkey.as_slice()) {
            return self.refuse(VerifyErr::BadSignature);
        }
        let payload = match base64::decode(jws.payload_b64, MAX_CLAIMS_BYTES) {
            Some(payload) => payload,
            None => {
                if too_long(jws.payload_b64) {
                    return self.refuse(VerifyErr::Expired);
                }
                return self.refuse(VerifyErr::Malformed);
            },
        };
        self.claims_signed(corr, slot, &req, payload.as_slice(), now)
    }

    /// Check the claims of a token whose signature holds under the key in `slot`.
    pub fn claims_signed(
        &mut self,
        corr: u32,
        slot: usize,
        req: &VerifyRequest,
        json: &[u8],
        now: u64,
    ) -> (r: VerifyStep)
        requires
            slot < old(self).keys@.len(),
        ensures
            final(self).keys == old(self).keys,
            match policy_refusal(json@, old(self).keys@[slot as int].profile_id, *req, now) {
                Some(why) => r == VerifyStep::Refuse(why) && final(self).refused_since(
                    *old(self),
                    why,
                ),
                None => {
                    &&& final(self).same_counters(*old(self))
                    &&& r matches VerifyStep::Score(v)
                    &&& reports(v.identity, corr, old(self).keys@[slot as int], json@)
                    &&& v.claimed == assurance::claimed_level(json@)
                    &&& v.min_assurance == req.min_assurance
                },
            },
    {
        let iat: u64 = claim_number_or(json, "iat".as_bytes(), 0);
        let exp: u64 = claim_number_or(json, "exp".as_bytes(), 0);
        if !jose::within_window(now, iat, exp, CLOCK_SKEW_SECS) {
            return self.refuse(VerifyErr::Expired);
        }
        let issuer = claim_or_empty(json, "iss".as_bytes());
        let audience = claim_or_empty(json, "aud".as_bytes());
        if req.expected_issuer.len() > 0 && !bytes_equal(issuer, req.expected_issuer.as_slice()) {
            return self.refuse(VerifyErr::WrongIssuer);
        }
        if req.expected_audience.len() > 0 && !bytes_equal(
            audience,
            req.expected_audience.as_slice(),
        ) {
            return self.refuse(VerifyErr::WrongAudience);
        }
        let profile_id: u16 = self.keys[slot].profile_id;
        if let Some(expected) = req.expected_profile {
            if expected != profile_id {
                return self.refuse(VerifyErr::WrongProfile);
            }
        }
        let identity = Identity {
            correlation: corr,
            profile_id,
            issuer: vstd::slice::slice_to_vec(issuer),
            kid: vstd::slice::slice_to_vec(self.keys[slot].kid.as_slice()),
            suite: self.keys[slot].suite,
            subject: vstd::slice::slice_to_vec(claim_or_empty(json, "sub".as_bytes())),
            key_thumbprint: vstd::slice::slice_to_vec(claim_or_empty(json, "jkt".as_bytes())),
            audience: vstd::slice::slice_to_vec(audience),
            scope: vstd::slice::slice_to_vec(claim_or_empty(json, "scope".as_bytes())),
            issued_at: iat,
            expires_at: exp,
            auth_time: claim_number_or(json, "auth_time".as_bytes(), iat),
            evidence: read_evidence(json),
            credential_id: vstd::slice::slice_to_vec(claim_or_empty(json, "jti".as_bytes())),
            application: vstd::slice::slice_to_vec(json),
        };
        let claimed = read_level(json);
        VerifyStep::Score(Verified { identity, claimed, min_assurance: req.min_assurance })
    }

    /// What a verified token comes to once its evidence is scored.
    pub open spec fn settled(
        before: Self,
        after: Self,
        v: Verified,
        presented: AssuranceLevel,
        supports: bool,
        r: Result<Identity, VerifyErr>,
    ) -> bool {
        &&& match r {
            Ok(id) => {
                &&& id == v.identity
                &&& after.verify_ok == keys::counted(before.verify_ok)
                &&& after.verify_bad_sig == before.verify_bad_sig
                &&& after.verify_expired == before.verify_expired
                &&& after.verify_malformed == before.verify_malformed
                &&& after.no_key_errors == before.no_key_errors
            },
            Err(e) => e == VerifyErr::InsufficientAssurance && after.refused_since(before, e),
        }
        &&& r is Ok <==> (v.claimed is None || supports) && (floor_level(
            v.min_assurance,
        ) matches Some(floor) && presented.rank() >= floor.rank())
    }

    /// Answer once the evidence is scored: `presented` is the level that it reaches, and
    /// `supports` says whether it reaches the level that the token claims. A token may not claim
    /// more than its own methods support, and must reach the floor of the request.
    pub fn scored(&mut self, v: Verified, presented: AssuranceLevel, supports: bool) -> (r: Result<
        Identity,
        VerifyErr,
    >)
        ensures
            final(self).keys == old(self).keys,
            Self::settled(*old(self), *final(self), v, presented, supports, r),
    {
        if v.claimed.is_some() && !supports {
            count(&mut self.verify_bad_sig);
            return Err(VerifyErr::InsufficientAssurance);
        }
        match level_from_discriminant(v.min_assurance) {
            Some(required) => {
                if !presented.reaches(required) {
                    count(&mut self.verify_bad_sig);
                    return Err(VerifyErr::InsufficientAssurance);
                }
            },
            None => {
                count(&mut self.verify_bad_sig);
                return Err(VerifyErr::InsufficientAssurance);
            },
        }
        count(&mut self.verify_ok);
        Ok(v.identity)
    }
}

pub proof fn lemma_selected_is_first(keys: Seq<VerifyKey>, kid: Seq<u8>, now: u64, i: int)
    requires
        0 <= i <= keys.len(),
    ensures
        match selected_from(keys, kid, now, i) {
            Some(s) => i <= s < keys.len() && keys[s].selectable(kid, now),
            None => forall|j: int|
                i <= j < keys.len() ==> !(#[trigger] keys[j]).selectable(kid, now),
        },
    decreases keys.len() - i,
{
    if i < keys.len() {
        lemma_selected_is_first(keys, kid, now, i + 1);
    }
}

/// A token that is not refused was signed under a held key with the very kid that the token
/// names, in the suite that the token names, and is inside its window.
pub proof fn accepted_means_signed(
    keys: Seq<VerifyKey>,
    request: Option<VerifyRequest>,
    now: Option<u64>,
)
    requires
        refusal(keys, request, now) is None,
    ensures
        request is Some,
        now is Some,
        ({
            let token = request->0.credential@;
            let json = token_claims(token)->0;
            &&& exists|i: int|
                0 <= i < keys.len() && (#[trigger] keys[i]).live && keys[i].kid@ == token_kid(token)
                    && keys[i].suite == jose::suite_of_alg(
                    claims::text_or_empty(token_header(token), bytes::text("alg")),
                ) && signature_holds(token, keys[i].suite, keys[i].pubkey@)
            &&& token_claims(token) is Some
            &&& jose::live(
                now->0,
                claims::number_or(json, bytes::text("iat"), 0),
                claims::number_or(json, bytes::text("exp"), 0),
                CLOCK_SKEW_SECS,
            )
        }),
{
    let token = request->0.credential@;
    lemma_selected_is_first(keys, token_kid(token), now->0, 0);
    let slot = selected(keys, token_kid(token), now->0)->0;
    assert(keys[slot].selectable(token_kid(token), now->0));
}

/// A token that is signed by the key that it names, but whose payload is longer than can be taken,
/// fails closed as one that has expired.
pub proof fn a_long_payload_fails_closed(
    keys: Seq<VerifyKey>,
    request: VerifyRequest,
    now: u64,
    slot: int,
    payload: Seq<u8>,
)
    requires
        0 <= slot < keys.len(),
        keys[slot].live,
        jose::parts(request.credential@) is Some,
        selected(keys, token_kid(request.credential@), now) == Some(slot),
        jose::suite_of_alg(
            claims::text_or_empty(token_header(request.credential@), bytes::text("alg")),
        ) == keys[slot].suite,
        signature_holds(request.credential@, keys[slot].suite, keys[slot].pubkey@),
        (jose::parts(request.credential@)->0).1 == base64::encoded(payload),
        payload.len() > MAX_CLAIMS_BYTES,
    ensures
        refusal(keys, Some(request), Some(now)) == Some(VerifyErr::Expired),
{
    let token = request.credential@;
    let text = (jose::parts(token)->0).1;
    assert(base64::decodes_to(text, payload));
    assert(token_claims(token) is None) by {
        if token_claims(token) is Some {
            base64::encoding_is_injective(payload, token_claims(token)->0);
        }
    }
}

/// Retiring a key does not stop it from being selected before its deadline: what it has signed
/// goes on verifying.
pub proof fn retired_keys_still_select(key: VerifyKey, deadline: u64, kid: Seq<u8>, now: u64)
    requires
        key.selectable(kid, now),
        deadline == 0 || now < deadline,
    ensures
        (VerifyKey { state: KeyState::Retired, remove_after_unix: deadline, ..key }).selectable(
            kid,
            now,
        ),
{
}

/// The identity is that of the token, claim by claim: whatever the token says is what is reported,
/// and nothing is reported that it does not say. Where the token says when its holder
/// authenticated, that is the time; else it is the time of issue.
pub proof fn the_identity_is_the_tokens(
    before: Verifier,
    after: Verifier,
    corr: u32,
    request: VerifyRequest,
    now: u64,
    v: Verified,
)
    requires
        Verifier::verified(before, after, corr, Some(request), Some(now), VerifyStep::Score(v)),
    ensures
        ({
            let id = v.identity;
            let json = token_claims(request.credential@)->0;
            &&& token_claims(request.credential@) is Some
            &&& said(json, "iss", id.issuer@)
            &&& said(json, "sub", id.subject@)
            &&& said(json, "aud", id.audience@)
            &&& said(json, "scope", id.scope@)
            &&& said(json, "jkt", id.key_thumbprint@)
            &&& said(json, "jti", id.credential_id@)
            &&& id.application@ == json
            &&& id.correlation == corr
            &&& v.min_assurance == request.min_assurance
            &&& match claims::number_claim(json, bytes::text("iat")) {
                Some(iat) => id.issued_at == iat,
                None => id.issued_at == 0,
            }
            &&& claims::number_claim(json, bytes::text("exp")) == Some(id.expires_at)
            &&& match claims::number_claim(json, bytes::text("auth_time")) {
                Some(at) => id.auth_time == at && id.evidence.auth_time == at,
                None => id.auth_time == id.issued_at && id.evidence.auth_time == 0,
            }
            &&& exists|i: int|
                {
                    &&& 0 <= i < before.keys@.len()
                    &&& (#[trigger] before.keys@[i]).live
                    &&& id.kid@ == before.keys@[i].kid@
                    &&& id.profile_id == before.keys@[i].profile_id
                    &&& id.suite == before.keys@[i].suite
                    &&& claims::text_or_empty(
                        token_header(request.credential@),
                        bytes::text("kid"),
                    ) == id.kid@
                }
        }),
{
    let token = request.credential@;
    lemma_selected_is_first(before.keys@, token_kid(token), now, 0);
    let slot = selected(before.keys@, token_kid(token), now)->0;
    assert(before.keys@[slot].selectable(token_kid(token), now));
}

/// The value that a string claim was reported with: that of the claim, or nothing where there is
/// none.
pub open spec fn said(json: Seq<u8>, name: &str, value: Seq<u8>) -> bool {
    match claims::text_claim(json, bytes::text(name)) {
        Some(v) => value == v,
        None => value.len() == 0,
    }
}

/// The methods that are reported are those that the token lists, by their names, and the facts that
/// follow from them.
pub proof fn the_evidence_is_the_tokens(
    before: Verifier,
    after: Verifier,
    corr: u32,
    request: VerifyRequest,
    now: u64,
    v: Verified,
)
    requires
        Verifier::verified(before, after, corr, Some(request), Some(now), VerifyStep::Score(v)),
    ensures
        ({
            let e = v.identity.evidence;
            let json = token_claims(request.credential@)->0;
            let listed = match claims::array_claim(json, bytes::text("amr")) {
                Some(raw) => claims::quoted_items(raw),
                None => Seq::empty(),
            };
            &&& e.email == listed.contains(bytes::text("email"))
            &&& e.pop == listed.contains(bytes::text("pop"))
            &&& e.otp == listed.contains(bytes::text("otp"))
            &&& e.hwk == listed.contains(bytes::text("hwk"))
            &&& e.swk == listed.contains(bytes::text("swk"))
            &&& e.user == listed.contains(bytes::text("user"))
            &&& e.webauthn == listed.contains(bytes::text("webauthn"))
            &&& e.binding == KeyBinding::Hardware <==> listed.contains(bytes::text("hwk"))
            &&& e.binding == KeyBinding::Software <==> listed.contains(bytes::text("swk"))
                && !listed.contains(bytes::text("hwk"))
            &&& e.user_verified == listed.contains(bytes::text("user"))
            &&& e.phishing_resistant == listed.contains(bytes::text("webauthn"))
            &&& match claims::text_claim(json, bytes::text("acr")) {
                Some(word) => {
                    &&& v.claimed == Some(AssuranceLevel::Aal1) <==> word == bytes::text("aal1")
                    &&& v.claimed == Some(AssuranceLevel::Aal2) <==> word == bytes::text("aal2")
                    &&& v.claimed == Some(AssuranceLevel::Aal3) <==> word == bytes::text("aal3")
                },
                None => v.claimed is None,
            }
        }),
{
    let json = token_claims(request.credential@)->0;
    lemma_listed(v.identity.evidence, json);
    assurance::only_its_word_names_a_level(claims::text_claim(json, bytes::text("acr"))->0);
    assurance::the_levels_are_in_order();
}

/// Evidence of a token is of the names that it lists.
proof fn lemma_listed(e: Evidence, json: Seq<u8>)
    requires
        evidence_of(e, json),
    ensures
        ({
            let listed = assurance::amr(json);
            &&& e.email == listed.contains(bytes::text("email"))
            &&& e.pop == listed.contains(bytes::text("pop"))
            &&& e.otp == listed.contains(bytes::text("otp"))
            &&& e.hwk == listed.contains(bytes::text("hwk"))
            &&& e.swk == listed.contains(bytes::text("swk"))
            &&& e.user == listed.contains(bytes::text("user"))
            &&& e.webauthn == listed.contains(bytes::text("webauthn"))
        }),
{
    assert(e.has(AuthMethod::Email) == e.email);
    assert(e.has(AuthMethod::Pop) == e.pop);
    assert(e.has(AuthMethod::Otp) == e.otp);
    assert(e.has(AuthMethod::Hwk) == e.hwk);
    assert(e.has(AuthMethod::Swk) == e.swk);
    assert(e.has(AuthMethod::User) == e.user);
    assert(e.has(AuthMethod::Webauthn) == e.webauthn);
}

/// What is accepted is fresh and meets the rules that came with it, and what is fresh and meets
/// them is not refused for its claims: it has not expired, it was not issued more than a minute
/// ahead, and it is for the issuer, the audience and the profile that were asked for.
pub proof fn accepted_claims_meet_the_rules(
    json: Seq<u8>,
    profile_id: u16,
    request: VerifyRequest,
    now: u64,
)
    ensures
        policy_refusal(json, profile_id, request, now) is None <==> {
            &&& claims::number_claim(json, bytes::text("exp")) matches Some(exp) && now < exp
            &&& claims::number_claim(json, bytes::text("iat")) matches Some(iat) ==> iat <= now + 60
            &&& request.expected_issuer@.len() > 0 ==> claims::text_claim(json, bytes::text("iss"))
                == Some(request.expected_issuer@)
            &&& request.expected_audience@.len() > 0 ==> claims::text_claim(
                json,
                bytes::text("aud"),
            ) == Some(request.expected_audience@)
            &&& request.expected_profile matches Some(p) ==> p == profile_id
        },
{
}

/// Why claims are refused is told: an old token as expired before anything else, then the issuer,
/// then the audience, then the profile.
pub proof fn refusals_are_told_in_order(
    json: Seq<u8>,
    profile_id: u16,
    request: VerifyRequest,
    now: u64,
)
    ensures
        ({
            let r = policy_refusal(json, profile_id, request, now);
            let exp = claims::number_claim(json, bytes::text("exp"));
            let iat = claims::number_claim(json, bytes::text("iat"));
            let stale = exp is None || now >= exp->0 || (iat is Some && iat->0 > now + 60);
            let iss = request.expected_issuer@.len() > 0 && claims::text_claim(
                json,
                bytes::text("iss"),
            ) != Some(request.expected_issuer@);
            let aud = request.expected_audience@.len() > 0 && claims::text_claim(
                json,
                bytes::text("aud"),
            ) != Some(request.expected_audience@);
            &&& stale <==> r == Some(VerifyErr::Expired)
            &&& !stale && iss <==> r == Some(VerifyErr::WrongIssuer)
            &&& !stale && !iss && aud <==> r == Some(VerifyErr::WrongAudience)
            &&& r is Some ==> r == Some(VerifyErr::Expired) || r == Some(VerifyErr::WrongIssuer) || r
                == Some(VerifyErr::WrongAudience) || r == Some(VerifyErr::WrongProfile)
        }),
{
}

/// A token is accepted only under a key that is held, has the very kid and the very algorithm that
/// its header names, and is not past its removal; and whose signature over the first two parts, as
/// they stand, holds.
pub proof fn accepted_under_the_named_key(
    before: Verifier,
    after: Verifier,
    corr: u32,
    request: VerifyRequest,
    now: u64,
    v: Verified,
    header: Seq<u8>,
    payload: Seq<u8>,
    signature: Seq<u8>,
)
    requires
        Verifier::verified(before, after, corr, Some(request), Some(now), VerifyStep::Score(v)),
        request.credential@ == base64::encoded(header) + seq![46u8] + base64::encoded(payload)
            + seq![46u8] + base64::encoded(signature),
        header.len() <= 512,
        payload.len() <= 1024,
    ensures
        v.identity.application@ == payload,
        signature.len() == 64,
        exists|i: int|
            {
                let key = #[trigger] before.keys@[i];
                let input = base64::encoded(header) + seq![46u8] + base64::encoded(payload);
                let alg = claims::text_claim(header, bytes::text("alg"));
                &&& 0 <= i < before.keys@.len()
                &&& key.live
                &&& key.remove_after_unix == 0 || now < key.remove_after_unix
                &&& claims::text_or_empty(header, bytes::text("kid")) == key.kid@
                &&& match key.suite {
                    Some(Suite::Es256) => alg == Some(bytes::text("ES256")) && crypto::ecdsa_valid(
                        key.pubkey@,
                        crypto::sha256(input),
                        signature,
                    ),
                    Some(Suite::Ed25519) => alg == Some(bytes::text("EdDSA"))
                        && crypto::ed25519_valid(key.pubkey@, input, signature),
                    _ => false,
                }
            },
{
    let token = request.credential@;
    jose::compact_splits(header, payload, signature);
    assert(token =~= jose::compact(header, payload, signature));
    base64::encoded_decodes(header, 512);
    base64::encoded_decodes(payload, 1024);
    lemma_selected_is_first(before.keys@, token_kid(token), now, 0);
    let slot = selected(before.keys@, token_kid(token), now)->0;
    let key = before.keys@[slot];
    assert(key.selectable(token_kid(token), now));
    assert(token_header(token) == header);
    let sig = base64::decoded(base64::encoded(signature), 64)->0;
    base64::encoding_is_injective(sig, signature);
    assert(base64::encoded(header) + seq![46u8] + base64::encoded(payload)
        =~= jose::signing_input(base64::encoded(header), base64::encoded(payload)));
    lemma_no_alg();
}

proof fn lemma_no_alg()
    ensures
        bytes::text("ES256").len() > 0,
        bytes::text("EdDSA").len() > 0,
{
    reveal_strlit("ES256");
    reveal_strlit("EdDSA");
    assert("ES256".is_ascii() && "EdDSA".is_ascii());
}

/// A scored token is reported as it was verified, where its evidence reaches the floor of the
/// request and what it claims itself; a floor that means nothing is reached by none.
pub proof fn a_scored_token_reaches_the_floor(
    before: Verifier,
    after: Verifier,
    v: Verified,
    presented: AssuranceLevel,
    supports: bool,
    r: Result<Identity, VerifyErr>,
)
    requires
        Verifier::settled(before, after, v, presented, supports, r),
    ensures
        r matches Ok(id) ==> id == v.identity,
        r is Ok <==> {
            &&& v.claimed is None || supports
            &&& v.min_assurance <= 2
            &&& v.min_assurance == 1 ==> presented != AssuranceLevel::Aal1
            &&& v.min_assurance == 2 ==> presented == AssuranceLevel::Aal3
        },
{
}

/// A key that was delivered is the one that its kid selects, with the public half of the record,
/// until its deadline; and no key of another name was given up for it.
pub proof fn a_delivered_key_is_selected(
    before: Verifier,
    after: Verifier,
    rec: KeyRecord,
    i: int,
    now: u64,
)
    requires
        before.wf(),
        after.wf(),
        Verifier::added(before, after, rec, i),
        rec.remove_after_unix == 0 || now < rec.remove_after_unix,
        forall|j: int|
            0 <= j < 8 && (#[trigger] before.keys@[j]).live && before.keys@[j].kid@ == rec.kid@
                ==> before.keys@[j].issuer@ == rec.issuer@ && before.keys@[j].profile_id
                == rec.profile_id,
        names_differ(before.keys@),
    ensures
        selected(after.keys@, rec.kid@, now) == Some(i),
        after.keys@[i].pubkey@ == rec.key_ref@,
        after.keys@[i].suite == rec.suite,
        rec.suite == Some(Suite::Ed25519) ==> rec.key_ref@.len() == 32,
        rec.suite == Some(Suite::Es256) ==> rec.key_ref@.len() == 33 || rec.key_ref@.len() == 65,
        before.keys@[i].live ==> before.keys@[i].kid@ == rec.kid@,
{
    assert(after.keys@[i].selectable(rec.kid@, now));
    assert forall|j: int| 0 <= j < i implies !(#[trigger] after.keys@[j]).selectable(
        rec.kid@,
        now,
    ) by {
        assert(after.keys@[j] == before.keys@[j]);
        if after.keys@[j].selectable(rec.kid@, now) {
            assert(before.keys@[j].named(rec.issuer@, rec.profile_id, rec.kid@));
        }
    }
    lemma_selects(after.keys@, rec.kid@, now, 0, i);
}

proof fn lemma_selects(keys: Seq<VerifyKey>, kid: Seq<u8>, now: u64, i: int, k: int)
    requires
        0 <= i <= k < keys.len(),
        keys[k].selectable(kid, now),
        forall|j: int| i <= j < k ==> !(#[trigger] keys[j]).selectable(kid, now),
    ensures
        selected_from(keys, kid, now, i) == Some(k),
    decreases k - i,
{
    if i < k {
        lemma_selects(keys, kid, now, i + 1, k);
    }
}

/// A retired key is selected until the deadline that it was retired with, and not from it on. A
/// removed one is not selected at all.
pub proof fn a_key_ends_when_it_is_told(
    before: Verifier,
    retired: Verifier,
    removed: Verifier,
    kr: KeyRef,
    i: int,
    now: u64,
)
    requires
        before.wf(),
        Verifier::retired(before, retired, kr, i),
        Verifier::removed(before, removed, kr, i),
    ensures
        retired.keys@[i].pubkey == before.keys@[i].pubkey,
        kr.arg > 0 ==> (retired.keys@[i].selectable(kr.kid@, now) <==> now < kr.arg),
        !removed.keys@[i].selectable(kr.kid@, now),
        forall|j: int| 0 <= j < 8 && j != i ==> #[trigger] retired.keys@[j] == before.keys@[j],
        forall|j: int| 0 <= j < 8 && j != i ==> #[trigger] removed.keys@[j] == before.keys@[j],
{
}

} // verus!
