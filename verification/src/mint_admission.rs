//! Admission: may this presenter mint, and for whom? Three facts, in this order: the credential
//! and its proof hold, the ledger knows the device, and the ledger has not revoked it. The proof
//! is spent before the device is looked at.
use vstd::prelude::*;

use crate::assurance;
use crate::assurance::{with_amr, AuthMethod, Evidence, KeyBinding};
use crate::base32;
use crate::base64;
use crate::bytes;
use crate::bytes::copy_field;
use crate::claims;
use crate::claims::{claim_is, claim_str, claim_u64};
use crate::device_auth;
use crate::device_auth::{
    authenticate, device_certificates, select_issuer, AuthError, Held, Presentation,
};
use crate::keys;
use crate::keys::{advance_correlation, count, Suite};
use crate::ledger;
use crate::ledger::{replay_claim_result, ReplayClaim, StateReply, Status};
use crate::replay::ReplayWindow;
use crate::token_verify::Verifier;
use crate::totp;

verus! {

/// Requests awaiting an answer of the ledger or of the mint.
pub const MAX_IN_FLIGHT: usize = 8;

/// Longest subject or device id carried back.
pub const MAX_FIELD: usize = 256;

/// This module's client id on the ledger's reply port.
pub const STATE_CLIENT: u8 = 6;

/// How long a proof stays fresh, and how long it is remembered, in seconds.
pub const PROOF_WINDOW_SECS: u64 = 300;

/// Longest one-time code that a presenter may offer.
pub const MAX_OTP: usize = 8;

#[derive(Clone, Copy, Debug, PartialEq, Eq, Structural)]
pub enum AdmitErr {
    Unauthenticated,
    UnknownDevice,
    Revoked,
    Replay,
    StateUnavailable,
    NoClock,
    NoKey,
    /// Admitted, but the signing failed.
    MintFailed,
}

/// Which round trip an entry waits on.
#[derive(Clone, Copy, Debug, PartialEq, Eq, Structural)]
pub enum Stage {
    /// The proof's identifier is being claimed.
    ClaimProof,
    /// The device record is being read.
    Device,
}

/// One request in flight.
pub struct Pending {
    pub live: bool,
    /// The correlation of the caller, of the ledger and of the mint.
    pub caller_corr: u32,
    pub state_corr: u32,
    pub mint_corr: u32,
    /// Admit and mint, or admit alone.
    pub grant: bool,
    pub awaiting_mint: bool,
    pub sub: Vec<u8>,
    pub device_id: Vec<u8>,
    pub jkt: Vec<u8>,
    pub evidence: Evidence,
    pub stage: Stage,
    pub replay_key: Vec<u8>,
    pub otp: Vec<u8>,
    /// When the proof was verified.
    pub proved_at: u64,
}

impl Pending {
    pub open spec fn vacant(self) -> bool {
        &&& !self.live
        &&& self.caller_corr == 0
        &&& self.state_corr == 0
        &&& self.mint_corr == 0
        &&& !self.grant
        &&& !self.awaiting_mint
        &&& self.sub@.len() == 0
        &&& self.device_id@.len() == 0
        &&& self.jkt@.len() == 0
        &&& nothing_proved(self.evidence, 0)
        &&& self.stage == Stage::ClaimProof
        &&& self.replay_key@.len() == 0
        &&& self.otp@.len() == 0
        &&& self.proved_at == 0
    }

    pub fn zero() -> (r: Self)
        ensures
            r.vacant(),
    {
        Pending {
            live: false,
            caller_corr: 0,
            state_corr: 0,
            mint_corr: 0,
            grant: false,
            awaiting_mint: false,
            sub: Vec::new(),
            device_id: Vec::new(),
            jkt: Vec::new(),
            evidence: Evidence::at(0),
            stage: Stage::ClaimProof,
            replay_key: Vec::new(),
            otp: Vec::new(),
            proved_at: 0,
        }
    }
}

pub open spec fn nothing_proved(e: Evidence, at: u64) -> bool {
    &&& forall|m: AuthMethod| !e.has(m)
    &&& e.binding == KeyBinding::Unstated
    &&& !e.user_verified
    &&& !e.phishing_resistant
    &&& e.auth_time == at
}

/// One presentation, whichever request carried it.
pub struct Ask {
    pub corr: u32,
    pub method: Vec<u8>,
    pub uri: Vec<u8>,
    pub credential: Vec<u8>,
    pub proof: Vec<u8>,
    pub otp: Vec<u8>,
    pub grant: bool,
}

impl Ask {
    /// What the ask presents.
    pub open spec fn shown(self) -> device_auth::Shown {
        device_auth::Shown {
            credential: self.credential@,
            proof: self.proof@,
            method: self.method@,
            uri: self.uri@,
        }
    }
}

/// A refusal, which carries neither identity nor token.
#[derive(Clone, Copy, Debug, PartialEq, Eq, Structural)]
pub struct Refusal {
    pub corr: u32,
    pub status: AdmitErr,
    pub grant: bool,
}

/// A claim of a proof's identifier that is to be sent to the ledger.
pub struct Claim {
    pub index: usize,
    pub entry: Pending,
    pub expires_at: u64,
}

pub enum HandleStep {
    Refuse(Refusal),
    Claim(Claim),
}

/// The identity that admission established.
pub struct Admitted {
    pub corr: u32,
    pub sub: Vec<u8>,
    pub device_id: Vec<u8>,
    pub jkt: Vec<u8>,
    pub evidence: Evidence,
}

/// An access token that is to be minted. What it says of audience, scope and lifetime is the
/// deployment's; what it says of subject and key is admission's. It names no signing key, so the
/// profile's active key signs it.
pub struct MintOrder {
    pub correlation: u32,
    pub suite: Suite,
    pub ttl_seconds: u32,
    pub iss: Vec<u8>,
    pub sub: Vec<u8>,
    pub aud: Vec<u8>,
    pub scope: Vec<u8>,
    pub jkt: Vec<u8>,
    pub evidence: Evidence,
}

pub enum StateStep {
    /// Not for this module, or for nobody.
    Ignore,
    Refuse(Refusal),
    /// Ask the ledger for the device record of `entry`.
    ReadDevice { index: usize, entry: Pending },
    Admit(Admitted),
    Mint { index: usize, entry: Pending, order: MintOrder },
}

pub enum MintStep {
    Ignore,
    Refuse(Refusal),
    Token { corr: u32, token: Vec<u8> },
}

/// The reply of the mint, as far as admission reads it.
pub struct MintReply {
    pub correlation: u32,
    pub ok: bool,
    /// Delivered as a token, not as a handle to one.
    pub inline: bool,
    pub body: Vec<u8>,
}

/// What the check of a presented code concluded.
#[derive(Clone, Copy, Debug, PartialEq, Eq, Structural)]
pub enum OtpOutcome {
    NonePresented,
    Verified,
    Refused,
}

pub struct Admission {
    pub next_corr: u32,
    pub mint_wired: bool,
    pub iss: Vec<u8>,
    pub aud: Vec<u8>,
    pub scope: Vec<u8>,
    pub ttl_seconds: u32,
    pub grant_suite: Suite,
    pub pending: Vec<Pending>,
    pub admit_ok: u32,
    pub admit_unauthenticated: u32,
    pub admit_unknown_device: u32,
    pub admit_revoked: u32,
    pub admit_replay: u32,
    pub admit_unavailable: u32,
    pub admit_in_flight_full: u32,
    pub admit_unmatched_reply: u32,
    pub admit_bad_otp: u32,
    pub grant_ok: u32,
    pub grant_mint_failed: u32,
}

/// The secret of the authenticator in a device record, where there is one and it decodes.
pub open spec fn otp_secret(record: Seq<u8>) -> Option<Seq<u8>> {
    match claims::text_claim(record, bytes::text("totp_secret")) {
        Some(held) => base32::decoded(held, 64),
        None => None,
    }
}

/// A code holds against a device record: the authenticator is confirmed, its secret decodes,
/// and the code is that of a live step that was not used.
pub open spec fn otp_holds(otp: Seq<u8>, record: Seq<u8>, proved_at: u64) -> bool {
    &&& claims::text_claim(record, bytes::text("totp_confirmed")) == Some(bytes::text("true"))
    &&& otp_secret(record) is Some
    &&& totp::code_value(otp) is Some
    &&& totp::holds(
        otp_secret(record)->0,
        totp::code_value(otp)->0,
        proved_at,
        claims::number_claim(record, bytes::text("totp_counter")),
    )
}

pub open spec fn otp_outcome(otp: Seq<u8>, record: Seq<u8>, proved_at: u64) -> OtpOutcome {
    if otp.len() == 0 {
        OtpOutcome::NonePresented
    } else if otp_holds(otp, record, proved_at) {
        OtpOutcome::Verified
    } else {
        OtpOutcome::Refused
    }
}

/// Check a presented code against the authenticator in the device record. An unconfirmed
/// authenticator verifies nothing.
pub fn verify_presented_otp(entry: &Pending, record: &[u8]) -> (r: OtpOutcome)
    ensures
        r == otp_outcome(entry.otp@, record@, entry.proved_at),
{
    if entry.otp.len() == 0 {
        return OtpOutcome::NonePresented;
    }
    if !claim_is(record, "totp_confirmed".as_bytes(), "true".as_bytes()) {
        return OtpOutcome::Refused;
    }
    let held = match claim_str(record, "totp_secret".as_bytes()) {
        Some(held) => held,
        None => {
            return OtpOutcome::Refused;
        },
    };
    let code: u32 = match totp::parse_code(entry.otp.as_slice()) {
        Some(code) => code,
        None => {
            return OtpOutcome::Refused;
        },
    };
    let secret = match base32::base32_decode(held, totp::MAX_SECRET) {
        Some(secret) => secret,
        None => {
            return OtpOutcome::Refused;
        },
    };
    let last = claim_u64(record, "totp_counter".as_bytes());
    match totp::verify_totp(secret.as_slice(), code, entry.proved_at, last) {
        Some(_) => OtpOutcome::Verified,
        None => OtpOutcome::Refused,
    }
}

/// What the presenter proved: the proof that it made now, the code where one held, and what the
/// enrolment record carries of methods, key and ceremony. The key counts as software unless the
/// record says otherwise.
pub open spec fn established(e: Evidence, record: Seq<u8>, now: u64, otp_verified: bool) -> bool {
    let names = assurance::amr(record);
    &&& forall|m: AuthMethod| #[trigger]
        e.has(m) == (m == AuthMethod::Pop || (m == AuthMethod::Otp && otp_verified)
            || names.contains(m.name()))
    &&& e.binding == if claims::text_claim(record, bytes::text("key_binding")) == Some(
        bytes::text("hardware"),
    ) {
        KeyBinding::Hardware
    } else {
        KeyBinding::Software
    }
    &&& e.user_verified == (names.contains(bytes::text("user")) || claims::text_claim(
        record,
        bytes::text("user_verified"),
    ) == Some(bytes::text("true")))
    &&& e.phishing_resistant == names.contains(bytes::text("webauthn"))
    &&& e.auth_time == now
}

pub fn establish_evidence(record: &[u8], now: u64, otp_verified: bool) -> (r: Evidence)
    ensures
        established(r, record@, now, otp_verified),
{
    let start = Evidence::at(now);
    let mut base = start.with(AuthMethod::Pop);
    if otp_verified {
        base = base.with(AuthMethod::Otp);
    }
    let carried = with_amr(base, record);
    proof {
        assurance::amr_order_does_not_matter(base, assurance::amr(record@));
        assert forall|m: AuthMethod| #[trigger]
            carried.has(m) == (m == AuthMethod::Pop || (m == AuthMethod::Otp && otp_verified)
                || assurance::amr(record@).contains(m.name())) by {
            assert(!start.has(m));
            assert(base.has(m) == (m == AuthMethod::Pop || (m == AuthMethod::Otp && otp_verified)));
        }
    }
    let mut out = carried;
    out.binding = if claim_is(record, "key_binding".as_bytes(), "hardware".as_bytes()) {
        KeyBinding::Hardware
    } else {
        KeyBinding::Software
    };
    if claim_is(record, "user_verified".as_bytes(), "true".as_bytes()) {
        out.user_verified = true;
    }
    assert forall|m: AuthMethod| #[trigger] out.has(m) == carried.has(m) by {}
    out
}

pub open spec fn revoked(record: Seq<u8>) -> bool {
    claims::text_claim(record, bytes::text("status")) == Some(bytes::text("revoked"))
}

/// The first entry from `i` on that waits for the ledger's reply `corr`.
pub open spec fn awaiting_from(pending: Seq<Pending>, corr: u32, i: int) -> Option<int>
    decreases pending.len() - i,
{
    if i < 0 || i >= pending.len() {
        None
    } else if pending[i].live && pending[i].state_corr == corr {
        Some(i)
    } else {
        awaiting_from(pending, corr, i + 1)
    }
}

/// The first entry from `i` on that waits for the mint's reply `corr`.
pub open spec fn minting_from(pending: Seq<Pending>, corr: u32, i: int) -> Option<int>
    decreases pending.len() - i,
{
    if i < 0 || i >= pending.len() {
        None
    } else if pending[i].live && pending[i].awaiting_mint && pending[i].mint_corr == corr {
        Some(i)
    } else {
        minting_from(pending, corr, i + 1)
    }
}

/// Whom a device record admits: nobody where the ledger did not find it, where it is revoked,
/// or where a code was presented and did not hold.
pub open spec fn device_refusal(entry: Pending, status: Status, record: Seq<u8>) -> Option<AdmitErr> {
    if status == Status::NotFound {
        Some(AdmitErr::UnknownDevice)
    } else if status != Status::Success {
        Some(AdmitErr::StateUnavailable)
    } else if revoked(record) {
        Some(AdmitErr::Revoked)
    } else if otp_outcome(entry.otp@, record, entry.proved_at) == OtpOutcome::Refused {
        Some(AdmitErr::Unauthenticated)
    } else {
        None
    }
}

impl Admission {
    pub open spec fn wf(self) -> bool {
        self.pending@.len() == 8
    }

    pub open spec fn same_policy(self, other: Self) -> bool {
        &&& self.mint_wired == other.mint_wired
        &&& self.iss == other.iss
        &&& self.aud == other.aud
        &&& self.scope == other.scope
        &&& self.ttl_seconds == other.ttl_seconds
        &&& self.grant_suite == other.grant_suite
    }

    /// Every counter is as in `other`.
    pub open spec fn same_counters(self, other: Self) -> bool {
        &&& self.admit_ok == other.admit_ok
        &&& self.admit_unauthenticated == other.admit_unauthenticated
        &&& self.admit_unknown_device == other.admit_unknown_device
        &&& self.admit_revoked == other.admit_revoked
        &&& self.admit_replay == other.admit_replay
        &&& self.admit_unavailable == other.admit_unavailable
        &&& self.admit_in_flight_full == other.admit_in_flight_full
        &&& self.admit_unmatched_reply == other.admit_unmatched_reply
        &&& self.admit_bad_otp == other.admit_bad_otp
        &&& self.grant_ok == other.grant_ok
        &&& self.grant_mint_failed == other.grant_mint_failed
    }

    /// A ready admission: nothing in flight. Without a ledger there is none, because neither
    /// enrolment nor revocation could be known.
    pub fn module_new(
        ledger_wired: bool,
        mint_wired: bool,
        iss: &[u8],
        aud: &[u8],
        scope: &[u8],
        ttl_seconds: u32,
        grant_suite: Suite,
    ) -> (r: Option<Self>)
        ensures
            r is Some <==> ledger_wired,
            r matches Some(s) ==> {
                &&& s.wf()
                &&& forall|i: int| 0 <= i < 8 ==> (#[trigger] s.pending@[i]).vacant()
                &&& s.next_corr == 1
                &&& s.mint_wired == mint_wired
                &&& s.iss@ == bytes::clipped(iss@, 256)
                &&& s.aud@ == bytes::clipped(aud@, 256)
                &&& s.scope@ == bytes::clipped(scope@, 256)
                &&& s.ttl_seconds == ttl_seconds
                &&& s.grant_suite == grant_suite
                &&& s.admit_ok == 0
                &&& s.admit_unauthenticated == 0
                &&& s.admit_unknown_device == 0
                &&& s.admit_revoked == 0
                &&& s.admit_replay == 0
                &&& s.admit_unavailable == 0
                &&& s.admit_in_flight_full == 0
                &&& s.admit_unmatched_reply == 0
                &&& s.admit_bad_otp == 0
                &&& s.grant_ok == 0
                &&& s.grant_mint_failed == 0
            },
    {
        if !ledger_wired {
            return None;
        }
        let mut pending: Vec<Pending> = Vec::new();
        while pending.len() < MAX_IN_FLIGHT
            invariant
                pending@.len() <= 8,
                forall|i: int| 0 <= i < pending@.len() ==> (#[trigger] pending@[i]).vacant(),
            decreases 8 - pending@.len(),
        {
            pending.push(Pending::zero());
        }
        Some(
            Admission {
                next_corr: 1,
                mint_wired,
                iss: copy_field(iss, MAX_FIELD),
                aud: copy_field(aud, MAX_FIELD),
                scope: copy_field(scope, MAX_FIELD),
                ttl_seconds,
                grant_suite,
                pending,
                admit_ok: 0,
                admit_unauthenticated: 0,
                admit_unknown_device: 0,
                admit_revoked: 0,
                admit_replay: 0,
                admit_unavailable: 0,
                admit_in_flight_full: 0,
                admit_unmatched_reply: 0,
                admit_bad_otp: 0,
                grant_ok: 0,
                grant_mint_failed: 0,
            },
        )
    }

    /// The first entry that is free.
    pub fn free_slot(&self) -> (r: Option<usize>)
        ensures
            match r {
                Some(i) => i < self.pending@.len() && !self.pending@[i as int].live && forall|j: int|
                    0 <= j < i ==> (#[trigger] self.pending@[j]).live,
                None => forall|j: int|
                    0 <= j < self.pending@.len() ==> (#[trigger] self.pending@[j]).live,
            },
    {
        let mut i: usize = 0;
        while i < self.pending.len()
            invariant
                i <= self.pending@.len(),
                forall|j: int| 0 <= j < i ==> (#[trigger] self.pending@[j]).live,
            decreases self.pending@.len() - i,
        {
            if !self.pending[i].live {
                return Some(i);
            }
            i = i + 1;
        }
        None
    }

    /// Why an ask is refused before its credential is looked at.
    pub open spec fn early_refusal(ask: Ask, keyset_empty: bool, now: Option<u64>) -> Option<AdmitErr> {
        if ask.credential@.len() == 0 || ask.proof@.len() == 0 {
            Some(AdmitErr::Unauthenticated)
        } else if keyset_empty {
            Some(AdmitErr::NoKey)
        } else if now is None {
            Some(AdmitErr::NoClock)
        } else {
            None
        }
    }

    /// An early refusal was counted. Only the first kind is one of the presenter.
    pub open spec fn refused_early(before: Self, after: Self, why: AdmitErr) -> bool {
        &&& after.admit_unauthenticated == if why == AdmitErr::Unauthenticated {
            keys::counted(before.admit_unauthenticated)
        } else {
            before.admit_unauthenticated
        }
        &&& after.admit_unavailable == if why == AdmitErr::Unauthenticated {
            before.admit_unavailable
        } else {
            keys::counted(before.admit_unavailable)
        }
        &&& (Admission {
            admit_unauthenticated: before.admit_unauthenticated,
            admit_unavailable: before.admit_unavailable,
            ..after
        }).same_counters(before)
    }

    /// What can be refused before the credential is looked at. The time comes back where nothing
    /// was.
    pub fn precheck(&mut self, ask: &Ask, keyset_empty: bool, now: Option<u64>) -> (r: Result<
        u64,
        Refusal,
    >)
        ensures
            final(self).pending == old(self).pending,
            final(self).next_corr == old(self).next_corr,
            final(self).same_policy(*old(self)),
            match Self::early_refusal(*ask, keyset_empty, now) {
                Some(why) => r == Err::<u64, Refusal>(
                    Refusal { corr: ask.corr, status: why, grant: ask.grant },
                ) && Self::refused_early(*old(self), *final(self), why),
                None => r == Ok::<u64, Refusal>(now->0) && final(self).same_counters(*old(self)),
            },
    {
        if ask.credential.len() == 0 || ask.proof.len() == 0 {
            count(&mut self.admit_unauthenticated);
            return Err(
                Refusal { corr: ask.corr, status: AdmitErr::Unauthenticated, grant: ask.grant },
            );
        }
        if keyset_empty {
            count(&mut self.admit_unavailable);
            return Err(Refusal { corr: ask.corr, status: AdmitErr::NoKey, grant: ask.grant });
        }
        match now {
            Some(now) => Ok(now),
            None => {
                count(&mut self.admit_unavailable);
                Err(Refusal { corr: ask.corr, status: AdmitErr::NoClock, grant: ask.grant })
            },
        }
    }

    /// Why a presentation is refused once its credential was checked.
    pub open spec fn presentation_refusal(self, auth: Result<Held, AuthError>) -> Option<AdmitErr> {
        match auth {
            Err(why) => if why == AuthError::Replay {
                Some(AdmitErr::Replay)
            } else {
                Some(AdmitErr::Unauthenticated)
            },
            Ok(held) => if claims::text_claim(held.claims@, bytes::text("sub")) is None
                || claims::text_claim(held.claims@, bytes::text("device_id")) is None {
                Some(AdmitErr::Unauthenticated)
            } else if forall|i: int| 0 <= i < self.pending@.len() ==> (#[trigger] self.pending@[i]).live {
                Some(AdmitErr::StateUnavailable)
            } else {
                None
            },
        }
    }

    /// What follows the check of a credential: a refusal, or a claim of the proof's identifier
    /// under an entry of its own.
    pub open spec fn handled(
        before: Self,
        after: Self,
        ask: Ask,
        now: u64,
        auth: Result<Held, AuthError>,
        r: HandleStep,
    ) -> bool {
        match before.presentation_refusal(auth) {
            Some(why) => {
                &&& r == HandleStep::Refuse(
                    Refusal { corr: ask.corr, status: why, grant: ask.grant },
                )
                &&& after.next_corr == before.next_corr
                &&& (Admission {
                    admit_unauthenticated: before.admit_unauthenticated,
                    admit_replay: before.admit_replay,
                    admit_in_flight_full: before.admit_in_flight_full,
                    ..after
                }).same_counters(before)
                &&& after.admit_unauthenticated == if why == AdmitErr::Unauthenticated {
                    keys::counted(before.admit_unauthenticated)
                } else {
                    before.admit_unauthenticated
                }
                &&& after.admit_replay == if why == AdmitErr::Replay {
                    keys::counted(before.admit_replay)
                } else {
                    before.admit_replay
                }
                &&& after.admit_in_flight_full == if why == AdmitErr::StateUnavailable {
                    keys::counted(before.admit_in_flight_full)
                } else {
                    before.admit_in_flight_full
                }
            },
            None => {
                &&& after.same_counters(before)
                &&& after.next_corr == keys::next_correlation(before.next_corr)
                &&& r matches HandleStep::Claim(c)
                &&& c.index < 8
                &&& !before.pending@[c.index as int].live
                &&& forall|j: int| 0 <= j < c.index ==> (#[trigger] before.pending@[j]).live
                &&& c.expires_at == now + PROOF_WINDOW_SECS
                &&& auth matches Ok(held)
                &&& claim_entry(c.entry, ask, now, held, before.next_corr)
            },
        }
    }

    /// The credential was checked: refuse, or claim the proof's identifier before anything else.
    /// Subject and device come out of the credential; nothing in the request names them.
    pub fn handle(&mut self, ask: &Ask, now: u64, auth: Result<Held, AuthError>) -> (r: HandleStep)
        requires
            old(self).wf(),
            now + PROOF_WINDOW_SECS <= u64::MAX,
        ensures
            final(self).wf(),
            final(self).pending == old(self).pending,
            final(self).same_policy(*old(self)),
            Self::handled(*old(self), *final(self), *ask, now, auth, r),
    {
        let held = match auth {
            Ok(held) => held,
            Err(why) => {
                if why == AuthError::Replay {
                    count(&mut self.admit_replay);
                    return HandleStep::Refuse(
                        Refusal { corr: ask.corr, status: AdmitErr::Replay, grant: ask.grant },
                    );
                }
                count(&mut self.admit_unauthenticated);
                return HandleStep::Refuse(
                    Refusal { corr: ask.corr, status: AdmitErr::Unauthenticated, grant: ask.grant },
                );
            },
        };
        let sub = claim_str(held.claims.as_slice(), "sub".as_bytes());
        let device = claim_str(held.claims.as_slice(), "device_id".as_bytes());
        let (sub, device) = match (sub, device) {
            (Some(sub), Some(device)) => (sub, device),
            _ => {
                count(&mut self.admit_unauthenticated);
                return HandleStep::Refuse(
                    Refusal { corr: ask.corr, status: AdmitErr::Unauthenticated, grant: ask.grant },
                );
            },
        };
        let index: usize = match self.free_slot() {
            Some(index) => index,
            None => {
                count(&mut self.admit_in_flight_full);
                return HandleStep::Refuse(
                    Refusal { corr: ask.corr, status: AdmitErr::StateUnavailable, grant: ask.grant },
                );
            },
        };
        let state_corr: u32 = self.next_corr;
        self.next_corr = advance_correlation(self.next_corr);
        let entry = Pending {
            live: true,
            caller_corr: ask.corr,
            state_corr,
            mint_corr: 0,
            grant: ask.grant,
            awaiting_mint: false,
            sub: copy_field(sub, MAX_FIELD),
            device_id: copy_field(device, MAX_FIELD),
            jkt: held.thumbprint,
            evidence: Evidence::at(0),
            stage: Stage::ClaimProof,
            replay_key: base64::encode(held.proof_id.as_slice()),
            otp: copy_field(ask.otp.as_slice(), MAX_OTP),
            proved_at: now,
        };
        HandleStep::Claim(Claim { index, entry, expires_at: now + PROOF_WINDOW_SECS })
    }

    /// Answer one ask, up to the claim of its proof: whatever is presented is checked against the
    /// held keys and the window, as a device certificate and a proof for the request that the ask
    /// names.
    pub fn present(
        &mut self,
        ask: &Ask,
        keys: &Verifier,
        window: &mut ReplayWindow,
        now: Option<u64>,
    ) -> (r: HandleStep)
        requires
            old(self).wf(),
            old(window).wf(),
            now matches Some(t) ==> t + PROOF_WINDOW_SECS <= u64::MAX,
        ensures
            final(self).wf(),
            final(window).wf(),
            final(self).pending == old(self).pending,
            final(self).same_policy(*old(self)),
            match Self::early_refusal(*ask, !keys.any_live(), now) {
                Some(why) => {
                    &&& r == HandleStep::Refuse(
                        Refusal { corr: ask.corr, status: why, grant: ask.grant },
                    )
                    &&& Self::refused_early(*old(self), *final(self), why)
                    &&& final(self).next_corr == old(self).next_corr
                    &&& *final(window) == *old(window)
                },
                None => exists|auth: Result<Held, AuthError>|
                    {
                        &&& #[trigger] device_auth::authenticated(
                            device_auth::named_key(keys.keys@, ask.credential@, now->0),
                            *old(window),
                            *final(window),
                            ask.shown(),
                            device_auth::certificate_policy(),
                            now->0,
                            auth,
                        )
                        &&& Self::handled(*old(self), *final(self), *ask, now->0, auth, r)
                    },
            },
    {
        let now: u64 = match self.precheck(ask, !keys.holds_any(), now) {
            Ok(now) => now,
            Err(refusal) => {
                return HandleStep::Refuse(refusal);
            },
        };
        let p = Presentation {
            credential: ask.credential.as_slice(),
            proof: ask.proof.as_slice(),
            method: ask.method.as_slice(),
            uri: ask.uri.as_slice(),
        };
        let issuer = select_issuer(keys, ask.credential.as_slice(), now);
        let auth = authenticate(&issuer, window, &p, &device_certificates(), now);
        let ghost checked = *self;
        let ghost outcome = auth;
        assert(device_auth::authenticated(
            device_auth::named_key(keys.keys@, ask.credential@, now),
            *old(window),
            *window,
            ask.shown(),
            device_auth::certificate_policy(),
            now,
            outcome,
        ));
        let step = self.handle(ask, now, auth);
        proof {
            lemma_handled(*old(self), checked, *self, *ask, now, outcome, step);
        }
        step
    }

    /// The claim was sent to the ledger, or could not be.
    pub fn claim_sent(&mut self, index: usize, entry: Pending, sent: bool) -> (r: Option<Refusal>)
        requires
            old(self).wf(),
            index < 8,
        ensures
            final(self).wf(),
            final(self).next_corr == old(self).next_corr,
            final(self).same_policy(*old(self)),
            sent ==> r is None && final(self).pending@ == old(self).pending@.update(
                index as int,
                entry,
            ) && final(self).same_counters(*old(self)),
            !sent ==> r == Some(
                Refusal {
                    corr: entry.caller_corr,
                    status: AdmitErr::StateUnavailable,
                    grant: entry.grant,
                },
            ) && final(self).pending == old(self).pending && final(self).admit_unavailable
                == keys::counted(old(self).admit_unavailable) && (Admission {
                admit_unavailable: old(self).admit_unavailable,
                ..*final(self)
            }).same_counters(*old(self)),
    {
        if sent {
            self.pending[index] = entry;
            None
        } else {
            count(&mut self.admit_unavailable);
            Some(
                Refusal {
                    corr: entry.caller_corr,
                    status: AdmitErr::StateUnavailable,
                    grant: entry.grant,
                },
            )
        }
    }

    fn take(&mut self, index: usize) -> (r: Pending)
        requires
            old(self).wf(),
            index < 8,
        ensures
            r == old(self).pending@[index as int],
            final(self).wf(),
            final(self).pending@[index as int].vacant(),
            forall|j: int|
                0 <= j < 8 && j != index ==> #[trigger] final(self).pending@[j]
                    == old(self).pending@[j],
            final(self).next_corr == old(self).next_corr,
            final(self).same_policy(*old(self)),
            final(self).same_counters(*old(self)),
    {
        let mut entry = Pending::zero();
        core::mem::swap(&mut entry, &mut self.pending[index]);
        entry
    }

    fn awaiting(&self, corr: u32) -> (r: Option<usize>)
        ensures
            match r {
                Some(i) => awaiting_from(self.pending@, corr, 0) == Some(i as int) && i
                    < self.pending@.len(),
                None => awaiting_from(self.pending@, corr, 0) is None,
            },
    {
        let mut i: usize = 0;
        while i < self.pending.len()
            invariant
                i <= self.pending@.len(),
                awaiting_from(self.pending@, corr, 0) == awaiting_from(self.pending@, corr, i as int),
            decreases self.pending@.len() - i,
        {
            if self.pending[i].live && self.pending[i].state_corr == corr {
                return Some(i);
            }
            i = i + 1;
        }
        None
    }

    fn minting(&self, corr: u32) -> (r: Option<usize>)
        ensures
            match r {
                Some(i) => minting_from(self.pending@, corr, 0) == Some(i as int) && i
                    < self.pending@.len(),
                None => minting_from(self.pending@, corr, 0) is None,
            },
    {
        let mut i: usize = 0;
        while i < self.pending.len()
            invariant
                i <= self.pending@.len(),
                minting_from(self.pending@, corr, 0) == minting_from(self.pending@, corr, i as int),
            decreases self.pending@.len() - i,
        {
            if self.pending[i].live && self.pending[i].awaiting_mint && self.pending[i].mint_corr
                == corr {
                return Some(i);
            }
            i = i + 1;
        }
        None
    }

    /// One reply of the ledger. A reply that nobody waits for is counted and dropped; any other
    /// frees its entry and settles, or moves on, the request that waited.
    pub fn drain_state(&mut self, rep: &StateReply) -> (r: StateStep)
        requires
            old(self).wf(),
        ensures
            final(self).wf(),
            final(self).same_policy(*old(self)),
            rep.client != STATE_CLIENT ==> r is Ignore && *final(self) == *old(self),
            rep.client == STATE_CLIENT ==> match awaiting_from(
                old(self).pending@,
                rep.correlation,
                0,
            ) {
                None => r is Ignore && final(self).pending == old(self).pending
                    && final(self).next_corr == old(self).next_corr
                    && final(self).admit_unmatched_reply == keys::counted(
                    old(self).admit_unmatched_reply,
                ) && (Admission {
                    admit_unmatched_reply: old(self).admit_unmatched_reply,
                    ..*final(self)
                }).same_counters(*old(self)),
                Some(i) => {
                    let entry = old(self).pending@[i];
                    &&& final(self).pending@[i].vacant()
                    &&& forall|j: int|
                        0 <= j < 8 && j != i ==> #[trigger] final(self).pending@[j]
                            == old(self).pending@[j]
                    &&& if entry.stage == Stage::ClaimProof {
                        claim_answered(*old(self), *final(self), i, entry, rep.status, r)
                    } else {
                        device_answered(*old(self), *final(self), i, entry, rep.status, rep.value@, r)
                    }
                },
            },
    {
        if rep.client != STATE_CLIENT {
            return StateStep::Ignore;
        }
        let index: usize = match self.awaiting(rep.correlation) {
            Some(index) => index,
            None => {
                count(&mut self.admit_unmatched_reply);
                return StateStep::Ignore;
            },
        };
        let entry = self.take(index);
        match entry.stage {
            Stage::ClaimProof => match replay_claim_result(rep.status) {
                ReplayClaim::Replayed => {
                    count(&mut self.admit_replay);
                    StateStep::Refuse(
                        Refusal {
                            corr: entry.caller_corr,
                            status: AdmitErr::Replay,
                            grant: entry.grant,
                        },
                    )
                },
                ReplayClaim::Unavailable => {
                    count(&mut self.admit_unavailable);
                    StateStep::Refuse(
                        Refusal {
                            corr: entry.caller_corr,
                            status: AdmitErr::StateUnavailable,
                            grant: entry.grant,
                        },
                    )
                },
                ReplayClaim::Fresh => self.stage_device_read(index, entry),
            },
            Stage::Device => self.device_record(index, entry, rep.status, rep.value.as_slice()),
        }
    }

    /// The proof is claimed: the device record is next, under a correlation of its own.
    pub fn stage_device_read(&mut self, index: usize, entry: Pending) -> (r: StateStep)
        requires
            old(self).wf(),
        ensures
            final(self).wf(),
            final(self).pending == old(self).pending,
            final(self).same_policy(*old(self)),
            final(self).same_counters(*old(self)),
            final(self).next_corr == keys::next_correlation(old(self).next_corr),
            r == (StateStep::ReadDevice {
                index,
                entry: Pending {
                    stage: Stage::Device,
                    state_corr: old(self).next_corr,
                    live: true,
                    ..entry
                },
            }),
    {
        let state_corr: u32 = self.next_corr;
        self.next_corr = advance_correlation(self.next_corr);
        StateStep::ReadDevice {
            index,
            entry: Pending { stage: Stage::Device, state_corr, live: true, ..entry },
        }
    }

    /// The device record came back, or did not: the second and third facts.
    pub fn device_record(&mut self, index: usize, entry: Pending, status: Status, record: &[u8]) -> (r:
        StateStep)
        requires
            old(self).wf(),
        ensures
            final(self).wf(),
            final(self).pending == old(self).pending,
            final(self).same_policy(*old(self)),
            device_answered(*old(self), *final(self), index as int, entry, status, record@, r),
    {
        match status {
            Status::Success => {},
            Status::NotFound => {
                count(&mut self.admit_unknown_device);
                return StateStep::Refuse(
                    Refusal {
                        corr: entry.caller_corr,
                        status: AdmitErr::UnknownDevice,
                        grant: entry.grant,
                    },
                );
            },
            _ => {
                count(&mut self.admit_unavailable);
                return StateStep::Refuse(
                    Refusal {
                        corr: entry.caller_corr,
                        status: AdmitErr::StateUnavailable,
                        grant: entry.grant,
                    },
                );
            },
        }
        if claim_is(record, "status".as_bytes(), "revoked".as_bytes()) {
            count(&mut self.admit_revoked);
            return StateStep::Refuse(
                Refusal { corr: entry.caller_corr, status: AdmitErr::Revoked, grant: entry.grant },
            );
        }
        let verified = match verify_presented_otp(&entry, record) {
            OtpOutcome::NonePresented => false,
            OtpOutcome::Verified => true,
            OtpOutcome::Refused => {
                count(&mut self.admit_bad_otp);
                return StateStep::Refuse(
                    Refusal {
                        corr: entry.caller_corr,
                        status: AdmitErr::Unauthenticated,
                        grant: entry.grant,
                    },
                );
            },
        };
        let evidence = establish_evidence(record, entry.proved_at, verified);
        let ghost before = entry;
        let entry = Pending { evidence, ..entry };
        assert(with_evidence(entry, before, record@));
        if entry.grant {
            self.emit_mint(index, entry)
        } else {
            self.admit_presenter(entry)
        }
    }

    /// Answer with the identity that the credential established.
    pub fn admit_presenter(&mut self, entry: Pending) -> (r: StateStep)
        requires
            old(self).wf(),
        ensures
            final(self).wf(),
            final(self).pending == old(self).pending,
            final(self).next_corr == old(self).next_corr,
            final(self).same_policy(*old(self)),
            final(self).admit_ok == keys::counted(old(self).admit_ok),
            (Admission { admit_ok: old(self).admit_ok, ..*final(self) }).same_counters(*old(self)),
            r matches StateStep::Admit(a) && a.corr == entry.caller_corr && a.sub == entry.sub
                && a.device_id == entry.device_id && a.jkt == entry.jkt && a.evidence
                == entry.evidence,
    {
        count(&mut self.admit_ok);
        StateStep::Admit(
            Admitted {
                corr: entry.caller_corr,
                sub: entry.sub,
                device_id: entry.device_id,
                jkt: entry.jkt,
                evidence: entry.evidence,
            },
        )
    }

    /// Mint for an admitted presenter, under the deployment's policy; refuse where no mint is
    /// wired.
    pub fn emit_mint(&mut self, index: usize, entry: Pending) -> (r: StateStep)
        requires
            old(self).wf(),
        ensures
            final(self).wf(),
            final(self).pending == old(self).pending,
            final(self).same_policy(*old(self)),
            minted(*old(self), *final(self), index as int, entry, r),
    {
        if !self.mint_wired {
            count(&mut self.grant_mint_failed);
            return StateStep::Refuse(
                Refusal { corr: entry.caller_corr, status: AdmitErr::MintFailed, grant: true },
            );
        }
        let mint_corr: u32 = self.next_corr;
        self.next_corr = advance_correlation(self.next_corr);
        let order = MintOrder {
            correlation: mint_corr,
            suite: self.grant_suite,
            ttl_seconds: self.ttl_seconds,
            iss: vstd::slice::slice_to_vec(self.iss.as_slice()),
            sub: vstd::slice::slice_to_vec(entry.sub.as_slice()),
            aud: vstd::slice::slice_to_vec(self.aud.as_slice()),
            scope: vstd::slice::slice_to_vec(self.scope.as_slice()),
            jkt: vstd::slice::slice_to_vec(entry.jkt.as_slice()),
            evidence: entry.evidence,
        };
        StateStep::Mint {
            index,
            entry: Pending { live: true, awaiting_mint: true, mint_corr, ..entry },
            order,
        }
    }

    /// A read of the device record, or an order to the mint, was sent or could not be.
    pub fn restaged(&mut self, index: usize, entry: Pending, sent: bool) -> (r: Option<Refusal>)
        requires
            old(self).wf(),
            index < 8,
        ensures
            final(self).wf(),
            final(self).next_corr == old(self).next_corr,
            final(self).same_policy(*old(self)),
            sent ==> r is None && final(self).pending@ == old(self).pending@.update(
                index as int,
                entry,
            ) && final(self).same_counters(*old(self)),
            !sent ==> final(self).pending == old(self).pending && r == Some(
                Refusal {
                    corr: entry.caller_corr,
                    status: if entry.awaiting_mint {
                        AdmitErr::MintFailed
                    } else {
                        AdmitErr::StateUnavailable
                    },
                    grant: entry.grant || entry.awaiting_mint,
                },
            ) && final(self).grant_mint_failed == (if entry.awaiting_mint {
                keys::counted(old(self).grant_mint_failed)
            } else {
                old(self).grant_mint_failed
            }) && final(self).admit_unavailable == (if entry.awaiting_mint {
                old(self).admit_unavailable
            } else {
                keys::counted(old(self).admit_unavailable)
            }) && (Admission {
                grant_mint_failed: old(self).grant_mint_failed,
                admit_unavailable: old(self).admit_unavailable,
                ..*final(self)
            }).same_counters(*old(self)),
    {
        if sent {
            self.pending[index] = entry;
            return None;
        }
        if entry.awaiting_mint {
            count(&mut self.grant_mint_failed);
            Some(Refusal { corr: entry.caller_corr, status: AdmitErr::MintFailed, grant: true })
        } else {
            count(&mut self.admit_unavailable);
            Some(
                Refusal {
                    corr: entry.caller_corr,
                    status: AdmitErr::StateUnavailable,
                    grant: entry.grant,
                },
            )
        }
    }

    /// One reply of the mint: the token, handed on to whoever asked. A failure, and a token
    /// delivered as a handle, are failures of the mint and not of the presenter.
    pub fn drain_mint(&mut self, rep: MintReply) -> (r: MintStep)
        requires
            old(self).wf(),
        ensures
            final(self).wf(),
            final(self).same_policy(*old(self)),
            final(self).next_corr == old(self).next_corr,
            match minting_from(old(self).pending@, rep.correlation, 0) {
                None => r is Ignore && final(self).pending == old(self).pending
                    && final(self).admit_unmatched_reply == keys::counted(
                    old(self).admit_unmatched_reply,
                ) && (Admission {
                    admit_unmatched_reply: old(self).admit_unmatched_reply,
                    ..*final(self)
                }).same_counters(*old(self)),
                Some(i) => {
                    let entry = old(self).pending@[i];
                    &&& final(self).pending@[i].vacant()
                    &&& forall|j: int|
                        0 <= j < 8 && j != i ==> #[trigger] final(self).pending@[j]
                            == old(self).pending@[j]
                    &&& token_answered(*old(self), *final(self), entry, rep, r)
                },
            },
    {
        let index: usize = match self.minting(rep.correlation) {
            Some(index) => index,
            None => {
                count(&mut self.admit_unmatched_reply);
                return MintStep::Ignore;
            },
        };
        let entry = self.take(index);
        if !rep.ok || !rep.inline {
            count(&mut self.grant_mint_failed);
            return MintStep::Refuse(
                Refusal { corr: entry.caller_corr, status: AdmitErr::MintFailed, grant: true },
            );
        }
        count(&mut self.grant_ok);
        MintStep::Token { corr: entry.caller_corr, token: rep.body }
    }
}

/// What follows a check depends on what the check left alone.
proof fn lemma_handled(
    before: Admission,
    checked: Admission,
    after: Admission,
    ask: Ask,
    now: u64,
    auth: Result<Held, AuthError>,
    r: HandleStep,
)
    requires
        checked.pending == before.pending,
        checked.next_corr == before.next_corr,
        checked.same_counters(before),
        Admission::handled(checked, after, ask, now, auth, r),
    ensures
        Admission::handled(before, after, ask, now, auth, r),
{
}

/// The entry under which a claim is sent: what the credential said, cut to what is carried.
pub open spec fn claim_entry(e: Pending, ask: Ask, now: u64, held: Held, corr: u32) -> bool {
    &&& e.live
    &&& e.caller_corr == ask.corr
    &&& e.state_corr == corr
    &&& e.mint_corr == 0
    &&& e.grant == ask.grant
    &&& !e.awaiting_mint
    &&& e.stage == Stage::ClaimProof
    &&& e.sub@ == bytes::clipped(claims::text_claim(held.claims@, bytes::text("sub"))->0, 256)
    &&& e.device_id@ == bytes::clipped(
        claims::text_claim(held.claims@, bytes::text("device_id"))->0,
        256,
    )
    &&& e.jkt == held.thumbprint
    &&& nothing_proved(e.evidence, 0)
    &&& e.replay_key@ == base64::encoded(held.proof_id@)
    &&& e.otp@ == bytes::clipped(ask.otp@, 8)
    &&& e.proved_at == now
}

/// What follows the answer to a claim: a proof goes on only where the ledger had not seen it.
pub open spec fn claim_answered(
    before: Admission,
    after: Admission,
    i: int,
    entry: Pending,
    status: Status,
    r: StateStep,
) -> bool {
    match ledger::claim_result(status) {
        ReplayClaim::Fresh => {
            &&& after.next_corr == keys::next_correlation(before.next_corr)
            &&& after.same_counters(before)
            &&& r matches StateStep::ReadDevice { index, entry: next }
            &&& index == i
            &&& next == (Pending {
                stage: Stage::Device,
                state_corr: before.next_corr,
                live: true,
                ..entry
            })
        },
        ReplayClaim::Replayed => {
            &&& after.next_corr == before.next_corr
            &&& r == StateStep::Refuse(
                Refusal { corr: entry.caller_corr, status: AdmitErr::Replay, grant: entry.grant },
            )
            &&& after.admit_replay == keys::counted(before.admit_replay)
            &&& (Admission { admit_replay: before.admit_replay, ..after }).same_counters(before)
        },
        ReplayClaim::Unavailable => {
            &&& after.next_corr == before.next_corr
            &&& r == StateStep::Refuse(
                Refusal {
                    corr: entry.caller_corr,
                    status: AdmitErr::StateUnavailable,
                    grant: entry.grant,
                },
            )
            &&& after.admit_unavailable == keys::counted(before.admit_unavailable)
            &&& (Admission { admit_unavailable: before.admit_unavailable, ..after }).same_counters(
                before,
            )
        },
    }
}

/// What follows the device record.
pub open spec fn device_answered(
    before: Admission,
    after: Admission,
    i: int,
    entry: Pending,
    status: Status,
    record: Seq<u8>,
    r: StateStep,
) -> bool {
    match device_refusal(entry, status, record) {
        Some(why) => {
            &&& after.next_corr == before.next_corr
            &&& r == StateStep::Refuse(
                Refusal { corr: entry.caller_corr, status: why, grant: entry.grant },
            )
            &&& after.admit_unknown_device == if why == AdmitErr::UnknownDevice {
                keys::counted(before.admit_unknown_device)
            } else {
                before.admit_unknown_device
            }
            &&& after.admit_unavailable == if why == AdmitErr::StateUnavailable {
                keys::counted(before.admit_unavailable)
            } else {
                before.admit_unavailable
            }
            &&& after.admit_revoked == if why == AdmitErr::Revoked {
                keys::counted(before.admit_revoked)
            } else {
                before.admit_revoked
            }
            &&& after.admit_bad_otp == if why == AdmitErr::Unauthenticated {
                keys::counted(before.admit_bad_otp)
            } else {
                before.admit_bad_otp
            }
            &&& (Admission {
                admit_unknown_device: before.admit_unknown_device,
                admit_unavailable: before.admit_unavailable,
                admit_revoked: before.admit_revoked,
                admit_bad_otp: before.admit_bad_otp,
                ..after
            }).same_counters(before)
        },
        None => exists|proved: Pending| #[trigger]
            with_evidence(proved, entry, record) && if entry.grant {
                minted(before, after, i, proved, r)
            } else {
                &&& after.next_corr == before.next_corr
                &&& after.admit_ok == keys::counted(before.admit_ok)
                &&& (Admission { admit_ok: before.admit_ok, ..after }).same_counters(before)
                &&& r matches StateStep::Admit(a)
                &&& a.corr == entry.caller_corr
                &&& a.sub == entry.sub
                &&& a.device_id == entry.device_id
                &&& a.jkt == entry.jkt
                &&& a.evidence == proved.evidence
            },
    }
}

/// `proved` is `entry` with the evidence that its record and its proof establish.
pub open spec fn with_evidence(proved: Pending, entry: Pending, record: Seq<u8>) -> bool {
    &&& established(
        proved.evidence,
        record,
        entry.proved_at,
        otp_outcome(entry.otp@, record, entry.proved_at) == OtpOutcome::Verified,
    )
    &&& proved == (Pending { evidence: proved.evidence, ..entry })
}

/// What follows admission in the granting mode.
pub open spec fn minted(
    before: Admission,
    after: Admission,
    i: int,
    entry: Pending,
    r: StateStep,
) -> bool {
    if before.mint_wired {
        &&& after.next_corr == keys::next_correlation(before.next_corr)
        &&& after.same_counters(before)
        &&& r matches StateStep::Mint { index, entry: next, order }
        &&& index == i
        &&& next == (Pending {
            live: true,
            awaiting_mint: true,
            mint_corr: before.next_corr,
            ..entry
        })
        &&& order.correlation == before.next_corr
        &&& order.suite == before.grant_suite
        &&& order.ttl_seconds == before.ttl_seconds
        &&& order.iss@ == before.iss@
        &&& order.sub@ == entry.sub@
        &&& order.aud@ == before.aud@
        &&& order.scope@ == before.scope@
        &&& order.jkt@ == entry.jkt@
        &&& order.evidence == entry.evidence
    } else {
        &&& after.next_corr == before.next_corr
        &&& r == StateStep::Refuse(
            Refusal { corr: entry.caller_corr, status: AdmitErr::MintFailed, grant: true },
        )
        &&& after.grant_mint_failed == keys::counted(before.grant_mint_failed)
        &&& (Admission { grant_mint_failed: before.grant_mint_failed, ..after }).same_counters(
            before,
        )
    }
}

/// Nobody is admitted, and nothing is minted, on a device record that the ledger does not hold
/// or holds as revoked, or beside a code that does not hold.
pub proof fn admitted_means_enrolled(
    before: Admission,
    after: Admission,
    i: int,
    entry: Pending,
    status: Status,
    record: Seq<u8>,
    r: StateStep,
)
    requires
        device_answered(before, after, i, entry, status, record, r),
        r is Admit || r is Mint,
    ensures
        status == Status::Success,
        !revoked(record),
        entry.otp@.len() == 0 || otp_holds(entry.otp@, record, entry.proved_at),
{
}

/// A proof that the ledger has seen, or whose claim it could not take, never reaches the device
/// record.
pub proof fn replayed_proofs_stop(
    before: Admission,
    after: Admission,
    i: int,
    entry: Pending,
    status: Status,
    r: StateStep,
)
    requires
        claim_answered(before, after, i, entry, status, r),
        status != Status::Success,
    ensures
        r is Refuse,
{
}

/// What a reply of the mint comes to for the entry that waited for it.
pub open spec fn token_answered(
    before: Admission,
    after: Admission,
    entry: Pending,
    rep: MintReply,
    r: MintStep,
) -> bool {
    if rep.ok && rep.inline {
        &&& r == (MintStep::Token { corr: entry.caller_corr, token: rep.body })
        &&& after.grant_ok == keys::counted(before.grant_ok)
        &&& (Admission { grant_ok: before.grant_ok, ..after }).same_counters(before)
    } else {
        &&& r == MintStep::Refuse(
            Refusal { corr: entry.caller_corr, status: AdmitErr::MintFailed, grant: true },
        )
        &&& after.grant_mint_failed == keys::counted(before.grant_mint_failed)
        &&& (Admission { grant_mint_failed: before.grant_mint_failed, ..after }).same_counters(
            before,
        )
    }
}

/// Whoever asked is handed the token that the mint made, and nobody is handed anything where it
/// made none.
pub proof fn the_minted_token_is_handed_on(
    before: Admission,
    after: Admission,
    entry: Pending,
    rep: MintReply,
    r: MintStep,
)
    requires
        token_answered(before, after, entry, rep, r),
    ensures
        r is Token <==> rep.ok && rep.inline,
        r matches MintStep::Token { corr, token } ==> corr == entry.caller_corr && token@ == rep.body@,
        r matches MintStep::Refuse(why) ==> why.corr == entry.caller_corr && why.status
            == AdmitErr::MintFailed,
{
}

/// The steps of one admission: the claim of the proof, and the read of the device record.
pub open spec fn presented_and_claimed(
    states: Seq<Admission>,
    ask: Ask,
    now: u64,
    held: Held,
    claim: Claim,
    index: usize,
    reading: Pending,
) -> bool {
    &&& states.len() == 4
    &&& Admission::handled(
        states[0],
        states[1],
        ask,
        now,
        Ok(held),
        HandleStep::Claim(claim),
    )
    &&& claim_answered(
        states[2],
        states[3],
        index as int,
        claim.entry,
        Status::Success,
        StateStep::ReadDevice { index, entry: reading },
    )
}

/// Whoever is admitted is who the certificate names: its subject and its device, bound to the key
/// that the proof was made with. What is said of how they authenticated is what they did now, and
/// what their enrolment proved: a proof always, a code where one was presented and held, and the
/// methods that the record lists; at the time of the proof.
pub proof fn admitted_as_the_certificate_says(
    states: Seq<Admission>,
    ask: Ask,
    now: u64,
    held: Held,
    claim: Claim,
    index: usize,
    reading: Pending,
    before: Admission,
    after: Admission,
    status: Status,
    record: Seq<u8>,
    r: StateStep,
    sub: Seq<u8>,
    device: Seq<u8>,
)
    requires
        presented_and_claimed(states, ask, now, held, claim, index, reading),
        device_answered(before, after, index as int, reading, status, record, r),
        claims::text_claim(held.claims@, bytes::text("sub")) == Some(sub),
        claims::text_claim(held.claims@, bytes::text("device_id")) == Some(device),
        sub.len() <= 256,
        device.len() <= 256,
        ask.otp@.len() <= 8,
    ensures
        claim.entry.replay_key@ == base64::encoded(held.proof_id@),
        claim.expires_at == now + 300,
        reading.device_id@ == device,
        r matches StateStep::Admit(a) ==> {
            &&& !ask.grant
            &&& a.corr == ask.corr
            &&& a.sub@ == sub
            &&& a.device_id@ == device
            &&& a.jkt@ == held.thumbprint@
            &&& evidence_says(a.evidence, record, now, ask.otp@.len() > 0)
        },
        r matches StateStep::Mint { index: at, entry, order } ==> {
            &&& ask.grant
            &&& order.sub@ == sub
            &&& order.jkt@ == held.thumbprint@
            &&& order.iss@ == before.iss@
            &&& order.aud@ == before.aud@
            &&& order.scope@ == before.scope@
            &&& order.ttl_seconds == before.ttl_seconds
            &&& order.suite == before.grant_suite
            &&& entry.caller_corr == ask.corr
            &&& entry.awaiting_mint
            &&& entry.mint_corr == order.correlation
            &&& evidence_says(order.evidence, record, now, ask.otp@.len() > 0)
        },
        r is Admit || r is Mint || r is Refuse,
{
    assert(reading.otp@ =~= ask.otp@);
    if r is Admit || r is Mint {
        let proved = choose|proved: Pending| #[trigger]
            with_evidence(proved, reading, record) && if reading.grant {
                minted(before, after, index as int, proved, r)
            } else {
                &&& after.next_corr == before.next_corr
                &&& after.admit_ok == keys::counted(before.admit_ok)
                &&& (Admission { admit_ok: before.admit_ok, ..after }).same_counters(before)
                &&& r matches StateStep::Admit(a)
                &&& a.corr == reading.caller_corr
                &&& a.sub == reading.sub
                &&& a.device_id == reading.device_id
                &&& a.jkt == reading.jkt
                &&& a.evidence == proved.evidence
            };
        let e = proved.evidence;
        assert(e.has(AuthMethod::Email) == e.email);
        assert(e.has(AuthMethod::Pop) == e.pop);
        assert(e.has(AuthMethod::Otp) == e.otp);
        assert(e.has(AuthMethod::Hwk) == e.hwk);
        assert(e.has(AuthMethod::Swk) == e.swk);
        assert(e.has(AuthMethod::User) == e.user);
        assert(e.has(AuthMethod::Webauthn) == e.webauthn);
        assert(evidence_says(e, record, now, ask.otp@.len() > 0));
    }
}

/// The evidence is a proof made now, a code where one was shown to hold, and what the record lists.
pub open spec fn evidence_says(e: Evidence, record: Seq<u8>, now: u64, coded: bool) -> bool {
    let listed = match claims::array_claim(record, bytes::text("amr")) {
        Some(raw) => claims::quoted_items(raw),
        None => Seq::empty(),
    };
    &&& e.pop
    &&& e.otp == (coded || listed.contains(bytes::text("otp")))
    &&& e.email == listed.contains(bytes::text("email"))
    &&& e.hwk == listed.contains(bytes::text("hwk"))
    &&& e.swk == listed.contains(bytes::text("swk"))
    &&& e.user == listed.contains(bytes::text("user"))
    &&& e.webauthn == listed.contains(bytes::text("webauthn"))
    &&& (e.binding == KeyBinding::Hardware) == (claims::text_claim(
        record,
        bytes::text("key_binding"),
    ) == Some(bytes::text("hardware")))
    &&& e.binding != KeyBinding::Unstated
    &&& e.user_verified == (listed.contains(bytes::text("user")) || claims::text_claim(
        record,
        bytes::text("user_verified"),
    ) == Some(bytes::text("true")))
    &&& e.phishing_resistant == listed.contains(bytes::text("webauthn"))
    &&& e.auth_time == now
}

/// Whoever is on the ledger, is not revoked, and presents no code or one that holds, is admitted, or
/// minted for; everybody else is told why not, as far as it is theirs to know.
pub proof fn who_is_admitted(
    before: Admission,
    after: Admission,
    i: int,
    entry: Pending,
    status: Status,
    record: Seq<u8>,
    r: StateStep,
)
    requires
        device_answered(before, after, i, entry, status, record, r),
    ensures
        ({
            let gone = claims::text_claim(record, bytes::text("status")) == Some(
                bytes::text("revoked"),
            );
            let coded = entry.otp@.len() == 0 || code_holds(entry.otp@, record, entry.proved_at);
            let told = |why: AdmitErr| r == StateStep::Refuse(
                Refusal { corr: entry.caller_corr, status: why, grant: entry.grant },
            );
            &&& status == Status::NotFound ==> told(AdmitErr::UnknownDevice)
            &&& status != Status::NotFound && status != Status::Success ==> told(
                AdmitErr::StateUnavailable,
            )
            &&& status == Status::Success && gone ==> told(AdmitErr::Revoked)
            &&& status == Status::Success && !gone && !coded ==> told(AdmitErr::Unauthenticated)
            &&& status == Status::Success && !gone && coded && !entry.grant ==> r is Admit
            &&& status == Status::Success && !gone && coded && entry.grant && before.mint_wired
                ==> r is Mint
        }),
{
}

/// A code holds against a record whose authenticator is confirmed and whose secret decodes: six
/// digits that are the code of the present step, or of the one before or after, past the last one
/// that was used.
pub open spec fn code_holds(otp: Seq<u8>, record: Seq<u8>, at: u64) -> bool {
    let held = claims::text_claim(record, bytes::text("totp_secret"));
    let last = claims::number_claim(record, bytes::text("totp_counter"));
    &&& claims::text_claim(record, bytes::text("totp_confirmed")) == Some(bytes::text("true"))
    &&& held is Some
    &&& base32::decoded(held->0, 64) is Some
    &&& totp::code_value(otp) is Some
    &&& exists|c: u64| #[trigger]
        totp::holds_at(base32::decoded(held->0, 64)->0, totp::code_value(otp)->0, at, last, c)
}

/// Nobody is looked at who brings nothing, or while there is nothing to check them with or no time;
/// a bad presentation is refused, and a replayed one as such. Everybody else has their proof claimed
/// first, under the digest of its identifier.
pub proof fn who_is_looked_at(
    before: Admission,
    after: Admission,
    ask: Ask,
    now: u64,
    auth: Result<Held, AuthError>,
    r: HandleStep,
    keyless: bool,
    clock: Option<u64>,
)
    requires
        before.wf(),
        Admission::handled(before, after, ask, now, auth, r),
    ensures
        Admission::early_refusal(ask, keyless, clock) is None <==> ask.credential@.len() > 0
            && ask.proof@.len() > 0 && !keyless && clock is Some,
        auth is Err ==> r == HandleStep::Refuse(
            Refusal {
                corr: ask.corr,
                status: if auth->Err_0 == AuthError::Replay {
                    AdmitErr::Replay
                } else {
                    AdmitErr::Unauthenticated
                },
                grant: ask.grant,
            },
        ),
        r matches HandleStep::Claim(c) ==> {
            &&& auth matches Ok(held)
            &&& claims::text_claim(held.claims@, bytes::text("sub")) is Some
            &&& claims::text_claim(held.claims@, bytes::text("device_id")) is Some
            &&& c.entry.replay_key@ == base64::encoded(held.proof_id@)
            &&& c.entry.jkt@ == held.thumbprint@
            &&& c.entry.proved_at == now
        },
        auth matches Ok(held) && claims::text_claim(held.claims@, bytes::text("sub")) is Some
            && claims::text_claim(held.claims@, bytes::text("device_id")) is Some && (exists|i: int|
            0 <= i < 8 && !(#[trigger] before.pending@[i]).live) ==> r is Claim,
{
}

/// A proof goes on exactly where the ledger took its claim; a conflict is a replay.
pub proof fn a_proof_goes_on_once(
    before: Admission,
    after: Admission,
    i: int,
    entry: Pending,
    status: Status,
    r: StateStep,
)
    requires
        claim_answered(before, after, i, entry, status, r),
    ensures
        r is ReadDevice <==> status == Status::Success,
        status == Status::Conflict ==> r == StateStep::Refuse(
            Refusal { corr: entry.caller_corr, status: AdmitErr::Replay, grant: entry.grant },
        ),
        status != Status::Conflict && status != Status::Success ==> r == StateStep::Refuse(
            Refusal {
                corr: entry.caller_corr,
                status: AdmitErr::StateUnavailable,
                grant: entry.grant,
            },
        ),
{
}

} // verus!
