//! The enrolment endpoint: what becomes of a request at the issuer's front door, step by step,
//! while the ledger, the vault and the mailer do their part. A certificate leaves only when its
//! challenge was spent and its device recorded.
use vstd::prelude::*;
use vstd::slice::{slice_subrange, slice_to_vec};

use crate::base32;
use crate::base64;
use crate::bytes;
use crate::bytes::{append, copy_field, copy_into, equal_letters, starts_with};
use crate::certificate_endpoint::MAX_KEY_LABEL;
use crate::claims;
use crate::claims::{claim_or_empty, claim_str, json_string, write_json_field};
use crate::crypto;
use crate::device_auth;
use crate::device_auth::{authenticate, device_certificates, AuthError, Held, IssuerKey};
use crate::device_record;
use crate::device_record::{verify_presented_code, write_device_record};
use crate::enrollment_ceremony as ceremony;
use crate::enrollment_ceremony::{
    code_hash, compose_certificate, compose_challenge, enrolment_mail, examine, write_consumed,
    write_transaction, write_wrong_code, RedeemDraft, Refusal, StartDraft, Verdict, MAX_FIELD,
    MAX_TOKEN,
};
use crate::http;
use crate::http::{
    body_of, headers_of, is_complete, json_reply, json_reply_with, path_of, raw_header_value,
    read_frame, Reply, METHOD_POST,
};
use crate::jose;
use crate::keys;
use crate::keys::{advance_correlation, count, KeyRecord, KeyState, KeyUse, Suite};
use crate::ledger::{StateReply, Status};
use crate::replay::ReplayWindow;
use crate::totp::MAX_DIGITS;

verus! {

/// This module's client id on the ledger's reply port.
pub const STATE_CLIENT: u8 = 1;

/// Requests that wait for the ledger.
pub const MAX_PENDING: usize = 4;

/// Longest life of an operator's authorisation, in seconds.
pub const MAX_ENROL_AUTH_TTL_SECS: u32 = 300;

/// What is signed once, when the key is opened, to derive the key of the code hashes: nothing that
/// is ever signed for a caller.
pub const CODE_KEY_DOMAIN: &'static str = "kagi/enrolment/code-hmac/v1";

/// The body that tells of a wrong code, and of one that can no longer be tried.
pub const CODE_BODY: &'static str = "{\"error\":\"invalid_grant\",\"detail\":\"code\"}";

/// The body that tells of a spent transaction.
pub const CONSUMED_BODY: &'static str = "{\"error\":\"invalid_grant\",\"detail\":\"consumed\"}";

/// The body that tells of a ledger out of reach.
pub const UNAVAILABLE_BODY: &'static str = "{\"error\":\"temporarily_unavailable\",\"detail\":\"durability\"}";

/// What an entry waits for.
#[derive(Clone, Copy, Debug, PartialEq, Eq, Structural)]
pub enum Stage {
    /// The transaction of a start is being written.
    Start,
    /// The transaction is being read, to check a code against it.
    Lookup,
    /// The transaction is being spent.
    Consume,
    /// The device is being recorded.
    Commit,
    /// The transaction of an operator's authorisation is being written.
    AuthMint,
    /// The device record is being read, for its authenticator.
    TotpRead,
    /// The device record is being written, with its authenticator.
    TotpWrite,
}

/// One request that waits for the ledger.
pub struct Pending {
    pub live: bool,
    pub stage: Stage,
    pub conn: u16,
    pub stream: u16,
    pub corr: u32,
    /// The token that is the answer: a challenge or a certificate.
    pub cert: Vec<u8>,
    pub device_id: Vec<u8>,
    /// The claims of the certificate, or the mailbox of a start.
    pub claims: Vec<u8>,
    pub nonce: Vec<u8>,
    pub code: Vec<u8>,
    /// The correlation of the operator, who is not answered on a connection.
    pub caller_corr: u32,
    pub auth_exp: u64,
    /// The secret that is told once, when an authenticator is registered.
    pub totp_secret: Vec<u8>,
    pub totp_code: Vec<u8>,
    pub totp_confirming: bool,
}

impl Pending {
    pub open spec fn vacant(self) -> bool {
        &&& !self.live
        &&& self.stage == Stage::Start
        &&& self.conn == 0
        &&& self.stream == 0
        &&& self.corr == 0
        &&& self.cert@.len() == 0
        &&& self.device_id@.len() == 0
        &&& self.claims@.len() == 0
        &&& self.nonce@.len() == 0
        &&& self.code@.len() == 0
        &&& self.caller_corr == 0
        &&& self.auth_exp == 0
        &&& self.totp_secret@.len() == 0
        &&& self.totp_code@.len() == 0
        &&& !self.totp_confirming
    }

    pub fn zero() -> (r: Self)
        ensures
            r.vacant(),
    {
        Pending {
            live: false,
            stage: Stage::Start,
            conn: 0,
            stream: 0,
            corr: 0,
            cert: Vec::new(),
            device_id: Vec::new(),
            claims: Vec::new(),
            nonce: Vec::new(),
            code: Vec::new(),
            caller_corr: 0,
            auth_exp: 0,
            totp_secret: Vec::new(),
            totp_code: Vec::new(),
            totp_confirming: false,
        }
    }
}

#[derive(Clone, Copy, Debug, PartialEq, Eq, Structural)]
pub enum Namespace {
    Transaction,
    Device,
}

#[derive(Clone, Copy, Debug, PartialEq, Eq, Structural)]
pub enum LedgerOp {
    Get,
    PutIfAbsent,
    CompareAndSwap,
}

/// One request to the ledger.
pub struct LedgerAsk {
    pub op: LedgerOp,
    pub correlation: u32,
    pub namespace: Namespace,
    pub key: Vec<u8>,
    pub etag: Vec<u8>,
    pub value: Vec<u8>,
    /// Zero is never.
    pub expires_at: u64,
}

impl LedgerAsk {
    pub open spec fn is(
        self,
        op: LedgerOp,
        correlation: u32,
        namespace: Namespace,
        key: Seq<u8>,
        etag: Seq<u8>,
        value: Seq<u8>,
        expires_at: u64,
    ) -> bool {
        &&& self.op == op
        &&& self.correlation == correlation
        &&& self.namespace == namespace
        &&& self.key@ == key
        &&& self.etag@ == etag
        &&& self.value@ == value
        &&& self.expires_at == expires_at
    }
}

/// A mail to be submitted.
pub struct Mail {
    pub correlation: u32,
    pub from: Vec<u8>,
    pub to: Vec<u8>,
    pub text: Vec<u8>,
}

/// An authorisation that an operator shows to a device.
pub struct Grant {
    pub auth_id: Vec<u8>,
    pub secret: Vec<u8>,
    pub expires_at: u64,
}

/// The answer to an operator: a grant, or that there is none.
pub struct AuthReply {
    pub correlation: u32,
    pub grant: Option<Grant>,
}

/// What is to be done next.
pub enum Step {
    /// Nothing.
    Idle,
    Reply(Reply),
    /// Send this to the ledger, and say what became of it.
    Ask { ask: LedgerAsk, entry: Pending },
    /// Send this to the ledger, whatever becomes of it, and reply.
    Note { ask: LedgerAsk, reply: Reply },
    /// Submit the mail, say what became of it, and reply.
    Mail { mail: Mail, reply: Reply },
    Operator(AuthReply),
}

/// What became of a request to the ledger.
#[derive(Clone, Copy, Debug, PartialEq, Eq, Structural)]
pub enum Sent {
    Written,
    /// It does not fit a message.
    Unencodable,
    /// The ledger takes no message now.
    Unwritten,
}

/// A request about an authenticator.
pub struct TotpAsk {
    pub conn: u16,
    pub stream: u16,
    pub confirming: bool,
    pub credential: Vec<u8>,
    pub proof: Vec<u8>,
    pub uri: Vec<u8>,
    pub code: Vec<u8>,
}

pub enum RequestStep {
    /// Too short to name a connection.
    Ignore,
    Reply(Reply),
    Start { conn: u16, stream: u16, body: Vec<u8> },
    Redeem { conn: u16, stream: u16, body: Vec<u8> },
    Totp(TotpAsk),
}

pub enum StartStep {
    Reply(Reply),
    /// Have the challenge signed.
    Sign(StartDraft),
}

pub enum RedeemStep {
    Reply(Reply),
    /// Have the certificate signed.
    Sign(RedeemDraft),
}

// Replies.

pub open spec fn refuses(reply: Reply, conn: nat, stream: nat, why: Refusal) -> bool {
    reply.is(conn, stream, why.spec_status(), bytes::text(why.spec_body()))
}

pub fn refuse(conn: u16, stream: u16, why: Refusal) -> (r: Reply)
    ensures
        refuses(r, conn as nat, stream as nat, why),
{
    json_reply(conn, stream, why.status(), why.body())
}

pub open spec fn step_refuses(step: Step, conn: u16, stream: u16, why: Refusal) -> bool {
    step matches Step::Reply(reply) && refuses(reply, conn as nat, stream as nat, why)
}

/// The step is a reply with a fixed body.
pub open spec fn step_says(step: Step, conn: u16, stream: u16, status: u16, body: &str) -> bool {
    step matches Step::Reply(reply) && reply.is(
        conn as nat,
        stream as nat,
        status,
        bytes::text(body),
    )
}

/// The reply hands over a token, in the member `field`.
pub open spec fn hands_over(reply: Reply, conn: u16, stream: u16, field: &str, token: Seq<u8>) -> bool {
    reply.is(
        conn as nat,
        stream as nat,
        200,
        claims::field_object(2112, bytes::text(field), token),
    )
}

fn hand_over(conn: u16, stream: u16, field: &str, token: &[u8]) -> (r: Reply)
    ensures
        hands_over(r, conn, stream, field, token@),
{
    json_reply_with(conn, stream, 200, write_json_field(MAX_TOKEN + 64, field.as_bytes(), token))
}

/// The operator is told no, and nothing else.
pub open spec fn step_denies(step: Step, correlation: u32) -> bool {
    step matches Step::Operator(reply) && reply.correlation == correlation && reply.grant is None
}

fn deny(correlation: u32) -> (r: Step)
    ensures
        step_denies(r, correlation),
{
    Step::Operator(AuthReply { correlation, grant: None })
}

// Headers.

/// Space, tab or carriage return.
pub open spec fn is_blank(b: u8) -> bool {
    b == 32 || b == 9 || b == 13
}

pub open spec fn strip_front(s: Seq<u8>) -> Seq<u8>
    decreases s.len(),
{
    if s.len() > 0 && is_blank(s[0]) {
        strip_front(s.skip(1))
    } else {
        s
    }
}

pub open spec fn strip_back(s: Seq<u8>) -> Seq<u8>
    decreases s.len(),
{
    if s.len() > 0 && is_blank(s.last()) {
        strip_back(s.drop_last())
    } else {
        s
    }
}

/// `s` without the blanks at its two ends.
pub open spec fn stripped(s: Seq<u8>) -> Seq<u8> {
    strip_back(strip_front(s))
}

fn blank(b: u8) -> (r: bool)
    ensures
        r == is_blank(b),
{
    b == 32 || b == 9 || b == 13
}

/// The value without blanks at its ends.
pub fn trim_ws(value: &[u8]) -> (r: &[u8])
    ensures
        r@ == stripped(value@),
{
    let mut lo: usize = 0;
    assert(value@.skip(0) =~= value@);
    while lo < value.len() && blank(value[lo])
        invariant
            lo <= value@.len(),
            strip_front(value@) == strip_front(value@.skip(lo as int)),
        decreases value@.len() - lo,
    {
        assert(value@.skip(lo as int).skip(1) =~= value@.skip(lo + 1));
        lo = lo + 1;
    }
    let mut hi: usize = value.len();
    assert(value@.skip(lo as int) =~= value@.subrange(lo as int, hi as int));
    while lo < hi && blank(value[hi - 1])
        invariant
            lo <= hi <= value@.len(),
            stripped(value@) == strip_back(value@.subrange(lo as int, hi as int)),
        decreases hi,
    {
        assert(value@.subrange(lo as int, hi as int).drop_last() =~= value@.subrange(
            lo as int,
            hi - 1,
        ));
        hi = hi - 1;
    }
    slice_subrange(value, lo, hi)
}

/// The value of the first header line named `name`.
pub open spec fn header(block: Seq<u8>, name: Seq<u8>) -> Option<Seq<u8>> {
    match http::raw_header(block, name) {
        Some(value) => Some(stripped(value)),
        None => None,
    }
}

/// One header's value, by its name in lower case.
pub fn header_value<'a>(headers: &'a [u8], name: &[u8]) -> (r: Option<&'a [u8]>)
    ensures
        match r {
            Some(v) => header(headers@, name@) == Some(v@),
            None => header(headers@, name@) is None,
        },
{
    match raw_header_value(headers, name) {
        Some(value) => Some(trim_ws(value)),
        None => None,
    }
}

/// What follows the scheme `DPoP `. Another scheme is none: who presents a token by it has not
/// proved possession.
pub open spec fn dpop_credential(value: Seq<u8>) -> Option<Seq<u8>> {
    if value.len() > 5 && bytes::same_letters(value.take(5), bytes::text("DPoP ")) {
        Some(stripped(value.skip(5)))
    } else {
        None
    }
}

/// The credential out of a `DPoP <token>` value.
pub fn strip_dpop_scheme(value: &[u8]) -> (r: Option<&[u8]>)
    ensures
        match r {
            Some(v) => dpop_credential(value@) == Some(v@),
            None => dpop_credential(value@) is None,
        },
{
    if value.len() > 5 {
        let scheme = slice_subrange(value, 0, 5);
        assert(scheme@ =~= value@.take(5));
        if equal_letters(scheme, "DPoP ".as_bytes()) {
            let rest = slice_subrange(value, 5, value.len());
            assert(rest@ =~= value@.skip(5));
            return Some(trim_ws(rest));
        }
    }
    None
}

/// The credential that a header block presents: nothing where it is absent or too long, since a
/// part of a credential is not a credential.
pub open spec fn presented_credential(block: Seq<u8>) -> Seq<u8> {
    match header(block, bytes::text("authorization")) {
        Some(value) => match dpop_credential(value) {
            Some(v) => bytes::fitting(v, 2048),
            None => Seq::empty(),
        },
        None => Seq::empty(),
    }
}

pub open spec fn presented_proof(block: Seq<u8>) -> Seq<u8> {
    match header(block, bytes::text("dpop")) {
        Some(v) => bytes::fitting(v, 2048),
        None => Seq::empty(),
    }
}

fn read_credential(block: &[u8]) -> (r: Vec<u8>)
    ensures
        r@ == presented_credential(block@),
{
    match header_value(block, "authorization".as_bytes()) {
        Some(value) => match strip_dpop_scheme(value) {
            Some(v) => copy_into(v, MAX_TOKEN),
            None => Vec::new(),
        },
        None => Vec::new(),
    }
}

fn read_proof(block: &[u8]) -> (r: Vec<u8>)
    ensures
        r@ == presented_proof(block@),
{
    match header_value(block, "dpop".as_bytes()) {
        Some(v) => copy_into(v, MAX_TOKEN),
        None => Vec::new(),
    }
}

// The endpoint.

/// What a path asks for.
#[derive(Clone, Copy, Debug, PartialEq, Eq, Structural)]
pub enum Route {
    Start,
    Redeem,
    Register,
    Confirm,
    Nothing,
}

pub open spec fn route_of(path: Seq<u8>) -> Route {
    if bytes::has_prefix(path, bytes::text("/authenticators/totp/confirm")) {
        Route::Confirm
    } else if bytes::has_prefix(path, bytes::text("/authenticators/totp")) {
        Route::Register
    } else if bytes::has_prefix(path, bytes::text("/start")) {
        Route::Start
    } else if bytes::has_prefix(path, bytes::text("/redeem")) {
        Route::Redeem
    } else {
        Route::Nothing
    }
}

pub fn route(path: &[u8]) -> (r: Route)
    ensures
        r == route_of(path@),
{
    if starts_with(path, "/authenticators/totp/confirm".as_bytes()) {
        Route::Confirm
    } else if starts_with(path, "/authenticators/totp".as_bytes()) {
        Route::Register
    } else if starts_with(path, "/start".as_bytes()) {
        Route::Start
    } else if starts_with(path, "/redeem".as_bytes()) {
        Route::Redeem
    } else {
        Route::Nothing
    }
}

pub struct Enrollment {
    /// The profile of the records that name this endpoint's key.
    pub challenge_profile: u16,
    /// The profile that the key is announced under: who checks a certificate looks there.
    pub certificate_profile: u16,
    pub state_wired: bool,
    pub iss: Vec<u8>,
    pub tenant_seed: Vec<u8>,
    pub mail_from: Vec<u8>,
    pub key_open: bool,
    pub label: Vec<u8>,
    pub public_key: Vec<u8>,
    pub kid: Vec<u8>,
    pub code_key: [u8; 32],
    pub pending: Vec<Pending>,
    pub next_corr: u32,
    pub enrol_started: u32,
    pub enrol_redeemed: u32,
    pub enrol_no_key: u32,
    pub enrol_malformed: u32,
    pub enrol_bad_challenge: u32,
    pub enrol_pkce_mismatch: u32,
    pub enrol_bad_possession: u32,
    pub enrol_recorded: u32,
    pub enrol_replayed: u32,
    pub enrol_state_unavailable: u32,
    pub enrol_totp_registered: u32,
    pub enrol_totp_confirmed: u32,
    pub enrol_totp_conflict: u32,
    pub enrol_totp_bad_code: u32,
    pub enrol_mail_submitted: u32,
    pub enrol_mail_failed: u32,
    pub enrol_code_bad: u32,
    pub enrol_txn_burned: u32,
}

/// The first slot that waits under `corr`, from `i` on.
pub open spec fn waiting_from(pending: Seq<Pending>, corr: u32, i: int) -> Option<int>
    decreases pending.len() - i,
{
    if i < 0 || i >= pending.len() {
        None
    } else if pending[i].live && pending[i].corr == corr {
        Some(i)
    } else {
        waiting_from(pending, corr, i + 1)
    }
}

/// The first slot that nothing waits in, from `i` on.
pub open spec fn free_from(pending: Seq<Pending>, i: int) -> Option<int>
    decreases pending.len() - i,
{
    if i < 0 || i >= pending.len() {
        None
    } else if !pending[i].live {
        Some(i)
    } else {
        free_from(pending, i + 1)
    }
}

/// Slot `i` was emptied, and nothing else.
pub open spec fn freed(before: Seq<Pending>, after: Seq<Pending>, i: int) -> bool {
    &&& after.len() == before.len()
    &&& after[i].vacant()
    &&& forall|j: int| 0 <= j < before.len() && j != i ==> #[trigger] after[j] == before[j]
}

impl Enrollment {
    pub open spec fn wf(self) -> bool {
        self.pending@.len() == 4
    }

    pub fn module_new(
        challenge_profile: u16,
        certificate_profile: u16,
        state_wired: bool,
        iss: &[u8],
        tenant_seed: &[u8],
        mail_from: &[u8],
    ) -> (r: Self)
        ensures
            r.wf(),
            r.challenge_profile == challenge_profile,
            r.certificate_profile == certificate_profile,
            r.state_wired == state_wired,
            r.iss@ == bytes::clipped(iss@, 256),
            r.tenant_seed@ == bytes::clipped(tenant_seed@, 64),
            r.mail_from@ == bytes::clipped(mail_from@, 256),
            !r.key_open,
            r.label@.len() == 0,
            r.public_key@.len() == 0,
            r.kid@.len() == 0,
            r.code_key@ == Seq::new(32, |i: int| 0u8),
            forall|i: int| 0 <= i < 4 ==> (#[trigger] r.pending@[i]).vacant(),
            r.next_corr == 1,
            r.counters_are_zero(),
    {
        let mut pending: Vec<Pending> = Vec::new();
        while pending.len() < MAX_PENDING
            invariant
                pending@.len() <= 4,
                forall|i: int| 0 <= i < pending@.len() ==> (#[trigger] pending@[i]).vacant(),
            decreases 4 - pending@.len(),
        {
            pending.push(Pending::zero());
        }
        let code_key: [u8; 32] = [0u8; 32];
        assert(code_key@ =~= Seq::new(32, |i: int| 0u8));
        Enrollment {
            challenge_profile,
            certificate_profile,
            state_wired,
            iss: copy_field(iss, MAX_FIELD),
            tenant_seed: copy_field(tenant_seed, 64),
            mail_from: copy_field(mail_from, MAX_FIELD),
            key_open: false,
            label: Vec::new(),
            public_key: Vec::new(),
            kid: Vec::new(),
            code_key,
            pending,
            next_corr: 1,
            enrol_started: 0,
            enrol_redeemed: 0,
            enrol_no_key: 0,
            enrol_malformed: 0,
            enrol_bad_challenge: 0,
            enrol_pkce_mismatch: 0,
            enrol_bad_possession: 0,
            enrol_recorded: 0,
            enrol_replayed: 0,
            enrol_state_unavailable: 0,
            enrol_totp_registered: 0,
            enrol_totp_confirmed: 0,
            enrol_totp_conflict: 0,
            enrol_totp_bad_code: 0,
            enrol_mail_submitted: 0,
            enrol_mail_failed: 0,
            enrol_code_bad: 0,
            enrol_txn_burned: 0,
        }
    }

    pub open spec fn counters_are_zero(self) -> bool {
        &&& self.enrol_started == 0
        &&& self.enrol_redeemed == 0
        &&& self.enrol_no_key == 0
        &&& self.enrol_malformed == 0
        &&& self.enrol_bad_challenge == 0
        &&& self.enrol_pkce_mismatch == 0
        &&& self.enrol_bad_possession == 0
        &&& self.enrol_recorded == 0
        &&& self.enrol_replayed == 0
        &&& self.enrol_state_unavailable == 0
        &&& self.enrol_totp_registered == 0
        &&& self.enrol_totp_confirmed == 0
        &&& self.enrol_totp_conflict == 0
        &&& self.enrol_totp_bad_code == 0
        &&& self.enrol_mail_submitted == 0
        &&& self.enrol_mail_failed == 0
        &&& self.enrol_code_bad == 0
        &&& self.enrol_txn_burned == 0
    }

    // States that differ in one thing.

    pub open spec fn unavailable(self) -> Self {
        Enrollment { enrol_state_unavailable: keys::counted(self.enrol_state_unavailable), ..self }
    }

    pub open spec fn one_started(self) -> Self {
        Enrollment { enrol_started: keys::counted(self.enrol_started), ..self }
    }

    pub open spec fn one_redeemed(self) -> Self {
        Enrollment { enrol_redeemed: keys::counted(self.enrol_redeemed), ..self }
    }

    pub open spec fn one_replayed(self) -> Self {
        Enrollment { enrol_replayed: keys::counted(self.enrol_replayed), ..self }
    }

    pub open spec fn one_conflict(self) -> Self {
        Enrollment { enrol_totp_conflict: keys::counted(self.enrol_totp_conflict), ..self }
    }

    pub open spec fn one_bad_code(self) -> Self {
        Enrollment { enrol_code_bad: keys::counted(self.enrol_code_bad), ..self }
    }

    pub open spec fn next(self) -> Self {
        Enrollment { next_corr: keys::next_correlation(self.next_corr), ..self }
    }

    /// The state after a start or a redemption was refused.
    pub open spec fn refused(self, why: Refusal) -> Self {
        match why {
            Refusal::Malformed => Enrollment {
                enrol_malformed: keys::counted(self.enrol_malformed),
                ..self
            },
            Refusal::BadChallenge => Enrollment {
                enrol_bad_challenge: keys::counted(self.enrol_bad_challenge),
                ..self
            },
            Refusal::PkceMismatch => Enrollment {
                enrol_pkce_mismatch: keys::counted(self.enrol_pkce_mismatch),
                ..self
            },
            Refusal::BadPossession => Enrollment {
                enrol_bad_possession: keys::counted(self.enrol_bad_possession),
                ..self
            },
            Refusal::NoKey | Refusal::NoEntropy => Enrollment {
                enrol_no_key: keys::counted(self.enrol_no_key),
                ..self
            },
            _ => self,
        }
    }

    fn count_refusal(&mut self, why: Refusal)
        ensures
            *final(self) == old(self).refused(why),
    {
        match why {
            Refusal::Malformed => count(&mut self.enrol_malformed),
            Refusal::BadChallenge => count(&mut self.enrol_bad_challenge),
            Refusal::PkceMismatch => count(&mut self.enrol_pkce_mismatch),
            Refusal::BadPossession => count(&mut self.enrol_bad_possession),
            Refusal::NoKey | Refusal::NoEntropy => count(&mut self.enrol_no_key),
            _ => {},
        }
    }

    fn next_correlation(&mut self) -> (r: u32)
        ensures
            r == old(self).next_corr,
            *final(self) == old(self).next(),
    {
        let corr: u32 = self.next_corr;
        self.next_corr = advance_correlation(corr);
        corr
    }

    /// The ledger cannot be reached for this request.
    fn out_of_reach(&mut self, conn: u16, stream: u16) -> (r: Step)
        ensures
            step_says(r, conn, stream, 503, UNAVAILABLE_BODY),
            *final(self) == old(self).unavailable(),
    {
        count(&mut self.enrol_state_unavailable);
        Step::Reply(json_reply(conn, stream, 503, UNAVAILABLE_BODY))
    }

    // The key.

    /// Whether a lifecycle record names a key that can serve here: an Ed25519 signing key of this
    /// profile, under a label and a key id that fit. Only its signatures are the same at every
    /// start, and the key of the code hashes is derived from one.
    pub open spec fn wants(self, rec: KeyRecord) -> bool {
        &&& rec.key_use == KeyUse::Sign
        &&& rec.profile_id == self.challenge_profile
        &&& rec.suite == Some(Suite::Ed25519)
        &&& 0 < rec.key_ref@.len() <= 32
        &&& 0 < rec.kid@.len() <= 32
    }

    /// Whether a lifecycle record names a key to open. One that is open already stays open: what
    /// was signed with it is still on its way.
    pub fn takes_key(&self, rec: &KeyRecord) -> (r: bool)
        ensures
            r == (self.wants(*rec) && !(self.key_open && self.label@ == rec.key_ref@)),
    {
        let ed25519 = match rec.suite {
            Some(Suite::Ed25519) => true,
            _ => false,
        };
        rec.key_use == KeyUse::Sign && rec.profile_id == self.challenge_profile && ed25519
            && rec.key_ref.len() > 0 && rec.key_ref.len() <= MAX_KEY_LABEL && rec.kid.len() > 0
            && rec.kid.len() <= 32 && !(self.key_open && bytes::bytes_equal(
            self.label.as_slice(),
            rec.key_ref.as_slice(),
        ))
    }

    /// The vault closed the old key and was asked to open the one that `rec` names, and then to
    /// sign the text that the key of the code hashes is derived from. `opened` is the public half
    /// and that signature.
    pub fn drain_key(&mut self, rec: &KeyRecord, opened: Option<(Vec<u8>, Vec<u8>)>) -> (r: Option<
        KeyRecord,
    >)
        ensures
            match opened {
                Some((public, signature)) => {
                    &&& final(self).key_open
                    &&& final(self).label@ == rec.key_ref@
                    &&& final(self).public_key@ == public@
                    &&& final(self).kid@ == rec.kid@
                    &&& final(self).code_key@ == crypto::sha256(signature@)
                    &&& r matches Some(a)
                    &&& announces(a, *rec, old(self).certificate_profile, public@)
                },
                None => {
                    &&& !final(self).key_open
                    &&& final(self).label@.len() == 0
                    &&& final(self).public_key@.len() == 0
                    &&& final(self).kid == old(self).kid
                    &&& final(self).code_key == old(self).code_key
                    &&& r is None
                },
            },
            *final(self) == (Enrollment {
                key_open: final(self).key_open,
                label: final(self).label,
                public_key: final(self).public_key,
                kid: final(self).kid,
                code_key: final(self).code_key,
                ..*old(self)
            }),
    {
        match opened {
            Some((public, signature)) => {
                self.key_open = true;
                self.label = slice_to_vec(rec.key_ref.as_slice());
                let mut code_key: [u8; 32] = [0u8; 32];
                crypto::sha256_into(signature.as_slice(), &mut code_key);
                self.code_key = code_key;
                self.kid = slice_to_vec(rec.kid.as_slice());
                let announcement = announce_public_key(
                    rec,
                    self.certificate_profile,
                    public.as_slice(),
                );
                self.public_key = public;
                Some(announcement)
            },
            None => {
                self.key_open = false;
                self.label = Vec::new();
                self.public_key = Vec::new();
                None
            },
        }
    }
}

/// A verifying record for the public half of a key that was opened.
pub open spec fn announces(a: KeyRecord, rec: KeyRecord, profile: u16, public: Seq<u8>) -> bool {
    &&& a.issuer@ == rec.issuer@
    &&& a.profile_id == profile
    &&& a.kid@ == rec.kid@
    &&& a.suite == Some(Suite::Ed25519)
    &&& a.state == KeyState::Active
    &&& a.key_use == KeyUse::Verify
    &&& a.generation == 0
    &&& a.activate_after_unix == 0
    &&& a.remove_after_unix == 0
    &&& a.key_ref@ == public
}

fn announce_public_key(rec: &KeyRecord, profile_id: u16, public: &[u8]) -> (r: KeyRecord)
    ensures
        announces(r, *rec, profile_id, public@),
{
    KeyRecord {
        issuer: slice_to_vec(rec.issuer.as_slice()),
        profile_id,
        kid: slice_to_vec(rec.kid.as_slice()),
        suite: Some(Suite::Ed25519),
        state: KeyState::Active,
        key_use: KeyUse::Verify,
        generation: 0,
        activate_after_unix: 0,
        remove_after_unix: 0,
        key_ref: slice_to_vec(public),
    }
}

// Requests.

/// What a request comes to before anything is checked that it says.
pub open spec fn routed(pre: Enrollment, request: Seq<u8>, step: RequestStep, post: Enrollment) -> bool {
    let route = route_of(http::path(request));
    if request.len() < 12 {
        step is Ignore && post == pre
    } else if !http::complete(request) {
        &&& step matches RequestStep::Reply(reply)
        &&& refuses(reply, http::le16(request, 0), http::le16(request, 2), Refusal::Malformed)
        &&& post == pre
    } else if route == Route::Nothing {
        &&& step matches RequestStep::Reply(reply)
        &&& reply.answers(request, 404, bytes::text("{\"error\":\"not_found\"}"))
        &&& post == pre
    } else if request[4] != METHOD_POST {
        &&& step matches RequestStep::Reply(reply)
        &&& reply.answers(request, 405, bytes::text("{\"error\":\"invalid_request\"}"))
        &&& post == pre
    } else if route == Route::Register || route == Route::Confirm {
        &&& step matches RequestStep::Totp(ask)
        &&& totp_asked(ask, request)
        &&& post == pre
    } else if !pre.key_open {
        &&& step matches RequestStep::Reply(reply)
        &&& refuses(reply, http::le16(request, 0), http::le16(request, 2), Refusal::NoKey)
        &&& post == pre.refused(Refusal::NoKey)
    } else {
        &&& post == pre
        &&& match step {
            RequestStep::Start { conn, stream, body } => route == Route::Start && conn == http::le16(
                request,
                0,
            ) && stream == http::le16(request, 2) && body@ == http::body(request),
            RequestStep::Redeem { conn, stream, body } => route == Route::Redeem && conn
                == http::le16(request, 0) && stream == http::le16(request, 2) && body@
                == http::body(request),
            _ => false,
        }
    }
}

/// What a request about an authenticator presents.
pub open spec fn totp_asked(ask: TotpAsk, request: Seq<u8>) -> bool {
    &&& ask.conn == http::le16(request, 0)
    &&& ask.stream == http::le16(request, 2)
    &&& ask.confirming == (route_of(http::path(request)) == Route::Confirm)
    &&& ask.credential@ == presented_credential(http::headers(request))
    &&& ask.proof@ == presented_proof(http::headers(request))
    &&& ask.uri@ == bytes::clipped(http::path(request), 256)
    &&& ask.code@ == claims::short_claim(http::body(request), bytes::text("code"), MAX_DIGITS as nat)
}

/// The record of a new transaction, as a request to the ledger.
pub open spec fn opens_transaction(
    ask: LedgerAsk,
    corr: u32,
    key: Seq<u8>,
    nonce: Seq<u8>,
    code: Seq<u8>,
    expires_at: u64,
) -> bool {
    ask.is(
        LedgerOp::PutIfAbsent,
        corr,
        Namespace::Transaction,
        nonce,
        Seq::empty(),
        ceremony::transaction(0, ceremony::hash_of(key, nonce, code), bytes::text("pending")),
        expires_at,
    )
}

/// The entry of a start whose transaction is being written.
pub open spec fn start_entry(
    e: Pending,
    conn: u16,
    stream: u16,
    corr: u32,
    draft: StartDraft,
    token: Seq<u8>,
) -> bool {
    &&& !e.live
    &&& e.stage == Stage::Start
    &&& e.conn == conn
    &&& e.stream == stream
    &&& e.corr == corr
    &&& e.cert@ == token
    &&& e.claims@ == draft.email@
    &&& e.nonce@ == draft.nonce@
    &&& e.code@ == draft.code@
}

/// The entry of a redemption whose transaction is being read.
pub open spec fn lookup_entry(
    e: Pending,
    conn: u16,
    stream: u16,
    corr: u32,
    draft: RedeemDraft,
    token: Seq<u8>,
) -> bool {
    &&& !e.live
    &&& e.stage == Stage::Lookup
    &&& e.conn == conn
    &&& e.stream == stream
    &&& e.corr == corr
    &&& e.cert@ == token
    &&& e.device_id@ == draft.device_id@
    &&& e.claims@ == draft.claims@
    &&& e.nonce@ == draft.nonce@
    &&& e.code@ == draft.code@
}

fn put_transaction(
    corr: u32,
    key: &[u8; 32],
    nonce: &[u8],
    code: &[u8],
    expires_at: u64,
) -> (r: LedgerAsk)
    ensures
        opens_transaction(r, corr, key@, nonce@, code@, expires_at),
{
    let hash = code_hash(key, nonce, code);
    LedgerAsk {
        op: LedgerOp::PutIfAbsent,
        correlation: corr,
        namespace: Namespace::Transaction,
        key: slice_to_vec(nonce),
        etag: Vec::new(),
        value: write_transaction(0, hash.as_slice(), "pending"),
        expires_at,
    }
}

impl Enrollment {
    /// Route one request.
    pub fn handle_request(&mut self, request: &[u8]) -> (r: RequestStep)
        ensures
            routed(*old(self), request@, r, *final(self)),
    {
        let frame = match read_frame(request) {
            Some(frame) => frame,
            None => {
                return RequestStep::Ignore;
            },
        };
        let (conn, stream) = (frame.conn, frame.stream);
        if !is_complete(request, &frame) {
            return RequestStep::Reply(refuse(conn, stream, Refusal::Malformed));
        }
        let path = path_of(request, &frame);
        let way = route(path);
        if way == Route::Nothing {
            return RequestStep::Reply(json_reply(conn, stream, 404, "{\"error\":\"not_found\"}"));
        }
        if frame.method != METHOD_POST {
            return RequestStep::Reply(
                json_reply(conn, stream, 405, "{\"error\":\"invalid_request\"}"),
            );
        }
        let body = body_of(request, &frame);
        if way == Route::Register || way == Route::Confirm {
            let headers = headers_of(request, &frame);
            return RequestStep::Totp(
                TotpAsk {
                    conn,
                    stream,
                    confirming: way == Route::Confirm,
                    credential: read_credential(headers),
                    proof: read_proof(headers),
                    uri: copy_field(path, MAX_FIELD),
                    code: json_string(body, "code".as_bytes(), MAX_DIGITS),
                },
            );
        }
        if !self.key_open {
            count(&mut self.enrol_no_key);
            return RequestStep::Reply(refuse(conn, stream, Refusal::NoKey));
        }
        if way == Route::Start {
            RequestStep::Start { conn, stream, body: slice_to_vec(body) }
        } else {
            RequestStep::Redeem { conn, stream, body: slice_to_vec(body) }
        }
    }

    /// `/start`: compose a challenge for a mailbox or an operator's transaction, or say why not.
    pub fn start(
        &mut self,
        conn: u16,
        stream: u16,
        body: &[u8],
        drawn: Option<[u8; 16]>,
        code: Option<[u8; 8]>,
        now: Option<u64>,
    ) -> (r: StartStep)
        requires
            now matches Some(t) ==> t + ceremony::CHALLENGE_TTL_SECS <= u64::MAX,
        ensures
            match ceremony::start_refusal(
                body@,
                old(self).iss@,
                old(self).kid@,
                old(self).tenant_seed@,
                drawn,
                code,
                now,
            ) {
                Some(why) => {
                    &&& r matches StartStep::Reply(reply)
                    &&& refuses(reply, conn as nat, stream as nat, why)
                    &&& *final(self) == old(self).refused(why)
                },
                None => {
                    &&& r matches StartStep::Sign(draft)
                    &&& ceremony::draft_of(
                        draft,
                        body@,
                        old(self).iss@,
                        old(self).kid@,
                        old(self).tenant_seed@,
                        drawn,
                        code,
                        now->0,
                    )
                    &&& *final(self) == *old(self)
                },
            },
    {
        match compose_challenge(
            body,
            self.iss.as_slice(),
            self.kid.as_slice(),
            self.tenant_seed.as_slice(),
            drawn,
            code,
            now,
        ) {
            Ok(draft) => StartStep::Sign(draft),
            Err(why) => {
                self.count_refusal(why);
                StartStep::Reply(refuse(conn, stream, why))
            },
        }
    }

    /// The vault signed the challenge, or did not. An operator's transaction exists already, and
    /// its challenge is handed over at once; a mailed one is written first, since a code that the
    /// ledger does not know opens nothing.
    pub fn begin_start(
        &mut self,
        conn: u16,
        stream: u16,
        draft: StartDraft,
        signature: Option<&[u8]>,
    ) -> (r: Step)
        ensures
            start_begun(*old(self), conn, stream, draft, signature, r, *final(self)),
    {
        let signature = match signature {
            Some(signature) => signature,
            None => {
                self.count_refusal(Refusal::Malformed);
                return Step::Reply(refuse(conn, stream, Refusal::Malformed));
            },
        };
        let token = match jose::close_jws(draft.input.as_slice(), signature, MAX_TOKEN) {
            Some(token) => token,
            None => {
                self.count_refusal(Refusal::Malformed);
                return Step::Reply(refuse(conn, stream, Refusal::Malformed));
            },
        };
        count(&mut self.enrol_started);
        if !self.state_wired || draft.nonce.len() == 0 {
            return self.out_of_reach(conn, stream);
        }
        if draft.adopted {
            count(&mut self.enrol_started);
            return Step::Reply(hand_over(conn, stream, "challenge_token", token.as_slice()));
        }
        let corr: u32 = self.next_correlation();
        let ask = put_transaction(
            corr,
            &self.code_key,
            draft.nonce.as_slice(),
            draft.code.as_slice(),
            draft.expires_at,
        );
        let entry = Pending {
            stage: Stage::Start,
            conn,
            stream,
            corr,
            cert: token,
            claims: draft.email,
            nonce: draft.nonce,
            code: draft.code,
            ..Pending::zero()
        };
        Step::Ask { ask, entry }
    }

    /// `/redeem`: check a challenge that was brought back and compose the certificate, or say why
    /// not.
    pub fn redeem(&mut self, conn: u16, stream: u16, body: &[u8], now: Option<u64>) -> (r: RedeemStep)
        requires
            now matches Some(t) ==> t + ceremony::CERTIFICATE_TTL_SECS <= u64::MAX,
        ensures
            match ceremony::redeem_refusal(
                body@,
                old(self).public_key@,
                old(self).iss@,
                old(self).kid@,
                old(self).tenant_seed@,
                now,
            ) {
                Some(why) => {
                    &&& r matches RedeemStep::Reply(reply)
                    &&& refuses(reply, conn as nat, stream as nat, why)
                    &&& *final(self) == old(self).refused(why)
                },
                None => {
                    &&& r matches RedeemStep::Sign(draft)
                    &&& ceremony::redemption_of(
                        draft,
                        body@,
                        old(self).public_key@,
                        old(self).iss@,
                        old(self).kid@,
                        old(self).tenant_seed@,
                        now->0,
                    )
                    &&& *final(self) == *old(self)
                },
            },
    {
        match compose_certificate(
            body,
            self.public_key.as_slice(),
            self.iss.as_slice(),
            self.kid.as_slice(),
            self.tenant_seed.as_slice(),
            now,
        ) {
            Ok(draft) => RedeemStep::Sign(draft),
            Err(why) => {
                self.count_refusal(why);
                RedeemStep::Reply(refuse(conn, stream, why))
            },
        }
    }

    /// The vault signed the certificate, or did not. It is held back: the transaction is read
    /// first, so that a wrong code costs an attempt and nothing else.
    pub fn begin_lookup(
        &mut self,
        conn: u16,
        stream: u16,
        draft: RedeemDraft,
        signature: Option<&[u8]>,
    ) -> (r: Step)
        ensures
            lookup_begun(*old(self), conn, stream, draft, signature, r, *final(self)),
    {
        let signature = match signature {
            Some(signature) => signature,
            None => {
                self.count_refusal(Refusal::Malformed);
                return Step::Reply(refuse(conn, stream, Refusal::Malformed));
            },
        };
        let token = match jose::close_jws(draft.input.as_slice(), signature, MAX_TOKEN) {
            Some(token) => token,
            None => {
                self.count_refusal(Refusal::Malformed);
                return Step::Reply(refuse(conn, stream, Refusal::Malformed));
            },
        };
        count(&mut self.enrol_redeemed);
        if !self.state_wired || draft.nonce.len() == 0 {
            return self.out_of_reach(conn, stream);
        }
        let corr: u32 = self.next_correlation();
        let ask = LedgerAsk {
            op: LedgerOp::Get,
            correlation: corr,
            namespace: Namespace::Transaction,
            key: slice_to_vec(draft.nonce.as_slice()),
            etag: Vec::new(),
            value: Vec::new(),
            expires_at: 0,
        };
        assert(ask.etag@ =~= Seq::<u8>::empty() && ask.value@ =~= Seq::<u8>::empty());
        let entry = Pending {
            stage: Stage::Lookup,
            conn,
            stream,
            corr,
            cert: token,
            device_id: draft.device_id,
            claims: draft.claims,
            nonce: draft.nonce,
            code: draft.code,
            ..Pending::zero()
        };
        Step::Ask { ask, entry }
    }

    /// An operator asks for an authorisation that a device can redeem instead of a mailed code:
    /// the same transaction, with the code told to the operator alone. A life that is too long, or
    /// none, is cut to the longest.
    pub fn mint_authorisation(
        &mut self,
        correlation: u32,
        ttl: u32,
        drawn: Option<[u8; 8]>,
        code: Option<[u8; 8]>,
        now: Option<u64>,
    ) -> (r: Step)
        requires
            now matches Some(t) ==> t + MAX_ENROL_AUTH_TTL_SECS <= u64::MAX,
        ensures
            auth_begun(*old(self), correlation, ttl, drawn, code, now, r, *final(self)),
    {
        if !self.key_open || !self.state_wired {
            return deny(correlation);
        }
        let (drawn, code): ([u8; 8], [u8; 8]) = match (drawn, code) {
            (Some(drawn), Some(code)) => (drawn, code),
            _ => {
                return deny(correlation);
            },
        };
        let at: u64 = match now {
            Some(at) => at,
            None => {
                return deny(correlation);
            },
        };
        if at == 0 {
            return deny(correlation);
        }
        let life: u32 = if ttl == 0 || ttl > MAX_ENROL_AUTH_TTL_SECS {
            MAX_ENROL_AUTH_TTL_SECS
        } else {
            ttl
        };
        let expires_at: u64 = at + life as u64;
        let nonce = base64::encode(drawn.as_slice());
        let corr: u32 = self.next_correlation();
        let ask = put_transaction(
            corr,
            &self.code_key,
            nonce.as_slice(),
            code.as_slice(),
            expires_at,
        );
        let entry = Pending {
            stage: Stage::AuthMint,
            corr,
            caller_corr: correlation,
            auth_exp: expires_at,
            nonce,
            code: slice_to_vec(code.as_slice()),
            ..Pending::zero()
        };
        Step::Ask { ask, entry }
    }

    // Authenticators.

    /// Whether a request about an authenticator is worth checking: a clock is trusted, something
    /// is presented, and there is a key to check it with. Otherwise the reply.
    pub fn totp_route(&self, ask: &TotpAsk, now: Option<u64>) -> (r: Option<Reply>)
        ensures
            if now is None {
                r matches Some(reply) && reply.is(
                    ask.conn as nat,
                    ask.stream as nat,
                    503,
                    bytes::text(UNAVAILABLE_BODY),
                )
            } else if ask.credential@.len() == 0 || ask.proof@.len() == 0 || !self.key_open {
                r matches Some(reply) && refuses(
                    reply,
                    ask.conn as nat,
                    ask.stream as nat,
                    Refusal::Unauthenticated,
                )
            } else {
                r is None
            },
    {
        if now.is_none() {
            return Some(json_reply(ask.conn, ask.stream, 503, UNAVAILABLE_BODY));
        }
        if ask.credential.len() == 0 || ask.proof.len() == 0 || !self.key_open {
            return Some(refuse(ask.conn, ask.stream, Refusal::Unauthenticated));
        }
        None
    }

    /// Check the certificate that a request presents against this endpoint's own key, which signed
    /// it, and the proof against the certificate, the request and the window.
    pub fn check_device(&self, ask: &TotpAsk, window: &mut ReplayWindow, now: u64) -> (r: Result<
        Held,
        AuthError,
    >)
        requires
            old(window).wf(),
            now + 300 <= u64::MAX,
        ensures
            final(window).wf(),
            device_auth::authenticated(
                Some(
                    device_auth::Issuer {
                        suite: Some(Suite::Ed25519),
                        public: self.public_key@,
                    },
                ),
                *old(window),
                *final(window),
                device_auth::Shown {
                    credential: ask.credential@,
                    proof: ask.proof@,
                    method: bytes::text("POST"),
                    uri: ask.uri@,
                },
                device_auth::certificate_policy(),
                now,
                r,
            ),
    {
        let issuer = Some(
            IssuerKey {
                suite: Some(Suite::Ed25519),
                public: slice_to_vec(self.public_key.as_slice()),
            },
        );
        let p = device_auth::Presentation {
            credential: ask.credential.as_slice(),
            proof: ask.proof.as_slice(),
            method: "POST".as_bytes(),
            uri: ask.uri.as_slice(),
        };
        authenticate(&issuer, window, &p, &device_certificates(), now)
    }

    /// The certificate and the proof that a request presents were checked against this endpoint's
    /// own key: `claims` are those of a certificate that held, whose proof is fresh and was not
    /// seen before. Read the record of its device. `secret` is random, and absent where there is
    /// no randomness.
    pub fn authenticate_device(
        &mut self,
        ask: &TotpAsk,
        claims: Option<&[u8]>,
        secret: Option<[u8; 32]>,
    ) -> (r: Step)
        ensures
            totp_begun(*old(self), *ask, claims, secret, r, *final(self)),
    {
        let device = match claims {
            Some(claims) => match claim_str(claims, "device_id".as_bytes()) {
                Some(device) => copy_field(device, MAX_FIELD),
                None => {
                    return Step::Reply(refuse(ask.conn, ask.stream, Refusal::Unauthenticated));
                },
            },
            None => {
                return Step::Reply(refuse(ask.conn, ask.stream, Refusal::Unauthenticated));
            },
        };
        if ask.confirming {
            self.begin_totp_confirm(ask, device)
        } else {
            self.begin_totp_register(ask, device, secret)
        }
    }

    /// Attach an authenticator. Its secret is drawn here: who could choose it could compute its
    /// codes without holding it.
    pub fn begin_totp_register(
        &mut self,
        ask: &TotpAsk,
        device: Vec<u8>,
        secret: Option<[u8; 32]>,
    ) -> (r: Step)
        ensures
            if !old(self).state_wired {
                &&& step_says(r, ask.conn, ask.stream, 503, UNAVAILABLE_BODY)
                &&& *final(self) == old(self).unavailable()
            } else if secret is None {
                &&& step_refuses(r, ask.conn, ask.stream, Refusal::NoEntropy)
                &&& *final(self) == *old(self)
            } else {
                &&& r matches Step::Ask { ask: read, entry }
                &&& read.is(
                    LedgerOp::Get,
                    old(self).next_corr,
                    Namespace::Device,
                    device@,
                    Seq::empty(),
                    Seq::empty(),
                    0,
                )
                &&& !entry.live
                &&& entry.stage == Stage::TotpRead
                &&& entry.conn == ask.conn
                &&& entry.stream == ask.stream
                &&& entry.corr == old(self).next_corr
                &&& entry.device_id@ == bytes::clipped(device@, 26)
                &&& entry.totp_secret@ == base32::encoded((secret->0)@)
                &&& entry.totp_code@.len() == 0
                &&& !entry.totp_confirming
                &&& *final(self) == old(self).next()
            },
    {
        if !self.state_wired {
            return self.out_of_reach(ask.conn, ask.stream);
        }
        let raw: [u8; 32] = match secret {
            Some(raw) => raw,
            None => {
                return Step::Reply(refuse(ask.conn, ask.stream, Refusal::NoEntropy));
            },
        };
        let entry = Pending {
            stage: Stage::TotpRead,
            conn: ask.conn,
            stream: ask.stream,
            totp_secret: base32::base32_encode(raw.as_slice()),
            totp_confirming: false,
            ..Pending::zero()
        };
        self.stage_device_read(device, entry)
    }

    /// Prove that an authenticator works, before anything rests on it.
    pub fn begin_totp_confirm(&mut self, ask: &TotpAsk, device: Vec<u8>) -> (r: Step)
        ensures
            if !old(self).state_wired {
                &&& step_says(r, ask.conn, ask.stream, 503, UNAVAILABLE_BODY)
                &&& *final(self) == old(self).unavailable()
            } else if !(0 < ask.code@.len() <= MAX_DIGITS) {
                &&& step_refuses(r, ask.conn, ask.stream, Refusal::Malformed)
                &&& *final(self) == *old(self)
            } else {
                &&& r matches Step::Ask { ask: read, entry }
                &&& read.is(
                    LedgerOp::Get,
                    old(self).next_corr,
                    Namespace::Device,
                    device@,
                    Seq::empty(),
                    Seq::empty(),
                    0,
                )
                &&& !entry.live
                &&& entry.stage == Stage::TotpRead
                &&& entry.conn == ask.conn
                &&& entry.stream == ask.stream
                &&& entry.corr == old(self).next_corr
                &&& entry.device_id@ == bytes::clipped(device@, 26)
                &&& entry.totp_secret@.len() == 0
                &&& entry.totp_code@ == ask.code@
                &&& entry.totp_confirming
                &&& *final(self) == old(self).next()
            },
    {
        if !self.state_wired {
            return self.out_of_reach(ask.conn, ask.stream);
        }
        if ask.code.len() == 0 || ask.code.len() > MAX_DIGITS {
            return Step::Reply(refuse(ask.conn, ask.stream, Refusal::Malformed));
        }
        let entry = Pending {
            stage: Stage::TotpRead,
            conn: ask.conn,
            stream: ask.stream,
            totp_code: slice_to_vec(ask.code.as_slice()),
            totp_confirming: true,
            ..Pending::zero()
        };
        self.stage_device_read(device, entry)
    }

    /// Read the device record that both act on.
    fn stage_device_read(&mut self, device: Vec<u8>, entry: Pending) -> (r: Step)
        ensures
            r matches Step::Ask { ask, entry: next } && ask.is(
                LedgerOp::Get,
                old(self).next_corr,
                Namespace::Device,
                device@,
                Seq::empty(),
                Seq::empty(),
                0,
            ) && next.device_id@ == bytes::clipped(device@, 26) && next == (Pending {
                corr: old(self).next_corr,
                device_id: next.device_id,
                ..entry
            }),
            *final(self) == old(self).next(),
    {
        let corr: u32 = self.next_correlation();
        let own = copy_field(device.as_slice(), 26);
        let ask = LedgerAsk {
            op: LedgerOp::Get,
            correlation: corr,
            namespace: Namespace::Device,
            key: device,
            etag: Vec::new(),
            value: Vec::new(),
            expires_at: 0,
        };
        assert(ask.etag@ =~= Seq::<u8>::empty() && ask.value@ =~= Seq::<u8>::empty());
        Step::Ask { ask, entry: Pending { corr, device_id: own, ..entry } }
    }
}

/// What a start comes to once the vault signed its challenge, or did not.
pub open spec fn start_begun(
    pre: Enrollment,
    conn: u16,
    stream: u16,
    draft: StartDraft,
    signature: Option<&[u8]>,
    r: Step,
    post: Enrollment,
) -> bool {
    if signature is None || jose::closed(draft.input@, signature->0@).len() > 2048 {
        &&& step_refuses(r, conn, stream, Refusal::Malformed)
        &&& post == pre.refused(Refusal::Malformed)
    } else if !pre.state_wired || draft.nonce@.len() == 0 {
        &&& step_says(r, conn, stream, 503, UNAVAILABLE_BODY)
        &&& post == pre.one_started().unavailable()
    } else if draft.adopted {
        &&& r matches Step::Reply(reply)
        &&& hands_over(
            reply,
            conn,
            stream,
            "challenge_token",
            jose::closed(draft.input@, signature->0@),
        )
        &&& post == pre.one_started().one_started()
    } else {
        &&& r matches Step::Ask { ask, entry }
        &&& opens_transaction(
            ask,
            pre.next_corr,
            pre.code_key@,
            draft.nonce@,
            draft.code@,
            draft.expires_at,
        )
        &&& start_entry(
            entry,
            conn,
            stream,
            pre.next_corr,
            draft,
            jose::closed(draft.input@, signature->0@),
        )
        &&& post == pre.one_started().next()
    }
}

/// What a redemption comes to once the vault signed its certificate, or did not.
pub open spec fn lookup_begun(
    pre: Enrollment,
    conn: u16,
    stream: u16,
    draft: RedeemDraft,
    signature: Option<&[u8]>,
    r: Step,
    post: Enrollment,
) -> bool {
    if signature is None || jose::closed(draft.input@, signature->0@).len() > 2048 {
        &&& step_refuses(r, conn, stream, Refusal::Malformed)
        &&& post == pre.refused(Refusal::Malformed)
    } else if !pre.state_wired || draft.nonce@.len() == 0 {
        &&& step_says(r, conn, stream, 503, UNAVAILABLE_BODY)
        &&& post == pre.one_redeemed().unavailable()
    } else {
        &&& r matches Step::Ask { ask, entry }
        &&& ask.is(
            LedgerOp::Get,
            pre.next_corr,
            Namespace::Transaction,
            draft.nonce@,
            Seq::empty(),
            Seq::empty(),
            0,
        )
        &&& lookup_entry(
            entry,
            conn,
            stream,
            pre.next_corr,
            draft,
            jose::closed(draft.input@, signature->0@),
        )
        &&& post == pre.one_redeemed().next()
    }
}

/// What an operator's request for an authorisation comes to.
pub open spec fn auth_begun(
    pre: Enrollment,
    correlation: u32,
    ttl: u32,
    drawn: Option<[u8; 8]>,
    code: Option<[u8; 8]>,
    now: Option<u64>,
    r: Step,
    post: Enrollment,
) -> bool {
    if !pre.key_open || !pre.state_wired || drawn is None || code is None
        || now is None || now == Some(0u64) {
        step_denies(r, correlation) && post == pre
    } else {
        let nonce = base64::encoded((drawn->0)@);
        let expires_at = now->0 + auth_life(ttl);
        &&& r matches Step::Ask { ask, entry }
        &&& opens_transaction(
            ask,
            pre.next_corr,
            pre.code_key@,
            nonce,
            (code->0)@,
            expires_at as u64,
        )
        &&& auth_entry(
            entry,
            pre.next_corr,
            correlation,
            nonce,
            (code->0)@,
            expires_at as u64,
        )
        &&& post == pre.next()
    }
}

/// What a request about an authenticator comes to once its certificate was checked.
pub open spec fn totp_begun(
    pre: Enrollment,
    ask: TotpAsk,
    claims: Option<&[u8]>,
    secret: Option<[u8; 32]>,
    r: Step,
    post: Enrollment,
) -> bool {
    match device_claimed(claims) {
        None => step_refuses(r, ask.conn, ask.stream, Refusal::Unauthenticated)
            && post == pre,
        Some(device) => if !pre.state_wired {
            &&& step_says(r, ask.conn, ask.stream, 503, UNAVAILABLE_BODY)
            &&& post == pre.unavailable()
        } else if ask.confirming && !(0 < ask.code@.len() <= MAX_DIGITS) {
            &&& step_refuses(r, ask.conn, ask.stream, Refusal::Malformed)
            &&& post == pre
        } else if !ask.confirming && secret is None {
            &&& step_refuses(r, ask.conn, ask.stream, Refusal::NoEntropy)
            &&& post == pre
        } else {
            &&& r matches Step::Ask { ask: read, entry }
            &&& read.is(
                LedgerOp::Get,
                pre.next_corr,
                Namespace::Device,
                device,
                Seq::empty(),
                Seq::empty(),
                0,
            )
            &&& totp_entry(entry, ask, pre.next_corr, device, secret)
            &&& post == pre.next()
        },
    }
}

/// How long an operator's authorisation lives.
pub open spec fn auth_life(ttl: u32) -> int {
    if ttl == 0 || ttl > 300 {
        300
    } else {
        ttl as int
    }
}

/// The entry of an authorisation whose transaction is being written.
pub open spec fn auth_entry(
    e: Pending,
    corr: u32,
    caller: u32,
    nonce: Seq<u8>,
    code: Seq<u8>,
    expires_at: u64,
) -> bool {
    &&& !e.live
    &&& e.stage == Stage::AuthMint
    &&& e.corr == corr
    &&& e.caller_corr == caller
    &&& e.auth_exp == expires_at
    &&& e.nonce@ == nonce
    &&& e.code@ == code
}

/// The device that the claims of a certificate name.
pub open spec fn device_claimed(claims: Option<&[u8]>) -> Option<Seq<u8>> {
    match claims {
        Some(c) => match claims::text_claim(c@, bytes::text("device_id")) {
            Some(device) => Some(bytes::clipped(device, 256)),
            None => None,
        },
        None => None,
    }
}

/// The entry of a request about an authenticator, whose device record is being read.
pub open spec fn totp_entry(
    e: Pending,
    ask: TotpAsk,
    corr: u32,
    device: Seq<u8>,
    secret: Option<[u8; 32]>,
) -> bool {
    &&& !e.live
    &&& e.stage == Stage::TotpRead
    &&& e.conn == ask.conn
    &&& e.stream == ask.stream
    &&& e.corr == corr
    &&& e.device_id@ == bytes::clipped(device, 26)
    &&& e.totp_confirming == ask.confirming
    &&& if ask.confirming {
        e.totp_secret@.len() == 0 && e.totp_code@ == ask.code@
    } else {
        e.totp_secret@ == base32::encoded((secret->0)@) && e.totp_code@.len() == 0
    }
}

// What the ledger answers.

/// A request to replace a transaction, where it is still the one that was read.
pub open spec fn swaps_transaction(
    ask: LedgerAsk,
    corr: u32,
    nonce: Seq<u8>,
    etag: Seq<u8>,
    value: Seq<u8>,
) -> bool {
    ask.is(LedgerOp::CompareAndSwap, corr, Namespace::Transaction, nonce, etag, value, 0)
}

/// The entry goes on to another stage, under a new correlation.
pub open spec fn moved_on(next: Pending, entry: Pending, stage: Stage, corr: u32) -> bool {
    next == (Pending { stage, corr, live: false, ..entry })
}

pub open spec fn start_answered(
    pre: Enrollment,
    e: Pending,
    status: Status,
    step: Step,
    post: Enrollment,
) -> bool {
    if status != Status::Success {
        &&& step_says(step, e.conn, e.stream, 503, UNAVAILABLE_BODY)
        &&& post == pre.unavailable()
    } else {
        &&& step matches Step::Mail { mail, reply }
        &&& mail.correlation == e.corr
        &&& mail.from@ == pre.mail_from@
        &&& mail.to@ == e.claims@
        &&& mail.text@ == ceremony::mail_text(pre.mail_from@, e.claims@, e.code@)
        &&& hands_over(reply, e.conn, e.stream, "challenge_token", e.cert@)
        &&& post == pre.one_started()
    }
}

pub open spec fn lookup_answered(
    pre: Enrollment,
    e: Pending,
    status: Status,
    value: Seq<u8>,
    etag: Seq<u8>,
    step: Step,
    post: Enrollment,
) -> bool {
    let stored = claims::text_claim(value, bytes::text("code_hash"));
    let attempts = claims::number_or(value, bytes::text("attempts"), 0);
    if status == Status::NotFound {
        &&& step_says(step, e.conn, e.stream, 401, CODE_BODY)
        &&& post == pre.one_bad_code()
    } else if status != Status::Success {
        &&& step_says(step, e.conn, e.stream, 503, UNAVAILABLE_BODY)
        &&& post == pre.unavailable()
    } else if claims::text_claim(value, bytes::text("state")) == Some(bytes::text("burned")) {
        &&& step_says(step, e.conn, e.stream, 401, CODE_BODY)
        &&& post == pre.one_bad_code()
    } else if claims::text_claim(value, bytes::text("state")) != Some(bytes::text("pending")) {
        &&& step_says(step, e.conn, e.stream, 409, CONSUMED_BODY)
        &&& post == pre.one_replayed()
    } else if stored is None {
        &&& step_says(step, e.conn, e.stream, 503, UNAVAILABLE_BODY)
        &&& post == pre.unavailable()
    } else if stored != Some(ceremony::hash_of(pre.code_key@, e.nonce@, e.code@)) {
        &&& step matches Step::Note { ask, reply }
        &&& swaps_transaction(
            ask,
            pre.next_corr,
            e.nonce@,
            etag,
            ceremony::after_wrong_code(attempts, ceremony::kept_hash(value)),
        )
        &&& reply.is(e.conn as nat, e.stream as nat, 401, bytes::text(CODE_BODY))
        &&& post == if ceremony::more_attempts(attempts) >= 5 {
            pre.one_bad_code().one_burned().next()
        } else {
            pre.one_bad_code().next()
        }
    } else {
        &&& step matches Step::Ask { ask, entry }
        &&& swaps_transaction(ask, pre.next_corr, e.nonce@, etag, ceremony::consumed_record())
        &&& moved_on(entry, e, Stage::Consume, pre.next_corr)
        &&& post == pre.next()
    }
}

pub open spec fn consume_answered(
    pre: Enrollment,
    e: Pending,
    status: Status,
    step: Step,
    post: Enrollment,
) -> bool {
    if status == Status::Success {
        commit_begun(pre, e, step, post)
    } else if status == Status::Conflict {
        &&& step_says(step, e.conn, e.stream, 409, CONSUMED_BODY)
        &&& post == pre.one_replayed()
    } else {
        &&& step_says(step, e.conn, e.stream, 503, UNAVAILABLE_BODY)
        &&& post == pre.unavailable()
    }
}

/// The transaction is spent, and the device is to be recorded. Its membership does not end with
/// time: only a revocation ends it.
pub open spec fn commit_begun(pre: Enrollment, e: Pending, step: Step, post: Enrollment) -> bool {
    if free_from(pre.pending@, 0) is None {
        &&& step_says(step, e.conn, e.stream, 503, UNAVAILABLE_BODY)
        &&& post == pre.unavailable()
    } else {
        &&& step matches Step::Ask { ask, entry }
        &&& ask.is(
            LedgerOp::PutIfAbsent,
            pre.next_corr,
            Namespace::Device,
            e.device_id@,
            Seq::empty(),
            e.claims@,
            0,
        )
        &&& moved_on(entry, e, Stage::Commit, pre.next_corr)
        &&& post == pre.next()
    }
}

/// A device that is recorded already is one that enrols again with its key: its record is the one
/// that is there.
pub open spec fn commit_answered(
    pre: Enrollment,
    e: Pending,
    status: Status,
    step: Step,
    post: Enrollment,
) -> bool {
    if status == Status::Success || status == Status::Conflict {
        &&& step matches Step::Reply(reply)
        &&& hands_over(reply, e.conn, e.stream, "device_certificate", e.cert@)
        &&& post == (Enrollment {
            enrol_recorded: keys::counted(pre.enrol_recorded),
            ..pre.one_redeemed()
        })
    } else {
        &&& step_says(step, e.conn, e.stream, 503, UNAVAILABLE_BODY)
        &&& post == pre.unavailable()
    }
}

pub open spec fn auth_answered(
    pre: Enrollment,
    e: Pending,
    status: Status,
    step: Step,
    post: Enrollment,
) -> bool {
    &&& post == pre
    &&& if status != Status::Success {
        step_denies(step, e.caller_corr)
    } else {
        &&& step matches Step::Operator(reply)
        &&& reply.correlation == e.caller_corr
        &&& reply.grant matches Some(grant)
        &&& grant.auth_id@ == e.nonce@
        &&& grant.secret@ == e.code@
        &&& grant.expires_at == e.auth_exp
    }
}

/// A request to replace the device record, where it is still the one that was read.
pub open spec fn swaps_device(
    step: Step,
    pre: Enrollment,
    e: Pending,
    etag: Seq<u8>,
    value: Seq<u8>,
) -> bool {
    &&& step matches Step::Ask { ask, entry }
    &&& ask.is(
        LedgerOp::CompareAndSwap,
        pre.next_corr,
        Namespace::Device,
        e.device_id@.take(bytes::position_of(e.device_id@, 0) as int),
        etag,
        value,
        0,
    )
    &&& moved_on(entry, e, Stage::TotpWrite, pre.next_corr)
}

/// The record with its authenticator can be written.
pub open spec fn record_fits(held: Seq<u8>, secret: Seq<u8>, confirmed: bool, counter: u64) -> bool {
    claims::record_safe(secret) && device_record::device_record(
        held,
        secret,
        confirmed,
        counter,
    ).len() <= 1536
}

pub open spec fn attached(
    pre: Enrollment,
    e: Pending,
    value: Seq<u8>,
    etag: Seq<u8>,
    step: Step,
    post: Enrollment,
) -> bool {
    if !record_fits(value, e.totp_secret@, false, 0) {
        step_refuses(step, e.conn, e.stream, Refusal::Malformed) && post == pre
    } else {
        &&& swaps_device(
            step,
            pre,
            e,
            etag,
            device_record::device_record(value, e.totp_secret@, false, 0),
        )
        &&& post == pre.next()
    }
}

/// `c` is the first step at which the entry's code holds.
pub open spec fn first_step(e: Pending, held: Seq<u8>, value: Seq<u8>, now: u64, c: u64) -> bool {
    &&& device_record::presented_at(e.totp_code@, held, value, now, c)
    &&& forall|d: u64|
        d < c ==> !#[trigger] device_record::presented_at(e.totp_code@, held, value, now, d)
}

pub open spec fn confirmed_against(
    pre: Enrollment,
    e: Pending,
    value: Seq<u8>,
    etag: Seq<u8>,
    now: Option<u64>,
    step: Step,
    post: Enrollment,
) -> bool {
    let held = claims::text_or_empty(value, bytes::text("totp_secret"));
    if held.len() == 0 {
        step_refuses(step, e.conn, e.stream, Refusal::NoAuthenticator) && post == pre
    } else if now is None {
        step_says(step, e.conn, e.stream, 503, UNAVAILABLE_BODY) && post == pre
    } else if forall|d: u64| !#[trigger]
        device_record::presented_at(e.totp_code@, held, value, now->0, d) {
        &&& step_refuses(step, e.conn, e.stream, Refusal::BadCode)
        &&& post == (Enrollment {
            enrol_totp_bad_code: keys::counted(pre.enrol_totp_bad_code),
            ..pre
        })
    } else {
        exists|c: u64| #[trigger]
            first_step(e, held, value, now->0, c) && confirmed_at(
                pre,
                e,
                value,
                etag,
                held,
                c,
                step,
                post,
            )
    }
}

/// The record is replaced by one whose authenticator is confirmed at step `c`, where it fits.
pub open spec fn confirmed_at(
    pre: Enrollment,
    e: Pending,
    value: Seq<u8>,
    etag: Seq<u8>,
    held: Seq<u8>,
    c: u64,
    step: Step,
    post: Enrollment,
) -> bool {
    if !record_fits(value, held, true, c) {
        step_refuses(step, e.conn, e.stream, Refusal::Malformed) && post == pre
    } else {
        &&& swaps_device(step, pre, e, etag, device_record::device_record(value, held, true, c))
        &&& post == pre.next()
    }
}

pub open spec fn totp_read_answered(
    pre: Enrollment,
    e: Pending,
    status: Status,
    value: Seq<u8>,
    etag: Seq<u8>,
    now: Option<u64>,
    step: Step,
    post: Enrollment,
) -> bool {
    if status == Status::NotFound {
        step_refuses(step, e.conn, e.stream, Refusal::Unauthenticated) && post == pre
    } else if status != Status::Success {
        &&& step_says(step, e.conn, e.stream, 503, UNAVAILABLE_BODY)
        &&& post == pre.unavailable()
    } else if e.totp_confirming {
        confirmed_against(pre, e, value, etag, now, step, post)
    } else if claims::text_or_empty(value, bytes::text("totp_secret")).len() == 0 {
        attached(pre, e, value, etag, step, post)
    } else {
        &&& step_refuses(step, e.conn, e.stream, Refusal::AlreadyRegistered)
        &&& post == pre.one_conflict()
    }
}

/// What a device is told of its new authenticator, once.
pub open spec fn secret_body(secret: Seq<u8>) -> Seq<u8> {
    bytes::text("{\"secret\":\"") + secret + bytes::text(
        "\",\"algorithm\":\"SHA256\",\"digits\":6,\"period\":30,\"confirmed\":false}",
    )
}

pub open spec fn totp_write_answered(
    pre: Enrollment,
    e: Pending,
    status: Status,
    step: Step,
    post: Enrollment,
) -> bool {
    if status != Status::Success {
        &&& step_refuses(step, e.conn, e.stream, Refusal::AlreadyRegistered)
        &&& post == pre.one_conflict()
    } else if e.totp_confirming {
        &&& step_says(step, e.conn, e.stream, 200, "{\"confirmed\":true}")
        &&& post == (Enrollment {
            enrol_totp_confirmed: keys::counted(pre.enrol_totp_confirmed),
            ..pre
        })
    } else {
        &&& post == (Enrollment {
            enrol_totp_registered: keys::counted(pre.enrol_totp_registered),
            ..pre
        })
        &&& if secret_body(e.totp_secret@).len() <= 256 {
            step matches Step::Reply(reply) && reply.is(
                e.conn as nat,
                e.stream as nat,
                200,
                secret_body(e.totp_secret@),
            )
        } else {
            step_says(step, e.conn, e.stream, 500, UNAVAILABLE_BODY)
        }
    }
}

/// What an answer of the ledger comes to, by what the entry waited for.
pub open spec fn completed(
    pre: Enrollment,
    e: Pending,
    rep: StateReply,
    now: Option<u64>,
    step: Step,
    post: Enrollment,
) -> bool {
    match e.stage {
        Stage::Start => start_answered(pre, e, rep.status, step, post),
        Stage::Lookup => lookup_answered(pre, e, rep.status, rep.value@, rep.etag@, step, post),
        Stage::Consume => consume_answered(pre, e, rep.status, step, post),
        Stage::Commit => commit_answered(pre, e, rep.status, step, post),
        Stage::AuthMint => auth_answered(pre, e, rep.status, step, post),
        Stage::TotpRead => totp_read_answered(
            pre,
            e,
            rep.status,
            rep.value@,
            rep.etag@,
            now,
            step,
            post,
        ),
        Stage::TotpWrite => totp_write_answered(pre, e, rep.status, step, post),
    }
}

impl Enrollment {
    pub open spec fn one_burned(self) -> Self {
        Enrollment { enrol_txn_burned: keys::counted(self.enrol_txn_burned), ..self }
    }

    fn free_slot(&self) -> (r: Option<usize>)
        ensures
            match r {
                Some(i) => i < self.pending@.len() && free_from(self.pending@, 0) == Some(i as int),
                None => free_from(self.pending@, 0) is None,
            },
    {
        let mut i: usize = 0;
        while i < self.pending.len()
            invariant
                i <= self.pending@.len(),
                free_from(self.pending@, 0) == free_from(self.pending@, i as int),
            decreases self.pending@.len() - i,
        {
            if !self.pending[i].live {
                return Some(i);
            }
            i = i + 1;
        }
        None
    }

    /// A request to the ledger was sent, or could not be: hold its entry in the first free slot,
    /// or say that the ledger is out of reach.
    pub fn dispatch(&mut self, entry: Pending, outcome: Sent) -> (r: Step)
        requires
            old(self).wf(),
        ensures
            final(self).wf(),
            match (outcome, free_from(old(self).pending@, 0)) {
                (Sent::Written, Some(i)) => {
                    &&& r is Idle
                    &&& final(self).pending@ == old(self).pending@.update(
                        i,
                        Pending { live: true, ..entry },
                    )
                    &&& *final(self) == (Enrollment {
                        pending: final(self).pending,
                        ..*old(self)
                    })
                },
                _ => if entry.stage == Stage::AuthMint {
                    step_denies(r, entry.caller_corr) && *final(self) == *old(self)
                } else {
                    &&& step_says(r, entry.conn, entry.stream, 503, UNAVAILABLE_BODY)
                    &&& *final(self) == if entry.stage == Stage::Commit && outcome
                        == Sent::Unencodable {
                        *old(self)
                    } else {
                        old(self).unavailable()
                    }
                },
            },
    {
        if outcome == Sent::Written {
            match self.free_slot() {
                Some(i) => {
                    self.pending[i] = Pending { live: true, ..entry };
                    return Step::Idle;
                },
                None => {},
            }
        }
        if entry.stage == Stage::AuthMint {
            return deny(entry.caller_corr);
        }
        if entry.stage == Stage::Commit && outcome == Sent::Unencodable {
            return Step::Reply(json_reply(entry.conn, entry.stream, 503, UNAVAILABLE_BODY));
        }
        self.out_of_reach(entry.conn, entry.stream)
    }

    /// Take the entry that waits under `corr`, whose slot is free from now on.
    fn take(&mut self, corr: u32) -> (r: Option<Pending>)
        requires
            old(self).wf(),
        ensures
            final(self).wf(),
            *final(self) == (Enrollment { pending: final(self).pending, ..*old(self) }),
            match waiting_from(old(self).pending@, corr, 0) {
                Some(i) => 0 <= i < 4 && r == Some(old(self).pending@[i]) && freed(
                    old(self).pending@,
                    final(self).pending@,
                    i,
                ),
                None => r is None && final(self).pending == old(self).pending,
            },
    {
        let mut i: usize = 0;
        while i < self.pending.len()
            invariant
                i <= self.pending@.len(),
                self.wf(),
                *self == *old(self),
                waiting_from(self.pending@, corr, 0) == waiting_from(self.pending@, corr, i as int),
            decreases self.pending@.len() - i,
        {
            if self.pending[i].live && self.pending[i].corr == corr {
                let mut entry = Pending::zero();
                core::mem::swap(&mut entry, &mut self.pending[i]);
                return Some(entry);
            }
            i = i + 1;
        }
        None
    }

    /// One reply of the ledger. `now` is absent where no clock is trusted.
    pub fn drain_state(&mut self, rep: &StateReply, now: Option<u64>) -> (r: Step)
        requires
            old(self).wf(),
        ensures
            final(self).wf(),
            match waiting_from(old(self).pending@, rep.correlation, 0) {
                Some(i) if rep.client == STATE_CLIENT => freed(
                    old(self).pending@,
                    final(self).pending@,
                    i,
                ) && completed(
                    (Enrollment { pending: final(self).pending, ..*old(self) }),
                    old(self).pending@[i],
                    *rep,
                    now,
                    r,
                    *final(self),
                ),
                _ => r is Idle && *final(self) == *old(self),
            },
    {
        if rep.client != STATE_CLIENT {
            return Step::Idle;
        }
        let entry = match self.take(rep.correlation) {
            Some(entry) => entry,
            None => {
                return Step::Idle;
            },
        };
        self.complete(entry, rep, now)
    }

    /// Turn a verdict of the ledger into the next step, or the answer.
    fn complete(&mut self, entry: Pending, rep: &StateReply, now: Option<u64>) -> (r: Step)
        requires
            old(self).wf(),
        ensures
            completed(*old(self), entry, *rep, now, r, *final(self)),
            final(self).pending == old(self).pending,
    {
        match entry.stage {
            Stage::Start => self.start_done(entry, rep.status),
            Stage::Lookup => self.lookup_done(
                entry,
                rep.status,
                rep.value.as_slice(),
                rep.etag.as_slice(),
            ),
            Stage::Consume => self.consume_done(entry, rep.status),
            Stage::Commit => self.commit_done(entry, rep.status),
            Stage::AuthMint => self.auth_mint_done(entry, rep.status),
            Stage::TotpRead => self.totp_read_done(
                entry,
                rep.status,
                rep.value.as_slice(),
                rep.etag.as_slice(),
                now,
            ),
            Stage::TotpWrite => self.totp_write_done(entry, rep.status),
        }
    }

    /// The transaction is recorded: answer the start, and mail the code.
    pub fn start_done(&mut self, entry: Pending, status: Status) -> (r: Step)
        ensures
            start_answered(*old(self), entry, status, r, *final(self)),
            final(self).pending == old(self).pending,
    {
        if status != Status::Success {
            return self.out_of_reach(entry.conn, entry.stream);
        }
        let text = enrolment_mail(
            self.mail_from.as_slice(),
            entry.claims.as_slice(),
            entry.code.as_slice(),
        );
        let mail = Mail {
            correlation: entry.corr,
            from: slice_to_vec(self.mail_from.as_slice()),
            to: entry.claims,
            text,
        };
        count(&mut self.enrol_started);
        Step::Mail {
            mail,
            reply: hand_over(entry.conn, entry.stream, "challenge_token", entry.cert.as_slice()),
        }
    }

    /// The transaction came back: check the code, and spend the transaction if it is right.
    pub fn lookup_done(&mut self, entry: Pending, status: Status, value: &[u8], etag: &[u8]) -> (r:
        Step)
        ensures
            lookup_answered(*old(self), entry, status, value@, etag@, r, *final(self)),
            final(self).pending == old(self).pending,
    {
        match examine(
            &self.code_key,
            entry.nonce.as_slice(),
            entry.code.as_slice(),
            status,
            value,
        ) {
            Verdict::Absent => {
                count(&mut self.enrol_code_bad);
                Step::Reply(json_reply(entry.conn, entry.stream, 401, CODE_BODY))
            },
            Verdict::Unavailable => self.out_of_reach(entry.conn, entry.stream),
            Verdict::Spent => {
                count(&mut self.enrol_replayed);
                Step::Reply(json_reply(entry.conn, entry.stream, 409, CONSUMED_BODY))
            },
            Verdict::Wrong { attempts, stored } => {
                count(&mut self.enrol_code_bad);
                self.burn_or_count(entry, etag, attempts, stored.as_slice())
            },
            Verdict::Right => {
                let corr: u32 = self.next_correlation();
                let ask = LedgerAsk {
                    op: LedgerOp::CompareAndSwap,
                    correlation: corr,
                    namespace: Namespace::Transaction,
                    key: slice_to_vec(entry.nonce.as_slice()),
                    etag: slice_to_vec(etag),
                    value: write_consumed(),
                    expires_at: 0,
                };
                Step::Ask { ask, entry: Pending { stage: Stage::Consume, corr, live: false, ..entry } }
            },
        }
    }

    /// Record a wrong code, and burn the transaction once there were enough of them. The answer is
    /// the same whether or not the ledger takes it.
    pub fn burn_or_count(&mut self, entry: Pending, etag: &[u8], attempts: u64, stored: &[u8]) -> (r:
        Step)
        ensures
            r matches Step::Note { ask, reply } && swaps_transaction(
                ask,
                old(self).next_corr,
                entry.nonce@,
                etag@,
                ceremony::after_wrong_code(attempts, stored@),
            ) && reply.is(entry.conn as nat, entry.stream as nat, 401, bytes::text(CODE_BODY)),
            *final(self) == if ceremony::more_attempts(attempts) >= 5 {
                old(self).one_burned().next()
            } else {
                old(self).next()
            },
    {
        let (value, burned) = write_wrong_code(attempts, stored);
        if burned {
            count(&mut self.enrol_txn_burned);
        }
        let corr: u32 = self.next_correlation();
        let ask = LedgerAsk {
            op: LedgerOp::CompareAndSwap,
            correlation: corr,
            namespace: Namespace::Transaction,
            key: slice_to_vec(entry.nonce.as_slice()),
            etag: slice_to_vec(etag),
            value,
            expires_at: 0,
        };
        Step::Note { ask, reply: json_reply(entry.conn, entry.stream, 401, CODE_BODY) }
    }

    /// The transaction is spent: record the device.
    pub fn consume_done(&mut self, entry: Pending, status: Status) -> (r: Step)
        ensures
            consume_answered(*old(self), entry, status, r, *final(self)),
            final(self).pending == old(self).pending,
    {
        match status {
            Status::Success => self.begin_commit(entry),
            Status::Conflict => {
                count(&mut self.enrol_replayed);
                Step::Reply(json_reply(entry.conn, entry.stream, 409, CONSUMED_BODY))
            },
            _ => self.out_of_reach(entry.conn, entry.stream),
        }
    }

    /// Record the device, with the certificate still held back.
    pub fn begin_commit(&mut self, entry: Pending) -> (r: Step)
        ensures
            commit_begun(*old(self), entry, r, *final(self)),
            final(self).pending == old(self).pending,
    {
        if self.free_slot().is_none() {
            return self.out_of_reach(entry.conn, entry.stream);
        }
        let corr: u32 = self.next_correlation();
        let ask = LedgerAsk {
            op: LedgerOp::PutIfAbsent,
            correlation: corr,
            namespace: Namespace::Device,
            key: slice_to_vec(entry.device_id.as_slice()),
            etag: Vec::new(),
            value: slice_to_vec(entry.claims.as_slice()),
            expires_at: 0,
        };
        assert(ask.etag@ =~= Seq::<u8>::empty());
        Step::Ask { ask, entry: Pending { stage: Stage::Commit, corr, live: false, ..entry } }
    }

    /// Release the certificate once the device is recorded.
    pub fn commit_done(&mut self, entry: Pending, status: Status) -> (r: Step)
        ensures
            commit_answered(*old(self), entry, status, r, *final(self)),
            final(self).pending == old(self).pending,
    {
        match status {
            Status::Success | Status::Conflict => {
                count(&mut self.enrol_redeemed);
                count(&mut self.enrol_recorded);
                Step::Reply(
                    hand_over(
                        entry.conn,
                        entry.stream,
                        "device_certificate",
                        entry.cert.as_slice(),
                    ),
                )
            },
            _ => self.out_of_reach(entry.conn, entry.stream),
        }
    }

    /// The transaction of an authorisation is recorded: tell the operator. An identifier that
    /// exists already is not one that this call made.
    pub fn auth_mint_done(&mut self, entry: Pending, status: Status) -> (r: Step)
        ensures
            auth_answered(*old(self), entry, status, r, *final(self)),
            final(self).pending == old(self).pending,
    {
        if status != Status::Success {
            return deny(entry.caller_corr);
        }
        Step::Operator(
            AuthReply {
                correlation: entry.caller_corr,
                grant: Some(
                    Grant {
                        auth_id: entry.nonce,
                        secret: entry.code,
                        expires_at: entry.auth_exp,
                    },
                ),
            },
        )
    }

    /// The device record came back: attach the authenticator, or check a code.
    pub fn totp_read_done(
        &mut self,
        entry: Pending,
        status: Status,
        value: &[u8],
        etag: &[u8],
        now: Option<u64>,
    ) -> (r: Step)
        ensures
            totp_read_answered(*old(self), entry, status, value@, etag@, now, r, *final(self)),
            final(self).pending == old(self).pending,
    {
        match status {
            Status::Success => {},
            Status::NotFound => {
                return Step::Reply(refuse(entry.conn, entry.stream, Refusal::Unauthenticated));
            },
            _ => {
                return self.out_of_reach(entry.conn, entry.stream);
            },
        }
        if entry.totp_confirming {
            return self.confirm_against(entry, value, etag, now);
        }
        if claim_or_empty(value, "totp_secret".as_bytes()).len() == 0 {
            return self.attach_authenticator(entry, value, etag);
        }
        count(&mut self.enrol_totp_conflict);
        Step::Reply(refuse(entry.conn, entry.stream, Refusal::AlreadyRegistered))
    }

    /// Write the drawn secret into the device record, unconfirmed.
    pub fn attach_authenticator(&mut self, entry: Pending, value: &[u8], etag: &[u8]) -> (r: Step)
        ensures
            attached(*old(self), entry, value@, etag@, r, *final(self)),
            final(self).pending == old(self).pending,
    {
        match write_device_record(value, entry.totp_secret.as_slice(), false, 0) {
            Some(record) => self.cas_device(entry, etag, record),
            None => Step::Reply(refuse(entry.conn, entry.stream, Refusal::Malformed)),
        }
    }

    /// Check a presented code and, if it holds, confirm the authenticator.
    pub fn confirm_against(
        &mut self,
        entry: Pending,
        value: &[u8],
        etag: &[u8],
        now: Option<u64>,
    ) -> (r: Step)
        ensures
            confirmed_against(*old(self), entry, value@, etag@, now, r, *final(self)),
            final(self).pending == old(self).pending,
    {
        let held = claim_or_empty(value, "totp_secret".as_bytes());
        if held.len() == 0 {
            return Step::Reply(refuse(entry.conn, entry.stream, Refusal::NoAuthenticator));
        }
        let at: u64 = match now {
            Some(at) => at,
            None => {
                return Step::Reply(json_reply(entry.conn, entry.stream, 503, UNAVAILABLE_BODY));
            },
        };
        let matched: u64 = match verify_presented_code(entry.totp_code.as_slice(), held, value, at) {
            Some(matched) => matched,
            None => {
                count(&mut self.enrol_totp_bad_code);
                return Step::Reply(refuse(entry.conn, entry.stream, Refusal::BadCode));
            },
        };
        assert(first_step(entry, held@, value@, at, matched));
        match write_device_record(value, held, true, matched) {
            Some(record) => self.cas_device(entry, etag, record),
            None => Step::Reply(refuse(entry.conn, entry.stream, Refusal::Malformed)),
        }
    }

    /// Replace the device record, where it is still the one that was read.
    fn cas_device(&mut self, entry: Pending, etag: &[u8], record: Vec<u8>) -> (r: Step)
        ensures
            swaps_device(r, *old(self), entry, etag@, record@),
            *final(self) == old(self).next(),
    {
        let corr: u32 = self.next_correlation();
        let end: usize = bytes::position(entry.device_id.as_slice(), 0);
        let key = copy_field(entry.device_id.as_slice(), end);
        proof {
            bytes::lemma_position_of(entry.device_id@, 0);
        }
        assert(key@ =~= entry.device_id@.take(end as int));
        let ask = LedgerAsk {
            op: LedgerOp::CompareAndSwap,
            correlation: corr,
            namespace: Namespace::Device,
            key,
            etag: slice_to_vec(etag),
            value: record,
            expires_at: 0,
        };
        Step::Ask { ask, entry: Pending { stage: Stage::TotpWrite, corr, live: false, ..entry } }
    }

    /// The authenticator is written, or the record was not the one that was read any more.
    pub fn totp_write_done(&mut self, entry: Pending, status: Status) -> (r: Step)
        ensures
            totp_write_answered(*old(self), entry, status, r, *final(self)),
            final(self).pending == old(self).pending,
    {
        if status != Status::Success {
            count(&mut self.enrol_totp_conflict);
            return Step::Reply(refuse(entry.conn, entry.stream, Refusal::AlreadyRegistered));
        }
        if entry.totp_confirming {
            count(&mut self.enrol_totp_confirmed);
            return Step::Reply(json_reply(entry.conn, entry.stream, 200, "{\"confirmed\":true}"));
        }
        count(&mut self.enrol_totp_registered);
        let mut body = slice_to_vec("{\"secret\":\"".as_bytes());
        append(&mut body, entry.totp_secret.as_slice());
        append(
            &mut body,
            "\",\"algorithm\":\"SHA256\",\"digits\":6,\"period\":30,\"confirmed\":false}".as_bytes(),
        );
        assert(body@ =~= secret_body(entry.totp_secret@));
        if body.len() > 256 {
            return Step::Reply(json_reply(entry.conn, entry.stream, 500, UNAVAILABLE_BODY));
        }
        Step::Reply(json_reply_with(entry.conn, entry.stream, 200, body))
    }

    // The mail.

    /// The mail was handed to the mailer, or could not be.
    pub fn submit_mail(&mut self, submitted: bool)
        ensures
            *final(self) == if submitted {
                Enrollment {
                    enrol_mail_submitted: keys::counted(old(self).enrol_mail_submitted),
                    ..*old(self)
                }
            } else {
                Enrollment {
                    enrol_mail_failed: keys::counted(old(self).enrol_mail_failed),
                    ..*old(self)
                }
            },
    {
        if submitted {
            count(&mut self.enrol_mail_submitted);
        } else {
            count(&mut self.enrol_mail_failed);
        }
    }

    /// One result of the mailer. A code that will never arrive is left to expire.
    pub fn drain_mail(&mut self, accepted: bool)
        ensures
            *final(self) == if accepted {
                *old(self)
            } else {
                Enrollment {
                    enrol_mail_failed: keys::counted(old(self).enrol_mail_failed),
                    ..*old(self)
                }
            },
    {
        if !accepted {
            count(&mut self.enrol_mail_failed);
        }
    }
}

/// A certificate is handed over only for a redemption whose device is in the ledger: no other
/// answer of the ledger makes a redemption succeed.
pub proof fn released_only_when_recorded(
    pre: Enrollment,
    e: Pending,
    rep: StateReply,
    now: Option<u64>,
    step: Step,
    post: Enrollment,
)
    requires
        completed(pre, e, rep, now, step, post),
        e.stage == Stage::Lookup || e.stage == Stage::Consume || e.stage == Stage::Commit,
        step matches Step::Reply(reply) && reply.status == 200,
    ensures
        e.stage == Stage::Commit,
        rep.status == Status::Success || rep.status == Status::Conflict,
{
}

/// A transaction is spent only by the code whose hash it holds, and only while it waits for it; its
/// device is recorded only when it was spent.
pub proof fn recorded_only_when_spent(
    pre: Enrollment,
    e: Pending,
    rep: StateReply,
    now: Option<u64>,
    step: Step,
    post: Enrollment,
)
    requires
        completed(pre, e, rep, now, step, post),
    ensures
        step matches Step::Ask { ask, entry } ==> {
            &&& entry.stage == Stage::Consume ==> {
                &&& e.stage == Stage::Lookup
                &&& rep.status == Status::Success
                &&& claims::text_claim(rep.value@, bytes::text("state")) == Some(
                    bytes::text("pending"),
                )
                &&& claims::text_claim(rep.value@, bytes::text("code_hash")) == Some(
                    ceremony::hash_of(pre.code_key@, e.nonce@, e.code@),
                )
            }
            &&& entry.stage == Stage::Commit ==> e.stage == Stage::Consume && rep.status
                == Status::Success
        },
{
}

/// What a redemption is answered does not tell a wrong code from a transaction that is not there,
/// nor from one that was burned.
pub proof fn a_wrong_code_and_no_transaction_look_alike(
    pre: Enrollment,
    e: Pending,
    wrong: StateReply,
    absent: StateReply,
    now: Option<u64>,
    step: Step,
    other: Step,
    post: Enrollment,
    later: Enrollment,
)
    requires
        e.stage == Stage::Lookup,
        completed(pre, e, wrong, now, step, post),
        step is Note,
        completed(pre, e, absent, now, other, later),
        absent.status == Status::NotFound || absent.status == Status::Success && claims::text_claim(
            absent.value@,
            bytes::text("state"),
        ) == Some(bytes::text("burned")),
    ensures
        other is Reply,
        step->Note_reply.conn == (other->Reply_0).conn,
        step->Note_reply.stream == (other->Reply_0).stream,
        step->Note_reply.status == (other->Reply_0).status,
        step->Note_reply.content_type == (other->Reply_0).content_type,
        step->Note_reply.body@ == (other->Reply_0).body@,
{
}

/// The operator gets a code only with the transaction that it opens.
pub proof fn granted_only_when_recorded(
    pre: Enrollment,
    e: Pending,
    rep: StateReply,
    now: Option<u64>,
    step: Step,
    post: Enrollment,
)
    requires
        completed(pre, e, rep, now, step, post),
        step matches Step::Operator(reply) && reply.grant is Some,
    ensures
        e.stage == Stage::AuthMint,
        rep.status == Status::Success,
{
}

/// A start for a mailbox: the code goes to the address of the body by mail, and its keyed hash into
/// a fresh transaction under the nonce of the challenge, which waits with no wrong code counted and
/// ends with the challenge. The challenge is handed over once the ledger holds the transaction.
pub proof fn a_start_mails_the_code_of_its_transaction(
    pre: Enrollment,
    conn: u16,
    stream: u16,
    draft: StartDraft,
    signature: Option<&[u8]>,
    ask: LedgerAsk,
    entry: Pending,
    post: Enrollment,
    then: Enrollment,
    status: Status,
    r: Step,
    after: Enrollment,
)
    requires
        start_begun(pre, conn, stream, draft, signature, Step::Ask { ask, entry }, post),
        start_answered(then, entry, status, r, after),
        draft.nonce@.len() <= 48,
        draft.code@.len() == 8,
    ensures
        !draft.adopted,
        pre.state_wired,
        signature is Some,
        ask.op == LedgerOp::PutIfAbsent,
        ask.namespace == Namespace::Transaction,
        ask.key@ == draft.nonce@,
        ask.expires_at == draft.expires_at,
        ask.correlation == entry.corr,
        claims::text_claim(ask.value@, bytes::text("state")) == Some(bytes::text("pending")),
        claims::number_claim(ask.value@, bytes::text("attempts")) == Some(0u64),
        claims::text_claim(ask.value@, bytes::text("code_hash")) == Some(
            base64::encoded(crypto::hmac_sha256(pre.code_key@, draft.nonce@ + draft.code@)),
        ),
        r is Mail <==> status == Status::Success,
        r matches Step::Mail { mail, reply } ==> {
            &&& mail.to@ == draft.email@
            &&& mail.from@ == then.mail_from@
            &&& mail.text@ == ceremony::mail_text(then.mail_from@, draft.email@, draft.code@)
            &&& reply.conn == conn && reply.stream == stream && reply.status == 200
            &&& reply.body@ == claims::field_object(
                2112,
                bytes::text("challenge_token"),
                draft.input@ + seq![46u8] + base64::encoded(signature->0@),
            )
        },
        status != Status::Success ==> (r matches Step::Reply(reply) && reply.status == 503),
{
    let hash = ceremony::hash_of(pre.code_key@, draft.nonce@, draft.code@);
    ceremony::lemma_pending_reads_back(pre.code_key@, draft.nonce@, draft.code@);
}

/// A start for an operator's transaction is answered at once: the transaction is there already, so
/// nothing is written and nothing is mailed.
pub proof fn an_adopted_start_writes_nothing(
    pre: Enrollment,
    conn: u16,
    stream: u16,
    draft: StartDraft,
    signature: Option<&[u8]>,
    r: Step,
    post: Enrollment,
)
    requires
        start_begun(pre, conn, stream, draft, signature, r, post),
        draft.adopted,
    ensures
        r matches Step::Reply(reply) && reply.conn == conn && reply.stream == stream && (reply.status
            == 200 ==> reply.body@ == claims::field_object(
            2112,
            bytes::text("challenge_token"),
            draft.input@ + seq![46u8] + base64::encoded(signature->0@),
        )),
        signature is Some && pre.state_wired && draft.nonce@.len() > 0 && (draft.input@ + seq![46u8]
            + base64::encoded(signature->0@)).len() <= 2048 ==> (r->Reply_0).status == 200,
{
}

/// A redemption, from the certificate that was composed to the one that is handed over: the
/// transaction that the challenge names is read; the right code replaces what was read by the mark
/// of a spent one; then the device is recorded under its own name, with the claims of the
/// certificate and for good; and only then is the certificate handed over, as it was signed.
pub proof fn a_redemption_records_the_device_it_certifies(
    states: Seq<Enrollment>,
    conn: u16,
    stream: u16,
    draft: RedeemDraft,
    signature: Option<&[u8]>,
    read: LedgerAsk,
    looking: Pending,
    value: Seq<u8>,
    etag: Seq<u8>,
    spend: LedgerAsk,
    spending: Pending,
    record: LedgerAsk,
    recording: Pending,
    status: Status,
    r: Step,
)
    requires
        states.len() == 8,
        lookup_begun(
            states[0],
            conn,
            stream,
            draft,
            signature,
            Step::Ask { ask: read, entry: looking },
            states[1],
        ),
        lookup_answered(
            states[2],
            looking,
            Status::Success,
            value,
            etag,
            Step::Ask { ask: spend, entry: spending },
            states[3],
        ),
        consume_answered(
            states[4],
            spending,
            Status::Success,
            Step::Ask { ask: record, entry: recording },
            states[5],
        ),
        commit_answered(states[6], recording, status, r, states[7]),
        draft.nonce@.len() <= 48,
        draft.code@.len() == 8,
    ensures
        read.op == LedgerOp::Get && read.namespace == Namespace::Transaction && read.key@
            == draft.nonce@,
        claims::text_claim(value, bytes::text("state")) == Some(bytes::text("pending")),
        claims::text_claim(value, bytes::text("code_hash")) == Some(
            base64::encoded(crypto::hmac_sha256(states[2].code_key@, draft.nonce@ + draft.code@)),
        ),
        spend.op == LedgerOp::CompareAndSwap && spend.namespace == Namespace::Transaction
            && spend.key@ == draft.nonce@ && spend.etag@ == etag,
        claims::text_claim(spend.value@, bytes::text("state")) == Some(bytes::text("consumed")),
        record.op == LedgerOp::PutIfAbsent && record.namespace == Namespace::Device && record.key@
            == draft.device_id@ && record.value@ == draft.claims@ && record.expires_at == 0,
        status == Status::Success || status == Status::Conflict ==> (r matches Step::Reply(reply)
            && reply.status == 200 && reply.conn == conn && reply.stream == stream && reply.body@
            == claims::field_object(
            2112,
            bytes::text("device_certificate"),
            draft.input@ + seq![46u8] + base64::encoded(signature->0@),
        )),
        status != Status::Success && status != Status::Conflict ==> (r matches Step::Reply(reply)
            && reply.status == 503),
{
    ceremony::lemma_consumed_reads_back();
}

/// A wrong code is answered with 401 and costs an attempt: what was read is replaced by what a wrong
/// code leaves, and nothing is recorded. A spent transaction is answered with 409.
pub proof fn a_wrong_code_records_nothing(
    pre: Enrollment,
    e: Pending,
    status: Status,
    value: Seq<u8>,
    etag: Seq<u8>,
    r: Step,
    post: Enrollment,
)
    requires
        lookup_answered(pre, e, status, value, etag, r, post),
        e.nonce@.len() <= 48,
        e.code@.len() == 8,
    ensures
        ({
            let right = base64::encoded(crypto::hmac_sha256(pre.code_key@, e.nonce@ + e.code@));
            let state = claims::text_claim(value, bytes::text("state"));
            let stored = claims::text_claim(value, bytes::text("code_hash"));
            let waits = status == Status::Success && state == Some(bytes::text("pending"))
                && stored is Some;
            &&& r is Ask <==> waits && stored == Some(right)
            &&& waits && stored != Some(right) ==> (r matches Step::Note { ask, reply } && {
                &&& reply.status == 401 && reply.conn == e.conn && reply.stream == e.stream
                &&& ask.op == LedgerOp::CompareAndSwap
                &&& ask.namespace == Namespace::Transaction
                &&& ask.key@ == e.nonce@
                &&& ask.etag@ == etag
                &&& stored->0.len() <= 43 ==> ask.value@ == ceremony::after_wrong_code(
                    claims::number_or(value, bytes::text("attempts"), 0),
                    stored->0,
                )
            })
            &&& status == Status::NotFound ==> (r matches Step::Reply(reply) && reply.status == 401)
            &&& status == Status::Success && state == Some(bytes::text("consumed")) ==> (
            r matches Step::Reply(reply) && reply.status == 409)
        }),
{
    ceremony::lemma_states_differ();
}

/// An operator is told the transaction and the code that opens it, both as they were drawn, for five
/// minutes at the most, and only once the ledger holds the transaction.
pub proof fn an_operator_is_told_what_was_recorded(
    pre: Enrollment,
    correlation: u32,
    ttl: u32,
    drawn: Option<[u8; 8]>,
    code: Option<[u8; 8]>,
    now: Option<u64>,
    ask: LedgerAsk,
    entry: Pending,
    post: Enrollment,
    then: Enrollment,
    status: Status,
    r: Step,
    after: Enrollment,
)
    requires
        auth_begun(pre, correlation, ttl, drawn, code, now, Step::Ask { ask, entry }, post),
        now matches Some(t) ==> t + 300 <= u64::MAX,
        auth_answered(then, entry, status, r, after),
    ensures
        pre.key_open && pre.state_wired && drawn is Some && code is Some && now is Some,
        ask.op == LedgerOp::PutIfAbsent,
        ask.namespace == Namespace::Transaction,
        ask.key@ == base64::encoded(drawn->0@),
        ask.expires_at <= now->0 + 300,
        0 < ttl <= 300 ==> ask.expires_at == now->0 + ttl,
        claims::text_claim(ask.value@, bytes::text("state")) == Some(bytes::text("pending")),
        claims::text_claim(ask.value@, bytes::text("code_hash")) == Some(
            base64::encoded(
                crypto::hmac_sha256(pre.code_key@, base64::encoded(drawn->0@) + code->0@),
            ),
        ),
        r matches Step::Operator(reply) && reply.correlation == correlation && (reply.grant is Some
            <==> status == Status::Success) && (reply.grant matches Some(grant) ==> grant.auth_id@
            == base64::encoded(drawn->0@) && grant.secret@ == code->0@ && grant.expires_at
            == ask.expires_at),
{
    base64::encoding_length(drawn->0@);
    ceremony::lemma_pending_reads_back(pre.code_key@, base64::encoded(drawn->0@), code->0@);
}

/// An authenticator is attached to the device that the certificate names and that the ledger holds,
/// where it has none: the record is replaced, as it was read, by one with the drawn secret, not yet
/// confirmed; and the device is told that very secret once the ledger took it.
pub proof fn the_attached_secret_is_the_one_told(
    pre: Enrollment,
    ask: TotpAsk,
    held: Option<&[u8]>,
    secret: Option<[u8; 32]>,
    read: LedgerAsk,
    reading: Pending,
    post: Enrollment,
    then: Enrollment,
    value: Seq<u8>,
    etag: Seq<u8>,
    now: Option<u64>,
    swap: LedgerAsk,
    writing: Pending,
    done: Enrollment,
    last: Enrollment,
    status: Status,
    r: Step,
    after: Enrollment,
    device: Seq<u8>,
)
    requires
        !ask.confirming,
        totp_begun(pre, ask, held, secret, Step::Ask { ask: read, entry: reading }, post),
        totp_read_answered(
            then,
            reading,
            Status::Success,
            value,
            etag,
            now,
            Step::Ask { ask: swap, entry: writing },
            done,
        ),
        totp_write_answered(last, writing, status, r, after),
        held matches Some(c) && claims::text_claim(c@, bytes::text("device_id")) == Some(device),
        device.len() <= 26,
        forall|i: int| 0 <= i < device.len() ==> #[trigger] device[i] != 0,
        device_record::plain_methods(value),
    ensures
        read.op == LedgerOp::Get && read.namespace == Namespace::Device && read.key@ == device,
        secret is Some,
        match claims::text_claim(value, bytes::text("totp_secret")) {
            Some(old) => old.len() == 0,
            None => true,
        },
        swap.op == LedgerOp::CompareAndSwap && swap.namespace == Namespace::Device && swap.key@
            == device && swap.etag@ == etag,
        claims::text_claim(swap.value@, bytes::text("totp_secret")) == Some(
            base32::encoded(secret->0@),
        ),
        claims::text_claim(swap.value@, bytes::text("totp_confirmed")) == Some(bytes::text("false")),
        status == Status::Success ==> (r matches Step::Reply(reply) && reply.conn == ask.conn
            && reply.stream == ask.stream && (reply.status == 200 ==> reply.body@ == bytes::text(
            "{\"secret\":\"",
        ) + base32::encoded(secret->0@) + bytes::text(
            "\",\"algorithm\":\"SHA256\",\"digits\":6,\"period\":30,\"confirmed\":false}",
        ))),
        status != Status::Success ==> (r matches Step::Reply(reply) && reply.status == 409),
{
    assert(reading.device_id@ =~= device);
    bytes::lemma_position_unique(device, 0, device.len() as int);
    assert(device.take(device.len() as int) =~= device);
    base32::encoding_letters(secret->0@);
    device_record::authenticator_reads_back(value, base32::encoded(secret->0@), false, 0);
}

/// An authenticator is confirmed by a code of its own secret, at a step past the last one that was
/// used: the record is replaced, as it was read, by one that says so and that the step is used. A
/// code that holds at no step changes nothing.
#[verifier::spinoff_prover]
#[verifier::rlimit(100)]
pub proof fn a_code_of_its_own_confirms_an_authenticator(
    pre: Enrollment,
    e: Pending,
    value: Seq<u8>,
    etag: Seq<u8>,
    now: u64,
    r: Step,
    post: Enrollment,
    held: Seq<u8>,
)
    requires
        e.totp_confirming,
        totp_read_answered(pre, e, Status::Success, value, etag, Some(now), r, post),
        claims::text_claim(value, bytes::text("totp_secret")) == Some(held),
        held.len() > 0,
        device_record::plain_methods(value),
        claims::record_safe(held),
    ensures
        r matches Step::Ask { ask, entry } ==> {
            &&& ask.op == LedgerOp::CompareAndSwap
            &&& ask.namespace == Namespace::Device
            &&& ask.etag@ == etag
            &&& claims::text_claim(ask.value@, bytes::text("totp_secret")) == Some(held)
            &&& claims::text_claim(ask.value@, bytes::text("totp_confirmed")) == Some(
                bytes::text("true"),
            )
            &&& exists|c: u64|
                {
                    &&& claims::number_claim(ask.value@, bytes::text("totp_counter")) == Some(c)
                    &&& base32::decoded(held, 64) is Some
                    &&& crate::totp::code_value(e.totp_code@) is Some
                    &&& #[trigger] crate::totp::holds_at(
                        base32::decoded(held, 64)->0,
                        crate::totp::code_value(e.totp_code@)->0,
                        now,
                        claims::number_claim(value, bytes::text("totp_counter")),
                        c,
                    )
                }
        },
        (base32::decoded(held, 64) is None || crate::totp::code_value(e.totp_code@) is None
            || forall|c: u64|
            !#[trigger] crate::totp::holds_at(
                base32::decoded(held, 64)->0,
                crate::totp::code_value(e.totp_code@)->0,
                now,
                claims::number_claim(value, bytes::text("totp_counter")),
                c,
            )) ==> (r matches Step::Reply(reply) && reply.status == 401 && reply.body@
            == bytes::text("{\"error\":\"invalid_grant\",\"detail\":\"code\"}")),
{
    assert(confirmed_against(pre, e, value, etag, Some(now), r, post));
    if exists|d: u64| #[trigger] device_record::presented_at(e.totp_code@, held, value, now, d) {
        let c = lemma_first_step(pre, e, value, etag, now, r, post, held);
        assert(device_record::presented_at(e.totp_code@, held, value, now, c));
        if r is Ask {
            lemma_confirmed_record(pre, e, value, etag, r, held, c);
        }
    } else {
        assert(step_refuses(r, e.conn, e.stream, Refusal::BadCode));
    }
}

/// The step at which a code confirms an authenticator.
proof fn lemma_first_step(
    pre: Enrollment,
    e: Pending,
    value: Seq<u8>,
    etag: Seq<u8>,
    now: u64,
    r: Step,
    post: Enrollment,
    held: Seq<u8>,
) -> (c: u64)
    requires
        confirmed_against(pre, e, value, etag, Some(now), r, post),
        held == claims::text_or_empty(value, bytes::text("totp_secret")),
        held.len() > 0,
        exists|d: u64| #[trigger] device_record::presented_at(e.totp_code@, held, value, now, d),
    ensures
        first_step(e, held, value, now, c),
        r is Ask ==> swaps_device(
            r,
            pre,
            e,
            etag,
            device_record::device_record(value, held, true, c),
        ),
{
    let d = choose|d: u64| #[trigger]
        device_record::presented_at(e.totp_code@, held, value, now, d);
    assert(device_record::presented_at(e.totp_code@, held, value, now, d));
    let at = Some(now);
    assert(at->0 == now);
    assert(confirmed_against(pre, e, value, etag, at, r, post));
    assert(!(forall|d: u64| !#[trigger]
        device_record::presented_at(e.totp_code@, held, value, at->0, d)));
    assert(exists|c: u64| #[trigger] first_step(e, held, value, at->0, c));
    assert(exists|c: u64| #[trigger]
        first_step(e, held, value, now, c) && confirmed_at(pre, e, value, etag, held, c, r, post));
    choose|c: u64| #[trigger]
        first_step(e, held, value, now, c) && confirmed_at(pre, e, value, etag, held, c, r, post)
}

/// What the record of a confirmed authenticator says.
proof fn lemma_confirmed_record(
    pre: Enrollment,
    e: Pending,
    value: Seq<u8>,
    etag: Seq<u8>,
    r: Step,
    held: Seq<u8>,
    c: u64,
)
    requires
        swaps_device(r, pre, e, etag, device_record::device_record(value, held, true, c)),
        device_record::plain_methods(value),
        claims::record_safe(held),
    ensures
        r matches Step::Ask { ask, entry } && {
            &&& ask.op == LedgerOp::CompareAndSwap
            &&& ask.namespace == Namespace::Device
            &&& ask.etag@ == etag
            &&& claims::text_claim(ask.value@, bytes::text("totp_secret")) == Some(held)
            &&& claims::text_claim(ask.value@, bytes::text("totp_confirmed")) == Some(
                bytes::text("true"),
            )
            &&& claims::number_claim(ask.value@, bytes::text("totp_counter")) == Some(c)
        },
{
    device_record::authenticator_reads_back(value, held, true, c);
}

/// A device that is not on the ledger, or whose certificate did not hold, is told that it is not
/// known; and one that has an authenticator is given no other.
pub proof fn an_authenticator_is_for_a_known_device(
    pre: Enrollment,
    ask: TotpAsk,
    held: Option<&[u8]>,
    secret: Option<[u8; 32]>,
    first: Step,
    post: Enrollment,
    e: Pending,
    status: Status,
    value: Seq<u8>,
    etag: Seq<u8>,
    now: Option<u64>,
    second: Step,
    after: Enrollment,
)
    requires
        totp_begun(pre, ask, held, secret, first, post),
        totp_read_answered(pre, e, status, value, etag, now, second, after),
    ensures
        held is None ==> (first matches Step::Reply(reply) && reply.status == 401),
        status == Status::NotFound ==> (second matches Step::Reply(reply) && reply.status == 401),
        status == Status::Success && !e.totp_confirming && (claims::text_claim(
            value,
            bytes::text("totp_secret"),
        ) matches Some(old) && old.len() > 0) ==> (second matches Step::Reply(reply) && reply.status
            == 409),
        status == Status::Success && e.totp_confirming && claims::text_claim(
            value,
            bytes::text("totp_secret"),
        ) is None ==> (second matches Step::Reply(reply) && reply.status == 404),
{
}

/// Each path leads where it says, for a whole `POST`: to a start, to a redemption, or to an
/// authenticator; and every other path to none.
pub proof fn each_path_leads_where_it_says(rest: Seq<u8>, path: Seq<u8>)
    ensures
        route_of(bytes::text("/start") + rest) == Route::Start,
        route_of(bytes::text("/redeem") + rest) == Route::Redeem,
        route_of(bytes::text("/authenticators/totp/confirm") + rest) == Route::Confirm,
        route_of(bytes::text("/authenticators/totp")) == Route::Register,
        route_of(path) == Route::Start ==> bytes::has_prefix(path, bytes::text("/start")),
        route_of(path) == Route::Redeem ==> bytes::has_prefix(path, bytes::text("/redeem")),
        route_of(path) == Route::Register || route_of(path) == Route::Confirm ==> bytes::has_prefix(
            path,
            bytes::text("/authenticators/totp"),
        ),
{
    reveal_strlit("/start");
    reveal_strlit("/redeem");
    reveal_strlit("/authenticators/totp");
    reveal_strlit("/authenticators/totp/confirm");
    assert("/start".is_ascii() && "/redeem".is_ascii());
    assert("/authenticators/totp".is_ascii() && "/authenticators/totp/confirm".is_ascii());
    let totp = bytes::text("/authenticators/totp");
    let confirm = bytes::text("/authenticators/totp/confirm");
    let start = bytes::text("/start");
    let redeem = bytes::text("/redeem");
    assert(confirm.take(totp.len() as int) =~= totp);
    assert((start + rest).take(start.len() as int) =~= start);
    assert((redeem + rest).take(redeem.len() as int) =~= redeem);
    assert((confirm + rest).take(confirm.len() as int) =~= confirm);
    assert((start + rest)[1] == 115 && (redeem + rest)[1] == 114);
    assert(totp[1] == 97 && confirm[1] == 97 && start[1] == 115 && redeem[1] == 114);
    assert(totp.len() == 20 && confirm.len() == 28);
    assert(totp.take(20) =~= totp);
    assert(bytes::has_prefix(start + rest, confirm) ==> (start + rest).take(28)[1] == confirm[1]);
    assert(bytes::has_prefix(start + rest, totp) ==> (start + rest).take(20)[1] == totp[1]);
    assert(bytes::has_prefix(redeem + rest, confirm) ==> (redeem + rest).take(28)[1] == confirm[1]);
    assert(bytes::has_prefix(redeem + rest, totp) ==> (redeem + rest).take(20)[1] == totp[1]);
    assert(bytes::has_prefix(redeem + rest, start) ==> (redeem + rest).take(6)[1] == start[1]);
    assert(bytes::has_prefix(path, confirm) ==> bytes::has_prefix(path, totp)) by {
        if bytes::has_prefix(path, confirm) {
            assert(path.take(20) =~= path.take(28).take(20));
        }
    }
}

} // verus!
