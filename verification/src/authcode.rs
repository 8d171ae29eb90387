//! The authorization-code flow: a device that authenticates is given a single-use code bound to a
//! client and a challenge, and whoever holds the verifier exchanges the code for an access token
//! and an ID token. The subject is established here and never named by the caller.
use vstd::prelude::*;
use vstd::slice::slice_to_vec;

use crate::base64;
use crate::bytes;
use crate::bytes::{bytes_equal, copy_field};
use crate::claims;
use crate::claims::{claim_is, claim_or_empty, claim_str, json_safe, RecordWriter, Value};
use crate::crypto;
use crate::crypto::sha256_into;
use crate::device_auth;
use crate::device_auth::{
    authenticate, device_certificates, select_issuer, AuthError, Held, Presentation,
};
use crate::keys;
use crate::keys::{advance_correlation, count};
use crate::ledger::{StateReply, Status};
use crate::replay::ReplayWindow;
use crate::token_verify::Verifier;

verus! {

/// Requests awaiting an answer of the ledger or of the mint.
pub const MAX_IN_FLIGHT: usize = 8;

/// Longest text that an entry carries.
pub const MAX_FIELD: usize = 256;

/// Letters of a code: sixteen random bytes in base64url.
pub const CODE_ID_CHARS: usize = 22;

/// How long a code lives, in seconds.
pub const CODE_TTL_SECS: u64 = 60;

/// How long a proof stays fresh, in seconds.
pub const PROOF_WINDOW_SECS: u64 = 300;

/// This module's client id on the ledger's reply port.
pub const STATE_CLIENT: u8 = 7;

/// Letters of a challenge: a digest in base64url.
pub const PKCE_CHALLENGE_LEN: usize = 43;

/// Longest etag.
pub const MAX_ETAG: usize = 64;

/// Longest access token.
pub const MAX_TOKEN: usize = 4096;

/// Longest code record.
pub const MAX_RECORD: usize = 1024;

#[derive(Clone, Copy, Debug, PartialEq, Eq, Structural)]
pub enum AuthzErr {
    NoKey,
    Unauthenticated,
    NoPkce,
    Malformed,
    NoClock,
    Replay,
    StateUnavailable,
    UnknownClient,
    BadRedirect,
    InvalidGrant,
    Mismatch,
    PkceFailed,
    MintFailed,
}

/// Which answer an entry waits for.
#[derive(Clone, Copy, Debug, PartialEq, Eq, Structural)]
pub enum Flow {
    /// The client's registration.
    AuthzClient,
    /// The code.
    XchgCode,
    /// The device record.
    XchgDevice,
    /// The consumption of the code.
    XchgConsume,
    /// The access token.
    XchgMintAt,
    /// The ID token.
    XchgMintId,
}

pub struct Pending {
    pub live: bool,
    pub flow: Flow,
    pub caller_corr: u32,
    pub state_corr: u32,
    pub mint_corr: u32,
    pub sub: Vec<u8>,
    pub device_id: Vec<u8>,
    pub jkt: Vec<u8>,
    pub client_id: Vec<u8>,
    pub redirect_uri: Vec<u8>,
    pub scope: Vec<u8>,
    /// The challenge of an authorization, or the verifier of an exchange.
    pub parked: Vec<u8>,
    pub nonce: Vec<u8>,
    pub state: Vec<u8>,
    pub code: Vec<u8>,
    pub code_etag: Vec<u8>,
    pub auth_time: u64,
    pub access_token: Vec<u8>,
}

/// The thumbprint of no key.
pub open spec fn no_thumbprint() -> Seq<u8> {
    Seq::new(43, |i: int| 0u8)
}

impl Pending {
    pub open spec fn vacant(self) -> bool {
        &&& !self.live
        &&& self.flow == Flow::AuthzClient
        &&& self.caller_corr == 0
        &&& self.state_corr == 0
        &&& self.mint_corr == 0
        &&& self.sub@.len() == 0
        &&& self.device_id@.len() == 0
        &&& self.jkt@ == no_thumbprint()
        &&& self.client_id@.len() == 0
        &&& self.redirect_uri@.len() == 0
        &&& self.scope@.len() == 0
        &&& self.parked@.len() == 0
        &&& self.nonce@.len() == 0
        &&& self.state@.len() == 0
        &&& self.code@.len() == 0
        &&& self.code_etag@.len() == 0
        &&& self.auth_time == 0
        &&& self.access_token@.len() == 0
    }

    pub fn zero() -> (r: Self)
        ensures
            r.vacant(),
    {
        let none: [u8; 43] = [0u8; 43];
        let jkt = slice_to_vec(none.as_slice());
        assert(jkt@ =~= no_thumbprint());
        Pending {
            live: false,
            flow: Flow::AuthzClient,
            caller_corr: 0,
            state_corr: 0,
            mint_corr: 0,
            sub: Vec::new(),
            device_id: Vec::new(),
            jkt,
            client_id: Vec::new(),
            redirect_uri: Vec::new(),
            scope: Vec::new(),
            parked: Vec::new(),
            nonce: Vec::new(),
            state: Vec::new(),
            code: Vec::new(),
            code_etag: Vec::new(),
            auth_time: 0,
            access_token: Vec::new(),
        }
    }
}

pub struct AuthorizeRequest {
    pub corr: u32,
    pub method: Vec<u8>,
    pub uri: Vec<u8>,
    pub credential: Vec<u8>,
    pub proof: Vec<u8>,
    pub client_id: Vec<u8>,
    pub redirect_uri: Vec<u8>,
    pub nonce: Vec<u8>,
    pub state: Vec<u8>,
    pub code_challenge: Vec<u8>,
}

impl AuthorizeRequest {
    /// What the request presents.
    pub open spec fn shown(self) -> device_auth::Shown {
        device_auth::Shown {
            credential: self.credential@,
            proof: self.proof@,
            method: self.method@,
            uri: self.uri@,
        }
    }
}

pub struct CodeExchangeRequest {
    pub corr: u32,
    pub code: Vec<u8>,
    pub code_verifier: Vec<u8>,
    pub client_id: Vec<u8>,
    pub redirect_uri: Vec<u8>,
}

#[derive(Clone, Copy, Debug, PartialEq, Eq, Structural)]
pub struct Refusal {
    pub corr: u32,
    pub status: AuthzErr,
}

/// What is to be looked up in the ledger for an entry.
pub struct Lookup {
    pub index: usize,
    pub entry: Pending,
    pub key: Vec<u8>,
}

pub enum RequestStep {
    Refuse(Refusal),
    Lookup(Lookup),
}

/// An answered authorization.
pub struct CodeReply {
    pub corr: u32,
    pub code: Vec<u8>,
    pub redirect_uri: Vec<u8>,
    pub state: Vec<u8>,
}

pub enum CodeStep {
    Refuse(Refusal),
    /// Create the code's record, and then answer.
    Put { correlation: u32, record: Vec<u8>, expiry: u64, reply: CodeReply },
}

#[derive(Clone, Copy, Debug, PartialEq, Eq, Structural)]
pub enum Profile {
    AccessToken,
    IdToken,
}

/// A token that is to be minted.
pub struct MintOrder {
    pub correlation: u32,
    pub profile: Profile,
    pub suite: u16,
    pub ttl_seconds: u32,
    pub iss: Vec<u8>,
    pub sub: Vec<u8>,
    pub aud: Vec<u8>,
    pub scope: Vec<u8>,
    /// The key that the token is bound to.
    pub jkt: Option<Vec<u8>>,
    pub nonce: Option<Vec<u8>>,
    pub auth_time: Option<u64>,
}

pub enum StateStep {
    /// Not for this module, or for nobody.
    Ignore,
    RefuseAuthz(Refusal),
    RefuseXchg(Refusal),
    /// Draw a code for this entry, whose client registered this address.
    Draw { entry: Pending, redirect_uri: Vec<u8> },
    /// Read the record of the entry's device.
    ReadDevice { index: usize, entry: Pending },
    /// Replace the code by a mark that it is consumed, while it has the etag that it was read at.
    Consume { index: usize, entry: Pending, expiry: u64 },
    Mint { index: usize, entry: Pending, order: MintOrder },
}

/// The reply of the mint.
pub struct MintReply {
    pub correlation: u32,
    pub ok: bool,
    /// Delivered as a token, not as a handle to one.
    pub inline: bool,
    pub body: Vec<u8>,
}

pub enum MintStep {
    Ignore,
    Refuse(Refusal),
    Mint { index: usize, entry: Pending, order: MintOrder },
    Tokens { corr: u32, access_token: Vec<u8>, id_token: Vec<u8> },
}

/// What a consumed code is replaced by.
pub const CONSUMED: &'static str = "{\"status\":\"consumed\"}";

/// The challenge of a verifier.
pub open spec fn challenge(verifier: Seq<u8>) -> Seq<u8> {
    base64::encoded(crypto::sha256(verifier))
}

/// The number that the digits of `b` name, whatever stands between them, modulo two to the 64.
pub open spec fn digits_value(b: Seq<u8>) -> u64
    decreases b.len(),
{
    if b.len() == 0 {
        0
    } else {
        let head = digits_value(b.drop_last());
        if bytes::is_digit(b.last()) {
            ((head * 10 + (b.last() - 48)) % 0x1_0000_0000_0000_0000) as u64
        } else {
            head
        }
    }
}

pub fn parse_u64(b: &[u8]) -> (r: u64)
    ensures
        r == digits_value(b@),
{
    let mut v: u64 = 0;
    let mut i: usize = 0;
    assert(b@.take(0) =~= Seq::<u8>::empty());
    while i < b.len()
        invariant
            i <= b@.len(),
            v == digits_value(b@.take(i as int)),
        decreases b@.len() - i,
    {
        let c: u8 = b[i];
        assert(b@.take(i as int + 1).drop_last() =~= b@.take(i as int));
        if c >= 48 && c <= 57 {
            let wide: u128 = (v as u128) * 10 + (c - 48) as u128;
            v = (wide % 0x1_0000_0000_0000_0000) as u64;
        }
        i = i + 1;
    }
    assert(b@.take(b@.len() as int) =~= b@);
    v
}

/// A number reads back from its numeral.
pub proof fn number_reads_back(n: u64)
    ensures
        digits_value(bytes::decimal(n as nat)) == n,
    decreases n,
{
    let s = bytes::decimal(n as nat);
    if n < 10 {
        assert(s.drop_last() =~= Seq::<u8>::empty());
        assert(digits_value(s.drop_last()) == 0);
    } else {
        number_reads_back((n / 10) as u64);
        assert(s.drop_last() =~= bytes::decimal(n as nat / 10));
    }
}

/// A copy of `v`, cut at `limit`; nothing where there is none.
pub fn capture(v: Option<&[u8]>, limit: usize) -> (r: Vec<u8>)
    ensures
        r@ == (match v {
            Some(b) => bytes::clipped(b@, limit as nat),
            None => Seq::empty(),
        }),
{
    match v {
        Some(b) => copy_field(b, limit),
        None => Vec::new(),
    }
}

/// The members of a code record.
pub open spec fn code_members(e: Pending, challenge: Seq<u8>) -> Seq<(Seq<u8>, Value)> {
    seq![
        (bytes::text("sub"), Value::Text(e.sub@)),
        (bytes::text("did"), Value::Text(e.device_id@)),
        (bytes::text("jkt"), Value::Text(e.jkt@)),
        (bytes::text("cid"), Value::Text(e.client_id@)),
        (bytes::text("ruri"), Value::Text(e.redirect_uri@)),
        (bytes::text("cc"), Value::Text(challenge)),
        (bytes::text("nonce"), Value::Text(e.nonce@)),
        (bytes::text("scope"), Value::Text(e.scope@)),
        (bytes::text("at"), Value::Text(bytes::decimal(e.auth_time as nat))),
    ]
}

/// Everything that a code record is made of can stand in it.
pub open spec fn code_safe(e: Pending, challenge: Seq<u8>) -> bool {
    &&& claims::record_safe(e.sub@)
    &&& claims::record_safe(e.device_id@)
    &&& claims::record_safe(e.jkt@)
    &&& claims::record_safe(e.client_id@)
    &&& claims::record_safe(e.redirect_uri@)
    &&& claims::record_safe(challenge)
    &&& claims::record_safe(e.nonce@)
    &&& claims::record_safe(e.scope@)
}

pub open spec fn code_record(e: Pending, challenge: Seq<u8>) -> Seq<u8> {
    claims::record_bytes(code_members(e, challenge))
}

/// The record that a code stands for, unless a value could not stand in it or it is longer than
/// `limit`.
pub fn build_code_record(e: &Pending, challenge: &[u8], limit: usize) -> (r: Option<Vec<u8>>)
    ensures
        match r {
            Some(record) => code_safe(*e, challenge@) && record@ == code_record(*e, challenge@)
                && record@.len() <= limit,
            None => !code_safe(*e, challenge@) || code_record(*e, challenge@).len() > limit,
        },
{
    if !json_safe(e.sub.as_slice()) || !json_safe(e.device_id.as_slice()) || !json_safe(
        e.jkt.as_slice(),
    ) || !json_safe(e.client_id.as_slice()) || !json_safe(e.redirect_uri.as_slice()) || !json_safe(
        challenge,
    ) || !json_safe(e.nonce.as_slice()) || !json_safe(e.scope.as_slice()) {
        return None;
    }
    let at = bytes::u64_dec(e.auth_time);
    let mut w = RecordWriter::new();
    w.text("sub", e.sub.as_slice());
    w.text("did", e.device_id.as_slice());
    w.text("jkt", e.jkt.as_slice());
    w.text("cid", e.client_id.as_slice());
    w.text("ruri", e.redirect_uri.as_slice());
    w.text("cc", challenge);
    w.text("nonce", e.nonce.as_slice());
    w.text("scope", e.scope.as_slice());
    w.text("at", at.as_slice());
    assert(w.members@ =~= code_members(*e, challenge@));
    w.finish(limit)
}

proof fn lemma_code_names()
    ensures
        bytes::text("sub") == seq![115u8, 117, 98],
        bytes::text("did") == seq![100u8, 105, 100],
        bytes::text("jkt") == seq![106u8, 107, 116],
        bytes::text("cid") == seq![99u8, 105, 100],
        bytes::text("ruri") == seq![114u8, 117, 114, 105],
        bytes::text("cc") == seq![99u8, 99],
        bytes::text("nonce") == seq![110u8, 111, 110, 99, 101],
        bytes::text("scope") == seq![115u8, 99, 111, 112, 101],
        bytes::text("at") == seq![97u8, 116],
        bytes::text("status") == seq![115u8, 116, 97, 116, 117, 115],
{
    reveal_strlit("sub");
    reveal_strlit("did");
    reveal_strlit("jkt");
    reveal_strlit("cid");
    reveal_strlit("ruri");
    reveal_strlit("cc");
    reveal_strlit("nonce");
    reveal_strlit("scope");
    reveal_strlit("at");
    reveal_strlit("status");
    assert("sub".is_ascii());
    assert("did".is_ascii());
    assert("jkt".is_ascii());
    assert("cid".is_ascii());
    assert("ruri".is_ascii());
    assert("cc".is_ascii());
    assert("nonce".is_ascii());
    assert("scope".is_ascii());
    assert("at".is_ascii());
    assert("status".is_ascii());
    assert(bytes::text("sub") =~= seq![115u8, 117, 98]);
    assert(bytes::text("did") =~= seq![100u8, 105, 100]);
    assert(bytes::text("jkt") =~= seq![106u8, 107, 116]);
    assert(bytes::text("cid") =~= seq![99u8, 105, 100]);
    assert(bytes::text("ruri") =~= seq![114u8, 117, 114, 105]);
    assert(bytes::text("cc") =~= seq![99u8, 99]);
    assert(bytes::text("nonce") =~= seq![110u8, 111, 110, 99, 101]);
    assert(bytes::text("scope") =~= seq![115u8, 99, 111, 112, 101]);
    assert(bytes::text("at") =~= seq![97u8, 116]);
    assert(bytes::text("status") =~= seq![115u8, 116, 97, 116, 117, 115]);
}

proof fn lemma_code_readable(e: Pending, challenge: Seq<u8>)
    requires
        code_safe(e, challenge),
    ensures
        claims::readable(code_members(e, challenge)),
        claims::plain_name(bytes::text("status")),
        forall|i: int|
            0 <= i < 9 ==> (#[trigger] code_members(e, challenge)[i]).0 != bytes::text("status"),
{
    lemma_code_names();
    let m = code_members(e, challenge);
    bytes::decimal_reads_back(e.auth_time as nat);
    assert(claims::record_safe(bytes::decimal(e.auth_time as nat))) by {
        let d = bytes::decimal(e.auth_time as nat);
        assert forall|i: int| 0 <= i < d.len() implies #[trigger] d[i] != 34 && d[i] != 92 && d[i]
            >= 32 by {
            assert(bytes::is_digit(d[i]));
        }
    }
    assert forall|i: int, j: int| 0 <= i < j < m.len() implies (#[trigger] m[i]).0 != (
    #[trigger] m[j]).0 by {
        assert(m[0].0[0] == 115 && m[0].0.len() == 3);
        assert(m[1].0[0] == 100);
        assert(m[2].0[0] == 106);
        assert(m[3].0[0] == 99 && m[3].0.len() == 3);
        assert(m[4].0[0] == 114);
        assert(m[5].0[0] == 99 && m[5].0.len() == 2);
        assert(m[6].0[0] == 110);
        assert(m[7].0[0] == 115 && m[7].0.len() == 5);
        assert(m[8].0[0] == 97);
    }
}

/// A code record holds what it was made of: each value reads back under its name, and it is no
/// mark of a consumed code.
pub proof fn code_record_reads_back(e: Pending, challenge: Seq<u8>)
    requires
        code_safe(e, challenge),
    ensures
        ({
            let record = code_record(e, challenge);
            &&& claims::text_claim(record, bytes::text("sub")) == Some(e.sub@)
            &&& claims::text_claim(record, bytes::text("did")) == Some(e.device_id@)
            &&& claims::text_claim(record, bytes::text("jkt")) == Some(e.jkt@)
            &&& claims::text_claim(record, bytes::text("cid")) == Some(e.client_id@)
            &&& claims::text_claim(record, bytes::text("ruri")) == Some(e.redirect_uri@)
            &&& claims::text_claim(record, bytes::text("cc")) == Some(challenge)
            &&& claims::text_claim(record, bytes::text("nonce")) == Some(e.nonce@)
            &&& claims::text_claim(record, bytes::text("scope")) == Some(e.scope@)
            &&& claims::text_claim(record, bytes::text("at")) == Some(
                bytes::decimal(e.auth_time as nat),
            )
            &&& claims::text_claim(record, bytes::text("status")) is None
        }),
{
    let m = code_members(e, challenge);
    lemma_code_readable(e, challenge);
    claims::text_reads_back(m, 0);
    claims::text_reads_back(m, 1);
    claims::text_reads_back(m, 2);
    claims::text_reads_back(m, 3);
    claims::text_reads_back(m, 4);
    claims::text_reads_back(m, 5);
    claims::text_reads_back(m, 6);
    claims::text_reads_back(m, 7);
    claims::text_reads_back(m, 8);
    claims::absent_reads_absent(m, bytes::text("status"));
}

/// Why a request for a code is refused before its credential is checked.
pub open spec fn request_refusal(
    req: AuthorizeRequest,
    keyset_empty: bool,
    now: Option<u64>,
) -> Option<AuthzErr> {
    if keyset_empty {
        Some(AuthzErr::NoKey)
    } else if req.credential@.len() == 0 || req.proof@.len() == 0 {
        Some(AuthzErr::Unauthenticated)
    } else if req.code_challenge@.len() != 43 {
        Some(AuthzErr::NoPkce)
    } else if !claims::record_safe(req.client_id@) || !claims::record_safe(req.redirect_uri@)
        || !claims::record_safe(req.nonce@) || !claims::record_safe(req.code_challenge@) {
        Some(AuthzErr::Malformed)
    } else if now is None {
        Some(AuthzErr::NoClock)
    } else {
        None
    }
}

/// Why a client's registration does not lead to a code.
pub open spec fn client_refusal(
    redirect_uri: Seq<u8>,
    status: Status,
    registration: Seq<u8>,
) -> Option<AuthzErr> {
    let registered = claims::text_or_empty(registration, bytes::text("redirect_uri"));
    if status != Status::Success {
        Some(AuthzErr::UnknownClient)
    } else if registered.len() == 0 || registered != redirect_uri {
        Some(AuthzErr::BadRedirect)
    } else {
        None
    }
}

/// Why a code is not exchanged.
pub open spec fn grant_refusal(
    client_id: Seq<u8>,
    redirect_uri: Seq<u8>,
    verifier: Seq<u8>,
    status: Status,
    record: Seq<u8>,
) -> Option<AuthzErr> {
    if status != Status::Success || claims::text_claim(record, bytes::text("status")) == Some(
        bytes::text("consumed"),
    ) {
        Some(AuthzErr::InvalidGrant)
    } else if claims::text_or_empty(record, bytes::text("cid")) != client_id
        || claims::text_or_empty(record, bytes::text("ruri")) != redirect_uri {
        Some(AuthzErr::Mismatch)
    } else if claims::text_or_empty(record, bytes::text("cc")) != challenge(verifier) {
        Some(AuthzErr::PkceFailed)
    } else {
        None
    }
}

/// Why a device is given no token.
pub open spec fn device_refusal(status: Status, record: Seq<u8>) -> Option<AuthzErr> {
    match status {
        Status::Success => if claims::text_claim(record, bytes::text("status")) == Some(
            bytes::text("revoked"),
        ) {
            Some(AuthzErr::InvalidGrant)
        } else {
            None
        },
        Status::NotFound => Some(AuthzErr::InvalidGrant),
        _ => Some(AuthzErr::StateUnavailable),
    }
}

/// A code that was exchanged once is not exchanged again.
pub proof fn a_consumed_code_is_refused(
    client_id: Seq<u8>,
    redirect_uri: Seq<u8>,
    verifier: Seq<u8>,
)
    ensures
        grant_refusal(
            client_id,
            redirect_uri,
            verifier,
            Status::Success,
            bytes::text(CONSUMED),
        ) == Some(AuthzErr::InvalidGrant),
{
    let m: Seq<(Seq<u8>, Value)> = seq![
        (bytes::text("status"), Value::Text(bytes::text("consumed"))),
    ];
    lemma_code_names();
    reveal_strlit("consumed");
    reveal_strlit("{\"status\":\"consumed\"}");
    assert("consumed".is_ascii());
    assert("{\"status\":\"consumed\"}".is_ascii());
    assert(bytes::text("consumed") =~= seq![99u8, 111, 110, 115, 117, 109, 101, 100]);
    assert(claims::readable(m));
    claims::text_reads_back(m, 0);
    assert(claims::record_bytes(m) =~= bytes::text(CONSUMED));
}

/// A code that was issued is exchanged by whoever names the client and the address that it is
/// bound to and holds the verifier of its challenge, and by nobody else.
pub proof fn exchanged_by_its_holder(
    e: Pending,
    bound: Seq<u8>,
    client_id: Seq<u8>,
    redirect_uri: Seq<u8>,
    verifier: Seq<u8>,
)
    requires
        code_safe(e, bound),
    ensures
        grant_refusal(
            client_id,
            redirect_uri,
            verifier,
            Status::Success,
            code_record(e, bound),
        ) is None <==> client_id == e.client_id@ && redirect_uri == e.redirect_uri@ && challenge(
            verifier,
        ) == bound,
{
    code_record_reads_back(e, bound);
}

/// The entry of an exchange once its code was read: what the record binds, and nothing of what
/// the caller said but the names that matched.
pub open spec fn captured(e: Pending, from: Pending, record: Seq<u8>, etag: Seq<u8>, corr: u32) -> bool {
    let jkt = claims::text_claim(record, bytes::text("jkt"));
    &&& e.live
    &&& e.flow == Flow::XchgDevice
    &&& e.caller_corr == from.caller_corr
    &&& e.state_corr == corr
    &&& e.mint_corr == from.mint_corr
    &&& e.sub@ == bytes::clipped(claims::text_or_empty(record, bytes::text("sub")), 256)
    &&& e.device_id@ == bytes::clipped(claims::text_or_empty(record, bytes::text("did")), 256)
    &&& e.nonce@ == bytes::clipped(claims::text_or_empty(record, bytes::text("nonce")), 256)
    &&& e.scope@ == bytes::clipped(claims::text_or_empty(record, bytes::text("scope")), 256)
    &&& e.jkt@ == (if jkt is Some && jkt->0.len() == 43 {
        jkt->0
    } else {
        from.jkt@
    })
    &&& e.auth_time == digits_value(claims::text_or_empty(record, bytes::text("at")))
    &&& e.code_etag@ == bytes::clipped(etag, 64)
    &&& e.client_id == from.client_id
    &&& e.redirect_uri == from.redirect_uri
    &&& e.parked == from.parked
    &&& e.state == from.state
    &&& e.code == from.code
    &&& e.access_token == from.access_token
}

/// When a code of `auth_time` expires.
pub open spec fn code_expiry(auth_time: u64) -> u64 {
    if auth_time + CODE_TTL_SECS > u64::MAX {
        u64::MAX
    } else {
        (auth_time + CODE_TTL_SECS) as u64
    }
}

pub struct AuthCode {
    pub next_corr: u32,
    pub pending: Vec<Pending>,
    pub iss: Vec<u8>,
    pub aud: Vec<u8>,
    pub ttl_seconds: u32,
    pub id_ttl_seconds: u32,
    pub token_suite: u16,
    pub authz_ok: u32,
    pub authz_refused: u32,
    pub xchg_ok: u32,
    pub xchg_refused: u32,
}

/// The first entry that waits for the ledger under `corr`, from `i` on.
pub open spec fn awaiting_from(pending: Seq<Pending>, corr: u32, i: int) -> Option<int>
    decreases pending.len() - i,
{
    if i < 0 || i >= pending.len() {
        None
    } else if pending[i].live && pending[i].state_corr == corr {
        Some(i)
    } else {
        awaiting_from(pending, corr, i + 1)
    }
}

pub open spec fn mints(p: Pending) -> bool {
    p.live && (p.flow == Flow::XchgMintAt || p.flow == Flow::XchgMintId)
}

/// The first entry that waits for the mint under `corr`, from `i` on.
pub open spec fn minting_from(pending: Seq<Pending>, corr: u32, i: int) -> Option<int>
    decreases pending.len() - i,
{
    if i < 0 || i >= pending.len() {
        None
    } else if mints(pending[i]) && pending[i].mint_corr == corr {
        Some(i)
    } else {
        minting_from(pending, corr, i + 1)
    }
}

impl AuthCode {
    pub open spec fn wf(self) -> bool {
        self.pending@.len() == 8
    }

    pub open spec fn same_policy(self, other: Self) -> bool {
        &&& self.iss == other.iss
        &&& self.aud == other.aud
        &&& self.ttl_seconds == other.ttl_seconds
        &&& self.id_ttl_seconds == other.id_ttl_seconds
        &&& self.token_suite == other.token_suite
    }

    pub open spec fn same_counters(self, other: Self) -> bool {
        &&& self.authz_ok == other.authz_ok
        &&& self.authz_refused == other.authz_refused
        &&& self.xchg_ok == other.xchg_ok
        &&& self.xchg_refused == other.xchg_refused
    }

    /// One refused authorization more.
    pub open spec fn authz_counted(self, other: Self) -> bool {
        &&& self.authz_refused == keys::counted(other.authz_refused)
        &&& (AuthCode { authz_refused: other.authz_refused, ..self }).same_counters(other)
    }

    /// One refused exchange more.
    pub open spec fn xchg_counted(self, other: Self) -> bool {
        &&& self.xchg_refused == keys::counted(other.xchg_refused)
        &&& (AuthCode { xchg_refused: other.xchg_refused, ..self }).same_counters(other)
    }

    /// Entry `i` is vacant, and every other entry is as in `other`.
    pub open spec fn freed(self, other: Self, i: int) -> bool {
        &&& self.pending@.len() == other.pending@.len()
        &&& self.pending@[i].vacant()
        &&& forall|j: int|
            0 <= j < 8 && j != i ==> #[trigger] self.pending@[j] == other.pending@[j]
    }

    /// A flow under this policy; there is none without a ledger and a mint.
    pub fn module_new(
        iss: &[u8],
        aud: &[u8],
        ttl_seconds: u32,
        id_ttl_seconds: u32,
        token_suite: u16,
        wired: bool,
    ) -> (r: Option<Self>)
        ensures
            r is Some <==> wired,
            r matches Some(s) ==> {
                &&& s.wf()
                &&& s.next_corr == 1
                &&& forall|i: int| 0 <= i < 8 ==> (#[trigger] s.pending@[i]).vacant()
                &&& s.iss@ == bytes::clipped(iss@, 256)
                &&& s.aud@ == bytes::clipped(aud@, 256)
                &&& s.ttl_seconds == ttl_seconds
                &&& s.id_ttl_seconds == id_ttl_seconds
                &&& s.token_suite == token_suite
                &&& s.authz_ok == 0
                &&& s.authz_refused == 0
                &&& s.xchg_ok == 0
                &&& s.xchg_refused == 0
            },
    {
        if !wired {
            return None;
        }
        let mut pending: Vec<Pending> = Vec::new();
        while pending.len() < MAX_IN_FLIGHT
            invariant
                pending@.len() <= 8,
                forall|i: int| 0 <= i < pending@.len() ==> (#[trigger] pending@[i]).vacant(),
            decreases 8 - pending@.len(),
        {
            pending.push(Pending::zero());
        }
        Some(
            AuthCode {
                next_corr: 1,
                pending,
                iss: copy_field(iss, MAX_FIELD),
                aud: copy_field(aud, MAX_FIELD),
                ttl_seconds,
                id_ttl_seconds,
                token_suite,
                authz_ok: 0,
                authz_refused: 0,
                xchg_ok: 0,
                xchg_refused: 0,
            },
        )
    }

    /// The first entry that is free.
    pub fn free_slot(&self) -> (r: Option<usize>)
        ensures
            match r {
                Some(i) => i < self.pending@.len() && !self.pending@[i as int].live && forall|j: int|
                    0 <= j < i ==> (#[trigger] self.pending@[j]).live,
                None => forall|j: int|
                    0 <= j < self.pending@.len() ==> (#[trigger] self.pending@[j]).live,
            },
    {
        let mut i: usize = 0;
        while i < self.pending.len()
            invariant
                i <= self.pending@.len(),
                forall|j: int| 0 <= j < i ==> (#[trigger] self.pending@[j]).live,
            decreases self.pending@.len() - i,
        {
            if !self.pending[i].live {
                return Some(i);
            }
            i = i + 1;
        }
        None
    }

    fn refuse_authz(&mut self, corr: u32, status: AuthzErr) -> (r: Refusal)
        ensures
            r == (Refusal { corr, status }),
            final(self).authz_counted(*old(self)),
            final(self).same_policy(*old(self)),
            final(self).pending == old(self).pending,
            final(self).next_corr == old(self).next_corr,
    {
        count(&mut self.authz_refused);
        Refusal { corr, status }
    }

    fn refuse_xchg(&mut self, corr: u32, status: AuthzErr) -> (r: Refusal)
        ensures
            r == (Refusal { corr, status }),
            final(self).xchg_counted(*old(self)),
            final(self).same_policy(*old(self)),
            final(self).pending == old(self).pending,
            final(self).next_corr == old(self).next_corr,
    {
        count(&mut self.xchg_refused);
        Refusal { corr, status }
    }

    fn correlate(&mut self) -> (r: u32)
        ensures
            r == old(self).next_corr,
            *final(self) == (AuthCode {
                next_corr: keys::next_correlation(old(self).next_corr),
                ..*old(self)
            }),
    {
        let corr: u32 = self.next_corr;
        self.next_corr = advance_correlation(self.next_corr);
        corr
    }

    /// What is refused of a request for a code before its credential is checked; the time where
    /// nothing is.
    pub fn precheck(
        &mut self,
        req: &AuthorizeRequest,
        keyset_empty: bool,
        now: Option<u64>,
    ) -> (r: Result<u64, Refusal>)
        ensures
            final(self).same_policy(*old(self)),
            final(self).pending == old(self).pending,
            final(self).next_corr == old(self).next_corr,
            match request_refusal(*req, keyset_empty, now) {
                Some(status) => r == Err::<u64, Refusal>(Refusal { corr: req.corr, status })
                    && final(self).authz_counted(*old(self)),
                None => r == Ok::<u64, Refusal>(now->0) && final(self).same_counters(*old(self)),
            },
    {
        if keyset_empty {
            return Err(self.refuse_authz(req.corr, AuthzErr::NoKey));
        }
        if req.credential.len() == 0 || req.proof.len() == 0 {
            return Err(self.refuse_authz(req.corr, AuthzErr::Unauthenticated));
        }
        if req.code_challenge.len() != PKCE_CHALLENGE_LEN {
            return Err(self.refuse_authz(req.corr, AuthzErr::NoPkce));
        }
        if !json_safe(req.client_id.as_slice()) || !json_safe(req.redirect_uri.as_slice())
            || !json_safe(req.nonce.as_slice()) || !json_safe(req.code_challenge.as_slice()) {
            return Err(self.refuse_authz(req.corr, AuthzErr::Malformed));
        }
        match now {
            Some(now) => Ok(now),
            None => Err(self.refuse_authz(req.corr, AuthzErr::NoClock)),
        }
    }

    /// Why a request for a code is refused once its credential was checked.
    pub open spec fn presentation_refusal(self, auth: Result<Held, AuthError>) -> Option<AuthzErr> {
        match auth {
            Err(why) => if why == AuthError::Replay {
                Some(AuthzErr::Replay)
            } else {
                Some(AuthzErr::Unauthenticated)
            },
            Ok(held) => if claims::text_claim(held.claims@, bytes::text("sub")) is None
                || claims::text_claim(held.claims@, bytes::text("device_id")) is None {
                Some(AuthzErr::Unauthenticated)
            } else if forall|i: int|
                0 <= i < self.pending@.len() ==> (#[trigger] self.pending@[i]).live {
                Some(AuthzErr::StateUnavailable)
            } else {
                None
            },
        }
    }

    /// The entry of a request for a code.
    pub open spec fn authz_entry(
        e: Pending,
        req: AuthorizeRequest,
        now: u64,
        held: Held,
        corr: u32,
    ) -> bool {
        let claims = held.claims@;
        &&& e.live
        &&& e.flow == Flow::AuthzClient
        &&& e.caller_corr == req.corr
        &&& e.state_corr == corr
        &&& e.mint_corr == 0
        &&& e.sub@ == bytes::clipped(claims::text_or_empty(claims, bytes::text("sub")), 256)
        &&& e.device_id@ == bytes::clipped(
            claims::text_or_empty(claims, bytes::text("device_id")),
            256,
        )
        &&& e.jkt == held.thumbprint
        &&& e.client_id@ == bytes::clipped(req.client_id@, 256)
        &&& e.redirect_uri@ == bytes::clipped(req.redirect_uri@, 256)
        &&& e.scope@.len() == 0
        &&& e.parked@ == bytes::clipped(req.code_challenge@, 256)
        &&& e.nonce@ == bytes::clipped(req.nonce@, 256)
        &&& e.state@ == bytes::clipped(req.state@, 256)
        &&& e.code@.len() == 0
        &&& e.code_etag@.len() == 0
        &&& e.auth_time == now
        &&& e.access_token@.len() == 0
    }

    /// What follows the check of a credential: a refusal, or a lookup of the client.
    pub open spec fn handled(
        before: Self,
        after: Self,
        req: AuthorizeRequest,
        now: u64,
        auth: Result<Held, AuthError>,
        r: RequestStep,
    ) -> bool {
        match before.presentation_refusal(auth) {
            Some(status) => {
                &&& r == RequestStep::Refuse(Refusal { corr: req.corr, status })
                &&& after.authz_counted(before)
                &&& after.next_corr == before.next_corr
            },
            None => {
                &&& after.same_counters(before)
                &&& after.next_corr == keys::next_correlation(before.next_corr)
                &&& r matches RequestStep::Lookup(l)
                &&& l.index < 8
                &&& !before.pending@[l.index as int].live
                &&& forall|j: int| 0 <= j < l.index ==> (#[trigger] before.pending@[j]).live
                &&& l.key@ == req.client_id@
                &&& auth matches Ok(held)
                &&& Self::authz_entry(l.entry, req, now, held, before.next_corr)
            },
        }
    }

    /// Answer a request for a code, up to the lookup of its client: whatever is presented is
    /// checked against the held keys and the window, as a device certificate and a proof for the
    /// request.
    pub fn authorize(
        &mut self,
        req: &AuthorizeRequest,
        keys: &Verifier,
        window: &mut ReplayWindow,
        now: Option<u64>,
    ) -> (r: RequestStep)
        requires
            old(self).wf(),
            old(window).wf(),
            now matches Some(t) ==> t + PROOF_WINDOW_SECS <= u64::MAX,
        ensures
            final(self).wf(),
            final(window).wf(),
            final(self).pending == old(self).pending,
            final(self).same_policy(*old(self)),
            match request_refusal(*req, !keys.any_live(), now) {
                Some(status) => {
                    &&& r == RequestStep::Refuse(Refusal { corr: req.corr, status })
                    &&& final(self).authz_counted(*old(self))
                    &&& final(self).next_corr == old(self).next_corr
                    &&& *final(window) == *old(window)
                },
                None => exists|auth: Result<Held, AuthError>|
                    {
                        &&& #[trigger] device_auth::authenticated(
                            device_auth::named_key(keys.keys@, req.credential@, now->0),
                            *old(window),
                            *final(window),
                            req.shown(),
                            device_auth::certificate_policy(),
                            now->0,
                            auth,
                        )
                        &&& Self::handled(*old(self), *final(self), *req, now->0, auth, r)
                    },
            },
    {
        let now: u64 = match self.precheck(req, !keys.holds_any(), now) {
            Ok(now) => now,
            Err(refusal) => {
                return RequestStep::Refuse(refusal);
            },
        };
        let p = Presentation {
            credential: req.credential.as_slice(),
            proof: req.proof.as_slice(),
            method: req.method.as_slice(),
            uri: req.uri.as_slice(),
        };
        let issuer = select_issuer(keys, req.credential.as_slice(), now);
        let auth = authenticate(&issuer, window, &p, &device_certificates(), now);
        let ghost checked = *self;
        let ghost outcome = auth;
        assert(device_auth::authenticated(
            device_auth::named_key(keys.keys@, req.credential@, now),
            *old(window),
            *window,
            req.shown(),
            device_auth::certificate_policy(),
            now,
            outcome,
        ));
        let step = self.handle_authorize(req, now, auth);
        proof {
            lemma_handled(*old(self), checked, *self, *req, now, outcome, step);
        }
        step
    }

    /// The credential was checked: refuse, or look the client up. Subject and device come out of
    /// the credential; nothing in the request names them.
    pub fn handle_authorize(&mut self, req: &AuthorizeRequest, now: u64, auth: Result<Held, AuthError>) -> (r:
        RequestStep)
        requires
            old(self).wf(),
        ensures
            final(self).wf(),
            final(self).pending == old(self).pending,
            final(self).same_policy(*old(self)),
            Self::handled(*old(self), *final(self), *req, now, auth, r),
    {
        let held = match auth {
            Ok(held) => held,
            Err(why) => {
                let status = if why == AuthError::Replay {
                    AuthzErr::Replay
                } else {
                    AuthzErr::Unauthenticated
                };
                return RequestStep::Refuse(self.refuse_authz(req.corr, status));
            },
        };
        let sub = claim_str(held.claims.as_slice(), "sub".as_bytes());
        let device = claim_str(held.claims.as_slice(), "device_id".as_bytes());
        let (sub, device) = match (sub, device) {
            (Some(sub), Some(device)) => (sub, device),
            _ => {
                return RequestStep::Refuse(self.refuse_authz(req.corr, AuthzErr::Unauthenticated));
            },
        };
        let index: usize = match self.free_slot() {
            Some(index) => index,
            None => {
                return RequestStep::Refuse(self.refuse_authz(req.corr, AuthzErr::StateUnavailable));
            },
        };
        let mut entry = Pending::zero();
        entry.live = true;
        entry.flow = Flow::AuthzClient;
        entry.caller_corr = req.corr;
        entry.auth_time = now;
        entry.sub = copy_field(sub, MAX_FIELD);
        entry.device_id = copy_field(device, MAX_FIELD);
        entry.jkt = held.thumbprint;
        entry.client_id = copy_field(req.client_id.as_slice(), MAX_FIELD);
        entry.redirect_uri = copy_field(req.redirect_uri.as_slice(), MAX_FIELD);
        entry.nonce = copy_field(req.nonce.as_slice(), MAX_FIELD);
        entry.state = copy_field(req.state.as_slice(), MAX_FIELD);
        entry.parked = copy_field(req.code_challenge.as_slice(), MAX_FIELD);
        entry.state_corr = self.correlate();
        RequestStep::Lookup(
            Lookup { index, entry, key: slice_to_vec(req.client_id.as_slice()) },
        )
    }

    /// Why an exchange is refused before its code is read.
    pub open spec fn exchange_refusal(self, req: CodeExchangeRequest, keyset_empty: bool) -> Option<
        AuthzErr,
    > {
        if keyset_empty {
            Some(AuthzErr::NoKey)
        } else if req.code@.len() == 0 || req.code_verifier@.len() == 0 {
            Some(AuthzErr::Malformed)
        } else if forall|i: int|
            0 <= i < self.pending@.len() ==> (#[trigger] self.pending@[i]).live {
            Some(AuthzErr::StateUnavailable)
        } else {
            None
        }
    }

    /// The entry of an exchange.
    pub open spec fn xchg_entry(e: Pending, req: CodeExchangeRequest, corr: u32) -> bool {
        &&& e.live
        &&& e.flow == Flow::XchgCode
        &&& e.caller_corr == req.corr
        &&& e.state_corr == corr
        &&& e.mint_corr == 0
        &&& e.sub@.len() == 0
        &&& e.device_id@.len() == 0
        &&& e.jkt@ == no_thumbprint()
        &&& e.client_id@ == bytes::clipped(req.client_id@, 256)
        &&& e.redirect_uri@ == bytes::clipped(req.redirect_uri@, 256)
        &&& e.scope@.len() == 0
        &&& e.parked@ == bytes::clipped(req.code_verifier@, 256)
        &&& e.nonce@.len() == 0
        &&& e.state@.len() == 0
        &&& e.code@ == bytes::clipped(req.code@, 22)
        &&& e.code_etag@.len() == 0
        &&& e.auth_time == 0
        &&& e.access_token@.len() == 0
    }

    /// Refuse an exchange, or look its code up.
    pub fn handle_exchange(&mut self, req: &CodeExchangeRequest, keyset_empty: bool) -> (r:
        RequestStep)
        requires
            old(self).wf(),
        ensures
            final(self).wf(),
            final(self).pending == old(self).pending,
            final(self).same_policy(*old(self)),
            match old(self).exchange_refusal(*req, keyset_empty) {
                Some(status) => {
                    &&& r == RequestStep::Refuse(Refusal { corr: req.corr, status })
                    &&& final(self).xchg_counted(*old(self))
                    &&& final(self).next_corr == old(self).next_corr
                },
                None => {
                    &&& final(self).same_counters(*old(self))
                    &&& final(self).next_corr == keys::next_correlation(old(self).next_corr)
                    &&& r matches RequestStep::Lookup(l)
                    &&& l.index < 8
                    &&& !old(self).pending@[l.index as int].live
                    &&& forall|j: int|
                        0 <= j < l.index ==> (#[trigger] old(self).pending@[j]).live
                    &&& l.key@ == req.code@
                    &&& Self::xchg_entry(l.entry, *req, old(self).next_corr)
                },
            },
    {
        if keyset_empty {
            return RequestStep::Refuse(self.refuse_xchg(req.corr, AuthzErr::NoKey));
        }
        if req.code.len() == 0 || req.code_verifier.len() == 0 {
            return RequestStep::Refuse(self.refuse_xchg(req.corr, AuthzErr::Malformed));
        }
        let index: usize = match self.free_slot() {
            Some(index) => index,
            None => {
                return RequestStep::Refuse(self.refuse_xchg(req.corr, AuthzErr::StateUnavailable));
            },
        };
        let mut entry = Pending::zero();
        entry.live = true;
        entry.flow = Flow::XchgCode;
        entry.caller_corr = req.corr;
        entry.code = copy_field(req.code.as_slice(), CODE_ID_CHARS);
        entry.client_id = copy_field(req.client_id.as_slice(), MAX_FIELD);
        entry.redirect_uri = copy_field(req.redirect_uri.as_slice(), MAX_FIELD);
        entry.parked = copy_field(req.code_verifier.as_slice(), MAX_FIELD);
        entry.state_corr = self.correlate();
        RequestStep::Lookup(Lookup { index, entry, key: slice_to_vec(req.code.as_slice()) })
    }

    /// What an entry waits for was asked of the ledger or of the mint, or could not be: hold the
    /// entry, or refuse its caller. An exchange that the mint could not be asked for has failed
    /// there.
    pub fn sent(&mut self, index: usize, entry: Pending, sent: bool) -> (r: Option<Refusal>)
        requires
            old(self).wf(),
            index < 8,
        ensures
            final(self).wf(),
            final(self).next_corr == old(self).next_corr,
            final(self).same_policy(*old(self)),
            sent ==> {
                &&& r is None
                &&& final(self).pending@ == old(self).pending@.update(index as int, entry)
                &&& final(self).same_counters(*old(self))
            },
            !sent ==> {
                &&& r == Some(
                    Refusal {
                        corr: entry.caller_corr,
                        status: if entry.flow == Flow::XchgMintAt || entry.flow
                            == Flow::XchgMintId {
                            AuthzErr::MintFailed
                        } else {
                            AuthzErr::StateUnavailable
                        },
                    },
                )
                &&& final(self).pending == old(self).pending
                &&& if entry.flow == Flow::AuthzClient {
                    final(self).authz_counted(*old(self))
                } else {
                    final(self).xchg_counted(*old(self))
                }
            },
    {
        if sent {
            self.pending[index] = entry;
            return None;
        }
        match entry.flow {
            Flow::AuthzClient => Some(
                self.refuse_authz(entry.caller_corr, AuthzErr::StateUnavailable),
            ),
            Flow::XchgMintAt | Flow::XchgMintId => Some(
                self.refuse_xchg(entry.caller_corr, AuthzErr::MintFailed),
            ),
            _ => Some(self.refuse_xchg(entry.caller_corr, AuthzErr::StateUnavailable)),
        }
    }

    fn take(&mut self, index: usize) -> (r: Pending)
        requires
            old(self).wf(),
            index < 8,
        ensures
            r == old(self).pending@[index as int],
            final(self).wf(),
            final(self).freed(*old(self), index as int),
            final(self).next_corr == old(self).next_corr,
            final(self).same_policy(*old(self)),
            final(self).same_counters(*old(self)),
    {
        let mut entry = Pending::zero();
        core::mem::swap(&mut entry, &mut self.pending[index]);
        entry
    }

    fn awaiting(&self, corr: u32) -> (r: Option<usize>)
        ensures
            match r {
                Some(i) => awaiting_from(self.pending@, corr, 0) == Some(i as int) && i
                    < self.pending@.len() && self.pending@[i as int].live,
                None => awaiting_from(self.pending@, corr, 0) is None,
            },
    {
        let mut i: usize = 0;
        while i < self.pending.len()
            invariant
                i <= self.pending@.len(),
                awaiting_from(self.pending@, corr, 0) == awaiting_from(self.pending@, corr, i as int),
            decreases self.pending@.len() - i,
        {
            if self.pending[i].live && self.pending[i].state_corr == corr {
                return Some(i);
            }
            i = i + 1;
        }
        None
    }

    fn minting(&self, corr: u32) -> (r: Option<usize>)
        ensures
            match r {
                Some(i) => minting_from(self.pending@, corr, 0) == Some(i as int) && i
                    < self.pending@.len() && mints(self.pending@[i as int]),
                None => minting_from(self.pending@, corr, 0) is None,
            },
    {
        let mut i: usize = 0;
        while i < self.pending.len()
            invariant
                i <= self.pending@.len(),
                minting_from(self.pending@, corr, 0) == minting_from(self.pending@, corr, i as int),
            decreases self.pending@.len() - i,
        {
            let p = &self.pending[i];
            if p.live && p.mint_corr == corr && (p.flow == Flow::XchgMintAt || p.flow
                == Flow::XchgMintId) {
                return Some(i);
            }
            i = i + 1;
        }
        None
    }

    /// What the client's registration comes to. The scope is the registered one, whatever was
    /// asked for.
    pub open spec fn client_answered(
        before: Self,
        after: Self,
        entry: Pending,
        status: Status,
        value: Seq<u8>,
        r: StateStep,
    ) -> bool {
        &&& after.next_corr == before.next_corr
        &&& match client_refusal(entry.redirect_uri@, status, value) {
            Some(why) => {
                &&& r == StateStep::RefuseAuthz(Refusal { corr: entry.caller_corr, status: why })
                &&& after.authz_counted(before)
            },
            None => {
                &&& r matches StateStep::Draw { entry: e, redirect_uri }
                &&& e == (Pending { scope: e.scope, parked: e.parked, ..entry })
                &&& e.scope@ == bytes::clipped(
                    claims::text_or_empty(value, bytes::text("scope")),
                    256,
                )
                &&& e.parked@ == bytes::clipped(entry.parked@, 43)
                &&& redirect_uri@ == entry.redirect_uri@
                &&& after.same_counters(before)
            },
        }
    }

    /// What the code's record comes to.
    pub open spec fn code_answered(
        before: Self,
        after: Self,
        i: int,
        entry: Pending,
        rep: StateReply,
        r: StateStep,
    ) -> bool {
        match grant_refusal(
            entry.client_id@,
            entry.redirect_uri@,
            entry.parked@,
            rep.status,
            rep.value@,
        ) {
            Some(why) => {
                &&& r == StateStep::RefuseXchg(Refusal { corr: entry.caller_corr, status: why })
                &&& after.xchg_counted(before)
                &&& after.next_corr == before.next_corr
            },
            None => {
                &&& r matches StateStep::ReadDevice { index, entry: e }
                &&& index == i
                &&& captured(e, entry, rep.value@, rep.etag@, before.next_corr)
                &&& after.same_counters(before)
                &&& after.next_corr == keys::next_correlation(before.next_corr)
            },
        }
    }

    /// What the device record comes to.
    pub open spec fn device_answered(
        before: Self,
        after: Self,
        i: int,
        entry: Pending,
        status: Status,
        value: Seq<u8>,
        r: StateStep,
    ) -> bool {
        match device_refusal(status, value) {
            Some(why) => {
                &&& r == StateStep::RefuseXchg(Refusal { corr: entry.caller_corr, status: why })
                &&& after.xchg_counted(before)
                &&& after.next_corr == before.next_corr
            },
            None => {
                &&& r matches StateStep::Consume { index, entry: e, expiry }
                &&& index == i
                &&& e == (Pending {
                    state_corr: before.next_corr,
                    flow: Flow::XchgConsume,
                    ..entry
                })
                &&& expiry == code_expiry(entry.auth_time)
                &&& after.same_counters(before)
                &&& after.next_corr == keys::next_correlation(before.next_corr)
            },
        }
    }

    /// The order for the access token of an entry: bound to the key and the scope that the code
    /// was, and for the audience of the deployment.
    pub open spec fn access_order(self, order: MintOrder, entry: Pending) -> bool {
        &&& order.correlation == self.next_corr
        &&& order.profile == Profile::AccessToken
        &&& order.suite == self.token_suite
        &&& order.ttl_seconds == self.ttl_seconds
        &&& order.iss@ == self.iss@
        &&& order.sub@ == entry.sub@
        &&& order.aud@ == self.aud@
        &&& order.scope@ == entry.scope@
        &&& order.jkt matches Some(jkt)
        &&& jkt@ == entry.jkt@
        &&& order.nonce is None
        &&& order.auth_time is None
    }

    /// The order for the ID token of an entry: for the client, without a scope and bound to no
    /// key, and with what there is of nonce and time.
    pub open spec fn id_order(self, order: MintOrder, entry: Pending) -> bool {
        &&& order.correlation == self.next_corr
        &&& order.profile == Profile::IdToken
        &&& order.suite == self.token_suite
        &&& order.ttl_seconds == self.id_ttl_seconds
        &&& order.iss@ == self.iss@
        &&& order.sub@ == entry.sub@
        &&& order.aud@ == entry.client_id@
        &&& order.scope@.len() == 0
        &&& order.jkt is None
        &&& match order.nonce {
            Some(nonce) => entry.nonce@.len() > 0 && nonce@ == entry.nonce@,
            None => entry.nonce@.len() == 0,
        }
        &&& order.auth_time == (if entry.auth_time > 0 {
            Some(entry.auth_time)
        } else {
            None
        })
    }

    /// What the consumption of the code comes to.
    pub open spec fn consume_answered(
        before: Self,
        after: Self,
        i: int,
        entry: Pending,
        status: Status,
        r: StateStep,
    ) -> bool {
        if status != Status::Success {
            &&& r == StateStep::RefuseXchg(
                Refusal { corr: entry.caller_corr, status: AuthzErr::InvalidGrant },
            )
            &&& after.xchg_counted(before)
            &&& after.next_corr == before.next_corr
        } else {
            &&& r matches StateStep::Mint { index, entry: e, order }
            &&& index == i
            &&& e == (Pending { mint_corr: before.next_corr, flow: Flow::XchgMintAt, ..entry })
            &&& before.access_order(order, entry)
            &&& after.same_counters(before)
            &&& after.next_corr == keys::next_correlation(before.next_corr)
        }
    }

    /// One reply of the ledger: settle, or move on, the request that waits for it.
    pub fn drain_state(&mut self, rep: &StateReply) -> (r: StateStep)
        requires
            old(self).wf(),
        ensures
            final(self).wf(),
            final(self).same_policy(*old(self)),
            if rep.client != STATE_CLIENT {
                r is Ignore && *final(self) == *old(self)
            } else {
                match awaiting_from(old(self).pending@, rep.correlation, 0) {
                    None => r is Ignore && *final(self) == *old(self),
                    Some(i) => {
                        let entry = old(self).pending@[i];
                        match entry.flow {
                            Flow::AuthzClient => final(self).freed(*old(self), i)
                                && Self::client_answered(
                                *old(self),
                                *final(self),
                                entry,
                                rep.status,
                                rep.value@,
                                r,
                            ),
                            Flow::XchgCode => final(self).freed(*old(self), i)
                                && Self::code_answered(
                                *old(self),
                                *final(self),
                                i,
                                entry,
                                *rep,
                                r,
                            ),
                            Flow::XchgDevice => final(self).freed(*old(self), i)
                                && Self::device_answered(
                                *old(self),
                                *final(self),
                                i,
                                entry,
                                rep.status,
                                rep.value@,
                                r,
                            ),
                            Flow::XchgConsume => final(self).freed(*old(self), i)
                                && Self::consume_answered(
                                *old(self),
                                *final(self),
                                i,
                                entry,
                                rep.status,
                                r,
                            ),
                            _ => r is Ignore && *final(self) == *old(self),
                        }
                    },
                }
            },
    {
        if rep.client != STATE_CLIENT {
            return StateStep::Ignore;
        }
        let index: usize = match self.awaiting(rep.correlation) {
            Some(index) => index,
            None => {
                return StateStep::Ignore;
            },
        };
        match self.pending[index].flow {
            Flow::XchgMintAt | Flow::XchgMintId => {
                return StateStep::Ignore;
            },
            _ => {},
        }
        let entry = self.take(index);
        match entry.flow {
            Flow::AuthzClient => self.authz_on_client(entry, rep.status, rep.value.as_slice()),
            Flow::XchgCode => self.xchg_on_code(index, entry, rep),
            Flow::XchgDevice => self.xchg_on_device(
                index,
                entry,
                rep.status,
                rep.value.as_slice(),
            ),
            _ => self.xchg_on_consume(index, entry, rep.status),
        }
    }

    /// The client's registration came back: the address has to be the registered one, byte for
    /// byte, and the scope becomes the registered one.
    pub fn authz_on_client(&mut self, entry: Pending, status: Status, value: &[u8]) -> (r: StateStep)
        ensures
            final(self).pending == old(self).pending,
            final(self).same_policy(*old(self)),
            Self::client_answered(*old(self), *final(self), entry, status, value@, r),
    {
        match status {
            Status::Success => {},
            _ => {
                return StateStep::RefuseAuthz(
                    self.refuse_authz(entry.caller_corr, AuthzErr::UnknownClient),
                );
            },
        }
        let registered = claim_or_empty(value, "redirect_uri".as_bytes());
        let scope = claim_or_empty(value, "scope".as_bytes());
        if registered.len() == 0 || !bytes_equal(registered, entry.redirect_uri.as_slice()) {
            return StateStep::RefuseAuthz(
                self.refuse_authz(entry.caller_corr, AuthzErr::BadRedirect),
            );
        }
        let redirect_uri = slice_to_vec(registered);
        let scope = copy_field(scope, MAX_FIELD);
        let parked = copy_field(entry.parked.as_slice(), PKCE_CHALLENGE_LEN);
        StateStep::Draw { entry: Pending { scope, parked, ..entry }, redirect_uri }
    }

    /// What the draw of a code comes to: a refusal, or the record that it stands for and the answer
    /// that names it.
    pub open spec fn code_drawn(
        before: Self,
        after: Self,
        entry: Pending,
        redirect_uri: Vec<u8>,
        drawn: Option<[u8; 16]>,
        r: CodeStep,
    ) -> bool {
        if drawn is None || !code_safe(entry, entry.parked@) || code_record(
            entry,
            entry.parked@,
        ).len() > 1024 {
            &&& r == CodeStep::Refuse(
                Refusal { corr: entry.caller_corr, status: AuthzErr::StateUnavailable },
            )
            &&& after.authz_counted(before)
            &&& after.next_corr == before.next_corr
        } else {
            &&& after.same_counters(before)
            &&& after.next_corr == keys::next_correlation(before.next_corr)
            &&& r matches CodeStep::Put { correlation, record, expiry, reply }
            &&& correlation == before.next_corr
            &&& record@ == code_record(entry, entry.parked@)
            &&& expiry == code_expiry(entry.auth_time)
            &&& reply.corr == entry.caller_corr
            &&& reply.code@ == base64::encoded(drawn->0@)
            &&& reply.code@.len() == 22
            &&& reply.redirect_uri == redirect_uri
            &&& reply.state == entry.state
        }
    }

    /// Sixteen random bytes were drawn for a code, or could not be.
    pub fn draw_code(
        &mut self,
        entry: Pending,
        redirect_uri: Vec<u8>,
        drawn: Option<[u8; 16]>,
    ) -> (r: CodeStep)
        ensures
            final(self).pending == old(self).pending,
            final(self).same_policy(*old(self)),
            Self::code_drawn(*old(self), *final(self), entry, redirect_uri, drawn, r),
    {
        let raw = match drawn {
            Some(raw) => raw,
            None => {
                return CodeStep::Refuse(
                    self.refuse_authz(entry.caller_corr, AuthzErr::StateUnavailable),
                );
            },
        };
        let record = match build_code_record(&entry, entry.parked.as_slice(), MAX_RECORD) {
            Some(record) => record,
            None => {
                return CodeStep::Refuse(
                    self.refuse_authz(entry.caller_corr, AuthzErr::StateUnavailable),
                );
            },
        };
        let code = base64::encode(raw.as_slice());
        proof {
            base64::encoding_length(raw@);
        }
        let correlation: u32 = self.correlate();
        let expiry: u64 = entry.auth_time.saturating_add(CODE_TTL_SECS);
        CodeStep::Put {
            correlation,
            record,
            expiry,
            reply: CodeReply { corr: entry.caller_corr, code, redirect_uri, state: entry.state },
        }
    }

    /// The code's record was sent to the ledger, or could not be.
    pub fn code_put(&mut self, reply: CodeReply, sent: bool) -> (r: Result<CodeReply, Refusal>)
        ensures
            final(self).pending == old(self).pending,
            final(self).same_policy(*old(self)),
            final(self).next_corr == old(self).next_corr,
            sent ==> r == Ok::<CodeReply, Refusal>(reply) && final(self).same_counters(*old(self)),
            !sent ==> r == Err::<CodeReply, Refusal>(
                Refusal { corr: reply.corr, status: AuthzErr::StateUnavailable },
            ) && final(self).authz_counted(*old(self)),
    {
        if sent {
            Ok(reply)
        } else {
            Err(self.refuse_authz(reply.corr, AuthzErr::StateUnavailable))
        }
    }

    /// An authorization was answered with a code.
    pub fn authz_answered(&mut self)
        ensures
            *final(self) == (AuthCode {
                authz_ok: keys::counted(old(self).authz_ok),
                ..*old(self)
            }),
    {
        count(&mut self.authz_ok);
    }

    /// The code's record came back: it has to be bound to the client and the address that the
    /// caller names, and to the verifier that it holds. From here on the caller influences
    /// nothing.
    pub fn xchg_on_code(&mut self, index: usize, entry: Pending, rep: &StateReply) -> (r: StateStep)
        requires
            entry.live,
        ensures
            final(self).pending == old(self).pending,
            final(self).same_policy(*old(self)),
            Self::code_answered(*old(self), *final(self), index as int, entry, *rep, r),
    {
        let record = rep.value.as_slice();
        let held = match rep.status {
            Status::Success => true,
            _ => false,
        };
        if !held || claim_is(record, "status".as_bytes(), "consumed".as_bytes()) {
            return StateStep::RefuseXchg(
                self.refuse_xchg(entry.caller_corr, AuthzErr::InvalidGrant),
            );
        }
        let client = claim_or_empty(record, "cid".as_bytes());
        let address = claim_or_empty(record, "ruri".as_bytes());
        if !bytes_equal(client, entry.client_id.as_slice()) || !bytes_equal(
            address,
            entry.redirect_uri.as_slice(),
        ) {
            return StateStep::RefuseXchg(self.refuse_xchg(entry.caller_corr, AuthzErr::Mismatch));
        }
        let mut digest: [u8; 32] = [0u8; 32];
        sha256_into(entry.parked.as_slice(), &mut digest);
        let computed = base64::encode(digest.as_slice());
        if !bytes_equal(claim_or_empty(record, "cc".as_bytes()), computed.as_slice()) {
            return StateStep::RefuseXchg(self.refuse_xchg(entry.caller_corr, AuthzErr::PkceFailed));
        }
        let mut entry = entry;
        entry.sub = capture(claim_str(record, "sub".as_bytes()), MAX_FIELD);
        entry.device_id = capture(claim_str(record, "did".as_bytes()), MAX_FIELD);
        entry.nonce = capture(claim_str(record, "nonce".as_bytes()), MAX_FIELD);
        entry.scope = capture(claim_str(record, "scope".as_bytes()), MAX_FIELD);
        match claim_str(record, "jkt".as_bytes()) {
            Some(jkt) => if jkt.len() == 43 {
                entry.jkt = slice_to_vec(jkt);
            },
            None => {},
        }
        entry.auth_time = parse_u64(claim_or_empty(record, "at".as_bytes()));
        entry.code_etag = copy_field(rep.etag.as_slice(), MAX_ETAG);
        entry.state_corr = self.correlate();
        entry.flow = Flow::XchgDevice;
        StateStep::ReadDevice { index, entry }
    }

    /// The device record came back: a device that is revoked, or unknown, gets no token, and the
    /// code is consumed before any is minted.
    pub fn xchg_on_device(&mut self, index: usize, entry: Pending, status: Status, value: &[u8]) -> (r:
        StateStep)
        ensures
            final(self).pending == old(self).pending,
            final(self).same_policy(*old(self)),
            Self::device_answered(
                *old(self),
                *final(self),
                index as int,
                entry,
                status,
                value@,
                r,
            ),
    {
        match status {
            Status::Success => {},
            Status::NotFound => {
                return StateStep::RefuseXchg(
                    self.refuse_xchg(entry.caller_corr, AuthzErr::InvalidGrant),
                );
            },
            _ => {
                return StateStep::RefuseXchg(
                    self.refuse_xchg(entry.caller_corr, AuthzErr::StateUnavailable),
                );
            },
        }
        if claim_is(value, "status".as_bytes(), "revoked".as_bytes()) {
            return StateStep::RefuseXchg(
                self.refuse_xchg(entry.caller_corr, AuthzErr::InvalidGrant),
            );
        }
        let expiry: u64 = entry.auth_time.saturating_add(CODE_TTL_SECS);
        let state_corr: u32 = self.correlate();
        StateStep::Consume {
            index,
            entry: Pending { state_corr, flow: Flow::XchgConsume, ..entry },
            expiry,
        }
    }

    /// The consumption of the code was answered: whoever lost the race is refused, and whoever won
    /// it is minted an access token.
    pub fn xchg_on_consume(&mut self, index: usize, entry: Pending, status: Status) -> (r: StateStep)
        ensures
            final(self).pending == old(self).pending,
            final(self).same_policy(*old(self)),
            Self::consume_answered(*old(self), *final(self), index as int, entry, status, r),
    {
        match status {
            Status::Success => {},
            _ => {
                return StateStep::RefuseXchg(
                    self.refuse_xchg(entry.caller_corr, AuthzErr::InvalidGrant),
                );
            },
        }
        let correlation: u32 = self.correlate();
        let order = MintOrder {
            correlation,
            profile: Profile::AccessToken,
            suite: self.token_suite,
            ttl_seconds: self.ttl_seconds,
            iss: slice_to_vec(self.iss.as_slice()),
            sub: slice_to_vec(entry.sub.as_slice()),
            aud: slice_to_vec(self.aud.as_slice()),
            scope: slice_to_vec(entry.scope.as_slice()),
            jkt: Some(slice_to_vec(entry.jkt.as_slice())),
            nonce: None,
            auth_time: None,
        };
        StateStep::Mint {
            index,
            entry: Pending { mint_corr: correlation, flow: Flow::XchgMintAt, ..entry },
            order,
        }
    }

    /// What a reply of the mint comes to: a failure, the order for the ID token, or both tokens.
    pub open spec fn mint_answered(
        before: Self,
        after: Self,
        i: int,
        entry: Pending,
        rep: MintReply,
        r: MintStep,
    ) -> bool {
        let minted = rep.ok && rep.inline;
        if !minted || (entry.flow == Flow::XchgMintAt && rep.body@.len() > 4096) {
            &&& r == MintStep::Refuse(
                Refusal { corr: entry.caller_corr, status: AuthzErr::MintFailed },
            )
            &&& after.xchg_counted(before)
            &&& after.next_corr == before.next_corr
        } else if entry.flow == Flow::XchgMintAt {
            &&& r matches MintStep::Mint { index, entry: e, order }
            &&& index == i
            &&& e == (Pending {
                access_token: rep.body,
                mint_corr: before.next_corr,
                flow: Flow::XchgMintId,
                ..entry
            })
            &&& before.id_order(order, entry)
            &&& after.same_counters(before)
            &&& after.next_corr == keys::next_correlation(before.next_corr)
        } else {
            &&& r == (MintStep::Tokens {
                corr: entry.caller_corr,
                access_token: entry.access_token,
                id_token: rep.body,
            })
            &&& after.same_counters(before)
            &&& after.next_corr == before.next_corr
        }
    }

    /// One reply of the mint: after the access token the ID token, and after that both. A token
    /// that is too long to be carried is a failure, never cut.
    pub fn drain_mint(&mut self, rep: MintReply) -> (r: MintStep)
        requires
            old(self).wf(),
        ensures
            final(self).wf(),
            final(self).same_policy(*old(self)),
            match minting_from(old(self).pending@, rep.correlation, 0) {
                None => r is Ignore && *final(self) == *old(self),
                Some(i) => final(self).freed(*old(self), i) && Self::mint_answered(
                    *old(self),
                    *final(self),
                    i,
                    old(self).pending@[i],
                    rep,
                    r,
                ),
            },
    {
        let index: usize = match self.minting(rep.correlation) {
            Some(index) => index,
            None => {
                return MintStep::Ignore;
            },
        };
        let entry = self.take(index);
        if !rep.ok || !rep.inline {
            return MintStep::Refuse(self.refuse_xchg(entry.caller_corr, AuthzErr::MintFailed));
        }
        match entry.flow {
            Flow::XchgMintAt => {
                if rep.body.len() > MAX_TOKEN {
                    return MintStep::Refuse(
                        self.refuse_xchg(entry.caller_corr, AuthzErr::MintFailed),
                    );
                }
                let correlation: u32 = self.correlate();
                let order = MintOrder {
                    correlation,
                    profile: Profile::IdToken,
                    suite: self.token_suite,
                    ttl_seconds: self.id_ttl_seconds,
                    iss: slice_to_vec(self.iss.as_slice()),
                    sub: slice_to_vec(entry.sub.as_slice()),
                    aud: slice_to_vec(entry.client_id.as_slice()),
                    scope: Vec::new(),
                    jkt: None,
                    nonce: if entry.nonce.len() > 0 {
                        Some(slice_to_vec(entry.nonce.as_slice()))
                    } else {
                        None
                    },
                    auth_time: if entry.auth_time > 0 {
                        Some(entry.auth_time)
                    } else {
                        None
                    },
                };
                MintStep::Mint {
                    index,
                    entry: Pending {
                        access_token: rep.body,
                        mint_corr: correlation,
                        flow: Flow::XchgMintId,
                        ..entry
                    },
                    order,
                }
            },
            _ => MintStep::Tokens {
                corr: entry.caller_corr,
                access_token: entry.access_token,
                id_token: rep.body,
            },
        }
    }

    /// An exchange was answered with both tokens.
    pub fn xchg_answered(&mut self)
        ensures
            *final(self) == (AuthCode {
                xchg_ok: keys::counted(old(self).xchg_ok),
                ..*old(self)
            }),
    {
        count(&mut self.xchg_ok);
    }
}

/// What follows a check depends on what the check left alone.
proof fn lemma_handled(
    before: AuthCode,
    checked: AuthCode,
    after: AuthCode,
    req: AuthorizeRequest,
    now: u64,
    auth: Result<Held, AuthError>,
    r: RequestStep,
)
    requires
        checked.pending == before.pending,
        checked.next_corr == before.next_corr,
        checked.same_counters(before),
        AuthCode::handled(checked, after, req, now, auth, r),
    ensures
        AuthCode::handled(before, after, req, now, auth, r),
{
}

/// One authorization, from the certificate to the code: the entry that was looked up, the one that
/// a code was drawn for, and the record that was put.
pub struct Granted {
    pub lookup: Lookup,
    pub registration: Seq<u8>,
    pub drawn: Pending,
    pub redirect_uri: Vec<u8>,
    pub random: Option<[u8; 16]>,
    pub correlation: u32,
    pub record: Vec<u8>,
    pub expiry: u64,
    pub reply: CodeReply,
}

/// The steps of an authorization that led to a code.
pub open spec fn granted(
    states: Seq<AuthCode>,
    req: AuthorizeRequest,
    now: u64,
    held: Held,
    g: Granted,
) -> bool {
    &&& states.len() == 6
    &&& AuthCode::handled(
        states[0],
        states[1],
        req,
        now,
        Ok(held),
        RequestStep::Lookup(g.lookup),
    )
    &&& AuthCode::client_answered(
        states[2],
        states[3],
        g.lookup.entry,
        Status::Success,
        g.registration,
        StateStep::Draw { entry: g.drawn, redirect_uri: g.redirect_uri },
    )
    &&& AuthCode::code_drawn(
        states[4],
        states[5],
        g.drawn,
        g.redirect_uri,
        g.random,
        CodeStep::Put {
            correlation: g.correlation,
            record: g.record,
            expiry: g.expiry,
            reply: g.reply,
        },
    )
}

/// One exchange, from the code to the orders for its tokens.
pub struct Exchanged {
    pub lookup: Lookup,
    pub read: StateReply,
    pub captured: Pending,
    pub device: Seq<u8>,
    pub consuming: Pending,
    pub expiry: u64,
    pub minting: Pending,
    pub access: MintOrder,
    pub minted: MintReply,
    pub waiting: Pending,
    pub id: MintOrder,
}

/// The steps of an exchange that led to both orders.
pub open spec fn exchanged(
    states: Seq<AuthCode>,
    req: CodeExchangeRequest,
    x: Exchanged,
    index: usize,
) -> bool {
    &&& states.len() == 8
    &&& AuthCode::xchg_entry(x.lookup.entry, req, x.lookup.entry.state_corr)
    &&& AuthCode::code_answered(
        states[0],
        states[1],
        index as int,
        x.lookup.entry,
        x.read,
        StateStep::ReadDevice { index, entry: x.captured },
    )
    &&& AuthCode::device_answered(
        states[2],
        states[3],
        index as int,
        x.captured,
        Status::Success,
        x.device,
        StateStep::Consume { index, entry: x.consuming, expiry: x.expiry },
    )
    &&& AuthCode::consume_answered(
        states[4],
        states[5],
        index as int,
        x.consuming,
        Status::Success,
        StateStep::Mint { index, entry: x.minting, order: x.access },
    )
    &&& AuthCode::mint_answered(
        states[6],
        states[7],
        index as int,
        x.minting,
        x.minted,
        MintStep::Mint { index, entry: x.waiting, order: x.id },
    )
}

/// Both tokens of an exchange are for whoever authenticated at the authorization: their subject is
/// that of the certificate. The access token is bound to the key that the certificate was presented
/// with, for the scope that the client registered; the ID token is for the client, with the nonce
/// that it sent and the time of the authorization. And whoever exchanges the code names the client
/// and the address of the authorization and holds the verifier of its challenge.
pub proof fn a_code_buys_tokens_for_who_authenticated(
    a: Seq<AuthCode>,
    req: AuthorizeRequest,
    now: u64,
    held: Held,
    g: Granted,
    e: Seq<AuthCode>,
    exchange: CodeExchangeRequest,
    x: Exchanged,
    index: usize,
    sub: Seq<u8>,
    scope: Seq<u8>,
)
    requires
        granted(a, req, now, held, g),
        exchanged(e, exchange, x, index),
        x.read.value@ == g.record@,
        claims::text_claim(held.claims@, bytes::text("sub")) == Some(sub),
        sub.len() <= 256,
        held.thumbprint@.len() == 43,
        req.client_id@.len() <= 256,
        req.redirect_uri@.len() <= 256,
        req.nonce@.len() <= 256,
        req.code_challenge@.len() == 43,
        exchange.client_id@.len() <= 256,
        exchange.redirect_uri@.len() <= 256,
        exchange.code_verifier@.len() <= 256,
        claims::text_claim(g.registration, bytes::text("scope")) == Some(scope),
        scope.len() <= 256,
    ensures
        x.access.sub@ == sub,
        x.id.sub@ == sub,
        x.access.jkt matches Some(jkt) && jkt@ == held.thumbprint@,
        x.id.jkt is None,
        x.access.scope@ == scope,
        x.id.scope@.len() == 0,
        x.access.aud@ == e[4].aud@,
        x.id.aud@ == req.client_id@,
        x.access.iss@ == e[4].iss@,
        x.id.iss@ == e[6].iss@,
        x.access.ttl_seconds == e[4].ttl_seconds,
        x.id.ttl_seconds == e[6].id_ttl_seconds,
        x.access.suite == e[4].token_suite,
        x.id.suite == e[6].token_suite,
        x.access.profile == Profile::AccessToken,
        x.id.profile == Profile::IdToken,
        x.access.nonce is None,
        req.nonce@.len() > 0 ==> (x.id.nonce matches Some(nonce) && nonce@ == req.nonce@),
        req.nonce@.len() == 0 ==> x.id.nonce is None,
        x.access.auth_time is None,
        x.id.auth_time == (if now > 0 {
            Some(now)
        } else {
            None::<u64>
        }),
        now <= u64::MAX - 60 ==> g.expiry == now + 60 && x.expiry == now + 60,
        exchange.client_id@ == req.client_id@,
        exchange.redirect_uri@ == req.redirect_uri@,
        base64::encoded(crypto::sha256(exchange.code_verifier@)) == req.code_challenge@,
        claims::text_claim(g.registration, bytes::text("redirect_uri")) == Some(req.redirect_uri@),
        g.reply.redirect_uri@ == req.redirect_uri@,
        g.reply.corr == req.corr,
        g.reply.code@ == base64::encoded(g.random->0@),
        req.state@.len() <= 256 ==> g.reply.state@ == req.state@,
        x.waiting.access_token@ == x.minted.body@,
{
    let d = g.drawn;
    assert(d.parked@ =~= req.code_challenge@);
    code_record_reads_back(d, d.parked@);
    number_reads_back(d.auth_time);
}

/// A code is exchanged only against the verifier of its challenge, for the client and the address
/// that it was issued to, and while it stands as it was issued; and whoever has all these exchanges
/// it.
pub proof fn a_code_is_bound(
    client_id: Seq<u8>,
    redirect_uri: Seq<u8>,
    verifier: Seq<u8>,
    status: Status,
    record: Seq<u8>,
    cid: Seq<u8>,
    ruri: Seq<u8>,
    cc: Seq<u8>,
)
    requires
        claims::text_claim(record, bytes::text("cid")) == Some(cid),
        claims::text_claim(record, bytes::text("ruri")) == Some(ruri),
        claims::text_claim(record, bytes::text("cc")) == Some(cc),
    ensures
        grant_refusal(client_id, redirect_uri, verifier, status, record) is None <==> {
            &&& status == Status::Success
            &&& claims::text_claim(record, bytes::text("status")) != Some(bytes::text("consumed"))
            &&& cid == client_id
            &&& ruri == redirect_uri
            &&& cc == base64::encoded(crypto::sha256(verifier))
        },
{
}

/// A device that is revoked or unknown is given nothing, and neither is anybody while the ledger
/// does not answer; any other device's code is consumed first.
pub proof fn a_revoked_device_gets_no_token(
    before: AuthCode,
    after: AuthCode,
    i: int,
    entry: Pending,
    status: Status,
    value: Seq<u8>,
    r: StateStep,
)
    requires
        AuthCode::device_answered(before, after, i, entry, status, value, r),
    ensures
        r is Consume <==> status == Status::Success && claims::text_claim(
            value,
            bytes::text("status"),
        ) != Some(bytes::text("revoked")),
        status == Status::Success && claims::text_claim(value, bytes::text("status")) == Some(
            bytes::text("revoked"),
        ) ==> r == StateStep::RefuseXchg(
            Refusal { corr: entry.caller_corr, status: AuthzErr::InvalidGrant },
        ),
        r is Consume || r is RefuseXchg,
{
}

/// Whoever loses the race for a code is refused: only a code whose consumption succeeded is minted
/// for.
pub proof fn only_the_winner_is_minted_for(
    before: AuthCode,
    after: AuthCode,
    i: int,
    entry: Pending,
    status: Status,
    r: StateStep,
)
    requires
        AuthCode::consume_answered(before, after, i, entry, status, r),
    ensures
        r is Mint <==> status == Status::Success,
        status != Status::Success ==> r == StateStep::RefuseXchg(
            Refusal { corr: entry.caller_corr, status: AuthzErr::InvalidGrant },
        ),
{
}

/// The caller is answered with the tokens that the mint made, the access token as the first and the
/// ID token as the second; and with no token at all where the mint failed.
pub proof fn the_minted_tokens_are_answered(
    before: AuthCode,
    after: AuthCode,
    i: int,
    entry: Pending,
    rep: MintReply,
    r: MintStep,
)
    requires
        AuthCode::mint_answered(before, after, i, entry, rep, r),
        mints(entry),
    ensures
        !rep.ok || !rep.inline ==> r == MintStep::Refuse(
            Refusal { corr: entry.caller_corr, status: AuthzErr::MintFailed },
        ),
        r matches MintStep::Tokens { corr, access_token, id_token } ==> {
            &&& rep.ok && rep.inline
            &&& entry.flow == Flow::XchgMintId
            &&& corr == entry.caller_corr
            &&& access_token@ == entry.access_token@
            &&& id_token@ == rep.body@
        },
        rep.ok && rep.inline && entry.flow == Flow::XchgMintId ==> r is Tokens,
        rep.ok && rep.inline && entry.flow == Flow::XchgMintAt && rep.body@.len() <= 4096
            ==> r is Mint,
{
}

/// A request for a code is refused before its credential is looked at where there is nothing to
/// check it with, where it carries no credential, no proof or no challenge, where something in it
/// could not stand in a record, and where there is no time to date a code from; and nowhere else.
pub proof fn a_request_for_a_code_is_whole(
    req: AuthorizeRequest,
    keyset_empty: bool,
    now: Option<u64>,
)
    ensures
        request_refusal(req, keyset_empty, now) is None <==> {
            &&& !keyset_empty
            &&& req.credential@.len() > 0 && req.proof@.len() > 0
            &&& req.code_challenge@.len() == 43
            &&& claims::record_safe(req.client_id@) && claims::record_safe(req.redirect_uri@)
            &&& claims::record_safe(req.nonce@) && claims::record_safe(req.code_challenge@)
            &&& now is Some
        },
{
}

/// Who authenticated badly is given no code, and a replayed proof is told as such; whoever is
/// authenticated, with a subject and a device, is looked up under the client that they named.
pub proof fn only_the_authenticated_are_looked_up(
    before: AuthCode,
    after: AuthCode,
    req: AuthorizeRequest,
    now: u64,
    auth: Result<Held, AuthError>,
    r: RequestStep,
)
    requires
        before.wf(),
        AuthCode::handled(before, after, req, now, auth, r),
    ensures
        r matches RequestStep::Lookup(l) ==> {
            &&& auth matches Ok(held)
            &&& claims::text_claim(held.claims@, bytes::text("sub")) is Some
            &&& claims::text_claim(held.claims@, bytes::text("device_id")) is Some
            &&& l.key@ == req.client_id@
            &&& l.entry.jkt@ == held.thumbprint@
            &&& l.entry.auth_time == now
            &&& l.entry.caller_corr == req.corr
        },
        auth is Err ==> r == RequestStep::Refuse(
            Refusal {
                corr: req.corr,
                status: if auth->Err_0 == AuthError::Replay {
                    AuthzErr::Replay
                } else {
                    AuthzErr::Unauthenticated
                },
            },
        ),
        auth matches Ok(held) && claims::text_claim(held.claims@, bytes::text("sub")) is Some
            && claims::text_claim(held.claims@, bytes::text("device_id")) is Some && (exists|i: int|
            0 <= i < 8 && !(#[trigger] before.pending@[i]).live) ==> r is Lookup,
{
}

} // verus!
