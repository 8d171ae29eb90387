//! The resource gate: admit a request whose token and proof hold and whose assurance meets the
//! floor, or say which half of the credential was at fault.
use vstd::prelude::*;
use vstd::slice::slice_subrange;

use crate::assurance;
use crate::assurance::{read_level, with_amr, AssuranceLevel, AuthMethod, Evidence, KeyBinding};
use crate::base64;
use crate::bytes;
use crate::bytes::{copy_field, equal_letters, find, position, trim};
use crate::claims;
use crate::claims::{claim_or_empty, claim_u64};
use crate::device_auth;
use crate::device_auth::{access_tokens, authenticate, select_issuer, AuthError, Held};
use crate::http;
use crate::http::Reply;
use crate::keys;
use crate::keys::{advance_correlation, count};
use crate::ledger;
use crate::ledger::{replay_claim_result, ReplayClaim, StateReply, Status};
use crate::replay::ReplayWindow;
use crate::token_verify::Verifier;

verus! {

/// How long a proof stays fresh, and how long it is remembered, in seconds.
pub const PROOF_WINDOW_SECS: u64 = 300;

/// Longest token or proof.
pub const MAX_SEGMENT: usize = 1024;

/// This module's client id on the ledger's reply port.
pub const STATE_CLIENT: u8 = 8;

/// Admissions that wait for the ledger.
pub const MAX_PENDING_CLAIMS: usize = 8;

/// Longest subject echoed back.
pub const MAX_SUBJECT: usize = 128;

/// One admission that waits for the ledger's answer to its claim.
pub struct PendingClaim {
    pub live: bool,
    pub conn: u16,
    pub stream: u16,
    pub subject: Vec<u8>,
    pub state_corr: u32,
}

impl PendingClaim {
    pub open spec fn vacant(self) -> bool {
        &&& !self.live
        &&& self.conn == 0
        &&& self.stream == 0
        &&& self.subject@.len() == 0
        &&& self.state_corr == 0
    }

    pub fn zero() -> (r: Self)
        ensures
            r.vacant(),
    {
        PendingClaim { live: false, conn: 0, stream: 0, subject: Vec::new(), state_corr: 0 }
    }
}

/// Why a request is refused, told coarsely.
#[derive(Clone, Copy, Debug, PartialEq, Eq, Structural)]
pub enum Refusal {
    NoKey,
    Token,
    Proof,
    Assurance,
}

impl Refusal {
    pub open spec fn spec_status(self) -> u16 {
        match self {
            Refusal::NoKey => 503,
            Refusal::Token | Refusal::Proof => 401,
            Refusal::Assurance => 403,
        }
    }

    pub open spec fn spec_reason(self) -> &'static str {
        match self {
            Refusal::NoKey => "no verifying key",
            Refusal::Token => "invalid access token",
            Refusal::Proof => "invalid dpop proof",
            Refusal::Assurance => "insufficient authentication assurance",
        }
    }

    pub fn status(self) -> (r: u16)
        ensures
            r == self.spec_status(),
    {
        match self {
            Refusal::NoKey => 503,
            Refusal::Token | Refusal::Proof => 401,
            Refusal::Assurance => 403,
        }
    }

    pub fn reason(self) -> (r: &'static str)
        ensures
            r == self.spec_reason(),
    {
        match self {
            Refusal::NoKey => "no verifying key",
            Refusal::Token => "invalid access token",
            Refusal::Proof => "invalid dpop proof",
            Refusal::Assurance => "insufficient authentication assurance",
        }
    }
}

/// What is handed to the check of a token and its proof.
pub struct Presentation {
    pub conn: u16,
    pub stream: u16,
    pub token: Vec<u8>,
    pub proof: Vec<u8>,
    pub method: &'static str,
    pub uri: Vec<u8>,
    pub now: u64,
}

impl Presentation {
    /// What a request presents.
    pub open spec fn presents(self, r: Seq<u8>) -> bool {
        &&& self.conn == http::le16(r, 0)
        &&& self.stream == http::le16(r, 2)
        &&& self.token@ == presented_token(http::headers(r))
        &&& self.proof@ == presented_proof(http::headers(r))
        &&& self.method == method_word(r[4])
        &&& self.uri@ == http::path(r)
    }

    pub open spec fn shown(self) -> device_auth::Shown {
        device_auth::Shown {
            credential: self.token@,
            proof: self.proof@,
            method: bytes::text(self.method),
            uri: self.uri@,
        }
    }

    /// Check the token against the held keys, and the proof against the token, the request and
    /// the window.
    pub fn check(&self, keys: &Verifier, window: &mut ReplayWindow) -> (r: Result<Held, AuthError>)
        requires
            old(window).wf(),
            self.now + PROOF_WINDOW_SECS <= u64::MAX,
        ensures
            final(window).wf(),
            device_auth::authenticated(
                device_auth::named_key(keys.keys@, self.token@, self.now),
                *old(window),
                *final(window),
                self.shown(),
                device_auth::token_policy(),
                self.now,
                r,
            ),
    {
        let issuer = select_issuer(keys, self.token.as_slice(), self.now);
        let p = device_auth::Presentation {
            credential: self.token.as_slice(),
            proof: self.proof.as_slice(),
            method: self.method.as_bytes(),
            uri: self.uri.as_slice(),
        };
        authenticate(&issuer, window, &p, &access_tokens(), self.now)
    }
}

/// What an admitted request is answered with, and the proof that is claimed for it.
pub struct Admitted {
    pub subject: Vec<u8>,
    pub proof_id: [u8; 32],
}

pub enum GateStep {
    /// Too short to name a connection.
    Ignore,
    Reply(Reply),
    Authenticate(Presentation),
}

/// A claim of a proof's identifier that is to be sent to the ledger.
pub struct Claim {
    pub index: usize,
    pub entry: PendingClaim,
    pub replay_key: Vec<u8>,
    pub expires_at: u64,
}

pub struct Gate {
    pub ledger_wired: bool,
    pub pending: Vec<PendingClaim>,
    pub next_corr: u32,
    pub min_level: AssuranceLevel,
    /// Seconds; zero is no limit.
    pub max_auth_age: u32,
    pub gate_admitted: u32,
    pub gate_no_key: u32,
    pub gate_bad_token: u32,
    pub gate_bad_proof: u32,
    pub gate_not_bound: u32,
    pub gate_assurance: u32,
    pub gate_replayed_ledger: u32,
    pub gate_state_unavailable: u32,
}

/// The word of a method byte; none for a byte that names no method.
pub open spec fn method_word(method: u8) -> &'static str {
    if method == 1 {
        "GET"
    } else if method == 2 {
        "CONNECT"
    } else if method == 3 {
        "POST"
    } else if method == 4 {
        "HEAD"
    } else if method == 5 {
        "PUT"
    } else if method == 6 {
        "PATCH"
    } else if method == 7 {
        "DELETE"
    } else if method == 8 {
        "OPTIONS"
    } else {
        ""
    }
}

pub fn method_name(method: u8) -> (r: &'static str)
    ensures
        r == method_word(method),
{
    match method {
        1 => "GET",
        2 => "CONNECT",
        3 => "POST",
        4 => "HEAD",
        5 => "PUT",
        6 => "PATCH",
        7 => "DELETE",
        8 => "OPTIONS",
        _ => "",
    }
}

/// Where the first line of a header block ends: before its carriage return and line feed, or at
/// its end.
pub open spec fn line_end(block: Seq<u8>) -> int {
    if bytes::occurs(block, seq![13u8, 10u8]) {
        choose|i: int| bytes::first_occurrence(block, seq![13u8, 10u8], i)
    } else {
        block.len() as int
    }
}

/// The value of the first header line named `name`, whatever the case of its letters.
pub open spec fn header(block: Seq<u8>, name: Seq<u8>) -> Option<Seq<u8>>
    decreases block.len(),
{
    if block.len() == 0 {
        None
    } else {
        let end = line_end(block);
        let line = block.take(end);
        let colon = bytes::position_of(line, 58) as int;
        if colon < line.len() && bytes::same_letters(line.take(colon), name) {
            Some(bytes::trimmed(line.skip(colon + 1)))
        } else if 0 <= end && end + 2 <= block.len() {
            header(block.skip(end + 2), name)
        } else {
            None
        }
    }
}

/// The value of `name` in a CRLF header block.
pub fn header_value<'a>(block: &'a [u8], name: &[u8]) -> (r: Option<&'a [u8]>)
    ensures
        match r {
            Some(v) => header(block@, name@) == Some(v@),
            None => header(block@, name@) is None,
        },
{
    let crlf: [u8; 2] = [13, 10];
    assert(crlf@ =~= seq![13u8, 10u8]);
    let total: usize = block.len();
    let mut at: usize = 0;
    assert(block@.skip(0) =~= block@);
    while at < total
        invariant
            at <= total == block@.len(),
            crlf@ == seq![13u8, 10u8],
            header(block@, name@) == header(block@.skip(at as int), name@),
        decreases total - at,
    {
        let rest = slice_subrange(block, at, total);
        assert(rest@ =~= block@.skip(at as int));
        let end: usize = match find(rest, crlf.as_slice()) {
            Some(i) => {
                proof {
                    let k = choose|k: int| bytes::first_occurrence(rest@, seq![13u8, 10u8], k);
                    bytes::lemma_first_unique(rest@, seq![13u8, 10u8], i as int, k);
                    assert(bytes::occurs_at(rest@, seq![13u8, 10u8], i as int));
                }
                i
            },
            None => rest.len(),
        };
        assert(end == line_end(rest@));
        let line = slice_subrange(rest, 0, end);
        assert(line@ =~= rest@.take(end as int));
        let colon: usize = position(line, 58);
        if colon < line.len() {
            let field = slice_subrange(line, 0, colon);
            assert(field@ =~= line@.take(colon as int));
            if equal_letters(field, name) {
                let value = slice_subrange(line, colon + 1, line.len());
                assert(value@ =~= line@.skip(colon as int + 1));
                return Some(trim(value));
            }
        }
        if rest.len() - end < 2 {
            return None;
        }
        at = at + end + 2;
        assert(rest@.skip(end as int + 2) =~= block@.skip(at as int));
    }
    assert(block@.skip(at as int) =~= Seq::<u8>::empty());
    None
}

/// What follows the scheme of an authorization value, where the scheme is DPoP.
pub open spec fn dpop_credential(value: Seq<u8>) -> Option<Seq<u8>> {
    let space = bytes::position_of(value, 32) as int;
    if space < value.len() && bytes::same_letters(value.take(space), bytes::text("dpop")) {
        Some(bytes::trimmed(value.skip(space + 1)))
    } else {
        None
    }
}

/// `DPoP <token>` without the scheme. Another scheme is refused, never admitted unbound.
pub fn strip_dpop_scheme(value: &[u8]) -> (r: Option<&[u8]>)
    ensures
        match r {
            Some(v) => dpop_credential(value@) == Some(v@),
            None => dpop_credential(value@) is None,
        },
{
    let space: usize = position(value, 32);
    if space >= value.len() {
        return None;
    }
    let scheme = slice_subrange(value, 0, space);
    assert(scheme@ =~= value@.take(space as int));
    if !equal_letters(scheme, "dpop".as_bytes()) {
        return None;
    }
    let rest = slice_subrange(value, space + 1, value.len());
    assert(rest@ =~= value@.skip(space as int + 1));
    Some(trim(rest))
}

/// A copy of `value`, unless it is empty or longer than `limit`.
pub fn copy_into(value: &[u8], limit: usize) -> (r: Option<Vec<u8>>)
    ensures
        match r {
            Some(v) => 0 < value@.len() <= limit && v@ == value@,
            None => value@.len() == 0 || value@.len() > limit,
        },
{
    if value.len() == 0 || value.len() > limit {
        None
    } else {
        Some(vstd::slice::slice_to_vec(value))
    }
}

/// The token that a header block presents: nothing where it is absent, empty or too long.
pub open spec fn presented_token(block: Seq<u8>) -> Seq<u8> {
    match header(block, bytes::text("authorization")) {
        Some(value) => match dpop_credential(value) {
            Some(v) => bytes::fitting(v, 1024),
            None => Seq::empty(),
        },
        None => Seq::empty(),
    }
}

pub open spec fn presented_proof(block: Seq<u8>) -> Seq<u8> {
    match header(block, bytes::text("dpop")) {
        Some(v) => bytes::fitting(v, 1024),
        None => Seq::empty(),
    }
}

fn read_token(block: &[u8]) -> (r: Option<Vec<u8>>)
    ensures
        match r {
            Some(v) => v@ == presented_token(block@) && v@.len() > 0,
            None => presented_token(block@).len() == 0,
        },
{
    match header_value(block, "authorization".as_bytes()) {
        Some(value) => match strip_dpop_scheme(value) {
            Some(v) => copy_into(v, MAX_SEGMENT),
            None => None,
        },
        None => None,
    }
}

fn read_proof(block: &[u8]) -> (r: Option<Vec<u8>>)
    ensures
        match r {
            Some(v) => v@ == presented_proof(block@) && v@.len() > 0,
            None => presented_proof(block@).len() == 0,
        },
{
    match header_value(block, "dpop".as_bytes()) {
        Some(v) => copy_into(v, MAX_SEGMENT),
        None => None,
    }
}

/// The header block of a request lies inside it.
pub open spec fn headers_complete(r: Seq<u8>) -> bool {
    http::body_at(r) <= r.len()
}

/// Why a request is refused before its token is checked.
pub open spec fn early_refusal(r: Seq<u8>, keyset_empty: bool, now: Option<u64>) -> Option<Refusal> {
    if keyset_empty {
        Some(Refusal::NoKey)
    } else if !headers_complete(r) {
        Some(Refusal::Token)
    } else if presented_token(http::headers(r)).len() == 0 {
        Some(Refusal::Token)
    } else if presented_proof(http::headers(r)).len() == 0 {
        Some(Refusal::Proof)
    } else if now is None {
        Some(Refusal::Proof)
    } else {
        None
    }
}

/// The evidence that a token's own methods carry.
pub open spec fn evidence_carried(json: Seq<u8>, e: Evidence) -> bool {
    let names = assurance::amr(json);
    &&& forall|m: AuthMethod| #[trigger] e.has(m) == names.contains(m.name())
    &&& e.binding == if names.contains(bytes::text("hwk")) {
        KeyBinding::Hardware
    } else if names.contains(bytes::text("swk")) {
        KeyBinding::Software
    } else {
        KeyBinding::Unstated
    }
    &&& e.user_verified == names.contains(bytes::text("user"))
    &&& e.phishing_resistant == names.contains(bytes::text("webauthn"))
    &&& e.auth_time == claims::number_or(json, bytes::text("auth_time"), 0)
}

pub fn evidence_from(token_json: &[u8]) -> (r: Evidence)
    ensures
        evidence_carried(token_json@, r),
{
    let auth_time: u64 = claims::claim_number_or(token_json, "auth_time".as_bytes(), 0);
    let start = Evidence::at(auth_time);
    proof {
        assurance::amr_order_does_not_matter(start, assurance::amr(token_json@));
    }
    with_amr(start, token_json)
}

/// A token meets the floor: it claims no more than its methods support, it claims at least the
/// least level where one above the lowest is asked for, and it is no older than the limit where
/// there is one. A claim that the token does not make meets no demand.
pub open spec fn meets_floor(
    json: Seq<u8>,
    supports: bool,
    min_level: AssuranceLevel,
    max_auth_age: u32,
    now: u64,
) -> bool {
    let claimed = assurance::claimed_level(json);
    let auth_time = claims::number_claim(json, bytes::text("auth_time"));
    &&& claimed is Some ==> supports
    &&& min_level.rank() > 1 ==> claimed is Some && claimed->0.rank() >= min_level.rank()
    &&& max_auth_age > 0 ==> auth_time is Some && now - auth_time->0 <= max_auth_age
}

/// The reply is plain text.
pub open spec fn plain(reply: Reply, conn: nat, stream: nat, status: u16, body: Seq<u8>) -> bool {
    &&& reply.conn == conn
    &&& reply.stream == stream
    &&& reply.status == status
    &&& reply.content_type == "text/plain"
    &&& reply.body@ == body
}

fn plain_reply(conn: u16, stream: u16, status: u16, body: &[u8]) -> (r: Reply)
    ensures
        plain(r, conn as nat, stream as nat, status, body@),
{
    Reply {
        conn,
        stream,
        status,
        content_type: "text/plain",
        body: vstd::slice::slice_to_vec(body),
    }
}

/// The first entry from `i` on that waits for the ledger's reply `corr`.
pub open spec fn awaiting_from(pending: Seq<PendingClaim>, corr: u32, i: int) -> Option<int>
    decreases pending.len() - i,
{
    if i < 0 || i >= pending.len() {
        None
    } else if pending[i].live && pending[i].state_corr == corr {
        Some(i)
    } else {
        awaiting_from(pending, corr, i + 1)
    }
}

impl Gate {
    pub open spec fn wf(self) -> bool {
        self.pending@.len() == 8
    }

    pub open spec fn same_policy(self, other: Self) -> bool {
        &&& self.ledger_wired == other.ledger_wired
        &&& self.min_level == other.min_level
        &&& self.max_auth_age == other.max_auth_age
    }

    pub open spec fn same_counters(self, other: Self) -> bool {
        &&& self.gate_admitted == other.gate_admitted
        &&& self.gate_no_key == other.gate_no_key
        &&& self.gate_bad_token == other.gate_bad_token
        &&& self.gate_bad_proof == other.gate_bad_proof
        &&& self.gate_not_bound == other.gate_not_bound
        &&& self.gate_assurance == other.gate_assurance
        &&& self.gate_replayed_ledger == other.gate_replayed_ledger
        &&& self.gate_state_unavailable == other.gate_state_unavailable
    }

    /// One refusal was counted since `other`. A proof by another key than the token's is counted
    /// apart as well.
    pub open spec fn refused_since(self, other: Self, why: Refusal, unbound: bool) -> bool {
        &&& self.gate_no_key == if why == Refusal::NoKey {
            keys::counted(other.gate_no_key)
        } else {
            other.gate_no_key
        }
        &&& self.gate_bad_token == if why == Refusal::Token {
            keys::counted(other.gate_bad_token)
        } else {
            other.gate_bad_token
        }
        &&& self.gate_bad_proof == if why == Refusal::Proof {
            keys::counted(other.gate_bad_proof)
        } else {
            other.gate_bad_proof
        }
        &&& self.gate_assurance == if why == Refusal::Assurance {
            keys::counted(other.gate_assurance)
        } else {
            other.gate_assurance
        }
        &&& self.gate_not_bound == if unbound {
            keys::counted(other.gate_not_bound)
        } else {
            other.gate_not_bound
        }
        &&& self.gate_admitted == other.gate_admitted
        &&& self.gate_replayed_ledger == other.gate_replayed_ledger
        &&& self.gate_state_unavailable == other.gate_state_unavailable
    }

    /// A gate with nothing waiting. `min_acr` is the floor as its word; a word that names no
    /// level leaves the lowest.
    pub fn module_new(ledger_wired: bool, min_acr: &[u8], max_auth_age: u32) -> (r: Self)
        ensures
            r.wf(),
            forall|i: int| 0 <= i < 8 ==> (#[trigger] r.pending@[i]).vacant(),
            r.ledger_wired == ledger_wired,
            r.next_corr == 1,
            r.min_level == match assurance::level_named(min_acr@) {
                Some(level) => level,
                None => AssuranceLevel::Aal1,
            },
            r.max_auth_age == max_auth_age,
            r.gate_admitted == 0,
            r.gate_no_key == 0,
            r.gate_bad_token == 0,
            r.gate_bad_proof == 0,
            r.gate_not_bound == 0,
            r.gate_assurance == 0,
            r.gate_replayed_ledger == 0,
            r.gate_state_unavailable == 0,
    {
        let mut pending: Vec<PendingClaim> = Vec::new();
        while pending.len() < MAX_PENDING_CLAIMS
            invariant
                pending@.len() <= 8,
                forall|i: int| 0 <= i < pending@.len() ==> (#[trigger] pending@[i]).vacant(),
            decreases 8 - pending@.len(),
        {
            pending.push(PendingClaim::zero());
        }
        Gate {
            ledger_wired,
            pending,
            next_corr: 1,
            min_level: match assurance::level_from(min_acr) {
                Some(level) => level,
                None => AssuranceLevel::Aal1,
            },
            max_auth_age,
            gate_admitted: 0,
            gate_no_key: 0,
            gate_bad_token: 0,
            gate_bad_proof: 0,
            gate_not_bound: 0,
            gate_assurance: 0,
            gate_replayed_ledger: 0,
            gate_state_unavailable: 0,
        }
    }

    fn refuse(&mut self, conn: u16, stream: u16, why: Refusal) -> (r: Reply)
        ensures
            plain(
                r,
                conn as nat,
                stream as nat,
                why.spec_status(),
                bytes::text(why.spec_reason()),
            ),
            final(self).refused_since(*old(self), why, false),
            final(self).pending == old(self).pending,
            final(self).next_corr == old(self).next_corr,
            final(self).same_policy(*old(self)),
    {
        match why {
            Refusal::NoKey => count(&mut self.gate_no_key),
            Refusal::Token => count(&mut self.gate_bad_token),
            Refusal::Proof => count(&mut self.gate_bad_proof),
            Refusal::Assurance => count(&mut self.gate_assurance),
        }
        plain_reply(conn, stream, why.status(), why.reason().as_bytes())
    }

    /// Decide one request up to the check of its token and proof. `now` is absent where no clock
    /// can be trusted.
    pub fn handle_request(&mut self, request: &[u8], keyset_empty: bool, now: Option<u64>) -> (r:
        GateStep)
        ensures
            final(self).pending == old(self).pending,
            final(self).next_corr == old(self).next_corr,
            final(self).same_policy(*old(self)),
            request@.len() < 12 ==> r is Ignore && final(self).same_counters(*old(self)),
            request@.len() >= 12 ==> match early_refusal(request@, keyset_empty, now) {
                Some(why) => {
                    &&& r matches GateStep::Reply(reply)
                    &&& plain(
                        reply,
                        http::le16(request@, 0),
                        http::le16(request@, 2),
                        why.spec_status(),
                        bytes::text(why.spec_reason()),
                    )
                    &&& final(self).refused_since(*old(self), why, false)
                },
                None => {
                    &&& final(self).same_counters(*old(self))
                    &&& r matches GateStep::Authenticate(p)
                    &&& p.presents(request@)
                    &&& now == Some(p.now)
                },
            },
    {
        let frame = match http::read_frame(request) {
            Some(f) => f,
            None => {
                return GateStep::Ignore;
            },
        };
        let (conn, stream) = (frame.conn, frame.stream);
        if keyset_empty {
            return GateStep::Reply(self.refuse(conn, stream, Refusal::NoKey));
        }
        let headers_at: usize = http::REQ_HDR + frame.path_len;
        let body_at: usize = headers_at + frame.headers_len;
        if body_at > request.len() {
            return GateStep::Reply(self.refuse(conn, stream, Refusal::Token));
        }
        let headers = slice_subrange(request, headers_at, body_at);
        let token = match read_token(headers) {
            Some(token) => token,
            None => {
                return GateStep::Reply(self.refuse(conn, stream, Refusal::Token));
            },
        };
        let proof = match read_proof(headers) {
            Some(proof) => proof,
            None => {
                return GateStep::Reply(self.refuse(conn, stream, Refusal::Proof));
            },
        };
        match now {
            Some(now) => GateStep::Authenticate(
                Presentation {
                    conn,
                    stream,
                    token,
                    proof,
                    method: method_name(frame.method),
                    uri: vstd::slice::slice_to_vec(
                        slice_subrange(request, http::REQ_HDR, headers_at),
                    ),
                    now,
                },
            ),
            None => GateStep::Reply(self.refuse(conn, stream, Refusal::Proof)),
        }
    }

    /// The assurance floor. `supports` says whether the token's evidence reaches the level that
    /// the token claims.
    pub fn check_assurance(&self, token_json: &[u8], supports: bool, now: u64) -> (r: bool)
        ensures
            r == meets_floor(token_json@, supports, self.min_level, self.max_auth_age, now),
    {
        let claimed = read_level(token_json);
        let auth_time = claim_u64(token_json, "auth_time".as_bytes());
        if claimed.is_some() && !supports {
            return false;
        }
        if self.min_level != AssuranceLevel::Aal1 {
            match claimed {
                Some(level) => {
                    if !level.reaches(self.min_level) {
                        return false;
                    }
                },
                None => {
                    return false;
                },
            }
        }
        if self.max_auth_age > 0 {
            match auth_time {
                Some(at) => {
                    if now.saturating_sub(at) > self.max_auth_age as u64 {
                        return false;
                    }
                },
                None => {
                    return false;
                },
            }
        }
        true
    }

    /// What a request comes to once its token and proof were checked: it is refused, or admitted
    /// as the token's subject.
    pub open spec fn judged(
        before: Self,
        after: Self,
        conn: u16,
        stream: u16,
        outcome: Result<Held, AuthError>,
        supports: bool,
        now: u64,
        r: Result<Admitted, Reply>,
    ) -> bool {
        match admission_refusal(before, outcome, supports, now) {
            Some(why) => {
                &&& r matches Err(reply)
                &&& plain(
                    reply,
                    conn as nat,
                    stream as nat,
                    why.spec_status(),
                    bytes::text(why.spec_reason()),
                )
                &&& after.refused_since(
                    before,
                    why,
                    outcome == Err::<Held, AuthError>(AuthError::NotBound),
                )
            },
            None => {
                &&& r matches Ok(admitted)
                &&& outcome matches Ok(held)
                &&& admitted.subject@ == bytes::clipped(
                    claims::text_or_empty(held.claims@, bytes::text("sub")),
                    128,
                )
                &&& admitted.proof_id == held.proof_id
                &&& after.same_counters(before)
            },
        }
    }

    /// The token and the proof were checked. What is admitted is the token's subject.
    pub fn admit_request(
        &mut self,
        conn: u16,
        stream: u16,
        outcome: Result<Held, AuthError>,
        supports: bool,
        now: u64,
    ) -> (r: Result<Admitted, Reply>)
        ensures
            final(self).pending == old(self).pending,
            final(self).next_corr == old(self).next_corr,
            final(self).same_policy(*old(self)),
            Self::judged(*old(self), *final(self), conn, stream, outcome, supports, now, r),
    {
        let held = match outcome {
            Ok(held) => held,
            Err(AuthError::NotBound) => {
                let reply = self.refuse(conn, stream, Refusal::Proof);
                count(&mut self.gate_not_bound);
                return Err(reply);
            },
            Err(AuthError::Proof) | Err(AuthError::Replay) => {
                return Err(self.refuse(conn, stream, Refusal::Proof));
            },
            Err(_) => {
                return Err(self.refuse(conn, stream, Refusal::Token));
            },
        };
        let json = held.claims.as_slice();
        if !self.check_assurance(json, supports, now) {
            return Err(self.refuse(conn, stream, Refusal::Assurance));
        }
        let subject = copy_field(claim_or_empty(json, "sub".as_bytes()), MAX_SUBJECT);
        Ok(Admitted { subject, proof_id: held.proof_id })
    }

    /// Answer an admission where no ledger is wired: the local replay window stands alone.
    pub fn admit_locally(&mut self, conn: u16, stream: u16, subject: &[u8]) -> (r: Reply)
        ensures
            plain(r, conn as nat, stream as nat, 200, subject@),
            final(self).gate_admitted == keys::counted(old(self).gate_admitted),
            (Gate { gate_admitted: old(self).gate_admitted, ..*final(self) }).same_counters(
                *old(self),
            ),
            final(self).pending == old(self).pending,
            final(self).next_corr == old(self).next_corr,
            final(self).same_policy(*old(self)),
    {
        count(&mut self.gate_admitted);
        plain_reply(conn, stream, 200, subject)
    }

    fn unavailable(&mut self, conn: u16, stream: u16) -> (r: Reply)
        ensures
            plain(r, conn as nat, stream as nat, 503, bytes::text("state_unavailable")),
            final(self).gate_state_unavailable == keys::counted(old(self).gate_state_unavailable),
            (Gate {
                gate_state_unavailable: old(self).gate_state_unavailable,
                ..*final(self)
            }).same_counters(*old(self)),
            final(self).pending == old(self).pending,
            final(self).next_corr == old(self).next_corr,
            final(self).same_policy(*old(self)),
    {
        count(&mut self.gate_state_unavailable);
        plain_reply(conn, stream, 503, "state_unavailable".as_bytes())
    }

    /// The claim of an admission, for the first free place.
    pub open spec fn claims_for(
        self,
        c: Claim,
        conn: u16,
        stream: u16,
        subject: Seq<u8>,
        proof_id: Seq<u8>,
        now: u64,
    ) -> bool {
        &&& c.index < 8
        &&& !self.pending@[c.index as int].live
        &&& forall|j: int| 0 <= j < c.index ==> (#[trigger] self.pending@[j]).live
        &&& c.entry.live
        &&& c.entry.conn == conn
        &&& c.entry.stream == stream
        &&& c.entry.subject@ == bytes::clipped(subject, 128)
        &&& c.entry.state_corr == self.next_corr
        &&& c.replay_key@ == base64::encoded(proof_id)
        &&& c.expires_at == now + PROOF_WINDOW_SECS
    }

    /// Claim the proof of an admission in the ledger before anything is admitted. A full table,
    /// or a clock that cannot be trusted, is a refusal.
    pub fn claim_and_pend(
        &mut self,
        conn: u16,
        stream: u16,
        subject: &[u8],
        proof_id: &[u8; 32],
        now: Option<u64>,
    ) -> (r: Result<Claim, Reply>)
        requires
            old(self).wf(),
            now matches Some(t) ==> t + PROOF_WINDOW_SECS <= u64::MAX,
        ensures
            final(self).wf(),
            final(self).pending == old(self).pending,
            final(self).same_policy(*old(self)),
            r is Ok <==> now is Some && exists|i: int|
                0 <= i < 8 && !(#[trigger] old(self).pending@[i]).live,
            match r {
                Ok(c) => {
                    &&& old(self).claims_for(c, conn, stream, subject@, proof_id@, now->0)
                    &&& final(self).next_corr == keys::next_correlation(old(self).next_corr)
                    &&& final(self).same_counters(*old(self))
                },
                Err(reply) => {
                    &&& plain(
                        reply,
                        conn as nat,
                        stream as nat,
                        503,
                        bytes::text("state_unavailable"),
                    )
                    &&& final(self).next_corr == old(self).next_corr
                    &&& final(self).gate_state_unavailable == keys::counted(
                        old(self).gate_state_unavailable,
                    )
                    &&& (Gate {
                        gate_state_unavailable: old(self).gate_state_unavailable,
                        ..*final(self)
                    }).same_counters(*old(self))
                },
            },
    {
        let mut index: usize = 0;
        while index < self.pending.len() && self.pending[index].live
            invariant
                index <= self.pending@.len(),
                forall|j: int| 0 <= j < index ==> (#[trigger] self.pending@[j]).live,
            decreases self.pending@.len() - index,
        {
            index = index + 1;
        }
        if index >= self.pending.len() {
            return Err(self.unavailable(conn, stream));
        }
        assert(!old(self).pending@[index as int].live);
        let now: u64 = match now {
            Some(now) => now,
            None => {
                return Err(self.unavailable(conn, stream));
            },
        };
        let state_corr: u32 = self.next_corr;
        self.next_corr = advance_correlation(self.next_corr);
        Ok(
            Claim {
                index,
                entry: PendingClaim {
                    live: true,
                    conn,
                    stream,
                    subject: copy_field(subject, MAX_SUBJECT),
                    state_corr,
                },
                replay_key: base64::encode(proof_id.as_slice()),
                expires_at: now + PROOF_WINDOW_SECS,
            },
        )
    }

    /// The claim was sent, or could not be.
    pub fn claim_sent(&mut self, index: usize, entry: PendingClaim, sent: bool) -> (r: Option<Reply>)
        requires
            old(self).wf(),
            index < 8,
        ensures
            final(self).wf(),
            final(self).next_corr == old(self).next_corr,
            final(self).same_policy(*old(self)),
            sent ==> r is None && final(self).same_counters(*old(self)) && final(self).pending@
                == old(self).pending@.update(index as int, entry),
            !sent ==> final(self).pending == old(self).pending && (r matches Some(reply) && plain(
                reply,
                entry.conn as nat,
                entry.stream as nat,
                503,
                bytes::text("state_unavailable"),
            )) && final(self).gate_state_unavailable == keys::counted(
                old(self).gate_state_unavailable,
            ) && (Gate {
                gate_state_unavailable: old(self).gate_state_unavailable,
                ..*final(self)
            }).same_counters(*old(self)),
    {
        if sent {
            self.pending[index] = entry;
            None
        } else {
            Some(self.unavailable(entry.conn, entry.stream))
        }
    }

    fn awaiting(&self, corr: u32) -> (r: Option<usize>)
        ensures
            match r {
                Some(i) => awaiting_from(self.pending@, corr, 0) == Some(i as int) && i
                    < self.pending@.len(),
                None => awaiting_from(self.pending@, corr, 0) is None,
            },
    {
        let mut i: usize = 0;
        while i < self.pending.len()
            invariant
                i <= self.pending@.len(),
                awaiting_from(self.pending@, corr, 0) == awaiting_from(self.pending@, corr, i as int),
            decreases self.pending@.len() - i,
        {
            if self.pending[i].live && self.pending[i].state_corr == corr {
                return Some(i);
            }
            i = i + 1;
        }
        None
    }

    /// One reply of the ledger: the admission that waited for it is answered, and admitted only
    /// where the claim was fresh.
    pub fn drain_claims(&mut self, rep: &StateReply) -> (r: Option<Reply>)
        requires
            old(self).wf(),
        ensures
            final(self).wf(),
            final(self).next_corr == old(self).next_corr,
            final(self).same_policy(*old(self)),
            r is Some <==> rep.client == STATE_CLIENT && awaiting_from(
                old(self).pending@,
                rep.correlation,
                0,
            ) is Some,
            r is None ==> *final(self) == *old(self),
            r matches Some(reply) ==> {
                let i = awaiting_from(old(self).pending@, rep.correlation, 0)->0;
                let entry = old(self).pending@[i];
                &&& final(self).pending@[i].vacant()
                &&& forall|j: int|
                    0 <= j < 8 && j != i ==> #[trigger] final(self).pending@[j]
                        == old(self).pending@[j]
                &&& claim_settled(*old(self), *final(self), entry, rep.status, reply)
            },
    {
        if rep.client != STATE_CLIENT {
            return None;
        }
        let index: usize = match self.awaiting(rep.correlation) {
            Some(index) => index,
            None => {
                return None;
            },
        };
        let mut entry = PendingClaim::zero();
        core::mem::swap(&mut entry, &mut self.pending[index]);
        match replay_claim_result(rep.status) {
            ReplayClaim::Fresh => {
                count(&mut self.gate_admitted);
                Some(plain_reply(entry.conn, entry.stream, 200, entry.subject.as_slice()))
            },
            ReplayClaim::Replayed => {
                count(&mut self.gate_replayed_ledger);
                Some(plain_reply(entry.conn, entry.stream, 401, "proof_replayed".as_bytes()))
            },
            ReplayClaim::Unavailable => Some(self.unavailable(entry.conn, entry.stream)),
        }
    }
}

/// Why a request is refused once its token and proof were checked.
pub open spec fn admission_refusal(
    gate: Gate,
    outcome: Result<Held, AuthError>,
    supports: bool,
    now: u64,
) -> Option<Refusal> {
    match outcome {
        Err(e) => match e {
            AuthError::NotBound | AuthError::Proof | AuthError::Replay => Some(Refusal::Proof),
            AuthError::Credential | AuthError::Overflow => Some(Refusal::Token),
        },
        Ok(held) => if meets_floor(held.claims@, supports, gate.min_level, gate.max_auth_age, now) {
            None
        } else {
            Some(Refusal::Assurance)
        },
    }
}

/// How a claim that the ledger answered is settled.
pub open spec fn claim_settled(
    before: Gate,
    after: Gate,
    entry: PendingClaim,
    status: Status,
    reply: Reply,
) -> bool {
    match ledger::claim_result(status) {
        ReplayClaim::Fresh => {
            &&& plain(reply, entry.conn as nat, entry.stream as nat, 200, entry.subject@)
            &&& after.gate_admitted == keys::counted(before.gate_admitted)
            &&& (Gate { gate_admitted: before.gate_admitted, ..after }).same_counters(before)
        },
        ReplayClaim::Replayed => {
            &&& plain(
                reply,
                entry.conn as nat,
                entry.stream as nat,
                401,
                bytes::text("proof_replayed"),
            )
            &&& after.gate_replayed_ledger == keys::counted(before.gate_replayed_ledger)
            &&& (Gate { gate_replayed_ledger: before.gate_replayed_ledger, ..after }).same_counters(
                before,
            )
        },
        ReplayClaim::Unavailable => {
            &&& plain(
                reply,
                entry.conn as nat,
                entry.stream as nat,
                503,
                bytes::text("state_unavailable"),
            )
            &&& after.gate_state_unavailable == keys::counted(before.gate_state_unavailable)
            &&& (Gate {
                gate_state_unavailable: before.gate_state_unavailable,
                ..after
            }).same_counters(before)
        },
    }
}

/// Losing the ledger is no way to be admitted: a wired claim that did not succeed is never
/// answered with 200.
pub proof fn unclaimed_is_not_admitted(
    before: Gate,
    after: Gate,
    entry: PendingClaim,
    status: Status,
    reply: Reply,
)
    requires
        claim_settled(before, after, entry, status, reply),
        status != Status::Success,
    ensures
        reply.status != 200,
        after.gate_admitted == before.gate_admitted,
{
}

/// Five things hold of a request that is admitted: its token was signed by the key that it names
/// and is inside its window; its proof is signed by the key that it carries; it is for this
/// request, fresh, and was not seen before; its key is the one that the token is bound to; and
/// the token meets the floor.
pub proof fn five_things_hold(
    gate: Gate,
    keys: Seq<crate::token_verify::VerifyKey>,
    before: ReplayWindow,
    after: ReplayWindow,
    p: Presentation,
    supports: bool,
    held: Held,
)
    requires
        p.now + PROOF_WINDOW_SECS <= u64::MAX,
        device_auth::authenticated(
            device_auth::named_key(keys, p.token@, p.now),
            before,
            after,
            p.shown(),
            device_auth::token_policy(),
            p.now,
            Ok(held),
        ),
        admission_refusal(gate, Ok(held), supports, p.now) is None,
    ensures
        device_auth::named_key(keys, p.token@, p.now) matches Some(key)
            && crate::token_verify::signature_holds(p.token@, key.suite, key.public)
            && device_auth::in_window(held.claims@, p.now, 60),
        device_auth::proof_signed(p.proof@),
        device_auth::proof_is_for(
            device_auth::payload(p.proof@)->0,
            bytes::text(p.method),
            p.uri@,
            device_auth::token_policy(),
            p.now,
        ),
        !before.remembers(held.proof_id@, p.now),
        claims::text_claim(held.claims@, bytes::text("jkt")) == Some(
            crate::jwk::thumbprint(device_auth::proof_key(p.proof@)->0),
        ),
        meets_floor(held.claims@, supports, gate.min_level, gate.max_auth_age, p.now),
{
    device_auth::authenticated_means_bound(
        device_auth::named_key(keys, p.token@, p.now),
        before,
        after,
        p.shown(),
        device_auth::token_policy(),
        p.now,
        held,
    );
}

/// Whoever is admitted holds a token that claims a level at least as high as the least level that
/// is asked for: where that is the second, the word for the second or the third, and where it is
/// the third, the word for the third. A level that is claimed is one that the methods support. And where
/// authentication may only be so old, the token says when it was, and it is no older.
pub proof fn an_admitted_token_reaches_the_floor(
    before: Gate,
    after: Gate,
    conn: u16,
    stream: u16,
    outcome: Result<Held, AuthError>,
    supports: bool,
    now: u64,
    admitted: Admitted,
)
    requires
        Gate::judged(before, after, conn, stream, outcome, supports, now, Ok(admitted)),
    ensures
        outcome matches Ok(held) && ({
            let acr = claims::text_claim(held.claims@, bytes::text("acr"));
            let names = acr == Some(bytes::text("aal1")) || acr == Some(bytes::text("aal2")) || acr
                == Some(bytes::text("aal3"));
            &&& before.min_level == AssuranceLevel::Aal2 ==> acr == Some(bytes::text("aal2")) || acr
                == Some(bytes::text("aal3"))
            &&& before.min_level == AssuranceLevel::Aal3 ==> acr == Some(bytes::text("aal3"))
            &&& names ==> supports
            &&& before.max_auth_age > 0 ==> (claims::number_claim(
                held.claims@,
                bytes::text("auth_time"),
            ) matches Some(at) && now <= at + before.max_auth_age)
            &&& admitted.proof_id == held.proof_id
            &&& match claims::text_claim(held.claims@, bytes::text("sub")) {
                Some(sub) => if sub.len() <= 128 {
                    admitted.subject@ == sub
                } else {
                    admitted.subject@ == sub.take(128)
                },
                None => admitted.subject@.len() == 0,
            }
        }),
{
    lemma_levels_differ();
}

/// A good presentation of a token that reaches the floor is admitted, and one that does not is
/// answered with 403: a level below the least one, a claim that the methods do not support, an
/// authentication that is too old, or none of these where one is asked for.
pub proof fn who_falls_short_is_refused(
    before: Gate,
    after: Gate,
    conn: u16,
    stream: u16,
    held: Held,
    supports: bool,
    now: u64,
    r: Result<Admitted, Reply>,
)
    requires
        Gate::judged(before, after, conn, stream, Ok(held), supports, now, r),
    ensures
        ({
            let acr = claims::text_claim(held.claims@, bytes::text("acr"));
            let names = acr == Some(bytes::text("aal1")) || acr == Some(bytes::text("aal2")) || acr
                == Some(bytes::text("aal3"));
            let at = claims::number_claim(held.claims@, bytes::text("auth_time"));
            let short = (names && !supports) || (before.min_level == AssuranceLevel::Aal2 && acr
                != Some(bytes::text("aal2")) && acr != Some(bytes::text("aal3"))) || (
            before.min_level == AssuranceLevel::Aal3 && acr != Some(bytes::text("aal3"))) || (
            before.max_auth_age > 0 && (at is None || now > at->0 + before.max_auth_age));
            &&& short ==> (r matches Err(reply) && reply.status == 403 && reply.body@ == bytes::text(
                "insufficient authentication assurance",
            ) && reply.conn == conn && reply.stream == stream)
            &&& !short ==> r is Ok
        }),
{
    lemma_levels_differ();
}

proof fn lemma_levels_differ()
    ensures
        bytes::text("aal1") != bytes::text("aal2"),
        bytes::text("aal1") != bytes::text("aal3"),
        bytes::text("aal2") != bytes::text("aal3"),
{
    reveal_strlit("aal1");
    reveal_strlit("aal2");
    reveal_strlit("aal3");
    assert("aal1".is_ascii() && "aal2".is_ascii() && "aal3".is_ascii());
    assert(bytes::text("aal1")[3] == 49 && bytes::text("aal2")[3] == 50 && bytes::text("aal3")[3]
        == 51);
}

/// A presentation that is not good is refused, and the answer says whether the token or the proof
/// is at fault. Nobody is admitted by it.
pub proof fn a_bad_presentation_is_refused(
    before: Gate,
    after: Gate,
    conn: u16,
    stream: u16,
    why: AuthError,
    supports: bool,
    now: u64,
    r: Result<Admitted, Reply>,
)
    requires
        Gate::judged(before, after, conn, stream, Err(why), supports, now, r),
    ensures
        r matches Err(reply) && reply.status == 401 && reply.conn == conn && reply.stream == stream
            && reply.body@ == (if why == AuthError::Credential || why == AuthError::Overflow {
            bytes::text("invalid access token")
        } else {
            bytes::text("invalid dpop proof")
        }),
        after.gate_admitted == before.gate_admitted,
{
}

/// A header is found under its name in any case: the value of the first line so named, trimmed, and
/// a line of another name is passed over.
pub proof fn a_line_is_found_by_its_name(
    key: Seq<u8>,
    value: Seq<u8>,
    rest: Seq<u8>,
    name: Seq<u8>,
)
    requires
        forall|i: int| 0 <= i < key.len() ==> #[trigger] key[i] != 58 && key[i] != 13,
        forall|i: int| 0 <= i < value.len() ==> #[trigger] value[i] != 13,
    ensures
        ({
            let block = key + seq![58u8] + value + seq![13u8, 10u8] + rest;
            let small = |c: u8|
                if 65 <= c <= 90 {
                    (c + 32) as u8
                } else {
                    c
                };
            let same = key.len() == name.len() && forall|i: int|
                0 <= i < key.len() ==> small(#[trigger] key[i]) == small(name[i]);
            &&& same ==> header(block, name) == Some(bytes::trimmed(value))
            &&& !same ==> header(block, name) == header(rest, name)
            &&& header(Seq::<u8>::empty(), name) is None
        }),
{
    let block = key + seq![58u8] + value + seq![13u8, 10u8] + rest;
    let end = (key.len() + 1 + value.len()) as int;
    let crlf = seq![13u8, 10u8];
    assert forall|j: int| 0 <= j < end implies #[trigger] block[j] != 13 by {
        if j < key.len() {
            assert(block[j] == key[j]);
        } else if j > key.len() {
            assert(block[j] == value[j - key.len() - 1]);
        }
    }
    assert(block.subrange(end, end + 2) =~= crlf);
    assert(bytes::occurs_at(block, crlf, end));
    assert forall|j: int| 0 <= j < end implies !#[trigger] bytes::occurs_at(block, crlf, j) by {
        if bytes::occurs_at(block, crlf, j) {
            assert(block.subrange(j, j + 2)[0] == block[j]);
            assert(crlf[0] == 13);
        }
    }
    assert(bytes::first_occurrence(block, crlf, end));
    assert(bytes::occurs(block, crlf));
    bytes::lemma_first_unique(
        block,
        crlf,
        end,
        choose|i: int| bytes::first_occurrence(block, crlf, i),
    );
    assert(line_end(block) == end);
    let line = block.take(end);
    assert forall|j: int| 0 <= j < key.len() implies #[trigger] line[j] != 58 by {
        assert(line[j] == key[j]);
    }
    bytes::lemma_position_unique(line, 58, key.len() as int);
    assert(line.take(key.len() as int) =~= key);
    assert(line.skip(key.len() as int + 1) =~= value);
    assert(block.skip(end + 2) =~= rest);
    assert(bytes::same_letters(key, name) <==> key.len() == name.len() && forall|i: int|
        0 <= i < key.len() ==> bytes::lower(#[trigger] key[i]) == bytes::lower(name[i]));
}

/// What is checked of a request is what it presents: the token behind `DPoP `, the whole proof, the
/// word of its method and its path, for the connection that it came on.
pub proof fn what_is_checked_was_presented(
    p: Presentation,
    request: Seq<u8>,
    scheme: Seq<u8>,
    token: Seq<u8>,
    proof_text: Seq<u8>,
)
    requires
        p.presents(request),
        header(http::headers(request), bytes::text("authorization")) == Some(
            scheme + seq![32u8] + token,
        ),
        header(http::headers(request), bytes::text("dpop")) == Some(proof_text),
        forall|i: int| 0 <= i < scheme.len() ==> #[trigger] scheme[i] != 32,
        bytes::trimmed(token).len() <= 1024,
        proof_text.len() <= 1024,
    ensures
        p.proof@ == proof_text,
        scheme.len() == 4 && (scheme[0] == 68 || scheme[0] == 100) && (scheme[1] == 80 || scheme[1]
            == 112) && (scheme[2] == 79 || scheme[2] == 111) && (scheme[3] == 80 || scheme[3]
            == 112) ==> p.token@ == bytes::trimmed(token),
        scheme.len() != 4 ==> p.token@.len() == 0,
        p.uri@ == http::path(request),
        p.conn == http::le16(request, 0),
        p.stream == http::le16(request, 2),
        request[4] == 1 ==> p.method == "GET",
        request[4] == 3 ==> p.method == "POST",
        request[4] == 5 ==> p.method == "PUT",
        request[4] == 7 ==> p.method == "DELETE",
{
    let value = scheme + seq![32u8] + token;
    assert forall|j: int| 0 <= j < scheme.len() implies #[trigger] value[j] != 32 by {
        assert(value[j] == scheme[j]);
    }
    bytes::lemma_position_unique(value, 32, scheme.len() as int);
    assert(value.take(scheme.len() as int) =~= scheme);
    assert(value.skip(scheme.len() as int + 1) =~= token);
    reveal_strlit("dpop");
    assert("dpop".is_ascii());
    assert(bytes::text("dpop") =~= seq![100u8, 112, 111, 112]);
}

/// The proof of an admission is claimed under its own identifier, for as long as it could be shown
/// again; and who is answered once the ledger has replied is who was admitted.
pub proof fn a_claim_is_of_the_proof(
    before: Gate,
    c: Claim,
    conn: u16,
    stream: u16,
    subject: Seq<u8>,
    proof_id: Seq<u8>,
    now: u64,
    settling: Gate,
    after: Gate,
    status: Status,
    reply: Reply,
)
    requires
        before.claims_for(c, conn, stream, subject, proof_id, now),
        claim_settled(settling, after, c.entry, status, reply),
        subject.len() <= 128,
    ensures
        c.replay_key@ == base64::encoded(proof_id),
        c.expires_at == now + 300,
        reply.conn == conn,
        reply.stream == stream,
        reply.status == 200 <==> status == Status::Success,
        reply.status == 200 ==> reply.body@ == subject,
        reply.status == 401 <==> status == Status::Conflict,
        reply.status == 200 || reply.status == 401 || reply.status == 503,
{
}

/// Who is refused before anything is checked: everybody while no key is held, and then a request
/// without a token, without a proof, or at a time that is not known.
pub proof fn who_is_not_looked_at(r: Seq<u8>, keyset_empty: bool, now: Option<u64>)
    ensures
        ({
            let why = early_refusal(r, keyset_empty, now);
            &&& keyset_empty ==> why == Some(Refusal::NoKey)
            &&& !keyset_empty && headers_complete(r) && header(
                http::headers(r),
                bytes::text("authorization"),
            ) is None ==> why == Some(Refusal::Token)
            &&& why is None ==> {
                &&& header(http::headers(r), bytes::text("authorization")) is Some
                &&& header(http::headers(r), bytes::text("dpop")) is Some
                &&& now is Some
            }
            &&& why matches Some(w) ==> w.spec_status() == 401 || w.spec_status() == 503
            &&& why == Some(Refusal::NoKey) ==> keyset_empty
        }),
{
}

} // verus!
