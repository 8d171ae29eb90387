//! The token endpoint: a form in, a token out, and the table that remembers which connection a
//! reply belongs to. It neither decides who the caller is nor signs anything.
use vstd::prelude::*;
use vstd::slice::slice_subrange;

use crate::assurance::Evidence;
use crate::bytes;
use crate::bytes::{append, bytes_equal, copy_field, position, u64_dec};
use crate::http;
use crate::http::{json_reply, json_reply_with, read_credential, read_proof, Reply};
use crate::keys;
use crate::keys::{advance_correlation, count, Suite};

verus! {

/// Requests awaiting an answer of admission or of the mint.
pub const MAX_IN_FLIGHT: usize = 8;

/// Longest value read from a form field.
pub const MAX_FIELD: usize = 256;

/// Longest credential or proof lifted out of a header.
pub const MAX_PRESENTED: usize = 2048;

/// Longest token that a reply may carry back.
pub const MAX_TOKEN: usize = 4096;

/// Lifetime of a token whose request names none, in seconds.
pub const DEFAULT_TTL_SECS: u32 = 300;

/// Longest one-time code.
pub const MAX_OTP: usize = 8;

#[derive(Clone, Copy, Debug, PartialEq, Eq, Structural)]
pub enum Stage {
    Admit,
    Mint,
}

/// One request waiting for its token.
pub struct Pending {
    pub live: bool,
    pub corr: u32,
    pub conn: u16,
    pub stream: u16,
    pub stage: Stage,
    pub sub: Vec<u8>,
    pub jkt: Vec<u8>,
    pub evidence: Evidence,
    pub aud: Vec<u8>,
    pub scope: Vec<u8>,
    pub ttl: u32,
    pub device_id: Vec<u8>,
}

impl Pending {
    pub open spec fn vacant(self) -> bool {
        &&& !self.live
        &&& self.corr == 0
        &&& self.conn == 0
        &&& self.stream == 0
        &&& self.stage == Stage::Admit
        &&& self.sub@.len() == 0
        &&& self.jkt@.len() == 0
        &&& crate::mint_admission::nothing_proved(self.evidence, 0)
        &&& self.aud@.len() == 0
        &&& self.scope@.len() == 0
        &&& self.ttl == 0
        &&& self.device_id@.len() == 0
    }

    pub fn zero() -> (r: Self)
        ensures
            r.vacant(),
    {
        Pending {
            live: false,
            corr: 0,
            conn: 0,
            stream: 0,
            stage: Stage::Admit,
            sub: Vec::new(),
            jkt: Vec::new(),
            evidence: Evidence::at(0),
            aud: Vec::new(),
            scope: Vec::new(),
            ttl: 0,
            device_id: Vec::new(),
        }
    }
}

/// The question that is put to admission.
pub struct AdmitAsk {
    pub uri: Vec<u8>,
    pub credential: Vec<u8>,
    pub proof: Vec<u8>,
    pub otp: Vec<u8>,
}

pub enum RequestStep {
    /// Too short to name a connection.
    Ignore,
    Reply(Reply),
    /// Ask admission; the entry is held once the question is on its way.
    Ask { entry: Pending, ask: AdmitAsk },
}

/// Admission's answer. A status other than `Admitted` carries no identity.
#[derive(Clone, Copy, Debug, PartialEq, Eq, Structural)]
pub enum AdmitStatus {
    Admitted,
    Unauthenticated,
    StaleProof,
    Replay,
    UnknownDevice,
    Revoked,
    NotPermitted,
    /// Nothing looked at the presenter.
    Undecided,
}

pub struct Verdict {
    pub corr: u32,
    pub status: AdmitStatus,
    pub sub: Vec<u8>,
    pub device_id: Vec<u8>,
    pub jkt: Vec<u8>,
    pub evidence: Evidence,
}

pub enum VerdictStep {
    Ignore,
    Reply(Reply),
    /// Admitted: a token is to be minted for the entry.
    Mint(Pending),
}

/// An order for an access token. It names no key, so the profile's active key signs it.
pub struct MintOrder {
    pub correlation: u32,
    pub suite: Suite,
    pub ttl_seconds: u32,
    pub iss: Vec<u8>,
    pub sub: Vec<u8>,
    pub aud: Vec<u8>,
    pub scope: Vec<u8>,
    pub jkt: Vec<u8>,
    pub evidence: Evidence,
}

/// The mint's reply, as far as this endpoint reads it.
pub struct MintReply {
    pub correlation: u32,
    pub ok: bool,
    pub inline: bool,
    pub body: Vec<u8>,
}

pub struct Endpoint {
    pub next_corr: u32,
    pub admission_wired: bool,
    pub pending: Vec<Pending>,
    pub iss: Vec<u8>,
    pub suite: Suite,
    pub token_issued: u32,
    pub token_refused: u32,
    pub token_malformed: u32,
    pub token_in_flight_full: u32,
    pub token_unauthenticated: u32,
    pub token_unknown_device: u32,
    pub token_revoked: u32,
    pub token_caller_authority: u32,
    pub token_unmatched_reply: u32,
}

/// The value of a hexadecimal digit.
pub open spec fn nibble(b: u8) -> Option<u8> {
    if 48 <= b <= 57 {
        Some((b - 48) as u8)
    } else if 97 <= b <= 102 {
        Some((b - 97 + 10) as u8)
    } else if 65 <= b <= 70 {
        Some((b - 65 + 10) as u8)
    } else {
        None
    }
}

pub fn hex_nibble(byte: u8) -> (r: Option<u8>)
    ensures
        r == nibble(byte),
{
    if 48 <= byte && byte <= 57 {
        Some(byte - 48)
    } else if 97 <= byte && byte <= 102 {
        Some(byte - 97 + 10)
    } else if 65 <= byte && byte <= 70 {
        Some(byte - 65 + 10)
    } else {
        None
    }
}

/// A form value with its escapes undone: `+` is a space and `%hh` a byte. A truncated or invalid
/// escape spoils the value.
pub open spec fn unescaped(s: Seq<u8>) -> Option<Seq<u8>>
    decreases s.len(),
{
    if s.len() == 0 {
        Some(Seq::empty())
    } else if s[0] == 37 {
        if s.len() >= 3 && nibble(s[1]) is Some && nibble(s[2]) is Some {
            match unescaped(s.skip(3)) {
                Some(rest) => Some(
                    seq![(nibble(s[1])->0 * 16 + nibble(s[2])->0) as u8] + rest,
                ),
                None => None,
            }
        } else {
            None
        }
    } else {
        match unescaped(s.skip(1)) {
            Some(rest) => Some(
                seq![
                    if s[0] == 43 {
                        32u8
                    } else {
                        s[0]
                    },
                ] + rest,
            ),
            None => None,
        }
    }
}

/// An unescaped value of at most `limit` bytes; nothing where there is none.
pub open spec fn short_unescaped(s: Seq<u8>, limit: nat) -> Seq<u8> {
    match unescaped(s) {
        Some(v) => bytes::fitting(v, limit),
        None => Seq::empty(),
    }
}

/// Undo the escapes of a form value. Empty where an escape is invalid or the value is longer
/// than `limit`.
pub fn percent_decode(input: &[u8], limit: usize) -> (r: Vec<u8>)
    ensures
        r@ == short_unescaped(input@, limit as nat),
{
    let mut out: Vec<u8> = Vec::new();
    let mut i: usize = 0;
    let total: usize = input.len();
    assert(input@.skip(0) =~= input@);
    proof {
        if unescaped(input@) is Some {
            assert(out@ + unescaped(input@)->0 =~= unescaped(input@)->0);
        }
    }
    while i < total
        invariant
            i <= total == input@.len(),
            out@.len() <= limit,
            unescaped(input@) is Some <==> unescaped(input@.skip(i as int)) is Some,
            unescaped(input@) matches Some(v) ==> v == out@ + unescaped(input@.skip(i as int))->0,
        decreases total - i,
    {
        let ghost rest = input@.skip(i as int);
        let ghost before = out@;
        if out.len() >= limit {
            proof {
                if let Some(v) = unescaped(input@) {
                    assert(unescaped(rest)->0.len() >= 1);
                    assert(v.len() > limit);
                }
            }
            return Vec::new();
        }
        let b: u8 = input[i];
        assert(rest[0] == b);
        if b == 37 {
            if total - i < 3 {
                assert(unescaped(rest) is None);
                return Vec::new();
            }
            assert(rest[1] == input@[i + 1] && rest[2] == input@[i + 2]);
            match (hex_nibble(input[i + 1]), hex_nibble(input[i + 2])) {
                (Some(hi), Some(lo)) => {
                    out.push(hi * 16 + lo);
                    assert(rest.skip(3) =~= input@.skip(i + 3));
                    i = i + 3;
                },
                _ => {
                    assert(unescaped(rest) is None);
                    return Vec::new();
                },
            }
        } else {
            out.push(
                if b == 43 {
                    32
                } else {
                    b
                },
            );
            assert(rest.skip(1) =~= input@.skip(i + 1));
            i = i + 1;
        }
        proof {
            if unescaped(rest) is Some {
                let tail = unescaped(input@.skip(i as int))->0;
                assert(before + unescaped(rest)->0 =~= out@ + tail);
            }
        }
    }
    assert(input@.skip(i as int) =~= Seq::<u8>::empty());
    assert(unescaped(input@) is Some);
    assert(out@ + Seq::<u8>::empty() =~= out@);
    out
}

/// The value of the first pair named `name` in a form, as it stands there.
pub open spec fn form_pair(body: Seq<u8>, name: Seq<u8>) -> Option<Seq<u8>>
    decreases body.len(),
{
    if body.len() == 0 {
        None
    } else {
        let end = bytes::position_of(body, 38) as int;
        let pair = body.take(end);
        let eq = bytes::position_of(pair, 61) as int;
        if eq < pair.len() && pair.take(eq) == name {
            Some(pair.skip(eq + 1))
        } else if end < body.len() {
            form_pair(body.skip(end + 1), name)
        } else {
            None
        }
    }
}

/// The field `name` of a form: empty where it is absent, empty, spoiled or longer than `limit`.
pub open spec fn form_field(body: Seq<u8>, name: Seq<u8>, limit: nat) -> Seq<u8> {
    match form_pair(body, name) {
        Some(raw) => short_unescaped(raw, limit),
        None => Seq::empty(),
    }
}

/// The value of `name` in a form-encoded body.
pub fn form_value(body: &[u8], name: &[u8], limit: usize) -> (r: Vec<u8>)
    ensures
        r@ == form_field(body@, name@, limit as nat),
{
    let mut at: usize = 0;
    let total: usize = body.len();
    assert(body@.skip(0) =~= body@);
    while at < total
        invariant
            at <= total == body@.len(),
            form_pair(body@, name@) == form_pair(body@.skip(at as int), name@),
        decreases total - at,
    {
        let rest = slice_subrange(body, at, total);
        assert(rest@ =~= body@.skip(at as int));
        let end: usize = position(rest, 38);
        let pair = slice_subrange(rest, 0, end);
        assert(pair@ =~= rest@.take(end as int));
        let eq: usize = position(pair, 61);
        if eq < pair.len() {
            let key = slice_subrange(pair, 0, eq);
            assert(key@ =~= pair@.take(eq as int));
            if bytes_equal(key, name) {
                let raw = slice_subrange(pair, eq + 1, pair.len());
                assert(raw@ =~= pair@.skip(eq as int + 1));
                return percent_decode(raw, limit);
            }
        }
        if end >= rest.len() {
            return Vec::new();
        }
        at = at + end + 1;
        assert(rest@.skip(end as int + 1) =~= body@.skip(at as int));
    }
    assert(body@.skip(at as int) =~= Seq::<u8>::empty());
    Vec::new()
}

/// Some pair of a form is named `name` and has a value, of whatever length and escaping.
pub open spec fn form_names(body: Seq<u8>, name: Seq<u8>) -> bool
    decreases body.len(),
{
    if body.len() == 0 {
        false
    } else {
        let end = bytes::position_of(body, 38) as int;
        let pair = body.take(end);
        let eq = bytes::position_of(pair, 61) as int;
        ||| eq + 1 < pair.len() && pair.take(eq) == name
        ||| end < body.len() && form_names(body.skip(end + 1), name)
    }
}

/// Whether a form-encoded body gives `name` a value, be it one that [`form_value`] cannot read.
pub fn form_mentions(body: &[u8], name: &[u8]) -> (r: bool)
    ensures
        r == form_names(body@, name@),
{
    let mut at: usize = 0;
    let total: usize = body.len();
    assert(body@.skip(0) =~= body@);
    while at < total
        invariant
            at <= total == body@.len(),
            form_names(body@, name@) == form_names(body@.skip(at as int), name@),
        decreases total - at,
    {
        let rest = slice_subrange(body, at, total);
        assert(rest@ =~= body@.skip(at as int));
        let end: usize = position(rest, 38);
        let pair = slice_subrange(rest, 0, end);
        assert(pair@ =~= rest@.take(end as int));
        let eq: usize = position(pair, 61);
        if eq < pair.len() && eq + 1 < pair.len() {
            let key = slice_subrange(pair, 0, eq);
            assert(key@ =~= pair@.take(eq as int));
            if bytes_equal(key, name) {
                return true;
            }
        }
        if end >= rest.len() {
            return false;
        }
        at = at + end + 1;
        assert(rest@.skip(end as int + 1) =~= body@.skip(at as int));
    }
    assert(body@.skip(at as int) =~= Seq::<u8>::empty());
    false
}

/// A form field that is a decimal `u32`.
pub open spec fn form_number(body: Seq<u8>, name: Seq<u8>) -> Option<u32> {
    let digits = form_field(body, name, 16);
    if digits.len() > 0 && bytes::all_digits(digits) && bytes::decimal_value(digits) <= u32::MAX {
        Some(bytes::decimal_value(digits) as u32)
    } else {
        None
    }
}

/// A form field read as a decimal `u32`.
pub fn form_u32(body: &[u8], name: &[u8]) -> (r: Option<u32>)
    ensures
        r == form_number(body@, name@),
{
    let raw = form_value(body, name, 16);
    if raw.len() == 0 {
        return None;
    }
    let mut i: usize = 0;
    while i < raw.len()
        invariant
            i <= raw@.len(),
            raw@ == form_field(body@, name@, 16),
            forall|j: int| 0 <= j < i ==> bytes::is_digit(#[trigger] raw@[j]),
        decreases raw@.len() - i,
    {
        if raw[i] < 48 || raw[i] > 57 {
            assert(!bytes::is_digit(raw@[i as int]));
            return None;
        }
        i = i + 1;
    }
    match crate::claims::read_decimal(raw.as_slice()) {
        Some(v) => if v <= 4294967295 {
            Some(v as u32)
        } else {
            None
        },
        None => None,
    }
}

/// The decimal numeral of `value`.
pub fn write_u32(value: u32) -> (r: Vec<u8>)
    ensures
        r@ == bytes::decimal(value as nat),
{
    u64_dec(value as u64)
}

/// `{"access_token":"…","token_type":"DPoP","expires_in":N}`
pub open spec fn token_json(token: Seq<u8>, ttl: u32) -> Seq<u8> {
    bytes::text("{\"access_token\":\"") + token + bytes::text(
        "\",\"token_type\":\"DPoP\",\"expires_in\":",
    ) + bytes::decimal(ttl as nat) + bytes::text("}")
}

/// The body of a token response, cut at `limit` bytes.
pub fn write_token_json(limit: usize, token: &[u8], ttl: u32) -> (r: Vec<u8>)
    ensures
        r@ == bytes::clipped(token_json(token@, ttl), limit as nat),
{
    let mut out: Vec<u8> = Vec::new();
    append(&mut out, "{\"access_token\":\"".as_bytes());
    append(&mut out, token);
    append(&mut out, "\",\"token_type\":\"DPoP\",\"expires_in\":".as_bytes());
    let digits = write_u32(ttl);
    append(&mut out, digits.as_slice());
    append(&mut out, "}".as_bytes());
    assert(out@ =~= token_json(token@, ttl));
    copy_field(out.as_slice(), limit)
}

proof fn lemma_token_json_fits(token: Seq<u8>, ttl: u32)
    requires
        token.len() <= 4096,
    ensures
        token_json(token, ttl).len() <= 4224,
{
    reveal_strlit("{\"access_token\":\"");
    reveal_strlit("\",\"token_type\":\"DPoP\",\"expires_in\":");
    reveal_strlit("}");
    assert("{\"access_token\":\"".is_ascii());
    assert("\",\"token_type\":\"DPoP\",\"expires_in\":".is_ascii());
    assert("}".is_ascii());
    bytes::lemma_decimal_len(ttl as nat);
}

/// The form names a subject or a key binding, which is not the caller's to name.
pub open spec fn names_authority(body: Seq<u8>) -> bool {
    form_names(body, bytes::text("sub")) || form_names(body, bytes::text("jkt"))
}

/// The request presents a credential and a proof.
pub open spec fn presents(r: Seq<u8>) -> bool {
    http::presented_credential(http::headers(r), 2048).len() > 0 && http::presented_proof(
        http::headers(r),
        2048,
    ).len() > 0
}

/// The answer to a request that goes no further: a status and a body.
pub open spec fn request_answer(r: Seq<u8>, admission_wired: bool) -> Option<(u16, &'static str)> {
    if !http::complete(r) {
        Some((400, "{\"error\":\"invalid_request\"}"))
    } else if r[4] != 3 {
        Some((405, "{\"error\":\"invalid_request\"}"))
    } else if names_authority(http::body(r)) {
        Some(
            (
                400,
                "{\"error\":\"invalid_request\",\"detail\":\"authority_not_caller_selected\"}",
            ),
        )
    } else if !presents(r) {
        Some((401, "{\"error\":\"invalid_client\"}"))
    } else if !admission_wired {
        Some((503, "{\"error\":\"temporarily_unavailable\"}"))
    } else {
        None
    }
}

/// The answer to a refusal of admission. What was wrong with a presenter is not told apart; a
/// refusal that looked at nobody is no refusal of the presenter.
pub open spec fn verdict_answer(status: AdmitStatus) -> (u16, &'static str) {
    match status {
        AdmitStatus::Unauthenticated | AdmitStatus::StaleProof | AdmitStatus::Replay
        | AdmitStatus::UnknownDevice | AdmitStatus::Revoked => (
            401,
            "{\"error\":\"invalid_client\"}",
        ),
        AdmitStatus::NotPermitted => (403, "{\"error\":\"invalid_client\"}"),
        _ => (503, "{\"error\":\"temporarily_unavailable\"}"),
    }
}

/// The first entry from `i` on that waits at `stage` for the reply `corr`.
pub open spec fn waiting_from(pending: Seq<Pending>, stage: Stage, corr: u32, i: int) -> Option<int>
    decreases pending.len() - i,
{
    if i < 0 || i >= pending.len() {
        None
    } else if pending[i].live && pending[i].stage == stage && pending[i].corr == corr {
        Some(i)
    } else {
        waiting_from(pending, stage, corr, i + 1)
    }
}

/// The question to admission that a request comes to, and the entry that waits for the answer.
pub open spec fn asked(r: Seq<u8>, corr: u32, entry: Pending, ask: AdmitAsk) -> bool {
    let body = http::body(r);
    &&& entry.live
    &&& entry.corr == corr
    &&& entry.conn == http::le16(r, 0)
    &&& entry.stream == http::le16(r, 2)
    &&& entry.stage == Stage::Admit
    &&& entry.sub@.len() == 0
    &&& entry.device_id@.len() == 0
    &&& entry.jkt@.len() == 0
    &&& crate::mint_admission::nothing_proved(entry.evidence, 0)
    &&& entry.aud@ == form_field(body, bytes::text("aud"), 256)
    &&& entry.scope@ == form_field(body, bytes::text("scope"), 256)
    &&& entry.ttl == match form_number(body, bytes::text("expires_in")) {
        Some(n) => n,
        None => DEFAULT_TTL_SECS,
    }
    &&& ask.uri@ == bytes::clipped(http::path(r), 256)
    &&& ask.credential@ == http::presented_credential(http::headers(r), 2048)
    &&& ask.proof@ == http::presented_proof(http::headers(r), 2048)
    &&& ask.otp@ == form_field(body, bytes::text("otp"), 8)
}

/// What a verdict of admission comes to for the entry that waited for it.
pub open spec fn judged(
    before: Endpoint,
    after: Endpoint,
    entry: Pending,
    verdict: Verdict,
    r: VerdictStep,
) -> bool {
    if verdict.status == AdmitStatus::Admitted {
        &&& after.same_counters(before)
        &&& r matches VerdictStep::Mint(next)
        &&& next.sub@ == bytes::clipped(verdict.sub@, 256)
        &&& next.device_id@ == bytes::clipped(verdict.device_id@, 256)
        &&& next.jkt@ == bytes::clipped(verdict.jkt@, 43)
        &&& next.evidence == verdict.evidence
        &&& next == (Pending {
            sub: next.sub,
            device_id: next.device_id,
            jkt: next.jkt,
            evidence: next.evidence,
            ..entry
        })
    } else {
        let answer = verdict_answer(verdict.status);
        &&& r matches VerdictStep::Reply(reply)
        &&& reply.is(
            entry.conn as nat,
            entry.stream as nat,
            answer.0,
            bytes::text(answer.1),
        )
        &&& refused_since(after, before, verdict.status)
    }
}

/// What a reply of the mint comes to for the entry that waited for it.
pub open spec fn token_answered(
    before: Endpoint,
    after: Endpoint,
    slot: Pending,
    m: MintReply,
    answer: Reply,
) -> bool {
    if m.ok && m.inline && 0 < m.body@.len() <= 4096 {
        &&& answer.is(
            slot.conn as nat,
            slot.stream as nat,
            200,
            token_json(m.body@, slot.ttl),
        )
        &&& after.token_issued == keys::counted(before.token_issued)
        &&& (Endpoint { token_issued: before.token_issued, ..after }).same_counters(before)
    } else {
        &&& answer.is(
            slot.conn as nat,
            slot.stream as nat,
            400,
            bytes::text("{\"error\":\"invalid_request\"}"),
        )
        &&& after.token_refused == keys::counted(before.token_refused)
        &&& (Endpoint { token_refused: before.token_refused, ..after }).same_counters(before)
    }
}

impl Endpoint {
    /// The order to the mint for an admitted entry.
    pub open spec fn ordered(self, order: MintOrder, entry: Pending) -> bool {
        &&& order.correlation == self.next_corr
        &&& order.suite == self.suite
        &&& order.ttl_seconds == entry.ttl
        &&& order.iss@ == self.iss@
        &&& order.sub@ == entry.sub@
        &&& order.aud@ == entry.aud@
        &&& order.scope@ == entry.scope@
        &&& order.jkt@ == entry.jkt@
        &&& order.evidence == entry.evidence
    }

    pub open spec fn wf(self) -> bool {
        self.pending@.len() == 8
    }

    pub open spec fn same_deployment(self, other: Self) -> bool {
        &&& self.admission_wired == other.admission_wired
        &&& self.iss == other.iss
        &&& self.suite == other.suite
    }

    pub open spec fn same_counters(self, other: Self) -> bool {
        &&& self.token_issued == other.token_issued
        &&& self.token_refused == other.token_refused
        &&& self.token_malformed == other.token_malformed
        &&& self.token_in_flight_full == other.token_in_flight_full
        &&& self.token_unauthenticated == other.token_unauthenticated
        &&& self.token_unknown_device == other.token_unknown_device
        &&& self.token_revoked == other.token_revoked
        &&& self.token_caller_authority == other.token_caller_authority
        &&& self.token_unmatched_reply == other.token_unmatched_reply
    }

    /// An endpoint with nothing in flight.
    pub fn module_new(admission_wired: bool, iss: &[u8], suite: Suite) -> (r: Self)
        ensures
            r.wf(),
            forall|i: int| 0 <= i < 8 ==> (#[trigger] r.pending@[i]).vacant(),
            r.next_corr == 1,
            r.admission_wired == admission_wired,
            r.iss@ == bytes::clipped(iss@, 256),
            r.suite == suite,
            r.token_issued == 0,
            r.token_refused == 0,
            r.token_malformed == 0,
            r.token_in_flight_full == 0,
            r.token_unauthenticated == 0,
            r.token_unknown_device == 0,
            r.token_revoked == 0,
            r.token_caller_authority == 0,
            r.token_unmatched_reply == 0,
    {
        let mut pending: Vec<Pending> = Vec::new();
        while pending.len() < MAX_IN_FLIGHT
            invariant
                pending@.len() <= 8,
                forall|i: int| 0 <= i < pending@.len() ==> (#[trigger] pending@[i]).vacant(),
            decreases 8 - pending@.len(),
        {
            pending.push(Pending::zero());
        }
        Endpoint {
            next_corr: 1,
            admission_wired,
            pending,
            iss: copy_field(iss, MAX_FIELD),
            suite,
            token_issued: 0,
            token_refused: 0,
            token_malformed: 0,
            token_in_flight_full: 0,
            token_unauthenticated: 0,
            token_unknown_device: 0,
            token_revoked: 0,
            token_caller_authority: 0,
            token_unmatched_reply: 0,
        }
    }

    /// The first entry that is free.
    pub fn free_slot(&self) -> (r: Option<usize>)
        ensures
            match r {
                Some(i) => i < self.pending@.len() && !self.pending@[i as int].live && forall|j: int|
                    0 <= j < i ==> (#[trigger] self.pending@[j]).live,
                None => forall|j: int|
                    0 <= j < self.pending@.len() ==> (#[trigger] self.pending@[j]).live,
            },
    {
        let mut i: usize = 0;
        while i < self.pending.len()
            invariant
                i <= self.pending@.len(),
                forall|j: int| 0 <= j < i ==> (#[trigger] self.pending@[j]).live,
            decreases self.pending@.len() - i,
        {
            if !self.pending[i].live {
                return Some(i);
            }
            i = i + 1;
        }
        None
    }

    fn waiting(&self, stage: Stage, corr: u32) -> (r: Option<usize>)
        ensures
            match r {
                Some(i) => waiting_from(self.pending@, stage, corr, 0) == Some(i as int) && i
                    < self.pending@.len(),
                None => waiting_from(self.pending@, stage, corr, 0) is None,
            },
    {
        let mut i: usize = 0;
        while i < self.pending.len()
            invariant
                i <= self.pending@.len(),
                waiting_from(self.pending@, stage, corr, 0) == waiting_from(
                    self.pending@,
                    stage,
                    corr,
                    i as int,
                ),
            decreases self.pending@.len() - i,
        {
            if self.pending[i].live && self.pending[i].stage == stage && self.pending[i].corr
                == corr {
                return Some(i);
            }
            i = i + 1;
        }
        None
    }

    /// Translate one request into a question for admission, or answer it here.
    pub fn handle_request(&mut self, request: &[u8]) -> (r: RequestStep)
        ensures
            final(self).pending == old(self).pending,
            final(self).same_deployment(*old(self)),
            request@.len() < 12 ==> r is Ignore && *final(self) == *old(self),
            request@.len() >= 12 ==> match request_answer(request@, old(self).admission_wired) {
                Some(answer) => {
                    &&& r matches RequestStep::Reply(reply)
                    &&& reply.answers(request@, answer.0, bytes::text(answer.1))
                    &&& final(self).next_corr == old(self).next_corr
                    &&& final(self).token_malformed == if !http::complete(request@) {
                        keys::counted(old(self).token_malformed)
                    } else {
                        old(self).token_malformed
                    }
                    &&& final(self).token_caller_authority == if http::complete(request@)
                        && request@[4] == 3 && names_authority(http::body(request@)) {
                        keys::counted(old(self).token_caller_authority)
                    } else {
                        old(self).token_caller_authority
                    }
                    &&& final(self).token_unauthenticated == if http::complete(request@)
                        && request@[4] == 3 && !names_authority(http::body(request@)) && !presents(
                        request@,
                    ) {
                        keys::counted(old(self).token_unauthenticated)
                    } else {
                        old(self).token_unauthenticated
                    }
                    &&& (Endpoint {
                        token_malformed: old(self).token_malformed,
                        token_caller_authority: old(self).token_caller_authority,
                        token_unauthenticated: old(self).token_unauthenticated,
                        ..*final(self)
                    }).same_counters(*old(self))
                },
                None => {
                    &&& final(self).same_counters(*old(self))
                    &&& final(self).next_corr == keys::next_correlation(old(self).next_corr)
                    &&& r matches RequestStep::Ask { entry, ask }
                    &&& asked(request@, old(self).next_corr, entry, ask)
                },
            },
    {
        let frame = match http::read_frame(request) {
            Some(f) => f,
            None => {
                return RequestStep::Ignore;
            },
        };
        let (conn, stream) = (frame.conn, frame.stream);
        if !http::is_complete(request, &frame) {
            count(&mut self.token_malformed);
            return RequestStep::Reply(
                json_reply(conn, stream, 400, "{\"error\":\"invalid_request\"}"),
            );
        }
        if frame.method != http::METHOD_POST {
            return RequestStep::Reply(
                json_reply(conn, stream, 405, "{\"error\":\"invalid_request\"}"),
            );
        }
        let body = http::body_of(request, &frame);
        if form_mentions(body, "sub".as_bytes()) || form_mentions(body, "jkt".as_bytes()) {
            count(&mut self.token_caller_authority);
            return RequestStep::Reply(
                json_reply(
                    conn,
                    stream,
                    400,
                    "{\"error\":\"invalid_request\",\"detail\":\"authority_not_caller_selected\"}",
                ),
            );
        }
        let headers = http::headers_of(request, &frame);
        let credential = read_credential(headers, MAX_PRESENTED);
        let proof = read_proof(headers, MAX_PRESENTED);
        if credential.len() == 0 || proof.len() == 0 {
            count(&mut self.token_unauthenticated);
            return RequestStep::Reply(
                json_reply(conn, stream, 401, "{\"error\":\"invalid_client\"}"),
            );
        }
        if !self.admission_wired {
            return RequestStep::Reply(
                json_reply(conn, stream, 503, "{\"error\":\"temporarily_unavailable\"}"),
            );
        }
        let corr: u32 = self.next_corr;
        self.next_corr = advance_correlation(self.next_corr);
        let ttl: u32 = match form_u32(body, "expires_in".as_bytes()) {
            Some(n) => n,
            None => DEFAULT_TTL_SECS,
        };
        let entry = Pending {
            live: true,
            corr,
            conn,
            stream,
            stage: Stage::Admit,
            sub: Vec::new(),
            jkt: Vec::new(),
            evidence: Evidence::at(0),
            aud: form_value(body, "aud".as_bytes(), MAX_FIELD),
            scope: form_value(body, "scope".as_bytes(), MAX_FIELD),
            ttl,
            device_id: Vec::new(),
        };
        let ask = AdmitAsk {
            uri: copy_field(http::path_of(request, &frame), MAX_FIELD),
            credential,
            proof,
            otp: form_value(body, "otp".as_bytes(), MAX_OTP),
        };
        RequestStep::Ask { entry, ask }
    }

    /// A slot for an entry whose question or order could be written down; a 503 where it could
    /// not be, or where the table is full.
    pub fn reserve(&mut self, entry: &Pending, encoded: bool) -> (r: Result<usize, Reply>)
        requires
            old(self).wf(),
        ensures
            final(self).wf(),
            final(self).pending == old(self).pending,
            final(self).next_corr == old(self).next_corr,
            final(self).same_deployment(*old(self)),
            match r {
                Ok(i) => i < 8 && !old(self).pending@[i as int].live && encoded
                    && final(self).same_counters(*old(self)) && forall|j: int|
                    0 <= j < i ==> (#[trigger] old(self).pending@[j]).live,
                Err(reply) => reply.is(
                    entry.conn as nat,
                    entry.stream as nat,
                    503,
                    bytes::text("{\"error\":\"temporarily_unavailable\"}"),
                ) && final(self).token_in_flight_full == (if encoded {
                    keys::counted(old(self).token_in_flight_full)
                } else {
                    old(self).token_in_flight_full
                }) && (Endpoint {
                    token_in_flight_full: old(self).token_in_flight_full,
                    ..*final(self)
                }).same_counters(*old(self)),
            },
            r is Ok <==> encoded && exists|i: int| 0 <= i < 8 && !(#[trigger] old(self).pending@[i]).live,
    {
        if encoded {
            match self.free_slot() {
                Some(i) => {
                    return Ok(i);
                },
                None => {
                    count(&mut self.token_in_flight_full);
                },
            }
        }
        Err(
            json_reply(
                entry.conn,
                entry.stream,
                503,
                "{\"error\":\"temporarily_unavailable\"}",
            ),
        )
    }

    /// The question or the order of an entry was sent, or could not be. An order that the mint's
    /// port did not take counts as too many in flight.
    pub fn sent(&mut self, index: usize, entry: Pending, sent: bool) -> (r: Option<Reply>)
        requires
            old(self).wf(),
            index < 8,
        ensures
            final(self).wf(),
            final(self).next_corr == old(self).next_corr,
            final(self).same_deployment(*old(self)),
            sent ==> r is None && final(self).same_counters(*old(self)) && final(self).pending@
                == old(self).pending@.update(index as int, entry),
            !sent ==> final(self).pending == old(self).pending && (r matches Some(reply) && reply.is(
                entry.conn as nat,
                entry.stream as nat,
                503,
                bytes::text("{\"error\":\"temporarily_unavailable\"}"),
            )) && final(self).token_in_flight_full == (if entry.stage == Stage::Mint {
                keys::counted(old(self).token_in_flight_full)
            } else {
                old(self).token_in_flight_full
            }) && (Endpoint {
                token_in_flight_full: old(self).token_in_flight_full,
                ..*final(self)
            }).same_counters(*old(self)),
    {
        if sent {
            self.pending[index] = entry;
            return None;
        }
        if entry.stage == Stage::Mint {
            count(&mut self.token_in_flight_full);
        }
        Some(
            json_reply(
                entry.conn,
                entry.stream,
                503,
                "{\"error\":\"temporarily_unavailable\"}",
            ),
        )
    }

    /// One verdict of admission: a reply, or a token to mint for the subject, device and key that
    /// admission established.
    pub fn drain_admit(&mut self, verdict: &Verdict) -> (r: VerdictStep)
        requires
            old(self).wf(),
        ensures
            final(self).wf(),
            final(self).next_corr == old(self).next_corr,
            final(self).same_deployment(*old(self)),
            match waiting_from(old(self).pending@, Stage::Admit, verdict.corr, 0) {
                None => r is Ignore && final(self).pending == old(self).pending
                    && final(self).token_unmatched_reply == keys::counted(
                    old(self).token_unmatched_reply,
                ) && (Endpoint {
                    token_unmatched_reply: old(self).token_unmatched_reply,
                    ..*final(self)
                }).same_counters(*old(self)),
                Some(i) => {
                    let entry = old(self).pending@[i];
                    &&& final(self).pending@[i].vacant()
                    &&& forall|j: int|
                        0 <= j < 8 && j != i ==> #[trigger] final(self).pending@[j]
                            == old(self).pending@[j]
                    &&& judged(*old(self), *final(self), entry, *verdict, r)
                },
            },
    {
        let index: usize = match self.waiting(Stage::Admit, verdict.corr) {
            Some(index) => index,
            None => {
                count(&mut self.token_unmatched_reply);
                return VerdictStep::Ignore;
            },
        };
        let mut entry = Pending::zero();
        core::mem::swap(&mut entry, &mut self.pending[index]);
        let (status, body): (u16, &'static str) = match verdict.status {
            AdmitStatus::Admitted => {
                return VerdictStep::Mint(
                    Pending {
                        sub: copy_field(verdict.sub.as_slice(), MAX_FIELD),
                        device_id: copy_field(verdict.device_id.as_slice(), MAX_FIELD),
                        jkt: copy_field(verdict.jkt.as_slice(), 43),
                        evidence: verdict.evidence,
                        ..entry
                    },
                );
            },
            AdmitStatus::Unauthenticated | AdmitStatus::StaleProof | AdmitStatus::Replay => {
                count(&mut self.token_unauthenticated);
                (401, "{\"error\":\"invalid_client\"}")
            },
            AdmitStatus::UnknownDevice => {
                count(&mut self.token_unknown_device);
                (401, "{\"error\":\"invalid_client\"}")
            },
            AdmitStatus::Revoked => {
                count(&mut self.token_revoked);
                (401, "{\"error\":\"invalid_client\"}")
            },
            AdmitStatus::NotPermitted => {
                count(&mut self.token_refused);
                (403, "{\"error\":\"invalid_client\"}")
            },
            AdmitStatus::Undecided => {
                count(&mut self.token_refused);
                (503, "{\"error\":\"temporarily_unavailable\"}")
            },
        };
        VerdictStep::Reply(json_reply(entry.conn, entry.stream, status, body))
    }

    /// Lay out the order to the mint for an admitted entry, under a correlation of its own. The
    /// token is always bound to the key that admission established.
    pub fn dispatch_mint(&mut self, entry: Pending, writable: bool) -> (r: Result<
        (Pending, MintOrder),
        Reply,
    >)
        ensures
            final(self).pending == old(self).pending,
            final(self).same_deployment(*old(self)),
            r is Ok <==> writable,
            match r {
                Ok(t) => {
                    &&& final(self).same_counters(*old(self))
                    &&& final(self).next_corr == keys::next_correlation(old(self).next_corr)
                    &&& t.0 == (Pending {
                        stage: Stage::Mint,
                        corr: old(self).next_corr,
                        live: true,
                        ..entry
                    })
                    &&& old(self).ordered(t.1, entry)
                },
                Err(reply) => {
                    &&& final(self).next_corr == old(self).next_corr
                    &&& reply.is(
                        entry.conn as nat,
                        entry.stream as nat,
                        503,
                        bytes::text("{\"error\":\"temporarily_unavailable\"}"),
                    )
                    &&& final(self).token_in_flight_full == keys::counted(
                        old(self).token_in_flight_full,
                    )
                    &&& (Endpoint {
                        token_in_flight_full: old(self).token_in_flight_full,
                        ..*final(self)
                    }).same_counters(*old(self))
                },
            },
    {
        if !writable {
            count(&mut self.token_in_flight_full);
            return Err(
                json_reply(
                    entry.conn,
                    entry.stream,
                    503,
                    "{\"error\":\"temporarily_unavailable\"}",
                ),
            );
        }
        let corr: u32 = self.next_corr;
        self.next_corr = advance_correlation(self.next_corr);
        let order = MintOrder {
            correlation: corr,
            suite: self.suite,
            ttl_seconds: entry.ttl,
            iss: vstd::slice::slice_to_vec(self.iss.as_slice()),
            sub: vstd::slice::slice_to_vec(entry.sub.as_slice()),
            aud: vstd::slice::slice_to_vec(entry.aud.as_slice()),
            scope: vstd::slice::slice_to_vec(entry.scope.as_slice()),
            jkt: vstd::slice::slice_to_vec(entry.jkt.as_slice()),
            evidence: entry.evidence,
        };
        Ok((Pending { stage: Stage::Mint, corr, live: true, ..entry }, order))
    }

    /// Free the entry that waits for the mint's reply `corr`, and say where its answer goes.
    pub fn take_pending(&mut self, corr: u32) -> (r: Option<(u16, u16, u32)>)
        ensures
            final(self).next_corr == old(self).next_corr,
            final(self).same_deployment(*old(self)),
            final(self).same_counters(*old(self)),
            final(self).pending@.len() == old(self).pending@.len(),
            match waiting_from(old(self).pending@, Stage::Mint, corr, 0) {
                None => r is None && final(self).pending == old(self).pending,
                Some(i) => {
                    let slot = old(self).pending@[i];
                    &&& r == Some((slot.conn, slot.stream, slot.ttl))
                    &&& final(self).pending@ == old(self).pending@.update(
                        i,
                        Pending { live: false, ..slot },
                    )
                },
            },
    {
        match self.waiting(Stage::Mint, corr) {
            Some(i) => {
                self.pending[i].live = false;
                Some((self.pending[i].conn, self.pending[i].stream, self.pending[i].ttl))
            },
            None => None,
        }
    }

    /// One reply of the mint, which is absent where it did not decode. A token goes to the
    /// connection that asked and to no other; a reply that nobody waits for is dropped.
    pub fn drain_mint_replies(&mut self, reply: Option<MintReply>) -> (r: Option<Reply>)
        requires
            old(self).wf(),
        ensures
            final(self).wf(),
            final(self).next_corr == old(self).next_corr,
            final(self).same_deployment(*old(self)),
            match reply {
                None => r is None && final(self).pending == old(self).pending
                    && final(self).token_malformed == keys::counted(old(self).token_malformed) && (
                Endpoint { token_malformed: old(self).token_malformed, ..*final(self) }).same_counters(
                    *old(self),
                ),
                Some(m) => match waiting_from(old(self).pending@, Stage::Mint, m.correlation, 0) {
                    None => r is None && final(self).pending == old(self).pending
                        && final(self).token_unmatched_reply == keys::counted(
                        old(self).token_unmatched_reply,
                    ) && (Endpoint {
                        token_unmatched_reply: old(self).token_unmatched_reply,
                        ..*final(self)
                    }).same_counters(*old(self)),
                    Some(i) => {
                        let slot = old(self).pending@[i];
                        &&& final(self).pending@ == old(self).pending@.update(
                            i,
                            Pending { live: false, ..slot },
                        )
                        &&& r matches Some(answer)
                        &&& token_answered(*old(self), *final(self), slot, m, answer)
                    },
                },
            },
    {
        let m = match reply {
            Some(m) => m,
            None => {
                count(&mut self.token_malformed);
                return None;
            },
        };
        let (conn, stream, ttl): (u16, u16, u32) = match self.take_pending(m.correlation) {
            Some(slot) => slot,
            None => {
                count(&mut self.token_unmatched_reply);
                return None;
            },
        };
        if m.ok && m.inline && m.body.len() > 0 && m.body.len() <= MAX_TOKEN {
            count(&mut self.token_issued);
            let body = write_token_json(MAX_TOKEN + 128, m.body.as_slice(), ttl);
            proof {
                lemma_token_json_fits(m.body@, ttl);
            }
            Some(json_reply_with(conn, stream, 200, body))
        } else {
            count(&mut self.token_refused);
            Some(json_reply(conn, stream, 400, "{\"error\":\"invalid_request\"}"))
        }
    }
}

/// One refusal of admission was counted, each kind in its own counter.
pub open spec fn refused_since(after: Endpoint, before: Endpoint, status: AdmitStatus) -> bool {
    let unauthenticated = status == AdmitStatus::Unauthenticated || status
        == AdmitStatus::StaleProof || status == AdmitStatus::Replay;
    &&& after.token_unauthenticated == if unauthenticated {
        keys::counted(before.token_unauthenticated)
    } else {
        before.token_unauthenticated
    }
    &&& after.token_unknown_device == if status == AdmitStatus::UnknownDevice {
        keys::counted(before.token_unknown_device)
    } else {
        before.token_unknown_device
    }
    &&& after.token_revoked == if status == AdmitStatus::Revoked {
        keys::counted(before.token_revoked)
    } else {
        before.token_revoked
    }
    &&& after.token_refused == if status == AdmitStatus::NotPermitted || status
        == AdmitStatus::Undecided {
        keys::counted(before.token_refused)
    } else {
        before.token_refused
    }
    &&& after.token_issued == before.token_issued
    &&& after.token_malformed == before.token_malformed
    &&& after.token_in_flight_full == before.token_in_flight_full
    &&& after.token_caller_authority == before.token_caller_authority
    &&& after.token_unmatched_reply == before.token_unmatched_reply
}

/// Where no two entries wait at one stage under one correlation, a reply finds the entry that
/// asked, and so the connection that it answers is the one that asked.
pub proof fn a_reply_finds_who_asked(pending: Seq<Pending>, i: int)
    requires
        0 <= i < pending.len(),
        pending[i].live,
        forall|a: int, b: int|
            #![trigger pending[a], pending[b]]
            0 <= a < b < pending.len() && pending[a].live && pending[b].live && pending[a].stage
                == pending[b].stage ==> pending[a].corr != pending[b].corr,
    ensures
        waiting_from(pending, pending[i].stage, pending[i].corr, 0) == Some(i),
{
    lemma_waiting_reaches(pending, i, 0);
}

proof fn lemma_waiting_reaches(pending: Seq<Pending>, i: int, from: int)
    requires
        0 <= from <= i < pending.len(),
        pending[i].live,
        forall|a: int, b: int|
            #![trigger pending[a], pending[b]]
            0 <= a < b < pending.len() && pending[a].live && pending[b].live && pending[a].stage
                == pending[b].stage ==> pending[a].corr != pending[b].corr,
    ensures
        waiting_from(pending, pending[i].stage, pending[i].corr, from) == Some(i),
    decreases i - from,
{
    if from < i {
        assert(pending[from].live && pending[from].stage == pending[i].stage ==> pending[from].corr
            != pending[i].corr);
        lemma_waiting_reaches(pending, i, from + 1);
    }
}

/// A request that names its own subject or key binding never reaches admission.
pub proof fn authority_is_not_the_callers(r: Seq<u8>, admission_wired: bool)
    requires
        http::complete(r),
        names_authority(http::body(r)),
    ensures
        request_answer(r, admission_wired) is Some,
{
}

/// A token is ordered for whom admission established and for what the request asked: the subject,
/// the key and the evidence are the verdict's, and the audience, the scope and the lifetime are the
/// request's, five minutes where it names none. The issuer is the deployment's. And whatever the
/// mint makes goes to the connection that asked.
pub proof fn a_token_is_ordered_for_who_was_admitted(
    request: Seq<u8>,
    corr: u32,
    entry: Pending,
    ask: AdmitAsk,
    before: Endpoint,
    after: Endpoint,
    verdict: Verdict,
    admitted: Pending,
    at: Endpoint,
    order: MintOrder,
    last: Endpoint,
    done: Endpoint,
    minted: MintReply,
    answer: Reply,
)
    requires
        asked(request, corr, entry, ask),
        judged(before, after, entry, verdict, VerdictStep::Mint(admitted)),
        at.ordered(order, admitted),
        token_answered(last, done, admitted, minted, answer),
        verdict.sub@.len() <= 256,
        verdict.jkt@.len() <= 43,
        http::path(request).len() <= 256,
    ensures
        verdict.status == AdmitStatus::Admitted,
        order.sub@ == verdict.sub@,
        order.jkt@ == verdict.jkt@,
        order.evidence == verdict.evidence,
        order.iss@ == at.iss@,
        order.suite == at.suite,
        order.aud@ == form_field(http::body(request), bytes::text("aud"), 256),
        order.scope@ == form_field(http::body(request), bytes::text("scope"), 256),
        form_number(http::body(request), bytes::text("expires_in")) matches Some(n)
            ==> order.ttl_seconds == n,
        form_number(http::body(request), bytes::text("expires_in")) is None ==> order.ttl_seconds
            == 300,
        ask.uri@ == http::path(request),
        ask.credential@ == http::presented_credential(http::headers(request), 2048),
        ask.proof@ == http::presented_proof(http::headers(request), 2048),
        ask.otp@ == form_field(http::body(request), bytes::text("otp"), 8),
        answer.conn == http::le16(request, 0),
        answer.stream == http::le16(request, 2),
        answer.status == 200 <==> minted.ok && minted.inline && 0 < minted.body@.len() <= 4096,
        answer.status == 200 ==> answer.body@ == bytes::text("{\"access_token\":\"") + minted.body@
            + bytes::text("\",\"token_type\":\"DPoP\",\"expires_in\":") + bytes::decimal(
            order.ttl_seconds as nat,
        ) + bytes::text("}"),
{
}

/// Whoever was not admitted is answered with a refusal, which does not say what was wrong with
/// them; where nobody was looked at, nobody is refused.
pub proof fn who_was_not_admitted_gets_no_token(
    before: Endpoint,
    after: Endpoint,
    entry: Pending,
    verdict: Verdict,
    r: VerdictStep,
)
    requires
        judged(before, after, entry, verdict, r),
    ensures
        r is Mint <==> verdict.status == AdmitStatus::Admitted,
        r matches VerdictStep::Reply(reply) ==> {
            &&& reply.conn == entry.conn && reply.stream == entry.stream
            &&& verdict.status == AdmitStatus::Undecided ==> reply.status == 503
            &&& verdict.status == AdmitStatus::NotPermitted ==> reply.status == 403
            &&& verdict.status != AdmitStatus::Undecided && verdict.status
                != AdmitStatus::NotPermitted ==> reply.status == 401
            &&& verdict.status != AdmitStatus::Undecided ==> reply.body@ == bytes::text(
                "{\"error\":\"invalid_client\"}",
            )
        },
        r is Mint || r is Reply,
{
}

/// A request is asked about exactly where it is whole, is a `POST`, names no subject and no key of
/// its own, and presents a credential and a proof, while there is an admission to ask.
pub proof fn what_is_asked_about(r: Seq<u8>, admission_wired: bool)
    ensures
        request_answer(r, admission_wired) is None <==> {
            &&& http::complete(r)
            &&& r[4] == 3
            &&& !form_names(http::body(r), bytes::text("sub"))
            &&& !form_names(http::body(r), bytes::text("jkt"))
            &&& http::presented_credential(http::headers(r), 2048).len() > 0
            &&& http::presented_proof(http::headers(r), 2048).len() > 0
            &&& admission_wired
        },
{
}

/// A form is read pair by pair: the value of the first pair of that name, unescaped, and empty
/// where it is spoiled or too long; and a name that stands in any pair with a value is mentioned.
pub proof fn a_form_is_read_by_its_pairs(
    key: Seq<u8>,
    value: Seq<u8>,
    rest: Seq<u8>,
    name: Seq<u8>,
    limit: nat,
)
    requires
        forall|i: int| 0 <= i < key.len() ==> #[trigger] key[i] != 38 && key[i] != 61,
        forall|i: int| 0 <= i < value.len() ==> #[trigger] value[i] != 38,
    ensures
        ({
            let body = key + seq![61u8] + value + seq![38u8] + rest;
            let read = match unescaped(value) {
                Some(v) => if v.len() <= limit {
                    v
                } else {
                    Seq::empty()
                },
                None => Seq::empty(),
            };
            &&& key == name ==> form_field(body, name, limit) == read
            &&& key != name ==> form_field(body, name, limit) == form_field(rest, name, limit)
            &&& form_names(body, name) <==> (key == name && value.len() > 0) || form_names(rest, name)
            &&& form_field(Seq::<u8>::empty(), name, limit).len() == 0
            &&& !form_names(Seq::<u8>::empty(), name)
        }),
{
    let body = key + seq![61u8] + value + seq![38u8] + rest;
    let end = key.len() + 1 + value.len();
    assert forall|j: int| 0 <= j < end implies #[trigger] body[j] != 38 by {
        if j < key.len() {
            assert(body[j] == key[j]);
        } else if j > key.len() {
            assert(body[j] == value[j - key.len() - 1]);
        }
    }
    bytes::lemma_position_unique(body, 38, end as int);
    let pair = body.take(end as int);
    assert forall|j: int| 0 <= j < key.len() implies #[trigger] pair[j] != 61 by {
        assert(pair[j] == key[j]);
    }
    bytes::lemma_position_unique(pair, 61, key.len() as int);
    assert(pair.take(key.len() as int) =~= key);
    assert(pair.skip(key.len() as int + 1) =~= value);
    assert(body.skip(end as int + 1) =~= rest);
}

/// Escapes are undone one by one: two hexadecimal digits behind a percent sign are their byte, a
/// plus sign is a space, and any other byte is itself; a percent sign with anything else behind it
/// spoils the value.
pub proof fn escapes_are_undone(b: u8, hi: u8, lo: u8, rest: Seq<u8>)
    requires
        b != 37,
    ensures
        unescaped(Seq::<u8>::empty()) == Some(Seq::<u8>::empty()),
        unescaped(rest) is None ==> unescaped(seq![b] + rest) is None,
        unescaped(rest) matches Some(v) ==> unescaped(seq![b] + rest) == Some(
            seq![
                if b == 43 {
                    32u8
                } else {
                    b
                },
            ] + v,
        ),
        nibble(hi) is Some && nibble(lo) is Some && unescaped(rest) is Some ==> unescaped(
            seq![37u8, hi, lo] + rest,
        ) == Some(seq![(nibble(hi)->0 * 16 + nibble(lo)->0) as u8] + unescaped(rest)->0),
        nibble(hi) is None || nibble(lo) is None ==> unescaped(seq![37u8, hi, lo] + rest) is None,
        48 <= hi <= 57 ==> nibble(hi) == Some((hi - 48) as u8),
        65 <= hi <= 70 ==> nibble(hi) == Some((hi - 55) as u8),
        97 <= hi <= 102 ==> nibble(hi) == Some((hi - 87) as u8),
        !(48 <= hi <= 57) && !(65 <= hi <= 70) && !(97 <= hi <= 102) ==> nibble(hi) is None,
{
    assert((seq![b] + rest).skip(1) =~= rest);
    assert((seq![37u8, hi, lo] + rest).skip(3) =~= rest);
}

/// A number in a form is its digits, where they name one that fits.
pub proof fn a_form_number_is_its_digits(body: Seq<u8>, name: Seq<u8>, n: u32)
    ensures
        form_field(body, name, 16) == bytes::decimal(n as nat) ==> form_number(body, name) == Some(n),
        form_field(body, name, 16).len() == 0 ==> form_number(body, name) is None,
        (exists|i: int|
            0 <= i < form_field(body, name, 16).len() && !(48 <= #[trigger] form_field(
                body,
                name,
                16,
            )[i] <= 57)) ==> form_number(body, name) is None,
{
    bytes::decimal_reads_back(n as nat);
    if exists|i: int|
        0 <= i < form_field(body, name, 16).len() && !(48 <= #[trigger] form_field(
            body,
            name,
            16,
        )[i] <= 57) {
        let i = choose|i: int|
            0 <= i < form_field(body, name, 16).len() && !(48 <= #[trigger] form_field(
                body,
                name,
                16,
            )[i] <= 57);
        assert(!bytes::is_digit(form_field(body, name, 16)[i]));
    }
}

} // verus!
