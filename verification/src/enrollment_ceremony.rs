//! The enrolment ceremony: the code that proves a mailbox, the transaction it is checked against,
//! the challenge that a device takes away and brings back, the certificate that it is given, and
//! the authenticator that it may attach to its record.
use vstd::prelude::*;
use vstd::slice::slice_to_vec;

use crate::base64;
use crate::bytes;
use crate::bytes::{append, bytes_equal, copy_field};
use crate::claims;
use crate::claims::{
    claim_is, claim_number_or, claim_or_empty, claim_str, claim_u64, json_safe, json_string,
    RecordWriter, Value,
};
use crate::crypto;
use crate::crypto::ed25519_verify;
use crate::device_auth;
use crate::jose;
use crate::jwk;
use crate::keys::Suite;
use crate::ledger::Status;

verus! {

/// The content type of a challenge token. It is what keeps another artefact of the same key from
/// being redeemed as a challenge.
pub const CHALLENGE_CTY: &'static str = "challenge+jwt";

/// The content type of a device certificate.
pub const CERTIFICATE_CTY: &'static str = "dc+jwt";

/// How long a challenge can be redeemed, in seconds.
pub const CHALLENGE_TTL_SECS: u64 = 600;

/// How long a certificate lives, in seconds.
pub const CERTIFICATE_TTL_SECS: u64 = 2592000;

/// Tolerated clock skew, in seconds.
pub const CLOCK_SKEW_SECS: u64 = 60;

/// Longest value read out of a body.
pub const MAX_FIELD: usize = 256;

/// Longest token.
pub const MAX_TOKEN: usize = 2048;

/// Longest nonce of a challenge.
pub const MAX_NONCE: usize = 48;

/// The length of a nonce that an operator drew. One that was drawn for the mail is longer, so that
/// nobody can adopt it and spend its attempts.
pub const OPERATOR_NONCE_LEN: usize = 11;

/// Digits of a code.
pub const CODE_DIGITS: usize = 8;

/// How many wrong codes burn a transaction.
pub const MAX_CODE_ATTEMPTS: u64 = 5;

/// How often random bytes are drawn for one code.
pub const MAX_DRAWS: u32 = 16;

/// Why a request is refused.
#[derive(Clone, Copy, Debug, PartialEq, Eq, Structural)]
pub enum Refusal {
    NoKey,
    NoEntropy,
    Malformed,
    BadChallenge,
    PkceMismatch,
    BadPossession,
    /// What was presented is not that of an enrolled device.
    Unauthenticated,
    /// The device holds an authenticator already.
    AlreadyRegistered,
    NoAuthenticator,
    /// The code holds at no step, or at one that was used.
    BadCode,
}

impl Refusal {
    pub open spec fn spec_status(self) -> u16 {
        match self {
            Refusal::NoKey => 503,
            Refusal::NoEntropy => 500,
            Refusal::Malformed => 400,
            Refusal::AlreadyRegistered => 409,
            Refusal::NoAuthenticator => 404,
            Refusal::BadChallenge | Refusal::PkceMismatch | Refusal::BadPossession
            | Refusal::Unauthenticated | Refusal::BadCode => 401,
        }
    }

    pub open spec fn spec_body(self) -> &'static str {
        match self {
            Refusal::NoKey => "{\"error\":\"temporarily_unavailable\"}",
            Refusal::NoEntropy => "{\"error\":\"server_error\",\"detail\":\"entropy\"}",
            Refusal::Malformed => "{\"error\":\"invalid_request\"}",
            Refusal::BadChallenge => "{\"error\":\"invalid_grant\",\"detail\":\"challenge\"}",
            Refusal::PkceMismatch => "{\"error\":\"invalid_grant\",\"detail\":\"pkce\"}",
            Refusal::BadPossession => "{\"error\":\"invalid_grant\",\"detail\":\"possession\"}",
            Refusal::Unauthenticated => "{\"error\":\"invalid_client\"}",
            Refusal::AlreadyRegistered => "{\"error\":\"conflict\",\"detail\":\"authenticator_exists\"}",
            Refusal::NoAuthenticator => "{\"error\":\"not_found\",\"detail\":\"no_authenticator\"}",
            Refusal::BadCode => "{\"error\":\"invalid_grant\",\"detail\":\"code\"}",
        }
    }

    pub fn status(self) -> (r: u16)
        ensures
            r == self.spec_status(),
    {
        match self {
            Refusal::NoKey => 503,
            Refusal::NoEntropy => 500,
            Refusal::Malformed => 400,
            Refusal::AlreadyRegistered => 409,
            Refusal::NoAuthenticator => 404,
            Refusal::BadChallenge | Refusal::PkceMismatch | Refusal::BadPossession
            | Refusal::Unauthenticated | Refusal::BadCode => 401,
        }
    }

    pub fn body(self) -> (r: &'static str)
        ensures
            r == self.spec_body(),
    {
        match self {
            Refusal::NoKey => "{\"error\":\"temporarily_unavailable\"}",
            Refusal::NoEntropy => "{\"error\":\"server_error\",\"detail\":\"entropy\"}",
            Refusal::Malformed => "{\"error\":\"invalid_request\"}",
            Refusal::BadChallenge => "{\"error\":\"invalid_grant\",\"detail\":\"challenge\"}",
            Refusal::PkceMismatch => "{\"error\":\"invalid_grant\",\"detail\":\"pkce\"}",
            Refusal::BadPossession => "{\"error\":\"invalid_grant\",\"detail\":\"possession\"}",
            Refusal::Unauthenticated => "{\"error\":\"invalid_client\"}",
            Refusal::AlreadyRegistered => "{\"error\":\"conflict\",\"detail\":\"authenticator_exists\"}",
            Refusal::NoAuthenticator => "{\"error\":\"not_found\",\"detail\":\"no_authenticator\"}",
            Refusal::BadCode => "{\"error\":\"invalid_grant\",\"detail\":\"code\"}",
        }
    }
}

// The code.

/// What a code's hash is taken over: the nonce of its transaction, then the code.
pub open spec fn code_message(nonce: Seq<u8>, code: Seq<u8>) -> Seq<u8> {
    bytes::clipped(nonce, 48) + bytes::clipped(code, 8)
}

/// The hash that stands for a code in its transaction. Without the key, who reads the ledger
/// learns nothing from it.
pub open spec fn hash_of(key: Seq<u8>, nonce: Seq<u8>, code: Seq<u8>) -> Seq<u8> {
    base64::encoded(crypto::hmac_sha256(key, code_message(nonce, code)))
}

/// The hash of a code.
pub fn code_hash(key: &[u8; 32], nonce: &[u8], code: &[u8]) -> (r: Vec<u8>)
    ensures
        r@ == hash_of(key@, nonce@, code@),
        r@.len() == 43,
{
    let mut message = copy_field(nonce, MAX_NONCE);
    let digits = copy_field(code, CODE_DIGITS);
    append(&mut message, digits.as_slice());
    let mac = crypto::authenticate(key.as_slice(), message.as_slice());
    proof {
        base64::encoding_length(mac@);
    }
    base64::encode(mac.as_slice())
}

/// A code is good for one transaction: what is hashed names one nonce and one code.
pub proof fn message_names_its_transaction(n1: Seq<u8>, c1: Seq<u8>, n2: Seq<u8>, c2: Seq<u8>)
    requires
        n1.len() <= MAX_NONCE,
        n2.len() <= MAX_NONCE,
        c1.len() == CODE_DIGITS,
        c2.len() == CODE_DIGITS,
        code_message(n1, c1) == code_message(n2, c2),
    ensures
        n1 == n2,
        c1 == c2,
{
    let m1 = code_message(n1, c1);
    let m2 = code_message(n2, c2);
    assert(m1.len() == n1.len() + 8 && m2.len() == n2.len() + 8);
    assert(m1.take(n1.len() as int) =~= n1);
    assert(m2.take(n2.len() as int) =~= n2);
    assert(m1.skip(n1.len() as int) =~= c1);
    assert(m2.skip(n2.len() as int) =~= c2);
}

/// Compare two hashes without telling where they first differ: every byte is looked at.
pub fn hashes_equal(a: &[u8], b: &[u8]) -> (r: bool)
    ensures
        r == (a@ == b@),
{
    if a.len() != b.len() {
        return false;
    }
    let mut diff: u8 = 0;
    let mut i: usize = 0;
    while i < a.len()
        invariant
            i <= a@.len(),
            a@.len() == b@.len(),
            diff == 0 <==> (forall|j: int| 0 <= j < i ==> a@[j] == b@[j]),
        decreases a@.len() - i,
    {
        let (x, y, d): (u8, u8, u8) = (a[i], b[i], diff);
        assert((d | (x ^ y)) == 0 <==> (d == 0 && x == y)) by (bit_vector);
        diff = d | (x ^ y);
        i = i + 1;
    }
    assert(diff == 0 <==> a@ =~= b@);
    diff == 0
}

/// A random byte that gives a digit: the ten digits share these evenly, and the rest is thrown
/// away.
pub open spec fn usable(b: u8) -> bool {
    b < 250
}

pub open spec fn digit(b: u8) -> u8 {
    (48 + b % 10) as u8
}

/// The digits that random bytes give.
pub open spec fn digits_of(raw: Seq<u8>) -> Seq<u8>
    decreases raw.len(),
{
    if raw.len() == 0 {
        Seq::empty()
    } else if usable(raw.last()) {
        digits_of(raw.drop_last()).push(digit(raw.last()))
    } else {
        digits_of(raw.drop_last())
    }
}

/// No digit is likelier than another: exactly the twenty-five bytes `10 * k + d` give the digit
/// `d`.
pub proof fn digits_are_even(d: u8, k: u8)
    requires
        d < 10,
        k < 25,
    ensures
        usable((10 * k + d) as u8),
        digit((10 * k + d) as u8) == 48 + d,
        forall|b: u8| #[trigger]
            usable(b) && digit(b) == 48 + d ==> b / 10 < 25 && b == 10 * (b / 10) + d,
{
}

/// What a draw of random bytes came to.
pub enum DrawStep {
    /// Draw again.
    More,
    Code([u8; 8]),
    /// No randomness, or not enough of it.
    NoEntropy,
}

/// A code while it is drawn.
pub struct CodeDraw {
    pub digits: Vec<u8>,
    pub draws: u32,
}

impl CodeDraw {
    pub open spec fn wf(self) -> bool {
        self.digits@.len() < 8 && self.draws < 16
    }

    pub fn new() -> (r: Self)
        ensures
            r.wf(),
            r.digits@.len() == 0,
            r.draws == 0,
    {
        CodeDraw { digits: Vec::new(), draws: 0 }
    }

    /// Take the digits of one draw of sixteen random bytes, until there are eight. `raw` is absent
    /// where the platform has no randomness to give.
    pub fn draw_code(&mut self, raw: Option<&[u8]>) -> (r: DrawStep)
        requires
            old(self).wf(),
        ensures
            match raw {
                None => r is NoEntropy && *final(self) == *old(self),
                Some(raw) => {
                    let all = old(self).digits@ + digits_of(raw@);
                    &&& final(self).draws == old(self).draws + 1
                    &&& final(self).digits@ == bytes::clipped(all, 8)
                    &&& if all.len() >= 8 {
                        r matches DrawStep::Code(code) && code@ == all.take(8)
                    } else if final(self).draws == 16 {
                        r is NoEntropy
                    } else {
                        r is More && final(self).wf()
                    }
                },
            },
    {
        let raw = match raw {
            Some(raw) => raw,
            None => {
                return DrawStep::NoEntropy;
            },
        };
        let ghost start = self.digits@;
        let mut i: usize = 0;
        assert(start + digits_of(raw@.take(0)) =~= start);
        while i < raw.len()
            invariant
                i <= raw@.len(),
                start.len() < 8,
                self.draws == old(self).draws < 16,
                self.digits@ == bytes::clipped(start + digits_of(raw@.take(i as int)), 8),
            decreases raw@.len() - i,
        {
            let ghost before = start + digits_of(raw@.take(i as int));
            assert(raw@.take(i as int + 1).drop_last() =~= raw@.take(i as int));
            if self.digits.len() < CODE_DIGITS && raw[i] < 250 {
                self.digits.push(48 + raw[i] % 10);
                assert(start + digits_of(raw@.take(i as int + 1)) =~= before.push(digit(raw@[i as int])));
            } else if raw[i] < 250 {
                assert(start + digits_of(raw@.take(i as int + 1)) =~= before.push(digit(raw@[i as int])));
                assert(before.push(digit(raw@[i as int])).take(8) =~= before.take(8));
            }
            i = i + 1;
        }
        assert(raw@.take(raw@.len() as int) =~= raw@);
        self.draws = self.draws + 1;
        if self.digits.len() == CODE_DIGITS {
            let d = &self.digits;
            let code: [u8; 8] = [d[0], d[1], d[2], d[3], d[4], d[5], d[6], d[7]];
            assert(code@ =~= self.digits@);
            return DrawStep::Code(code);
        }
        if self.draws >= MAX_DRAWS {
            return DrawStep::NoEntropy;
        }
        DrawStep::More
    }
}

/// The mail that carries a code: its head and one line, cut at 512 bytes.
pub open spec fn mail_text(from: Seq<u8>, to: Seq<u8>, code: Seq<u8>) -> Seq<u8> {
    bytes::clipped(
        bytes::text("From: ") + from + bytes::text("\r\nTo: ") + to + bytes::text(
            "\r\nSubject: Your enrolment code\r\nContent-Type: text/plain\r\n\r\nEnrolment code: ",
        ) + code + bytes::text("\r\n"),
        512,
    )
}

/// Compose the mail that carries a code.
pub fn enrolment_mail(from: &[u8], to: &[u8], code: &[u8]) -> (r: Vec<u8>)
    ensures
        r@ == mail_text(from@, to@, code@),
{
    let mut text: Vec<u8> = slice_to_vec("From: ".as_bytes());
    append(&mut text, from);
    append(&mut text, "\r\nTo: ".as_bytes());
    append(&mut text, to);
    append(
        &mut text,
        "\r\nSubject: Your enrolment code\r\nContent-Type: text/plain\r\n\r\nEnrolment code: ".as_bytes(),
    );
    append(&mut text, code);
    append(&mut text, "\r\n".as_bytes());
    copy_field(text.as_slice(), 512)
}

// The transaction.

/// The members of a transaction's record.
pub open spec fn transaction_members(attempts: nat, hash: Seq<u8>, state: Seq<u8>) -> Seq<
    (Seq<u8>, Value),
> {
    seq![
        (bytes::text("attempts"), Value::Number(attempts)),
        (bytes::text("code_hash"), Value::Text(hash)),
        (bytes::text("state"), Value::Text(state)),
    ]
}

/// The record of a transaction: how many wrong codes it has seen, the hash of the right one, and
/// whether it still waits for it.
pub open spec fn transaction(attempts: nat, hash: Seq<u8>, state: Seq<u8>) -> Seq<u8> {
    claims::record_bytes(transaction_members(attempts, hash, state))
}

/// Write the record of a transaction.
pub fn write_transaction(attempts: u64, hash: &[u8], state: &str) -> (r: Vec<u8>)
    ensures
        r@ == transaction(attempts as nat, hash@, bytes::text(state)),
{
    let mut w = RecordWriter::new();
    w.number("attempts", attempts);
    w.text("code_hash", hash);
    w.text("state", state.as_bytes());
    assert(w.members@ =~= transaction_members(attempts as nat, hash@, bytes::text(state)));
    w.close()
}

/// What the ledger's answer about a transaction means for the code that was presented.
pub enum Verdict {
    /// There is no transaction that a code could open: it expired, or too many wrong codes burned
    /// it.
    Absent,
    /// The ledger did not answer the question.
    Unavailable,
    /// The transaction does not wait for a code any more.
    Spent,
    Wrong { attempts: u64, stored: Vec<u8> },
    Right,
}

/// The hash that a wrong code leaves in the record.
pub open spec fn kept_hash(record: Seq<u8>) -> Seq<u8> {
    bytes::clipped(claims::text_or_empty(record, bytes::text("code_hash")), 43)
}

pub open spec fn verdict_is(
    v: Verdict,
    key: Seq<u8>,
    nonce: Seq<u8>,
    code: Seq<u8>,
    status: Status,
    record: Seq<u8>,
) -> bool {
    if status == Status::NotFound {
        v is Absent
    } else if status != Status::Success {
        v is Unavailable
    } else if claims::text_claim(record, bytes::text("state")) == Some(bytes::text("burned")) {
        v is Absent
    } else if claims::text_claim(record, bytes::text("state")) != Some(bytes::text("pending")) {
        v is Spent
    } else {
        match claims::text_claim(record, bytes::text("code_hash")) {
            None => v is Unavailable,
            Some(stored) => if stored != hash_of(key, nonce, code) {
                &&& v matches Verdict::Wrong { attempts, stored }
                &&& attempts == claims::number_or(record, bytes::text("attempts"), 0)
                &&& stored@ == kept_hash(record)
            } else {
                v is Right
            },
        }
    }
}

/// Check a presented code against the transaction that the ledger holds.
pub fn examine(key: &[u8; 32], nonce: &[u8], code: &[u8], status: Status, record: &[u8]) -> (r:
    Verdict)
    ensures
        verdict_is(r, key@, nonce@, code@, status, record@),
{
    match status {
        Status::NotFound => {
            return Verdict::Absent;
        },
        Status::Success => {},
        _ => {
            return Verdict::Unavailable;
        },
    }
    if claim_is(record, "state".as_bytes(), "burned".as_bytes()) {
        return Verdict::Absent;
    }
    if !claim_is(record, "state".as_bytes(), "pending".as_bytes()) {
        return Verdict::Spent;
    }
    let attempts: u64 = claim_number_or(record, "attempts".as_bytes(), 0);
    let stored = match claim_str(record, "code_hash".as_bytes()) {
        Some(stored) => stored,
        None => {
            return Verdict::Unavailable;
        },
    };
    let presented = code_hash(key, nonce, code);
    if !hashes_equal(stored, presented.as_slice()) {
        return Verdict::Wrong { attempts, stored: copy_field(stored, 43) };
    }
    Verdict::Right
}

/// One wrong code more.
pub open spec fn more_attempts(attempts: u64) -> u64 {
    if attempts == u64::MAX {
        attempts
    } else {
        (attempts + 1) as u64
    }
}

/// The record after a wrong code: the attempt is counted and the hash stays, or, when there were
/// enough of them, the transaction is burned and the hash is gone.
pub open spec fn after_wrong_code(attempts: u64, stored: Seq<u8>) -> Seq<u8> {
    let next = more_attempts(attempts);
    if next >= 5 {
        transaction(next as nat, Seq::empty(), bytes::text("burned"))
    } else {
        transaction(next as nat, stored, bytes::text("pending"))
    }
}

/// The record after a wrong code, and whether the transaction is burned.
pub fn write_wrong_code(attempts: u64, stored: &[u8]) -> (r: (Vec<u8>, bool))
    ensures
        r.0@ == after_wrong_code(attempts, stored@),
        r.1 == (more_attempts(attempts) >= 5),
{
    let next: u64 = attempts.saturating_add(1);
    if next >= MAX_CODE_ATTEMPTS {
        let none: [u8; 0] = [];
        assert(none@ =~= Seq::<u8>::empty());
        (write_transaction(next, none.as_slice(), "burned"), true)
    } else {
        (write_transaction(next, stored, "pending"), false)
    }
}

/// The record of a transaction that was spent.
pub open spec fn consumed_record() -> Seq<u8> {
    transaction(0, Seq::empty(), bytes::text("consumed"))
}

pub fn write_consumed() -> (r: Vec<u8>)
    ensures
        r@ == consumed_record(),
{
    let none: [u8; 0] = [];
    assert(none@ =~= Seq::<u8>::empty());
    write_transaction(0, none.as_slice(), "consumed")
}

proof fn lemma_transaction_names()
    ensures
        claims::plain_name(bytes::text("attempts")),
        bytes::text("attempts").len() == 8,
        claims::plain_name(bytes::text("code_hash")),
        bytes::text("code_hash").len() == 9,
        claims::plain_name(bytes::text("state")),
        bytes::text("state").len() == 5,
        claims::record_safe(bytes::text("pending")),
        claims::record_safe(bytes::text("burned")),
        claims::record_safe(bytes::text("consumed")),
        bytes::text("pending").len() == 7,
        bytes::text("burned").len() == 6,
        bytes::text("consumed").len() == 8,
{
    reveal_strlit("attempts");
    reveal_strlit("code_hash");
    reveal_strlit("state");
    reveal_strlit("pending");
    reveal_strlit("burned");
    reveal_strlit("consumed");
    assert("attempts".is_ascii());
    assert("code_hash".is_ascii());
    assert("state".is_ascii());
    assert("pending".is_ascii());
    assert("burned".is_ascii());
    assert("consumed".is_ascii());
    assert(bytes::text("attempts") =~= seq![97u8, 116, 116, 101, 109, 112, 116, 115]);
    assert(bytes::text("code_hash") =~= seq![99u8, 111, 100, 101, 95, 104, 97, 115, 104]);
    assert(bytes::text("state") =~= seq![115u8, 116, 97, 116, 101]);
    assert(bytes::text("pending") =~= seq![112u8, 101, 110, 100, 105, 110, 103]);
    assert(bytes::text("burned") =~= seq![98u8, 117, 114, 110, 101, 100]);
    assert(bytes::text("consumed") =~= seq![99u8, 111, 110, 115, 117, 109, 101, 100]);
}

/// A transaction reads back as it was written.
pub proof fn transaction_reads_back(attempts: u64, hash: Seq<u8>, state: Seq<u8>)
    requires
        claims::record_safe(hash),
        claims::record_safe(state),
    ensures
        ({
            let record = transaction(attempts as nat, hash, state);
            &&& claims::number_claim(record, bytes::text("attempts")) == Some(attempts)
            &&& claims::text_claim(record, bytes::text("code_hash")) == Some(hash)
            &&& claims::text_claim(record, bytes::text("state")) == Some(state)
        }),
{
    lemma_transaction_names();
    let m = transaction_members(attempts as nat, hash, state);
    assert(m[0].0.len() == 8 && m[1].0.len() == 9 && m[2].0.len() == 5);
    assert(claims::readable(m));
    claims::number_reads_back(m, 0);
    claims::text_reads_back(m, 1);
    claims::text_reads_back(m, 2);
}

/// A hash is made of letters, digits, hyphens and underscores.
proof fn lemma_hash_is_safe(key: Seq<u8>, nonce: Seq<u8>, code: Seq<u8>)
    ensures
        claims::record_safe(hash_of(key, nonce, code)),
{
    base64::lemma_sextets(crypto::hmac_sha256(key, code_message(nonce, code)));
}

/// The code that a transaction was made for is right, whatever wrong ones came before it that did
/// not burn it; and any code with another hash is wrong.
pub proof fn the_mailed_code_is_right(
    v: Verdict,
    key: Seq<u8>,
    nonce: Seq<u8>,
    code: Seq<u8>,
    presented: Seq<u8>,
    attempts: u64,
)
    requires
        verdict_is(
            v,
            key,
            nonce,
            presented,
            Status::Success,
            transaction(attempts as nat, hash_of(key, nonce, code), bytes::text("pending")),
        ),
    ensures
        presented == code ==> v is Right,
        hash_of(key, nonce, presented) != hash_of(key, nonce, code) ==> v is Wrong,
{
    lemma_hash_is_safe(key, nonce, code);
    lemma_transaction_names();
    transaction_reads_back(attempts, hash_of(key, nonce, code), bytes::text("pending"));
}

/// A transaction is redeemed once: when it is spent, no code is right any more.
pub proof fn a_spent_transaction_stays_spent(
    v: Verdict,
    key: Seq<u8>,
    nonce: Seq<u8>,
    code: Seq<u8>,
)
    requires
        verdict_is(v, key, nonce, code, Status::Success, consumed_record()),
    ensures
        v is Spent,
{
    lemma_transaction_names();
    transaction_reads_back(0, Seq::empty(), bytes::text("consumed"));
}

/// When enough wrong codes burned a transaction, every code finds it gone.
pub proof fn a_burned_transaction_is_gone(
    v: Verdict,
    key: Seq<u8>,
    nonce: Seq<u8>,
    code: Seq<u8>,
    attempts: u64,
    stored: Seq<u8>,
)
    requires
        more_attempts(attempts) >= MAX_CODE_ATTEMPTS,
        verdict_is(v, key, nonce, code, Status::Success, after_wrong_code(attempts, stored)),
    ensures
        v is Absent,
{
    lemma_transaction_names();
    transaction_reads_back(more_attempts(attempts), Seq::empty(), bytes::text("burned"));
}

/// A wrong code costs one attempt and nothing else, until there were enough of them: the record
/// that it leaves has the same hash.
pub proof fn a_wrong_code_costs_an_attempt(attempts: u64, stored: Seq<u8>)
    requires
        more_attempts(attempts) < MAX_CODE_ATTEMPTS,
        claims::record_safe(stored),
        stored.len() <= 43,
    ensures
        ({
            let before = transaction(attempts as nat, stored, bytes::text("pending"));
            after_wrong_code(
                claims::number_or(before, bytes::text("attempts"), 0),
                kept_hash(before),
            ) == transaction((attempts + 1) as nat, stored, bytes::text("pending"))
        }),
{
    lemma_transaction_names();
    transaction_reads_back(attempts, stored, bytes::text("pending"));
}

// The challenge.

/// The device key of a request's body, in its canonical form.
pub fn canonical_device_jwk(body: &[u8]) -> (r: Option<Vec<u8>>)
    ensures
        match r {
            Some(c) => jwk::canonical(body@) == Some(c@),
            None => jwk::canonical(body@) is None,
        },
{
    jwk::read_canonical(body)
}

/// The mailbox that a body names.
pub open spec fn email_of(body: Seq<u8>) -> Seq<u8> {
    claims::short_claim(body, bytes::text("email"), 256)
}

/// The hash that stands for a mailbox.
pub open spec fn inbox_hash(email: Seq<u8>) -> Seq<u8> {
    base64::encoded(crypto::sha256(email))
}

/// The transaction of an operator that a body names.
pub open spec fn adopted_of(body: Seq<u8>) -> Seq<u8> {
    claims::short_claim(body, bytes::text("transaction"), 256)
}

pub open spec fn code_challenge_of(body: Seq<u8>) -> Seq<u8> {
    claims::short_claim(body, bytes::text("code_challenge"), 256)
}

/// A body that names a mailbox or an operator's transaction, but not both, a device key, and the
/// challenge of a verifier.
pub open spec fn start_well_made(body: Seq<u8>) -> bool {
    &&& (email_of(body).len() == 0) != (adopted_of(body).len() == 0)
    &&& jwk::canonical(body) is Some
    &&& code_challenge_of(body).len() == 43
    &&& adopted_of(body).len() > 0 ==> adopted_of(body).len() == 11
}

/// The nonce of the challenge: that of the operator's transaction, or one that was drawn.
pub open spec fn nonce_for(body: Seq<u8>, drawn: Option<[u8; 16]>) -> Seq<u8> {
    if adopted_of(body).len() > 0 {
        adopted_of(body)
    } else {
        base64::encoded((drawn->0)@)
    }
}

/// The claims of a challenge. It carries hashes of the mailbox and of the key, since whoever asked
/// for it keeps it in their logs; and the tenant, which is derived from the address and so cannot
/// be derived any more where the challenge comes back.
pub open spec fn challenge_members(
    iss: Seq<u8>,
    code_challenge: Seq<u8>,
    email: Seq<u8>,
    nonce: Seq<u8>,
    canonical: Seq<u8>,
    seed: Seq<u8>,
    now: u64,
) -> Seq<(Seq<u8>, Value)> {
    seq![
        (bytes::text("aud"), Value::Text(iss)),
        (bytes::text("code_challenge"), Value::Text(code_challenge)),
        (bytes::text("code_challenge_method"), Value::Text(bytes::text("S256"))),
        (bytes::text("email_hash"), Value::Text(inbox_hash(email))),
        (bytes::text("exp"), Value::Number((now + CHALLENGE_TTL_SECS) as nat)),
        (bytes::text("iat"), Value::Number(now as nat)),
        (bytes::text("iss"), Value::Text(iss)),
        (bytes::text("nbf"), Value::Number(now as nat)),
        (bytes::text("nonce"), Value::Text(nonce)),
        (bytes::text("pubkey_hash"), Value::Text(jwk::thumbprint(canonical))),
        (bytes::text("tenant"), Value::Text(jwk::tenant(seed, email))),
    ]
}

/// The claims of the challenge that a body asks for.
pub open spec fn challenge_claims(
    body: Seq<u8>,
    iss: Seq<u8>,
    seed: Seq<u8>,
    drawn: Option<[u8; 16]>,
    now: u64,
) -> Seq<u8> {
    claims::record_bytes(
        challenge_members(
            iss,
            code_challenge_of(body),
            email_of(body),
            nonce_for(body, drawn),
            jwk::canonical(body)->0,
            seed,
            now,
        ),
    )
}

/// Everything that goes into a challenge from outside can stand in it.
pub open spec fn challenge_safe(body: Seq<u8>, iss: Seq<u8>, drawn: Option<[u8; 16]>) -> bool {
    &&& claims::record_safe(iss)
    &&& claims::record_safe(code_challenge_of(body))
    &&& claims::record_safe(nonce_for(body, drawn))
}

/// Why no challenge is composed.
pub open spec fn start_refusal(
    body: Seq<u8>,
    iss: Seq<u8>,
    kid: Seq<u8>,
    seed: Seq<u8>,
    drawn: Option<[u8; 16]>,
    code: Option<[u8; 8]>,
    now: Option<u64>,
) -> Option<Refusal> {
    if !start_well_made(body) {
        Some(Refusal::Malformed)
    } else if adopted_of(body).len() == 0 && (drawn is None || code is None) {
        Some(Refusal::NoEntropy)
    } else if now is None || now == Some(0u64) {
        Some(Refusal::NoKey)
    } else {
        let record = challenge_claims(body, iss, seed, drawn, now->0);
        if !challenge_safe(body, iss, drawn) || record.len() > 1024 || !jose::eddsa_fits(
            bytes::text(CHALLENGE_CTY),
            kid,
            record,
            2048,
        ) {
            Some(Refusal::Malformed)
        } else {
            None
        }
    }
}

/// A challenge that waits to be signed, and the transaction that it is for.
pub struct StartDraft {
    /// The transaction is an operator's, and exists already.
    pub adopted: bool,
    pub nonce: Vec<u8>,
    /// The code to be mailed: none for an adopted transaction.
    pub code: Vec<u8>,
    pub email: Vec<u8>,
    pub expires_at: u64,
    /// What is to be signed.
    pub input: Vec<u8>,
}

pub open spec fn draft_of(
    draft: StartDraft,
    body: Seq<u8>,
    iss: Seq<u8>,
    kid: Seq<u8>,
    seed: Seq<u8>,
    drawn: Option<[u8; 16]>,
    code: Option<[u8; 8]>,
    now: u64,
) -> bool {
    &&& draft.adopted == (adopted_of(body).len() > 0)
    &&& draft.nonce@ == nonce_for(body, drawn)
    &&& draft.code@ == if adopted_of(body).len() > 0 {
        Seq::empty()
    } else {
        (code->0)@
    }
    &&& draft.email@ == email_of(body)
    &&& draft.expires_at == now + CHALLENGE_TTL_SECS
    &&& draft.input@ == jose::eddsa_input(
        bytes::text(CHALLENGE_CTY),
        kid,
        challenge_claims(body, iss, seed, drawn, now),
    )
}

/// Compose the challenge that a body asks for: it binds a mailbox, a device key and the challenge
/// of a verifier. `seed` is the secret that tenants are derived from; `drawn` and `code` are random,
/// and absent where there is no randomness; `now` is absent where no clock is trusted.
#[verifier::rlimit(60)]
pub fn compose_challenge(
    body: &[u8],
    iss: &[u8],
    kid: &[u8],
    seed: &[u8],
    drawn: Option<[u8; 16]>,
    code: Option<[u8; 8]>,
    now: Option<u64>,
) -> (r: Result<StartDraft, Refusal>)
    requires
        now matches Some(t) ==> t + CHALLENGE_TTL_SECS <= u64::MAX,
    ensures
        match r {
            Ok(draft) => start_refusal(body@, iss@, kid@, seed@, drawn, code, now) is None
                && draft_of(draft, body@, iss@, kid@, seed@, drawn, code, now->0),
            Err(why) => start_refusal(body@, iss@, kid@, seed@, drawn, code, now) == Some(why),
        },
{
    let email = json_string(body, "email".as_bytes(), MAX_FIELD);
    let challenge = json_string(body, "code_challenge".as_bytes(), MAX_FIELD);
    let adopt = json_string(body, "transaction".as_bytes(), MAX_FIELD);
    if (email.len() == 0) == (adopt.len() == 0) {
        return Err(Refusal::Malformed);
    }
    let canonical = match canonical_device_jwk(body) {
        Some(canonical) => canonical,
        None => {
            return Err(Refusal::Malformed);
        },
    };
    if challenge.len() != 43 || (adopt.len() > 0 && adopt.len() != OPERATOR_NONCE_LEN) {
        return Err(Refusal::Malformed);
    }
    let adopted = adopt.len() > 0;
    let mut digits: Vec<u8> = Vec::new();
    let nonce = if adopted {
        adopt
    } else {
        match (drawn, code) {
            (Some(bytes), Some(code)) => {
                digits = slice_to_vec(code.as_slice());
                base64::encode(bytes.as_slice())
            },
            _ => {
                return Err(Refusal::NoEntropy);
            },
        }
    };
    let at: u64 = match now {
        Some(at) => at,
        None => {
            return Err(Refusal::NoKey);
        },
    };
    if at == 0 {
        return Err(Refusal::NoKey);
    }
    if !json_safe(iss) || !json_safe(challenge.as_slice()) || !json_safe(nonce.as_slice()) {
        return Err(Refusal::Malformed);
    }
    let email_hash = jwk::encode_digest(email.as_slice());
    let pubkey_hash = jwk::thumbprint_from_canonical(canonical.as_slice());
    let tenant = jwk::tenant_id(seed, email.as_slice());
    let mut w = RecordWriter::new();
    w.text("aud", iss);
    w.text("code_challenge", challenge.as_slice());
    w.text("code_challenge_method", "S256".as_bytes());
    w.text("email_hash", email_hash.as_slice());
    w.number("exp", at + CHALLENGE_TTL_SECS);
    w.number("iat", at);
    w.text("iss", iss);
    w.number("nbf", at);
    w.text("nonce", nonce.as_slice());
    w.text("pubkey_hash", pubkey_hash.as_slice());
    w.text("tenant", tenant.as_slice());
    assert(w.members@ =~= challenge_members(
        iss@,
        code_challenge_of(body@),
        email_of(body@),
        nonce_for(body@, drawn),
        canonical@,
        seed@,
        at,
    ));
    let record = match w.finish(1024) {
        Some(record) => record,
        None => {
            return Err(Refusal::Malformed);
        },
    };
    let input = match jose::open_jws(CHALLENGE_CTY.as_bytes(), kid, record.as_slice(), MAX_TOKEN) {
        Some(input) => input,
        None => {
            return Err(Refusal::Malformed);
        },
    };
    Ok(
        StartDraft {
            adopted,
            nonce,
            code: digits,
            email,
            expires_at: at + CHALLENGE_TTL_SECS,
            input,
        },
    )
}

// The redemption.

pub open spec fn token_of(body: Seq<u8>) -> Seq<u8> {
    claims::short_claim(body, bytes::text("challenge_token"), 2048)
}

pub open spec fn verifier_of(body: Seq<u8>) -> Seq<u8> {
    claims::short_claim(body, bytes::text("code_verifier"), 128)
}

pub open spec fn code_of(body: Seq<u8>) -> Seq<u8> {
    claims::short_claim(body, bytes::text("code"), 8)
}

pub open spec fn proof_text_of(body: Seq<u8>) -> Seq<u8> {
    claims::short_claim(body, bytes::text("pop_sig"), 128)
}

/// A body that holds a code of eight digits, a challenge, a device key, a proof and a verifier of
/// the right length.
pub open spec fn redeem_well_made(body: Seq<u8>) -> bool {
    &&& code_of(body).len() == 8
    &&& bytes::all_digits(code_of(body))
    &&& token_of(body).len() > 0
    &&& jwk::canonical(body) is Some
    &&& proof_text_of(body).len() > 0
    &&& verifier_of(body).len() >= 43
}

/// The claims of a token that is a challenge and that `public` signed.
pub open spec fn challenge_in(token: Seq<u8>, public: Seq<u8>) -> Option<Seq<u8>> {
    match jose::parts(token) {
        None => None,
        Some((h, p, s)) => {
            let signature = base64::decoded_or_empty(s, 64);
            if base64::decoded(h, 256) is None || claims::text_claim(
                base64::decoded(h, 256)->0,
                bytes::text("cty"),
            ) != Some(bytes::text(CHALLENGE_CTY)) {
                None
            } else if signature.len() != 64 || public.len() != 32 || !crypto::ed25519_valid(
                public,
                jose::signing_input(h, p),
                signature,
            ) {
                None
            } else {
                base64::decoded(p, 1024)
            }
        },
    }
}

/// Read a token that is a challenge and that `public` signed.
pub fn open_challenge(token: &[u8], public: &[u8]) -> (r: Option<Vec<u8>>)
    ensures
        match r {
            Some(c) => challenge_in(token@, public@) == Some(c@),
            None => challenge_in(token@, public@) is None,
        },
{
    let jws = match jose::split(token) {
        Some(jws) => jws,
        None => {
            return None;
        },
    };
    let header = match base64::decode(jws.header_b64, 256) {
        Some(header) => header,
        None => {
            return None;
        },
    };
    if !claim_is(header.as_slice(), "cty".as_bytes(), CHALLENGE_CTY.as_bytes()) {
        return None;
    }
    let signature = base64::decode_or_empty(jws.signature_b64, 64);
    if signature.len() != 64 || public.len() != 32 || !ed25519_verify(
        public,
        jws.signing_input,
        signature.as_slice(),
    ) {
        return None;
    }
    base64::decode(jws.payload_b64, 1024)
}

/// The challenge can be redeemed now: it is not past its end nor, but for the tolerated skew,
/// before its beginning.
pub open spec fn challenge_live(challenge: Seq<u8>, now: u64) -> bool {
    match (
        claims::number_claim(challenge, bytes::text("exp")),
        claims::number_claim(challenge, bytes::text("nbf")),
    ) {
        (Some(exp), Some(nbf)) => now < exp && (nbf <= now + CLOCK_SKEW_SECS || now
            + CLOCK_SKEW_SECS > u64::MAX),
        _ => false,
    }
}

/// The challenge names a transaction and the challenge of a verifier.
pub open spec fn challenge_complete(challenge: Seq<u8>) -> bool {
    &&& claims::text_claim(challenge, bytes::text("nonce")) matches Some(nonce) && 0 < nonce.len()
        <= 48
    &&& claims::text_claim(challenge, bytes::text("code_challenge")) is Some
    &&& claims::text_claim(challenge, bytes::text("code_challenge_method")) == Some(
        bytes::text("S256"),
    )
}

/// The claims of a certificate, which are the device's record too: what the enrolment proved, and
/// no more than that.
pub open spec fn certificate_members(
    canonical: Seq<u8>,
    email_hash: Seq<u8>,
    iss: Seq<u8>,
    tenant: Seq<u8>,
    now: u64,
) -> Seq<(Seq<u8>, Value)> {
    seq![
        (bytes::text("cnf"), Value::Object(bytes::text("jkt"), jwk::thumbprint(canonical))),
        (bytes::text("device_id"), Value::Text(bytes::text("dev_") + jwk::device_id(canonical))),
        (bytes::text("email_hash"), Value::Text(email_hash)),
        (bytes::text("amr"), Value::List(bytes::text("\"email\",\"pop\""))),
        (bytes::text("key_binding"), Value::Text(bytes::text("software"))),
        (bytes::text("exp"), Value::Number((now + CERTIFICATE_TTL_SECS) as nat)),
        (bytes::text("iat"), Value::Number(now as nat)),
        (bytes::text("iss"), Value::Text(iss)),
        (bytes::text("sub"), Value::Text(bytes::text("tenant_") + tenant)),
    ]
}

pub open spec fn certificate_claims(
    canonical: Seq<u8>,
    email_hash: Seq<u8>,
    iss: Seq<u8>,
    tenant: Seq<u8>,
    now: u64,
) -> Seq<u8> {
    claims::record_bytes(certificate_members(canonical, email_hash, iss, tenant, now))
}

/// The tenant that a challenge enrols under: the one that it names. One that names none says no
/// more of its mailbox than the hash, and the tenant is derived from that.
pub open spec fn tenant_of(challenge: Seq<u8>, seed: Seq<u8>) -> Seq<u8> {
    match claims::text_claim(challenge, bytes::text("tenant")) {
        Some(tenant) => tenant,
        None => jwk::tenant(
            seed,
            claims::text_or_empty(challenge, bytes::text("email_hash")),
        ),
    }
}

/// The certificate can be composed.
pub open spec fn certificate_fits(
    canonical: Seq<u8>,
    email_hash: Seq<u8>,
    iss: Seq<u8>,
    kid: Seq<u8>,
    tenant: Seq<u8>,
    now: u64,
) -> bool {
    let record = certificate_claims(canonical, email_hash, iss, tenant, now);
    &&& claims::record_safe(email_hash)
    &&& claims::record_safe(iss)
    &&& claims::record_safe(tenant)
    &&& record.len() <= 1024
    &&& jose::eddsa_fits(bytes::text(CERTIFICATE_CTY), kid, record, 2048)
}

/// Why a challenge that was brought back is not redeemed.
pub open spec fn bound_refusal(body: Seq<u8>, challenge: Seq<u8>) -> Option<Refusal> {
    let bound = claims::text_claim(challenge, bytes::text("pubkey_hash"));
    let canonical = jwk::canonical(body)->0;
    let signature = base64::decoded_or_empty(proof_text_of(body), 64);
    if Some(base64::encoded(crypto::sha256(verifier_of(body)))) != claims::text_claim(
        challenge,
        bytes::text("code_challenge"),
    ) {
        Some(Refusal::PkceMismatch)
    } else if bound is None {
        Some(Refusal::BadChallenge)
    } else if bound != Some(jwk::thumbprint(canonical)) {
        Some(Refusal::BadPossession)
    } else if signature.len() != 64 || !jwk::signed_by(canonical, token_of(body), signature) {
        Some(Refusal::BadPossession)
    } else if claims::text_claim(challenge, bytes::text("email_hash")) is None {
        Some(Refusal::BadChallenge)
    } else {
        None
    }
}

/// Why a redemption is refused.
pub open spec fn redeem_refusal(
    body: Seq<u8>,
    public: Seq<u8>,
    iss: Seq<u8>,
    kid: Seq<u8>,
    seed: Seq<u8>,
    now: Option<u64>,
) -> Option<Refusal> {
    if !redeem_well_made(body) {
        Some(Refusal::Malformed)
    } else {
        match (challenge_in(token_of(body), public), now) {
            (Some(challenge), Some(now)) => if !challenge_live(challenge, now)
                || !challenge_complete(challenge) {
                Some(Refusal::BadChallenge)
            } else {
                match bound_refusal(body, challenge) {
                    Some(why) => Some(why),
                    None => if !certificate_fits(
                        jwk::canonical(body)->0,
                        claims::text_or_empty(challenge, bytes::text("email_hash")),
                        iss,
                        kid,
                        tenant_of(challenge, seed),
                        now,
                    ) {
                        Some(Refusal::Malformed)
                    } else {
                        None
                    },
                }
            },
            _ => Some(Refusal::BadChallenge),
        }
    }
}

/// A certificate that waits to be signed, and what has to be recorded before it is handed over.
pub struct RedeemDraft {
    pub nonce: Vec<u8>,
    pub code: Vec<u8>,
    pub device_id: Vec<u8>,
    /// The certificate's own claims.
    pub claims: Vec<u8>,
    /// What is to be signed.
    pub input: Vec<u8>,
}

pub open spec fn redemption_of(
    draft: RedeemDraft,
    body: Seq<u8>,
    public: Seq<u8>,
    iss: Seq<u8>,
    kid: Seq<u8>,
    seed: Seq<u8>,
    now: u64,
) -> bool {
    let challenge = challenge_in(token_of(body), public)->0;
    let canonical = jwk::canonical(body)->0;
    let email_hash = claims::text_or_empty(challenge, bytes::text("email_hash"));
    &&& draft.nonce@ == claims::text_or_empty(challenge, bytes::text("nonce"))
    &&& draft.code@ == code_of(body)
    &&& draft.device_id@ == bytes::text("dev_") + jwk::device_id(canonical)
    &&& draft.claims@ == certificate_claims(
        canonical,
        email_hash,
        iss,
        tenant_of(challenge, seed),
        now,
    )
    &&& draft.input@ == jose::eddsa_input(bytes::text(CERTIFICATE_CTY), kid, draft.claims@)
}

fn all_digits(s: &[u8]) -> (r: bool)
    ensures
        r == bytes::all_digits(s@),
{
    let mut i: usize = 0;
    while i < s.len()
        invariant
            i <= s@.len(),
            forall|j: int| 0 <= j < i ==> bytes::is_digit(#[trigger] s@[j]),
        decreases s@.len() - i,
    {
        if s[i] < 48 || s[i] > 57 {
            return false;
        }
        i = i + 1;
    }
    true
}

/// Verify a proof of possession under the device's own key.
pub fn verify_device_possession(canonical: &[u8], message: &[u8], signature: &[u8]) -> (r: bool)
    ensures
        r == jwk::signed_by(canonical@, message@, signature@),
{
    jwk::verify(canonical, message, signature)
}

/// Check that the party that redeems a challenge is the one that started, and holds its key.
fn check_bound(body: &[u8], challenge: &[u8]) -> (r: Option<Refusal>)
    requires
        redeem_well_made(body@),
        challenge_complete(challenge@),
    ensures
        r == bound_refusal(body@, challenge@),
{
    let token = json_string(body, "challenge_token".as_bytes(), MAX_TOKEN);
    let verifier = json_string(body, "code_verifier".as_bytes(), 128);
    let encoded = json_string(body, "pop_sig".as_bytes(), 128);
    let presented = jwk::encode_digest(verifier.as_slice());
    if !claim_is(challenge, "code_challenge".as_bytes(), presented.as_slice()) {
        return Some(Refusal::PkceMismatch);
    }
    let bound = match claim_str(challenge, "pubkey_hash".as_bytes()) {
        Some(bound) => bound,
        None => {
            return Some(Refusal::BadChallenge);
        },
    };
    let canonical = match canonical_device_jwk(body) {
        Some(canonical) => canonical,
        None => {
            return Some(Refusal::Malformed);
        },
    };
    let key = jwk::thumbprint_from_canonical(canonical.as_slice());
    if !bytes_equal(bound, key.as_slice()) {
        return Some(Refusal::BadPossession);
    }
    let signature = base64::decode_or_empty(encoded.as_slice(), 64);
    if signature.len() != 64 || !verify_device_possession(
        canonical.as_slice(),
        token.as_slice(),
        signature.as_slice(),
    ) {
        return Some(Refusal::BadPossession);
    }
    if claim_str(challenge, "email_hash".as_bytes()).is_none() {
        return Some(Refusal::BadChallenge);
    }
    None
}

/// Write the claims of a certificate.
fn write_certificate(
    canonical: &[u8],
    email_hash: &[u8],
    iss: &[u8],
    tenant: &[u8],
    device_id: &[u8],
    now: u64,
) -> (r: Vec<u8>)
    requires
        now + CERTIFICATE_TTL_SECS <= u64::MAX,
        device_id@ == bytes::text("dev_") + jwk::device_id(canonical@),
    ensures
        r@ == claims::record_bytes(
            certificate_members(canonical@, email_hash@, iss@, tenant@, now),
        ),
{
    let key = jwk::thumbprint_from_canonical(canonical);
    let mut sub = slice_to_vec("tenant_".as_bytes());
    append(&mut sub, tenant);
    let mut w = RecordWriter::new();
    w.object("cnf", "jkt", key.as_slice());
    w.text("device_id", device_id);
    w.text("email_hash", email_hash);
    w.list("amr", "\"email\",\"pop\"".as_bytes());
    w.text("key_binding", "software".as_bytes());
    w.number("exp", now + CERTIFICATE_TTL_SECS);
    w.number("iat", now);
    w.text("iss", iss);
    w.text("sub", sub.as_slice());
    assert(w.members@ =~= certificate_members(canonical@, email_hash@, iss@, tenant@, now));
    w.close()
}

/// Check a challenge that was brought back, and compose the certificate. `public` is the public
/// half of this issuer's key; `now` is absent where no clock is trusted.
pub fn compose_certificate(
    body: &[u8],
    public: &[u8],
    iss: &[u8],
    kid: &[u8],
    seed: &[u8],
    now: Option<u64>,
) -> (r: Result<RedeemDraft, Refusal>)
    requires
        now matches Some(t) ==> t + CERTIFICATE_TTL_SECS <= u64::MAX,
    ensures
        match r {
            Ok(draft) => redeem_refusal(body@, public@, iss@, kid@, seed@, now) is None
                && redemption_of(draft, body@, public@, iss@, kid@, seed@, now->0),
            Err(why) => redeem_refusal(body@, public@, iss@, kid@, seed@, now) == Some(why),
        },
{
    let token = json_string(body, "challenge_token".as_bytes(), MAX_TOKEN);
    let verifier = json_string(body, "code_verifier".as_bytes(), 128);
    let encoded = json_string(body, "pop_sig".as_bytes(), 128);
    let code = json_string(body, "code".as_bytes(), CODE_DIGITS);
    if code.len() != CODE_DIGITS || !all_digits(code.as_slice()) {
        return Err(Refusal::Malformed);
    }
    let canonical = match canonical_device_jwk(body) {
        Some(canonical) => canonical,
        None => {
            return Err(Refusal::Malformed);
        },
    };
    if token.len() == 0 || encoded.len() == 0 || verifier.len() < 43 {
        return Err(Refusal::Malformed);
    }
    let challenge = match open_challenge(token.as_slice(), public) {
        Some(challenge) => challenge,
        None => {
            return Err(Refusal::BadChallenge);
        },
    };
    let at: u64 = match now {
        Some(at) => at,
        None => {
            return Err(Refusal::BadChallenge);
        },
    };
    let (exp, nbf) = match (
        claim_u64(challenge.as_slice(), "exp".as_bytes()),
        claim_u64(challenge.as_slice(), "nbf".as_bytes()),
    ) {
        (Some(exp), Some(nbf)) => (exp, nbf),
        _ => {
            return Err(Refusal::BadChallenge);
        },
    };
    if at >= exp || nbf > at.saturating_add(CLOCK_SKEW_SECS) {
        return Err(Refusal::BadChallenge);
    }
    let nonce = claim_or_empty(challenge.as_slice(), "nonce".as_bytes());
    if nonce.len() == 0 || nonce.len() > MAX_NONCE || claim_str(
        challenge.as_slice(),
        "code_challenge".as_bytes(),
    ).is_none() || !claim_is(
        challenge.as_slice(),
        "code_challenge_method".as_bytes(),
        "S256".as_bytes(),
    ) {
        return Err(Refusal::BadChallenge);
    }
    if let Some(why) = check_bound(body, challenge.as_slice()) {
        return Err(why);
    }
    let email_hash = claim_or_empty(challenge.as_slice(), "email_hash".as_bytes());
    let tenant = match claim_str(challenge.as_slice(), "tenant".as_bytes()) {
        Some(tenant) => slice_to_vec(tenant),
        None => jwk::tenant_id(seed, email_hash),
    };
    if !json_safe(email_hash) || !json_safe(iss) || !json_safe(tenant.as_slice()) {
        return Err(Refusal::Malformed);
    }
    let own = jwk::device_id_from_canonical(canonical.as_slice());
    let mut device_id = slice_to_vec("dev_".as_bytes());
    append(&mut device_id, own.as_slice());
    let record = write_certificate(
        canonical.as_slice(),
        email_hash,
        iss,
        tenant.as_slice(),
        device_id.as_slice(),
        at,
    );
    if record.len() > 1024 {
        return Err(Refusal::Malformed);
    }
    match jose::open_jws(CERTIFICATE_CTY.as_bytes(), kid, record.as_slice(), MAX_TOKEN) {
        Some(input) => Ok(
            RedeemDraft { nonce: slice_to_vec(nonce), code, device_id, claims: record, input },
        ),
        None => Err(Refusal::Malformed),
    }
}

// What holds of the ceremony as a whole.

/// An encoding can stand in a record.
proof fn lemma_encoding_is_safe(data: Seq<u8>)
    ensures
        claims::record_safe(base64::encoded(data)),
{
    base64::lemma_sextets(data);
}

proof fn lemma_header_names()
    ensures
        claims::plain_name(bytes::text("alg")),
        bytes::text("alg").len() == 3,
        bytes::text("alg")[0] == 97,
        bytes::text("alg")[1] == 108,
        claims::plain_name(bytes::text("cty")),
        bytes::text("cty").len() == 3,
        bytes::text("cty")[0] == 99,
        bytes::text("cty")[1] == 116,
        claims::plain_name(bytes::text("kid")),
        bytes::text("kid").len() == 3,
        bytes::text("kid")[0] == 107,
        bytes::text("kid")[1] == 105,
        claims::plain_name(bytes::text("typ")),
        bytes::text("typ").len() == 3,
        bytes::text("typ")[0] == 116,
        bytes::text("typ")[1] == 121,
        claims::record_safe(bytes::text("EdDSA")),
        bytes::text("EdDSA").len() == 5,
        claims::record_safe(bytes::text("JWT")),
        bytes::text("JWT").len() == 3,
        claims::record_safe(bytes::text("challenge+jwt")),
        bytes::text("challenge+jwt").len() == 13,
        claims::record_safe(bytes::text("dc+jwt")),
        bytes::text("dc+jwt").len() == 6,
{
    reveal_strlit("alg");
    assert("alg".is_ascii());
    assert(bytes::text("alg") =~= seq![97u8, 108, 103]);
    reveal_strlit("cty");
    assert("cty".is_ascii());
    assert(bytes::text("cty") =~= seq![99u8, 116, 121]);
    reveal_strlit("kid");
    assert("kid".is_ascii());
    assert(bytes::text("kid") =~= seq![107u8, 105, 100]);
    reveal_strlit("typ");
    assert("typ".is_ascii());
    assert(bytes::text("typ") =~= seq![116u8, 121, 112]);
    reveal_strlit("EdDSA");
    assert("EdDSA".is_ascii());
    assert(bytes::text("EdDSA") =~= seq![69u8, 100, 68, 83, 65]);
    reveal_strlit("JWT");
    assert("JWT".is_ascii());
    assert(bytes::text("JWT") =~= seq![74u8, 87, 84]);
    reveal_strlit("challenge+jwt");
    assert("challenge+jwt".is_ascii());
    assert(bytes::text("challenge+jwt") =~= seq![99u8, 104, 97, 108, 108, 101, 110, 103, 101, 43, 106, 119, 116]);
    reveal_strlit("dc+jwt");
    assert("dc+jwt".is_ascii());
    assert(bytes::text("dc+jwt") =~= seq![100u8, 99, 43, 106, 119, 116]);
}

/// The content type of a token's header reads back.
proof fn lemma_header_cty(cty: Seq<u8>, kid: Seq<u8>)
    requires
        claims::record_safe(cty),
        claims::record_safe(kid),
    ensures
        claims::text_claim(jose::eddsa_header(cty, kid), bytes::text("cty")) == Some(cty),
{
    lemma_header_names();
    let m: Seq<(Seq<u8>, Value)> = seq![
        (bytes::text("alg"), Value::Text(bytes::text("EdDSA"))),
        (bytes::text("cty"), Value::Text(cty)),
        (bytes::text("kid"), Value::Text(kid)),
        (bytes::text("typ"), Value::Text(bytes::text("JWT"))),
    ];
    assert(m[0].0[0] == 97 && m[1].0[0] == 99 && m[2].0[0] == 107 && m[3].0[0] == 116);
    assert(claims::readable(m));
    claims::text_reads_back(m, 1);
}

/// What was signed as a challenge is read back as that challenge.
pub proof fn a_signed_challenge_opens(kid: Seq<u8>, record: Seq<u8>, signature: Seq<u8>, public: Seq<u8>)
    requires
        jose::eddsa_fits(bytes::text(CHALLENGE_CTY), kid, record, MAX_TOKEN as nat),
        record.len() <= 1024,
        signature.len() == 64,
        public.len() == 32,
        crypto::ed25519_valid(
            public,
            jose::eddsa_input(bytes::text(CHALLENGE_CTY), kid, record),
            signature,
        ),
    ensures
        challenge_in(
            jose::closed(jose::eddsa_input(bytes::text(CHALLENGE_CTY), kid, record), signature),
            public,
        ) == Some(record),
{
    let cty = bytes::text(CHALLENGE_CTY);
    jose::closed_splits(cty, kid, record, signature);
    lemma_header_cty(cty, kid);
    base64::encoded_decodes(jose::eddsa_header(cty, kid), 256);
    base64::encoded_decodes(record, 1024);
    base64::encoded_decodes(signature, 64);
}

/// A certificate is not redeemed as a challenge, though the same key signed it.
pub proof fn a_certificate_is_no_challenge(
    kid: Seq<u8>,
    record: Seq<u8>,
    signature: Seq<u8>,
    public: Seq<u8>,
)
    requires
        jose::eddsa_fits(bytes::text(CERTIFICATE_CTY), kid, record, MAX_TOKEN as nat),
    ensures
        challenge_in(
            jose::closed(jose::eddsa_input(bytes::text(CERTIFICATE_CTY), kid, record), signature),
            public,
        ) is None,
{
    let cty = bytes::text(CERTIFICATE_CTY);
    jose::closed_splits(cty, kid, record, signature);
    lemma_header_names();
    lemma_header_cty(cty, kid);
    base64::encoded_decodes(jose::eddsa_header(cty, kid), 256);
}

/// The algorithm and the kid of a token's header read back.
proof fn lemma_header_rest(cty: Seq<u8>, kid: Seq<u8>)
    requires
        claims::record_safe(cty),
        claims::record_safe(kid),
    ensures
        claims::text_claim(jose::eddsa_header(cty, kid), bytes::text("alg")) == Some(
            bytes::text("EdDSA"),
        ),
        claims::text_claim(jose::eddsa_header(cty, kid), bytes::text("kid")) == Some(kid),
{
    lemma_header_names();
    let m: Seq<(Seq<u8>, Value)> = seq![
        (bytes::text("alg"), Value::Text(bytes::text("EdDSA"))),
        (bytes::text("cty"), Value::Text(cty)),
        (bytes::text("kid"), Value::Text(kid)),
        (bytes::text("typ"), Value::Text(bytes::text("JWT"))),
    ];
    assert(m[0].0[0] == 97 && m[1].0[0] == 99 && m[2].0[0] == 107 && m[3].0[0] == 116);
    assert(claims::readable(m));
    claims::text_reads_back(m, 0);
    claims::text_reads_back(m, 2);
}

/// What was signed as a certificate is what every later token rests on: as long as it is inside
/// its window it is taken as the credential of a device, and says what was signed.
pub proof fn a_signed_certificate_is_a_credential(
    kid: Seq<u8>,
    record: Seq<u8>,
    signature: Seq<u8>,
    public: Seq<u8>,
    now: u64,
)
    requires
        jose::eddsa_fits(bytes::text(CERTIFICATE_CTY), kid, record, MAX_TOKEN as nat),
        record.len() <= 1024,
        signature.len() == 64,
        crypto::ed25519_valid(
            public,
            jose::eddsa_input(bytes::text(CERTIFICATE_CTY), kid, record),
            signature,
        ),
        device_auth::in_window(record, now, 60),
    ensures
        ({
            let token = jose::closed(
                jose::eddsa_input(bytes::text(CERTIFICATE_CTY), kid, record),
                signature,
            );
            &&& device_auth::credential_fault(
                Some(device_auth::Issuer { suite: Some(Suite::Ed25519), public }),
                token,
                device_auth::certificate_policy(),
                now,
            ) is None
            &&& device_auth::payload(token) == Some(record)
            &&& device_auth::kid_of(token) == Some(kid)
        }),
{
    let cty = bytes::text(CERTIFICATE_CTY);
    jose::closed_splits(cty, kid, record, signature);
    lemma_header_names();
    lemma_header_cty(cty, kid);
    lemma_header_rest(cty, kid);
    base64::encoded_decodes(jose::eddsa_header(cty, kid), 1024);
    base64::encoded_decodes(record, 1024);
    base64::encoded_decodes(signature, 64);
    base64::encoding_length(record);
    assert(bytes::text("EdDSA") != bytes::text("ES256")) by {
        reveal_strlit("ES256");
        reveal_strlit("EdDSA");
        assert("ES256".is_ascii());
        assert("EdDSA".is_ascii());
        assert(bytes::text("ES256")[1] == 83);
        assert(bytes::text("EdDSA")[1] == 100);
    }
}

/// A token of another kind is no credential of a device, whoever signed it: a token that minted
/// a token is what that would be.
pub proof fn only_a_certificate_is_a_credential(
    issuer: Option<device_auth::Issuer>,
    token: Seq<u8>,
    now: u64,
)
    requires
        device_auth::credential_fault(issuer, token, device_auth::certificate_policy(), now) is None,
    ensures
        device_auth::header(token) matches Some(h) && claims::text_claim(h, bytes::text("cty"))
            == Some(bytes::text("dc+jwt")),
{
}

proof fn lemma_challenge_names()
    ensures
        claims::plain_name(bytes::text("aud")),
        bytes::text("aud").len() == 3,
        bytes::text("aud")[0] == 97,
        bytes::text("aud")[1] == 117,
        claims::plain_name(bytes::text("code_challenge")),
        bytes::text("code_challenge").len() == 14,
        bytes::text("code_challenge")[0] == 99,
        bytes::text("code_challenge")[1] == 111,
        claims::plain_name(bytes::text("code_challenge_method")),
        bytes::text("code_challenge_method").len() == 21,
        bytes::text("code_challenge_method")[0] == 99,
        bytes::text("code_challenge_method")[1] == 111,
        claims::plain_name(bytes::text("email_hash")),
        bytes::text("email_hash").len() == 10,
        bytes::text("email_hash")[0] == 101,
        bytes::text("email_hash")[1] == 109,
        claims::plain_name(bytes::text("exp")),
        bytes::text("exp").len() == 3,
        bytes::text("exp")[0] == 101,
        bytes::text("exp")[1] == 120,
        claims::plain_name(bytes::text("iat")),
        bytes::text("iat").len() == 3,
        bytes::text("iat")[0] == 105,
        bytes::text("iat")[1] == 97,
        claims::plain_name(bytes::text("iss")),
        bytes::text("iss").len() == 3,
        bytes::text("iss")[0] == 105,
        bytes::text("iss")[1] == 115,
        claims::plain_name(bytes::text("nbf")),
        bytes::text("nbf").len() == 3,
        bytes::text("nbf")[0] == 110,
        bytes::text("nbf")[1] == 98,
        claims::plain_name(bytes::text("nonce")),
        bytes::text("nonce").len() == 5,
        bytes::text("nonce")[0] == 110,
        bytes::text("nonce")[1] == 111,
        claims::plain_name(bytes::text("pubkey_hash")),
        bytes::text("pubkey_hash").len() == 11,
        bytes::text("pubkey_hash")[0] == 112,
        bytes::text("pubkey_hash")[1] == 117,
        claims::plain_name(bytes::text("tenant")),
        bytes::text("tenant").len() == 6,
        claims::record_safe(bytes::text("S256")),
        bytes::text("S256").len() == 4,
{
    reveal_strlit("aud");
    assert("aud".is_ascii());
    assert(bytes::text("aud") =~= seq![97u8, 117, 100]);
    reveal_strlit("code_challenge");
    assert("code_challenge".is_ascii());
    assert(bytes::text("code_challenge") =~= seq![99u8, 111, 100, 101, 95, 99, 104, 97, 108, 108, 101, 110, 103, 101]);
    reveal_strlit("code_challenge_method");
    assert("code_challenge_method".is_ascii());
    assert(bytes::text("code_challenge_method") =~= seq![99u8, 111, 100, 101, 95, 99, 104, 97, 108, 108, 101, 110, 103, 101, 95, 109, 101, 116, 104, 111, 100]);
    reveal_strlit("email_hash");
    assert("email_hash".is_ascii());
    assert(bytes::text("email_hash") =~= seq![101u8, 109, 97, 105, 108, 95, 104, 97, 115, 104]);
    reveal_strlit("exp");
    assert("exp".is_ascii());
    assert(bytes::text("exp") =~= seq![101u8, 120, 112]);
    reveal_strlit("iat");
    assert("iat".is_ascii());
    assert(bytes::text("iat") =~= seq![105u8, 97, 116]);
    reveal_strlit("iss");
    assert("iss".is_ascii());
    assert(bytes::text("iss") =~= seq![105u8, 115, 115]);
    reveal_strlit("nbf");
    assert("nbf".is_ascii());
    assert(bytes::text("nbf") =~= seq![110u8, 98, 102]);
    reveal_strlit("nonce");
    assert("nonce".is_ascii());
    assert(bytes::text("nonce") =~= seq![110u8, 111, 110, 99, 101]);
    reveal_strlit("pubkey_hash");
    assert("pubkey_hash".is_ascii());
    assert(bytes::text("pubkey_hash") =~= seq![112u8, 117, 98, 107, 101, 121, 95, 104, 97, 115, 104]);
    reveal_strlit("tenant");
    assert("tenant".is_ascii());
    assert(bytes::text("tenant") =~= seq![116u8, 101, 110, 97, 110, 116]);
    reveal_strlit("S256");
    assert("S256".is_ascii());
    assert(bytes::text("S256") =~= seq![83u8, 50, 53, 54]);
}

proof fn lemma_challenge_readable(
    iss: Seq<u8>,
    code_challenge: Seq<u8>,
    email: Seq<u8>,
    nonce: Seq<u8>,
    canonical: Seq<u8>,
    seed: Seq<u8>,
    now: u64,
)
    requires
        claims::record_safe(iss),
        claims::record_safe(code_challenge),
        claims::record_safe(nonce),
    ensures
        claims::readable(
            challenge_members(iss, code_challenge, email, nonce, canonical, seed, now),
        ),
{
    lemma_challenge_names();
    lemma_encoding_is_safe(crypto::sha256(email));
    lemma_tenant_is_safe(seed, email);
    lemma_encoding_is_safe(crypto::sha256(canonical));
    let m = challenge_members(iss, code_challenge, email, nonce, canonical, seed, now);
    assert forall|i: int, j: int| 0 <= i < j < m.len() implies (#[trigger] m[i]).0 != (
    #[trigger] m[j]).0 by {
        assert(m[0].0.len() == 3 && m[0].0[0] == 97);
        assert(m[1].0.len() == 14 && m[2].0.len() == 21 && m[3].0.len() == 10);
        assert(m[4].0.len() == 3 && m[4].0[0] == 101);
        assert(m[5].0.len() == 3 && m[5].0[0] == 105 && m[5].0[1] == 97);
        assert(m[6].0.len() == 3 && m[6].0[0] == 105 && m[6].0[1] == 115);
        assert(m[7].0.len() == 3 && m[7].0[0] == 110);
        assert(m[8].0.len() == 5 && m[9].0.len() == 11 && m[10].0.len() == 6);
    }
}

/// A challenge says what it was made for.
pub proof fn challenge_reads_back(
    iss: Seq<u8>,
    code_challenge: Seq<u8>,
    email: Seq<u8>,
    nonce: Seq<u8>,
    canonical: Seq<u8>,
    seed: Seq<u8>,
    now: u64,
)
    requires
        claims::record_safe(iss),
        claims::record_safe(code_challenge),
        claims::record_safe(nonce),
        now + CHALLENGE_TTL_SECS <= u64::MAX,
    ensures
        ({
            let record = claims::record_bytes(
                challenge_members(iss, code_challenge, email, nonce, canonical, seed, now),
            );
            &&& claims::text_claim(record, bytes::text("code_challenge")) == Some(code_challenge)
            &&& claims::text_claim(record, bytes::text("code_challenge_method")) == Some(
                bytes::text("S256"),
            )
            &&& claims::text_claim(record, bytes::text("email_hash")) == Some(inbox_hash(email))
            &&& claims::number_claim(record, bytes::text("exp")) == Some(
                (now + CHALLENGE_TTL_SECS) as u64,
            )
            &&& claims::number_claim(record, bytes::text("iat")) == Some(now)
            &&& claims::text_claim(record, bytes::text("iss")) == Some(iss)
            &&& claims::number_claim(record, bytes::text("nbf")) == Some(now)
            &&& claims::text_claim(record, bytes::text("nonce")) == Some(nonce)
            &&& claims::text_claim(record, bytes::text("pubkey_hash")) == Some(
                jwk::thumbprint(canonical),
            )
            &&& claims::text_claim(record, bytes::text("tenant")) == Some(jwk::tenant(seed, email))
        }),
{
    let m = challenge_members(iss, code_challenge, email, nonce, canonical, seed, now);
    lemma_challenge_readable(iss, code_challenge, email, nonce, canonical, seed, now);
    claims::text_reads_back(m, 1);
    claims::text_reads_back(m, 2);
    claims::text_reads_back(m, 3);
    claims::number_reads_back(m, 4);
    claims::number_reads_back(m, 5);
    claims::text_reads_back(m, 6);
    claims::number_reads_back(m, 7);
    claims::text_reads_back(m, 8);
    claims::text_reads_back(m, 9);
    claims::text_reads_back(m, 10);
}

/// What `/redeem` makes of a challenge that `/start` composed and this issuer signed: it is
/// redeemed within its life by who holds the verifier and the device key of the start, and by
/// nobody else.
pub proof fn a_challenge_is_redeemed_by_who_started(
    start: Seq<u8>,
    redeem: Seq<u8>,
    iss: Seq<u8>,
    kid: Seq<u8>,
    seed: Seq<u8>,
    drawn: Option<[u8; 16]>,
    code: Option<[u8; 8]>,
    started: u64,
    signature: Seq<u8>,
    public: Seq<u8>,
    now: u64,
)
    requires
        start_refusal(start, iss, kid, seed, drawn, code, Some(started)) is None,
        started + CHALLENGE_TTL_SECS <= u64::MAX,
        started <= now,
        redeem_well_made(redeem),
        signature.len() == 64,
        public.len() == 32,
        ({
            let input = jose::eddsa_input(
                bytes::text("challenge+jwt"),
                kid,
                challenge_claims(start, iss, seed, drawn, started),
            );
            &&& crypto::ed25519_valid(public, input, signature)
            &&& token_of(redeem) == jose::closed(input, signature)
        }),
    ensures
        ({
            let canonical = jwk::canonical(redeem)->0;
            let pop = base64::decoded_or_empty(proof_text_of(redeem), 64);
            let email_hash = inbox_hash(email_of(start));
            redeem_refusal(redeem, public, iss, kid, seed, Some(now)) == if now >= started
                + CHALLENGE_TTL_SECS {
                Some(Refusal::BadChallenge)
            } else if base64::encoded(crypto::sha256(verifier_of(redeem))) != code_challenge_of(
                start,
            ) {
                Some(Refusal::PkceMismatch)
            } else if jwk::thumbprint(canonical) != jwk::thumbprint(jwk::canonical(start)->0) {
                Some(Refusal::BadPossession)
            } else if pop.len() != 64 || !jwk::signed_by(canonical, token_of(redeem), pop) {
                Some(Refusal::BadPossession)
            } else if !certificate_fits(
                canonical,
                email_hash,
                iss,
                kid,
                jwk::tenant(seed, email_of(start)),
                now,
            ) {
                Some(Refusal::Malformed)
            } else {
                None
            }
        }),
{
    let record = challenge_claims(start, iss, seed, drawn, started);
    a_signed_challenge_opens(kid, record, signature, public);
    challenge_reads_back(
        iss,
        code_challenge_of(start),
        email_of(start),
        nonce_for(start, drawn),
        jwk::canonical(start)->0,
        seed,
        started,
    );
    if adopted_of(start).len() == 0 {
        base64::encoding_length((drawn->0)@);
    }
    assert(0 < nonce_for(start, drawn).len() <= 48);
    assert(challenge_complete(record));
}

/// A tenant is derived from the issuer's secret and the address of the inbox: a challenge enrols
/// under the tenant of the address that it was asked for with.
pub proof fn a_tenant_is_derived_from_the_address(
    body: Seq<u8>,
    iss: Seq<u8>,
    seed: Seq<u8>,
    drawn: Option<[u8; 16]>,
    now: u64,
)
    requires
        challenge_safe(body, iss, drawn),
        now + CHALLENGE_TTL_SECS <= u64::MAX,
    ensures
        tenant_of(challenge_claims(body, iss, seed, drawn, now), seed) == bytes::clipped(
            base64::encoded(
                crypto::hkdf_sha256(
                    bytes::text("tenant-id"),
                    seed,
                    jwk::lowered(email_of(body)),
                ),
            ),
            22,
        ),
{
    challenge_reads_back(
        iss,
        code_challenge_of(body),
        email_of(body),
        nonce_for(body, drawn),
        jwk::canonical(body)->0,
        seed,
        now,
    );
}

/// An inbox is one tenant, whatever the case that its address is written in: whoever redeems a
/// challenge of either spelling enrols under the same name.
pub proof fn an_inbox_is_one_tenant(
    a: Seq<u8>,
    b: Seq<u8>,
    iss: Seq<u8>,
    seed: Seq<u8>,
    drawn: Option<[u8; 16]>,
    other: Option<[u8; 16]>,
    now: u64,
    later: u64,
)
    requires
        challenge_safe(a, iss, drawn),
        challenge_safe(b, iss, other),
        now + CHALLENGE_TTL_SECS <= u64::MAX,
        later + CHALLENGE_TTL_SECS <= u64::MAX,
        bytes::same_letters(email_of(a), email_of(b)),
    ensures
        tenant_of(challenge_claims(a, iss, seed, drawn, now), seed) == tenant_of(
            challenge_claims(b, iss, seed, other, later),
            seed,
        ),
{
    a_tenant_is_derived_from_the_address(a, iss, seed, drawn, now);
    a_tenant_is_derived_from_the_address(b, iss, seed, other, later);
    assert(jwk::lowered(email_of(a)) =~= jwk::lowered(email_of(b)));
}

proof fn lemma_tenant_is_safe(seed: Seq<u8>, subject: Seq<u8>)
    ensures
        claims::record_safe(jwk::tenant(seed, subject)),
{
    lemma_encoding_is_safe(
        crypto::hkdf_sha256(bytes::text("tenant-id"), seed, jwk::lowered(subject)),
    );
}

proof fn lemma_certificate_names()
    ensures
        claims::plain_name(bytes::text("cnf")),
        bytes::text("cnf").len() == 3,
        bytes::text("cnf")[0] == 99,
        bytes::text("cnf")[1] == 110,
        claims::plain_name(bytes::text("jkt")),
        bytes::text("jkt").len() == 3,
        bytes::text("jkt")[0] == 106,
        bytes::text("jkt")[1] == 107,
        claims::plain_name(bytes::text("device_id")),
        bytes::text("device_id").len() == 9,
        bytes::text("device_id")[0] == 100,
        bytes::text("device_id")[1] == 101,
        claims::plain_name(bytes::text("email_hash")),
        bytes::text("email_hash").len() == 10,
        bytes::text("email_hash")[0] == 101,
        bytes::text("email_hash")[1] == 109,
        claims::plain_name(bytes::text("amr")),
        bytes::text("amr").len() == 3,
        bytes::text("amr")[0] == 97,
        bytes::text("amr")[1] == 109,
        claims::plain_name(bytes::text("key_binding")),
        bytes::text("key_binding").len() == 11,
        bytes::text("key_binding")[0] == 107,
        bytes::text("key_binding")[1] == 101,
        claims::plain_name(bytes::text("exp")),
        bytes::text("exp").len() == 3,
        bytes::text("exp")[0] == 101,
        bytes::text("exp")[1] == 120,
        claims::plain_name(bytes::text("iat")),
        bytes::text("iat").len() == 3,
        bytes::text("iat")[0] == 105,
        bytes::text("iat")[1] == 97,
        claims::plain_name(bytes::text("iss")),
        bytes::text("iss").len() == 3,
        bytes::text("iss")[0] == 105,
        bytes::text("iss")[1] == 115,
        claims::plain_name(bytes::text("sub")),
        bytes::text("sub").len() == 3,
        bytes::text("sub")[0] == 115,
        bytes::text("sub")[1] == 117,
        claims::plain_name(bytes::text("status")),
        bytes::text("status").len() == 6,
        bytes::text("status")[0] == 115,
        bytes::text("status")[1] == 116,
        claims::plain_name(bytes::text("totp_secret")),
        bytes::text("totp_secret").len() == 11,
        bytes::text("totp_secret")[0] == 116,
        bytes::text("totp_secret")[1] == 111,
        claims::record_safe(bytes::text("software")),
        bytes::text("software").len() == 8,
        claims::record_safe(bytes::text("dev_")),
        bytes::text("dev_").len() == 4,
        claims::record_safe(bytes::text("tenant_")),
        bytes::text("tenant_").len() == 7,
{
    reveal_strlit("cnf");
    assert("cnf".is_ascii());
    assert(bytes::text("cnf") =~= seq![99u8, 110, 102]);
    reveal_strlit("jkt");
    assert("jkt".is_ascii());
    assert(bytes::text("jkt") =~= seq![106u8, 107, 116]);
    reveal_strlit("device_id");
    assert("device_id".is_ascii());
    assert(bytes::text("device_id") =~= seq![100u8, 101, 118, 105, 99, 101, 95, 105, 100]);
    reveal_strlit("email_hash");
    assert("email_hash".is_ascii());
    assert(bytes::text("email_hash") =~= seq![101u8, 109, 97, 105, 108, 95, 104, 97, 115, 104]);
    reveal_strlit("amr");
    assert("amr".is_ascii());
    assert(bytes::text("amr") =~= seq![97u8, 109, 114]);
    reveal_strlit("key_binding");
    assert("key_binding".is_ascii());
    assert(bytes::text("key_binding") =~= seq![107u8, 101, 121, 95, 98, 105, 110, 100, 105, 110, 103]);
    reveal_strlit("exp");
    assert("exp".is_ascii());
    assert(bytes::text("exp") =~= seq![101u8, 120, 112]);
    reveal_strlit("iat");
    assert("iat".is_ascii());
    assert(bytes::text("iat") =~= seq![105u8, 97, 116]);
    reveal_strlit("iss");
    assert("iss".is_ascii());
    assert(bytes::text("iss") =~= seq![105u8, 115, 115]);
    reveal_strlit("sub");
    assert("sub".is_ascii());
    assert(bytes::text("sub") =~= seq![115u8, 117, 98]);
    reveal_strlit("status");
    assert("status".is_ascii());
    assert(bytes::text("status") =~= seq![115u8, 116, 97, 116, 117, 115]);
    reveal_strlit("totp_secret");
    assert("totp_secret".is_ascii());
    assert(bytes::text("totp_secret") =~= seq![116u8, 111, 116, 112, 95, 115, 101, 99, 114, 101, 116]);
    reveal_strlit("software");
    assert("software".is_ascii());
    assert(bytes::text("software") =~= seq![115u8, 111, 102, 116, 119, 97, 114, 101]);
    reveal_strlit("dev_");
    assert("dev_".is_ascii());
    assert(bytes::text("dev_") =~= seq![100u8, 101, 118, 95]);
    reveal_strlit("tenant_");
    assert("tenant_".is_ascii());
    assert(bytes::text("tenant_") =~= seq![116u8, 101, 110, 97, 110, 116, 95]);
}

proof fn lemma_methods_list()
    ensures
        claims::plain_list(bytes::text("\"email\",\"pop\"")),
        forall|x: int|
            0 <= x < bytes::text("\"email\",\"pop\"").len() ==> #[trigger] bytes::text(
                "\"email\",\"pop\"",
            )[x] != 93,
{
    reveal_strlit("\"email\",\"pop\"");
    assert("\"email\",\"pop\"".is_ascii());
    assert(bytes::text("\"email\",\"pop\"") =~= seq![34u8, 101, 109, 97, 105, 108, 34, 44, 34, 112, 111, 112, 34]);
}

/// Two safe strings, one behind the other, are safe.
proof fn lemma_safe_concat(a: Seq<u8>, b: Seq<u8>)
    requires
        claims::record_safe(a),
        claims::record_safe(b),
    ensures
        claims::record_safe(a + b),
{
    assert forall|i: int| 0 <= i < (a + b).len() implies (#[trigger] (a + b)[i]) != 34 && (a + b)[i]
        != 92 && (a + b)[i] >= 32 by {
        if i < a.len() {
            assert((a + b)[i] == a[i]);
        } else {
            assert((a + b)[i] == b[i - a.len()]);
        }
    }
}

proof fn lemma_certificate_readable(
    canonical: Seq<u8>,
    email_hash: Seq<u8>,
    iss: Seq<u8>,
    tenant: Seq<u8>,
    now: u64,
)
    requires
        claims::record_safe(email_hash),
        claims::record_safe(iss),
        claims::record_safe(tenant),
    ensures
        claims::readable(certificate_members(canonical, email_hash, iss, tenant, now)),
{
    lemma_certificate_names();
    lemma_methods_list();
    lemma_encoding_is_safe(crypto::sha256(canonical));
    lemma_safe_concat(bytes::text("dev_"), jwk::device_id(canonical));
    lemma_safe_concat(bytes::text("tenant_"), tenant);
    let m = certificate_members(canonical, email_hash, iss, tenant, now);
    assert(m[0].0.len() == 3 && m[0].0[0] == 99);
    assert(m[1].0.len() == 9 && m[2].0.len() == 10);
    assert(m[3].0.len() == 3 && m[3].0[0] == 97);
    assert(m[4].0.len() == 11);
    assert(m[5].0.len() == 3 && m[5].0[0] == 101);
    assert(m[6].0.len() == 3 && m[6].0[0] == 105 && m[6].0[1] == 97);
    assert(m[7].0.len() == 3 && m[7].0[0] == 105 && m[7].0[1] == 115);
    assert(m[8].0.len() == 3 && m[8].0[0] == 115);
    assert forall|i: int, j: int| 0 <= i < j < m.len() implies (#[trigger] m[i]).0 != (
    #[trigger] m[j]).0 by {}
    assert forall|i: int, j: int| 0 <= i < m.len() && 0 <= j < m.len() implies !claims::introduces(
        (#[trigger] m[i]).1,
        (#[trigger] m[j]).0,
    ) by {
        assert(bytes::text("jkt")[0] == 106);
    }
}

/// The record of an enrolled device says which key it holds, which device and tenant it is, and
/// what the enrolment proved; it is not revoked and has no authenticator.
pub proof fn certificate_reads_back(
    canonical: Seq<u8>,
    email_hash: Seq<u8>,
    iss: Seq<u8>,
    tenant: Seq<u8>,
    now: u64,
)
    requires
        claims::record_safe(email_hash),
        claims::record_safe(iss),
        claims::record_safe(tenant),
        now + CERTIFICATE_TTL_SECS <= u64::MAX,
    ensures
        ({
            let record = certificate_claims(canonical, email_hash, iss, tenant, now);
            &&& claims::text_claim(record, bytes::text("jkt")) == Some(jwk::thumbprint(canonical))
            &&& claims::text_claim(record, bytes::text("device_id")) == Some(
                bytes::text("dev_") + jwk::device_id(canonical),
            )
            &&& claims::text_claim(record, bytes::text("email_hash")) == Some(email_hash)
            &&& claims::array_claim(record, bytes::text("amr")) == Some(
                seq![91u8] + bytes::text("\"email\",\"pop\"") + seq![93u8],
            )
            &&& claims::text_claim(record, bytes::text("key_binding")) == Some(
                bytes::text("software"),
            )
            &&& claims::number_claim(record, bytes::text("exp")) == Some(
                (now + CERTIFICATE_TTL_SECS) as u64,
            )
            &&& claims::number_claim(record, bytes::text("iat")) == Some(now)
            &&& claims::text_claim(record, bytes::text("iss")) == Some(iss)
            &&& claims::text_claim(record, bytes::text("sub")) == Some(
                bytes::text("tenant_") + tenant,
            )
            &&& claims::text_claim(record, bytes::text("status")) is None
            &&& claims::text_claim(record, bytes::text("totp_secret")) is None
        }),
{
    lemma_certificate_names_read(canonical, email_hash, iss, tenant, now);
    lemma_certificate_rest_reads(canonical, email_hash, iss, tenant, now);
    lemma_certificate_absent(canonical, email_hash, iss, tenant, now);
}

proof fn lemma_certificate_names_read(
    canonical: Seq<u8>,
    email_hash: Seq<u8>,
    iss: Seq<u8>,
    tenant: Seq<u8>,
    now: u64,
)
    requires
        claims::record_safe(email_hash),
        claims::record_safe(iss),
        claims::record_safe(tenant),
    ensures
        ({
            let record = claims::record_bytes(
                certificate_members(canonical, email_hash, iss, tenant, now),
            );
            &&& claims::text_claim(record, bytes::text("jkt")) == Some(jwk::thumbprint(canonical))
            &&& claims::text_claim(record, bytes::text("device_id")) == Some(
                bytes::text("dev_") + jwk::device_id(canonical),
            )
            &&& claims::text_claim(record, bytes::text("email_hash")) == Some(email_hash)
            &&& claims::text_claim(record, bytes::text("iss")) == Some(iss)
            &&& claims::text_claim(record, bytes::text("sub")) == Some(
                bytes::text("tenant_") + tenant,
            )
        }),
{
    let m = certificate_members(canonical, email_hash, iss, tenant, now);
    lemma_certificate_readable(canonical, email_hash, iss, tenant, now);
    claims::object_reads_back(m);
    claims::text_reads_back(m, 1);
    claims::text_reads_back(m, 2);
    claims::text_reads_back(m, 7);
    claims::text_reads_back(m, 8);
}

proof fn lemma_certificate_rest_reads(
    canonical: Seq<u8>,
    email_hash: Seq<u8>,
    iss: Seq<u8>,
    tenant: Seq<u8>,
    now: u64,
)
    requires
        claims::record_safe(email_hash),
        claims::record_safe(iss),
        claims::record_safe(tenant),
        now + CERTIFICATE_TTL_SECS <= u64::MAX,
    ensures
        ({
            let record = claims::record_bytes(
                certificate_members(canonical, email_hash, iss, tenant, now),
            );
            &&& claims::array_claim(record, bytes::text("amr")) == Some(
                seq![91u8] + bytes::text("\"email\",\"pop\"") + seq![93u8],
            )
            &&& claims::text_claim(record, bytes::text("key_binding")) == Some(
                bytes::text("software"),
            )
            &&& claims::number_claim(record, bytes::text("exp")) == Some(
                (now + CERTIFICATE_TTL_SECS) as u64,
            )
            &&& claims::number_claim(record, bytes::text("iat")) == Some(now)
        }),
{
    let m = certificate_members(canonical, email_hash, iss, tenant, now);
    lemma_certificate_readable(canonical, email_hash, iss, tenant, now);
    lemma_methods_list();
    claims::list_reads_back(m, 3);
    claims::text_reads_back(m, 4);
    claims::number_reads_back(m, 5);
    claims::number_reads_back(m, 6);
}

proof fn lemma_certificate_absent(
    canonical: Seq<u8>,
    email_hash: Seq<u8>,
    iss: Seq<u8>,
    tenant: Seq<u8>,
    now: u64,
)
    requires
        claims::record_safe(email_hash),
        claims::record_safe(iss),
        claims::record_safe(tenant),
    ensures
        ({
            let record = claims::record_bytes(
                certificate_members(canonical, email_hash, iss, tenant, now),
            );
            &&& claims::text_claim(record, bytes::text("status")) is None
            &&& claims::text_claim(record, bytes::text("totp_secret")) is None
        }),
{
    let m = certificate_members(canonical, email_hash, iss, tenant, now);
    lemma_certificate_readable(canonical, email_hash, iss, tenant, now);
    lemma_certificate_names();
    assert forall|i: int| 0 <= i < m.len() implies claims::names_apart(
        #[trigger] m[i],
        bytes::text("status"),
    ) && claims::names_apart(m[i], bytes::text("totp_secret")) by {
        assert(m[i].0.len() != 6);
        assert(m[i].0.len() == 11 ==> m[i].0[0] == 107);
    }
    claims::absent_reads_absent(m, bytes::text("status"));
    claims::absent_reads_absent(m, bytes::text("totp_secret"));
}

/// An enrolment, from the address and the key of the start to the certificate: the certificate is
/// for the key that was started with, for the tenant that the whole address names, lower case or
/// not, and for the device that the key names; it says what was proved, when, and for how long. The
/// transaction that it spends is that of the start, and the code is the one that was presented.
pub proof fn a_certificate_is_for_the_inbox_and_the_key(
    start: Seq<u8>,
    first: StartDraft,
    redeem: Seq<u8>,
    second: RedeemDraft,
    iss: Seq<u8>,
    kid: Seq<u8>,
    seed: Seq<u8>,
    drawn: Option<[u8; 16]>,
    code: Option<[u8; 8]>,
    started: u64,
    signature: Seq<u8>,
    public: Seq<u8>,
    now: u64,
    email: Seq<u8>,
    info: Seq<u8>,
    presented: Seq<u8>,
)
    requires
        start_refusal(start, iss, kid, seed, drawn, code, Some(started)) is None,
        draft_of(first, start, iss, kid, seed, drawn, code, started),
        redeem_refusal(redeem, public, iss, kid, seed, Some(now)) is None,
        redemption_of(second, redeem, public, iss, kid, seed, now),
        claims::text_claim(start, bytes::text("email")) == Some(email),
        0 < email.len() <= 256,
        info.len() == email.len(),
        forall|i: int|
            0 <= i < email.len() ==> #[trigger] info[i] == if 65 <= email[i] <= 90 {
                (email[i] + 32) as u8
            } else {
                email[i]
            },
        claims::text_claim(redeem, bytes::text("challenge_token")) == Some(
            first.input@ + seq![46u8] + base64::encoded(signature),
        ),
        (first.input@ + seq![46u8] + base64::encoded(signature)).len() <= 2048,
        claims::text_claim(redeem, bytes::text("code")) == Some(presented),
        signature.len() == 64,
        public.len() == 32,
        crypto::ed25519_valid(public, first.input@, signature),
        started + 600 <= u64::MAX,
        now + 2592000 <= u64::MAX,
    ensures
        ({
            let c = second.claims@;
            let key = jwk::canonical(redeem)->0;
            let print = base64::encoded(crypto::sha256(key));
            let tenant = base64::encoded(
                crypto::hkdf_sha256(bytes::text("tenant-id"), seed, info),
            );
            &&& claims::text_claim(c, bytes::text("jkt")) == Some(print)
            &&& print == base64::encoded(crypto::sha256(jwk::canonical(start)->0))
            &&& tenant.len() >= 22 ==> claims::text_claim(c, bytes::text("sub")) == Some(
                bytes::text("tenant_") + tenant.take(22),
            )
            &&& print.len() >= 22 ==> claims::text_claim(c, bytes::text("device_id")) == Some(
                bytes::text("dev_") + print.take(22),
            ) && second.device_id@ == bytes::text("dev_") + print.take(22)
            &&& claims::text_claim(c, bytes::text("email_hash")) == Some(
                base64::encoded(crypto::sha256(email)),
            )
            &&& claims::array_claim(c, bytes::text("amr")) == Some(
                seq![91u8] + bytes::text("\"email\",\"pop\"") + seq![93u8],
            )
            &&& claims::text_claim(c, bytes::text("key_binding")) == Some(bytes::text("software"))
            &&& claims::number_claim(c, bytes::text("iat")) == Some(now)
            &&& claims::number_claim(c, bytes::text("exp")) == Some((now + 2592000) as u64)
            &&& claims::text_claim(c, bytes::text("iss")) == Some(iss)
            &&& second.nonce@ == first.nonce@
            &&& second.code@ == presented
            &&& presented.len() == 8
            &&& now < started + 600
        }),
{
    let record = challenge_claims(start, iss, seed, drawn, started);
    let cty = bytes::text(CHALLENGE_CTY);
    let token = jose::closed(jose::eddsa_input(cty, kid, record), signature);
    assert(email_of(start) == email);
    assert(token_of(redeem) =~= token);
    a_signed_challenge_opens(kid, record, signature, public);
    challenge_reads_back(
        iss,
        code_challenge_of(start),
        email,
        nonce_for(start, drawn),
        jwk::canonical(start)->0,
        seed,
        started,
    );
    jwk::the_whole_subject_counts(seed, email, info);
    certificate_reads_back(
        jwk::canonical(redeem)->0,
        base64::encoded(crypto::sha256(email)),
        iss,
        jwk::tenant(seed, email),
        now,
    );
}

/// A challenge is composed for a body that names a mailbox or an operator's transaction, but not
/// both, with a device key and the challenge of a verifier; for a mailbox only where there was
/// randomness to draw; and never without a clock. The transaction is the operator's, or a fresh one
/// whose code is the one that was drawn, and lives for ten minutes.
pub proof fn a_start_is_whole(
    body: Seq<u8>,
    iss: Seq<u8>,
    kid: Seq<u8>,
    seed: Seq<u8>,
    drawn: Option<[u8; 16]>,
    code: Option<[u8; 8]>,
    now: u64,
    draft: StartDraft,
)
    requires
        start_refusal(body, iss, kid, seed, drawn, code, Some(now)) is None,
        draft_of(draft, body, iss, kid, seed, drawn, code, now),
    ensures
        ({
            let email = claims::text_claim(body, bytes::text("email"));
            let adopted = claims::text_claim(body, bytes::text("transaction"));
            let challenge = claims::text_claim(body, bytes::text("code_challenge"));
            let mailed = email is Some && 0 < email->0.len() <= 256;
            let operated = adopted is Some && 0 < adopted->0.len() <= 256;
            &&& mailed != operated
            &&& operated ==> adopted->0.len() == 11 && draft.adopted && draft.nonce@ == adopted->0
                && draft.code@.len() == 0
            &&& mailed ==> !draft.adopted && draft.email@ == email->0 && drawn is Some && code is Some
                && draft.nonce@ == base64::encoded(drawn->0@) && draft.code@ == code->0@
            &&& challenge is Some && challenge->0.len() == 43
            &&& jwk::canonical(body) is Some
            &&& now != 0
            &&& draft.expires_at == now + 600
        }),
{
}

/// A code is right exactly where the ledger holds its transaction, waiting, with the keyed hash of
/// the transaction's nonce and that code; every other code of a waiting transaction is wrong, and
/// what was counted and stored goes with it.
pub proof fn the_verdict_on_a_code(
    v: Verdict,
    key: Seq<u8>,
    nonce: Seq<u8>,
    code: Seq<u8>,
    status: Status,
    record: Seq<u8>,
)
    requires
        verdict_is(v, key, nonce, code, status, record),
        nonce.len() <= 48,
        code.len() == 8,
    ensures
        ({
            let state = claims::text_claim(record, bytes::text("state"));
            let stored = claims::text_claim(record, bytes::text("code_hash"));
            let waiting = status == Status::Success && state == Some(bytes::text("pending"))
                && stored is Some;
            let right = base64::encoded(crypto::hmac_sha256(key, nonce + code));
            &&& v is Right <==> waiting && stored == Some(right)
            &&& v is Wrong <==> waiting && stored != Some(right)
            &&& status == Status::NotFound ==> v is Absent
            &&& status == Status::Success && state == Some(bytes::text("burned")) ==> v is Absent
            &&& status == Status::Success && state == Some(bytes::text("consumed")) ==> v is Spent
            &&& v matches Verdict::Wrong { attempts, stored: kept } ==> {
                &&& match claims::number_claim(record, bytes::text("attempts")) {
                    Some(n) => attempts == n,
                    None => attempts == 0,
                }
                &&& stored->0.len() <= 43 ==> kept@ == stored->0
            }
        }),
{
    lemma_transaction_names();
    reveal_strlit("burned");
    reveal_strlit("pending");
    reveal_strlit("consumed");
    assert("burned".is_ascii() && "pending".is_ascii() && "consumed".is_ascii());
    assert(bytes::text("burned").len() == 6 && bytes::text("pending").len() == 7);
    assert(bytes::text("consumed").len() == 8);
}

/// The fifth wrong code burns a transaction: until then each is counted and the hash stays, and
/// with it the hash is gone.
pub proof fn five_wrong_codes_burn_a_transaction(attempts: u64, stored: Seq<u8>)
    requires
        claims::record_safe(stored),
    ensures
        ({
            let record = after_wrong_code(attempts, stored);
            let state = claims::text_claim(record, bytes::text("state"));
            let hash = claims::text_claim(record, bytes::text("code_hash"));
            let counted = claims::number_claim(record, bytes::text("attempts"));
            &&& attempts < 4 ==> state == Some(bytes::text("pending")) && hash == Some(stored)
                && counted == Some((attempts + 1) as u64)
            &&& attempts >= 4 ==> state == Some(bytes::text("burned")) && hash == Some(
                Seq::<u8>::empty(),
            )
            &&& 4 <= attempts < u64::MAX ==> counted == Some((attempts + 1) as u64)
            &&& more_attempts(attempts) >= 5 <==> attempts >= 4
        }),
{
    lemma_transaction_names();
    reveal_strlit("burned");
    reveal_strlit("pending");
    assert("burned".is_ascii() && "pending".is_ascii());
    assert(bytes::text("burned") =~= seq![98u8, 117, 114, 110, 101, 100]);
    assert(bytes::text("pending") =~= seq![112u8, 101, 110, 100, 105, 110, 103]);
    let next = more_attempts(attempts);
    transaction_reads_back(next, stored, bytes::text("pending"));
    transaction_reads_back(next, Seq::empty(), bytes::text("burned"));
}

/// Every usable byte of a draw gives one digit, in order, and no other byte gives any.
pub proof fn a_draw_gives_its_digits(raw: Seq<u8>, b: u8)
    ensures
        digits_of(Seq::<u8>::empty()).len() == 0,
        b < 250 ==> digits_of(raw.push(b)) == digits_of(raw).push((48 + b % 10) as u8),
        b >= 250 ==> digits_of(raw.push(b)) == digits_of(raw),
{
    assert(raw.push(b).drop_last() =~= raw);
}

/// The mail goes to the address that was given, and says the code.
pub proof fn the_mail_says_the_code(from: Seq<u8>, to: Seq<u8>, code: Seq<u8>)
    requires
        from.len() + to.len() + code.len() <= 400,
    ensures
        ({
            let mail = mail_text(from, to, code);
            let head = bytes::text("From: ") + from + bytes::text("\r\nTo: ") + to;
            let tail = bytes::text("Enrolment code: ") + code + bytes::text("\r\n");
            &&& head.is_prefix_of(mail)
            &&& tail.len() <= mail.len()
            &&& mail.skip(mail.len() - tail.len()) == tail
        }),
{
    reveal_strlit("From: ");
    reveal_strlit("\r\nTo: ");
    reveal_strlit(
        "\r\nSubject: Your enrolment code\r\nContent-Type: text/plain\r\n\r\nEnrolment code: ",
    );
    reveal_strlit("Enrolment code: ");
    reveal_strlit("\r\n");
    let middle = bytes::text(
        "\r\nSubject: Your enrolment code\r\nContent-Type: text/plain\r\n\r\nEnrolment code: ",
    );
    assert("From: ".is_ascii() && "\r\nTo: ".is_ascii() && "\r\n".is_ascii());
    assert("Enrolment code: ".is_ascii());
    assert("\r\nSubject: Your enrolment code\r\nContent-Type: text/plain\r\n\r\nEnrolment code: ".is_ascii());
    let mail = mail_text(from, to, code);
    let head = bytes::text("From: ") + from + bytes::text("\r\nTo: ") + to;
    let tail = bytes::text("Enrolment code: ") + code + bytes::text("\r\n");
    assert(mail =~= head + middle + code + bytes::text("\r\n"));
    assert(mail.take(head.len() as int) =~= head);
    assert(middle.skip(middle.len() - 16) =~= bytes::text("Enrolment code: "));
    assert(mail.skip(mail.len() - tail.len()) =~= middle.skip(middle.len() - 16) + code
        + bytes::text("\r\n"));
}

/// The record of a fresh transaction reads back: it waits, no wrong code was counted, and the hash
/// is that of its nonce and code.
pub proof fn lemma_pending_reads_back(key: Seq<u8>, nonce: Seq<u8>, code: Seq<u8>)
    ensures
        ({
            let record = transaction(0, hash_of(key, nonce, code), bytes::text("pending"));
            &&& claims::number_claim(record, bytes::text("attempts")) == Some(0u64)
            &&& claims::text_claim(record, bytes::text("code_hash")) == Some(
                hash_of(key, nonce, code),
            )
            &&& claims::text_claim(record, bytes::text("state")) == Some(bytes::text("pending"))
        }),
{
    lemma_hash_is_safe(key, nonce, code);
    reveal_strlit("pending");
    assert("pending".is_ascii());
    assert(bytes::text("pending") =~= seq![112u8, 101, 110, 100, 105, 110, 103]);
    transaction_reads_back(0, hash_of(key, nonce, code), bytes::text("pending"));
}

/// The record of a spent transaction says that it is spent.
pub proof fn lemma_consumed_reads_back()
    ensures
        claims::text_claim(consumed_record(), bytes::text("state")) == Some(bytes::text("consumed")),
{
    reveal_strlit("consumed");
    assert("consumed".is_ascii());
    assert(bytes::text("consumed") =~= seq![99u8, 111, 110, 115, 117, 109, 101, 100]);
    transaction_reads_back(0, Seq::empty(), bytes::text("consumed"));
}

pub proof fn lemma_states_differ()
    ensures
        bytes::text("pending") != bytes::text("burned"),
        bytes::text("pending") != bytes::text("consumed"),
        bytes::text("burned") != bytes::text("consumed"),
{
    reveal_strlit("burned");
    reveal_strlit("pending");
    reveal_strlit("consumed");
    assert("burned".is_ascii() && "pending".is_ascii() && "consumed".is_ascii());
    assert(bytes::text("burned").len() == 6 && bytes::text("pending").len() == 7);
    assert(bytes::text("consumed").len() == 8);
}

/// A challenge is redeemed before its end, and no more than a minute before its beginning; one that
/// does not say both is not redeemed.
pub proof fn when_a_challenge_is_live(challenge: Seq<u8>, now: u64)
    requires
        now + 60 <= u64::MAX,
    ensures
        challenge_live(challenge, now) <==> (claims::number_claim(
            challenge,
            bytes::text("exp"),
        ) matches Some(exp) && now < exp) && (claims::number_claim(
            challenge,
            bytes::text("nbf"),
        ) matches Some(nbf) && nbf <= now + 60),
{
}

} // verus!
