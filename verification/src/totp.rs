//! Time-based one-time codes: six digits of HMAC-SHA-256 over 30-second steps, with one step
//! of tolerance on either side.
use vstd::prelude::*;

use crate::bytes;
use crate::crypto;

verus! {

pub const TOTP_DIGITS: usize = 6;

pub const TOTP_PERIOD: u64 = 30;

pub const TOTP_SKEW: u64 = 1;

/// Longest secret.
pub const MAX_SECRET: usize = 64;

/// Longest code that a presenter may offer.
pub const MAX_DIGITS: usize = 8;

/// The eight big-endian bytes of `v`.
pub open spec fn be64_bytes(v: nat) -> Seq<u8> {
    crate::wire::le64_bytes(v).reverse()
}

/// The 31-bit number that a MAC is cut down to: four bytes from the offset that its last byte
/// names, without the top bit.
pub open spec fn truncated(mac: Seq<u8>) -> nat {
    let o = mac.last() as int % 16;
    ((mac[o] as int % 128) * 16777216 + mac[o + 1] * 65536 + mac[o + 2] * 256 + mac[o + 3]) as nat
}

/// The code of `secret` at `counter`.
#[verifier::opaque]
pub open spec fn code_at(secret: Seq<u8>, counter: u64) -> nat {
    truncated(crypto::hmac_sha256(secret, be64_bytes(counter as nat))) % 1000000
}

/// The number that a presented code names: six digits.
pub open spec fn code_value(code: Seq<u8>) -> Option<nat> {
    if code.len() == 6 && bytes::all_digits(code) {
        Some(bytes::decimal_value(code))
    } else {
        None
    }
}

/// The step `c` is one of those tried at `now`, and is past the last one that was used.
pub open spec fn eligible(c: u64, now: u64, last: Option<u64>) -> bool {
    let step = now as int / 30;
    step - 1 <= c <= step + 1 && (last matches Some(used) ==> c > used)
}

/// The code holds at step `c`.
pub open spec fn holds_at(secret: Seq<u8>, code: nat, now: u64, last: Option<u64>, c: u64) -> bool {
    eligible(c, now, last) && code_at(secret, c) == code
}

/// The code holds at some step.
pub open spec fn holds(secret: Seq<u8>, code: nat, now: u64, last: Option<u64>) -> bool {
    exists|c: u64| #[trigger] holds_at(secret, code, now, last, c)
}

/// Read a presented code.
pub fn parse_code(code: &[u8]) -> (r: Option<u32>)
    ensures
        match r {
            Some(v) => code_value(code@) == Some(v as nat),
            None => code_value(code@) is None,
        },
{
    if code.len() != TOTP_DIGITS {
        return None;
    }
    let mut i: usize = 0;
    while i < 6
        invariant
            i <= 6,
            code@.len() == 6,
            forall|j: int| 0 <= j < i ==> bytes::is_digit(#[trigger] code@[j]),
        decreases 6 - i,
    {
        if code[i] < 48 || code[i] > 57 {
            return None;
        }
        i = i + 1;
    }
    proof {
        reveal_with_fuel(bytes::decimal_value, 7);
        assert(bytes::all_digits(code@));
        assert(bytes::decimal_value(code@) < 1000000) by {
            assert(code@.drop_last().drop_last().drop_last().drop_last().drop_last().drop_last().len()
                == 0);
        }
    }
    match crate::claims::read_decimal(code) {
        Some(v) => Some(v as u32),
        None => None,
    }
}

fn counter_bytes(v: u64) -> (r: Vec<u8>)
    ensures
        r@ == be64_bytes(v as nat),
{
    let little = crate::wire::u64_bytes(v);
    let mut out: Vec<u8> = Vec::new();
    let mut i: usize = little.len();
    while i > 0
        invariant
            i <= little@.len(),
            out@.len() == little@.len() - i,
            forall|j: int| 0 <= j < out@.len() ==> out@[j] == little@[little@.len() - 1 - j],
        decreases i,
    {
        i = i - 1;
        out.push(little[i]);
    }
    assert(out@ =~= be64_bytes(v as nat));
    out
}

/// The code of `secret` at `counter`.
pub fn hotp(secret: &[u8], counter: u64) -> (r: u32)
    ensures
        r == code_at(secret@, counter),
{
    proof {
        reveal(code_at);
    }
    let message = counter_bytes(counter);
    let mac = crypto::authenticate(secret, message.as_slice());
    code_of_mac(&mac)
}

/// The six digits of a MAC.
pub fn code_of_mac(mac: &[u8; 32]) -> (r: u32)
    ensures
        r == truncated(mac@) % 1000000,
{
    let o: usize = (mac[31] % 16) as usize;
    let value: u32 = (mac[o] % 128) as u32 * 16777216 + mac[o + 1] as u32 * 65536 + mac[o
        + 2] as u32 * 256 + mac[o + 3] as u32;
    value % 1000000
}

/// The first step at which the code holds, if it holds at any: the step before, the present one
/// or the next, but none that was used already.
pub fn verify_totp(secret: &[u8], code: u32, now: u64, last: Option<u64>) -> (r: Option<u64>)
    ensures
        r is Some <==> holds(secret@, code as nat, now, last),
        match r {
            Some(c) => holds_at(secret@, code as nat, now, last, c) && forall|d: u64|
                d < c ==> !#[trigger] holds_at(secret@, code as nat, now, last, d),
            None => forall|d: u64| !#[trigger] holds_at(secret@, code as nat, now, last, d),
        },
{
    let step: u64 = now / TOTP_PERIOD;
    let mut c: u64 = if step >= TOTP_SKEW {
        step - TOTP_SKEW
    } else {
        0
    };
    while c <= step + 1
        invariant
            step == now / 30,
            c <= step + 2,
            c + 1 >= step,
            forall|d: u64| d < c ==> !#[trigger] holds_at(secret@, code as nat, now, last, d),
        decreases step + 2 - c,
    {
        let fresh = match last {
            Some(used) => c > used,
            None => true,
        };
        if fresh && hotp(secret, c) == code {
            assert(holds_at(secret@, code as nat, now, last, c));
            return Some(c);
        }
        assert(!holds_at(secret@, code as nat, now, last, c));
        c = c + 1;
    }
    None
}

/// A code that held at one step does not hold at that step again, nor at an earlier one, once
/// the step has been recorded.
pub proof fn a_used_step_stays_used(secret: Seq<u8>, code: nat, now: u64, used: u64, c: u64)
    requires
        c <= used,
    ensures
        !holds_at(secret, code, now, Some(used), c),
{
}

/// The code of a step: the MAC of the step's number, high byte first; four of its bytes from where
/// its last byte points, without the top bit; and of that the last six digits.
pub proof fn the_code_of_a_step(secret: Seq<u8>, counter: u64, step: Seq<u8>, at: int)
    requires
        step.len() == 8,
        counter == step[0] * 72057594037927936 + step[1] * 281474976710656 + step[2] * 1099511627776
            + step[3] * 4294967296 + step[4] * 16777216 + step[5] * 65536 + step[6] * 256 + step[7],
        at == crypto::hmac_sha256(secret, step).last() as int % 16,
    ensures
        ({
            let mac = crypto::hmac_sha256(secret, step);
            code_at(secret, counter) == ((mac[at] as int % 128) * 16777216 + mac[at + 1] * 65536
                + mac[at + 2] * 256 + mac[at + 3]) % 1000000
        }),
{
    reveal(code_at);
    let w = counter as nat;
    let high = (step[0] * 16777216 + step[1] * 65536 + step[2] * 256 + step[3]) as nat;
    let low = (step[4] * 16777216 + step[5] * 65536 + step[6] * 256 + step[7]) as nat;
    assert(w == high * 4294967296 + low);
    assert(low < 4294967296);
    assert(w / 4294967296 == high && w % 4294967296 == low);
    lemma_four_bytes(high, step[0], step[1], step[2], step[3]);
    lemma_four_bytes(low, step[4], step[5], step[6], step[7]);
    assert(crate::wire::le64_bytes(w) =~= seq![
        step[7],
        step[6],
        step[5],
        step[4],
        step[3],
        step[2],
        step[1],
        step[0],
    ]);
    assert(be64_bytes(w) =~= step);
}

proof fn lemma_four_bytes(v: nat, a: u8, b: u8, c: u8, d: u8)
    requires
        v == a * 16777216 + b * 65536 + c * 256 + d,
    ensures
        crate::wire::le32_bytes(v) == seq![d, c, b, a],
{
    let (p, q, r) = (a as int, b as int, c as int);
    assert(v as int / 256 == p * 65536 + q * 256 + r);
    assert(v as int / 65536 == p * 256 + q);
    assert(v as int / 16777216 == p);
    assert(crate::wire::le32_bytes(v) =~= seq![d, c, b, a]);
}

/// A code is six digits. It is taken in its own thirty seconds and in those before and after, and
/// only at a step past the last one that was used.
pub proof fn when_a_code_is_taken(
    secret: Seq<u8>,
    presented: Seq<u8>,
    now: u64,
    last: Option<u64>,
    c: u64,
)
    ensures
        code_value(presented) is Some <==> presented.len() == 6 && forall|i: int|
            0 <= i < 6 ==> 48 <= #[trigger] presented[i] <= 57,
        code_value(presented) matches Some(n) ==> holds_at(secret, n, now, last, c) == {
            &&& (c as int) * 30 <= now + 30
            &&& now < (c as int) * 30 + 60
            &&& last is Some ==> c > last->0
            &&& code_at(secret, c) == n
        },
{
    if code_value(presented) is Some {
        assert forall|i: int| 0 <= i < 6 implies 48 <= #[trigger] presented[i] <= 57 by {
            assert(bytes::is_digit(presented[i]));
        }
    }
}

} // verus!
