//! The step-cost instrument: one timed operation per step, for every suite in turn, and a line for
//! each window of samples.
use vstd::prelude::*;

use crate::bytes;
use crate::bytes::{append, u64_dec};
use crate::crypto;
use crate::crypto::{ecdsa_verify, ed25519_verify, sha256_into};
use crate::keys;
use crate::keys::{count, Suite};

verus! {

/// Samples in one window.
pub const WINDOW: u32 = 16;

pub const SUITES: usize = 5;

/// The message that every suite signs.
pub const MSG: &'static str = "kagi suite-bench: one fixed message, sixty-four bytes, measured.";

#[derive(Clone, Copy, Debug, PartialEq, Eq, Structural)]
pub enum Op {
    Sign,
    Verify,
    Hash,
}

impl Op {
    pub open spec fn index(self) -> int {
        match self {
            Op::Sign => 0,
            Op::Verify => 1,
            Op::Hash => 2,
        }
    }

    pub open spec fn spec_label(self) -> &'static str {
        match self {
            Op::Sign => " op=sign",
            Op::Verify => " op=vrfy",
            Op::Hash => " op=hash",
        }
    }

    pub fn label(self) -> (r: &'static str)
        ensures
            r == self.spec_label(),
    {
        match self {
            Op::Sign => " op=sign",
            Op::Verify => " op=vrfy",
            Op::Hash => " op=hash",
        }
    }
}

/// The samples of one window, summed up.
#[derive(Clone, Copy, Debug, PartialEq, Eq, Structural)]
pub struct Stats {
    pub n: u32,
    pub min_us: u32,
    pub max_us: u32,
    pub sum_us: u64,
}

pub open spec fn total(samples: Seq<u32>) -> nat
    decreases samples.len(),
{
    if samples.len() == 0 {
        0
    } else {
        total(samples.drop_last()) + samples.last() as nat
    }
}

impl Stats {
    /// `self` sums up these samples.
    pub open spec fn of(self, samples: Seq<u32>) -> bool {
        &&& self.n == samples.len()
        &&& self.sum_us == total(samples)
        &&& forall|i: int|
            0 <= i < samples.len() ==> self.min_us <= #[trigger] samples[i] <= self.max_us
        &&& samples.len() > 0 ==> samples.contains(self.min_us) && samples.contains(self.max_us)
        &&& samples.len() == 0 ==> self.min_us == u32::MAX && self.max_us == 0
    }

    pub fn zero() -> (r: Self)
        ensures
            r.of(Seq::empty()),
            r == (Stats { n: 0, min_us: u32::MAX, max_us: 0, sum_us: 0 }),
    {
        let r = Stats { n: 0, min_us: u32::MAX, max_us: 0, sum_us: 0 };
        assert(r.of(Seq::empty()));
        r
    }

    /// The statistics with one more sample.
    pub open spec fn with(self, us: u32) -> Self {
        Stats {
            n: (self.n + 1) as u32,
            min_us: if us < self.min_us {
                us
            } else {
                self.min_us
            },
            max_us: if us > self.max_us {
                us
            } else {
                self.max_us
            },
            sum_us: (self.sum_us + us) as u64,
        }
    }

    /// Take one sample in.
    pub fn record(&mut self, us: u32)
        requires
            old(self).n < u32::MAX,
            old(self).sum_us + us <= u64::MAX,
        ensures
            *final(self) == old(self).with(us),
            forall|samples: Seq<u32>| #[trigger]
                old(self).of(samples) ==> final(self).of(samples.push(us)),
    {
        let ghost before = *self;
        self.n = self.n + 1;
        self.sum_us = self.sum_us + us as u64;
        if us < self.min_us {
            self.min_us = us;
        }
        if us > self.max_us {
            self.max_us = us;
        }
        let ghost after = *self;
        proof {
            assert forall|samples: Seq<u32>| #[trigger] before.of(samples) implies after.of(
                samples.push(us),
            ) by {
                let more = samples.push(us);
                assert(more.drop_last() =~= samples);
                assert(more[samples.len() as int] == us);
                assert(more.contains(us));
                if samples.len() > 0 {
                    let i = choose|i: int| 0 <= i < samples.len() && samples[i] == before.min_us;
                    let j = choose|j: int| 0 <= j < samples.len() && samples[j] == before.max_us;
                    assert(more[i] == before.min_us);
                    assert(more[j] == before.max_us);
                } else {
                    assert(us <= u32::MAX);
                }
                assert forall|k: int| 0 <= k < more.len() implies after.min_us
                    <= #[trigger] more[k] <= after.max_us by {
                    if k < samples.len() {
                        assert(more[k] == samples[k]);
                    }
                }
            }
        }
    }

    /// The mean of a window, rounded down.
    pub open spec fn mean(self) -> nat {
        (self.sum_us as nat) / (self.n as nat)
    }
}

/// The line of a completed window.
pub open spec fn beat_line(code: u16, op: Op, window: Stats) -> Seq<u8> {
    let start = bytes::text("[bench] s=") + bytes::decimal(code as nat) + bytes::text(
        op.spec_label(),
    ) + bytes::text(" n=") + bytes::decimal(window.n as nat);
    if window.n > 0 {
        start + bytes::text(" min=") + bytes::decimal(window.min_us as nat) + bytes::text(" avg=")
            + bytes::decimal(window.mean()) + bytes::text(" max=") + bytes::decimal(
            window.max_us as nat,
        )
    } else {
        start
    }
}

/// Append a label and a number.
pub fn put(line: &mut Vec<u8>, label: &str, value: u32)
    ensures
        final(line)@ == old(line)@ + bytes::text(label) + bytes::decimal(value as nat),
{
    append(line, label.as_bytes());
    let digits = u64_dec(value as u64);
    append(line, digits.as_slice());
}

/// The magnitude of a return code.
pub open spec fn magnitude(rc: i32) -> nat {
    if rc < 0 {
        (-rc) as nat
    } else {
        rc as nat
    }
}

fn unsigned(rc: i32) -> (r: u32)
    ensures
        r == magnitude(rc),
{
    if rc < 0 {
        (0i64 - rc as i64) as u32
    } else {
        rc as u32
    }
}

/// The sign that follows a number which was negative.
pub open spec fn sign_after(rc: i32) -> Seq<u8> {
    if rc < 0 {
        seq![45u8]
    } else {
        Seq::empty()
    }
}

/// The line of the platform probe: two calls of the random source and one of the vault.
pub fn probe_line(rng: i32, rng32: i32, tier_rc: i32, tier: u8) -> (r: Vec<u8>)
    ensures
        r@ == bytes::text("[bench] rng=") + bytes::decimal(magnitude(rng)) + sign_after(rng)
            + bytes::text(" rng32=") + bytes::decimal(magnitude(rng32)) + sign_after(rng32)
            + bytes::text(" tierrc=") + bytes::decimal(magnitude(tier_rc)) + bytes::text(" tier=")
            + bytes::decimal(tier as nat),
{
    let mut line: Vec<u8> = Vec::new();
    put(&mut line, "[bench] rng=", unsigned(rng));
    assert(line@ =~= bytes::text("[bench] rng=") + bytes::decimal(magnitude(rng)));
    put_sign(&mut line, rng);
    put(&mut line, " rng32=", unsigned(rng32));
    put_sign(&mut line, rng32);
    put(&mut line, " tierrc=", unsigned(tier_rc));
    put(&mut line, " tier=", tier as u32);
    line
}

fn put_sign(line: &mut Vec<u8>, rc: i32)
    ensures
        final(line)@ == old(line)@ + sign_after(rc),
{
    if rc < 0 {
        line.push(45);
    }
    assert(line@ =~= old(line)@ + sign_after(rc));
}

/// The vault label of a suite's key.
pub fn label(code: u16) -> (r: Vec<u8>)
    requires
        code <= 207,
    ensures
        r@ == bytes::text("bench-s") + seq![(48 + code) as u8],
{
    let mut out: Vec<u8> = Vec::new();
    append(&mut out, "bench-s".as_bytes());
    assert(out@ =~= bytes::text("bench-s"));
    out.push(48 + code as u8);
    assert(out@ =~= bytes::text("bench-s") + seq![(48 + code) as u8]);
    out
}

/// The suite at a place of the rotation.
pub open spec fn suite_at(i: int) -> Suite {
    if i == 0 {
        Suite::Es256
    } else if i == 1 {
        Suite::Ed25519
    } else if i == 2 {
        Suite::MlDsa44
    } else if i == 3 {
        Suite::MlDsa65
    } else {
        Suite::MlDsa87
    }
}

/// What a suite signs: ECDSA a digest, every other the message.
pub open spec fn input_of(suite: Suite) -> Seq<u8> {
    if suite == Suite::Es256 {
        crypto::sha256(bytes::text(MSG))
    } else {
        bytes::text(MSG)
    }
}

pub fn sign_input(suite: Suite) -> (r: Vec<u8>)
    ensures
        r@ == input_of(suite),
{
    let message = MSG.as_bytes();
    match suite {
        Suite::Es256 => {
            let mut digest: [u8; 32] = [0u8; 32];
            sha256_into(message, &mut digest);
            vstd::slice::slice_to_vec(digest.as_slice())
        },
        _ => vstd::slice::slice_to_vec(message),
    }
}

/// What the step that follows is.
#[derive(Clone, Copy, Debug, PartialEq, Eq, Structural)]
pub enum Visit {
    /// The suite's key did not open: try it again.
    Retry { index: usize, code: u16 },
    /// Run and time this operation.
    Run { index: usize, suite: Suite, op: Op },
}

pub struct Bench {
    /// The number under which each suite is told.
    pub codes: Vec<u16>,
    pub open_ok: Vec<bool>,
    pub open_rc: Vec<i32>,
    pub open_tries: Vec<u32>,
    pub suite_idx: usize,
    pub op: Op,
    pub window: Stats,
    /// The last signature.
    pub sig: Vec<u8>,
    pub ops_done: u32,
    pub sign_failures: u32,
    pub verify_failures: u32,
    pub beats: u32,
}

impl Bench {
    pub open spec fn wf(self) -> bool {
        &&& self.codes@.len() == 5
        &&& self.open_ok@.len() == 5
        &&& self.open_rc@.len() == 5
        &&& self.open_tries@.len() == 5
        &&& self.suite_idx < 5
        &&& self.window.n < 16
        &&& self.window.sum_us <= self.window.n * u32::MAX
    }

    /// The place in the rotation, of all operations of all suites.
    pub open spec fn place(self) -> int {
        3 * self.suite_idx + self.op.index()
    }

    /// Everything but the place, the window, the signature and the counters is as in `other`.
    pub open spec fn same_setup(self, other: Self) -> bool {
        &&& self.codes == other.codes
        &&& self.open_ok == other.open_ok
        &&& self.open_rc == other.open_rc
        &&& self.open_tries == other.open_tries
    }

    pub open spec fn same_counters(self, other: Self) -> bool {
        &&& self.ops_done == other.ops_done
        &&& self.sign_failures == other.sign_failures
        &&& self.verify_failures == other.verify_failures
        &&& self.beats == other.beats
    }

    /// A bench at the start of its rotation. `codes` are the numbers of the five suites;
    /// `opened` says for each whether its key opened, or else with what return code it did not.
    pub fn module_new(codes: Vec<u16>, opened: &Vec<Option<i32>>) -> (r: Self)
        requires
            codes@.len() == 5,
            opened@.len() == 5,
        ensures
            r.wf(),
            r.codes == codes,
            forall|i: int|
                0 <= i < 5 ==> {
                    &&& #[trigger] r.open_ok@[i] == (opened@[i] is None)
                    &&& r.open_rc@[i] == (match opened@[i] {
                        Some(rc) => rc,
                        None => 0,
                    })
                    &&& r.open_tries@[i] == 1
                },
            r.place() == 0,
            r.window.of(Seq::empty()),
            r.sig@.len() == 0,
            r.ops_done == 0,
            r.sign_failures == 0,
            r.verify_failures == 0,
            r.beats == 0,
    {
        let mut open_ok: Vec<bool> = Vec::new();
        let mut open_rc: Vec<i32> = Vec::new();
        let mut open_tries: Vec<u32> = Vec::new();
        let mut i: usize = 0;
        while i < 5
            invariant
                i <= 5,
                opened@.len() == 5,
                open_ok@.len() == i,
                open_rc@.len() == i,
                open_tries@.len() == i,
                forall|j: int|
                    0 <= j < i ==> {
                        &&& #[trigger] open_ok@[j] == (opened@[j] is None)
                        &&& open_rc@[j] == (match opened@[j] {
                            Some(rc) => rc,
                            None => 0,
                        })
                        &&& open_tries@[j] == 1
                    },
            decreases 5 - i,
        {
            match opened[i] {
                Some(rc) => {
                    open_ok.push(false);
                    open_rc.push(rc);
                },
                None => {
                    open_ok.push(true);
                    open_rc.push(0);
                },
            }
            open_tries.push(1);
            i = i + 1;
        }
        Bench {
            codes,
            open_ok,
            open_rc,
            open_tries,
            suite_idx: 0,
            op: Op::Sign,
            window: Stats::zero(),
            sig: Vec::new(),
            ops_done: 0,
            sign_failures: 0,
            verify_failures: 0,
            beats: 0,
        }
    }

    /// Whether the platform is to be probed: once in every rotation.
    pub fn probe_due(&self) -> (r: bool)
        requires
            self.wf(),
        ensures
            r == (self.place() == 0),
    {
        self.suite_idx == 0 && self.op == Op::Sign
    }

    /// Move on: the next operation, and after the last one the next suite.
    pub fn advance(&mut self)
        requires
            old(self).wf(),
        ensures
            final(self).wf(),
            final(self).place() == (old(self).place() + 1) % 15,
            final(self).same_setup(*old(self)),
            final(self).same_counters(*old(self)),
            final(self).window == old(self).window,
            final(self).sig == old(self).sig,
    {
        match self.op {
            Op::Sign => {
                self.op = Op::Verify;
            },
            Op::Verify => {
                self.op = Op::Hash;
            },
            Op::Hash => {
                self.op = Op::Sign;
                self.next_suite();
            },
        }
    }

    fn next_suite(&mut self)
        requires
            old(self).wf(),
        ensures
            *final(self) == (Bench {
                suite_idx: ((old(self).suite_idx + 1) % 5) as usize,
                ..*old(self)
            }),
    {
        if self.suite_idx == 4 {
            self.suite_idx = 0;
        } else {
            self.suite_idx = self.suite_idx + 1;
        }
    }

    /// What the step that follows is. A suite whose key did not open is tried again each time the
    /// rotation comes to it.
    pub fn visit(&self) -> (r: Visit)
        requires
            self.wf(),
        ensures
            r == (if self.open_ok@[self.suite_idx as int] {
                Visit::Run {
                    index: self.suite_idx,
                    suite: suite_at(self.suite_idx as int),
                    op: self.op,
                }
            } else {
                Visit::Retry {
                    index: self.suite_idx,
                    code: self.codes@[self.suite_idx as int],
                }
            }),
    {
        let i: usize = self.suite_idx;
        if self.open_ok[i] {
            let suite = match i {
                0 => Suite::Es256,
                1 => Suite::Ed25519,
                2 => Suite::MlDsa44,
                3 => Suite::MlDsa65,
                _ => Suite::MlDsa87,
            };
            return Visit::Run { index: i, suite, op: self.op };
        }
        Visit::Retry { index: i, code: self.codes[i] }
    }

    /// A suite's key was tried again: it opened, or it did not with this return code. The line
    /// says which.
    pub fn retried(&mut self, failure: Option<i32>) -> (r: Vec<u8>)
        requires
            old(self).wf(),
        ensures
            final(self).wf(),
            final(self).same_counters(*old(self)),
            final(self).window == old(self).window,
            final(self).sig == old(self).sig,
            final(self).codes == old(self).codes,
            ({
                let i = old(self).suite_idx as int;
                let tries = keys::counted(old(self).open_tries@[i]);
                let start = bytes::text("[bench] s=") + bytes::decimal(old(self).codes@[i] as nat);
                &&& final(self).open_tries@ == old(self).open_tries@.update(i, tries)
                &&& final(self).open_ok@ == old(self).open_ok@.update(i, failure is None)
                &&& final(self).place() == 3 * ((i + 1) % 5)
                &&& match failure {
                    None => {
                        &&& r@ == start + bytes::text(" open=recovered") + bytes::text(" tries=")
                            + bytes::decimal(tries as nat)
                        &&& final(self).open_rc@ == old(self).open_rc@
                    },
                    Some(rc) => {
                        &&& r@ == start + bytes::text(" open=fail") + bytes::text(" rc=-")
                            + bytes::decimal(magnitude(rc))
                        &&& final(self).open_rc@ == old(self).open_rc@.update(i, rc)
                    },
                }
            }),
    {
        let i: usize = self.suite_idx;
        let tries: u32 = self.open_tries[i].saturating_add(1);
        self.open_tries.set(i, tries);
        let mut line: Vec<u8> = Vec::new();
        put(&mut line, "[bench] s=", self.codes[i] as u32);
        assert(line@ =~= bytes::text("[bench] s=") + bytes::decimal(old(self).codes@[i as int] as nat));
        match failure {
            None => {
                self.open_ok.set(i, true);
                append(&mut line, " open=recovered".as_bytes());
                put(&mut line, " tries=", tries);
            },
            Some(rc) => {
                self.open_ok.set(i, false);
                self.open_rc.set(i, rc);
                append(&mut line, " open=fail".as_bytes());
                put(&mut line, " rc=-", unsigned(rc));
            },
        }
        self.next_suite();
        self.op = Op::Sign;
        line
    }

    /// The line of the window, which starts anew.
    pub fn emit_beat(&mut self) -> (r: Vec<u8>)
        requires
            old(self).codes@.len() == 5,
            old(self).suite_idx < 5,
            old(self).window.sum_us <= old(self).window.n * u32::MAX,
        ensures
            r@ == beat_line(
                old(self).codes@[old(self).suite_idx as int],
                old(self).op,
                old(self).window,
            ),
            final(self).beats == keys::counted(old(self).beats),
            final(self).window.of(Seq::empty()),
            *final(self) == (Bench {
                beats: final(self).beats,
                window: final(self).window,
                ..*old(self)
            }),
    {
        let mut line: Vec<u8> = Vec::new();
        put(&mut line, "[bench] s=", self.codes[self.suite_idx] as u32);
        assert(line@ =~= bytes::text("[bench] s=") + bytes::decimal(
            self.codes@[self.suite_idx as int] as nat,
        ));
        append(&mut line, self.op.label().as_bytes());
        put(&mut line, " n=", self.window.n);
        if self.window.n > 0 {
            let mean: u64 = self.window.sum_us / self.window.n as u64;
            assert(mean <= u32::MAX) by (nonlinear_arith)
                requires
                    mean == self.window.sum_us / self.window.n as u64,
                    self.window.n > 0,
                    self.window.sum_us <= self.window.n * u32::MAX,
            ;
            put(&mut line, " min=", self.window.min_us);
            put(&mut line, " avg=", mean as u32);
            put(&mut line, " max=", self.window.max_us);
        }
        count(&mut self.beats);
        self.window = Stats::zero();
        line
    }

    /// The window and the counters after an operation that took from `t0` to `t1`, and the line
    /// where the window is complete or the operation failed.
    pub open spec fn timed(before: Self, after: Self, succeeded: bool, t0: u64, t1: u64, line: Option<
        Vec<u8>,
    >) -> bool {
        let us = elapsed(t0, t1);
        let window = if succeeded {
            before.window.with(us)
        } else {
            before.window
        };
        &&& after.wf()
        &&& after.same_setup(before)
        &&& after.ops_done == (if succeeded {
            keys::counted(before.ops_done)
        } else {
            before.ops_done
        })
        &&& if window.n >= 16 || !succeeded {
            &&& line matches Some(text)
            &&& text@ == beat_line(before.codes@[before.suite_idx as int], before.op, window)
            &&& after.beats == keys::counted(before.beats)
            &&& after.window.of(Seq::empty())
            &&& after.place() == (before.place() + 1) % 15
        } else {
            &&& line is None
            &&& after.beats == before.beats
            &&& after.window == window
            &&& after.place() == before.place()
        }
    }

    fn timing(&mut self, succeeded: bool, t0: u64, t1: u64) -> (r: Option<Vec<u8>>)
        requires
            old(self).wf(),
        ensures
            Self::timed(*old(self), *final(self), succeeded, t0, t1, r),
            final(self).sig == old(self).sig,
            final(self).sign_failures == old(self).sign_failures,
            final(self).verify_failures == old(self).verify_failures,
    {
        if succeeded {
            count(&mut self.ops_done);
            let us: u32 = (t1.saturating_sub(t0) % 4294967296) as u32;
            self.window.record(us);
        }
        if self.window.n >= WINDOW || !succeeded {
            let line = self.emit_beat();
            self.advance();
            return Some(line);
        }
        None
    }

    /// A timed signing is done: here is the signature, or there is none.
    pub fn signed(&mut self, signature: Option<Vec<u8>>, t0: u64, t1: u64) -> (r: Option<Vec<u8>>)
        requires
            old(self).wf(),
        ensures
            Self::timed(*old(self), *final(self), signature is Some, t0, t1, r),
            final(self).verify_failures == old(self).verify_failures,
            match signature {
                Some(sig) => final(self).sig == sig && final(self).sign_failures
                    == old(self).sign_failures,
                None => final(self).sig == old(self).sig && final(self).sign_failures
                    == keys::counted(old(self).sign_failures),
            },
    {
        match signature {
            Some(sig) => {
                self.sig = sig;
                self.timing(true, t0, t1)
            },
            None => {
                count(&mut self.sign_failures);
                self.timing(false, t0, t1)
            },
        }
    }

    /// Whether the last signature holds under `public`. A lattice signature is checked by
    /// `lattice`, which says what came of it.
    pub fn verify(&self, suite: Suite, public: &[u8], lattice: bool) -> (r: bool)
        ensures
            r == (self.sig@.len() > 0 && match suite {
                Suite::Es256 => crypto::ecdsa_valid(public@, input_of(suite), self.sig@),
                Suite::Ed25519 => crypto::ed25519_valid(public@, input_of(suite), self.sig@),
                _ => lattice,
            }),
    {
        if self.sig.len() == 0 {
            return false;
        }
        let input = sign_input(suite);
        match suite {
            Suite::Es256 => ecdsa_verify(public, input.as_slice(), self.sig.as_slice()),
            Suite::Ed25519 => ed25519_verify(public, input.as_slice(), self.sig.as_slice()),
            _ => lattice,
        }
    }

    /// A timed verification is done.
    pub fn verified(&mut self, verified: bool, t0: u64, t1: u64) -> (r: Option<Vec<u8>>)
        requires
            old(self).wf(),
        ensures
            Self::timed(*old(self), *final(self), verified, t0, t1, r),
            final(self).sig == old(self).sig,
            final(self).sign_failures == old(self).sign_failures,
            final(self).verify_failures == (if verified {
                old(self).verify_failures
            } else {
                keys::counted(old(self).verify_failures)
            }),
    {
        if !verified {
            count(&mut self.verify_failures);
        }
        self.timing(verified, t0, t1)
    }

    /// A timed digest is done.
    pub fn hashed(&mut self, t0: u64, t1: u64) -> (r: Option<Vec<u8>>)
        requires
            old(self).wf(),
        ensures
            Self::timed(*old(self), *final(self), true, t0, t1, r),
            final(self).sig == old(self).sig,
            final(self).sign_failures == old(self).sign_failures,
            final(self).verify_failures == old(self).verify_failures,
    {
        self.timing(true, t0, t1)
    }
}

/// The microseconds between two readings of the clock, none where it went back.
pub open spec fn elapsed(t0: u64, t1: u64) -> u32 {
    if t1 >= t0 {
        ((t1 - t0) % 4294967296) as u32
    } else {
        0
    }
}

/// The mean of a window lies between its least and its greatest sample.
pub proof fn mean_is_between(window: Stats, samples: Seq<u32>)
    requires
        window.of(samples),
        samples.len() > 0,
    ensures
        window.min_us <= window.mean() <= window.max_us,
{
    lemma_total(samples, window.min_us, window.max_us);
    let sum = window.sum_us as int;
    let n = window.n as int;
    let low = window.min_us as int;
    let high = window.max_us as int;
    assert(low <= sum / n <= high) by (nonlinear_arith)
        requires
            n > 0,
            n * low <= sum <= n * high,
    ;
}

proof fn lemma_total(samples: Seq<u32>, low: u32, high: u32)
    requires
        forall|i: int| 0 <= i < samples.len() ==> low <= #[trigger] samples[i] <= high,
    ensures
        samples.len() * low <= total(samples) <= samples.len() * high,
    decreases samples.len(),
{
    if samples.len() > 0 {
        let rest = samples.drop_last();
        assert forall|i: int| 0 <= i < rest.len() implies low <= #[trigger] rest[i] <= high by {
            assert(rest[i] == samples[i]);
        }
        lemma_total(rest, low, high);
        let n = samples.len() as int;
        assert(rest.len() == n - 1);
        assert(n * low == (n - 1) * low + low) by (nonlinear_arith);
        assert(n * high == (n - 1) * high + high) by (nonlinear_arith);
        assert(samples.last() == samples[n - 1]);
    } else {
        let n = samples.len();
        assert(n * low == 0 && n * high == 0) by (nonlinear_arith)
            requires
                n == 0,
        ;
    }
}

/// The time of an operation is the distance of the two readings of the clock, where it fits.
pub proof fn the_time_is_the_distance(t0: u64, took: u32)
    requires
        t0 + took <= u64::MAX,
    ensures
        elapsed(t0, (t0 + took) as u64) == took,
{
}

/// The mean of a window is its sum shared among its samples, rounded down.
pub proof fn the_mean_shares_the_sum(window: Stats, samples: Seq<u32>)
    requires
        window.of(samples),
        samples.len() > 0,
    ensures
        window.mean() * samples.len() <= total(samples) < (window.mean() + 1) * samples.len(),
{
    let (sum, n) = (window.sum_us as nat, window.n as nat);
    assert((sum / n) * n <= sum < (sum / n + 1) * n) by (nonlinear_arith)
        requires
            n > 0,
    ;
}

/// Every suite has its turn, and none has two.
pub proof fn every_suite_has_its_turn(suite: Suite)
    ensures
        exists|i: int| 0 <= i < 5 && #[trigger] suite_at(i) == suite,
        forall|i: int, j: int|
            0 <= i < 5 && 0 <= j < 5 && #[trigger] suite_at(i) == #[trigger] suite_at(j) ==> i == j,
{
    assert(suite_at(0) == Suite::Es256);
    assert(suite_at(1) == Suite::Ed25519);
    assert(suite_at(2) == Suite::MlDsa44);
    assert(suite_at(3) == Suite::MlDsa65);
    assert(suite_at(4) == Suite::MlDsa87);
}

/// A window that an operation completes, or that a failure ends, is told and starts anew at the
/// next operation; any other goes on where it is.
pub proof fn a_window_ends_when_it_is_full(
    before: Bench,
    after: Bench,
    succeeded: bool,
    t0: u64,
    t1: u64,
    line: Option<Vec<u8>>,
    samples: Seq<u32>,
)
    requires
        before.wf(),
        before.window.of(samples),
        Bench::timed(before, after, succeeded, t0, t1, line),
        t0 <= t1,
        t1 - t0 <= u32::MAX,
    ensures
        line is Some <==> !succeeded || samples.len() == 15,
        line is Some ==> after.window.n == 0,
        line is Some && before.place() == 14 ==> after.place() == 0,
        line is Some && before.place() < 14 ==> after.place() == before.place() + 1,
        line is None ==> {
            &&& after.place() == before.place()
            &&& after.window.n == samples.len() + 1
            &&& after.window.sum_us == total(samples) + (t1 - t0)
        },
{
}

/// The line of a window tells the suite by its number, and then the least, the mean and the greatest
/// of its samples, each behind its own name.
pub proof fn a_line_tells_the_window(code: u16, op: Op, window: Stats) -> (parts: (Seq<u8>, Seq<u8>))
    requires
        window.n > 0,
    ensures
        beat_line(code, op, window) == bytes::text("[bench] s=") + bytes::decimal(code as nat)
            + parts.0 + parts.1,
        parts.1 == bytes::text(" n=") + bytes::decimal(window.n as nat) + bytes::text(" min=")
            + bytes::decimal(window.min_us as nat) + bytes::text(" avg=") + bytes::decimal(
            (window.sum_us / window.n as u64) as nat,
        ) + bytes::text(" max=") + bytes::decimal(window.max_us as nat),
        op == Op::Sign ==> parts.0 == bytes::text(" op=sign"),
        op == Op::Verify ==> parts.0 == bytes::text(" op=vrfy"),
        op == Op::Hash ==> parts.0 == bytes::text(" op=hash"),
{
    let name = bytes::text(op.spec_label());
    let rest = bytes::text(" n=") + bytes::decimal(window.n as nat) + bytes::text(" min=")
        + bytes::decimal(window.min_us as nat) + bytes::text(" avg=") + bytes::decimal(
        window.mean(),
    ) + bytes::text(" max=") + bytes::decimal(window.max_us as nat);
    assert(window.mean() == window.sum_us / window.n as u64);
    assert(beat_line(code, op, window) =~= bytes::text("[bench] s=") + bytes::decimal(code as nat)
        + name + rest);
    (name, rest)
}

} // verus!
