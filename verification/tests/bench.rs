use ed25519_dalek::{Signer, SigningKey};

use kagi::keys::Suite;
use kagi::suite_bench::{label, probe_line, put, sign_input, Bench, Op, Stats, Visit, MSG};

fn bench(opened: [Option<i32>; 5]) -> Bench {
    Bench::module_new(vec![1, 2, 3, 4, 5], &opened.to_vec())
}

#[test]
fn samples_are_summed_up() {
    let mut s = Stats::zero();
    assert_eq!((s.n, s.min_us, s.max_us, s.sum_us), (0, u32::MAX, 0, 0));
    for us in [5, 2, 9] {
        s.record(us);
    }
    assert_eq!((s.n, s.min_us, s.max_us, s.sum_us), (3, 2, 9, 16));
}

#[test]
fn lines() {
    let mut line = b"a".to_vec();
    put(&mut line, " b=", 12);
    assert_eq!(line, b"a b=12");
    assert_eq!(probe_line(-5, 32, -1, 2), b"[bench] rng=5- rng32=32 tierrc=1 tier=2");
    assert_eq!(label(3), b"bench-s3");
    assert_eq!(Op::Sign.label(), " op=sign");
}

#[test]
fn what_is_signed() {
    assert_eq!(sign_input(Suite::Ed25519), MSG.as_bytes());
    assert_eq!(MSG.len(), 64);
    assert_eq!(sign_input(Suite::Es256).len(), 32);
}

#[test]
fn a_window_is_sixteen_samples() {
    let mut b = bench([None; 5]);
    for n in 0..15u64 {
        assert!(b.signed(Some(vec![1]), 100, 110 + n).is_none());
    }
    let line = b.signed(Some(vec![1]), 100, 125).unwrap();
    assert_eq!(String::from_utf8(line).unwrap(), "[bench] s=1 op=sign n=16 min=10 avg=17 max=25");
    assert_eq!((b.ops_done, b.beats, b.op), (16, 1, Op::Verify));
    assert_eq!(b.window, Stats::zero());
}

#[test]
fn a_failure_ends_its_window() {
    let mut b = bench([None; 5]);
    assert_eq!(b.signed(None, 0, 0).unwrap(), b"[bench] s=1 op=sign n=0");
    assert_eq!((b.sign_failures, b.op), (1, Op::Verify));
    assert_eq!(b.verified(false, 0, 0).unwrap(), b"[bench] s=1 op=vrfy n=0");
    assert_eq!((b.verify_failures, b.op), (1, Op::Hash));
    for _ in 0..15 {
        assert!(b.hashed(9, 3).is_none());
    }
    assert_eq!(b.hashed(9, 3).unwrap(), b"[bench] s=1 op=hash n=16 min=0 avg=0 max=0");
    assert_eq!((b.suite_idx, b.op), (1, Op::Sign));
}

#[test]
fn the_rotation_comes_around() {
    let mut b = bench([None; 5]);
    for _ in 0..15 {
        b.advance();
    }
    assert_eq!((b.suite_idx, b.op), (0, Op::Sign));
    assert_eq!(b.visit(), Visit::Run { index: 0, suite: Suite::Es256, op: Op::Sign });
}

#[test]
fn a_key_that_did_not_open_is_tried_again() {
    let mut b = bench([Some(-7), None, None, None, None]);
    for _ in 0..2 {
        b.suite_idx = 0;
        assert_eq!(b.visit(), Visit::Retry { index: 0, code: 1 });
        assert_eq!(b.retried(Some(-9)), b"[bench] s=1 open=fail rc=-9");
        assert_eq!((b.suite_idx, b.op, b.open_ok[0]), (1, Op::Sign, false));
    }
    b.suite_idx = 0;
    assert_eq!(b.retried(None), b"[bench] s=1 open=recovered tries=4");
    assert!(b.open_ok[0]);
}

#[test]
fn signatures_are_verified() {
    let key = SigningKey::from_bytes(&[8u8; 32]);
    let public = key.verifying_key().to_bytes();
    let mut b = bench([None; 5]);
    assert!(!b.verify(Suite::Ed25519, &public, true));
    b.signed(Some(key.sign(MSG.as_bytes()).to_bytes().to_vec()), 0, 1);
    assert!(b.verify(Suite::Ed25519, &public, false));
    assert!(!b.verify(Suite::Es256, &public, true));
    assert!(b.verify(Suite::MlDsa44, &public, true));
    assert!(!b.verify(Suite::MlDsa44, &public, false));
}
