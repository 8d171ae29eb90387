use kagi::replay::{Replay, ReplayWindow};

fn id(n: u8) -> [u8; 32] {
    [n; 32]
}

#[test]
fn a_proof_is_taken_once() {
    let mut w = ReplayWindow::new();
    assert_eq!(w.offer(&id(1), 100, 400), Replay::Recorded);
    assert_eq!(w.offer(&id(1), 100, 400), Replay::Seen);
    assert_eq!(w.offer(&id(1), 399, 700), Replay::Seen);
    assert_eq!(w.offer(&id(2), 100, 400), Replay::Recorded);
}

#[test]
fn what_is_stale_is_forgotten() {
    let mut w = ReplayWindow::new();
    assert_eq!(w.offer(&id(1), 100, 400), Replay::Recorded);
    assert_eq!(w.offer(&id(1), 400, 700), Replay::Recorded);
}

#[test]
fn a_saturated_window_refuses() {
    let mut w = ReplayWindow::new();
    for n in 0..128u8 {
        assert_eq!(w.offer(&id(n), 100, 400), Replay::Recorded);
    }
    assert_eq!(w.offer(&id(200), 100, 400), Replay::Full);
    assert_eq!(w.offer(&id(5), 100, 400), Replay::Seen);
    assert_eq!(w.offer(&id(200), 400, 700), Replay::Recorded);
}
