use kagi::control_admission::{
    hex_nibble, parse_allowed, read_identity, refuse, Gate, Peer, MSG_PEER_IDENTITY,
};

fn identity(conn: u32, result: u8, flags: u32, svid: &[u8]) -> Vec<u8> {
    let mut m = vec![0u8; 35];
    m[0] = MSG_PEER_IDENTITY;
    m[3..7].copy_from_slice(&conn.to_le_bytes());
    m[7] = result;
    m[27..31].copy_from_slice(&flags.to_le_bytes());
    m[32] = svid.len() as u8;
    m.extend_from_slice(svid);
    m
}

const SVID: [u8; 32] = [0xab; 32];

fn gate() -> Gate {
    Gate::module_new("ab".repeat(32).as_bytes(), b"/control", true)
}

#[test]
fn hexadecimal_digits() {
    assert_eq!(hex_nibble(b'0'), 0);
    assert_eq!(hex_nibble(b'a'), 10);
    assert_eq!(hex_nibble(b'F'), 15);
    assert_eq!(hex_nibble(b'g'), 0xFF);
}

#[test]
fn allowed_keys_are_read() {
    let one = "ab".repeat(32);
    let two = "01".repeat(32);
    let list = parse_allowed(format!("{one}{two}").as_bytes());
    assert_eq!(list, vec![vec![0xab; 32], vec![1; 32]]);
    assert_eq!(parse_allowed(format!("{one}0101").as_bytes()), vec![vec![0xab; 32]]);
    let bad = "zz".repeat(32);
    assert_eq!(parse_allowed(format!("{bad}{two}").as_bytes()), vec![vec![1u8; 32]]);
    assert_eq!(parse_allowed(one.repeat(9).as_bytes()).len(), 8);
    assert!(parse_allowed(b"").is_empty());
}

#[test]
fn identities_are_read() {
    let id = read_identity(&identity(7, 0, 0x11, &SVID)).unwrap();
    assert_eq!((id.conn, id.verified, &id.svid[..]), (7, true, &SVID[..]));
    assert!(!read_identity(&identity(7, 1, 0x11, &SVID)).unwrap().verified);
    assert!(!read_identity(&identity(7, 0, 0x10, &SVID)).unwrap().verified);
    assert!(!read_identity(&identity(7, 0, 0x01, &SVID)).unwrap().verified);
    let whole = identity(7, 0, 0x11, &SVID);
    assert!(read_identity(&whole[..whole.len() - 1]).is_none());
    let mut other = whole.clone();
    other[0] = 1;
    assert!(read_identity(&other).is_none());
}

#[test]
fn an_allowed_peer_is_accepted() {
    let mut g = gate();
    assert!(g.drain_peer_identities(&identity(7, 0, 0x11, &SVID)).is_some());
    let d = g.drain_admissions(7, b"/control").unwrap();
    assert!(d.accept);
    assert_eq!((d.conn, g.admit_granted, g.peer_identities), (7, 1, 1));
}

#[test]
fn peers_that_are_refused() {
    let mut g = gate();
    g.drain_peer_identities(&identity(7, 0, 0x11, &SVID));
    g.drain_peer_identities(&identity(8, 1, 0x11, &SVID));
    g.drain_peer_identities(&identity(9, 0, 0x11, &[1u8; 32]));
    g.drain_peer_identities(&identity(10, 0, 0x11, &SVID[..31]));
    let reason = |g: &mut Gate, conn: u32, path: &[u8]| {
        let d = g.drain_admissions(conn, path).unwrap();
        assert!(!d.accept);
        assert_eq!((d.conn, d.status), (conn, 403));
        d.reason
    };
    assert_eq!(reason(&mut g, 7, b"/other"), "path");
    assert_eq!(reason(&mut g, 8, b"/control"), "unverified");
    assert_eq!(reason(&mut g, 9, b"/control"), "not-allowed");
    assert_eq!(reason(&mut g, 10, b"/control"), "not-allowed");
    assert_eq!(
        (g.admit_refused_path, g.admit_refused_unverified, g.admit_refused_not_allowed),
        (1, 1, 2)
    );
    let long = "/".repeat(64);
    let mut exact = Gate::module_new(b"", long.as_bytes(), true);
    exact.drain_peer_identities(&identity(7, 0, 0x11, &SVID));
    assert_eq!(reason(&mut exact, 7, format!("{long}x").as_bytes()), "path");
    assert!(exact.drain_admissions(7, long.as_bytes()).unwrap().accept);
    let d = refuse(3, "path");
    assert_eq!((d.conn, d.accept, d.status, d.reason), (3, false, 403, "path"));
}

#[test]
fn a_request_waits_for_its_identity() {
    let mut g = gate();
    assert!(g.drain_admissions(7, b"/control").is_none());
    assert!(g.service_pending(0).is_none());
    g.drain_peer_identities(&identity(7, 0, 0x11, &SVID));
    assert!(g.service_pending(0).unwrap().accept);
    assert!(g.service_pending(0).is_none());
}

#[test]
fn a_request_does_not_wait_for_ever() {
    let mut g = gate();
    assert!(g.drain_admissions(7, b"/control").is_none());
    for _ in 0..3999 {
        assert!(g.service_pending(0).is_none());
    }
    let d = g.service_pending(0).unwrap();
    assert_eq!((d.accept, d.reason, g.admit_refused_timeout), (false, "identity", 1));
}

#[test]
fn a_closed_connection_is_forgotten() {
    let mut g = gate();
    g.drain_peer_identities(&identity(7, 0, 0x11, &SVID));
    assert!(g.lookup(7).is_some());
    g.drain_events(7);
    assert!(g.lookup(7).is_none());
    assert!(g.drain_admissions(7, b"/control").is_none());
}

#[test]
fn a_gate_without_names_is_open_to_verified_peers() {
    let mut g = Gate::module_new(b"", b"", true);
    assert!(g.path_matches(b"/anything"));
    let mut peer = Peer::zero();
    assert!(g.svid_allowed(&peer));
    peer.svid = vec![1];
    assert!(!gate().svid_allowed(&peer));
    g.drain_peer_identities(&identity(7, 0, 0x11, b""));
    assert!(g.drain_admissions(7, b"/anything").unwrap().accept);
    g.drain_peer_identities(&identity(8, 1, 0x11, b""));
    assert!(!g.drain_admissions(8, b"/anything").unwrap().accept);
    let mut open = Gate::module_new(b"", b"", false);
    open.drain_peer_identities(&identity(8, 1, 0, b""));
    assert!(open.drain_admissions(8, b"/anything").unwrap().accept);
}
