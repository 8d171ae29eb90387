//! Who may open the control socket: an upgrade is accepted once the identity of its connection
//! has come, holds, and is one of those allowed. A request whose identity has not come yet is
//! held for a bounded time, and refused when that runs out.
use vstd::prelude::*;
use vstd::slice::{slice_subrange, slice_to_vec};

use crate::bytes::bytes_equal;
use crate::keys;
use crate::keys::count;
use crate::wire;

verus! {

pub const MSG_PEER_IDENTITY: u8 = 0x5A;

/// The bytes of an identity before the fingerprint: an envelope of three and a fixed part.
pub const PEER_HEAD: usize = 35;

/// A SHA-256 fingerprint of the peer's key.
pub const MAX_SVID: usize = 32;

/// Connections whose identity is remembered at once.
pub const MAX_CONNS: usize = 32;

/// Requests held at once.
pub const MAX_PENDING: usize = 16;

/// How many steps a request may wait for its identity.
pub const PENDING_MAX_STEPS: u16 = 4000;

/// Fingerprints that can be allowed.
pub const MAX_ALLOWED: usize = 8;

/// A connection whose identity has come.
pub struct Peer {
    pub conn: u32,
    pub verified: bool,
    pub svid: Vec<u8>,
    pub live: bool,
}

impl Peer {
    pub open spec fn vacant(self) -> bool {
        !self.live && self.conn == 0 && !self.verified && self.svid@.len() == 0
    }

    pub fn zero() -> (r: Self)
        ensures
            r.vacant(),
    {
        Peer { conn: 0, verified: false, svid: Vec::new(), live: false }
    }
}

/// A request that waits for the identity of its connection.
pub struct Pending {
    pub conn: u32,
    pub path: Vec<u8>,
    pub waited: u16,
    pub live: bool,
}

impl Pending {
    pub open spec fn vacant(self) -> bool {
        !self.live && self.conn == 0 && self.path@.len() == 0 && self.waited == 0
    }

    pub fn zero() -> (r: Self)
        ensures
            r.vacant(),
    {
        Pending { conn: 0, path: Vec::new(), waited: 0, live: false }
    }
}

/// The value of a hexadecimal digit.
pub open spec fn nibble(c: u8) -> Option<u8> {
    crate::token_endpoint::nibble(c)
}

/// One hex character's value, or `0xFF` for anything that is not one.
pub fn hex_nibble(c: u8) -> (r: u8)
    ensures
        match nibble(c) {
            Some(v) => r == v && v < 16,
            None => r == 0xFF,
        },
{
    match crate::token_endpoint::hex_nibble(c) {
        Some(v) => v,
        None => 0xFF,
    }
}

/// The bytes that a hexadecimal string names: two digits each, and nothing where one is none.
pub open spec fn unhexed(s: Seq<u8>) -> Option<Seq<u8>> {
    if s.len() % 2 == 0 && forall|i: int| 0 <= i < s.len() ==> nibble(#[trigger] s[i]) is Some {
        Some(
            Seq::new(
                s.len() / 2,
                |i: int| (nibble(s[2 * i])->0 * 16 + nibble(s[2 * i + 1])->0) as u8,
            ),
        )
    } else {
        None
    }
}

fn unhex(s: &[u8]) -> (r: Option<Vec<u8>>)
    requires
        s@.len() % 2 == 0,
    ensures
        match r {
            Some(v) => unhexed(s@) == Some(v@),
            None => unhexed(s@) is None,
        },
{
    let total: usize = s.len();
    let mut out: Vec<u8> = Vec::new();
    let mut i: usize = 0;
    while i < total
        invariant
            i <= total,
            i % 2 == 0,
            total == s@.len(),
            total % 2 == 0,
            out@.len() == i / 2,
            forall|j: int| 0 <= j < i ==> nibble(#[trigger] s@[j]) is Some,
            forall|j: int|
                0 <= j < out@.len() ==> #[trigger] out@[j] == (nibble(s@[2 * j])->0 * 16 + nibble(
                    s@[2 * j + 1],
                )->0) as u8,
        decreases total - i,
    {
        let hi: u8 = hex_nibble(s[i]);
        let lo: u8 = hex_nibble(s[i + 1]);
        if hi == 0xFF || lo == 0xFF {
            assert(nibble(s@[i as int]) is None || nibble(s@[i as int + 1]) is None);
            return None;
        }
        assert(2 * (i as int / 2) == i);
        out.push(hi * 16 + lo);
        i = i + 2;
    }
    assert(out@ =~= unhexed(s@)->0);
    Some(out)
}

/// How many whole entries of a list of fingerprints are read.
pub open spec fn entries(text: Seq<u8>) -> nat {
    if text.len() >= MAX_ALLOWED * 64 {
        MAX_ALLOWED as nat
    } else {
        text.len() / 64
    }
}

/// The fingerprints that the first `n` entries name. An entry with anything in it that is not a
/// hexadecimal digit names none.
pub open spec fn fingerprints(text: Seq<u8>, n: nat) -> Seq<Seq<u8>>
    decreases n,
{
    if n == 0 {
        Seq::empty()
    } else {
        let before = fingerprints(text, (n - 1) as nat);
        match unhexed(text.subrange(64 * (n - 1), 64 * n as int)) {
            Some(entry) => before.push(entry),
            None => before,
        }
    }
}

pub open spec fn views(list: Seq<Vec<u8>>) -> Seq<Seq<u8>> {
    list.map_values(|v: Vec<u8>| v@)
}

/// Read a list of fingerprints, 64 hexadecimal digits each. What is not a whole entry at the end
/// contributes nothing.
pub fn parse_allowed(text: &[u8]) -> (r: Vec<Vec<u8>>)
    ensures
        views(r@) == fingerprints(text@, entries(text@)),
{
    let total: usize = if text.len() >= MAX_ALLOWED * 64 {
        MAX_ALLOWED
    } else {
        text.len() / 64
    };
    let mut out: Vec<Vec<u8>> = Vec::new();
    let mut i: usize = 0;
    assert(views(out@) =~= Seq::<Seq<u8>>::empty());
    while i < total
        invariant
            i <= total,
            total == entries(text@),
            total * 64 <= text@.len(),
            views(out@) == fingerprints(text@, i as nat),
        decreases total - i,
    {
        let len: usize = text.len();
        assert(64 * i + 64 <= len);
        let entry = slice_subrange(text, 64 * i, 64 * i + 64);
        assert(entry@ =~= text@.subrange(64 * (i + 1 - 1), 64 * (i + 1)));
        let ghost before = out@;
        match unhex(entry) {
            Some(bytes) => {
                out.push(bytes);
                assert(views(out@) =~= views(before).push(bytes@));
            },
            None => {},
        }
        i = i + 1;
    }
    out
}

/// What an identity message says.
pub struct Identity {
    pub conn: u32,
    pub verified: bool,
    pub svid: Vec<u8>,
}

/// The length of the fingerprint in an identity message.
pub open spec fn svid_len(m: Seq<u8>) -> int {
    if m[32] > 32 {
        32
    } else {
        m[32] as int
    }
}

/// A message that says who a connection is.
pub open spec fn is_identity(m: Seq<u8>) -> bool {
    m.len() >= 35 && m[0] == MSG_PEER_IDENTITY && 35 + svid_len(m) <= m.len()
}

/// The checks that make a fingerprint mean anything were made, and held: the result, the chain,
/// and the possession of the key.
pub open spec fn identity_verified(m: Seq<u8>) -> bool {
    let flags = wire::le32(m, 27);
    m[7] == 0 && flags % 2 == 1 && flags / 16 % 2 == 1
}

/// Read an identity message: `[type u8][len u16]`, and then a fixed part with the connection, the
/// result, the flags and the length of the fingerprint, and the fingerprint.
pub fn read_identity(m: &[u8]) -> (r: Option<Identity>)
    ensures
        r is Some <==> is_identity(m@),
        r matches Some(id) ==> {
            &&& id.conn == wire::le32(m@, 3)
            &&& id.verified == identity_verified(m@)
            &&& id.svid@ == m@.subrange(35, 35 + svid_len(m@))
        },
{
    if m.len() < PEER_HEAD || m[0] != MSG_PEER_IDENTITY {
        return None;
    }
    let conn: u32 = wire::read_u32(m, 3);
    let flags: u32 = wire::read_u32(m, 27);
    let verified = m[7] == 0 && flags % 2 == 1 && flags / 16 % 2 == 1;
    let len: usize = if m[32] > 32 {
        32
    } else {
        m[32] as usize
    };
    if PEER_HEAD + len > m.len() {
        return None;
    }
    Some(Identity { conn, verified, svid: slice_to_vec(slice_subrange(m, 35, 35 + len)) })
}

/// The answer to an upgrade.
pub struct Decision {
    pub conn: u32,
    pub accept: bool,
    pub status: u16,
    pub reason: &'static str,
}

impl Decision {
    pub open spec fn accepts(self, conn: u32) -> bool {
        self.conn == conn && self.accept && self.status == 101 && self.reason == ""
    }

    pub open spec fn refuses(self, conn: u32, reason: &'static str) -> bool {
        self.conn == conn && !self.accept && self.status == 403 && self.reason == reason
    }
}

pub struct Gate {
    pub allowed: Vec<Vec<u8>>,
    /// The path that is guarded; every path where it is empty.
    pub control_path: Vec<u8>,
    /// An unverified peer is refused.
    pub require_verified: bool,
    pub peers: Vec<Peer>,
    pub pending: Vec<Pending>,
    pub admit_granted: u32,
    pub admit_refused_unverified: u32,
    pub admit_refused_not_allowed: u32,
    pub admit_refused_path: u32,
    pub admit_refused_timeout: u32,
    pub peer_identities: u32,
}

/// The identity of `conn`, from index `i` on.
pub open spec fn peer_from(peers: Seq<Peer>, conn: u32, i: int) -> Option<int>
    decreases peers.len() - i,
{
    if i < 0 || i >= peers.len() {
        None
    } else if peers[i].live && peers[i].conn == conn {
        Some(i)
    } else {
        peer_from(peers, conn, i + 1)
    }
}

/// Each connection has one identity at most.
pub open spec fn one_each(peers: Seq<Peer>) -> bool {
    forall|i: int, j: int|
        0 <= i < j < peers.len() && (#[trigger] peers[i]).live && (#[trigger] peers[j]).live
            ==> peers[i].conn != peers[j].conn
}

impl Gate {
    pub open spec fn wf(self) -> bool {
        &&& self.peers@.len() == 32
        &&& self.pending@.len() == 16
        &&& one_each(self.peers@)
    }

    pub open spec fn same_policy(self, other: Self) -> bool {
        &&& self.allowed == other.allowed
        &&& self.control_path == other.control_path
        &&& self.require_verified == other.require_verified
    }

    pub open spec fn same_counters(self, other: Self) -> bool {
        &&& self.admit_granted == other.admit_granted
        &&& self.admit_refused_unverified == other.admit_refused_unverified
        &&& self.admit_refused_not_allowed == other.admit_refused_not_allowed
        &&& self.admit_refused_path == other.admit_refused_path
        &&& self.admit_refused_timeout == other.admit_refused_timeout
        &&& self.peer_identities == other.peer_identities
    }

    /// A gate under this policy. `allowed_svid` is a list of fingerprints in hexadecimal.
    pub fn module_new(allowed_svid: &[u8], control_path: &[u8], require_verified: bool) -> (r: Self)
        ensures
            r.wf(),
            views(r.allowed@) == fingerprints(allowed_svid@, entries(allowed_svid@)),
            r.control_path@ == control_path@,
            r.waits_on_guarded(),
            r.require_verified == require_verified,
            forall|i: int| 0 <= i < 32 ==> (#[trigger] r.peers@[i]).vacant(),
            forall|i: int| 0 <= i < 16 ==> (#[trigger] r.pending@[i]).vacant(),
            r.admit_granted == 0,
            r.admit_refused_unverified == 0,
            r.admit_refused_not_allowed == 0,
            r.admit_refused_path == 0,
            r.admit_refused_timeout == 0,
            r.peer_identities == 0,
    {
        let mut peers: Vec<Peer> = Vec::new();
        while peers.len() < MAX_CONNS
            invariant
                peers@.len() <= 32,
                forall|i: int| 0 <= i < peers@.len() ==> (#[trigger] peers@[i]).vacant(),
            decreases 32 - peers@.len(),
        {
            peers.push(Peer::zero());
        }
        let mut pending: Vec<Pending> = Vec::new();
        while pending.len() < MAX_PENDING
            invariant
                pending@.len() <= 16,
                forall|i: int| 0 <= i < pending@.len() ==> (#[trigger] pending@[i]).vacant(),
            decreases 16 - pending@.len(),
        {
            pending.push(Pending::zero());
        }
        Gate {
            allowed: parse_allowed(allowed_svid),
            control_path: slice_to_vec(control_path),
            require_verified,
            peers,
            pending,
            admit_granted: 0,
            admit_refused_unverified: 0,
            admit_refused_not_allowed: 0,
            admit_refused_path: 0,
            admit_refused_timeout: 0,
            peer_identities: 0,
        }
    }

    /// Find a connection's identity.
    pub fn lookup(&self, conn: u32) -> (r: Option<usize>)
        ensures
            match r {
                Some(i) => peer_from(self.peers@, conn, 0) == Some(i as int) && i
                    < self.peers@.len() && self.peers@[i as int].live && self.peers@[i as int].conn
                    == conn,
                None => peer_from(self.peers@, conn, 0) is None && forall|j: int|
                    0 <= j < self.peers@.len() ==> !((#[trigger] self.peers@[j]).live
                        && self.peers@[j].conn == conn),
            },
    {
        let mut i: usize = 0;
        while i < self.peers.len()
            invariant
                i <= self.peers@.len(),
                peer_from(self.peers@, conn, 0) == peer_from(self.peers@, conn, i as int),
                forall|j: int|
                    0 <= j < i ==> !((#[trigger] self.peers@[j]).live && self.peers@[j].conn
                        == conn),
            decreases self.peers@.len() - i,
        {
            if self.peers[i].live && self.peers[i].conn == conn {
                return Some(i);
            }
            i = i + 1;
        }
        None
    }

    fn vacancy(&self) -> (r: Option<usize>)
        ensures
            match r {
                Some(i) => i < self.peers@.len() && !self.peers@[i as int].live && forall|j: int|
                    0 <= j < i ==> (#[trigger] self.peers@[j]).live,
                None => forall|j: int|
                    0 <= j < self.peers@.len() ==> (#[trigger] self.peers@[j]).live,
            },
    {
        let mut i: usize = 0;
        while i < self.peers.len()
            invariant
                i <= self.peers@.len(),
                forall|j: int| 0 <= j < i ==> (#[trigger] self.peers@[j]).live,
            decreases self.peers@.len() - i,
        {
            if !self.peers[i].live {
                return Some(i);
            }
            i = i + 1;
        }
        None
    }

    /// Where an identity of `conn` goes: over the one that the connection has, or to the first
    /// free place.
    pub open spec fn seat(self, conn: u32, i: int) -> bool {
        match peer_from(self.peers@, conn, 0) {
            Some(k) => i == k,
            None => 0 <= i < 32 && !self.peers@[i].live && forall|j: int|
                0 <= j < i ==> (#[trigger] self.peers@[j]).live,
        }
    }

    /// There is no place for an identity of `conn`.
    pub open spec fn crowded(self, conn: u32) -> bool {
        peer_from(self.peers@, conn, 0) is None && forall|j: int|
            0 <= j < 32 ==> (#[trigger] self.peers@[j]).live
    }

    /// Take in one identity message. It may come more than once; a repeat replaces what was known
    /// of the connection. Where there is no place it is dropped, and the request that waits for
    /// it will be refused.
    pub fn drain_peer_identities(&mut self, m: &[u8]) -> (r: Option<usize>)
        requires
            old(self).wf(),
        ensures
            final(self).wf(),
            final(self).same_policy(*old(self)),
            final(self).pending == old(self).pending,
            ({
                let conn = wire::le32(m@, 3) as u32;
                match r {
                    None => {
                        &&& !is_identity(m@) || old(self).crowded(conn)
                        &&& *final(self) == *old(self)
                    },
                    Some(i) => {
                        &&& is_identity(m@)
                        &&& old(self).seat(conn, i as int)
                        &&& final(self).peers@[i as int].live
                        &&& final(self).peers@[i as int].conn == conn
                        &&& final(self).peers@[i as int].verified == identity_verified(m@)
                        &&& final(self).peers@[i as int].svid@ == m@.subrange(35, 35 + svid_len(m@))
                        &&& forall|j: int|
                            0 <= j < 32 && j != i ==> #[trigger] final(self).peers@[j]
                                == old(self).peers@[j]
                        &&& final(self).peer_identities == keys::counted(old(self).peer_identities)
                        &&& (Gate {
                            peer_identities: old(self).peer_identities,
                            ..*final(self)
                        }).same_counters(*old(self))
                    },
                }
            }),
    {
        let id = match read_identity(m) {
            Some(id) => id,
            None => {
                return None;
            },
        };
        let slot: usize = match self.lookup(id.conn) {
            Some(i) => i,
            None => match self.vacancy() {
                Some(i) => i,
                None => {
                    return None;
                },
            },
        };
        let ghost before = self.peers@;
        self.peers[slot] = Peer {
            conn: id.conn,
            verified: id.verified,
            svid: id.svid,
            live: true,
        };
        proof {
            lemma_peer_from(before, id.conn, 0);
        }
        count(&mut self.peer_identities);
        Some(slot)
    }

    /// A connection closed: its identity is forgotten.
    pub fn drain_events(&mut self, conn: u32)
        requires
            old(self).wf(),
        ensures
            final(self).wf(),
            final(self).same_policy(*old(self)),
            final(self).same_counters(*old(self)),
            final(self).pending == old(self).pending,
            forall|i: int|
                0 <= i < 32 ==> if old(self).peers@[i].live && old(self).peers@[i].conn == conn {
                    (#[trigger] final(self).peers@[i]).vacant()
                } else {
                    final(self).peers@[i] == old(self).peers@[i]
                },
            peer_from(final(self).peers@, conn, 0) is None,
    {
        let mut i: usize = 0;
        while i < 32
            invariant
                i <= 32,
                self.peers@.len() == 32,
                old(self).peers@.len() == 32,
                self.pending == old(self).pending,
                self.same_policy(*old(self)),
                self.same_counters(*old(self)),
                forall|j: int|
                    0 <= j < i ==> if old(self).peers@[j].live && old(self).peers@[j].conn == conn {
                        (#[trigger] self.peers@[j]).vacant()
                    } else {
                        self.peers@[j] == old(self).peers@[j]
                    },
                forall|j: int|
                    i <= j < 32 ==> #[trigger] self.peers@[j] == old(self).peers@[j],
            decreases 32 - i,
        {
            if self.peers[i].live && self.peers[i].conn == conn {
                self.peers[i] = Peer::zero();
            }
            i = i + 1;
        }
        proof {
            lemma_peer_from(self.peers@, conn, 0);
        }
    }

    /// Whether a request names the path that is guarded.
    pub open spec fn guards(self, path: Seq<u8>) -> bool {
        self.control_path@.len() == 0 || path == self.control_path@
    }

    pub fn path_matches(&self, path: &[u8]) -> (r: bool)
        ensures
            r == self.guards(path@),
    {
        if self.control_path.len() == 0 {
            return true;
        }
        bytes_equal(path, self.control_path.as_slice())
    }

    /// Every request that is held names the path that is guarded.
    pub open spec fn waits_on_guarded(self) -> bool {
        forall|i: int|
            0 <= i < self.pending@.len() && (#[trigger] self.pending@[i]).live ==> self.guards(
                self.pending@[i].path@,
            )
    }

    /// Whether a peer's key is one of those allowed. Where none is named, every key is.
    pub open spec fn allows(self, svid: Seq<u8>) -> bool {
        self.allowed@.len() == 0 || (svid.len() == 32 && views(self.allowed@).contains(svid))
    }

    pub fn svid_allowed(&self, peer: &Peer) -> (r: bool)
        ensures
            r == self.allows(peer.svid@),
    {
        if self.allowed.len() == 0 {
            return true;
        }
        if peer.svid.len() != MAX_SVID {
            return false;
        }
        let mut i: usize = 0;
        while i < self.allowed.len()
            invariant
                i <= self.allowed@.len(),
                self.allowed@.len() > 0,
                peer.svid@.len() == 32,
                forall|j: int| 0 <= j < i ==> (#[trigger] views(self.allowed@)[j]) != peer.svid@,
            decreases self.allowed@.len() - i,
        {
            if bytes_equal(self.allowed[i].as_slice(), peer.svid.as_slice()) {
                assert(views(self.allowed@)[i as int] == peer.svid@);
                return true;
            }
            i = i + 1;
        }
        assert(!views(self.allowed@).contains(peer.svid@));
        false
    }

    /// Why a peer is refused.
    pub open spec fn peer_refusal(self, peer: Peer) -> Option<&'static str> {
        if self.require_verified && !peer.verified {
            Some("unverified")
        } else if !self.allows(peer.svid@) {
            Some("not-allowed")
        } else {
            None
        }
    }

    /// The decision on a peer whose identity is known, and its counter.
    pub open spec fn decided(before: Self, after: Self, conn: u32, peer: Peer, r: Decision) -> bool {
        &&& after.admit_refused_path == before.admit_refused_path
        &&& after.admit_refused_timeout == before.admit_refused_timeout
        &&& after.peer_identities == before.peer_identities
        &&& match before.peer_refusal(peer) {
            Some(reason) => {
                &&& r.refuses(conn, reason)
                &&& after.admit_granted == before.admit_granted
                &&& after.admit_refused_unverified == (if before.require_verified
                    && !peer.verified {
                    keys::counted(before.admit_refused_unverified)
                } else {
                    before.admit_refused_unverified
                })
                &&& after.admit_refused_not_allowed == (if before.require_verified
                    && !peer.verified {
                    before.admit_refused_not_allowed
                } else {
                    keys::counted(before.admit_refused_not_allowed)
                })
            },
            None => {
                &&& r.accepts(conn)
                &&& after.admit_granted == keys::counted(before.admit_granted)
                &&& after.admit_refused_unverified == before.admit_refused_unverified
                &&& after.admit_refused_not_allowed == before.admit_refused_not_allowed
            },
        }
    }

    /// Accept or refuse an upgrade whose peer is known.
    pub fn decide(&mut self, conn: u32, idx: usize) -> (r: Decision)
        requires
            old(self).wf(),
            idx < 32,
        ensures
            final(self).wf(),
            final(self).same_policy(*old(self)),
            final(self).peers == old(self).peers,
            final(self).pending == old(self).pending,
            Self::decided(*old(self), *final(self), conn, old(self).peers@[idx as int], r),
    {
        if self.require_verified && !self.peers[idx].verified {
            count(&mut self.admit_refused_unverified);
            return refuse(conn, "unverified");
        }
        if !self.svid_allowed(&self.peers[idx]) {
            count(&mut self.admit_refused_not_allowed);
            return refuse(conn, "not-allowed");
        }
        count(&mut self.admit_granted);
        Decision { conn, accept: true, status: 101, reason: "" }
    }

    /// Hold a request whose identity has not come; where there is no room it is not answered.
    pub fn hold(&mut self, conn: u32, path: &[u8]) -> (r: Option<usize>)
        requires
            old(self).wf(),
        ensures
            final(self).wf(),
            final(self).same_policy(*old(self)),
            final(self).same_counters(*old(self)),
            final(self).peers == old(self).peers,
            match r {
                Some(i) => {
                    &&& i < 16
                    &&& !old(self).pending@[i as int].live
                    &&& forall|j: int| 0 <= j < i ==> (#[trigger] old(self).pending@[j]).live
                    &&& final(self).pending@[i as int].live
                    &&& final(self).pending@[i as int].conn == conn
                    &&& final(self).pending@[i as int].path@ == path@
                    &&& final(self).pending@[i as int].waited == 0
                    &&& forall|j: int|
                        0 <= j < 16 && j != i ==> #[trigger] final(self).pending@[j]
                            == old(self).pending@[j]
                },
                None => {
                    &&& forall|j: int| 0 <= j < 16 ==> (#[trigger] old(self).pending@[j]).live
                    &&& final(self).pending == old(self).pending
                },
            },
    {
        let mut i: usize = 0;
        while i < 16
            invariant
                i <= 16,
                self.wf(),
                *self == *old(self),
                forall|j: int| 0 <= j < i ==> (#[trigger] self.pending@[j]).live,
            decreases 16 - i,
        {
            if !self.pending[i].live {
                self.pending[i] = Pending {
                    conn,
                    path: slice_to_vec(path),
                    waited: 0,
                    live: true,
                };
                return Some(i);
            }
            i = i + 1;
        }
        None
    }

    /// What an upgrade request comes to. The path is looked at before the identity, since a
    /// request for another path is no authentication failure.
    pub open spec fn requested(before: Self, after: Self, conn: u32, path: Seq<u8>, r: Option<
        Decision,
    >) -> bool {
        if !before.guards(path) {
            &&& r matches Some(d)
            &&& d.refuses(conn, "path")
            &&& after.admit_refused_path == keys::counted(before.admit_refused_path)
            &&& (Gate { admit_refused_path: before.admit_refused_path, ..after }).same_counters(
                before,
            )
            &&& after.pending == before.pending
        } else {
            match peer_from(before.peers@, conn, 0) {
                Some(i) => {
                    &&& r matches Some(d)
                    &&& Self::decided(before, after, conn, before.peers@[i], d)
                    &&& after.pending == before.pending
                },
                None => {
                    &&& r is None
                    &&& after.same_counters(before)
                    &&& (after.pending == before.pending) || exists|i: int|
                        #![trigger after.pending@[i]]
                        {
                            &&& 0 <= i < 16
                            &&& !before.pending@[i].live
                            &&& after.pending@[i].live
                            &&& after.pending@[i].conn == conn
                            &&& after.pending@[i].path@ == path
                            &&& after.pending@[i].waited == 0
                            &&& forall|j: int|
                                0 <= j < 16 && j != i ==> #[trigger] after.pending@[j]
                                    == before.pending@[j]
                        }
                    &&& after.pending == before.pending ==> forall|j: int|
                        0 <= j < 16 ==> (#[trigger] before.pending@[j]).live
                },
            }
        }
    }

    /// Answer an upgrade request, or hold it until the identity of its connection comes.
    pub fn drain_admissions(&mut self, conn: u32, path: &[u8]) -> (r: Option<Decision>)
        requires
            old(self).wf(),
        ensures
            final(self).wf(),
            final(self).same_policy(*old(self)),
            final(self).peers == old(self).peers,
            Self::requested(*old(self), *final(self), conn, path@, r),
            old(self).waits_on_guarded() ==> final(self).waits_on_guarded(),
    {
        if !self.path_matches(path) {
            count(&mut self.admit_refused_path);
            return Some(refuse(conn, "path"));
        }
        match self.lookup(conn) {
            Some(idx) => Some(self.decide(conn, idx)),
            None => {
                let held = self.hold(conn, path);
                proof {
                    match held {
                        Some(i) => {
                            assert(self.pending@[i as int].live);
                        },
                        None => {},
                    }
                }
                None
            },
        }
    }

    /// What becomes of one held request in one step: it is decided where its identity has come,
    /// refused where its time has run out, and waits on otherwise.
    pub open spec fn serviced(before: Self, after: Self, i: int, r: Option<Decision>) -> bool {
        let held = before.pending@[i];
        if !held.live {
            r is None && after == before
        } else {
            match peer_from(before.peers@, held.conn, 0) {
                Some(k) => {
                    &&& r matches Some(d)
                    &&& Self::decided(before, after, held.conn, before.peers@[k], d)
                    &&& after.pending@[i].vacant()
                },
                None => if held.waited + 1 >= PENDING_MAX_STEPS {
                    &&& r matches Some(d)
                    &&& d.refuses(held.conn, "identity")
                    &&& after.pending@[i].vacant()
                    &&& after.admit_refused_timeout == keys::counted(before.admit_refused_timeout)
                    &&& (Gate {
                        admit_refused_timeout: before.admit_refused_timeout,
                        ..after
                    }).same_counters(before)
                } else {
                    &&& r is None
                    &&& after.pending@[i] == (Pending { waited: (held.waited + 1) as u16, ..held })
                    &&& after.same_counters(before)
                },
            }
        }
    }

    /// Go on with one held request. It is never accepted on the assumption that the identity is
    /// merely late.
    pub fn service_pending(&mut self, i: usize) -> (r: Option<Decision>)
        requires
            old(self).wf(),
            i < 16,
        ensures
            final(self).wf(),
            final(self).same_policy(*old(self)),
            final(self).peers == old(self).peers,
            forall|j: int|
                0 <= j < 16 && j != i ==> #[trigger] final(self).pending@[j]
                    == old(self).pending@[j],
            Self::serviced(*old(self), *final(self), i as int, r),
            old(self).waits_on_guarded() ==> final(self).waits_on_guarded(),
    {
        if !self.pending[i].live {
            return None;
        }
        let conn: u32 = self.pending[i].conn;
        match self.lookup(conn) {
            Some(idx) => {
                self.pending[i] = Pending::zero();
                Some(self.decide(conn, idx))
            },
            None => {
                let waited: u16 = self.pending[i].waited.saturating_add(1);
                if waited >= PENDING_MAX_STEPS {
                    self.pending[i] = Pending::zero();
                    count(&mut self.admit_refused_timeout);
                    return Some(refuse(conn, "identity"));
                }
                let mut held = Pending::zero();
                core::mem::swap(&mut held, &mut self.pending[i]);
                self.pending[i] = Pending { waited, ..held };
                None
            },
        }
    }
}

/// Refuse an upgrade with a short reason.
pub fn refuse(conn: u32, reason: &'static str) -> (r: Decision)
    ensures
        r.refuses(conn, reason),
{
    Decision { conn, accept: false, status: 403, reason }
}

proof fn lemma_peer_from(peers: Seq<Peer>, conn: u32, i: int)
    requires
        0 <= i <= peers.len(),
    ensures
        match peer_from(peers, conn, i) {
            Some(k) => i <= k < peers.len() && peers[k].live && peers[k].conn == conn,
            None => forall|j: int|
                i <= j < peers.len() ==> !((#[trigger] peers[j]).live && peers[j].conn == conn),
        },
    decreases peers.len() - i,
{
    if i < peers.len() {
        lemma_peer_from(peers, conn, i + 1);
    }
}

/// The connection's identity has come, is verified where that is asked for, and is of a key that
/// is allowed.
pub open spec fn identified(gate: Gate, conn: u32) -> bool {
    exists|i: int|
        #![trigger gate.peers@[i]]
        {
            &&& 0 <= i < 32
            &&& gate.peers@[i].live
            &&& gate.peers@[i].conn == conn
            &&& gate.require_verified ==> gate.peers@[i].verified
            &&& gate.allows(gate.peers@[i].svid@)
        }
}

/// An upgrade is accepted only on a path that is guarded and for a connection that is identified.
pub proof fn accepted_means_identified(
    before: Gate,
    after: Gate,
    conn: u32,
    path: Seq<u8>,
    d: Decision,
)
    requires
        before.wf(),
        Gate::requested(before, after, conn, path, Some(d)),
        d.accept,
    ensures
        before.guards(path),
        identified(before, conn),
{
    lemma_peer_from(before.peers@, conn, 0);
    let i = peer_from(before.peers@, conn, 0)->0;
    assert(before.peers@[i].live);
}

/// A request that was held is accepted only on a path that is guarded and once its connection is
/// identified, however long it has waited.
pub proof fn late_is_not_accepted(before: Gate, after: Gate, i: int, d: Decision)
    requires
        before.wf(),
        before.waits_on_guarded(),
        0 <= i < 16,
        Gate::serviced(before, after, i, Some(d)),
        d.accept,
    ensures
        d.conn == before.pending@[i].conn,
        before.guards(before.pending@[i].path@),
        identified(before, d.conn),
{
    let conn = before.pending@[i].conn;
    lemma_peer_from(before.peers@, conn, 0);
    let k = peer_from(before.peers@, conn, 0)->0;
    assert(before.peers@[k].live);
}

/// An identity is verified only where the message says that the handshake succeeded, that the chain
/// was checked and that the key was proved to be held.
pub proof fn a_verified_identity_was_checked(m: Seq<u8>)
    requires
        is_identity(m),
    ensures
        identity_verified(m) <==> m[7] == 0 && m[27] % 2 == 1 && m[27] / 16 % 2 == 1,
        svid_len(m) <= 32,
        m[32] <= 32 ==> svid_len(m) == m[32],
        m[0] == 0x5A,
        m.len() >= 35 + svid_len(m),
{
    let flags = wire::le32(m, 27);
    let rest: int = m[28] + 256 * m[29] + 65536 * m[30];
    assert(flags == m[27] + 256 * rest);
    assert(flags % 2 == m[27] % 2);
    assert(flags / 16 == m[27] as int / 16 + 16 * rest);
    assert(flags / 16 % 2 == m[27] as int / 16 % 2);
}

/// An upgrade is answered by who the peer is: it is accepted exactly where the path is the guarded
/// one, the identity is verified where that is asked for, and the key is one of those allowed, or
/// none is named.
pub proof fn who_is_let_through(
    before: Gate,
    after: Gate,
    conn: u32,
    path: Seq<u8>,
    d: Decision,
    i: int,
)
    requires
        before.wf(),
        Gate::requested(before, after, conn, path, Some(d)),
        0 <= i < 32,
        before.peers@[i].live,
        before.peers@[i].conn == conn,
    ensures
        d.conn == conn,
        d.accept <==> {
            &&& before.control_path@.len() == 0 || path == before.control_path@
            &&& before.require_verified ==> before.peers@[i].verified
            &&& before.allowed@.len() == 0 || before.peers@[i].svid@.len() == 32 && exists|k: int|
                0 <= k < before.allowed@.len() && (#[trigger] before.allowed@[k])@
                    == before.peers@[i].svid@
        },
        d.accept ==> d.status == 101,
        !d.accept ==> d.status == 403,
{
    lemma_peer_from(before.peers@, conn, 0);
    let k = peer_from(before.peers@, conn, 0)->0;
    assert(k == i);
    let svid = before.peers@[i].svid@;
    if views(before.allowed@).contains(svid) {
        let n = choose|n: int|
            0 <= n < views(before.allowed@).len() && views(before.allowed@)[n] == svid;
        assert(before.allowed@[n]@ == svid);
    }
    if exists|n: int| 0 <= n < before.allowed@.len() && (#[trigger] before.allowed@[n])@ == svid {
        let n = choose|n: int|
            0 <= n < before.allowed@.len() && (#[trigger] before.allowed@[n])@ == svid;
        assert(views(before.allowed@)[n] == svid);
    }
}

/// A request that is held is refused once it has waited its time without an identity, and not
/// before.
pub proof fn a_held_request_times_out(before: Gate, after: Gate, i: int, r: Option<Decision>)
    requires
        0 <= i < 16,
        before.pending@[i].live,
        peer_from(before.peers@, before.pending@[i].conn, 0) is None,
        Gate::serviced(before, after, i, r),
    ensures
        r is Some <==> before.pending@[i].waited >= 3999,
        r matches Some(d) ==> !d.accept && d.conn == before.pending@[i].conn
            && !after.pending@[i].live,
        r is None ==> after.pending@[i].live && after.pending@[i].waited
            == before.pending@[i].waited + 1,
{
}

/// Two hexadecimal digits name a byte, the high one first, in either case.
pub proof fn two_digits_name_a_byte(s: Seq<u8>, i: int)
    requires
        unhexed(s) is Some,
        0 <= i < s.len() / 2,
    ensures
        unhexed(s)->0.len() == s.len() / 2,
        ({
            let (high, low) = (s[2 * i] as int, s[2 * i + 1] as int);
            let value = |c: int|
                if c <= 57 {
                    c - 48
                } else if c <= 70 {
                    c - 55
                } else {
                    c - 87
                };
            (unhexed(s)->0)[i] == 16 * value(high) + value(low)
        }),
        forall|j: int|
            0 <= j < s.len() ==> 48 <= #[trigger] s[j] <= 57 || 65 <= s[j] <= 70 || 97 <= s[j]
                <= 102,
{
    assert(nibble(s[2 * i]) is Some);
    assert(nibble(s[2 * i + 1]) is Some);
    assert forall|j: int| 0 <= j < s.len() implies 48 <= #[trigger] s[j] <= 57 || 65 <= s[j] <= 70
        || 97 <= s[j] <= 102 by {
        assert(nibble(s[j]) is Some);
    }
}

/// The fingerprints that a list allows are those that its entries spell, and no others.
pub proof fn a_list_allows_what_it_spells(text: Seq<u8>, n: nat, svid: Seq<u8>)
    ensures
        fingerprints(text, n).contains(svid) <==> exists|i: int|
            0 <= i < n && unhexed(#[trigger] text.subrange(64 * i, 64 * i + 64)) == Some(svid),
        text.len() >= 512 ==> entries(text) == 8,
        text.len() < 512 ==> entries(text) == text.len() / 64,
    decreases n,
{
    if n > 0 {
        let before = fingerprints(text, (n - 1) as nat);
        let all = fingerprints(text, n);
        let last = text.subrange(64 * (n - 1), 64 * n as int);
        a_list_allows_what_it_spells(text, (n - 1) as nat, svid);
        assert(64 * (n - 1) + 64 == 64 * n);
        if all.contains(svid) {
            let k = choose|k: int| 0 <= k < all.len() && all[k] == svid;
            if k < before.len() {
                assert(before[k] == svid);
                let i = choose|i: int|
                    0 <= i < n - 1 && unhexed(#[trigger] text.subrange(64 * i, 64 * i + 64))
                        == Some(svid);
                assert(unhexed(text.subrange(64 * i, 64 * i + 64)) == Some(svid));
            } else {
                assert(unhexed(text.subrange(64 * (n - 1), 64 * (n - 1) + 64)) == Some(svid));
            }
        }
        if exists|i: int|
            0 <= i < n && unhexed(#[trigger] text.subrange(64 * i, 64 * i + 64)) == Some(svid) {
            let i = choose|i: int|
                0 <= i < n && unhexed(#[trigger] text.subrange(64 * i, 64 * i + 64)) == Some(svid);
            if i < n - 1 {
                assert(before.contains(svid));
                let k = choose|k: int| 0 <= k < before.len() && before[k] == svid;
                assert(all[k] == svid);
            } else {
                assert(all.last() == svid);
                assert(all[all.len() - 1] == svid);
            }
        }
    }
}

} // verus!
