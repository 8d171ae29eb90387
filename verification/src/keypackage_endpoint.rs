//! Key packages: what a device publishes so that others can add it to a group while it is offline.
//! A package is handed out once, since a group's secrecy rests on its initial key being used once.
use vstd::prelude::*;
use vstd::slice::slice_to_vec;

use crate::base64;
use crate::bytes;
use crate::bytes::{append, bytes_equal, u64_dec};
use crate::claims;
use crate::claims::{claim_is, claim_number_or, claim_u64, json_string};
use crate::http;
use crate::http::{
    body_of, is_complete, json_reply, json_reply_with, path_of, read_frame, Reply, METHOD_POST,
};
use crate::keys;
use crate::keys::count;

verus! {

pub const MAX_DEVICES: usize = 16;

/// Packages that one device may have waiting.
pub const MAX_PACKAGES: usize = 8;

/// Longest package, which is opaque here.
pub const MAX_PAYLOAD: usize = 512;

/// Longest device id.
pub const MAX_ID: usize = 64;

/// How a package may be consumed.
#[derive(Clone, Copy, Debug, PartialEq, Eq, Structural)]
pub enum Reuse {
    /// Once, and then it is gone.
    Once,
    /// Again and again, but only when no other package is left.
    LastResort,
}

pub struct Package {
    pub payload: Vec<u8>,
    pub generation: u32,
    pub not_after: u64,
    pub reuse: Reuse,
    pub live: bool,
}

impl Package {
    pub open spec fn vacant(self) -> bool {
        &&& self.payload@.len() == 0
        &&& self.generation == 0
        &&& self.not_after == 0
        &&& self.reuse == Reuse::Once
        &&& !self.live
    }

    /// The package can be handed out at `now`.
    pub open spec fn claimable(self, reuse: Reuse, now: u64) -> bool {
        self.live && self.reuse == reuse && now < self.not_after
    }

    pub fn empty() -> (r: Self)
        ensures
            r.vacant(),
    {
        Package {
            payload: Vec::new(),
            generation: 0,
            not_after: 0,
            reuse: Reuse::Once,
            live: false,
        }
    }
}

pub struct Pool {
    pub device: Vec<u8>,
    /// The generation that the packages are of.
    pub generation: u32,
    pub packages: Vec<Package>,
    pub live: bool,
}

impl Pool {
    pub open spec fn barren(self) -> bool {
        self.packages@.len() == 8 && forall|i: int|
            0 <= i < 8 ==> (#[trigger] self.packages@[i]).vacant()
    }

    pub open spec fn vacant(self) -> bool {
        self.device@.len() == 0 && self.generation == 0 && self.barren() && !self.live
    }

    /// Every package that waits is of the pool's generation, and is short enough.
    pub open spec fn wf(self) -> bool {
        &&& self.packages@.len() == 8
        &&& forall|i: int|
            0 <= i < 8 && (#[trigger] self.packages@[i]).live ==> self.packages@[i].generation
                == self.generation && self.packages@[i].payload@.len() <= 512
    }

    pub open spec fn is_for(self, device: Seq<u8>) -> bool {
        self.live && self.device@ == device
    }

    pub fn empty() -> (r: Self)
        ensures
            r.vacant(),
            r.wf(),
    {
        Pool { device: Vec::new(), generation: 0, packages: no_packages(), live: false }
    }
}

fn no_packages() -> (r: Vec<Package>)
    ensures
        r@.len() == 8,
        forall|i: int| 0 <= i < 8 ==> (#[trigger] r@[i]).vacant(),
{
    let mut packages: Vec<Package> = Vec::new();
    while packages.len() < MAX_PACKAGES
        invariant
            packages@.len() <= 8,
            forall|i: int| 0 <= i < packages@.len() ==> (#[trigger] packages@[i]).vacant(),
        decreases 8 - packages@.len(),
    {
        packages.push(Package::empty());
    }
    packages
}

/// The first pool of `device`, from `i` on.
pub open spec fn pool_from(pools: Seq<Pool>, device: Seq<u8>, i: int) -> Option<int>
    decreases pools.len() - i,
{
    if i < 0 || i >= pools.len() {
        None
    } else if pools[i].is_for(device) {
        Some(i)
    } else {
        pool_from(pools, device, i + 1)
    }
}

/// The first package that can be claimed, from `i` on.
pub open spec fn package_from(packages: Seq<Package>, reuse: Reuse, now: u64, i: int) -> Option<int>
    decreases packages.len() - i,
{
    if i < 0 || i >= packages.len() {
        None
    } else if packages[i].claimable(reuse, now) {
        Some(i)
    } else {
        package_from(packages, reuse, now, i + 1)
    }
}

/// The package that a claim takes: one for a single use, and one of last resort only where there
/// is no other.
pub open spec fn chosen(pool: Pool, now: u64) -> Option<int> {
    match package_from(pool.packages@, Reuse::Once, now, 0) {
        Some(i) => Some(i),
        None => package_from(pool.packages@, Reuse::LastResort, now, 0),
    }
}

/// No device has two pools.
pub open spec fn devices_differ(pools: Seq<Pool>) -> bool {
    forall|i: int, j: int|
        0 <= i < j < pools.len() && (#[trigger] pools[i]).live && (#[trigger] pools[j]).live
            ==> pools[i].device@ != pools[j].device@
}

/// What is published.
pub struct Offer {
    pub device: Seq<u8>,
    pub payload: Seq<u8>,
    pub generation: u64,
    pub not_after: u64,
    pub reuse: Reuse,
    pub suite: Option<u64>,
}

pub open spec fn offer(body: Seq<u8>) -> Offer {
    Offer {
        device: claims::short_claim(body, bytes::text("device_id"), 64),
        payload: base64::decoded_or_empty(
            claims::short_claim(body, bytes::text("payload"), 1024),
            512,
        ),
        generation: claims::number_or(body, bytes::text("generation"), 0),
        not_after: claims::number_or(body, bytes::text("not_after"), 0),
        reuse: if claims::text_claim(body, bytes::text("reuse")) == Some(
            bytes::text("last_resort"),
        ) {
            Reuse::LastResort
        } else {
            Reuse::Once
        },
        suite: claims::number_claim(body, bytes::text("suite")),
    }
}

/// How a publication ends.
#[derive(Clone, Copy, Debug, PartialEq, Eq, Structural)]
pub enum Verdict {
    Malformed,
    /// There is no pool for the device, or the generation is past.
    NoPool,
    PoolFull,
    Published,
}

/// The body that a package is handed out in.
pub open spec fn package_body(p: Package) -> Seq<u8> {
    bytes::text("{\"exclusive\":") + (if p.reuse == Reuse::Once {
        bytes::text("true")
    } else {
        bytes::text("false")
    }) + bytes::text(",\"generation\":") + bytes::decimal(p.generation as nat) + bytes::text(
        ",\"payload\":\"",
    ) + base64::encoded(p.payload@) + bytes::text("\"}")
}

pub struct KeyPackages {
    /// The ciphersuites that are attested to.
    pub suites: Vec<u16>,
    pub pools: Vec<Pool>,
    pub package_published: u32,
    pub package_claimed_exclusive: u32,
    pub package_claimed_last_resort: u32,
    pub package_pool_empty: u32,
    pub package_pool_full: u32,
    pub package_malformed: u32,
}

impl KeyPackages {
    pub open spec fn wf(self) -> bool {
        &&& self.pools@.len() == 16
        &&& forall|i: int| 0 <= i < 16 ==> (#[trigger] self.pools@[i]).wf()
        &&& devices_differ(self.pools@)
    }

    pub open spec fn same_counters(self, other: Self) -> bool {
        &&& self.package_published == other.package_published
        &&& self.package_claimed_exclusive == other.package_claimed_exclusive
        &&& self.package_claimed_last_resort == other.package_claimed_last_resort
        &&& self.package_pool_empty == other.package_pool_empty
        &&& self.package_pool_full == other.package_pool_full
        &&& self.package_malformed == other.package_malformed
    }

    pub fn module_new(suites: Vec<u16>) -> (r: Self)
        ensures
            r.wf(),
            r.suites == suites,
            forall|i: int| 0 <= i < 16 ==> (#[trigger] r.pools@[i]).vacant(),
            r.package_published == 0,
            r.package_claimed_exclusive == 0,
            r.package_claimed_last_resort == 0,
            r.package_pool_empty == 0,
            r.package_pool_full == 0,
            r.package_malformed == 0,
    {
        let mut pools: Vec<Pool> = Vec::new();
        while pools.len() < MAX_DEVICES
            invariant
                pools@.len() <= 16,
                forall|i: int|
                    0 <= i < pools@.len() ==> (#[trigger] pools@[i]).vacant() && pools@[i].wf(),
            decreases 16 - pools@.len(),
        {
            pools.push(Pool::empty());
        }
        KeyPackages {
            suites,
            pools,
            package_published: 0,
            package_claimed_exclusive: 0,
            package_claimed_last_resort: 0,
            package_pool_empty: 0,
            package_pool_full: 0,
            package_malformed: 0,
        }
    }

    /// A suite that is attested to.
    pub open spec fn attests(self, suite: Option<u64>) -> bool {
        suite matches Some(code) && code <= u16::MAX && self.suites@.contains(code as u16)
    }

    fn suite_ok(&self, suite: Option<u64>) -> (r: bool)
        ensures
            r == self.attests(suite),
    {
        let code: u64 = match suite {
            Some(code) => code,
            None => {
                return false;
            },
        };
        if code > 65535 {
            return false;
        }
        let code: u16 = code as u16;
        let mut i: usize = 0;
        while i < self.suites.len()
            invariant
                i <= self.suites@.len(),
                suite == Some(code as u64),
                forall|j: int| 0 <= j < i ==> self.suites@[j] != code,
            decreases self.suites@.len() - i,
        {
            if self.suites[i] == code {
                assert(self.suites@.contains(code));
                return true;
            }
            i = i + 1;
        }
        assert(!self.suites@.contains(code));
        false
    }

    fn find(&self, device: &[u8]) -> (r: Option<usize>)
        ensures
            match r {
                Some(i) => pool_from(self.pools@, device@, 0) == Some(i as int) && i
                    < self.pools@.len() && self.pools@[i as int].is_for(device@),
                None => pool_from(self.pools@, device@, 0) is None && forall|j: int|
                    0 <= j < self.pools@.len() ==> !(#[trigger] self.pools@[j]).is_for(device@),
            },
    {
        let mut i: usize = 0;
        while i < self.pools.len()
            invariant
                i <= self.pools@.len(),
                pool_from(self.pools@, device@, 0) == pool_from(self.pools@, device@, i as int),
                forall|j: int| 0 <= j < i ==> !(#[trigger] self.pools@[j]).is_for(device@),
            decreases self.pools@.len() - i,
        {
            if self.pools[i].live && bytes_equal(self.pools[i].device.as_slice(), device) {
                return Some(i);
            }
            i = i + 1;
        }
        None
    }

    fn vacancy(&self) -> (r: Option<usize>)
        ensures
            match r {
                Some(i) => i < self.pools@.len() && !self.pools@[i as int].live && forall|j: int|
                    0 <= j < i ==> (#[trigger] self.pools@[j]).live,
                None => forall|j: int|
                    0 <= j < self.pools@.len() ==> (#[trigger] self.pools@[j]).live,
            },
    {
        let mut i: usize = 0;
        while i < self.pools.len()
            invariant
                i <= self.pools@.len(),
                forall|j: int| 0 <= j < i ==> (#[trigger] self.pools@[j]).live,
            decreases self.pools@.len() - i,
        {
            if !self.pools[i].live {
                return Some(i);
            }
            i = i + 1;
        }
        None
    }

    /// There is no pool in which a package of `generation` could wait for `device`.
    pub open spec fn no_pool(self, device: Seq<u8>, generation: u32) -> bool {
        match pool_from(self.pools@, device, 0) {
            Some(i) => generation < self.pools@[i].generation,
            None => device.len() > MAX_ID || forall|j: int|
                0 <= j < 16 ==> (#[trigger] self.pools@[j]).live,
        }
    }

    /// Pool `i` is the one of `device` at `generation`: the one that it has, emptied where the
    /// generation is newer, or the first free one.
    pub open spec fn pooled(before: Self, after: Self, device: Seq<u8>, generation: u32, i: int) -> bool {
        &&& 0 <= i < 16
        &&& after.pools@[i].is_for(device)
        &&& after.pools@[i].generation == generation
        &&& forall|j: int| 0 <= j < 16 && j != i ==> #[trigger] after.pools@[j] == before.pools@[j]
        &&& match pool_from(before.pools@, device, 0) {
            Some(k) => {
                &&& i == k
                &&& if generation > before.pools@[k].generation {
                    after.pools@[i].barren()
                } else {
                    after.pools@[i] == before.pools@[k]
                }
            },
            None => {
                &&& !before.pools@[i].live
                &&& forall|j: int| 0 <= j < i ==> (#[trigger] before.pools@[j]).live
                &&& after.pools@[i].barren()
            },
        }
    }

    /// The pool of a device at `generation`, made or rotated as needed. A newer generation empties
    /// the pool; an older one has none, and no pool is made for an id that is too long.
    pub fn pool_for(&mut self, device: &[u8], generation: u32) -> (r: Option<usize>)
        requires
            old(self).wf(),
        ensures
            final(self).wf(),
            final(self).suites == old(self).suites,
            final(self).same_counters(*old(self)),
            match r {
                Some(i) => !old(self).no_pool(device@, generation) && Self::pooled(
                    *old(self),
                    *final(self),
                    device@,
                    generation,
                    i as int,
                ),
                None => old(self).no_pool(device@, generation) && final(self).pools
                    == old(self).pools,
            },
    {
        let ghost before = self.pools@;
        proof {
            lemma_pool_from(before, device@, 0);
        }
        match self.find(device) {
            Some(index) => {
                let held: u32 = self.pools[index].generation;
                if generation < held {
                    return None;
                }
                if generation > held {
                    let device = slice_to_vec(device);
                    self.pools[index] = Pool {
                        device,
                        generation,
                        packages: no_packages(),
                        live: true,
                    };
                    proof {
                        lemma_devices_differ(before, self.pools@, index as int);
                    }
                }
                Some(index)
            },
            None => {
                if device.len() > MAX_ID {
                    return None;
                }
                let free: usize = match self.vacancy() {
                    Some(free) => free,
                    None => {
                        return None;
                    },
                };
                let device = slice_to_vec(device);
                self.pools[free] = Pool {
                    device,
                    generation,
                    packages: no_packages(),
                    live: true,
                };
                proof {
                    lemma_devices_differ(before, self.pools@, free as int);
                }
                Some(free)
            },
        }
    }

    /// Why a request is refused before its body is read.
    pub open spec fn request_refusal(r: Seq<u8>) -> Option<(u16, &'static str)> {
        if !http::complete(r) {
            Some((400, "{\"error\":\"invalid_request\"}"))
        } else if http::path(r) != bytes::text("/e2ee/keypackages/claim") && http::path(r)
            != bytes::text("/e2ee/keypackages") {
            Some((404, "{\"error\":\"not_found\"}"))
        } else if r[4] != METHOD_POST {
            Some((405, "{\"error\":\"invalid_request\"}"))
        } else {
            None
        }
    }

    /// Answer one request: publish a package, or claim one. `now` is the time in seconds.
    pub fn handle_request(&mut self, request: &[u8], now: u64) -> (r: Option<Reply>)
        requires
            old(self).wf(),
        ensures
            final(self).wf(),
            r is None <==> request@.len() < 12,
            r is None ==> *final(self) == *old(self),
            r matches Some(reply) ==> match Self::request_refusal(request@) {
                Some(why) => reply.answers(request@, why.0, bytes::text(why.1)) && *final(self)
                    == *old(self),
                None => if http::path(request@) == bytes::text("/e2ee/keypackages/claim") {
                    Self::claimed(*old(self), *final(self), request@, now, reply)
                } else {
                    Self::published(*old(self), *final(self), request@, reply)
                },
            },
    {
        let frame = match read_frame(request) {
            Some(frame) => frame,
            None => {
                return None;
            },
        };
        let (conn, stream) = (frame.conn, frame.stream);
        if !is_complete(request, &frame) {
            return Some(json_reply(conn, stream, 400, "{\"error\":\"invalid_request\"}"));
        }
        let path = path_of(request, &frame);
        let claiming = bytes_equal(path, "/e2ee/keypackages/claim".as_bytes());
        let publishing = bytes_equal(path, "/e2ee/keypackages".as_bytes());
        if !claiming && !publishing {
            return Some(json_reply(conn, stream, 404, "{\"error\":\"not_found\"}"));
        }
        if frame.method != METHOD_POST {
            return Some(json_reply(conn, stream, 405, "{\"error\":\"invalid_request\"}"));
        }
        if claiming {
            Some(self.claim(request, now))
        } else {
            Some(self.publish(request))
        }
    }

    /// The verdict on a publication.
    pub open spec fn verdict(self, o: Offer) -> Verdict {
        if o.device.len() == 0 || o.payload.len() == 0 || o.generation == 0 || o.not_after == 0
            || !self.attests(o.suite) || o.generation > u32::MAX {
            Verdict::Malformed
        } else if self.no_pool(o.device, o.generation as u32) {
            Verdict::NoPool
        } else {
            match pool_from(self.pools@, o.device, 0) {
                Some(i) => if o.generation == self.pools@[i].generation && forall|k: int|
                    0 <= k < 8 ==> (#[trigger] self.pools@[i].packages@[k]).live {
                    Verdict::PoolFull
                } else {
                    Verdict::Published
                },
                None => Verdict::Published,
            }
        }
    }

    /// What a publication comes to: its answer, its counter, and one more package in the first
    /// free place of the device's pool where it succeeds.
    pub open spec fn published(before: Self, after: Self, request: Seq<u8>, r: Reply) -> bool {
        let o = offer(http::body(request));
        &&& after.suites == before.suites
        &&& match before.verdict(o) {
            Verdict::Malformed => {
                &&& r.answers(request, 400, bytes::text("{\"error\":\"invalid_request\"}"))
                &&& after == (KeyPackages {
                    package_malformed: keys::counted(before.package_malformed),
                    ..before
                })
            },
            Verdict::NoPool => {
                &&& r.answers(request, 503, bytes::text("{\"error\":\"temporarily_unavailable\"}"))
                &&& after == (KeyPackages {
                    package_pool_full: keys::counted(before.package_pool_full),
                    ..before
                })
            },
            Verdict::PoolFull => {
                &&& r.answers(request, 409, bytes::text("{\"error\":\"pool_full\"}"))
                &&& after.pools@ == before.pools@
                &&& after.same_counters(
                    KeyPackages {
                        package_pool_full: keys::counted(before.package_pool_full),
                        ..before
                    },
                )
            },
            Verdict::Published => {
                &&& r.answers(request, 200, bytes::text("{\"published\":true}"))
                &&& after.same_counters(
                    KeyPackages {
                        package_published: keys::counted(before.package_published),
                        ..before
                    },
                )
                &&& exists|i: int, k: int| #[trigger] Self::waiting(before, after, o, i, k)
            },
        }
    }

    /// The package of `o` waits in place `k` of pool `i`, the pool of its device and generation,
    /// and nothing else changed.
    pub open spec fn waiting(before: Self, after: Self, o: Offer, i: int, k: int) -> bool {
        &&& 0 <= i < 16
        &&& 0 <= k < 8
        &&& after.pools@[i].is_for(o.device)
        &&& after.pools@[i].generation == o.generation
        &&& forall|j: int| 0 <= j < 16 && j != i ==> #[trigger] after.pools@[j] == before.pools@[j]
        &&& after.pools@[i].packages@[k].live
        &&& after.pools@[i].packages@[k].payload@ == o.payload
        &&& after.pools@[i].packages@[k].generation == o.generation
        &&& after.pools@[i].packages@[k].not_after == o.not_after
        &&& after.pools@[i].packages@[k].reuse == o.reuse
        &&& match pool_from(before.pools@, o.device, 0) {
            Some(p) => {
                &&& i == p
                &&& if o.generation > before.pools@[p].generation {
                    k == 0 && forall|j: int|
                        0 < j < 8 ==> (#[trigger] after.pools@[i].packages@[j]).vacant()
                } else {
                    &&& !before.pools@[p].packages@[k].live
                    &&& forall|j: int|
                        0 <= j < k ==> (#[trigger] before.pools@[p].packages@[j]).live
                    &&& forall|j: int|
                        0 <= j < 8 && j != k ==> #[trigger] after.pools@[i].packages@[j]
                            == before.pools@[p].packages@[j]
                }
            },
            None => {
                &&& !before.pools@[i].live
                &&& forall|j: int| 0 <= j < i ==> (#[trigger] before.pools@[j]).live
                &&& k == 0
                &&& forall|j: int| 0 < j < 8 ==> (#[trigger] after.pools@[i].packages@[j]).vacant()
            },
        }
    }

    /// Add a package to a device's pool.
    pub fn publish(&mut self, request: &[u8]) -> (r: Reply)
        requires
            old(self).wf(),
            http::complete(request@),
        ensures
            final(self).wf(),
            Self::published(*old(self), *final(self), request@, r),
    {
        let frame = match read_frame(request) {
            Some(frame) => frame,
            None => {
                return json_reply(0, 0, 400, "{\"error\":\"invalid_request\"}");
            },
        };
        let (conn, stream) = (frame.conn, frame.stream);
        let body = body_of(request, &frame);
        let device = json_string(body, "device_id".as_bytes(), MAX_ID);
        let encoded = json_string(body, "payload".as_bytes(), MAX_PAYLOAD * 2);
        let payload = base64::decode_or_empty(encoded.as_slice(), MAX_PAYLOAD);
        let generation: u64 = claim_number_or(body, "generation".as_bytes(), 0);
        let not_after: u64 = claim_number_or(body, "not_after".as_bytes(), 0);
        let reuse = if claim_is(body, "reuse".as_bytes(), "last_resort".as_bytes()) {
            Reuse::LastResort
        } else {
            Reuse::Once
        };
        let suite_ok = self.suite_ok(claim_u64(body, "suite".as_bytes()));
        let ghost o = offer(http::body(request@));
        if device.len() == 0 || payload.len() == 0 || generation == 0 || not_after == 0 || !suite_ok
            || generation > 4294967295 {
            count(&mut self.package_malformed);
            return json_reply(conn, stream, 400, "{\"error\":\"invalid_request\"}");
        }
        let generation: u32 = generation as u32;
        proof {
            lemma_pool_from(self.pools@, device@, 0);
        }
        let index: usize = match self.pool_for(device.as_slice(), generation) {
            Some(index) => index,
            None => {
                count(&mut self.package_pool_full);
                return json_reply(conn, stream, 503, "{\"error\":\"temporarily_unavailable\"}");
            },
        };
        let slot: usize = match free_package(&self.pools[index]) {
            Some(slot) => slot,
            None => {
                count(&mut self.package_pool_full);
                proof {
                    assert(self.pools@[index as int].packages@[0].live);
                    assert(self.pools@ =~= old(self).pools@);
                }
                return json_reply(conn, stream, 409, "{\"error\":\"pool_full\"}");
            },
        };
        let ghost pooled = self.pools@;
        let mut pool = Pool::empty();
        core::mem::swap(&mut pool, &mut self.pools[index]);
        pool.packages[slot] = Package { payload, generation, not_after, reuse, live: true };
        self.pools[index] = pool;
        proof {
            lemma_devices_differ(pooled, self.pools@, index as int);
            if pooled[index as int].barren() {
                assert(slot == 0) by {
                    if slot > 0 {
                        assert(pooled[index as int].packages@[0].live);
                    }
                }
            }
            assert(Self::waiting(*old(self), *self, o, index as int, slot as int));
        }
        count(&mut self.package_published);
        proof {
            assert(Self::waiting(*old(self), *self, o, index as int, slot as int));
        }
        json_reply(conn, stream, 200, "{\"published\":true}")
    }

    /// What a claim comes to: its answer, its counter, and one package less where it was for a
    /// single use.
    pub open spec fn claimed(before: Self, after: Self, request: Seq<u8>, now: u64, r: Reply) -> bool {
        let device = claims::short_claim(http::body(request), bytes::text("device_id"), 64);
        if device.len() == 0 {
            &&& r.answers(request, 400, bytes::text("{\"error\":\"invalid_request\"}"))
            &&& after == (KeyPackages {
                package_malformed: keys::counted(before.package_malformed),
                ..before
            })
        } else {
            match before.claimed_package(device, now) {
                None => {
                    &&& r.answers(request, 404, bytes::text("{\"error\":\"no_packages\"}"))
                    &&& after == (KeyPackages {
                        package_pool_empty: keys::counted(before.package_pool_empty),
                        ..before
                    })
                },
                Some(at) => {
                    let package = before.pools@[at.0].packages@[at.1];
                    &&& r.answers(request, 200, package_body(package))
                    &&& after.suites == before.suites
                    &&& if package.reuse == Reuse::Once {
                        &&& Self::consumed(before, after, at.0, at.1)
                        &&& after.same_counters(
                            KeyPackages {
                                package_claimed_exclusive: keys::counted(
                                    before.package_claimed_exclusive,
                                ),
                                ..before
                            },
                        )
                    } else {
                        after == (KeyPackages {
                            package_claimed_last_resort: keys::counted(
                                before.package_claimed_last_resort,
                            ),
                            ..before
                        })
                    }
                },
            }
        }
    }

    /// The pool and the place of the package that a claim for `device` takes.
    pub open spec fn claimed_package(self, device: Seq<u8>, now: u64) -> Option<(int, int)> {
        match pool_from(self.pools@, device, 0) {
            Some(i) => match chosen(self.pools@[i], now) {
                Some(k) => Some((i, k)),
                None => None,
            },
            None => None,
        }
    }

    /// The package in place `k` of pool `i` is spent, and nothing else changed.
    pub open spec fn consumed(before: Self, after: Self, i: int, k: int) -> bool {
        &&& forall|j: int| 0 <= j < 16 && j != i ==> #[trigger] after.pools@[j] == before.pools@[j]
        &&& after.pools@[i].device == before.pools@[i].device
        &&& after.pools@[i].generation == before.pools@[i].generation
        &&& after.pools@[i].live == before.pools@[i].live
        &&& after.pools@[i].packages@ == before.pools@[i].packages@.update(
            k,
            Package { live: false, ..before.pools@[i].packages@[k] },
        )
    }

    /// Consume one package of a device.
    pub fn claim(&mut self, request: &[u8], now: u64) -> (r: Reply)
        requires
            old(self).wf(),
            http::complete(request@),
        ensures
            final(self).wf(),
            Self::claimed(*old(self), *final(self), request@, now, r),
    {
        let frame = match read_frame(request) {
            Some(frame) => frame,
            None => {
                return json_reply(0, 0, 400, "{\"error\":\"invalid_request\"}");
            },
        };
        let (conn, stream) = (frame.conn, frame.stream);
        let body = body_of(request, &frame);
        let device = json_string(body, "device_id".as_bytes(), MAX_ID);
        if device.len() == 0 {
            count(&mut self.package_malformed);
            return json_reply(conn, stream, 400, "{\"error\":\"invalid_request\"}");
        }
        let index: usize = match self.find(device.as_slice()) {
            Some(index) => index,
            None => {
                count(&mut self.package_pool_empty);
                return json_reply(conn, stream, 404, "{\"error\":\"no_packages\"}");
            },
        };
        let once = claimable_package(&self.pools[index], Reuse::Once, now);
        let picked = match once {
            Some(slot) => Some(slot),
            None => claimable_package(&self.pools[index], Reuse::LastResort, now),
        };
        let slot: usize = match picked {
            Some(slot) => slot,
            None => {
                count(&mut self.package_pool_empty);
                return json_reply(conn, stream, 404, "{\"error\":\"no_packages\"}");
            },
        };
        let text = write_package(&self.pools[index].packages[slot]);
        if self.pools[index].packages[slot].reuse == Reuse::Once {
            let ghost before = self.pools@;
            let mut pool = Pool::empty();
            core::mem::swap(&mut pool, &mut self.pools[index]);
            let mut package = Package::empty();
            core::mem::swap(&mut package, &mut pool.packages[slot]);
            pool.packages[slot] = Package { live: false, ..package };
            self.pools[index] = pool;
            proof {
                let held = before[index as int].packages@;
                let left = self.pools@[index as int].packages@;
                assert(left =~= held.update(
                    slot as int,
                    Package { live: false, ..held[slot as int] },
                ));
                assert forall|k: int| 0 <= k < 8 && (#[trigger] left[k]).live implies left[k].generation
                    == self.pools@[index as int].generation && left[k].payload@.len() <= 512 by {
                    assert(held[k].live);
                }
                lemma_devices_differ(before, self.pools@, index as int);
            }
            count(&mut self.package_claimed_exclusive);
        } else {
            count(&mut self.package_claimed_last_resort);
        }
        json_reply_with(conn, stream, 200, text)
    }
}

fn free_package(pool: &Pool) -> (r: Option<usize>)
    requires
        pool.packages@.len() == 8,
    ensures
        match r {
            Some(i) => i < 8 && !pool.packages@[i as int].live && forall|j: int|
                0 <= j < i ==> (#[trigger] pool.packages@[j]).live,
            None => forall|j: int| 0 <= j < 8 ==> (#[trigger] pool.packages@[j]).live,
        },
{
    let mut i: usize = 0;
    while i < 8
        invariant
            i <= 8,
            pool.packages@.len() == 8,
            forall|j: int| 0 <= j < i ==> (#[trigger] pool.packages@[j]).live,
        decreases 8 - i,
    {
        if !pool.packages[i].live {
            return Some(i);
        }
        i = i + 1;
    }
    None
}

fn claimable_package(pool: &Pool, reuse: Reuse, now: u64) -> (r: Option<usize>)
    requires
        pool.packages@.len() == 8,
    ensures
        match r {
            Some(i) => package_from(pool.packages@, reuse, now, 0) == Some(i as int) && i < 8
                && pool.packages@[i as int].claimable(reuse, now),
            None => package_from(pool.packages@, reuse, now, 0) is None,
        },
{
    let mut i: usize = 0;
    while i < 8
        invariant
            i <= 8,
            pool.packages@.len() == 8,
            package_from(pool.packages@, reuse, now, 0) == package_from(
                pool.packages@,
                reuse,
                now,
                i as int,
            ),
        decreases 8 - i,
    {
        let p = &pool.packages[i];
        if p.live && p.reuse == reuse && now < p.not_after {
            return Some(i);
        }
        i = i + 1;
    }
    None
}

fn write_package(p: &Package) -> (r: Vec<u8>)
    ensures
        r@ == package_body(*p),
{
    let mut text: Vec<u8> = Vec::new();
    append(&mut text, "{\"exclusive\":".as_bytes());
    assert(text@ =~= bytes::text("{\"exclusive\":"));
    match p.reuse {
        Reuse::Once => {
            append(&mut text, "true".as_bytes());
        },
        Reuse::LastResort => {
            append(&mut text, "false".as_bytes());
        },
    }
    append(&mut text, ",\"generation\":".as_bytes());
    let generation = u64_dec(p.generation as u64);
    append(&mut text, generation.as_slice());
    append(&mut text, ",\"payload\":\"".as_bytes());
    let payload = base64::encode(p.payload.as_slice());
    append(&mut text, payload.as_slice());
    append(&mut text, "\"}".as_bytes());
    text
}

proof fn lemma_pool_from(pools: Seq<Pool>, device: Seq<u8>, i: int)
    requires
        0 <= i <= pools.len(),
    ensures
        match pool_from(pools, device, i) {
            Some(k) => i <= k < pools.len() && pools[k].is_for(device) && forall|j: int|
                i <= j < k ==> !(#[trigger] pools[j]).is_for(device),
            None => forall|j: int| i <= j < pools.len() ==> !(#[trigger] pools[j]).is_for(device),
        },
    decreases pools.len() - i,
{
    if i < pools.len() {
        lemma_pool_from(pools, device, i + 1);
    }
}

/// Devices still differ where one pool is changed and no other pool is of its device.
proof fn lemma_devices_differ(before: Seq<Pool>, after: Seq<Pool>, i: int)
    requires
        devices_differ(before),
        before.len() == after.len(),
        0 <= i < after.len(),
        forall|j: int| 0 <= j < after.len() && j != i ==> #[trigger] after[j] == before[j],
        (before[i].live && before[i].device@ == after[i].device@) || forall|j: int|
            0 <= j < before.len() ==> !(#[trigger] before[j]).is_for(after[i].device@),
    ensures
        devices_differ(after),
{
    assert forall|x: int, y: int|
        0 <= x < y < after.len() && (#[trigger] after[x]).live && (#[trigger] after[y]).live
        implies after[x].device@ != after[y].device@ by {
        if x != i {
            assert(after[x] == before[x]);
            assert(!before[x].is_for(after[i].device@) || before[i].live);
        }
        if y != i {
            assert(after[y] == before[y]);
            assert(!before[y].is_for(after[i].device@) || before[i].live);
        }
        if before[i].live && before[i].device@ == after[i].device@ {
            assert(before[x].live && before[y].live);
        }
    }
}

proof fn lemma_package_from(packages: Seq<Package>, reuse: Reuse, now: u64, i: int)
    requires
        0 <= i <= packages.len(),
    ensures
        match package_from(packages, reuse, now, i) {
            Some(k) => i <= k < packages.len() && packages[k].claimable(reuse, now),
            None => forall|j: int|
                i <= j < packages.len() ==> !(#[trigger] packages[j]).claimable(reuse, now),
        },
    decreases packages.len() - i,
{
    if i < packages.len() {
        lemma_package_from(packages, reuse, now, i + 1);
    }
}

/// A package for a single use that was claimed is in no later claim, whenever that comes.
pub proof fn claimed_at_most_once(
    before: KeyPackages,
    after: KeyPackages,
    i: int,
    k: int,
    device: Seq<u8>,
    later: u64,
)
    requires
        before.wf(),
        after.wf(),
        0 <= i < 16,
        0 <= k < 8,
        KeyPackages::consumed(before, after, i, k),
    ensures
        after.claimed_package(device, later) != Some((i, k)),
{
    lemma_pool_from(after.pools@, device, 0);
    match pool_from(after.pools@, device, 0) {
        Some(p) => {
            let packages = after.pools@[p].packages@;
            lemma_package_from(packages, Reuse::Once, later, 0);
            lemma_package_from(packages, Reuse::LastResort, later, 0);
            if p == i {
                assert(!packages[k].live);
            }
        },
        None => {},
    }
}

/// A claim takes a package that waits for its device, is of the pool's generation and has not
/// expired; one of last resort is taken only where no other can be.
pub proof fn last_resort_comes_last(packages: KeyPackages, device: Seq<u8>, now: u64)
    requires
        packages.wf(),
        packages.claimed_package(device, now) is Some,
    ensures
        ({
            let at = packages.claimed_package(device, now)->0;
            let pool = packages.pools@[at.0];
            let package = pool.packages@[at.1];
            &&& pool.is_for(device)
            &&& package.live
            &&& now < package.not_after
            &&& package.generation == pool.generation
            &&& package.reuse == Reuse::LastResort ==> forall|j: int|
                0 <= j < 8 ==> !(#[trigger] pool.packages@[j]).claimable(Reuse::Once, now)
        }),
{
    lemma_pool_from(packages.pools@, device, 0);
    let i = pool_from(packages.pools@, device, 0)->0;
    let pool = packages.pools@[i];
    assert(pool.wf());
    lemma_package_from(pool.packages@, Reuse::Once, now, 0);
    lemma_package_from(pool.packages@, Reuse::LastResort, now, 0);
}

/// A device's pool only moves to newer generations: a publication leaves the generation as it is
/// or raises it.
pub proof fn generations_only_rise(
    before: KeyPackages,
    after: KeyPackages,
    request: Seq<u8>,
    r: Reply,
    i: int,
)
    requires
        before.wf(),
        after.wf(),
        KeyPackages::published(before, after, request, r),
        0 <= i < 16,
        before.pools@[i].live,
    ensures
        after.pools@[i].live,
        after.pools@[i].device@ == before.pools@[i].device@,
        after.pools@[i].generation >= before.pools@[i].generation,
{
    let o = offer(http::body(request));
    if before.verdict(o) == Verdict::Published {
        let (p, k) = choose|p: int, k: int| #[trigger]
            KeyPackages::waiting(before, after, o, p, k);
        lemma_pool_from(before.pools@, o.device, 0);
        assert(i != p ==> after.pools@[i] == before.pools@[i]);
    }
}

/// What was published can be claimed until it expires; and where nothing else waits for the
/// device, the claim hands out the very package.
pub proof fn a_published_package_can_be_claimed(
    before: KeyPackages,
    after: KeyPackages,
    request: Seq<u8>,
    r: Reply,
    now: u64,
)
    requires
        before.wf(),
        after.wf(),
        KeyPackages::published(before, after, request, r),
        before.verdict(offer(http::body(request))) == Verdict::Published,
        now < offer(http::body(request)).not_after,
    ensures
        after.claimed_package(offer(http::body(request)).device, now) is Some,
        pool_from(before.pools@, offer(http::body(request)).device, 0) is None ==> ({
            let o = offer(http::body(request));
            let at = after.claimed_package(o.device, now)->0;
            let package = after.pools@[at.0].packages@[at.1];
            &&& package.payload@ == o.payload
            &&& package.generation == o.generation
            &&& package.reuse == o.reuse
        }),
{
    let o = offer(http::body(request));
    let (p, k) = choose|p: int, k: int| #[trigger] KeyPackages::waiting(before, after, o, p, k);
    lemma_pool_from(after.pools@, o.device, 0);
    let i = pool_from(after.pools@, o.device, 0)->0;
    assert(after.pools@[p].is_for(o.device));
    assert(i == p) by {
        if i < p {
            assert(after.pools@[i].live && after.pools@[p].live);
        }
    }
    let packages = after.pools@[p].packages@;
    assert(after.pools@[p].wf());
    assert(packages[k].claimable(o.reuse, now));
    lemma_package_from(packages, Reuse::Once, now, 0);
    lemma_package_from(packages, Reuse::LastResort, now, 0);
    if pool_from(before.pools@, o.device, 0) is None {
        assert forall|j: int| 0 < j < 8 implies !(#[trigger] packages[j]).claimable(
            Reuse::Once,
            now,
        ) && !packages[j].claimable(Reuse::LastResort, now) by {
            assert(packages[j].vacant());
        }
    }
}

/// What waits after a publication is what its body said: the payload that its text encodes, for
/// the device that it names, of its generation and until its end; and it is one of last resort
/// only where the body says so.
pub proof fn what_was_published_waits(
    before: KeyPackages,
    after: KeyPackages,
    request: Seq<u8>,
    r: Reply,
    device: Seq<u8>,
    payload: Seq<u8>,
) -> (at: (int, int))
    requires
        KeyPackages::published(before, after, request, r),
        before.verdict(offer(http::body(request))) == Verdict::Published,
        claims::text_claim(http::body(request), bytes::text("device_id")) == Some(device),
        device.len() <= 64,
        claims::text_claim(http::body(request), bytes::text("payload")) == Some(
            base64::encoded(payload),
        ),
        payload.len() <= 512,
    ensures
        0 <= at.0 < 16,
        0 <= at.1 < 8,
        after.pools@[at.0].live,
        after.pools@[at.0].device@ == device,
        ({
            let package = after.pools@[at.0].packages@[at.1];
            let body = http::body(request);
            &&& package.live
            &&& package.payload@ == payload
            &&& claims::number_claim(body, bytes::text("generation")) == Some(
                package.generation as u64,
            )
            &&& claims::number_claim(body, bytes::text("not_after")) == Some(package.not_after)
            &&& package.reuse == Reuse::LastResort <==> claims::text_claim(
                body,
                bytes::text("reuse"),
            ) == Some(bytes::text("last_resort"))
            &&& package.generation == after.pools@[at.0].generation
        }),
        forall|j: int| 0 <= j < 16 && j != at.0 ==> #[trigger] after.pools@[j] == before.pools@[j],
        r.status == 200,
{
    let o = offer(http::body(request));
    base64::encoding_length(payload);
    base64::encoded_decodes(payload, 512);
    choose|i: int, k: int| #[trigger] KeyPackages::waiting(before, after, o, i, k)
}

/// Only a whole publication is taken: it names a device, a payload, a generation and an end, and a
/// suite that is attested to. Any other changes nothing but a counter.
pub proof fn a_publication_is_whole(
    before: KeyPackages,
    after: KeyPackages,
    request: Seq<u8>,
    r: Reply,
)
    requires
        KeyPackages::published(before, after, request, r),
    ensures
        ({
            let body = http::body(request);
            let device = claims::text_claim(body, bytes::text("device_id"));
            let generation = claims::number_claim(body, bytes::text("generation"));
            let end = claims::number_claim(body, bytes::text("not_after"));
            let suite = claims::number_claim(body, bytes::text("suite"));
            r.status != 400 ==> {
                &&& (device matches Some(d) && 0 < d.len() <= 64)
                &&& claims::text_claim(body, bytes::text("payload")) is Some
                &&& (generation matches Some(g) && 0 < g <= u32::MAX)
                &&& (end matches Some(e) && e > 0)
                &&& (suite matches Some(s) && exists|i: int|
                    0 <= i < before.suites@.len() && #[trigger] before.suites@[i] == s)
            }
        }),
        r.status != 200 ==> after.pools@ == before.pools@,
        after.suites == before.suites,
{
    let body = http::body(request);
    if claims::text_claim(body, bytes::text("payload")) is None {
        let none = claims::short_claim(body, bytes::text("payload"), 1024);
        assert(none =~= Seq::<u8>::empty());
        base64::encoding_length(Seq::<u8>::empty());
        assert(base64::encoded(Seq::<u8>::empty()) =~= none);
        base64::encoded_decodes(Seq::<u8>::empty(), 512);
        assert(offer(body).payload.len() == 0);
    }
}

/// A package is handed out as it was published: its body reads back as the payload, the generation
/// and whether it was for a single use.
pub proof fn a_package_reads_back(p: Package)
    ensures
        claims::text_claim(package_body(p), bytes::text("payload")) == Some(
            base64::encoded(p.payload@),
        ),
        claims::number_claim(package_body(p), bytes::text("generation")) == Some(
            p.generation as u64,
        ),
        claims::after_first(
            package_body(p),
            claims::member_name(bytes::text("exclusive")),
        ) matches Some(rest) && (if p.reuse == Reuse::Once {
            bytes::text("true")
        } else {
            bytes::text("false")
        }).is_prefix_of(rest),
{
    let members = seq![
        (bytes::text("exclusive"), claims::Value::Flag(p.reuse == Reuse::Once)),
        (bytes::text("generation"), claims::Value::Number(p.generation as nat)),
        (bytes::text("payload"), claims::Value::Text(base64::encoded(p.payload@))),
    ];
    reveal_strlit("exclusive");
    reveal_strlit("generation");
    reveal_strlit("payload");
    reveal_strlit("{\"exclusive\":");
    reveal_strlit(",\"generation\":");
    reveal_strlit(",\"payload\":\"");
    reveal_strlit("\"}");
    assert("exclusive".is_ascii() && "generation".is_ascii() && "payload".is_ascii());
    assert("{\"exclusive\":".is_ascii() && ",\"generation\":".is_ascii());
    assert(",\"payload\":\"".is_ascii() && "\"}".is_ascii());
    assert(bytes::text("exclusive") =~= seq![101u8, 120, 99, 108, 117, 115, 105, 118, 101]);
    assert(bytes::text("generation") =~= seq![103u8, 101, 110, 101, 114, 97, 116, 105, 111, 110]);
    assert(bytes::text("payload") =~= seq![112u8, 97, 121, 108, 111, 97, 100]);
    assert(bytes::text("{\"exclusive\":") =~= seq![123u8] + claims::member_name(
        bytes::text("exclusive"),
    ));
    assert(bytes::text(",\"generation\":") =~= seq![44u8] + claims::member_name(
        bytes::text("generation"),
    ));
    assert(bytes::text(",\"payload\":\"") =~= seq![44u8] + claims::member_name(
        bytes::text("payload"),
    ) + seq![34u8]);
    assert(bytes::text("\"}") =~= seq![34u8, 125u8]);
    reveal_strlit("true");
    reveal_strlit("false");
    assert("true".is_ascii() && "false".is_ascii());
    assert(claims::value_bytes(members[0].1) =~= if p.reuse == Reuse::Once {
        bytes::text("true")
    } else {
        bytes::text("false")
    });
    assert(members.skip(1).skip(1) =~= seq![members[2]]);
    reveal_with_fuel(claims::members_bytes, 4);
    base64::lemma_sextets(p.payload@);
    assert(claims::record_safe(base64::encoded(p.payload@)));
    assert(package_body(p) =~= claims::record_bytes(members));
    assert(claims::readable(members));
    claims::value_follows_name(members, 0);
    claims::number_reads_back(members, 1);
    claims::text_reads_back(members, 2);
}

/// A claim hands out a package that waits for the device it names and has not expired, one for a
/// single use where there is one; and such a package waits for nobody from then on.
pub proof fn a_claim_hands_out_what_waits(
    before: KeyPackages,
    after: KeyPackages,
    request: Seq<u8>,
    now: u64,
    r: Reply,
    device: Seq<u8>,
)
    requires
        before.wf(),
        after.wf(),
        KeyPackages::claimed(before, after, request, now, r),
        claims::text_claim(http::body(request), bytes::text("device_id")) == Some(device),
        0 < device.len() <= 64,
    ensures
        r.status == 200 ==> exists|i: int, k: int|
            {
                let package = #[trigger] before.pools@[i].packages@[k];
                &&& 0 <= i < 16
                &&& 0 <= k < 8
                &&& before.pools@[i].live
                &&& before.pools@[i].device@ == device
                &&& package.live
                &&& now < package.not_after
                &&& claims::text_claim(r.body@, bytes::text("payload")) == Some(
                    base64::encoded(package.payload@),
                )
                &&& claims::number_claim(r.body@, bytes::text("generation")) == Some(
                    package.generation as u64,
                )
                &&& package.reuse == Reuse::Once ==> !after.pools@[i].packages@[k].live
                &&& package.reuse == Reuse::LastResort ==> after.pools@ == before.pools@
            },
        r.status != 200 ==> r.status == 404 && after.pools@ == before.pools@ && forall|i: int, k: int|
            0 <= i < 16 && 0 <= k < 8 && before.pools@[i].live && before.pools@[i].device@ == device
                && (#[trigger] before.pools@[i].packages@[k]).live ==> before.pools@[i].packages@[k].not_after
                <= now,
{
    match before.claimed_package(device, now) {
        Some(at) => {
            last_resort_comes_last(before, device, now);
            lemma_pool_from(before.pools@, device, 0);
            lemma_package_from(before.pools@[at.0].packages@, Reuse::Once, now, 0);
            lemma_package_from(before.pools@[at.0].packages@, Reuse::LastResort, now, 0);
            a_package_reads_back(before.pools@[at.0].packages@[at.1]);
        },
        None => {
            lemma_pool_from(before.pools@, device, 0);
            assert forall|i: int, k: int|
                0 <= i < 16 && 0 <= k < 8 && before.pools@[i].live && before.pools@[i].device@
                    == device && (#[trigger] before.pools@[i].packages@[k]).live implies before.pools@[i].packages@[k].not_after
                <= now by {
                assert(before.pools@[i].is_for(device));
                let p = pool_from(before.pools@, device, 0)->0;
                assert(before.pools@[p].is_for(device));
                assert(p == i);
                lemma_package_from(before.pools@[i].packages@, Reuse::Once, now, 0);
                lemma_package_from(before.pools@[i].packages@, Reuse::LastResort, now, 0);
                assert(!before.pools@[i].packages@[k].claimable(Reuse::Once, now));
                assert(!before.pools@[i].packages@[k].claimable(Reuse::LastResort, now));
            }
        },
    }
}

} // verus!
