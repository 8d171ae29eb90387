//! Messaging credentials: a device proves that it holds the key it was enrolled with, and this
//! signs which messaging keys belong to it. The proof is checked against the key that the
//! directory knows, never against one that merely came with the request.
use vstd::prelude::*;
use vstd::slice::{slice_subrange, slice_to_vec};

use crate::base64;
use crate::bytes;
use crate::bytes::{bytes_equal, copy_field, position, starts_with};
use crate::certificate_endpoint::MAX_KEY_LABEL;
use crate::claims;
use crate::claims::{
    claim_number_or, claim_or_empty, claim_str, json_safe, json_string, write_json_field,
    RecordWriter, Value,
};
use crate::http;
use crate::http::{
    body_of, is_complete, json_reply, json_reply_with, path_of, read_frame, Reply, METHOD_POST,
};
use crate::jose;
use crate::jwk;
use crate::keys;
use crate::keys::{count, KeyRecord, KeyUse, Suite};
use crate::ledger::{StateReply, Status};

verus! {

/// The content type of a credential.
pub const CREDENTIAL_CTY: &'static str = "ke+jwt";

/// How long a credential lives, in seconds.
pub const CREDENTIAL_TTL_SECS: u64 = 86400;

pub const MAX_FIELD: usize = 256;

/// This module's client id on the ledger's reply port.
pub const STATE_CLIENT: u8 = 2;

/// Longest token.
pub const MAX_TOKEN: usize = 2048;

/// Requests awaiting an answer of the directory.
pub const MAX_IN_FLIGHT: usize = 4;

/// Longest key id.
pub const MAX_KID: usize = 32;

/// One request that waits for the directory.
pub struct Pending {
    pub corr: u32,
    pub conn: u16,
    pub stream: u16,
    pub device_id: Vec<u8>,
    /// The enrolled key, in its canonical form.
    pub canonical: Vec<u8>,
    pub sig_thumbprint: Vec<u8>,
    pub hpke_thumbprint: Vec<u8>,
    pub generation: u32,
    pub signature: Vec<u8>,
    pub nonce: Vec<u8>,
    pub live: bool,
}

impl Pending {
    pub open spec fn vacant(self) -> bool {
        &&& self.corr == 0
        &&& self.conn == 0
        &&& self.stream == 0
        &&& self.device_id@.len() == 0
        &&& self.canonical@.len() == 0
        &&& self.sig_thumbprint@.len() == 0
        &&& self.hpke_thumbprint@.len() == 0
        &&& self.generation == 0
        &&& self.signature@.len() == 0
        &&& self.nonce@.len() == 0
        &&& !self.live
    }

    pub fn empty() -> (r: Self)
        ensures
            r.vacant(),
    {
        Pending {
            corr: 0,
            conn: 0,
            stream: 0,
            device_id: Vec::new(),
            canonical: Vec::new(),
            sig_thumbprint: Vec::new(),
            hpke_thumbprint: Vec::new(),
            generation: 0,
            signature: Vec::new(),
            nonce: Vec::new(),
            live: false,
        }
    }
}

#[derive(Clone, Copy, Debug, PartialEq, Eq, Structural)]
pub enum Refusal {
    NoKey,
    Malformed,
    UnknownDevice,
    BadPossession,
    Busy,
}

impl Refusal {
    /// An unknown device and a proof that does not hold are told alike, so that nobody learns
    /// which devices there are.
    pub open spec fn spec_status(self) -> u16 {
        match self {
            Refusal::NoKey | Refusal::Busy => 503,
            Refusal::Malformed => 400,
            Refusal::UnknownDevice | Refusal::BadPossession => 401,
        }
    }

    pub open spec fn spec_body(self) -> &'static str {
        match self {
            Refusal::NoKey | Refusal::Busy => "{\"error\":\"temporarily_unavailable\"}",
            Refusal::Malformed => "{\"error\":\"invalid_request\"}",
            Refusal::UnknownDevice | Refusal::BadPossession => "{\"error\":\"invalid_grant\"}",
        }
    }

    pub fn status(self) -> (r: u16)
        ensures
            r == self.spec_status(),
    {
        match self {
            Refusal::NoKey | Refusal::Busy => 503,
            Refusal::Malformed => 400,
            Refusal::UnknownDevice | Refusal::BadPossession => 401,
        }
    }

    pub fn body(self) -> (r: &'static str)
        ensures
            r == self.spec_body(),
    {
        match self {
            Refusal::NoKey | Refusal::Busy => "{\"error\":\"temporarily_unavailable\"}",
            Refusal::Malformed => "{\"error\":\"invalid_request\"}",
            Refusal::UnknownDevice | Refusal::BadPossession => "{\"error\":\"invalid_grant\"}",
        }
    }
}

/// The reply is that refusal.
pub open spec fn refuses(reply: Reply, conn: nat, stream: nat, why: Refusal) -> bool {
    reply.is(conn, stream, why.spec_status(), bytes::text(why.spec_body()))
}

pub fn refuse(conn: u16, stream: u16, why: Refusal) -> (r: Reply)
    ensures
        refuses(r, conn as nat, stream as nat, why),
{
    json_reply(conn, stream, why.status(), why.body())
}

/// What follows the first `"name":` of `body`, up to the first closing brace.
pub open spec fn member_object(body: Seq<u8>, name: Seq<u8>) -> Option<Seq<u8>> {
    match claims::after_first(body, claims::member_name(name)) {
        Some(rest) => {
            let end = bytes::position_of(rest, 125) as int;
            if end < rest.len() {
                Some(rest.take(end + 1))
            } else {
                None
            }
        },
        None => None,
    }
}

/// The canonical form of the key that the member `name` of `body` holds.
pub open spec fn member_key(body: Seq<u8>, name: Seq<u8>) -> Option<Seq<u8>> {
    match member_object(body, name) {
        Some(object) => jwk::canonical(object),
        None => None,
    }
}

/// Where the value after the first `"name":` begins.
pub fn find_member(body: &[u8], name: &[u8]) -> (r: Option<usize>)
    ensures
        match r {
            Some(i) => i <= body@.len() && claims::after_first(body@, claims::member_name(name@))
                == Some(body@.skip(i as int)),
            None => claims::after_first(body@, claims::member_name(name@)) is None,
        },
{
    let mut needle: Vec<u8> = Vec::new();
    needle.push(34);
    bytes::append(&mut needle, name);
    needle.push(34);
    needle.push(58);
    assert(needle@ =~= claims::member_name(name@));
    let total: usize = body.len();
    match bytes::find(body, needle.as_slice()) {
        Some(found) => {
            proof {
                claims::lemma_after_first(body@, needle@, found as int);
            }
            assert(found + needle@.len() <= total);
            Some(found + needle.len())
        },
        None => None,
    }
}

/// The key that the member `name` of `body` holds, in its canonical form. The search is narrowed
/// to that member's object, since several keys stand in one body.
pub fn canonical_jwk_of(body: &[u8], name: &[u8]) -> (r: Option<Vec<u8>>)
    ensures
        match r {
            Some(c) => member_key(body@, name@) == Some(c@),
            None => member_key(body@, name@) is None,
        },
{
    let start: usize = match find_member(body, name) {
        Some(start) => start,
        None => {
            return None;
        },
    };
    let region = slice_subrange(body, start, body.len());
    assert(region@ =~= body@.skip(start as int));
    let end: usize = position(region, 125);
    if end >= region.len() {
        return None;
    }
    let object = slice_subrange(region, 0, end + 1);
    assert(object@ =~= region@.take(end as int + 1));
    jwk::read_canonical(object)
}

/// Verify a signature under a key in its canonical form.
pub fn verify_with_jwk(canonical: &[u8], message: &[u8], signature: &[u8]) -> (r: bool)
    ensures
        r == jwk::signed_by(canonical@, message@, signature@),
{
    jwk::verify(canonical, message, signature)
}

/// The signature that a request proves possession with.
pub open spec fn pop_signature(body: Seq<u8>) -> Seq<u8> {
    base64::decoded_or_empty(claims::short_claim(body, bytes::text("pop_sig"), 128), 64)
}

/// A body that names a device, its three keys, a nonce, a generation and a proof.
pub open spec fn well_made(body: Seq<u8>) -> bool {
    let generation = claims::number_or(body, bytes::text("generation"), 0);
    &&& claims::short_claim(body, bytes::text("device_id"), 256).len() > 0
    &&& member_key(body, bytes::text("device_pubkey")) is Some
    &&& member_key(body, bytes::text("sig_jwk")) is Some
    &&& member_key(body, bytes::text("hpke_jwk")) is Some
    &&& claims::short_claim(body, bytes::text("nonce"), 64).len() > 0
    &&& pop_signature(body).len() == 64
    &&& 0 < generation <= u32::MAX
}

/// The entry of a well-made request.
pub open spec fn asked(slot: Pending, r: Seq<u8>, corr: u32) -> bool {
    let body = http::body(r);
    &&& slot.live
    &&& slot.corr == corr
    &&& slot.conn == http::le16(r, 0)
    &&& slot.stream == http::le16(r, 2)
    &&& slot.device_id@ == claims::short_claim(body, bytes::text("device_id"), 256)
    &&& Some(slot.canonical@) == member_key(body, bytes::text("device_pubkey"))
    &&& slot.sig_thumbprint@ == jwk::thumbprint(member_key(body, bytes::text("sig_jwk"))->0)
    &&& slot.hpke_thumbprint@ == jwk::thumbprint(member_key(body, bytes::text("hpke_jwk"))->0)
    &&& slot.generation == claims::number_or(body, bytes::text("generation"), 0)
    &&& slot.signature@ == pop_signature(body)
    &&& slot.nonce@ == claims::short_claim(body, bytes::text("nonce"), 64)
}

pub enum RequestStep {
    /// Too short to name a connection.
    Ignore,
    Reply(Reply),
    /// Ask the directory for the record of the slot's device.
    Ask { index: usize, slot: Pending },
}

/// What became of a question to the directory.
#[derive(Clone, Copy, Debug, PartialEq, Eq, Structural)]
pub enum Asked {
    Sent,
    /// It does not fit a message.
    Unencodable,
    /// The directory takes no message now.
    Unwritten,
}

pub enum DirectoryStep {
    /// Not for this module, or for nobody.
    Ignore,
    Reply(Reply),
    /// The directory knows the device: check the slot's proof against this record.
    Check { slot: Pending, record: Vec<u8> },
}

pub enum IssueStep {
    Reply(Reply),
    /// Have this signed for the connection.
    Sign { conn: u16, stream: u16, input: Vec<u8> },
}

/// The claims of a credential.
pub open spec fn credential_members(
    slot: Pending,
    iss: Seq<u8>,
    suite: u16,
    tenant: Seq<u8>,
    now: u64,
) -> Seq<(Seq<u8>, Value)> {
    seq![
        (bytes::text("exp"), Value::Number((now + CREDENTIAL_TTL_SECS) as nat)),
        (bytes::text("gen"), Value::Number(slot.generation as nat)),
        (bytes::text("hpke_jwk_thumbprint"), Value::Text(slot.hpke_thumbprint@)),
        (bytes::text("iat"), Value::Number(now as nat)),
        (bytes::text("iss"), Value::Text(iss)),
        (bytes::text("sig_jwk_thumbprint"), Value::Text(slot.sig_thumbprint@)),
        (bytes::text("sub"), Value::Text(slot.device_id@)),
        (bytes::text("suite"), Value::Number(suite as nat)),
        (bytes::text("tid"), Value::Text(tenant)),
    ]
}

/// Everything that a credential says can stand in it.
pub open spec fn credential_safe(slot: Pending, iss: Seq<u8>, tenant: Seq<u8>) -> bool {
    &&& claims::record_safe(slot.hpke_thumbprint@)
    &&& claims::record_safe(iss)
    &&& claims::record_safe(slot.sig_thumbprint@)
    &&& claims::record_safe(slot.device_id@)
    &&& claims::record_safe(tenant)
}

pub struct CredentialEndpoint {
    /// The profile of the keys that sign here.
    pub profile_id: u16,
    /// The number of the ciphersuite that is attested to.
    pub suite_code: u16,
    pub key_open: bool,
    pub kid: Vec<u8>,
    pub iss: Vec<u8>,
    pub next_corr: u32,
    pub pending: Vec<Pending>,
    pub credential_issued: u32,
    pub credential_no_key: u32,
    pub credential_malformed: u32,
    pub credential_unknown_device: u32,
    pub credential_bad_possession: u32,
    pub credential_in_flight_full: u32,
}

/// The first slot that waits under `corr`, from `i` on.
pub open spec fn waiting_from(pending: Seq<Pending>, corr: u32, i: int) -> Option<int>
    decreases pending.len() - i,
{
    if i < 0 || i >= pending.len() {
        None
    } else if pending[i].live && pending[i].corr == corr {
        Some(i)
    } else {
        waiting_from(pending, corr, i + 1)
    }
}

impl CredentialEndpoint {
    pub open spec fn wf(self) -> bool {
        self.pending@.len() == 4
    }

    pub fn module_new(profile_id: u16, suite_code: u16, iss: &[u8]) -> (r: Self)
        ensures
            r.wf(),
            r.profile_id == profile_id,
            r.suite_code == suite_code,
            !r.key_open,
            r.kid@.len() == 0,
            r.iss@ == bytes::clipped(iss@, 256),
            r.next_corr == 1,
            forall|i: int| 0 <= i < 4 ==> (#[trigger] r.pending@[i]).vacant(),
            r.credential_issued == 0,
            r.credential_no_key == 0,
            r.credential_malformed == 0,
            r.credential_unknown_device == 0,
            r.credential_bad_possession == 0,
            r.credential_in_flight_full == 0,
    {
        let mut pending: Vec<Pending> = Vec::new();
        while pending.len() < MAX_IN_FLIGHT
            invariant
                pending@.len() <= 4,
                forall|i: int| 0 <= i < pending@.len() ==> (#[trigger] pending@[i]).vacant(),
            decreases 4 - pending@.len(),
        {
            pending.push(Pending::empty());
        }
        CredentialEndpoint {
            profile_id,
            suite_code,
            key_open: false,
            kid: Vec::new(),
            iss: copy_field(iss, MAX_FIELD),
            next_corr: 1,
            pending,
            credential_issued: 0,
            credential_no_key: 0,
            credential_malformed: 0,
            credential_unknown_device: 0,
            credential_bad_possession: 0,
            credential_in_flight_full: 0,
        }
    }

    /// Whether a lifecycle record is one to open: an Ed25519 signing key of this profile, under a
    /// label and a key id that fit.
    pub open spec fn wants(self, rec: KeyRecord) -> bool {
        &&& rec.key_use == KeyUse::Sign
        &&& rec.profile_id == self.profile_id
        &&& rec.suite == Some(Suite::Ed25519)
        &&& 0 < rec.key_ref@.len() <= 32
        &&& 0 < rec.kid@.len() <= 32
    }

    pub fn takes_key(&self, rec: &KeyRecord) -> (r: bool)
        ensures
            r == self.wants(*rec),
    {
        let ed25519 = match rec.suite {
            Some(Suite::Ed25519) => true,
            _ => false,
        };
        rec.key_use == KeyUse::Sign && rec.profile_id == self.profile_id && ed25519
            && rec.key_ref.len() > 0 && rec.key_ref.len() <= MAX_KEY_LABEL && rec.kid.len() > 0
            && rec.kid.len() <= MAX_KID
    }

    /// The vault was asked to open the key that `rec` names, after the old one was closed.
    pub fn drain_key(&mut self, rec: &KeyRecord, opened: bool)
        ensures
            final(self).kid@ == (if opened {
                rec.kid@
            } else {
                old(self).kid@
            }),
            *final(self) == (CredentialEndpoint {
                key_open: opened,
                kid: final(self).kid,
                ..*old(self)
            }),
    {
        self.key_open = opened;
        if opened {
            self.kid = slice_to_vec(rec.kid.as_slice());
        }
    }

    fn vacancy(&self) -> (r: Option<usize>)
        ensures
            match r {
                Some(i) => i < self.pending@.len() && !self.pending@[i as int].live && forall|j: int|
                    0 <= j < i ==> (#[trigger] self.pending@[j]).live,
                None => forall|j: int|
                    0 <= j < self.pending@.len() ==> (#[trigger] self.pending@[j]).live,
            },
    {
        let mut i: usize = 0;
        while i < self.pending.len()
            invariant
                i <= self.pending@.len(),
                forall|j: int| 0 <= j < i ==> (#[trigger] self.pending@[j]).live,
            decreases self.pending@.len() - i,
        {
            if !self.pending[i].live {
                return Some(i);
            }
            i = i + 1;
        }
        None
    }

    /// The status and the body that a request is refused with, and its counter.
    pub open spec fn request_refusal(self, r: Seq<u8>, writable: bool) -> Option<
        (u16, &'static str, Self),
    > {
        if !http::complete(r) {
            Some((400, Refusal::Malformed.spec_body(), self))
        } else if !bytes::has_prefix(http::path(r), bytes::text("/e2ee/credential")) {
            Some((404, "{\"error\":\"not_found\"}", self))
        } else if r[4] != METHOD_POST {
            Some((405, "{\"error\":\"invalid_request\"}", self))
        } else if !self.key_open {
            Some(
                (
                    503,
                    Refusal::NoKey.spec_body(),
                    CredentialEndpoint {
                        credential_no_key: keys::counted(self.credential_no_key),
                        ..self
                    },
                ),
            )
        } else if !well_made(http::body(r)) {
            Some((400, Refusal::Malformed.spec_body(), self.malformed()))
        } else if !writable || forall|i: int|
            0 <= i < self.pending@.len() ==> (#[trigger] self.pending@[i]).live {
            Some((503, Refusal::Busy.spec_body(), self.busy()))
        } else {
            None
        }
    }

    pub open spec fn malformed(self) -> Self {
        CredentialEndpoint {
            credential_malformed: keys::counted(self.credential_malformed),
            ..self
        }
    }

    pub open spec fn busy(self) -> Self {
        CredentialEndpoint {
            credential_in_flight_full: keys::counted(self.credential_in_flight_full),
            ..self
        }
    }

    /// Refuse a request, or ask the directory about its device.
    pub fn handle_request(&mut self, request: &[u8], writable: bool) -> (r: RequestStep)
        requires
            old(self).wf(),
        ensures
            final(self).wf(),
            if request@.len() < 12 {
                r is Ignore && *final(self) == *old(self)
            } else {
                match old(self).request_refusal(request@, writable) {
                    Some(why) => {
                        &&& r matches RequestStep::Reply(reply)
                        &&& reply.answers(request@, why.0, bytes::text(why.1))
                        &&& *final(self) == why.2
                    },
                    None => {
                        &&& r matches RequestStep::Ask { index, slot }
                        &&& index < 4
                        &&& !old(self).pending@[index as int].live
                        &&& forall|j: int|
                            0 <= j < index ==> (#[trigger] old(self).pending@[j]).live
                        &&& asked(slot, request@, old(self).next_corr)
                        &&& *final(self) == *old(self)
                    },
                }
            },
    {
        let frame = match read_frame(request) {
            Some(frame) => frame,
            None => {
                return RequestStep::Ignore;
            },
        };
        let (conn, stream) = (frame.conn, frame.stream);
        if !is_complete(request, &frame) {
            return RequestStep::Reply(refuse(conn, stream, Refusal::Malformed));
        }
        if !starts_with(path_of(request, &frame), "/e2ee/credential".as_bytes()) {
            return RequestStep::Reply(json_reply(conn, stream, 404, "{\"error\":\"not_found\"}"));
        }
        if frame.method != METHOD_POST {
            return RequestStep::Reply(
                json_reply(conn, stream, 405, "{\"error\":\"invalid_request\"}"),
            );
        }
        if !self.key_open {
            count(&mut self.credential_no_key);
            return RequestStep::Reply(refuse(conn, stream, Refusal::NoKey));
        }
        let slot = match accept(request, conn, stream, self.next_corr) {
            Some(slot) => slot,
            None => {
                count(&mut self.credential_malformed);
                return RequestStep::Reply(refuse(conn, stream, Refusal::Malformed));
            },
        };
        if !writable {
            count(&mut self.credential_in_flight_full);
            return RequestStep::Reply(refuse(conn, stream, Refusal::Busy));
        }
        match self.vacancy() {
            Some(index) => RequestStep::Ask { index, slot },
            None => {
                count(&mut self.credential_in_flight_full);
                RequestStep::Reply(refuse(conn, stream, Refusal::Busy))
            },
        }
    }

    /// The directory was asked, or could not be: hold the request, or refuse it.
    pub fn asked(&mut self, index: usize, slot: Pending, outcome: Asked) -> (r: Option<Reply>)
        requires
            old(self).wf(),
            index < 4,
        ensures
            final(self).wf(),
            match outcome {
                Asked::Sent => {
                    &&& r is None
                    &&& final(self).pending@ == old(self).pending@.update(index as int, slot)
                    &&& *final(self) == (CredentialEndpoint {
                        pending: final(self).pending,
                        next_corr: old(self).next_corr.wrapping_add(1),
                        ..*old(self)
                    })
                },
                Asked::Unencodable => {
                    &&& r matches Some(reply)
                    &&& refuses(reply, slot.conn as nat, slot.stream as nat, Refusal::Malformed)
                    &&& *final(self) == old(self).malformed()
                },
                Asked::Unwritten => {
                    &&& r matches Some(reply)
                    &&& refuses(reply, slot.conn as nat, slot.stream as nat, Refusal::Busy)
                    &&& *final(self) == old(self).busy()
                },
            },
    {
        match outcome {
            Asked::Sent => {
                self.pending[index] = slot;
                self.next_corr = self.next_corr.wrapping_add(1);
                None
            },
            Asked::Unencodable => {
                count(&mut self.credential_malformed);
                Some(refuse(slot.conn, slot.stream, Refusal::Malformed))
            },
            Asked::Unwritten => {
                count(&mut self.credential_in_flight_full);
                Some(refuse(slot.conn, slot.stream, Refusal::Busy))
            },
        }
    }

    /// Take the slot that waits under `corr`, which is free from now on.
    pub fn take_pending(&mut self, corr: u32) -> (r: Option<Pending>)
        requires
            old(self).wf(),
        ensures
            final(self).wf(),
            *final(self) == (CredentialEndpoint { pending: final(self).pending, ..*old(self) }),
            match waiting_from(old(self).pending@, corr, 0) {
                Some(i) => {
                    &&& r == Some(old(self).pending@[i])
                    &&& final(self).pending@[i].vacant()
                    &&& forall|j: int|
                        0 <= j < 4 && j != i ==> #[trigger] final(self).pending@[j]
                            == old(self).pending@[j]
                },
                None => r is None && final(self).pending == old(self).pending,
            },
    {
        let mut i: usize = 0;
        while i < self.pending.len()
            invariant
                i <= self.pending@.len(),
                self.wf(),
                *self == *old(self),
                waiting_from(self.pending@, corr, 0) == waiting_from(self.pending@, corr, i as int),
            decreases self.pending@.len() - i,
        {
            if self.pending[i].live && self.pending[i].corr == corr {
                let mut slot = Pending::empty();
                core::mem::swap(&mut slot, &mut self.pending[i]);
                return Some(slot);
            }
            i = i + 1;
        }
        None
    }

    /// One reply of the directory: a request for a device that it does not know is refused, and
    /// the proof of any other is to be checked.
    pub fn drain_directory(&mut self, rep: &StateReply) -> (r: DirectoryStep)
        requires
            old(self).wf(),
        ensures
            final(self).wf(),
            if rep.client != STATE_CLIENT {
                r is Ignore && *final(self) == *old(self)
            } else {
                match waiting_from(old(self).pending@, rep.correlation, 0) {
                    None => r is Ignore && final(self).pending == old(self).pending
                        && *final(self) == (CredentialEndpoint {
                        pending: final(self).pending,
                        ..*old(self)
                    }),
                    Some(i) => {
                        let slot = old(self).pending@[i];
                        &&& final(self).pending@[i].vacant()
                        &&& forall|j: int|
                            0 <= j < 4 && j != i ==> #[trigger] final(self).pending@[j]
                                == old(self).pending@[j]
                        &&& if rep.status == Status::Success {
                            &&& r matches DirectoryStep::Check { slot: s, record }
                            &&& s == slot
                            &&& record@ == rep.value@
                            &&& *final(self) == (CredentialEndpoint {
                                pending: final(self).pending,
                                ..*old(self)
                            })
                        } else {
                            &&& r matches DirectoryStep::Reply(reply)
                            &&& refuses(
                                reply,
                                slot.conn as nat,
                                slot.stream as nat,
                                Refusal::UnknownDevice,
                            )
                            &&& *final(self) == (CredentialEndpoint {
                                pending: final(self).pending,
                                credential_unknown_device: keys::counted(
                                    old(self).credential_unknown_device,
                                ),
                                ..*old(self)
                            })
                        }
                    },
                }
            },
    {
        if rep.client != STATE_CLIENT {
            return DirectoryStep::Ignore;
        }
        let slot = match self.take_pending(rep.correlation) {
            Some(slot) => slot,
            None => {
                return DirectoryStep::Ignore;
            },
        };
        match rep.status {
            Status::Success => DirectoryStep::Check {
                slot,
                record: slice_to_vec(rep.value.as_slice()),
            },
            _ => {
                count(&mut self.credential_unknown_device);
                DirectoryStep::Reply(refuse(slot.conn, slot.stream, Refusal::UnknownDevice))
            },
        }
    }

    /// What is signed for a slot whose proof holds.
    pub open spec fn credential_input(self, slot: Pending, record: Seq<u8>, now: u64) -> Seq<u8> {
        let tenant = claims::text_or_empty(record, bytes::text("sub"));
        jose::eddsa_input(
            bytes::text(CREDENTIAL_CTY),
            self.kid@,
            claims::record_bytes(
                credential_members(slot, self.iss@, self.suite_code, tenant, now),
            ),
        )
    }

    /// Why no credential is issued. `proof_input` is what the device had to sign.
    pub open spec fn issue_refusal(
        self,
        slot: Pending,
        record: Seq<u8>,
        proof_input: Option<Seq<u8>>,
        now: u64,
    ) -> Option<Refusal> {
        let tenant = claims::text_or_empty(record, bytes::text("sub"));
        let members = credential_members(slot, self.iss@, self.suite_code, tenant, now);
        match claims::text_claim(record, bytes::text("jkt")) {
            None => Some(Refusal::UnknownDevice),
            Some(bound) => if bound != jwk::thumbprint(slot.canonical@) {
                Some(Refusal::BadPossession)
            } else {
                match proof_input {
                    None => Some(Refusal::Malformed),
                    Some(input) => if !jwk::signed_by(slot.canonical@, input, slot.signature@) {
                        Some(Refusal::BadPossession)
                    } else if !credential_safe(slot, self.iss@, tenant) || claims::record_bytes(
                        members,
                    ).len() > 1024 || !jose::eddsa_fits(
                        bytes::text(CREDENTIAL_CTY),
                        self.kid@,
                        claims::record_bytes(members),
                        2048,
                    ) {
                        Some(Refusal::Malformed)
                    } else {
                        None
                    },
                }
            },
        }
    }

    /// The state after a refusal to issue.
    pub open spec fn refused(self, why: Refusal) -> Self {
        if why == Refusal::BadPossession {
            CredentialEndpoint {
                credential_bad_possession: keys::counted(self.credential_bad_possession),
                ..self
            }
        } else {
            self
        }
    }

    /// Check possession against what the directory recorded, and compose the credential. The key
    /// in the request is taken only because its thumbprint is the one that was recorded.
    pub fn issue(&mut self, slot: &Pending, record: &[u8], proof_input: Option<&[u8]>, now: u64) -> (r:
        IssueStep)
        requires
            now + CREDENTIAL_TTL_SECS <= u64::MAX,
        ensures
            ({
                let input = match proof_input {
                    Some(input) => Some(input@),
                    None => None,
                };
                match old(self).issue_refusal(*slot, record@, input, now) {
                    Some(why) => {
                        &&& r matches IssueStep::Reply(reply)
                        &&& refuses(reply, slot.conn as nat, slot.stream as nat, why)
                        &&& *final(self) == old(self).refused(why)
                    },
                    None => {
                        &&& r matches IssueStep::Sign { conn, stream, input }
                        &&& conn == slot.conn
                        &&& stream == slot.stream
                        &&& input@ == old(self).credential_input(*slot, record@, now)
                        &&& *final(self) == *old(self)
                    },
                }
            }),
    {
        let (conn, stream) = (slot.conn, slot.stream);
        let bound = match claim_str(record, "jkt".as_bytes()) {
            Some(bound) => bound,
            None => {
                return IssueStep::Reply(refuse(conn, stream, Refusal::UnknownDevice));
            },
        };
        let presented = jwk::thumbprint_from_canonical(slot.canonical.as_slice());
        if !bytes_equal(bound, presented.as_slice()) {
            count(&mut self.credential_bad_possession);
            return IssueStep::Reply(refuse(conn, stream, Refusal::BadPossession));
        }
        let input = match proof_input {
            Some(input) => input,
            None => {
                return IssueStep::Reply(refuse(conn, stream, Refusal::Malformed));
            },
        };
        if !verify_with_jwk(slot.canonical.as_slice(), input, slot.signature.as_slice()) {
            count(&mut self.credential_bad_possession);
            return IssueStep::Reply(refuse(conn, stream, Refusal::BadPossession));
        }
        let tenant = claim_or_empty(record, "sub".as_bytes());
        if !json_safe(slot.hpke_thumbprint.as_slice()) || !json_safe(self.iss.as_slice())
            || !json_safe(slot.sig_thumbprint.as_slice()) || !json_safe(slot.device_id.as_slice())
            || !json_safe(tenant) {
            return IssueStep::Reply(refuse(conn, stream, Refusal::Malformed));
        }
        let mut w = RecordWriter::new();
        w.number("exp", now + CREDENTIAL_TTL_SECS);
        w.number("gen", slot.generation as u64);
        w.text("hpke_jwk_thumbprint", slot.hpke_thumbprint.as_slice());
        w.number("iat", now);
        w.text("iss", self.iss.as_slice());
        w.text("sig_jwk_thumbprint", slot.sig_thumbprint.as_slice());
        w.text("sub", slot.device_id.as_slice());
        w.number("suite", self.suite_code as u64);
        w.text("tid", tenant);
        assert(w.members@ =~= credential_members(*slot, self.iss@, self.suite_code, tenant@, now));
        let body = match w.finish(1024) {
            Some(body) => body,
            None => {
                return IssueStep::Reply(refuse(conn, stream, Refusal::Malformed));
            },
        };
        match jose::open_jws(
            CREDENTIAL_CTY.as_bytes(),
            self.kid.as_slice(),
            body.as_slice(),
            MAX_TOKEN,
        ) {
            Some(input) => IssueStep::Sign { conn, stream, input },
            None => IssueStep::Reply(refuse(conn, stream, Refusal::Malformed)),
        }
    }

    /// The vault signed the credential, or did not: answer the request.
    pub fn sign_jws(&mut self, conn: u16, stream: u16, input: &[u8], signature: Option<&[u8]>) -> (r:
        Reply)
        ensures
            if signature is None || jose::closed(input@, signature->0@).len() > 2048 {
                &&& refuses(r, conn as nat, stream as nat, Refusal::Malformed)
                &&& *final(self) == *old(self)
            } else {
                &&& r.is(
                    conn as nat,
                    stream as nat,
                    200,
                    claims::field_object(
                        2112,
                        bytes::text("credential"),
                        jose::closed(input@, signature->0@),
                    ),
                )
                &&& *final(self) == (CredentialEndpoint {
                    credential_issued: keys::counted(old(self).credential_issued),
                    ..*old(self)
                })
            },
    {
        let signature = match signature {
            Some(signature) => signature,
            None => {
                return refuse(conn, stream, Refusal::Malformed);
            },
        };
        let token = match jose::close_jws(input, signature, MAX_TOKEN) {
            Some(token) => token,
            None => {
                return refuse(conn, stream, Refusal::Malformed);
            },
        };
        count(&mut self.credential_issued);
        let body = write_json_field(MAX_TOKEN + 64, "credential".as_bytes(), token.as_slice());
        json_reply_with(conn, stream, 200, body)
    }
}

/// Read what a request asks for.
fn accept(request: &[u8], conn: u16, stream: u16, corr: u32) -> (r: Option<Pending>)
    requires
        http::complete(request@),
        conn == http::le16(request@, 0),
        stream == http::le16(request@, 2),
    ensures
        match r {
            Some(slot) => well_made(http::body(request@)) && asked(slot, request@, corr),
            None => !well_made(http::body(request@)),
        },
{
    let frame = match read_frame(request) {
        Some(frame) => frame,
        None => {
            return None;
        },
    };
    let body = body_of(request, &frame);
    let device_id = json_string(body, "device_id".as_bytes(), MAX_FIELD);
    let nonce = json_string(body, "nonce".as_bytes(), 64);
    let generation: u64 = claim_number_or(body, "generation".as_bytes(), 0);
    let encoded = json_string(body, "pop_sig".as_bytes(), 128);
    let signature = base64::decode_or_empty(encoded.as_slice(), 64);
    let canonical = match canonical_jwk_of(body, "device_pubkey".as_bytes()) {
        Some(c) => c,
        None => {
            return None;
        },
    };
    let sig = match canonical_jwk_of(body, "sig_jwk".as_bytes()) {
        Some(c) => c,
        None => {
            return None;
        },
    };
    let hpke = match canonical_jwk_of(body, "hpke_jwk".as_bytes()) {
        Some(c) => c,
        None => {
            return None;
        },
    };
    if device_id.len() == 0 || nonce.len() == 0 || signature.len() != 64 || generation == 0
        || generation > 4294967295 {
        return None;
    }
    Some(
        Pending {
            corr,
            conn,
            stream,
            device_id,
            canonical,
            sig_thumbprint: jwk::thumbprint_from_canonical(sig.as_slice()),
            hpke_thumbprint: jwk::thumbprint_from_canonical(hpke.as_slice()),
            generation: generation as u32,
            signature,
            nonce,
            live: true,
        },
    )
}

proof fn lemma_credential_names()
    ensures
        bytes::text("exp") == seq![101u8, 120, 112],
        bytes::text("gen") == seq![103u8, 101, 110],
        bytes::text("iat") == seq![105u8, 97, 116],
        bytes::text("iss") == seq![105u8, 115, 115],
        bytes::text("sub") == seq![115u8, 117, 98],
        bytes::text("suite") == seq![115u8, 117, 105, 116, 101],
        bytes::text("tid") == seq![116u8, 105, 100],
        claims::plain_name(bytes::text("hpke_jwk_thumbprint")),
        bytes::text("hpke_jwk_thumbprint").len() == 19,
        claims::plain_name(bytes::text("sig_jwk_thumbprint")),
        bytes::text("sig_jwk_thumbprint").len() == 18,
{
    reveal_strlit("exp");
    reveal_strlit("gen");
    reveal_strlit("iat");
    reveal_strlit("iss");
    reveal_strlit("sub");
    reveal_strlit("suite");
    reveal_strlit("tid");
    reveal_strlit("hpke_jwk_thumbprint");
    reveal_strlit("sig_jwk_thumbprint");
    assert("exp".is_ascii());
    assert("gen".is_ascii());
    assert("iat".is_ascii());
    assert("iss".is_ascii());
    assert("sub".is_ascii());
    assert("suite".is_ascii());
    assert("tid".is_ascii());
    assert("hpke_jwk_thumbprint".is_ascii());
    assert("sig_jwk_thumbprint".is_ascii());
    assert(bytes::text("exp") =~= seq![101u8, 120, 112]);
    assert(bytes::text("gen") =~= seq![103u8, 101, 110]);
    assert(bytes::text("iat") =~= seq![105u8, 97, 116]);
    assert(bytes::text("iss") =~= seq![105u8, 115, 115]);
    assert(bytes::text("sub") =~= seq![115u8, 117, 98]);
    assert(bytes::text("suite") =~= seq![115u8, 117, 105, 116, 101]);
    assert(bytes::text("tid") =~= seq![116u8, 105, 100]);
    assert(bytes::text("hpke_jwk_thumbprint") =~= seq![
        104u8, 112, 107, 101, 95, 106, 119, 107, 95, 116, 104, 117, 109, 98, 112, 114, 105, 110,
        116,
    ]);
    assert(bytes::text("sig_jwk_thumbprint") =~= seq![
        115u8, 105, 103, 95, 106, 119, 107, 95, 116, 104, 117, 109, 98, 112, 114, 105, 110, 116,
    ]);
}

/// A credential says which messaging keys belong to which device of which tenant, and nothing in
/// it can be read as anything else.
pub proof fn credential_reads_back(
    slot: Pending,
    iss: Seq<u8>,
    suite: u16,
    tenant: Seq<u8>,
    now: u64,
)
    requires
        credential_safe(slot, iss, tenant),
        now + CREDENTIAL_TTL_SECS <= u64::MAX,
    ensures
        ({
            let body = claims::record_bytes(credential_members(slot, iss, suite, tenant, now));
            &&& claims::text_claim(body, bytes::text("sub")) == Some(slot.device_id@)
            &&& claims::text_claim(body, bytes::text("tid")) == Some(tenant)
            &&& claims::text_claim(body, bytes::text("iss")) == Some(iss)
            &&& claims::text_claim(body, bytes::text("sig_jwk_thumbprint")) == Some(
                slot.sig_thumbprint@,
            )
            &&& claims::text_claim(body, bytes::text("hpke_jwk_thumbprint")) == Some(
                slot.hpke_thumbprint@,
            )
            &&& claims::number_claim(body, bytes::text("gen")) == Some(slot.generation as u64)
            &&& claims::number_claim(body, bytes::text("suite")) == Some(suite as u64)
            &&& claims::number_claim(body, bytes::text("iat")) == Some(now)
            &&& claims::number_claim(body, bytes::text("exp")) == Some(
                (now + CREDENTIAL_TTL_SECS) as u64,
            )
        }),
{
    lemma_credential_names();
    let m = credential_members(slot, iss, suite, tenant, now);
    assert forall|i: int, j: int| 0 <= i < j < m.len() implies (#[trigger] m[i]).0 != (
    #[trigger] m[j]).0 by {
        assert(m[0].0[0] == 101 && m[0].0.len() == 3);
        assert(m[1].0[0] == 103 && m[1].0.len() == 3);
        assert(m[2].0.len() == 19);
        assert(m[3].0[1] == 97 && m[3].0[0] == 105 && m[3].0.len() == 3);
        assert(m[4].0[1] == 115 && m[4].0[0] == 105 && m[4].0.len() == 3);
        assert(m[5].0.len() == 18);
        assert(m[6].0[0] == 115 && m[6].0.len() == 3);
        assert(m[7].0.len() == 5);
        assert(m[8].0[0] == 116 && m[8].0.len() == 3);
    }
    assert(claims::readable(m));
    claims::number_reads_back(m, 0);
    claims::number_reads_back(m, 1);
    claims::text_reads_back(m, 2);
    claims::number_reads_back(m, 3);
    claims::text_reads_back(m, 4);
    claims::text_reads_back(m, 5);
    claims::text_reads_back(m, 6);
    claims::number_reads_back(m, 7);
    claims::text_reads_back(m, 8);
}

/// A credential is composed only for a device that the directory knows under the thumbprint of the
/// key that signed the proof.
pub proof fn issued_to_the_enrolled_key(
    endpoint: CredentialEndpoint,
    slot: Pending,
    record: Seq<u8>,
    proof_input: Option<Seq<u8>>,
    now: u64,
)
    requires
        endpoint.issue_refusal(slot, record, proof_input, now) is None,
    ensures
        claims::text_claim(record, bytes::text("jkt")) == Some(jwk::thumbprint(slot.canonical@)),
        proof_input matches Some(input) && jwk::signed_by(slot.canonical@, input, slot.signature@),
{
}

/// A device that the directory does not know and a proof that does not hold are answered alike, so
/// that nobody can ask which devices there are.
pub proof fn unknown_and_unproved_look_alike(unknown: Reply, unproved: Reply, conn: u16, stream: u16)
    requires
        refuses(unknown, conn as nat, stream as nat, Refusal::UnknownDevice),
        refuses(unproved, conn as nat, stream as nat, Refusal::BadPossession),
    ensures
        unknown.conn == unproved.conn,
        unknown.stream == unproved.stream,
        unknown.status == unproved.status,
        unknown.content_type == unproved.content_type,
        unknown.body@ == unproved.body@,
{
}

/// A credential is for what the request named and the directory knows: the device and the two
/// messaging keys of the request, the tenant of the record, for a day; by the issuer of the
/// deployment.
pub proof fn a_credential_is_for_the_keys_of_the_request(
    endpoint: CredentialEndpoint,
    request: Seq<u8>,
    corr: u32,
    slot: Pending,
    record: Seq<u8>,
    proof_input: Option<Seq<u8>>,
    now: u64,
    body: Seq<u8>,
    device: Seq<u8>,
    tenant: Seq<u8>,
)
    requires
        asked(slot, request, corr),
        endpoint.issue_refusal(slot, record, proof_input, now) is None,
        now + 86400 <= u64::MAX,
        endpoint.credential_input(slot, record, now) == jose::eddsa_input(
            bytes::text("ke+jwt"),
            endpoint.kid@,
            body,
        ),
        claims::text_claim(http::body(request), bytes::text("device_id")) == Some(device),
        device.len() <= 256,
        claims::text_claim(record, bytes::text("sub")) == Some(tenant),
    ensures
        claims::text_claim(body, bytes::text("sub")) == Some(device),
        claims::text_claim(body, bytes::text("tid")) == Some(tenant),
        claims::text_claim(body, bytes::text("iss")) == Some(endpoint.iss@),
        claims::text_claim(body, bytes::text("sig_jwk_thumbprint")) == Some(
            base64::encoded(
                crate::crypto::sha256(member_key(http::body(request), bytes::text("sig_jwk"))->0),
            ),
        ),
        claims::text_claim(body, bytes::text("hpke_jwk_thumbprint")) == Some(
            base64::encoded(
                crate::crypto::sha256(member_key(http::body(request), bytes::text("hpke_jwk"))->0),
            ),
        ),
        claims::number_claim(http::body(request), bytes::text("generation")) matches Some(n) ==> n
            <= u32::MAX ==> claims::number_claim(body, bytes::text("gen")) == Some(n),
        claims::number_claim(body, bytes::text("suite")) == Some(endpoint.suite_code as u64),
        claims::number_claim(body, bytes::text("iat")) == Some(now),
        claims::number_claim(body, bytes::text("exp")) == Some((now + 86400) as u64),
        Some(slot.canonical@) == member_key(http::body(request), bytes::text("device_pubkey")),
        claims::text_claim(record, bytes::text("jkt")) == Some(
            base64::encoded(crate::crypto::sha256(slot.canonical@)),
        ),
        slot.conn == http::le16(request, 0),
        slot.stream == http::le16(request, 2),
{
    let own = claims::record_bytes(
        credential_members(slot, endpoint.iss@, endpoint.suite_code, tenant, now),
    );
    credential_reads_back(slot, endpoint.iss@, endpoint.suite_code, tenant, now);
    let header = base64::encoded(jose::eddsa_header(bytes::text(CREDENTIAL_CTY), endpoint.kid@));
    let (a, b) = (base64::encoded(own), base64::encoded(body));
    assert(header + seq![46u8] + a == header + seq![46u8] + b);
    assert((header + seq![46u8] + a).skip(header.len() as int + 1) =~= a);
    assert((header + seq![46u8] + b).skip(header.len() as int + 1) =~= b);
    base64::encoding_is_injective(own, body);
}

/// Who is refused, and how: a device whose record names no key as unknown, a key that is not the
/// recorded one and a proof that does not hold as not proved.
pub proof fn who_is_given_no_credential(
    endpoint: CredentialEndpoint,
    slot: Pending,
    record: Seq<u8>,
    proof_input: Option<Seq<u8>>,
    now: u64,
)
    ensures
        ({
            let why = endpoint.issue_refusal(slot, record, proof_input, now);
            let bound = claims::text_claim(record, bytes::text("jkt"));
            let print = base64::encoded(crate::crypto::sha256(slot.canonical@));
            &&& bound is None ==> why == Some(Refusal::UnknownDevice)
            &&& bound is Some && bound != Some(print) ==> why == Some(Refusal::BadPossession)
            &&& bound == Some(print) && proof_input is Some && !jwk::signed_by(
                slot.canonical@,
                proof_input->0,
                slot.signature@,
            ) ==> why == Some(Refusal::BadPossession)
        }),
        Refusal::UnknownDevice.spec_status() == 401,
        Refusal::BadPossession.spec_status() == 401,
        Refusal::Malformed.spec_status() == 400,
        Refusal::NoKey.spec_status() == 503,
        Refusal::Busy.spec_status() == 503,
{
}

/// A request is asked about only where it names a device, its three keys, a nonce, a generation
/// above zero and a proof of sixty-four bytes.
pub proof fn a_well_made_request_is_whole(body: Seq<u8>)
    requires
        well_made(body),
    ensures
        claims::text_claim(body, bytes::text("device_id")) matches Some(v) && 0 < v.len() <= 256,
        claims::text_claim(body, bytes::text("nonce")) matches Some(v) && 0 < v.len() <= 64,
        claims::text_claim(body, bytes::text("pop_sig")) is Some,
        claims::number_claim(body, bytes::text("generation")) matches Some(n) && 0 < n <= u32::MAX,
        member_key(body, bytes::text("device_pubkey")) is Some,
        member_key(body, bytes::text("sig_jwk")) is Some,
        member_key(body, bytes::text("hpke_jwk")) is Some,
{
    if claims::text_claim(body, bytes::text("pop_sig")) is None {
        let none = claims::short_claim(body, bytes::text("pop_sig"), 128);
        assert(none =~= Seq::<u8>::empty());
        base64::encoding_length(Seq::<u8>::empty());
        assert(base64::encoded(Seq::<u8>::empty()) =~= none);
        base64::encoded_decodes(Seq::<u8>::empty(), 64);
    }
}

/// The key of a member is that of the object behind its name, and of no other object of the body.
pub proof fn a_member_holds_its_own_key(body: Seq<u8>, name: Seq<u8>, rest: Seq<u8>, object: Seq<u8>)
    requires
        claims::after_first(body, seq![34u8] + name + seq![34u8, 58u8]) == Some(
            object + seq![125u8] + rest,
        ),
        forall|i: int| 0 <= i < object.len() ==> #[trigger] object[i] != 125,
    ensures
        member_key(body, name) == jwk::canonical(object + seq![125u8]),
{
    let after = object + seq![125u8] + rest;
    assert forall|i: int| 0 <= i < object.len() implies #[trigger] after[i] != 125 by {
        assert(after[i] == object[i]);
    }
    bytes::lemma_position_unique(after, 125, object.len() as int);
    assert(after.take(object.len() as int + 1) =~= object + seq![125u8]);
}

} // verus!
