//! Endpoint state for an encrypted group, kept so that it only ever moves forward: a commit quotes
//! the revision that it advances from, and one that offers an earlier position than the state it
//! quotes stops the endpoint for good.
use vstd::prelude::*;
use vstd::slice::slice_to_vec;

use crate::base64;
use crate::bytes;
use crate::bytes::{append, bytes_equal, copy_field, starts_with, u64_dec};
use crate::claims;
use crate::claims::{claim_number_or, claim_str, json_string};
use crate::device_auth;
use crate::device_auth::{authenticate, device_certificates, select_issuer, AuthError, Held};
use crate::http;
use crate::http::{
    body_of, headers_of, is_complete, json_reply, json_reply_with, path_of, read_credential,
    read_frame, read_proof, Reply, METHOD_POST,
};
use crate::keys;
use crate::keys::count;
use crate::resource_gate::MAX_SEGMENT;
use crate::replay::ReplayWindow;
use crate::token_verify::Verifier;

verus! {

pub const MAX_ENDPOINTS: usize = 16;

/// Longest state, which is opaque here.
pub const MAX_PAYLOAD: usize = 1024;

/// Longest endpoint key.
pub const MAX_KEY: usize = 96;

/// How far an endpoint has advanced in one group.
#[derive(Clone, Copy, Debug, PartialEq, Eq, Structural)]
pub struct Marker {
    pub epoch: u64,
    pub generation: u32,
}

impl Marker {
    /// Strictly ahead of `previous`: by the epoch, and within one epoch by the generation.
    pub open spec fn ahead_of(self, previous: Self) -> bool {
        self.epoch > previous.epoch || (self.epoch == previous.epoch && self.generation
            > previous.generation)
    }

    /// Whether this marker is strictly ahead of `previous`.
    pub fn advances_on(self, previous: Self) -> (r: bool)
        ensures
            r == self.ahead_of(previous),
    {
        if self.epoch != previous.epoch {
            return self.epoch > previous.epoch;
        }
        self.generation > previous.generation
    }
}

/// Of two markers exactly one is ahead, unless they are the same.
pub proof fn markers_are_ordered(a: Marker, b: Marker)
    ensures
        !a.ahead_of(a),
        !(a.ahead_of(b) && b.ahead_of(a)),
        a == b || a.ahead_of(b) || b.ahead_of(a),
{
}

/// What is ahead of what is ahead is ahead.
pub proof fn ahead_is_transitive(a: Marker, b: Marker, c: Marker)
    requires
        a.ahead_of(b),
        b.ahead_of(c),
    ensures
        a.ahead_of(c),
{
}

pub struct Endpoint {
    pub key: Vec<u8>,
    pub marker: Marker,
    pub revision: u64,
    pub payload: Vec<u8>,
    pub has_state: bool,
    pub poisoned: bool,
    pub live: bool,
}

impl Endpoint {
    pub open spec fn vacant(self) -> bool {
        &&& self.key@.len() == 0
        &&& self.marker == (Marker { epoch: 0, generation: 0 })
        &&& self.revision == 0
        &&& self.payload@.len() == 0
        &&& !self.has_state
        &&& !self.poisoned
        &&& !self.live
    }

    pub open spec fn is_for(self, key: Seq<u8>) -> bool {
        self.live && self.key@ == key
    }

    pub fn empty() -> (r: Self)
        ensures
            r.vacant(),
    {
        Endpoint {
            key: Vec::new(),
            marker: Marker { epoch: 0, generation: 0 },
            revision: 0,
            payload: Vec::new(),
            has_state: false,
            poisoned: false,
            live: false,
        }
    }
}

/// The device that a verified certificate names.
pub struct AuthenticatedDevice {
    pub id: Vec<u8>,
}

/// Whether `key` is state that the device `id` owns: it begins with the device's id.
pub open spec fn is_owner(id: Seq<u8>, key: Seq<u8>) -> bool {
    bytes::has_prefix(key, id)
}

impl AuthenticatedDevice {
    pub fn as_bytes(&self) -> (r: &[u8])
        ensures
            r@ == self.id@,
    {
        self.id.as_slice()
    }

    /// Whether `key` is state that this device owns.
    pub fn owns(&self, key: &[u8]) -> (r: bool)
        ensures
            r == is_owner(self.id@, key@),
    {
        starts_with(key, self.as_bytes())
    }
}

#[derive(Clone, Copy, Debug, PartialEq, Eq, Structural)]
pub enum Operation {
    Load,
    Commit,
}

/// What is handed to the check of a device certificate and its proof.
pub struct Presentation {
    pub operation: Operation,
    pub credential: Vec<u8>,
    pub proof: Vec<u8>,
    pub uri: Vec<u8>,
    pub now: u64,
}

impl Presentation {
    pub open spec fn shown(self) -> device_auth::Shown {
        device_auth::Shown {
            credential: self.credential@,
            proof: self.proof@,
            method: bytes::text("POST"),
            uri: self.uri@,
        }
    }

    /// Check the certificate against the held keys, and the proof against the certificate, the
    /// request and the window.
    pub fn check(&self, keys: &Verifier, window: &mut ReplayWindow) -> (r: Result<Held, AuthError>)
        requires
            old(window).wf(),
            self.now + 300 <= u64::MAX,
        ensures
            final(window).wf(),
            device_auth::authenticated(
                device_auth::named_key(keys.keys@, self.credential@, self.now),
                *old(window),
                *final(window),
                self.shown(),
                device_auth::certificate_policy(),
                self.now,
                r,
            ),
    {
        let issuer = select_issuer(keys, self.credential.as_slice(), self.now);
        let p = device_auth::Presentation {
            credential: self.credential.as_slice(),
            proof: self.proof.as_slice(),
            method: "POST".as_bytes(),
            uri: self.uri.as_slice(),
        };
        authenticate(&issuer, window, &p, &device_certificates(), self.now)
    }
}

pub enum RequestStep {
    /// Too short to name a connection.
    Ignore,
    Reply(Reply),
    Authenticate(Presentation),
}

/// The operation that a path names.
pub open spec fn operation_of(path: Seq<u8>) -> Option<Operation> {
    if path == bytes::text("/e2ee/state/load") {
        Some(Operation::Load)
    } else if path == bytes::text("/e2ee/state/commit") {
        Some(Operation::Commit)
    } else {
        None
    }
}

/// Why a request is refused before its certificate is checked: status, body, and whether it
/// counts as unauthenticated.
pub open spec fn request_refusal(r: Seq<u8>, keyset_empty: bool, now: Option<u64>) -> Option<
    (u16, &'static str, bool),
> {
    if !http::complete(r) {
        Some((400, "{\"error\":\"invalid_request\"}", false))
    } else if operation_of(http::path(r)) is None {
        Some((404, "{\"error\":\"not_found\"}", false))
    } else if r[4] != METHOD_POST {
        Some((405, "{\"error\":\"invalid_request\"}", false))
    } else if keyset_empty {
        Some((503, "{\"error\":\"temporarily_unavailable\"}", false))
    } else if http::presented_credential(http::headers(r), MAX_SEGMENT as nat).len() == 0
        || http::presented_proof(http::headers(r), MAX_SEGMENT as nat).len() == 0 {
        Some((401, "{\"error\":\"invalid_client\"}", true))
    } else if now is None {
        Some((503, "{\"error\":\"temporarily_unavailable\"}", true))
    } else {
        None
    }
}

/// The certificate and the proof that a request presents.
pub open spec fn presented(r: Seq<u8>) -> device_auth::Shown {
    device_auth::Shown {
        credential: http::presented_credential(http::headers(r), MAX_SEGMENT as nat),
        proof: http::presented_proof(http::headers(r), MAX_SEGMENT as nat),
        method: bytes::text("POST"),
        uri: http::path(r),
    }
}

/// The device that the certificate of a request names, where the certificate and the proof hold.
pub open spec fn named_device(r: Seq<u8>, keys: Verifier, window: ReplayWindow, now: u64) -> Option<
    Seq<u8>,
> {
    let p = presented(r);
    match device_auth::shown_claims(
        device_auth::named_key(keys.keys@, p.credential, now),
        window,
        p,
        device_auth::certificate_policy(),
        now,
    ) {
        Some(held) => match claims::text_claim(held, bytes::text("device_id")) {
            Some(id) => Some(bytes::clipped(id, 96)),
            None => None,
        },
        None => None,
    }
}

/// What a commit offers.
pub struct Offer {
    pub key: Seq<u8>,
    pub payload: Seq<u8>,
    pub expected: u64,
    pub epoch: u64,
    pub generation: u64,
}

pub open spec fn offer(body: Seq<u8>) -> Offer {
    Offer {
        key: claims::short_claim(body, bytes::text("endpoint"), 96),
        payload: base64::decoded_or_empty(
            claims::short_claim(body, bytes::text("payload"), 2048),
            1024,
        ),
        expected: claims::number_or(body, bytes::text("expected_revision"), u64::MAX),
        epoch: claims::number_or(body, bytes::text("epoch"), 0),
        generation: claims::number_or(body, bytes::text("generation"), 0),
    }
}

/// The position that an offer takes.
pub open spec fn offered(o: Offer) -> Marker {
    Marker { epoch: o.epoch, generation: o.generation as u32 }
}

/// An offer that names an endpoint, a state and a revision.
pub open spec fn well_made(o: Offer) -> bool {
    o.generation <= u32::MAX && o.key.len() > 0 && o.payload.len() > 0 && o.expected != u64::MAX
}

/// The first endpoint for `key`, from `i` on.
pub open spec fn found_from(endpoints: Seq<Endpoint>, key: Seq<u8>, i: int) -> Option<int>
    decreases endpoints.len() - i,
{
    if i < 0 || i >= endpoints.len() {
        None
    } else if endpoints[i].is_for(key) {
        Some(i)
    } else {
        found_from(endpoints, key, i + 1)
    }
}

/// No two endpoints are for one key.
pub open spec fn keys_differ(endpoints: Seq<Endpoint>) -> bool {
    forall|i: int, j: int|
        0 <= i < j < endpoints.len() && (#[trigger] endpoints[i]).live && (
        #[trigger] endpoints[j]).live ==> endpoints[i].key@ != endpoints[j].key@
}

/// The body that holds an endpoint's state.
pub open spec fn state_body(e: Endpoint) -> Seq<u8> {
    bytes::text("{\"epoch\":") + bytes::decimal(e.marker.epoch as nat) + bytes::text(
        ",\"generation\":",
    ) + bytes::decimal(e.marker.generation as nat) + bytes::text(",\"payload\":\"")
        + base64::encoded(e.payload@) + bytes::text("\",\"present\":true,\"revision\":")
        + bytes::decimal(e.revision as nat) + bytes::text("}")
}

pub struct StateStore {
    pub endpoints: Vec<Endpoint>,
    pub state_unauthenticated: u32,
    pub state_not_owner: u32,
    pub state_loaded: u32,
    pub state_committed: u32,
    pub state_superseded: u32,
    pub state_not_advancing: u32,
    pub state_rolled_back: u32,
    pub state_poisoned: u32,
    pub state_table_full: u32,
}

/// How a commit ends.
#[derive(Clone, Copy, Debug, PartialEq, Eq, Structural)]
pub enum Verdict {
    Invalid,
    Forbidden,
    Poisoned,
    Superseded,
    NotAdvancing,
    RolledBack,
    Full,
    Committed,
}

impl StateStore {
    pub open spec fn wf(self) -> bool {
        &&& self.endpoints@.len() == 16
        &&& keys_differ(self.endpoints@)
        &&& forall|i: int|
            0 <= i < 16 ==> (#[trigger] self.endpoints@[i]).payload@.len() <= 1024
    }

    pub open spec fn same_counters(self, other: Self) -> bool {
        &&& self.state_unauthenticated == other.state_unauthenticated
        &&& self.state_not_owner == other.state_not_owner
        &&& self.state_loaded == other.state_loaded
        &&& self.state_committed == other.state_committed
        &&& self.state_superseded == other.state_superseded
        &&& self.state_not_advancing == other.state_not_advancing
        &&& self.state_rolled_back == other.state_rolled_back
        &&& self.state_poisoned == other.state_poisoned
        &&& self.state_table_full == other.state_table_full
    }

    pub fn module_new() -> (r: Self)
        ensures
            r.wf(),
            forall|i: int| 0 <= i < 16 ==> (#[trigger] r.endpoints@[i]).vacant(),
            r.state_unauthenticated == 0,
            r.state_not_owner == 0,
            r.state_loaded == 0,
            r.state_committed == 0,
            r.state_superseded == 0,
            r.state_not_advancing == 0,
            r.state_rolled_back == 0,
            r.state_poisoned == 0,
            r.state_table_full == 0,
    {
        let mut endpoints: Vec<Endpoint> = Vec::new();
        while endpoints.len() < MAX_ENDPOINTS
            invariant
                endpoints@.len() <= 16,
                forall|i: int| 0 <= i < endpoints@.len() ==> (#[trigger] endpoints@[i]).vacant(),
            decreases 16 - endpoints@.len(),
        {
            endpoints.push(Endpoint::empty());
        }
        StateStore {
            endpoints,
            state_unauthenticated: 0,
            state_not_owner: 0,
            state_loaded: 0,
            state_committed: 0,
            state_superseded: 0,
            state_not_advancing: 0,
            state_rolled_back: 0,
            state_poisoned: 0,
            state_table_full: 0,
        }
    }

    /// What a refused request does: it changes no endpoint, and is counted where it `counts` as
    /// unauthenticated.
    pub open spec fn turned_away(before: Self, after: Self, counts: bool) -> bool {
        &&& after.endpoints == before.endpoints
        &&& after.state_unauthenticated == (if counts {
            keys::counted(before.state_unauthenticated)
        } else {
            before.state_unauthenticated
        })
        &&& (StateStore {
            state_unauthenticated: before.state_unauthenticated,
            ..after
        }).same_counters(before)
    }

    /// Refuse a request, or say what certificate is to be checked for which operation.
    pub fn handle_request(&mut self, request: &[u8], keyset_empty: bool, now: Option<u64>) -> (r:
        RequestStep)
        requires
            old(self).wf(),
        ensures
            final(self).wf(),
            final(self).endpoints == old(self).endpoints,
            if request@.len() < 12 {
                r is Ignore && *final(self) == *old(self)
            } else {
                match request_refusal(request@, keyset_empty, now) {
                    Some(why) => {
                        &&& r matches RequestStep::Reply(reply)
                        &&& reply.answers(request@, why.0, bytes::text(why.1))
                        &&& Self::turned_away(*old(self), *final(self), why.2)
                    },
                    None => {
                        &&& *final(self) == *old(self)
                        &&& r matches RequestStep::Authenticate(p)
                        &&& Some(p.operation) == operation_of(http::path(request@))
                        &&& p.credential@ == http::presented_credential(
                            http::headers(request@),
                            MAX_SEGMENT as nat,
                        )
                        &&& p.proof@ == http::presented_proof(
                            http::headers(request@),
                            MAX_SEGMENT as nat,
                        )
                        &&& p.uri@ == http::path(request@)
                        &&& Some(p.now) == now
                    },
                }
            },
    {
        let frame = match read_frame(request) {
            Some(frame) => frame,
            None => {
                return RequestStep::Ignore;
            },
        };
        let (conn, stream) = (frame.conn, frame.stream);
        if !is_complete(request, &frame) {
            return RequestStep::Reply(
                json_reply(conn, stream, 400, "{\"error\":\"invalid_request\"}"),
            );
        }
        let path = path_of(request, &frame);
        let operation = if bytes_equal(path, "/e2ee/state/load".as_bytes()) {
            Operation::Load
        } else if bytes_equal(path, "/e2ee/state/commit".as_bytes()) {
            Operation::Commit
        } else {
            return RequestStep::Reply(json_reply(conn, stream, 404, "{\"error\":\"not_found\"}"));
        };
        if frame.method != METHOD_POST {
            return RequestStep::Reply(
                json_reply(conn, stream, 405, "{\"error\":\"invalid_request\"}"),
            );
        }
        if keyset_empty {
            return RequestStep::Reply(
                json_reply(conn, stream, 503, "{\"error\":\"temporarily_unavailable\"}"),
            );
        }
        let headers = headers_of(request, &frame);
        let credential = read_credential(headers, MAX_SEGMENT);
        let proof = read_proof(headers, MAX_SEGMENT);
        if credential.len() == 0 || proof.len() == 0 {
            count(&mut self.state_unauthenticated);
            return RequestStep::Reply(
                json_reply(conn, stream, 401, "{\"error\":\"invalid_client\"}"),
            );
        }
        match now {
            Some(now) => RequestStep::Authenticate(
                Presentation { operation, credential, proof, uri: slice_to_vec(path), now },
            ),
            None => {
                count(&mut self.state_unauthenticated);
                RequestStep::Reply(
                    json_reply(conn, stream, 503, "{\"error\":\"temporarily_unavailable\"}"),
                )
            },
        }
    }

    /// The certificate was checked: here are its claims, or there are none. The device is the one
    /// that the certificate names.
    pub fn authenticate(&mut self, request: &[u8], held: Option<&[u8]>) -> (r: Result<
        AuthenticatedDevice,
        Reply,
    >)
        requires
            old(self).wf(),
            request@.len() >= 12,
        ensures
            final(self).wf(),
            final(self).endpoints == old(self).endpoints,
            match r {
                Ok(device) => {
                    &&& held matches Some(c)
                    &&& claims::text_claim(c@, bytes::text("device_id")) matches Some(id)
                    &&& device.id@ == bytes::clipped(id, 96)
                    &&& *final(self) == *old(self)
                },
                Err(reply) => {
                    &&& held is None || claims::text_claim(
                        held->0@,
                        bytes::text("device_id"),
                    ) is None
                    &&& reply.answers(request@, 401, bytes::text("{\"error\":\"invalid_client\"}"))
                    &&& Self::turned_away(*old(self), *final(self), true)
                },
            },
    {
        let named = match held {
            Some(c) => claim_str(c, "device_id".as_bytes()),
            None => None,
        };
        match named {
            Some(id) => Ok(AuthenticatedDevice { id: copy_field(id, MAX_KEY) }),
            None => {
                count(&mut self.state_unauthenticated);
                let conn: u16 = http::read_u16(request, 0);
                let stream: u16 = http::read_u16(request, 2);
                Err(json_reply(conn, stream, 401, "{\"error\":\"invalid_client\"}"))
            },
        }
    }

    /// The endpoint for `key`.
    pub fn find(&self, key: &[u8]) -> (r: Option<usize>)
        ensures
            match r {
                Some(i) => found_from(self.endpoints@, key@, 0) == Some(i as int) && i
                    < self.endpoints@.len() && self.endpoints@[i as int].is_for(key@),
                None => found_from(self.endpoints@, key@, 0) is None && forall|j: int|
                    0 <= j < self.endpoints@.len() ==> !(#[trigger] self.endpoints@[j]).is_for(key@),
            },
    {
        let mut i: usize = 0;
        while i < self.endpoints.len()
            invariant
                i <= self.endpoints@.len(),
                found_from(self.endpoints@, key@, 0) == found_from(
                    self.endpoints@,
                    key@,
                    i as int,
                ),
                forall|j: int| 0 <= j < i ==> !(#[trigger] self.endpoints@[j]).is_for(key@),
            decreases self.endpoints@.len() - i,
        {
            if self.endpoints[i].live && bytes_equal(self.endpoints[i].key.as_slice(), key) {
                return Some(i);
            }
            i = i + 1;
        }
        None
    }

    /// The status and the body that a load is answered with.
    pub open spec fn load_answer(self, body: Seq<u8>, device: Seq<u8>) -> (u16, Seq<u8>) {
        let key = claims::short_claim(body, bytes::text("endpoint"), 96);
        let nothing = (200u16, bytes::text("{\"revision\":0,\"present\":false}"));
        if key.len() == 0 {
            (400, bytes::text("{\"error\":\"invalid_request\"}"))
        } else if !is_owner(device, key) {
            (403, bytes::text("{\"error\":\"forbidden\"}"))
        } else {
            match found_from(self.endpoints@, key, 0) {
                None => nothing,
                Some(i) => if self.endpoints@[i].poisoned {
                    (
                        409,
                        bytes::text(
                            "{\"error\":\"poisoned\",\"detail\":\"the endpoint is stopped and needs a person\"}",
                        ),
                    )
                } else if !self.endpoints@[i].has_state {
                    nothing
                } else {
                    (200, state_body(self.endpoints@[i]))
                },
            }
        }
    }

    /// What a load of `device` does: it is answered and counted, and changes no endpoint.
    pub open spec fn loaded(
        before: Self,
        after: Self,
        request: Seq<u8>,
        device: Seq<u8>,
        r: Reply,
    ) -> bool {
        let answer = before.load_answer(http::body(request), device);
        &&& after.endpoints == before.endpoints
        &&& r.answers(request, answer.0, answer.1)
        &&& after.state_not_owner == (if answer.0 == 403 {
            keys::counted(before.state_not_owner)
        } else {
            before.state_not_owner
        })
        &&& after.state_poisoned == (if answer.0 == 409 {
            keys::counted(before.state_poisoned)
        } else {
            before.state_poisoned
        })
        &&& after.state_loaded == (if answer.0 == 200 {
            keys::counted(before.state_loaded)
        } else {
            before.state_loaded
        })
        &&& (StateStore {
            state_not_owner: before.state_not_owner,
            state_poisoned: before.state_poisoned,
            state_loaded: before.state_loaded,
            ..after
        }).same_counters(before)
    }

    /// The current state, or nothing before the first commit.
    pub fn load(&mut self, request: &[u8], device: &AuthenticatedDevice) -> (r: Reply)
        requires
            old(self).wf(),
            http::complete(request@),
        ensures
            final(self).wf(),
            Self::loaded(*old(self), *final(self), request@, device.id@, r),
    {
        let frame = match read_frame(request) {
            Some(frame) => frame,
            None => {
                return json_reply(0, 0, 400, "{\"error\":\"invalid_request\"}");
            },
        };
        let (conn, stream) = (frame.conn, frame.stream);
        let body = body_of(request, &frame);
        let key = json_string(body, "endpoint".as_bytes(), MAX_KEY);
        if key.len() == 0 {
            return json_reply(conn, stream, 400, "{\"error\":\"invalid_request\"}");
        }
        if !device.owns(key.as_slice()) {
            count(&mut self.state_not_owner);
            return json_reply(conn, stream, 403, "{\"error\":\"forbidden\"}");
        }
        let index: usize = match self.find(key.as_slice()) {
            Some(index) => index,
            None => {
                count(&mut self.state_loaded);
                return json_reply(conn, stream, 200, "{\"revision\":0,\"present\":false}");
            },
        };
        if self.endpoints[index].poisoned {
            count(&mut self.state_poisoned);
            return json_reply(
                conn,
                stream,
                409,
                "{\"error\":\"poisoned\",\"detail\":\"the endpoint is stopped and needs a person\"}",
            );
        }
        if !self.endpoints[index].has_state {
            count(&mut self.state_loaded);
            return json_reply(conn, stream, 200, "{\"revision\":0,\"present\":false}");
        }
        let text = write_state(&self.endpoints[index]);
        count(&mut self.state_loaded);
        json_reply_with(conn, stream, 200, text)
    }

    /// The verdict on an offer of `device`.
    pub open spec fn verdict(self, o: Offer, device: Seq<u8>) -> Verdict {
        if !well_made(o) {
            Verdict::Invalid
        } else if !is_owner(device, o.key) {
            Verdict::Forbidden
        } else {
            match found_from(self.endpoints@, o.key, 0) {
                Some(i) => {
                    let held = self.endpoints@[i];
                    if held.poisoned {
                        Verdict::Poisoned
                    } else if o.expected != held.revision {
                        Verdict::Superseded
                    } else if held.has_state && !offered(o).ahead_of(held.marker) {
                        if offered(o) == held.marker {
                            Verdict::NotAdvancing
                        } else {
                            Verdict::RolledBack
                        }
                    } else {
                        Verdict::Committed
                    }
                },
                None => if o.expected != 0 {
                    Verdict::Superseded
                } else if forall|j: int| 0 <= j < 16 ==> (#[trigger] self.endpoints@[j]).live {
                    Verdict::Full
                } else {
                    Verdict::Committed
                },
            }
        }
    }

    /// The revision that an offer is held against.
    pub open spec fn held_revision(self, key: Seq<u8>) -> u64 {
        match found_from(self.endpoints@, key, 0) {
            Some(i) => self.endpoints@[i].revision,
            None => 0,
        }
    }

    /// Where the state of `key` goes: to the endpoint that it has, or to the first free one.
    pub open spec fn place_for(self, key: Seq<u8>, i: int) -> bool {
        match found_from(self.endpoints@, key, 0) {
            Some(k) => i == k,
            None => 0 <= i < 16 && !self.endpoints@[i].live && forall|j: int|
                0 <= j < i ==> (#[trigger] self.endpoints@[j]).live,
        }
    }

    /// The status and the body that a verdict is answered with.
    pub open spec fn commit_answer(self, o: Offer, v: Verdict) -> (u16, Seq<u8>) {
        match v {
            Verdict::Invalid => (400, bytes::text("{\"error\":\"invalid_request\"}")),
            Verdict::Forbidden => (403, bytes::text("{\"error\":\"forbidden\"}")),
            Verdict::Poisoned => (409, bytes::text("{\"error\":\"poisoned\"}")),
            Verdict::Superseded => (
                409,
                bytes::text("{\"error\":\"superseded\",\"found\":") + bytes::decimal(
                    self.held_revision(o.key) as nat,
                ) + bytes::text("}"),
            ),
            Verdict::NotAdvancing => (409, bytes::text("{\"error\":\"not_advancing\"}")),
            Verdict::RolledBack => (409, bytes::text("{\"error\":\"rolled_back\"}")),
            Verdict::Full => (503, bytes::text("{\"error\":\"temporarily_unavailable\"}")),
            Verdict::Committed => (
                200,
                bytes::text("{\"committed\":true,\"revision\":") + bytes::decimal(
                    next_revision(self.held_revision(o.key)) as nat,
                ) + bytes::text("}"),
            ),
        }
    }

    /// What a commit does to the endpoints: a valid one takes its place, a backward one stops its
    /// endpoint, and any other changes nothing.
    pub open spec fn committed(before: Self, after: Self, o: Offer, v: Verdict) -> bool {
        match v {
            Verdict::Committed => exists|i: int|
                #![trigger after.endpoints@[i]]
                {
                    &&& 0 <= i < 16
                    &&& before.place_for(o.key, i)
                    &&& after.endpoints@[i].live
                    &&& after.endpoints@[i].key@ == o.key
                    &&& after.endpoints@[i].marker == offered(o)
                    &&& after.endpoints@[i].revision == next_revision(before.held_revision(o.key))
                    &&& after.endpoints@[i].payload@ == o.payload
                    &&& after.endpoints@[i].has_state
                    &&& !after.endpoints@[i].poisoned
                    &&& forall|j: int|
                        0 <= j < 16 && j != i ==> #[trigger] after.endpoints@[j]
                            == before.endpoints@[j]
                },
            Verdict::RolledBack => {
                let i = found_from(before.endpoints@, o.key, 0)->0;
                after.endpoints@ == before.endpoints@.update(
                    i,
                    Endpoint { poisoned: true, ..before.endpoints@[i] },
                )
            },
            _ => after.endpoints == before.endpoints,
        }
    }

    /// The counter of a verdict.
    pub open spec fn commit_counted(before: Self, after: Self, v: Verdict) -> bool {
        let counted = match v {
            Verdict::Invalid => before,
            Verdict::Forbidden => StateStore {
                state_not_owner: keys::counted(before.state_not_owner),
                ..before
            },
            Verdict::Poisoned => StateStore {
                state_poisoned: keys::counted(before.state_poisoned),
                ..before
            },
            Verdict::Superseded => StateStore {
                state_superseded: keys::counted(before.state_superseded),
                ..before
            },
            Verdict::NotAdvancing => StateStore {
                state_not_advancing: keys::counted(before.state_not_advancing),
                ..before
            },
            Verdict::RolledBack => StateStore {
                state_rolled_back: keys::counted(before.state_rolled_back),
                ..before
            },
            Verdict::Full => StateStore {
                state_table_full: keys::counted(before.state_table_full),
                ..before
            },
            Verdict::Committed => StateStore {
                state_committed: keys::counted(before.state_committed),
                ..before
            },
        };
        after.same_counters(counted)
    }

    /// What a commit of `device` does: its offer is judged, and the verdict is answered, counted
    /// and carried out.
    pub open spec fn answered(
        before: Self,
        after: Self,
        request: Seq<u8>,
        device: Seq<u8>,
        r: Reply,
    ) -> bool {
        let o = offer(http::body(request));
        let v = before.verdict(o, device);
        let answer = before.commit_answer(o, v);
        &&& r.answers(request, answer.0, answer.1)
        &&& Self::committed(before, after, o, v)
        &&& Self::commit_counted(before, after, v)
    }

    fn vacancy(&self) -> (r: Option<usize>)
        ensures
            match r {
                Some(i) => i < self.endpoints@.len() && !self.endpoints@[i as int].live
                    && forall|j: int| 0 <= j < i ==> (#[trigger] self.endpoints@[j]).live,
                None => forall|j: int|
                    0 <= j < self.endpoints@.len() ==> (#[trigger] self.endpoints@[j]).live,
            },
    {
        let mut i: usize = 0;
        while i < self.endpoints.len()
            invariant
                i <= self.endpoints@.len(),
                forall|j: int| 0 <= j < i ==> (#[trigger] self.endpoints@[j]).live,
            decreases self.endpoints@.len() - i,
        {
            if !self.endpoints[i].live {
                return Some(i);
            }
            i = i + 1;
        }
        None
    }

    /// Advance the state, conditionally. Nothing is allocated before the commit has been shown to
    /// be valid, so that invalid ones cannot use the table up.
    pub fn commit(&mut self, request: &[u8], device: &AuthenticatedDevice) -> (r: Reply)
        requires
            old(self).wf(),
            http::complete(request@),
        ensures
            final(self).wf(),
            Self::answered(*old(self), *final(self), request@, device.id@, r),
    {
        let frame = match read_frame(request) {
            Some(frame) => frame,
            None => {
                return json_reply(0, 0, 400, "{\"error\":\"invalid_request\"}");
            },
        };
        let (conn, stream) = (frame.conn, frame.stream);
        let body = body_of(request, &frame);
        let key = json_string(body, "endpoint".as_bytes(), MAX_KEY);
        let encoded = json_string(body, "payload".as_bytes(), MAX_PAYLOAD * 2);
        let payload = base64::decode_or_empty(encoded.as_slice(), MAX_PAYLOAD);
        let expected: u64 = claim_number_or(body, "expected_revision".as_bytes(), u64::MAX);
        let epoch: u64 = claim_number_or(body, "epoch".as_bytes(), 0);
        let generation: u64 = claim_number_or(body, "generation".as_bytes(), 0);
        let ghost o = offer(http::body(request@));
        if generation > 4294967295 || key.len() == 0 || payload.len() == 0 || expected == u64::MAX {
            return json_reply(conn, stream, 400, "{\"error\":\"invalid_request\"}");
        }
        let position = Marker { epoch, generation: generation as u32 };
        if !device.owns(key.as_slice()) {
            count(&mut self.state_not_owner);
            return json_reply(conn, stream, 403, "{\"error\":\"forbidden\"}");
        }
        let existing = self.find(key.as_slice());
        let (index, revision): (usize, u64) = match existing {
            Some(index) => {
                if self.endpoints[index].poisoned {
                    count(&mut self.state_poisoned);
                    return json_reply(conn, stream, 409, "{\"error\":\"poisoned\"}");
                }
                let revision: u64 = self.endpoints[index].revision;
                if expected != revision {
                    count(&mut self.state_superseded);
                    return superseded(conn, stream, revision);
                }
                let marker = self.endpoints[index].marker;
                if self.endpoints[index].has_state && !position.advances_on(marker) {
                    if position == marker {
                        count(&mut self.state_not_advancing);
                        return json_reply(conn, stream, 409, "{\"error\":\"not_advancing\"}");
                    }
                    self.poison(index);
                    count(&mut self.state_rolled_back);
                    return json_reply(conn, stream, 409, "{\"error\":\"rolled_back\"}");
                }
                (index, revision)
            },
            None => {
                if expected != 0 {
                    count(&mut self.state_superseded);
                    return superseded(conn, stream, 0);
                }
                match self.vacancy() {
                    Some(free) => (free, 0),
                    None => {
                        count(&mut self.state_table_full);
                        return json_reply(
                            conn,
                            stream,
                            503,
                            "{\"error\":\"temporarily_unavailable\"}",
                        );
                    },
                }
            },
        };
        let next: u64 = revision.saturating_add(1);
        let ghost before = self.endpoints@;
        proof {
            lemma_found_from(before, key@, 0);
        }
        self.endpoints[index] = Endpoint {
            key,
            marker: position,
            revision: next,
            payload,
            has_state: true,
            poisoned: false,
            live: true,
        };
        proof {
            assert(self.endpoints@[index as int].live);
            assert forall|i: int, j: int|
                0 <= i < j < 16 && (#[trigger] self.endpoints@[i]).live && (
                #[trigger] self.endpoints@[j]).live implies self.endpoints@[i].key@
                != self.endpoints@[j].key@ by {
                lemma_only_place(before, o.key, index as int);
            }
        }
        count(&mut self.state_committed);
        let mut text: Vec<u8> = Vec::new();
        append(&mut text, "{\"committed\":true,\"revision\":".as_bytes());
        assert(text@ =~= bytes::text("{\"committed\":true,\"revision\":"));
        let digits = u64_dec(next);
        append(&mut text, digits.as_slice());
        append(&mut text, "}".as_bytes());
        proof {
            assert(Self::committed(*old(self), *self, o, Verdict::Committed)) by {
                assert(self.endpoints@[index as int].live);
            }
        }
        json_reply_with(conn, stream, 200, text)
    }

    /// What a request does, and what it is answered with: a refusal, or what it asks for on behalf
    /// of the device that its certificate names.
    pub open spec fn served(
        before: Self,
        after: Self,
        request: Seq<u8>,
        keys: Verifier,
        window: ReplayWindow,
        now: Option<u64>,
        r: Option<Reply>,
    ) -> bool {
        if request.len() < 12 {
            r is None && after == before
        } else {
            &&& r matches Some(reply)
            &&& match request_refusal(request, !keys.any_live(), now) {
                Some(why) => {
                    &&& reply.answers(request, why.0, bytes::text(why.1))
                    &&& Self::turned_away(before, after, why.2)
                },
                None => match named_device(request, keys, window, now->0) {
                    None => {
                        &&& reply.answers(
                            request,
                            401,
                            bytes::text("{\"error\":\"invalid_client\"}"),
                        )
                        &&& Self::turned_away(before, after, true)
                    },
                    Some(device) => match operation_of(http::path(request))->0 {
                        Operation::Load => Self::loaded(before, after, request, device, reply),
                        Operation::Commit => Self::answered(before, after, request, device, reply),
                    },
                },
            }
        }
    }

    /// Serve a request: check it, authenticate the device that makes it, and load or commit the
    /// state that it names. Nothing is answered to what is too short to name a connection.
    pub fn serve(
        &mut self,
        request: &[u8],
        keys: &Verifier,
        window: &mut ReplayWindow,
        now: Option<u64>,
    ) -> (r: Option<Reply>)
        requires
            old(self).wf(),
            old(window).wf(),
            now matches Some(t) ==> t + 300 <= u64::MAX,
        ensures
            final(self).wf(),
            final(window).wf(),
            Self::served(*old(self), *final(self), request@, *keys, *old(window), now, r),
            match request_refusal(request@, !keys.any_live(), now) {
                Some(_) => *final(window) == *old(window),
                None => exists|outcome: Result<Held, AuthError>| #[trigger]
                    device_auth::authenticated(
                        device_auth::named_key(keys.keys@, presented(request@).credential, now->0),
                        *old(window),
                        *final(window),
                        presented(request@),
                        device_auth::certificate_policy(),
                        now->0,
                        outcome,
                    ),
            },
    {
        let keyless = !keys.holds_any();
        let p = match self.handle_request(request, keyless, now) {
            RequestStep::Ignore => {
                return None;
            },
            RequestStep::Reply(reply) => {
                return Some(reply);
            },
            RequestStep::Authenticate(p) => p,
        };
        let outcome = p.check(keys, window);
        proof {
            assert(p.shown() == presented(request@));
            device_auth::a_check_answers_what_was_shown(
                device_auth::named_key(keys.keys@, p.credential@, p.now),
                *old(window),
                *window,
                p.shown(),
                device_auth::certificate_policy(),
                p.now,
                outcome,
            );
        }
        let shown: Option<&[u8]> = match &outcome {
            Ok(held) => Some(held.claims.as_slice()),
            Err(_) => None,
        };
        match self.authenticate(request, shown) {
            Err(reply) => Some(reply),
            Ok(device) => match p.operation {
                Operation::Load => Some(self.load(request, &device)),
                Operation::Commit => Some(self.commit(request, &device)),
            },
        }
    }

    fn poison(&mut self, index: usize)
        requires
            old(self).wf(),
            index < 16,
        ensures
            final(self).wf(),
            final(self).endpoints@ == old(self).endpoints@.update(
                index as int,
                Endpoint { poisoned: true, ..old(self).endpoints@[index as int] },
            ),
            final(self).same_counters(*old(self)),
    {
        let ghost before = self.endpoints@;
        let mut held = Endpoint::empty();
        core::mem::swap(&mut held, &mut self.endpoints[index]);
        self.endpoints[index] = Endpoint { poisoned: true, ..held };
        proof {
            assert(self.endpoints@ =~= before.update(
                index as int,
                Endpoint { poisoned: true, ..before[index as int] },
            ));
            assert forall|i: int| 0 <= i < 16 implies (#[trigger] self.endpoints@[i]).payload@.len()
                <= 1024 by {
                assert(before[i].payload@.len() <= 1024);
            }
            assert forall|i: int, j: int|
                0 <= i < j < 16 && (#[trigger] self.endpoints@[i]).live && (
                #[trigger] self.endpoints@[j]).live implies self.endpoints@[i].key@
                != self.endpoints@[j].key@ by {
                assert(before[i].live && before[j].live);
            }
        }
    }
}

/// The revision after `n`.
pub open spec fn next_revision(n: u64) -> u64 {
    if n == u64::MAX {
        n
    } else {
        (n + 1) as u64
    }
}

fn superseded(conn: u16, stream: u16, revision: u64) -> (r: Reply)
    ensures
        r.is(
            conn as nat,
            stream as nat,
            409,
            bytes::text("{\"error\":\"superseded\",\"found\":") + bytes::decimal(revision as nat)
                + bytes::text("}"),
        ),
{
    let mut text: Vec<u8> = Vec::new();
    append(&mut text, "{\"error\":\"superseded\",\"found\":".as_bytes());
    assert(text@ =~= bytes::text("{\"error\":\"superseded\",\"found\":"));
    let digits = u64_dec(revision);
    append(&mut text, digits.as_slice());
    append(&mut text, "}".as_bytes());
    json_reply_with(conn, stream, 409, text)
}

fn write_state(e: &Endpoint) -> (r: Vec<u8>)
    ensures
        r@ == state_body(*e),
{
    let mut text: Vec<u8> = Vec::new();
    append(&mut text, "{\"epoch\":".as_bytes());
    assert(text@ =~= bytes::text("{\"epoch\":"));
    let epoch = u64_dec(e.marker.epoch);
    append(&mut text, epoch.as_slice());
    append(&mut text, ",\"generation\":".as_bytes());
    let generation = u64_dec(e.marker.generation as u64);
    append(&mut text, generation.as_slice());
    append(&mut text, ",\"payload\":\"".as_bytes());
    let payload = base64::encode(e.payload.as_slice());
    append(&mut text, payload.as_slice());
    append(&mut text, "\",\"present\":true,\"revision\":".as_bytes());
    let revision = u64_dec(e.revision);
    append(&mut text, revision.as_slice());
    append(&mut text, "}".as_bytes());
    text
}

proof fn lemma_found_from(endpoints: Seq<Endpoint>, key: Seq<u8>, i: int)
    requires
        0 <= i <= endpoints.len(),
    ensures
        match found_from(endpoints, key, i) {
            Some(k) => i <= k < endpoints.len() && endpoints[k].is_for(key),
            None => forall|j: int| i <= j < endpoints.len() ==> !(#[trigger] endpoints[j]).is_for(key),
        },
    decreases endpoints.len() - i,
{
    if i < endpoints.len() {
        lemma_found_from(endpoints, key, i + 1);
    }
}

/// No endpoint but the one in the place of `key` is for `key`.
proof fn lemma_only_place(endpoints: Seq<Endpoint>, key: Seq<u8>, i: int)
    requires
        endpoints.len() == 16,
        keys_differ(endpoints),
        0 <= i < 16,
        match found_from(endpoints, key, 0) {
            Some(k) => i == k,
            None => !endpoints[i].live,
        },
    ensures
        forall|j: int| 0 <= j < 16 && j != i ==> !(#[trigger] endpoints[j]).is_for(key),
{
    lemma_found_from(endpoints, key, 0);
    assert forall|j: int| 0 <= j < 16 && j != i implies !(#[trigger] endpoints[j]).is_for(key) by {
        if endpoints[j].is_for(key) && found_from(endpoints, key, 0) is Some {
            if i < j {
                assert(endpoints[i].key@ != endpoints[j].key@);
            } else {
                assert(endpoints[j].key@ != endpoints[i].key@);
            }
        }
    }
}

/// An endpoint that holds state stays, and no commit moves it back: its marker stays or advances,
/// its revision does not fall, and what stopped stays stopped.
pub proof fn state_only_advances(before: StateStore, after: StateStore, o: Offer, device: Seq<u8>, i: int)
    requires
        before.wf(),
        after.wf(),
        StateStore::committed(before, after, o, before.verdict(o, device)),
        0 <= i < 16,
        before.endpoints@[i].live,
    ensures
        after.endpoints@[i].live,
        after.endpoints@[i].key@ == before.endpoints@[i].key@,
        before.endpoints@[i].has_state ==> after.endpoints@[i].has_state && (
        after.endpoints@[i].marker == before.endpoints@[i].marker
            || after.endpoints@[i].marker.ahead_of(before.endpoints@[i].marker)),
        after.endpoints@[i].revision >= before.endpoints@[i].revision,
        before.endpoints@[i].poisoned ==> after.endpoints@[i] == before.endpoints@[i],
{
    lemma_found_from(before.endpoints@, o.key, 0);
    if before.verdict(o, device) == Verdict::Committed {
        let k = choose|k: int|
            #![trigger after.endpoints@[k]]
            {
                &&& 0 <= k < 16
                &&& before.place_for(o.key, k)
                &&& after.endpoints@[k].live
                &&& after.endpoints@[k].key@ == o.key
                &&& after.endpoints@[k].marker == offered(o)
                &&& after.endpoints@[k].revision == next_revision(before.held_revision(o.key))
                &&& after.endpoints@[k].payload@ == o.payload
                &&& after.endpoints@[k].has_state
                &&& !after.endpoints@[k].poisoned
                &&& forall|j: int|
                    0 <= j < 16 && j != k ==> #[trigger] after.endpoints@[j]
                        == before.endpoints@[j]
            };
        assert(after.endpoints@[k].live);
        assert(i != k ==> after.endpoints@[i] == before.endpoints@[i]);
    }
}

/// A commit that quotes the current revision and offers an earlier position stops its endpoint,
/// which answers the load and the commit that follow with a refusal, whatever they say.
pub proof fn a_backward_commit_stops(
    before: StateStore,
    after: StateStore,
    o: Offer,
    device: Seq<u8>,
    later: Offer,
    body: Seq<u8>,
)
    requires
        before.wf(),
        after.wf(),
        before.verdict(o, device) == Verdict::RolledBack,
        StateStore::committed(before, after, o, Verdict::RolledBack),
        well_made(later),
        later.key == o.key,
        claims::short_claim(body, bytes::text("endpoint"), 96) == o.key,
    ensures
        after.verdict(later, device) == Verdict::Poisoned,
        after.load_answer(body, device).0 == 409,
{
    let i = found_from(before.endpoints@, o.key, 0)->0;
    lemma_found_from(before.endpoints@, o.key, 0);
    lemma_only_place(before.endpoints@, o.key, i);
    lemma_found_from(after.endpoints@, o.key, 0);
    assert(after.endpoints@[i].is_for(o.key));
    let k = found_from(after.endpoints@, o.key, 0)->0;
    assert(k == i) by {
        if k != i {
            assert(!before.endpoints@[k].is_for(o.key));
        }
    }
}

/// An endpoint is out of reach of every device but its owner: nothing that another one commits
/// changes it or stops it, and a load by another one is refused.
pub proof fn out_of_reach_of_others(
    before: StateStore,
    after: StateStore,
    o: Offer,
    device: Seq<u8>,
    i: int,
    body: Seq<u8>,
)
    requires
        before.wf(),
        after.wf(),
        StateStore::committed(before, after, o, before.verdict(o, device)),
        0 <= i < 16,
        before.endpoints@[i].live,
        !is_owner(device, before.endpoints@[i].key@),
        before.endpoints@[i].key@.len() > 0,
        claims::short_claim(body, bytes::text("endpoint"), 96) == before.endpoints@[i].key@,
    ensures
        after.endpoints@[i] == before.endpoints@[i],
        before.load_answer(body, device).0 == 403,
{
    lemma_found_from(before.endpoints@, o.key, 0);
    if before.verdict(o, device) == Verdict::Committed {
        assert(is_owner(device, o.key));
    }
}

/// What was committed is what the next load of the endpoint answers.
pub proof fn committed_is_loaded(
    before: StateStore,
    after: StateStore,
    o: Offer,
    device: Seq<u8>,
    body: Seq<u8>,
)
    requires
        before.wf(),
        after.wf(),
        before.verdict(o, device) == Verdict::Committed,
        StateStore::committed(before, after, o, Verdict::Committed),
        claims::short_claim(body, bytes::text("endpoint"), 96) == o.key,
    ensures
        ({
            let answer = after.load_answer(body, device);
            let next = next_revision(before.held_revision(o.key));
            &&& answer.0 == 200
            &&& answer.1 == bytes::text("{\"epoch\":") + bytes::decimal(o.epoch as nat)
                + bytes::text(",\"generation\":") + bytes::decimal(o.generation as nat)
                + bytes::text(",\"payload\":\"") + base64::encoded(o.payload) + bytes::text(
                "\",\"present\":true,\"revision\":",
            ) + bytes::decimal(next as nat) + bytes::text("}")
        }),
{
    let k = choose|k: int|
        #![trigger after.endpoints@[k]]
        {
            &&& 0 <= k < 16
            &&& before.place_for(o.key, k)
            &&& after.endpoints@[k].live
            &&& after.endpoints@[k].key@ == o.key
            &&& after.endpoints@[k].marker == offered(o)
            &&& after.endpoints@[k].revision == next_revision(before.held_revision(o.key))
            &&& after.endpoints@[k].payload@ == o.payload
            &&& after.endpoints@[k].has_state
            &&& !after.endpoints@[k].poisoned
            &&& forall|j: int|
                0 <= j < 16 && j != k ==> #[trigger] after.endpoints@[j] == before.endpoints@[j]
        };
    assert(after.endpoints@[k].live);
    lemma_found_from(after.endpoints@, o.key, 0);
    let f = found_from(after.endpoints@, o.key, 0)->0;
    assert(f == k) by {
        assert(after.endpoints@[k].is_for(o.key));
        if f < k {
            assert(after.endpoints@[f].key@ != after.endpoints@[k].key@);
        } else if f > k {
            assert(after.endpoints@[k].key@ != after.endpoints@[f].key@);
        }
    }
    assert((o.generation as u32) as nat == o.generation as nat);
}

/// No request moves an endpoint back, whatever it says and whoever makes it.
pub proof fn requests_only_advance_state(
    before: StateStore,
    after: StateStore,
    request: Seq<u8>,
    keys: Verifier,
    window: ReplayWindow,
    now: Option<u64>,
    r: Option<Reply>,
    i: int,
)
    requires
        before.wf(),
        after.wf(),
        StateStore::served(before, after, request, keys, window, now, r),
        0 <= i < 16,
        before.endpoints@[i].live,
    ensures
        after.endpoints@[i].live,
        after.endpoints@[i].key@ == before.endpoints@[i].key@,
        before.endpoints@[i].has_state ==> after.endpoints@[i].has_state && (
        after.endpoints@[i].marker == before.endpoints@[i].marker
            || after.endpoints@[i].marker.ahead_of(before.endpoints@[i].marker)),
        after.endpoints@[i].revision >= before.endpoints@[i].revision,
        before.endpoints@[i].poisoned ==> after.endpoints@[i] == before.endpoints@[i],
{
    if after.endpoints != before.endpoints {
        let device = named_device(request, keys, window, now->0)->0;
        state_only_advances(before, after, offer(http::body(request)), device, i);
    }
}

/// Only a request that authenticates a device changes anything, and only what that device owns.
pub proof fn a_request_reaches_its_own_device(
    before: StateStore,
    after: StateStore,
    request: Seq<u8>,
    keys: Verifier,
    window: ReplayWindow,
    now: Option<u64>,
    r: Option<Reply>,
    i: int,
)
    requires
        before.wf(),
        after.wf(),
        StateStore::served(before, after, request, keys, window, now, r),
        0 <= i < 16,
        after.endpoints@[i] != before.endpoints@[i],
    ensures
        request_refusal(request, !keys.any_live(), now) is None,
        operation_of(http::path(request)) == Some(Operation::Commit),
        named_device(request, keys, window, now->0) matches Some(device) && is_owner(
            device,
            after.endpoints@[i].key@,
        ),
{
    lemma_found_from(before.endpoints@, offer(http::body(request)).key, 0);
}

/// The state of an endpoint reads back from the body that it is loaded in.
#[verifier::rlimit(60)]
pub proof fn a_loaded_state_reads_back(e: Endpoint)
    ensures
        claims::number_claim(state_body(e), bytes::text("epoch")) == Some(e.marker.epoch),
        claims::number_claim(state_body(e), bytes::text("generation")) == Some(
            e.marker.generation as u64,
        ),
        claims::text_claim(state_body(e), bytes::text("payload")) == Some(
            base64::encoded(e.payload@),
        ),
        claims::number_claim(state_body(e), bytes::text("revision")) == Some(e.revision),
{
    let members = seq![
        (bytes::text("epoch"), claims::Value::Number(e.marker.epoch as nat)),
        (bytes::text("generation"), claims::Value::Number(e.marker.generation as nat)),
        (bytes::text("payload"), claims::Value::Text(base64::encoded(e.payload@))),
        (bytes::text("present"), claims::Value::Flag(true)),
        (bytes::text("revision"), claims::Value::Number(e.revision as nat)),
    ];
    lemma_state_names();
    base64::lemma_sextets(e.payload@);
    assert(claims::record_safe(base64::encoded(e.payload@)));
    assert(claims::readable(members));
    assert(state_body(e) == claims::record_bytes(members)) by {
        lemma_state_text();
        assert(members.skip(1).skip(1).skip(1) =~= seq![members[3], members[4]]);
        assert(members.skip(1).skip(1).skip(1).skip(1) =~= seq![members[4]]);
        reveal_with_fuel(claims::members_bytes, 6);
        assert(state_body(e) =~= claims::record_bytes(members));
    }
    claims::number_reads_back(members, 0);
    claims::number_reads_back(members, 1);
    claims::text_reads_back(members, 2);
    claims::number_reads_back(members, 4);
}

proof fn lemma_state_names()
    ensures
        bytes::text("epoch") == seq![101u8, 112, 111, 99, 104],
        bytes::text("generation") == seq![103u8, 101, 110, 101, 114, 97, 116, 105, 111, 110],
        bytes::text("payload") == seq![112u8, 97, 121, 108, 111, 97, 100],
        bytes::text("present") == seq![112u8, 114, 101, 115, 101, 110, 116],
        bytes::text("revision") == seq![114u8, 101, 118, 105, 115, 105, 111, 110],
{
    reveal_strlit("epoch");
    reveal_strlit("generation");
    reveal_strlit("payload");
    reveal_strlit("present");
    reveal_strlit("revision");
    assert("epoch".is_ascii() && "generation".is_ascii() && "payload".is_ascii());
    assert("present".is_ascii() && "revision".is_ascii());
    assert(bytes::text("epoch") =~= seq![101u8, 112, 111, 99, 104]);
    assert(bytes::text("generation") =~= seq![103u8, 101, 110, 101, 114, 97, 116, 105, 111, 110]);
    assert(bytes::text("payload") =~= seq![112u8, 97, 121, 108, 111, 97, 100]);
    assert(bytes::text("present") =~= seq![112u8, 114, 101, 115, 101, 110, 116]);
    assert(bytes::text("revision") =~= seq![114u8, 101, 118, 105, 115, 105, 111, 110]);
}

proof fn lemma_state_text()
    ensures
        bytes::text("{\"epoch\":") == seq![123u8] + claims::member_name(bytes::text("epoch")),
        bytes::text(",\"generation\":") == seq![44u8] + claims::member_name(
            bytes::text("generation"),
        ),
        bytes::text(",\"payload\":\"") == seq![44u8] + claims::member_name(
            bytes::text("payload"),
        ) + seq![34u8],
        bytes::text("\",\"present\":true,\"revision\":") == seq![34u8, 44u8]
            + claims::member_name(bytes::text("present")) + seq![116u8, 114, 117, 101, 44]
            + claims::member_name(bytes::text("revision")),
        bytes::text("}") == seq![125u8],
{
    lemma_state_names();
    reveal_strlit("{\"epoch\":");
    reveal_strlit(",\"generation\":");
    reveal_strlit(",\"payload\":\"");
    reveal_strlit("\",\"present\":true,\"revision\":");
    reveal_strlit("}");
    assert("{\"epoch\":".is_ascii() && ",\"generation\":".is_ascii());
    assert(",\"payload\":\"".is_ascii() && "}".is_ascii());
    assert("\",\"present\":true,\"revision\":".is_ascii());
    assert(bytes::text("{\"epoch\":") =~= seq![123u8] + claims::member_name(bytes::text("epoch")));
    assert(bytes::text(",\"generation\":") =~= seq![44u8] + claims::member_name(
        bytes::text("generation"),
    ));
    assert(bytes::text(",\"payload\":\"") =~= seq![44u8] + claims::member_name(
        bytes::text("payload"),
    ) + seq![34u8]);
    assert(bytes::text("\",\"present\":true,\"revision\":") =~= seq![34u8, 44u8]
        + claims::member_name(bytes::text("present")) + seq![116u8, 114, 117, 101, 44]
        + claims::member_name(bytes::text("revision")));
    assert(bytes::text("}") =~= seq![125u8]);
}

/// A commit that is answered with success was made by the owner, quoted the revision that is held,
/// and moved the position ahead; and what is held from then on is what its body said, one revision
/// further.
pub proof fn what_was_committed_is_held(
    before: StateStore,
    after: StateStore,
    request: Seq<u8>,
    device: Seq<u8>,
    r: Reply,
    key: Seq<u8>,
    payload: Seq<u8>,
    epoch: u64,
    generation: u64,
) -> (i: int)
    requires
        before.wf(),
        after.wf(),
        StateStore::answered(before, after, request, device, r),
        r.status == 200,
        claims::text_claim(http::body(request), bytes::text("endpoint")) == Some(key),
        key.len() <= 96,
        claims::text_claim(http::body(request), bytes::text("payload")) == Some(
            base64::encoded(payload),
        ),
        payload.len() <= 1024,
        claims::number_claim(http::body(request), bytes::text("epoch")) == Some(epoch),
        claims::number_claim(http::body(request), bytes::text("generation")) == Some(generation),
    ensures
        0 <= i < 16,
        device.is_prefix_of(key),
        after.endpoints@[i].live,
        after.endpoints@[i].has_state,
        after.endpoints@[i].key@ == key,
        after.endpoints@[i].payload@ == payload,
        after.endpoints@[i].marker.epoch == epoch,
        after.endpoints@[i].marker.generation == generation,
        forall|j: int| 0 <= j < 16 && j != i ==> #[trigger] after.endpoints@[j] == before.endpoints@[j],
        ({
            let expected = claims::number_claim(
                http::body(request),
                bytes::text("expected_revision"),
            );
            let old = before.endpoints@[i];
            if old.live {
                &&& old.key@ == key
                &&& !old.poisoned
                &&& expected == Some(old.revision)
                &&& old.revision < u64::MAX ==> after.endpoints@[i].revision == old.revision + 1
                &&& old.has_state ==> epoch > old.marker.epoch || epoch == old.marker.epoch
                    && generation > old.marker.generation
            } else {
                expected == Some(0u64) && after.endpoints@[i].revision == 1
            }
        }),
{
    let o = offer(http::body(request));
    base64::encoding_length(payload);
    base64::encoded_decodes(payload, 1024);
    lemma_found_from(before.endpoints@, key, 0);
    assert(before.verdict(o, device) == Verdict::Committed);
    let i = choose|i: int|
        #![trigger after.endpoints@[i]]
        {
            &&& 0 <= i < 16
            &&& before.place_for(o.key, i)
            &&& after.endpoints@[i].live
            &&& after.endpoints@[i].key@ == o.key
            &&& after.endpoints@[i].marker == offered(o)
            &&& after.endpoints@[i].revision == next_revision(before.held_revision(o.key))
            &&& after.endpoints@[i].payload@ == o.payload
            &&& after.endpoints@[i].has_state
            &&& !after.endpoints@[i].poisoned
            &&& forall|j: int|
                0 <= j < 16 && j != i ==> #[trigger] after.endpoints@[j] == before.endpoints@[j]
        };
    assert(is_owner(device, key) <==> device.is_prefix_of(key));
    i
}

/// A load answers the owner alone, and with the state of the endpoint that it names.
pub proof fn a_load_answers_the_owner(
    store: StateStore,
    body: Seq<u8>,
    device: Seq<u8>,
    key: Seq<u8>,
    i: int,
)
    requires
        store.wf(),
        claims::text_claim(body, bytes::text("endpoint")) == Some(key),
        0 < key.len() <= 96,
        0 <= i < 16,
        store.endpoints@[i].live,
        store.endpoints@[i].key@ == key,
    ensures
        ({
            let answer = store.load_answer(body, device);
            let e = store.endpoints@[i];
            &&& answer.0 == 403 <==> !device.is_prefix_of(key)
            &&& device.is_prefix_of(key) && e.poisoned ==> answer.0 == 409
            &&& device.is_prefix_of(key) && !e.poisoned ==> answer.0 == 200
            &&& device.is_prefix_of(key) && !e.poisoned && e.has_state ==> {
                &&& claims::text_claim(answer.1, bytes::text("payload")) == Some(
                    base64::encoded(e.payload@),
                )
                &&& claims::number_claim(answer.1, bytes::text("revision")) == Some(e.revision)
                &&& claims::number_claim(answer.1, bytes::text("epoch")) == Some(e.marker.epoch)
                &&& claims::number_claim(answer.1, bytes::text("generation")) == Some(
                    e.marker.generation as u64,
                )
            }
        }),
{
    let e = store.endpoints@[i];
    lemma_found_from(store.endpoints@, key, 0);
    assert(e.is_for(key));
    let k = found_from(store.endpoints@, key, 0)->0;
    assert(store.endpoints@[k].is_for(key));
    assert(k == i);
    a_loaded_state_reads_back(e);
    assert(is_owner(device, key) <==> device.is_prefix_of(key));
}

} // verus!
