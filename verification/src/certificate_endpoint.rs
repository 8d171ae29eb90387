//! The certificate authority: which certificate is issued, to which key and under which name.
use vstd::prelude::*;
use vstd::slice::slice_subrange;

use crate::base64;
use crate::bytes;
use crate::bytes::{bytes_equal, copy_field, put};
use crate::claims;
use crate::claims::json_string;
use crate::crypto;
use crate::http;
use crate::http::{json_reply, json_reply_with, Reply};
use crate::keys;
use crate::keys::{count, KeyRecord, KeyState, KeyUse, Suite};

verus! {

/// How long an issued certificate is valid, in seconds.
pub const CERTIFICATE_TTL_SECS: u64 = 2_592_000;

/// How long the authority's own certificate is valid.
pub const CA_TTL_SECS: u64 = 315_360_000;

/// Longest value read from a request or a parameter.
pub const MAX_FIELD: usize = 256;

/// Longest certificate.
pub const MAX_DER: usize = 2048;

/// Longest key label.
pub const MAX_KEY_LABEL: usize = 32;

#[derive(Clone, Copy, Debug, PartialEq, Eq, Structural)]
pub enum SigningAlgorithm {
    P256,
    Ed25519,
}

/// The key that a certificate is about.
pub enum SubjectKey {
    Ed25519(Vec<u8>),
    /// An uncompressed point.
    P256(Vec<u8>),
}

impl SubjectKey {
    pub open spec fn bytes(self) -> Seq<u8> {
        match self {
            SubjectKey::Ed25519(k) => k@,
            SubjectKey::P256(k) => k@,
        }
    }
}

/// The serial of the authority's own certificate, which no certificate that it issues has.
pub const ROOT_SERIAL: u64 = 1;

/// The authority and its one key, which stays in the vault.
pub struct Authority {
    pub profile_id: u16,
    pub issuer_cn: Vec<u8>,
    pub trust_domain: Vec<u8>,
    pub key_open: bool,
    pub key_suite: Option<Suite>,
    pub public_key: Vec<u8>,
    /// The serial of the certificate that is issued next.
    pub next_serial: u64,
    pub certificate_issued: u32,
    pub certificate_no_key: u32,
    pub certificate_malformed: u32,
}

/// A request that may be granted, once its name is composed and the clock is read.
pub struct Order {
    pub conn: u16,
    pub stream: u16,
    pub subject: Vec<u8>,
    pub tenant: Vec<u8>,
    pub device: Vec<u8>,
    pub key: SubjectKey,
}

pub enum Decision {
    /// Too short to name a connection.
    Ignore,
    Reply(Reply),
    /// The authority's own certificate was asked for.
    Root { conn: u16, stream: u16 },
    Issue(Order),
}

/// The fields of a certificate that is to be signed.
pub struct Template {
    pub serial: u64,
    pub issuer_cn: Vec<u8>,
    pub subject: Vec<u8>,
    pub key: SubjectKey,
    pub algorithm: SigningAlgorithm,
    pub not_before: u64,
    pub not_after: u64,
    /// The name in the device's certificate; the authority's own has none.
    pub san: Vec<u8>,
}

pub enum IssueStep {
    Reply(Reply),
    Sign(Template),
}

/// `d` is the key that the text `e` names: 32 bytes, or 65 that begin an uncompressed point.
pub open spec fn names_key(e: Seq<u8>, d: Seq<u8>) -> bool {
    e.len() > 0 && base64::decodes_to(e, d) && (d.len() == 32 || (d.len() == 65 && d[0] == 4))
}

pub open spec fn key_text(body: Seq<u8>) -> Seq<u8> {
    claims::short_claim(body, bytes::text("public_key"), 192)
}

pub open spec fn body_field(body: Seq<u8>, name: &str) -> Seq<u8> {
    claims::short_claim(body, bytes::text(name), 256)
}

/// A request body that names a key, a subject, a tenant and a device.
pub open spec fn well_formed(body: Seq<u8>) -> bool {
    &&& exists|d: Seq<u8>| names_key(key_text(body), d)
    &&& body_field(body, "subject").len() > 0
    &&& body_field(body, "tenant").len() > 0
    &&& body_field(body, "device").len() > 0
}

pub open spec fn issue_path(r: Seq<u8>) -> bool {
    http::complete(r) && http::path(r) == bytes::text("/pki/certificate")
}

pub open spec fn root_path(r: Seq<u8>) -> bool {
    http::complete(r) && http::path(r) == bytes::text("/pki/ca")
}

/// The decision is a JSON reply to the sender of `r`.
pub open spec fn replies(d: Decision, r: Seq<u8>, status: u16, body: &str) -> bool {
    d matches Decision::Reply(reply) && reply.answers(r, status, bytes::text(body))
}

/// The algorithm that a key of `suite` signs with.
pub open spec fn algorithm_of(suite: Option<Suite>) -> SigningAlgorithm {
    if suite == Some(Suite::Es256) {
        SigningAlgorithm::P256
    } else {
        SigningAlgorithm::Ed25519
    }
}

/// What the vault signs under a key of `suite`.
pub open spec fn to_sign(suite: Option<Suite>, tbs: Seq<u8>) -> Seq<u8> {
    match algorithm_of(suite) {
        SigningAlgorithm::P256 => crypto::sha256(tbs),
        SigningAlgorithm::Ed25519 => tbs,
    }
}

/// The algorithm the loaded key signs with.
pub fn algorithm(key_suite: Option<Suite>) -> (r: SigningAlgorithm)
    ensures
        r == algorithm_of(key_suite),
{
    match key_suite {
        Some(Suite::Es256) => SigningAlgorithm::P256,
        _ => SigningAlgorithm::Ed25519,
    }
}

/// The key that a text names.
fn read_key(text: &[u8]) -> (r: Option<SubjectKey>)
    ensures
        match r {
            Some(key) => names_key(text@, key.bytes()) && (key is Ed25519 <==> key.bytes().len()
                == 32),
            None => forall|d: Seq<u8>| !names_key(text@, d),
        },
{
    if text.len() == 0 {
        return None;
    }
    match base64::decode(text, 65) {
        Some(d) => {
            if d.len() == 32 {
                Some(SubjectKey::Ed25519(d))
            } else if d.len() == 65 && d[0] == 4 {
                Some(SubjectKey::P256(d))
            } else {
                assert forall|x: Seq<u8>| !names_key(text@, x) by {
                    if names_key(text@, x) {
                        base64::encoding_is_injective(x, d@);
                    }
                }
                None
            }
        },
        None => {
            assert forall|x: Seq<u8>| !names_key(text@, x) by {
                if names_key(text@, x) {
                    assert(base64::encoded(x) == text@);
                }
            }
            None
        },
    }
}

/// The order is what a request asks for.
pub open spec fn ordered(o: Order, r: Seq<u8>) -> bool {
    &&& o.conn == http::le16(r, 0)
    &&& o.stream == http::le16(r, 2)
    &&& o.subject@ == body_field(http::body(r), "subject")
    &&& o.tenant@ == body_field(http::body(r), "tenant")
    &&& o.device@ == body_field(http::body(r), "device")
    &&& names_key(key_text(http::body(r)), o.key.bytes())
    &&& o.key is Ed25519 <==> o.key.bytes().len() == 32
}

impl Authority {
    /// The certificate that an order comes to.
    pub open spec fn lays_out(self, t: Template, order: Order, san: Vec<u8>, now: u64) -> bool {
        &&& t.serial == self.next_serial
        &&& t.serial > ROOT_SERIAL
        &&& t.issuer_cn@ == self.issuer_cn@
        &&& t.subject == order.subject
        &&& t.key == order.key
        &&& t.algorithm == algorithm_of(self.key_suite)
        &&& t.not_before == now
        &&& t.not_after == now + CERTIFICATE_TTL_SECS
        &&& t.san == san
    }

    /// The authority's own certificate.
    pub open spec fn lays_out_root(self, t: Template, now: u64) -> bool {
        &&& t.serial == ROOT_SERIAL
        &&& t.issuer_cn@ == self.issuer_cn@
        &&& t.subject@ == self.issuer_cn@
        &&& t.key.bytes() == self.public_key@
        &&& t.key is P256 <==> self.key_suite == Some(Suite::Es256)
        &&& t.algorithm == algorithm_of(self.key_suite)
        &&& t.not_before == now
        &&& t.not_after == now + CA_TTL_SECS
        &&& t.san@.len() == 0
    }

    /// The serial of the authority's own certificate is behind it.
    pub open spec fn wf(self) -> bool {
        self.next_serial > ROOT_SERIAL
    }

    /// An authority without a key.
    pub fn new(profile_id: u16, issuer_cn: &[u8], trust_domain: &[u8]) -> (r: Self)
        ensures
            r.profile_id == profile_id,
            r.issuer_cn@ == bytes::clipped(issuer_cn@, 256),
            r.trust_domain@ == bytes::clipped(trust_domain@, 256),
            !r.key_open,
            r.key_suite is None,
            r.public_key@.len() == 0,
            r.wf(),
            r.next_serial == 2,
            r.certificate_issued == 0,
            r.certificate_no_key == 0,
            r.certificate_malformed == 0,
    {
        Authority {
            profile_id,
            issuer_cn: copy_field(issuer_cn, MAX_FIELD),
            trust_domain: copy_field(trust_domain, MAX_FIELD),
            key_open: false,
            key_suite: None,
            public_key: Vec::new(),
            next_serial: ROOT_SERIAL + 1,
            certificate_issued: 0,
            certificate_no_key: 0,
            certificate_malformed: 0,
        }
    }

    /// Whether a lifecycle record is one for this authority to open: a signing key of its
    /// profile, in an implemented suite, under a label that fits.
    pub fn takes_key(&self, rec: &KeyRecord) -> (r: bool)
        ensures
            r == (rec.key_use == KeyUse::Sign && rec.profile_id == self.profile_id
                && rec.suite is Some && 0 < rec.key_ref@.len() <= 32),
    {
        rec.key_use == KeyUse::Sign && rec.profile_id == self.profile_id && rec.suite.is_some()
            && rec.key_ref.len() > 0 && rec.key_ref.len() <= MAX_KEY_LABEL
    }

    /// The vault was asked to open the key that `rec` names, after the old one was closed.
    /// `public` is the public half of the key that opened. The announcement echoes the names of
    /// the record.
    pub fn drain_key(&mut self, rec: &KeyRecord, public: Option<Vec<u8>>) -> (r: Option<KeyRecord>)
        ensures
            final(self).key_open == (public is Some),
            final(self).key_suite == (if public is Some {
                rec.suite
            } else {
                old(self).key_suite
            }),
            match public {
                Some(p) => final(self).public_key@ == p@,
                None => final(self).public_key@.len() == 0,
            },
            final(self).profile_id == old(self).profile_id,
            final(self).issuer_cn == old(self).issuer_cn,
            final(self).trust_domain == old(self).trust_domain,
            final(self).next_serial == old(self).next_serial,
            final(self).certificate_issued == old(self).certificate_issued,
            final(self).certificate_no_key == old(self).certificate_no_key,
            final(self).certificate_malformed == old(self).certificate_malformed,
            r is Some <==> public is Some,
            r matches Some(a) ==> {
                &&& a.issuer@ == rec.issuer@
                &&& a.profile_id == rec.profile_id
                &&& a.kid@ == rec.kid@
                &&& a.suite == rec.suite
                &&& a.state == KeyState::Active
                &&& a.key_use == KeyUse::Verify
                &&& a.generation == 0
                &&& a.activate_after_unix == 0
                &&& a.remove_after_unix == 0
                &&& a.key_ref@ == public->0@
            },
    {
        match public {
            Some(p) => {
                self.key_open = true;
                self.key_suite = rec.suite;
                self.public_key = p;
                Some(self.announce_public_key(rec.issuer.as_slice(), rec.kid.as_slice(), rec.profile_id))
            },
            None => {
                self.key_open = false;
                self.public_key = Vec::new();
                None
            },
        }
    }

    /// The public half of the open key, as a verifying record.
    pub fn announce_public_key(&self, issuer: &[u8], kid: &[u8], profile_id: u16) -> (r: KeyRecord)
        ensures
            r.issuer@ == issuer@,
            r.profile_id == profile_id,
            r.kid@ == kid@,
            r.suite == self.key_suite,
            r.state == KeyState::Active,
            r.key_use == KeyUse::Verify,
            r.generation == 0,
            r.activate_after_unix == 0,
            r.remove_after_unix == 0,
            r.key_ref@ == self.public_key@,
    {
        KeyRecord {
            issuer: vstd::slice::slice_to_vec(issuer),
            profile_id,
            kid: vstd::slice::slice_to_vec(kid),
            suite: self.key_suite,
            state: KeyState::Active,
            key_use: KeyUse::Verify,
            generation: 0,
            activate_after_unix: 0,
            remove_after_unix: 0,
            key_ref: vstd::slice::slice_to_vec(self.public_key.as_slice()),
        }
    }

    /// Nothing but the counters changed.
    pub open spec fn same_authority(self, other: Self) -> bool {
        &&& self.profile_id == other.profile_id
        &&& self.issuer_cn == other.issuer_cn
        &&& self.trust_domain == other.trust_domain
        &&& self.key_open == other.key_open
        &&& self.key_suite == other.key_suite
        &&& self.public_key == other.public_key
    }

    /// Decide one request, as far as it can be decided before the name and the clock are known.
    pub fn handle_request(&mut self, request: &[u8]) -> (r: Decision)
        ensures
            final(self).same_authority(*old(self)),
            final(self).next_serial == old(self).next_serial,
            final(self).certificate_issued == old(self).certificate_issued,
            request@.len() < 12 <==> r is Ignore,
            request@.len() >= 12 && !http::complete(request@) ==> replies(
                r,
                request@,
                400,
                "{\"error\":\"invalid_request\"}",
            ),
            http::complete(request@) && !issue_path(request@) && !root_path(request@) ==> replies(
                r,
                request@,
                404,
                "{\"error\":\"not_found\"}",
            ),
            r is Root <==> root_path(request@) && !issue_path(request@),
            r matches Decision::Root { conn, stream } ==> conn == http::le16(request@, 0) && stream
                == http::le16(request@, 2),
            issue_path(request@) && request@[4] != 3 ==> replies(
                r,
                request@,
                405,
                "{\"error\":\"invalid_request\"}",
            ),
            issue_path(request@) && request@[4] == 3 && !old(self).key_open ==> replies(
                r,
                request@,
                503,
                "{\"error\":\"temporarily_unavailable\"}",
            ),
            issue_path(request@) && request@[4] == 3 && old(self).key_open && !well_formed(
                http::body(request@),
            ) ==> replies(r, request@, 400, "{\"error\":\"invalid_request\"}"),
            r is Issue <==> issue_path(request@) && request@[4] == 3 && old(self).key_open
                && well_formed(http::body(request@)),
            r matches Decision::Issue(o) ==> ordered(o, request@),
            final(self).certificate_no_key == (if issue_path(request@) && request@[4] == 3
                && !old(self).key_open {
                keys::counted(old(self).certificate_no_key)
            } else {
                old(self).certificate_no_key
            }),
            final(self).certificate_malformed == (if issue_path(request@) && request@[4] == 3
                && old(self).key_open && !well_formed(http::body(request@)) {
                keys::counted(old(self).certificate_malformed)
            } else {
                old(self).certificate_malformed
            }),
    {
        let frame = match http::read_frame(request) {
            Some(f) => f,
            None => {
                return Decision::Ignore;
            },
        };
        let (conn, stream) = (frame.conn, frame.stream);
        if !http::is_complete(request, &frame) {
            return Decision::Reply(
                json_reply(conn, stream, 400, "{\"error\":\"invalid_request\"}"),
            );
        }
        let path = http::path_of(request, &frame);
        if !bytes_equal(path, "/pki/certificate".as_bytes()) {
            if bytes_equal(path, "/pki/ca".as_bytes()) {
                return Decision::Root { conn, stream };
            }
            return Decision::Reply(json_reply(conn, stream, 404, "{\"error\":\"not_found\"}"));
        }
        if frame.method != http::METHOD_POST {
            return Decision::Reply(
                json_reply(conn, stream, 405, "{\"error\":\"invalid_request\"}"),
            );
        }
        if !self.key_open {
            count(&mut self.certificate_no_key);
            return Decision::Reply(
                json_reply(conn, stream, 503, "{\"error\":\"temporarily_unavailable\"}"),
            );
        }
        let body = http::body_of(request, &frame);
        let subject = json_string(body, "subject".as_bytes(), MAX_FIELD);
        let tenant = json_string(body, "tenant".as_bytes(), MAX_FIELD);
        let device = json_string(body, "device".as_bytes(), MAX_FIELD);
        let encoded = json_string(body, "public_key".as_bytes(), 192);
        assert(encoded@ == key_text(http::body(request@)));
        match read_key(encoded.as_slice()) {
            Some(key) => {
                assert(names_key(key_text(http::body(request@)), key.bytes()));
                if subject.len() == 0 || tenant.len() == 0 || device.len() == 0 {
                    count(&mut self.certificate_malformed);
                    Decision::Reply(json_reply(conn, stream, 400, "{\"error\":\"invalid_request\"}"))
                } else {
                    Decision::Issue(Order { conn, stream, subject, tenant, device, key })
                }
            },
            None => {
                count(&mut self.certificate_malformed);
                Decision::Reply(json_reply(conn, stream, 400, "{\"error\":\"invalid_request\"}"))
            },
        }
    }

    /// Lay out the certificate that an order asks for. `san` is the name composed of the
    /// deployment's trust domain and the order's tenant and device, where one can be composed;
    /// `now` is the time, where a clock can be trusted.
    pub fn issue(&mut self, order: Order, san: Option<Vec<u8>>, now: Option<u64>) -> (r: IssueStep)
        requires
            old(self).wf(),
            now matches Some(t) ==> t + CERTIFICATE_TTL_SECS <= u64::MAX,
        ensures
            final(self).wf(),
            final(self).same_authority(*old(self)),
            final(self).next_serial == old(self).next_serial,
            final(self).certificate_issued == old(self).certificate_issued,
            final(self).certificate_no_key == old(self).certificate_no_key,
            final(self).certificate_malformed == (if san is Some && now is Some {
                old(self).certificate_malformed
            } else {
                keys::counted(old(self).certificate_malformed)
            }),
            r is Sign <==> san is Some && now is Some,
            r matches IssueStep::Reply(reply) ==> reply.is(
                order.conn as nat,
                order.stream as nat,
                if san is None {
                    400
                } else {
                    503
                },
                bytes::text(
                    if san is None {
                        "{\"error\":\"invalid_request\"}"
                    } else {
                        "{\"error\":\"temporarily_unavailable\"}"
                    },
                ),
            ),
            r matches IssueStep::Sign(t) ==> old(self).lays_out(t, order, san->0, now->0),
    {
        match san {
            None => {
                count(&mut self.certificate_malformed);
                IssueStep::Reply(
                    json_reply(order.conn, order.stream, 400, "{\"error\":\"invalid_request\"}"),
                )
            },
            Some(san) => match now {
                None => {
                    count(&mut self.certificate_malformed);
                    IssueStep::Reply(
                        json_reply(
                            order.conn,
                            order.stream,
                            503,
                            "{\"error\":\"temporarily_unavailable\"}",
                        ),
                    )
                },
                Some(now) => IssueStep::Sign(
                    Template {
                        serial: self.next_serial,
                        issuer_cn: vstd::slice::slice_to_vec(self.issuer_cn.as_slice()),
                        subject: order.subject,
                        key: order.key,
                        algorithm: algorithm(self.key_suite),
                        not_before: now,
                        not_after: now + CERTIFICATE_TTL_SECS,
                        san,
                    },
                ),
            },
        }
    }

    /// Wrap what was signed, and its signature, into a whole certificate, unless it is too long
    /// or the vault did not sign.
    pub fn seal(&self, tbs: &[u8], signature: Option<&[u8; 64]>) -> (r: Option<Vec<u8>>)
        ensures
            r is Some <==> signature is Some && certificate_bytes(
                tbs@,
                algorithm_of(self.key_suite),
                signature->0@,
            ).len() <= 2048,
            r matches Some(der) ==> der@ == certificate_bytes(
                tbs@,
                algorithm_of(self.key_suite),
                signature->0@,
            ),
    {
        let raw = match signature {
            Some(raw) => raw,
            None => {
                return None;
            },
        };
        if tbs.len() > MAX_DER {
            return None;
        }
        let kind = algorithm(self.key_suite);
        let mut bits: Vec<u8> = Vec::new();
        bits.push(0);
        match kind {
            SigningAlgorithm::Ed25519 => {
                bytes::append(&mut bits, raw.as_slice());
            },
            SigningAlgorithm::P256 => {
                let first = slice_subrange(raw.as_slice(), 0, 32);
                let second = slice_subrange(raw.as_slice(), 32, 64);
                assert(first@ =~= raw@.take(32));
                assert(second@ =~= raw@.skip(32));
                let mut pair = put_integer(first);
                let s = put_integer(second);
                bytes::append(&mut pair, s.as_slice());
                let value = put_element(0x30, pair.as_slice());
                bytes::append(&mut bits, value.as_slice());
            },
        }
        assert(bits@ =~= seq![0u8] + signature_content(kind, raw@));
        let mut content = vstd::slice::slice_to_vec(tbs);
        match kind {
            SigningAlgorithm::Ed25519 => {
                let id: [u8; 7] = [0x30, 0x05, 0x06, 0x03, 0x2b, 0x65, 0x70];
                assert(id@ =~= algorithm_identifier(kind));
                bytes::append(&mut content, id.as_slice());
            },
            SigningAlgorithm::P256 => {
                let id: [u8; 12] = [
                    0x30, 0x0a, 0x06, 0x08, 0x2a, 0x86, 0x48, 0xce, 0x3d, 0x04, 0x03, 0x02,
                ];
                assert(id@ =~= algorithm_identifier(kind));
                bytes::append(&mut content, id.as_slice());
            },
        }
        let string = put_element(0x03, bits.as_slice());
        bytes::append(&mut content, string.as_slice());
        let der = put_element(0x30, content.as_slice());
        if der.len() > MAX_DER {
            return None;
        }
        Some(der)
    }

    /// Answer with the certificate that was sealed, or say that none was. A serial is spent by
    /// a certificate that was sealed and by nothing else.
    pub fn issued(&mut self, conn: u16, stream: u16, san: &[u8], certificate: Option<Vec<u8>>) -> (r: Reply)
        requires
            old(self).wf(),
        ensures
            final(self).wf(),
            final(self).same_authority(*old(self)),
            final(self).certificate_no_key == old(self).certificate_no_key,
            final(self).certificate_malformed == old(self).certificate_malformed,
            final(self).next_serial == serial_after(old(self).next_serial, certificate is Some),
            final(self).certificate_issued == (if certificate is Some {
                keys::counted(old(self).certificate_issued)
            } else {
                old(self).certificate_issued
            }),
            match certificate {
                Some(der) => if base64::encoded_len(der@.len()) <= 4096 {
                    r.is(conn as nat, stream as nat, 200, issued_body(der@, san@))
                } else {
                    r.is(conn as nat, stream as nat, 500, bytes::text("{\"error\":\"server_error\"}"))
                },
                None => r.is(
                    conn as nat,
                    stream as nat,
                    500,
                    bytes::text("{\"error\":\"server_error\"}"),
                ),
            },
    {
        let der = match certificate {
            Some(der) => der,
            None => {
                return json_reply(conn, stream, 500, "{\"error\":\"server_error\"}");
            },
        };
        self.next_serial = self.next_serial.saturating_add(1);
        count(&mut self.certificate_issued);
        let encoded = base64::encode(der.as_slice());
        proof {
            base64::encoding_length(der@);
        }
        if encoded.len() > MAX_DER * 2 {
            return json_reply(conn, stream, 500, "{\"error\":\"server_error\"}");
        }
        let limit: usize = MAX_DER * 2 + 128;
        let mut body: Vec<u8> = Vec::new();
        let _ = put(&mut body, limit, "{\"certificate\":\"".as_bytes());
        let _ = put(&mut body, limit, encoded.as_slice());
        let _ = put(&mut body, limit, "\",\"spiffe_id\":\"".as_bytes());
        let _ = put(&mut body, limit, san);
        let _ = put(&mut body, limit, "\"}".as_bytes());
        json_reply_with(conn, stream, 200, body)
    }

    /// The public half of the open key, where it has the length that its suite asks for.
    pub fn ca_public_key(&self) -> (r: Option<SubjectKey>)
        ensures
            r is Some <==> self.public_key@.len() == (if self.key_suite == Some(Suite::Es256) {
                65nat
            } else {
                32nat
            }),
            r matches Some(k) ==> k.bytes() == self.public_key@ && (k is P256 <==> self.key_suite
                == Some(Suite::Es256)),
    {
        let public = self.public_key.as_slice();
        match self.key_suite {
            Some(Suite::Es256) => if public.len() == 65 {
                Some(SubjectKey::P256(vstd::slice::slice_to_vec(public)))
            } else {
                None
            },
            _ => if public.len() == 32 {
                Some(SubjectKey::Ed25519(vstd::slice::slice_to_vec(public)))
            } else {
                None
            },
        }
    }

    /// Lay out the authority's own certificate: issuer and subject are the same name.
    pub fn serve_ca(&mut self, conn: u16, stream: u16, now: Option<u64>) -> (r: IssueStep)
        requires
            now matches Some(t) ==> t + CA_TTL_SECS <= u64::MAX,
        ensures
            final(self).same_authority(*old(self)),
            final(self).next_serial == old(self).next_serial,
            final(self).certificate_issued == old(self).certificate_issued,
            final(self).certificate_malformed == old(self).certificate_malformed,
            final(self).certificate_no_key == (if old(self).key_open {
                old(self).certificate_no_key
            } else {
                keys::counted(old(self).certificate_no_key)
            }),
            r is Sign <==> old(self).key_open && now is Some && old(self).public_key@.len() == (
            if old(self).key_suite == Some(Suite::Es256) {
                65nat
            } else {
                32nat
            }),
            r matches IssueStep::Reply(reply) ==> reply.is(
                conn as nat,
                stream as nat,
                503,
                bytes::text("{\"error\":\"temporarily_unavailable\"}"),
            ),
            r matches IssueStep::Sign(t) ==> old(self).lays_out_root(t, now->0),
    {
        if !self.key_open {
            count(&mut self.certificate_no_key);
            return IssueStep::Reply(
                json_reply(conn, stream, 503, "{\"error\":\"temporarily_unavailable\"}"),
            );
        }
        match (now, self.ca_public_key()) {
            (Some(now), Some(key)) => IssueStep::Sign(
                Template {
                    serial: ROOT_SERIAL,
                    issuer_cn: vstd::slice::slice_to_vec(self.issuer_cn.as_slice()),
                    subject: vstd::slice::slice_to_vec(self.issuer_cn.as_slice()),
                    key,
                    algorithm: algorithm(self.key_suite),
                    not_before: now,
                    not_after: now + CA_TTL_SECS,
                    san: Vec::new(),
                },
            ),
            _ => IssueStep::Reply(
                json_reply(conn, stream, 503, "{\"error\":\"temporarily_unavailable\"}"),
            ),
        }
    }

    /// What the vault signs for a certificate: its digest under ECDSA, its own bytes under
    /// Ed25519.
    pub fn sign_tbs(&self, tbs: &[u8]) -> (r: Vec<u8>)
        ensures
            r@ == to_sign(self.key_suite, tbs@),
    {
        match algorithm(self.key_suite) {
            SigningAlgorithm::P256 => {
                let hash = crypto::digest(tbs);
                vstd::slice::slice_to_vec(hash.as_slice())
            },
            SigningAlgorithm::Ed25519 => vstd::slice::slice_to_vec(tbs),
        }
    }
}

/// The length octets of `n`: one for a short length, and otherwise their number before them.
pub open spec fn der_length(n: nat) -> Seq<u8> {
    if n < 128 {
        seq![n as u8]
    } else if n < 256 {
        seq![0x81u8, n as u8]
    } else {
        seq![0x82u8, (n / 256) as u8, (n % 256) as u8]
    }
}

/// An element: its tag, its length and its content.
pub open spec fn element(tag: u8, content: Seq<u8>) -> Seq<u8> {
    seq![tag] + der_length(content.len()) + content
}

/// The algorithm that a certificate says it is signed with: id-Ed25519 or ecdsa-with-SHA256.
pub open spec fn algorithm_identifier(algorithm: SigningAlgorithm) -> Seq<u8> {
    match algorithm {
        SigningAlgorithm::Ed25519 => seq![0x30u8, 0x05, 0x06, 0x03, 0x2b, 0x65, 0x70],
        SigningAlgorithm::P256 => seq![
            0x30u8,
            0x0a,
            0x06,
            0x08,
            0x2a,
            0x86,
            0x48,
            0xce,
            0x3d,
            0x04,
            0x03,
            0x02,
        ],
    }
}

/// The content of a non-negative integer: without leading zeros, but for one that keeps the top
/// bit clear.
pub open spec fn integer_content(v: Seq<u8>) -> Seq<u8>
    decreases v.len(),
{
    if v.len() > 1 && v[0] == 0 {
        integer_content(v.skip(1))
    } else if v.len() > 0 && v[0] >= 128 {
        seq![0u8] + v
    } else {
        v
    }
}

/// The signature as a certificate carries it: two integers under ECDSA, its own bytes under
/// Ed25519.
pub open spec fn signature_content(algorithm: SigningAlgorithm, raw: Seq<u8>) -> Seq<u8> {
    match algorithm {
        SigningAlgorithm::Ed25519 => raw,
        SigningAlgorithm::P256 => element(
            0x30,
            element(0x02, integer_content(raw.take(32))) + element(
                0x02,
                integer_content(raw.skip(32)),
            ),
        ),
    }
}

/// A whole certificate: what was signed, byte for byte, then the algorithm and the signature.
pub open spec fn certificate_bytes(
    tbs: Seq<u8>,
    algorithm: SigningAlgorithm,
    raw: Seq<u8>,
) -> Seq<u8> {
    element(
        0x30,
        tbs + algorithm_identifier(algorithm) + element(
            0x03,
            seq![0u8] + signature_content(algorithm, raw),
        ),
    )
}

fn put_element(tag: u8, content: &[u8]) -> (r: Vec<u8>)
    requires
        content@.len() < 65536,
    ensures
        r@ == element(tag, content@),
{
    let n: usize = content.len();
    let mut out: Vec<u8> = Vec::new();
    out.push(tag);
    if n < 128 {
        out.push(n as u8);
    } else if n < 256 {
        out.push(0x81);
        out.push(n as u8);
    } else {
        out.push(0x82);
        out.push((n / 256) as u8);
        out.push((n % 256) as u8);
    }
    bytes::append(&mut out, content);
    assert(out@ =~= element(tag, content@));
    out
}

fn put_integer(v: &[u8]) -> (r: Vec<u8>)
    requires
        v@.len() == 32,
    ensures
        r@ == element(0x02, integer_content(v@)),
        r@.len() <= 35,
{
    let mut at: usize = 0;
    assert(v@.skip(0) =~= v@);
    while at < 31 && v[at] == 0
        invariant
            at <= 31,
            v@.len() == 32,
            integer_content(v@) == integer_content(v@.skip(at as int)),
        decreases 31 - at,
    {
        assert(v@.skip(at as int).skip(1) =~= v@.skip(at as int + 1));
        at = at + 1;
    }
    let rest = slice_subrange(v, at, 32);
    assert(rest@ =~= v@.skip(at as int));
    let mut content: Vec<u8> = Vec::new();
    if v[at] >= 128 {
        content.push(0);
    }
    bytes::append(&mut content, rest);
    assert(content@ =~= integer_content(v@));
    put_element(0x02, content.as_slice())
}

/// What was signed stands in the certificate byte for byte, behind the certificate's own tag and
/// length.
pub proof fn what_was_signed_is_carried(
    tbs: Seq<u8>,
    algorithm: SigningAlgorithm,
    raw: Seq<u8>,
)
    ensures
        ({
            let whole = certificate_bytes(tbs, algorithm, raw);
            let content = tbs + algorithm_identifier(algorithm) + element(
                0x03,
                seq![0u8] + signature_content(algorithm, raw),
            );
            let at = 1 + der_length(content.len()).len() as int;
            &&& whole[0] == 0x30
            &&& whole.subrange(1, at) == der_length((whole.len() - at) as nat)
            &&& whole.subrange(at, at + tbs.len()) == tbs
        }),
{
    let content = tbs + algorithm_identifier(algorithm) + element(
        0x03,
        seq![0u8] + signature_content(algorithm, raw),
    );
    let whole = certificate_bytes(tbs, algorithm, raw);
    let at = 1 + der_length(content.len()).len() as int;
    assert(whole.subrange(1, at) =~= der_length(content.len()));
    assert(whole.subrange(at, at + tbs.len()) =~= tbs);
}

/// The serial that follows `serial` once a certificate was sealed under it, or was not.
pub open spec fn serial_after(serial: u64, sealed: bool) -> u64 {
    if sealed && serial < u64::MAX {
        (serial + 1) as u64
    } else {
        serial
    }
}

/// The serial that attempt `i` is laid out under, where `sealed` says of each attempt in turn
/// whether a certificate came of it and `start` is the serial of the first.
pub open spec fn serial_of(start: u64, sealed: Seq<bool>, i: nat) -> u64
    decreases i,
{
    if i == 0 {
        start
    } else {
        serial_after(serial_of(start, sealed, (i - 1) as nat), sealed[i - 1])
    }
}

/// No two certificates of one authority have the same serial, its own certificate among them,
/// until the serials run out: those that are issued rise, and all are above the authority's own.
pub proof fn serials_are_not_shared(start: u64, sealed: Seq<bool>, i: nat, j: nat)
    requires
        start > ROOT_SERIAL,
        i < j < sealed.len(),
        sealed[i as int],
        serial_of(start, sealed, i) < u64::MAX,
    ensures
        ROOT_SERIAL < serial_of(start, sealed, i) < serial_of(start, sealed, j),
    decreases j,
{
    lemma_serials_rise(start, sealed, i);
    if i + 1 < j {
        serials_are_not_shared(start, sealed, i, (j - 1) as nat);
    }
}

proof fn lemma_serials_rise(start: u64, sealed: Seq<bool>, i: nat)
    ensures
        start <= serial_of(start, sealed, i),
    decreases i,
{
    if i > 0 {
        lemma_serials_rise(start, sealed, (i - 1) as nat);
    }
}

/// The body of a reply that carries a certificate.
pub open spec fn issued_body(der: Seq<u8>, san: Seq<u8>) -> Seq<u8> {
    let limit = 4224nat;
    let a = bytes::appended(Seq::empty(), limit, bytes::text("{\"certificate\":\""));
    let b = bytes::appended(a, limit, base64::encoded(der));
    let c = bytes::appended(b, limit, bytes::text("\",\"spiffe_id\":\""));
    let d = bytes::appended(c, limit, san);
    bytes::appended(d, limit, bytes::text("\"}"))
}

/// Answer with the authority's own certificate in PEM, or say that there is none.
pub fn root_served(conn: u16, stream: u16, certificate: Option<Vec<u8>>) -> (r: Reply)
    ensures
        r.conn == conn,
        r.stream == stream,
        match certificate {
            Some(der) => if pem_fits(der@, 6144) {
                r.status == 200 && r.content_type == "application/x-pem-file" && r.body@ == pem(der@)
            } else {
                r.is(conn as nat, stream as nat, 500, bytes::text("{\"error\":\"server_error\"}"))
            },
            None => r.is(
                conn as nat,
                stream as nat,
                500,
                bytes::text("{\"error\":\"server_error\"}"),
            ),
        },
{
    match certificate {
        Some(der) => match write_pem(der.as_slice(), MAX_DER * 3) {
            Some(body) => Reply {
                conn,
                stream,
                status: 200,
                content_type: "application/x-pem-file",
                body,
            },
            None => json_reply(conn, stream, 500, "{\"error\":\"server_error\"}"),
        },
        None => json_reply(conn, stream, 500, "{\"error\":\"server_error\"}"),
    }
}

/// `s` in lines of 64 characters, each ended by a line feed.
pub open spec fn wrapped_lines(s: Seq<u8>) -> Seq<u8>
    decreases s.len(),
{
    if s.len() == 0 {
        Seq::empty()
    } else if s.len() <= 64 {
        s + seq![10u8]
    } else {
        s.take(64) + seq![10u8] + wrapped_lines(s.skip(64))
    }
}

pub open spec fn pem(der: Seq<u8>) -> Seq<u8> {
    bytes::text("-----BEGIN CERTIFICATE-----\n") + wrapped_lines(base64::encoded_standard(der))
        + bytes::text("-----END CERTIFICATE-----\n")
}

pub open spec fn pem_fits(der: Seq<u8>, limit: nat) -> bool {
    base64::encoded_standard(der).len() <= 4096 && pem(der).len() <= limit
}

/// Standard base64 in 64-column lines, between the PEM markers.
pub fn write_pem(der: &[u8], limit: usize) -> (r: Option<Vec<u8>>)
    ensures
        match r {
            Some(out) => pem_fits(der@, limit as nat) && out@ == pem(der@),
            None => !pem_fits(der@, limit as nat),
        },
{
    let encoded = base64::encode_standard(der);
    if encoded.len() > MAX_DER * 2 {
        return None;
    }
    let mut out: Vec<u8> = Vec::new();
    let ghost whole = pem(der@);
    let ghost end = bytes::text("-----END CERTIFICATE-----\n");
    if put(&mut out, limit, "-----BEGIN CERTIFICATE-----\n".as_bytes()).is_none() {
        return None;
    }
    let mut offset: usize = 0;
    assert(encoded@.skip(0) =~= encoded@);
    assert(out@ =~= bytes::text("-----BEGIN CERTIFICATE-----\n"));
    assert(out@ + wrapped_lines(encoded@.skip(0)) + end =~= whole);
    while offset < encoded.len()
        invariant
            offset <= encoded@.len() <= 4096,
            encoded@ == base64::encoded_standard(der@),
            whole == pem(der@),
            out@ + wrapped_lines(encoded@.skip(offset as int)) + end == whole,
        decreases encoded@.len() - offset,
    {
        let stop: usize = if encoded.len() - offset > 64 {
            offset + 64
        } else {
            encoded.len()
        };
        let line = slice_subrange(encoded.as_slice(), offset, stop);
        let ghost rest = encoded@.skip(offset as int);
        let ghost before = out@;
        assert(line@ =~= rest.take(stop - offset));
        assert(encoded@.skip(stop as int) =~= rest.skip(stop - offset));
        assert(wrapped_lines(rest) =~= line@ + seq![10u8] + wrapped_lines(
            encoded@.skip(stop as int),
        )) by {
            if rest.len() <= 64 {
                assert(line@ =~= rest);
            }
        }
        if put(&mut out, limit, line).is_none() {
            return None;
        }
        if put(&mut out, limit, "\n".as_bytes()).is_none() {
            proof {
                lemma_newline();
            }
            return None;
        }
        proof {
            lemma_newline();
            assert(out@ + wrapped_lines(encoded@.skip(stop as int)) + end =~= before
                + wrapped_lines(rest) + end);
        }
        offset = stop;
    }
    assert(wrapped_lines(encoded@.skip(offset as int)) =~= Seq::<u8>::empty());
    assert(out@ + end =~= whole);
    if put(&mut out, limit, "-----END CERTIFICATE-----\n".as_bytes()).is_none() {
        return None;
    }
    Some(out)
}

proof fn lemma_newline()
    ensures
        bytes::text("\n") == seq![10u8],
{
    reveal_strlit("\n");
    assert("\n".is_ascii());
    assert(bytes::text("\n") =~= seq![10u8]);
}

/// A certificate is for what the request named: its subject, and the key that it encodes, under the
/// name that was composed; by this authority, signed in the way of its key, from now on for as long
/// as a device's certificate lives.
pub proof fn a_certificate_is_for_what_was_named(
    authority: Authority,
    request: Seq<u8>,
    order: Order,
    san: Vec<u8>,
    now: u64,
    t: Template,
    subject: Seq<u8>,
    key: Seq<u8>,
)
    requires
        ordered(order, request),
        authority.lays_out(t, order, san, now),
        claims::text_claim(http::body(request), bytes::text("subject")) == Some(subject),
        claims::text_claim(http::body(request), bytes::text("public_key")) == Some(
            base64::encoded(key),
        ),
        subject.len() <= 256,
        base64::encoded(key).len() <= 192,
    ensures
        t.subject@ == subject,
        t.key.bytes() == key,
        t.key is Ed25519 <==> key.len() == 32,
        t.key is P256 ==> key.len() == 65 && key[0] == 4,
        t.san@ == san@,
        t.issuer_cn@ == authority.issuer_cn@,
        t.serial == authority.next_serial,
        t.serial != 1,
        t.not_before == now,
        t.not_after == now + 2592000,
        t.algorithm == SigningAlgorithm::P256 <==> authority.key_suite == Some(Suite::Es256),
{
    base64::decode_reverses_encode(key, order.key.bytes());
}

/// The authority vouches for itself: its own certificate names it as issuer and subject, carries its
/// own key, and is the first of its serials.
pub proof fn the_authority_vouches_for_itself(authority: Authority, t: Template, now: u64)
    requires
        authority.lays_out_root(t, now),
    ensures
        t.subject@ == t.issuer_cn@,
        t.issuer_cn@ == authority.issuer_cn@,
        t.key.bytes() == authority.public_key@,
        t.serial == 1,
        t.not_before == now,
        t.not_after == now + 315360000,
        t.san@.len() == 0,
{
}

/// A request is granted only where it names a key of a length that is known, a subject, a tenant and
/// a device.
pub proof fn a_grantable_request_is_whole(body: Seq<u8>)
    requires
        well_formed(body),
    ensures
        claims::text_claim(body, bytes::text("subject")) matches Some(v) && 0 < v.len() <= 256,
        claims::text_claim(body, bytes::text("tenant")) matches Some(v) && 0 < v.len() <= 256,
        claims::text_claim(body, bytes::text("device")) matches Some(v) && 0 < v.len() <= 256,
        claims::text_claim(body, bytes::text("public_key")) matches Some(v) && v.len() <= 192
            && exists|d: Seq<u8>| #[trigger]
            base64::encoded(d) == v && (d.len() == 32 || d.len() == 65 && d[0] == 4),
{
    let d = choose|d: Seq<u8>| names_key(key_text(body), d);
    assert(base64::encoded(d) == key_text(body));
}

/// The length of an element reads back: one octet below 128, else the number of octets and then the
/// octets, the high one first.
pub proof fn an_element_says_its_length(tag: u8, content: Seq<u8>)
    requires
        content.len() < 65536,
    ensures
        ({
            let e = element(tag, content);
            &&& e[0] == tag
            &&& content.len() < 128 ==> e[1] == content.len() && e.skip(2) == content
            &&& 128 <= content.len() < 256 ==> e[1] == 129 && e[2] == content.len() && e.skip(3)
                == content
            &&& 256 <= content.len() ==> e[1] == 130 && e[2] * 256 + e[3] == content.len() && e.skip(
                4,
            ) == content
        }),
{
    let e = element(tag, content);
    if content.len() < 128 {
        assert(e.skip(2) =~= content);
    } else if content.len() < 256 {
        assert(e.skip(3) =~= content);
    } else {
        assert(e.skip(4) =~= content);
    }
}

/// The number that big-endian bytes name.
pub open spec fn magnitude(v: Seq<u8>) -> nat
    decreases v.len(),
{
    if v.len() == 0 {
        0
    } else {
        magnitude(v.drop_last()) * 256 + v.last() as nat
    }
}

proof fn lemma_leading_zero(v: Seq<u8>)
    ensures
        magnitude(seq![0u8] + v) == magnitude(v),
    decreases v.len(),
{
    let w = seq![0u8] + v;
    if v.len() == 0 {
        assert(w.drop_last() =~= Seq::<u8>::empty());
        assert(magnitude(w.drop_last()) == 0);
    } else {
        assert(w.drop_last() =~= seq![0u8] + v.drop_last());
        lemma_leading_zero(v.drop_last());
    }
}

/// A signature's integers keep their value: they are written without needless zeros, and never look
/// negative.
pub proof fn an_integer_keeps_its_value(v: Seq<u8>)
    requires
        v.len() > 0,
    ensures
        magnitude(integer_content(v)) == magnitude(v),
        integer_content(v).len() > 0,
        integer_content(v)[0] < 128,
        integer_content(v).len() > 1 && integer_content(v)[0] == 0 ==> integer_content(v)[1] >= 128,
    decreases v.len(),
{
    if v.len() > 1 && v[0] == 0 {
        an_integer_keeps_its_value(v.skip(1));
        assert(v =~= seq![0u8] + v.skip(1));
        lemma_leading_zero(v.skip(1));
    } else if v[0] >= 128 {
        lemma_leading_zero(v);
    }
}

/// A certificate is three elements in one: what was signed, the algorithm, and the signature behind
/// a zero octet. Under Ed25519 the signature is its sixty-four bytes; under ECDSA it is its two
/// halves as integers.
pub proof fn a_certificate_is_three_parts(tbs: Seq<u8>, raw: Seq<u8>)
    ensures
        certificate_bytes(tbs, SigningAlgorithm::Ed25519, raw) == element(
            0x30,
            tbs + seq![0x30u8, 5, 6, 3, 43, 101, 112] + element(0x03, seq![0u8] + raw),
        ),
        certificate_bytes(tbs, SigningAlgorithm::P256, raw) == element(
            0x30,
            tbs + seq![0x30u8, 10, 6, 8, 42, 134, 72, 206, 61, 4, 3, 2] + element(
                0x03,
                seq![0u8] + element(
                    0x30,
                    element(0x02, integer_content(raw.take(32))) + element(
                        0x02,
                        integer_content(raw.skip(32)),
                    ),
                ),
            ),
        ),
{
}

/// A serial is spent by a certificate and by nothing else.
pub proof fn a_serial_is_spent_once(serial: u64)
    ensures
        serial_after(serial, false) == serial,
        serial < u64::MAX ==> serial_after(serial, true) == serial + 1,
{
}

/// The answer carries the certificate and the name in it, where both fit.
pub proof fn an_issued_certificate_is_answered(der: Seq<u8>, san: Seq<u8>)
    requires
        base64::encoded(der).len() + san.len() <= 4096,
    ensures
        issued_body(der, san) == bytes::text("{\"certificate\":\"") + base64::encoded(der)
            + bytes::text("\",\"spiffe_id\":\"") + san + bytes::text("\"}"),
{
    reveal_strlit("{\"certificate\":\"");
    reveal_strlit("\",\"spiffe_id\":\"");
    reveal_strlit("\"}");
    assert("{\"certificate\":\"".is_ascii() && "\",\"spiffe_id\":\"".is_ascii());
    assert("\"}".is_ascii());
    assert(issued_body(der, san) =~= bytes::text("{\"certificate\":\"") + base64::encoded(der)
        + bytes::text("\",\"spiffe_id\":\"") + san + bytes::text("\"}"));
}

/// Wrapping puts a line feed behind every sixty-four characters and behind the last, and changes
/// nothing else.
pub proof fn lines_hold_sixty_four(s: Seq<u8>, rest: Seq<u8>)
    ensures
        s.len() == 64 && rest.len() > 0 ==> wrapped_lines(s + rest) == s + seq![10u8]
            + wrapped_lines(rest),
        0 < s.len() <= 64 ==> wrapped_lines(s) == s + seq![10u8],
        wrapped_lines(Seq::<u8>::empty()).len() == 0,
{
    if s.len() == 64 && rest.len() > 0 {
        assert((s + rest).take(64) =~= s);
        assert((s + rest).skip(64) =~= rest);
    }
}

/// A key signs in the way that its certificate says: under an ECDSA key it is the digest that is
/// signed, and under an Ed25519 key the bytes themselves.
pub proof fn a_key_signs_as_it_says(suite: Option<Suite>, tbs: Seq<u8>)
    ensures
        suite == Some(Suite::Es256) ==> to_sign(suite, tbs) == crypto::sha256(tbs)
            && algorithm_identifier(algorithm_of(suite)).len() == 12,
        suite == Some(Suite::Ed25519) ==> to_sign(suite, tbs) == tbs && algorithm_identifier(
            algorithm_of(suite),
        ).len() == 7,
{
}

} // verus!
