//! The envelopes in which requests arrive and replies leave, and header lines.
//!
//! A request is `[conn u16][stream u16][method u8][flags u8][path_len u16][hdr_len u16]
//! [body_len u16]`, then the path, the header block and the body; a reply is
//! `[conn u16][stream u16][status u16][flags u8][ct_len u8][hdr_len u16][body_len u16]`, then
//! the content type and the body. Numbers are little-endian.
use vstd::prelude::*;
use vstd::slice::slice_subrange;

use crate::bytes;
use crate::bytes::{append, equal_letters, position, to_lower, trim};

verus! {

/// The bytes before the path of a request, and before the content type of a reply.
pub const REQ_HDR: usize = 12;

pub const RESP_HDR: usize = 12;

/// The method byte of a `POST`.
pub const METHOD_POST: u8 = 3;

/// The little-endian `u16` at index `i`.
pub open spec fn le16(s: Seq<u8>, i: int) -> nat {
    (s[i] + 256 * s[i + 1]) as nat
}

/// The two little-endian bytes of `v`.
pub open spec fn le16_bytes(v: nat) -> Seq<u8> {
    seq![(v % 256) as u8, (v / 256 % 256) as u8]
}

pub open spec fn path_len(r: Seq<u8>) -> nat {
    le16(r, 6)
}

pub open spec fn headers_len(r: Seq<u8>) -> nat {
    le16(r, 8)
}

pub open spec fn body_len(r: Seq<u8>) -> nat {
    le16(r, 10)
}

/// Where the body of a request begins.
pub open spec fn body_at(r: Seq<u8>) -> nat {
    12 + path_len(r) + headers_len(r)
}

/// A request that holds as many bytes as its lengths announce.
pub open spec fn complete(r: Seq<u8>) -> bool {
    r.len() >= 12 && body_at(r) + body_len(r) <= r.len()
}

pub open spec fn path(r: Seq<u8>) -> Seq<u8> {
    r.subrange(12, 12 + path_len(r) as int)
}

pub open spec fn headers(r: Seq<u8>) -> Seq<u8> {
    r.subrange(12 + path_len(r) as int, body_at(r) as int)
}

pub open spec fn body(r: Seq<u8>) -> Seq<u8> {
    r.subrange(body_at(r) as int, (body_at(r) + body_len(r)) as int)
}

/// The fixed part of a request.
#[derive(Clone, Copy)]
pub struct Frame {
    pub conn: u16,
    pub stream: u16,
    pub method: u8,
    pub path_len: usize,
    pub headers_len: usize,
    pub body_len: usize,
}

impl Frame {
    /// `self` is what the fixed part of `r` says.
    pub open spec fn of(self, r: Seq<u8>) -> bool {
        &&& self.conn == le16(r, 0)
        &&& self.stream == le16(r, 2)
        &&& self.method == r[4]
        &&& self.path_len == path_len(r)
        &&& self.headers_len == headers_len(r)
        &&& self.body_len == body_len(r)
    }
}

pub fn read_u16(s: &[u8], i: usize) -> (r: u16)
    requires
        i + 1 < s@.len(),
    ensures
        r == le16(s@, i as int),
{
    (s[i] as u16) + 256 * (s[i + 1] as u16)
}

/// The fixed part of `request`, where there is one.
pub fn read_frame(request: &[u8]) -> (r: Option<Frame>)
    ensures
        r is Some <==> request@.len() >= 12,
        r matches Some(f) ==> f.of(request@),
{
    if request.len() < REQ_HDR {
        return None;
    }
    Some(
        Frame {
            conn: read_u16(request, 0),
            stream: read_u16(request, 2),
            method: request[4],
            path_len: read_u16(request, 6) as usize,
            headers_len: read_u16(request, 8) as usize,
            body_len: read_u16(request, 10) as usize,
        },
    )
}

/// Whether the request is complete.
pub fn is_complete(request: &[u8], frame: &Frame) -> (r: bool)
    requires
        request@.len() >= 12,
        frame.of(request@),
    ensures
        r == complete(request@),
{
    REQ_HDR + frame.path_len + frame.headers_len + frame.body_len <= request.len()
}

pub fn path_of<'a>(request: &'a [u8], frame: &Frame) -> (r: &'a [u8])
    requires
        complete(request@),
        frame.of(request@),
    ensures
        r@ == path(request@),
{
    slice_subrange(request, REQ_HDR, REQ_HDR + frame.path_len)
}

pub fn headers_of<'a>(request: &'a [u8], frame: &Frame) -> (r: &'a [u8])
    requires
        complete(request@),
        frame.of(request@),
    ensures
        r@ == headers(request@),
{
    let at: usize = REQ_HDR + frame.path_len;
    slice_subrange(request, at, at + frame.headers_len)
}

pub fn body_of<'a>(request: &'a [u8], frame: &Frame) -> (r: &'a [u8])
    requires
        complete(request@),
        frame.of(request@),
    ensures
        r@ == body(request@),
{
    let at: usize = REQ_HDR + frame.path_len + frame.headers_len;
    slice_subrange(request, at, at + frame.body_len)
}

/// One reply to one connection.
pub struct Reply {
    pub conn: u16,
    pub stream: u16,
    pub status: u16,
    pub content_type: &'static str,
    pub body: Vec<u8>,
}

impl Reply {
    /// The reply goes where `r` came from, and says `status` and `body` in JSON.
    pub open spec fn answers(self, r: Seq<u8>, status: u16, body: Seq<u8>) -> bool {
        self.is(le16(r, 0), le16(r, 2), status, body)
    }

    pub open spec fn is(self, conn: nat, stream: nat, status: u16, body: Seq<u8>) -> bool {
        &&& self.conn == conn
        &&& self.stream == stream
        &&& self.status == status
        &&& self.content_type == "application/json"
        &&& self.body@ == body
    }
}

/// A reply with a fixed JSON body.
pub fn json_reply(conn: u16, stream: u16, status: u16, body: &str) -> (r: Reply)
    ensures
        r.is(conn as nat, stream as nat, status, bytes::text(body)),
{
    Reply {
        conn,
        stream,
        status,
        content_type: "application/json",
        body: vstd::slice::slice_to_vec(body.as_bytes()),
    }
}

/// A reply with a JSON body that was put together.
pub fn json_reply_with(conn: u16, stream: u16, status: u16, body: Vec<u8>) -> (r: Reply)
    ensures
        r.is(conn as nat, stream as nat, status, body@),
{
    Reply { conn, stream, status, content_type: "application/json", body }
}

/// The envelope of a reply: a complete body in one piece and no extra headers.
pub open spec fn envelope(
    conn: nat,
    stream: nat,
    status: nat,
    content_type: Seq<u8>,
    body: Seq<u8>,
) -> Seq<u8> {
    le16_bytes(conn) + le16_bytes(stream) + le16_bytes(status) + seq![
        0u8,
        (content_type.len() % 256) as u8,
        0u8,
        0u8,
    ] + le16_bytes(body.len()) + content_type + body
}

fn push_u16(out: &mut Vec<u8>, v: u16)
    ensures
        final(out)@ == old(out)@ + le16_bytes(v as nat),
{
    out.push((v % 256) as u8);
    out.push((v / 256) as u8);
    assert(out@ =~= old(out)@ + le16_bytes(v as nat));
}

proof fn lemma_le16_wraps(n: nat)
    ensures
        le16_bytes(n % 65536) == le16_bytes(n),
{
    assert(n % 65536 % 256 == n % 256);
    assert(n % 65536 / 256 % 256 == n / 256 % 256);
}

/// The envelope of `reply`, unless it is longer than `capacity`.
pub fn respond(reply: &Reply, capacity: usize) -> (r: Option<Vec<u8>>)
    ensures
        match r {
            Some(wire) => wire@ == envelope(
                reply.conn as nat,
                reply.stream as nat,
                reply.status as nat,
                bytes::text(reply.content_type),
                reply.body@,
            ) && wire@.len() <= capacity,
            None => 12 + bytes::text(reply.content_type).len() + reply.body@.len() > capacity,
        },
{
    let content_type = reply.content_type.as_bytes();
    let body = reply.body.as_slice();
    if capacity < RESP_HDR || content_type.len() > capacity - RESP_HDR || body.len() > capacity
        - RESP_HDR - content_type.len() {
        return None;
    }
    let mut out: Vec<u8> = Vec::new();
    push_u16(&mut out, reply.conn);
    assert(out@ =~= le16_bytes(reply.conn as nat));
    push_u16(&mut out, reply.stream);
    push_u16(&mut out, reply.status);
    let ghost start = out@;
    let wrapped: u8 = (content_type.len() % 256) as u8;
    out.push(0);
    out.push(wrapped);
    out.push(0);
    out.push(0);
    assert(out@ =~= start + seq![0u8, wrapped, 0u8, 0u8]);
    let announced: u16 = (body.len() % 65536) as u16;
    push_u16(&mut out, announced);
    proof {
        lemma_le16_wraps(body@.len());
    }
    append(&mut out, content_type);
    append(&mut out, body);
    Some(out)
}

/// Every letter of `s` in lower case.
pub open spec fn lowered(s: Seq<u8>) -> Seq<u8> {
    s.map_values(|b: u8| bytes::lower(b))
}

/// What follows the colon of the first header line named `name`, which is in lower case: lines
/// end with a line feed, and the name ends at the first colon.
pub open spec fn raw_header(block: Seq<u8>, name: Seq<u8>) -> Option<Seq<u8>>
    decreases block.len(),
{
    if block.len() == 0 {
        None
    } else {
        let end = bytes::position_of(block, 10) as int;
        let line = block.take(end);
        let colon = bytes::position_of(line, 58) as int;
        if colon < line.len() && lowered(line.take(colon)) == name {
            Some(line.skip(colon + 1))
        } else if end < block.len() {
            raw_header(block.skip(end + 1), name)
        } else {
            None
        }
    }
}

/// The value of the first header line named `name`, trimmed.
pub open spec fn header(block: Seq<u8>, name: Seq<u8>) -> Option<Seq<u8>> {
    match raw_header(block, name) {
        Some(value) => Some(bytes::trimmed(value)),
        None => None,
    }
}

fn names_match(key: &[u8], name: &[u8]) -> (r: bool)
    ensures
        r == (lowered(key@) == name@),
{
    if key.len() != name.len() {
        assert(lowered(key@).len() == key@.len());
        return false;
    }
    let mut i: usize = 0;
    while i < key.len()
        invariant
            i <= key@.len(),
            key@.len() == name@.len(),
            forall|j: int| 0 <= j < i ==> bytes::lower(#[trigger] key@[j]) == name@[j],
        decreases key@.len() - i,
    {
        if to_lower(key[i]) != name[i] {
            assert(lowered(key@)[i as int] != name@[i as int]);
            return false;
        }
        i = i + 1;
    }
    assert(lowered(key@) =~= name@);
    true
}

/// What follows the colon of the header line `name`.
pub fn raw_header_value<'a>(block: &'a [u8], name: &[u8]) -> (r: Option<&'a [u8]>)
    ensures
        match r {
            Some(v) => raw_header(block@, name@) == Some(v@),
            None => raw_header(block@, name@) is None,
        },
{
    let mut at: usize = 0;
    let total: usize = block.len();
    assert(block@.skip(0) =~= block@);
    while at < total
        invariant
            at <= total == block@.len(),
            raw_header(block@, name@) == raw_header(block@.skip(at as int), name@),
        decreases total - at,
    {
        let rest = slice_subrange(block, at, total);
        assert(rest@ =~= block@.skip(at as int));
        let end: usize = position(rest, 10);
        let line = slice_subrange(rest, 0, end);
        assert(line@ =~= rest@.take(end as int));
        let colon: usize = position(line, 58);
        if colon < line.len() {
            let key = slice_subrange(line, 0, colon);
            assert(key@ =~= line@.take(colon as int));
            if names_match(key, name) {
                let value = slice_subrange(line, colon + 1, line.len());
                assert(value@ =~= line@.skip(colon as int + 1));
                return Some(value);
            }
        }
        if end >= rest.len() {
            return None;
        }
        at = at + end + 1;
        assert(rest@.skip(end as int + 1) =~= block@.skip(at as int));
    }
    assert(block@.skip(at as int) =~= Seq::<u8>::empty());
    None
}

/// The value of the header line `name`.
pub fn header_value<'a>(block: &'a [u8], name: &[u8]) -> (r: Option<&'a [u8]>)
    ensures
        match r {
            Some(v) => header(block@, name@) == Some(v@),
            None => header(block@, name@) is None,
        },
{
    match raw_header_value(block, name) {
        Some(value) => Some(trim(value)),
        None => None,
    }
}

/// What follows the scheme `DPoP ` of an authorization value, trimmed; nothing for another
/// scheme or where nothing follows.
pub open spec fn dpop_credential(value: Seq<u8>) -> Option<Seq<u8>> {
    if value.len() > 5 && bytes::same_letters(value.take(5), bytes::text("DPoP ")) {
        Some(bytes::trimmed(value.skip(5)))
    } else {
        None
    }
}

/// Strip the `DPoP ` scheme from an `Authorization` value.
pub fn strip_dpop_scheme(value: &[u8]) -> (r: Option<&[u8]>)
    ensures
        match r {
            Some(v) => dpop_credential(value@) == Some(v@),
            None => dpop_credential(value@) is None,
        },
{
    if value.len() > 5 {
        let scheme = slice_subrange(value, 0, 5);
        assert(scheme@ =~= value@.take(5));
        if equal_letters(scheme, "DPoP ".as_bytes()) {
            let rest = slice_subrange(value, 5, value.len());
            assert(rest@ =~= value@.skip(5));
            return Some(trim(rest));
        }
    }
    None
}

/// The credential and the proof that a header block presents, each cut to nothing where it is
/// absent or longer than `limit`.
pub open spec fn presented_credential(block: Seq<u8>, limit: nat) -> Seq<u8> {
    match header(block, bytes::text("authorization")) {
        Some(value) => match dpop_credential(value) {
            Some(v) => bytes::fitting(v, limit),
            None => Seq::empty(),
        },
        None => Seq::empty(),
    }
}

pub open spec fn presented_proof(block: Seq<u8>, limit: nat) -> Seq<u8> {
    match header(block, bytes::text("dpop")) {
        Some(v) => bytes::fitting(v, limit),
        None => Seq::empty(),
    }
}

pub fn read_credential(block: &[u8], limit: usize) -> (r: Vec<u8>)
    ensures
        r@ == presented_credential(block@, limit as nat),
{
    match header_value(block, "authorization".as_bytes()) {
        Some(value) => match strip_dpop_scheme(value) {
            Some(v) => bytes::copy_into(v, limit),
            None => Vec::new(),
        },
        None => Vec::new(),
    }
}

pub fn read_proof(block: &[u8], limit: usize) -> (r: Vec<u8>)
    ensures
        r@ == presented_proof(block@, limit as nat),
{
    match header_value(block, "dpop".as_bytes()) {
        Some(v) => bytes::copy_into(v, limit),
        None => Vec::new(),
    }
}

/// A request is its parts: whatever path, headers and body it was made of are what is read of it,
/// and it is answered to the connection and the stream that it names.
pub proof fn a_request_is_its_parts(
    conn: u16,
    stream: u16,
    method: u8,
    flags: u8,
    p: Seq<u8>,
    h: Seq<u8>,
    b: Seq<u8>,
    more: Seq<u8>,
)
    requires
        p.len() <= 65535,
        h.len() <= 65535,
        b.len() <= 65535,
    ensures
        ({
            let r = seq![
                (conn % 256) as u8,
                (conn / 256) as u8,
                (stream % 256) as u8,
                (stream / 256) as u8,
                method,
                flags,
                (p.len() % 256) as u8,
                (p.len() / 256) as u8,
                (h.len() % 256) as u8,
                (h.len() / 256) as u8,
                (b.len() % 256) as u8,
                (b.len() / 256) as u8,
            ] + p + h + b + more;
            &&& complete(r)
            &&& path(r) == p
            &&& headers(r) == h
            &&& body(r) == b
            &&& le16(r, 0) == conn
            &&& le16(r, 2) == stream
            &&& r[4] == method
        }),
{
    let head = seq![
        (conn % 256) as u8,
        (conn / 256) as u8,
        (stream % 256) as u8,
        (stream / 256) as u8,
        method,
        flags,
        (p.len() % 256) as u8,
        (p.len() / 256) as u8,
        (h.len() % 256) as u8,
        (h.len() / 256) as u8,
        (b.len() % 256) as u8,
        (b.len() / 256) as u8,
    ];
    let r = head + p + h + b + more;
    assert forall|i: int| 0 <= i < 12 implies #[trigger] r[i] == head[i] by {}
    assert(path_len(r) == p.len());
    assert(headers_len(r) == h.len());
    assert(body_len(r) == b.len());
    assert(path(r) =~= p);
    assert(headers(r) =~= h);
    assert(body(r) =~= b);
}

/// A header is found under its name in any case: the value of the first line so named, trimmed, and
/// a line of another name is passed over.
pub proof fn a_header_is_found_by_its_name(
    key: Seq<u8>,
    value: Seq<u8>,
    rest: Seq<u8>,
    name: Seq<u8>,
)
    requires
        forall|i: int| 0 <= i < key.len() ==> #[trigger] key[i] != 58 && key[i] != 10,
        forall|i: int| 0 <= i < value.len() ==> #[trigger] value[i] != 10,
    ensures
        ({
            let block = key + seq![58u8] + value + seq![10u8] + rest;
            let same = key.len() == name.len() && forall|i: int|
                0 <= i < key.len() ==> #[trigger] name[i] == if 65 <= key[i] <= 90 {
                    (key[i] + 32) as u8
                } else {
                    key[i]
                };
            &&& same ==> header(block, name) == Some(bytes::trimmed(value))
            &&& !same ==> header(block, name) == header(rest, name)
            &&& header(Seq::<u8>::empty(), name) is None
        }),
{
    let block = key + seq![58u8] + value + seq![10u8] + rest;
    let end = key.len() + 1 + value.len();
    assert forall|j: int| 0 <= j < end implies #[trigger] block[j] != 10 by {
        if j < key.len() {
            assert(block[j] == key[j]);
        } else if j > key.len() {
            assert(block[j] == value[j - key.len() - 1]);
        }
    }
    bytes::lemma_position_unique(block, 10, end as int);
    let line = block.take(end as int);
    assert forall|j: int| 0 <= j < key.len() implies #[trigger] line[j] != 58 by {
        assert(line[j] == key[j]);
    }
    bytes::lemma_position_unique(line, 58, key.len() as int);
    assert(line.take(key.len() as int) =~= key);
    assert(line.skip(key.len() as int + 1) =~= value);
    assert(block.skip(end as int + 1) =~= rest);
    if key.len() == name.len() && forall|i: int|
        0 <= i < key.len() ==> #[trigger] name[i] == if 65 <= key[i] <= 90 {
            (key[i] + 32) as u8
        } else {
            key[i]
        } {
        assert(lowered(key) =~= name);
    } else if lowered(key) == name {
        assert forall|i: int| 0 <= i < key.len() implies #[trigger] name[i] == if 65 <= key[i]
            <= 90 {
            (key[i] + 32) as u8
        } else {
            key[i]
        } by {
            assert(lowered(key)[i] == bytes::lower(key[i]));
        }
    }
}

/// The credential is what follows `DPoP ` in the authorization header, in any case, and the proof
/// is the whole `dpop` header; either counts as absent where it is longer than can be taken.
pub proof fn what_a_header_block_presents(block: Seq<u8>, limit: nat, scheme: Seq<u8>, v: Seq<u8>)
    requires
        scheme.len() == 5,
        v.len() > 0,
    ensures
        header(block, bytes::text("authorization")) == Some(scheme + v) ==> presented_credential(
            block,
            limit,
        ) == (if (scheme[0] == 68 || scheme[0] == 100) && (scheme[1] == 80 || scheme[1] == 112) && (
        scheme[2] == 111 || scheme[2] == 79) && (scheme[3] == 80 || scheme[3] == 112) && scheme[4]
            == 32 && bytes::trimmed(v).len() <= limit {
            bytes::trimmed(v)
        } else {
            Seq::empty()
        }),
        header(block, bytes::text("authorization")) is None ==> presented_credential(
            block,
            limit,
        ).len() == 0,
        header(block, bytes::text("dpop")) == Some(v) ==> presented_proof(block, limit) == (
        if v.len() <= limit {
            v
        } else {
            Seq::empty()
        }),
        header(block, bytes::text("dpop")) is None ==> presented_proof(block, limit).len() == 0,
{
    let value = scheme + v;
    assert(value.take(5) =~= scheme);
    assert(value.skip(5) =~= v);
    reveal_strlit("DPoP ");
    assert("DPoP ".is_ascii());
    let word = bytes::text("DPoP ");
    assert(word =~= seq![68u8, 80, 111, 80, 32]);
    assert(bytes::same_letters(scheme, word) <==> (scheme[0] == 68 || scheme[0] == 100) && (
    scheme[1] == 80 || scheme[1] == 112) && (scheme[2] == 111 || scheme[2] == 79) && (scheme[3] == 80
        || scheme[3] == 112) && scheme[4] == 32) by {
        if bytes::same_letters(scheme, word) {
            assert(bytes::lower(scheme[0]) == bytes::lower(word[0]));
            assert(bytes::lower(scheme[1]) == bytes::lower(word[1]));
            assert(bytes::lower(scheme[2]) == bytes::lower(word[2]));
            assert(bytes::lower(scheme[3]) == bytes::lower(word[3]));
            assert(bytes::lower(scheme[4]) == bytes::lower(word[4]));
        }
    }
}

/// A reply's envelope names its connection, stream and status and the lengths of what follows, and
/// what follows is the content type and the body.
pub proof fn an_envelope_holds_its_reply(
    conn: u16,
    stream: u16,
    status: u16,
    content_type: Seq<u8>,
    text: Seq<u8>,
)
    requires
        content_type.len() <= 255,
        text.len() <= 65535,
    ensures
        ({
            let e = envelope(conn as nat, stream as nat, status as nat, content_type, text);
            &&& e.len() == 12 + content_type.len() + text.len()
            &&& e[0] + 256 * e[1] == conn
            &&& e[2] + 256 * e[3] == stream
            &&& e[4] + 256 * e[5] == status
            &&& e[7] == content_type.len()
            &&& e[10] + 256 * e[11] == text.len()
            &&& e.subrange(12, 12 + content_type.len() as int) == content_type
            &&& e.skip(12 + content_type.len() as int) == text
        }),
{
    let e = envelope(conn as nat, stream as nat, status as nat, content_type, text);
    assert(e.subrange(12, 12 + content_type.len() as int) =~= content_type);
    assert(e.skip(12 + content_type.len() as int) =~= text);
}

/// A reply goes back on the connection and the stream that its request came on, and is JSON.
pub proof fn a_reply_goes_back(reply: Reply, r: Seq<u8>, status: u16, body: Seq<u8>)
    requires
        reply.answers(r, status, body),
    ensures
        reply.conn == r[0] + 256 * r[1],
        reply.stream == r[2] + 256 * r[3],
        reply.status == status,
        reply.body@ == body,
        reply.content_type == "application/json",
{
}

} // verus!
