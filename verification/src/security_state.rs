//! The identity ledger: records that are created only where there is none, replaced or removed
//! only where they have not moved, and read. It answers only what its provider has committed, and
//! without a provider that can write conditionally it refuses everything.
use vstd::prelude::*;
use vstd::slice::slice_to_vec;

use crate::bytes;
use crate::bytes::{append, bytes_equal, copy_field};
use crate::http;
use crate::keys;
use crate::keys::count;
use crate::ledger::{StateReply, Status};
use crate::wire;

verus! {

/// Room for the fence that a provider writes back.
pub const FENCE_CAP: usize = 62;

/// Room for the record of a head request.
pub const HEAD_BUF_LEN: usize = 256;

/// Room for the argument block of a provider call.
pub const ARG_BUF_LEN: usize = 512;

pub const CONTENT_TYPE: &'static str = "application/vnd.kagi.state";

/// A key that is never written: a head request on it tells whether there is a provider.
pub const PROBE_KEY: &'static str = "kagi/probe/conditional-writes";

/// Which authority a deployment declares that it is.
#[derive(Clone, Copy, Debug, PartialEq, Eq, Structural)]
pub enum Authority {
    Undeclared,
    SingleNode,
    Replicated,
}

/// The authority that a declaration names: one of two words in full, or none.
pub open spec fn declared(word: Seq<u8>) -> Authority {
    if word == bytes::text("single-node") {
        Authority::SingleNode
    } else if word == bytes::text("replicated") {
        Authority::Replicated
    } else {
        Authority::Undeclared
    }
}

pub fn match_authority(word: &[u8]) -> (r: Authority)
    ensures
        r == declared(word@),
{
    if bytes_equal(word, "single-node".as_bytes()) {
        Authority::SingleNode
    } else if bytes_equal(word, "replicated".as_bytes()) {
        Authority::Replicated
    } else {
        Authority::Undeclared
    }
}

/// What a write is conditional on.
#[derive(Clone, Copy, Debug, PartialEq, Eq, Structural)]
pub enum Precondition {
    /// There is no record.
    Absent,
    /// The record still has this etag.
    Etag,
}

impl Precondition {
    pub open spec fn spec_code(self) -> u8 {
        match self {
            Precondition::Absent => 1,
            Precondition::Etag => 2,
        }
    }

    pub fn code(self) -> (r: u8)
        ensures
            r == self.spec_code(),
    {
        match self {
            Precondition::Absent => 1,
            Precondition::Etag => 2,
        }
    }
}

/// What the provider said to a call.
#[derive(Clone, Copy, Debug, PartialEq, Eq, Structural)]
pub enum Outcome {
    /// It was done; this many bytes were written back.
    Done(usize),
    /// There is no such object.
    Absent,
    /// There is one already.
    Exists,
    /// The object moved under its condition.
    Moved,
    /// The call is not one that the provider knows.
    Unsupported,
    /// Anything else.
    Failed,
}

#[derive(Clone, Copy, Debug, PartialEq, Eq, Structural)]
pub enum Operation {
    Get,
    PutAbsent,
    Cas,
    Delete,
    /// A message of another kind.
    Other,
}

/// One decoded request.
pub struct Request {
    pub operation: Operation,
    pub correlation: u32,
    pub client: u8,
    /// The key under the prefix of its namespace, where the two compose.
    pub key: Option<Vec<u8>>,
    pub value: Vec<u8>,
    pub etag: Vec<u8>,
}

/// A reply, and whether it goes out as the answer to a read.
pub struct Answer {
    pub read: bool,
    pub reply: StateReply,
}

impl Answer {
    /// A reply that holds a status and nothing else.
    pub open spec fn is(self, ticket: Ticket, status: Status, read: bool) -> bool {
        &&& self.read == read
        &&& self.reply.client == ticket.client
        &&& self.reply.correlation == ticket.correlation
        &&& self.reply.status == status
        &&& self.reply.value@.len() == 0
        &&& self.reply.etag@.len() == 0
    }
}

/// Whom a reply goes to.
#[derive(Clone, Copy, Debug, PartialEq, Eq, Structural)]
pub struct Ticket {
    pub correlation: u32,
    pub client: u8,
}

pub enum Step {
    /// There is nobody to answer.
    Drop,
    Reply(Answer),
    /// Ask for the head of the record.
    Head { ticket: Ticket, key: Vec<u8> },
    /// Write the record under its condition.
    Put {
        ticket: Ticket,
        key: Vec<u8>,
        value: Vec<u8>,
        precondition: Precondition,
        guard: Vec<u8>,
    },
    /// Remove the record while it has this etag.
    Delete { ticket: Ticket, key: Vec<u8>, guard: Vec<u8> },
}

pub enum ReadStep {
    Reply(Answer),
    /// Read this many bytes of the record, whose etag this is.
    Body { size: usize, etag: Vec<u8> },
}

pub enum WriteStep {
    Reply(Answer),
    /// The write is committed: ask for the head of the record.
    Head,
}

pub struct Ledger {
    pub authority: Authority,
    pub unavailable: bool,
    pub probed: bool,
    pub max_value: usize,
    pub max_etag: usize,
    pub state_get: u32,
    pub state_put_absent: u32,
    pub state_cas: u32,
    pub state_delete: u32,
    pub state_conflict: u32,
    pub state_unavailable: u32,
    pub state_malformed: u32,
    pub state_read_too_weak: u32,
}

/// The size and the etag in a head record,
/// `[size u64][mtime u64][content_type_len u8][content_type][etag_len u8][etag]`.
pub open spec fn head_of(record: Seq<u8>, max_etag: nat) -> Option<(nat, Seq<u8>)> {
    if record.len() < 17 {
        None
    } else {
        match wire::field8(record, 17 + record[16] as int) {
            Some(etag) => if etag.len() <= max_etag {
                Some((wire::le64(record, 0), etag))
            } else {
                None
            },
            None => None,
        }
    }
}

pub fn parse_head(record: &[u8], max_etag: usize) -> (r: Option<(u64, Vec<u8>)>)
    ensures
        match r {
            Some(h) => head_of(record@, max_etag as nat) == Some((h.0 as nat, h.1@)),
            None => head_of(record@, max_etag as nat) is None,
        },
{
    if record.len() < 17 {
        return None;
    }
    let size: u64 = wire::read_u64(record, 0);
    let at: usize = 17 + record[16] as usize;
    match wire::read_field8(record, at) {
        Some(etag) => if etag.len() <= max_etag {
            Some((size, slice_to_vec(etag)))
        } else {
            None
        },
        None => None,
    }
}

/// A head record reads back as the size and the etag that it was made of.
pub proof fn head_reads_back(size: u64, mtime: u64, content_type: Seq<u8>, etag: Seq<u8>)
    requires
        content_type.len() <= 255,
        etag.len() <= 255,
    ensures
        head_of(
            wire::le64_bytes(size as nat) + wire::le64_bytes(mtime as nat) + wire::field8_bytes(
                content_type,
            ) + wire::field8_bytes(etag),
            255,
        ) == Some((size as nat, etag)),
{
    let a = wire::le64_bytes(size as nat);
    let b = wire::le64_bytes(mtime as nat);
    let c = wire::field8_bytes(content_type);
    let e = wire::field8_bytes(etag);
    let s = a + b + c + e;
    assert(s[16] == content_type.len());
    wire::field8_reads_back(a + b + c, etag, Seq::empty());
    assert(a + b + c + e + Seq::empty() =~= s);
    wire::long_number_reads_back(Seq::empty(), size, b + c + e);
    assert(s =~= Seq::<u8>::empty() + a + (b + c + e));
}

/// The argument block of a head request.
pub open spec fn head_arg(key: Seq<u8>, out: u64, fence: u64) -> Seq<u8> {
    wire::field16_bytes(key) + wire::le64_bytes(out as nat) + wire::le32_bytes(256)
        + wire::le64_bytes(fence as nat) + http::le16_bytes(FENCE_CAP as nat)
}

/// Build the argument block of a head request, within `limit` bytes. `out` and `fence` are where
/// the provider writes.
pub fn encode_head_arg(limit: usize, key: &[u8], out: u64, fence: u64) -> (r: Option<Vec<u8>>)
    ensures
        r is Some <==> key@.len() + 24 <= limit && key@.len() <= 65535,
        r matches Some(arg) ==> arg@ == head_arg(key@, out, fence),
{
    if key.len() > 65535 || limit < 24 || key.len() > limit - 24 {
        return None;
    }
    let mut arg: Vec<u8> = Vec::new();
    let _ = wire::put_field16(&mut arg, limit, key);
    assert(arg@ =~= wire::field16_bytes(key@));
    put_u64_le(&mut arg, out);
    let room = wire::u32_bytes(HEAD_BUF_LEN as u32);
    append(&mut arg, room.as_slice());
    put_fence(&mut arg, fence);
    Some(arg)
}

fn put_u64_le(arg: &mut Vec<u8>, v: u64)
    ensures
        final(arg)@ == old(arg)@ + wire::le64_bytes(v as nat),
{
    let piece = wire::u64_bytes(v);
    append(arg, piece.as_slice());
}

fn put_fence(arg: &mut Vec<u8>, fence: u64)
    ensures
        final(arg)@ == old(arg)@ + wire::le64_bytes(fence as nat) + http::le16_bytes(FENCE_CAP as nat),
{
    let ghost start = arg@;
    put_u64_le(arg, fence);
    let ghost mid = arg@;
    arg.push(FENCE_CAP as u8);
    arg.push(0);
    assert(arg@ =~= mid + http::le16_bytes(FENCE_CAP as nat));
}

/// The length of a write's argument block, but for its key and its etag.
pub open spec fn put_overhead() -> nat {
    31 + bytes::text(CONTENT_TYPE).len()
}

/// A write's argument block can be built.
pub open spec fn put_fits(key: Seq<u8>, etag: Seq<u8>, limit: nat) -> bool {
    put_overhead() + key.len() + etag.len() <= limit && key.len() <= 65535 && etag.len() <= 255
}

/// The argument block of a write.
pub open spec fn put_arg(
    key: Seq<u8>,
    body: u64,
    body_len: u64,
    precondition: Precondition,
    etag: Seq<u8>,
    fence: u64,
) -> Seq<u8> {
    wire::field16_bytes(key) + wire::field8_bytes(bytes::text(CONTENT_TYPE)) + wire::le64_bytes(
        body as nat,
    ) + wire::le64_bytes(body_len as nat) + seq![precondition.spec_code()] + wire::field8_bytes(
        etag,
    ) + wire::le64_bytes(fence as nat) + http::le16_bytes(FENCE_CAP as nat)
}

/// Build the argument block of a write, within `limit` bytes. `body` is where the provider reads
/// and `fence` is where it writes.
pub fn encode_put_arg(
    limit: usize,
    key: &[u8],
    body: u64,
    body_len: u64,
    precondition: Precondition,
    etag: &[u8],
    fence: u64,
) -> (r: Option<Vec<u8>>)
    ensures
        r is Some <==> put_fits(key@, etag@, limit as nat),
        r matches Some(arg) ==> arg@ == put_arg(key@, body, body_len, precondition, etag@, fence),
{
    if !put_block_fits(key, etag, limit) {
        return None;
    }
    let content_type = CONTENT_TYPE.as_bytes();
    let mut arg: Vec<u8> = Vec::new();
    let _ = wire::put_field16(&mut arg, limit, key);
    assert(arg@ =~= wire::field16_bytes(key@));
    proof {
        lemma_content_type();
    }
    let _ = wire::put_field8(&mut arg, limit, content_type);
    put_u64_le(&mut arg, body);
    put_u64_le(&mut arg, body_len);
    let ghost start = arg@;
    arg.push(precondition.code());
    assert(arg@ =~= start + seq![precondition.spec_code()]);
    proof {
        lemma_le64_len(body as nat);
        lemma_le64_len(body_len as nat);
    }
    let _ = wire::put_field8(&mut arg, limit, etag);
    put_fence(&mut arg, fence);
    Some(arg)
}

proof fn lemma_le64_len(v: nat)
    ensures
        wire::le64_bytes(v).len() == 8,
{
}

proof fn lemma_content_type()
    ensures
        bytes::text(CONTENT_TYPE).len() == 26,
{
    reveal_strlit("application/vnd.kagi.state");
    assert("application/vnd.kagi.state".is_ascii());
}

fn put_block_fits(key: &[u8], etag: &[u8], limit: usize) -> (r: bool)
    ensures
        r == put_fits(key@, etag@, limit as nat),
{
    proof {
        lemma_content_type();
    }
    key.len() <= 65535 && etag.len() <= 255 && 57 + key.len() + etag.len() <= limit
}

/// A removal's argument block can be built.
pub open spec fn delete_fits(key: Seq<u8>, etag: Seq<u8>, limit: nat) -> bool {
    14 + key.len() + etag.len() <= limit && key.len() <= 65535 && etag.len() <= 255
}

/// The argument block of a removal, which is always conditional on the etag.
pub open spec fn delete_arg(key: Seq<u8>, etag: Seq<u8>, fence: u64) -> Seq<u8> {
    wire::field16_bytes(key) + seq![Precondition::Etag.spec_code()] + wire::field8_bytes(etag)
        + wire::le64_bytes(fence as nat) + http::le16_bytes(FENCE_CAP as nat)
}

/// Build the argument block of a removal, within `limit` bytes.
pub fn encode_delete_arg(limit: usize, key: &[u8], etag: &[u8], fence: u64) -> (r: Option<Vec<u8>>)
    ensures
        r is Some <==> delete_fits(key@, etag@, limit as nat),
        r matches Some(arg) ==> arg@ == delete_arg(key@, etag@, fence),
{
    if !delete_block_fits(key, etag, limit) {
        return None;
    }
    let mut arg: Vec<u8> = Vec::new();
    let _ = wire::put_field16(&mut arg, limit, key);
    assert(arg@ =~= wire::field16_bytes(key@));
    let ghost start = arg@;
    arg.push(Precondition::Etag.code());
    assert(arg@ =~= start + seq![Precondition::Etag.spec_code()]);
    let _ = wire::put_field8(&mut arg, limit, etag);
    put_fence(&mut arg, fence);
    Some(arg)
}

fn delete_block_fits(key: &[u8], etag: &[u8], limit: usize) -> (r: bool)
    ensures
        r == delete_fits(key@, etag@, limit as nat),
{
    key.len() <= 65535 && etag.len() <= 255 && 14 + key.len() + etag.len() <= limit
}

/// The argument block of a ranged read from the start of a record.
pub open spec fn range_arg(size: u32, out: u64) -> Seq<u8> {
    wire::le64_bytes(0) + wire::le32_bytes(size as nat) + wire::le64_bytes(out as nat)
}

pub fn encode_range_arg(size: u32, out: u64) -> (r: Vec<u8>)
    ensures
        r@ == range_arg(size, out),
{
    let mut arg = wire::u64_bytes(0);
    let wanted = wire::u32_bytes(size);
    append(&mut arg, wanted.as_slice());
    put_u64_le(&mut arg, out);
    arg
}

/// The argument blocks of two writes of one body under one key are the same only where the
/// condition that they write it under is the same.
pub proof fn condition_survives_encoding(
    key: Seq<u8>,
    body: u64,
    body_len: u64,
    fence: u64,
    p: Precondition,
    q: Precondition,
    e: Seq<u8>,
    f: Seq<u8>,
)
    requires
        e.len() <= 255,
        f.len() <= 255,
        put_arg(key, body, body_len, p, e, fence) == put_arg(key, body, body_len, q, f, fence),
    ensures
        p == q,
        e == f,
{
    let head = wire::field16_bytes(key) + wire::field8_bytes(bytes::text(CONTENT_TYPE))
        + wire::le64_bytes(body as nat) + wire::le64_bytes(body_len as nat);
    let tail = wire::le64_bytes(fence as nat) + http::le16_bytes(FENCE_CAP as nat);
    let one = seq![p.spec_code()];
    let two = seq![q.spec_code()];
    let x = put_arg(key, body, body_len, p, e, fence);
    let y = put_arg(key, body, body_len, q, f, fence);
    let n = head.len() as int;
    assert(x =~= head + one + wire::field8_bytes(e) + tail);
    assert(y =~= head + two + wire::field8_bytes(f) + tail);
    assert(x[n] == p.spec_code());
    assert(y[n] == q.spec_code());
    wire::field8_reads_back(head + one, e, tail);
    wire::field8_reads_back(head + two, f, tail);
    assert((head + one).len() == n + 1 && (head + two).len() == n + 1);
}

impl Ledger {
    pub open spec fn same_counters(self, other: Self) -> bool {
        &&& self.state_get == other.state_get
        &&& self.state_put_absent == other.state_put_absent
        &&& self.state_cas == other.state_cas
        &&& self.state_delete == other.state_delete
        &&& self.state_conflict == other.state_conflict
        &&& self.state_unavailable == other.state_unavailable
        &&& self.state_malformed == other.state_malformed
        &&& self.state_read_too_weak == other.state_read_too_weak
    }

    /// Everything but the counters is as in `other`.
    pub open spec fn same_ledger(self, other: Self) -> bool {
        &&& self.authority == other.authority
        &&& self.unavailable == other.unavailable
        &&& self.probed == other.probed
        &&& self.max_value == other.max_value
        &&& self.max_etag == other.max_etag
    }

    pub fn module_new(authority: &[u8], max_value: usize, max_etag: usize) -> (r: Self)
        ensures
            r.authority == declared(authority@),
            !r.unavailable,
            !r.probed,
            r.max_value == max_value,
            r.max_etag == max_etag,
            r.state_get == 0,
            r.state_put_absent == 0,
            r.state_cas == 0,
            r.state_delete == 0,
            r.state_conflict == 0,
            r.state_unavailable == 0,
            r.state_malformed == 0,
            r.state_read_too_weak == 0,
    {
        Ledger {
            authority: match_authority(authority),
            unavailable: false,
            probed: false,
            max_value,
            max_etag,
            state_get: 0,
            state_put_absent: 0,
            state_cas: 0,
            state_delete: 0,
            state_conflict: 0,
            state_unavailable: 0,
            state_malformed: 0,
            state_read_too_weak: 0,
        }
    }

    /// Begin the one probe for a provider; whether a head request on [`PROBE_KEY`] is to be made.
    /// An undeclared authority refuses everything without one.
    pub fn probe(&mut self) -> (r: bool)
        ensures
            final(self).probed,
            final(self).unavailable == (old(self).unavailable || old(self).authority
                == Authority::Undeclared),
            r == (old(self).authority != Authority::Undeclared),
            final(self).same_counters(*old(self)),
            (Ledger {
                probed: old(self).probed,
                unavailable: old(self).unavailable,
                ..*final(self)
            }).same_ledger(*old(self)),
    {
        self.probed = true;
        if self.authority == Authority::Undeclared {
            self.unavailable = true;
            return false;
        }
        true
    }

    /// What the probe was answered: a call that the provider does not know means that there is no
    /// provider. An absent key is the healthy answer.
    pub fn probe_answered(&mut self, outcome: Outcome)
        ensures
            final(self).unavailable == (old(self).unavailable || outcome == Outcome::Unsupported),
            final(self).same_counters(*old(self)),
            (Ledger { unavailable: old(self).unavailable, ..*final(self) }).same_ledger(*old(self)),
    {
        match outcome {
            Outcome::Unsupported => {
                self.unavailable = true;
            },
            _ => {},
        }
    }

    /// What a request is answered before the provider is asked.
    pub open spec fn refusal(self, req: Request) -> Option<Status> {
        if self.unavailable {
            Some(Status::Unavailable)
        } else {
            match req.key {
                None => Some(Status::Malformed),
                Some(key) => {
                    let guard = bytes::clipped(req.etag@, self.max_etag as nat);
                    match req.operation {
                        Operation::Get => None,
                        Operation::PutAbsent => if put_fits(key@, Seq::empty(), 512) {
                            None
                        } else {
                            Some(Status::Full)
                        },
                        Operation::Cas => if guard.len() == 0 {
                            Some(Status::Malformed)
                        } else if put_fits(key@, guard, 512) {
                            None
                        } else {
                            Some(Status::Full)
                        },
                        Operation::Delete => if guard.len() == 0 {
                            Some(Status::Malformed)
                        } else if delete_fits(key@, guard, 512) {
                            None
                        } else {
                            Some(Status::Full)
                        },
                        Operation::Other => Some(Status::Malformed),
                    }
                },
            }
        }
    }

    /// The counter of the operation, where the request reached it.
    pub open spec fn operated(self, req: Request) -> Self {
        if self.unavailable || req.key is None {
            self
        } else {
            match req.operation {
                Operation::Get => Ledger { state_get: keys::counted(self.state_get), ..self },
                Operation::PutAbsent => Ledger {
                    state_put_absent: keys::counted(self.state_put_absent),
                    ..self
                },
                Operation::Cas => Ledger { state_cas: keys::counted(self.state_cas), ..self },
                Operation::Delete => Ledger {
                    state_delete: keys::counted(self.state_delete),
                    ..self
                },
                Operation::Other => self,
            }
        }
    }

    /// The counter of a refusal.
    pub open spec fn refused(self, status: Status) -> Self {
        match status {
            Status::Unavailable => Ledger {
                state_unavailable: keys::counted(self.state_unavailable),
                ..self
            },
            Status::Malformed => Ledger {
                state_malformed: keys::counted(self.state_malformed),
                ..self
            },
            _ => self,
        }
    }

    /// What the provider is asked for a request that is not refused.
    pub open spec fn passed_on(self, req: Request, r: Step) -> bool {
        let ticket = Ticket { correlation: req.correlation, client: req.client };
        match req.operation {
            Operation::Get => r == Step::Head { ticket, key: req.key->0 },
            Operation::PutAbsent => {
                &&& r matches Step::Put {
                    ticket: t,
                    key,
                    value,
                    precondition,
                    guard,
                }
                &&& t == ticket
                &&& key == req.key->0
                &&& value@ == bytes::clipped(
                    req.value@,
                    self.max_value as nat,
                )
                &&& precondition == Precondition::Absent
                &&& guard@.len() == 0
            },
            Operation::Cas => {
                &&& r matches Step::Put {
                    ticket: t,
                    key,
                    value,
                    precondition,
                    guard,
                }
                &&& t == ticket
                &&& key == req.key->0
                &&& value@ == bytes::clipped(
                    req.value@,
                    self.max_value as nat,
                )
                &&& precondition == Precondition::Etag
                &&& guard@ == bytes::clipped(
                    req.etag@,
                    self.max_etag as nat,
                )
            },
            Operation::Delete => {
                &&& r matches Step::Delete { ticket: t, key, guard }
                &&& t == ticket
                &&& key == req.key->0
                &&& guard@ == bytes::clipped(
                    req.etag@,
                    self.max_etag as nat,
                )
            },
            Operation::Other => false,
        }
    }

    /// Refuse a request, or say what the provider is to be asked. A request that does not decode
    /// names nobody to answer.
    pub fn handle_request(&mut self, request: Option<Request>) -> (r: Step)
        ensures
            match request {
                None => {
                    &&& r is Drop
                    &&& *final(self) == old(self).refused(Status::Malformed)
                },
                Some(req) => {
                    let ticket = Ticket { correlation: req.correlation, client: req.client };
                    match old(self).refusal(req) {
                        Some(status) => {
                            &&& r matches Step::Reply(a)
                            &&& a.is(ticket, status, req.operation == Operation::Get)
                            &&& *final(self) == old(self).operated(req).refused(status)
                        },
                        None => {
                            &&& *final(self) == old(self).operated(req)
                            &&& old(self).passed_on(req, r)
                        },
                    }
                },
            },
            r matches Step::Put { precondition, guard, .. } ==> precondition
                == Precondition::Absent || guard@.len() > 0,
            r matches Step::Delete { guard, .. } ==> guard@.len() > 0,
    {
        let req = match request {
            Some(req) => req,
            None => {
                count(&mut self.state_malformed);
                return Step::Drop;
            },
        };
        let ticket = Ticket { correlation: req.correlation, client: req.client };
        let read = match req.operation {
            Operation::Get => true,
            _ => false,
        };
        if self.unavailable {
            count(&mut self.state_unavailable);
            return Step::Reply(status_only(ticket, Status::Unavailable, read));
        }
        let key = match req.key {
            Some(key) => key,
            None => {
                count(&mut self.state_malformed);
                return Step::Reply(status_only(ticket, Status::Malformed, read));
            },
        };
        let nothing: Vec<u8> = Vec::new();
        match req.operation {
            Operation::Get => {
                count(&mut self.state_get);
                Step::Head { ticket, key }
            },
            Operation::PutAbsent => {
                count(&mut self.state_put_absent);
                assert(nothing@ =~= Seq::<u8>::empty());
                if !put_block_fits(key.as_slice(), nothing.as_slice(), ARG_BUF_LEN) {
                    return Step::Reply(status_only(ticket, Status::Full, read));
                }
                let value = copy_field(req.value.as_slice(), self.max_value);
                Step::Put { ticket, key, value, precondition: Precondition::Absent, guard: nothing }
            },
            Operation::Cas => {
                count(&mut self.state_cas);
                let guard = copy_field(req.etag.as_slice(), self.max_etag);
                let value = copy_field(req.value.as_slice(), self.max_value);
                if guard.len() == 0 {
                    count(&mut self.state_malformed);
                    return Step::Reply(status_only(ticket, Status::Malformed, read));
                }
                if !put_block_fits(key.as_slice(), guard.as_slice(), ARG_BUF_LEN) {
                    return Step::Reply(status_only(ticket, Status::Full, read));
                }
                Step::Put { ticket, key, value, precondition: Precondition::Etag, guard }
            },
            Operation::Delete => {
                count(&mut self.state_delete);
                let guard = copy_field(req.etag.as_slice(), self.max_etag);
                if guard.len() == 0 {
                    count(&mut self.state_malformed);
                    return Step::Reply(status_only(ticket, Status::Malformed, read));
                }
                if !delete_block_fits(key.as_slice(), guard.as_slice(), ARG_BUF_LEN) {
                    return Step::Reply(status_only(ticket, Status::Full, read));
                }
                Step::Delete { ticket, key, guard }
            },
            Operation::Other => {
                count(&mut self.state_malformed);
                Step::Reply(status_only(ticket, Status::Malformed, read))
            },
        }
    }

    /// What the head of a record that is read comes to, where no body is to be read: the answer.
    pub open spec fn read_refusal(
        self,
        outcome: Outcome,
        strong_enough: bool,
        record: Seq<u8>,
    ) -> Option<Status> {
        match outcome {
            Outcome::Done(_) => if !strong_enough {
                Some(Status::Unavailable)
            } else {
                match head_of(record, self.max_etag as nat) {
                    Some(h) => if h.0 <= self.max_value {
                        None
                    } else {
                        Some(Status::Unavailable)
                    },
                    None => Some(Status::Unavailable),
                }
            },
            Outcome::Absent => Some(Status::NotFound),
            _ => Some(Status::Unavailable),
        }
    }

    /// The head of a record that is read has come: its etag, and how much to read. Only an absent
    /// record is a miss; whatever else keeps the ledger from answering is no answer about the
    /// record. `strong_enough` says whether the view that answered is one that a decision on this
    /// class of state may rest on.
    pub fn do_get(
        &mut self,
        ticket: Ticket,
        outcome: Outcome,
        strong_enough: bool,
        record: &[u8],
    ) -> (r: ReadStep)
        ensures
            final(self).same_ledger(*old(self)),
            match old(self).read_refusal(outcome, strong_enough, record@) {
                Some(status) => r matches ReadStep::Reply(a) && a.is(ticket, status, true),
                None => {
                    &&& r matches ReadStep::Body { size, etag }
                    &&& head_of(record@, old(self).max_etag as nat) == Some((size as nat, etag@))
                },
            },
            final(self).state_unavailable == (match outcome {
                Outcome::Done(_) => old(self).state_unavailable,
                Outcome::Absent => old(self).state_unavailable,
                _ => keys::counted(old(self).state_unavailable),
            }),
            final(self).state_read_too_weak == (if outcome is Done && !strong_enough {
                keys::counted(old(self).state_read_too_weak)
            } else {
                old(self).state_read_too_weak
            }),
            (Ledger {
                state_unavailable: old(self).state_unavailable,
                state_read_too_weak: old(self).state_read_too_weak,
                ..*final(self)
            }).same_counters(*old(self)),
    {
        match outcome {
            Outcome::Done(_) => {},
            Outcome::Absent => {
                return ReadStep::Reply(status_only(ticket, Status::NotFound, true));
            },
            _ => {
                count(&mut self.state_unavailable);
                return ReadStep::Reply(status_only(ticket, Status::Unavailable, true));
            },
        }
        if !strong_enough {
            count(&mut self.state_read_too_weak);
            return ReadStep::Reply(status_only(ticket, Status::Unavailable, true));
        }
        match parse_head(record, self.max_etag) {
            Some((size, etag)) => if size <= self.max_value as u64 {
                ReadStep::Body { size: size as usize, etag }
            } else {
                ReadStep::Reply(status_only(ticket, Status::Unavailable, true))
            },
            None => ReadStep::Reply(status_only(ticket, Status::Unavailable, true)),
        }
    }

    /// The body of a record was read, or could not be.
    pub fn read_body(&self, ticket: Ticket, etag: Vec<u8>, body: Option<Vec<u8>>) -> (r: Answer)
        ensures
            match body {
                Some(value) => {
                    &&& r.read
                    &&& r.reply.client == ticket.client
                    &&& r.reply.correlation == ticket.correlation
                    &&& r.reply.status == Status::Success
                    &&& r.reply.value == value
                    &&& r.reply.etag == etag
                },
                None => r.is(ticket, Status::Unavailable, true),
            },
    {
        match body {
            Some(value) => Answer {
                read: true,
                reply: StateReply {
                    client: ticket.client,
                    correlation: ticket.correlation,
                    status: Status::Success,
                    value,
                    etag,
                },
            },
            None => status_only(ticket, Status::Unavailable, true),
        }
    }

    /// What a write comes to where it is not committed as strongly as it has to be.
    pub open spec fn write_refusal(outcome: Outcome, strong_enough: bool) -> Option<Status> {
        match outcome {
            Outcome::Exists | Outcome::Moved => Some(Status::Conflict),
            Outcome::Done(_) => if strong_enough {
                None
            } else {
                Some(Status::Unavailable)
            },
            _ => Some(Status::Unavailable),
        }
    }

    /// A write was answered. A lost race is a conflict and never a generic error; a commit that
    /// is weaker than its class of state needs is not acknowledged.
    pub fn do_write(&mut self, ticket: Ticket, outcome: Outcome, strong_enough: bool) -> (r:
        WriteStep)
        ensures
            match Self::write_refusal(outcome, strong_enough) {
                Some(status) => {
                    &&& r matches WriteStep::Reply(a)
                    &&& a.is(ticket, status, false)
                    &&& *final(self) == if status == Status::Conflict {
                        Ledger { state_conflict: keys::counted(old(self).state_conflict), ..*old(
                            self,
                        ) }
                    } else {
                        old(self).refused(status)
                    }
                },
                None => r is Head && *final(self) == *old(self),
            },
    {
        match outcome {
            Outcome::Exists | Outcome::Moved => {
                count(&mut self.state_conflict);
                WriteStep::Reply(status_only(ticket, Status::Conflict, false))
            },
            Outcome::Done(_) => if strong_enough {
                WriteStep::Head
            } else {
                count(&mut self.state_unavailable);
                WriteStep::Reply(status_only(ticket, Status::Unavailable, false))
            },
            _ => {
                count(&mut self.state_unavailable);
                WriteStep::Reply(status_only(ticket, Status::Unavailable, false))
            },
        }
    }

    /// The head of a record that was written has come, or has not: acknowledge the write, with the
    /// etag that it produced where there is one.
    pub fn written(&self, ticket: Ticket, head: Option<&[u8]>) -> (r: Answer)
        ensures
            !r.read,
            r.reply.client == ticket.client,
            r.reply.correlation == ticket.correlation,
            r.reply.status == Status::Success,
            r.reply.value@.len() == 0,
            r.reply.etag@ == (match head {
                Some(record) => match head_of(record@, self.max_etag as nat) {
                    Some(h) => h.1,
                    None => Seq::empty(),
                },
                None => Seq::empty(),
            }),
    {
        let mut answer = status_only(ticket, Status::Success, false);
        match head {
            Some(record) => match parse_head(record, self.max_etag) {
                Some((_, etag)) => {
                    answer.reply.etag = etag;
                },
                None => {},
            },
            None => {},
        }
        answer
    }

    pub open spec fn delete_status(outcome: Outcome) -> Status {
        match outcome {
            Outcome::Moved => Status::Conflict,
            Outcome::Absent => Status::NotFound,
            Outcome::Done(_) => Status::Success,
            _ => Status::Unavailable,
        }
    }

    /// A removal was answered.
    pub fn do_delete(&mut self, ticket: Ticket, outcome: Outcome) -> (r: Answer)
        ensures
            r.is(ticket, Self::delete_status(outcome), false),
            *final(self) == (match Self::delete_status(outcome) {
                Status::Conflict => Ledger {
                    state_conflict: keys::counted(old(self).state_conflict),
                    ..*old(self)
                },
                Status::Unavailable => old(self).refused(Status::Unavailable),
                _ => *old(self),
            }),
    {
        let status = match outcome {
            Outcome::Moved => {
                count(&mut self.state_conflict);
                Status::Conflict
            },
            Outcome::Absent => Status::NotFound,
            Outcome::Done(_) => Status::Success,
            _ => {
                count(&mut self.state_unavailable);
                Status::Unavailable
            },
        };
        status_only(ticket, status, false)
    }
}

/// A reply that holds a status and nothing else.
pub fn status_only(ticket: Ticket, status: Status, read: bool) -> (r: Answer)
    ensures
        r.is(ticket, status, read),
{
    Answer {
        read,
        reply: StateReply {
            client: ticket.client,
            correlation: ticket.correlation,
            status,
            value: Vec::new(),
            etag: Vec::new(),
        },
    }
}

/// A ledger without a provider answers every request with a refusal, and none of its answers
/// reads as one about a record.
pub proof fn no_ledger_is_no_answer(ledger: Ledger, req: Request)
    requires
        ledger.unavailable,
    ensures
        ledger.refusal(req) == Some(Status::Unavailable),
{
}

/// A read says that there is no record only where the provider says so.
pub proof fn a_miss_is_an_absent_record(
    ledger: Ledger,
    outcome: Outcome,
    strong_enough: bool,
    record: Seq<u8>,
)
    requires
        ledger.read_refusal(outcome, strong_enough, record) == Some(Status::NotFound),
    ensures
        outcome == Outcome::Absent,
{
}

/// Of two creations of one record of which the provider commits one and tells the other that the
/// record exists, the second is answered with a conflict however strong the first commit was.
pub proof fn a_lost_race_is_a_conflict(strong_enough: bool)
    ensures
        Ledger::write_refusal(Outcome::Exists, strong_enough) == Some(Status::Conflict),
        Ledger::write_refusal(Outcome::Moved, strong_enough) == Some(Status::Conflict),
{
}

/// A replacement that quotes the etag of a read is answered with a conflict where the record was
/// replaced after its head was read, `current` being what the record's etag has become: the
/// provider sees the etag whole, and tells a guard that is not the current etag that the record
/// has moved.
pub proof fn a_stale_read_replaces_nothing(
    ledger: Ledger,
    record: Seq<u8>,
    req: Request,
    current: Seq<u8>,
    outcome: Outcome,
    strong_enough: bool,
)
    requires
        head_of(record, ledger.max_etag as nat) is Some,
        req.etag@ == (head_of(record, ledger.max_etag as nat)->0).1,
        current != req.etag@,
        bytes::clipped(req.etag@, ledger.max_etag as nat) != current ==> outcome == Outcome::Moved,
    ensures
        Ledger::write_refusal(outcome, strong_enough) == Some(Status::Conflict),
{
}

/// A request goes to the provider as it came: under its own key, with its whole value and its whole
/// etag, where they are within the limits, and its answer to who asked. A creation asks that there
/// is no record, and a replacement and a removal that the record still has the etag.
pub proof fn a_request_goes_on_whole(ledger: Ledger, req: Request, r: Step)
    requires
        ledger.refusal(req) is None,
        ledger.passed_on(req, r),
        req.value@.len() <= ledger.max_value,
        req.etag@.len() <= ledger.max_etag,
    ensures
        match r {
            Step::Head { ticket, key } => {
                &&& req.operation == Operation::Get
                &&& Some(key) == req.key
                &&& ticket.client == req.client
                &&& ticket.correlation == req.correlation
            },
            Step::Put { ticket, key, value, precondition, guard } => {
                &&& req.operation == Operation::PutAbsent || req.operation == Operation::Cas
                &&& Some(key) == req.key
                &&& value@ == req.value@
                &&& precondition == Precondition::Absent <==> req.operation == Operation::PutAbsent
                &&& req.operation == Operation::Cas ==> guard@ == req.etag@ && guard@.len() > 0
                &&& req.operation == Operation::PutAbsent ==> guard@.len() == 0
                &&& ticket.client == req.client
                &&& ticket.correlation == req.correlation
            },
            Step::Delete { ticket, key, guard } => {
                &&& req.operation == Operation::Delete
                &&& Some(key) == req.key
                &&& guard@ == req.etag@
                &&& guard@.len() > 0
                &&& ticket.client == req.client
                &&& ticket.correlation == req.correlation
            },
            _ => false,
        },
{
}

/// Which requests the provider is not asked about, and how they are answered: none while there is
/// no provider; none without a key; no replacement and no removal without an etag; and no write
/// whose argument block is too long.
pub proof fn what_is_not_asked(ledger: Ledger, req: Request)
    requires
        ledger.max_etag > 0,
    ensures
        ({
            let why = ledger.refusal(req);
            let guarded = req.operation == Operation::Cas || req.operation == Operation::Delete;
            &&& ledger.unavailable ==> why == Some(Status::Unavailable)
            &&& !ledger.unavailable && req.key is None ==> why == Some(Status::Malformed)
            &&& !ledger.unavailable && guarded && req.etag@.len() == 0 ==> why == Some(
                Status::Malformed,
            )
            &&& !ledger.unavailable && req.operation == Operation::Other ==> why == Some(
                Status::Malformed,
            )
            &&& !ledger.unavailable && req.operation == Operation::Get && req.key is Some
                ==> why is None
            &&& !ledger.unavailable && req.operation == Operation::PutAbsent && req.key is Some
                ==> why == if req.key->0@.len() <= 455 {
                None
            } else {
                Some(Status::Full)
            }
            &&& !ledger.unavailable && req.operation == Operation::Cas && req.key is Some && 0
                < req.etag@.len() <= ledger.max_etag && req.etag@.len() <= 255 ==> why == if req.key->0@.len()
                + req.etag@.len() <= 455 {
                None
            } else {
                Some(Status::Full)
            }
            &&& !ledger.unavailable && req.operation == Operation::Delete && req.key is Some && 0
                < req.etag@.len() <= ledger.max_etag && req.etag@.len() <= 255 ==> why == if req.key->0@.len()
                + req.etag@.len() <= 498 {
                None
            } else {
                Some(Status::Full)
            }
        }),
{
    reveal_strlit("application/vnd.kagi.state");
    assert("application/vnd.kagi.state".is_ascii());
    assert(bytes::text("application/vnd.kagi.state").len() == 26);
}

/// What each answer of the provider to a read means: only an absent record is a miss, and only a
/// strong enough view of a record that fits is one to go on with.
pub proof fn what_a_head_means(
    ledger: Ledger,
    outcome: Outcome,
    strong_enough: bool,
    record: Seq<u8>,
)
    ensures
        ({
            let why = ledger.read_refusal(outcome, strong_enough, record);
            &&& why == Some(Status::NotFound) <==> outcome == Outcome::Absent
            &&& why is None ==> {
                &&& outcome is Done
                &&& strong_enough
                &&& record.len() >= 18
                &&& wire::le64(record, 0) <= ledger.max_value
            }
            &&& why is Some && outcome != Outcome::Absent ==> why == Some(Status::Unavailable)
        }),
{
}

/// What each answer of the provider to a write and to a removal means: a lost race is a conflict,
/// and success is told only of what was done, and of a write only where it is strong enough.
pub proof fn what_a_commit_means(outcome: Outcome, strong_enough: bool)
    ensures
        Ledger::write_refusal(outcome, strong_enough) is None <==> outcome is Done && strong_enough,
        Ledger::write_refusal(outcome, strong_enough) == Some(Status::Conflict) <==> outcome
            == Outcome::Exists || outcome == Outcome::Moved,
        Ledger::delete_status(outcome) == Status::Success <==> outcome is Done,
        Ledger::delete_status(outcome) == Status::NotFound <==> outcome == Outcome::Absent,
        Ledger::delete_status(outcome) == Status::Conflict <==> outcome == Outcome::Moved,
        outcome == Outcome::Failed || outcome == Outcome::Unsupported ==> Ledger::delete_status(
            outcome,
        ) == Status::Unavailable && Ledger::write_refusal(outcome, strong_enough) == Some(
            Status::Unavailable,
        ),
{
}

/// The argument block of a write reads back: the key, the content type, where and how long the body
/// is, the condition and its etag, and where the fence goes.
#[verifier::rlimit(60)]
pub proof fn a_write_block_reads_back(
    key: Seq<u8>,
    body: u64,
    body_len: u64,
    precondition: Precondition,
    etag: Seq<u8>,
    fence: u64,
)
    requires
        key.len() <= 65535,
        etag.len() <= 255,
    ensures
        ({
            let arg = put_arg(key, body, body_len, precondition, etag, fence);
            let at = key.len() as int + 29;
            &&& wire::field16(arg, 0) == Some(key)
            &&& wire::field8(arg, key.len() as int + 2) == Some(
                bytes::text("application/vnd.kagi.state"),
            )
            &&& wire::le64(arg, at) == body
            &&& wire::le64(arg, at + 8) == body_len
            &&& arg[at + 16] == 1 <==> precondition == Precondition::Absent
            &&& arg[at + 16] == 2 <==> precondition == Precondition::Etag
            &&& wire::field8(arg, at + 17) == Some(etag)
            &&& wire::le64(arg, at + 18 + etag.len()) == fence
            &&& http::le16(arg, at + 26 + etag.len()) == 62
            &&& arg.len() == at + 28 + etag.len()
        }),
{
    reveal_strlit("application/vnd.kagi.state");
    assert("application/vnd.kagi.state".is_ascii());
    let arg = put_arg(key, body, body_len, precondition, etag, fence);
    let a = wire::field16_bytes(key);
    let b = wire::field8_bytes(bytes::text(CONTENT_TYPE));
    let c = wire::le64_bytes(body as nat);
    let d = wire::le64_bytes(body_len as nat);
    let e = seq![precondition.spec_code()];
    let f = wire::field8_bytes(etag);
    let g = wire::le64_bytes(fence as nat);
    let h = http::le16_bytes(FENCE_CAP as nat);
    let at = key.len() as int + 29;
    assert(a.len() == key.len() + 2 && b.len() == 27 && c.len() == 8 && d.len() == 8);
    assert(f.len() == etag.len() + 1 && g.len() == 8 && h.len() == 2);
    assert(arg == a + b + c + d + e + f + g + h);
    assert(wire::field16(arg, 0) == Some(key)) by {
        wire::field16_reads_back(Seq::empty(), key, b + c + d + e + f + g + h);
        assert(arg =~= Seq::<u8>::empty() + a + (b + c + d + e + f + g + h));
    }
    assert(wire::field8(arg, key.len() as int + 2) == Some(bytes::text(CONTENT_TYPE))) by {
        wire::field8_reads_back(a, bytes::text(CONTENT_TYPE), c + d + e + f + g + h);
        assert(arg =~= a + b + (c + d + e + f + g + h));
    }
    assert(wire::le64(arg, at) == body) by {
        wire::long_number_reads_back(a + b, body, d + e + f + g + h);
        assert(arg =~= a + b + c + (d + e + f + g + h));
    }
    assert(wire::le64(arg, at + 8) == body_len) by {
        wire::long_number_reads_back(a + b + c, body_len, e + f + g + h);
        assert(arg =~= a + b + c + d + (e + f + g + h));
    }
    assert(wire::field8(arg, at + 17) == Some(etag)) by {
        wire::field8_reads_back(a + b + c + d + e, etag, g + h);
        assert(arg =~= a + b + c + d + e + f + (g + h));
    }
    assert(wire::le64(arg, at + 18 + etag.len()) == fence) by {
        wire::long_number_reads_back(a + b + c + d + e + f, fence, h);
    }
    assert(arg[at + 16] == e[0]);
    assert(arg[at + 26 + etag.len()] == h[0] && arg[at + 27 + etag.len()] == h[1]);
}

/// The argument block of a head request and of a removal read back alike; a removal is always
/// conditional on the etag.
#[verifier::rlimit(60)]
pub proof fn the_other_blocks_read_back(
    key: Seq<u8>,
    etag: Seq<u8>,
    out: u64,
    fence: u64,
    size: u32,
)
    requires
        key.len() <= 65535,
        etag.len() <= 255,
    ensures
        ({
            let head = head_arg(key, out, fence);
            let removal = delete_arg(key, etag, fence);
            let range = range_arg(size, out);
            let at = key.len() as int + 2;
            &&& wire::field16(head, 0) == Some(key)
            &&& wire::le64(head, at) == out
            &&& wire::le32(head, at + 8) == 256
            &&& wire::le64(head, at + 12) == fence
            &&& wire::field16(removal, 0) == Some(key)
            &&& removal[at] == 2
            &&& wire::field8(removal, at + 1) == Some(etag)
            &&& wire::le64(removal, at + 2 + etag.len()) == fence
            &&& wire::le64(range, 0) == 0
            &&& wire::le32(range, 8) == size
            &&& wire::le64(range, 12) == out
        }),
{
    let a = wire::field16_bytes(key);
    let b = wire::le64_bytes(out as nat);
    let c = wire::le32_bytes(256);
    let d = wire::le64_bytes(fence as nat);
    let e = http::le16_bytes(FENCE_CAP as nat);
    let none = Seq::<u8>::empty();
    let head = head_arg(key, out, fence);
    let at = key.len() as int + 2;
    assert(a.len() == at && b.len() == 8 && c.len() == 4 && d.len() == 8 && e.len() == 2);
    assert(wire::field16(head, 0) == Some(key)) by {
        wire::field16_reads_back(none, key, b + c + d + e);
        assert(head =~= none + a + (b + c + d + e));
    }
    assert(wire::le64(head, at) == out) by {
        wire::long_number_reads_back(a, out, c + d + e);
        assert(head =~= a + b + (c + d + e));
    }
    assert(wire::le32(head, at + 8) == 256) by {
        wire::number_reads_back(a + b, 256, d + e);
        assert(head =~= a + b + c + (d + e));
    }
    assert(wire::le64(head, at + 12) == fence) by {
        wire::long_number_reads_back(a + b + c, fence, e);
    }
    let x = seq![Precondition::Etag.spec_code()];
    let y = wire::field8_bytes(etag);
    let removal = delete_arg(key, etag, fence);
    assert(wire::field16(removal, 0) == Some(key)) by {
        wire::field16_reads_back(none, key, x + y + d + e);
        assert(removal =~= none + a + (x + y + d + e));
    }
    assert(removal[at] == x[0]);
    assert(wire::field8(removal, at + 1) == Some(etag)) by {
        wire::field8_reads_back(a + x, etag, d + e);
        assert(removal =~= a + x + y + (d + e));
    }
    assert(wire::le64(removal, at + 2 + etag.len()) == fence) by {
        wire::long_number_reads_back(a + x + y, fence, e);
    }
    let z = wire::le64_bytes(0);
    let w = wire::le32_bytes(size as nat);
    let range = range_arg(size, out);
    assert(wire::le64(range, 0) == 0) by {
        wire::long_number_reads_back(none, 0, w + b);
        assert(range =~= none + z + (w + b));
    }
    assert(wire::le32(range, 8) == size) by {
        wire::number_reads_back(z, size, b);
    }
    assert(wire::le64(range, 12) == out) by {
        wire::long_number_reads_back(z + w, out, none);
        assert(range =~= z + w + b + none);
    }
}

/// The head of a record says how long it is and what its etag is, and nothing is read of a head
/// that is cut short.
pub proof fn a_short_head_says_nothing(record: Seq<u8>, max_etag: nat)
    ensures
        head_of(record, max_etag) matches Some(h) ==> {
            let at = 17 + record[16] as int;
            &&& record.len() > at
            &&& record.len() >= at + 1 + record[at]
            &&& h.0 == wire::le64(record, 0)
            &&& h.1 == record.subrange(at + 1, at + 1 + record[at])
            &&& h.1.len() <= max_etag
        },
{
}

/// A deployment is what its declaration says in full, and nothing else declares anything.
pub proof fn a_declaration_is_one_word(word: Seq<u8>)
    ensures
        declared(word) == Authority::SingleNode <==> word == bytes::text("single-node"),
        declared(word) == Authority::Replicated <==> word == bytes::text("replicated"),
{
    reveal_strlit("single-node");
    reveal_strlit("replicated");
    assert("single-node".is_ascii() && "replicated".is_ascii());
    assert(bytes::text("single-node").len() == 11 && bytes::text("replicated").len() == 10);
}

} // verus!
