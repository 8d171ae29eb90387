//! The mint: which key signs a token, what is signed, and what is answered. The private keys
//! stay in the vault.
use vstd::prelude::*;
use vstd::slice::slice_to_vec;

use crate::base64;
use crate::bytes;
use crate::bytes::{append, bytes_equal};
use crate::claims;
use crate::claims::{json_safe, RecordWriter, Value};
use crate::crypto;
use crate::jose;
use crate::keys;
use crate::keys::{count, KeyRecord, KeyRef, KeyState, KeyUse, Suite};
use crate::token_verify;
use crate::wire;

verus! {

pub const MAX_KID_LEN: usize = 64;

pub const MAX_ISSUER_LEN: usize = 64;

/// Longest vault label.
pub const MAX_KEY_LABEL: usize = 32;

/// Keys held at once, over all profiles.
pub const MAX_KEYS: usize = 8;

/// Longest token.
pub const TOKEN_BUF_LEN: usize = 4096;

/// The vault's key type for a suite.
pub fn kv_key_type(suite: Suite) -> (r: u8)
    ensures
        r == (if suite == Suite::Ed25519 {
            2u8
        } else {
            1u8
        }),
{
    if suite == Suite::Ed25519 {
        2
    } else {
        1
    }
}

/// One key of the mint. `open` says that the vault holds it open, and `public` is the public
/// half that the vault exported then.
pub struct KeySlot {
    pub live: bool,
    pub issuer: Vec<u8>,
    pub profile_id: u16,
    pub kid: Vec<u8>,
    pub suite: Option<Suite>,
    pub state: KeyState,
    pub generation: u32,
    pub activate_after_unix: u64,
    pub remove_after_unix: u64,
    pub label: Vec<u8>,
    pub open: bool,
    pub public: Vec<u8>,
}

impl KeySlot {
    pub open spec fn named(self, issuer: Seq<u8>, profile_id: u16, kid: Seq<u8>) -> bool {
        self.live && self.profile_id == profile_id && self.issuer@ == issuer && self.kid@ == kid
    }

    pub open spec fn vacant(self) -> bool {
        &&& !self.live
        &&& self.issuer@.len() == 0
        &&& self.profile_id == 0
        &&& self.kid@.len() == 0
        &&& self.suite is None
        &&& self.state == KeyState::Added
        &&& self.generation == 0
        &&& self.activate_after_unix == 0
        &&& self.remove_after_unix == 0
        &&& self.label@.len() == 0
        &&& !self.open
        &&& self.public@.len() == 0
    }

    /// The slot holds what the record says, and its key is not open.
    pub open spec fn holds(self, rec: KeyRecord) -> bool {
        &&& self.live
        &&& self.issuer@ == rec.issuer@
        &&& self.profile_id == rec.profile_id
        &&& self.kid@ == rec.kid@
        &&& self.suite == rec.suite
        &&& self.state == rec.state
        &&& self.generation == rec.generation
        &&& self.activate_after_unix == rec.activate_after_unix
        &&& self.remove_after_unix == rec.remove_after_unix
        &&& self.label@ == rec.key_ref@
        &&& !self.open
        &&& self.public@.len() == 0
    }

    /// `self` with its vault handle given up.
    pub open spec fn closed_from(self, other: Self) -> bool {
        &&& self.live == other.live
        &&& self.issuer == other.issuer
        &&& self.profile_id == other.profile_id
        &&& self.kid == other.kid
        &&& self.suite == other.suite
        &&& self.state == other.state
        &&& self.generation == other.generation
        &&& self.activate_after_unix == other.activate_after_unix
        &&& self.remove_after_unix == other.remove_after_unix
        &&& self.label == other.label
        &&& !self.open
        &&& self.public@.len() == 0
    }

    /// A request for this issuer, profile and kid may be signed under the slot at `now`. An empty
    /// issuer asks for none in particular; an empty kid asks for the active key.
    pub open spec fn serves(self, iss: Seq<u8>, profile_id: u16, kid: Seq<u8>, now: u64) -> bool {
        &&& self.live
        &&& self.profile_id == profile_id
        &&& iss.len() == 0 || self.issuer@ == iss
        &&& self.activate_after_unix == 0 || self.activate_after_unix <= now
        &&& self.remove_after_unix == 0 || now < self.remove_after_unix
        &&& if kid.len() == 0 {
            self.state == KeyState::Active
        } else {
            self.kid@ == kid
        }
    }

    pub fn empty() -> (r: Self)
        ensures
            r.vacant(),
    {
        KeySlot {
            live: false,
            issuer: Vec::new(),
            profile_id: 0,
            kid: Vec::new(),
            suite: None,
            state: KeyState::Added,
            generation: 0,
            activate_after_unix: 0,
            remove_after_unix: 0,
            label: Vec::new(),
            open: false,
            public: Vec::new(),
        }
    }

    pub fn matches(&self, issuer: &[u8], profile_id: u16, kid: &[u8]) -> (r: bool)
        ensures
            r == self.named(issuer@, profile_id, kid@),
    {
        self.live && self.profile_id == profile_id && bytes_equal(self.issuer.as_slice(), issuer)
            && bytes_equal(self.kid.as_slice(), kid)
    }
}

/// A record that this mint can sign with.
pub open spec fn acceptable(rec: KeyRecord) -> bool {
    &&& rec.key_use == KeyUse::Sign
    &&& rec.suite is Some
    &&& 0 < rec.issuer@.len() <= 64
    &&& 0 < rec.kid@.len() <= 64
    &&& 0 < rec.key_ref@.len() <= 32
}

/// Copy a record into a slot, unless it does not fit or names what cannot sign here.
pub fn fill_slot(slot: &mut KeySlot, rec: &KeyRecord) -> (r: bool)
    ensures
        r == acceptable(*rec),
        r ==> final(slot).holds(*rec),
        !r ==> *final(slot) == *old(slot),
{
    if rec.key_use != KeyUse::Sign || rec.suite.is_none() {
        return false;
    }
    if rec.issuer.len() == 0 || rec.issuer.len() > MAX_ISSUER_LEN || rec.kid.len() == 0
        || rec.kid.len() > MAX_KID_LEN || rec.key_ref.len() == 0 || rec.key_ref.len()
        > MAX_KEY_LABEL {
        return false;
    }
    *slot = KeySlot {
        live: true,
        issuer: vstd::slice::slice_to_vec(rec.issuer.as_slice()),
        profile_id: rec.profile_id,
        kid: vstd::slice::slice_to_vec(rec.kid.as_slice()),
        suite: rec.suite,
        state: rec.state,
        generation: rec.generation,
        activate_after_unix: rec.activate_after_unix,
        remove_after_unix: rec.remove_after_unix,
        label: vstd::slice::slice_to_vec(rec.key_ref.as_slice()),
        open: false,
        public: Vec::new(),
    };
    true
}

#[derive(Clone, Copy, Debug, PartialEq, Eq, Structural)]
pub enum MintErr {
    Malformed,
    UnsupportedSuite,
    NoKey,
    UnknownKid,
    SuiteNotPermitted,
    SignFailed,
}

pub enum ClaimValue {
    Str(Vec<u8>),
    U64(u64),
    Bool(bool),
    Raw(Vec<u8>),
}

pub struct MintClaim {
    pub key: Vec<u8>,
    pub value: ClaimValue,
}

/// The claims that say how a subject authenticated: `amr` is the list of methods as JSON, and
/// `acr` the word for the level that they reach.
pub fn assurance_claims(amr: &[u8], acr: &[u8], auth_time: u64) -> (r: Vec<MintClaim>)
    ensures
        r@.len() == 3,
        r@[0].key@ == bytes::text("amr"),
        r@[0].value matches ClaimValue::Raw(v) && v@ == amr@,
        r@[1].key@ == bytes::text("acr"),
        r@[1].value matches ClaimValue::Str(v) && v@ == acr@,
        r@[2].key@ == bytes::text("auth_time"),
        r@[2].value == ClaimValue::U64(auth_time),
{
    let mut r: Vec<MintClaim> = Vec::new();
    r.push(
        MintClaim {
            key: slice_to_vec("amr".as_bytes()),
            value: ClaimValue::Raw(slice_to_vec(amr)),
        },
    );
    r.push(
        MintClaim {
            key: slice_to_vec("acr".as_bytes()),
            value: ClaimValue::Str(slice_to_vec(acr)),
        },
    );
    r.push(
        MintClaim {
            key: slice_to_vec("auth_time".as_bytes()),
            value: ClaimValue::U64(auth_time),
        },
    );
    r
}

/// A request for one token.
pub struct MintRequest {
    /// Absent where the request names a suite that is not implemented.
    pub suite: Option<Suite>,
    pub profile_id: u16,
    pub kid: Vec<u8>,
    pub ttl_seconds: u32,
    pub iss: Vec<u8>,
    pub sub: Vec<u8>,
    pub aud: Vec<u8>,
    pub scope: Vec<u8>,
    pub jkt: Option<Vec<u8>>,
    pub extra: Vec<MintClaim>,
}

/// A token that is to be written and signed.
pub struct Order {
    pub slot: usize,
    pub suite: Suite,
    /// The name of the suite in a token's header.
    pub alg: &'static str,
    pub kid: Vec<u8>,
    pub iat: u64,
    pub exp: u64,
    pub request: MintRequest,
}

pub enum MintStep {
    Refuse(MintErr),
    Build(Order),
}

/// `{"alg":…,"kid":…,"typ":"JWT"}`
pub open spec fn header_bytes(alg: Seq<u8>, kid: Seq<u8>) -> Seq<u8> {
    claims::record_bytes(header_members(alg, kid))
}

pub open spec fn header_members(alg: Seq<u8>, kid: Seq<u8>) -> Seq<(Seq<u8>, Value)> {
    seq![
        (bytes::text("alg"), Value::Text(alg)),
        (bytes::text("kid"), Value::Text(kid)),
        (bytes::text("typ"), Value::Text(bytes::text("JWT"))),
    ]
}

/// The claims that every token carries. A token that is bound to a key says so first.
pub open spec fn access_members(o: Order) -> Seq<(Seq<u8>, Value)> {
    let rest = seq![
        (bytes::text("iat"), Value::Number(o.iat as nat)),
        (bytes::text("exp"), Value::Number(o.exp as nat)),
        (bytes::text("iss"), Value::Text(o.request.iss@)),
        (bytes::text("sub"), Value::Text(o.request.sub@)),
        (bytes::text("aud"), Value::Text(o.request.aud@)),
        (bytes::text("scope"), Value::Text(o.request.scope@)),
    ];
    match o.request.jkt {
        Some(jkt) => seq![
            (bytes::text("cnf"), Value::Object(bytes::text("jkt"), jkt@)),
        ] + rest,
        None => rest,
    }
}

/// A claim's value as it stands in a token.
pub open spec fn claim_bytes(value: ClaimValue) -> Seq<u8> {
    match value {
        ClaimValue::Str(v) => claims::quoted(v@),
        ClaimValue::U64(n) => bytes::decimal(n as nat),
        ClaimValue::Bool(b) => bytes::text(
            if b {
                "true"
            } else {
                "false"
            },
        ),
        ClaimValue::Raw(v) => v@,
    }
}

/// The custom claims of a token, each behind a comma.
pub open spec fn extra_bytes(extra: Seq<MintClaim>) -> Seq<u8>
    decreases extra.len(),
{
    if extra.len() == 0 {
        Seq::empty()
    } else {
        extra_bytes(extra.drop_last()) + (seq![44u8] + claims::member_name(extra.last().key@)
            + claim_bytes(extra.last().value))
    }
}

/// The claims of a token: those that every token carries, and then the custom ones.
pub open spec fn claims_bytes(o: Order) -> Seq<u8> {
    claims::record_with(access_members(o), extra_bytes(o.request.extra@))
}

pub open spec fn claim_safe(c: MintClaim) -> bool {
    claims::record_safe(c.key@) && (c.value matches ClaimValue::Str(v) ==> claims::record_safe(v@))
}

/// Everything that a token quotes can be quoted.
pub open spec fn order_safe(o: Order) -> bool {
    &&& claims::record_safe(o.kid@)
    &&& claims::record_safe(o.request.iss@)
    &&& claims::record_safe(o.request.sub@)
    &&& claims::record_safe(o.request.aud@)
    &&& claims::record_safe(o.request.scope@)
    &&& o.request.jkt matches Some(jkt) ==> claims::record_safe(jkt@)
    &&& forall|i: int|
        0 <= i < o.request.extra@.len() ==> claim_safe(#[trigger] o.request.extra@[i])
}

/// The header and the claims of a token can be written.
pub open spec fn writable(o: Order) -> bool {
    &&& order_safe(o)
    &&& header_bytes(bytes::text(o.alg), o.kid@).len() <= 192
    &&& claims_bytes(o).len() <= 4096
}

fn quotable(o: &Order) -> (r: bool)
    ensures
        r == order_safe(*o),
{
    if !json_safe(o.kid.as_slice()) || !json_safe(o.request.iss.as_slice()) || !json_safe(
        o.request.sub.as_slice(),
    ) || !json_safe(o.request.aud.as_slice()) || !json_safe(o.request.scope.as_slice()) {
        return false;
    }
    match &o.request.jkt {
        Some(jkt) => {
            if !json_safe(jkt.as_slice()) {
                return false;
            }
        },
        None => {},
    }
    let mut i: usize = 0;
    while i < o.request.extra.len()
        invariant
            i <= o.request.extra@.len(),
            forall|j: int| 0 <= j < i ==> claim_safe(#[trigger] o.request.extra@[j]),
        decreases o.request.extra@.len() - i,
    {
        let claim = &o.request.extra[i];
        let safe = match &claim.value {
            ClaimValue::Str(v) => json_safe(v.as_slice()),
            _ => true,
        };
        if !safe || !json_safe(claim.key.as_slice()) {
            assert(!claim_safe(o.request.extra@[i as int]));
            return false;
        }
        i = i + 1;
    }
    true
}

fn write_value(out: &mut Vec<u8>, value: &ClaimValue)
    ensures
        final(out)@ == old(out)@ + claim_bytes(*value),
{
    let ghost start = out@;
    match value {
        ClaimValue::Str(v) => {
            out.push(34);
            append(out, v.as_slice());
            out.push(34);
        },
        ClaimValue::U64(n) => {
            let digits = bytes::u64_dec(*n);
            append(out, digits.as_slice());
        },
        ClaimValue::Bool(b) => {
            if *b {
                append(out, "true".as_bytes());
            } else {
                append(out, "false".as_bytes());
            }
        },
        ClaimValue::Raw(v) => {
            append(out, v.as_slice());
        },
    }
    assert(out@ =~= start + claim_bytes(*value));
}

fn write_extra(out: &mut Vec<u8>, extra: &Vec<MintClaim>)
    ensures
        final(out)@ == old(out)@ + extra_bytes(extra@),
{
    let ghost start = out@;
    let mut i: usize = 0;
    assert(extra@.take(0) =~= Seq::<MintClaim>::empty());
    assert(start + Seq::<u8>::empty() =~= start);
    while i < extra.len()
        invariant
            i <= extra@.len(),
            out@ == start + extra_bytes(extra@.take(i as int)),
        decreases extra@.len() - i,
    {
        let ghost before = out@;
        assert(extra@.take(i as int + 1).drop_last() =~= extra@.take(i as int));
        out.push(44);
        out.push(34);
        append(out, extra[i].key.as_slice());
        out.push(34);
        out.push(58);
        assert(out@ =~= before + (seq![44u8] + claims::member_name(extra@[i as int].key@)));
        write_value(out, &extra[i].value);
        i = i + 1;
        assert(out@ =~= start + extra_bytes(extra@.take(i as int)));
    }
    assert(extra@.take(i as int) =~= extra@);
}

/// Write the header and the claims of a token.
pub fn write_token(o: &Order) -> (r: Option<(Vec<u8>, Vec<u8>)>)
    ensures
        match r {
            Some(w) => {
                &&& writable(*o)
                &&& w.0@ == header_bytes(bytes::text(o.alg), o.kid@)
                &&& w.1@ == claims_bytes(*o)
            },
            None => !writable(*o),
        },
{
    if !quotable(o) {
        return None;
    }
    let mut h = RecordWriter::new();
    h.text("alg", o.alg.as_bytes());
    h.text("kid", o.kid.as_slice());
    h.text("typ", "JWT".as_bytes());
    assert(h.members@ =~= header_members(bytes::text(o.alg), o.kid@));
    let header = match h.finish(192) {
        Some(header) => header,
        None => {
            return None;
        },
    };
    let mut w = RecordWriter::new();
    match &o.request.jkt {
        Some(jkt) => {
            w.object("cnf", "jkt", jkt.as_slice());
        },
        None => {},
    }
    w.number("iat", o.iat);
    w.number("exp", o.exp);
    w.text("iss", o.request.iss.as_slice());
    w.text("sub", o.request.sub.as_slice());
    w.text("aud", o.request.aud.as_slice());
    w.text("scope", o.request.scope.as_slice());
    assert(w.members@ =~= access_members(*o));
    let mut out = w.close();
    let ghost whole = out@;
    let _ = out.pop();
    assert(out@ =~= seq![123u8] + claims::members_bytes(access_members(*o)));
    write_extra(&mut out, &o.request.extra);
    out.push(125);
    assert(out@ =~= claims_bytes(*o));
    if out.len() > TOKEN_BUF_LEN {
        return None;
    }
    Some((header, out))
}

/// What the vault is asked to do about a delivered key.
#[derive(Clone, Copy, Debug, PartialEq, Eq, Structural)]
pub struct VaultStep {
    /// The slot whose handle is to be released first.
    pub close: Option<usize>,
    /// The slot whose key is to be opened under its label.
    pub open: Option<usize>,
}

pub struct Mint {
    pub keys: Vec<KeySlot>,
    /// The most custom claims that a token carries.
    pub max_extra: usize,
    pub mint_ok: u32,
    pub mint_err: u32,
    pub no_key_errors: u32,
    pub sign_ops: u32,
}

/// The `alg` of a suite.
pub open spec fn alg_of(suite: Suite) -> &'static str {
    match suite {
        Suite::Es256 => "ES256",
        Suite::Ed25519 => "EdDSA",
        Suite::MlDsa44 => "ML-DSA-44",
        Suite::MlDsa65 => "ML-DSA-65",
        Suite::MlDsa87 => "ML-DSA-87",
    }
}

/// The header's `alg` is derived from the suite, never chosen beside it.
pub fn jose_alg(suite: Suite) -> (r: &'static str)
    ensures
        r == alg_of(suite),
{
    match suite {
        Suite::Es256 => "ES256",
        Suite::Ed25519 => "EdDSA",
        Suite::MlDsa44 => "ML-DSA-44",
        Suite::MlDsa65 => "ML-DSA-65",
        Suite::MlDsa87 => "ML-DSA-87",
    }
}

/// The index of the first slot from `i` on that serves the request.
pub open spec fn chosen_from(
    slots: Seq<KeySlot>,
    iss: Seq<u8>,
    profile_id: u16,
    kid: Seq<u8>,
    now: u64,
    i: int,
) -> Option<int>
    decreases slots.len() - i,
{
    if i < 0 || i >= slots.len() {
        None
    } else if slots[i].serves(iss, profile_id, kid, now) {
        Some(i)
    } else {
        chosen_from(slots, iss, profile_id, kid, now, i + 1)
    }
}

/// The slot that signs a request at `now`.
pub open spec fn chosen(slots: Seq<KeySlot>, req: MintRequest, now: u64) -> Option<int> {
    chosen_from(slots, req.iss@, req.profile_id, req.kid@, now, 0)
}

/// Why a request is refused before anything is written; nothing where it is not. A request for
/// another suite than that of the key that would sign it is refused as not permitted: the key is
/// there, so this is neither an absent key nor an unknown suite.
pub open spec fn refusal(
    slots: Seq<KeySlot>,
    max_extra: nat,
    request: Option<MintRequest>,
    now: Option<u64>,
) -> Option<MintErr> {
    match request {
        None => Some(MintErr::Malformed),
        Some(req) => if req.suite is None {
            Some(MintErr::UnsupportedSuite)
        } else if now is None {
            Some(MintErr::SignFailed)
        } else {
            match chosen(slots, req, now->0) {
                None => Some(
                    if req.kid@.len() == 0 {
                        MintErr::NoKey
                    } else {
                        MintErr::UnknownKid
                    },
                ),
                Some(slot) => if slots[slot].suite != req.suite {
                    Some(MintErr::SuiteNotPermitted)
                } else if req.extra@.len() > max_extra {
                    Some(MintErr::Malformed)
                } else {
                    None
                },
            }
        },
    }
}

/// The order of a token that is not refused.
pub open spec fn orders(slots: Seq<KeySlot>, req: MintRequest, now: u64, o: Order) -> bool {
    let slot = chosen(slots, req, now)->0;
    &&& o.slot == slot
    &&& o.suite == req.suite->0
    &&& o.alg == alg_of(req.suite->0)
    &&& o.kid@ == slots[slot].kid@
    &&& o.iat == now
    &&& o.exp == now + req.ttl_seconds
    &&& o.request == req
}

/// At most one key of an issuer and a profile is active.
pub open spec fn one_active(slots: Seq<KeySlot>) -> bool {
    forall|i: int, j: int|
        0 <= i < j < slots.len() && (#[trigger] slots[i]).live && (#[trigger] slots[j]).live
            && slots[i].state == KeyState::Active && slots[j].state == KeyState::Active ==> !(
        slots[i].profile_id == slots[j].profile_id && slots[i].issuer@ == slots[j].issuer@)
}

impl Mint {
    pub open spec fn wf(self) -> bool {
        self.keys@.len() == 8
    }

    /// Slot `i` is the first with these names.
    pub open spec fn first_named(
        self,
        i: int,
        issuer: Seq<u8>,
        profile_id: u16,
        kid: Seq<u8>,
    ) -> bool {
        &&& self.keys@[i].named(issuer, profile_id, kid)
        &&& forall|j: int|
            0 <= j < i ==> !(#[trigger] self.keys@[j]).named(issuer, profile_id, kid)
    }

    pub open spec fn same_counters(self, other: Self) -> bool {
        &&& self.max_extra == other.max_extra
        &&& self.mint_ok == other.mint_ok
        &&& self.mint_err == other.mint_err
        &&& self.no_key_errors == other.no_key_errors
        &&& self.sign_ops == other.sign_ops
    }

    /// One refusal was counted since `other`.
    pub open spec fn refused_since(self, other: Self, why: MintErr) -> bool {
        let missing = why == MintErr::NoKey || why == MintErr::UnknownKid;
        &&& self.max_extra == other.max_extra
        &&& self.mint_ok == other.mint_ok
        &&& self.sign_ops == other.sign_ops
        &&& self.no_key_errors == if missing {
            keys::counted(other.no_key_errors)
        } else {
            other.no_key_errors
        }
        &&& self.mint_err == if missing {
            other.mint_err
        } else {
            keys::counted(other.mint_err)
        }
    }

    /// A mint, where there is a vault and the custody of the keys in it is good enough: `probe` is
    /// the vault's answer to being asked for, and `permitted` says whether an issuer's key may be
    /// held where the vault holds it. Without either there is none, because one that started would
    /// refuse every request, or sign under a key that is not protected as it is believed to be.
    pub fn module_new(probe: i32, permitted: bool, max_extra: usize) -> (r: Option<Self>)
        ensures
            r is Some <==> probe == 1 && permitted,
            r matches Some(m) ==> {
                &&& m.wf()
                &&& forall|i: int| 0 <= i < 8 ==> (#[trigger] m.keys@[i]).vacant()
                &&& m.max_extra == max_extra
                &&& m.mint_ok == 0
                &&& m.mint_err == 0
                &&& m.no_key_errors == 0
                &&& m.sign_ops == 0
            },
    {
        if probe == 1 && permitted {
            Some(Self::new(max_extra))
        } else {
            None
        }
    }

    /// A mint that holds no key.
    pub fn new(max_extra: usize) -> (r: Self)
        ensures
            r.wf(),
            forall|i: int| 0 <= i < 8 ==> (#[trigger] r.keys@[i]).vacant(),
            r.max_extra == max_extra,
            r.mint_ok == 0,
            r.mint_err == 0,
            r.no_key_errors == 0,
            r.sign_ops == 0,
    {
        let mut slots: Vec<KeySlot> = Vec::new();
        while slots.len() < MAX_KEYS
            invariant
                slots@.len() <= 8,
                forall|i: int| 0 <= i < slots@.len() ==> (#[trigger] slots@[i]).vacant(),
            decreases 8 - slots@.len(),
        {
            slots.push(KeySlot::empty());
        }
        Mint { keys: slots, max_extra, mint_ok: 0, mint_err: 0, no_key_errors: 0, sign_ops: 0 }
    }

    /// The first slot with this issuer, profile and kid.
    pub fn find_slot(&self, issuer: &[u8], profile_id: u16, kid: &[u8]) -> (r: Option<usize>)
        ensures
            match r {
                Some(i) => i < self.keys@.len() && self.keys@[i as int].named(
                    issuer@,
                    profile_id,
                    kid@,
                ) && forall|j: int|
                    0 <= j < i ==> !(#[trigger] self.keys@[j]).named(issuer@, profile_id, kid@),
                None => forall|j: int|
                    0 <= j < self.keys@.len() ==> !(#[trigger] self.keys@[j]).named(
                        issuer@,
                        profile_id,
                        kid@,
                    ),
            },
    {
        let mut i: usize = 0;
        while i < self.keys.len()
            invariant
                i <= self.keys@.len(),
                forall|j: int|
                    0 <= j < i ==> !(#[trigger] self.keys@[j]).named(issuer@, profile_id, kid@),
            decreases self.keys@.len() - i,
        {
            if self.keys[i].matches(issuer, profile_id, kid) {
                return Some(i);
            }
            i = i + 1;
        }
        None
    }

    fn vacancy(&self) -> (r: Option<usize>)
        ensures
            match r {
                Some(i) => i < self.keys@.len() && !self.keys@[i as int].live && forall|j: int|
                    0 <= j < i ==> (#[trigger] self.keys@[j]).live,
                None => forall|j: int| 0 <= j < self.keys@.len() ==> (#[trigger] self.keys@[j]).live,
            },
    {
        let mut i: usize = 0;
        while i < self.keys.len()
            invariant
                i <= self.keys@.len(),
                forall|j: int| 0 <= j < i ==> (#[trigger] self.keys@[j]).live,
            decreases self.keys@.len() - i,
        {
            if !self.keys[i].live {
                return Some(i);
            }
            i = i + 1;
        }
        None
    }

    /// Take a delivered signing key: in the place of the one with the same names, or in the first
    /// free slot. The handle that the slot had is released whatever the record says; a record
    /// that is not acceptable leaves the rest of the slot as it was. A full keyset refuses, and
    /// gives no key up.
    pub fn apply_key_add(&mut self, rec: &KeyRecord) -> (r: VaultStep)
        requires
            old(self).wf(),
        ensures
            final(self).wf(),
            final(self).same_counters(*old(self)),
            match r.close {
                Some(i) => {
                    &&& i < 8
                    &&& forall|j: int|
                        0 <= j < 8 && j != i ==> #[trigger] final(self).keys@[j] == old(self).keys@[j]
                    &&& if exists|j: int|
                        0 <= j < 8 && (#[trigger] old(self).keys@[j]).named(
                            rec.issuer@,
                            rec.profile_id,
                            rec.kid@,
                        ) {
                        old(self).first_named(i as int, rec.issuer@, rec.profile_id, rec.kid@)
                    } else {
                        !old(self).keys@[i as int].live && forall|j: int|
                            0 <= j < i ==> (#[trigger] old(self).keys@[j]).live
                    }
                    &&& r.open == if acceptable(*rec) {
                        Some(i)
                    } else {
                        None
                    }
                    &&& if acceptable(*rec) {
                        final(self).keys@[i as int].holds(*rec)
                    } else {
                        final(self).keys@[i as int].closed_from(old(self).keys@[i as int])
                    }
                },
                None => {
                    &&& r.open is None
                    &&& final(self).keys@ == old(self).keys@
                    &&& forall|j: int|
                        0 <= j < 8 ==> (#[trigger] old(self).keys@[j]).live
                            && !old(self).keys@[j].named(rec.issuer@, rec.profile_id, rec.kid@)
                },
            },
    {
        let found = match self.find_slot(
            rec.issuer.as_slice(),
            rec.profile_id,
            rec.kid.as_slice(),
        ) {
            Some(i) => Some(i),
            None => self.vacancy(),
        };
        match found {
            Some(i) => {
                self.keys[i].open = false;
                self.keys[i].public = Vec::new();
                let mut slot = KeySlot::empty();
                if fill_slot(&mut slot, rec) {
                    self.keys[i] = slot;
                    VaultStep { close: Some(i), open: Some(i) }
                } else {
                    VaultStep { close: Some(i), open: None }
                }
            },
            None => VaultStep { close: None, open: None },
        }
    }

    /// The vault was asked to open the key of slot `i`. A key that opened is announced by its
    /// public half; a slot whose key did not open is given up.
    pub fn open_slot_key(&mut self, i: usize, public: Option<Vec<u8>>) -> (r: Option<KeyRecord>)
        requires
            old(self).wf(),
            i < 8,
        ensures
            final(self).wf(),
            final(self).same_counters(*old(self)),
            forall|j: int|
                0 <= j < 8 && j != i ==> #[trigger] final(self).keys@[j] == old(self).keys@[j],
            match public {
                Some(p) => {
                    let slot = old(self).keys@[i as int];
                    &&& final(self).keys@[i as int] == (KeySlot { open: true, public: p, ..slot })
                    &&& r matches Some(a)
                    &&& a.issuer@ == slot.issuer@
                    &&& a.profile_id == slot.profile_id
                    &&& a.kid@ == slot.kid@
                    &&& a.suite == slot.suite
                    &&& a.state == slot.state
                    &&& a.key_use == KeyUse::Verify
                    &&& a.generation == slot.generation
                    &&& a.activate_after_unix == slot.activate_after_unix
                    &&& a.remove_after_unix == slot.remove_after_unix
                    &&& a.key_ref@ == p@
                },
                None => r is None && final(self).keys@[i as int].vacant(),
            },
    {
        match public {
            Some(p) => {
                self.keys[i].open = true;
                self.keys[i].public = p;
                Some(self.announce_public_key(i))
            },
            None => {
                self.keys[i] = KeySlot::empty();
                None
            },
        }
    }

    /// The public half of slot `i`, as a record for verifiers.
    pub fn announce_public_key(&self, i: usize) -> (r: KeyRecord)
        requires
            i < self.keys@.len(),
        ensures
            r.issuer@ == self.keys@[i as int].issuer@,
            r.profile_id == self.keys@[i as int].profile_id,
            r.kid@ == self.keys@[i as int].kid@,
            r.suite == self.keys@[i as int].suite,
            r.state == self.keys@[i as int].state,
            r.key_use == KeyUse::Verify,
            r.generation == self.keys@[i as int].generation,
            r.activate_after_unix == self.keys@[i as int].activate_after_unix,
            r.remove_after_unix == self.keys@[i as int].remove_after_unix,
            r.key_ref@ == self.keys@[i as int].public@,
    {
        let k = &self.keys[i];
        KeyRecord {
            issuer: vstd::slice::slice_to_vec(k.issuer.as_slice()),
            profile_id: k.profile_id,
            kid: vstd::slice::slice_to_vec(k.kid.as_slice()),
            suite: k.suite,
            state: k.state,
            key_use: KeyUse::Verify,
            generation: k.generation,
            activate_after_unix: k.activate_after_unix,
            remove_after_unix: k.remove_after_unix,
            key_ref: vstd::slice::slice_to_vec(k.public.as_slice()),
        }
    }

    /// Replace the whole keyset by a snapshot, or leave it where the snapshot is too large or
    /// holds a record that is not acceptable. After a replacement every old handle is released
    /// and every new key is to be opened.
    pub fn apply_snapshot(&mut self, records: &Vec<KeyRecord>) -> (r: bool)
        requires
            old(self).wf(),
        ensures
            final(self).wf(),
            final(self).same_counters(*old(self)),
            r == (records@.len() <= 8 && forall|i: int|
                0 <= i < records@.len() ==> acceptable(#[trigger] records@[i])),
            r ==> forall|i: int|
                0 <= i < 8 ==> if i < records@.len() {
                    (#[trigger] final(self).keys@[i]).holds(records@[i])
                } else {
                    final(self).keys@[i].vacant()
                },
            !r ==> final(self).keys@ == old(self).keys@,
    {
        if records.len() > MAX_KEYS {
            return false;
        }
        let mut fresh: Vec<KeySlot> = Vec::new();
        while fresh.len() < records.len()
            invariant
                old(self).wf(),
                *self == *old(self),
                fresh@.len() <= records@.len() <= 8,
                forall|i: int| 0 <= i < fresh@.len() ==> acceptable(#[trigger] records@[i]),
                forall|i: int|
                    0 <= i < fresh@.len() ==> (#[trigger] fresh@[i]).holds(records@[i]),
            decreases records@.len() - fresh@.len(),
        {
            let mut slot = KeySlot::empty();
            if !fill_slot(&mut slot, &records[fresh.len()]) {
                return false;
            }
            fresh.push(slot);
        }
        while fresh.len() < MAX_KEYS
            invariant
                records@.len() <= fresh@.len() <= 8,
                forall|i: int|
                    0 <= i < fresh@.len() ==> if i < records@.len() {
                        (#[trigger] fresh@[i]).holds(records@[i])
                    } else {
                        fresh@[i].vacant()
                    },
            decreases 8 - fresh@.len(),
        {
            fresh.push(KeySlot::empty());
        }
        self.keys = fresh;
        true
    }

    /// Key `i`, the one that `kr` names, is active, and its rivals are retired.
    pub open spec fn activated(before: Self, after: Self, kr: KeyRef, i: int) -> bool {
        &&& 0 <= i < 8
        &&& before.first_named(i, kr.issuer@, kr.profile_id, kr.kid@)
        &&& after.keys@[i] == (KeySlot {
            state: KeyState::Active,
            generation: (kr.arg % 4294967296) as u32,
            ..before.keys@[i]
        })
        &&& forall|j: int|
            0 <= j < 8 && j != i ==> #[trigger] after.keys@[j] == if rival(
                before.keys@[j],
                before.keys@[i],
            ) {
                KeySlot { state: KeyState::Retired, ..before.keys@[j] }
            } else {
                before.keys@[j]
            }
    }

    /// Make a key the active one of its issuer and profile: the one that was active before is
    /// retired. The other keys stay as they were.
    pub fn activate(&mut self, kr: &KeyRef) -> (r: Option<usize>)
        requires
            old(self).wf(),
        ensures
            final(self).wf(),
            final(self).same_counters(*old(self)),
            match r {
                Some(i) => Self::activated(*old(self), *final(self), *kr, i as int),
                None => final(self).keys@ == old(self).keys@ && forall|j: int|
                    0 <= j < 8 ==> !(#[trigger] old(self).keys@[j]).named(
                        kr.issuer@,
                        kr.profile_id,
                        kr.kid@,
                    ),
            },
            one_active(old(self).keys@) ==> one_active(final(self).keys@),
    {
        let i: usize = match self.find_slot(kr.issuer.as_slice(), kr.profile_id, kr.kid.as_slice()) {
            Some(i) => i,
            None => {
                return None;
            },
        };
        let mut j: usize = 0;
        while j < MAX_KEYS
            invariant
                j <= 8,
                i < 8,
                self.wf(),
                old(self).wf(),
                self.same_counters(*old(self)),
                old(self).first_named(i as int, kr.issuer@, kr.profile_id, kr.kid@),
                self.keys@[i as int] == old(self).keys@[i as int],
                forall|k: int| j <= k < 8 ==> #[trigger] self.keys@[k] == old(self).keys@[k],
                forall|k: int|
                    0 <= k < j && k != i ==> #[trigger] self.keys@[k] == if rival(
                        old(self).keys@[k],
                        old(self).keys@[i as int],
                    ) {
                        KeySlot { state: KeyState::Retired, ..old(self).keys@[k] }
                    } else {
                        old(self).keys@[k]
                    },
            decreases 8 - j,
        {
            if j != i && self.keys[j].live && self.keys[j].profile_id == kr.profile_id
                && self.keys[j].state == KeyState::Active && bytes_equal(
                self.keys[j].issuer.as_slice(),
                kr.issuer.as_slice(),
            ) {
                self.keys[j].state = KeyState::Retired;
            }
            j = j + 1;
        }
        self.keys[i].state = KeyState::Active;
        self.keys[i].generation = (kr.arg % 4294967296) as u32;
        Some(i)
    }

    /// Key `i`, the one that `kr` names, is retired, with its deadline.
    pub open spec fn retired(before: Self, after: Self, kr: KeyRef, i: int) -> bool {
        &&& 0 <= i < 8
        &&& before.first_named(i, kr.issuer@, kr.profile_id, kr.kid@)
        &&& after.keys@ =~= before.keys@.update(
            i,
            KeySlot { state: KeyState::Retired, remove_after_unix: kr.arg, ..before.keys@[i] },
        )
    }

    /// Key `i`, the one that `kr` names, is given up.
    pub open spec fn removed(before: Self, after: Self, kr: KeyRef, i: int) -> bool {
        &&& 0 <= i < 8
        &&& before.first_named(i, kr.issuer@, kr.profile_id, kr.kid@)
        &&& after.keys@[i].vacant()
        &&& forall|j: int| 0 <= j < 8 && j != i ==> #[trigger] after.keys@[j] == before.keys@[j]
    }

    /// Retire a key: it is no longer the active one, and is not used from the deadline on.
    pub fn retire(&mut self, kr: &KeyRef) -> (r: Option<usize>)
        requires
            old(self).wf(),
        ensures
            final(self).wf(),
            final(self).same_counters(*old(self)),
            match r {
                Some(i) => Self::retired(*old(self), *final(self), *kr, i as int),
                None => final(self).keys@ == old(self).keys@ && forall|j: int|
                    0 <= j < 8 ==> !(#[trigger] old(self).keys@[j]).named(
                        kr.issuer@,
                        kr.profile_id,
                        kr.kid@,
                    ),
            },
    {
        match self.find_slot(kr.issuer.as_slice(), kr.profile_id, kr.kid.as_slice()) {
            Some(i) => {
                self.keys[i].state = KeyState::Retired;
                self.keys[i].remove_after_unix = kr.arg;
                Some(i)
            },
            None => None,
        }
    }

    /// Give a key up. Its vault handle is to be released too.
    pub fn remove(&mut self, kr: &KeyRef) -> (r: Option<usize>)
        requires
            old(self).wf(),
        ensures
            final(self).wf(),
            final(self).same_counters(*old(self)),
            match r {
                Some(i) => Self::removed(*old(self), *final(self), *kr, i as int),
                None => final(self).keys@ == old(self).keys@ && forall|j: int|
                    0 <= j < 8 ==> !(#[trigger] old(self).keys@[j]).named(
                        kr.issuer@,
                        kr.profile_id,
                        kr.kid@,
                    ),
            },
    {
        match self.find_slot(kr.issuer.as_slice(), kr.profile_id, kr.kid.as_slice()) {
            Some(i) => {
                self.keys[i] = KeySlot::empty();
                Some(i)
            },
            None => None,
        }
    }

    /// The key that signs a request: the active one of the profile, or the one that the request
    /// names whatever its state, inside its deadlines.
    pub fn select_key(&self, req: &MintRequest, now: u64) -> (r: Option<usize>)
        ensures
            match r {
                Some(i) => chosen(self.keys@, *req, now) == Some(i as int) && i < self.keys@.len()
                    && self.keys@[i as int].serves(req.iss@, req.profile_id, req.kid@, now),
                None => chosen(self.keys@, *req, now) is None,
            },
    {
        let mut i: usize = 0;
        while i < self.keys.len()
            invariant
                i <= self.keys@.len(),
                chosen(self.keys@, *req, now) == chosen_from(
                    self.keys@,
                    req.iss@,
                    req.profile_id,
                    req.kid@,
                    now,
                    i as int,
                ),
            decreases self.keys@.len() - i,
        {
            let k = &self.keys[i];
            let named = if req.kid.len() == 0 {
                k.state == KeyState::Active
            } else {
                bytes_equal(k.kid.as_slice(), req.kid.as_slice())
            };
            if k.live && k.profile_id == req.profile_id && (req.iss.len() == 0 || bytes_equal(
                k.issuer.as_slice(),
                req.iss.as_slice(),
            )) && (k.activate_after_unix == 0 || k.activate_after_unix <= now) && (
            k.remove_after_unix == 0 || now < k.remove_after_unix) && named {
                return Some(i);
            }
            i = i + 1;
        }
        None
    }

    /// Count a refusal.
    pub fn refuse(&mut self, why: MintErr) -> (r: MintErr)
        ensures
            r == why,
            final(self).keys == old(self).keys,
            final(self).refused_since(*old(self), why),
    {
        match why {
            MintErr::NoKey | MintErr::UnknownKid => count(&mut self.no_key_errors),
            _ => count(&mut self.mint_err),
        }
        why
    }

    /// Decide one request, up to the writing of its token. `request` is absent where it did not
    /// decode, `now` where no clock can be trusted.
    pub fn handle_mint(&mut self, request: Option<MintRequest>, now: Option<u64>) -> (r: MintStep)
        requires
            request is Some && now is Some ==> now->0 + request->0.ttl_seconds <= u64::MAX,
        ensures
            final(self).keys == old(self).keys,
            match refusal(old(self).keys@, old(self).max_extra as nat, request, now) {
                Some(why) => r == MintStep::Refuse(why) && final(self).refused_since(
                    *old(self),
                    why,
                ),
                None => {
                    &&& final(self).same_counters(*old(self))
                    &&& r matches MintStep::Build(o)
                    &&& orders(old(self).keys@, request->0, now->0, o)
                },
            },
    {
        let req = match request {
            Some(req) => req,
            None => {
                return MintStep::Refuse(self.refuse(MintErr::Malformed));
            },
        };
        let suite = match req.suite {
            Some(suite) => suite,
            None => {
                return MintStep::Refuse(self.refuse(MintErr::UnsupportedSuite));
            },
        };
        let now: u64 = match now {
            Some(now) => now,
            None => {
                return MintStep::Refuse(self.refuse(MintErr::SignFailed));
            },
        };
        let slot: usize = match self.select_key(&req, now) {
            Some(slot) => slot,
            None => {
                let why = if req.kid.len() == 0 {
                    MintErr::NoKey
                } else {
                    MintErr::UnknownKid
                };
                return MintStep::Refuse(self.refuse(why));
            },
        };
        if self.keys[slot].suite != Some(suite) {
            return MintStep::Refuse(self.refuse(MintErr::SuiteNotPermitted));
        }
        if req.extra.len() > self.max_extra {
            return MintStep::Refuse(self.refuse(MintErr::Malformed));
        }
        MintStep::Build(
            Order {
                slot,
                suite,
                alg: jose_alg(suite),
                kid: vstd::slice::slice_to_vec(self.keys[slot].kid.as_slice()),
                iat: now,
                exp: now + req.ttl_seconds as u64,
                request: req,
            },
        )
    }

    /// The header and the claims are written: lay out the signing input, and hand back what the
    /// vault signs. Under EdDSA that is the input itself, otherwise its digest. A token that
    /// would be too long, or could not be written, is refused.
    pub fn built(&mut self, suite: Suite, written: Option<(Vec<u8>, Vec<u8>)>) -> (r: Result<
        (Vec<u8>, Vec<u8>),
        MintErr,
    >)
        ensures
            final(self).keys == old(self).keys,
            r is Ok <==> written is Some && base64::encoded_len((written->0).0@.len()) + 1
                + base64::encoded_len((written->0).1@.len()) <= 4096,
            match r {
                Ok(t) => {
                    &&& t.0@ == jose::signing_input(
                        base64::encoded((written->0).0@),
                        base64::encoded((written->0).1@),
                    )
                    &&& t.1@ == if suite == Suite::Ed25519 {
                        t.0@
                    } else {
                        crypto::sha256(t.0@)
                    }
                    &&& final(self).sign_ops == keys::counted(old(self).sign_ops)
                    &&& final(self).max_extra == old(self).max_extra
                    &&& final(self).mint_ok == old(self).mint_ok
                    &&& final(self).mint_err == old(self).mint_err
                    &&& final(self).no_key_errors == old(self).no_key_errors
                },
                Err(e) => e == MintErr::Malformed && final(self).refused_since(*old(self), e),
            },
    {
        let (header, claims) = match written {
            Some(w) => w,
            None => {
                return Err(self.refuse(MintErr::Malformed));
            },
        };
        let input = jose::write_signing_input(header.as_slice(), claims.as_slice());
        proof {
            base64::encoding_length(header@);
            base64::encoding_length(claims@);
        }
        if input.len() > TOKEN_BUF_LEN {
            return Err(self.refuse(MintErr::Malformed));
        }
        count(&mut self.sign_ops);
        let to_sign = if suite == Suite::Ed25519 {
            vstd::slice::slice_to_vec(input.as_slice())
        } else {
            let hash = crypto::digest(input.as_slice());
            vstd::slice::slice_to_vec(hash.as_slice())
        };
        Ok((input, to_sign))
    }

    /// Write a token and lay out what the vault signs of it.
    pub fn compose(&mut self, o: &Order) -> (r: Result<(Vec<u8>, Vec<u8>), MintErr>)
        ensures
            final(self).keys == old(self).keys,
            r is Ok <==> writable(*o) && token_input(*o).len() <= 4096,
            match r {
                Ok(t) => {
                    &&& t.0@ == token_input(*o)
                    &&& t.1@ == if o.suite == Suite::Ed25519 {
                        t.0@
                    } else {
                        crypto::sha256(t.0@)
                    }
                    &&& final(self).sign_ops == keys::counted(old(self).sign_ops)
                    &&& final(self).max_extra == old(self).max_extra
                    &&& final(self).mint_ok == old(self).mint_ok
                    &&& final(self).mint_err == old(self).mint_err
                    &&& final(self).no_key_errors == old(self).no_key_errors
                },
                Err(e) => e == MintErr::Malformed && final(self).refused_since(*old(self), e),
            },
    {
        let written = write_token(o);
        proof {
            base64::encoding_length(header_bytes(bytes::text(o.alg), o.kid@));
            base64::encoding_length(claims_bytes(*o));
        }
        self.built(o.suite, written)
    }

    /// The vault has signed, or has not: the token, or why there is none.
    pub fn signed(&mut self, input: Vec<u8>, signature: Option<Vec<u8>>) -> (r: Result<
        Vec<u8>,
        MintErr,
    >)
        ensures
            final(self).keys == old(self).keys,
            match r {
                Ok(token) => signature is Some && token@ == input@ + seq![46u8] + base64::encoded(
                    signature->0@,
                ) && token@.len() <= 4096 && final(self).mint_ok == keys::counted(
                    old(self).mint_ok,
                ) && final(self).mint_err == old(self).mint_err && final(self).no_key_errors
                    == old(self).no_key_errors && final(self).sign_ops == old(self).sign_ops
                    && final(self).max_extra == old(self).max_extra,
                Err(e) => e == (if signature is None {
                    MintErr::SignFailed
                } else {
                    MintErr::Malformed
                }) && final(self).refused_since(*old(self), e),
            },
            r is Ok <==> signature is Some && input@.len() + 1 + base64::encoded_len(
                signature->0@.len(),
            ) <= 4096,
    {
        let sig = match signature {
            Some(sig) => sig,
            None => {
                return Err(self.refuse(MintErr::SignFailed));
            },
        };
        let encoded = base64::encode(sig.as_slice());
        proof {
            base64::encoding_length(sig@);
        }
        if input.len() > TOKEN_BUF_LEN || encoded.len() > TOKEN_BUF_LEN || input.len() + 1
            + encoded.len() > TOKEN_BUF_LEN {
            return Err(self.refuse(MintErr::Malformed));
        }
        let mut token = input;
        token.push(46);
        append(&mut token, encoded.as_slice());
        assert(token@ =~= input@ + seq![46u8] + base64::encoded(sig@));
        count(&mut self.mint_ok);
        Ok(token)
    }
}

/// What is signed of a token.
pub open spec fn token_input(o: Order) -> Seq<u8> {
    jose::signing_input(
        base64::encoded(header_bytes(bytes::text(o.alg), o.kid@)),
        base64::encoded(claims_bytes(o)),
    )
}

/// `a` is another active key of the issuer and profile of `b`.
pub open spec fn rival(a: KeySlot, b: KeySlot) -> bool {
    a.live && a.state == KeyState::Active && a.profile_id == b.profile_id && a.issuer@ == b.issuer@
}

pub open spec fn mint_message(
    corr: u32,
    status: u8,
    delivery: u8,
    required_len: u32,
    body: Seq<u8>,
) -> Seq<u8> {
    wire::le32_bytes(corr as nat) + seq![status, delivery] + wire::le32_bytes(required_len as nat)
        + if body.len() <= 4148 {
        wire::field16_bytes(body)
    } else {
        Seq::empty()
    }
}

/// The payload of a mint response: `[corr u32][status u8][delivery u8][required u32][body f16]`.
/// A body that does not fit is left out.
pub fn emit(corr: u32, status: u8, delivery: u8, required_len: u32, body: &[u8]) -> (r: Vec<u8>)
    ensures
        r@ == mint_message(corr, status, delivery, required_len, body@),
{
    let limit: usize = TOKEN_BUF_LEN + 64;
    let mut out = wire::u32_bytes(corr);
    out.push(status);
    out.push(delivery);
    assert(out@ =~= wire::le32_bytes(corr as nat) + seq![status, delivery]);
    let required = wire::u32_bytes(required_len);
    append(&mut out, required.as_slice());
    let ghost start = out@;
    let _ = wire::put_field16(&mut out, limit, body);
    assert(start + Seq::<u8>::empty() =~= start);
    out
}

/// A request that names no kid is signed with the one active key of its issuer and profile, so a
/// rotation reaches every caller without any of them learning a kid.
pub proof fn the_active_key_signs(slots: Seq<KeySlot>, i: int, req: MintRequest, now: u64)
    requires
        0 <= i < slots.len(),
        slots[i].serves(req.iss@, req.profile_id, req.kid@, now),
        req.iss@.len() > 0,
        req.kid@.len() == 0,
        forall|j: int|
            0 <= j < slots.len() && j != i ==> !rival(#[trigger] slots[j], slots[i]),
    ensures
        chosen(slots, req, now) == Some(i),
{
    lemma_active_is_reached(slots, i, req, now, 0);
}

proof fn lemma_active_is_reached(
    slots: Seq<KeySlot>,
    i: int,
    req: MintRequest,
    now: u64,
    from: int,
)
    requires
        0 <= from <= i < slots.len(),
        slots[i].serves(req.iss@, req.profile_id, req.kid@, now),
        req.iss@.len() > 0,
        req.kid@.len() == 0,
        forall|j: int|
            0 <= j < slots.len() && j != i ==> !rival(#[trigger] slots[j], slots[i]),
    ensures
        chosen_from(slots, req.iss@, req.profile_id, req.kid@, now, from) == Some(i),
    decreases i - from,
{
    if from < i {
        assert(!rival(slots[from], slots[i]));
        lemma_active_is_reached(slots, i, req, now, from + 1);
    }
}

/// A token that the mint puts together splits into the parts that were signed and the
/// signature.
pub proof fn token_splits(header: Seq<u8>, claims: Seq<u8>, signature: Seq<u8>)
    ensures
        jose::parts(
            jose::signing_input(base64::encoded(header), base64::encoded(claims)) + seq![46u8]
                + base64::encoded(signature),
        ) == Some((base64::encoded(header), base64::encoded(claims), base64::encoded(signature))),
{
    jose::compact_splits(header, claims, signature);
}

/// The `alg` that a token is minted under names its suite again to a verifier.
pub proof fn alg_names_suite(suite: Suite)
    ensures
        jose::suite_of_alg(bytes::text(alg_of(suite))) == Some(suite),
{
    reveal_strlit("ES256");
    reveal_strlit("EdDSA");
    reveal_strlit("ML-DSA-44");
    reveal_strlit("ML-DSA-65");
    reveal_strlit("ML-DSA-87");
    assert("ES256".is_ascii() && "EdDSA".is_ascii() && "ML-DSA-44".is_ascii());
    assert("ML-DSA-65".is_ascii() && "ML-DSA-87".is_ascii());
    assert(bytes::text("ES256")[1] == 83 && bytes::text("EdDSA")[1] == 100);
    assert(bytes::text("ES256").len() == 5 && bytes::text("EdDSA").len() == 5);
    assert(bytes::text("ML-DSA-44").len() == 9 && bytes::text("ML-DSA-44")[7] == 52);
    assert(bytes::text("ML-DSA-65").len() == 9 && bytes::text("ML-DSA-65")[7] == 54);
    assert(bytes::text("ML-DSA-87").len() == 9 && bytes::text("ML-DSA-87")[7] == 56);
}

proof fn lemma_header_readable(alg: Seq<u8>, kid: Seq<u8>)
    requires
        claims::record_safe(alg),
        claims::record_safe(kid),
    ensures
        claims::readable(header_members(alg, kid)),
{
    reveal_strlit("alg");
    reveal_strlit("kid");
    reveal_strlit("typ");
    reveal_strlit("JWT");
    assert("alg".is_ascii() && "kid".is_ascii() && "typ".is_ascii() && "JWT".is_ascii());
    assert(bytes::text("alg") =~= seq![97u8, 108, 103]);
    assert(bytes::text("kid") =~= seq![107u8, 105, 100]);
    assert(bytes::text("typ") =~= seq![116u8, 121, 112]);
    assert(bytes::text("JWT") =~= seq![74u8, 87, 84]);
    let m = header_members(alg, kid);
    assert(m[0].0[0] == 97 && m[1].0[0] == 107 && m[2].0[0] == 116);
}

proof fn lemma_claim_names()
    ensures
        bytes::text("cnf") == seq![99u8, 110, 102],
        bytes::text("jkt") == seq![106u8, 107, 116],
        bytes::text("iat") == seq![105u8, 97, 116],
        bytes::text("exp") == seq![101u8, 120, 112],
        bytes::text("iss") == seq![105u8, 115, 115],
        bytes::text("sub") == seq![115u8, 117, 98],
        bytes::text("aud") == seq![97u8, 117, 100],
        bytes::text("scope") == seq![115u8, 99, 111, 112, 101],
{
    reveal_strlit("cnf");
    reveal_strlit("jkt");
    reveal_strlit("iat");
    reveal_strlit("exp");
    reveal_strlit("iss");
    reveal_strlit("sub");
    reveal_strlit("aud");
    reveal_strlit("scope");
    assert("cnf".is_ascii() && "jkt".is_ascii() && "iat".is_ascii() && "exp".is_ascii());
    assert("iss".is_ascii() && "sub".is_ascii() && "aud".is_ascii() && "scope".is_ascii());
    assert(bytes::text("cnf") =~= seq![99u8, 110, 102]);
    assert(bytes::text("jkt") =~= seq![106u8, 107, 116]);
    assert(bytes::text("iat") =~= seq![105u8, 97, 116]);
    assert(bytes::text("exp") =~= seq![101u8, 120, 112]);
    assert(bytes::text("iss") =~= seq![105u8, 115, 115]);
    assert(bytes::text("sub") =~= seq![115u8, 117, 98]);
    assert(bytes::text("aud") =~= seq![97u8, 117, 100]);
    assert(bytes::text("scope") =~= seq![115u8, 99, 111, 112, 101]);
}

proof fn lemma_access_readable(o: Order)
    requires
        order_safe(o),
    ensures
        claims::readable(access_members(o)),
{
    lemma_claim_names();
    let m = access_members(o);
    let shift = if o.request.jkt is Some {
        1int
    } else {
        0int
    };
    assert(m[shift].0 == seq![105u8, 97, 116]);
    assert(m[shift + 1].0 == seq![101u8, 120, 112]);
    assert(m[shift + 2].0 == seq![105u8, 115, 115]);
    assert(m[shift + 3].0 == seq![115u8, 117, 98]);
    assert(m[shift + 4].0 == seq![97u8, 117, 100]);
    assert(m[shift + 5].0 == seq![115u8, 99, 111, 112, 101]);
    assert forall|i: int, j: int| 0 <= i < j < m.len() implies (#[trigger] m[i]).0 != (
    #[trigger] m[j]).0 by {
        assert(m[i].0.len() != m[j].0.len() || m[i].0[0] != m[j].0[0] || m[i].0[1] != m[j].0[1]);
    }
    assert forall|i: int, j: int| 0 <= i < m.len() && 0 <= j < m.len() implies !claims::introduces(
        (#[trigger] m[i]).1,
        (#[trigger] m[j]).0,
    ) by {
        assert(m[j].0[0] != 106);
    }
}

/// What a token was written with is what is read of it, whatever custom claims it carries.
pub proof fn token_reads_back(o: Order)
    requires
        order_safe(o),
    ensures
        claims::number_claim(claims_bytes(o), bytes::text("iat")) == Some(o.iat),
        claims::number_claim(claims_bytes(o), bytes::text("exp")) == Some(o.exp),
        claims::text_claim(claims_bytes(o), bytes::text("iss")) == Some(o.request.iss@),
        claims::text_claim(claims_bytes(o), bytes::text("sub")) == Some(o.request.sub@),
        claims::text_claim(claims_bytes(o), bytes::text("aud")) == Some(o.request.aud@),
        claims::text_claim(claims_bytes(o), bytes::text("scope")) == Some(o.request.scope@),
        o.request.jkt matches Some(jkt) ==> claims::text_claim(claims_bytes(o), bytes::text("jkt"))
            == Some(jkt@),
{
    let m = access_members(o);
    let more = extra_bytes(o.request.extra@);
    lemma_access_readable(o);
    lemma_extra_comma(o.request.extra@);
    let shift = if o.request.jkt is Some {
        1int
    } else {
        0int
    };
    claims::number_reads_back_before(m, more, shift);
    claims::number_reads_back_before(m, more, shift + 1);
    claims::text_reads_back_before(m, more, shift + 2);
    claims::text_reads_back_before(m, more, shift + 3);
    claims::text_reads_back_before(m, more, shift + 4);
    claims::text_reads_back_before(m, more, shift + 5);
    if o.request.jkt is Some {
        claims::object_reads_back_before(m, more);
    }
}

/// A custom claim as a member of a record. A raw value is a list here.
pub open spec fn as_member(c: MintClaim) -> (Seq<u8>, Value) {
    (
        c.key@,
        match c.value {
            ClaimValue::Str(v) => Value::Text(v@),
            ClaimValue::U64(n) => Value::Number(n as nat),
            ClaimValue::Bool(b) => Value::Flag(b),
            ClaimValue::Raw(v) => Value::List(v@.subrange(1, v@.len() - 1)),
        },
    )
}

/// A custom claim that a reader can find: a plain name that no claim of every token has, and a
/// value that is quoted, a number, a flag or a list of strings without a colon or a bracket.
pub open spec fn legible(c: MintClaim) -> bool {
    &&& claims::plain_name(c.key@)
    &&& c.key@ != bytes::text("cnf") && c.key@ != bytes::text("jkt")
    &&& c.key@ != bytes::text("iat") && c.key@ != bytes::text("exp")
    &&& c.key@ != bytes::text("iss") && c.key@ != bytes::text("sub")
    &&& c.key@ != bytes::text("aud") && c.key@ != bytes::text("scope")
    &&& match c.value {
        ClaimValue::Str(v) => claims::record_safe(v@),
        ClaimValue::Raw(v) => {
            &&& v@.len() >= 2
            &&& v@[0] == 91
            &&& v@[v@.len() - 1] == 93
            &&& forall|x: int| 0 < x < v@.len() - 1 ==> #[trigger] v@[x] != 58 && v@[x] != 93
        },
        _ => true,
    }
}

/// Custom claims that a reader can tell apart.
pub open spec fn legible_all(extra: Seq<MintClaim>) -> bool {
    &&& forall|i: int| 0 <= i < extra.len() ==> legible(#[trigger] extra[i])
    &&& forall|i: int, j: int|
        0 <= i < j < extra.len() ==> (#[trigger] extra[i]).key@ != (#[trigger] extra[j]).key@
}

proof fn lemma_extra_members(m: Seq<(Seq<u8>, Value)>, extra: Seq<MintClaim>)
    requires
        m.len() > 0,
        forall|i: int| 0 <= i < extra.len() ==> legible(#[trigger] extra[i]),
    ensures
        claims::members_bytes(m) + extra_bytes(extra) == claims::members_bytes(
            m + extra.map_values(|c: MintClaim| as_member(c)),
        ),
    decreases extra.len(),
{
    let f = |c: MintClaim| as_member(c);
    if extra.len() == 0 {
        assert(m + extra.map_values(f) =~= m);
        assert(claims::members_bytes(m) + extra_bytes(extra) =~= claims::members_bytes(m));
    } else {
        let init = extra.drop_last();
        let last = extra.last();
        lemma_extra_members(m, init);
        assert(legible(extra[extra.len() - 1]));
        assert(extra.map_values(f) =~= init.map_values(f).push(as_member(last)));
        assert(m + extra.map_values(f) =~= (m + init.map_values(f)).push(as_member(last)));
        claims::lemma_members_push(m + init.map_values(f), as_member(last));
        assert(claim_bytes(last.value) =~= claims::value_bytes(as_member(last).1)) by {
            reveal_strlit("true");
            reveal_strlit("false");
            assert("true".is_ascii() && "false".is_ascii());
        }
        assert(claims::members_bytes(m) + extra_bytes(extra) =~= claims::members_bytes(m)
            + extra_bytes(init) + seq![44u8] + (claims::member_name(last.key@)
            + claims::value_bytes(as_member(last).1)));
    }
}

proof fn lemma_whole_readable(o: Order)
    requires
        order_safe(o),
        legible_all(o.request.extra@),
    ensures
        claims::readable(
            access_members(o) + o.request.extra@.map_values(|c: MintClaim| as_member(c)),
        ),
{
    let m = access_members(o);
    let f = |c: MintClaim| as_member(c);
    let extra = o.request.extra@;
    let n = m.len() as int;
    let all = m + extra.map_values(f);
    lemma_access_readable(o);
    lemma_claim_names();
    assert forall|i: int| 0 <= i < all.len() implies claims::plain_name(#[trigger] all[i].0)
        && claims::plain_value(all[i].1) by {
        if i < n {
            assert(all[i] == m[i]);
        } else {
            let c = extra[i - n];
            assert(all[i] == as_member(c));
            assert(legible(c));
        }
    }
    assert forall|i: int, j: int| 0 <= i < j < all.len() implies (#[trigger] all[i]).0 != (
    #[trigger] all[j]).0 by {
        if j < n {
            assert(all[i] == m[i] && all[j] == m[j]);
        } else {
            assert(all[j] == as_member(extra[j - n]));
            assert(legible(extra[j - n]));
            if i < n {
                assert(all[i] == m[i]);
            } else {
                assert(all[i] == as_member(extra[i - n]));
            }
        }
    }
    assert forall|i: int, j: int| 0 <= i < all.len() && 0 <= j < all.len() implies
        !claims::introduces((#[trigger] all[i]).1, (#[trigger] all[j]).0) by {
        if i < n {
            assert(all[i] == m[i]);
            if j < n {
                assert(all[j] == m[j]);
            } else {
                assert(all[j] == as_member(extra[j - n]));
                assert(legible(extra[j - n]));
            }
        } else {
            assert(all[i] == as_member(extra[i - n]));
        }
    }
}

/// The custom claims of a token read back as they were asked for: a number as that number, a
/// string as that string, a list as that list; and a flag stands in it as the word for it.
pub proof fn custom_claims_read_back(o: Order, i: int)
    requires
        order_safe(o),
        legible_all(o.request.extra@),
        0 <= i < o.request.extra@.len(),
    ensures
        ({
            let json = claims_bytes(o);
            let c = o.request.extra@[i];
            match c.value {
                ClaimValue::U64(n) => claims::number_claim(json, c.key@) == Some(n),
                ClaimValue::Str(v) => claims::text_claim(json, c.key@) == Some(v@),
                ClaimValue::Raw(v) => claims::array_claim(json, c.key@) == Some(v@),
                ClaimValue::Bool(b) => claims::after_first(
                    json,
                    seq![34u8] + c.key@ + seq![34u8, 58u8],
                ) matches Some(rest) && if b {
                    seq![116u8, 114, 117, 101].is_prefix_of(rest)
                } else {
                    seq![102u8, 97, 108, 115, 101].is_prefix_of(rest)
                },
            }
        }),
{
    let m = access_members(o);
    let f = |c: MintClaim| as_member(c);
    let extra = o.request.extra@;
    let all = m + extra.map_values(f);
    let k = m.len() + i;
    let c = extra[i];
    lemma_extra_members(m, extra);
    lemma_whole_readable(o);
    assert(legible(c));
    assert(claims_bytes(o) =~= claims::record_bytes(all));
    assert(all[k] == as_member(c));
    match c.value {
        ClaimValue::U64(_) => {
            claims::number_reads_back(all, k);
        },
        ClaimValue::Str(_) => {
            claims::text_reads_back(all, k);
        },
        ClaimValue::Raw(v) => {
            claims::list_reads_back(all, k);
            assert(claims::value_bytes(all[k].1) =~= v@);
        },
        ClaimValue::Bool(_) => {
            claims::value_follows_name(all, k);
        },
    }
}

proof fn lemma_extra_comma(extra: Seq<MintClaim>)
    ensures
        extra_bytes(extra).len() > 0 ==> extra_bytes(extra)[0] == 44,
    decreases extra.len(),
{
    if extra.len() > 0 {
        lemma_extra_comma(extra.drop_last());
    }
}

proof fn lemma_alg_safe(suite: Suite)
    requires
        suite == Suite::Es256 || suite == Suite::Ed25519,
    ensures
        claims::record_safe(bytes::text(alg_of(suite))),
{
    reveal_strlit("ES256");
    reveal_strlit("EdDSA");
    assert("ES256".is_ascii() && "EdDSA".is_ascii());
    assert(bytes::text("ES256") =~= seq![69u8, 83, 50, 53, 54]);
    assert(bytes::text("EdDSA") =~= seq![69u8, 100, 68, 83, 65]);
}

proof fn lemma_minted_parts(o: Order, signature: Seq<u8>, token: Seq<u8>)
    requires
        o.alg == alg_of(o.suite),
        o.suite == Suite::Es256 || o.suite == Suite::Ed25519,
        writable(o),
        claims_bytes(o).len() <= 1024,
        token == token_input(o) + seq![46u8] + base64::encoded(signature),
    ensures
        jose::parts(token) == Some(
            (
                base64::encoded(header_bytes(bytes::text(o.alg), o.kid@)),
                base64::encoded(claims_bytes(o)),
                base64::encoded(signature),
            ),
        ),
        token_verify::token_kid(token) == o.kid@,
        jose::suite_of_alg(
            claims::text_or_empty(token_verify::token_header(token), bytes::text("alg")),
        ) == Some(o.suite),
        token_verify::token_claims(token) == Some(claims_bytes(o)),
{
    let alg = bytes::text(o.alg);
    let header = header_bytes(alg, o.kid@);
    let json = claims_bytes(o);
    alg_names_suite(o.suite);
    lemma_alg_safe(o.suite);
    lemma_header_readable(alg, o.kid@);
    claims::text_reads_back(header_members(alg, o.kid@), 0);
    claims::text_reads_back(header_members(alg, o.kid@), 1);
    jose::compact_splits(header, json, signature);
    assert(token == jose::compact(header, json, signature));
    base64::encoded_decodes(header, 512);
    base64::encoded_decodes(json, 1024);
    assert(token_verify::token_header(token) == header);
}

/// A relying party verifies what the mint signed, without asking anybody: under the public half
/// of the key, until it expires, and for the issuer and the audience that it names, the token is
/// not refused, and says what was asked for.
pub proof fn a_minted_token_verifies(
    o: Order,
    signature: Seq<u8>,
    keys: Seq<token_verify::VerifyKey>,
    slot: int,
    request: token_verify::VerifyRequest,
    now: u64,
)
    requires
        o.alg == alg_of(o.suite),
        o.suite == Suite::Es256 || o.suite == Suite::Ed25519,
        writable(o),
        claims_bytes(o).len() <= 1024,
        signature.len() == 64,
        request.credential@ == token_input(o) + seq![46u8] + base64::encoded(signature),
        0 <= slot < keys.len(),
        keys[slot].live,
        token_verify::selected(keys, o.kid@, now) == Some(slot),
        keys[slot].suite == Some(o.suite),
        if o.suite == Suite::Ed25519 {
            crypto::ed25519_valid(keys[slot].pubkey@, token_input(o), signature)
        } else {
            crypto::ecdsa_valid(keys[slot].pubkey@, crypto::sha256(token_input(o)), signature)
        },
        o.iat <= now + 60,
        now < o.exp,
        request.expected_issuer@.len() == 0 || request.expected_issuer@ == o.request.iss@,
        request.expected_audience@.len() == 0 || request.expected_audience@ == o.request.aud@,
        request.expected_profile is None || request.expected_profile == Some(keys[slot].profile_id),
    ensures
        token_verify::refusal(keys, Some(request), Some(now)) is None,
        token_verify::token_claims(request.credential@) == Some(claims_bytes(o)),
{
    let token = request.credential@;
    lemma_minted_parts(o, signature, token);
    token_reads_back(o);
    base64::encoded_decodes(signature, 64);
    assert(token_verify::signature_holds(token, keys[slot].suite, keys[slot].pubkey@));
    assert(token_verify::policy_refusal(claims_bytes(o), keys[slot].profile_id, request, now)
        is None);
    assert(token_verify::token_refusal(keys[slot], request, now) is None);
    assert(keys[slot].live);
}

/// A relying party is told what the mint was asked for: the subject, the issuer, the audience, the
/// scope, the key and the window of the order; and of the custom claims, when the holder
/// authenticated, by which methods and to which level.
pub proof fn a_minted_token_is_reported_as_ordered(
    o: Order,
    id: token_verify::Identity,
    corr: u32,
    key: token_verify::VerifyKey,
    i: int,
)
    requires
        order_safe(o),
        legible_all(o.request.extra@),
        token_verify::reports(id, corr, key, claims_bytes(o)),
    ensures
        id.subject@ == o.request.sub@,
        id.issuer@ == o.request.iss@,
        id.audience@ == o.request.aud@,
        id.scope@ == o.request.scope@,
        id.issued_at == o.iat,
        id.expires_at == o.exp,
        o.request.jkt matches Some(jkt) ==> id.key_thumbprint@ == jkt@,
        o.request.jkt is None ==> id.key_thumbprint@.len() == 0,
        0 <= i < o.request.extra@.len() ==> {
            let c = o.request.extra@[i];
            &&& c.key@ == bytes::text("auth_time") && c.value is U64 ==> id.auth_time
                == c.value->U64_0 && id.evidence.auth_time == c.value->U64_0
            &&& c.key@ == bytes::text("jti") && c.value is Str ==> id.credential_id@
                == c.value->Str_0@
            &&& c.key@ == bytes::text("acr") && c.value is Str
                ==> crate::assurance::claimed_level(claims_bytes(o))
                == crate::assurance::level_named(c.value->Str_0@)
            &&& c.key@ == bytes::text("amr") && c.value is Raw ==> {
                let listed = claims::quoted_items(c.value->Raw_0@);
                &&& id.evidence.otp == listed.contains(bytes::text("otp"))
                &&& id.evidence.pop == listed.contains(bytes::text("pop"))
                &&& id.evidence.email == listed.contains(bytes::text("email"))
                &&& id.evidence.hwk == listed.contains(bytes::text("hwk"))
            }
        },
        (forall|j: int|
            0 <= j < o.request.extra@.len() ==> (#[trigger] o.request.extra@[j]).key@ != bytes::text(
                "auth_time",
            )) ==> id.auth_time == o.iat,
{
    token_reads_back(o);
    if 0 <= i < o.request.extra@.len() {
        custom_claims_read_back(o, i);
        let e = id.evidence;
        assert(e.has(crate::assurance::AuthMethod::Otp) == e.otp);
        assert(e.has(crate::assurance::AuthMethod::Pop) == e.pop);
        assert(e.has(crate::assurance::AuthMethod::Email) == e.email);
        assert(e.has(crate::assurance::AuthMethod::Hwk) == e.hwk);
    }
    if o.request.jkt is None {
        lemma_unwritten(o, bytes::text("jkt"));
    }
    if forall|j: int|
        0 <= j < o.request.extra@.len() ==> (#[trigger] o.request.extra@[j]).key@ != bytes::text(
            "auth_time",
        ) {
        lemma_unwritten(o, bytes::text("auth_time"));
    }
}

/// A name that nobody asked for reads as absent.
proof fn lemma_unwritten(o: Order, name: Seq<u8>)
    requires
        order_safe(o),
        legible_all(o.request.extra@),
        name == bytes::text("jkt") && o.request.jkt is None || name == bytes::text("auth_time"),
        forall|j: int|
            0 <= j < o.request.extra@.len() ==> (#[trigger] o.request.extra@[j]).key@ != name,
    ensures
        claims::text_claim(claims_bytes(o), name) is None,
        claims::number_claim(claims_bytes(o), name) is None,
{
    let m = access_members(o);
    let f = |c: MintClaim| as_member(c);
    let extra = o.request.extra@;
    let all = m + extra.map_values(f);
    let n = m.len() as int;
    lemma_extra_members(m, extra);
    lemma_whole_readable(o);
    lemma_claim_names();
    reveal_strlit("auth_time");
    assert("auth_time".is_ascii());
    assert(bytes::text("auth_time") =~= seq![97u8, 117, 116, 104, 95, 116, 105, 109, 101]);
    assert(claims_bytes(o) =~= claims::record_bytes(all));
    assert forall|k: int| 0 <= k < all.len() implies claims::names_apart(#[trigger] all[k], name) by {
        if k < n {
            assert(all[k] == m[k]);
            assert(m[k].0.len() <= 5);
            assert(m[k].0[0] != 106);
        } else {
            assert(all[k] == as_member(extra[k - n]));
            assert(legible(extra[k - n]));
        }
    }
    claims::absent_reads_absent(all, name);
}

/// The claims that say how a subject authenticated can be told apart from the others and from one
/// another, so that what was proved, to what level and when reads back of the token.
pub proof fn assurance_reads_back(o: Order, amr: Seq<u8>, acr: Seq<u8>, auth_time: u64)
    requires
        order_safe(o),
        o.request.extra@.len() == 3,
        o.request.extra@[0].key@ == bytes::text("amr"),
        o.request.extra@[0].value matches ClaimValue::Raw(v) && v@ == amr,
        o.request.extra@[1].key@ == bytes::text("acr"),
        o.request.extra@[1].value matches ClaimValue::Str(v) && v@ == acr,
        o.request.extra@[2].key@ == bytes::text("auth_time"),
        o.request.extra@[2].value == ClaimValue::U64(auth_time),
        amr.len() >= 2,
        amr[0] == 91,
        amr[amr.len() - 1] == 93,
        forall|x: int| 0 < x < amr.len() - 1 ==> #[trigger] amr[x] != 58 && amr[x] != 93,
    ensures
        legible_all(o.request.extra@),
        claims::array_claim(claims_bytes(o), bytes::text("amr")) == Some(amr),
        claims::text_claim(claims_bytes(o), bytes::text("acr")) == Some(acr),
        claims::number_claim(claims_bytes(o), bytes::text("auth_time")) == Some(auth_time),
{
    let extra = o.request.extra@;
    lemma_claim_names();
    reveal_strlit("amr");
    reveal_strlit("acr");
    reveal_strlit("auth_time");
    assert("amr".is_ascii() && "acr".is_ascii() && "auth_time".is_ascii());
    assert(bytes::text("amr") =~= seq![97u8, 109, 114]);
    assert(bytes::text("acr") =~= seq![97u8, 99, 114]);
    assert(bytes::text("auth_time") =~= seq![97u8, 117, 116, 104, 95, 116, 105, 109, 101]);
    assert(claim_safe(extra[1]));
    assert(extra[0].key@[1] == 109 && extra[1].key@[1] == 99 && extra[2].key@.len() == 9);
    assert(bytes::text("aud")[1] == 117);
    assert(legible(extra[0]) && legible(extra[1]) && legible(extra[2]));
    custom_claims_read_back(o, 0);
    custom_claims_read_back(o, 1);
    custom_claims_read_back(o, 2);
}

/// An order is for what was asked: it names the key that is to sign, one of the issuer and the
/// profile, of the suite that was asked for, inside its times, the active one where none is named;
/// and it runs from now for as long as was asked.
pub proof fn an_order_is_for_the_request(
    slots: Seq<KeySlot>,
    max_extra: nat,
    req: MintRequest,
    now: u64,
    o: Order,
)
    requires
        refusal(slots, max_extra, Some(req), Some(now)) is None,
        orders(slots, req, now, o),
        now + req.ttl_seconds <= u64::MAX,
    ensures
        o.iat == now,
        o.exp - o.iat == req.ttl_seconds,
        o.request == req,
        o.slot < slots.len(),
        ({
            let key = slots[o.slot as int];
            &&& key.live
            &&& key.kid@ == o.kid@
            &&& key.suite == Some(o.suite)
            &&& req.suite == Some(o.suite)
            &&& key.profile_id == req.profile_id
            &&& req.iss@.len() > 0 ==> key.issuer@ == req.iss@
            &&& req.kid@.len() > 0 ==> o.kid@ == req.kid@
            &&& req.kid@.len() == 0 ==> key.state == KeyState::Active
            &&& key.activate_after_unix <= now
            &&& key.remove_after_unix == 0 || now < key.remove_after_unix
        }),
        o.suite == Suite::Ed25519 ==> o.alg == "EdDSA",
        o.suite == Suite::Es256 ==> o.alg == "ES256",
{
    lemma_chosen(slots, req.iss@, req.profile_id, req.kid@, now, 0);
}

proof fn lemma_chosen(
    slots: Seq<KeySlot>,
    iss: Seq<u8>,
    profile_id: u16,
    kid: Seq<u8>,
    now: u64,
    i: int,
)
    requires
        0 <= i <= slots.len(),
    ensures
        match chosen_from(slots, iss, profile_id, kid, now, i) {
            Some(k) => i <= k < slots.len() && slots[k].serves(iss, profile_id, kid, now),
            None => forall|j: int|
                i <= j < slots.len() ==> !(#[trigger] slots[j]).serves(iss, profile_id, kid, now),
        },
    decreases slots.len() - i,
{
    if i < slots.len() && !slots[i].serves(iss, profile_id, kid, now) {
        lemma_chosen(slots, iss, profile_id, kid, now, i + 1);
    }
}

/// Why no token is minted: a request that cannot be read, a suite that is not known, no clock, no
/// key that could sign, and a key of another suite, each told as what it is.
pub proof fn why_nothing_is_minted(
    slots: Seq<KeySlot>,
    max_extra: nat,
    req: MintRequest,
    now: Option<u64>,
)
    ensures
        refusal(slots, max_extra, None, now) == Some(MintErr::Malformed),
        ({
            let why = refusal(slots, max_extra, Some(req), now);
            &&& req.suite is None ==> why == Some(MintErr::UnsupportedSuite)
            &&& req.suite is Some && now is None ==> why == Some(MintErr::SignFailed)
            &&& req.suite is Some && now is Some && (forall|j: int|
                0 <= j < slots.len() ==> !(#[trigger] slots[j]).live) ==> why == Some(
                if req.kid@.len() == 0 {
                    MintErr::NoKey
                } else {
                    MintErr::UnknownKid
                },
            )
            &&& why is None ==> req.extra@.len() <= max_extra && now is Some
        }),
{
    if now is Some {
        lemma_chosen(slots, req.iss@, req.profile_id, req.kid@, now->0, 0);
    }
}

/// Activating a key makes it the one active key of its issuer and profile: a request that names no
/// kid is signed with it from then on, and the key that was active before is retired.
pub proof fn activation_changes_who_signs(
    before: Mint,
    after: Mint,
    kr: KeyRef,
    i: int,
    req: MintRequest,
    now: u64,
    j: int,
)
    requires
        before.wf(),
        after.wf(),
        Mint::activated(before, after, kr, i),
        one_active(before.keys@),
        req.kid@.len() == 0,
        req.iss@ == kr.issuer@,
        req.iss@.len() > 0,
        req.profile_id == kr.profile_id,
        before.keys@[i].activate_after_unix <= now,
        before.keys@[i].remove_after_unix == 0 || now < before.keys@[i].remove_after_unix,
        0 <= j < 8,
        j != i,
    ensures
        chosen(after.keys@, req, now) == Some(i),
        after.keys@[i].kid@ == kr.kid@,
        kr.arg <= u32::MAX ==> after.keys@[i].generation == kr.arg,
        before.keys@[j].live && before.keys@[j].state == KeyState::Active
            && before.keys@[j].issuer@ == kr.issuer@ && before.keys@[j].profile_id == kr.profile_id
            ==> after.keys@[j].state == KeyState::Retired,
        before.keys@[j].issuer@ != kr.issuer@ || before.keys@[j].profile_id != kr.profile_id
            ==> after.keys@[j] == before.keys@[j],
{
    lemma_chosen(after.keys@, req.iss@, req.profile_id, req.kid@, now, 0);
    assert(after.keys@[i].serves(req.iss@, req.profile_id, req.kid@, now));
    let k = chosen(after.keys@, req, now)->0;
    assert(after.keys@[k].serves(req.iss@, req.profile_id, req.kid@, now));
    if k != i {
        assert(after.keys@[k] == if rival(before.keys@[k], before.keys@[i]) {
            KeySlot { state: KeyState::Retired, ..before.keys@[k] }
        } else {
            before.keys@[k]
        });
    }
}

/// A retired key signs no more where no kid is named, and nothing at all from its deadline on. A
/// removed one signs nothing.
pub proof fn a_key_signs_until_it_ends(
    before: Mint,
    retired: Mint,
    removed: Mint,
    kr: KeyRef,
    i: int,
    iss: Seq<u8>,
    profile_id: u16,
    kid: Seq<u8>,
    now: u64,
)
    requires
        before.wf(),
        Mint::retired(before, retired, kr, i),
        Mint::removed(before, removed, kr, i),
    ensures
        kid.len() == 0 ==> !retired.keys@[i].serves(iss, profile_id, kid, now),
        kr.arg > 0 && now >= kr.arg ==> !retired.keys@[i].serves(iss, profile_id, kid, now),
        !removed.keys@[i].serves(iss, profile_id, kid, now),
        forall|j: int| 0 <= j < 8 && j != i ==> #[trigger] retired.keys@[j] == before.keys@[j],
        forall|j: int| 0 <= j < 8 && j != i ==> #[trigger] removed.keys@[j] == before.keys@[j],
{
}

/// The answer of the mint reads back: for whom it is, how it ended, and the token.
pub proof fn a_mint_answer_reads_back(
    corr: u32,
    status: u8,
    delivery: u8,
    required_len: u32,
    body: Seq<u8>,
)
    requires
        body.len() <= 4148,
    ensures
        ({
            let m = mint_message(corr, status, delivery, required_len, body);
            &&& wire::le32(m, 0) == corr
            &&& m[4] == status
            &&& m[5] == delivery
            &&& wire::le32(m, 6) == required_len
            &&& wire::field16(m, 10) == Some(body)
        }),
{
    let none = Seq::<u8>::empty();
    let a = wire::le32_bytes(corr as nat);
    let b = seq![status, delivery];
    let c = wire::le32_bytes(required_len as nat);
    let d = wire::field16_bytes(body);
    let m = mint_message(corr, status, delivery, required_len, body);
    assert(a.len() == 4 && c.len() == 4);
    assert(wire::le32(m, 0) == corr) by {
        wire::number_reads_back(none, corr, b + c + d);
        assert(m =~= none + a + (b + c + d));
    }
    assert(wire::le32(m, 6) == required_len) by {
        wire::number_reads_back(a + b, required_len, d);
    }
    assert(wire::field16(m, 10) == Some(body)) by {
        wire::field16_reads_back(a + b + c, body, none);
        assert(m =~= a + b + c + d + none);
    }
}

} // verus!
