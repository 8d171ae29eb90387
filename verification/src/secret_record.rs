//! The sealed record: a value under AES-256-GCM, beside the id and the version that it is bound
//! to.
use vstd::prelude::*;

use crate::bytes::append;
use crate::crypto;
use crate::http;
use crate::secret_store::{aead_open, aead_seal};
use crate::wire;

verus! {

/// What a record binds its value to: id and version, each behind its length.
pub open spec fn bound(id: Seq<u8>, version: Seq<u8>) -> Seq<u8> {
    wire::field8_bytes(id) + wire::field8_bytes(version)
}

/// `[nonce][id f8][version f8][ciphertext f16][tag]`
pub open spec fn layout(
    nonce: Seq<u8>,
    id: Seq<u8>,
    version: Seq<u8>,
    data: Seq<u8>,
    tag: Seq<u8>,
) -> Seq<u8> {
    nonce + bound(id, version) + wire::field16_bytes(data) + tag
}

/// The bytes of the record that holds `value`.
pub open spec fn sealed(
    key: Seq<u8>,
    nonce: Seq<u8>,
    id: Seq<u8>,
    version: Seq<u8>,
    value: Seq<u8>,
) -> Seq<u8> {
    let made = crypto::gcm_sealed(key, nonce, bound(id, version), value);
    layout(nonce, id, version, made.0, made.1)
}

/// How long the record of a value is.
pub open spec fn record_len(id: nat, version: nat, value: nat) -> nat {
    32 + id + version + value
}

/// What a record is made of, and how many bytes it takes.
pub struct Parts {
    pub nonce: Seq<u8>,
    pub id: Seq<u8>,
    pub version: Seq<u8>,
    pub data: Seq<u8>,
    pub tag: Seq<u8>,
    pub len: nat,
}

/// The record that `s` begins with.
pub open spec fn parts(s: Seq<u8>) -> Option<Parts> {
    match wire::field8(s, 12) {
        Some(id) => match wire::field8(s, 13 + id.len() as int) {
            Some(version) => match wire::field16(s, 14 + id.len() + version.len() as int) {
                Some(data) => {
                    let end: int = 16 + id.len() + version.len() + data.len() as int;
                    if end + 16 <= s.len() {
                        Some(
                            Parts {
                                nonce: s.take(12),
                                id,
                                version,
                                data,
                                tag: s.subrange(end, end + 16),
                                len: (end + 16) as nat,
                            },
                        )
                    } else {
                        None
                    }
                },
                None => None,
            },
            None => None,
        },
        None => None,
    }
}

/// The version and the value of the record that `s` begins with, where it opens under `key` and
/// the value is no longer than `limit`.
pub open spec fn opened(key: Seq<u8>, s: Seq<u8>, limit: nat) -> Option<(Seq<u8>, Seq<u8>)> {
    match parts(s) {
        Some(p) => match crypto::gcm_opened(key, p.nonce, bound(p.id, p.version), p.data, p.tag) {
            Some(value) => if p.data.len() <= limit {
                Some((p.version, value))
            } else {
                None
            },
            None => None,
        },
        None => None,
    }
}

/// A record that was laid out reads back, whatever follows it.
pub proof fn layout_reads_back(
    nonce: Seq<u8>,
    id: Seq<u8>,
    version: Seq<u8>,
    data: Seq<u8>,
    tag: Seq<u8>,
    after: Seq<u8>,
)
    requires
        nonce.len() == 12,
        id.len() <= 255,
        version.len() <= 255,
        data.len() <= 65535,
        tag.len() == 16,
    ensures
        layout(nonce, id, version, data, tag).len() == record_len(
            id.len(),
            version.len(),
            data.len(),
        ),
        parts(layout(nonce, id, version, data, tag) + after) == Some(
            Parts {
                nonce,
                id,
                version,
                data,
                tag,
                len: record_len(id.len(), version.len(), data.len()),
            },
        ),
{
    let i = wire::field8_bytes(id);
    let v = wire::field8_bytes(version);
    let d = wire::field16_bytes(data);
    let s = layout(nonce, id, version, data, tag) + after;
    wire::field8_reads_back(nonce, id, v + d + tag + after);
    assert(s =~= nonce + i + (v + d + tag + after));
    wire::field8_reads_back(nonce + i, version, d + tag + after);
    assert(s =~= (nonce + i) + v + (d + tag + after));
    wire::field16_reads_back(nonce + i + v, data, tag + after);
    assert(s =~= (nonce + i + v) + d + (tag + after));
    let end: int = 16 + id.len() + version.len() + data.len() as int;
    assert(s.take(12) =~= nonce);
    assert(s.subrange(end, end + 16) =~= tag);
}

/// A record that is all there is read the same, whatever follows it.
pub proof fn what_follows_does_not_matter(s: Seq<u8>, after: Seq<u8>)
    requires
        parts(s) is Some,
    ensures
        parts(s + after) == parts(s),
{
    let p = parts(s)->0;
    let long = s + after;
    let i = p.id.len() as int;
    let v = p.version.len() as int;
    let d = p.data.len() as int;
    assert(wire::field8(long, 12) == Some(p.id)) by {
        assert(long.subrange(13, 13 + i) =~= s.subrange(13, 13 + i));
    }
    assert(wire::field8(long, 13 + i) == Some(p.version)) by {
        assert(long.subrange(14 + i, 14 + i + v) =~= s.subrange(14 + i, 14 + i + v));
    }
    assert(wire::field16(long, 14 + i + v) == Some(p.data)) by {
        assert(http::le16(long, 14 + i + v) == http::le16(s, 14 + i + v));
        assert(long.subrange(16 + i + v, 16 + i + v + d) =~= s.subrange(16 + i + v, 16 + i + v + d));
    }
    assert(long.take(12) =~= s.take(12));
    let end = 16 + i + v + d;
    assert(long.subrange(end, end + 16) =~= s.subrange(end, end + 16));
}

/// A record is read the same where nothing follows it.
pub proof fn a_record_stands_alone(s: Seq<u8>)
    requires
        parts(s) is Some,
    ensures
        parts(s)->0.len <= s.len(),
        parts(s.take(parts(s)->0.len as int)) == parts(s),
{
    let p = parts(s)->0;
    let i = p.id.len() as int;
    let v = p.version.len() as int;
    let d = p.data.len() as int;
    let short = s.take(p.len as int);
    assert(wire::field8(short, 12) == Some(p.id)) by {
        assert(short.subrange(13, 13 + i) =~= s.subrange(13, 13 + i));
    }
    assert(wire::field8(short, 13 + i) == Some(p.version)) by {
        assert(short.subrange(14 + i, 14 + i + v) =~= s.subrange(14 + i, 14 + i + v));
    }
    assert(wire::field16(short, 14 + i + v) == Some(p.data)) by {
        assert(http::le16(short, 14 + i + v) == http::le16(s, 14 + i + v));
        assert(short.subrange(16 + i + v, 16 + i + v + d) =~= s.subrange(
            16 + i + v,
            16 + i + v + d,
        ));
    }
    assert(short.take(12) =~= s.take(12));
    let end = 16 + i + v + d;
    assert(short.subrange(end, end + 16) =~= s.subrange(end, end + 16));
}

/// A record whose parts are laid out, before its value is opened.
pub struct RecordView {
    pub nonce: [u8; 12],
    pub id: Vec<u8>,
    pub version_id: Vec<u8>,
    pub data: Vec<u8>,
    pub tag: [u8; 16],
    pub encoded_len: usize,
}

impl RecordView {
    pub open spec fn shows(self, p: Parts) -> bool {
        &&& self.nonce@ == p.nonce
        &&& self.id@ == p.id
        &&& self.version_id@ == p.version
        &&& self.data@ == p.data
        &&& self.tag@ == p.tag
        &&& self.encoded_len == p.len
    }

    /// The record that `s` begins with.
    pub fn parse(s: &[u8]) -> (r: Option<Self>)
        ensures
            match r {
                Some(view) => parts(s@) matches Some(p) && view.shows(p) && p.len <= s@.len()
                    && p.id.len() <= 255 && p.version.len() <= 255 && p.data.len() <= 65535,
                None => parts(s@) is None,
            },
    {
        let id = match wire::read_field8(s, 12) {
            Some(id) => id,
            None => {
                return None;
            },
        };
        let version = match wire::read_field8(s, 13 + id.len()) {
            Some(version) => version,
            None => {
                return None;
            },
        };
        let data = match wire::read_field16(s, 14 + id.len() + version.len()) {
            Some(data) => data,
            None => {
                return None;
            },
        };
        let total: usize = s.len();
        let end: usize = 16 + id.len() + version.len() + data.len();
        if total - end < 16 {
            return None;
        }
        let mut nonce: [u8; 12] = [0u8; 12];
        let mut i: usize = 0;
        while i < 12
            invariant
                i <= 12 <= s@.len(),
                forall|j: int| 0 <= j < i ==> nonce@[j] == s@[j],
            decreases 12 - i,
        {
            nonce[i] = s[i];
            i = i + 1;
        }
        let mut tag: [u8; 16] = [0u8; 16];
        let mut k: usize = 0;
        while k < 16
            invariant
                k <= 16,
                end + 16 <= total == s@.len(),
                forall|j: int| 0 <= j < k ==> tag@[j] == s@[end + j],
            decreases 16 - k,
        {
            tag[k] = s[end + k];
            k = k + 1;
        }
        assert(nonce@ =~= s@.take(12));
        assert(tag@ =~= s@.subrange(end as int, end + 16));
        Some(
            RecordView {
                nonce,
                id: vstd::slice::slice_to_vec(id),
                version_id: vstd::slice::slice_to_vec(version),
                data: vstd::slice::slice_to_vec(data),
                tag,
                encoded_len: end + 16,
            },
        )
    }

    /// The value, where the record opens under `key` and the value is no longer than `limit`.
    pub fn open_into(&self, key: &[u8; 32], limit: usize) -> (r: Option<Vec<u8>>)
        requires
            self.id@.len() <= 255,
            self.version_id@.len() <= 255,
            self.data@.len() <= 65535,
        ensures
            match r {
                Some(value) => self.data@.len() <= limit && value@.len() == self.data@.len()
                    && crypto::gcm_opened(
                    key@,
                    self.nonce@,
                    bound(self.id@, self.version_id@),
                    self.data@,
                    self.tag@,
                ) == Some(value@),
                None => self.data@.len() > limit || crypto::gcm_opened(
                    key@,
                    self.nonce@,
                    bound(self.id@, self.version_id@),
                    self.data@,
                    self.tag@,
                ) is None,
            },
    {
        if self.data.len() > limit {
            return None;
        }
        let aad = bind(self.id.as_slice(), self.version_id.as_slice());
        let mut value = vstd::slice::slice_to_vec(self.data.as_slice());
        if aead_open(key, &self.nonce, aad.as_slice(), &mut value, &self.tag) {
            Some(value)
        } else {
            None
        }
    }
}

fn bind(id: &[u8], version: &[u8]) -> (r: Vec<u8>)
    requires
        id@.len() <= 255,
        version@.len() <= 255,
    ensures
        r@ == bound(id@, version@),
        r@.len() <= 512,
{
    let mut aad: Vec<u8> = Vec::new();
    let _ = wire::put_field8(&mut aad, 1024, id);
    let _ = wire::put_field8(&mut aad, 1024, version);
    assert(aad@ =~= bound(id@, version@));
    aad
}

/// The length of a sealed record.
pub fn sealed_len(id: usize, version: usize, value: usize) -> (r: usize)
    requires
        record_len(id as nat, version as nat, value as nat) <= usize::MAX,
    ensures
        r == record_len(id as nat, version as nat, value as nat),
{
    32 + id + version + value
}

/// Seal `value` into a record, unless a part is too long for its length or the record would be
/// longer than `limit`. Under the same key it opens to the same version and value.
pub fn seal_into(
    key: &[u8; 32],
    nonce: &[u8; 12],
    id: &[u8],
    version: &[u8],
    value: &[u8],
    limit: usize,
) -> (r: Option<Vec<u8>>)
    ensures
        r is Some <==> id@.len() <= 255 && version@.len() <= 255 && value@.len() <= 65535
            && record_len(id@.len(), version@.len(), value@.len()) <= limit,
        r matches Some(out) ==> {
            &&& out@ == sealed(key@, nonce@, id@, version@, value@)
            &&& opened(key@, out@, value@.len()) == Some((version@, value@))
            &&& parts(out@) matches Some(p)
            &&& p.id == id@
            &&& p.version == version@
            &&& p.data.len() == value@.len()
            &&& p.len == out@.len()
            &&& out@.len() == record_len(id@.len(), version@.len(), value@.len())
        },
{
    if id.len() > 255 || version.len() > 255 || value.len() > 65535 {
        return None;
    }
    if sealed_len(id.len(), version.len(), value.len()) > limit {
        return None;
    }
    let aad = bind(id, version);
    let mut data = vstd::slice::slice_to_vec(value);
    let tag = aead_seal(key, nonce, aad.as_slice(), &mut data);
    let mut out: Vec<u8> = Vec::new();
    append(&mut out, nonce.as_slice());
    append(&mut out, aad.as_slice());
    out.push((data.len() % 256) as u8);
    out.push((data.len() / 256) as u8);
    append(&mut out, data.as_slice());
    append(&mut out, tag.as_slice());
    proof {
        assert(http::le16_bytes(data@.len()) =~= seq![
            (data@.len() % 256) as u8,
            (data@.len() / 256) as u8,
        ]);
        assert(out@ =~= layout(nonce@, id@, version@, data@, tag@));
        layout_reads_back(nonce@, id@, version@, data@, tag@, Seq::empty());
        assert(out@ + Seq::<u8>::empty() =~= out@);
    }
    Some(out)
}

/// The version and the value of a sealed record.
pub fn open_record(key: &[u8; 32], s: &[u8], limit: usize) -> (r: Option<(Vec<u8>, Vec<u8>)>)
    ensures
        match r {
            Some(o) => opened(key@, s@, limit as nat) == Some((o.0@, o.1@)) && o.1@.len() <= limit,
            None => opened(key@, s@, limit as nat) is None,
        },
{
    match RecordView::parse(s) {
        Some(view) => match view.open_into(key, limit) {
            Some(value) => Some((view.version_id, value)),
            None => None,
        },
        None => None,
    }
}

/// A value is bound to its id and to its version: no other pair is bound in the same way.
pub proof fn other_names_are_bound_otherwise(a: Seq<u8>, v: Seq<u8>, b: Seq<u8>, w: Seq<u8>)
    requires
        a.len() <= 255,
        v.len() <= 255,
        b.len() <= 255,
        w.len() <= 255,
        bound(a, v) == bound(b, w),
    ensures
        a == b,
        v == w,
{
    let none = Seq::<u8>::empty();
    wire::field8_reads_back(none, a, wire::field8_bytes(v));
    wire::field8_reads_back(none, b, wire::field8_bytes(w));
    assert(none + wire::field8_bytes(a) + wire::field8_bytes(v) =~= bound(a, v));
    assert(none + wire::field8_bytes(b) + wire::field8_bytes(w) =~= bound(b, w));
    wire::field8_reads_back(wire::field8_bytes(a), v, none);
    wire::field8_reads_back(wire::field8_bytes(b), w, none);
    assert(wire::field8_bytes(a) + wire::field8_bytes(v) + none =~= bound(a, v));
    assert(wire::field8_bytes(b) + wire::field8_bytes(w) + none =~= bound(b, w));
}

/// A record opens only under the id and the version that stand in it: what it gives back is what
/// the cipher opens under its key, its nonce and those two.
pub proof fn a_record_opens_under_its_own_names(key: Seq<u8>, s: Seq<u8>, limit: nat)
    requires
        opened(key, s, limit) is Some,
    ensures
        ({
            let n = s[12] as int;
            let v = s[13 + n] as int;
            let d = http::le16(s, 14 + n + v) as int;
            let names = s.subrange(12, 14 + n + v);
            &&& s.len() >= 32 + n + v + d
            &&& d <= limit
            &&& (opened(key, s, limit)->0).0 == s.subrange(14 + n, 14 + n + v)
            &&& crypto::gcm_opened(
                key,
                s.subrange(0, 12),
                names,
                s.subrange(16 + n + v, 16 + n + v + d),
                s.subrange(16 + n + v + d, 32 + n + v + d),
            ) == Some((opened(key, s, limit)->0).1)
        }),
{
    let p = parts(s)->0;
    let n = s[12] as int;
    let v = s[13 + n] as int;
    assert(s.subrange(0, 12) =~= s.take(12));
    assert(bound(p.id, p.version) =~= s.subrange(12, 14 + n + v));
}

} // verus!
