//! The secret store: a fixed table of sealed records behind requests to get, put, list and
//! rotate, and the image of the table that is written to a file.
use vstd::prelude::*;
use vstd::slice::slice_subrange;

use crate::bytes;
use crate::bytes::{append, bytes_equal, copy_field, starts_with, u64_dec};
use crate::crypto;
use crate::keys;
use crate::keys::count;
use crate::secret_record;
use crate::secret_record::{open_record, seal_into, RecordView};
use crate::wire;

verus! {

pub const MAX_ID_LEN: usize = 64;

pub const MAX_VER_LEN: usize = 16;

pub const MAX_VALUE_LEN: usize = 1024;

pub const MAX_RECORDS: usize = 32;

/// Longest sealed record: that of the longest id, version and value.
pub const SLOT_LEN: usize = 1136;

/// The bytes before the records of a store file: a magic word and the length of what follows.
pub const FILE_HDR: usize = 8;

pub const STORE_PATH: &'static str = "secrets/store.bin";

/// Seal `data` in place with AES-256-GCM.
pub fn aead_seal(key: &[u8; 32], nonce: &[u8; 12], aad: &[u8], data: &mut Vec<u8>) -> (r: [u8; 16])
    requires
        old(data)@.len() <= 0x1_0000_0000,
        aad@.len() <= 0x1_0000_0000,
    ensures
        crypto::gcm_sealed(key@, nonce@, aad@, old(data)@) == (final(data)@, r@),
        crypto::gcm_opened(key@, nonce@, aad@, final(data)@, r@) == Some(old(data)@),
        final(data)@.len() == old(data)@.len(),
{
    crypto::seal(key, nonce, aad, data)
}

/// Open `data` in place with AES-256-GCM.
pub fn aead_open(
    key: &[u8; 32],
    nonce: &[u8; 12],
    aad: &[u8],
    data: &mut Vec<u8>,
    tag: &[u8; 16],
) -> (r: bool)
    requires
        old(data)@.len() <= 0x1_0000_0000,
        aad@.len() <= 0x1_0000_0000,
    ensures
        crypto::gcm_opened(key@, nonce@, aad@, old(data)@, tag@) == (if r {
            Some(final(data)@)
        } else {
            None
        }),
        final(data)@.len() == old(data)@.len(),
        !r ==> final(data)@ == old(data)@,
{
    crypto::open(key, nonce, aad, data, tag)
}

/// One sealed record, with its id beside it.
pub struct Record {
    pub used: bool,
    pub ver_ctr: u32,
    pub id: Vec<u8>,
    pub data: Vec<u8>,
}

impl Record {
    pub open spec fn vacant(self) -> bool {
        !self.used && self.ver_ctr == 0 && self.id@.len() == 0 && self.data@.len() == 0
    }

    pub open spec fn is_for(self, id: Seq<u8>) -> bool {
        self.used && self.id@ == id
    }

    /// The sealed bytes are one record, for the id beside it.
    pub open spec fn whole(self) -> bool {
        &&& 0 < self.id@.len() <= 64
        &&& self.data@.len() <= SLOT_LEN
        &&& secret_record::parts(self.data@) matches Some(p)
        &&& p.id == self.id@
        &&& p.len == self.data@.len()
    }

    pub fn zero() -> (r: Self)
        ensures
            r.vacant(),
    {
        Record { used: false, ver_ctr: 0, id: Vec::new(), data: Vec::new() }
    }
}

#[derive(Clone, Copy, Debug, PartialEq, Eq, Structural)]
pub enum SecretStatus {
    Success,
    Malformed,
    NotFound,
    NoKey,
    DecryptFailed,
    Full,
}

/// The answer to a get.
pub struct ValueReply {
    pub status: SecretStatus,
    pub id: Vec<u8>,
    pub ver: Vec<u8>,
    pub value: Vec<u8>,
}

/// What a request asks for.
#[derive(Clone, Copy, Debug, PartialEq, Eq, Structural)]
pub enum RequestKind {
    Get,
    Put,
    List,
    Rotate,
}

/// The answer to a request.
pub enum Answer {
    Value(ValueReply),
    Ack(SecretStatus),
    Page(Vec<u8>),
}

/// What became of the opening of the store file.
#[derive(Clone, Copy, Debug, PartialEq, Eq, Structural)]
pub enum OpenOutcome {
    /// The provider is not ready yet.
    Again,
    /// There is no file, or no provider.
    Absent,
    Opened,
}

/// What became of the writing of the store file.
#[derive(Clone, Copy, Debug, PartialEq, Eq, Structural)]
pub enum WriteOutcome {
    /// The provider is not ready yet.
    Again,
    /// There is no provider that can write.
    NoProvider,
    /// All of it was written.
    Written,
    /// Less than all of it was written.
    Short,
}

pub struct Store {
    pub kek: [u8; 32],
    pub kek_epoch: u32,
    pub has_kek: bool,
    pub nonce_ctr: u64,
    /// The store file has not been loaded yet.
    pub loading: bool,
    /// Nothing can write the store file.
    pub no_fs: bool,
    /// A write of the store file is owed.
    pub dirty: bool,
    pub records: Vec<Record>,
    pub get_ops: u32,
    pub put_ops: u32,
    pub list_ops: u32,
    pub rotate_ops: u32,
    pub decrypt_failures: u32,
    pub records_count: u32,
    pub bytes_stored: u32,
}

/// `[epoch u32][counter u64]`
pub open spec fn nonce_of(epoch: u32, ctr: u64) -> Seq<u8> {
    wire::le32_bytes(epoch as nat) + wire::le64_bytes(ctr as nat)
}

/// The index of the first record for `id`, from `i` on.
pub open spec fn found_from(records: Seq<Record>, id: Seq<u8>, i: int) -> Option<int>
    decreases records.len() - i,
{
    if i < 0 || i >= records.len() {
        None
    } else if records[i].is_for(id) {
        Some(i)
    } else {
        found_from(records, id, i + 1)
    }
}

/// The index of the first free slot, from `i` on.
pub open spec fn free_from(records: Seq<Record>, i: int) -> int
    decreases records.len() - i,
{
    if i < 0 || i >= records.len() || !records[i].used {
        i
    } else {
        free_from(records, i + 1)
    }
}

/// No two records are for one id.
pub open spec fn ids_differ(records: Seq<Record>) -> bool {
    forall|i: int, j: int|
        0 <= i < j < records.len() && (#[trigger] records[i]).used && (#[trigger] records[j]).used
            ==> records[i].id@ != records[j].id@
}

/// How many records are held, of those before `n`.
pub open spec fn used_before(records: Seq<Record>, n: int) -> nat
    decreases n,
{
    if n <= 0 {
        0
    } else {
        used_before(records, n - 1) + if records[n - 1].used {
            1nat
        } else {
            0nat
        }
    }
}

/// How many bytes the records before `n` hold.
pub open spec fn bytes_before(records: Seq<Record>, n: int) -> nat
    decreases n,
{
    if n <= 0 {
        0
    } else {
        bytes_before(records, n - 1) + if records[n - 1].used {
            records[n - 1].data@.len()
        } else {
            0
        }
    }
}

/// The records before `n`, one after the other.
pub open spec fn body_before(records: Seq<Record>, n: int) -> Seq<u8>
    decreases n,
{
    if n <= 0 {
        Seq::empty()
    } else {
        body_before(records, n - 1) + if records[n - 1].used {
            records[n - 1].data@
        } else {
            Seq::empty()
        }
    }
}

/// The ids that begin with `prefix`, of the records before `n`, each as a field.
pub open spec fn listing_before(records: Seq<Record>, prefix: Seq<u8>, n: int) -> Seq<u8>
    decreases n,
{
    if n <= 0 {
        Seq::empty()
    } else {
        listing_before(records, prefix, n - 1) + if listed(records[n - 1], prefix) {
            wire::field8_bytes(records[n - 1].id@)
        } else {
            Seq::empty()
        }
    }
}

/// How many ids [`listing_before`] holds.
pub open spec fn listed_before(records: Seq<Record>, prefix: Seq<u8>, n: int) -> nat
    decreases n,
{
    if n <= 0 {
        0
    } else {
        listed_before(records, prefix, n - 1) + if listed(records[n - 1], prefix) {
            1nat
        } else {
            0nat
        }
    }
}

pub open spec fn listed(r: Record, prefix: Seq<u8>) -> bool {
    r.used && bytes::has_prefix(r.id@, prefix)
}

proof fn lemma_before(records: Seq<Record>, prefix: Seq<u8>, n: int)
    requires
        0 <= n <= records.len(),
        forall|i: int|
            0 <= i < records.len() && (#[trigger] records[i]).used ==> records[i].whole(),
    ensures
        used_before(records, n) <= n,
        bytes_before(records, n) <= 1136 * n,
        body_before(records, n).len() == bytes_before(records, n),
        listed_before(records, prefix, n) <= n,
        listing_before(records, prefix, n).len() <= 65 * n,
    decreases n,
{
    if n > 0 {
        lemma_before(records, prefix, n - 1);
        assert(records[n - 1].used ==> records[n - 1].whole());
    }
}

impl Store {
    pub open spec fn wf(self) -> bool {
        &&& self.records@.len() == 32
        &&& forall|i: int|
            0 <= i < 32 && (#[trigger] self.records@[i]).used ==> self.records@[i].whole()
        &&& self.records_count == used_before(self.records@, 32)
        &&& self.bytes_stored == bytes_before(self.records@, 32)
    }

    /// Everything but the operation counters is as in `other`.
    pub open spec fn same_store(self, other: Self) -> bool {
        &&& self.kek == other.kek
        &&& self.kek_epoch == other.kek_epoch
        &&& self.has_kek == other.has_kek
        &&& self.nonce_ctr == other.nonce_ctr
        &&& self.loading == other.loading
        &&& self.no_fs == other.no_fs
        &&& self.dirty == other.dirty
        &&& self.records == other.records
        &&& self.records_count == other.records_count
        &&& self.bytes_stored == other.bytes_stored
    }

    /// Every operation counter is as in `other`.
    pub open spec fn same_ops(self, other: Self) -> bool {
        &&& self.get_ops == other.get_ops
        &&& self.put_ops == other.put_ops
        &&& self.list_ops == other.list_ops
        &&& self.rotate_ops == other.rotate_ops
        &&& self.decrypt_failures == other.decrypt_failures
    }

    /// An empty store without a key. The nonce counter starts at the time of day in
    /// milliseconds, so that a restart under the same key does not begin where it began before.
    pub fn module_new(unix_millis: u64) -> (r: Self)
        ensures
            r.wf(),
            !r.has_kek,
            r.kek_epoch == 0,
            r.nonce_ctr == unix_millis,
            r.loading,
            !r.no_fs,
            !r.dirty,
            forall|i: int| 0 <= i < 32 ==> (#[trigger] r.records@[i]).vacant(),
            r.get_ops == 0,
            r.put_ops == 0,
            r.list_ops == 0,
            r.rotate_ops == 0,
            r.decrypt_failures == 0,
    {
        let mut records: Vec<Record> = Vec::new();
        while records.len() < MAX_RECORDS
            invariant
                records@.len() <= 32,
                forall|i: int| 0 <= i < records@.len() ==> (#[trigger] records@[i]).vacant(),
            decreases 32 - records@.len(),
        {
            records.push(Record::zero());
        }
        proof {
            lemma_all_vacant(records@, 32);
        }
        Store {
            kek: [0u8; 32],
            kek_epoch: 0,
            has_kek: false,
            nonce_ctr: unix_millis,
            loading: true,
            no_fs: false,
            dirty: false,
            records,
            get_ops: 0,
            put_ops: 0,
            list_ops: 0,
            rotate_ops: 0,
            decrypt_failures: 0,
            records_count: 0,
            bytes_stored: 0,
        }
    }

    /// Take a key update, `[epoch u32][key 32]`; a shorter one is left aside.
    pub fn drain_key_updates(&mut self, payload: &[u8]) -> (r: bool)
        ensures
            r == (payload@.len() >= 36),
            r ==> final(self).has_kek && final(self).kek_epoch == wire::le32(payload@, 0)
                && final(self).kek@ == payload@.subrange(4, 36) && final(self).same_ops(*old(self))
                && (Store {
                kek: old(self).kek,
                kek_epoch: old(self).kek_epoch,
                has_kek: old(self).has_kek,
                ..*final(self)
            }).same_store(*old(self)),
            !r ==> *final(self) == *old(self),
    {
        if payload.len() < 36 {
            return false;
        }
        self.kek_epoch = wire::read_u32(payload, 0);
        let mut key: [u8; 32] = [0u8; 32];
        let mut i: usize = 0;
        while i < 32
            invariant
                i <= 32,
                payload@.len() >= 36,
                forall|j: int| 0 <= j < i ==> key@[j] == payload@[4 + j],
            decreases 32 - i,
        {
            key[i] = payload[4 + i];
            i = i + 1;
        }
        assert(key@ =~= payload@.subrange(4, 36));
        self.kek = key;
        self.has_kek = true;
        true
    }

    /// The next nonce under the current key.
    pub fn next_nonce(&mut self) -> (r: [u8; 12])
        ensures
            final(self).nonce_ctr == old(self).nonce_ctr.wrapping_add(1),
            r@ == nonce_of(old(self).kek_epoch, final(self).nonce_ctr),
            final(self).same_ops(*old(self)),
            (Store { nonce_ctr: old(self).nonce_ctr, ..*final(self) }).same_store(*old(self)),
    {
        self.nonce_ctr = self.nonce_ctr.wrapping_add(1);
        let mut whole = wire::u32_bytes(self.kek_epoch);
        let ctr = wire::u64_bytes(self.nonce_ctr);
        append(&mut whole, ctr.as_slice());
        let mut nonce: [u8; 12] = [0u8; 12];
        let mut i: usize = 0;
        while i < 12
            invariant
                i <= 12 == whole@.len(),
                forall|j: int| 0 <= j < i ==> nonce@[j] == whole@[j],
            decreases 12 - i,
        {
            nonce[i] = whole[i];
            i = i + 1;
        }
        assert(nonce@ =~= whole@);
        nonce
    }

    /// The first record for `id`.
    pub fn find_record(&self, id: &[u8]) -> (r: Option<usize>)
        ensures
            match r {
                Some(i) => found_from(self.records@, id@, 0) == Some(i as int) && i
                    < self.records@.len() && self.records@[i as int].is_for(id@),
                None => found_from(self.records@, id@, 0) is None && forall|j: int|
                    0 <= j < self.records@.len() ==> !(#[trigger] self.records@[j]).is_for(id@),
            },
    {
        let mut i: usize = 0;
        while i < self.records.len()
            invariant
                i <= self.records@.len(),
                found_from(self.records@, id@, 0) == found_from(self.records@, id@, i as int),
                forall|j: int| 0 <= j < i ==> !(#[trigger] self.records@[j]).is_for(id@),
            decreases self.records@.len() - i,
        {
            if self.records[i].used && bytes_equal(self.records[i].id.as_slice(), id) {
                return Some(i);
            }
            i = i + 1;
        }
        None
    }

    /// The status and the id of the answer to a get for which no record is opened.
    pub open spec fn get_answer(self, payload: Seq<u8>) -> Option<(SecretStatus, Seq<u8>)> {
        match wire::field8(payload, 4) {
            None => Some((SecretStatus::Malformed, Seq::empty())),
            Some(id) => if id.len() > 64 {
                Some((SecretStatus::Malformed, Seq::empty()))
            } else if found_from(self.records@, id, 0) is None {
                Some((SecretStatus::NotFound, id))
            } else if !self.has_kek {
                Some((SecretStatus::NoKey, id))
            } else {
                None
            },
        }
    }

    /// What a get is answered: a status, an id, a version and a value.
    pub open spec fn get_outcome(self, payload: Seq<u8>) -> (
        SecretStatus,
        Seq<u8>,
        Seq<u8>,
        Seq<u8>,
    ) {
        match self.get_answer(payload) {
            Some(answer) => (answer.0, answer.1, Seq::empty(), Seq::empty()),
            None => {
                let id = wire::field8(payload, 4)->0;
                match self.secret(id) {
                    Some(o) => (SecretStatus::Success, id, bytes::clipped(o.0, 16), o.1),
                    None => (SecretStatus::DecryptFailed, id, Seq::empty(), Seq::empty()),
                }
            },
        }
    }

    /// The version and the value that the store holds for `id`, where its record opens.
    pub open spec fn secret(self, id: Seq<u8>) -> Option<(Seq<u8>, Seq<u8>)> {
        match found_from(self.records@, id, 0) {
            Some(k) => secret_record::opened(self.kek@, self.records@[k].data@, 1024),
            None => None,
        }
    }

    /// What a get comes to.
    pub open spec fn got(before: Self, after: Self, payload: Seq<u8>, r: ValueReply) -> bool {
        let outcome = before.get_outcome(payload);
        &&& after.same_store(before)
        &&& after.get_ops == keys::counted(before.get_ops)
        &&& after.decrypt_failures == if outcome.0 == SecretStatus::DecryptFailed {
            keys::counted(before.decrypt_failures)
        } else {
            before.decrypt_failures
        }
        &&& (Store {
            get_ops: before.get_ops,
            decrypt_failures: before.decrypt_failures,
            ..after
        }).same_ops(before)
        &&& r.status == outcome.0
        &&& r.id@ == outcome.1
        &&& r.ver@ == outcome.2
        &&& r.value@ == outcome.3
        &&& r.id@.len() <= 64
        &&& r.ver@.len() <= 16
        &&& r.value@.len() <= 1024
    }

    /// Answer a get, `[corr u32][id f8]`.
    pub fn handle_get(&mut self, payload: &[u8]) -> (r: ValueReply)
        requires
            old(self).wf(),
        ensures
            final(self).wf(),
            Self::got(*old(self), *final(self), payload@, r),
    {
        count(&mut self.get_ops);
        let id = match wire::read_field8(payload, 4) {
            Some(id) => id,
            None => {
                return value_reply(SecretStatus::Malformed, Vec::new());
            },
        };
        if id.len() > MAX_ID_LEN {
            return value_reply(SecretStatus::Malformed, Vec::new());
        }
        let named = vstd::slice::slice_to_vec(id);
        let idx: usize = match self.find_record(id) {
            Some(idx) => idx,
            None => {
                return value_reply(SecretStatus::NotFound, named);
            },
        };
        if !self.has_kek {
            return value_reply(SecretStatus::NoKey, named);
        }
        match open_record(&self.kek, self.records[idx].data.as_slice(), MAX_VALUE_LEN) {
            Some((ver, value)) => ValueReply {
                status: SecretStatus::Success,
                id: named,
                ver: copy_field(ver.as_slice(), MAX_VER_LEN),
                value,
            },
            None => {
                count(&mut self.decrypt_failures);
                value_reply(SecretStatus::DecryptFailed, named)
            },
        }
    }

    /// The three fields of a put.
    pub open spec fn put_fields(payload: Seq<u8>) -> Option<(Seq<u8>, Seq<u8>, Seq<u8>)> {
        match wire::field8(payload, 4) {
            Some(id) => match wire::field8(payload, 5 + id.len() as int) {
                Some(ver) => match wire::field16(payload, 6 + id.len() + ver.len() as int) {
                    Some(value) => Some((id, ver, value)),
                    None => None,
                },
                None => None,
            },
            None => None,
        }
    }

    pub open spec fn put_answer(self, payload: Seq<u8>) -> Option<SecretStatus> {
        match Self::put_fields(payload) {
            None => Some(SecretStatus::Malformed),
            Some(f) => if f.0.len() == 0 || f.0.len() > 64 || f.1.len() > 16 || f.2.len() > 1024 {
                Some(SecretStatus::Malformed)
            } else if !self.has_kek {
                Some(SecretStatus::NoKey)
            } else if found_from(self.records@, f.0, 0) is None && forall|i: int|
                0 <= i < 32 ==> (#[trigger] self.records@[i]).used {
                Some(SecretStatus::Full)
            } else {
                None
            },
        }
    }

    /// Where a record for `id` goes: the slot that it has, or the first free one.
    pub open spec fn place_for(self, id: Seq<u8>) -> int {
        match found_from(self.records@, id, 0) {
            Some(k) => k,
            None => free_from(self.records@, 0),
        }
    }

    /// The record in slot `i` was replaced, and nothing else but the metrics and the nonce
    /// counter changed.
    pub open spec fn replaced(
        before: Self,
        after: Self,
        i: int,
        id: Seq<u8>,
        data: Seq<u8>,
        ver_ctr: u32,
    ) -> bool {
        &&& 0 <= i < 32
        &&& after.records@[i].is_for(id)
        &&& after.records@[i].data@ == data
        &&& after.records@[i].ver_ctr == ver_ctr
        &&& forall|j: int|
            0 <= j < 32 && j != i ==> #[trigger] after.records@[j] == before.records@[j]
        &&& (Store {
            nonce_ctr: before.nonce_ctr,
            records: before.records,
            records_count: before.records_count,
            bytes_stored: before.bytes_stored,
            ..after
        }).same_store(before)
    }

    /// The record for `id` was sealed anew, under a nonce of its own: it holds `ver` and `value`.
    pub open spec fn resealed(
        before: Self,
        after: Self,
        id: Seq<u8>,
        ver: Seq<u8>,
        value: Seq<u8>,
        ver_ctr: u32,
    ) -> bool {
        let data = secret_record::sealed(
            before.kek@,
            nonce_of(before.kek_epoch, after.nonce_ctr),
            id,
            ver,
            value,
        );
        &&& after.nonce_ctr == before.nonce_ctr.wrapping_add(1)
        &&& Self::replaced(before, after, before.place_for(id), id, data, ver_ctr)
        &&& secret_record::opened(before.kek@, data, 1024) == Some((ver, value))
    }

    /// What a put comes to. A nonce is spent by what is sealed and by nothing else.
    pub open spec fn put(before: Self, after: Self, payload: Seq<u8>, r: SecretStatus) -> bool {
        &&& after.put_ops == keys::counted(before.put_ops)
        &&& (Store { put_ops: before.put_ops, ..after }).same_ops(before)
        &&& match before.put_answer(payload) {
            Some(status) => r == status && after.same_store(before),
            None => {
                let f = Self::put_fields(payload)->0;
                r == SecretStatus::Success && Self::resealed(before, after, f.0, f.1, f.2, 1)
            },
        }
    }

    /// Answer a put, `[corr u32][id f8][ver f8][value f16]`: its value is stored under version
    /// counter 1.
    pub fn handle_put(&mut self, payload: &[u8]) -> (r: SecretStatus)
        requires
            old(self).wf(),
        ensures
            final(self).wf(),
            Self::put(*old(self), *final(self), payload@, r),
    {
        count(&mut self.put_ops);
        let id = match wire::read_field8(payload, 4) {
            Some(id) => id,
            None => {
                return SecretStatus::Malformed;
            },
        };
        let ver = match wire::read_field8(payload, 5 + id.len()) {
            Some(ver) => ver,
            None => {
                return SecretStatus::Malformed;
            },
        };
        let value = match wire::read_field16(payload, 6 + id.len() + ver.len()) {
            Some(value) => value,
            None => {
                return SecretStatus::Malformed;
            },
        };
        if id.len() == 0 || id.len() > MAX_ID_LEN || ver.len() > MAX_VER_LEN || value.len()
            > MAX_VALUE_LEN {
            return SecretStatus::Malformed;
        }
        if !self.has_kek {
            return SecretStatus::NoKey;
        }
        let index: usize = match self.find_record(id) {
            Some(i) => i,
            None => match self.vacancy() {
                Some(i) => i,
                None => {
                    return SecretStatus::Full;
                },
            },
        };
        let nonce = self.next_nonce();
        match seal_into(&self.kek, &nonce, id, ver, value, SLOT_LEN) {
            Some(sealed) => {
                self.store_record(index, id, sealed.as_slice(), 1);
                SecretStatus::Success
            },
            None => SecretStatus::Malformed,
        }
    }

    fn vacancy(&self) -> (r: Option<usize>)
        ensures
            match r {
                Some(i) => i < self.records@.len() && !self.records@[i as int].used && i == free_from(
                    self.records@,
                    0,
                ),
                None => forall|j: int|
                    0 <= j < self.records@.len() ==> (#[trigger] self.records@[j]).used,
            },
    {
        let mut i: usize = 0;
        while i < self.records.len()
            invariant
                i <= self.records@.len(),
                forall|j: int| 0 <= j < i ==> (#[trigger] self.records@[j]).used,
                free_from(self.records@, 0) == free_from(self.records@, i as int),
            decreases self.records@.len() - i,
        {
            if !self.records[i].used {
                return Some(i);
            }
            i = i + 1;
        }
        None
    }

    /// Place a sealed record in a slot and refresh the aggregate metrics.
    pub fn store_record(&mut self, idx: usize, id: &[u8], sealed: &[u8], ver_ctr: u32)
        requires
            old(self).wf(),
            idx < 32,
            0 < id@.len() <= 64,
            sealed@.len() <= SLOT_LEN,
            secret_record::parts(sealed@) matches Some(p) && p.id == id@ && p.len == sealed@.len(),
        ensures
            final(self).wf(),
            final(self).same_ops(*old(self)),
            final(self).nonce_ctr == old(self).nonce_ctr,
            Self::replaced(*old(self), *final(self), idx as int, id@, sealed@, ver_ctr),
    {
        self.records[idx] = Record {
            used: true,
            ver_ctr,
            id: vstd::slice::slice_to_vec(id),
            data: vstd::slice::slice_to_vec(sealed),
        };
        let mut total: u32 = 0;
        let mut held: u32 = 0;
        let mut i: usize = 0;
        while i < 32
            invariant
                i <= 32,
                self.records@.len() == 32,
                forall|j: int|
                    0 <= j < 32 && (#[trigger] self.records@[j]).used ==> self.records@[j].whole(),
                held == used_before(self.records@, i as int),
                total == bytes_before(self.records@, i as int),
            decreases 32 - i,
        {
            proof {
                lemma_before(self.records@, Seq::empty(), i as int);
            }
            if self.records[i].used {
                held = held + 1;
                total = total + self.records[i].data.len() as u32;
            }
            i = i + 1;
        }
        self.records_count = held;
        self.bytes_stored = total;
    }

    /// The prefix of a list request: empty where it is absent or too long.
    pub open spec fn list_prefix(payload: Seq<u8>) -> Seq<u8> {
        match wire::field8(payload, 4) {
            Some(p) => bytes::fitting(p, 64),
            None => Seq::empty(),
        }
    }

    /// What a list comes to. All ids fit on the page, so there is never more.
    pub open spec fn listed_ids(
        before: Self,
        after: Self,
        corr: u32,
        payload: Seq<u8>,
        page: Seq<u8>,
    ) -> bool {
        let prefix = Self::list_prefix(payload);
        &&& after.wf()
        &&& after.same_store(before)
        &&& after.list_ops == keys::counted(before.list_ops)
        &&& (Store { list_ops: before.list_ops, ..after }).same_ops(before)
        &&& page == wire::le32_bytes(corr as nat) + seq![
            listed_before(before.records@, prefix, 32) as u8,
        ] + listing_before(before.records@, prefix, 32) + seq![0u8]
    }

    /// The page that answers a list, `[corr u32][count u8][{id f8} x count][more u8]`.
    pub fn handle_list(&mut self, corr: u32, payload: &[u8]) -> (r: Vec<u8>)
        requires
            old(self).wf(),
        ensures
            Self::listed_ids(*old(self), *final(self), corr, payload@, r@),
    {
        count(&mut self.list_ops);
        let none: Vec<u8> = Vec::new();
        let prefix = match wire::read_field8(payload, 4) {
            Some(p) => if p.len() <= MAX_ID_LEN {
                p
            } else {
                none.as_slice()
            },
            None => none.as_slice(),
        };
        assert(prefix@ =~= Self::list_prefix(payload@));
        let mut ids: Vec<u8> = Vec::new();
        let mut n: u8 = 0;
        let mut i: usize = 0;
        while i < 32
            invariant
                i <= 32,
                self.wf(),
                n == listed_before(self.records@, prefix@, i as int),
                n <= i,
                ids@ == listing_before(self.records@, prefix@, i as int),
            decreases 32 - i,
        {
            proof {
                lemma_before(self.records@, prefix@, i as int);
            }
            let rec = &self.records[i];
            if rec.used && starts_with(rec.id.as_slice(), prefix) {
                ids.push(rec.id.len() as u8);
                append(&mut ids, rec.id.as_slice());
                n = n + 1;
            }
            i = i + 1;
            assert(ids@ =~= listing_before(self.records@, prefix@, i as int));
        }
        let mut page = wire::u32_bytes(corr);
        page.push(n);
        assert(page@ =~= wire::le32_bytes(corr as nat) + seq![n]);
        append(&mut page, ids.as_slice());
        let ghost start = page@;
        page.push(0);
        assert(page@ =~= start + seq![0u8]);
        page
    }

    pub open spec fn rotate_answer(self, payload: Seq<u8>) -> Option<SecretStatus> {
        match wire::field8(payload, 4) {
            None => Some(SecretStatus::Malformed),
            Some(id) => if id.len() == 0 || id.len() > 64 {
                Some(SecretStatus::Malformed)
            } else if found_from(self.records@, id, 0) is None {
                Some(SecretStatus::NotFound)
            } else if !self.has_kek {
                Some(SecretStatus::NoKey)
            } else {
                None
            },
        }
    }

    /// What a rotate comes to: the value stays, under a fresh nonce and the next version.
    pub open spec fn rotated(before: Self, after: Self, payload: Seq<u8>, r: SecretStatus) -> bool {
        &&& after.rotate_ops == keys::counted(before.rotate_ops)
        &&& (Store {
            rotate_ops: before.rotate_ops,
            decrypt_failures: before.decrypt_failures,
            ..after
        }).same_ops(before)
        &&& after.decrypt_failures == if r == SecretStatus::DecryptFailed {
            keys::counted(before.decrypt_failures)
        } else {
            before.decrypt_failures
        }
        &&& match before.rotate_answer(payload) {
            Some(status) => r == status && after.same_store(before),
            None => {
                let id = wire::field8(payload, 4)->0;
                let next = next_version(before.records@[before.place_for(id)].ver_ctr);
                match before.secret(id) {
                    Some(o) => r == SecretStatus::Success && Self::resealed(
                        before,
                        after,
                        id,
                        bytes::decimal(next as nat),
                        o.1,
                        next,
                    ),
                    None => r == SecretStatus::DecryptFailed && after.same_store(before),
                }
            },
        }
    }

    /// Answer a rotate, `[corr u32][id f8]`.
    pub fn handle_rotate(&mut self, payload: &[u8]) -> (r: SecretStatus)
        requires
            old(self).wf(),
        ensures
            final(self).wf(),
            Self::rotated(*old(self), *final(self), payload@, r),
    {
        count(&mut self.rotate_ops);
        let id = match wire::read_field8(payload, 4) {
            Some(id) => id,
            None => {
                return SecretStatus::Malformed;
            },
        };
        if id.len() == 0 || id.len() > MAX_ID_LEN {
            return SecretStatus::Malformed;
        }
        let index: usize = match self.find_record(id) {
            Some(index) => index,
            None => {
                return SecretStatus::NotFound;
            },
        };
        if !self.has_kek {
            return SecretStatus::NoKey;
        }
        let value = match open_record(
            &self.kek,
            self.records[index].data.as_slice(),
            MAX_VALUE_LEN,
        ) {
            Some((_, value)) => value,
            None => {
                count(&mut self.decrypt_failures);
                return SecretStatus::DecryptFailed;
            },
        };
        let new_ver: u32 = self.records[index].ver_ctr.saturating_add(1);
        let ver = fmt_ver_dec(new_ver);
        let nonce = self.next_nonce();
        match seal_into(&self.kek, &nonce, id, ver.as_slice(), value.as_slice(), SLOT_LEN) {
            Some(sealed) => {
                self.store_record(index, id, sealed.as_slice(), new_ver);
                SecretStatus::Success
            },
            None => SecretStatus::Malformed,
        }
    }

    /// The file image of the table: magic, length and the records one after the other. There is
    /// none to write where the store is in memory alone.
    pub fn persist(&self) -> (r: Option<Vec<u8>>)
        requires
            self.wf(),
        ensures
            r is None <==> self.no_fs,
            r matches Some(image) ==> image@ == file_image(body_before(self.records@, 32)),
    {
        if self.no_fs {
            return None;
        }
        let mut body: Vec<u8> = Vec::new();
        let mut i: usize = 0;
        while i < 32
            invariant
                i <= 32,
                self.wf(),
                body@ == body_before(self.records@, i as int),
            decreases 32 - i,
        {
            if self.records[i].used {
                append(&mut body, self.records[i].data.as_slice());
            }
            i = i + 1;
            assert(body@ =~= body_before(self.records@, i as int));
        }
        proof {
            lemma_before(self.records@, Seq::empty(), 32);
        }
        let mut out: Vec<u8> = Vec::new();
        append(&mut out, "KSF1".as_bytes());
        assert(out@ =~= bytes::text("KSF1"));
        let len = wire::u32_bytes(body.len() as u32);
        append(&mut out, len.as_slice());
        append(&mut out, body.as_slice());
        Some(out)
    }

    /// What follows an attempt to write the file. A provider that is not ready, or a short write,
    /// leaves the write owed; where none can write the store is in memory alone from then on.
    pub fn persisted(&mut self, outcome: WriteOutcome)
        ensures
            final(self).no_fs == (old(self).no_fs || outcome == WriteOutcome::NoProvider),
            final(self).dirty == (outcome == WriteOutcome::Again || outcome == WriteOutcome::Short),
            final(self).same_ops(*old(self)),
            (Store { no_fs: old(self).no_fs, dirty: old(self).dirty, ..*final(self) }).same_store(
                *old(self),
            ),
    {
        match outcome {
            WriteOutcome::Again | WriteOutcome::Short => {
                self.dirty = true;
            },
            WriteOutcome::NoProvider => {
                self.no_fs = true;
                self.dirty = false;
            },
            WriteOutcome::Written => {
                self.dirty = false;
            },
        }
    }

    /// Answer a request, whose first field is its correlation; one that is too short for that is
    /// left aside, since no reply could be addressed.
    pub fn handle_request(&mut self, kind: RequestKind, payload: &[u8]) -> (r: Option<
        (u32, Answer),
    >)
        requires
            old(self).wf(),
        ensures
            final(self).wf(),
            match r {
                None => payload@.len() < 4 && *final(self) == *old(self),
                Some(r) => {
                    &&& payload@.len() >= 4
                    &&& r.0 == wire::le32(payload@, 0)
                    &&& match kind {
                        RequestKind::Get => r.1 matches Answer::Value(reply) && Self::got(
                            *old(self),
                            *final(self),
                            payload@,
                            reply,
                        ),
                        RequestKind::Put => r.1 matches Answer::Ack(status) && Self::put(
                            *old(self),
                            *final(self),
                            payload@,
                            status,
                        ),
                        RequestKind::List => r.1 matches Answer::Page(page) && Self::listed_ids(
                            *old(self),
                            *final(self),
                            r.0,
                            payload@,
                            page@,
                        ),
                        RequestKind::Rotate => r.1 matches Answer::Ack(status) && Self::rotated(
                            *old(self),
                            *final(self),
                            payload@,
                            status,
                        ),
                    }
                },
            },
    {
        let corr: u32 = match wire::correlation(payload) {
            Some(corr) => corr,
            None => {
                return None;
            },
        };
        let answer = match kind {
            RequestKind::Get => Answer::Value(self.handle_get(payload)),
            RequestKind::Put => Answer::Ack(self.handle_put(payload)),
            RequestKind::List => Answer::Page(self.handle_list(corr, payload)),
            RequestKind::Rotate => Answer::Ack(self.handle_rotate(payload)),
        };
        Some((corr, answer))
    }

    /// What follows the opening of the store file for loading: whether it is to be read. Requests
    /// wait for a provider that is not ready; without a file the store starts empty.
    pub fn load_opened(&mut self, outcome: OpenOutcome) -> (r: bool)
        ensures
            r == (outcome == OpenOutcome::Opened),
            final(self).loading == (old(self).loading && outcome == OpenOutcome::Again),
            final(self).same_ops(*old(self)),
            (Store { loading: old(self).loading, ..*final(self) }).same_store(*old(self)),
    {
        if outcome != OpenOutcome::Again {
            self.loading = false;
        }
        outcome == OpenOutcome::Opened
    }

    /// Take the records of a store file into the table, one slot after the other, up to the
    /// first that is torn or cannot be held; requests are answered from then on. The version
    /// counter of a record is the number that its version names, or 1.
    pub fn step_load(&mut self, file: &[u8])
        requires
            old(self).wf(),
        ensures
            final(self).wf(),
            !final(self).loading,
            final(self).same_ops(*old(self)),
            (Store {
                loading: old(self).loading,
                records: old(self).records,
                records_count: old(self).records_count,
                bytes_stored: old(self).bytes_stored,
                ..*final(self)
            }).same_store(*old(self)),
            forall|i: int|
                0 <= i < entries(file_body(file@), 32).len() ==> entries(file_body(file@), 32)[i].is(
                    #[trigger] final(self).records@[i],
                ),
            forall|i: int|
                entries(file_body(file@), 32).len() <= i < 32 ==> #[trigger] final(self).records@[i]
                    == old(self).records@[i],
    {
        let body = loadable(file);
        let total: usize = body.len();
        let mut offset: usize = 0;
        let mut slot: usize = 0;
        let ghost all = entries(body@, 32);
        assert(body@.skip(0) =~= body@);
        assert(all.skip(0) =~= all);
        proof {
            lemma_entries_len(body@, 32);
        }
        while slot < MAX_RECORDS && offset < total
            invariant_except_break
                all.skip(slot as int) == entries(body@.skip(offset as int), (32 - slot) as nat),
            invariant
                slot <= 32,
                offset <= total == body@.len(),
                all == entries(body@, 32),
                slot <= all.len() <= 32,
                self.wf(),
                self.same_ops(*old(self)),
                (Store {
                    records: old(self).records,
                    records_count: old(self).records_count,
                    bytes_stored: old(self).bytes_stored,
                    ..*self
                }).same_store(*old(self)),
                forall|i: int| 0 <= i < slot ==> all[i].is(#[trigger] self.records@[i]),
                forall|i: int|
                    slot <= i < 32 ==> #[trigger] self.records@[i] == old(self).records@[i],
            ensures
                slot == all.len(),
            decreases 32 - slot,
        {
            let rest = slice_subrange(body.as_slice(), offset, total);
            assert(rest@ =~= body@.skip(offset as int));
            let candidate = copy_field(rest, SLOT_LEN);
            let view = match RecordView::parse(candidate.as_slice()) {
                Some(view) => view,
                None => {
                    assert(all.skip(slot as int).len() == 0);
                    break;
                },
            };
            if view.id.len() == 0 || view.id.len() > MAX_ID_LEN {
                assert(all.skip(slot as int).len() == 0);
                break;
            }
            let sealed = slice_subrange(candidate.as_slice(), 0, view.encoded_len);
            let ver_ctr: u32 = match parse_dec_u32(view.version_id.as_slice()) {
                Some(n) => n,
                None => 1,
            };
            proof {
                let p = secret_record::parts(candidate@)->0;
                assert(sealed@ =~= rest@.take(p.len as int));
                secret_record::a_record_stands_alone(candidate@);
                assert(candidate@.take(p.len as int) =~= sealed@);
                let e = entry_of(rest@)->0;
                assert(all[slot as int] == all.skip(slot as int)[0]);
                assert(all[slot as int] == e);
                assert(all.skip(slot as int + 1) =~= all.skip(slot as int).skip(1));
                assert(rest@.skip(p.len as int) =~= body@.skip(offset + p.len));
                assert(entries(rest@, (32 - slot) as nat).skip(1) =~= entries(
                    rest@.skip(p.len as int),
                    (31 - slot) as nat,
                ));
            }
            self.store_record(slot, view.id.as_slice(), sealed, ver_ctr);
            offset = offset + view.encoded_len;
            slot = slot + 1;
        }
        self.loading = false;
    }
}

/// One record of a store file.
pub struct Entry {
    pub id: Seq<u8>,
    pub ver_ctr: u32,
    pub data: Seq<u8>,
}

impl Entry {
    /// The record in the table is this one.
    pub open spec fn is(self, r: Record) -> bool {
        r.is_for(self.id) && r.ver_ctr == self.ver_ctr && r.data@ == self.data
    }
}

/// The record that `body` begins with, where it is whole and can be held.
pub open spec fn entry_of(body: Seq<u8>) -> Option<Entry> {
    match secret_record::parts(bytes::clipped(body, 1136)) {
        Some(p) => if 0 < p.id.len() <= 64 {
            Some(
                Entry {
                    id: p.id,
                    ver_ctr: match version_number(p.version) {
                        Some(n) => n,
                        None => 1,
                    },
                    data: body.take(p.len as int),
                },
            )
        } else {
            None
        },
        None => None,
    }
}

/// The records of `body`, up to the first that is torn or cannot be held, and at most `n`.
pub open spec fn entries(body: Seq<u8>, n: nat) -> Seq<Entry>
    decreases n,
{
    if n == 0 || body.len() == 0 {
        Seq::empty()
    } else {
        match entry_of(body) {
            Some(e) => seq![e] + entries(body.skip(e.data.len() as int), (n - 1) as nat),
            None => Seq::empty(),
        }
    }
}

proof fn lemma_entries_len(body: Seq<u8>, n: nat)
    ensures
        entries(body, n).len() <= n,
    decreases n,
{
    if n > 0 && body.len() > 0 {
        if let Some(e) = entry_of(body) {
            lemma_entries_len(body.skip(e.data.len() as int), (n - 1) as nat);
        }
    }
}

proof fn lemma_all_vacant(records: Seq<Record>, n: int)
    requires
        0 <= n <= records.len(),
        forall|i: int| 0 <= i < records.len() ==> (#[trigger] records[i]).vacant(),
    ensures
        used_before(records, n) == 0,
        bytes_before(records, n) == 0,
    decreases n,
{
    if n > 0 {
        lemma_all_vacant(records, n - 1);
        assert(records[n - 1].vacant());
    }
}

/// The version after `n`.
pub open spec fn next_version(n: u32) -> u32 {
    if n == u32::MAX {
        n
    } else {
        (n + 1) as u32
    }
}

fn value_reply(status: SecretStatus, id: Vec<u8>) -> (r: ValueReply)
    ensures
        r.status == status,
        r.id == id,
        r.ver@ == Seq::<u8>::empty(),
        r.value@ == Seq::<u8>::empty(),
{
    ValueReply { status, id, ver: Vec::new(), value: Vec::new() }
}

/// The decimal numeral of a version counter.
pub fn fmt_ver_dec(v: u32) -> (r: Vec<u8>)
    ensures
        r@ == bytes::decimal(v as nat),
        r@.len() <= 10,
{
    proof {
        bytes::lemma_decimal_len(v as nat);
    }
    u64_dec(v as u64)
}

/// The number that a version names: one to ten digits that fit a `u32`.
pub open spec fn version_number(s: Seq<u8>) -> Option<u32> {
    if 0 < s.len() <= 10 && bytes::all_digits(s) && bytes::decimal_value(s) <= u32::MAX {
        Some(bytes::decimal_value(s) as u32)
    } else {
        None
    }
}

pub fn parse_dec_u32(s: &[u8]) -> (r: Option<u32>)
    ensures
        r == version_number(s@),
{
    if s.len() == 0 || s.len() > 10 {
        return None;
    }
    let mut i: usize = 0;
    while i < s.len()
        invariant
            i <= s@.len(),
            forall|j: int| 0 <= j < i ==> bytes::is_digit(#[trigger] s@[j]),
        decreases s@.len() - i,
    {
        if s[i] < 48 || s[i] > 57 {
            assert(!bytes::is_digit(s@[i as int]));
            return None;
        }
        i = i + 1;
    }
    match crate::claims::read_decimal(s) {
        Some(v) => if v <= 4294967295 {
            Some(v as u32)
        } else {
            None
        },
        None => None,
    }
}

/// A version counter reads back from the version that it was written as.
pub proof fn version_reads_back(v: u32)
    ensures
        version_number(bytes::decimal(v as nat)) == Some(v),
{
    bytes::decimal_reads_back(v as nat);
    bytes::lemma_decimal_len(v as nat);
}

pub open spec fn ack_message(corr: u32, status: u8) -> Seq<u8> {
    wire::le32_bytes(corr as nat) + seq![status]
}

pub open spec fn value_message(
    corr: u32,
    status: u8,
    id: Seq<u8>,
    ver: Seq<u8>,
    value: Seq<u8>,
) -> Seq<u8> {
    wire::le32_bytes(corr as nat) + seq![status] + wire::field8_bytes(id) + wire::field8_bytes(ver)
        + wire::field16_bytes(value)
}

/// The payload of an acknowledgement: `[corr u32][status u8]`.
pub fn reply_ack(corr: u32, status: u8) -> (r: Vec<u8>)
    ensures
        r@ == ack_message(corr, status),
{
    let mut out = wire::u32_bytes(corr);
    out.push(status);
    assert(out@ =~= wire::le32_bytes(corr as nat) + seq![status]);
    out
}

/// The payload of a value: `[corr u32][status u8][id f8][ver f8][value f16]`.
pub fn reply_value(corr: u32, status: u8, id: &[u8], ver: &[u8], value: &[u8]) -> (r: Vec<u8>)
    requires
        id@.len() <= 64,
        ver@.len() <= 16,
        value@.len() <= 1024,
    ensures
        r@ == value_message(corr, status, id@, ver@, value@),
{
    let mut out = reply_ack(corr, status);
    let _ = wire::put_field8(&mut out, 2048, id);
    let _ = wire::put_field8(&mut out, 2048, ver);
    let _ = wire::put_field16(&mut out, 2048, value);
    out
}

/// A store file that holds `body`.
pub open spec fn file_image(body: Seq<u8>) -> Seq<u8> {
    bytes::text("KSF1") + wire::le32_bytes(body.len()) + body
}

/// The records of a store file: what follows its header, as far as the header announces and the
/// file reaches. A file without the magic word holds none.
pub open spec fn file_body(file: Seq<u8>) -> Seq<u8> {
    if file.len() >= 8 && file.take(4) == bytes::text("KSF1") {
        let announced = wire::le32(file, 4) as int;
        if announced <= file.len() - 8 {
            file.subrange(8, 8 + announced)
        } else {
            file.skip(8)
        }
    } else {
        Seq::empty()
    }
}

/// The records of a store file, for loading.
fn loadable(file: &[u8]) -> (r: Vec<u8>)
    ensures
        r@ == file_body(file@),
{
    let total: usize = file.len();
    if total < FILE_HDR {
        return Vec::new();
    }
    let magic = slice_subrange(file, 0, 4);
    assert(magic@ =~= file@.take(4));
    if !bytes_equal(magic, "KSF1".as_bytes()) {
        return Vec::new();
    }
    let announced: usize = wire::read_u32(file, 4) as usize;
    let end: usize = if announced <= total - FILE_HDR {
        FILE_HDR + announced
    } else {
        total
    };
    let body = vstd::slice::slice_to_vec(slice_subrange(file, FILE_HDR, end));
    assert(body@ =~= file_body(file@));
    body
}

/// What was persisted loads again, whatever an older and longer file left behind it.
pub proof fn persisted_loads_back(body: Seq<u8>, stale: Seq<u8>)
    requires
        body.len() <= u32::MAX,
    ensures
        file_body(file_image(body) + stale) == body,
{
    reveal_strlit("KSF1");
    assert("KSF1".is_ascii());
    assert(bytes::text("KSF1").len() == 4);
    let file = file_image(body) + stale;
    assert(file.take(4) =~= bytes::text("KSF1"));
    wire::number_reads_back(bytes::text("KSF1"), body.len() as u32, body + stale);
    assert(file =~= bytes::text("KSF1") + wire::le32_bytes(body.len() as nat) + (body + stale));
    assert(file.subrange(8, 8 + body.len() as int) =~= body);
}

/// Two nonces of one key epoch are the same only where their counters are.
pub proof fn nonces_differ(epoch: u32, a: u64, b: u64)
    requires
        nonce_of(epoch, a) == nonce_of(epoch, b),
    ensures
        a == b,
{
    let e = wire::le32_bytes(epoch as nat);
    wire::long_number_reads_back(e, a, Seq::empty());
    wire::long_number_reads_back(e, b, Seq::empty());
    assert(e + wire::le64_bytes(a as nat) + Seq::empty() =~= nonce_of(epoch, a));
    assert(e + wire::le64_bytes(b as nat) + Seq::empty() =~= nonce_of(epoch, b));
}

proof fn lemma_found_from(records: Seq<Record>, id: Seq<u8>, i: int)
    requires
        0 <= i <= records.len(),
    ensures
        match found_from(records, id, i) {
            Some(k) => i <= k < records.len() && records[k].is_for(id) && forall|j: int|
                i <= j < k ==> !(#[trigger] records[j]).is_for(id),
            None => forall|j: int| i <= j < records.len() ==> !(#[trigger] records[j]).is_for(id),
        },
    decreases records.len() - i,
{
    if i < records.len() {
        lemma_found_from(records, id, i + 1);
    }
}

proof fn lemma_free_from(records: Seq<Record>, i: int)
    requires
        0 <= i <= records.len(),
    ensures
        i <= free_from(records, i) <= records.len(),
        free_from(records, i) < records.len() ==> !records[free_from(records, i)].used,
    decreases records.len() - i,
{
    if i < records.len() && records[i].used {
        lemma_free_from(records, i + 1);
    }
}

proof fn lemma_found(records: Seq<Record>, id: Seq<u8>, i: int, k: int)
    requires
        0 <= i <= k < records.len(),
        records[k].is_for(id),
        forall|j: int| i <= j < k ==> !(#[trigger] records[j]).is_for(id),
    ensures
        found_from(records, id, i) == Some(k),
    decreases k - i,
{
    if i < k {
        assert(!records[i].is_for(id));
        lemma_found(records, id, i + 1, k);
    }
}

/// A record that was sealed anew is the one that a later request for its id finds, and no other
/// record is lost to it: every other id finds the record that it found before.
pub proof fn a_seal_is_found(
    before: Store,
    after: Store,
    id: Seq<u8>,
    ver: Seq<u8>,
    value: Seq<u8>,
    ver_ctr: u32,
    other: Seq<u8>,
)
    requires
        before.wf(),
        after.wf(),
        Store::resealed(before, after, id, ver, value, ver_ctr),
    ensures
        after.secret(id) == Some((ver, value)),
        found_from(after.records@, id, 0) == Some(before.place_for(id)),
        other != id ==> after.secret(other) == before.secret(other) && found_from(
            after.records@,
            other,
            0,
        ) == found_from(before.records@, other, 0),
        ids_differ(before.records@) ==> ids_differ(after.records@),
{
    let k = before.place_for(id);
    lemma_found_from(before.records@, id, 0);
    lemma_free_from(before.records@, 0);
    assert forall|j: int| 0 <= j < k implies !(#[trigger] after.records@[j]).is_for(id) by {
        assert(after.records@[j] == before.records@[j]);
    }
    lemma_found(after.records@, id, 0, k);
    if other != id {
        lemma_found_from(before.records@, other, 0);
        assert(!before.records@[k].is_for(other));
        match found_from(before.records@, other, 0) {
            Some(m) => {
                assert(m != k);
                assert(after.records@[m] == before.records@[m]);
                assert forall|j: int| 0 <= j < m implies !(#[trigger] after.records@[j]).is_for(
                    other,
                ) by {
                    if j != k {
                        assert(after.records@[j] == before.records@[j]);
                    }
                }
                lemma_found(after.records@, other, 0, m);
            },
            None => {
                lemma_found_from(after.records@, other, 0);
                if let Some(m) = found_from(after.records@, other, 0) {
                    assert(after.records@[m] == before.records@[m]);
                }
            },
        }
    }
    if ids_differ(before.records@) {
        assert forall|i: int, j: int|
            0 <= i < j < 32 && (#[trigger] after.records@[i]).used && (
            #[trigger] after.records@[j]).used implies after.records@[i].id@
            != after.records@[j].id@ by {
            if i == k {
                assert(after.records@[j] == before.records@[j]);
                assert(!before.records@[j].is_for(id)) by {
                    if before.records@[k].used {
                        assert(before.records@[k].id@ != before.records@[j].id@);
                    }
                }
            } else if j == k {
                assert(after.records@[i] == before.records@[i]);
                assert(!before.records@[i].is_for(id));
            } else {
                assert(after.records@[i] == before.records@[i]);
                assert(after.records@[j] == before.records@[j]);
            }
        }
    }
}

/// What was put is got: a get for the id of a put that succeeded is answered with the version
/// and the value of that put.
pub proof fn what_was_put_is_got(
    before: Store,
    between: Store,
    after: Store,
    put: Seq<u8>,
    get: Seq<u8>,
    reply: ValueReply,
)
    requires
        before.wf(),
        between.wf(),
        Store::put(before, between, put, SecretStatus::Success),
        Store::got(between, after, get, reply),
        Store::put_fields(put) matches Some(f) && wire::field8(get, 4) == Some(f.0),
    ensures
        reply.status == SecretStatus::Success,
        reply.id@ == (Store::put_fields(put)->0).0,
        reply.ver@ == (Store::put_fields(put)->0).1,
        reply.value@ == (Store::put_fields(put)->0).2,
{
    let f = Store::put_fields(put)->0;
    assert(before.put_answer(put) is None);
    a_seal_is_found(before, between, f.0, f.1, f.2, 1, f.0);
    assert(between.has_kek);
    assert(bytes::clipped(f.1, 16) =~= f.1);
}

/// A rotate that succeeded keeps the value of the secret, under the next version.
pub proof fn what_was_rotated_is_kept(before: Store, after: Store, payload: Seq<u8>)
    requires
        before.wf(),
        after.wf(),
        Store::rotated(before, after, payload, SecretStatus::Success),
    ensures
        wire::field8(payload, 4) matches Some(id) && {
            let k = before.place_for(id);
            &&& before.secret(id) is Some
            &&& after.secret(id) == Some(
                (
                    bytes::decimal(next_version(before.records@[k].ver_ctr) as nat),
                    (before.secret(id)->0).1,
                ),
            )
        },
{
    let id = wire::field8(payload, 4)->0;
    let next = next_version(before.records@[before.place_for(id)].ver_ctr);
    let value = (before.secret(id)->0).1;
    a_seal_is_found(before, after, id, bytes::decimal(next as nat), value, next, id);
}

/// The records that are held, of those before `n`, as a file would hold them.
pub open spec fn held_before(records: Seq<Record>, n: int) -> Seq<Entry>
    decreases n,
{
    if n <= 0 {
        Seq::empty()
    } else if records[n - 1].used {
        held_before(records, n - 1).push(entry_of(records[n - 1].data@)->0)
    } else {
        held_before(records, n - 1)
    }
}

/// The sealed bytes of a record load as a record for the same id, sealed in the same way.
pub open spec fn stands_for(r: Record) -> bool {
    &&& entry_of(r.data@) matches Some(e)
    &&& e.id == r.id@
    &&& e.data == r.data@
}

proof fn lemma_entry_alone(r: Record, after: Seq<u8>)
    requires
        r.used,
        r.whole(),
    ensures
        stands_for(r),
        entry_of(r.data@ + after) == entry_of(r.data@),
        r.data@.len() > 0,
{
    let whole = r.data@ + after;
    let cut = bytes::clipped(whole, 1136);
    assert(bytes::clipped(r.data@, 1136) =~= r.data@);
    assert(cut =~= r.data@ + cut.skip(r.data@.len() as int));
    secret_record::what_follows_does_not_matter(r.data@, cut.skip(r.data@.len() as int));
    assert(whole.take(r.data@.len() as int) =~= r.data@);
    assert(r.data@.take(r.data@.len() as int) =~= r.data@);
}

/// The records from `i` on, one after the other.
spec fn body_from(records: Seq<Record>, i: int) -> Seq<u8>
    decreases records.len() - i,
{
    if i < 0 || i >= records.len() {
        Seq::empty()
    } else {
        (if records[i].used {
            records[i].data@
        } else {
            Seq::empty()
        }) + body_from(records, i + 1)
    }
}

spec fn held_from(records: Seq<Record>, i: int) -> Seq<Entry>
    decreases records.len() - i,
{
    if i < 0 || i >= records.len() {
        Seq::empty()
    } else if records[i].used {
        seq![entry_of(records[i].data@)->0] + held_from(records, i + 1)
    } else {
        held_from(records, i + 1)
    }
}

proof fn lemma_from_before(records: Seq<Record>, i: int)
    requires
        0 <= i <= records.len(),
    ensures
        body_before(records, i) + body_from(records, i) == body_before(
            records,
            records.len() as int,
        ),
        held_before(records, i) + held_from(records, i) == held_before(
            records,
            records.len() as int,
        ),
    decreases records.len() - i,
{
    if i < records.len() {
        lemma_from_before(records, i + 1);
        assert(body_before(records, i) + body_from(records, i) =~= body_before(records, i + 1)
            + body_from(records, i + 1));
        assert(held_before(records, i) + held_from(records, i) =~= held_before(records, i + 1)
            + held_from(records, i + 1));
    } else {
        assert(body_before(records, i) + Seq::<u8>::empty() =~= body_before(records, i));
        assert(held_before(records, i) + Seq::<Entry>::empty() =~= held_before(records, i));
    }
}

proof fn lemma_entries_from(records: Seq<Record>, i: int, n: nat)
    requires
        0 <= i <= records.len(),
        records.len() - i <= n,
        forall|j: int|
            0 <= j < records.len() && (#[trigger] records[j]).used ==> records[j].whole(),
    ensures
        entries(body_from(records, i), n) == held_from(records, i),
    decreases records.len() - i,
{
    if i < records.len() {
        let rest = body_from(records, i + 1);
        if records[i].used {
            let data = records[i].data@;
            lemma_entries_from(records, i + 1, (n - 1) as nat);
            lemma_entry_alone(records[i], rest);
            assert((data + rest).skip(data.len() as int) =~= rest);
        } else {
            lemma_entries_from(records, i + 1, n);
            assert(body_from(records, i) =~= rest);
        }
    } else {
        assert(entries(body_from(records, i), n) =~= Seq::<Entry>::empty());
    }
}

/// A restart keeps the secrets: the file that the table is written to, and whatever an older and
/// longer file left behind it, loads as the records that the table held, in their order.
pub proof fn a_restart_keeps_the_secrets(store: Store, stale: Seq<u8>)
    requires
        store.wf(),
    ensures
        entries(file_body(file_image(body_before(store.records@, 32)) + stale), 32) == held_before(
            store.records@,
            32,
        ),
        forall|i: int|
            0 <= i < 32 && (#[trigger] store.records@[i]).used ==> stands_for(store.records@[i]),
{
    let records = store.records@;
    lemma_before(records, Seq::empty(), 32);
    persisted_loads_back(body_before(records, 32), stale);
    lemma_from_before(records, 0);
    assert(body_before(records, 0) + body_from(records, 0) =~= body_from(records, 0));
    assert(held_before(records, 0) + held_from(records, 0) =~= held_from(records, 0));
    lemma_entries_from(records, 0, 32);
    assert forall|i: int| 0 <= i < 32 && (#[trigger] records[i]).used implies stands_for(
        records[i],
    ) by {
        lemma_entry_alone(records[i], Seq::empty());
    }
}

/// A reply reads back as what it answers: to whom, how, and with which id, version and value.
pub proof fn a_reply_reads_back(
    corr: u32,
    status: u8,
    id: Seq<u8>,
    ver: Seq<u8>,
    value: Seq<u8>,
)
    requires
        id.len() <= 255,
        ver.len() <= 255,
        value.len() <= 65535,
    ensures
        ({
            let m = value_message(corr, status, id, ver, value);
            &&& wire::le32(m, 0) == corr
            &&& m[4] == status
            &&& wire::field8(m, 5) == Some(id)
            &&& wire::field8(m, 6 + id.len() as int) == Some(ver)
            &&& wire::field16(m, 7 + id.len() + ver.len() as int) == Some(value)
        }),
        wire::le32(ack_message(corr, status), 0) == corr,
        ack_message(corr, status)[4] == status,
        ack_message(corr, status).len() == 5,
{
    let m = value_message(corr, status, id, ver, value);
    let none = Seq::<u8>::empty();
    let a = wire::le32_bytes(corr as nat);
    let b = seq![status];
    let c = wire::field8_bytes(id);
    let d = wire::field8_bytes(ver);
    let e = wire::field16_bytes(value);
    assert(a.len() == 4 && c.len() == id.len() + 1 && d.len() == ver.len() + 1);
    assert(wire::le32(m, 0) == corr) by {
        wire::number_reads_back(none, corr, b + c + d + e);
        assert(m =~= none + a + (b + c + d + e));
    }
    assert(wire::field8(m, 5) == Some(id)) by {
        wire::field8_reads_back(a + b, id, d + e);
        assert(m =~= a + b + c + (d + e));
    }
    assert(wire::field8(m, 6 + id.len() as int) == Some(ver)) by {
        wire::field8_reads_back(a + b + c, ver, e);
    }
    assert(wire::field16(m, 7 + id.len() + ver.len() as int) == Some(value)) by {
        wire::field16_reads_back(a + b + c + d, value, none);
        assert(m =~= a + b + c + d + e + none);
    }
    wire::number_reads_back(none, corr, b);
    assert(ack_message(corr, status) =~= none + a + b);
}

/// A put is read as what its message holds.
#[verifier::rlimit(60)]
pub proof fn a_put_is_read_whole(corr: u32, id: Seq<u8>, ver: Seq<u8>, value: Seq<u8>)
    requires
        id.len() <= 255,
        ver.len() <= 255,
        value.len() <= 65535,
    ensures
        Store::put_fields(
            wire::le32_bytes(corr as nat) + wire::field8_bytes(id) + wire::field8_bytes(ver)
                + wire::field16_bytes(value),
        ) == Some((id, ver, value)),
{
    let none = Seq::<u8>::empty();
    let a = wire::le32_bytes(corr as nat);
    let b = wire::field8_bytes(id);
    let c = wire::field8_bytes(ver);
    let d = wire::field16_bytes(value);
    let m = a + b + c + d;
    assert(a.len() == 4 && b.len() == id.len() + 1 && c.len() == ver.len() + 1);
    assert(wire::field8(m, 4) == Some(id)) by {
        wire::field8_reads_back(a, id, c + d);
        assert(m =~= a + b + (c + d));
    }
    assert(wire::field8(m, 5 + id.len() as int) == Some(ver)) by {
        wire::field8_reads_back(a + b, ver, d);
    }
    assert(wire::field16(m, 6 + id.len() + ver.len() as int) == Some(value)) by {
        wire::field16_reads_back(a + b + c, value, none);
        assert(m =~= a + b + c + d + none);
    }
}

/// Who can store a secret: a store with a key and with room takes every put whose id is between one
/// and sixty-four bytes, whose version is at most sixteen and whose value is at most a kibibyte; it
/// then holds that value under that id.
pub proof fn a_put_is_kept(
    before: Store,
    after: Store,
    corr: u32,
    id: Seq<u8>,
    ver: Seq<u8>,
    value: Seq<u8>,
    r: SecretStatus,
)
    requires
        before.wf(),
        after.wf(),
        id.len() <= 255,
        ver.len() <= 255,
        value.len() <= 65535,
        Store::put(
            before,
            after,
            wire::le32_bytes(corr as nat) + wire::field8_bytes(id) + wire::field8_bytes(ver)
                + wire::field16_bytes(value),
            r,
        ),
    ensures
        id.len() == 0 || id.len() > 64 || ver.len() > 16 || value.len() > 1024 <==> r
            == SecretStatus::Malformed,
        r == SecretStatus::NoKey ==> !before.has_kek,
        r == SecretStatus::Full ==> forall|i: int|
            0 <= i < 32 ==> (#[trigger] before.records@[i]).used && before.records@[i].id@ != id,
        r == SecretStatus::Success ==> before.has_kek && after.secret(id) == Some((ver, value)),
        r != SecretStatus::Success ==> after.records == before.records && (r
            == SecretStatus::Malformed || r == SecretStatus::NoKey || r == SecretStatus::Full),
{
    a_put_is_read_whole(corr, id, ver, value);
    lemma_found_from(before.records@, id, 0);
    if r == SecretStatus::Success {
        a_seal_is_found(before, after, id, ver, value, 1, id);
    }
}

/// A rotation moves the version on by one.
pub proof fn a_rotation_counts_on(before: Store, after: Store, payload: Seq<u8>, id: Seq<u8>, n: u32)
    requires
        before.wf(),
        after.wf(),
        Store::rotated(before, after, payload, SecretStatus::Success),
        wire::field8(payload, 4) == Some(id),
        before.records@[before.place_for(id)].ver_ctr == n,
        n < u32::MAX,
    ensures
        before.secret(id) is Some,
        after.secret(id) == Some((bytes::decimal((n + 1) as nat), (before.secret(id)->0).1)),
        after.records@[before.place_for(id)].ver_ctr == n + 1,
{
    what_was_rotated_is_kept(before, after, payload);
}

/// A get tells what keeps it from the secret: a message that names no id, an id that no record is
/// for, and a store without a key, in this order.
pub proof fn why_a_secret_is_not_got(store: Store, corr: u32, id: Seq<u8>)
    requires
        store.wf(),
        id.len() <= 255,
    ensures
        ({
            let outcome = store.get_outcome(
                wire::le32_bytes(corr as nat) + wire::field8_bytes(id),
            );
            let held = exists|i: int|
                0 <= i < 32 && (#[trigger] store.records@[i]).used && store.records@[i].id@ == id;
            &&& outcome.0 == SecretStatus::Malformed <==> id.len() > 64
            &&& id.len() <= 64 ==> outcome.1 == id
            &&& outcome.0 == SecretStatus::NotFound <==> id.len() <= 64 && !held
            &&& outcome.0 == SecretStatus::NoKey <==> id.len() <= 64 && held && !store.has_kek
            &&& outcome.0 == SecretStatus::Success ==> store.has_kek && store.secret(id) is Some
                && outcome.3 == (store.secret(id)->0).1
            &&& outcome.0 != SecretStatus::Success ==> outcome.2.len() == 0 && outcome.3.len() == 0
        }),
{
    let none = Seq::<u8>::empty();
    let a = wire::le32_bytes(corr as nat);
    let b = wire::field8_bytes(id);
    wire::field8_reads_back(a, id, none);
    assert(a + b + none =~= a + b);
    lemma_found_from(store.records@, id, 0);
    match found_from(store.records@, id, 0) {
        Some(k) => {
            assert(store.records@[k].used && store.records@[k].id@ == id);
        },
        None => {
            assert forall|i: int|
                0 <= i < 32 && (#[trigger] store.records@[i]).used implies store.records@[i].id@
                != id by {
                assert(!store.records@[i].is_for(id));
            }
        },
    }
}

/// A nonce is the epoch of its key and the count, the low bytes first.
pub proof fn a_nonce_is_epoch_and_count(epoch: u32, ctr: u64)
    ensures
        nonce_of(epoch, ctr).len() == 12,
        wire::le32(nonce_of(epoch, ctr), 0) == epoch,
        wire::le64(nonce_of(epoch, ctr), 4) == ctr,
{
    let none = Seq::<u8>::empty();
    let a = wire::le32_bytes(epoch as nat);
    let b = wire::le64_bytes(ctr as nat);
    wire::number_reads_back(none, epoch, b);
    assert(none + a + b =~= nonce_of(epoch, ctr));
    wire::long_number_reads_back(a, ctr, none);
    assert(a + b + none =~= nonce_of(epoch, ctr));
}

/// A page lists every id that begins with what was asked for, in the order of the table; a record
/// that does not adds nothing.
pub proof fn a_page_lists_the_ids(records: Seq<Record>, prefix: Seq<u8>, i: int, n: int) -> (at: int)
    requires
        0 <= i < n <= records.len(),
        forall|k: int| 0 <= k < n && (#[trigger] records[k]).used ==> records[k].id@.len() <= 64,
    ensures
        at == listing_before(records, prefix, i).len(),
        at <= listing_before(records, prefix, n).len(),
        records[i].used && prefix.is_prefix_of(records[i].id@) ==> wire::field8(
            listing_before(records, prefix, n),
            at,
        ) == Some(records[i].id@) && listed_before(records, prefix, i + 1) == listed_before(
            records,
            prefix,
            i,
        ) + 1,
        !(records[i].used && prefix.is_prefix_of(records[i].id@)) ==> listing_before(
            records,
            prefix,
            i + 1,
        ) == listing_before(records, prefix, i) && listed_before(records, prefix, i + 1)
            == listed_before(records, prefix, i),
    decreases n - i,
{
    let whole = listing_before(records, prefix, n);
    let at = listing_before(records, prefix, i).len() as int;
    let id = records[i].id@;
    let rest = lemma_listing_grows(records, prefix, i + 1, n);
    assert(listed(records[i], prefix) <==> records[i].used && prefix.is_prefix_of(id));
    if listed(records[i], prefix) {
        wire::field8_reads_back(listing_before(records, prefix, i), id, rest);
    } else {
        assert(listing_before(records, prefix, i + 1) =~= listing_before(records, prefix, i));
    }
    at
}

/// What is listed of fewer records begins what is listed of more.
proof fn lemma_listing_grows(records: Seq<Record>, prefix: Seq<u8>, i: int, n: int) -> (rest: Seq<u8>)
    requires
        0 <= i <= n <= records.len(),
    ensures
        listing_before(records, prefix, n) == listing_before(records, prefix, i) + rest,
    decreases n - i,
{
    if i == n {
        assert(listing_before(records, prefix, n) =~= listing_before(records, prefix, i)
            + Seq::<u8>::empty());
        Seq::empty()
    } else {
        let before = lemma_listing_grows(records, prefix, i, n - 1);
        let last = if listed(records[n - 1], prefix) {
            wire::field8_bytes(records[n - 1].id@)
        } else {
            Seq::empty()
        };
        assert(listing_before(records, prefix, n) =~= listing_before(records, prefix, i) + (before
            + last));
        before + last
    }
}

} // verus!
