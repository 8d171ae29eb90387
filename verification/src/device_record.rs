//! The record of an enrolled device, and the authenticator that it may hold.
use vstd::prelude::*;
use vstd::slice::slice_subrange;

use crate::base32;
use crate::bytes;
use crate::claims;
use crate::claims::{
    claim_array_raw, claim_or_empty, claim_u64, json_safe, RecordWriter, Value,
};
use crate::mint_admission;
use crate::mint_admission::OtpOutcome;
use crate::totp;

verus! {

/// Longest record.
pub const MAX_RECORD: usize = 1536;

/// The string member `name` of a record, where there is one that can be carried across.
pub open spec fn text_slot(held: Seq<u8>, name: &str) -> Option<(Seq<u8>, Value)> {
    let value = claims::text_or_empty(held, bytes::text(name));
    if value.len() > 0 && claims::record_safe(value) {
        Some((bytes::text(name), Value::Text(value)))
    } else {
        None
    }
}

/// What a record is bound to: the string `cnf`, where it holds one; else the object with the
/// thumbprint.
pub open spec fn bound_slot(held: Seq<u8>) -> Option<(Seq<u8>, Value)> {
    match text_slot(held, "cnf") {
        Some(m) => Some(m),
        None => match text_slot(held, "jkt") {
            Some((name, value)) => Some(
                (bytes::text("cnf"), Value::Object(name, value->Text_0)),
            ),
            None => None,
        },
    }
}

/// The thumbprint of a record whose `cnf` is a string, which leaves it no object to stand in.
pub open spec fn thumbprint_slot(held: Seq<u8>) -> Option<(Seq<u8>, Value)> {
    match text_slot(held, "cnf") {
        Some(_) => text_slot(held, "jkt"),
        None => None,
    }
}

pub open spec fn number_slot(held: Seq<u8>, name: &str) -> Option<(Seq<u8>, Value)> {
    match claims::number_claim(held, bytes::text(name)) {
        Some(n) => Some((bytes::text(name), Value::Number(n as nat))),
        None => None,
    }
}

/// What stands between the brackets of the list `amr`.
pub open spec fn methods(held: Seq<u8>) -> Seq<u8> {
    let raw = claims::array_claim(held, bytes::text("amr"))->0;
    raw.subrange(1, raw.len() - 1)
}

pub open spec fn methods_slot(held: Seq<u8>) -> Option<(Seq<u8>, Value)> {
    match claims::array_claim(held, bytes::text("amr")) {
        Some(_) => Some((bytes::text("amr"), Value::List(methods(held)))),
        None => None,
    }
}

pub open spec fn flag(confirmed: bool) -> &'static str {
    if confirmed {
        "true"
    } else {
        "false"
    }
}

/// The members of a device record with an authenticator: what it held, and then the secret of the
/// authenticator, whether it is confirmed, and the last step that was used.
pub open spec fn device_slots(held: Seq<u8>, secret: Seq<u8>, confirmed: bool, counter: u64) -> Seq<
    Option<(Seq<u8>, Value)>,
> {
    seq![
        bound_slot(held),
        thumbprint_slot(held),
        text_slot(held, "device_id"),
        text_slot(held, "email_hash"),
        text_slot(held, "iss"),
        text_slot(held, "sub"),
        text_slot(held, "status"),
        text_slot(held, "key_binding"),
        number_slot(held, "exp"),
        number_slot(held, "iat"),
        methods_slot(held),
        Some((bytes::text("totp_secret"), Value::Text(secret))),
        Some((bytes::text("totp_confirmed"), Value::Text(bytes::text(flag(confirmed))))),
        Some((bytes::text("totp_counter"), Value::Number(counter as nat))),
    ]
}

/// A device record with its authenticator.
pub open spec fn device_record(held: Seq<u8>, secret: Seq<u8>, confirmed: bool, counter: u64) -> Seq<
    u8,
> {
    claims::record_bytes(claims::present(device_slots(held, secret, confirmed, counter)))
}

fn carry(w: &mut RecordWriter, held: &[u8], name: &str)
    requires
        old(w).wf(),
    ensures
        final(w).wf(),
        final(w).members@ == match text_slot(held@, name) {
            Some(m) => old(w).members@.push(m),
            None => old(w).members@,
        },
{
    let value = claim_or_empty(held, name.as_bytes());
    if value.len() > 0 && json_safe(value) {
        w.text(name, value);
    }
}

fn carry_number(w: &mut RecordWriter, held: &[u8], name: &str)
    requires
        old(w).wf(),
    ensures
        final(w).wf(),
        final(w).members@ == match number_slot(held@, name) {
            Some(m) => old(w).members@.push(m),
            None => old(w).members@,
        },
{
    match claim_u64(held, name.as_bytes()) {
        Some(n) => {
            w.number(name, n);
        },
        None => {},
    }
}

/// Write a device record with its authenticator. It is built anew from the one that was read:
/// behind an old member, a second one of the same name would never be found.
pub fn write_device_record(held: &[u8], secret: &[u8], confirmed: bool, counter: u64) -> (r: Option<
    Vec<u8>,
>)
    ensures
        match r {
            Some(record) => claims::record_safe(secret@) && record@ == device_record(
                held@,
                secret@,
                confirmed,
                counter,
            ) && record@.len() <= 1536,
            None => !claims::record_safe(secret@) || device_record(
                held@,
                secret@,
                confirmed,
                counter,
            ).len() > 1536,
        },
{
    if !json_safe(secret) {
        return None;
    }
    let ghost slots = device_slots(held@, secret@, confirmed, counter);
    let mut w = RecordWriter::new();
    assert(w.members@ =~= claims::present(slots.take(0)));
    let bound = claim_or_empty(held, "cnf".as_bytes());
    if bound.len() > 0 && json_safe(bound) {
        w.text("cnf", bound);
        carry(&mut w, held, "jkt");
    } else {
        let thumbprint = claim_or_empty(held, "jkt".as_bytes());
        if thumbprint.len() > 0 && json_safe(thumbprint) {
            w.object("cnf", "jkt", thumbprint);
        }
    }
    proof {
        claims::lemma_present_step(slots, 0);
        claims::lemma_present_step(slots, 1);
    }
    assert(w.members@ == claims::present(slots.take(2)));
    carry(&mut w, held, "device_id");
    carry(&mut w, held, "email_hash");
    carry(&mut w, held, "iss");
    carry(&mut w, held, "sub");
    carry(&mut w, held, "status");
    carry(&mut w, held, "key_binding");
    proof {
        claims::lemma_present_step(slots, 2);
        claims::lemma_present_step(slots, 3);
        claims::lemma_present_step(slots, 4);
        claims::lemma_present_step(slots, 5);
        claims::lemma_present_step(slots, 6);
        claims::lemma_present_step(slots, 7);
    }
    assert(w.members@ == claims::present(slots.take(8)));
    carry_number(&mut w, held, "exp");
    carry_number(&mut w, held, "iat");
    match claim_array_raw(held, "amr".as_bytes()) {
        Some(raw) => {
            assert(raw@.len() >= 2);
            let inner = slice_subrange(raw.as_slice(), 1, raw.len() - 1);
            w.list("amr", inner);
        },
        None => {},
    }
    w.text("totp_secret", secret);
    if confirmed {
        w.text("totp_confirmed", "true".as_bytes());
    } else {
        w.text("totp_confirmed", "false".as_bytes());
    }
    w.number("totp_counter", counter);
    proof {
        claims::lemma_present_step(slots, 8);
        claims::lemma_present_step(slots, 9);
        claims::lemma_present_step(slots, 10);
        claims::lemma_present_step(slots, 11);
        claims::lemma_present_step(slots, 12);
        claims::lemma_present_step(slots, 13);
        assert(slots.take(14) =~= slots);
    }
    w.finish(MAX_RECORD)
}

/// The presented code is that of step `c` of the authenticator that a record holds: a live step
/// that was not used.
pub open spec fn presented_at(code: Seq<u8>, held: Seq<u8>, record: Seq<u8>, now: u64, c: u64) -> bool {
    &&& totp::code_value(code) is Some
    &&& base32::decoded(held, 64) is Some
    &&& totp::holds_at(
        base32::decoded(held, 64)->0,
        totp::code_value(code)->0,
        now,
        claims::number_claim(record, bytes::text("totp_counter")),
        c,
    )
}

/// The first step at which a presented code holds.
pub fn verify_presented_code(code: &[u8], held: &[u8], record: &[u8], now: u64) -> (r: Option<u64>)
    ensures
        match r {
            Some(c) => presented_at(code@, held@, record@, now, c) && forall|d: u64|
                d < c ==> !#[trigger] presented_at(code@, held@, record@, now, d),
            None => forall|d: u64| !#[trigger] presented_at(code@, held@, record@, now, d),
        },
{
    let value: u32 = match totp::parse_code(code) {
        Some(value) => value,
        None => {
            return None;
        },
    };
    let secret = match base32::base32_decode(held, totp::MAX_SECRET) {
        Some(secret) => secret,
        None => {
            return None;
        },
    };
    let last = claim_u64(record, "totp_counter".as_bytes());
    totp::verify_totp(secret.as_slice(), value, now, last)
}

proof fn lemma_record_names()
    ensures
        claims::plain_name(bytes::text("cnf")),
        bytes::text("cnf").len() == 3,
        bytes::text("cnf")[0] == 99,
        bytes::text("cnf")[1] == 110,
        claims::plain_name(bytes::text("jkt")),
        bytes::text("jkt").len() == 3,
        bytes::text("jkt")[0] == 106,
        bytes::text("jkt")[1] == 107,
        claims::plain_name(bytes::text("device_id")),
        bytes::text("device_id").len() == 9,
        bytes::text("device_id")[0] == 100,
        bytes::text("device_id")[1] == 101,
        claims::plain_name(bytes::text("email_hash")),
        bytes::text("email_hash").len() == 10,
        bytes::text("email_hash")[0] == 101,
        bytes::text("email_hash")[1] == 109,
        claims::plain_name(bytes::text("iss")),
        bytes::text("iss").len() == 3,
        bytes::text("iss")[0] == 105,
        bytes::text("iss")[1] == 115,
        claims::plain_name(bytes::text("sub")),
        bytes::text("sub").len() == 3,
        bytes::text("sub")[0] == 115,
        bytes::text("sub")[1] == 117,
        claims::plain_name(bytes::text("status")),
        bytes::text("status").len() == 6,
        bytes::text("status")[0] == 115,
        bytes::text("status")[1] == 116,
        claims::plain_name(bytes::text("key_binding")),
        bytes::text("key_binding").len() == 11,
        bytes::text("key_binding")[0] == 107,
        bytes::text("key_binding")[1] == 101,
        claims::plain_name(bytes::text("exp")),
        bytes::text("exp").len() == 3,
        bytes::text("exp")[0] == 101,
        bytes::text("exp")[1] == 120,
        claims::plain_name(bytes::text("iat")),
        bytes::text("iat").len() == 3,
        bytes::text("iat")[0] == 105,
        bytes::text("iat")[1] == 97,
        claims::plain_name(bytes::text("amr")),
        bytes::text("amr").len() == 3,
        bytes::text("amr")[0] == 97,
        bytes::text("amr")[1] == 109,
        claims::plain_name(bytes::text("totp_secret")),
        bytes::text("totp_secret").len() == 11,
        bytes::text("totp_secret")[0] == 116,
        bytes::text("totp_secret")[1] == 111,
        claims::plain_name(bytes::text("totp_confirmed")),
        bytes::text("totp_confirmed").len() == 14,
        bytes::text("totp_confirmed")[0] == 116,
        bytes::text("totp_confirmed")[1] == 111,
        claims::plain_name(bytes::text("totp_counter")),
        bytes::text("totp_counter").len() == 12,
        bytes::text("totp_counter")[0] == 116,
        bytes::text("totp_counter")[1] == 111,
        claims::record_safe(bytes::text("true")),
        bytes::text("true").len() == 4,
        claims::record_safe(bytes::text("false")),
        bytes::text("false").len() == 5,
{
    reveal_strlit("cnf");
    assert("cnf".is_ascii());
    assert(bytes::text("cnf") =~= seq![99u8, 110, 102]);
    reveal_strlit("jkt");
    assert("jkt".is_ascii());
    assert(bytes::text("jkt") =~= seq![106u8, 107, 116]);
    reveal_strlit("device_id");
    assert("device_id".is_ascii());
    assert(bytes::text("device_id") =~= seq![100u8, 101, 118, 105, 99, 101, 95, 105, 100]);
    reveal_strlit("email_hash");
    assert("email_hash".is_ascii());
    assert(bytes::text("email_hash") =~= seq![101u8, 109, 97, 105, 108, 95, 104, 97, 115, 104]);
    reveal_strlit("iss");
    assert("iss".is_ascii());
    assert(bytes::text("iss") =~= seq![105u8, 115, 115]);
    reveal_strlit("sub");
    assert("sub".is_ascii());
    assert(bytes::text("sub") =~= seq![115u8, 117, 98]);
    reveal_strlit("status");
    assert("status".is_ascii());
    assert(bytes::text("status") =~= seq![115u8, 116, 97, 116, 117, 115]);
    reveal_strlit("key_binding");
    assert("key_binding".is_ascii());
    assert(bytes::text("key_binding") =~= seq![107u8, 101, 121, 95, 98, 105, 110, 100, 105, 110, 103]);
    reveal_strlit("exp");
    assert("exp".is_ascii());
    assert(bytes::text("exp") =~= seq![101u8, 120, 112]);
    reveal_strlit("iat");
    assert("iat".is_ascii());
    assert(bytes::text("iat") =~= seq![105u8, 97, 116]);
    reveal_strlit("amr");
    assert("amr".is_ascii());
    assert(bytes::text("amr") =~= seq![97u8, 109, 114]);
    reveal_strlit("totp_secret");
    assert("totp_secret".is_ascii());
    assert(bytes::text("totp_secret") =~= seq![116u8, 111, 116, 112, 95, 115, 101, 99, 114, 101, 116]);
    reveal_strlit("totp_confirmed");
    assert("totp_confirmed".is_ascii());
    assert(bytes::text("totp_confirmed") =~= seq![116u8, 111, 116, 112, 95, 99, 111, 110, 102, 105, 114, 109, 101, 100]);
    reveal_strlit("totp_counter");
    assert("totp_counter".is_ascii());
    assert(bytes::text("totp_counter") =~= seq![116u8, 111, 116, 112, 95, 99, 111, 117, 110, 116, 101, 114]);
    reveal_strlit("true");
    assert("true".is_ascii());
    assert(bytes::text("true") =~= seq![116u8, 114, 117, 101]);
    reveal_strlit("false");
    assert("false".is_ascii());
    assert(bytes::text("false") =~= seq![102u8, 97, 108, 115, 101]);
}

/// The list of methods that a record holds introduces no member.
pub open spec fn plain_methods(held: Seq<u8>) -> bool {
    claims::array_claim(held, bytes::text("amr")) is Some ==> claims::plain_list(methods(held))
}

/// A number by which the names of a record are told apart: their length and first two letters.
spec fn mark(name: Seq<u8>) -> int {
    name.len() * 65536 + name[0] * 256 + name[1]
}

/// The marks of a device record's names.
spec fn mark_at(i: int) -> int {
    if i == 0 {
        222062
    } else if i == 1 {
        223851
    } else if i == 2 {
        615525
    } else if i == 3 {
        681325
    } else if i == 4 {
        223603
    } else if i == 5 {
        226165
    } else if i == 6 {
        422772
    } else if i == 7 {
        748389
    } else if i == 8 {
        222584
    } else if i == 9 {
        223585
    } else if i == 10 {
        221549
    } else if i == 11 {
        750703
    } else if i == 12 {
        947311
    } else {
        816239
    }
}

proof fn lemma_marks_differ(i: int, j: int)
    requires
        0 <= i < j < 14,
    ensures
        mark_at(i) != mark_at(j),
{
}

proof fn lemma_slot_plain(held: Seq<u8>, secret: Seq<u8>, confirmed: bool, counter: u64, i: int)
    requires
        claims::record_safe(secret),
        plain_methods(held),
        0 <= i < 14,
        device_slots(held, secret, confirmed, counter)[i] is Some,
    ensures
        ({
            let m = device_slots(held, secret, confirmed, counter)[i]->0;
            &&& claims::plain_name(m.0)
            &&& claims::plain_value(m.1)
            &&& mark(m.0) == mark_at(i)
            &&& m.0 == bytes::text("jkt") ==> i == 1
            &&& m.1 matches Value::Object(inner, _) ==> i == 0 && inner == bytes::text("jkt")
                && device_slots(held, secret, confirmed, counter)[1] is None
        }),
{
    lemma_record_names();
}

proof fn lemma_slots_readable(held: Seq<u8>, secret: Seq<u8>, confirmed: bool, counter: u64)
    requires
        claims::record_safe(secret),
        plain_methods(held),
    ensures
        claims::readable_slots(device_slots(held, secret, confirmed, counter)),
{
    let s = device_slots(held, secret, confirmed, counter);
    assert forall|i: int|
        0 <= i < s.len() && (#[trigger] s[i]) is Some implies claims::plain_name((s[i]->0).0)
        && claims::plain_value((s[i]->0).1) by {
        lemma_slot_plain(held, secret, confirmed, counter, i);
    }
    assert forall|i: int, j: int|
        0 <= i < j < s.len() && (#[trigger] s[i]) is Some && (#[trigger] s[j]) is Some implies (
    s[i]->0).0 != (s[j]->0).0 by {
        lemma_slot_plain(held, secret, confirmed, counter, i);
        lemma_slot_plain(held, secret, confirmed, counter, j);
        lemma_marks_differ(i, j);
    }
    assert forall|i: int, j: int|
        0 <= i < s.len() && 0 <= j < s.len() && (#[trigger] s[i]) is Some && (
        #[trigger] s[j]) is Some implies !claims::introduces((s[i]->0).1, (s[j]->0).0) by {
        lemma_slot_plain(held, secret, confirmed, counter, i);
        lemma_slot_plain(held, secret, confirmed, counter, j);
        lemma_record_names();
    }
}

proof fn lemma_slot_text(slots: Seq<Option<(Seq<u8>, Value)>>, i: int)
    requires
        claims::readable_slots(slots),
        0 <= i < slots.len(),
        slots[i] is Some,
        (slots[i]->0).1 is Text,
    ensures
        claims::text_claim(claims::record_bytes(claims::present(slots)), (slots[i]->0).0) == Some(
            (slots[i]->0).1->Text_0,
        ),
{
    claims::lemma_present_readable(slots);
    let j = claims::lemma_present_has(slots, i);
    claims::text_reads_back(claims::present(slots), j);
}

proof fn lemma_slot_number(slots: Seq<Option<(Seq<u8>, Value)>>, i: int)
    requires
        claims::readable_slots(slots),
        0 <= i < slots.len(),
        slots[i] is Some,
        (slots[i]->0).1 is Number,
        (slots[i]->0).1->Number_0 <= u64::MAX,
    ensures
        claims::number_claim(claims::record_bytes(claims::present(slots)), (slots[i]->0).0) == Some(
            (slots[i]->0).1->Number_0 as u64,
        ),
{
    claims::lemma_present_readable(slots);
    let j = claims::lemma_present_has(slots, i);
    claims::number_reads_back(claims::present(slots), j);
}

/// A slot that is not filled leaves its name absent.
proof fn lemma_slot_absent(
    held: Seq<u8>,
    secret: Seq<u8>,
    confirmed: bool,
    counter: u64,
    i: int,
    name: Seq<u8>,
)
    requires
        claims::record_safe(secret),
        plain_methods(held),
        0 <= i < 14,
        device_slots(held, secret, confirmed, counter)[i] is None,
        claims::plain_name(name),
        mark(name) == mark_at(i),
        name == bytes::text("jkt") ==> !(bound_slot(held) is Some && (bound_slot(held)->0).1
            is Object),
    ensures
        claims::text_claim(device_record(held, secret, confirmed, counter), name) is None,
        claims::number_claim(device_record(held, secret, confirmed, counter), name) is None,
        claims::array_claim(device_record(held, secret, confirmed, counter), name) is None,
{
    let slots = device_slots(held, secret, confirmed, counter);
    let members = claims::present(slots);
    lemma_slots_readable(held, secret, confirmed, counter);
    claims::lemma_present_readable(slots);
    assert forall|j: int| 0 <= j < members.len() implies claims::names_apart(
        #[trigger] members[j],
        name,
    ) by {
        let k = claims::lemma_present_from(slots, j);
        lemma_slot_plain(held, secret, confirmed, counter, k);
        if k < i {
            lemma_marks_differ(k, i);
        } else {
            lemma_marks_differ(i, k);
        }
    }
    claims::absent_reads_absent(members, name);
}

/// A string member of a record that is carried across when the authenticator is written.
pub open spec fn carried(name: &str) -> bool {
    name == "cnf" || name == "device_id" || name == "email_hash" || name == "iss" || name == "sub"
        || name == "status" || name == "key_binding"
}

/// The string member `name` of a record, as far as it can be carried across.
pub open spec fn carried_text(held: Seq<u8>, name: &str) -> Option<Seq<u8>> {
    match text_slot(held, name) {
        Some(_) => claims::text_claim(held, bytes::text(name)),
        None => None,
    }
}

/// Writing an authenticator keeps what the record says of the device: its strings, as far as they
/// can stand in a record. It says nothing that was not said before: a string that was absent stays
/// absent, so a record without a status is given none.
pub proof fn a_rewrite_keeps_the_names(
    held: Seq<u8>,
    secret: Seq<u8>,
    confirmed: bool,
    counter: u64,
    name: &str,
)
    requires
        claims::record_safe(secret),
        plain_methods(held),
        carried(name),
    ensures
        claims::text_claim(device_record(held, secret, confirmed, counter), bytes::text(name))
            == carried_text(held, name),
{
    let slots = device_slots(held, secret, confirmed, counter);
    lemma_slots_readable(held, secret, confirmed, counter);
    lemma_record_names();
    let i: int = if name == "cnf" {
        0
    } else if name == "device_id" {
        2
    } else if name == "email_hash" {
        3
    } else if name == "iss" {
        4
    } else if name == "sub" {
        5
    } else if name == "status" {
        6
    } else {
        7
    };
    if text_slot(held, name) is Some {
        lemma_slot_text(slots, i);
    } else if slots[i] is Some {
        claims::lemma_present_readable(slots);
        let j = claims::lemma_present_has(slots, 0);
        claims::object_reads_as_no_text(claims::present(slots));
    } else {
        lemma_slot_absent(held, secret, confirmed, counter, i, bytes::text(name));
    }
}

/// Writing an authenticator keeps the key that the device is bound to, and binds to none a device
/// that was bound to none.
pub proof fn a_rewrite_keeps_the_key(held: Seq<u8>, secret: Seq<u8>, confirmed: bool, counter: u64)
    requires
        claims::record_safe(secret),
        plain_methods(held),
    ensures
        claims::text_claim(device_record(held, secret, confirmed, counter), bytes::text("jkt"))
            == carried_text(held, "jkt"),
{
    let slots = device_slots(held, secret, confirmed, counter);
    lemma_slots_readable(held, secret, confirmed, counter);
    lemma_record_names();
    if slots[1] is Some {
        lemma_slot_text(slots, 1);
    } else if text_slot(held, "jkt") is Some {
        claims::lemma_present_readable(slots);
        let j = claims::lemma_present_has(slots, 0);
        claims::object_reads_back(claims::present(slots));
    } else {
        lemma_slot_absent(held, secret, confirmed, counter, 1, bytes::text("jkt"));
    }
}

/// Writing an authenticator keeps the life of the enrolment.
pub proof fn a_rewrite_keeps_the_times(held: Seq<u8>, secret: Seq<u8>, confirmed: bool, counter: u64)
    requires
        claims::record_safe(secret),
        plain_methods(held),
    ensures
        claims::number_claim(device_record(held, secret, confirmed, counter), bytes::text("exp"))
            == claims::number_claim(held, bytes::text("exp")),
        claims::number_claim(device_record(held, secret, confirmed, counter), bytes::text("iat"))
            == claims::number_claim(held, bytes::text("iat")),
{
    let slots = device_slots(held, secret, confirmed, counter);
    lemma_slots_readable(held, secret, confirmed, counter);
    lemma_record_names();
    if slots[8] is Some {
        lemma_slot_number(slots, 8);
    } else {
        lemma_slot_absent(held, secret, confirmed, counter, 8, bytes::text("exp"));
    }
    if slots[9] is Some {
        lemma_slot_number(slots, 9);
    } else {
        lemma_slot_absent(held, secret, confirmed, counter, 9, bytes::text("iat"));
    }
}

/// Writing an authenticator keeps what the enrolment proved.
pub proof fn a_rewrite_keeps_the_methods(
    held: Seq<u8>,
    secret: Seq<u8>,
    confirmed: bool,
    counter: u64,
)
    requires
        claims::record_safe(secret),
        plain_methods(held),
    ensures
        claims::array_claim(device_record(held, secret, confirmed, counter), bytes::text("amr"))
            == claims::array_claim(held, bytes::text("amr")),
{
    let slots = device_slots(held, secret, confirmed, counter);
    lemma_slots_readable(held, secret, confirmed, counter);
    if claims::array_claim(held, bytes::text("amr")) is Some {
        claims::lemma_present_readable(slots);
        let j = claims::lemma_present_has(slots, 10);
        let raw = claims::array_claim(held, bytes::text("amr"))->0;
        let rest = claims::after_first(held, claims::member_name(bytes::text("amr")).push(91))->0;
        bytes::lemma_position_of(rest, 93);
        let inner = methods(held);
        assert(inner =~= rest.take(bytes::position_of(rest, 93) as int));
        assert forall|x: int| 0 <= x < inner.len() implies #[trigger] inner[x] != 93 by {
            assert(inner[x] == rest[x]);
        }
        claims::list_reads_back(claims::present(slots), j);
        assert(raw =~= seq![91u8] + inner + seq![93u8]);
    } else {
        lemma_record_names();
        lemma_slot_absent(held, secret, confirmed, counter, 10, bytes::text("amr"));
    }
}

/// An authenticator reads back as it was written.
pub proof fn authenticator_reads_back(held: Seq<u8>, secret: Seq<u8>, confirmed: bool, counter: u64)
    requires
        claims::record_safe(secret),
        plain_methods(held),
    ensures
        ({
            let record = device_record(held, secret, confirmed, counter);
            &&& claims::text_claim(record, bytes::text("totp_secret")) == Some(secret)
            &&& claims::text_claim(record, bytes::text("totp_confirmed")) == Some(
                bytes::text(flag(confirmed)),
            )
            &&& claims::number_claim(record, bytes::text("totp_counter")) == Some(counter)
        }),
{
    let slots = device_slots(held, secret, confirmed, counter);
    lemma_slots_readable(held, secret, confirmed, counter);
    lemma_slot_text(slots, 11);
    lemma_slot_text(slots, 12);
    lemma_slot_number(slots, 13);
}

/// Until it is confirmed, an authenticator proves nothing.
pub proof fn an_unconfirmed_authenticator_proves_nothing(
    held: Seq<u8>,
    secret: Seq<u8>,
    counter: u64,
    otp: Seq<u8>,
    now: u64,
)
    requires
        claims::record_safe(secret),
        plain_methods(held),
    ensures
        mint_admission::otp_outcome(otp, device_record(held, secret, false, counter), now)
            != OtpOutcome::Verified,
{
    authenticator_reads_back(held, secret, false, counter);
    lemma_record_names();
}

/// A code confirms an authenticator once: what was written for the step that it matched admits it
/// neither at that step nor at an earlier one, to confirm or to mint.
pub proof fn a_confirming_code_is_used_up(
    held: Seq<u8>,
    secret: Seq<u8>,
    used: u64,
    code: Seq<u8>,
    now: u64,
    c: u64,
)
    requires
        claims::record_safe(secret),
        plain_methods(held),
        c <= used,
    ensures
        !presented_at(code, secret, device_record(held, secret, true, used), now, c),
{
    authenticator_reads_back(held, secret, true, used);
}

/// A code that holds at a later step of a confirmed authenticator is taken for what it is.
pub proof fn a_confirmed_authenticator_proves(
    held: Seq<u8>,
    secret: Seq<u8>,
    used: u64,
    code: Seq<u8>,
    now: u64,
    c: u64,
)
    requires
        claims::record_safe(secret),
        plain_methods(held),
        presented_at(code, secret, device_record(held, secret, true, used), now, c),
    ensures
        mint_admission::otp_outcome(code, device_record(held, secret, true, used), now)
            == OtpOutcome::Verified,
{
    authenticator_reads_back(held, secret, true, used);
    lemma_record_names();
}

/// The secret that a device was given is the one that its codes are checked against: the code of
/// the present step confirms the authenticator that was just attached.
pub proof fn a_registered_secret_confirms(held: Seq<u8>, raw: Seq<u8>, code: Seq<u8>, now: u64)
    requires
        plain_methods(held),
        raw.len() <= totp::MAX_SECRET,
        now >= totp::TOTP_PERIOD,
        totp::code_value(code) == Some(totp::code_at(raw, (now / 30) as u64)),
    ensures
        presented_at(
            code,
            base32::encoded(raw),
            device_record(held, base32::encoded(raw), false, 0),
            now,
            (now / 30) as u64,
        ),
{
    base32::encoding_letters(raw);
    base32::encoded_decodes(raw, 64);
    authenticator_reads_back(held, base32::encoded(raw), false, 0);
}

} // verus!
