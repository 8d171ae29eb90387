//! The flat claim reader: it takes the first `"key":` anywhere in a record and hands back the
//! bytes of its value. Escapes are not interpreted, so a writer refuses a value that would
//! need one.
use vstd::prelude::*;
use vstd::slice::slice_subrange;

use crate::bytes;
use crate::bytes::{append, bytes_equal, find, position, put, u64_dec};

verus! {

/// `"key":`
pub open spec fn member_name(key: Seq<u8>) -> Seq<u8> {
    seq![34u8] + key + seq![34u8, 58u8]
}

/// What follows the first `"key":` of a record, or nothing where no member has that name.
pub open spec fn after_first(json: Seq<u8>, needle: Seq<u8>) -> Option<Seq<u8>> {
    if bytes::occurs(json, needle) {
        let at = choose|i: int| bytes::first_occurrence(json, needle, i);
        Some(json.skip(at + needle.len()))
    } else {
        None
    }
}

/// The string claim `key`: the bytes between the quotes of the first `"key":"..."`.
pub open spec fn text_claim(json: Seq<u8>, key: Seq<u8>) -> Option<Seq<u8>> {
    match after_first(json, member_name(key).push(34)) {
        Some(rest) => if bytes::position_of(rest, 34) < rest.len() {
            Some(rest.take(bytes::position_of(rest, 34) as int))
        } else {
            None
        },
        None => None,
    }
}

/// How many digits `s` begins with.
pub open spec fn digit_run(s: Seq<u8>) -> nat
    decreases s.len(),
{
    if s.len() > 0 && bytes::is_digit(s[0]) {
        1 + digit_run(s.skip(1))
    } else {
        0
    }
}

/// The number claim `key`: the digits behind the first `"key":`, where they name a `u64`.
pub open spec fn number_claim(json: Seq<u8>, key: Seq<u8>) -> Option<u64> {
    match after_first(json, member_name(key)) {
        Some(rest) => {
            let n = digit_run(rest);
            let value = bytes::decimal_value(rest.take(n as int));
            if n == 0 || value > u64::MAX {
                None
            } else {
                Some(value as u64)
            }
        },
        None => None,
    }
}

/// The array claim `key`, from its opening to its closing bracket.
pub open spec fn array_claim(json: Seq<u8>, key: Seq<u8>) -> Option<Seq<u8>> {
    match after_first(json, member_name(key).push(91)) {
        Some(rest) => if bytes::position_of(rest, 93) < rest.len() {
            Some(seq![91u8] + rest.take(bytes::position_of(rest, 93) as int + 1))
        } else {
            None
        },
        None => None,
    }
}

/// The quoted strings in `s`, in order.
pub open spec fn quoted_items(s: Seq<u8>) -> Seq<Seq<u8>>
    decreases s.len(),
{
    let open = bytes::position_of(s, 34);
    if open < s.len() {
        let rest = s.skip(open as int + 1);
        let close = bytes::position_of(rest, 34);
        if close < rest.len() {
            seq![rest.take(close as int)] + quoted_items(rest.skip(close as int + 1))
        } else {
            Seq::empty()
        }
    } else {
        Seq::empty()
    }
}

/// A value that can stand between two quotes as it is: no quote, no backslash and no control
/// byte.
pub open spec fn record_safe(v: Seq<u8>) -> bool {
    forall|i: int| 0 <= i < v.len() ==> #[trigger] v[i] != 34 && v[i] != 92 && v[i] >= 32
}

proof fn lemma_first_exists(s: Seq<u8>, needle: Seq<u8>, i: int)
    requires
        bytes::occurs_at(s, needle, i),
    ensures
        exists|k: int| bytes::first_occurrence(s, needle, k),
    decreases i,
{
    if exists|j: int| 0 <= j < i && #[trigger] bytes::occurs_at(s, needle, j) {
        let j = choose|j: int| 0 <= j < i && #[trigger] bytes::occurs_at(s, needle, j);
        lemma_first_exists(s, needle, j);
    } else {
        assert(bytes::first_occurrence(s, needle, i));
    }
}

/// The index that a search finds is the one that [`after_first`] speaks of.
pub proof fn lemma_after_first(s: Seq<u8>, needle: Seq<u8>, i: int)
    requires
        bytes::first_occurrence(s, needle, i),
    ensures
        after_first(s, needle) == Some(s.skip(i + needle.len())),
{
    let at = choose|k: int| bytes::first_occurrence(s, needle, k);
    bytes::lemma_first_unique(s, needle, i, at);
}

fn name_needle(key: &[u8], tail: &[u8]) -> (r: Vec<u8>)
    ensures
        r@ == member_name(key@) + tail@,
{
    let mut needle: Vec<u8> = Vec::new();
    needle.push(34);
    append(&mut needle, key);
    needle.push(34);
    needle.push(58);
    append(&mut needle, tail);
    assert(needle@ =~= member_name(key@) + tail@);
    needle
}

fn seek<'a>(json: &'a [u8], needle: &[u8]) -> (r: Option<&'a [u8]>)
    ensures
        match r {
            Some(rest) => after_first(json@, needle@) == Some(rest@),
            None => after_first(json@, needle@) is None,
        },
{
    let total: usize = json.len();
    match find(json, needle) {
        Some(i) => {
            proof {
                lemma_after_first(json@, needle@, i as int);
            }
            let from: usize = i + needle.len();
            let rest = slice_subrange(json, from, total);
            assert(rest@ =~= json@.skip(i as int + needle@.len()));
            Some(rest)
        },
        None => None,
    }
}

/// The string claim `key` of `json`.
pub fn claim_str<'a>(json: &'a [u8], key: &[u8]) -> (r: Option<&'a [u8]>)
    ensures
        match r {
            Some(v) => text_claim(json@, key@) == Some(v@),
            None => text_claim(json@, key@) is None,
        },
{
    let quote: [u8; 1] = [34];
    let needle = name_needle(key, quote.as_slice());
    assert(needle@ =~= member_name(key@).push(34));
    match seek(json, needle.as_slice()) {
        Some(rest) => {
            let end: usize = position(rest, 34);
            if end < rest.len() {
                let v = slice_subrange(rest, 0, end);
                assert(v@ =~= rest@.take(end as int));
                Some(v)
            } else {
                None
            }
        },
        None => None,
    }
}

/// The string claim `key`, or the empty string.
pub open spec fn text_or_empty(json: Seq<u8>, key: Seq<u8>) -> Seq<u8> {
    match text_claim(json, key) {
        Some(v) => v,
        None => Seq::empty(),
    }
}

/// The string claim `key`, or nothing at all where it is absent.
pub fn claim_or_empty<'a>(json: &'a [u8], key: &[u8]) -> (r: &'a [u8])
    ensures
        r@ == text_or_empty(json@, key@),
{
    match claim_str(json, key) {
        Some(v) => v,
        None => {
            let none = slice_subrange(json, 0, 0);
            assert(none@ =~= Seq::<u8>::empty());
            none
        },
    }
}

/// Whether the string claim `key` is present and equal to `want`.
pub fn claim_is(json: &[u8], key: &[u8], want: &[u8]) -> (r: bool)
    ensures
        r == (text_claim(json@, key@) == Some(want@)),
{
    match claim_str(json, key) {
        Some(v) => bytes_equal(v, want),
        None => false,
    }
}

proof fn lemma_digit_run(s: Seq<u8>, n: int)
    requires
        0 <= n <= s.len(),
        forall|j: int| 0 <= j < n ==> bytes::is_digit(#[trigger] s[j]),
        n == s.len() || !bytes::is_digit(s[n]),
    ensures
        digit_run(s) == n,
    decreases n,
{
    if n > 0 {
        assert(bytes::is_digit(s[0]));
        assert forall|j: int| 0 <= j < n - 1 implies bytes::is_digit(#[trigger] s.skip(1)[j]) by {
            assert(s.skip(1)[j] == s[j + 1]);
        }
        if n < s.len() {
            assert(s.skip(1)[n - 1] == s[n]);
        }
        lemma_digit_run(s.skip(1), n - 1);
    }
}

/// Dropping digits from a numeral never makes it larger.
proof fn lemma_value_grows(s: Seq<u8>, i: int)
    requires
        0 <= i <= s.len(),
        bytes::all_digits(s),
    ensures
        bytes::decimal_value(s.take(i)) <= bytes::decimal_value(s),
    decreases s.len() - i,
{
    if i == s.len() {
        assert(s.take(i) =~= s);
    } else {
        lemma_value_grows(s, i + 1);
        assert(s.take(i + 1).drop_last() =~= s.take(i));
    }
}

/// The number that a string of digits names, where a `u64` holds it.
pub fn read_decimal(digits: &[u8]) -> (r: Option<u64>)
    requires
        bytes::all_digits(digits@),
    ensures
        r == (if bytes::decimal_value(digits@) > u64::MAX {
            None::<u64>
        } else {
            Some(bytes::decimal_value(digits@) as u64)
        }),
{
    let mut value: u64 = 0;
    let mut i: usize = 0;
    while i < digits.len()
        invariant
            i <= digits@.len(),
            bytes::all_digits(digits@),
            value == bytes::decimal_value(digits@.take(i as int)),
        decreases digits@.len() - i,
    {
        let digit: u64 = (digits[i] - 48) as u64;
        proof {
            assert(digits@.take(i + 1).drop_last() =~= digits@.take(i as int));
            lemma_value_grows(digits@, i + 1);
        }
        if value > 1844674407370955161 || (value == 1844674407370955161 && digit > 5) {
            return None;
        }
        value = value * 10 + digit;
        i = i + 1;
    }
    assert(digits@.take(i as int) =~= digits@);
    Some(value)
}

/// The number claim `key` of `json`.
pub fn claim_u64(json: &[u8], key: &[u8]) -> (r: Option<u64>)
    ensures
        r == number_claim(json@, key@),
{
    let nothing: [u8; 0] = [];
    let needle = name_needle(key, nothing.as_slice());
    assert(needle@ =~= member_name(key@));
    match seek(json, needle.as_slice()) {
        Some(rest) => {
            let mut n: usize = 0;
            while n < rest.len() && 48 <= rest[n] && rest[n] <= 57
                invariant
                    n <= rest@.len(),
                    forall|j: int| 0 <= j < n ==> bytes::is_digit(#[trigger] rest@[j]),
                decreases rest@.len() - n,
            {
                n = n + 1;
            }
            proof {
                lemma_digit_run(rest@, n as int);
            }
            if n == 0 {
                return None;
            }
            let digits = slice_subrange(rest, 0, n);
            assert(digits@ =~= rest@.take(n as int));
            read_decimal(digits)
        },
        None => None,
    }
}

/// The number claim `key`, or `other` where it is absent.
pub open spec fn number_or(json: Seq<u8>, key: Seq<u8>, other: u64) -> u64 {
    match number_claim(json, key) {
        Some(n) => n,
        None => other,
    }
}

pub fn claim_number_or(json: &[u8], key: &[u8], other: u64) -> (r: u64)
    ensures
        r == number_or(json@, key@, other),
{
    match claim_u64(json, key) {
        Some(n) => n,
        None => other,
    }
}

/// The array claim `key` of `json`, brackets and all.
pub fn claim_array_raw(json: &[u8], key: &[u8]) -> (r: Option<Vec<u8>>)
    ensures
        match r {
            Some(v) => array_claim(json@, key@) == Some(v@),
            None => array_claim(json@, key@) is None,
        },
{
    let bracket: [u8; 1] = [91];
    let needle = name_needle(key, bracket.as_slice());
    assert(needle@ =~= member_name(key@).push(91));
    match seek(json, needle.as_slice()) {
        Some(rest) => {
            let end: usize = position(rest, 93);
            if end < rest.len() {
                let mut raw: Vec<u8> = Vec::new();
                raw.push(91);
                append(&mut raw, slice_subrange(rest, 0, end + 1));
                assert(raw@ =~= seq![91u8] + rest@.take(end as int + 1));
                Some(raw)
            } else {
                None
            }
        },
        None => None,
    }
}

/// The strings of the array claim `key`: none where there is no such array.
pub open spec fn array_items(json: Seq<u8>, key: Seq<u8>) -> Seq<Seq<u8>> {
    match array_claim(json, key) {
        Some(raw) => quoted_items(raw),
        None => Seq::empty(),
    }
}

/// The strings of the array claim `key`.
pub fn claim_array(json: &[u8], key: &[u8]) -> (r: Vec<Vec<u8>>)
    ensures
        r@.map_values(|v: Vec<u8>| v@) == array_items(json@, key@),
{
    let mut items: Vec<Vec<u8>> = Vec::new();
    let raw = match claim_array_raw(json, key) {
        Some(raw) => raw,
        None => {
            assert(items@.map_values(|v: Vec<u8>| v@) =~= Seq::<Seq<u8>>::empty());
            return items;
        },
    };
    let mut at: usize = 0;
    assert(raw@.skip(0) =~= raw@);
    assert(items@.map_values(|v: Vec<u8>| v@) + quoted_items(raw@) =~= quoted_items(raw@));
    while at < raw.len()
        invariant
            at <= raw@.len(),
            array_claim(json@, key@) == Some(raw@),
            items@.map_values(|v: Vec<u8>| v@) + quoted_items(raw@.skip(at as int))
                == quoted_items(raw@),
        decreases raw@.len() - at,
    {
        let rest = slice_subrange(raw.as_slice(), at, raw.len());
        assert(rest@ =~= raw@.skip(at as int));
        let open: usize = position(rest, 34);
        if open >= rest.len() {
            assert(items@.map_values(|v: Vec<u8>| v@) =~= quoted_items(raw@));
            return items;
        }
        let inner = slice_subrange(rest, open + 1, rest.len());
        assert(inner@ =~= rest@.skip(open as int + 1));
        let close: usize = position(inner, 34);
        if close >= inner.len() {
            assert(items@.map_values(|v: Vec<u8>| v@) =~= quoted_items(raw@));
            return items;
        }
        let item = vstd::slice::slice_to_vec(slice_subrange(inner, 0, close));
        let ghost before = items@.map_values(|v: Vec<u8>| v@);
        assert(item@ =~= inner@.take(close as int));
        items.push(item);
        assert(items@.map_values(|v: Vec<u8>| v@) =~= before.push(item@));
        at = at + open + 1 + close + 1;
        assert(inner@.skip(close as int + 1) =~= raw@.skip(at as int));
        assert(before.push(item@) + quoted_items(raw@.skip(at as int)) =~= before + (seq![item@]
            + quoted_items(raw@.skip(at as int))));
    }
    assert(raw@.skip(at as int) =~= Seq::<u8>::empty());
    assert(items@.map_values(|v: Vec<u8>| v@) =~= quoted_items(raw@));
    items
}

/// Whether `v` can stand in a record between two quotes as it is.
pub fn json_safe(v: &[u8]) -> (r: bool)
    ensures
        r == record_safe(v@),
{
    let mut i: usize = 0;
    while i < v.len()
        invariant
            i <= v@.len(),
            forall|j: int| 0 <= j < i ==> #[trigger] v@[j] != 34 && v@[j] != 92 && v@[j] >= 32,
        decreases v@.len() - i,
    {
        if v[i] == 34 || v[i] == 92 || v[i] < 32 {
            return false;
        }
        i = i + 1;
    }
    true
}

/// The string claim `key`, cut to nothing where it is absent or longer than `limit`.
pub open spec fn short_claim(json: Seq<u8>, key: Seq<u8>, limit: nat) -> Seq<u8> {
    bytes::fitting(text_or_empty(json, key), limit)
}

/// A copy of the string claim `key`: empty where it is absent, empty or longer than `limit`.
pub fn json_string(body: &[u8], key: &[u8], limit: usize) -> (r: Vec<u8>)
    ensures
        r@ == short_claim(body@, key@, limit as nat),
{
    bytes::copy_into(claim_or_empty(body, key), limit)
}

/// `"value"`
pub open spec fn quoted(value: Seq<u8>) -> Seq<u8> {
    seq![34u8] + value + seq![34u8]
}

/// The value of a member: a string, a number, a flag, a list by what stands between its brackets,
/// or an object with one string member.
pub enum Value {
    Text(Seq<u8>),
    Number(nat),
    Flag(bool),
    List(Seq<u8>),
    Object(Seq<u8>, Seq<u8>),
}

pub open spec fn value_bytes(value: Value) -> Seq<u8> {
    match value {
        Value::Text(v) => quoted(v),
        Value::Number(n) => bytes::decimal(n),
        Value::Flag(b) => if b {
            seq![116u8, 114, 117, 101]
        } else {
            seq![102u8, 97, 108, 115, 101]
        },
        Value::List(inner) => seq![91u8] + inner + seq![93u8],
        Value::Object(key, text) => seq![123u8] + (member_name(key) + quoted(text)) + seq![125u8],
    }
}

/// The value has a member named `key` of its own.
pub open spec fn introduces(value: Value, key: Seq<u8>) -> bool {
    value matches Value::Object(inner, _) && inner == key
}

/// A list that introduces no member: nothing in it is followed by a colon.
pub open spec fn plain_list(inner: Seq<u8>) -> bool {
    forall|i: int| 0 <= i < inner.len() ==> #[trigger] inner[i] != 58
}

/// A value that a reader takes for itself and for nothing else.
pub open spec fn plain_value(value: Value) -> bool {
    match value {
        Value::Text(v) => record_safe(v),
        Value::Number(_) => true,
        Value::Flag(_) => true,
        Value::List(inner) => plain_list(inner),
        Value::Object(key, text) => plain_name(key) && record_safe(text),
    }
}

/// The members of a record between its braces, each `"key":value`, with commas between them.
pub open spec fn members_bytes(members: Seq<(Seq<u8>, Value)>) -> Seq<u8>
    decreases members.len(),
{
    if members.len() == 0 {
        Seq::empty()
    } else {
        let head = member_name(members[0].0) + value_bytes(members[0].1);
        if members.len() == 1 {
            head
        } else {
            head + seq![44u8] + members_bytes(members.skip(1))
        }
    }
}

/// `{"key":value,...}`
pub open spec fn record_bytes(members: Seq<(Seq<u8>, Value)>) -> Seq<u8> {
    seq![123u8] + members_bytes(members) + seq![125u8]
}

/// A member's name that a reader finds: without a quote, a backslash, a control byte or a closing
/// bracket, and not one that begins like what follows a string.
pub open spec fn plain_name(key: Seq<u8>) -> bool {
    &&& key.len() > 0
    &&& key[0] != 44 && key[0] != 58 && key[0] != 125
    &&& forall|i: int|
        0 <= i < key.len() ==> #[trigger] key[i] != 34 && key[i] != 92 && key[i] != 93 && key[i]
            >= 32
}

/// Names are plain and differ from one another, at whatever depth, and values are plain.
pub open spec fn readable(members: Seq<(Seq<u8>, Value)>) -> bool {
    &&& forall|i: int| 0 <= i < members.len() ==> plain_name(#[trigger] members[i].0)
    &&& forall|i: int, j: int|
        0 <= i < j < members.len() ==> (#[trigger] members[i]).0 != (#[trigger] members[j]).0
    &&& forall|i: int|
        0 <= i < members.len() ==> plain_value(#[trigger] members[i].1)
    &&& forall|i: int, j: int|
        0 <= i < members.len() && 0 <= j < members.len() ==> !introduces(
            (#[trigger] members[i]).1,
            (#[trigger] members[j]).0,
        )
}

proof fn lemma_occurrence(s: Seq<u8>, needle: Seq<u8>, i: int)
    requires
        bytes::occurs_at(s, needle, i),
    ensures
        forall|x: int| 0 <= x < needle.len() ==> s[i + x] == #[trigger] needle[x],
{
    assert forall|x: int| 0 <= x < needle.len() implies s[i + x] == #[trigger] needle[x] by {
        assert(s.subrange(i, i + needle.len())[x] == s[i + x]);
    }
}

/// The needle `"key":`, spelled out where it occurs.
proof fn lemma_name_occurs(s: Seq<u8>, key: Seq<u8>, j: int)
    requires
        bytes::occurs_at(s, member_name(key), j),
    ensures
        0 <= j,
        j + key.len() + 3 <= s.len(),
        s[j] == 34,
        forall|x: int| 0 <= x < key.len() ==> s[j + 1 + x] == #[trigger] key[x],
        s[j + 1 + key.len()] == 34,
        s[j + 2 + key.len()] == 58,
{
    let needle = member_name(key);
    let n = key.len() as int;
    lemma_occurrence(s, needle, j);
    assert(needle[0] == 34 && needle[1 + n] == 34 && needle[2 + n] == 58);
    assert(s[j + 0] == needle[0] && s[j + (1 + n)] == needle[1 + n] && s[j + (2 + n)] == needle[2
        + n]);
    assert forall|x: int| 0 <= x < n implies s[j + 1 + x] == #[trigger] key[x] by {
        assert(needle[1 + x] == key[x]);
        assert(s[j + (1 + x)] == needle[1 + x]);
    }
}

/// No `"key":` begins inside another name.
proof fn lemma_other_name(s: Seq<u8>, name: Seq<u8>, key: Seq<u8>, j: int)
    requires
        plain_name(name),
        plain_name(key),
        s.len() > name.len() + 3,
        s.take(name.len() as int + 3) == member_name(name),
        0 <= j < name.len() + 3,
        j > 0 || name != key,
    ensures
        !bytes::occurs_at(s, member_name(key), j),
{
    let m = name.len() as int;
    let n = key.len() as int;
    let head = member_name(name);
    if bytes::occurs_at(s, member_name(key), j) {
        lemma_name_occurs(s, key, j);
        assert forall|x: int| 0 <= x < m implies #[trigger] name[x] == s[1 + x] by {
            assert(head[1 + x] == name[x]);
            assert(s.take(m + 3)[1 + x] == s[1 + x]);
        }
        assert(head[1 + m] == 34 && head[2 + m] == 58);
        assert(s.take(m + 3)[1 + m] == s[1 + m] && s.take(m + 3)[2 + m] == s[2 + m]);
        assert(s[j + 1] == key[0]);
        if j == 0 {
            if n < m {
                assert(name[n] == s[1 + n]);
            } else if n > m {
                assert(key[m] == s[1 + m]);
            } else {
                assert(name =~= key);
            }
        } else if j <= m {
            assert(name[j - 1] == s[j]);
        }
    }
}

/// No `"key":` begins inside a quoted string that is safe, unless one does at its end.
proof fn lemma_other_text(s: Seq<u8>, from: int, v: Seq<u8>, key: Seq<u8>, j: int)
    requires
        plain_name(key),
        record_safe(v),
        0 <= from,
        from + v.len() + 2 < s.len(),
        s.subrange(from, from + v.len() + 2) == quoted(v),
        s[from + v.len() + 2] == 44 || s[from + v.len() + 2] == 125,
        from <= j < from + v.len() + 2,
    ensures
        !bytes::occurs_at(s, member_name(key), j),
{
    let l = v.len() as int;
    let n = key.len() as int;
    if bytes::occurs_at(s, member_name(key), j) {
        lemma_name_occurs(s, key, j);
        let q = quoted(v);
        assert forall|x: int| 0 <= x < l implies #[trigger] v[x] == s[from + 1 + x] by {
            assert(q[1 + x] == v[x]);
            assert(s.subrange(from, from + l + 2)[1 + x] == s[from + (1 + x)]);
        }
        assert(q[1 + l] == 34);
        assert(s.subrange(from, from + l + 2)[1 + l] == s[from + (1 + l)]);
        assert(s[j + 1] == key[0]);
        if j == from {
            if n < l {
                assert(v[n] == s[from + 1 + n]);
            } else if n > l {
                assert(key[l] == s[j + 1 + l]);
            }
        } else if j < from + 1 + l {
            assert(v[j - from - 1] == s[j]);
        }
    }
}

/// No `"key":` begins inside a list that is plain.
proof fn lemma_other_list(s: Seq<u8>, from: int, inner: Seq<u8>, key: Seq<u8>, j: int)
    requires
        plain_name(key),
        plain_list(inner),
        0 <= from,
        from + inner.len() + 2 < s.len(),
        s.subrange(from, from + inner.len() + 2) == seq![91u8] + inner + seq![93u8],
        from <= j < from + inner.len() + 2,
    ensures
        !bytes::occurs_at(s, member_name(key), j),
{
    let l = inner.len() as int;
    let n = key.len() as int;
    if bytes::occurs_at(s, member_name(key), j) {
        lemma_name_occurs(s, key, j);
        let q = seq![91u8] + inner + seq![93u8];
        assert forall|x: int| 0 <= x < l implies #[trigger] inner[x] == s[from + 1 + x] by {
            assert(q[1 + x] == inner[x]);
            assert(s.subrange(from, from + l + 2)[1 + x] == s[from + (1 + x)]);
        }
        assert(q[0] == 91 && q[1 + l] == 93);
        assert(s.subrange(from, from + l + 2)[0] == s[from]);
        assert(s.subrange(from, from + l + 2)[1 + l] == s[from + (1 + l)]);
        let colon = j + 2 + n;
        if colon < from + 1 + l {
            assert(inner[colon - from - 1] == s[colon]);
        } else if colon > from + 1 + l {
            let bracket = from + 1 + l - j;
            if bracket <= n {
                assert(key[bracket - 1] == s[j + 1 + (bracket - 1)]);
            }
        }
    }
}

/// No `"key":` begins inside an object of one other member.
proof fn lemma_other_object(
    s: Seq<u8>,
    from: int,
    inner: Seq<u8>,
    text: Seq<u8>,
    key: Seq<u8>,
    j: int,
)
    requires
        plain_name(key),
        plain_name(inner),
        record_safe(text),
        inner != key,
        0 <= from,
        from + inner.len() + text.len() + 7 < s.len(),
        s.subrange(from, from + inner.len() + text.len() + 7) == value_bytes(
            Value::Object(inner, text),
        ),
        from <= j < from + inner.len() + text.len() + 7,
    ensures
        !bytes::occurs_at(s, member_name(key), j),
{
    let value = value_bytes(Value::Object(inner, text));
    let m = inner.len() as int;
    let l = text.len() as int;
    let end = from + m + l + 7;
    assert forall|x: int| 0 <= x < value.len() implies s[from + x] == #[trigger] value[x] by {
        assert(s.subrange(from, end)[x] == s[from + x]);
    }
    assert(value[0] == 123 && value[m + l + 6] == 125);
    assert(s[from + 0] == value[0] && s[from + (m + l + 6)] == value[m + l + 6]);
    if bytes::occurs_at(s, member_name(key), j) {
        lemma_name_occurs(s, key, j);
        if from < j < from + 4 + m {
            let rest = s.skip(from + 1);
            assert(rest.take(m + 3) =~= member_name(inner)) by {
                assert forall|x: int| 0 <= x < m + 3 implies rest[x] == member_name(inner)[x] by {
                    assert(value[1 + x] == member_name(inner)[x]);
                    assert(s[from + (1 + x)] == value[1 + x]);
                }
            }
            let at = j - from - 1;
            let width = key.len() + 3;
            assert(rest.subrange(at, at + width) =~= s.subrange(j, j + width));
            lemma_other_name(rest, inner, key, at);
        } else if from + 4 + m <= j < end - 1 {
            assert(s.subrange(from + 4 + m, from + 4 + m + l + 2) =~= quoted(text)) by {
                assert forall|x: int| 0 <= x < l + 2 implies s[from + 4 + m + x] == quoted(
                    text,
                )[x] by {
                    assert(value[4 + m + x] == quoted(text)[x]);
                    assert(s[from + (4 + m + x)] == value[4 + m + x]);
                }
            }
            lemma_other_text(s, from + 4 + m, text, key, j);
        }
    }
}

/// No member is named `key` inside a head that is named otherwise.
proof fn lemma_other_member(s: Seq<u8>, name: Seq<u8>, value: Value, key: Seq<u8>, j: int)
    requires
        plain_name(name),
        plain_name(key),
        plain_value(value),
        !introduces(value, key),
        s.len() > member_name(name).len() + value_bytes(value).len(),
        s.take((member_name(name) + value_bytes(value)).len() as int) == member_name(name)
            + value_bytes(value),
        s[(member_name(name) + value_bytes(value)).len() as int] == 44
            || s[(member_name(name) + value_bytes(value)).len() as int] == 125,
        0 <= j <= (member_name(name) + value_bytes(value)).len(),
        j > 0 || name != key,
    ensures
        !bytes::occurs_at(s, member_name(key), j),
{
    let own = value_bytes(value);
    let head = member_name(name) + own;
    let m = name.len() as int;
    let from = m + 3;
    assert(s.take(from) =~= s.take(head.len() as int).take(from));
    assert(head.take(from) =~= member_name(name));
    assert(s.subrange(from, from + own.len()) =~= s.take(head.len() as int).skip(from));
    assert(head.skip(from) =~= own);
    if j < from {
        lemma_other_name(s, name, key, j);
    } else if j == head.len() {
        if bytes::occurs_at(s, member_name(key), j) {
            lemma_name_occurs(s, key, j);
        }
    } else {
        match value {
            Value::Text(v) => {
                lemma_other_text(s, from, v, key, j);
            },
            Value::Number(k) => {
                bytes::decimal_reads_back(k);
                assert(own[j - from] == s.subrange(from, from + own.len())[j - from]);
                assert(bytes::is_digit(own[j - from]));
                if bytes::occurs_at(s, member_name(key), j) {
                    lemma_name_occurs(s, key, j);
                }
            },
            Value::Flag(_) => {
                assert(own[j - from] == s.subrange(from, from + own.len())[j - from]);
                assert(own[j - from] >= 97);
                if bytes::occurs_at(s, member_name(key), j) {
                    lemma_name_occurs(s, key, j);
                }
            },
            Value::List(inner) => {
                lemma_other_list(s, from, inner, key, j);
            },
            Value::Object(inner, text) => {
                lemma_other_object(s, from, inner, text, key, j);
            },
        }
    }
}

/// Where member `i` stands in [`members_bytes`].
spec fn member_offset(members: Seq<(Seq<u8>, Value)>, i: int) -> int
    decreases i,
{
    if i <= 0 {
        0
    } else {
        (member_name(members[0].0) + value_bytes(members[0].1)).len() + 1 + member_offset(
            members.skip(1),
            i - 1,
        )
    }
}

proof fn lemma_readable_tail(members: Seq<(Seq<u8>, Value)>)
    requires
        readable(members),
        members.len() > 0,
    ensures
        readable(members.skip(1)),
{
    let rest = members.skip(1);
    assert forall|i: int| 0 <= i < rest.len() implies plain_name(#[trigger] rest[i].0) by {
        assert(rest[i] == members[i + 1]);
    }
    assert forall|i: int, j: int| 0 <= i < j < rest.len() implies (#[trigger] rest[i]).0 != (
    #[trigger] rest[j]).0 by {
        assert(rest[i] == members[i + 1] && rest[j] == members[j + 1]);
    }
    assert forall|i: int| 0 <= i < rest.len() implies plain_value(#[trigger] rest[i].1) by {
        assert(rest[i] == members[i + 1]);
    }
    assert forall|i: int, j: int| 0 <= i < rest.len() && 0 <= j < rest.len() implies !introduces(
        (#[trigger] rest[i]).1,
        (#[trigger] rest[j]).0,
    ) by {
        assert(rest[i] == members[i + 1] && rest[j] == members[j + 1]);
    }
}

/// The first `"key":` of a record is that of the member so named, and its value follows.
proof fn lemma_member_found(members: Seq<(Seq<u8>, Value)>, tail: Seq<u8>, i: int)
    requires
        readable(members),
        0 <= i < members.len(),
        tail.len() > 0,
        tail[0] == 125,
    ensures
        ({
            let s = members_bytes(members) + tail;
            let at = member_offset(members, i);
            let name = member_name(members[i].0);
            let value = value_bytes(members[i].1);
            &&& bytes::first_occurrence(s, name, at)
            &&& at + name.len() + value.len() < s.len()
            &&& s.subrange(at + name.len(), at + name.len() + value.len()) == value
            &&& (s[at + name.len() + value.len()] == 44 || s[at + name.len() + value.len()] == 125)
        }),
    decreases members.len(),
{
    let s = members_bytes(members) + tail;
    let key = members[i].0;
    let name = member_name(key);
    let head = member_name(members[0].0) + value_bytes(members[0].1);
    let rest = members.skip(1);
    let more = members.len() > 1;
    assert(s.take(head.len() as int) =~= head);
    assert(s[head.len() as int] == if more {
        44u8
    } else {
        125u8
    });
    if i == 0 {
        assert(s.subrange(0, name.len() as int) =~= name);
        assert(bytes::occurs_at(s, name, 0));
        assert(s.subrange(name.len() as int, head.len() as int) =~= value_bytes(members[0].1));
    } else {
        let s2 = members_bytes(rest) + tail;
        let shift = head.len() as int + 1;
        lemma_readable_tail(members);
        lemma_member_found(rest, tail, i - 1);
        assert(rest[i - 1] == members[i]);
        assert(s =~= head + seq![44u8] + s2);
        assert(s.skip(shift) =~= s2);
        let at2 = member_offset(rest, i - 1);
        let value = value_bytes(members[i].1);
        assert(s.subrange(shift + at2, shift + at2 + name.len()) =~= s2.subrange(
            at2,
            at2 + name.len(),
        ));
        assert(s.subrange(
            shift + at2 + name.len(),
            shift + at2 + name.len() + value.len(),
        ) =~= s2.subrange(at2 + name.len(), at2 + name.len() + value.len()));
        assert(members[0].0 != members[i].0);
        assert(!introduces(members[0].1, members[i].0));
        assert forall|j: int| 0 <= j < shift + at2 implies !#[trigger] bytes::occurs_at(
            s,
            name,
            j,
        ) by {
            if j < shift {
                lemma_other_member(s, members[0].0, members[0].1, key, j);
            } else if bytes::occurs_at(s, name, j) {
                assert(s2.subrange(j - shift, j - shift + name.len()) =~= s.subrange(
                    j,
                    j + name.len(),
                ));
                assert(bytes::occurs_at(s2, name, j - shift));
            }
        }
    }
}

proof fn lemma_record_found(members: Seq<(Seq<u8>, Value)>, i: int) -> (at: int)
    requires
        readable(members),
        0 <= i < members.len(),
    ensures
        ({
            let s = record_bytes(members);
            let name = member_name(members[i].0);
            let value = value_bytes(members[i].1);
            &&& bytes::first_occurrence(s, name, at)
            &&& at + name.len() + value.len() < s.len()
            &&& s.subrange(at + name.len(), at + name.len() + value.len()) == value
            &&& (s[at + name.len() + value.len()] == 44 || s[at + name.len() + value.len()] == 125)
        }),
{
    let s = record_bytes(members);
    let tail = seq![125u8];
    let s2 = members_bytes(members) + tail;
    let name = member_name(members[i].0);
    let value = value_bytes(members[i].1);
    lemma_member_found(members, tail, i);
    let at2 = member_offset(members, i);
    assert(s =~= seq![123u8] + s2);
    assert(s.subrange(1 + at2, 1 + at2 + name.len()) =~= s2.subrange(at2, at2 + name.len()));
    assert(s.subrange(1 + at2 + name.len(), 1 + at2 + name.len() + value.len()) =~= s2.subrange(
        at2 + name.len(),
        at2 + name.len() + value.len(),
    ));
    assert forall|j: int| 0 <= j < 1 + at2 implies !#[trigger] bytes::occurs_at(s, name, j) by {
        if bytes::occurs_at(s, name, j) {
            lemma_occurrence(s, name, j);
            assert(name[0] == 34);
            assert(j != 0);
            assert(s2.subrange(j - 1, j - 1 + name.len()) =~= s.subrange(j, j + name.len()));
            assert(bytes::occurs_at(s2, name, j - 1));
        }
    }
    1 + at2
}

/// What stands behind the first `"key":` of a readable record is the value that was written there.
pub proof fn value_follows_name(members: Seq<(Seq<u8>, Value)>, i: int)
    requires
        readable(members),
        0 <= i < members.len(),
    ensures
        after_first(record_bytes(members), member_name(members[i].0)) matches Some(rest)
            && value_bytes(members[i].1).is_prefix_of(rest),
{
    let s = record_bytes(members);
    let name = member_name(members[i].0);
    let value = value_bytes(members[i].1);
    let at = lemma_record_found(members, i);
    lemma_after_first(s, name, at);
    let rest = s.skip(at + name.len());
    assert(rest.take(value.len() as int) =~= s.subrange(
        at + name.len(),
        at + name.len() + value.len(),
    ));
}

/// A string member of a readable record reads back as it was written.
pub proof fn text_reads_back(members: Seq<(Seq<u8>, Value)>, i: int)
    requires
        readable(members),
        0 <= i < members.len(),
        members[i].1 is Text,
    ensures
        text_claim(record_bytes(members), members[i].0) == Some(members[i].1->Text_0),
{
    let at = lemma_record_found(members, i);
    lemma_text_at(record_bytes(members), members[i].0, members[i].1->Text_0, at);
}

/// The string that first stands behind a name is what is read of it.
proof fn lemma_text_at(s: Seq<u8>, key: Seq<u8>, v: Seq<u8>, at: int)
    requires
        bytes::first_occurrence(s, member_name(key), at),
        record_safe(v),
        at + member_name(key).len() + quoted(v).len() < s.len(),
        s.subrange(at + member_name(key).len(), at + member_name(key).len() + quoted(v).len())
            == quoted(v),
    ensures
        text_claim(s, key) == Some(v),
{
    let name = member_name(key);
    lemma_longer_name(s, name, 34, at, quoted(v));
    lemma_text_follows(s, name, v, at);
}

/// The text after a name and a quote, up to the next quote.
proof fn lemma_text_follows(s: Seq<u8>, name: Seq<u8>, v: Seq<u8>, at: int)
    requires
        bytes::first_occurrence(s, name.push(34), at),
        record_safe(v),
        at + name.len() + v.len() + 2 <= s.len(),
        s.subrange(at + name.len(), at + name.len() + v.len() + 2) == quoted(v),
    ensures
        after_first(s, name.push(34)) matches Some(rest) && bytes::position_of(rest, 34) < rest.len()
            && rest.take(bytes::position_of(rest, 34) as int) == v,
{
    let long = name.push(34);
    let value = quoted(v);
    lemma_after_first(s, long, at);
    let rest = s.skip(at + long.len());
    assert forall|x: int| 0 <= x < v.len() implies #[trigger] rest[x] == v[x] by {
        assert(s.subrange(at + name.len(), at + name.len() + value.len())[1 + x] == s[at
            + name.len() + 1 + x]);
        assert(value[1 + x] == v[x]);
    }
    assert(rest[v.len() as int] == 34) by {
        assert(s.subrange(at + name.len(), at + name.len() + value.len())[1 + v.len() as int]
            == s[at + name.len() + 1 + v.len()]);
        assert(value[1 + v.len() as int] == 34);
    }
    bytes::lemma_position_unique(rest, 34, v.len() as int);
    assert(rest.take(v.len() as int) =~= v);
}

/// A number member of a readable record reads back as it was written.
pub proof fn number_reads_back(members: Seq<(Seq<u8>, Value)>, i: int)
    requires
        readable(members),
        0 <= i < members.len(),
        members[i].1 is Number,
        members[i].1->Number_0 <= u64::MAX,
    ensures
        number_claim(record_bytes(members), members[i].0) == Some(members[i].1->Number_0 as u64),
{
    let at = lemma_record_found(members, i);
    lemma_number_at(record_bytes(members), members[i].0, members[i].1->Number_0, at);
}

/// The number that first stands behind a name is what is read of it.
proof fn lemma_number_at(s: Seq<u8>, key: Seq<u8>, n: nat, at: int)
    requires
        bytes::first_occurrence(s, member_name(key), at),
        n <= u64::MAX,
        at + member_name(key).len() + bytes::decimal(n).len() < s.len(),
        s.subrange(
            at + member_name(key).len(),
            at + member_name(key).len() + bytes::decimal(n).len(),
        ) == bytes::decimal(n),
        !bytes::is_digit(s[at + member_name(key).len() + bytes::decimal(n).len()]),
    ensures
        number_claim(s, key) == Some(n as u64),
{
    let name = member_name(key);
    let value = bytes::decimal(n);
    bytes::decimal_reads_back(n);
    lemma_after_first(s, name, at);
    let rest = s.skip(at + name.len());
    assert forall|x: int| 0 <= x < value.len() implies #[trigger] rest[x] == value[x] by {
        assert(s.subrange(at + name.len(), at + name.len() + value.len())[x] == s[at + name.len()
            + x]);
    }
    assert forall|x: int| 0 <= x < value.len() implies bytes::is_digit(#[trigger] rest[x]) by {
        assert(bytes::is_digit(value[x]));
    }
    assert(rest[value.len() as int] == s[at + name.len() + value.len()]);
    lemma_digit_run(rest, value.len() as int);
    assert(rest.take(value.len() as int) =~= value);
}

/// A list of a readable record reads back as it was written, unless it holds a bracket itself.
pub proof fn list_reads_back(members: Seq<(Seq<u8>, Value)>, i: int)
    requires
        readable(members),
        0 <= i < members.len(),
        members[i].1 is List,
        forall|x: int|
            0 <= x < members[i].1->List_0.len() ==> #[trigger] members[i].1->List_0[x] != 93,
    ensures
        array_claim(record_bytes(members), members[i].0) == Some(value_bytes(members[i].1)),
{
    let s = record_bytes(members);
    let name = member_name(members[i].0);
    let long = name.push(91);
    let v = members[i].1->List_0;
    let at = lemma_record_found(members, i);
    let value = value_bytes(members[i].1);
    lemma_longer_name(s, name, 91, at, value);
    lemma_after_first(s, long, at);
    let rest = s.skip(at + long.len());
    assert forall|x: int| 0 <= x < v.len() implies #[trigger] rest[x] == v[x] by {
        assert(s.subrange(at + name.len(), at + name.len() + value.len())[1 + x] == s[at
            + name.len() + 1 + x]);
        assert(value[1 + x] == v[x]);
    }
    assert(rest[v.len() as int] == 93) by {
        assert(s.subrange(at + name.len(), at + name.len() + value.len())[1 + v.len() as int]
            == s[at + name.len() + 1 + v.len()]);
        assert(value[1 + v.len() as int] == 93);
    }
    assert forall|x: int| 0 <= x < v.len() implies #[trigger] rest[x] != 93 by {
        assert(rest[x] == v[x]);
    }
    bytes::lemma_position_unique(rest, 93, v.len() as int);
    assert(seq![91u8] + rest.take(v.len() as int + 1) =~= value);
}

/// Where a name first stands, the name and the first byte of its value first stand too.
proof fn lemma_longer_name(s: Seq<u8>, name: Seq<u8>, b: u8, at: int, value: Seq<u8>)
    requires
        bytes::first_occurrence(s, name, at),
        value.len() > 0,
        value[0] == b,
        at + name.len() + value.len() < s.len(),
        s.subrange(at + name.len(), at + name.len() + value.len()) == value,
    ensures
        bytes::first_occurrence(s, name.push(b), at),
{
    let long = name.push(b);
    assert(s[at + name.len()] == value[0]) by {
        assert(s.subrange(at + name.len(), at + name.len() + value.len())[0] == s[at + name.len()]);
    }
    assert(s.subrange(at, at + long.len()) =~= long) by {
        assert(s.subrange(at, at + name.len()) == name);
        assert forall|x: int| 0 <= x < long.len() implies s.subrange(at, at + long.len())[x]
            == long[x] by {
            if x < name.len() {
                assert(s.subrange(at, at + name.len())[x] == s[at + x]);
            }
        }
    }
    assert forall|j: int| 0 <= j < at implies !#[trigger] bytes::occurs_at(s, long, j) by {
        if bytes::occurs_at(s, long, j) {
            assert(s.subrange(j, j + name.len()) =~= s.subrange(j, j + long.len()).take(
                name.len() as int,
            ));
            assert(long.take(name.len() as int) =~= name);
            assert(bytes::occurs_at(s, name, j));
        }
    }
}

/// Neither the member nor what it introduces is named `key`.
pub open spec fn names_apart(member: (Seq<u8>, Value), key: Seq<u8>) -> bool {
    member.0 != key && !introduces(member.1, key)
}

/// The string in an object that comes first in a readable record reads back as it was written.
pub proof fn object_reads_back(members: Seq<(Seq<u8>, Value)>)
    requires
        readable(members),
        members.len() > 0,
        members[0].1 is Object,
    ensures
        ({
            let inner = members[0].1;
            text_claim(record_bytes(members), inner->Object_0) == Some(inner->Object_1)
        }),
{
    let at = lemma_object_found(members);
    lemma_text_at(record_bytes(members), members[0].1->Object_0, members[0].1->Object_1, at);
}

/// Where the string of an object that comes first in a readable record first stands.
#[verifier::rlimit(60)]
proof fn lemma_object_found(members: Seq<(Seq<u8>, Value)>) -> (at: int)
    requires
        readable(members),
        members.len() > 0,
        members[0].1 is Object,
    ensures
        ({
            let s = record_bytes(members);
            let name = member_name(members[0].1->Object_0);
            let value = quoted(members[0].1->Object_1);
            &&& bytes::first_occurrence(s, name, at)
            &&& at + name.len() + value.len() < s.len()
            &&& s.subrange(at + name.len(), at + name.len() + value.len()) == value
            &&& record_safe(members[0].1->Object_1)
        }),
{
    let s = record_bytes(members);
    let outer = members[0].0;
    let m = outer.len() as int;
    let key = members[0].1->Object_0;
    let v = members[0].1->Object_1;
    let name = member_name(key);
    let value = quoted(v);
    let head = member_name(outer) + value_bytes(members[0].1);
    let at = m + 5;
    let body = members_bytes(members);
    assert(body.take(head.len() as int) =~= head);
    assert forall|x: int| 0 <= x < head.len() implies #[trigger] s[1 + x] == head[x] by {
        assert(body.take(head.len() as int)[x] == body[x]);
    }
    assert(introduces(members[0].1, key));
    assert(outer != key) by {
        assert(!introduces(members[0].1, members[0].0));
    }
    assert(s.subrange(at, at + name.len()) =~= name) by {
        assert forall|x: int| 0 <= x < name.len() implies s[at + x] == name[x] by {
            assert(s[1 + (m + 4 + x)] == head[m + 4 + x]);
        }
    }
    assert(s.subrange(at + name.len(), at + name.len() + value.len()) =~= value) by {
        assert forall|x: int| 0 <= x < value.len() implies s[at + name.len() + x] == value[x] by {
            assert(s[1 + (m + 4 + name.len() + x)] == head[m + 4 + name.len() + x]);
        }
    }
    let after = s.skip(1);
    assert(after.take(m + 3) =~= member_name(outer)) by {
        assert forall|x: int| 0 <= x < m + 3 implies after[x] == member_name(outer)[x] by {
            assert(head[x] == member_name(outer)[x]);
            assert(s[1 + x] == head[x]);
        }
    }
    assert(head[m + 3] == 123 && s[1 + (m + 3)] == head[m + 3]);
    assert forall|j: int| 0 <= j < at implies !#[trigger] bytes::occurs_at(s, name, j) by {
        if bytes::occurs_at(s, name, j) {
            lemma_name_occurs(s, key, j);
            if 1 <= j < m + 4 {
                assert(after.subrange(j - 1, j - 1 + name.len()) =~= s.subrange(
                    j,
                    j + name.len(),
                ));
                lemma_other_name(after, outer, key, j - 1);
            }
        }
    }
    assert(bytes::first_occurrence(s, name, at));
    assert(s.len() == body.len() + 2);
    assert(plain_value(members[0].1));
    at
}

/// A record with more behind its members: nothing, or what a comma begins.
pub open spec fn record_with(members: Seq<(Seq<u8>, Value)>, more: Seq<u8>) -> Seq<u8> {
    seq![123u8] + members_bytes(members) + more + seq![125u8]
}

/// What first stands in a record first stands there whatever follows the members.
proof fn lemma_found_before(
    members: Seq<(Seq<u8>, Value)>,
    more: Seq<u8>,
    name: Seq<u8>,
    value: Seq<u8>,
    at: int,
)
    requires
        more.len() > 0 ==> more[0] == 44,
        bytes::first_occurrence(record_bytes(members), name, at),
        at + name.len() + value.len() < record_bytes(members).len(),
        record_bytes(members).subrange(at + name.len(), at + name.len() + value.len()) == value,
    ensures
        ({
            let s = record_bytes(members);
            let long = record_with(members, more);
            let end = at + name.len() + value.len();
            &&& bytes::first_occurrence(long, name, at)
            &&& end < long.len()
            &&& long.subrange(at + name.len(), end) == value
            &&& long[end] == 44 || long[end] == s[end]
        }),
{
    let s = record_bytes(members);
    let long = record_with(members, more);
    let n = s.len() - 1;
    let end = at + name.len() + value.len();
    assert forall|x: int| 0 <= x < n implies #[trigger] long[x] == s[x] by {}
    assert(long.subrange(at, at + name.len()) =~= s.subrange(at, at + name.len()));
    assert(long.subrange(at + name.len(), end) =~= s.subrange(at + name.len(), end));
    assert forall|j: int| 0 <= j < at implies !#[trigger] bytes::occurs_at(long, name, j) by {
        if bytes::occurs_at(long, name, j) {
            assert(s.subrange(j, j + name.len()) =~= long.subrange(j, j + name.len()));
            assert(bytes::occurs_at(s, name, j));
        }
    }
}

/// A string member of a readable record reads back, whatever follows the members.
pub proof fn text_reads_back_before(members: Seq<(Seq<u8>, Value)>, more: Seq<u8>, i: int)
    requires
        readable(members),
        more.len() > 0 ==> more[0] == 44,
        0 <= i < members.len(),
        members[i].1 is Text,
    ensures
        text_claim(record_with(members, more), members[i].0) == Some(members[i].1->Text_0),
{
    let at = lemma_record_found(members, i);
    let v = members[i].1->Text_0;
    assert(plain_value(members[i].1));
    lemma_found_before(members, more, member_name(members[i].0), quoted(v), at);
    lemma_text_at(record_with(members, more), members[i].0, v, at);
}

/// A number member of a readable record reads back, whatever follows the members.
pub proof fn number_reads_back_before(members: Seq<(Seq<u8>, Value)>, more: Seq<u8>, i: int)
    requires
        readable(members),
        more.len() > 0 ==> more[0] == 44,
        0 <= i < members.len(),
        members[i].1 is Number,
        members[i].1->Number_0 <= u64::MAX,
    ensures
        number_claim(record_with(members, more), members[i].0) == Some(
            members[i].1->Number_0 as u64,
        ),
{
    let at = lemma_record_found(members, i);
    let n = members[i].1->Number_0;
    lemma_found_before(members, more, member_name(members[i].0), bytes::decimal(n), at);
    lemma_number_at(record_with(members, more), members[i].0, n, at);
}

/// The string in an object that comes first in a readable record reads back, whatever follows
/// the members.
pub proof fn object_reads_back_before(members: Seq<(Seq<u8>, Value)>, more: Seq<u8>)
    requires
        readable(members),
        more.len() > 0 ==> more[0] == 44,
        members.len() > 0,
        members[0].1 is Object,
    ensures
        ({
            let inner = members[0].1;
            text_claim(record_with(members, more), inner->Object_0) == Some(inner->Object_1)
        }),
{
    let at = lemma_object_found(members);
    let v = members[0].1->Object_1;
    lemma_found_before(members, more, member_name(members[0].1->Object_0), quoted(v), at);
    lemma_text_at(record_with(members, more), members[0].1->Object_0, v, at);
}

proof fn lemma_no_member(members: Seq<(Seq<u8>, Value)>, key: Seq<u8>, j: int)
    requires
        readable(members),
        plain_name(key),
        forall|i: int| 0 <= i < members.len() ==> names_apart(#[trigger] members[i], key),
    ensures
        !bytes::occurs_at(members_bytes(members) + seq![125u8], member_name(key), j),
    decreases members.len(),
{
    let s = members_bytes(members) + seq![125u8];
    let name = member_name(key);
    if bytes::occurs_at(s, name, j) {
        if members.len() == 0 {
            assert(s.len() == 1);
        } else {
            let head = member_name(members[0].0) + value_bytes(members[0].1);
            let rest = members.skip(1);
            assert(s.take(head.len() as int) =~= head);
            assert(names_apart(members[0], key));
            if j <= head.len() {
                lemma_other_member(s, members[0].0, members[0].1, key, j);
            } else if members.len() == 1 {
                assert(s.len() == head.len() + 1);
            } else {
                let shift = head.len() as int + 1;
                lemma_readable_tail(members);
                assert forall|i: int| 0 <= i < rest.len() implies names_apart(
                    #[trigger] rest[i],
                    key,
                ) by {
                    assert(rest[i] == members[i + 1]);
                }
                let s2 = members_bytes(rest) + seq![125u8];
                assert(s =~= head + seq![44u8] + s2);
                assert(s2.subrange(j - shift, j - shift + name.len()) =~= s.subrange(
                    j,
                    j + name.len(),
                ));
                assert(bytes::occurs_at(s2, name, j - shift));
                lemma_no_member(rest, key, j - shift);
            }
        }
    }
}

/// No value of a readable record can introduce a member: a name that no member has reads as
/// absent, as a string, as a number and as a list.
pub proof fn absent_reads_absent(members: Seq<(Seq<u8>, Value)>, key: Seq<u8>)
    requires
        readable(members),
        plain_name(key),
        forall|i: int| 0 <= i < members.len() ==> names_apart(#[trigger] members[i], key),
    ensures
        text_claim(record_bytes(members), key) is None,
        number_claim(record_bytes(members), key) is None,
        array_claim(record_bytes(members), key) is None,
{
    let s = record_bytes(members);
    let s2 = members_bytes(members) + seq![125u8];
    let name = member_name(key);
    assert(s =~= seq![123u8] + s2);
    assert forall|j: int| !#[trigger] bytes::occurs_at(s, name, j) by {
        if bytes::occurs_at(s, name, j) {
            lemma_occurrence(s, name, j);
            assert(name[0] == 34);
            assert(j != 0);
            assert(s2.subrange(j - 1, j - 1 + name.len()) =~= s.subrange(j, j + name.len()));
            lemma_no_member(members, key, j - 1);
        }
    }
    assert forall|b: u8, j: int| !#[trigger] bytes::occurs_at(s, name.push(b), j) by {
        let long = name.push(b);
        if bytes::occurs_at(s, long, j) {
            assert(s.subrange(j, j + name.len()) =~= s.subrange(j, j + long.len()).take(
                name.len() as int,
            ));
            assert(long.take(name.len() as int) =~= name);
            assert(bytes::occurs_at(s, name, j));
        }
    }
}

/// An object that comes first in a readable record is no string: its name reads as absent there.
#[verifier::rlimit(60)]
pub proof fn object_reads_as_no_text(members: Seq<(Seq<u8>, Value)>)
    requires
        readable(members),
        members.len() > 0,
        members[0].1 is Object,
    ensures
        text_claim(record_bytes(members), members[0].0) is None,
{
    let s = record_bytes(members);
    let s2 = members_bytes(members) + seq![125u8];
    let key = members[0].0;
    let inner = members[0].1->Object_0;
    let text = members[0].1->Object_1;
    let name = member_name(key);
    let m = key.len() as int;
    let head = name + value_bytes(members[0].1);
    assert(s =~= seq![123u8] + s2);
    assert(s2.take(head.len() as int) =~= head);
    assert(head.len() == m + inner.len() + text.len() + 10);
    assert forall|x: int| 0 <= x < head.len() implies #[trigger] s2[x] == head[x] by {
        assert(s2.take(head.len() as int)[x] == s2[x]);
    }
    assert(plain_name(key) && plain_value(members[0].1));
    assert(inner != key) by {
        assert(!introduces(members[0].1, members[0].0));
    }
    assert(s2.take(m + 3) =~= name);
    assert(s2.subrange(m + 3, head.len() as int) =~= value_bytes(members[0].1));
    assert(head[m + 3] == 123);
    let long = name.push(34);
    assert forall|j: int| !#[trigger] bytes::occurs_at(s, long, j) by {
        if bytes::occurs_at(s, long, j) {
            lemma_occurrence(s, long, j);
            assert(long[m + 3] == 34 && long[0] == 34);
            let k = j - 1;
            assert(s[j + 0] == long[0]);
            assert(k >= 0);
            assert(s[j + (m + 3)] == long[m + 3]);
            assert(s2[k + m + 3] == 34 && s2[k] == 34);
            assert(s2.subrange(k, k + name.len()) =~= s.subrange(j, j + long.len()).take(
                name.len() as int,
            ));
            assert(long.take(name.len() as int) =~= name);
            assert(bytes::occurs_at(s2, name, k));
            if k == 0 {
                assert(s2[m + 3] == head[m + 3]);
            } else if k < m + 3 {
                lemma_other_name(s2, key, key, k);
            } else if k < head.len() {
                lemma_other_object(s2, m + 3, inner, text, key, k);
            } else if members.len() > 1 && k > head.len() {
                let rest = members.skip(1);
                let shift = head.len() as int + 1;
                lemma_readable_tail(members);
                assert forall|i: int| 0 <= i < rest.len() implies names_apart(
                    #[trigger] rest[i],
                    key,
                ) by {
                    assert(rest[i] == members[i + 1]);
                }
                let s3 = members_bytes(rest) + seq![125u8];
                assert(s2 =~= head + seq![44u8] + s3);
                assert(s3.subrange(k - shift, k - shift + name.len()) =~= s2.subrange(
                    k,
                    k + name.len(),
                ));
                assert(bytes::occurs_at(s3, name, k - shift));
                lemma_no_member(rest, key, k - shift);
            }
        }
    }
}

/// The members among `slots` that are there.
pub open spec fn present(slots: Seq<Option<(Seq<u8>, Value)>>) -> Seq<(Seq<u8>, Value)>
    decreases slots.len(),
{
    if slots.len() == 0 {
        Seq::empty()
    } else {
        match slots.last() {
            Some(member) => present(slots.drop_last()).push(member),
            None => present(slots.drop_last()),
        }
    }
}

/// One slot more.
pub proof fn lemma_present_step(slots: Seq<Option<(Seq<u8>, Value)>>, k: int)
    requires
        0 <= k < slots.len(),
    ensures
        present(slots.take(k + 1)) == match slots[k] {
            Some(member) => present(slots.take(k)).push(member),
            None => present(slots.take(k)),
        },
{
    assert(slots.take(k + 1).drop_last() =~= slots.take(k));
}

/// Whatever is present stands in one of the slots.
pub proof fn lemma_present_from(slots: Seq<Option<(Seq<u8>, Value)>>, j: int) -> (i: int)
    requires
        0 <= j < present(slots).len(),
    ensures
        0 <= i < slots.len(),
        slots[i] == Some(present(slots)[j]),
    decreases slots.len(),
{
    let n = slots.len() as int;
    let rest = present(slots.drop_last());
    if j < rest.len() {
        let i = lemma_present_from(slots.drop_last(), j);
        assert(slots.drop_last()[i] == slots[i]);
        i
    } else {
        n - 1
    }
}

/// A slot's member is present.
pub proof fn lemma_present_has(slots: Seq<Option<(Seq<u8>, Value)>>, i: int) -> (j: int)
    requires
        0 <= i < slots.len(),
        slots[i] is Some,
    ensures
        0 <= j < present(slots).len(),
        present(slots)[j] == slots[i]->0,
        i == 0 ==> j == 0,
    decreases slots.len(),
{
    let rest = slots.drop_last();
    if i == slots.len() - 1 {
        if i == 0 {
            assert(present(rest) =~= Seq::<(Seq<u8>, Value)>::empty());
        }
        present(rest).len() as int
    } else {
        assert(rest[i] == slots[i]);
        lemma_present_has(rest, i)
    }
}

/// The slots that are filled have plain names that differ, and plain values.
pub open spec fn readable_slots(slots: Seq<Option<(Seq<u8>, Value)>>) -> bool {
    &&& forall|i: int|
        0 <= i < slots.len() && (#[trigger] slots[i]) is Some ==> plain_name((slots[i]->0).0)
            && plain_value((slots[i]->0).1)
    &&& forall|i: int, j: int|
        0 <= i < j < slots.len() && (#[trigger] slots[i]) is Some && (#[trigger] slots[j]) is Some
            ==> (slots[i]->0).0 != (slots[j]->0).0
    &&& forall|i: int, j: int|
        0 <= i < slots.len() && 0 <= j < slots.len() && (#[trigger] slots[i]) is Some && (
        #[trigger] slots[j]) is Some ==> !introduces((slots[i]->0).1, (slots[j]->0).0)
}

/// What is present of readable slots is readable.
pub proof fn lemma_present_readable(slots: Seq<Option<(Seq<u8>, Value)>>)
    requires
        readable_slots(slots),
    ensures
        readable(present(slots)),
    decreases slots.len(),
{
    let all = present(slots);
    if slots.len() > 0 {
        let rest = slots.drop_last();
        assert forall|i: int| 0 <= i < rest.len() implies #[trigger] rest[i] == slots[i] by {}
        assert(readable_slots(rest));
        lemma_present_readable(rest);
        let last = slots.len() as int - 1;
        if slots[last] is Some {
            assert(all == present(rest).push(slots[last]->0));
            assert forall|i: int, j: int| 0 <= i < j < all.len() implies (#[trigger] all[i]).0 != (
            #[trigger] all[j]).0 by {
                if j == all.len() - 1 {
                    let k = lemma_present_from(rest, i);
                    assert(slots[k] is Some);
                } else {
                    assert(all[i] == present(rest)[i] && all[j] == present(rest)[j]);
                }
            }
        }
    }
    assert forall|i: int| 0 <= i < all.len() implies plain_name(#[trigger] all[i].0) && plain_value(
        all[i].1,
    ) by {
        let k = lemma_present_from(slots, i);
        assert(slots[k] is Some);
    }
    assert forall|i: int, j: int| 0 <= i < all.len() && 0 <= j < all.len() implies !introduces(
        (#[trigger] all[i]).1,
        (#[trigger] all[j]).0,
    ) by {
        let k = lemma_present_from(slots, i);
        let l = lemma_present_from(slots, j);
        assert(slots[k] is Some && slots[l] is Some);
    }
}

/// A record while it is written.
pub struct RecordWriter {
    pub out: Vec<u8>,
    pub members: Ghost<Seq<(Seq<u8>, Value)>>,
}

/// The last member of a record stands behind the others.
pub proof fn lemma_members_push(members: Seq<(Seq<u8>, Value)>, m: (Seq<u8>, Value))
    ensures
        members_bytes(members.push(m)) == members_bytes(members) + (if members.len() == 0 {
            Seq::empty()
        } else {
            seq![44u8]
        }) + (member_name(m.0) + value_bytes(m.1)),
    decreases members.len(),
{
    let more = members.push(m);
    let last = member_name(m.0) + value_bytes(m.1);
    if members.len() == 0 {
        assert(members_bytes(more) =~= Seq::<u8>::empty() + Seq::<u8>::empty() + last);
    } else {
        let rest = members.skip(1);
        lemma_members_push(rest, m);
        assert(more.skip(1) =~= rest.push(m));
        let head = member_name(members[0].0) + value_bytes(members[0].1);
        if rest.len() == 0 {
            assert(members_bytes(rest.push(m)) =~= last);
            assert(members_bytes(members) == head);
        }
        assert(members_bytes(more) =~= members_bytes(members) + seq![44u8] + last);
    }
}

impl RecordWriter {
    /// What was written is the opening brace and the members.
    pub open spec fn wf(self) -> bool {
        self.out@ == seq![123u8] + members_bytes(self.members@)
    }

    pub fn new() -> (r: Self)
        ensures
            r.wf(),
            r.members@ == Seq::<(Seq<u8>, Value)>::empty(),
    {
        let mut out: Vec<u8> = Vec::new();
        out.push(123);
        let members: Ghost<Seq<(Seq<u8>, Value)>> = Ghost(Seq::empty());
        assert(out@ =~= seq![123u8] + members_bytes(members@));
        RecordWriter { out, members }
    }

    fn name(&mut self, key: &[u8])
        requires
            old(self).wf(),
        ensures
            final(self).members == old(self).members,
            final(self).out@ == old(self).out@ + (if old(self).members@.len() == 0 {
                Seq::empty()
            } else {
                seq![44u8]
            }) + member_name(key@),
    {
        let ghost start = self.out@;
        if self.out.len() > 1 {
            proof {
                if self.members@.len() == 0 {
                    assert(members_bytes(self.members@).len() == 0);
                }
            }
            self.out.push(44);
        } else {
            proof {
                if self.members@.len() > 0 {
                    assert(members_bytes(self.members@).len() > 0);
                }
            }
        }
        let none: [u8; 0] = [];
        let name = name_needle(key, none.as_slice());
        assert(name@ =~= member_name(key@));
        append(&mut self.out, name.as_slice());
        assert(self.out@ =~= start + (if self.members@.len() == 0 {
            Seq::empty()
        } else {
            seq![44u8]
        }) + member_name(key@));
    }

    /// One more member, a string.
    pub fn text(&mut self, key: &str, value: &[u8])
        requires
            old(self).wf(),
        ensures
            final(self).wf(),
            final(self).members@ == old(self).members@.push((bytes::text(key), Value::Text(value@))),
    {
        let ghost before = self.members@;
        self.name(key.as_bytes());
        let ghost named = self.out@;
        self.out.push(34);
        append(&mut self.out, value);
        self.out.push(34);
        self.members = Ghost(before.push((bytes::text(key), Value::Text(value@))));
        proof {
            lemma_members_push(before, (bytes::text(key), Value::Text(value@)));
        }
        assert(self.out@ =~= named + quoted(value@));
        assert(self.out@ =~= seq![123u8] + members_bytes(self.members@));
    }

    /// One more member, a number.
    pub fn number(&mut self, key: &str, value: u64)
        requires
            old(self).wf(),
        ensures
            final(self).wf(),
            final(self).members@ == old(self).members@.push(
                (bytes::text(key), Value::Number(value as nat)),
            ),
    {
        let ghost before = self.members@;
        self.name(key.as_bytes());
        let digits = bytes::u64_dec(value);
        append(&mut self.out, digits.as_slice());
        self.members = Ghost(before.push((bytes::text(key), Value::Number(value as nat))));
        proof {
            lemma_members_push(before, (bytes::text(key), Value::Number(value as nat)));
        }
        assert(self.out@ =~= seq![123u8] + members_bytes(self.members@));
    }

    /// One more member, a list, by what stands between its brackets.
    pub fn list(&mut self, key: &str, inner: &[u8])
        requires
            old(self).wf(),
        ensures
            final(self).wf(),
            final(self).members@ == old(self).members@.push((bytes::text(key), Value::List(inner@))),
    {
        let ghost before = self.members@;
        self.name(key.as_bytes());
        let ghost named = self.out@;
        self.out.push(91);
        append(&mut self.out, inner);
        self.out.push(93);
        self.members = Ghost(before.push((bytes::text(key), Value::List(inner@))));
        proof {
            lemma_members_push(before, (bytes::text(key), Value::List(inner@)));
        }
        assert(self.out@ =~= named + value_bytes(Value::List(inner@)));
        assert(self.out@ =~= seq![123u8] + members_bytes(self.members@));
    }

    /// One more member, an object with one string member.
    pub fn object(&mut self, key: &str, inner: &str, text: &[u8])
        requires
            old(self).wf(),
        ensures
            final(self).wf(),
            final(self).members@ == old(self).members@.push(
                (bytes::text(key), Value::Object(bytes::text(inner), text@)),
            ),
    {
        let ghost before = self.members@;
        let ghost value = Value::Object(bytes::text(inner), text@);
        self.name(key.as_bytes());
        let ghost named = self.out@;
        self.out.push(123);
        let quote: [u8; 1] = [34];
        let own = name_needle(inner.as_bytes(), quote.as_slice());
        append(&mut self.out, own.as_slice());
        append(&mut self.out, text);
        self.out.push(34);
        self.out.push(125);
        self.members = Ghost(before.push((bytes::text(key), value)));
        proof {
            lemma_members_push(before, (bytes::text(key), value));
        }
        assert(self.out@ =~= named + value_bytes(value));
        assert(self.out@ =~= seq![123u8] + members_bytes(self.members@));
    }

    /// The record.
    pub fn close(self) -> (r: Vec<u8>)
        requires
            self.wf(),
        ensures
            r@ == record_bytes(self.members@),
    {
        let mut out = self.out;
        out.push(125);
        assert(out@ =~= record_bytes(self.members@));
        out
    }

    /// The record, unless it is longer than `limit`.
    pub fn finish(self, limit: usize) -> (r: Option<Vec<u8>>)
        requires
            self.wf(),
        ensures
            match r {
                Some(record) => record@ == record_bytes(self.members@) && record@.len() <= limit,
                None => record_bytes(self.members@).len() > limit,
            },
    {
        let out = self.close();
        if out.len() > limit {
            return None;
        }
        Some(out)
    }
}

/// What becomes of `s` when `value` is put behind it between quotes, within `limit` bytes: nothing
/// where it is not safe, and as much of quote, value and quote as fits where it is.
pub open spec fn with_quoted(s: Seq<u8>, limit: nat, value: Seq<u8>) -> Seq<u8> {
    if !record_safe(value) || s.len() + 1 > limit {
        s
    } else if s.len() + 1 + value.len() > limit {
        s + seq![34u8]
    } else if s.len() + 2 + value.len() > limit {
        s + seq![34u8] + value
    } else {
        s + quoted(value)
    }
}

/// Append `value` between quotes. A value that could end its own string is refused, since it could
/// introduce a member.
pub fn put_json_string(out: &mut Vec<u8>, limit: usize, value: &[u8]) -> (r: Option<()>)
    ensures
        r is Some <==> record_safe(value@) && old(out)@.len() + 2 + value@.len() <= limit,
        final(out)@ == with_quoted(old(out)@, limit as nat, value@),
        old(out)@.len() <= limit ==> final(out)@.len() <= limit,
{
    if !json_safe(value) {
        return None;
    }
    let ghost start = out@;
    let quote: [u8; 1] = [34];
    assert(quote@ =~= seq![34u8]);
    if bytes::put(out, limit, quote.as_slice()).is_none() {
        return None;
    }
    if bytes::put(out, limit, value).is_none() {
        return None;
    }
    if bytes::put(out, limit, quote.as_slice()).is_none() {
        return None;
    }
    assert(out@ =~= start + quoted(value@));
    Some(())
}

/// `{"field":"value"}`, as far as its pieces fit `limit` bytes.
pub open spec fn field_object(limit: nat, field: Seq<u8>, value: Seq<u8>) -> Seq<u8> {
    let a = bytes::appended(Seq::empty(), limit, seq![123u8]);
    let b = with_quoted(a, limit, field);
    let c = bytes::appended(b, limit, seq![58u8]);
    let d = with_quoted(c, limit, value);
    bytes::appended(d, limit, seq![125u8])
}

/// Write an object with one string member.
pub fn write_json_field(limit: usize, field: &[u8], value: &[u8]) -> (r: Vec<u8>)
    ensures
        r@ == field_object(limit as nat, field@, value@),
{
    let open: [u8; 1] = [123];
    let colon: [u8; 1] = [58];
    let close: [u8; 1] = [125];
    assert(open@ =~= seq![123u8]);
    assert(colon@ =~= seq![58u8]);
    assert(close@ =~= seq![125u8]);
    let mut out: Vec<u8> = Vec::new();
    assert(out@ =~= Seq::<u8>::empty());
    let _ = bytes::put(&mut out, limit, open.as_slice());
    let _ = put_json_string(&mut out, limit, field);
    let _ = bytes::put(&mut out, limit, colon.as_slice());
    let _ = put_json_string(&mut out, limit, value);
    let _ = bytes::put(&mut out, limit, close.as_slice());
    out
}

/// An object with one string member is a record, where its name and its value are safe and there
/// is room for it.
pub proof fn field_object_is_a_record(limit: nat, field: Seq<u8>, value: Seq<u8>)
    requires
        record_safe(field),
        record_safe(value),
        field.len() + value.len() + 7 <= limit,
    ensures
        field_object(limit, field, value) == record_bytes(seq![(field, Value::Text(value))]),
{
    let members: Seq<(Seq<u8>, Value)> = seq![(field, Value::Text(value))];
    assert(members_bytes(members) == member_name(field) + quoted(value));
    assert(field_object(limit, field, value) =~= record_bytes(members));
}

/// Words in quotes, with commas between them.
pub open spec fn words_text(words: Seq<Seq<u8>>) -> Seq<u8>
    decreases words.len(),
{
    if words.len() == 0 {
        Seq::empty()
    } else if words.len() == 1 {
        seq![34u8] + words[0] + seq![34u8]
    } else {
        seq![34u8] + words[0] + seq![34u8, 44u8] + words_text(words.skip(1))
    }
}

/// A list of words reads back as the words, all of them and in their order.
pub proof fn every_word_is_read(words: Seq<Seq<u8>>)
    requires
        forall|k: int, i: int|
            0 <= k < words.len() && 0 <= i < words[k].len() ==> #[trigger] words[k][i] != 34,
    ensures
        quoted_items(seq![91u8] + words_text(words) + seq![93u8]) == words,
{
    lemma_words(seq![91u8], words, seq![93u8]);
}

proof fn lemma_words(before: Seq<u8>, words: Seq<Seq<u8>>, after: Seq<u8>)
    requires
        forall|k: int, i: int|
            0 <= k < words.len() && 0 <= i < words[k].len() ==> #[trigger] words[k][i] != 34,
        forall|i: int| 0 <= i < before.len() ==> #[trigger] before[i] != 34,
        forall|i: int| 0 <= i < after.len() ==> #[trigger] after[i] != 34,
    ensures
        quoted_items(before + words_text(words) + after) == words,
    decreases words.len(),
{
    let s = before + words_text(words) + after;
    if words.len() == 0 {
        bytes::lemma_position_of(s, 34);
        if bytes::position_of(s, 34) < s.len() {
            let i = bytes::position_of(s, 34) as int;
            if i < before.len() {
                assert(s[i] == before[i]);
            } else {
                assert(s[i] == after[i - before.len()]);
            }
        }
        assert(words =~= Seq::<Seq<u8>>::empty());
    } else {
        let word = words[0];
        let (comma, others) = if words.len() == 1 {
            (Seq::<u8>::empty(), words.skip(1))
        } else {
            (seq![44u8], words.skip(1))
        };
        let tail = comma + words_text(others) + after;
        assert(s =~= before + seq![34u8] + word + seq![34u8] + tail);
        let open = before.len() as int;
        assert(s[open] == 34);
        assert forall|j: int| 0 <= j < open implies #[trigger] s[j] != 34 by {
            assert(s[j] == before[j]);
        }
        bytes::lemma_position_unique(s, 34, open);
        let rest = s.skip(open + 1);
        assert(rest =~= word + seq![34u8] + tail);
        let close = word.len() as int;
        assert(rest[close] == 34);
        assert forall|j: int| 0 <= j < close implies #[trigger] rest[j] != 34 by {
            assert(rest[j] == words[0][j]);
        }
        bytes::lemma_position_unique(rest, 34, close);
        assert(rest.take(close) =~= word);
        assert(rest.skip(close + 1) =~= tail);
        assert forall|k: int, i: int|
            0 <= k < others.len() && 0 <= i < others[k].len() implies #[trigger] others[k][i]
            != 34 by {
            assert(others[k] == words[k + 1]);
            assert(words[k + 1][i] != 34);
        }
        lemma_words(comma, others, after);
        assert(seq![word] + others =~= words);
    }
}

} // verus!
