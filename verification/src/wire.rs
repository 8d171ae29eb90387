//! The payloads of typed messages: little-endian numbers, and fields behind a length of one or
//! two bytes.
use vstd::prelude::*;
use vstd::slice::slice_subrange;

use crate::bytes;
use crate::bytes::{append, put};

verus! {

/// The little-endian `u32` at index `i`.
pub open spec fn le32(s: Seq<u8>, i: int) -> nat {
    (s[i] + 256 * s[i + 1] + 65536 * s[i + 2] + 16777216 * s[i + 3]) as nat
}

/// The four little-endian bytes of `v`.
pub open spec fn le32_bytes(v: nat) -> Seq<u8> {
    seq![
        (v % 256) as u8,
        (v / 256 % 256) as u8,
        (v / 65536 % 256) as u8,
        (v / 16777216 % 256) as u8,
    ]
}

/// The eight little-endian bytes of `v`.
pub open spec fn le64_bytes(v: nat) -> Seq<u8> {
    le32_bytes(v % 4294967296) + le32_bytes(v / 4294967296)
}

/// The little-endian `u64` at index `i`.
pub open spec fn le64(s: Seq<u8>, i: int) -> nat {
    le32(s, i) + 4294967296 * le32(s, i + 4)
}

/// The field behind a one-byte length at index `i`, where it is all there.
pub open spec fn field8(s: Seq<u8>, i: int) -> Option<Seq<u8>> {
    if 0 <= i < s.len() && i + 1 + s[i] <= s.len() {
        Some(s.subrange(i + 1, i + 1 + s[i]))
    } else {
        None
    }
}

/// The field behind a two-byte length at index `i`, where it is all there.
pub open spec fn field16(s: Seq<u8>, i: int) -> Option<Seq<u8>> {
    if 0 <= i && i + 1 < s.len() && i + 2 + crate::http::le16(s, i) <= s.len() {
        Some(s.subrange(i + 2, i + 2 + crate::http::le16(s, i)))
    } else {
        None
    }
}

/// A field and the one-byte length before it.
pub open spec fn field8_bytes(v: Seq<u8>) -> Seq<u8> {
    seq![v.len() as u8] + v
}

/// A field and the two-byte length before it.
pub open spec fn field16_bytes(v: Seq<u8>) -> Seq<u8> {
    crate::http::le16_bytes(v.len()) + v
}

/// A field that was written reads back, whatever follows it.
pub proof fn field8_reads_back(before: Seq<u8>, v: Seq<u8>, after: Seq<u8>)
    requires
        v.len() <= 255,
    ensures
        field8(before + field8_bytes(v) + after, before.len() as int) == Some(v),
{
    let s = before + field8_bytes(v) + after;
    assert(s[before.len() as int] == v.len());
    assert(s.subrange(before.len() as int + 1, before.len() as int + 1 + v.len()) =~= v);
}

/// A field that was written reads back, whatever follows it.
pub proof fn field16_reads_back(before: Seq<u8>, v: Seq<u8>, after: Seq<u8>)
    requires
        v.len() <= 65535,
    ensures
        field16(before + field16_bytes(v) + after, before.len() as int) == Some(v),
{
    let s = before + field16_bytes(v) + after;
    let n = v.len();
    assert(s[before.len() as int] == (n % 256) as u8);
    assert(s[before.len() as int + 1] == (n / 256 % 256) as u8);
    assert(n % 256 + 256 * (n / 256 % 256) == n);
    assert(s.subrange(before.len() as int + 2, before.len() as int + 2 + n) =~= v);
}

/// A number that was written reads back.
pub proof fn number_reads_back(before: Seq<u8>, v: u32, after: Seq<u8>)
    ensures
        le32(before + le32_bytes(v as nat) + after, before.len() as int) == v,
{
    let s = before + le32_bytes(v as nat) + after;
    let n = v as nat;
    let i = before.len() as int;
    assert(s[i] == (n % 256) as u8 && s[i + 1] == (n / 256 % 256) as u8);
    assert(s[i + 2] == (n / 65536 % 256) as u8 && s[i + 3] == (n / 16777216 % 256) as u8);
    assert(n % 256 + 256 * (n / 256 % 256) + 65536 * (n / 65536 % 256) + 16777216 * (n / 16777216
        % 256) == n);
}

/// A long number that was written reads back.
pub proof fn long_number_reads_back(before: Seq<u8>, v: u64, after: Seq<u8>)
    ensures
        le64(before + le64_bytes(v as nat) + after, before.len() as int) == v,
{
    let lo = (v % 4294967296) as u32;
    let hi = (v / 4294967296) as u32;
    let l = le32_bytes(lo as nat);
    let h = le32_bytes(hi as nat);
    let s = before + le64_bytes(v as nat) + after;
    assert(le64_bytes(v as nat) == l + h);
    number_reads_back(before, lo, h + after);
    assert(s =~= before + l + (h + after));
    number_reads_back(before + l, hi, after);
    assert(s =~= (before + l) + h + after);
    assert((before + l).len() == before.len() + 4);
}

pub fn read_u32(s: &[u8], i: usize) -> (r: u32)
    requires
        i + 3 < s@.len(),
    ensures
        r == le32(s@, i as int),
{
    (s[i] as u32) + 256 * (s[i + 1] as u32) + 65536 * (s[i + 2] as u32) + 16777216 * (s[i
        + 3] as u32)
}

pub fn read_u64(s: &[u8], i: usize) -> (r: u64)
    requires
        i + 7 < s@.len(),
    ensures
        r == le64(s@, i as int),
{
    let total: usize = s.len();
    assert(i + 7 < total);
    (read_u32(s, i) as u64) + 4294967296 * (read_u32(s, i + 4) as u64)
}

/// The field behind a one-byte length at index `i`.
pub fn read_field8<'a>(s: &'a [u8], i: usize) -> (r: Option<&'a [u8]>)
    ensures
        match r {
            Some(v) => field8(s@, i as int) == Some(v@) && i + 1 + v@.len() <= s@.len(),
            None => field8(s@, i as int) is None,
        },
{
    let total: usize = s.len();
    if i >= total {
        return None;
    }
    let n: usize = s[i] as usize;
    if n > total - i - 1 {
        return None;
    }
    Some(slice_subrange(s, i + 1, i + 1 + n))
}

/// The field behind a two-byte length at index `i`.
pub fn read_field16<'a>(s: &'a [u8], i: usize) -> (r: Option<&'a [u8]>)
    ensures
        match r {
            Some(v) => field16(s@, i as int) == Some(v@) && i + 2 + v@.len() <= s@.len(),
            None => field16(s@, i as int) is None,
        },
{
    let total: usize = s.len();
    if total < 2 || i >= total - 1 {
        return None;
    }
    let n: usize = crate::http::read_u16(s, i) as usize;
    if n > total - i - 2 {
        return None;
    }
    Some(slice_subrange(s, i + 2, i + 2 + n))
}

pub fn u32_bytes(v: u32) -> (r: Vec<u8>)
    ensures
        r@ == le32_bytes(v as nat),
{
    let mut out: Vec<u8> = Vec::new();
    out.push((v % 256) as u8);
    out.push((v / 256 % 256) as u8);
    out.push((v / 65536 % 256) as u8);
    out.push((v / 16777216 % 256) as u8);
    assert(out@ =~= le32_bytes(v as nat));
    out
}

pub fn u64_bytes(v: u64) -> (r: Vec<u8>)
    ensures
        r@ == le64_bytes(v as nat),
{
    let mut out = u32_bytes((v % 4294967296) as u32);
    let high = u32_bytes((v / 4294967296) as u32);
    append(&mut out, high.as_slice());
    out
}

/// The first four bytes of a payload, which say what a reply answers.
pub fn correlation(payload: &[u8]) -> (r: Option<u32>)
    ensures
        match r {
            Some(c) => payload@.len() >= 4 && c == le32(payload@, 0),
            None => payload@.len() < 4,
        },
{
    if payload.len() < 4 {
        None
    } else {
        Some(read_u32(payload, 0))
    }
}

/// Append a field behind a one-byte length, unless it is too long for one or `out` would grow
/// past `limit`.
pub fn put_field8(out: &mut Vec<u8>, limit: usize, v: &[u8]) -> (r: Option<()>)
    ensures
        r is Some <==> v@.len() <= 255 && old(out)@.len() + 1 + v@.len() <= limit,
        final(out)@ == if r is Some {
            old(out)@ + field8_bytes(v@)
        } else {
            old(out)@
        },
{
    if v.len() > 255 || out.len() > limit || limit - out.len() < 1 + v.len() {
        return None;
    }
    let ghost start = out@;
    out.push(v.len() as u8);
    append(out, v);
    assert(out@ =~= start + field8_bytes(v@));
    Some(())
}

/// Append a field behind a two-byte length, unless it is too long for one or `out` would grow
/// past `limit`.
pub fn put_field16(out: &mut Vec<u8>, limit: usize, v: &[u8]) -> (r: Option<()>)
    ensures
        r is Some <==> v@.len() <= 65535 && old(out)@.len() + 2 + v@.len() <= limit,
        final(out)@ == if r is Some {
            old(out)@ + field16_bytes(v@)
        } else {
            old(out)@
        },
{
    if v.len() > 65535 || out.len() > limit || limit - out.len() < 2 + v.len() {
        return None;
    }
    let ghost start = out@;
    out.push((v.len() % 256) as u8);
    out.push((v.len() / 256) as u8);
    append(out, v);
    assert(out@ =~= start + field16_bytes(v@));
    Some(())
}

/// Append a little-endian `u32`, unless `out` would grow past `limit`.
pub fn put_u32_le(out: &mut Vec<u8>, limit: usize, v: u32) -> (r: Option<()>)
    ensures
        r is Some <==> old(out)@.len() + 4 <= limit,
        final(out)@ == bytes::appended(old(out)@, limit as nat, le32_bytes(v as nat)),
{
    let piece = u32_bytes(v);
    put(out, limit, piece.as_slice())
}

/// Numbers are written with their lowest byte first, and a field behind its length.
pub proof fn low_bytes_come_first(v: u64, n: u32, field: Seq<u8>)
    ensures
        le32_bytes(n as nat).len() == 4,
        le32_bytes(n as nat)[0] == n % 256,
        le32_bytes(n as nat)[1] == n / 256 % 256,
        le32_bytes(n as nat)[2] == n / 65536 % 256,
        le32_bytes(n as nat)[3] == n / 16777216,
        le64_bytes(v as nat).len() == 8,
        le64_bytes(v as nat)[0] == v % 256,
        le64_bytes(v as nat)[7] == v / 72057594037927936,
        field.len() <= 255 ==> field8_bytes(field).len() == field.len() + 1 && field8_bytes(
            field,
        )[0] == field.len() && field8_bytes(field).skip(1) == field,
        field.len() <= 65535 ==> field16_bytes(field).len() == field.len() + 2 && field16_bytes(
            field,
        )[0] == field.len() % 256 && field16_bytes(field)[1] == field.len() / 256
            && field16_bytes(field).skip(2) == field,
{
    let w = v as nat;
    assert(w % 4294967296 % 256 == w % 256);
    assert(w / 4294967296 / 16777216 % 256 == w / 72057594037927936);
    assert(field8_bytes(field).skip(1) =~= field);
    assert(field16_bytes(field).skip(2) =~= field);
}

} // verus!
