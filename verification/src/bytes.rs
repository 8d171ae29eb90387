//! Byte strings: comparison, searching, trimming and decimal numerals.
use vstd::prelude::*;
use vstd::slice::slice_subrange;
use vstd::string::*;

verus! {

/// The bytes of a string literal.
pub open spec fn text(s: &str) -> Seq<u8> {
    s.spec_bytes()
}

/// `needle` stands in `s` at index `i`.
pub open spec fn occurs_at(s: Seq<u8>, needle: Seq<u8>, i: int) -> bool {
    0 <= i && i + needle.len() <= s.len() && s.subrange(i, i + needle.len()) == needle
}

/// `i` is the first index at which `needle` stands in `s`.
pub open spec fn first_occurrence(s: Seq<u8>, needle: Seq<u8>, i: int) -> bool {
    occurs_at(s, needle, i) && forall|j: int| 0 <= j < i ==> !#[trigger] occurs_at(s, needle, j)
}

pub open spec fn occurs(s: Seq<u8>, needle: Seq<u8>) -> bool {
    exists|i: int| #[trigger] occurs_at(s, needle, i)
}

pub open spec fn has_prefix(s: Seq<u8>, p: Seq<u8>) -> bool {
    p.len() <= s.len() && s.take(p.len() as int) == p
}

/// The index of the first `b` in `s`, or the length of `s` where it holds none.
pub open spec fn position_of(s: Seq<u8>, b: u8) -> nat
    decreases s.len(),
{
    if s.len() == 0 {
        0
    } else if s[0] == b {
        0
    } else {
        1 + position_of(s.skip(1), b)
    }
}

/// The longest prefix of `s` that is at most `n` long.
pub open spec fn clipped(s: Seq<u8>, n: nat) -> Seq<u8> {
    if s.len() <= n {
        s
    } else {
        s.take(n as int)
    }
}

/// `s` where it is at most `n` long, nothing where it is longer.
pub open spec fn fitting(s: Seq<u8>, n: nat) -> Seq<u8> {
    if s.len() <= n {
        s
    } else {
        Seq::empty()
    }
}

pub open spec fn lower(b: u8) -> u8 {
    if 65 <= b <= 90 {
        (b + 32) as u8
    } else {
        b
    }
}

/// Equality up to the case of ASCII letters.
pub open spec fn same_letters(a: Seq<u8>, b: Seq<u8>) -> bool {
    a.len() == b.len() && forall|i: int| 0 <= i < a.len() ==> lower(#[trigger] a[i]) == lower(b[i])
}

/// Space, tab, line feed, form feed or carriage return.
pub open spec fn is_space(b: u8) -> bool {
    b == 32 || b == 9 || b == 10 || b == 12 || b == 13
}

pub open spec fn trim_front(s: Seq<u8>) -> Seq<u8>
    decreases s.len(),
{
    if s.len() > 0 && is_space(s[0]) {
        trim_front(s.skip(1))
    } else {
        s
    }
}

pub open spec fn trim_back(s: Seq<u8>) -> Seq<u8>
    decreases s.len(),
{
    if s.len() > 0 && is_space(s.last()) {
        trim_back(s.drop_last())
    } else {
        s
    }
}

/// `s` without the white space at its two ends.
pub open spec fn trimmed(s: Seq<u8>) -> Seq<u8> {
    trim_back(trim_front(s))
}

/// What [`position_of`] says: the byte at that index is the first of its kind.
pub proof fn lemma_position_of(s: Seq<u8>, b: u8)
    ensures
        position_of(s, b) <= s.len(),
        position_of(s, b) < s.len() ==> s[position_of(s, b) as int] == b,
        forall|j: int| 0 <= j < position_of(s, b) ==> #[trigger] s[j] != b,
    decreases s.len(),
{
    if s.len() > 0 && s[0] != b {
        lemma_position_of(s.skip(1), b);
        assert forall|j: int| 0 <= j < position_of(s, b) implies #[trigger] s[j] != b by {
            if j > 0 {
                assert(s.skip(1)[j - 1] == s[j]);
            }
        }
        if position_of(s, b) < s.len() {
            assert(s.skip(1)[position_of(s, b) - 1] == s[position_of(s, b) as int]);
        }
    }
}

/// An index with the properties of [`position_of`] is that index.
pub proof fn lemma_position_unique(s: Seq<u8>, b: u8, i: int)
    requires
        0 <= i <= s.len(),
        i < s.len() ==> s[i] == b,
        forall|j: int| 0 <= j < i ==> #[trigger] s[j] != b,
    ensures
        position_of(s, b) == i,
{
    lemma_position_of(s, b);
    if position_of(s, b) < i {
        assert(s[position_of(s, b) as int] != b);
    } else if i < position_of(s, b) {
        assert(s[i] != b);
    }
}

/// Two first occurrences are one.
pub proof fn lemma_first_unique(s: Seq<u8>, needle: Seq<u8>, i: int, j: int)
    requires
        first_occurrence(s, needle, i),
        first_occurrence(s, needle, j),
    ensures
        i == j,
{
    if i < j {
        assert(!occurs_at(s, needle, i));
    } else if j < i {
        assert(!occurs_at(s, needle, j));
    }
}

pub fn bytes_equal(a: &[u8], b: &[u8]) -> (r: bool)
    ensures
        r == (a@ == b@),
{
    if a.len() != b.len() {
        return false;
    }
    let mut i: usize = 0;
    while i < a.len()
        invariant
            i <= a@.len(),
            a@.len() == b@.len(),
            forall|j: int| 0 <= j < i ==> a@[j] == b@[j],
        decreases a@.len() - i,
    {
        if a[i] != b[i] {
            return false;
        }
        i = i + 1;
    }
    assert(a@ =~= b@);
    true
}

/// Whether `path` begins with `prefix`.
pub fn starts_with(path: &[u8], prefix: &[u8]) -> (r: bool)
    ensures
        r == has_prefix(path@, prefix@),
{
    if path.len() < prefix.len() {
        return false;
    }
    bytes_equal(slice_subrange(path, 0, prefix.len()), prefix)
}

pub fn position(s: &[u8], b: u8) -> (r: usize)
    ensures
        r == position_of(s@, b),
        r <= s@.len(),
        r < s@.len() ==> s@[r as int] == b,
{
    let mut i: usize = 0;
    while i < s.len() && s[i] != b
        invariant
            i <= s@.len(),
            forall|j: int| 0 <= j < i ==> s@[j] != b,
        decreases s@.len() - i,
    {
        i = i + 1;
    }
    proof {
        lemma_position_unique(s@, b, i as int);
    }
    i
}

/// The first index of `needle` in `haystack`.
pub fn find(haystack: &[u8], needle: &[u8]) -> (r: Option<usize>)
    ensures
        match r {
            Some(i) => first_occurrence(haystack@, needle@, i as int),
            None => !occurs(haystack@, needle@),
        },
{
    if needle.len() > haystack.len() {
        return None;
    }
    let width: usize = needle.len();
    let last: usize = haystack.len() - width;
    let mut i: usize = 0;
    while i <= last
        invariant
            i <= last + 1,
            width == needle@.len(),
            last + width == haystack@.len(),
            last + width <= usize::MAX,
            forall|j: int| 0 <= j < i ==> !#[trigger] occurs_at(haystack@, needle@, j),
        decreases last + 1 - i,
    {
        if bytes_equal(slice_subrange(haystack, i, i + width), needle) {
            return Some(i);
        }
        assert(!occurs_at(haystack@, needle@, i as int));
        if i == last {
            return None;
        }
        i = i + 1;
    }
    None
}

/// A copy of `src`, cut at `limit` bytes.
pub fn copy_field(src: &[u8], limit: usize) -> (r: Vec<u8>)
    ensures
        r@ == clipped(src@, limit as nat),
{
    if src.len() <= limit {
        vstd::slice::slice_to_vec(src)
    } else {
        vstd::slice::slice_to_vec(slice_subrange(src, 0, limit))
    }
}

/// A copy of `value`, or nothing where it is longer than `limit`.
pub fn copy_into(value: &[u8], limit: usize) -> (r: Vec<u8>)
    ensures
        r@ == fitting(value@, limit as nat),
{
    if value.len() > limit {
        Vec::new()
    } else {
        vstd::slice::slice_to_vec(value)
    }
}

pub fn to_lower(b: u8) -> (r: u8)
    ensures
        r == lower(b),
{
    if 65 <= b && b <= 90 {
        b + 32
    } else {
        b
    }
}

pub fn equal_letters(a: &[u8], b: &[u8]) -> (r: bool)
    ensures
        r == same_letters(a@, b@),
{
    if a.len() != b.len() {
        return false;
    }
    let mut i: usize = 0;
    while i < a.len()
        invariant
            i <= a@.len(),
            a@.len() == b@.len(),
            forall|j: int| 0 <= j < i ==> lower(#[trigger] a@[j]) == lower(b@[j]),
        decreases a@.len() - i,
    {
        if to_lower(a[i]) != to_lower(b[i]) {
            return false;
        }
        i = i + 1;
    }
    true
}

/// The value without white space at its ends.
pub fn trim(bytes: &[u8]) -> (r: &[u8])
    ensures
        r@ == trimmed(bytes@),
{
    let mut lo: usize = 0;
    assert(bytes@.skip(0) =~= bytes@);
    while lo < bytes.len() && (bytes[lo] == 32 || bytes[lo] == 9 || bytes[lo] == 10 || bytes[lo] == 12 || bytes[lo] == 13)
        invariant
            lo <= bytes@.len(),
            trim_front(bytes@) == trim_front(bytes@.skip(lo as int)),
        decreases bytes@.len() - lo,
    {
        assert(bytes@.skip(lo as int).skip(1) =~= bytes@.skip(lo + 1));
        lo = lo + 1;
    }
    let mut hi: usize = bytes.len();
    assert(bytes@.skip(lo as int) =~= bytes@.subrange(lo as int, hi as int));
    while lo < hi && (bytes[hi - 1] == 32 || bytes[hi - 1] == 9 || bytes[hi - 1] == 10 || bytes[hi - 1] == 12 || bytes[hi - 1] == 13)
        invariant
            lo <= hi <= bytes@.len(),
            trimmed(bytes@) == trim_back(bytes@.subrange(lo as int, hi as int)),
        decreases hi,
    {
        assert(bytes@.subrange(lo as int, hi as int).drop_last() =~= bytes@.subrange(
            lo as int,
            hi - 1,
        ));
        hi = hi - 1;
    }
    slice_subrange(bytes, lo, hi)
}

/// `s` with `piece` behind it, or `s` alone where that would be longer than `limit`.
pub open spec fn appended(s: Seq<u8>, limit: nat, piece: Seq<u8>) -> Seq<u8> {
    if s.len() + piece.len() <= limit {
        s + piece
    } else {
        s
    }
}

/// Append `bytes` to `out`, unless `out` would grow past `limit`.
pub fn put(out: &mut Vec<u8>, limit: usize, bytes: &[u8]) -> (r: Option<()>)
    ensures
        r is Some <==> old(out)@.len() + bytes@.len() <= limit,
        final(out)@ == appended(old(out)@, limit as nat, bytes@),
{
    if out.len() > limit || bytes.len() > limit - out.len() {
        return None;
    }
    append(out, bytes);
    Some(())
}

pub fn append(out: &mut Vec<u8>, bytes: &[u8])
    ensures
        final(out)@ == old(out)@ + bytes@,
{
    let mut i: usize = 0;
    let ghost start = out@;
    while i < bytes.len()
        invariant
            i <= bytes@.len(),
            out@ == start + bytes@.take(i as int),
        decreases bytes@.len() - i,
    {
        out.push(bytes[i]);
        i = i + 1;
        assert(out@ =~= start + bytes@.take(i as int));
    }
    assert(bytes@.take(i as int) =~= bytes@);
}

/// The decimal numeral of `n`, without leading zeros.
pub open spec fn decimal(n: nat) -> Seq<u8>
    decreases n,
{
    if n < 10 {
        seq![(48 + n) as u8]
    } else {
        decimal(n / 10).push((48 + n % 10) as u8)
    }
}

pub open spec fn is_digit(b: u8) -> bool {
    48 <= b <= 57
}

pub open spec fn all_digits(s: Seq<u8>) -> bool {
    forall|i: int| 0 <= i < s.len() ==> is_digit(#[trigger] s[i])
}

/// The number that a string of decimal digits names.
pub open spec fn decimal_value(s: Seq<u8>) -> nat
    decreases s.len(),
{
    if s.len() == 0 {
        0
    } else {
        decimal_value(s.drop_last()) * 10 + (s.last() - 48) as nat
    }
}

/// Reading a numeral gives back the number that was written, and the numeral is made of
/// digits alone.
pub proof fn decimal_reads_back(n: nat)
    ensures
        all_digits(decimal(n)),
        decimal(n).len() >= 1,
        decimal_value(decimal(n)) == n,
    decreases n,
{
    if n < 10 {
        let s = decimal(n);
        assert(s.drop_last() =~= Seq::<u8>::empty());
        assert(decimal_value(s.drop_last()) == 0);
    } else {
        decimal_reads_back(n / 10);
        let s = decimal(n);
        assert(s.drop_last() =~= decimal(n / 10));
    }
}

/// No numeral of a number below the next power of ten is longer.
pub proof fn lemma_decimal_len(n: nat)
    ensures
        n < 10000000000 ==> decimal(n).len() <= 10,
        n < 100000000000000000000 ==> decimal(n).len() <= 20,
{
    reveal_with_fuel(decimal, 21);
}

/// The decimal numeral of `value`.
pub fn u64_dec(value: u64) -> (r: Vec<u8>)
    ensures
        r@ == decimal(value as nat),
    decreases value,
{
    if value < 10 {
        let mut out: Vec<u8> = Vec::new();
        out.push(48 + value as u8);
        assert(out@ =~= decimal(value as nat));
        out
    } else {
        let mut out = u64_dec(value / 10);
        out.push(48 + (value % 10) as u8);
        out
    }
}

/// Append the decimal numeral of `value`, unless `out` would grow past `limit`.
pub fn put_u64(out: &mut Vec<u8>, limit: usize, value: u64) -> (r: Option<()>)
    ensures
        r is Some <==> old(out)@.len() + decimal(value as nat).len() <= limit,
        final(out)@ == appended(old(out)@, limit as nat, decimal(value as nat)),
{
    let digits = u64_dec(value);
    put(out, limit, digits.as_slice())
}

/// Whether `haystack` holds the byte `b`.
pub fn contains_byte(haystack: &[u8], b: u8) -> (r: bool)
    ensures
        r == haystack@.contains(b),
{
    let i: usize = position(haystack, b);
    proof {
        lemma_position_of(haystack@, b);
        if i < haystack@.len() {
            assert(haystack@[i as int] == b);
        }
    }
    i < haystack.len()
}

/// A numeral has no needless zero in front, so each number has one.
pub proof fn a_numeral_has_no_leading_zero(n: nat)
    ensures
        n > 0 ==> decimal(n)[0] != 48,
        n == 0 ==> decimal(n) == seq![48u8],
    decreases n,
{
    if n >= 10 {
        a_numeral_has_no_leading_zero(n / 10);
        decimal_reads_back(n / 10);
        assert(decimal(n)[0] == decimal(n / 10)[0]);
    }
}

/// Cutting keeps the front: as much of it as there is room for, and all of it where it fits.
pub proof fn a_cut_keeps_the_front(s: Seq<u8>, n: nat)
    ensures
        clipped(s, n).is_prefix_of(s),
        s.len() <= n ==> clipped(s, n) == s,
        s.len() > n ==> clipped(s, n).len() == n,
        s.len() <= n ==> fitting(s, n) == s,
        s.len() > n ==> fitting(s, n).len() == 0,
{
}

/// Trimming takes white space from both ends and nothing else, until neither end has any.
pub proof fn trimming_takes_only_the_ends(s: Seq<u8>) -> (r: (int, int))
    ensures
        0 <= r.0 <= r.1 <= s.len(),
        trimmed(s) == s.subrange(r.0, r.1),
        forall|i: int|
            0 <= i < r.0 || r.1 <= i < s.len() ==> (#[trigger] s[i] == 32 || s[i] == 9 || s[i] == 10
                || s[i] == 12 || s[i] == 13),
        r.0 < r.1 ==> s[r.0] != 32 && s[r.0] != 9 && s[r.0] != 10 && s[r.0] != 12 && s[r.0] != 13,
        r.0 < r.1 ==> s[r.1 - 1] != 32 && s[r.1 - 1] != 9 && s[r.1 - 1] != 10 && s[r.1 - 1] != 12
            && s[r.1 - 1] != 13,
{
    let from = lemma_trim_front(s);
    let front = trim_front(s);
    let n = lemma_trim_back(front);
    assert(front =~= s.skip(from));
    assert(trim_back(front) =~= s.subrange(from, from + n));
    assert forall|i: int| 0 <= i < from || from + n <= i < s.len() implies (#[trigger] s[i] == 32
        || s[i] == 9 || s[i] == 10 || s[i] == 12 || s[i] == 13) by {
        if i >= from + n {
            assert(is_space(front[i - from]));
        }
    }
    if n > 0 {
        assert(front[n - 1] == s[from + n - 1]);
        assert(front[0] == s[from]);
    }
    (from, from + n)
}

proof fn lemma_trim_front(s: Seq<u8>) -> (n: int)
    ensures
        0 <= n <= s.len(),
        trim_front(s) == s.skip(n),
        forall|i: int| 0 <= i < n ==> is_space(#[trigger] s[i]),
        n < s.len() ==> !is_space(s[n]),
    decreases s.len(),
{
    if s.len() > 0 && is_space(s[0]) {
        let m = lemma_trim_front(s.skip(1));
        assert(s.skip(1).skip(m) =~= s.skip(m + 1));
        assert forall|i: int| 0 <= i < m + 1 implies is_space(#[trigger] s[i]) by {
            if i > 0 {
                assert(s.skip(1)[i - 1] == s[i]);
            }
        }
        if m + 1 < s.len() {
            assert(s.skip(1)[m] == s[m + 1]);
        }
        m + 1
    } else {
        assert(s.skip(0) =~= s);
        0
    }
}

proof fn lemma_trim_back(s: Seq<u8>) -> (n: int)
    ensures
        0 <= n <= s.len(),
        trim_back(s) == s.take(n),
        forall|i: int| n <= i < s.len() ==> is_space(#[trigger] s[i]),
        n > 0 ==> !is_space(s[n - 1]),
    decreases s.len(),
{
    if s.len() > 0 && is_space(s.last()) {
        let m = lemma_trim_back(s.drop_last());
        assert(s.drop_last().take(m) =~= s.take(m));
        assert forall|i: int| m <= i < s.len() implies is_space(#[trigger] s[i]) by {
            if i < s.len() - 1 {
                assert(s.drop_last()[i] == s[i]);
            }
        }
        m
    } else {
        assert(s.take(s.len() as int) =~= s);
        s.len() as int
    }
}

/// A digit is one of the ten, and a numeral is read with its last digit as the units.
pub proof fn a_numeral_is_read_in_tens(s: Seq<u8>, b: u8)
    ensures
        is_digit(b) <==> 48 <= b <= 57,
        is_digit(b) ==> decimal_value(s.push(b)) == decimal_value(s) * 10 + (b - 48),
        decimal_value(Seq::<u8>::empty()) == 0,
{
    assert(s.push(b).drop_last() =~= s);
}

} // verus!
