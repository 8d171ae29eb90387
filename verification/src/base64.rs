//! Base64: the URL alphabet without padding, and the standard alphabet with it.
use vstd::prelude::*;

verus! {

/// The character of a six-bit value in the URL alphabet.
pub open spec fn url_char(v: int) -> u8 {
    if v < 26 {
        (65 + v) as u8
    } else if v < 52 {
        (97 + (v - 26)) as u8
    } else if v < 62 {
        (48 + (v - 52)) as u8
    } else if v == 62 {
        45
    } else {
        95
    }
}

/// The character of a six-bit value in the standard alphabet.
pub open spec fn standard_char(v: int) -> u8 {
    if v == 62 {
        43
    } else if v == 63 {
        47
    } else {
        url_char(v)
    }
}

/// The six-bit values that stand for `data`, the last one filled up with zero bits.
pub open spec fn sextets(data: Seq<u8>) -> Seq<int>
    decreases data.len(),
{
    if data.len() == 0 {
        Seq::empty()
    } else if data.len() == 1 {
        seq![data[0] as int / 4, (data[0] as int % 4) * 16]
    } else if data.len() == 2 {
        seq![
            data[0] as int / 4,
            (data[0] as int % 4) * 16 + data[1] as int / 16,
            (data[1] as int % 16) * 4,
        ]
    } else {
        seq![
            data[0] as int / 4,
            (data[0] as int % 4) * 16 + data[1] as int / 16,
            (data[1] as int % 16) * 4 + data[2] as int / 64,
            data[2] as int % 64,
        ] + sextets(data.skip(3))
    }
}

/// The unpadded URL encoding of `data`.
pub open spec fn encoded(data: Seq<u8>) -> Seq<u8> {
    sextets(data).map_values(|v: int| url_char(v))
}

/// The padded standard encoding of `data`.
pub open spec fn encoded_standard(data: Seq<u8>) -> Seq<u8> {
    let body = sextets(data).map_values(|v: int| standard_char(v));
    if data.len() % 3 == 1 {
        body + seq![61u8, 61u8]
    } else if data.len() % 3 == 2 {
        body + seq![61u8]
    } else {
        body
    }
}

/// `data` is what the unpadded URL string `s` stands for.
pub open spec fn decodes_to(s: Seq<u8>, data: Seq<u8>) -> bool {
    encoded(data) == s
}

/// The bytes that `s` stands for, where there are such bytes and at most `limit` of them.
pub open spec fn decoded(s: Seq<u8>, limit: nat) -> Option<Seq<u8>> {
    if exists|d: Seq<u8>| #[trigger] encoded(d) == s && d.len() <= limit {
        Some(choose|d: Seq<u8>| #[trigger] encoded(d) == s && d.len() <= limit)
    } else {
        None
    }
}

/// [`decoded`], where nothing stands for bytes that are too many or are none.
pub open spec fn decoded_or_empty(s: Seq<u8>, limit: nat) -> Seq<u8> {
    match decoded(s, limit) {
        Some(d) => d,
        None => Seq::empty(),
    }
}

pub open spec fn encoded_len(n: nat) -> nat {
    (n / 3) * 4 + if n % 3 == 0 {
        0nat
    } else {
        n % 3 + 1
    }
}

pub proof fn lemma_sextets(data: Seq<u8>)
    ensures
        sextets(data).len() == encoded_len(data.len()),
        forall|i: int| 0 <= i < sextets(data).len() ==> 0 <= #[trigger] sextets(data)[i] < 64,
    decreases data.len(),
{
    if data.len() >= 3 {
        lemma_sextets(data.skip(3));
        let tail = sextets(data.skip(3));
        assert forall|i: int| 0 <= i < sextets(data).len() implies 0 <= #[trigger] sextets(data)[i]
            < 64 by {
            if i >= 4 {
                assert(sextets(data)[i] == tail[i - 4]);
            }
        }
    }
}

/// How long an encoding is: four characters for three bytes, two or three for what is left.
pub proof fn encoding_length(data: Seq<u8>)
    ensures
        encoded(data).len() == encoded_len(data.len()),
{
    lemma_sextets(data);
}

proof fn lemma_chars_differ(a: int, b: int)
    requires
        0 <= a < 64,
        0 <= b < 64,
        url_char(a) == url_char(b),
    ensures
        a == b,
{
}

/// Four six-bit values stand for one group of three bytes.
proof fn lemma_group(a: int, b: int, c: int, d: int, e: int, f: int)
    requires
        0 <= a < 256,
        0 <= b < 256,
        0 <= c < 256,
        0 <= d < 256,
        0 <= e < 256,
        0 <= f < 256,
        a / 4 == d / 4,
        (a % 4) * 16 + b / 16 == (d % 4) * 16 + e / 16,
        (b % 16) * 4 + c / 64 == (e % 16) * 4 + f / 64,
        c % 64 == f % 64,
    ensures
        a == d,
        b == e,
        c == f,
{
    assert(0 <= b / 16 < 16 && 0 <= e / 16 < 16);
    assert(a % 4 == d % 4);
    assert(b / 16 == e / 16);
    assert(0 <= c / 64 < 4 && 0 <= f / 64 < 4);
    assert(b % 16 == e % 16);
    assert(c / 64 == f / 64);
}

proof fn lemma_sextets_injective(a: Seq<u8>, b: Seq<u8>)
    requires
        sextets(a) == sextets(b),
    ensures
        a == b,
    decreases a.len(),
{
    lemma_sextets(a);
    lemma_sextets(b);
    let x = sextets(a);
    let y = sextets(b);
    assert(a.len() == b.len());
    if a.len() == 0 {
        assert(a =~= b);
    } else if a.len() == 1 {
        assert(x[0] == y[0] && x[1] == y[1]);
        assert(a =~= b);
    } else if a.len() == 2 {
        assert(x[0] == y[0] && x[1] == y[1] && x[2] == y[2]);
        assert(a =~= b);
    } else {
        assert(x[0] == y[0] && x[1] == y[1] && x[2] == y[2] && x[3] == y[3]);
        assert(x.skip(4) =~= sextets(a.skip(3)));
        assert(y.skip(4) =~= sextets(b.skip(3)));
        lemma_sextets_injective(a.skip(3), b.skip(3));
        lemma_group(
            a[0] as int,
            a[1] as int,
            a[2] as int,
            b[0] as int,
            b[1] as int,
            b[2] as int,
        );
        assert forall|i: int| 0 <= i < a.len() implies a[i] == b[i] by {
            if i >= 3 {
                assert(a.skip(3)[i - 3] == a[i]);
                assert(b.skip(3)[i - 3] == b[i]);
            } else if i == 0 {
                assert(a[0] == b[0]);
            } else if i == 1 {
                assert(a[1] == b[1]);
            } else {
                assert(i == 2 && a[2] == b[2]);
            }
        }
        assert(a =~= b);
    }
}

/// An encoding stands for one byte string only.
pub proof fn encoding_is_injective(a: Seq<u8>, b: Seq<u8>)
    requires
        encoded(a) == encoded(b),
    ensures
        a == b,
{
    lemma_sextets(a);
    lemma_sextets(b);
    assert(sextets(a) =~= sextets(b)) by {
        assert(encoded(a).len() == sextets(a).len() && encoded(b).len() == sextets(b).len());
        assert forall|i: int| 0 <= i < sextets(a).len() implies sextets(a)[i] == sextets(b)[i] by {
            assert(encoded(a)[i] == url_char(sextets(a)[i]));
            assert(encoded(b)[i] == url_char(sextets(b)[i]));
            lemma_chars_differ(sextets(a)[i], sextets(b)[i]);
        }
    }
    lemma_sextets_injective(a, b);
}

fn to_url(v: u8) -> (r: u8)
    requires
        v < 64,
    ensures
        r == url_char(v as int),
{
    if v < 26 {
        65 + v
    } else if v < 52 {
        97 + (v - 26)
    } else if v < 62 {
        48 + (v - 52)
    } else if v == 62 {
        45
    } else {
        95
    }
}

fn to_standard(v: u8) -> (r: u8)
    requires
        v < 64,
    ensures
        r == standard_char(v as int),
{
    if v == 62 {
        43
    } else if v == 63 {
        47
    } else {
        to_url(v)
    }
}

fn from_url(c: u8) -> (r: Option<u8>)
    ensures
        match r {
            Some(v) => v < 64 && url_char(v as int) == c,
            None => forall|v: int| 0 <= v < 64 ==> #[trigger] url_char(v) != c,
        },
{
    if 65 <= c && c <= 90 {
        Some(c - 65)
    } else if 97 <= c && c <= 122 {
        Some(c - 97 + 26)
    } else if 48 <= c && c <= 57 {
        Some(c - 48 + 52)
    } else if c == 45 {
        Some(62)
    } else if c == 95 {
        Some(63)
    } else {
        None
    }
}

fn split(data: &[u8]) -> (r: Vec<u8>)
    ensures
        r@.map_values(|v: u8| v as int) == sextets(data@),
{
    let mut out: Vec<u8> = Vec::new();
    let mut i: usize = 0;
    assert(data@.skip(0) =~= data@);
    assert(out@.map_values(|v: u8| v as int) + sextets(data@.skip(0)) =~= sextets(data@));
    while data.len() - i >= 3
        invariant
            i <= data@.len(),
            out@.map_values(|v: u8| v as int) + sextets(data@.skip(i as int)) == sextets(data@),
        decreases data@.len() - i,
    {
        let a: u8 = data[i];
        let b: u8 = data[i + 1];
        let c: u8 = data[i + 2];
        let ghost before = out@.map_values(|v: u8| v as int);
        out.push(a / 4);
        out.push((a % 4) * 16 + b / 16);
        out.push((b % 16) * 4 + c / 64);
        out.push(c % 64);
        proof {
            let rest = data@.skip(i as int);
            assert(rest[0] == a && rest[1] == b && rest[2] == c);
            assert(rest.skip(3) =~= data@.skip(i + 3));
            assert(out@.map_values(|v: u8| v as int) =~= before + seq![
                a as int / 4,
                (a as int % 4) * 16 + b as int / 16,
                (b as int % 16) * 4 + c as int / 64,
                c as int % 64,
            ]);
            assert(out@.map_values(|v: u8| v as int) + sextets(data@.skip(i + 3)) =~= before
                + sextets(rest));
        }
        i = i + 3;
    }
    let left: usize = data.len() - i;
    let ghost before = out@.map_values(|v: u8| v as int);
    let ghost rest = data@.skip(i as int);
    if left == 1 {
        let a: u8 = data[i];
        out.push(a / 4);
        out.push((a % 4) * 16);
        assert(rest[0] == a);
        assert(out@.map_values(|v: u8| v as int) =~= before + sextets(rest));
    } else if left == 2 {
        let a: u8 = data[i];
        let b: u8 = data[i + 1];
        out.push(a / 4);
        out.push((a % 4) * 16 + b / 16);
        out.push((b % 16) * 4);
        assert(rest[0] == a && rest[1] == b);
        assert(out@.map_values(|v: u8| v as int) =~= before + sextets(rest));
    } else {
        assert(out@.map_values(|v: u8| v as int) =~= before + sextets(rest));
    }
    out
}

/// The unpadded URL encoding of `data`.
pub fn encode(data: &[u8]) -> (r: Vec<u8>)
    ensures
        r@ == encoded(data@),
{
    let parts = split(data);
    let mut out: Vec<u8> = Vec::new();
    let mut i: usize = 0;
    proof {
        lemma_sextets(data@);
    }
    let ghost values = parts@.map_values(|v: u8| v as int);
    while i < parts.len()
        invariant
            i <= parts@.len(),
            values == parts@.map_values(|v: u8| v as int),
            forall|j: int| 0 <= j < values.len() ==> 0 <= #[trigger] values[j] < 64,
            out@.len() == i,
            forall|j: int| 0 <= j < i ==> #[trigger] out@[j] == url_char(values[j]),
        decreases parts@.len() - i,
    {
        assert(values[i as int] == parts@[i as int]);
        out.push(to_url(parts[i]));
        i = i + 1;
    }
    assert(out@ =~= encoded(data@));
    out
}

/// The padded standard encoding of `data`.
pub fn encode_standard(data: &[u8]) -> (r: Vec<u8>)
    ensures
        r@ == encoded_standard(data@),
{
    let parts = split(data);
    let mut out: Vec<u8> = Vec::new();
    let mut i: usize = 0;
    proof {
        lemma_sextets(data@);
    }
    let ghost values = parts@.map_values(|v: u8| v as int);
    while i < parts.len()
        invariant
            i <= parts@.len(),
            values == parts@.map_values(|v: u8| v as int),
            forall|j: int| 0 <= j < values.len() ==> 0 <= #[trigger] values[j] < 64,
            out@.len() == i,
            forall|j: int| 0 <= j < i ==> #[trigger] out@[j] == standard_char(values[j]),
        decreases parts@.len() - i,
    {
        assert(values[i as int] == parts@[i as int]);
        out.push(to_standard(parts[i]));
        i = i + 1;
    }
    let ghost body = out@;
    assert(body =~= sextets(data@).map_values(|v: int| standard_char(v)));
    let left: usize = data.len() % 3;
    if left == 1 {
        out.push(61);
        out.push(61);
        assert(out@ =~= body + seq![61u8, 61u8]);
    } else if left == 2 {
        out.push(61);
        assert(out@ =~= body + seq![61u8]);
    }
    out
}

proof fn lemma_sextets_append(a: Seq<u8>, b: Seq<u8>)
    requires
        a.len() % 3 == 0,
    ensures
        sextets(a + b) == sextets(a) + sextets(b),
    decreases a.len(),
{
    if a.len() == 0 {
        assert(a + b =~= b);
        assert(sextets(a) + sextets(b) =~= sextets(b));
    } else {
        lemma_sextets_append(a.skip(3), b);
        assert((a + b).skip(3) =~= a.skip(3) + b);
        assert(sextets(a + b) =~= sextets(a) + sextets(b));
    }
}

proof fn lemma_encoded_append(a: Seq<u8>, b: Seq<u8>)
    requires
        a.len() % 3 == 0,
    ensures
        encoded(a + b) == encoded(a) + encoded(b),
{
    lemma_sextets_append(a, b);
    assert(encoded(a + b) =~= encoded(a) + encoded(b));
}

/// The bits that fill up the last character of an encoding are zero.
proof fn lemma_last_sextet(d: Seq<u8>)
    ensures
        d.len() % 3 == 1 ==> sextets(d).last() % 16 == 0,
        d.len() % 3 == 2 ==> sextets(d).last() % 4 == 0,
    decreases d.len(),
{
    if d.len() >= 3 {
        lemma_last_sextet(d.skip(3));
        lemma_sextets(d.skip(3));
        if d.len() % 3 != 0 {
            assert(sextets(d).last() == sextets(d.skip(3)).last());
        }
    }
}

proof fn lemma_encoding_of(d: Seq<u8>, s: Seq<u8>)
    requires
        encoded(d) == s,
    ensures
        s.len() == encoded_len(d.len()),
        s.len() % 4 != 1,
        s.len() % 4 == 0 <==> d.len() % 3 == 0,
        s.len() % 4 == 2 <==> d.len() % 3 == 1,
        s.len() % 4 == 3 <==> d.len() % 3 == 2,
        forall|i: int| 0 <= i < s.len() ==> #[trigger] s[i] == url_char(sextets(d)[i]),
        forall|i: int| 0 <= i < s.len() ==> 0 <= #[trigger] sextets(d)[i] < 64,
{
    lemma_sextets(d);
    assert forall|i: int| 0 <= i < s.len() implies #[trigger] s[i] == url_char(sextets(d)[i]) by {
        assert(encoded(d)[i] == url_char(sextets(d)[i]));
    }
}

proof fn lemma_bad_char(s: Seq<u8>, k: int)
    requires
        0 <= k < s.len(),
        forall|v: int| 0 <= v < 64 ==> #[trigger] url_char(v) != s[k],
    ensures
        forall|d: Seq<u8>| #[trigger] encoded(d) != s,
{
    assert forall|d: Seq<u8>| #[trigger] encoded(d) != s by {
        if encoded(d) == s {
            lemma_encoding_of(d, s);
            assert(s[k] == url_char(sextets(d)[k]));
        }
    }
}

/// The three bytes that four six-bit values stand for.
fn join(x: u8, y: u8, z: u8, w: u8) -> (r: (u8, u8, u8))
    requires
        x < 64,
        y < 64,
        z < 64,
        w < 64,
    ensures
        encoded(seq![r.0, r.1, r.2]) == seq![
            url_char(x as int),
            url_char(y as int),
            url_char(z as int),
            url_char(w as int),
        ],
{
    let a: u8 = x * 4 + y / 16;
    let b: u8 = (y % 16) * 16 + z / 4;
    let c: u8 = (z % 4) * 64 + w;
    proof {
        let group = seq![a, b, c];
        assert(sextets(group.skip(3)) =~= Seq::<int>::empty());
        assert(a as int / 4 == x);
        assert((a as int % 4) * 16 + b as int / 16 == y);
        assert((b as int % 16) * 4 + c as int / 64 == z);
        assert(c as int % 64 == w);
        assert(sextets(group) =~= seq![x as int, y as int, z as int, w as int]);
        assert(encoded(group) =~= seq![
            url_char(x as int),
            url_char(y as int),
            url_char(z as int),
            url_char(w as int),
        ]);
    }
    (a, b, c)
}

/// The bytes that the unpadded URL string `s` stands for, where there are such bytes and at
/// most `limit` of them. There is one spelling for each byte string: a character outside the
/// alphabet, a single character left over, or a fill bit that is set, is refused.
pub fn decode(s: &[u8], limit: usize) -> (r: Option<Vec<u8>>)
    ensures
        match r {
            Some(d) => decodes_to(s@, d@) && d@.len() <= limit && decoded(s@, limit as nat) == Some(
                d@,
            ),
            None => decoded(s@, limit as nat) is None && forall|d: Seq<u8>| #[trigger]
                encoded(d) == s@ ==> d.len() > limit,
        },
{
    let mut out: Vec<u8> = Vec::new();
    let mut i: usize = 0;
    assert(encoded(out@) =~= s@.take(0));
    while s.len() - i >= 4
        invariant
            i <= s@.len(),
            i % 4 == 0,
            out@.len() % 3 == 0,
            out@.len() * 4 == i * 3,
            encoded(out@) == s@.take(i as int),
        decreases s@.len() - i,
    {
        let x = from_url(s[i]);
        let y = from_url(s[i + 1]);
        let z = from_url(s[i + 2]);
        let w = from_url(s[i + 3]);
        if x.is_none() || y.is_none() || z.is_none() || w.is_none() {
            proof {
                if x is None {
                    lemma_bad_char(s@, i as int);
                } else if y is None {
                    lemma_bad_char(s@, i + 1);
                } else if z is None {
                    lemma_bad_char(s@, i + 2);
                } else {
                    lemma_bad_char(s@, i + 3);
                }
            }
            return None;
        }
        let x: u8 = x.unwrap();
        let y: u8 = y.unwrap();
        let z: u8 = z.unwrap();
        let w: u8 = w.unwrap();
        let (a, b, c): (u8, u8, u8) = join(x, y, z, w);
        let ghost before = out@;
        out.push(a);
        out.push(b);
        out.push(c);
        proof {
            let group = seq![a, b, c];
            assert(out@ =~= before + group);
            lemma_encoded_append(before, group);
            assert(s@.take(i + 4) =~= s@.take(i as int) + encoded(group));
        }
        i = i + 4;
    }
    let left: usize = s.len() - i;
    let ghost before = out@;
    if left == 1 {
        assert forall|d: Seq<u8>| #[trigger] encoded(d) == s@ implies d.len() > limit by {
            lemma_encoding_of(d, s@);
        }
        return None;
    } else if left == 2 {
        let x = from_url(s[i]);
        let y = from_url(s[i + 1]);
        if x.is_none() || y.is_none() {
            proof {
                if x is None {
                    lemma_bad_char(s@, i as int);
                } else {
                    lemma_bad_char(s@, i + 1);
                }
            }
            return None;
        }
        let x: u8 = x.unwrap();
        let y: u8 = y.unwrap();
        if y % 16 != 0 {
            assert forall|d: Seq<u8>| #[trigger] encoded(d) == s@ implies d.len() > limit by {
                lemma_encoding_of(d, s@);
                lemma_last_sextet(d);
                assert(s@[i + 1] == url_char(sextets(d)[i + 1]));
                lemma_chars_differ(sextets(d)[i + 1], y as int);
            }
            return None;
        }
        let a: u8 = x * 4 + y / 16;
        out.push(a);
        proof {
            let group = seq![a];
            assert(out@ =~= before + group);
            lemma_encoded_append(before, group);
            assert(sextets(group) =~= seq![x as int, y as int]);
            assert(encoded(group) =~= seq![s@[i as int], s@[i + 1]]);
            assert(s@ =~= s@.take(i as int) + encoded(group));
        }
    } else if left == 3 {
        let x = from_url(s[i]);
        let y = from_url(s[i + 1]);
        let z = from_url(s[i + 2]);
        if x.is_none() || y.is_none() || z.is_none() {
            proof {
                if x is None {
                    lemma_bad_char(s@, i as int);
                } else if y is None {
                    lemma_bad_char(s@, i + 1);
                } else {
                    lemma_bad_char(s@, i + 2);
                }
            }
            return None;
        }
        let x: u8 = x.unwrap();
        let y: u8 = y.unwrap();
        let z: u8 = z.unwrap();
        if z % 4 != 0 {
            assert forall|d: Seq<u8>| #[trigger] encoded(d) == s@ implies d.len() > limit by {
                lemma_encoding_of(d, s@);
                lemma_last_sextet(d);
                assert(s@[i + 2] == url_char(sextets(d)[i + 2]));
                lemma_chars_differ(sextets(d)[i + 2], z as int);
            }
            return None;
        }
        let a: u8 = x * 4 + y / 16;
        let b: u8 = (y % 16) * 16 + z / 4;
        out.push(a);
        out.push(b);
        proof {
            let group = seq![a, b];
            assert(out@ =~= before + group);
            lemma_encoded_append(before, group);
            assert(sextets(group) =~= seq![x as int, y as int, z as int]);
            assert(encoded(group) =~= seq![s@[i as int], s@[i + 1], s@[i + 2]]);
            assert(s@ =~= s@.take(i as int) + encoded(group));
        }
    } else {
        assert(s@.take(i as int) =~= s@);
    }
    if out.len() > limit {
        assert forall|d: Seq<u8>| #[trigger] encoded(d) == s@ implies d.len() > limit by {
            encoding_is_injective(d, out@);
        }
        return None;
    }
    proof {
        let d = choose|d: Seq<u8>| #[trigger] encoded(d) == s@ && d.len() <= limit;
        assert(encoded(out@) == s@ && out@.len() <= limit);
        encoding_is_injective(d, out@);
    }
    Some(out)
}

/// The bytes that `s` stands for, or none.
pub fn decode_or_empty(s: &[u8], limit: usize) -> (r: Vec<u8>)
    ensures
        r@ == decoded_or_empty(s@, limit as nat),
        r@.len() <= limit,
{
    match decode(s, limit) {
        Some(d) => d,
        None => Vec::new(),
    }
}

/// What was encoded decodes to itself, and to nothing else.
pub proof fn decode_reverses_encode(data: Seq<u8>, d: Seq<u8>)
    ensures
        decodes_to(encoded(data), d) <==> d == data,
{
    if decodes_to(encoded(data), d) {
        encoding_is_injective(d, data);
    }
}

/// An encoding decodes, where there is room for what it stands for.
pub proof fn encoded_decodes(data: Seq<u8>, limit: nat)
    requires
        data.len() <= limit,
    ensures
        decoded(encoded(data), limit) == Some(data),
{
    let d = choose|d: Seq<u8>| #[trigger] encoded(d) == encoded(data) && d.len() <= limit;
    assert(encoded(data) == encoded(data) && data.len() <= limit);
    encoding_is_injective(d, data);
}

/// The alphabet: capitals, small letters, digits, the hyphen and the underscore.
pub proof fn the_alphabet(v: int)
    requires
        0 <= v < 64,
    ensures
        url_char(v) == crate::bytes::text(
            "ABCDEFGHIJKLMNOPQRSTUVWXYZabcdefghijklmnopqrstuvwxyz0123456789-_",
        )[v],
{
    reveal_strlit("ABCDEFGHIJKLMNOPQRSTUVWXYZabcdefghijklmnopqrstuvwxyz0123456789-_");
    let letters = crate::bytes::text(
        "ABCDEFGHIJKLMNOPQRSTUVWXYZabcdefghijklmnopqrstuvwxyz0123456789-_",
    );
    assert("ABCDEFGHIJKLMNOPQRSTUVWXYZabcdefghijklmnopqrstuvwxyz0123456789-_".is_ascii());
    assert(url_char(0) == letters[0]);
    assert(url_char(1) == letters[1]);
    assert(url_char(2) == letters[2]);
    assert(url_char(3) == letters[3]);
    assert(url_char(4) == letters[4]);
    assert(url_char(5) == letters[5]);
    assert(url_char(6) == letters[6]);
    assert(url_char(7) == letters[7]);
    assert(url_char(8) == letters[8]);
    assert(url_char(9) == letters[9]);
    assert(url_char(10) == letters[10]);
    assert(url_char(11) == letters[11]);
    assert(url_char(12) == letters[12]);
    assert(url_char(13) == letters[13]);
    assert(url_char(14) == letters[14]);
    assert(url_char(15) == letters[15]);
    assert(url_char(16) == letters[16]);
    assert(url_char(17) == letters[17]);
    assert(url_char(18) == letters[18]);
    assert(url_char(19) == letters[19]);
    assert(url_char(20) == letters[20]);
    assert(url_char(21) == letters[21]);
    assert(url_char(22) == letters[22]);
    assert(url_char(23) == letters[23]);
    assert(url_char(24) == letters[24]);
    assert(url_char(25) == letters[25]);
    assert(url_char(26) == letters[26]);
    assert(url_char(27) == letters[27]);
    assert(url_char(28) == letters[28]);
    assert(url_char(29) == letters[29]);
    assert(url_char(30) == letters[30]);
    assert(url_char(31) == letters[31]);
    assert(url_char(32) == letters[32]);
    assert(url_char(33) == letters[33]);
    assert(url_char(34) == letters[34]);
    assert(url_char(35) == letters[35]);
    assert(url_char(36) == letters[36]);
    assert(url_char(37) == letters[37]);
    assert(url_char(38) == letters[38]);
    assert(url_char(39) == letters[39]);
    assert(url_char(40) == letters[40]);
    assert(url_char(41) == letters[41]);
    assert(url_char(42) == letters[42]);
    assert(url_char(43) == letters[43]);
    assert(url_char(44) == letters[44]);
    assert(url_char(45) == letters[45]);
    assert(url_char(46) == letters[46]);
    assert(url_char(47) == letters[47]);
    assert(url_char(48) == letters[48]);
    assert(url_char(49) == letters[49]);
    assert(url_char(50) == letters[50]);
    assert(url_char(51) == letters[51]);
    assert(url_char(52) == letters[52]);
    assert(url_char(53) == letters[53]);
    assert(url_char(54) == letters[54]);
    assert(url_char(55) == letters[55]);
    assert(url_char(56) == letters[56]);
    assert(url_char(57) == letters[57]);
    assert(url_char(58) == letters[58]);
    assert(url_char(59) == letters[59]);
    assert(url_char(60) == letters[60]);
    assert(url_char(61) == letters[61]);
    assert(url_char(62) == letters[62]);
    assert(url_char(63) == letters[63]);
    if v < 26 {
        assert(letters[v] == 65 + v);
    } else if v < 52 {
        assert(letters[v] == 71 + v);
    }
}

/// Three bytes are the four letters of their twenty-four bits, six at a time from the top; one byte
/// or two at the end are filled up with zero bits.
pub proof fn three_bytes_are_four_letters(
    a: u8,
    b: u8,
    c: u8,
    rest: Seq<u8>,
    x: int,
    y: int,
    z: int,
    w: int,
)
    requires
        0 <= x < 64 && 0 <= y < 64 && 0 <= z < 64 && 0 <= w < 64,
    ensures
        a * 65536 + b * 256 + c == x * 262144 + y * 4096 + z * 64 + w ==> encoded(
            seq![a, b, c] + rest,
        ) == seq![url_char(x), url_char(y), url_char(z), url_char(w)] + encoded(rest),
        a * 1024 + b * 4 == x * 4096 + y * 64 + z ==> encoded(seq![a, b]) == seq![
            url_char(x),
            url_char(y),
            url_char(z),
        ],
        a * 16 == x * 64 + y ==> encoded(seq![a]) == seq![url_char(x), url_char(y)],
        encoded(Seq::<u8>::empty()).len() == 0,
{
    let data = seq![a, b, c] + rest;
    let (p, q, r) = (a as int, b as int, c as int);
    assert(data.skip(3) =~= rest);
    if p * 65536 + q * 256 + r == x * 262144 + y * 4096 + z * 64 + w {
        lemma_bits(p, q, r, x, y, z, w);
        assert(encoded(data) =~= seq![url_char(x), url_char(y), url_char(z), url_char(w)] + encoded(
            rest,
        ));
    }
    if p * 1024 + q * 4 == x * 4096 + y * 64 + z {
        lemma_bits(p, q, 0, x, y, z, 0);
        assert(encoded(seq![a, b]) =~= seq![url_char(x), url_char(y), url_char(z)]);
    }
    if p * 16 == x * 64 + y {
        lemma_bits(p, 0, 0, x, y, 0, 0);
        assert(encoded(seq![a]) =~= seq![url_char(x), url_char(y)]);
    }
}

proof fn lemma_bits(p: int, q: int, r: int, x: int, y: int, z: int, w: int)
    requires
        0 <= p < 256 && 0 <= q < 256 && 0 <= r < 256,
        0 <= x < 64 && 0 <= y < 64 && 0 <= z < 64 && 0 <= w < 64,
        p * 65536 + q * 256 + r == x * 262144 + y * 4096 + z * 64 + w,
    ensures
        p / 4 == x,
        (p % 4) * 16 + q / 16 == y,
        (q % 16) * 4 + r / 64 == z,
        r % 64 == w,
{
    let (p1, p0) = (p / 4, p % 4);
    let (q1, q0) = (q / 16, q % 16);
    let (r1, r0) = (r / 64, r % 64);
    assert(p == 4 * p1 + p0 && q == 16 * q1 + q0 && r == 64 * r1 + r0);
    assert(p1 * 262144 + (p0 * 16 + q1) * 4096 + (q0 * 4 + r1) * 64 + r0 == x * 262144 + y * 4096
        + z * 64 + w);
    assert(0 <= p0 * 16 + q1 < 64 && 0 <= q0 * 4 + r1 < 64);
}

} // verus!
