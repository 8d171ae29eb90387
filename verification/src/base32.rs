//! Base32 without padding, in which an authenticator's secret is written.
use vstd::prelude::*;

verus! {

pub open spec fn letter(v: int) -> u8 {
    if v < 26 {
        (65 + v) as u8
    } else {
        (50 + (v - 26)) as u8
    }
}

/// The five-bit values that stand for `data`, the last one filled up with zero bits.
pub open spec fn quintets(data: Seq<u8>) -> Seq<int>
    decreases data.len(),
{
    let a = if data.len() > 0 {
        data[0] as int
    } else {
        0
    };
    let b = if data.len() > 1 {
        data[1] as int
    } else {
        0
    };
    let c = if data.len() > 2 {
        data[2] as int
    } else {
        0
    };
    let d = if data.len() > 3 {
        data[3] as int
    } else {
        0
    };
    if data.len() == 0 {
        Seq::empty()
    } else if data.len() < 5 {
        group(a, b, c, d, 0).take(letters_for(data.len()) as int)
    } else {
        group(a, b, c, d, data[4] as int) + quintets(data.skip(5))
    }
}

/// The eight values of five bytes.
pub open spec fn group(a: int, b: int, c: int, d: int, e: int) -> Seq<int> {
    seq![
        a / 8,
        (a % 8) * 4 + b / 64,
        b / 2 % 32,
        (b % 2) * 16 + c / 16,
        (c % 16) * 2 + d / 128,
        d / 4 % 32,
        (d % 4) * 8 + e / 32,
        e % 32,
    ]
}

/// How many letters stand for `n` bytes, where `n` is less than five.
pub open spec fn letters_for(n: nat) -> nat {
    if n == 0 {
        0
    } else if n == 1 {
        2
    } else if n == 2 {
        4
    } else if n == 3 {
        5
    } else {
        7
    }
}

pub open spec fn encoded(data: Seq<u8>) -> Seq<u8> {
    quintets(data).map_values(|v: int| letter(v))
}

/// The bytes that `s` stands for, where there are such bytes and at most `limit` of them.
pub open spec fn decoded(s: Seq<u8>, limit: nat) -> Option<Seq<u8>> {
    if exists|d: Seq<u8>| #[trigger] encoded(d) == s && d.len() <= limit {
        Some(choose|d: Seq<u8>| #[trigger] encoded(d) == s && d.len() <= limit)
    } else {
        None
    }
}

proof fn lemma_group(a: int, b: int, c: int, d: int, e: int)
    requires
        0 <= a < 256,
        0 <= b < 256,
        0 <= c < 256,
        0 <= d < 256,
        0 <= e < 256,
    ensures
        forall|i: int| 0 <= i < 8 ==> 0 <= #[trigger] group(a, b, c, d, e)[i] < 32,
{
}

proof fn lemma_quintets(data: Seq<u8>)
    ensures
        quintets(data).len() == (data.len() / 5) * 8 + letters_for(data.len() % 5),
        forall|i: int| 0 <= i < quintets(data).len() ==> 0 <= #[trigger] quintets(data)[i] < 32,
    decreases data.len(),
{
    if data.len() >= 5 {
        lemma_quintets(data.skip(5));
        let head = group(
            data[0] as int,
            data[1] as int,
            data[2] as int,
            data[3] as int,
            data[4] as int,
        );
        lemma_group(
            data[0] as int,
            data[1] as int,
            data[2] as int,
            data[3] as int,
            data[4] as int,
        );
        assert forall|i: int| 0 <= i < quintets(data).len() implies 0 <= #[trigger] quintets(
            data,
        )[i] < 32 by {
            if i < 8 {
                assert(quintets(data)[i] == head[i]);
            } else {
                assert(quintets(data)[i] == quintets(data.skip(5))[i - 8]);
            }
        }
        assert(data.len() / 5 == data.skip(5).len() / 5 + 1);
    } else if data.len() > 0 {
        let a = data[0] as int;
        let b = if data.len() > 1 {
            data[1] as int
        } else {
            0
        };
        let c = if data.len() > 2 {
            data[2] as int
        } else {
            0
        };
        let d = if data.len() > 3 {
            data[3] as int
        } else {
            0
        };
        lemma_group(a, b, c, d, 0);
        assert forall|i: int| 0 <= i < quintets(data).len() implies 0 <= #[trigger] quintets(
            data,
        )[i] < 32 by {
            assert(quintets(data)[i] == group(a, b, c, d, 0)[i]);
        }
    }
}

fn to_letter(v: u8) -> (r: u8)
    requires
        v < 32,
    ensures
        r == letter(v as int),
{
    if v < 26 {
        65 + v
    } else {
        50 + (v - 26)
    }
}

fn from_letter(c: u8) -> (r: Option<u8>)
    ensures
        match r {
            Some(v) => v < 32 && letter(v as int) == c,
            None => forall|v: int| 0 <= v < 32 ==> #[trigger] letter(v) != c,
        },
{
    if 65 <= c && c <= 90 {
        Some(c - 65)
    } else if 50 <= c && c <= 55 {
        Some(c - 50 + 26)
    } else {
        None
    }
}

fn push_group(out: &mut Vec<u8>, a: u8, b: u8, c: u8, d: u8, e: u8, n: usize)
    requires
        n <= 8,
    ensures
        final(out)@ == old(out)@ + group(a as int, b as int, c as int, d as int, e as int).take(
            n as int,
        ).map_values(|v: int| letter(v)),
{
    let g: [u8; 8] = [
        a / 8,
        (a % 8) * 4 + b / 64,
        b / 2 % 32,
        (b % 2) * 16 + c / 16,
        (c % 16) * 2 + d / 128,
        d / 4 % 32,
        (d % 4) * 8 + e / 32,
        e % 32,
    ];
    let ghost values = group(a as int, b as int, c as int, d as int, e as int);
    assert forall|i: int| 0 <= i < 8 implies #[trigger] g@[i] == values[i] && g@[i] < 32 by {}
    let ghost start = out@;
    let mut i: usize = 0;
    while i < n
        invariant
            i <= n <= 8,
            values.len() == 8,
            forall|j: int| 0 <= j < 8 ==> #[trigger] g@[j] == values[j] && g@[j] < 32,
            out@ == start + values.take(i as int).map_values(|v: int| letter(v)),
        decreases n - i,
    {
        out.push(to_letter(g[i]));
        assert(out@ =~= start + values.take(i + 1).map_values(|v: int| letter(v)));
        i = i + 1;
    }
}

/// The base32 of `data`.
pub fn base32_encode(data: &[u8]) -> (r: Vec<u8>)
    ensures
        r@ == encoded(data@),
{
    let mut out: Vec<u8> = Vec::new();
    let mut i: usize = 0;
    assert(data@.skip(0) =~= data@);
    assert(out@ + encoded(data@.skip(0)) =~= encoded(data@));
    while data.len() - i >= 5
        invariant
            i <= data@.len(),
            out@ + encoded(data@.skip(i as int)) == encoded(data@),
        decreases data@.len() - i,
    {
        let ghost rest = data@.skip(i as int);
        let ghost before = out@;
        push_group(&mut out, data[i], data[i + 1], data[i + 2], data[i + 3], data[i + 4], 8);
        proof {
            let g = group(
                rest[0] as int,
                rest[1] as int,
                rest[2] as int,
                rest[3] as int,
                rest[4] as int,
            );
            assert(g.take(8) =~= g);
            assert(rest.skip(5) =~= data@.skip(i + 5));
            assert(encoded(rest) =~= g.map_values(|v: int| letter(v)) + encoded(rest.skip(5)));
            assert(out@ + encoded(data@.skip(i + 5)) =~= before + encoded(rest));
        }
        i = i + 5;
    }
    let left: usize = data.len() - i;
    let ghost rest = data@.skip(i as int);
    let ghost before = out@;
    if left == 1 {
        push_group(&mut out, data[i], 0, 0, 0, 0, 2);
    } else if left == 2 {
        push_group(&mut out, data[i], data[i + 1], 0, 0, 0, 4);
    } else if left == 3 {
        push_group(&mut out, data[i], data[i + 1], data[i + 2], 0, 0, 5);
    } else if left == 4 {
        push_group(&mut out, data[i], data[i + 1], data[i + 2], data[i + 3], 0, 7);
    }
    assert(out@ =~= before + encoded(rest));
    out
}

proof fn lemma_letters_differ(a: int, b: int)
    requires
        0 <= a < 32,
        0 <= b < 32,
        letter(a) == letter(b),
    ensures
        a == b,
{
}

/// The bytes of a group, from its values.
spec fn ungroup(q: Seq<int>) -> Seq<int> {
    seq![
        q[0] * 8 + q[1] / 4,
        (q[1] % 4) * 64 + q[2] * 2 + q[3] / 16,
        (q[3] % 16) * 16 + q[4] / 2,
        (q[4] % 2) * 128 + q[5] * 4 + q[6] / 8,
        (q[6] % 8) * 32 + q[7],
    ]
}

proof fn lemma_ungroup(a: int, b: int, c: int, d: int, e: int)
    requires
        0 <= a < 256,
        0 <= b < 256,
        0 <= c < 256,
        0 <= d < 256,
        0 <= e < 256,
    ensures
        ungroup(group(a, b, c, d, e)) == seq![a, b, c, d, e],
{
    let q = group(a, b, c, d, e);
    assert(q[0] * 8 + q[1] / 4 == a);
    assert((q[1] % 4) * 64 + q[2] * 2 + q[3] / 16 == b);
    assert((q[3] % 16) * 16 + q[4] / 2 == c);
    assert((q[4] % 2) * 128 + q[5] * 4 + q[6] / 8 == d);
    assert((q[6] % 8) * 32 + q[7] == e);
    assert(ungroup(q) =~= seq![a, b, c, d, e]);
}

spec fn byte_or_zero(data: Seq<u8>, i: int) -> int {
    if i < data.len() {
        data[i] as int
    } else {
        0
    }
}

/// The values of the first group of `data`, padded with zero bytes.
spec fn first_group(data: Seq<u8>) -> Seq<int> {
    group(
        byte_or_zero(data, 0),
        byte_or_zero(data, 1),
        byte_or_zero(data, 2),
        byte_or_zero(data, 3),
        byte_or_zero(data, 4),
    )
}

/// The values of a group that its length leaves out are zero.
proof fn lemma_rest_is_zero(data: Seq<u8>)
    requires
        0 < data.len() < 5,
    ensures
        quintets(data) == first_group(data).take(letters_for(data.len()) as int),
        forall|i: int| letters_for(data.len()) <= i < 8 ==> #[trigger] first_group(data)[i] == 0,
{
}

proof fn lemma_first_group(a: Seq<u8>, b: Seq<u8>)
    requires
        a.len() == b.len(),
        a.len() > 0,
        quintets(a) == quintets(b),
    ensures
        first_group(a) == first_group(b),
{
    if a.len() < 5 {
        lemma_rest_is_zero(a);
        lemma_rest_is_zero(b);
        let n = letters_for(a.len()) as int;
        assert forall|i: int| 0 <= i < 8 implies first_group(a)[i] == first_group(b)[i] by {
            if i < n {
                assert(first_group(a).take(n)[i] == first_group(b).take(n)[i]);
            }
        }
        assert(first_group(a) =~= first_group(b));
    } else {
        assert forall|i: int| 0 <= i < 8 implies first_group(a)[i] == first_group(b)[i] by {
            assert(quintets(a)[i] == first_group(a)[i]);
            assert(quintets(b)[i] == first_group(b)[i]);
        }
        assert(first_group(a) =~= first_group(b));
    }
}

proof fn lemma_quintets_injective(a: Seq<u8>, b: Seq<u8>)
    requires
        quintets(a) == quintets(b),
    ensures
        a == b,
    decreases a.len(),
{
    lemma_quintets(a);
    lemma_quintets(b);
    assert(a.len() == b.len()) by {
        let x = a.len() / 5;
        let y = b.len() / 5;
        let p = letters_for(a.len() % 5);
        let q = letters_for(b.len() % 5);
        assert(x * 8 + p == y * 8 + q);
        assert(x == y && p == q);
        assert(a.len() % 5 == b.len() % 5);
    }
    if a.len() == 0 {
        assert(a =~= b);
    } else {
        lemma_first_group(a, b);
        lemma_ungroup(
            byte_or_zero(a, 0),
            byte_or_zero(a, 1),
            byte_or_zero(a, 2),
            byte_or_zero(a, 3),
            byte_or_zero(a, 4),
        );
        lemma_ungroup(
            byte_or_zero(b, 0),
            byte_or_zero(b, 1),
            byte_or_zero(b, 2),
            byte_or_zero(b, 3),
            byte_or_zero(b, 4),
        );
        let x = seq![
            byte_or_zero(a, 0),
            byte_or_zero(a, 1),
            byte_or_zero(a, 2),
            byte_or_zero(a, 3),
            byte_or_zero(a, 4),
        ];
        let y = seq![
            byte_or_zero(b, 0),
            byte_or_zero(b, 1),
            byte_or_zero(b, 2),
            byte_or_zero(b, 3),
            byte_or_zero(b, 4),
        ];
        assert(x == y);
        assert(x[0] == y[0] && x[1] == y[1] && x[2] == y[2] && x[3] == y[3] && x[4] == y[4]);
        if a.len() >= 5 {
            assert(quintets(a).skip(8) =~= quintets(a.skip(5)));
            assert(quintets(b).skip(8) =~= quintets(b.skip(5)));
            lemma_quintets_injective(a.skip(5), b.skip(5));
            assert forall|i: int| 0 <= i < a.len() implies a[i] == b[i] by {
                if i >= 5 {
                    assert(a.skip(5)[i - 5] == b.skip(5)[i - 5]);
                }
            }
        }
        assert(a =~= b);
    }
}

/// An encoding stands for one byte string only.
pub proof fn encoding_is_injective(a: Seq<u8>, b: Seq<u8>)
    requires
        encoded(a) == encoded(b),
    ensures
        a == b,
{
    lemma_quintets(a);
    lemma_quintets(b);
    assert(quintets(a) =~= quintets(b)) by {
        assert(encoded(a).len() == quintets(a).len() && encoded(b).len() == quintets(b).len());
        assert forall|i: int| 0 <= i < quintets(a).len() implies quintets(a)[i] == quintets(
            b,
        )[i] by {
            assert(encoded(a)[i] == letter(quintets(a)[i]));
            assert(encoded(b)[i] == letter(quintets(b)[i]));
            lemma_letters_differ(quintets(a)[i], quintets(b)[i]);
        }
    }
    lemma_quintets_injective(a, b);
}

/// The bytes that `s` names, taken group by group, whether or not `s` is their encoding.
fn collect(s: &[u8]) -> (r: Option<Vec<u8>>)
    ensures
        r is None ==> forall|d: Seq<u8>| #[trigger] encoded(d) != s@,
        r matches Some(out) ==> forall|d: Seq<u8>| #[trigger] encoded(d) == s@ ==> d == out@,
{
    let mut values: Vec<u8> = Vec::new();
    let mut i: usize = 0;
    while i < s.len()
        invariant
            i <= s@.len(),
            values@.len() == i,
            forall|j: int| 0 <= j < i ==> (#[trigger] values@[j]) < 32 && letter(values@[j] as int) == s@[j],
        decreases s@.len() - i,
    {
        match from_letter(s[i]) {
            Some(v) => values.push(v),
            None => {
                assert forall|d: Seq<u8>| #[trigger] encoded(d) != s@ by {
                    lemma_quintets(d);
                    if encoded(d) == s@ {
                        assert(encoded(d)[i as int] == letter(quintets(d)[i as int]));
                    }
                }
                return None;
            },
        }
        i = i + 1;
    }
    let ghost q = values@.map_values(|v: u8| v as int);
    assert forall|d: Seq<u8>| #[trigger] encoded(d) == s@ implies quintets(d) == q by {
        lemma_quintets(d);
        assert forall|j: int| 0 <= j < q.len() implies quintets(d)[j] == q[j] by {
            assert(encoded(d)[j] == letter(quintets(d)[j]));
            lemma_letters_differ(quintets(d)[j], q[j]);
        }
        assert(quintets(d) =~= q);
    }
    let out = gather(&values);
    assert forall|d: Seq<u8>| #[trigger] encoded(d) == s@ implies d == out@ by {
        assert(quintets(d) == q);
    }
    Some(out)
}

spec fn value_at(q: Seq<int>, i: int) -> int {
    if i < q.len() {
        q[i]
    } else {
        0
    }
}

/// The bytes that a string of values names.
spec fn gathered(q: Seq<int>) -> Seq<int>
    decreases q.len(),
{
    let bytes = ungroup(
        seq![
            value_at(q, 0),
            value_at(q, 1),
            value_at(q, 2),
            value_at(q, 3),
            value_at(q, 4),
            value_at(q, 5),
            value_at(q, 6),
            value_at(q, 7),
        ],
    );
    if q.len() == 0 {
        Seq::empty()
    } else if q.len() < 8 {
        bytes.take(bytes_for(q.len()) as int)
    } else {
        bytes + gathered(q.skip(8))
    }
}

spec fn bytes_for(n: nat) -> nat {
    if n < 2 {
        0
    } else if n < 4 {
        1
    } else if n < 5 {
        2
    } else if n < 7 {
        3
    } else {
        4
    }
}

proof fn lemma_gathered(d: Seq<u8>)
    ensures
        gathered(quintets(d)) == d.map_values(|b: u8| b as int),
    decreases d.len(),
{
    lemma_quintets(d);
    let q = quintets(d);
    if d.len() == 0 {
        assert(gathered(q) =~= d.map_values(|b: u8| b as int));
    } else {
        lemma_ungroup(
            byte_or_zero(d, 0),
            byte_or_zero(d, 1),
            byte_or_zero(d, 2),
            byte_or_zero(d, 3),
            byte_or_zero(d, 4),
        );
        let v = seq![
            value_at(q, 0),
            value_at(q, 1),
            value_at(q, 2),
            value_at(q, 3),
            value_at(q, 4),
            value_at(q, 5),
            value_at(q, 6),
            value_at(q, 7),
        ];
        if d.len() < 5 {
            lemma_rest_is_zero(d);
            assert(v =~= first_group(d));
            assert(gathered(q) =~= d.map_values(|b: u8| b as int));
        } else {
            assert(q =~= first_group(d) + quintets(d.skip(5)));
            assert(v =~= first_group(d));
            assert(q.skip(8) =~= quintets(d.skip(5)));
            lemma_gathered(d.skip(5));
            assert(gathered(q) =~= d.map_values(|b: u8| b as int));
        }
    }
}

/// The bytes that a string of values names: those that have these values, where any do.
fn gather(values: &Vec<u8>) -> (r: Vec<u8>)
    requires
        forall|j: int| 0 <= j < values@.len() ==> (#[trigger] values@[j]) < 32,
    ensures
        forall|d: Seq<u8>|
            #[trigger] quintets(d) == values@.map_values(|v: u8| v as int) ==> d == r@,
{
    let ghost q = values@.map_values(|v: u8| v as int);
    let mut out: Vec<u8> = Vec::new();
    let mut i: usize = 0;
    assert(q.skip(0) =~= q);
    assert(out@.map_values(|b: u8| b as int) + gathered(q.skip(0)) =~= gathered(q));
    while i < values.len()
        invariant
            i <= values@.len(),
            q == values@.map_values(|v: u8| v as int),
            forall|j: int| 0 <= j < values@.len() ==> (#[trigger] values@[j]) < 32,
            out@.map_values(|b: u8| b as int) + gathered(q.skip(i as int)) == gathered(q),
        decreases values@.len() - i,
    {
        let total: usize = values.len();
        let left: usize = total - i;
        let g = octet(values, i);
        let ghost rest = q.skip(i as int);
        let ghost before = out@.map_values(|b: u8| b as int);
        let n: usize = if left < 2 {
            0
        } else if left < 4 {
            1
        } else if left < 5 {
            2
        } else if left < 7 {
            3
        } else if left < 8 {
            4
        } else {
            5
        };
        let ghost v = seq![
            value_at(rest, 0),
            value_at(rest, 1),
            value_at(rest, 2),
            value_at(rest, 3),
            value_at(rest, 4),
            value_at(rest, 5),
            value_at(rest, 6),
            value_at(rest, 7),
        ];
        let mut k: usize = 0;
        while k < n
            invariant
                k <= n <= 5,
                g@.map_values(|b: u8| b as int) == ungroup(v),
                out@.map_values(|b: u8| b as int) == before + ungroup(v).take(k as int),
            decreases n - k,
        {
            let ghost held = out@;
            assert(g@.map_values(|b: u8| b as int)[k as int] == g@[k as int]);
            out.push(g[k]);
            assert(out@.map_values(|b: u8| b as int) =~= held.map_values(|b: u8| b as int).push(
                ungroup(v)[k as int],
            ));
            assert(ungroup(v).take(k + 1) =~= ungroup(v).take(k as int).push(ungroup(v)[k as int]));
            assert(out@.map_values(|b: u8| b as int) =~= before + ungroup(v).take(k + 1));
            k = k + 1;
        }
        if left < 8 {
            assert(gathered(rest) =~= ungroup(v).take(n as int));
            i = total;
            assert(q.skip(i as int) =~= Seq::<int>::empty());
            assert(out@.map_values(|b: u8| b as int) + gathered(q.skip(i as int)) =~= before
                + gathered(rest));
        } else {
            assert(ungroup(v).take(5) =~= ungroup(v));
            assert(rest.skip(8) =~= q.skip(i + 8));
            assert(out@.map_values(|b: u8| b as int) + gathered(q.skip(i + 8)) =~= before
                + gathered(rest));
            i = i + 8;
        }
    }
    assert(q.skip(i as int) =~= Seq::<int>::empty());
    assert(out@.map_values(|b: u8| b as int) =~= gathered(q));
    assert forall|d: Seq<u8>| #[trigger] quintets(d) == q implies d == out@ by {
        lemma_gathered(d);
        let x = d.map_values(|b: u8| b as int);
        let y = out@.map_values(|b: u8| b as int);
        assert(x == y);
        assert(d.len() == x.len() && out@.len() == y.len());
        assert forall|j: int| 0 <= j < d.len() implies d[j] == out@[j] by {
            assert(x[j] == y[j]);
        }
        assert(d =~= out@);
    }
    out
}

/// The five bytes of the group of values at `i`, missing values counting as zero.
fn octet(values: &Vec<u8>, i: usize) -> (r: [u8; 5])
    requires
        i < values@.len(),
        forall|j: int| 0 <= j < values@.len() ==> (#[trigger] values@[j]) < 32,
    ensures
        r@.map_values(|b: u8| b as int) == ungroup(
            ({
                let rest = values@.map_values(|v: u8| v as int).skip(i as int);
                seq![
                    value_at(rest, 0),
                    value_at(rest, 1),
                    value_at(rest, 2),
                    value_at(rest, 3),
                    value_at(rest, 4),
                    value_at(rest, 5),
                    value_at(rest, 6),
                    value_at(rest, 7),
                ]
            }),
        ),
{
    let p: u8 = values[i];
    let a: u8 = value_after(values, i, 1);
    let b: u8 = value_after(values, i, 2);
    let c: u8 = value_after(values, i, 3);
    let d: u8 = value_after(values, i, 4);
    let e: u8 = value_after(values, i, 5);
    let f: u8 = value_after(values, i, 6);
    let g: u8 = value_after(values, i, 7);
    let r: [u8; 5] = [
        p * 8 + a / 4,
        (a % 4) * 64 + b * 2 + c / 16,
        (c % 16) * 16 + d / 2,
        (d % 2) * 128 + e * 4 + f / 8,
        (f % 8) * 32 + g,
    ];
    proof {
        let rest = values@.map_values(|v: u8| v as int).skip(i as int);
        let v = seq![
            value_at(rest, 0),
            value_at(rest, 1),
            value_at(rest, 2),
            value_at(rest, 3),
            value_at(rest, 4),
            value_at(rest, 5),
            value_at(rest, 6),
            value_at(rest, 7),
        ];
        assert(rest[0] == p as int);
        assert(v =~= seq![
            p as int,
            a as int,
            b as int,
            c as int,
            d as int,
            e as int,
            f as int,
            g as int,
        ]);
        assert(r@.map_values(|x: u8| x as int) =~= ungroup(v));
    }
    r
}

fn value_after(values: &Vec<u8>, i: usize, k: usize) -> (r: u8)
    requires
        i < values@.len(),
        1 <= k < 8,
        forall|j: int| 0 <= j < values@.len() ==> (#[trigger] values@[j]) < 32,
    ensures
        r < 32,
        r == value_at(values@.map_values(|v: u8| v as int).skip(i as int), k as int),
{
    let ghost rest = values@.map_values(|v: u8| v as int).skip(i as int);
    if k < values.len() - i {
        assert(rest[k as int] == values@[i + k]);
        values[i + k]
    } else {
        0
    }
}

/// The bytes that `s` stands for, where it is the base32 of at most `limit` bytes.
pub fn base32_decode(s: &[u8], limit: usize) -> (r: Option<Vec<u8>>)
    ensures
        match r {
            Some(d) => decoded(s@, limit as nat) == Some(d@),
            None => decoded(s@, limit as nat) is None,
        },
{
    match collect(s) {
        Some(out) => {
            let again = base32_encode(out.as_slice());
            if crate::bytes::bytes_equal(again.as_slice(), s) && out.len() <= limit {
                proof {
                    let d = choose|d: Seq<u8>| #[trigger] encoded(d) == s@ && d.len() <= limit;
                    assert(encoded(out@) == s@ && out@.len() <= limit);
                    encoding_is_injective(d, out@);
                }
                Some(out)
            } else {
                None
            }
        },
        None => None,
    }
}

/// An encoding decodes, where there is room for what it stands for.
pub proof fn encoded_decodes(data: Seq<u8>, limit: nat)
    requires
        data.len() <= limit,
    ensures
        decoded(encoded(data), limit) == Some(data),
{
    let d = choose|d: Seq<u8>| #[trigger] encoded(d) == encoded(data) && d.len() <= limit;
    assert(encoded(data) == encoded(data) && data.len() <= limit);
    encoding_is_injective(d, data);
}

/// An encoding is made of capital letters and of the digits from two to seven.
pub proof fn encoding_letters(data: Seq<u8>)
    ensures
        forall|i: int|
            0 <= i < encoded(data).len() ==> (65 <= #[trigger] encoded(data)[i] <= 90 || 50
                <= encoded(data)[i] <= 55),
{
    lemma_quintets(data);
}

/// The alphabet: capitals, and the digits from two to seven.
pub proof fn the_alphabet(v: int)
    requires
        0 <= v < 32,
    ensures
        letter(v) == crate::bytes::text("ABCDEFGHIJKLMNOPQRSTUVWXYZ234567")[v],
{
    reveal_strlit("ABCDEFGHIJKLMNOPQRSTUVWXYZ234567");
    let letters = crate::bytes::text("ABCDEFGHIJKLMNOPQRSTUVWXYZ234567");
    assert("ABCDEFGHIJKLMNOPQRSTUVWXYZ234567".is_ascii());
    assert(letter(0) == letters[0]);
    assert(letter(1) == letters[1]);
    assert(letter(2) == letters[2]);
    assert(letter(3) == letters[3]);
    assert(letter(4) == letters[4]);
    assert(letter(5) == letters[5]);
    assert(letter(6) == letters[6]);
    assert(letter(7) == letters[7]);
    assert(letter(8) == letters[8]);
    assert(letter(9) == letters[9]);
    assert(letter(10) == letters[10]);
    assert(letter(11) == letters[11]);
    assert(letter(12) == letters[12]);
    assert(letter(13) == letters[13]);
    assert(letter(14) == letters[14]);
    assert(letter(15) == letters[15]);
    assert(letter(16) == letters[16]);
    assert(letter(17) == letters[17]);
    assert(letter(18) == letters[18]);
    assert(letter(19) == letters[19]);
    assert(letter(20) == letters[20]);
    assert(letter(21) == letters[21]);
    assert(letter(22) == letters[22]);
    assert(letter(23) == letters[23]);
    assert(letter(24) == letters[24]);
    assert(letter(25) == letters[25]);
    assert(letter(26) == letters[26]);
    assert(letter(27) == letters[27]);
    assert(letter(28) == letters[28]);
    assert(letter(29) == letters[29]);
    assert(letter(30) == letters[30]);
    assert(letter(31) == letters[31]);
    if v < 26 {
        assert(letters[v] == 65 + v);
    }
}

/// Five bytes are the eight letters of their forty bits, five at a time from the top.
pub proof fn five_bytes_are_eight_letters(data: Seq<u8>, q: Seq<int>)
    requires
        data.len() >= 5,
        q.len() == 8,
        forall|i: int| 0 <= i < 8 ==> 0 <= #[trigger] q[i] < 32,
        data[0] * 4294967296 + data[1] * 16777216 + data[2] * 65536 + data[3] * 256 + data[4] == q[0]
            * 34359738368 + q[1] * 1073741824 + q[2] * 33554432 + q[3] * 1048576 + q[4] * 32768 + q[5]
            * 1024 + q[6] * 32 + q[7],
    ensures
        encoded(data) == q.map_values(|v: int| letter(v)) + encoded(data.skip(5)),
{
    let (a, b, c, d, e) = (
        data[0] as int,
        data[1] as int,
        data[2] as int,
        data[3] as int,
        data[4] as int,
    );
    lemma_bits(a, b, c, d, e, q);
    assert(group(a, b, c, d, e) =~= q);
    assert(encoded(data) =~= group(a, b, c, d, e).map_values(|v: int| letter(v)) + encoded(
        data.skip(5),
    ));
}

#[verifier::spinoff_prover]
#[verifier::rlimit(100)]
proof fn lemma_bits(a: int, b: int, c: int, d: int, e: int, q: Seq<int>)
    requires
        0 <= a < 256 && 0 <= b < 256 && 0 <= c < 256 && 0 <= d < 256 && 0 <= e < 256,
        q.len() == 8,
        forall|i: int| 0 <= i < 8 ==> 0 <= #[trigger] q[i] < 32,
        a * 4294967296 + b * 16777216 + c * 65536 + d * 256 + e == q[0] * 34359738368 + q[1]
            * 1073741824 + q[2] * 33554432 + q[3] * 1048576 + q[4] * 32768 + q[5] * 1024 + q[6] * 32
            + q[7],
    ensures
        a / 8 == q[0],
        (a % 8) * 4 + b / 64 == q[1],
        b / 2 % 32 == q[2],
        (b % 2) * 16 + c / 16 == q[3],
        (c % 16) * 2 + d / 128 == q[4],
        d / 4 % 32 == q[5],
        (d % 4) * 8 + e / 32 == q[6],
        e % 32 == q[7],
{
    lemma_split(a, b, c, d, e);
    lemma_joined(
        a,
        b,
        c,
        d,
        e,
        seq![a / 8, a % 8, b / 64, b / 2 % 32, b % 2, c / 16, c % 16, d / 128, d / 4 % 32, d % 4, e
            / 32, e % 32],
        q,
    );
}

#[verifier::spinoff_prover]
#[verifier::rlimit(100)]
proof fn lemma_split(a: int, b: int, c: int, d: int, e: int)
    requires
        0 <= a < 256 && 0 <= b < 256 && 0 <= c < 256 && 0 <= d < 256 && 0 <= e < 256,
    ensures
        a == 8 * (a / 8) + a % 8,
        0 <= a / 8 < 32 && 0 <= a % 8 < 8,
        b == 64 * (b / 64) + 2 * (b / 2 % 32) + b % 2,
        0 <= b / 64 < 4 && 0 <= b / 2 % 32 < 32 && 0 <= b % 2 < 2,
        c == 16 * (c / 16) + c % 16,
        0 <= c / 16 < 16 && 0 <= c % 16 < 16,
        d == 128 * (d / 128) + 4 * (d / 4 % 32) + d % 4,
        0 <= d / 128 < 2 && 0 <= d / 4 % 32 < 32 && 0 <= d % 4 < 4,
        e == 32 * (e / 32) + e % 32,
        0 <= e / 32 < 8 && 0 <= e % 32 < 32,
{
    assert(b / 64 == b / 2 / 32);
    assert(d / 128 == d / 4 / 32);
}

#[verifier::spinoff_prover]
#[verifier::rlimit(100)]
proof fn lemma_joined(a: int, b: int, c: int, d: int, e: int, p: Seq<int>, q: Seq<int>)
    requires
        p.len() == 12,
        a == 8 * p[0] + p[1] && 0 <= p[0] < 32 && 0 <= p[1] < 8,
        b == 64 * p[2] + 2 * p[3] + p[4] && 0 <= p[2] < 4 && 0 <= p[3] < 32 && 0 <= p[4] < 2,
        c == 16 * p[5] + p[6] && 0 <= p[5] < 16 && 0 <= p[6] < 16,
        d == 128 * p[7] + 4 * p[8] + p[9] && 0 <= p[7] < 2 && 0 <= p[8] < 32 && 0 <= p[9] < 4,
        e == 32 * p[10] + p[11] && 0 <= p[10] < 8 && 0 <= p[11] < 32,
        q.len() == 8,
        forall|i: int| 0 <= i < 8 ==> 0 <= #[trigger] q[i] < 32,
        a * 4294967296 + b * 16777216 + c * 65536 + d * 256 + e == q[0] * 34359738368 + q[1]
            * 1073741824 + q[2] * 33554432 + q[3] * 1048576 + q[4] * 32768 + q[5] * 1024 + q[6] * 32
            + q[7],
    ensures
        q[0] == p[0] && q[1] == p[1] * 4 + p[2] && q[2] == p[3] && q[3] == p[4] * 16 + p[5],
        q[4] == p[6] * 2 + p[7] && q[5] == p[8] && q[6] == p[9] * 8 + p[10] && q[7] == p[11],
{
    lemma_places(
        p[0],
        p[1] * 4 + p[2],
        p[3],
        p[4] * 16 + p[5],
        p[6] * 2 + p[7],
        p[8],
        p[9] * 8 + p[10],
        p[11],
        q,
    );
}

/// Eight places of five bits name one number each way.
#[verifier::spinoff_prover]
#[verifier::rlimit(100)]
proof fn lemma_places(
    s: int,
    t: int,
    u: int,
    v: int,
    w: int,
    x: int,
    y: int,
    z: int,
    q: Seq<int>,
)
    requires
        0 <= s < 32 && 0 <= t < 32 && 0 <= u < 32 && 0 <= v < 32,
        0 <= w < 32 && 0 <= x < 32 && 0 <= y < 32 && 0 <= z < 32,
        q.len() == 8,
        forall|i: int| 0 <= i < 8 ==> 0 <= #[trigger] q[i] < 32,
        s * 34359738368 + t * 1073741824 + u * 33554432 + v * 1048576 + w * 32768 + x * 1024 + y * 32
            + z == q[0] * 34359738368 + q[1] * 1073741824 + q[2] * 33554432 + q[3] * 1048576 + q[4]
            * 32768 + q[5] * 1024 + q[6] * 32 + q[7],
    ensures
        q[0] == s && q[1] == t && q[2] == u && q[3] == v,
        q[4] == w && q[5] == x && q[6] == y && q[7] == z,
{
    let (q0, q1, q2, q3, q4, q5, q6, q7) = (q[0], q[1], q[2], q[3], q[4], q[5], q[6], q[7]);
    assert(q0 == s);
    assert(q1 == t);
    assert(q2 == u);
    assert(q3 == v);
    assert(q4 == w);
    assert(q5 == x);
    assert(q6 == y);
}

/// What is left at the end is filled up with zero bits, and has as many letters as its bits need.
pub proof fn a_short_group_is_filled_with_zeros(data: Seq<u8>, zeros: Seq<u8>)
    requires
        0 < data.len() < 5,
        zeros.len() == 5 - data.len(),
        forall|i: int| 0 <= i < zeros.len() ==> #[trigger] zeros[i] == 0,
    ensures
        encoded(data) == encoded(data + zeros).take((8 * data.len() as int + 4) / 5),
        encoded(Seq::<u8>::empty()).len() == 0,
{
    let all = data + zeros;
    assert(all.skip(5) =~= Seq::<u8>::empty());
    assert(quintets(Seq::<u8>::empty()) =~= Seq::<int>::empty());
    assert(quintets(all) =~= group(
        all[0] as int,
        all[1] as int,
        all[2] as int,
        all[3] as int,
        all[4] as int,
    ));
    assert(letters_for(data.len()) == (8 * data.len() + 4) / 5);
    assert(quintets(data) =~= quintets(all).take((8 * data.len() as int + 4) / 5));
    assert(encoded(data) =~= encoded(all).take((8 * data.len() as int + 4) / 5));
}

} // verus!
