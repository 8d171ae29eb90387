//! Public keys as JSON web keys: the canonical form of one, its thumbprint, and signatures under
//! it.
use vstd::prelude::*;

use crate::base64;
use crate::bytes;
use crate::bytes::{append, bytes_equal};
use crate::claims;
use crate::claims::{claim_or_empty, claim_str, RecordWriter, Value};
use crate::crypto;
use crate::crypto::{ecdsa_verify, ed25519_verify, sha256_into};

verus! {

/// Longest value of a key's member.
pub const MAX_MEMBER: usize = 128;

/// The members that a key's kind requires, in the order of their names. A kind that is not known
/// has none.
pub open spec fn required(crv: Seq<u8>, kty: Seq<u8>, x: Seq<u8>, y: Seq<u8>) -> Option<
    Seq<(Seq<u8>, Value)>,
> {
    if crv.len() == 0 || x.len() == 0 {
        None
    } else if kty == bytes::text("OKP") {
        Some(
            seq![
                (bytes::text("crv"), Value::Text(crv)),
                (bytes::text("kty"), Value::Text(kty)),
                (bytes::text("x"), Value::Text(x)),
            ],
        )
    } else if kty == bytes::text("EC") && y.len() > 0 {
        Some(
            seq![
                (bytes::text("crv"), Value::Text(crv)),
                (bytes::text("kty"), Value::Text(kty)),
                (bytes::text("x"), Value::Text(x)),
                (bytes::text("y"), Value::Text(y)),
            ],
        )
    } else {
        None
    }
}

/// The canonical form of the key that `object` holds: its required members and nothing else,
/// ordered and without space.
pub open spec fn canonical(object: Seq<u8>) -> Option<Seq<u8>> {
    let crv = claims::text_or_empty(object, bytes::text("crv"));
    let kty = claims::text_or_empty(object, bytes::text("kty"));
    let x = claims::text_or_empty(object, bytes::text("x"));
    let y = claims::text_or_empty(object, bytes::text("y"));
    if crv.len() > 128 || kty.len() > 128 || x.len() > 128 || y.len() > 128 {
        None
    } else {
        match required(crv, kty, x, y) {
            Some(members) => Some(claims::record_bytes(members)),
            None => None,
        }
    }
}

/// The canonical form of the key that `object` holds.
pub fn read_canonical(object: &[u8]) -> (r: Option<Vec<u8>>)
    ensures
        match r {
            Some(c) => canonical(object@) == Some(c@),
            None => canonical(object@) is None,
        },
{
    let crv = claim_or_empty(object, "crv".as_bytes());
    let kty = claim_or_empty(object, "kty".as_bytes());
    let x = claim_or_empty(object, "x".as_bytes());
    let y = claim_or_empty(object, "y".as_bytes());
    if crv.len() > MAX_MEMBER || kty.len() > MAX_MEMBER || x.len() > MAX_MEMBER || y.len()
        > MAX_MEMBER {
        return None;
    }
    if crv.len() == 0 || x.len() == 0 {
        return None;
    }
    let point = if bytes_equal(kty, "OKP".as_bytes()) {
        false
    } else if bytes_equal(kty, "EC".as_bytes()) && y.len() > 0 {
        true
    } else {
        return None;
    };
    proof {
        lemma_kinds_differ();
    }
    let mut w = RecordWriter::new();
    w.text("crv", crv);
    w.text("kty", kty);
    w.text("x", x);
    if point {
        w.text("y", y);
    }
    assert(w.members@ =~= required(crv@, kty@, x@, y@)->0);
    Some(w.close())
}

proof fn lemma_kinds_differ()
    ensures
        bytes::text("OKP") != bytes::text("EC"),
{
    reveal_strlit("OKP");
    reveal_strlit("EC");
    assert("OKP".is_ascii());
    assert("EC".is_ascii());
    assert(bytes::text("OKP").len() == 3);
    assert(bytes::text("EC").len() == 2);
}

/// The thumbprint of a key in its canonical form.
pub open spec fn thumbprint(canonical: Seq<u8>) -> Seq<u8> {
    base64::encoded(crypto::sha256(canonical))
}

pub fn thumbprint_from_canonical(canonical: &[u8]) -> (r: Vec<u8>)
    ensures
        r@ == thumbprint(canonical@),
{
    encode_digest(canonical)
}

/// The digest of `data`, as text.
pub fn encode_digest(data: &[u8]) -> (r: Vec<u8>)
    ensures
        r@ == base64::encoded(crypto::sha256(data@)),
        r@.len() == 43,
{
    let mut digest: [u8; 32] = [0u8; 32];
    sha256_into(data, &mut digest);
    proof {
        base64::encoding_length(digest@);
    }
    base64::encode(digest.as_slice())
}

/// The identifier of the device that holds a key: the first letters of its thumbprint.
pub open spec fn device_id(canonical: Seq<u8>) -> Seq<u8> {
    bytes::clipped(thumbprint(canonical), 22)
}

pub fn device_id_from_canonical(canonical: &[u8]) -> (r: Vec<u8>)
    ensures
        r@ == device_id(canonical@),
        r@.len() == 22,
{
    let digest = encode_digest(canonical);
    bytes::copy_field(digest.as_slice(), 22)
}

/// Every letter of `s` in lower case.
pub open spec fn lowered(s: Seq<u8>) -> Seq<u8> {
    crate::http::lowered(s)
}

/// `s` in lower case.
pub fn lower_case(s: &[u8]) -> (r: Vec<u8>)
    ensures
        r@ == lowered(s@),
{
    let mut out: Vec<u8> = Vec::new();
    let mut i: usize = 0;
    while i < s.len()
        invariant
            i <= s@.len(),
            out@.len() == i,
            forall|j: int| 0 <= j < i ==> #[trigger] out@[j] == bytes::lower(s@[j]),
        decreases s@.len() - i,
    {
        out.push(bytes::to_lower(s[i]));
        i = i + 1;
    }
    assert(out@ =~= lowered(s@));
    out
}

/// The identifier of a tenant, derived from the issuer's secret and from a subject in lower case.
/// The subject is the address of the mailbox; for a challenge that does not name its tenant it is
/// the hash of that address.
pub open spec fn tenant(secret: Seq<u8>, subject: Seq<u8>) -> Seq<u8> {
    bytes::clipped(
        base64::encoded(crypto::hkdf_sha256(bytes::text("tenant-id"), secret, lowered(subject))),
        22,
    )
}

pub fn tenant_id(secret: &[u8], subject: &[u8]) -> (r: Vec<u8>)
    ensures
        r@ == tenant(secret@, subject@),
        r@.len() == 22,
{
    let info = lower_case(subject);
    let mut okm: [u8; 32] = [0u8; 32];
    crypto::hkdf_into("tenant-id".as_bytes(), secret, info.as_slice(), &mut okm);
    proof {
        base64::encoding_length(okm@);
    }
    let text = base64::encode(okm.as_slice());
    bytes::copy_field(text.as_slice(), 22)
}

/// Two subjects that differ in the case of their letters alone are one tenant.
pub proof fn case_does_not_matter(secret: Seq<u8>, a: Seq<u8>, b: Seq<u8>)
    requires
        bytes::same_letters(a, b),
    ensures
        tenant(secret, a) == tenant(secret, b),
{
    assert(lowered(a) =~= lowered(b));
}

/// The bytes that a member of a key names, where there are 32.
pub open spec fn coordinate(canonical: Seq<u8>, name: &str) -> Option<Seq<u8>> {
    match claims::text_claim(canonical, bytes::text(name)) {
        Some(text) => match base64::decoded(text, 32) {
            Some(d) => if d.len() == 32 {
                Some(d)
            } else {
                None
            },
            None => None,
        },
        None => None,
    }
}

fn read_coordinate(canonical: &[u8], name: &str) -> (r: Option<Vec<u8>>)
    ensures
        match r {
            Some(d) => coordinate(canonical@, name) == Some(d@),
            None => coordinate(canonical@, name) is None,
        },
{
    match claim_str(canonical, name.as_bytes()) {
        Some(text) => match base64::decode(text, 32) {
            Some(d) => if d.len() == 32 {
                Some(d)
            } else {
                None
            },
            None => None,
        },
        None => None,
    }
}

/// `signature` is one of `message` under the key whose canonical form is `canonical`. The
/// algorithm is that of the key's own kind, and of nothing that the caller wrote.
pub open spec fn signed_by(canonical: Seq<u8>, message: Seq<u8>, signature: Seq<u8>) -> bool {
    match claims::text_claim(canonical, bytes::text("kty")) {
        Some(kty) => if kty == bytes::text("OKP") {
            coordinate(canonical, "x") matches Some(x) && crypto::ed25519_valid(
                x,
                message,
                signature,
            )
        } else if kty == bytes::text("EC") {
            coordinate(canonical, "x") matches Some(x) && coordinate(canonical, "y") matches Some(
                y,
            ) && crypto::ecdsa_valid(seq![4u8] + x + y, crypto::sha256(message), signature)
        } else {
            false
        },
        None => false,
    }
}

/// Verify a signature under a key in its canonical form.
pub fn verify(canonical: &[u8], message: &[u8], signature: &[u8]) -> (r: bool)
    ensures
        r == signed_by(canonical@, message@, signature@),
{
    let kty = match claim_str(canonical, "kty".as_bytes()) {
        Some(kty) => kty,
        None => {
            return false;
        },
    };
    if bytes_equal(kty, "OKP".as_bytes()) {
        match read_coordinate(canonical, "x") {
            Some(x) => ed25519_verify(x.as_slice(), message, signature),
            None => false,
        }
    } else if bytes_equal(kty, "EC".as_bytes()) {
        match (read_coordinate(canonical, "x"), read_coordinate(canonical, "y")) {
            (Some(x), Some(y)) => {
                let mut point: Vec<u8> = Vec::new();
                point.push(4);
                append(&mut point, x.as_slice());
                append(&mut point, y.as_slice());
                assert(point@ =~= seq![4u8] + x@ + y@);
                let mut digest: [u8; 32] = [0u8; 32];
                sha256_into(message, &mut digest);
                ecdsa_verify(point.as_slice(), digest.as_slice(), signature)
            },
            _ => false,
        }
    } else {
        false
    }
}

/// Two spellings of one key have one canonical form: it is made of what the members say, whatever
/// their order and whatever stands beside them.
pub proof fn spelling_does_not_matter(a: Seq<u8>, b: Seq<u8>)
    requires
        claims::text_claim(a, bytes::text("crv")) == claims::text_claim(b, bytes::text("crv")),
        claims::text_claim(a, bytes::text("kty")) == claims::text_claim(b, bytes::text("kty")),
        claims::text_claim(a, bytes::text("x")) == claims::text_claim(b, bytes::text("x")),
        claims::text_claim(a, bytes::text("y")) == claims::text_claim(b, bytes::text("y")),
    ensures
        canonical(a) == canonical(b),
{
}

/// The subject of a tenant is taken whole, letter by letter: what the identifier is derived from
/// has the length of the subject, and at each place its letter, a capital as the small one.
pub proof fn the_whole_subject_counts(secret: Seq<u8>, subject: Seq<u8>, info: Seq<u8>)
    requires
        info.len() == subject.len(),
        forall|i: int|
            0 <= i < subject.len() ==> #[trigger] info[i] == if 65 <= subject[i] <= 90 {
                (subject[i] + 32) as u8
            } else {
                subject[i]
            },
    ensures
        ({
            let text = base64::encoded(
                crypto::hkdf_sha256(bytes::text("tenant-id"), secret, info),
            );
            &&& text.len() >= 22 ==> tenant(secret, subject) == text.take(22)
            &&& text.len() < 22 ==> tenant(secret, subject) == text
        }),
{
    assert(lowered(subject) =~= info);
}

/// Two subjects that differ in more than the case of their letters give two derivations: nothing
/// of either is left out.
pub proof fn other_subjects_are_other_inputs(a: Seq<u8>, b: Seq<u8>)
    ensures
        lowered(a).len() == a.len(),
        lowered(a) == lowered(b) <==> a.len() == b.len() && forall|i: int|
            0 <= i < a.len() ==> (#[trigger] a[i] == b[i] || (65 <= a[i] <= 90 && b[i] == a[i] + 32)
                || (65 <= b[i] <= 90 && a[i] == b[i] + 32)),
{
    if lowered(a) == lowered(b) {
        assert forall|i: int| 0 <= i < a.len() implies (#[trigger] a[i] == b[i] || (65 <= a[i] <= 90
            && b[i] == a[i] + 32) || (65 <= b[i] <= 90 && a[i] == b[i] + 32)) by {
            assert(lowered(a)[i] == bytes::lower(a[i]));
            assert(lowered(b)[i] == bytes::lower(b[i]));
        }
    }
    if a.len() == b.len() && forall|i: int|
        0 <= i < a.len() ==> (#[trigger] a[i] == b[i] || (65 <= a[i] <= 90 && b[i] == a[i] + 32) || (
        65 <= b[i] <= 90 && a[i] == b[i] + 32)) {
        assert(lowered(a) =~= lowered(b));
    }
}

/// A key is named by its members: the canonical form is the object of exactly the required ones,
/// and there is none without a curve and an `x`, for a kind that is not known, or for a point
/// without its `y`.
pub proof fn the_canonical_form_is_the_required_members(
    object: Seq<u8>,
    crv: Seq<u8>,
    kty: Seq<u8>,
    x: Seq<u8>,
)
    requires
        claims::text_claim(object, bytes::text("crv")) == Some(crv),
        claims::text_claim(object, bytes::text("kty")) == Some(kty),
        claims::text_claim(object, bytes::text("x")) == Some(x),
    ensures
        ({
            let y = claims::text_claim(object, bytes::text("y"));
            let short = crv.len() <= 128 && kty.len() <= 128 && x.len() <= 128 && (y is Some
                ==> y->0.len() <= 128);
            let whole = crv.len() > 0 && x.len() > 0;
            let front = bytes::text("{\"crv\":\"") + crv + bytes::text("\",\"kty\":\"") + kty
                + bytes::text("\",\"x\":\"") + x;
            &&& !short || !whole ==> canonical(object) is None
            &&& kty != bytes::text("OKP") && kty != bytes::text("EC") ==> canonical(object) is None
            &&& short && whole && kty == bytes::text("OKP") ==> canonical(object) == Some(
                front + bytes::text("\"}"),
            )
            &&& short && whole && kty == bytes::text("EC") ==> canonical(object) == match y {
                Some(y) => if y.len() > 0 {
                    Some(front + bytes::text("\",\"y\":\"") + y + bytes::text("\"}"))
                } else {
                    None
                },
                None => None,
            }
        }),
{
    lemma_kinds_differ();
    let y = claims::text_or_empty(object, bytes::text("y"));
    lemma_required_text(crv, kty, x, y);
}

#[verifier::spinoff_prover]
#[verifier::rlimit(100)]
proof fn lemma_required_text(crv: Seq<u8>, kty: Seq<u8>, x: Seq<u8>, y: Seq<u8>)
    ensures
        ({
            let front = bytes::text("{\"crv\":\"") + crv + bytes::text("\",\"kty\":\"") + kty
                + bytes::text("\",\"x\":\"") + x;
            let three = seq![
                (bytes::text("crv"), Value::Text(crv)),
                (bytes::text("kty"), Value::Text(kty)),
                (bytes::text("x"), Value::Text(x)),
            ];
            &&& claims::record_bytes(three) == front + bytes::text("\"}")
            &&& claims::record_bytes(three.push((bytes::text("y"), Value::Text(y)))) == front
                + bytes::text("\",\"y\":\"") + y + bytes::text("\"}")
            &&& three.push((bytes::text("y"), Value::Text(y))) == seq![
                (bytes::text("crv"), Value::Text(crv)),
                (bytes::text("kty"), Value::Text(kty)),
                (bytes::text("x"), Value::Text(x)),
                (bytes::text("y"), Value::Text(y)),
            ]
        }),
{
    lemma_canonical_text();
    let none = Seq::<(Seq<u8>, Value)>::empty();
    let one = none.push((bytes::text("crv"), Value::Text(crv)));
    let two = one.push((bytes::text("kty"), Value::Text(kty)));
    let three = two.push((bytes::text("x"), Value::Text(x)));
    let four = three.push((bytes::text("y"), Value::Text(y)));
    claims::lemma_members_push(none, (bytes::text("crv"), Value::Text(crv)));
    claims::lemma_members_push(one, (bytes::text("kty"), Value::Text(kty)));
    claims::lemma_members_push(two, (bytes::text("x"), Value::Text(x)));
    claims::lemma_members_push(three, (bytes::text("y"), Value::Text(y)));
    assert(three =~= seq![
        (bytes::text("crv"), Value::Text(crv)),
        (bytes::text("kty"), Value::Text(kty)),
        (bytes::text("x"), Value::Text(x)),
    ]);
    let front = bytes::text("{\"crv\":\"") + crv + bytes::text("\",\"kty\":\"") + kty
        + bytes::text("\",\"x\":\"") + x;
    assert(seq![123u8] + claims::members_bytes(one) =~= bytes::text("{\"crv\":\"") + crv
        + seq![34u8]);
    assert(seq![123u8] + claims::members_bytes(two) =~= bytes::text("{\"crv\":\"") + crv
        + bytes::text("\",\"kty\":\"") + kty + seq![34u8]);
    assert(seq![123u8] + claims::members_bytes(three) =~= front + seq![34u8]);
    assert(claims::record_bytes(three) =~= front + bytes::text("\"}"));
    assert(claims::record_bytes(four) =~= front + bytes::text("\",\"y\":\"") + y + bytes::text(
        "\"}",
    ));
}

proof fn lemma_canonical_text()
    ensures
        bytes::text("crv") == seq![99u8, 114, 118],
        bytes::text("kty") == seq![107u8, 116, 121],
        bytes::text("x") == seq![120u8],
        bytes::text("y") == seq![121u8],
        bytes::text("{\"crv\":\"") == seq![123u8, 34, 99, 114, 118, 34, 58, 34],
        bytes::text("\",\"kty\":\"") == seq![34u8, 44, 34, 107, 116, 121, 34, 58, 34],
        bytes::text("\",\"x\":\"") == seq![34u8, 44, 34, 120, 34, 58, 34],
        bytes::text("\",\"y\":\"") == seq![34u8, 44, 34, 121, 34, 58, 34],
        bytes::text("\"}") == seq![34u8, 125],
{
    reveal_strlit("crv");
    reveal_strlit("kty");
    reveal_strlit("x");
    reveal_strlit("y");
    reveal_strlit("{\"crv\":\"");
    reveal_strlit("\",\"kty\":\"");
    reveal_strlit("\",\"x\":\"");
    reveal_strlit("\",\"y\":\"");
    reveal_strlit("\"}");
    assert("crv".is_ascii() && "kty".is_ascii() && "x".is_ascii() && "y".is_ascii());
    assert("{\"crv\":\"".is_ascii() && "\",\"kty\":\"".is_ascii());
    assert("\",\"x\":\"".is_ascii() && "\",\"y\":\"".is_ascii() && "\"}".is_ascii());
    assert(bytes::text("crv") =~= seq![99u8, 114, 118]);
    assert(bytes::text("kty") =~= seq![107u8, 116, 121]);
    assert(bytes::text("x") =~= seq![120u8]);
    assert(bytes::text("y") =~= seq![121u8]);
    assert(bytes::text("{\"crv\":\"") =~= seq![123u8, 34, 99, 114, 118, 34, 58, 34]);
    assert(bytes::text("\",\"kty\":\"") =~= seq![34u8, 44, 34, 107, 116, 121, 34, 58, 34]);
    assert(bytes::text("\",\"x\":\"") =~= seq![34u8, 44, 34, 120, 34, 58, 34]);
    assert(bytes::text("\",\"y\":\"") =~= seq![34u8, 44, 34, 121, 34, 58, 34]);
    assert(bytes::text("\"}") =~= seq![34u8, 125]);
}

/// A signature is checked in the way of the key's own kind, over the message and with the 32 bytes
/// that its members encode; a key of another kind, or with other members, has signed nothing.
pub proof fn signed_in_the_way_of_the_key(
    canonical: Seq<u8>,
    message: Seq<u8>,
    signature: Seq<u8>,
    x: Seq<u8>,
    y: Seq<u8>,
)
    requires
        x.len() == 32,
        y.len() == 32,
        claims::text_claim(canonical, bytes::text("x")) == Some(base64::encoded(x)),
    ensures
        claims::text_claim(canonical, bytes::text("kty")) == Some(bytes::text("OKP")) ==> signed_by(
            canonical,
            message,
            signature,
        ) == crypto::ed25519_valid(x, message, signature),
        claims::text_claim(canonical, bytes::text("kty")) == Some(bytes::text("EC"))
            && claims::text_claim(canonical, bytes::text("y")) == Some(base64::encoded(y))
            ==> signed_by(canonical, message, signature) == crypto::ecdsa_valid(
            seq![4u8] + x + y,
            crypto::sha256(message),
            signature,
        ),
        claims::text_claim(canonical, bytes::text("kty")) != Some(bytes::text("OKP"))
            && claims::text_claim(canonical, bytes::text("kty")) != Some(bytes::text("EC"))
            ==> !signed_by(canonical, message, signature),
{
    base64::encoded_decodes(x, 32);
    base64::encoded_decodes(y, 32);
    lemma_kinds_differ();
}

/// A thumbprint is the whole digest of the canonical form, and the identifier of the device its
/// first letters.
pub proof fn a_device_is_named_by_its_thumbprint(canonical: Seq<u8>)
    ensures
        thumbprint(canonical) == base64::encoded(crypto::sha256(canonical)),
        thumbprint(canonical).len() >= 22 ==> device_id(canonical) == thumbprint(canonical).take(
            22,
        ),
{
}

} // verus!
