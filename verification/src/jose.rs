//! Compact signed tokens: their three parts, their window and their algorithm names.
use vstd::prelude::*;
use vstd::slice::slice_subrange;

use crate::base64;
use crate::bytes;
use crate::bytes::{append, bytes_equal, position};
use crate::claims;
use crate::keys::Suite;

verus! {

/// The three parts of a token, which two dots separate: header, payload and signature, each as
/// it stands in the token.
pub open spec fn parts(token: Seq<u8>) -> Option<(Seq<u8>, Seq<u8>, Seq<u8>)> {
    let first = bytes::position_of(token, 46) as int;
    if first < token.len() {
        let rest = token.skip(first + 1);
        let second = bytes::position_of(rest, 46) as int;
        if second < rest.len() {
            let last = rest.skip(second + 1);
            if bytes::position_of(last, 46) == last.len() {
                Some((token.take(first), rest.take(second), last))
            } else {
                None
            }
        } else {
            None
        }
    } else {
        None
    }
}

/// What the signature of a token is over: its header and payload with the dot between them.
pub open spec fn signing_input(header: Seq<u8>, payload: Seq<u8>) -> Seq<u8> {
    header + seq![46u8] + payload
}

/// The parts of a token.
pub struct Jws<'a> {
    pub header_b64: &'a [u8],
    pub payload_b64: &'a [u8],
    pub signature_b64: &'a [u8],
    pub signing_input: &'a [u8],
}

/// Split a token into its parts.
pub fn split<'a>(token: &'a [u8]) -> (r: Option<Jws<'a>>)
    ensures
        match r {
            Some(jws) => parts(token@) == Some(
                (jws.header_b64@, jws.payload_b64@, jws.signature_b64@),
            ) && jws.signing_input@ == signing_input(jws.header_b64@, jws.payload_b64@),
            None => parts(token@) is None,
        },
{
    let total: usize = token.len();
    let first: usize = position(token, 46);
    if first >= total {
        return None;
    }
    let rest = slice_subrange(token, first + 1, total);
    assert(rest@ =~= token@.skip(first as int + 1));
    let second: usize = position(rest, 46);
    if second >= rest.len() {
        return None;
    }
    let last = slice_subrange(rest, second + 1, rest.len());
    assert(last@ =~= rest@.skip(second as int + 1));
    if position(last, 46) < last.len() {
        return None;
    }
    let header_b64 = slice_subrange(token, 0, first);
    let payload_b64 = slice_subrange(rest, 0, second);
    let signing_input = slice_subrange(token, 0, first + 1 + second);
    assert(header_b64@ =~= token@.take(first as int));
    assert(payload_b64@ =~= rest@.take(second as int));
    assert(signing_input@ =~= header_b64@ + seq![46u8] + payload_b64@);
    Some(Jws { header_b64, payload_b64, signature_b64: last, signing_input })
}

/// A credential is live: issued no later than now, give or take the clocks' skew, and not yet
/// expired.
pub open spec fn live(now: u64, iat: u64, exp: u64, skew: u64) -> bool {
    iat <= now + skew && now < exp
}

pub fn within_window(now: u64, iat: u64, exp: u64, skew: u64) -> (r: bool)
    ensures
        r == live(now, iat, exp, skew),
{
    iat <= now.saturating_add(skew) && now < exp
}

/// The suite that an `alg` names.
pub open spec fn suite_of_alg(alg: Seq<u8>) -> Option<Suite> {
    if alg == bytes::text("ES256") {
        Some(Suite::Es256)
    } else if alg == bytes::text("EdDSA") {
        Some(Suite::Ed25519)
    } else if alg == bytes::text("ML-DSA-44") {
        Some(Suite::MlDsa44)
    } else if alg == bytes::text("ML-DSA-65") {
        Some(Suite::MlDsa65)
    } else if alg == bytes::text("ML-DSA-87") {
        Some(Suite::MlDsa87)
    } else {
        None
    }
}

pub fn from_jose_alg(alg: &[u8]) -> (r: Option<Suite>)
    ensures
        r == suite_of_alg(alg@),
{
    if bytes_equal(alg, "ES256".as_bytes()) {
        Some(Suite::Es256)
    } else if bytes_equal(alg, "EdDSA".as_bytes()) {
        Some(Suite::Ed25519)
    } else if bytes_equal(alg, "ML-DSA-44".as_bytes()) {
        Some(Suite::MlDsa44)
    } else if bytes_equal(alg, "ML-DSA-65".as_bytes()) {
        Some(Suite::MlDsa65)
    } else if bytes_equal(alg, "ML-DSA-87".as_bytes()) {
        Some(Suite::MlDsa87)
    } else {
        None
    }
}

proof fn lemma_encoding_has_no_dot(data: Seq<u8>)
    ensures
        forall|i: int| 0 <= i < base64::encoded(data).len() ==> #[trigger] base64::encoded(data)[i]
            != 46,
{
    base64::lemma_sextets(data);
    assert forall|i: int| 0 <= i < base64::encoded(data).len() implies #[trigger] base64::encoded(
        data,
    )[i] != 46 by {
        assert(base64::encoded(data)[i] == base64::url_char(base64::sextets(data)[i]));
    }
}

/// The token that a header, claims and a signature make.
pub open spec fn compact(header: Seq<u8>, claims: Seq<u8>, signature: Seq<u8>) -> Seq<u8> {
    signing_input(base64::encoded(header), base64::encoded(claims)) + seq![46u8] + base64::encoded(
        signature,
    )
}

/// A token splits into the parts that it was made of.
pub proof fn compact_splits(header: Seq<u8>, claims: Seq<u8>, signature: Seq<u8>)
    ensures
        parts(compact(header, claims, signature)) == Some(
            (base64::encoded(header), base64::encoded(claims), base64::encoded(signature)),
        ),
{
    let h = base64::encoded(header);
    let p = base64::encoded(claims);
    let s = base64::encoded(signature);
    let token = compact(header, claims, signature);
    lemma_encoding_has_no_dot(header);
    lemma_encoding_has_no_dot(claims);
    lemma_encoding_has_no_dot(signature);
    assert forall|j: int| 0 <= j < h.len() implies #[trigger] token[j] != 46 by {
        assert(token[j] == h[j]);
    }
    bytes::lemma_position_unique(token, 46, h.len() as int);
    assert(token.take(h.len() as int) =~= h);
    let rest = token.skip(h.len() as int + 1);
    assert(rest =~= p + seq![46u8] + s);
    assert forall|j: int| 0 <= j < p.len() implies #[trigger] rest[j] != 46 by {
        assert(rest[j] == p[j]);
    }
    bytes::lemma_position_unique(rest, 46, p.len() as int);
    assert(rest.take(p.len() as int) =~= p);
    let last = rest.skip(p.len() as int + 1);
    assert(last =~= s);
    bytes::lemma_position_unique(last, 46, s.len() as int);
}

/// The first two parts of a token, ready to be signed.
pub fn write_signing_input(header: &[u8], claims: &[u8]) -> (r: Vec<u8>)
    ensures
        r@ == signing_input(base64::encoded(header@), base64::encoded(claims@)),
{
    let mut out = base64::encode(header);
    out.push(46);
    let encoded = base64::encode(claims);
    append(&mut out, encoded.as_slice());
    assert(out@ =~= signing_input(base64::encoded(header@), base64::encoded(claims@)));
    out
}

/// The header of an EdDSA token of content type `cty`.
pub open spec fn eddsa_header(cty: Seq<u8>, kid: Seq<u8>) -> Seq<u8> {
    claims::record_bytes(
        seq![
            (bytes::text("alg"), claims::Value::Text(bytes::text("EdDSA"))),
            (bytes::text("cty"), claims::Value::Text(cty)),
            (bytes::text("kid"), claims::Value::Text(kid)),
            (bytes::text("typ"), claims::Value::Text(bytes::text("JWT"))),
        ],
    )
}

/// What is signed of an EdDSA token: its header and its claims.
pub open spec fn eddsa_input(cty: Seq<u8>, kid: Seq<u8>, body: Seq<u8>) -> Seq<u8> {
    signing_input(base64::encoded(eddsa_header(cty, kid)), base64::encoded(body))
}

/// The first two parts of an EdDSA token can be composed: the names in its header are safe, the
/// header is short enough, and so is the whole.
pub open spec fn eddsa_fits(cty: Seq<u8>, kid: Seq<u8>, body: Seq<u8>, limit: nat) -> bool {
    &&& claims::record_safe(cty)
    &&& claims::record_safe(kid)
    &&& eddsa_header(cty, kid).len() <= 192
    &&& eddsa_input(cty, kid, body).len() <= limit
}

/// Compose what is signed of an EdDSA token.
pub fn open_jws(cty: &[u8], kid: &[u8], body: &[u8], limit: usize) -> (r: Option<Vec<u8>>)
    ensures
        match r {
            Some(input) => eddsa_fits(cty@, kid@, body@, limit as nat) && input@ == eddsa_input(
                cty@,
                kid@,
                body@,
            ),
            None => !eddsa_fits(cty@, kid@, body@, limit as nat),
        },
{
    if !claims::json_safe(cty) || !claims::json_safe(kid) {
        return None;
    }
    let mut w = claims::RecordWriter::new();
    w.text("alg", "EdDSA".as_bytes());
    w.text("cty", cty);
    w.text("kid", kid);
    w.text("typ", "JWT".as_bytes());
    assert(w.members@ =~= seq![
        (bytes::text("alg"), claims::Value::Text(bytes::text("EdDSA"))),
        (bytes::text("cty"), claims::Value::Text(cty@)),
        (bytes::text("kid"), claims::Value::Text(kid@)),
        (bytes::text("typ"), claims::Value::Text(bytes::text("JWT"))),
    ]);
    match w.finish(192) {
        Some(header) => {
            let input = write_signing_input(header.as_slice(), body);
            if input.len() > limit {
                return None;
            }
            Some(input)
        },
        None => None,
    }
}

/// What was signed and its signature, as a token.
pub open spec fn closed(input: Seq<u8>, signature: Seq<u8>) -> Seq<u8> {
    input + seq![46u8] + base64::encoded(signature)
}

/// Put the signature behind what was signed, unless the token is longer than `limit`.
pub fn close_jws(input: &[u8], signature: &[u8], limit: usize) -> (r: Option<Vec<u8>>)
    ensures
        match r {
            Some(token) => token@ == closed(input@, signature@) && token@.len() <= limit,
            None => closed(input@, signature@).len() > limit,
        },
{
    let mut token = vstd::slice::slice_to_vec(input);
    token.push(46);
    let encoded = base64::encode(signature);
    append(&mut token, encoded.as_slice());
    assert(token@ =~= closed(input@, signature@));
    if token.len() > limit {
        return None;
    }
    Some(token)
}

/// A composed and closed token splits into what it was made of.
pub proof fn closed_splits(cty: Seq<u8>, kid: Seq<u8>, body: Seq<u8>, signature: Seq<u8>)
    ensures
        parts(closed(eddsa_input(cty, kid, body), signature)) == Some(
            (
                base64::encoded(eddsa_header(cty, kid)),
                base64::encoded(body),
                base64::encoded(signature),
            ),
        ),
{
    compact_splits(eddsa_header(cty, kid), body, signature);
}

} // verus!
