//! Session tokens: a compact signed-claims string
//! `base64url(header) "." base64url(claims) "." base64url(HMAC-SHA256)`,
//! signed with the header `{"typ":"JWT","alg":"HS256"}` and the claims of
//! [`crate::claims`]. Verification accepts any header that jsonwebtoken reads
//! as HS256 and any JSON form of the claims; it checks the signature first,
//! then the form, then the expiration, with no leeway.

use base64::Engine;
use vstd::prelude::*;
use vstd::utf8::{decode_utf8, encode_utf8, valid_utf8};
use crate::claims::{claims_text, decode_claims, encode_claims, parse_claims};
use crate::{push_all, same_bytes};

verus! {

/// Why a token was refused.
#[derive(Debug, Clone, Copy, PartialEq, Eq, Structural)]
pub enum TokenError {
    /// Not a token of this service's form.
    Malformed,
    /// The signature does not match the rest of the token under the key.
    BadSignature,
    /// The clock is past the token's expiration time.
    Expired,
}

/// Why a token could not be made.
#[derive(Debug, Clone, Copy, PartialEq, Eq, Structural)]
pub enum SigningError {
    /// The claims could not be written out.
    Serialization,
}

/// What the standard base64url decoder without padding gives for a text:
/// the bytes it encodes, or `None` where it is not such an encoding.
pub uninterp spec fn b64url_decode_of(text: Seq<u8>) -> Option<Seq<u8>>;

/// The base64url text of the HMAC-SHA256 tag of `message` under `key`.
pub uninterp spec fn hs256_b64_of(key: Seq<u8>, message: Seq<u8>) -> Seq<u8>;

/// Whether `jsonwebtoken::decode_header` reads the header segment of
/// `token` as a JSON header whose `alg` is HS256.
pub uninterp spec fn hs256_header_of(token: Seq<char>) -> bool;

/// A byte of the URL-safe base64 alphabet.
pub open spec fn is_b64url_byte(c: u8) -> bool {
    (65 <= c <= 90) || (97 <= c <= 122) || (48 <= c <= 57) || c == 45 || c == 95
}

pub open spec fn is_b64url_text(s: Seq<u8>) -> bool {
    forall|i: int| 0 <= i < s.len() ==> is_b64url_byte(#[trigger] s[i])
}

/// `{"typ":"JWT","alg":"HS256"}`
pub open spec fn header_json() -> Seq<u8> {
    seq![
        123u8, 34u8, 116u8, 121u8, 112u8, 34u8, 58u8, 34u8, 74u8, 87u8, 84u8, 34u8, 44u8,
        34u8, 97u8, 108u8, 103u8, 34u8, 58u8, 34u8, 72u8, 83u8, 50u8, 53u8, 54u8, 34u8, 125u8,
    ]
}

/// Relies on `base64::engine::general_purpose::URL_SAFE_NO_PAD.encode`: the
/// result is written in the URL-safe alphabet and the same engine's `decode`
/// gives the input back.
#[verifier::external_body]
fn b64url_encode(data: &[u8]) -> (r: Vec<u8>)
    ensures
        b64url_decode_of(r@) == Some(data@),
        is_b64url_text(r@),
{
    base64::engine::general_purpose::URL_SAFE_NO_PAD.encode(data).into_bytes()
}

/// Relies on `base64::engine::general_purpose::URL_SAFE_NO_PAD.decode`.
#[verifier::external_body]
fn b64url_decode(text: &[u8]) -> (r: Option<Vec<u8>>)
    ensures
        match r {
            Some(v) => b64url_decode_of(text@) == Some(v@),
            None => b64url_decode_of(text@) is None,
        },
{
    base64::engine::general_purpose::URL_SAFE_NO_PAD.decode(text).ok()
}

/// Relies on `jsonwebtoken::crypto::sign` with `Algorithm::HS256` and
/// `EncodingKey::from_secret(key)`: for the HMAC algorithms it always returns
/// `Ok` with the tag in base64url.
#[verifier::external_body]
fn hs256_b64(key: &[u8], message: &[u8]) -> (r: Option<Vec<u8>>)
    ensures
        r is Some,
        r->0@ == hs256_b64_of(key@, message@),
        is_b64url_text(r->0@),
{
    let k = jsonwebtoken::EncodingKey::from_secret(key);
    jsonwebtoken::crypto::sign(message, &k, jsonwebtoken::Algorithm::HS256).ok().map(
        |s| s.into_bytes(),
    )
}

/// Relies on `jsonwebtoken::decode_header`: it takes the segment before the
/// second-to-last `.` of the token, decodes it from base64url and reads it as
/// a JSON header; the match tells `Algorithm::HS256` apart.
#[verifier::external_body]
fn decode_header_hs256(token: &str) -> (r: bool)
    ensures
        r == hs256_header_of(token@),
{
    match jsonwebtoken::decode_header(token) {
        Ok(h) => match h.alg {
            jsonwebtoken::Algorithm::HS256 => true,
            _ => false,
        },
        Err(_) => false,
    }
}

/// Relies on `String::from_utf8`: it accepts exactly the valid UTF-8 byte
/// sequences and keeps their characters.
#[verifier::external_body]
pub(crate) fn utf8_string(bytes: Vec<u8>) -> (r: Option<String>)
    ensures
        match r {
            Some(s) => valid_utf8(bytes@) && s@ == decode_utf8(bytes@),
            None => !valid_utf8(bytes@),
        },
{
    String::from_utf8(bytes).ok()
}

/// Index of the last `.` among the first `n` bytes of `t`.
pub open spec fn last_dot(t: Seq<u8>, n: nat) -> Option<nat>
    decreases n,
{
    if n == 0 || n > t.len() {
        None
    } else if t[n - 1] == 46 {
        Some((n - 1) as nat)
    } else {
        last_dot(t, (n - 1) as nat)
    }
}

/// Index of the first `.` of `t` at or after `i`.
pub open spec fn first_dot(t: Seq<u8>, i: nat) -> Option<nat>
    decreases t.len() - i,
{
    if i >= t.len() {
        None
    } else if t[i as int] == 46 {
        Some(i)
    } else {
        first_dot(t, i + 1)
    }
}

/// Whether the last segment of `t` is the signature of everything before
/// its last `.` under `key`.
pub open spec fn signature_matches(key: Seq<u8>, t: Seq<u8>) -> bool {
    match last_dot(t, t.len()) {
        Some(d) => t.skip(d + 1int) == hs256_b64_of(key, t.take(d as int)),
        None => false,
    }
}

/// Whether the header segment `eh` (which holds no `.`) is an HS256 header:
/// the one that `sign` writes, or any that `jsonwebtoken::decode_header`
/// reads as HS256. The segment followed by `..` is a token whose header
/// segment is `eh`.
pub open spec fn header_ok(eh: Seq<u8>) -> bool {
    ||| b64url_decode_of(eh) == Some(header_json())
    ||| {
        let probe = eh + seq![46u8, 46u8];
        valid_utf8(probe) && hs256_header_of(decode_utf8(probe))
    }
}

/// What `header "." claims` holds: the expiration time and the payload bytes.
pub open spec fn message_claims(msg: Seq<u8>) -> Option<(u64, Seq<u8>)> {
    match first_dot(msg, 0) {
        Some(h) => if header_ok(msg.take(h as int)) {
            match b64url_decode_of(msg.skip(h + 1int)) {
                Some(c) => parse_claims(c),
                None => None,
            }
        } else {
            None
        },
        None => None,
    }
}

/// The outcome of verifying the token bytes `t` under `key` at time `now`.
pub open spec fn verify_spec(key: Seq<u8>, t: Seq<u8>, now: u64) -> Result<Seq<char>, TokenError> {
    match last_dot(t, t.len()) {
        None => Err(TokenError::Malformed),
        Some(d) => if t.skip(d + 1int) != hs256_b64_of(key, t.take(d as int)) {
            Err(TokenError::BadSignature)
        } else {
            match message_claims(t.take(d as int)) {
                None => Err(TokenError::Malformed),
                Some((exp, info)) => if now > exp {
                    Err(TokenError::Expired)
                } else if !valid_utf8(info) {
                    Err(TokenError::Malformed)
                } else {
                    Ok(decode_utf8(info))
                },
            }
        },
    }
}

/// The token made of the encoded header `eh` and encoded claims `ec`,
/// signed under `key`.
pub open spec fn token_of(key: Seq<u8>, eh: Seq<u8>, ec: Seq<u8>) -> Seq<u8> {
    let msg = eh + seq![46u8] + ec;
    msg + seq![46u8] + hs256_b64_of(key, msg)
}

/// `t` is a token signed under `key` for the payload bytes `info`, valid up
/// to and including second `exp`.
pub open spec fn issued(key: Seq<u8>, exp: u64, info: Seq<u8>, t: Seq<u8>) -> bool {
    exists|eh: Seq<u8>, ec: Seq<u8>|
        {
            &&& is_b64url_text(eh)
            &&& is_b64url_text(ec)
            &&& is_b64url_text(hs256_b64_of(key, eh + seq![46u8] + ec))
            &&& b64url_decode_of(eh) == Some(header_json())
            &&& b64url_decode_of(ec) == Some(claims_text(exp, info))
            &&& #[trigger] token_of(key, eh, ec) == t
        }
}

fn header_bytes() -> (r: [u8; 27])
    ensures
        r@ == header_json(),
{
    let header: [u8; 27] = [
        123, 34, 116, 121, 112, 34, 58, 34, 74, 87, 84, 34, 44, 34, 97, 108, 103, 34, 58, 34,
        72, 83, 50, 53, 54, 34, 125,
    ];
    assert(header@ =~= header_json());
    header
}

fn find_last_dot(t: &[u8]) -> (r: Option<usize>)
    ensures
        match r {
            Some(d) => d < t@.len() && last_dot(t@, t@.len()) == Some(d as nat),
            None => last_dot(t@, t@.len()) is None,
        },
{
    let mut i: usize = t.len();
    while i > 0
        invariant
            i <= t@.len(),
            last_dot(t@, t@.len()) == last_dot(t@, i as nat),
        decreases i,
    {
        if t[i - 1] == 46 {
            return Some(i - 1);
        }
        i -= 1;
    }
    None
}

fn find_first_dot(t: &[u8]) -> (r: Option<usize>)
    ensures
        match r {
            Some(h) => h < t@.len() && first_dot(t@, 0) == Some(h as nat),
            None => first_dot(t@, 0) is None,
        },
{
    let mut i: usize = 0;
    while i < t.len()
        invariant
            i <= t@.len(),
            first_dot(t@, 0) == first_dot(t@, i as nat),
        decreases t.len() - i,
    {
        if t[i] == 46 {
            return Some(i);
        }
        i += 1;
    }
    None
}

proof fn lemma_ascii_valid_utf8(t: Seq<u8>)
    requires
        forall|i: int| 0 <= i < t.len() ==> #[trigger] t[i] < 128,
    ensures
        valid_utf8(t),
{
    assert(t.subrange(0, 0) =~= Seq::<u8>::empty());
    assert(vstd::utf8::partial_valid_utf8(t, 0));
    assert forall|i: int| 0 <= 0 <= i < t.len() <= t.len() implies
        #[trigger] vstd::utf8::is_leading_byte_width_1(t[i]) by {}
    vstd::utf8::partial_valid_utf8_extend_ascii_block(t, 0, t.len() as int);
    assert(t.subrange(0, t.len() as int) =~= t);
}

/// The expiration time of a token issued at `now` that stays valid for
/// `window` seconds, held at the largest time where the sum would not fit.
pub fn expiry(now: u64, window: u64) -> (r: u64)
    ensures
        r == (if now as int + window as int > u64::MAX { u64::MAX as int } else { now as int
            + window as int }),
{
    now.saturating_add(window)
}

/// Signs `info` with an expiration time of `expires_at` seconds under `key`.
pub fn sign(info: &str, expires_at: u64, key: &[u8]) -> (r: Result<String, SigningError>)
    ensures
        r is Ok,
        issued(key@, expires_at, encode_utf8(info@), encode_utf8(r->Ok_0@)),
{
    let header = header_bytes();
    let eh = b64url_encode(&header);
    let claims = encode_claims(expires_at, info.as_bytes());
    let ec = b64url_encode(&claims);
    let mut msg: Vec<u8> = Vec::new();
    push_all(&mut msg, &eh);
    msg.push(46);
    push_all(&mut msg, &ec);
    let sig = match hs256_b64(key, &msg) {
        Some(s) => s,
        None => return Err(SigningError::Serialization),
    };
    let mut tok = msg.clone();
    tok.push(46);
    push_all(&mut tok, &sig);
    let ghost t = tok@;
    proof {
        assert(msg@ =~= eh@ + seq![46u8] + ec@);
        assert(t =~= msg@ + seq![46u8] + sig@);
        assert forall|i: int| 0 <= i < t.len() implies #[trigger] t[i] < 128 by {
            if i < eh@.len() {
                assert(t[i] == eh@[i]);
            } else if i == eh@.len() {
            } else if i < msg@.len() {
                assert(t[i] == ec@[i - eh@.len() - 1]);
            } else if i == msg@.len() {
            } else {
                assert(t[i] == sig@[i - msg@.len() - 1]);
            }
        }
        lemma_ascii_valid_utf8(t);
        vstd::utf8::decode_utf8_encode_utf8(t);
        assert(issued(key@, expires_at, encode_utf8(info@), t)) by {
            assert(token_of(key@, eh@, ec@) == t);
        }
    }
    match utf8_string(tok) {
        Some(s) => Ok(s),
        None => Err(SigningError::Serialization),
    }
}

/// Verifies `token` under `key` at time `now` (seconds) and gives back its
/// payload.
pub fn verify(token: &str, key: &[u8], now: u64) -> (r: Result<String, TokenError>)
    ensures
        match r {
            Ok(s) => verify_spec(key@, encode_utf8(token@), now) == Ok::<Seq<char>, TokenError>(s@),
            Err(e) => verify_spec(key@, encode_utf8(token@), now) == Err::<Seq<char>, TokenError>(e),
        },
{
    let t = token.as_bytes();
    let d = match find_last_dot(t) {
        Some(d) => d,
        None => return Err(TokenError::Malformed),
    };
    assert(d < t.len());
    let msg = vstd::slice::slice_subrange(t, 0, d);
    let sig = vstd::slice::slice_subrange(t, d + 1, t.len());
    assert(msg@ =~= t@.take(d as int));
    assert(sig@ =~= t@.skip(d + 1));
    let expected = match hs256_b64(key, msg) {
        Some(v) => v,
        None => return Err(TokenError::BadSignature),
    };
    if !same_bytes(sig, &expected) {
        return Err(TokenError::BadSignature);
    }
    let h = match find_first_dot(msg) {
        Some(h) => h,
        None => return Err(TokenError::Malformed),
    };
    let eh = vstd::slice::slice_subrange(msg, 0, h);
    let ec = vstd::slice::slice_subrange(msg, h + 1, msg.len());
    assert(eh@ =~= msg@.take(h as int));
    assert(ec@ =~= msg@.skip(h + 1));
    let header = header_bytes();
    let standard = match b64url_decode(eh) {
        Some(hv) => same_bytes(&hv, &header),
        None => false,
    };
    if !standard {
        let mut probe: Vec<u8> = Vec::new();
        push_all(&mut probe, eh);
        probe.push(46);
        probe.push(46);
        assert(probe@ =~= eh@ + seq![46u8, 46u8]);
        match utf8_string(probe) {
            Some(s) => {
                if !decode_header_hs256(s.as_str()) {
                    return Err(TokenError::Malformed);
                }
            },
            None => return Err(TokenError::Malformed),
        }
    }
    let claims = match b64url_decode(ec) {
        Some(c) => c,
        None => return Err(TokenError::Malformed),
    };
    let (exp, info) = match decode_claims(&claims) {
        Some(p) => p,
        None => return Err(TokenError::Malformed),
    };
    if now > exp {
        return Err(TokenError::Expired);
    }
    match utf8_string(info) {
        Some(s) => Ok(s),
        None => Err(TokenError::Malformed),
    }
}

proof fn lemma_last_dot_at(t: Seq<u8>, d: nat, n: nat)
    requires
        d < n <= t.len(),
        t[d as int] == 46,
        forall|k: int| d < k < t.len() ==> #[trigger] t[k] != 46,
    ensures
        last_dot(t, n) == Some(d),
    decreases n,
{
    if n - 1 != d {
        lemma_last_dot_at(t, d, (n - 1) as nat);
    }
}

proof fn lemma_first_dot_at(t: Seq<u8>, h: nat, i: nat)
    requires
        i <= h < t.len(),
        t[h as int] == 46,
        forall|k: int| 0 <= k < h ==> #[trigger] t[k] != 46,
    ensures
        first_dot(t, i) == Some(h),
    decreases h - i,
{
    if i < h {
        lemma_first_dot_at(t, h, i + 1);
    }
}

/// Where an issued token splits: its last `.` stands before the signature,
/// which signs everything in front of it, and that message holds the claims.
proof fn lemma_issued_layout(key: Seq<u8>, exp: u64, info: Seq<u8>, t: Seq<u8>) -> (d: nat)
    requires
        issued(key, exp, info, t),
    ensures
        d < t.len(),
        t[d as int] == 46,
        forall|k: int| d < k < t.len() ==> #[trigger] t[k] != 46,
        last_dot(t, t.len()) == Some(d),
        t.skip(d + 1int) == hs256_b64_of(key, t.take(d as int)),
        message_claims(t.take(d as int)) == Some((exp, info)),
{
    let (eh, ec) = choose|eh: Seq<u8>, ec: Seq<u8>|
        {
            &&& is_b64url_text(eh)
            &&& is_b64url_text(ec)
            &&& is_b64url_text(hs256_b64_of(key, eh + seq![46u8] + ec))
            &&& b64url_decode_of(eh) == Some(header_json())
            &&& b64url_decode_of(ec) == Some(claims_text(exp, info))
            &&& #[trigger] token_of(key, eh, ec) == t
        };
    let msg = eh + seq![46u8] + ec;
    let sig = hs256_b64_of(key, msg);
    let d = msg.len();
    assert(t =~= msg + seq![46u8] + sig);
    assert forall|k: int| d < k < t.len() implies #[trigger] t[k] != 46 by {
        assert(t[k] == sig[k - d - 1]);
    }
    lemma_last_dot_at(t, d, t.len());
    assert(t.take(d as int) =~= msg);
    assert(t.skip(d + 1int) =~= sig);
    assert forall|k: int| 0 <= k < eh.len() implies #[trigger] msg[k] != 46 by {
        assert(msg[k] == eh[k]);
    }
    lemma_first_dot_at(msg, eh.len(), 0);
    assert(msg.take(eh.len() as int) =~= eh);
    assert(msg.skip(eh.len() + 1int) =~= ec);
    crate::claims::lemma_parse_claims_text(exp, info);
    d
}

/// A token verified before its expiration gives back the payload it was
/// signed with.
pub proof fn lemma_sign_then_verify(key: Seq<u8>, exp: u64, payload: Seq<char>, t: Seq<u8>, now: u64)
    requires
        issued(key, exp, encode_utf8(payload), t),
        now <= exp,
    ensures
        verify_spec(key, t, now) == Ok::<Seq<char>, TokenError>(payload),
{
    lemma_issued_layout(key, exp, encode_utf8(payload), t);
    vstd::utf8::encode_utf8_valid_utf8(payload);
    vstd::utf8::encode_utf8_decode_utf8(payload);
}

/// A token verified after its expiration is refused as expired.
pub proof fn lemma_verify_expired(key: Seq<u8>, exp: u64, info: Seq<u8>, t: Seq<u8>, now: u64)
    requires
        issued(key, exp, info, t),
        now > exp,
    ensures
        verify_spec(key, t, now) == Err::<Seq<char>, TokenError>(TokenError::Expired),
{
    lemma_issued_layout(key, exp, info, t);
}

/// Changing one byte of an issued token's signature to anything but a `.`
/// gets the token refused for its signature.
pub proof fn lemma_tampered_signature(
    key: Seq<u8>,
    exp: u64,
    info: Seq<u8>,
    t: Seq<u8>,
    j: int,
    b: u8,
    now: u64,
)
    requires
        issued(key, exp, info, t),
        last_dot(t, t.len()) is Some,
        last_dot(t, t.len())->0 < j < t.len(),
        b != t[j],
        b != 46,
    ensures
        verify_spec(key, t.update(j, b), now) == Err::<Seq<char>, TokenError>(
            TokenError::BadSignature,
        ),
{
    let d = lemma_issued_layout(key, exp, info, t);
    let u = t.update(j, b);
    assert forall|k: int| d < k < u.len() implies #[trigger] u[k] != 46 by {
        if k != j {
            assert(u[k] == t[k]);
        }
    }
    lemma_last_dot_at(u, d, u.len());
    assert(u.take(d as int) =~= t.take(d as int));
    assert(u.skip(d + 1int)[j - d - 1] != t.skip(d + 1int)[j - d - 1]);
}

/// Changing any one byte of an issued token gets it refused for its
/// signature, unless the changed token carries a valid HMAC-SHA256 tag under
/// the key for a message other than the one that was signed: a forgery or a
/// collision of the MAC.
pub proof fn lemma_tampered_token(
    key: Seq<u8>,
    exp: u64,
    info: Seq<u8>,
    t: Seq<u8>,
    j: int,
    b: u8,
    now: u64,
)
    requires
        issued(key, exp, info, t),
        0 <= j < t.len(),
        b != t[j],
    ensures
        last_dot(t, t.len()) is Some,
        ({
            let d = last_dot(t, t.len())->0;
            let u = t.update(j, b);
            ||| verify_spec(key, u, now) == Err::<Seq<char>, TokenError>(TokenError::BadSignature)
            ||| {
                &&& last_dot(u, u.len()) is Some
                &&& signature_matches(key, u)
                &&& u.take(last_dot(u, u.len())->0 as int) != t.take(d as int)
            }
        }),
{
    let d = lemma_issued_layout(key, exp, info, t);
    let u = t.update(j, b);
    if j > d {
        if b != 46 {
            lemma_tampered_signature(key, exp, info, t, j, b, now);
        } else {
            assert forall|k: int| j < k < u.len() implies #[trigger] u[k] != 46 by {
                assert(u[k] == t[k]);
            }
            lemma_last_dot_at(u, j as nat, u.len());
            assert(u.take(j).len() != t.take(d as int).len());
        }
    } else if j < d {
        assert forall|k: int| d < k < u.len() implies #[trigger] u[k] != 46 by {
            assert(u[k] == t[k]);
        }
        lemma_last_dot_at(u, d, u.len());
        assert(u.take(d as int)[j] != t.take(d as int)[j]);
    } else {
        let (eh, ec) = choose|eh: Seq<u8>, ec: Seq<u8>|
            {
                &&& is_b64url_text(eh)
                &&& is_b64url_text(ec)
                &&& is_b64url_text(hs256_b64_of(key, eh + seq![46u8] + ec))
                &&& b64url_decode_of(eh) == Some(header_json())
                &&& b64url_decode_of(ec) == Some(claims_text(exp, info))
                &&& #[trigger] token_of(key, eh, ec) == t
            };
        let msg = eh + seq![46u8] + ec;
        let h = eh.len();
        assert(t =~= msg + seq![46u8] + hs256_b64_of(key, msg));
        assert(d == msg.len()) by {
            assert(t[msg.len() as int] == 46);
            if d < msg.len() {
                assert(t[msg.len() as int] != 46);
            } else if d > msg.len() {
                assert(t[d as int] == hs256_b64_of(key, msg)[d - msg.len() - 1]);
            }
        }
        assert forall|k: int| h < k < u.len() implies #[trigger] u[k] != 46 by {
            if k < d {
                assert(u[k] == ec[k - h - 1]);
            } else if k > d {
                assert(u[k] == t[k]);
            }
        }
        assert(u[h as int] == 46);
        lemma_last_dot_at(u, h, u.len());
        assert(u.take(h as int).len() != t.take(d as int).len());
    }
}

/// A token is accepted only where its signature matches its message under
/// the key, the message holds claims whose expiration is not past, and the
/// payload returned is the one those claims hold.
pub proof fn lemma_accepted_only_if_signed(key: Seq<u8>, t: Seq<u8>, now: u64)
    requires
        verify_spec(key, t, now) is Ok,
    ensures
        signature_matches(key, t),
        ({
            let d = last_dot(t, t.len())->0;
            let (exp, info) = message_claims(t.take(d as int))->0;
            &&& message_claims(t.take(d as int)) is Some
            &&& now <= exp
            &&& verify_spec(key, t, now) == Ok::<Seq<char>, TokenError>(decode_utf8(info))
        }),
{
}

} // verus!
