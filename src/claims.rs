//! The claims carried by a session token, as JSON text:
//! `{"exp":<decimal seconds>,"info":"<payload>"}`.
//!
//! The payload is escaped the JSON way: a quote and a backslash get a
//! backslash, backspace, tab, line feed, form feed and carriage return get
//! their short escapes, and any other control byte is written as `\u00XX` in
//! lower-case hex.
//! Every other byte, UTF-8 continuation bytes included, stands as it is.
//! That exact form is read directly; any other JSON form of the claims
//! object is read by a general JSON reader.

use vstd::prelude::*;
use crate::{push_all, same_bytes};

verus! {

/// `{"exp":`
pub open spec fn exp_key() -> Seq<u8> {
    seq![123u8, 34u8, 101u8, 120u8, 112u8, 34u8, 58u8]
}

/// `,"info":"`
pub open spec fn info_key() -> Seq<u8> {
    seq![44u8, 34u8, 105u8, 110u8, 102u8, 111u8, 34u8, 58u8, 34u8]
}

/// `"}`
pub open spec fn closing() -> Seq<u8> {
    seq![34u8, 125u8]
}

pub open spec fn is_digit(c: u8) -> bool {
    48 <= c <= 57
}

/// Decimal digits of `n`, most significant first, without leading zeros.
pub open spec fn dec(n: nat) -> Seq<u8>
    decreases n,
{
    if n < 10 {
        seq![(48 + n) as u8]
    } else {
        dec(n / 10).push((48 + n % 10) as u8)
    }
}

/// The number that a run of decimal digits stands for.
pub open spec fn digits_value(s: Seq<u8>) -> nat
    decreases s.len(),
{
    if s.len() == 0 {
        0
    } else {
        digits_value(s.drop_last()) * 10 + (s.last() - 48) as nat
    }
}

pub open spec fn hex_digit(v: u8) -> u8 {
    if v < 10 {
        (48 + v) as u8
    } else {
        (87 + v) as u8
    }
}

pub open spec fn hex_value(c: u8) -> Option<u8> {
    if 48 <= c <= 57 {
        Some((c - 48) as u8)
    } else if 97 <= c <= 102 {
        Some((c - 87) as u8)
    } else {
        None
    }
}

/// The letter of the short escape for a control byte that has one.
pub open spec fn short_escape(b: u8) -> Option<u8> {
    if b == 8 {
        Some(98u8)
    } else if b == 9 {
        Some(116u8)
    } else if b == 10 {
        Some(110u8)
    } else if b == 12 {
        Some(102u8)
    } else if b == 13 {
        Some(114u8)
    } else {
        None
    }
}

/// The control byte that a short escape letter stands for.
pub open spec fn short_unescape(e: u8) -> Option<u8> {
    if e == 98 {
        Some(8u8)
    } else if e == 116 {
        Some(9u8)
    } else if e == 110 {
        Some(10u8)
    } else if e == 102 {
        Some(12u8)
    } else if e == 114 {
        Some(13u8)
    } else {
        None
    }
}

/// How one payload byte is written inside the quotes.
pub open spec fn escape_byte(b: u8) -> Seq<u8> {
    if b == 34 {
        seq![92u8, 34u8]
    } else if b == 92 {
        seq![92u8, 92u8]
    } else if short_escape(b) is Some {
        seq![92u8, short_escape(b)->0]
    } else if b < 32 {
        seq![92u8, 117u8, 48u8, 48u8, hex_digit(b / 16), hex_digit(b % 16)]
    } else {
        seq![b]
    }
}

pub open spec fn escape(s: Seq<u8>) -> Seq<u8>
    decreases s.len(),
{
    if s.len() == 0 {
        Seq::empty()
    } else {
        escape_byte(s[0]) + escape(s.drop_first())
    }
}

/// The claims text for an expiration time and a payload.
pub open spec fn claims_text(exp: u64, info: Seq<u8>) -> Seq<u8> {
    exp_key() + dec(exp as nat) + info_key() + escape(info) + closing()
}

/// Reads one written payload byte at the front of `s`: the byte and how many
/// bytes it took, or `None` where `s` does not start with one.
pub open spec fn read_unit(s: Seq<u8>) -> Option<(u8, nat)> {
    if s.len() == 0 {
        None
    } else if s[0] == 92 {
        if s.len() >= 2 && s[1] == 34 {
            Some((34u8, 2nat))
        } else if s.len() >= 2 && s[1] == 92 {
            Some((92u8, 2nat))
        } else if s.len() >= 2 && short_unescape(s[1]) is Some {
            Some((short_unescape(s[1])->0, 2nat))
        } else if s.len() >= 6 && s[1] == 117 && s[2] == 48 && s[3] == 48 && (s[4] == 48
            || s[4] == 49) && hex_value(s[5]) is Some && short_escape(
            ((s[4] - 48) * 16 + hex_value(s[5])->0) as u8,
        ) is None {
            Some((((s[4] - 48) * 16 + hex_value(s[5])->0) as u8, 6nat))
        } else {
            None
        }
    } else if s[0] == 34 || s[0] < 32 {
        None
    } else {
        Some((s[0], 1nat))
    }
}

/// The payload written in `s`, where `s` is the written payload followed by
/// the closing `"}` and nothing more.
pub open spec fn unescape(s: Seq<u8>) -> Option<Seq<u8>>
    decreases s.len(),
{
    if s == closing() {
        Some(Seq::empty())
    } else {
        match read_unit(s) {
            Some((b, n)) => if 1 <= n <= s.len() {
                match unescape(s.skip(n as int)) {
                    Some(r) => Some(seq![b] + r),
                    None => None,
                }
            } else {
                None
            },
            None => None,
        }
    }
}

/// How many decimal digits `s` starts with.
pub open spec fn digit_run(s: Seq<u8>) -> nat
    decreases s.len(),
{
    if s.len() > 0 && is_digit(s[0]) {
        1 + digit_run(s.drop_first())
    } else {
        0
    }
}

/// A run of digits as the encoder writes an expiration time.
pub open spec fn canonical_digits(d: Seq<u8>) -> bool {
    &&& d.len() >= 1
    &&& (d.len() == 1 || d[0] != 48)
    &&& digits_value(d) <= u64::MAX
}

/// What a claims text in exactly the encoder's form holds, or `None`.
pub open spec fn parse_claims_text(t: Seq<u8>) -> Option<(u64, Seq<u8>)> {
    let k = exp_key().len();
    if t.len() < k || t.take(k as int) != exp_key() {
        None
    } else {
        let rest = t.skip(k as int);
        let n = digit_run(rest);
        let d = rest.take(n as int);
        let after = rest.skip(n as int);
        let m = info_key().len();
        if !canonical_digits(d) || after.len() < m || after.take(m as int) != info_key() {
            None
        } else {
            match unescape(after.skip(m as int)) {
                Some(info) => Some((digits_value(d) as u64, info)),
                None => None,
            }
        }
    }
}


// General JSON claims: a JSON object, with any whitespace and member order,
// holding an integer `exp` and a string `info`; other members are skipped as
// JSON values, and a repeated `exp` or `info` is refused.

pub open spec fn is_ws(c: u8) -> bool {
    c == 32 || c == 9 || c == 10 || c == 13
}

pub open spec fn skip_ws(t: Seq<u8>, p: nat) -> nat
    decreases t.len() - p,
{
    if p < t.len() && is_ws(t[p as int]) {
        skip_ws(t, p + 1)
    } else {
        p
    }
}

pub open spec fn hex_any(c: u8) -> Option<u32> {
    if 48 <= c <= 57 {
        Some((c - 48) as u32)
    } else if 97 <= c <= 102 {
        Some((c - 87) as u32)
    } else if 65 <= c <= 70 {
        Some((c - 55) as u32)
    } else {
        None
    }
}

/// The four hex digits at `p`.
pub open spec fn hex4(t: Seq<u8>, p: nat) -> Option<u32> {
    if p + 4 > t.len() {
        None
    } else {
        match (hex_any(t[p as int]), hex_any(t[(p + 1) as int]), hex_any(t[(p + 2) as int]), hex_any(t[(p + 3) as int])) {
            (Some(a), Some(b), Some(c), Some(d)) => Some((a * 4096 + b * 256 + c * 16 + d) as u32),
            _ => None,
        }
    }
}

/// UTF-8 bytes of a Unicode scalar value.
pub open spec fn utf8_of(cp: u32) -> Seq<u8> {
    if cp < 0x80 {
        seq![cp as u8]
    } else if cp < 0x800 {
        seq![(0xC0 + cp / 64) as u8, (0x80 + cp % 64) as u8]
    } else if cp < 0x10000 {
        seq![(0xE0 + cp / 4096) as u8, (0x80 + (cp / 64) % 64) as u8, (0x80 + cp % 64) as u8]
    } else {
        seq![
            (0xF0 + cp / 262144) as u8,
            (0x80 + (cp / 4096) % 64) as u8,
            (0x80 + (cp / 64) % 64) as u8,
            (0x80 + cp % 64) as u8,
        ]
    }
}

/// The byte that a two-character escape `\e` stands for.
pub open spec fn simple_escape(e: u8) -> Option<u8> {
    if e == 34 || e == 92 || e == 47 {
        Some(e)
    } else if e == 98 {
        Some(8u8)
    } else if e == 102 {
        Some(12u8)
    } else if e == 110 {
        Some(10u8)
    } else if e == 114 {
        Some(13u8)
    } else if e == 116 {
        Some(9u8)
    } else {
        None
    }
}

/// Reads the rest of a JSON string from `p` (just after its opening quote),
/// appending its bytes to `acc`: the bytes and the position after the
/// closing quote.
pub open spec fn str_body(t: Seq<u8>, p: nat, acc: Seq<u8>) -> Option<(Seq<u8>, nat)>
    decreases t.len() - p,
{
    if p >= t.len() {
        None
    } else if t[p as int] == 34 {
        Some((acc, p + 1))
    } else if t[p as int] == 92 {
        if p + 1 >= t.len() {
            None
        } else if simple_escape(t[(p + 1) as int]) is Some {
            str_body(t, p + 2, acc.push(simple_escape(t[(p + 1) as int])->0))
        } else if t[(p + 1) as int] == 117 {
            match hex4(t, p + 2) {
                None => None,
                Some(u) => if 0xD800 <= u < 0xDC00 {
                    if p + 12 <= t.len() && t[(p + 6) as int] == 92 && t[(p + 7) as int] == 117 {
                        match hex4(t, p + 8) {
                            Some(l) => if 0xDC00 <= l < 0xE000 {
                                str_body(
                                    t,
                                    p + 12,
                                    acc + utf8_of((0x10000 + (u - 0xD800) * 1024 + (l - 0xDC00)) as u32),
                                )
                            } else {
                                None
                            },
                            None => None,
                        }
                    } else {
                        None
                    }
                } else if 0xDC00 <= u < 0xE000 {
                    None
                } else {
                    str_body(t, p + 6, acc + utf8_of(u))
                },
            }
        } else {
            None
        }
    } else if t[p as int] < 32 {
        None
    } else {
        str_body(t, p + 1, acc.push(t[p as int]))
    }
}

/// The end of the JSON number at `p`.
pub open spec fn number_end(t: Seq<u8>, p: nat) -> Option<nat> {
    let a: nat = if p < t.len() && t[p as int] == 45 { p + 1 } else { p };
    if a >= t.len() || !is_digit(t[a as int]) {
        None
    } else {
        let b: nat = if t[a as int] == 48 { a + 1 } else { a + digit_run(t.skip(a as int)) };
        let fr: Option<nat> = if b < t.len() && t[b as int] == 46 {
            let n = digit_run(t.skip((b + 1) as int));
            if n == 0 { None } else { Some(b + 1 + n) }
        } else {
            Some(b)
        };
        match fr {
            None => None,
            Some(c) => if c < t.len() && (t[c as int] == 101 || t[c as int] == 69) {
                let s: nat = if c + 1 < t.len() && (t[(c + 1) as int] == 43 || t[(c + 1) as int] == 45) {
                    c + 2
                } else {
                    c + 1
                };
                let n = digit_run(t.skip(s as int));
                if n == 0 { None } else { Some(s + n) }
            } else {
                Some(c)
            },
        }
    }
}

/// The JSON number at `p` read as a `u64`: digits only, no sign, fraction or
/// exponent, and no leading zero.
pub open spec fn exp_value(t: Seq<u8>, p: nat) -> Option<(u64, nat)> {
    if p >= t.len() {
        None
    } else {
        let n = digit_run(t.skip(p as int));
        let d = t.subrange(p as int, (p + n) as int);
        let e = p + n;
        if canonical_digits(d) && !(e < t.len() && (t[e as int] == 46 || t[e as int] == 101
            || t[e as int] == 69)) {
            Some((digits_value(d) as u64, e))
        } else {
            None
        }
    }
}

pub open spec fn lit_end(t: Seq<u8>, p: nat, lit: Seq<u8>) -> Option<nat> {
    if p + lit.len() <= t.len() && t.subrange(p as int, (p + lit.len()) as int) == lit {
        Some(p + lit.len())
    } else {
        None
    }
}

/// Nesting that a skipped member value may have.
pub open spec fn member_depth() -> nat {
    127
}

/// The end of the JSON value at `p`, with at most `depth` levels of arrays
/// and objects.
pub open spec fn skip_value(t: Seq<u8>, p: nat, depth: nat) -> Option<nat>
    decreases depth, t.len() + 1 - p,
{
    if p >= t.len() {
        None
    } else {
        let c = t[p as int];
        if c == 34 {
            match str_body(t, p + 1, Seq::empty()) {
                Some((_, e)) => Some(e),
                None => None,
            }
        } else if c == 123 {
            items(t, p + 1, true, depth, true)
        } else if c == 91 {
            items(t, p + 1, true, depth, false)
        } else if c == 116 {
            lit_end(t, p, seq![116u8, 114u8, 117u8, 101u8])
        } else if c == 102 {
            lit_end(t, p, seq![102u8, 97u8, 108u8, 115u8, 101u8])
        } else if c == 110 {
            lit_end(t, p, seq![110u8, 117u8, 108u8, 108u8])
        } else if c == 45 || is_digit(c) {
            number_end(t, p)
        } else {
            None
        }
    }
}

/// The end of the members (`obj`) or elements of an object or array from
/// `p`, up to and including its closing bracket.
pub open spec fn items(t: Seq<u8>, p: nat, first: bool, depth: nat, obj: bool) -> Option<nat>
    decreases depth, t.len() - p,
{
    if depth == 0 || p > t.len() {
        None
    } else {
        let q = skip_ws(t, p);
        let close: u8 = if obj { 125 } else { 93 };
        if q >= t.len() || q < p {
            None
        } else if first && t[q as int] == close {
            Some(q + 1)
        } else {
            let vs: Option<nat> = if obj {
                if t[q as int] != 34 {
                    None
                } else {
                    match str_body(t, q + 1, Seq::empty()) {
                        None => None,
                        Some((_, a)) => {
                            let b = skip_ws(t, a);
                            if b < t.len() && t[b as int] == 58 {
                                Some(skip_ws(t, b + 1))
                            } else {
                                None
                            }
                        },
                    }
                }
            } else {
                Some(q)
            };
            match vs {
                None => None,
                Some(s) => if s > t.len() {
                    None
                } else {
                    match skip_value(t, s, (depth - 1) as nat) {
                        None => None,
                        Some(v) => {
                            let r = skip_ws(t, v);
                            if r >= t.len() || r < p {
                                None
                            } else if t[r as int] == 44 {
                                items(t, r + 1, false, depth, obj)
                            } else if t[r as int] == close {
                                Some(r + 1)
                            } else {
                                None
                            }
                        },
                    }
                },
            }
        }
    }
}

/// `exp`
pub open spec fn exp_name() -> Seq<u8> {
    seq![101u8, 120u8, 112u8]
}

/// `info`
pub open spec fn info_name() -> Seq<u8> {
    seq![105u8, 110u8, 102u8, 111u8]
}

pub open spec fn claims_end(t: Seq<u8>, e: nat, exp: Option<u64>, info: Option<Seq<u8>>) -> Option<
    (u64, Seq<u8>),
> {
    if skip_ws(t, e) == t.len() && exp is Some && info is Some {
        Some((exp->0, info->0))
    } else {
        None
    }
}

/// The claims held by the members of the claims object from `p` on, given
/// what the members before `p` held.
pub open spec fn claims_fields(
    t: Seq<u8>,
    p: nat,
    first: bool,
    exp: Option<u64>,
    info: Option<Seq<u8>>,
) -> Option<(u64, Seq<u8>)>
    decreases t.len() - p, 1nat,
{
    if p > t.len() {
        None
    } else {
        let q = skip_ws(t, p);
        if q >= t.len() || q < p {
            None
        } else if first && t[q as int] == 125 {
            claims_end(t, q + 1, exp, info)
        } else if t[q as int] != 34 {
            None
        } else {
            match str_body(t, q + 1, Seq::empty()) {
                None => None,
                Some((k, a)) => {
                    let b = skip_ws(t, a);
                    if b >= t.len() || t[b as int] != 58 {
                        None
                    } else {
                        let s = skip_ws(t, b + 1);
                        if k == exp_name() {
                            if exp is Some {
                                None
                            } else {
                                match exp_value(t, s) {
                                    Some((e, v)) => after_member(t, v, p, Some(e), info),
                                    None => None,
                                }
                            }
                        } else if k == info_name() {
                            if info is Some {
                                None
                            } else if s < t.len() && t[s as int] == 34 {
                                match str_body(t, s + 1, Seq::empty()) {
                                    Some((i, v)) => after_member(t, v, p, exp, Some(i)),
                                    None => None,
                                }
                            } else {
                                None
                            }
                        } else {
                            match skip_value(t, s, member_depth()) {
                                Some(v) => after_member(t, v, p, exp, info),
                                None => None,
                            }
                        }
                    }
                },
            }
        }
    }
}

/// After a member ending at `v`: a `,` and more members, or the closing `}`.
pub open spec fn after_member(
    t: Seq<u8>,
    v: nat,
    p: nat,
    exp: Option<u64>,
    info: Option<Seq<u8>>,
) -> Option<(u64, Seq<u8>)>
    decreases t.len() - p, 0nat,
{
    let r = skip_ws(t, v);
    if r >= t.len() || r < p {
        None
    } else if t[r as int] == 44 {
        claims_fields(t, r + 1, false, exp, info)
    } else if t[r as int] == 125 {
        claims_end(t, r + 1, exp, info)
    } else {
        None
    }
}

/// What a JSON claims object holds.
#[verifier::opaque]
pub open spec fn json_claims(t: Seq<u8>) -> Option<(u64, Seq<u8>)> {
    let q = skip_ws(t, 0);
    if q < t.len() && t[q as int] == 123 {
        claims_fields(t, q + 1, true, None, None)
    } else {
        None
    }
}

/// What a claims text holds: the encoder's exact form is read directly, any
/// other JSON form through the general reader.
pub open spec fn parse_claims(t: Seq<u8>) -> Option<(u64, Seq<u8>)> {
    match parse_claims_text(t) {
        Some(c) => Some(c),
        None => json_claims(t),
    }
}


proof fn lemma_dec(n: nat)
    ensures
        dec(n).len() >= 1,
        forall|i: int| 0 <= i < dec(n).len() ==> is_digit(#[trigger] dec(n)[i]),
        n >= 1 ==> dec(n)[0] != 48,
        digits_value(dec(n)) == n,
    decreases n,
{
    if n < 10 {
        assert(dec(n).drop_last() =~= Seq::<u8>::empty());
        assert(digits_value(Seq::<u8>::empty()) == 0);
        assert(((48 + n) as u8 - 48) as nat == n);
    } else {
        lemma_dec(n / 10);
        assert(dec(n).drop_last() =~= dec(n / 10));
        let c = (48 + n % 10) as u8;
        assert(dec(n).last() == c);
        assert((c - 48) as nat == n % 10);
        assert(n == (n / 10) * 10 + n % 10);
        assert(digits_value(dec(n)) == digits_value(dec(n / 10)) * 10 + (c - 48) as nat);
    }
}

/// A run of digits followed by a non-digit is exactly as long as it is.
proof fn lemma_digit_run(d: Seq<u8>, x: Seq<u8>)
    requires
        forall|i: int| 0 <= i < d.len() ==> is_digit(#[trigger] d[i]),
        x.len() > 0,
        !is_digit(x[0]),
    ensures
        digit_run(d + x) == d.len(),
    decreases d.len(),
{
    if d.len() == 0 {
        assert(d + x =~= x);
    } else {
        lemma_digit_run(d.drop_first(), x);
        assert((d + x).drop_first() =~= d.drop_first() + x);
    }
}

proof fn lemma_digits_value_positive(d: Seq<u8>)
    requires
        d.len() >= 1,
        d[0] != 48,
        forall|i: int| 0 <= i < d.len() ==> is_digit(#[trigger] d[i]),
    ensures
        digits_value(d) >= 1,
    decreases d.len(),
{
    if d.len() > 1 {
        lemma_digits_value_positive(d.drop_last());
    } else {
        assert(d.drop_last() =~= Seq::<u8>::empty());
    }
}

/// A canonical run of digits is the decimal form of its value.
proof fn lemma_dec_of_value(d: Seq<u8>)
    requires
        d.len() >= 1,
        d.len() == 1 || d[0] != 48,
        forall|i: int| 0 <= i < d.len() ==> is_digit(#[trigger] d[i]),
    ensures
        dec(digits_value(d)) == d,
    decreases d.len(),
{
    let v = digits_value(d);
    if d.len() == 1 {
        assert(d.drop_last() =~= Seq::<u8>::empty());
        assert(digits_value(Seq::<u8>::empty()) == 0);
        assert(v == (d[0] - 48) as nat);
        assert(dec(v) =~= d);
    } else {
        let p = d.drop_last();
        lemma_digits_value_positive(p);
        lemma_dec_of_value(p);
        let c = (d.last() - 48) as nat;
        assert(v == digits_value(p) * 10 + c);
        assert(v / 10 == digits_value(p) && v % 10 == c) by (nonlinear_arith)
            requires
                v == digits_value(p) * 10 + c,
                c < 10,
        ;
        assert(dec(v) =~= d);
    }
}

proof fn lemma_hex(v: u8)
    requires
        v < 16,
    ensures
        hex_value(hex_digit(v)) == Some(v),
{
}

proof fn lemma_read_escaped(b: u8, rest: Seq<u8>)
    ensures
        read_unit(escape_byte(b) + rest) == Some((b, escape_byte(b).len())),
        (escape_byte(b) + rest)[0] != 34,
        escape_byte(b).len() >= 1,
{
    let s = escape_byte(b) + rest;
    if b < 32 && b != 34 && b != 92 && short_escape(b) is None {
        lemma_hex(b % 16);
        assert(b / 16 == 0 || b / 16 == 1);
        assert(hex_digit(b / 16) == 48 + b / 16);
        assert(s[4] == hex_digit(b / 16) && s[5] == hex_digit(b % 16));
        assert(((s[4] - 48) * 16 + hex_value(s[5])->0) as u8 == b);
    }
}

/// What `read_unit` reads is written exactly as `escape_byte` writes it.
proof fn lemma_read_unit_sound(s: Seq<u8>)
    requires
        read_unit(s) is Some,
    ensures
        ({
            let (b, n) = read_unit(s)->0;
            n <= s.len() && s.take(n as int) == escape_byte(b)
        }),
{
    let (b, n) = read_unit(s)->0;
    if s[0] == 92 && !(s.len() >= 2 && (s[1] == 34 || s[1] == 92 || short_unescape(s[1])
        is Some)) {
        let hi = (s[4] - 48) as u8;
        let lo = hex_value(s[5])->0;
        assert(hi <= 1 && lo < 16);
        assert(b == hi * 16 + lo);
        assert(b / 16 == hi && b % 16 == lo);
        assert(hex_digit(lo) == s[5]);
        assert(s.take(6) =~= escape_byte(b));
    } else {
        assert(s.take(n as int) =~= escape_byte(b));
    }
}

proof fn lemma_escape_append(a: Seq<u8>, b: Seq<u8>)
    ensures
        escape(a + b) == escape(a) + escape(b),
    decreases a.len(),
{
    if a.len() == 0 {
        assert(a + b =~= b);
        assert(escape(a) + escape(b) =~= escape(b));
    } else {
        lemma_escape_append(a.drop_first(), b);
        assert((a + b).drop_first() =~= a.drop_first() + b);
        assert(escape(a + b) =~= escape(a) + escape(b));
    }
}

proof fn lemma_unescape_escape(info: Seq<u8>)
    ensures
        unescape(escape(info) + closing()) == Some(info),
    decreases info.len(),
{
    let s = escape(info) + closing();
    if info.len() == 0 {
        assert(s =~= closing());
    } else {
        let e = escape_byte(info[0]);
        let tail = escape(info.drop_first()) + closing();
        assert(s =~= e + tail);
        lemma_read_escaped(info[0], tail);
        assert(s != closing()) by {
            if e.len() == 1 {
                assert(s[0] == info[0]);
                assert(s.len() == 1 + tail.len());
            } else {
                assert(s[0] == 92);
            }
        }
        assert(s.skip(e.len() as int) =~= tail);
        lemma_unescape_escape(info.drop_first());
        assert(seq![info[0]] + info.drop_first() =~= info);
    }
}

proof fn lemma_unescape_sound(s: Seq<u8>)
    requires
        unescape(s) is Some,
    ensures
        s == escape(unescape(s)->0) + closing(),
    decreases s.len(),
{
    let info = unescape(s)->0;
    if s == closing() {
        assert(s =~= escape(info) + closing());
    } else {
        let (b, n) = read_unit(s)->0;
        lemma_read_unit_sound(s);
        lemma_unescape_sound(s.skip(n as int));
        let r = unescape(s.skip(n as int))->0;
        assert(info == seq![b] + r);
        assert(info.drop_first() =~= r);
        assert(s =~= s.take(n as int) + s.skip(n as int));
        assert(escape(info) == escape_byte(b) + escape(r));
        assert(s =~= escape(info) + closing());
    }
}

/// Parsing a claims text gives back what it was written from.
pub proof fn lemma_parse_claims_text(exp: u64, info: Seq<u8>)
    ensures
        parse_claims_text(claims_text(exp, info)) == Some((exp, info)),
{
    let t = claims_text(exp, info);
    let d = dec(exp as nat);
    let tail = info_key() + escape(info) + closing();
    assert(t =~= exp_key() + (d + tail));
    assert(t.take(7) =~= exp_key());
    let rest = t.skip(7);
    assert(rest =~= d + tail);
    lemma_dec(exp as nat);
    lemma_digit_run(d, tail);
    assert(rest.take(d.len() as int) =~= d);
    let after = rest.skip(d.len() as int);
    assert(after =~= tail);
    assert(after.take(9) =~= info_key());
    assert(after.skip(9) =~= escape(info) + closing());
    lemma_unescape_escape(info);
}

/// A text that the exact-form reader accepts is the claims text of what it
/// holds: that reader accepts nothing that the encoder would not write.
pub proof fn lemma_parse_claims_sound(t: Seq<u8>)
    requires
        parse_claims_text(t) is Some,
    ensures
        ({
            let (exp, info) = parse_claims_text(t)->0;
            t == claims_text(exp, info)
        }),
{
    let (exp, info) = parse_claims_text(t)->0;
    let rest = t.skip(7);
    let n = digit_run(rest);
    let d = rest.take(n as int);
    let after = rest.skip(n as int);
    lemma_digit_run_prefix(rest);
    lemma_dec_of_value(d);
    lemma_unescape_sound(after.skip(9));
    assert(after =~= info_key() + after.skip(9));
    assert(rest =~= d + after);
    assert(t =~= exp_key() + rest);
    assert(t =~= claims_text(exp, info));
}

proof fn lemma_digit_run_prefix(s: Seq<u8>)
    ensures
        digit_run(s) <= s.len(),
        forall|i: int| 0 <= i < digit_run(s) ==> is_digit(#[trigger] s[i]),
    decreases s.len(),
{
    if s.len() > 0 && is_digit(s[0]) {
        lemma_digit_run_prefix(s.drop_first());
        assert forall|i: int| 0 <= i < digit_run(s) implies is_digit(#[trigger] s[i]) by {
            if i > 0 {
                assert(s[i] == s.drop_first()[i - 1]);
            }
        }
    }
}

fn hex_char(v: u8) -> (r: u8)
    requires
        v < 16,
    ensures
        r == hex_digit(v),
{
    if v < 10 {
        48 + v
    } else {
        87 + v
    }
}

fn push_dec(out: &mut Vec<u8>, n: u64)
    ensures
        final(out)@ == old(out)@ + dec(n as nat),
    decreases n,
{
    let ghost start = out@;
    if n >= 10 {
        push_dec(out, n / 10);
    }
    out.push(48 + (n % 10) as u8);
    proof {
        if n >= 10 {
            assert(out@ =~= start + dec(n as nat));
        } else {
            assert(n % 10 == n);
            assert(out@ =~= start + dec(n as nat));
        }
    }
}

fn push_escaped(out: &mut Vec<u8>, s: &[u8])
    ensures
        final(out)@ == old(out)@ + escape(s@),
{
    let ghost start = out@;
    let mut i: usize = 0;
    while i < s.len()
        invariant
            i <= s@.len(),
            out@ == start + escape(s@.take(i as int)),
        decreases s.len() - i,
    {
        let b = s[i];
        let ghost before = out@;
        if b == 34 {
            out.push(92);
            out.push(34);
        } else if b == 92 {
            out.push(92);
            out.push(92);
        } else if b == 8 || b == 9 || b == 10 || b == 12 || b == 13 {
            out.push(92);
            out.push(
                if b == 8 {
                    98
                } else if b == 9 {
                    116
                } else if b == 10 {
                    110
                } else if b == 12 {
                    102
                } else {
                    114
                },
            );
        } else if b < 32 {
            out.push(92);
            out.push(117);
            out.push(48);
            out.push(48);
            out.push(hex_char(b / 16));
            out.push(hex_char(b % 16));
        } else {
            out.push(b);
        }
        proof {
            assert(out@ =~= before + escape_byte(b));
            lemma_escape_append(s@.take(i as int), seq![b]);
            assert(s@.take(i + 1) =~= s@.take(i as int) + seq![b]);
            assert(seq![b].drop_first() =~= Seq::<u8>::empty());
            assert(escape(Seq::<u8>::empty()) =~= Seq::<u8>::empty());
            assert(seq![b][0] == b);
            assert(escape(seq![b]) =~= escape_byte(b));
        }
        i += 1;
    }
    assert(s@.take(i as int) =~= s@);
}

/// The claims text for `exp` and the payload bytes `info`.
pub fn encode_claims(exp: u64, info: &[u8]) -> (r: Vec<u8>)
    ensures
        r@ == claims_text(exp, info@),
{
    let mut out: Vec<u8> = Vec::new();
    push_all(&mut out, &[123, 34, 101, 120, 112, 34, 58]);
    push_dec(&mut out, exp);
    push_all(&mut out, &[44, 34, 105, 110, 102, 111, 34, 58, 34]);
    push_escaped(&mut out, info);
    push_all(&mut out, &[34, 125]);
    assert(out@ =~= claims_text(exp, info@));
    out
}

/// Whether `t` holds `lit` from position `pos` on.
fn holds_at(t: &[u8], pos: usize, lit: &[u8]) -> (r: bool)
    requires
        pos <= t@.len(),
    ensures
        r == (t@.len() - pos >= lit@.len() && t@.skip(pos as int).take(lit@.len() as int)
            == lit@),
{
    if t.len() - pos < lit.len() {
        return false;
    }
    let mut i: usize = 0;
    while i < lit.len()
        invariant
            pos + lit@.len() <= t@.len(),
            t@.len() == t.len(),
            i <= lit@.len(),
            forall|j: int| 0 <= j < i ==> t@[pos + j] == lit@[j],
        decreases lit.len() - i,
    {
        if t[pos + i] != lit[i] {
            assert(t@.skip(pos as int).take(lit@.len() as int)[i as int] != lit@[i as int]);
            return false;
        }
        i += 1;
    }
    assert(t@.skip(pos as int).take(lit@.len() as int) =~= lit@);
    true
}

/// Reads one written payload byte at position `p`.
fn read_unit_at(t: &[u8], p: usize) -> (r: Option<(u8, usize)>)
    requires
        p <= t@.len(),
    ensures
        match r {
            Some((b, n)) => read_unit(t@.skip(p as int)) == Some((b, n as nat)),
            None => read_unit(t@.skip(p as int)) is None,
        },
{
    let ghost s = t@.skip(p as int);
    let len = t.len() - p;
    if len == 0 {
        return None;
    }
    let c = t[p];
    if c == 92 {
        if len >= 2 && t[p + 1] == 34 {
            Some((34, 2))
        } else if len >= 2 && t[p + 1] == 92 {
            Some((92, 2))
        } else if len >= 2 && (t[p + 1] == 98 || t[p + 1] == 116 || t[p + 1] == 110 || t[p
            + 1] == 102 || t[p + 1] == 114) {
            let e = t[p + 1];
            Some(
                (
                    if e == 98 {
                        8
                    } else if e == 116 {
                        9
                    } else if e == 110 {
                        10
                    } else if e == 102 {
                        12
                    } else {
                        13
                    },
                    2,
                ),
            )
        } else if len >= 6 && t[p + 1] == 117 && t[p + 2] == 48 && t[p + 3] == 48 && (t[p + 4]
            == 48 || t[p + 4] == 49) {
            let h = t[p + 5];
            let v = if 48 <= h && h <= 57 {
                (t[p + 4] - 48) * 16 + (h - 48)
            } else if 97 <= h && h <= 102 {
                (t[p + 4] - 48) * 16 + (h - 87)
            } else {
                return None;
            };
            if v == 8 || v == 9 || v == 10 || v == 12 || v == 13 {
                None
            } else {
                Some((v, 6))
            }
        } else {
            None
        }
    } else if c == 34 || c < 32 {
        None
    } else {
        Some((c, 1))
    }
}

/// Reads the payload that starts at `start` and runs to the closing `"}`.
fn unescape_from(t: &[u8], start: usize) -> (r: Option<Vec<u8>>)
    requires
        start <= t@.len(),
    ensures
        match r {
            Some(v) => unescape(t@.skip(start as int)) == Some(v@),
            None => unescape(t@.skip(start as int)) is None,
        },
{
    let mut out: Vec<u8> = Vec::new();
    let mut p: usize = start;
    loop
        invariant
            start <= p <= t@.len(),
            unescape(t@.skip(start as int)) == match unescape(t@.skip(p as int)) {
                Some(rest) => Some(out@ + rest),
                None => None::<Seq<u8>>,
            },
        decreases t@.len() - p,
    {
        let ghost s = t@.skip(p as int);
        if t.len() - p == 2 && t[p] == 34 && t[p + 1] == 125 {
            assert(s =~= closing());
            assert(out@ + Seq::<u8>::empty() =~= out@);
            return Some(out);
        }
        assert(s != closing()) by {
            if s == closing() {
                assert(s[0] == t@[p as int] && s[1] == t@[p + 1]);
            }
        }
        match read_unit_at(t, p) {
            None => {
                return None;
            },
            Some((b, n)) => {
                proof {
                    lemma_read_unit_sound(s);
                    assert(s.skip(n as int) =~= t@.skip(p + n));
                    match unescape(t@.skip(p + n)) {
                        Some(rest) => {
                            assert(out@ + (seq![b] + rest) =~= out@.push(b) + rest);
                        },
                        None => {},
                    }
                }
                out.push(b);
                p = p + n;
            },
        }
    }
}

/// Reads a claims text in exactly the encoder's form.
fn decode_claims_text(t: &[u8]) -> (r: Option<(u64, Vec<u8>)>)
    ensures
        match r {
            Some((exp, info)) => parse_claims_text(t@) == Some((exp, info@)),
            None => parse_claims_text(t@) is None,
        },
{
    if !holds_at(t, 0, &[123, 34, 101, 120, 112, 34, 58]) {
        assert(t@.skip(0) =~= t@);
        return None;
    }
    assert(t@.skip(0) =~= t@);
    let ghost rest = t@.skip(7);
    let mut j: usize = 7;
    let mut acc: u64 = 0;
    let mut over = false;
    while j < t.len() && 48 <= t[j] && t[j] <= 57
        invariant
            7 <= j <= t@.len(),
            rest == t@.skip(7),
            digit_run(rest) == (j - 7) + digit_run(t@.skip(j as int)),
            forall|i: int| 7 <= i < j ==> is_digit(#[trigger] t@[i]),
            !over ==> acc == digits_value(t@.subrange(7, j as int)),
            over ==> digits_value(t@.subrange(7, j as int)) > u64::MAX,
        decreases t@.len() - j,
    {
        let dv = t[j] - 48;
        let ghost prev = digits_value(t@.subrange(7, j as int));
        proof {
            let s = t@.skip(j as int);
            assert(s.drop_first() =~= t@.skip(j + 1));
            assert(t@.subrange(7, j + 1).drop_last() =~= t@.subrange(7, j as int));
            assert(digits_value(t@.subrange(7, j + 1)) == prev * 10 + dv as nat);
        }
        if !over {
            if acc <= (u64::MAX - dv as u64) / 10 {
                assert(acc * 10 + dv <= u64::MAX) by (nonlinear_arith)
                    requires
                        acc <= (u64::MAX - dv as u64) / 10,
                ;
                acc = acc * 10 + dv as u64;
            } else {
                assert(acc * 10 + dv > u64::MAX) by (nonlinear_arith)
                    requires
                        acc > (u64::MAX - dv as u64) / 10,
                        dv <= 9,
                ;
                over = true;
            }
        } else {
            assert(prev * 10 + dv as nat > u64::MAX) by (nonlinear_arith)
                requires
                    prev > u64::MAX,
            ;
        }
        j += 1;
    }
    let n = j - 7;
    proof {
        assert(digit_run(t@.skip(j as int)) == 0);
        assert(rest.take(n as int) =~= t@.subrange(7, j as int));
        assert(rest.skip(n as int) =~= t@.skip(j as int));
    }
    if n == 0 || (n > 1 && t[7] == 48) || over {
        return None;
    }
    if !holds_at(t, j, &[44, 34, 105, 110, 102, 111, 34, 58, 34]) {
        return None;
    }
    assert(t@.skip(j as int).skip(9) =~= t@.skip(j + 9));
    match unescape_from(t, j + 9) {
        Some(info) => Some((acc, info)),
        None => None,
    }
}


/// A position, or none, as the spec functions speak of it.
pub open spec fn pos_of(r: Option<usize>) -> Option<nat> {
    match r {
        Some(x) => Some(x as nat),
        None => None,
    }
}

fn skip_ws_at(t: &[u8], p: usize) -> (r: usize)
    requires
        p <= t@.len(),
    ensures
        r as nat == skip_ws(t@, p as nat),
        p <= r <= t@.len(),
{
    let mut q = p;
    while q < t.len() && (t[q] == 32 || t[q] == 9 || t[q] == 10 || t[q] == 13)
        invariant
            p <= q <= t@.len(),
            skip_ws(t@, p as nat) == skip_ws(t@, q as nat),
        decreases t@.len() - q,
    {
        q += 1;
    }
    q
}

fn hex_any_at(c: u8) -> (r: Option<u32>)
    ensures
        r == hex_any(c),
{
    if 48 <= c && c <= 57 {
        Some((c - 48) as u32)
    } else if 97 <= c && c <= 102 {
        Some((c - 87) as u32)
    } else if 65 <= c && c <= 70 {
        Some((c - 55) as u32)
    } else {
        None
    }
}

fn hex4_at(t: &[u8], p: usize) -> (r: Option<u32>)
    requires
        p <= t@.len(),
    ensures
        r == hex4(t@, p as nat),
        r is Some ==> r->0 <= 0xFFFF,
{
    if t.len() - p < 4 {
        return None;
    }
    match (hex_any_at(t[p]), hex_any_at(t[p + 1]), hex_any_at(t[p + 2]), hex_any_at(t[p + 3])) {
        (Some(a), Some(b), Some(c), Some(d)) => Some(a * 4096 + b * 256 + c * 16 + d),
        _ => None,
    }
}

fn push_utf8(out: &mut Vec<u8>, cp: u32)
    requires
        cp <= 0x10FFFF,
    ensures
        final(out)@ == old(out)@ + utf8_of(cp),
{
    let ghost start = out@;
    if cp < 0x80 {
        out.push(cp as u8);
    } else if cp < 0x800 {
        out.push((0xC0 + cp / 64) as u8);
        out.push((0x80 + cp % 64) as u8);
    } else if cp < 0x10000 {
        out.push((0xE0 + cp / 4096) as u8);
        out.push((0x80 + (cp / 64) % 64) as u8);
        out.push((0x80 + cp % 64) as u8);
    } else {
        out.push((0xF0 + cp / 262144) as u8);
        out.push((0x80 + (cp / 4096) % 64) as u8);
        out.push((0x80 + (cp / 64) % 64) as u8);
        out.push((0x80 + cp % 64) as u8);
    }
    assert(out@ =~= start + utf8_of(cp));
}

fn simple_escape_of(e: u8) -> (r: Option<u8>)
    ensures
        r == simple_escape(e),
{
    if e == 34 || e == 92 || e == 47 {
        Some(e)
    } else if e == 98 {
        Some(8)
    } else if e == 102 {
        Some(12)
    } else if e == 110 {
        Some(10)
    } else if e == 114 {
        Some(13)
    } else if e == 116 {
        Some(9)
    } else {
        None
    }
}

fn str_body_at(t: &[u8], p: usize) -> (r: Option<(Vec<u8>, usize)>)
    requires
        p <= t@.len(),
    ensures
        match r {
            Some((v, e)) => str_body(t@, p as nat, Seq::empty()) == Some((v@, e as nat)) && e
                <= t@.len(),
            None => str_body(t@, p as nat, Seq::empty()) is None,
        },
{
    let mut acc: Vec<u8> = Vec::new();
    let mut q = p;
    loop
        invariant
            p <= q <= t@.len(),
            str_body(t@, p as nat, Seq::empty()) == str_body(t@, q as nat, acc@),
        decreases t@.len() - q,
    {
        let ghost q0 = q;
        let ghost acc0 = acc@;
        if q >= t.len() {
            return None;
        }
        let c = t[q];
        if c == 34 {
            return Some((acc, q + 1));
        } else if c == 92 {
            if q + 1 >= t.len() {
                return None;
            }
            let e = t[q + 1];
            match simple_escape_of(e) {
                Some(b) => {
                    acc.push(b);
                    q = q + 2;
                },
                None => {
                    if e != 117 {
                        return None;
                    }
                    match hex4_at(t, q + 2) {
                        None => {
                            return None;
                        },
                        Some(u) => {
                            if 0xD800 <= u && u < 0xDC00 {
                                if t.len() - q >= 12 && t[q + 6] == 92 && t[q + 7] == 117 {
                                    match hex4_at(t, q + 8) {
                                        Some(l) => {
                                            if 0xDC00 <= l && l < 0xE000 {
                                                push_utf8(
                                                    &mut acc,
                                                    0x10000 + (u - 0xD800) * 1024 + (l - 0xDC00),
                                                );
                                                q = q + 12;
                                            } else {
                                                return None;
                                            }
                                        },
                                        None => {
                                            return None;
                                        },
                                    }
                                } else {
                                    return None;
                                }
                            } else if 0xDC00 <= u && u < 0xE000 {
                                return None;
                            } else {
                                push_utf8(&mut acc, u);
                                q = q + 6;
                            }
                        },
                    }
                },
            }
        } else if c < 32 {
            return None;
        } else {
            acc.push(c);
            q = q + 1;
        }
        assert(str_body(t@, q0 as nat, acc0) == str_body(t@, q as nat, acc@));
    }
}

fn digits_at(t: &[u8], p: usize) -> (r: (usize, u64, bool))
    requires
        p <= t@.len(),
    ensures
        r.0 as nat == p + digit_run(t@.skip(p as int)),
        r.0 <= t@.len(),
        !r.2 ==> r.1 as nat == digits_value(t@.subrange(p as int, r.0 as int)),
        r.2 ==> digits_value(t@.subrange(p as int, r.0 as int)) > u64::MAX,
{
    let mut j: usize = p;
    let mut acc: u64 = 0;
    let mut over = false;
    assert(t@.subrange(p as int, p as int) =~= Seq::<u8>::empty());
    while j < t.len() && 48 <= t[j] && t[j] <= 57
        invariant
            p <= j <= t@.len(),
            digit_run(t@.skip(p as int)) == (j - p) + digit_run(t@.skip(j as int)),
            !over ==> acc == digits_value(t@.subrange(p as int, j as int)),
            over ==> digits_value(t@.subrange(p as int, j as int)) > u64::MAX,
        decreases t@.len() - j,
    {
        let dv = t[j] - 48;
        let ghost prev = digits_value(t@.subrange(p as int, j as int));
        proof {
            assert(t@.skip(j as int).drop_first() =~= t@.skip(j + 1));
            assert(t@.subrange(p as int, j + 1).drop_last() =~= t@.subrange(p as int, j as int));
            assert(digits_value(t@.subrange(p as int, j + 1)) == prev * 10 + dv as nat);
        }
        if !over {
            if acc <= (u64::MAX - dv as u64) / 10 {
                assert(acc * 10 + dv <= u64::MAX) by (nonlinear_arith)
                    requires
                        acc <= (u64::MAX - dv as u64) / 10,
                ;
                acc = acc * 10 + dv as u64;
            } else {
                assert(acc * 10 + dv > u64::MAX) by (nonlinear_arith)
                    requires
                        acc > (u64::MAX - dv as u64) / 10,
                        dv <= 9,
                ;
                over = true;
            }
        } else {
            assert(prev * 10 + dv as nat > u64::MAX) by (nonlinear_arith)
                requires
                    prev > u64::MAX,
            ;
        }
        j += 1;
    }
    assert(digit_run(t@.skip(j as int)) == 0);
    (j, acc, over)
}

fn number_end_at(t: &[u8], p: usize) -> (r: Option<usize>)
    requires
        p <= t@.len(),
    ensures
        pos_of(r) == number_end(t@, p as nat),
        r is Some ==> r->0 <= t@.len(),
{
    let a = if p < t.len() && t[p] == 45 { p + 1 } else { p };
    if a >= t.len() || !(48 <= t[a] && t[a] <= 57) {
        return None;
    }
    let b = if t[a] == 48 { a + 1 } else { digits_at(t, a).0 };
    let c = if b < t.len() && t[b] == 46 {
        let n = digits_at(t, b + 1).0;
        if n == b + 1 {
            return None;
        }
        n
    } else {
        b
    };
    if c < t.len() && (t[c] == 101 || t[c] == 69) {
        let s = if c + 1 < t.len() && (t[c + 1] == 43 || t[c + 1] == 45) { c + 2 } else { c + 1 };
        let n = digits_at(t, s).0;
        if n == s {
            None
        } else {
            Some(n)
        }
    } else {
        Some(c)
    }
}

fn exp_value_at(t: &[u8], p: usize) -> (r: Option<(u64, usize)>)
    requires
        p <= t@.len(),
    ensures
        match r {
            Some((v, e)) => exp_value(t@, p as nat) == Some((v, e as nat)) && e <= t@.len(),
            None => exp_value(t@, p as nat) is None,
        },
{
    if p >= t.len() {
        return None;
    }
    let (e, v, over) = digits_at(t, p);
    let n = e - p;
    if n == 0 || (n > 1 && t[p] == 48) || over {
        return None;
    }
    if e < t.len() && (t[e] == 46 || t[e] == 101 || t[e] == 69) {
        return None;
    }
    Some((v, e))
}

fn lit_end_at(t: &[u8], p: usize, lit: &[u8]) -> (r: Option<usize>)
    requires
        p <= t@.len(),
    ensures
        pos_of(r) == lit_end(t@, p as nat, lit@),
        r is Some ==> r->0 <= t@.len(),
{
    if holds_at(t, p, lit) {
        assert(t@.len() == t.len());
        assert(t@.skip(p as int).take(lit@.len() as int) =~= t@.subrange(p as int, p + lit@.len()));
        Some(p + lit.len())
    } else {
        proof {
            if p + lit@.len() <= t@.len() {
                assert(t@.skip(p as int).take(lit@.len() as int) =~= t@.subrange(
                    p as int,
                    p + lit@.len(),
                ));
            }
        }
        None
    }
}

fn skip_value_at(t: &[u8], p: usize, depth: u32) -> (r: Option<usize>)
    requires
        p <= t@.len(),
    ensures
        pos_of(r) == skip_value(t@, p as nat, depth as nat),
        r is Some ==> r->0 <= t@.len(),
    decreases depth, 1nat,
{
    if p >= t.len() {
        return None;
    }
    let c = t[p];
    if c == 34 {
        match str_body_at(t, p + 1) {
            Some((_, e)) => Some(e),
            None => None,
        }
    } else if c == 123 {
        items_at(t, p + 1, true, depth, true)
    } else if c == 91 {
        items_at(t, p + 1, true, depth, false)
    } else if c == 116 {
        let lit: [u8; 4] = [116, 114, 117, 101];
        assert(lit@ =~= seq![116u8, 114u8, 117u8, 101u8]);
        lit_end_at(t, p, &lit)
    } else if c == 102 {
        let lit: [u8; 5] = [102, 97, 108, 115, 101];
        assert(lit@ =~= seq![102u8, 97u8, 108u8, 115u8, 101u8]);
        lit_end_at(t, p, &lit)
    } else if c == 110 {
        let lit: [u8; 4] = [110, 117, 108, 108];
        assert(lit@ =~= seq![110u8, 117u8, 108u8, 108u8]);
        lit_end_at(t, p, &lit)
    } else if c == 45 || (48 <= c && c <= 57) {
        number_end_at(t, p)
    } else {
        None
    }
}

fn items_at(t: &[u8], p: usize, first: bool, depth: u32, obj: bool) -> (r: Option<usize>)
    requires
        p <= t@.len(),
    ensures
        pos_of(r) == items(t@, p as nat, first, depth as nat, obj),
        r is Some ==> r->0 <= t@.len(),
    decreases depth, 0nat,
{
    if depth == 0 {
        return None;
    }
    let close: u8 = if obj { 125 } else { 93 };
    let mut p1 = p;
    let mut fst = first;
    loop
        invariant
            p1 <= t@.len(),
            depth >= 1,
            close == (if obj { 125u8 } else { 93u8 }),
            items(t@, p as nat, first, depth as nat, obj) == items(t@, p1 as nat, fst, depth as nat, obj),
        decreases t@.len() - p1,
    {
        let q = skip_ws_at(t, p1);
        if q >= t.len() {
            return None;
        }
        if fst && t[q] == close {
            return Some(q + 1);
        }
        let s = if obj {
            if t[q] != 34 {
                return None;
            }
            match str_body_at(t, q + 1) {
                None => {
                    return None;
                },
                Some((_, a)) => {
                    let b = skip_ws_at(t, a);
                    if b < t.len() && t[b] == 58 {
                        skip_ws_at(t, b + 1)
                    } else {
                        return None;
                    }
                },
            }
        } else {
            q
        };
        match skip_value_at(t, s, depth - 1) {
            None => {
                return None;
            },
            Some(v) => {
                let r = skip_ws_at(t, v);
                if r >= t.len() || r < p1 {
                    return None;
                }
                if t[r] == 44 {
                    p1 = r + 1;
                    fst = false;
                } else if t[r] == close {
                    return Some(r + 1);
                } else {
                    return None;
                }
            },
        }
    }
}

fn opt_view(o: &Option<Vec<u8>>) -> (r: bool)
    ensures
        r == o is Some,
{
    match o {
        Some(_) => true,
        None => false,
    }
}

pub open spec fn view_opt(o: Option<Vec<u8>>) -> Option<Seq<u8>> {
    match o {
        Some(v) => Some(v@),
        None => None,
    }
}

fn claims_end_at(t: &[u8], e: usize, exp: Option<u64>, info: Option<Vec<u8>>) -> (r: Option<
    (u64, Vec<u8>),
>)
    requires
        e <= t@.len(),
    ensures
        match r {
            Some((x, i)) => claims_end(t@, e as nat, exp, view_opt(info)) == Some((x, i@)),
            None => claims_end(t@, e as nat, exp, view_opt(info)) is None,
        },
{
    if skip_ws_at(t, e) != t.len() {
        return None;
    }
    match (exp, info) {
        (Some(x), Some(i)) => Some((x, i)),
        _ => None,
    }
}

fn json_claims_at(t: &[u8]) -> (r: Option<(u64, Vec<u8>)>)
    ensures
        match r {
            Some((x, i)) => json_claims(t@) == Some((x, i@)),
            None => json_claims(t@) is None,
        },
{
    reveal(json_claims);
    let q0 = skip_ws_at(t, 0);
    if q0 >= t.len() || t[q0] != 123 {
        return None;
    }
    let mut p = q0 + 1;
    let mut first = true;
    let mut exp: Option<u64> = None;
    let mut info: Option<Vec<u8>> = None;
    let exp_key: [u8; 3] = [101, 120, 112];
    let info_key: [u8; 4] = [105, 110, 102, 111];
    assert(exp_key@ =~= exp_name());
    assert(info_key@ =~= info_name());
    loop
        invariant
            p <= t@.len(),
            exp_key@ == exp_name(),
            info_key@ == info_name(),
            json_claims(t@) == claims_fields(t@, p as nat, first, exp, view_opt(info)),
        decreases t@.len() - p,
    {
        let q = skip_ws_at(t, p);
        if q >= t.len() {
            return None;
        }
        if first && t[q] == 125 {
            return claims_end_at(t, q + 1, exp, info);
        }
        if t[q] != 34 {
            return None;
        }
        let (k, a) = match str_body_at(t, q + 1) {
            None => {
                return None;
            },
            Some(ka) => ka,
        };
        let b = skip_ws_at(t, a);
        if b >= t.len() || t[b] != 58 {
            return None;
        }
        let s = skip_ws_at(t, b + 1);
        let v = if same_bytes(&k, &exp_key) {
            if exp.is_some() {
                return None;
            }
            match exp_value_at(t, s) {
                Some((e, v)) => {
                    exp = Some(e);
                    v
                },
                None => {
                    return None;
                },
            }
        } else if same_bytes(&k, &info_key) {
            if opt_view(&info) {
                return None;
            }
            if s < t.len() && t[s] == 34 {
                match str_body_at(t, s + 1) {
                    Some((i, v)) => {
                        info = Some(i);
                        v
                    },
                    None => {
                        return None;
                    },
                }
            } else {
                return None;
            }
        } else {
            match skip_value_at(t, s, 127) {
                Some(v) => v,
                None => {
                    return None;
                },
            }
        };
        let r = skip_ws_at(t, v);
        if r >= t.len() || r < p {
            return None;
        }
        if t[r] == 44 {
            p = r + 1;
            first = false;
        } else if t[r] == 125 {
            return claims_end_at(t, r + 1, exp, info);
        } else {
            return None;
        }
    }
}

/// Reads a claims text: the expiration time and the payload bytes, or `None`
/// where `t` is not a JSON object with an integer `exp` and a string `info`.
pub fn decode_claims(t: &[u8]) -> (r: Option<(u64, Vec<u8>)>)
    ensures
        match r {
            Some((exp, info)) => parse_claims(t@) == Some((exp, info@)),
            None => parse_claims(t@) is None,
        },
{
    match decode_claims_text(t) {
        Some(c) => Some(c),
        None => json_claims_at(t),
    }
}

} // verus!
