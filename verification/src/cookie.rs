//! The session cookie: reading the token out of a `Cookie` request header,
//! and the decimal encoding the token travels in.
//!
//! A `Cookie` header is a `;`-separated list of pairs, each of a name, the
//! first `=` and a value, with optional spaces after each separator. The
//! session token is the value of the `session` cookie, a decimal number.

use vstd::prelude::*;
use vstd::slice::{slice_subrange, slice_to_vec};
use crate::form::{bytes_eq, find_byte, find_first, lemma_find_first_is, lookup_field};

verus! {

/// The name of the session cookie.
pub open spec fn session_cookie_name() -> Seq<u8> {
    seq![115u8, 101u8, 115u8, 115u8, 105u8, 111u8, 110u8]
}

/// The name of the session cookie, as bytes: `session`.
pub fn session_cookie_name_bytes() -> (r: Vec<u8>)
    ensures
        r@ == session_cookie_name(),
{
    let mut r: Vec<u8> = Vec::new();
    r.push(115);
    r.push(101);
    r.push(115);
    r.push(115);
    r.push(105);
    r.push(111);
    r.push(110);
    proof {
        assert(r@ =~= session_cookie_name());
    }
    r
}

/// `s` without its leading spaces.
pub open spec fn trim_spaces(s: Seq<u8>) -> Seq<u8>
    decreases s.len(),
{
    if s.len() > 0 && s[0] == 32 {
        trim_spaces(s.drop_first())
    } else {
        s
    }
}

/// Dropping every byte of a run of leading spaces is what [`trim_spaces`]
/// does.
pub proof fn lemma_trim_spaces_is(s: Seq<u8>, t: int)
    requires
        0 <= t <= s.len(),
        forall|k: int| 0 <= k < t ==> s[k] == 32,
        t == s.len() || s[t] != 32,
    ensures
        trim_spaces(s) == s.skip(t),
    decreases t,
{
    if t == 0 {
        assert(s.skip(0) =~= s);
    } else {
        assert(s[0] == 32);
        lemma_trim_spaces_is(s.drop_first(), t - 1);
        assert(s.drop_first().skip(t - 1) =~= s.skip(t));
    }
}

/// The name of one cookie pair: what stands before the first `=` of the
/// trimmed segment.
pub open spec fn cookie_key(seg: Seq<u8>) -> Seq<u8> {
    seg.take(find_first(seg, 61) as int)
}

/// The value of one cookie pair: what stands after the first `=` of the
/// trimmed segment; empty when the segment has no `=`.
pub open spec fn cookie_val(seg: Seq<u8>) -> Seq<u8> {
    let j = find_first(seg, 61) as int;
    if j >= seg.len() {
        Seq::empty()
    } else {
        seg.skip(j + 1)
    }
}

/// The pairs of a `Cookie` header: one name/value pair per `;`-separated
/// segment, each trimmed of leading spaces, in order.
pub open spec fn cookie_pairs(s: Seq<u8>) -> Seq<(Seq<u8>, Seq<u8>)>
    decreases s.len(),
{
    let j = find_first(s, 59) as int;
    let seg = trim_spaces(s.take(j));
    if j >= s.len() {
        seq![(cookie_key(seg), cookie_val(seg))]
    } else {
        seq![(cookie_key(seg), cookie_val(seg))] + cookie_pairs(s.skip(j + 1))
    }
}

/// The value of the first cookie named `name` in the header, if any.
pub open spec fn cookie_value(header: Seq<u8>, name: Seq<u8>) -> Option<Seq<u8>> {
    lookup_field(cookie_pairs(header), name)
}

/// Reads the value of the cookie named `name` out of a `Cookie` header.
#[verifier::rlimit(60)]
pub fn parse_cookie_value(header: &[u8], name: &[u8]) -> (r: Option<Vec<u8>>)
    ensures
        (match r {
            Some(v) => cookie_value(header@, name@) == Some(v@),
            None => cookie_value(header@, name@) is None,
        }),
{
    let mut i: usize = 0;
    proof {
        assert(header@.skip(0) =~= header@);
    }
    loop
        invariant
            i <= header@.len(),
            cookie_value(header@, name@) == lookup_field(
                cookie_pairs(header@.skip(i as int)),
                name@,
            ),
        decreases header@.len() - i,
    {
        let ghost rem = header@.skip(i as int);
        let j = find_byte(header, i, header.len(), 59);
        proof {
            assert forall|k: int| 0 <= k < j - i implies rem[k] != 59 by {
                assert(rem[k] == header@[i + k]);
            }
            if j < header@.len() {
                assert(rem[j - i] == header@[j as int]);
            }
            lemma_find_first_is(rem, 59, j - i);
            assert(rem.take(j - i) =~= header@.subrange(i as int, j as int));
        }
        let mut t: usize = i;
        while t < j && header[t] == 32
            invariant
                i <= t <= j <= header@.len(),
                forall|k: int| i <= k < t ==> header@[k] == 32,
            decreases j - t,
        {
            t = t + 1;
        }
        let ghost raw = rem.take(j - i);
        let ghost seg = trim_spaces(raw);
        proof {
            assert forall|k: int| 0 <= k < t - i implies raw[k] == 32 by {
                assert(raw[k] == header@[i + k]);
            }
            if t < j {
                assert(raw[t - i] == header@[t as int]);
            }
            lemma_trim_spaces_is(raw, t - i);
            assert(raw.skip(t - i) =~= header@.subrange(t as int, j as int));
        }
        let eq = find_byte(header, t, j, 61);
        proof {
            assert forall|k: int| 0 <= k < eq - t implies seg[k] != 61 by {
                assert(seg[k] == header@[t + k]);
            }
            if eq < j {
                assert(seg[eq - t] == header@[eq as int]);
            }
            lemma_find_first_is(seg, 61, eq - t);
            assert(seg.take(eq - t) =~= header@.subrange(t as int, eq as int));
        }
        let key = slice_subrange(header, t, eq);
        let key_matches = bytes_eq(key, name);
        let ghost pairs = cookie_pairs(rem);
        proof {
            assert(pairs[0] == (cookie_key(seg), cookie_val(seg)));
            assert(cookie_key(seg) == key@);
        }
        if key_matches {
            if eq < j {
                let value = slice_to_vec(slice_subrange(header, eq + 1, j));
                proof {
                    assert(seg.skip(eq - t + 1) =~= header@.subrange(eq + 1, j as int));
                    assert(cookie_val(seg) == value@);
                }
                return Some(value);
            } else {
                let value: Vec<u8> = Vec::new();
                proof {
                    assert(cookie_val(seg) == value@);
                }
                return Some(value);
            }
        }
        proof {
            assert(lookup_field(pairs, name@) == (if pairs.len() == 1 {
                None::<Seq<u8>>
            } else {
                lookup_field(pairs.drop_first(), name@)
            }));
        }
        if j < header.len() {
            proof {
                assert(pairs.drop_first() =~= cookie_pairs(rem.skip(j - i + 1)));
                assert(rem.skip(j - i + 1) =~= header@.skip(j + 1));
            }
            i = j + 1;
        } else {
            return None;
        }
    }
}

/// True of the bytes of ASCII decimal digits.
pub open spec fn is_digit(b: u8) -> bool {
    48 <= b <= 57
}

/// The number a digit string stands for, read left to right.
pub open spec fn digits_value(s: Seq<u8>) -> int
    decreases s.len(),
{
    if s.len() == 0 {
        0
    } else {
        digits_value(s.drop_last()) * 10 + (s.last() - 48)
    }
}

/// What a token parsed from a cookie value is: the number the bytes spell,
/// provided they are one or more decimal digits and the number fits a token.
pub open spec fn parse_token(s: Seq<u8>) -> Option<u128> {
    if s.len() > 0 && (forall|k: int| 0 <= k < s.len() ==> is_digit(s[k])) && digits_value(s)
        <= u128::MAX {
        Some(digits_value(s) as u128)
    } else {
        None
    }
}

/// A digit string's value never shrinks when digits are appended.
proof fn lemma_digits_value_grows(s: Seq<u8>, t: int)
    requires
        forall|k: int| 0 <= k < s.len() ==> is_digit(s[k]),
        0 <= t <= s.len(),
    ensures
        digits_value(s) >= digits_value(s.take(t)) >= 0,
    decreases s.len(),
{
    if s.len() == 0 {
        assert(s.take(t) =~= s);
    } else if t == s.len() {
        assert(s.take(t) =~= s);
        lemma_digits_value_grows(s.drop_last(), s.len() - 1);
    } else {
        let head = s.drop_last();
        assert(forall|k: int| 0 <= k < head.len() ==> is_digit(#[trigger] head[k]));
        lemma_digits_value_grows(head, t);
        assert(head.take(t) =~= s.take(t));
    }
}

/// Reads a session token out of a cookie value.
pub fn parse_token_bytes(s: &[u8]) -> (r: Option<u128>)
    ensures
        r == parse_token(s@),
{
    if s.len() == 0 {
        return None;
    }
    let mut value: u128 = 0;
    let mut i: usize = 0;
    proof {
        assert(s@.take(0) =~= Seq::<u8>::empty());
    }
    while i < s.len()
        invariant
            i <= s@.len(),
            s@.len() > 0,
            forall|k: int| 0 <= k < i ==> is_digit(s@[k]),
            value == digits_value(s@.take(i as int)),
        decreases s@.len() - i,
    {
        let b = s[i];
        if !(48 <= b && b <= 57) {
            return None;
        }
        let d = (b - 48) as u128;
        proof {
            assert(s@.take(i as int + 1).drop_last() =~= s@.take(i as int));
            assert(s@.take(i as int + 1).last() == s@[i as int]);
        }
        if value > (u128::MAX - d) / 10 {
            proof {
                assert(digits_value(s@.take(i as int + 1)) == value * 10 + d);
                assert(value * 10 + d > u128::MAX) by {
                    assert(value >= (u128::MAX - d) / 10 + 1);
                    assert(value * 10 >= ((u128::MAX - d) / 10 + 1) * 10) by (nonlinear_arith)
                        requires
                            value >= (u128::MAX - d) / 10 + 1,
                    ;
                    assert(((u128::MAX - d) / 10 + 1) * 10 > u128::MAX - d) by (nonlinear_arith)
                        requires
                            d <= 9,
                    ;
                }
                if forall|k: int| 0 <= k < s@.len() ==> is_digit(#[trigger] s@[k]) {
                    lemma_digits_value_grows(s@, i as int + 1);
                    assert(s@.take(s@.len() as int) =~= s@);
                    assert(digits_value(s@) > u128::MAX);
                }
            }
            return None;
        }
        proof {
            assert(value * 10 + d <= u128::MAX) by {
                assert(value <= (u128::MAX - d) / 10);
                assert(value * 10 <= ((u128::MAX - d) / 10) * 10) by (nonlinear_arith)
                    requires
                        value <= (u128::MAX - d) / 10,
                ;
                assert(((u128::MAX - d) / 10) * 10 <= u128::MAX - d);
            }
        }
        value = value * 10 + d;
        i = i + 1;
    }
    proof {
        assert(s@.take(s@.len() as int) =~= s@);
    }
    Some(value)
}

/// The decimal digits of a token, most significant first.
pub open spec fn dec_digits(t: u128) -> Seq<u8>
    decreases t,
{
    if t < 10 {
        seq![(48 + t) as u8]
    } else {
        dec_digits(t / 10).push((48 + t % 10) as u8)
    }
}

/// The decimal digits of a token are digits and spell the token.
pub proof fn lemma_dec_digits(t: u128)
    ensures
        dec_digits(t).len() >= 1,
        forall|k: int| 0 <= k < dec_digits(t).len() ==> is_digit(#[trigger] dec_digits(t)[k]),
        digits_value(dec_digits(t)) == t,
    decreases t,
{
    if t < 10 {
        assert(dec_digits(t).drop_last() =~= Seq::<u8>::empty());
        assert(digits_value(Seq::<u8>::empty()) == 0);
        assert(dec_digits(t).last() == (48 + t) as u8);
    } else {
        lemma_dec_digits(t / 10);
        let s = dec_digits(t);
        assert(s.drop_last() =~= dec_digits(t / 10));
        assert(s.last() == (48 + t % 10) as u8);
        assert(digits_value(s) == (t / 10) * 10 + t % 10);
        assert((t / 10) * 10 + t % 10 == t) by (nonlinear_arith);
        assert forall|k: int| 0 <= k < s.len() implies is_digit(#[trigger] s[k]) by {
            if k < s.len() - 1 {
                assert(s[k] == dec_digits(t / 10)[k]);
            }
        }
    }
}

/// Law: the round trip of the session cookie. A token's decimal encoding
/// parses back to exactly that token.
pub proof fn lemma_token_round_trip(t: u128)
    ensures
        parse_token(dec_digits(t)) == Some(t),
{
    lemma_dec_digits(t);
}

fn push_decimal(t: u128, out: &mut Vec<u8>)
    ensures
        final(out)@ == old(out)@ + dec_digits(t),
    decreases t,
{
    if t >= 10 {
        push_decimal(t / 10, out);
    }
    let ghost prev = out@;
    out.push(48 + (t % 10) as u8);
    proof {
        if t < 10 {
            assert(prev + dec_digits(t) =~= prev.push((48 + t) as u8));
        } else {
            assert(prev =~= old(out)@ + dec_digits(t / 10));
            assert(old(out)@ + dec_digits(t) =~= prev.push((48 + t % 10) as u8));
        }
    }
}

/// Encodes a token as the decimal cookie value the route gate reads back.
pub fn token_cookie_value(t: u128) -> (r: Vec<u8>)
    ensures
        r@ == dec_digits(t),
{
    let mut out: Vec<u8> = Vec::new();
    push_decimal(t, &mut out);
    proof {
        assert(Seq::<u8>::empty() + dec_digits(t) =~= dec_digits(t));
    }
    out
}

/// What the route gate reads from a `Cookie` header: the decimal value of
/// the `session` cookie, if the header carries one.
pub open spec fn session_token(header: Seq<u8>) -> Option<u128> {
    match cookie_value(header, session_cookie_name()) {
        Some(v) => parse_token(v),
        None => None,
    }
}

/// Extracts the session token from a `Cookie` header, if a well-formed one
/// is present.
pub fn session_token_from_cookie(header: &[u8]) -> (r: Option<u128>)
    ensures
        r == session_token(header@),
{
    let name = session_cookie_name_bytes();
    match parse_cookie_value(header, name.as_slice()) {
        Some(v) => parse_token_bytes(v.as_slice()),
        None => None,
    }
}

} // verus!
