//! Parsing of `application/x-www-form-urlencoded` bodies.
//!
//! The login form posts `sn` and `client_key` as a form-encoded body. A body
//! is a `&`-separated list of fields; each field is a key, the first `=` and
//! a value; within keys and values `+` stands for a space and `%HH` for the
//! byte `HH`. A lone or malformed `%`-escape passes through unchanged, as the
//! usual form decoders have it. Looking a name up yields the decoded value of
//! the first field whose decoded key equals it.

use vstd::prelude::*;
use vstd::slice::slice_subrange;
use crate::credential::LoginAttempt;

verus! {

/// True of the bytes of ASCII hexadecimal digits.
pub open spec fn is_hex_digit(b: u8) -> bool {
    (48 <= b <= 57) || (65 <= b <= 70) || (97 <= b <= 102)
}

/// The numeric value of an ASCII hexadecimal digit byte.
pub open spec fn hex_val(b: u8) -> u8
    recommends
        is_hex_digit(b),
{
    if 48 <= b <= 57 {
        (b - 48) as u8
    } else if 65 <= b <= 70 {
        (b - 55) as u8
    } else {
        (b - 87) as u8
    }
}

/// The decoding applied to one key or value: `+` becomes a space, a valid
/// `%`-escape becomes its byte, and every other byte — a lone or malformed
/// `%` included — passes through unchanged.
pub open spec fn form_decoded(s: Seq<u8>) -> Seq<u8>
    decreases s.len(),
{
    if s.len() == 0 {
        Seq::empty()
    } else if s[0] == 43 {
        seq![32u8] + form_decoded(s.drop_first())
    } else if s[0] == 37 && s.len() >= 3 && is_hex_digit(s[1]) && is_hex_digit(s[2]) {
        seq![(hex_val(s[1]) * 16 + hex_val(s[2])) as u8] + form_decoded(s.skip(3))
    } else {
        seq![s[0]] + form_decoded(s.drop_first())
    }
}

/// The index of the first occurrence of `b` in `s`, or `s.len()` if there is
/// none.
pub open spec fn find_first(s: Seq<u8>, b: u8) -> nat
    decreases s.len(),
{
    if s.len() == 0 {
        0
    } else if s[0] == b {
        0
    } else {
        1 + find_first(s.drop_first(), b)
    }
}

/// What [`find_first`] returns: an index no larger than the length, holding
/// `b` if within range, with no occurrence of `b` before it.
pub proof fn lemma_find_first(s: Seq<u8>, b: u8)
    ensures
        find_first(s, b) <= s.len(),
        find_first(s, b) < s.len() ==> s[find_first(s, b) as int] == b,
        forall|k: int| 0 <= k < find_first(s, b) ==> s[k] != b,
    decreases s.len(),
{
    if s.len() == 0 {
    } else if s[0] == b {
    } else {
        lemma_find_first(s.drop_first(), b);
        let f = find_first(s, b) as int;
        assert forall|k: int| 0 <= k < f implies s[k] != b by {
            if k > 0 {
                assert(s.drop_first()[k - 1] == s[k]);
            }
        }
        if f < s.len() {
            assert(s.drop_first()[f - 1] == s[f]);
        }
    }
}

/// An index before which `b` does not occur, and which holds `b` or is the
/// length, is exactly what [`find_first`] returns.
pub proof fn lemma_find_first_is(s: Seq<u8>, b: u8, j: int)
    requires
        0 <= j <= s.len(),
        j == s.len() || s[j] == b,
        forall|k: int| 0 <= k < j ==> s[k] != b,
    ensures
        find_first(s, b) == j,
{
    lemma_find_first(s, b);
    let f = find_first(s, b) as int;
    if f < j {
        assert(s[f] == b);
        assert(false);
    } else if j < f {
        assert(s[j] == b);
        assert(false);
    }
}

/// The decoded key of one field: what stands before the first `=`, decoded.
pub open spec fn field_key(seg: Seq<u8>) -> Seq<u8> {
    form_decoded(seg.take(find_first(seg, 61) as int))
}

/// The decoded value of one field: what stands after the first `=`, decoded;
/// empty when the field has no `=`.
pub open spec fn field_value(seg: Seq<u8>) -> Seq<u8> {
    let j = find_first(seg, 61) as int;
    if j >= seg.len() {
        Seq::empty()
    } else {
        form_decoded(seg.skip(j + 1))
    }
}

/// The fields of a body: one decoded key/value pair per `&`-separated
/// segment, in order.
pub open spec fn form_pairs(s: Seq<u8>) -> Seq<(Seq<u8>, Seq<u8>)>
    decreases s.len(),
{
    let j = find_first(s, 38) as int;
    let seg = s.take(j);
    if j >= s.len() {
        seq![(field_key(seg), field_value(seg))]
    } else {
        seq![(field_key(seg), field_value(seg))] + form_pairs(s.skip(j + 1))
    }
}

/// The value of the first pair whose key is `name`, if any.
pub open spec fn lookup_field(pairs: Seq<(Seq<u8>, Seq<u8>)>, name: Seq<u8>) -> Option<Seq<u8>>
    decreases pairs.len(),
{
    if pairs.len() == 0 {
        None
    } else if pairs[0].0 == name {
        Some(pairs[0].1)
    } else {
        lookup_field(pairs.drop_first(), name)
    }
}

/// What looking `name` up in a form body yields: the decoded value of the
/// first field whose decoded key is `name`, or nothing.
pub open spec fn form_field(body: Seq<u8>, name: Seq<u8>) -> Option<Seq<u8>> {
    lookup_field(form_pairs(body), name)
}

fn hex_digit(b: u8) -> (r: bool)
    ensures
        r == is_hex_digit(b),
{
    (48 <= b && b <= 57) || (65 <= b && b <= 70) || (97 <= b && b <= 102)
}

fn hex_digit_val(b: u8) -> (r: u8)
    requires
        is_hex_digit(b),
    ensures
        r == hex_val(b),
        r <= 15,
{
    if b <= 57 {
        b - 48
    } else if b <= 70 {
        b - 55
    } else {
        b - 87
    }
}

/// Whether two byte strings hold the same bytes.
pub fn bytes_eq(a: &[u8], b: &[u8]) -> (r: bool)
    ensures
        r == (a@ == b@),
{
    if a.len() != b.len() {
        return false;
    }
    let mut i: usize = 0;
    while i < a.len()
        invariant
            i <= a.len(),
            a@.len() == b@.len(),
            forall|k: int| 0 <= k < i ==> a@[k] == b@[k],
        decreases a.len() - i,
    {
        if a[i] != b[i] {
            return false;
        }
        i = i + 1;
    }
    proof {
        assert(a@ =~= b@);
    }
    true
}

/// The index of the first occurrence of `b` in `s[from..to]`, or `to` if
/// there is none.
pub(crate) fn find_byte(s: &[u8], from: usize, to: usize, b: u8) -> (r: usize)
    requires
        from <= to <= s@.len(),
    ensures
        from <= r <= to,
        r < to ==> s@[r as int] == b,
        forall|k: int| from <= k < r ==> s@[k] != b,
{
    let mut i: usize = from;
    while i < to
        invariant
            from <= i <= to <= s@.len(),
            forall|k: int| from <= k < i ==> s@[k] != b,
        decreases to - i,
    {
        if s[i] == b {
            return i;
        }
        i = i + 1;
    }
    to
}

/// Decodes one key or value.
pub fn form_decode(s: &[u8]) -> (r: Vec<u8>)
    ensures
        r@ == form_decoded(s@),
{
    let mut out: Vec<u8> = Vec::new();
    let mut i: usize = 0;
    proof {
        assert(s@.skip(0) =~= s@);
        assert(Seq::<u8>::empty() + form_decoded(s@) =~= form_decoded(s@));
    }
    while i < s.len()
        invariant
            i <= s@.len(),
            form_decoded(s@) == out@ + form_decoded(s@.skip(i as int)),
        decreases s@.len() - i,
    {
        let ghost rem = s@.skip(i as int);
        let ghost prev = out@;
        proof {
            assert(rem[0] == s@[i as int]);
            assert(rem.drop_first() =~= s@.skip(i as int + 1));
        }
        let b = s[i];
        if b == 43 {
            out.push(32);
            proof {
                assert((prev + seq![32u8]) + form_decoded(s@.skip(i as int + 1)) =~= prev + (
                seq![32u8] + form_decoded(rem.drop_first())));
            }
            i = i + 1;
        } else if b == 37 && s.len() - i >= 3 && hex_digit(s[i + 1]) && hex_digit(s[i + 2]) {
            proof {
                assert(rem[1] == s@[i as int + 1]);
                assert(rem[2] == s@[i as int + 2]);
                assert(rem.skip(3) =~= s@.skip(i as int + 3));
            }
            let v = hex_digit_val(s[i + 1]) * 16 + hex_digit_val(s[i + 2]);
            out.push(v);
            proof {
                assert((prev + seq![v]) + form_decoded(s@.skip(i as int + 3)) =~= prev + (seq![v]
                    + form_decoded(rem.skip(3))));
            }
            i = i + 3;
        } else {
            out.push(b);
            proof {
                assert((prev + seq![b]) + form_decoded(s@.skip(i as int + 1)) =~= prev + (seq![b]
                    + form_decoded(rem.drop_first())));
            }
            i = i + 1;
        }
    }
    proof {
        assert(s@.skip(s@.len() as int) =~= Seq::<u8>::empty());
        assert(out@ + Seq::<u8>::empty() =~= out@);
    }
    out
}

/// Looks `name` up in a form-encoded body: the decoded value of the first
/// field whose decoded key equals `name`, or `None` when no field carries
/// that name.
#[verifier::rlimit(60)]
pub fn parse_form_field(body: &[u8], name: &[u8]) -> (r: Option<Vec<u8>>)
    ensures
        (match r {
            Some(v) => form_field(body@, name@) == Some(v@),
            None => form_field(body@, name@) is None,
        }),
{
    let mut i: usize = 0;
    proof {
        assert(body@.skip(0) =~= body@);
    }
    loop
        invariant
            i <= body@.len(),
            form_field(body@, name@) == lookup_field(form_pairs(body@.skip(i as int)), name@),
        decreases body@.len() - i,
    {
        let ghost rem = body@.skip(i as int);
        let j = find_byte(body, i, body.len(), 38);
        proof {
            assert forall|k: int| 0 <= k < j - i implies rem[k] != 38 by {
                assert(rem[k] == body@[i + k]);
            }
            if j < body@.len() {
                assert(rem[j - i] == body@[j as int]);
            }
            lemma_find_first_is(rem, 38, j - i);
            assert(rem.take(j - i) =~= body@.subrange(i as int, j as int));
        }
        let ghost seg = rem.take(j - i);
        let eq = find_byte(body, i, j, 61);
        proof {
            assert forall|k: int| 0 <= k < eq - i implies seg[k] != 61 by {
                assert(seg[k] == body@[i + k]);
            }
            if eq < j {
                assert(seg[eq - i] == body@[eq as int]);
            }
            lemma_find_first_is(seg, 61, eq - i);
            assert(seg.take(eq - i) =~= body@.subrange(i as int, eq as int));
        }
        let key = form_decode(slice_subrange(body, i, eq));
        let key_matches = bytes_eq(key.as_slice(), name);
        let ghost pairs = form_pairs(rem);
        proof {
            assert(pairs[0] == (field_key(seg), field_value(seg)));
            assert(field_key(seg) == key@);
        }
        if key_matches {
            if eq < j {
                let value = form_decode(slice_subrange(body, eq + 1, j));
                proof {
                    assert(seg.skip(eq - i + 1) =~= body@.subrange(eq + 1, j as int));
                    assert(field_value(seg) == value@);
                }
                return Some(value);
            } else {
                let value: Vec<u8> = Vec::new();
                proof {
                    assert(field_value(seg) == value@);
                }
                return Some(value);
            }
        }
        proof {
            assert(lookup_field(pairs, name@) == (if pairs.len() == 1 {
                None::<Seq<u8>>
            } else {
                lookup_field(pairs.drop_first(), name@)
            }));
        }
        if j < body.len() {
            proof {
                assert(pairs.drop_first() =~= form_pairs(rem.skip(j - i + 1)));
                assert(rem.skip(j - i + 1) =~= body@.skip(j + 1));
            }
            i = j + 1;
        } else {
            return None;
        }
    }
}

/// What `String::from_utf8_lossy` yields for a byte string: deterministic in
/// the bytes alone.
pub uninterp spec fn utf8_lossy(bytes: Seq<u8>) -> Seq<char>;

/// A byte string read byte for byte as characters, as UTF-8 reads ASCII.
pub open spec fn ascii_chars(bytes: Seq<u8>) -> Seq<char> {
    bytes.map_values(|b: u8| b as char)
}

/// Relies on `String::from_utf8_lossy`: deterministic in the bytes;
/// ill-formed UTF-8 is replaced, and ASCII bytes decode to their own
/// characters.
#[verifier::external_body]
fn bytes_to_text(bytes: &[u8]) -> (r: String)
    ensures
        r@ == utf8_lossy(bytes@),
        (forall|k: int| 0 <= k < bytes@.len() ==> bytes@[k] < 128) ==> r@ == ascii_chars(bytes@),
{
    String::from_utf8_lossy(bytes).into_owned()
}

/// Whether a decoded field reads as plain text: when the raw bytes of the
/// field are all ASCII, the text is exactly those bytes as characters; of a
/// field with non-ASCII bytes, or of a missing field, nothing is said here
/// beyond [`utf8_lossy`].
pub open spec fn ascii_reads_as(raw: Option<Seq<u8>>, text: Seq<char>) -> bool {
    match raw {
        Some(bytes) => (forall|k: int| 0 <= k < bytes.len() ==> bytes[k] < 128) ==> text
            == ascii_chars(bytes),
        None => true,
    }
}

/// The name of the serial-number field of the login form: `sn`.
pub open spec fn sn_field_name() -> Seq<u8> {
    seq![115u8, 110u8]
}

/// The name of the secret field of the login form: `client_key`.
pub open spec fn client_key_field_name() -> Seq<u8> {
    seq![99u8, 108u8, 105u8, 101u8, 110u8, 116u8, 95u8, 107u8, 101u8, 121u8]
}

fn sn_field_name_bytes() -> (r: Vec<u8>)
    ensures
        r@ == sn_field_name(),
{
    let mut r: Vec<u8> = Vec::new();
    r.push(115);
    r.push(110);
    proof {
        assert(r@ =~= sn_field_name());
    }
    r
}

fn client_key_field_name_bytes() -> (r: Vec<u8>)
    ensures
        r@ == client_key_field_name(),
{
    let mut r: Vec<u8> = Vec::new();
    r.push(99);
    r.push(108);
    r.push(105);
    r.push(101);
    r.push(110);
    r.push(116);
    r.push(95);
    r.push(107);
    r.push(101);
    r.push(121);
    proof {
        assert(r@ =~= client_key_field_name());
    }
    r
}

/// The login attempt a form body carries: the decoded `sn` and `client_key`
/// fields as text, or nothing when either field is missing.
pub open spec fn form_attempt(body: Seq<u8>) -> Option<(Seq<char>, Seq<char>)> {
    match (form_field(body, sn_field_name()), form_field(body, client_key_field_name())) {
        (Some(sn), Some(key)) => Some((utf8_lossy(sn), utf8_lossy(key))),
        _ => None,
    }
}

/// Parses a login form body into the attempt it carries: the decoded `sn`
/// and `client_key` fields, as text. `None` when either field is missing —
/// such a request is malformed and is rejected before any credential check.
pub fn parse_login_attempt(body: &[u8]) -> (r: Option<LoginAttempt>)
    ensures
        (match r {
            Some(attempt) => {
                &&& form_attempt(body@) == Some(
                    (attempt.serial_number@, attempt.client_secret@),
                )
                &&& ascii_reads_as(form_field(body@, sn_field_name()), attempt.serial_number@)
                &&& ascii_reads_as(
                    form_field(body@, client_key_field_name()),
                    attempt.client_secret@,
                )
            },
            None => form_attempt(body@) is None,
        }),
{
    let sn_name = sn_field_name_bytes();
    let sn_raw = match parse_form_field(body, sn_name.as_slice()) {
        Some(v) => v,
        None => {
            return None;
        },
    };
    let key_name = client_key_field_name_bytes();
    let key_raw = match parse_form_field(body, key_name.as_slice()) {
        Some(v) => v,
        None => {
            return None;
        },
    };
    Some(
        LoginAttempt {
            serial_number: bytes_to_text(sn_raw.as_slice()),
            client_secret: bytes_to_text(key_raw.as_slice()),
        },
    )
}

} // verus!
