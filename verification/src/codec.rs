use vstd::prelude::*;
use crate::errors::IdentityError;

verus! {

/// Number of bytes of secret key material in a persisted identity.
pub const SECRET_KEY_LENGTH: usize = 32;

/// The ASCII digit character for `k` (expects `0 <= k <= 9`).
pub open spec fn ascii_digit(k: int) -> u8 {
    (48 + k) as u8
}

/// Whether `b` is an ASCII decimal digit.
pub open spec fn is_ascii_digit(b: u8) -> bool {
    48 <= b <= 57
}

/// The decimal rendering of a byte value, without leading zeros.
pub open spec fn dec_digits(n: int) -> Seq<u8> {
    if n < 10 {
        seq![ascii_digit(n)]
    } else if n < 100 {
        seq![ascii_digit(n / 10), ascii_digit(n % 10)]
    } else {
        seq![ascii_digit(n / 100), ascii_digit((n / 10) % 10), ascii_digit(n % 10)]
    }
}

/// Comma-separated decimal rendering of a byte sequence.
pub open spec fn dec_list(s: Seq<u8>) -> Seq<u8>
    decreases s.len(),
{
    if s.len() == 0 {
        Seq::empty()
    } else if s.len() == 1 {
        dec_digits(s[0] as int)
    } else {
        dec_digits(s[0] as int) + seq![44u8] + dec_list(s.drop_first())
    }
}

/// The opening bytes of the persisted identity object: `{"private_key_bytes":[`.
pub open spec fn header_bytes() -> Seq<u8> {
    seq![
        123u8, 34u8, 112u8, 114u8, 105u8, 118u8, 97u8, 116u8, 101u8, 95u8, 107u8, 101u8,
        121u8, 95u8, 98u8, 121u8, 116u8, 101u8, 115u8, 34u8, 58u8, 91u8,
    ]
}

/// The closing bytes of the persisted identity object: `]}`.
pub open spec fn footer_bytes() -> Seq<u8> {
    seq![93u8, 125u8]
}

/// The canonical persisted form of a secret: a compact JSON object whose single
/// field holds the key bytes as a decimal array.
pub open spec fn encoded_identity(secret: Seq<u8>) -> Seq<u8> {
    header_bytes() + dec_list(secret) + footer_bytes()
}

/// `bytes` is the persisted form of the secret key material `secret`.
pub open spec fn decodes_to(bytes: Seq<u8>, secret: Seq<u8>) -> bool {
    secret.len() == SECRET_KEY_LENGTH && bytes == encoded_identity(secret)
}

/// Appending one more value extends the rendered list by a separator and its digits.
proof fn lemma_dec_list_snoc(s: Seq<u8>, x: u8)
    ensures
        dec_list(s.push(x)) == if s.len() == 0 {
            dec_digits(x as int)
        } else {
            dec_list(s) + seq![44u8] + dec_digits(x as int)
        },
    decreases s.len(),
{
    let p = s.push(x);
    if s.len() == 0 {
        assert(p.len() == 1);
        assert(p[0] == x);
    } else {
        assert(p.len() >= 2);
        assert(p[0] == s[0]);
        assert(p.drop_first() =~= s.drop_first().push(x));
        lemma_dec_list_snoc(s.drop_first(), x);
        if s.len() == 1 {
            assert(s.drop_first().len() == 0);
            assert(dec_list(p) == dec_digits(s[0] as int) + seq![44u8] + dec_digits(x as int));
            assert(dec_list(s) == dec_digits(s[0] as int));
        } else {
            assert(dec_list(p) == dec_digits(p[0] as int) + seq![44u8] + dec_list(p.drop_first()));
            assert(dec_list(p.drop_first()) == dec_list(s.drop_first()) + seq![44u8] + dec_digits(
                x as int,
            ));
            assert(dec_list(s) + seq![44u8] + dec_digits(x as int) =~= dec_digits(s[0] as int)
                + seq![44u8] + (dec_list(s.drop_first()) + seq![44u8] + dec_digits(x as int)));
        }
    }
}

/// Appends the decimal rendering of `b` to `out`.
fn push_decimal(out: &mut Vec<u8>, b: u8)
    ensures
        final(out)@ == old(out)@ + dec_digits(b as int),
{
    if b < 10 {
        out.push(48 + b);
        assert(out@ =~= old(out)@ + dec_digits(b as int));
    } else if b < 100 {
        out.push(48 + b / 10);
        out.push(48 + b % 10);
        assert(out@ =~= old(out)@ + dec_digits(b as int));
    } else {
        out.push(48 + b / 100);
        out.push(48 + (b / 10) % 10);
        out.push(48 + b % 10);
        assert(out@ =~= old(out)@ + dec_digits(b as int));
    }
}

/// Appends the fixed opening bytes of the identity object to `out`.
fn push_header(out: &mut Vec<u8>)
    ensures
        final(out)@ == old(out)@ + header_bytes(),
{
    out.push(123);
    out.push(34);
    out.push(112);
    out.push(114);
    out.push(105);
    out.push(118);
    out.push(97);
    out.push(116);
    out.push(101);
    out.push(95);
    out.push(107);
    out.push(101);
    out.push(121);
    out.push(95);
    out.push(98);
    out.push(121);
    out.push(116);
    out.push(101);
    out.push(115);
    out.push(34);
    out.push(58);
    out.push(91);
    assert(out@ =~= old(out)@ + header_bytes());
}

/// Every byte of a decimal rendering is a digit.
proof fn lemma_dec_digits_shape(n: int)
    requires
        0 <= n < 256,
    ensures
        1 <= dec_digits(n).len() <= 3,
        forall|i: int| 0 <= i < dec_digits(n).len() ==> is_ascii_digit(dec_digits(n)[i]),
{
}

/// A decimal value is recovered from its digits.
proof fn lemma_dec_digits_value(n: int)
    requires
        0 <= n < 256,
    ensures
        n < 10 ==> n == dec_digits(n)[0] - 48,
        10 <= n < 100 ==> n == 10 * (dec_digits(n)[0] - 48) + (dec_digits(n)[1] - 48),
        100 <= n ==> n == 100 * (dec_digits(n)[0] - 48) + 10 * (dec_digits(n)[1] - 48) + (
        dec_digits(n)[2] - 48),
{
    vstd::arithmetic::div_mod::lemma_fundamental_div_mod(n, 10);
    if n >= 100 {
        vstd::arithmetic::div_mod::lemma_fundamental_div_mod(n / 10, 10);
        vstd::arithmetic::div_mod::lemma_div_denominator(n, 10, 10);
    }
}

/// Equal decimal renderings denote equal values.
proof fn lemma_dec_digits_injective(a: int, b: int)
    requires
        0 <= a < 256,
        0 <= b < 256,
        dec_digits(a) == dec_digits(b),
    ensures
        a == b,
{
    lemma_dec_digits_value(a);
    lemma_dec_digits_value(b);
    assert(dec_digits(a).len() == dec_digits(b).len());
    if a < 10 {
        assert(dec_digits(a).len() == 1);
        assert(b < 10);
        assert(dec_digits(a)[0] == dec_digits(b)[0]);
    } else if a < 100 {
        assert(dec_digits(a).len() == 2);
        assert(10 <= b < 100);
        assert(dec_digits(a)[0] == dec_digits(b)[0]);
        assert(dec_digits(a)[1] == dec_digits(b)[1]);
    } else {
        assert(dec_digits(a).len() == 3);
        assert(100 <= b);
        assert(dec_digits(a)[0] == dec_digits(b)[0]);
        assert(dec_digits(a)[1] == dec_digits(b)[1]);
        assert(dec_digits(a)[2] == dec_digits(b)[2]);
    }
}

/// A decimal rendering followed by a non-digit is uniquely readable.
proof fn lemma_dec_digits_prefix(a: int, b: int, u: Seq<u8>, v: Seq<u8>)
    requires
        0 <= a < 256,
        0 <= b < 256,
        dec_digits(a) + u == dec_digits(b) + v,
        u.len() > 0 ==> !is_ascii_digit(u[0]),
        v.len() > 0 ==> !is_ascii_digit(v[0]),
    ensures
        a == b,
        u == v,
{
    let la = dec_digits(a).len() as int;
    let lb = dec_digits(b).len() as int;
    let c = dec_digits(a) + u;
    lemma_dec_digits_shape(a);
    lemma_dec_digits_shape(b);
    if la < lb {
        assert(u.len() > 0);
        assert(c[la] == u[0]);
        assert(c[la] == dec_digits(b)[la]);
        assert(false);
    }
    if lb < la {
        assert(v.len() > 0);
        assert(c[lb] == v[0]);
        assert(c[lb] == dec_digits(a)[lb]);
        assert(false);
    }
    assert(la == lb);
    assert forall|i: int| 0 <= i < la implies dec_digits(a)[i] == dec_digits(b)[i] by {
        assert(c[i] == dec_digits(a)[i]);
        assert((dec_digits(b) + v)[i] == dec_digits(b)[i]);
    }
    assert(dec_digits(a) =~= dec_digits(b));
    lemma_dec_digits_injective(a, b);
    assert(c == dec_digits(b) + v);
    assert(c.len() == la + u.len());
    assert(c.len() == lb + v.len());
    assert(u.len() == v.len());
    assert forall|i: int| 0 <= i < u.len() implies u[i] == v[i] by {
        assert(c[la + i] == u[i]);
        assert((dec_digits(b) + v)[lb + i] == v[i]);
    }
    assert(u =~= v);
}

/// Two rendered lists, each followed by a terminator that is neither a digit nor
/// the separator, agree exactly.
proof fn lemma_dec_list_append_inj(s1: Seq<u8>, s2: Seq<u8>, f1: Seq<u8>, f2: Seq<u8>)
    requires
        dec_list(s1) + f1 == dec_list(s2) + f2,
        f1.len() > 0,
        !is_ascii_digit(f1[0]),
        f1[0] != 44,
        f2.len() > 0,
        !is_ascii_digit(f2[0]),
        f2[0] != 44,
    ensures
        s1 == s2,
        f1 == f2,
    decreases s1.len(),
{
    let c = dec_list(s1) + f1;
    if s1.len() == 0 && s2.len() == 0 {
        assert(s1 =~= s2);
        assert(f1 =~= f2);
    } else if s1.len() == 0 {
        lemma_dec_digits_shape(s2[0] as int);
        assert(c[0] == f1[0]);
        assert(dec_list(s2)[0] == dec_digits(s2[0] as int)[0]);
        assert(c[0] == dec_list(s2)[0]);
        assert(false);
    } else if s2.len() == 0 {
        lemma_dec_digits_shape(s1[0] as int);
        assert(c[0] == f2[0]);
        assert(dec_list(s1)[0] == dec_digits(s1[0] as int)[0]);
        assert(c[0] == dec_list(s1)[0]);
        assert(false);
    } else {
        let u = if s1.len() == 1 {
            f1
        } else {
            seq![44u8] + dec_list(s1.drop_first()) + f1
        };
        let v = if s2.len() == 1 {
            f2
        } else {
            seq![44u8] + dec_list(s2.drop_first()) + f2
        };
        assert(c =~= dec_digits(s1[0] as int) + u);
        assert(c =~= dec_digits(s2[0] as int) + v);
        assert(u.len() > 0 && !is_ascii_digit(u[0]));
        assert(v.len() > 0 && !is_ascii_digit(v[0]));
        lemma_dec_digits_prefix(s1[0] as int, s2[0] as int, u, v);
        assert(s1[0] == s2[0]);
        if s1.len() == 1 && s2.len() == 1 {
            assert(s1 =~= s2);
        } else if s1.len() == 1 {
            assert(u[0] == f1[0]);
            assert(v[0] == 44);
            assert(false);
        } else if s2.len() == 1 {
            assert(v[0] == f2[0]);
            assert(u[0] == 44);
            assert(false);
        } else {
            assert(u.drop_first() =~= dec_list(s1.drop_first()) + f1);
            assert(v.drop_first() =~= dec_list(s2.drop_first()) + f2);
            lemma_dec_list_append_inj(s1.drop_first(), s2.drop_first(), f1, f2);
            assert forall|i: int| 0 <= i < s1.len() implies s1[i] == s2[i] by {
                if i > 0 {
                    assert(s1.drop_first()[i - 1] == s2.drop_first()[i - 1]);
                }
            }
            assert(s1 =~= s2);
        }
    }
}

/// Canonical encodings are injective: equal persisted forms hold equal secrets.
pub proof fn lemma_encoded_injective(s1: Seq<u8>, s2: Seq<u8>)
    requires
        encoded_identity(s1) == encoded_identity(s2),
    ensures
        s1 == s2,
{
    let e1 = encoded_identity(s1);
    let e2 = encoded_identity(s2);
    assert(dec_list(s1) + footer_bytes() =~= e1.skip(22));
    assert(dec_list(s2) + footer_bytes() =~= e2.skip(22));
    lemma_dec_list_append_inj(s1, s2, footer_bytes(), footer_bytes());
}

/// Rendering a concatenation renders both parts, separated when both are nonempty.
proof fn lemma_dec_list_concat(a: Seq<u8>, b: Seq<u8>)
    ensures
        dec_list(a + b) == if a.len() == 0 {
            dec_list(b)
        } else if b.len() == 0 {
            dec_list(a)
        } else {
            dec_list(a) + seq![44u8] + dec_list(b)
        },
    decreases a.len(),
{
    if a.len() == 0 {
        assert(a + b =~= b);
    } else if b.len() == 0 {
        assert(a + b =~= a);
    } else if a.len() == 1 {
        assert((a + b).len() >= 2);
        assert((a + b)[0] == a[0]);
        assert((a + b).drop_first() =~= b);
    } else {
        assert((a + b)[0] == a[0]);
        assert((a + b).drop_first() =~= a.drop_first() + b);
        lemma_dec_list_concat(a.drop_first(), b);
        assert(dec_list(a) + seq![44u8] + dec_list(b) =~= dec_digits(a[0] as int) + seq![44u8] + (
        dec_list(a.drop_first()) + seq![44u8] + dec_list(b)));
    }
}

/// Serializes secret key material into its canonical persisted form.
pub fn encode_identity_bytes(secret: &Vec<u8>) -> (out: Vec<u8>)
    requires
        secret@.len() == SECRET_KEY_LENGTH,
    ensures
        out@ == encoded_identity(secret@),
{
    let mut out: Vec<u8> = Vec::new();
    push_header(&mut out);
    assert(out@ =~= header_bytes() + dec_list(secret@.take(0)));
    let mut i: usize = 0;
    while i < secret.len()
        invariant
            secret@.len() == SECRET_KEY_LENGTH,
            i <= secret@.len(),
            out@ == header_bytes() + dec_list(secret@.take(i as int)),
        decreases secret@.len() - i,
    {
        if i > 0 {
            out.push(44);
        }
        push_decimal(&mut out, secret[i]);
        proof {
            lemma_dec_list_snoc(secret@.take(i as int), secret@[i as int]);
            assert(secret@.take(i as int).push(secret@[i as int]) =~= secret@.take(i + 1));
            assert(out@ =~= header_bytes() + dec_list(secret@.take(i + 1)));
        }
        i = i + 1;
    }
    assert(secret@.take(secret@.len() as int) =~= secret@);
    out.push(93);
    out.push(125);
    assert(out@ =~= encoded_identity(secret@));
    out
}

/// Exact byte-for-byte equality of two byte strings.
pub fn bytes_eq(a: &Vec<u8>, b: &Vec<u8>) -> (r: bool)
    ensures
        r == (a@ == b@),
{
    if a.len() != b.len() {
        return false;
    }
    let mut i: usize = 0;
    while i < a.len()
        invariant
            a@.len() == b@.len(),
            i <= a@.len(),
            forall|j: int| 0 <= j < i ==> a@[j] == b@[j],
        decreases a@.len() - i,
    {
        if a[i] != b[i] {
            return false;
        }
        i = i + 1;
    }
    proof {
        assert(a@ =~= b@);
    }
    true
}

/// Copies a byte string.
pub fn clone_bytes(v: &Vec<u8>) -> (r: Vec<u8>)
    ensures
        r@ == v@,
{
    let r = v.clone();
    proof {
        assert(r@ =~= v@);
    }
    r
}

/// Malformed persisted data: the persisted form of a truncated or oversized key
/// array never decodes to any secret, so loading it is a serialization failure.
pub proof fn lemma_wrong_length_rejected(s: Seq<u8>, t: Seq<u8>)
    requires
        s.len() != SECRET_KEY_LENGTH,
    ensures
        !decodes_to(encoded_identity(s), t),
{
    if decodes_to(encoded_identity(s), t) {
        lemma_encoded_injective(s, t);
    }
}

/// The fixed opening bytes of the identity object, as a vector.
fn header_vec() -> (out: Vec<u8>)
    ensures
        out@ == header_bytes(),
{
    let mut out: Vec<u8> = Vec::new();
    push_header(&mut out);
    proof {
        assert(out@ =~= header_bytes());
    }
    out
}

/// The bytes at `pos` read as the canonical decimal rendering of `n`, followed by
/// a byte that is not a digit.
pub open spec fn reads_value_at(bytes: Seq<u8>, pos: int, n: u8) -> bool {
    let d = dec_digits(n as int);
    &&& pos + d.len() < bytes.len()
    &&& bytes.subrange(pos, pos + d.len()) == d
    &&& !is_ascii_digit(bytes[pos + d.len()])
}

/// Reads one canonically rendered byte value at `pos`; wherever the input holds
/// such a rendering, exactly that value and that many bytes are consumed.
fn parse_u8_at(bytes: &Vec<u8>, pos: usize) -> (r: Option<(u8, usize)>)
    requires
        pos <= bytes@.len(),
    ensures
        r matches Some(p) ==> pos < p.1 <= bytes@.len(),
        forall|n: u8| reads_value_at(bytes@, pos as int, n) ==> r == Some(
            (n, (pos + dec_digits(n as int).len()) as usize),
        ),
{
    if pos >= bytes.len() {
        return None;
    }
    let b0 = bytes[pos];
    if !(48 <= b0 && b0 <= 57) {
        proof {
            assert forall|n: u8| !reads_value_at(bytes@, pos as int, n) by {
                if reads_value_at(bytes@, pos as int, n) {
                    lemma_dec_digits_shape(n as int);
                    let d = dec_digits(n as int);
                    assert(bytes@.subrange(pos as int, pos + d.len())[0] == bytes@[pos as int]);
                }
            }
        }
        return None;
    }
    if b0 == 48 {
        proof {
            assert forall|n: u8| reads_value_at(bytes@, pos as int, n) implies n == 0 by {
                let d = dec_digits(n as int);
                assert(bytes@.subrange(pos as int, pos + d.len())[0] == bytes@[pos as int]);
                assert(d[0] == 48);
            }
        }
        return Some((0, pos + 1));
    }
    let d0 = b0 - 48;
    if pos + 1 < bytes.len() && 48 <= bytes[pos + 1] && bytes[pos + 1] <= 57 {
        let d1 = bytes[pos + 1] - 48;
        if pos + 2 < bytes.len() && 48 <= bytes[pos + 2] && bytes[pos + 2] <= 57 {
            let d2 = bytes[pos + 2] - 48;
            let val: u16 = (d0 as u16) * 100 + (d1 as u16) * 10 + (d2 as u16);
            proof {
                assert forall|n: u8| reads_value_at(bytes@, pos as int, n) implies n == val
                    && dec_digits(n as int).len() == 3 by {
                    let d = dec_digits(n as int);
                    lemma_dec_digits_shape(n as int);
                    lemma_dec_digits_value(n as int);
                    assert forall|j: int| 0 <= j < d.len() implies bytes@[pos + j] == d[j] by {
                        assert(bytes@.subrange(pos as int, pos + d.len())[j] == bytes@[pos + j]);
                    }
                    if d.len() == 1 {
                        assert(!is_ascii_digit(bytes@[pos + 1]));
                        assert(false);
                    }
                    if d.len() == 2 {
                        assert(!is_ascii_digit(bytes@[pos + 2]));
                        assert(false);
                    }
                }
            }
            if val <= 255 {
                return Some((val as u8, pos + 3));
            } else {
                return None;
            }
        }
        proof {
            assert forall|n: u8| reads_value_at(bytes@, pos as int, n) implies n == d0 * 10 + d1
                && dec_digits(n as int).len() == 2 by {
                let d = dec_digits(n as int);
                lemma_dec_digits_shape(n as int);
                lemma_dec_digits_value(n as int);
                assert forall|j: int| 0 <= j < d.len() implies bytes@[pos + j] == d[j] by {
                    assert(bytes@.subrange(pos as int, pos + d.len())[j] == bytes@[pos + j]);
                }
                if d.len() == 1 {
                    assert(!is_ascii_digit(bytes@[pos + 1]));
                    assert(false);
                }
                if d.len() == 3 {
                    assert(is_ascii_digit(bytes@[pos + 2]));
                    assert(false);
                }
            }
        }
        return Some((d0 * 10 + d1, pos + 2));
    }
    proof {
        assert forall|n: u8| reads_value_at(bytes@, pos as int, n) implies n == d0 && dec_digits(
            n as int,
        ).len() == 1 by {
            let d = dec_digits(n as int);
            lemma_dec_digits_shape(n as int);
            lemma_dec_digits_value(n as int);
            assert forall|j: int| 0 <= j < d.len() implies bytes@[pos + j] == d[j] by {
                assert(bytes@.subrange(pos as int, pos + d.len())[j] == bytes@[pos + j]);
            }
            if d.len() >= 2 {
                assert(is_ascii_digit(bytes@[pos + 1]));
                assert(false);
            }
        }
    }
    Some((d0, pos + 1))
}

/// Insignificant JSON whitespace: space, tab, line feed, carriage return.
pub open spec fn is_json_ws(b: u8) -> bool {
    b == 32 || b == 9 || b == 10 || b == 13
}

/// `bytes` with insignificant whitespace removed: whitespace outside string
/// literals is dropped, and a quote toggles the in-string state.
pub open spec fn strip_ws(bytes: Seq<u8>, in_string: bool) -> Seq<u8>
    decreases bytes.len(),
{
    if bytes.len() == 0 {
        Seq::empty()
    } else {
        let b = bytes[0];
        let rest = strip_ws(
            bytes.drop_first(),
            if b == 34 {
                !in_string
            } else {
                in_string
            },
        );
        if !in_string && is_json_ws(b) {
            rest
        } else {
            seq![b] + rest
        }
    }
}

/// Removes insignificant whitespace from a byte string.
fn strip_whitespace(bytes: &Vec<u8>) -> (out: Vec<u8>)
    ensures
        out@ == strip_ws(bytes@, false),
{
    let mut out: Vec<u8> = Vec::new();
    let mut in_string = false;
    let mut i: usize = 0;
    proof {
        assert(bytes@.skip(0) =~= bytes@);
        assert(strip_ws(bytes@, false) =~= out@ + strip_ws(bytes@.skip(0), false));
    }
    while i < bytes.len()
        invariant
            i <= bytes@.len(),
            strip_ws(bytes@, false) == out@ + strip_ws(bytes@.skip(i as int), in_string),
        decreases bytes@.len() - i,
    {
        let b = bytes[i];
        proof {
            assert(bytes@.skip(i as int)[0] == b);
            assert(bytes@.skip(i as int).drop_first() =~= bytes@.skip(i + 1));
        }
        if b == 34 {
            in_string = !in_string;
            out.push(b);
        } else if !in_string && (b == 32 || b == 9 || b == 10 || b == 13) {
            // dropped: insignificant whitespace between tokens
        } else {
            out.push(b);
        }
        proof {
            assert(strip_ws(bytes@, false) =~= out@ + strip_ws(bytes@.skip(i + 1), in_string));
        }
        i = i + 1;
    }
    proof {
        assert(bytes@.skip(bytes@.len() as int) =~= Seq::<u8>::empty());
        assert(out@ =~= strip_ws(bytes@, false));
    }
    out
}

/// A byte string that holds no insignificant whitespace is unchanged by stripping.
proof fn lemma_strip_ws_no_ws(bytes: Seq<u8>, in_string: bool)
    requires
        forall|i: int| 0 <= i < bytes.len() ==> !is_json_ws(#[trigger] bytes[i]),
    ensures
        strip_ws(bytes, in_string) == bytes,
    decreases bytes.len(),
{
    if bytes.len() > 0 {
        let rest = bytes.drop_first();
        assert forall|i: int| 0 <= i < rest.len() implies !is_json_ws(#[trigger] rest[i]) by {
            assert(rest[i] == bytes[i + 1]);
        }
        if bytes[0] == 34 {
            lemma_strip_ws_no_ws(rest, !in_string);
        } else {
            lemma_strip_ws_no_ws(rest, in_string);
        }
        assert(strip_ws(bytes, in_string) =~= bytes);
    } else {
        assert(strip_ws(bytes, in_string) =~= bytes);
    }
}

/// Every byte of a rendered list is a digit or the separator.
proof fn lemma_dec_list_bytes(s: Seq<u8>)
    ensures
        forall|i: int|
            0 <= i < dec_list(s).len() ==> (is_ascii_digit(#[trigger] dec_list(s)[i]) || dec_list(
                s,
            )[i] == 44),
    decreases s.len(),
{
    if s.len() == 1 {
        lemma_dec_digits_shape(s[0] as int);
    } else if s.len() > 1 {
        lemma_dec_digits_shape(s[0] as int);
        lemma_dec_list_bytes(s.drop_first());
        let d = dec_digits(s[0] as int);
        assert forall|i: int|
            0 <= i < dec_list(s).len() implies (is_ascii_digit(#[trigger] dec_list(s)[i])
            || dec_list(s)[i] == 44) by {
            if i < d.len() {
                assert(dec_list(s)[i] == d[i]);
            } else if i == d.len() {
                assert(dec_list(s)[i] == 44);
            } else {
                assert(dec_list(s)[i] == dec_list(s.drop_first())[i - d.len() - 1]);
            }
        }
    }
}

/// The canonical persisted form holds no insignificant whitespace, so stripping
/// leaves it unchanged.
pub proof fn lemma_encoded_identity_no_ws(s: Seq<u8>)
    ensures
        strip_ws(encoded_identity(s), false) == encoded_identity(s),
{
    lemma_dec_list_bytes(s);
    let e = encoded_identity(s);
    assert forall|i: int| 0 <= i < e.len() implies !is_json_ws(#[trigger] e[i]) by {
        if i < 22 {
            assert(e[i] == header_bytes()[i]);
        } else if i < 22 + dec_list(s).len() {
            assert(e[i] == dec_list(s)[i - 22]);
        } else {
            assert(e[i] == footer_bytes()[i - 22 - dec_list(s).len()]);
        }
    }
    lemma_strip_ws_no_ws(e, false);
}

/// Parses the persisted identity form: the canonical compact object, allowing
/// insignificant whitespace between tokens; everything else is a serialization
/// failure.
pub fn decode_identity_bytes(bytes: &Vec<u8>) -> (r: Result<Vec<u8>, IdentityError>)
    ensures
        (r matches Ok(s) ==> decodes_to(strip_ws(bytes@, false), s@)),
        forall|s: Seq<u8>|
            decodes_to(strip_ws(bytes@, false), s) ==> (r matches Ok(t) && t@ == s),
        r matches Err(e) ==> e == IdentityError::SerializationFailure,
{
    let stripped = strip_whitespace(bytes);
    decode_canonical(&stripped)
}

/// Parses the canonical persisted identity form. Exactly the persisted form of a
/// full-length secret is accepted; every other input is a serialization failure.
#[verifier::rlimit(100)]
fn decode_canonical(bytes: &Vec<u8>) -> (r: Result<Vec<u8>, IdentityError>)
    ensures
        r matches Ok(s) ==> decodes_to(bytes@, s@),
        forall|s: Seq<u8>| decodes_to(bytes@, s) ==> (r matches Ok(t) && t@ == s),
        r matches Err(e) ==> e == IdentityError::SerializationFailure,
{
    let ghost has: bool = exists|s: Seq<u8>| decodes_to(bytes@, s);
    let ghost sigma: Seq<u8> = choose|s: Seq<u8>| decodes_to(bytes@, s);
    let hdr = header_vec();
    let mut i: usize = 0;
    while i < hdr.len()
        invariant
            hdr@ == header_bytes(),
            i <= hdr@.len(),
            i <= bytes@.len(),
            has == exists|s: Seq<u8>| decodes_to(bytes@, s),
            has ==> decodes_to(bytes@, sigma),
        decreases hdr@.len() - i,
    {
        if i >= bytes.len() || bytes[i] != hdr[i] {
            proof {
                if has {
                    assert(bytes@ == header_bytes() + dec_list(sigma) + footer_bytes());
                    assert(bytes@[i as int] == header_bytes()[i as int]);
                    assert(false);
                }
            }
            return Err(IdentityError::SerializationFailure);
        }
        i = i + 1;
    }
    let mut vals: Vec<u8> = Vec::new();
    let mut pos: usize = hdr.len();
    let mut k: usize = 0;
    proof {
        assert(sigma.take(0) =~= Seq::<u8>::empty());
    }
    while k < SECRET_KEY_LENGTH
        invariant
            k <= SECRET_KEY_LENGTH,
            vals@.len() == k,
            pos <= bytes@.len(),
            has == exists|s: Seq<u8>| decodes_to(bytes@, s),
            has ==> decodes_to(bytes@, sigma),
            has ==> vals@ == sigma.take(k as int),
            has ==> pos == 22 + dec_list(sigma.take(k as int)).len(),
        decreases SECRET_KEY_LENGTH - k,
    {
        let ghost tk = sigma.take(k as int);
        let ghost sk = sigma.skip(k as int);
        let ghost dig = dec_digits(sigma[k as int] as int);
        let ghost rest: Seq<u8> = if k + 1 < SECRET_KEY_LENGTH {
            seq![44u8] + dec_list(sigma.skip(k + 1))
        } else {
            Seq::<u8>::empty()
        };
        let ghost sep: Seq<u8> = if k > 0 {
            seq![44u8]
        } else {
            Seq::<u8>::empty()
        };
        proof {
            if has {
                assert(sigma =~= tk + sk);
                lemma_dec_list_concat(tk, sk);
                assert(sk.len() == 32 - k);
                assert(sk[0] == sigma[k as int]);
                if k + 1 < SECRET_KEY_LENGTH {
                    assert(sk.drop_first() =~= sigma.skip(k + 1));
                    assert(dec_list(sk) == dig + seq![44u8] + dec_list(sk.drop_first()));
                } else {
                    assert(sk.len() == 1);
                    assert(dec_list(sk) == dig);
                }
                assert(dec_list(sigma) == dec_list(tk) + sep + (dig + rest)) by {
                    if k > 0 && k + 1 < SECRET_KEY_LENGTH {
                        assert(dec_list(tk) + seq![44u8] + (dig + (seq![44u8] + dec_list(
                            sigma.skip(k + 1),
                        ))) =~= dec_list(tk) + seq![44u8] + (dig + seq![44u8] + dec_list(
                            sigma.skip(k + 1),
                        )));
                    } else if k > 0 {
                        assert(dec_list(tk) + seq![44u8] + (dig + Seq::<u8>::empty()) =~= dec_list(
                            tk,
                        ) + seq![44u8] + dig);
                    } else if k + 1 < SECRET_KEY_LENGTH {
                        assert(dec_list(tk) + Seq::<u8>::empty() + (dig + (seq![44u8] + dec_list(
                            sigma.skip(k + 1),
                        ))) =~= dig + seq![44u8] + dec_list(sigma.skip(k + 1)));
                        assert(dec_list(tk) =~= Seq::<u8>::empty());
                    } else {
                        assert(dec_list(tk) + Seq::<u8>::empty() + (dig + Seq::<u8>::empty())
                            =~= dig);
                        assert(dec_list(tk) =~= Seq::<u8>::empty());
                    }
                }
                assert(bytes@ =~= header_bytes() + dec_list(tk) + sep + dig + (rest
                    + footer_bytes()));
            }
        }
        if k > 0 {
            if pos >= bytes.len() || bytes[pos] != 44 {
                proof {
                    if has {
                        assert(bytes@[pos as int] == 44);
                        assert(false);
                    }
                }
                return Err(IdentityError::SerializationFailure);
            }
            pos = pos + 1;
        }
        proof {
            if has {
                assert(bytes@.subrange(pos as int, pos + dig.len()) =~= dig);
                assert(bytes@[pos + dig.len()] == (rest + footer_bytes())[0]);
                assert(!is_ascii_digit(bytes@[pos + dig.len()]));
                assert(reads_value_at(bytes@, pos as int, sigma[k as int]));
            }
        }
        match parse_u8_at(bytes, pos) {
            None => {
                proof {
                    if has {
                        assert(false);
                    }
                }
                return Err(IdentityError::SerializationFailure);
            },
            Some((v, npos)) => {
                proof {
                    if has {
                        assert(v == sigma[k as int]);
                        assert(npos == pos + dig.len());
                        lemma_dec_list_snoc(tk, sigma[k as int]);
                        assert(tk.push(sigma[k as int]) =~= sigma.take(k + 1));
                        assert(vals@.push(v) == sigma.take(k + 1));
                    }
                }
                vals.push(v);
                pos = npos;
                k = k + 1;
            },
        }
    }
    proof {
        if has {
            assert(sigma.take(32) =~= sigma);
        }
    }
    if bytes.len() < 2 || pos != bytes.len() - 2 {
        proof {
            if has {
                assert(bytes@ == header_bytes() + dec_list(sigma) + footer_bytes());
                assert(bytes@.len() == 24 + dec_list(sigma).len());
                assert(false);
            }
        }
        return Err(IdentityError::SerializationFailure);
    }
    if bytes[pos] != 93 || bytes[pos + 1] != 125 {
        proof {
            if has {
                assert(bytes@ == header_bytes() + dec_list(sigma) + footer_bytes());
                assert(bytes@[pos as int] == footer_bytes()[0]);
                assert(bytes@[pos + 1] == footer_bytes()[1]);
                assert(false);
            }
        }
        return Err(IdentityError::SerializationFailure);
    }
    let enc = encode_identity_bytes(&vals);
    if bytes_eq(&enc, bytes) {
        proof {
            assert(decodes_to(bytes@, vals@));
            assert forall|s: Seq<u8>| decodes_to(bytes@, s) implies vals@ == s by {
                lemma_encoded_injective(s, vals@);
            }
        }
        Ok(vals)
    } else {
        proof {
            if has {
                assert(vals@ == sigma);
                assert(enc@ == bytes@);
                assert(false);
            }
        }
        Err(IdentityError::SerializationFailure)
    }
}

} // verus!
