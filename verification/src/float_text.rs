//! The texts of temperatures: what `str::parse::<f32>` accepts, by the
//! grammar in its documentation. Which number a text denotes is left to
//! floating-point code outside this library; here a temperature is its text.
use vstd::prelude::*;
use crate::decimal::{all_digits, is_digit, DOT_BYTE, MINUS_BYTE, PLUS_BYTE};
use crate::line::{find_byte, find_in, lemma_find_byte};

verus! {

/// ASCII `e`, which starts an exponent.
pub const EXPONENT_BYTE: u8 = 101;

/// ASCII letters in lower case; every other byte as it is.
pub open spec fn lower_byte(b: u8) -> u8 {
    if 65 <= b <= 90 {
        (b + 32) as u8
    } else {
        b
    }
}

pub open spec fn lowered(s: Seq<u8>) -> Seq<u8> {
    s.map_values(|b: u8| lower_byte(b))
}

/// 1 when the text starts with `+` or `-`, else 0.
pub open spec fn sign_len(s: Seq<u8>) -> int {
    if s.len() > 0 && (s[0] == PLUS_BYTE || s[0] == MINUS_BYTE) {
        1
    } else {
        0
    }
}

/// `Digit+ | Digit+ '.' Digit* | Digit* '.' Digit+`.
pub open spec fn is_mantissa(m: Seq<u8>) -> bool {
    let p = find_byte(m, DOT_BYTE, 0);
    &&& all_digits(m.take(p))
    &&& p < m.len() ==> all_digits(m.skip(p + 1))
    &&& m.len() > (if p < m.len() {
        1int
    } else {
        0int
    })
}

/// `Sign? Digit+`: what follows the `e` of an exponent.
pub open spec fn is_exponent(x: Seq<u8>) -> bool {
    let d = x.skip(sign_len(x));
    d.len() > 0 && all_digits(d)
}

/// `Mantissa ('e' Sign? Digit+)?`, on a lowered text.
pub open spec fn is_number(u: Seq<u8>) -> bool {
    let e = find_byte(u, EXPONENT_BYTE, 0);
    &&& is_mantissa(u.take(e))
    &&& e < u.len() ==> is_exponent(u.skip(e + 1))
}

pub open spec fn inf_text() -> Seq<u8> {
    seq![105u8, 110u8, 102u8]
}

pub open spec fn infinity_text() -> Seq<u8> {
    seq![105u8, 110u8, 102u8, 105u8, 110u8, 105u8, 116u8, 121u8]
}

pub open spec fn nan_text() -> Seq<u8> {
    seq![110u8, 97u8, 110u8]
}

/// The texts of temperatures: those that `str::parse::<f32>` accepts, read
/// without regard to the case of letters:
/// `Sign? ( 'inf' | 'infinity' | 'nan' | Number )`.
pub open spec fn is_float_text(s: Seq<u8>) -> bool {
    let u = lowered(s).skip(sign_len(s));
    ||| u == inf_text()
    ||| u == infinity_text()
    ||| u == nan_text()
    ||| is_number(u)
}

/// Whether every byte is a decimal digit.
pub fn digits_only(s: &[u8]) -> (r: bool)
    ensures
        r == all_digits(s@),
{
    let mut i: usize = 0;
    while i < s.len()
        invariant
            i <= s@.len(),
            forall|j: int| 0 <= j < i ==> is_digit(#[trigger] s@[j]),
        decreases s@.len() - i,
    {
        if s[i] < 48 || s[i] > 57 {
            return false;
        }
        i = i + 1;
    }
    true
}

fn is_mantissa_text(m: &[u8]) -> (r: bool)
    ensures
        r == is_mantissa(m@),
{
    let p = find_in(m, DOT_BYTE, 0);
    let int_ok = digits_only(&m[0..p]);
    assert(m@.subrange(0, p as int) =~= m@.take(p as int));
    let frac_ok = if p < m.len() {
        let f = digits_only(&m[p + 1..m.len()]);
        assert(m@.subrange(p + 1, m@.len() as int) =~= m@.skip(p + 1));
        f
    } else {
        true
    };
    let count_ok = if p < m.len() {
        m.len() > 1
    } else {
        m.len() > 0
    };
    int_ok && frac_ok && count_ok
}

fn is_exponent_text(x: &[u8]) -> (r: bool)
    ensures
        r == is_exponent(x@),
{
    let k: usize = if x.len() > 0 && (x[0] == PLUS_BYTE || x[0] == MINUS_BYTE) {
        1
    } else {
        0
    };
    let d = &x[k..x.len()];
    assert(d@ =~= x@.skip(k as int));
    d.len() > 0 && digits_only(d)
}

/// Whether a text is the text of a temperature (see `is_float_text`).
pub fn accepts_float_text(field: &[u8]) -> (r: bool)
    ensures
        r == is_float_text(field@),
{
    let n = field.len();
    let k: usize = if n > 0 && (field[0] == PLUS_BYTE || field[0] == MINUS_BYTE) {
        1
    } else {
        0
    };
    let ghost target = lowered(field@).skip(k as int);
    let mut u: Vec<u8> = Vec::new();
    let mut i: usize = k;
    while i < n
        invariant
            k <= i <= n == field@.len(),
            target == lowered(field@).skip(k as int),
            u@ == target.take(i - k),
        decreases n - i,
    {
        let b = field[i];
        let lb = if 65 <= b && b <= 90 {
            b + 32
        } else {
            b
        };
        u.push(lb);
        i = i + 1;
        assert(u@ =~= target.take(i - k));
    }
    assert(u@ =~= target);
    let len = u.len();
    if len == 3 && u[0] == 105 && u[1] == 110 && u[2] == 102 {
        assert(u@ =~= inf_text());
        return true;
    }
    if len == 8 && u[0] == 105 && u[1] == 110 && u[2] == 102 && u[3] == 105 && u[4] == 110
        && u[5] == 105 && u[6] == 116 && u[7] == 121 {
        assert(u@ =~= infinity_text());
        return true;
    }
    if len == 3 && u[0] == 110 && u[1] == 97 && u[2] == 110 {
        assert(u@ =~= nan_text());
        return true;
    }
    assert(u@ != inf_text() && u@ != infinity_text() && u@ != nan_text()) by {
        if u@ == inf_text() {
            assert(u@[0] == 105 && u@[1] == 110 && u@[2] == 102);
        }
        if u@ == infinity_text() {
            assert(u@[0] == 105 && u@[1] == 110 && u@[2] == 102 && u@[3] == 105 && u@[4] == 110
                && u@[5] == 105 && u@[6] == 116 && u@[7] == 121);
        }
        if u@ == nan_text() {
            assert(u@[0] == 110 && u@[1] == 97 && u@[2] == 110);
        }
    }
    let us = u.as_slice();
    let e = find_in(us, EXPONENT_BYTE, 0);
    let m_ok = is_mantissa_text(&us[0..e]);
    assert(us@.subrange(0, e as int) =~= us@.take(e as int));
    let x_ok = if e < len {
        let x = &us[e + 1..len];
        assert(x@ =~= us@.skip(e + 1));
        is_exponent_text(x)
    } else {
        true
    };
    m_ok && x_ok
}

/// The bytes that a text of a temperature can hold once lowered: digits,
/// `+`, `-`, `.`, `e`, and the letters of `inf`, `infinity` and `nan`.
pub open spec fn float_text_byte(b: u8) -> bool {
    ||| is_digit(b)
    ||| b == PLUS_BYTE
    ||| b == MINUS_BYTE
    ||| b == DOT_BYTE
    ||| b == EXPONENT_BYTE
    ||| b == 105u8
    ||| b == 110u8
    ||| b == 102u8
    ||| b == 116u8
    ||| b == 121u8
    ||| b == 97u8
}

proof fn lemma_digits_bytes(d: Seq<u8>, i: int)
    requires
        all_digits(d),
        0 <= i < d.len(),
    ensures
        float_text_byte(d[i]),
{
}

/// The text of a temperature is not empty and holds no `;`, no line feed
/// and no carriage return.
pub proof fn lemma_float_text_bytes(s: Seq<u8>)
    requires
        is_float_text(s),
    ensures
        s.len() > 0,
        forall|i: int|
            0 <= i < s.len() ==> #[trigger] s[i] != 59u8 && s[i] != 10u8 && s[i] != 13u8,
{
    let k = sign_len(s);
    let u = lowered(s).skip(k);
    if is_number(u) {
        let e = find_byte(u, EXPONENT_BYTE, 0);
        lemma_find_byte(u, EXPONENT_BYTE, 0);
        let m = u.take(e);
        let p = find_byte(m, DOT_BYTE, 0);
        lemma_find_byte(m, DOT_BYTE, 0);
        assert(u.len() > 0);
    }
    assert(u.len() > 0);
    assert forall|i: int| 0 <= i < s.len() implies #[trigger] s[i] != 59u8 && s[i] != 10u8 && s[i]
        != 13u8 by {
        if i >= k {
            let j = i - k;
            assert(u[j] == lower_byte(s[i]));
            if u == inf_text() || u == infinity_text() || u == nan_text() {
                assert(float_text_byte(u[j]));
            } else {
                let e = find_byte(u, EXPONENT_BYTE, 0);
                lemma_find_byte(u, EXPONENT_BYTE, 0);
                let m = u.take(e);
                let p = find_byte(m, DOT_BYTE, 0);
                lemma_find_byte(m, DOT_BYTE, 0);
                if j < e {
                    assert(m[j] == u[j]);
                    if j < p {
                        assert(m.take(p)[j] == m[j]);
                        lemma_digits_bytes(m.take(p), j);
                    } else if j > p {
                        assert(m.skip(p + 1)[j - p - 1] == m[j]);
                        lemma_digits_bytes(m.skip(p + 1), j - p - 1);
                    }
                } else if j > e {
                    let x = u.skip(e + 1);
                    assert(x[j - e - 1] == u[j]);
                    let sl = sign_len(x);
                    if j - e - 1 >= sl {
                        assert(x.skip(sl)[j - e - 1 - sl] == x[j - e - 1]);
                        lemma_digits_bytes(x.skip(sl), j - e - 1 - sl);
                    }
                }
                assert(float_text_byte(u[j]));
            }
        }
    }
}

/// A sign: none, `+` or `-`.
pub open spec fn is_sign_text(s: Seq<u8>) -> bool {
    s.len() == 0 || s == seq![PLUS_BYTE] || s == seq![MINUS_BYTE]
}

/// Digits or points.
spec fn digits_or_dots(m: Seq<u8>) -> bool {
    forall|i: int| 0 <= i < m.len() ==> is_digit(#[trigger] m[i]) || m[i] == DOT_BYTE
}

/// The index of a byte in a text is where it first occurs when nothing
/// before it is that byte.
proof fn lemma_first_byte_at(s: Seq<u8>, b: u8, k: int)
    requires
        0 <= k <= s.len(),
        k < s.len() ==> s[k] == b,
        forall|j: int| 0 <= j < k ==> s[j] != b,
    ensures
        find_byte(s, b, 0) == k,
{
    lemma_find_byte(s, b, 0);
    let r = find_byte(s, b, 0);
    if r < k {
        assert(s[r] == b);
    }
    if r > k {
        assert(s[k] == b);
    }
}

/// A sign, a mantissa and an optional exponent `e`, sign, digits make the
/// text of a temperature.
proof fn lemma_number_text(sign: Seq<u8>, m: Seq<u8>, x: Seq<u8>, xsign: Seq<u8>, c: Seq<u8>)
    requires
        is_sign_text(sign),
        is_mantissa(m),
        digits_or_dots(m),
        is_sign_text(xsign),
        all_digits(c),
        x.len() == 0 || (x == seq![EXPONENT_BYTE] + xsign + c && c.len() > 0),
    ensures
        is_float_text(sign + m + x),
{
    let t = sign + m + x;
    lemma_find_byte(m, DOT_BYTE, 0);
    assert(m.len() > 0);
    let k = sign.len() as int;
    assert(t[k] == m[0]);
    if sign.len() == 0 {
        assert(t[0] == m[0]);
    } else {
        assert(t[0] == sign[0]);
    }
    assert(sign_len(t) == k);
    assert forall|i: int| 0 <= i < t.len() implies lower_byte(#[trigger] t[i]) == t[i] by {
        if i < k {
            assert(t[i] == sign[i]);
        } else if i < k + m.len() {
            assert(t[i] == m[i - k]);
        } else {
            let j = i - k - m.len();
            assert(t[i] == x[j]);
            if j > 0 && j <= xsign.len() {
                assert(x[j] == xsign[j - 1]);
            } else if j > xsign.len() {
                assert(x[j] == c[j - 1 - xsign.len()]);
            }
        }
    }
    assert(lowered(t) =~= t);
    let u = lowered(t).skip(k);
    assert(u =~= m + x);
    assert forall|j: int| 0 <= j < m.len() implies u[j] != EXPONENT_BYTE by {
        assert(u[j] == m[j]);
    }
    if x.len() > 0 {
        assert(u[m.len() as int] == x[0]);
    }
    lemma_first_byte_at(u, EXPONENT_BYTE, m.len() as int);
    assert(u.take(m.len() as int) =~= m);
    if x.len() > 0 {
        let y = u.skip(m.len() + 1int);
        assert(y =~= xsign + c);
        if xsign.len() == 0 {
            assert(y =~= c);
            if c.len() > 0 {
                assert(y[0] == c[0]);
            }
        } else {
            assert(y[0] == xsign[0]);
            assert(y.skip(1) =~= c);
        }
        assert(is_exponent(y));
    }
    assert(is_number(u));
}

/// Every decimal literal is the text of a temperature: a sign (none, `+`
/// or `-`), digits, and optionally a point with digits after it, where the
/// digits on one side of the point may be missing but not on both; and so
/// is such a literal with an exponent: `e`, a sign, and digits.
pub proof fn lemma_decimal_literals(sign: Seq<u8>, a: Seq<u8>, b: Seq<u8>, xsign: Seq<u8>, c: Seq<u8>)
    requires
        is_sign_text(sign),
        all_digits(a),
        all_digits(b),
        is_sign_text(xsign),
        all_digits(c),
        c.len() > 0,
    ensures
        a.len() > 0 ==> is_float_text(sign + a),
        a.len() + b.len() > 0 ==> is_float_text(sign + (a + seq![DOT_BYTE] + b)),
        a.len() > 0 ==> is_float_text(sign + a + (seq![EXPONENT_BYTE] + xsign + c)),
        a.len() + b.len() > 0 ==> is_float_text(
            sign + (a + seq![DOT_BYTE] + b) + (seq![EXPONENT_BYTE] + xsign + c),
        ),
{
    let none = Seq::<u8>::empty();
    let x = seq![EXPONENT_BYTE] + xsign + c;
    if a.len() > 0 {
        assert forall|j: int| 0 <= j < a.len() implies a[j] != DOT_BYTE by {
            assert(is_digit(a[j]));
        }
        lemma_first_byte_at(a, DOT_BYTE, a.len() as int);
        assert(a.take(a.len() as int) =~= a);
        assert(is_mantissa(a));
        lemma_number_text(sign, a, none, xsign, c);
        assert(sign + a + none =~= sign + a);
        lemma_number_text(sign, a, x, xsign, c);
    }
    if a.len() + b.len() > 0 {
        let m = a + seq![DOT_BYTE] + b;
        assert forall|j: int| 0 <= j < a.len() implies m[j] != DOT_BYTE by {
            assert(m[j] == a[j]);
            assert(is_digit(a[j]));
        }
        assert(m[a.len() as int] == DOT_BYTE);
        lemma_first_byte_at(m, DOT_BYTE, a.len() as int);
        assert(m.take(a.len() as int) =~= a);
        assert(m.skip(a.len() + 1int) =~= b);
        assert(is_mantissa(m));
        assert forall|j: int| 0 <= j < m.len() implies is_digit(#[trigger] m[j]) || m[j] == DOT_BYTE by {
            if j < a.len() {
                assert(m[j] == a[j]);
            } else if j > a.len() {
                assert(m[j] == b[j - a.len() - 1]);
            }
        }
        lemma_number_text(sign, m, none, xsign, c);
        assert(sign + m + none =~= sign + m);
        lemma_number_text(sign, m, x, xsign, c);
    }
}

} // verus!
