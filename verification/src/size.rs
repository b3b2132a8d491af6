//! Human-readable byte counts: `512.000 bytes`, `1.500 KiB`, `3.250 GiB`.
use vstd::prelude::*;
use vstd::string::StringExecFns;
use crate::decimal::{decimal_digits, push_decimal, ZERO_BYTE, DOT_BYTE};

verus! {

/// ASCII space.
pub const SPACE_BYTE: u8 = 32;

/// How many times a byte count is divided by 1024 before it is shown: once
/// above 1024 bytes, twice above 1024 KiB, three times above 1024 MiB.
pub open spec fn size_level(bytes: nat) -> nat {
    if bytes > 1073741824 {
        3
    } else if bytes > 1048576 {
        2
    } else if bytes > 1024 {
        1
    } else {
        0
    }
}

/// 1024 to the power `level`, for the levels that `size_level` gives.
pub open spec fn level_divisor(level: nat) -> nat {
    if level == 3 {
        1073741824
    } else if level == 2 {
        1048576
    } else if level == 1 {
        1024
    } else {
        1
    }
}

/// The unit of a level.
pub open spec fn unit_text(level: nat) -> Seq<u8> {
    if level == 3 {
        seq![71u8, 105u8, 66u8]
    } else if level == 2 {
        seq![77u8, 105u8, 66u8]
    } else if level == 1 {
        seq![75u8, 105u8, 66u8]
    } else {
        seq![98u8, 121u8, 116u8, 101u8, 115u8]
    }
}

/// `a / d` rounded to the nearest integer, a tie going to the even one.
pub open spec fn round_half_even(a: nat, d: nat) -> nat {
    let q = a / d;
    let r = a % d;
    if 2 * r > d || (2 * r == d && q % 2 == 1) {
        q + 1
    } else {
        q
    }
}

/// Two to the power `e`.
pub open spec fn two_to(e: nat) -> nat
    decreases e,
{
    if e == 0 {
        1
    } else {
        2 * two_to((e - 1) as nat)
    }
}

/// How many low bits of `b` a double-precision float drops: none below
/// 2^53, one more for each doubling above.
pub open spec fn float_shift(b: nat) -> nat
    decreases b,
{
    if b < 9007199254740992 {
        0
    } else {
        1 + float_shift(b / 2)
    }
}

/// The value that a byte count takes as a double-precision float: rounded
/// to 53 significant bits, a tie going to the even one.
pub open spec fn as_double(b: nat) -> nat {
    round_half_even(b, two_to(float_shift(b))) * two_to(float_shift(b))
}

/// The number shown, in thousandths of the unit.
pub open spec fn size_thousandths(bytes: nat) -> nat {
    round_half_even(bytes * 1000, level_divisor(size_level(bytes)))
}

/// Three decimal digits of `x < 1000`, with leading zeros.
pub open spec fn three_digits(x: nat) -> Seq<u8> {
    seq![(48 + x / 100) as u8, (48 + (x / 10) % 10) as u8, (48 + x % 10) as u8]
}

/// A byte count as shown: taken as a double-precision float (see
/// `as_double`), the value in its unit with three decimals, a space, and
/// the unit.
pub open spec fn size_text(bytes: nat) -> Seq<u8> {
    let v = as_double(bytes);
    let t = size_thousandths(v);
    decimal_digits(t / 1000) + seq![DOT_BYTE] + three_digits(t % 1000) + seq![SPACE_BYTE]
        + unit_text(size_level(v))
}

/// Characters of an ASCII text.
pub open spec fn ascii_chars(s: Seq<u8>) -> Seq<char> {
    s.map_values(|b: u8| b as char)
}

/// The level of an exact count `v` and the number shown for it, split into
/// its whole part and its three decimals.
fn shown_parts(bytes: u128) -> (r: (u8, u128, u128))
    ensures
        r.0 == size_level(bytes as nat),
        r.2 < 1000,
        r.1 * 1000 + r.2 == size_thousandths(bytes as nat),
{
    let (level, divisor): (u8, u128) = if bytes > 1073741824 {
        (3, 1073741824)
    } else if bytes > 1048576 {
        (2, 1048576)
    } else if bytes > 1024 {
        (1, 1024)
    } else {
        (0, 1)
    };
    assert(level == size_level(bytes as nat) && divisor == level_divisor(level as nat));
    let whole = bytes / divisor;
    let rem = bytes % divisor;
    let scaled = rem * 1000;
    let q0 = scaled / divisor;
    let mut frac = q0;
    let r2 = scaled % divisor;
    if 2 * r2 > divisor || (2 * r2 == divisor && frac % 2 == 1) {
        frac = frac + 1;
    }
    let mut w = whole;
    if frac == 1000 {
        w = whole + 1;
        frac = 0;
    }
    proof {
        let b = bytes as nat;
        let d = divisor as nat;
        let a = b * 1000;
        assert(b == d * whole + rem) by {
            vstd::arithmetic::div_mod::lemma_fundamental_div_mod(b as int, d as int);
        }
        assert(scaled == d * q0 + r2) by {
            vstd::arithmetic::div_mod::lemma_fundamental_div_mod(scaled as int, d as int);
        }
        assert(a == (whole * 1000 + q0) * d + r2) by (nonlinear_arith)
            requires
                b == d * whole + rem,
                scaled == rem * 1000,
                scaled == d * (q0) + r2,
                a == b * 1000,
        ;
        assert(0 <= r2 < d);
        vstd::arithmetic::div_mod::lemma_fundamental_div_mod_converse_div(
            a as int,
            d as int,
            (whole * 1000 + q0) as int,
            r2 as int,
        );
        vstd::arithmetic::div_mod::lemma_fundamental_div_mod_converse_mod(
            a as int,
            d as int,
            (whole * 1000 + q0) as int,
            r2 as int,
        );
        assert(q0 < 1000) by (nonlinear_arith)
            requires
                scaled == rem * 1000,
                rem < d,
                scaled == d * (q0) + r2,
                r2 >= 0,
        ;
        assert(size_thousandths(b) == w * 1000 + frac);
    }
    (level, w, frac)
}

/// The rounding of `b` to 53 significant bits: the multiplier `m` and the
/// power of two `d` with `as_double(b) == m * d`.
fn double_parts(b: u128) -> (r: (u128, u128))
    ensures
        r.1 == two_to(float_shift(b as nat)),
        r.0 == round_half_even(b as nat, r.1 as nat),
        r.0 <= 9007199254740992,
        float_shift(b as nat) > 0 ==> r.0 >= 4503599627370496,
        r.1 < 0x1000_0000_0000_0000_0000,
{
    let mut d: u128 = 1;
    let mut q: u128 = b;
    let ghost mut e: nat = 0;
    while q >= 9007199254740992
        invariant
            d == two_to(e),
            1 <= d,
            q == b / d,
            float_shift(b as nat) == e + float_shift(q as nat),
            e > 0 ==> q >= 4503599627370496,
            d * q <= b,
        decreases q,
    {
        proof {
            vstd::arithmetic::div_mod::lemma_fundamental_div_mod(b as int, d as int);
            assert(d < 0x8000_0000_0000_0000_000) by (nonlinear_arith)
                requires
                    d * q <= b,
                    q >= 9007199254740992,
                    b < 0x1_0000_0000_0000_0000_0000_0000_0000_0000,
            ;
            vstd::arithmetic::div_mod::lemma_div_denominator(b as int, d as int, 2);
            assert(d * q <= b);
            assert((d * 2) * (q / 2) <= d * q) by (nonlinear_arith)
                requires
                    d >= 1,
            ;
        }
        d = d * 2;
        q = q / 2;
        proof {
            e = e + 1;
        }
    }
    let rem = b % d;
    proof {
        vstd::arithmetic::div_mod::lemma_fundamental_div_mod(b as int, d as int);
        assert(d < 0x1000_0000_0000_0000_0000) by (nonlinear_arith)
            requires
                d * q <= b,
                e > 0 ==> q >= 4503599627370496,
                e == 0 ==> d == 1,
                b < 0x1_0000_0000_0000_0000_0000_0000_0000_0000,
        ;
    }
    let mut m = q;
    if 2 * rem > d || (2 * rem == d && q % 2 == 1) {
        m = q + 1;
    }
    (m, d)
}

/// The text of a byte count, as bytes (see `size_text`).
pub fn size_bytes(bytes: u128) -> (r: Vec<u8>)
    ensures
        r@ == size_text(bytes as nat),
{
    let (m, d) = double_parts(bytes);
    let ghost v = as_double(bytes as nat);
    let (level, w, frac): (u8, u128, u128) = if d >= 1073741824 {
        let k = d / 1073741824;
        proof {
            lemma_large_double(bytes as nat);
            assert(k < 0x4000_0000_0000) by (nonlinear_arith)
                requires
                    d < 0x1000_0000_0000_0000_0000,
                    k == d / 1073741824,
            ;
            assert(m * k <= 9007199254740992 * 0x4000_0000_0000) by (nonlinear_arith)
                requires
                    m <= 9007199254740992,
                    k < 0x4000_0000_0000,
            ;
        }
        (3, m * k, 0)
    } else {
        proof {
            assert(m * d <= 9007199254740992 * 1073741824) by (nonlinear_arith)
                requires
                    m <= 9007199254740992,
                    d < 1073741824,
            ;
        }
        shown_parts(m * d)
    };
    let mut out: Vec<u8> = Vec::new();
    push_decimal(&mut out, w);
    out.push(DOT_BYTE);
    assert(frac < 1000);
    out.push(ZERO_BYTE + (frac / 100) as u8);
    out.push(ZERO_BYTE + ((frac / 10) % 10) as u8);
    out.push(ZERO_BYTE + (frac % 10) as u8);
    out.push(SPACE_BYTE);
    if level == 3 {
        out.push(71);
        out.push(105);
        out.push(66);
    } else if level == 2 {
        out.push(77);
        out.push(105);
        out.push(66);
    } else if level == 1 {
        out.push(75);
        out.push(105);
        out.push(66);
    } else {
        out.push(98);
        out.push(121);
        out.push(116);
        out.push(101);
        out.push(115);
    }
    proof {
        let t = size_thousandths(v);
        assert(t / 1000 == w && t % 1000 == frac) by (nonlinear_arith)
            requires
                t == w * 1000 + frac,
                frac < 1000,
        ;
    }
    assert(out@ =~= size_text(bytes as nat));
    out
}

/// The one-character text of an ASCII byte that `size_bytes` writes.
fn ascii_str(b: u8) -> (s: &'static str)
    requires
        48 <= b <= 57 || b == 46 || b == 32 || b == 71 || b == 105 || b == 66 || b == 77 || b
            == 75 || b == 98 || b == 121 || b == 116 || b == 101 || b == 115,
    ensures
        s@ == seq![b as char],
{
    let s = match b {
        48 => "0",
        49 => "1",
        50 => "2",
        51 => "3",
        52 => "4",
        53 => "5",
        54 => "6",
        55 => "7",
        56 => "8",
        57 => "9",
        46 => ".",
        32 => " ",
        71 => "G",
        105 => "i",
        66 => "B",
        77 => "M",
        75 => "K",
        98 => "b",
        121 => "y",
        116 => "t",
        101 => "e",
        _ => "s",
    };
    proof {
        reveal_strlit("0");
        reveal_strlit("1");
        reveal_strlit("2");
        reveal_strlit("3");
        reveal_strlit("4");
        reveal_strlit("5");
        reveal_strlit("6");
        reveal_strlit("7");
        reveal_strlit("8");
        reveal_strlit("9");
        reveal_strlit(".");
        reveal_strlit(" ");
        reveal_strlit("G");
        reveal_strlit("i");
        reveal_strlit("B");
        reveal_strlit("M");
        reveal_strlit("K");
        reveal_strlit("b");
        reveal_strlit("y");
        reveal_strlit("t");
        reveal_strlit("e");
        reveal_strlit("s");
    }
    assert(s@ =~= seq![b as char]);
    s
}

/// A byte count as a person reads it (see `size_text`): taken as a
/// double-precision float, divided by 1024 while above 1024 (up to GiB),
/// three decimals rounded to nearest, ties to even, then the unit.
pub fn format_bytes(bytes: u128) -> (r: String)
    ensures
        r@ == ascii_chars(size_text(bytes as nat)),
{
    let text = size_bytes(bytes);
    let ghost t = text@;
    proof {
        lemma_size_text_ascii(bytes as nat);
    }
    let mut out = String::new();
    let mut i: usize = 0;
    while i < text.len()
        invariant
            t == text@,
            i <= t.len(),
            out@ == ascii_chars(t.take(i as int)),
            forall|j: int|
                0 <= j < t.len() ==> 48 <= #[trigger] t[j] <= 57 || t[j] == 46 || t[j] == 32 || t[j]
                    == 71 || t[j] == 105 || t[j] == 66 || t[j] == 77 || t[j] == 75 || t[j] == 98
                    || t[j] == 121 || t[j] == 116 || t[j] == 101 || t[j] == 115,
        decreases t.len() - i,
    {
        let piece = ascii_str(text[i]);
        out.append(piece);
        i = i + 1;
        assert(out@ =~= ascii_chars(t.take(i as int)));
    }
    assert(t.take(i as int) =~= t);
    out
}

proof fn lemma_size_text_ascii(bytes: nat)
    ensures
        forall|j: int|
            0 <= j < size_text(bytes).len() ==> 48 <= #[trigger] size_text(bytes)[j] <= 57
                || size_text(bytes)[j] == 46 || size_text(bytes)[j] == 32 || size_text(bytes)[j]
                == 71 || size_text(bytes)[j] == 105 || size_text(bytes)[j] == 66 || size_text(
                bytes,
            )[j] == 77 || size_text(bytes)[j] == 75 || size_text(bytes)[j] == 98 || size_text(
                bytes,
            )[j] == 121 || size_text(bytes)[j] == 116 || size_text(bytes)[j] == 101 || size_text(
                bytes,
            )[j] == 115,
{
    let t = size_thousandths(as_double(bytes));
    crate::decimal::lemma_decimal_digits(t / 1000);
    let d = decimal_digits(t / 1000);
    let s = size_text(bytes);
    assert forall|j: int| 0 <= j < s.len() implies 48 <= #[trigger] s[j] <= 57 || s[j] == 46
        || s[j] == 32 || s[j] == 71 || s[j] == 105 || s[j] == 66 || s[j] == 77 || s[j] == 75
        || s[j] == 98 || s[j] == 121 || s[j] == 116 || s[j] == 101 || s[j] == 115 by {
        if j < d.len() {
            assert(s[j] == d[j]);
        }
    }
}

proof fn lemma_round_half_even_monotone(a1: nat, a2: nat, d: nat)
    requires
        a1 <= a2,
        d > 0,
    ensures
        round_half_even(a1, d) <= round_half_even(a2, d),
{
    vstd::arithmetic::div_mod::lemma_div_is_ordered(a1 as int, a2 as int, d as int);
    vstd::arithmetic::div_mod::lemma_fundamental_div_mod(a1 as int, d as int);
    vstd::arithmetic::div_mod::lemma_fundamental_div_mod(a2 as int, d as int);
    let q1 = a1 / d;
    let q2 = a2 / d;
    if q1 == q2 {
        assert(d * q1 == d * q2);
        assert(a1 % d <= a2 % d);
    }
}

proof fn lemma_two_to_add(a: nat, b: nat)
    ensures
        two_to(a + b) == two_to(a) * two_to(b),
    decreases b,
{
    if b > 0 {
        let c = (b - 1) as nat;
        lemma_two_to_add(a, c);
        let x = two_to(a);
        let y = two_to(c);
        assert(a + b == (a + c) + 1);
        assert(two_to(a + b) == 2 * two_to(a + c));
        assert(two_to(b) == 2 * y);
        assert(2 * (x * y) == x * (2 * y)) by (nonlinear_arith);
        assert(two_to(a + b) == x * two_to(b));
    } else {
        assert(a + b == a);
        assert(two_to(b) == 1);
        assert(two_to(a) * 1 == two_to(a));
    }
}

proof fn lemma_two_to_positive(a: nat)
    ensures
        two_to(a) >= 1,
    decreases a,
{
    if a > 0 {
        lemma_two_to_positive((a - 1) as nat);
    }
}

/// A greater power of two is at least twice a smaller one.
proof fn lemma_two_to_grows(a: nat, b: nat)
    requires
        a < b,
    ensures
        2 * two_to(a) <= two_to(b),
    decreases b,
{
    lemma_two_to_positive((b - 1) as nat);
    if a + 1 < b {
        lemma_two_to_grows(a, (b - 1) as nat);
    }
}

/// What `float_shift` keeps of `b`: fewer than 53 bits, and, when it
/// drops any, at least 53.
proof fn lemma_float_shift(b: nat)
    ensures
        b / two_to(float_shift(b)) < 9007199254740992,
        float_shift(b) > 0 ==> b / two_to(float_shift(b)) >= 4503599627370496,
    decreases b,
{
    if b >= 9007199254740992 {
        let e = float_shift(b);
        lemma_float_shift(b / 2);
        lemma_two_to_positive((e - 1) as nat);
        vstd::arithmetic::div_mod::lemma_div_denominator(b as int, 2, two_to((e - 1) as nat) as int);
        assert(two_to(e) == 2 * two_to((e - 1) as nat));
    }
}

proof fn lemma_float_shift_monotone(b1: nat, b2: nat)
    requires
        b1 <= b2,
    ensures
        float_shift(b1) <= float_shift(b2),
    decreases b1,
{
    if b1 >= 9007199254740992 {
        vstd::arithmetic::div_mod::lemma_div_is_ordered(b1 as int, b2 as int, 2);
        lemma_float_shift_monotone(b1 / 2, b2 / 2);
    }
}

/// Bounds of `as_double(b)` by its power of two.
proof fn lemma_as_double_bounds(b: nat)
    ensures
        as_double(b) <= 9007199254740992 * two_to(float_shift(b)),
        float_shift(b) > 0 ==> as_double(b) >= 4503599627370496 * two_to(float_shift(b)),
{
    let d = two_to(float_shift(b));
    lemma_float_shift(b);
    lemma_two_to_positive(float_shift(b));
    let m = round_half_even(b, d);
    assert(b / d <= m <= b / d + 1);
    assert(as_double(b) == m * d);
    assert(m * d <= 9007199254740992 * d) by (nonlinear_arith)
        requires
            m <= 9007199254740992,
            d >= 1,
    ;
    if float_shift(b) > 0 {
        assert(m * d >= 4503599627370496 * d) by (nonlinear_arith)
            requires
                m >= 4503599627370496,
                d >= 1,
        ;
    }
}

/// A greater byte count is never a smaller double.
proof fn lemma_as_double_monotone(b1: nat, b2: nat)
    requires
        b1 <= b2,
    ensures
        as_double(b1) <= as_double(b2),
{
    lemma_float_shift_monotone(b1, b2);
    let e1 = float_shift(b1);
    let e2 = float_shift(b2);
    if e1 == e2 {
        let d = two_to(e1);
        lemma_two_to_positive(e1);
        lemma_round_half_even_monotone(b1, b2, d);
        let m1 = round_half_even(b1, d);
        let m2 = round_half_even(b2, d);
        assert(m1 * d <= m2 * d) by (nonlinear_arith)
            requires
                m1 <= m2,
        ;
    } else {
        lemma_as_double_bounds(b1);
        lemma_as_double_bounds(b2);
        lemma_two_to_grows(e1, e2);
        assert(9007199254740992 * two_to(e1) <= 4503599627370496 * two_to(e2));
    }
}

/// A double of at least 2^30 bytes is shown in GiB with no rounding: its
/// number is `m * (d / 2^30)` where `m * d` is the double.
proof fn lemma_large_double(b: nat)
    requires
        two_to(float_shift(b)) >= 1073741824,
    ensures
        two_to(float_shift(b)) % 1073741824 == 0,
        size_level(as_double(b)) == 3,
        size_thousandths(as_double(b)) == round_half_even(b, two_to(float_shift(b))) * (two_to(
            float_shift(b),
        ) / 1073741824) * 1000,
{
    let e = float_shift(b);
    let d = two_to(e);
    assert(two_to(30) == 1073741824) by {
        reveal_with_fuel(two_to, 31);
    }
    if e < 30 {
        lemma_two_to_grows(e, 30);
    }
    assert(e >= 30);
    lemma_two_to_add(30, (e - 30) as nat);
    assert(30 + (e - 30) as nat == e);
    let k = two_to((e - 30) as nat);
    assert(d == 1073741824 * k);
    vstd::arithmetic::div_mod::lemma_div_multiples_vanish(k as int, 1073741824);
    vstd::arithmetic::div_mod::lemma_mod_multiples_basic(k as int, 1073741824);
    assert(d / 1073741824 == k);
    lemma_float_shift(b);
    lemma_as_double_bounds(b);
    let m = round_half_even(b, d);
    assert(as_double(b) == m * d);
    assert(e > 0);
    assert(as_double(b) > 1073741824) by (nonlinear_arith)
        requires
            as_double(b) >= 4503599627370496 * d,
            d >= 1073741824,
    ;
    let a = m * d * 1000;
    assert(a == (m * k * 1000) * 1073741824) by (nonlinear_arith)
        requires
            a == m * d * 1000,
            d == 1073741824 * k,
    ;
    vstd::arithmetic::div_mod::lemma_div_multiples_vanish((m * k * 1000) as int, 1073741824);
    vstd::arithmetic::div_mod::lemma_mod_multiples_basic((m * k * 1000) as int, 1073741824);
}

/// A greater byte count is never shown smaller: its unit is the same or a
/// greater one (bytes, KiB, MiB, GiB), and in the same unit its number, in
/// thousandths, is the same or greater.
pub proof fn lemma_size_monotone(b1: nat, b2: nat)
    requires
        b1 <= b2,
    ensures
        size_level(as_double(b1)) <= size_level(as_double(b2)),
        size_level(as_double(b1)) == size_level(as_double(b2)) ==> size_thousandths(as_double(b1))
            <= size_thousandths(as_double(b2)),
{
    lemma_as_double_monotone(b1, b2);
    let v1 = as_double(b1);
    let v2 = as_double(b2);
    if size_level(v1) == size_level(v2) {
        lemma_round_half_even_monotone(v1 * 1000, v2 * 1000, level_divisor(size_level(v1)));
    }
}

} // verus!
