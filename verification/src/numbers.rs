//! Decimal and hexadecimal renderings of numbers, and reading decimals back.

use vstd::prelude::*;
use vstd::string::*;
use crate::text;

verus! {

/// The character for the digit `d` in base ten.
pub open spec fn digit_char(d: int) -> char {
    ((48 + d) as u32) as char
}

/// The decimal rendering of `n`, without leading zeros.
pub open spec fn decimal(n: nat) -> Seq<char>
    decreases n,
{
    if n < 10 {
        seq![digit_char(n as int)]
    } else {
        decimal(n / 10).push(digit_char((n % 10) as int))
    }
}

fn digit_of(d: u64) -> (c: char)
    requires
        d < 10,
    ensures
        c == digit_char(d as int),
{
    match d {
        0 => '0',
        1 => '1',
        2 => '2',
        3 => '3',
        4 => '4',
        5 => '5',
        6 => '6',
        7 => '7',
        8 => '8',
        _ => '9',
    }
}

/// The decimal rendering of `n`.
pub fn decimal_of(n: u64) -> (r: String)
    ensures
        r@ == decimal(n as nat),
    decreases n,
{
    if n < 10 {
        let mut out: String = String::new();
        out.push(digit_of(n));
        proof {
            assert(out@ =~= decimal(n as nat));
        }
        out
    } else {
        let mut out: String = decimal_of(n / 10);
        out.push(digit_of(n % 10));
        out
    }
}

/// The lower-case character for the digit `d` in base sixteen.
pub open spec fn hex_char(d: int) -> char {
    if d < 10 {
        ((48 + d) as u32) as char
    } else {
        ((87 + d) as u32) as char
    }
}

/// `b` as two hexadecimal digits.
pub open spec fn hex_byte(b: u8) -> Seq<char> {
    seq![hex_char((b / 16) as int), hex_char((b % 16) as int)]
}

fn hex_digit_of(d: u8) -> (c: char)
    requires
        d < 16,
    ensures
        c == hex_char(d as int),
{
    match d {
        0 => '0',
        1 => '1',
        2 => '2',
        3 => '3',
        4 => '4',
        5 => '5',
        6 => '6',
        7 => '7',
        8 => '8',
        9 => '9',
        10 => 'a',
        11 => 'b',
        12 => 'c',
        13 => 'd',
        14 => 'e',
        _ => 'f',
    }
}

/// Appends `b` to `out` as two hexadecimal digits.
pub fn push_hex_byte(out: &mut String, b: u8)
    ensures
        final(out)@ == old(out)@ + hex_byte(b),
{
    out.push(hex_digit_of(b / 16));
    out.push(hex_digit_of(b % 16));
    proof {
        assert(out@ =~= old(out)@ + hex_byte(b));
    }
}

/// Whether the first `n` characters of `s` are decimal digits.
pub open spec fn digits_upto(s: Seq<char>, n: int) -> bool {
    forall|i: int| 0 <= i < n ==> text::is_digit(#[trigger] s[i])
}

/// The value of the first `n` characters of `s` read as decimal digits.
pub open spec fn digits_value(s: Seq<char>, n: int) -> int
    decreases n,
{
    if n <= 0 {
        0
    } else {
        10 * digits_value(s, n - 1) + (s[n - 1] as int - '0' as int)
    }
}

/// The number that `s` spells: an optional plus sign, then one or more decimal
/// digits, with a value of at most `max`. Anything else spells no number.
pub open spec fn spelled_number(s: Seq<char>, max: int) -> Option<int> {
    let body = if s.len() > 0 && s[0] == '+' {
        s.drop_first()
    } else {
        s
    };
    let n = body.len() as int;
    if n > 0 && digits_upto(body, n) && digits_value(body, n) <= max {
        Some(digits_value(body, n))
    } else {
        None
    }
}

/// More digits spell no smaller number.
pub proof fn lemma_digits_value_grows(s: Seq<char>, m: int, n: int)
    requires
        0 <= m <= n <= s.len(),
        digits_upto(s, n),
    ensures
        0 <= digits_value(s, m) <= digits_value(s, n),
    decreases n,
{
    if n > 0 {
        assert(text::is_digit(s[n - 1]));
        if m < n {
            lemma_digits_value_grows(s, m, n - 1);
        } else {
            lemma_digits_value_grows(s, m - 1, n - 1);
        }
    }
}

/// Reads a decimal number of at most `max`.
pub fn parse_number(s: &str, max: u32) -> (r: Option<u32>)
    ensures
        match r {
            Some(v) => spelled_number(s@, max as int) == Some(v as int),
            None => spelled_number(s@, max as int) is None,
        },
{
    let plus: bool = match text::first_char(s) {
        Some(c) => c == '+',
        None => false,
    };
    let body = if plus {
        text::skip_chars(s, 1)
    } else {
        s
    };
    let ghost b = body@;
    proof {
        if plus {
            assert(s@.skip(1) =~= s@.drop_first());
        }
    }
    let cs: Vec<char> = text::chars_of(body);
    if cs.len() == 0 {
        return None;
    }
    let mut value: u64 = 0;
    let mut i: usize = 0;
    while i < cs.len()
        invariant
            i <= cs@.len(),
            cs@ == b,
            b.len() > 0,
            b == (if s@.len() > 0 && s@[0] == '+' {
                s@.drop_first()
            } else {
                s@
            }),
            digits_upto(b, i as int),
            value == digits_value(b, i as int),
            value <= max,
        decreases cs.len() - i,
    {
        let c: char = cs[i];
        if !text::is_ascii_digit(c) {
            return None;
        }
        let d: u64 = (c as u32 - 48) as u64;
        value = 10 * value + d;
        i = i + 1;
        if value > max as u64 {
            proof {
                if digits_upto(b, b.len() as int) {
                    lemma_digits_value_grows(b, i as int, b.len() as int);
                }
            }
            return None;
        }
    }
    Some(value as u32)
}

/// The largest number that is at most `a / b`.
pub fn floor_div(a: i128, b: i128) -> (r: i128)
    requires
        b > 0,
        -0x1_0000_0000_0000_0000_0000 <= a <= 0x1_0000_0000_0000_0000_0000,
        b <= 0x1_0000_0000_0000,
    ensures
        r == a as int / b as int,
{
    if a >= 0 {
        a / b
    } else {
        let q: i128 = (b - 1 - a) / b;
        proof {
            let n = a as int;
            let d = b as int;
            let m = q as int;
            assert((d - 1 - n) / d == -(n / d)) by (nonlinear_arith)
                requires
                    d > 0,
            ;
        }
        -q
    }
}

/// A decimal rendering is digits that spell the number, and has no leading sign.
pub proof fn lemma_decimal_spells(n: nat)
    ensures
        decimal(n).len() > 0,
        digits_upto(decimal(n), decimal(n).len() as int),
        digits_value(decimal(n), decimal(n).len() as int) == n,
    decreases n,
{
    let s = decimal(n);
    let k = s.len() as int;
    if n < 10 {
        let c = digit_char(n as int);
        assert(s[0] == c && k == 1);
        assert(c as int == 48 + n);
        assert(digits_value(s, 1) == 10 * digits_value(s, 0) + (s[0] as int - '0' as int));
    } else {
        lemma_decimal_spells(n / 10);
        let t = decimal(n / 10);
        let c = digit_char((n % 10) as int);
        assert(s =~= t.push(c));
        assert(c as int == 48 + n % 10);
        assert forall|i: int| 0 <= i < k implies text::is_digit(#[trigger] s[i]) by {
            if i < k - 1 {
                assert(s[i] == t[i]);
            }
        }
        lemma_same_digits(t, s, k - 1);
        assert(digits_value(s, k) == 10 * digits_value(s, k - 1) + (s[k - 1] as int
            - '0' as int));
    }
}

proof fn lemma_same_digits(a: Seq<char>, b: Seq<char>, n: int)
    requires
        0 <= n <= a.len(),
        n <= b.len(),
        forall|i: int| 0 <= i < n ==> a[i] == b[i],
    ensures
        digits_value(a, n) == digits_value(b, n),
    decreases n,
{
    if n > 0 {
        lemma_same_digits(a, b, n - 1);
    }
}

// ---------------------------------------------------------------------------
// Products of wide numbers
// ---------------------------------------------------------------------------

/// The number of values of 64 bits.
pub const HALF: u128 = 0x1_0000_0000_0000_0000;

/// A product of two wide numbers: its upper and its lower 128 bits.
fn wide_product(a: u128, b: u128) -> (r: (u128, u128))
    ensures
        a * b == r.0 * (HALF * HALF) + r.1,
{
    let a1: u128 = a / HALF;
    let a0: u128 = a % HALF;
    let b1: u128 = b / HALF;
    let b0: u128 = b % HALF;
    proof {
        lemma_limb_product(a1 as int, b1 as int);
        lemma_limb_product(a1 as int, b0 as int);
        lemma_limb_product(a0 as int, b1 as int);
        lemma_limb_product(a0 as int, b0 as int);
    }
    let high: u128 = a1 * b1;
    let m1: u128 = a1 * b0;
    let m2: u128 = a0 * b1;
    let low: u128 = a0 * b0;
    let t: u128 = low / HALF + m1 % HALF + m2 % HALF;
    let ghost h = HALF as int;
    let ghost top: int = high + m1 / HALF + m2 / HALF + t / HALF;
    let ghost rest: int = (t % HALF) * HALF + low % HALF;
    proof {
        lemma_wide_product(
            a as int,
            b as int,
            a1 as int,
            a0 as int,
            b1 as int,
            b0 as int,
            h,
        );
        assert(a * b == top * (h * h) + rest);
        assert(top < h * h) by {
            lemma_product_bound(a as int, b as int, h * h);
            assert(top * (h * h) < (h * h) * (h * h)) by {
                assert(rest >= 0);
            }
            assert(top < h * h) by (nonlinear_arith)
                requires
                    top * (h * h) < (h * h) * (h * h),
                    h * h > 0,
            ;
        }
    }
    (high + m1 / HALF + m2 / HALF + t / HALF, (t % HALF) * HALF + low % HALF)
}

proof fn lemma_limb_product(x: int, y: int)
    requires
        0 <= x < 0x1_0000_0000_0000_0000,
        0 <= y < 0x1_0000_0000_0000_0000,
    ensures
        0 <= x * y < 0x1_0000_0000_0000_0000 * 0x1_0000_0000_0000_0000,
{
    assert(0 <= x * y < 0x1_0000_0000_0000_0000 * 0x1_0000_0000_0000_0000) by (nonlinear_arith)
        requires
            0 <= x < 0x1_0000_0000_0000_0000,
            0 <= y < 0x1_0000_0000_0000_0000,
    ;
}

proof fn lemma_product_bound(x: int, y: int, n: int)
    requires
        0 <= x < n,
        0 <= y < n,
    ensures
        0 <= x * y < n * n,
{
    assert(0 <= x * y < n * n) by (nonlinear_arith)
        requires
            0 <= x < n,
            0 <= y < n,
    ;
}

proof fn lemma_wide_product(a: int, b: int, a1: int, a0: int, b1: int, b0: int, h: int)
    requires
        h > 0,
        a == a1 * h + a0,
        b == b1 * h + b0,
    ensures
        ({
            let m1 = a1 * b0;
            let m2 = a0 * b1;
            let low = a0 * b0;
            let t = low / h + m1 % h + m2 % h;
            a * b == (a1 * b1 + m1 / h + m2 / h + t / h) * (h * h) + ((t % h) * h + low % h)
        }),
{
    let m1 = a1 * b0;
    let m2 = a0 * b1;
    let low = a0 * b0;
    let high = a1 * b1;
    let t = low / h + m1 % h + m2 % h;
    vstd::arithmetic::div_mod::lemma_fundamental_div_mod(m1, h);
    vstd::arithmetic::div_mod::lemma_fundamental_div_mod(m2, h);
    vstd::arithmetic::div_mod::lemma_fundamental_div_mod(low, h);
    vstd::arithmetic::div_mod::lemma_fundamental_div_mod(t, h);
    assert(a * b == a1 * h * b + a0 * b) by (nonlinear_arith)
        requires
            a == a1 * h + a0,
    ;
    assert(a0 * b == a0 * b1 * h + a0 * b0) by (nonlinear_arith)
        requires
            b == b1 * h + b0,
    ;
    assert(a1 * h * b == a1 * b1 * (h * h) + a1 * b0 * h) by (nonlinear_arith)
        requires
            b == b1 * h + b0,
    ;
    assert((m1 + m2) * h == m1 * h + m2 * h) by (nonlinear_arith);
    assert(a * b == high * (h * h) + (m1 + m2) * h + low);
    let (u1, v1) = (m1 / h, m1 % h);
    let (u2, v2) = (m2 / h, m2 % h);
    let (ul, vl) = (low / h, low % h);
    let (ut, vt) = (t / h, t % h);
    assert((m1 + m2) * h + low == (u1 + u2) * (h * h) + (v1 + v2 + ul) * h + vl)
        by (nonlinear_arith)
        requires
            m1 == h * u1 + v1,
            m2 == h * u2 + v2,
            low == h * ul + vl,
    ;
    assert((v1 + v2 + ul) * h == ut * (h * h) + vt * h) by (nonlinear_arith)
        requires
            v1 + v2 + ul == h * ut + vt,
    ;
    assert((high + u1 + u2 + ut) * (h * h) == high * (h * h) + (u1 + u2) * (h * h) + ut * (h * h))
        by (nonlinear_arith);
}

/// Whether `a * b` is larger than `c * d`.
pub fn product_exceeds(a: u128, b: u128, c: u128, d: u128) -> (r: bool)
    ensures
        r == (a * b > c * d),
{
    let x: (u128, u128) = wide_product(a, b);
    let y: (u128, u128) = wide_product(c, d);
    proof {
        let n = HALF as int * HALF as int;
        let (xh, xl) = (x.0 as int, x.1 as int);
        let (yh, yl) = (y.0 as int, y.1 as int);
        if xh > yh {
            assert(xh * n >= yh * n + n) by (nonlinear_arith)
                requires
                    xh >= yh + 1,
                    n > 0,
            ;
        } else if xh < yh {
            assert(yh * n >= xh * n + n) by (nonlinear_arith)
                requires
                    yh >= xh + 1,
                    n > 0,
            ;
        }
    }
    x.0 > y.0 || (x.0 == y.0 && x.1 > y.1)
}

} // verus!
