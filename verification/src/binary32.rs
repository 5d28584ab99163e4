//! IEEE 754 single-precision numbers as 32-bit patterns.
//!
//! A pattern has a sign bit, eight exponent bits and 23 fraction bits. A
//! finite pattern `x` stands for `±significand(x) · 2^exponent(x)`; the
//! magnitudes above the one of infinity are not numbers.
//!
//! The operations compute on the patterns with integers alone. Each returns
//! what the exact result rounds to, to nearest and ties to even, as the
//! standard asks of the default rounding; where the result is not a number
//! it is the one pattern `CANONICAL_NAN`, whatever the operands carried.

use vstd::prelude::*;
use vstd::arithmetic::power2::{
    pow2,
    lemma_pow2_pos,
    lemma_pow2_unfold,
    lemma_pow2_adds,
    lemma_pow2_strictly_increases,
    lemma2_to64,
    lemma2_to64_rest,
};
use vstd::arithmetic::div_mod::{lemma_basic_div, lemma_small_mod, lemma_fundamental_div_mod_converse};
use vstd::arithmetic::mul::lemma_mul_strict_inequality;

pub mod exactness;

verus! {

/// The pattern of the sign bit alone, which is also negative zero.
pub const SIGN_BIT: u32 = 0x8000_0000;

/// Positive infinity; every larger magnitude is not a number.
pub const INFINITY: u32 = 0x7f80_0000;

/// The one not-a-number pattern that the operations return.
pub const CANONICAL_NAN: u32 = 0x7fc0_0000;

/// Positive zero.
pub const ZERO: u32 = 0;

/// The number one half.
pub const HALF: u32 = 0x3f00_0000;

/// The number one.
pub const ONE: u32 = 0x3f80_0000;

/// The pattern without its sign bit.
pub open spec fn magnitude(x: u32) -> nat {
    (x % 0x8000_0000) as nat
}

/// Whether the sign bit is set.
pub open spec fn is_negative(x: u32) -> bool {
    x >= 0x8000_0000
}

/// Whether the pattern is not a number.
pub open spec fn is_nan(x: u32) -> bool {
    magnitude(x) > 0x7f80_0000
}

/// Positive or negative infinity.
pub open spec fn is_infinite(x: u32) -> bool {
    magnitude(x) == 0x7f80_0000
}

/// Whether the pattern stands for a number that is not infinite.
pub open spec fn is_finite(x: u32) -> bool {
    magnitude(x) < 0x7f80_0000
}

/// Positive or negative zero.
pub open spec fn is_zero(x: u32) -> bool {
    magnitude(x) == 0
}

/// The integer significand of a finite pattern: below `2^23` for a
/// subnormal number, in `[2^23, 2^24)` for a normal one.
pub open spec fn significand(x: u32) -> nat {
    let m = magnitude(x);
    if m < 0x80_0000 {
        m
    } else {
        (m % 0x80_0000 + 0x80_0000) as nat
    }
}

/// The power of two that scales the significand of a finite pattern.
pub open spec fn exponent(x: u32) -> int {
    let m = magnitude(x);
    if m < 0x80_0000 {
        -149
    } else {
        m / 0x80_0000 - 150
    }
}

/// The pattern with the given sign and magnitude.
pub open spec fn with_sign(negative: bool, magnitude: nat) -> u32 {
    if negative {
        (magnitude + 0x8000_0000) as u32
    } else {
        magnitude as u32
    }
}

/// `m` or `-m`.
pub open spec fn signed(negative: bool, m: nat) -> int {
    if negative {
        -(m as int)
    } else {
        m as int
    }
}

/// The position of the leading one bit of `n`; 0 for `n < 2`.
pub open spec fn floor_log2(n: nat) -> nat
    decreases n,
{
    if n < 2 {
        0
    } else {
        1 + floor_log2(n / 2)
    }
}

/// The exponent of the unit in the last place that the format gives to the
/// value `mag · 2^e`: 24 significant bits, and never finer than `2^-149`.
pub open spec fn quantum(mag: nat, e: int) -> int {
    let q = floor_log2(mag) + e - 23;
    if q < -149 {
        -149
    } else {
        q
    }
}

/// `n / 2^k` rounded to the nearest integer, a tie going to the even one.
pub open spec fn nearest_even_quotient(n: nat, k: nat) -> nat {
    let d = pow2(k);
    let q = n / d;
    let r = n % d;
    if 2 * r > d || (2 * r == d && q % 2 == 1) {
        q + 1
    } else {
        q
    }
}

/// The magnitude of the pattern nearest to `mag · 2^e`, for `mag > 0`.
///
/// The value is brought to its quantum, exactly where the quantum is
/// not coarser than `2^e` and by rounding to nearest-even otherwise. A
/// significand that rounds up to `2^24` carries into the exponent field, and
/// what lies beyond the largest finite number becomes infinity.
pub open spec fn rounded_magnitude(mag: nat, e: int) -> nat {
    let q = quantum(mag, e);
    let m = if q <= e {
        mag * pow2((e - q) as nat)
    } else {
        nearest_even_quotient(mag, (q - e) as nat)
    };
    let bits = (q + 149) * 0x80_0000 + m;
    if bits >= 0x7f80_0000 {
        0x7f80_0000
    } else {
        bits as nat
    }
}

/// The sum of two finite numbers given by sign, significand and exponent:
/// the exact sum, rounded once. An exact zero is negative only when both
/// terms are negative.
pub open spec fn finite_sum(na: bool, sa: nat, ea: int, nb: bool, sb: nat, eb: int) -> u32 {
    let e = if ea <= eb { ea } else { eb };
    let n = signed(na, sa * pow2((ea - e) as nat)) + signed(nb, sb * pow2((eb - e) as nat));
    if n == 0 {
        with_sign(na && nb, 0)
    } else if n < 0 {
        with_sign(true, rounded_magnitude((-n) as nat, e))
    } else {
        with_sign(false, rounded_magnitude(n as nat, e))
    }
}

/// The pattern with the opposite sign.
pub open spec fn neg_spec(x: u32) -> u32 {
    with_sign(!is_negative(x), magnitude(x))
}

/// Correctly rounded addition.
#[verifier::opaque]
pub open spec fn add_spec(a: u32, b: u32) -> u32 {
    if is_nan(a) || is_nan(b) {
        CANONICAL_NAN
    } else if is_infinite(a) {
        if is_infinite(b) && is_negative(a) != is_negative(b) {
            CANONICAL_NAN
        } else {
            a
        }
    } else if is_infinite(b) {
        b
    } else {
        finite_sum(
            is_negative(a),
            significand(a),
            exponent(a),
            is_negative(b),
            significand(b),
            exponent(b),
        )
    }
}

/// Correctly rounded subtraction: the sum with the negated second operand.
pub open spec fn sub_spec(a: u32, b: u32) -> u32 {
    add_spec(a, neg_spec(b))
}

/// Correctly rounded multiplication.
#[verifier::opaque]
pub open spec fn mul_spec(a: u32, b: u32) -> u32 {
    let negative = is_negative(a) != is_negative(b);
    if is_nan(a) || is_nan(b) {
        CANONICAL_NAN
    } else if is_infinite(a) || is_infinite(b) {
        if is_zero(a) || is_zero(b) {
            CANONICAL_NAN
        } else {
            with_sign(negative, 0x7f80_0000)
        }
    } else if is_zero(a) || is_zero(b) {
        with_sign(negative, 0)
    } else {
        with_sign(
            negative,
            rounded_magnitude(significand(a) * significand(b), exponent(a) + exponent(b)),
        )
    }
}

/// Correctly rounded halving: the product with one half.
pub open spec fn halve_spec(x: u32) -> u32 {
    mul_spec(x, HALF)
}

/// Where a number that is not a NaN stands in the order of the numbers; the
/// two zeros stand at the same place.
pub open spec fn order_key(x: u32) -> int {
    signed(is_negative(x), magnitude(x))
}

/// `a < b`; false where either is not a number.
#[verifier::opaque]
pub open spec fn lt_spec(a: u32, b: u32) -> bool {
    !is_nan(a) && !is_nan(b) && order_key(a) < order_key(b)
}

/// `a >= b`; false where either is not a number.
#[verifier::opaque]
pub open spec fn ge_spec(a: u32, b: u32) -> bool {
    !is_nan(a) && !is_nan(b) && order_key(a) >= order_key(b)
}

/// A number between two neighbouring powers of two has the lower one's
/// exponent as its leading bit.
pub proof fn lemma_floor_log2_between(n: nat, l: nat)
    requires
        pow2(l) <= n < pow2(l + 1),
    ensures
        floor_log2(n) == l,
    decreases l,
{
    lemma2_to64();
    if l > 0 {
        lemma_pow2_unfold(l);
        lemma_pow2_unfold(l + 1);
        lemma_floor_log2_between(n / 2, (l - 1) as nat);
    }
}

/// Powers of two grow with the exponent.
pub proof fn lemma_pow2_monotonic(i: nat, j: nat)
    requires
        i <= j,
    ensures
        pow2(i) <= pow2(j),
{
    if i < j {
        lemma_pow2_strictly_increases(i, j);
    }
}

/// `2^k` as a machine integer.
fn power_of_two(k: u32) -> (r: u64)
    requires
        k <= 62,
    ensures
        r == pow2(k as nat),
{
    let mut r: u64 = 1;
    let mut i: u32 = 0;
    proof {
        lemma2_to64();
    }
    while i < k
        invariant
            i <= k <= 62,
            r == pow2(i as nat),
        decreases k - i,
    {
        proof {
            lemma_pow2_unfold((i + 1) as nat);
            lemma_pow2_monotonic((i + 1) as nat, 62);
            lemma2_to64_rest();
        }
        r = r * 2;
        i = i + 1;
    }
    r
}

/// The position of the leading one bit.
fn leading_bit(n: u64) -> (l: u32)
    requires
        0 < n < 0x4000_0000_0000_0000,
    ensures
        l <= 61,
        pow2(l as nat) <= n < pow2((l + 1) as nat),
        l == floor_log2(n as nat),
{
    let mut l: u32 = 0;
    let mut p: u64 = 1;
    proof {
        lemma2_to64();
    }
    while p <= n / 2
        invariant
            p == pow2(l as nat),
            1 <= p <= n,
            n < 0x4000_0000_0000_0000,
            l <= 61,
        decreases n - p,
    {
        proof {
            lemma_pow2_unfold((l + 1) as nat);
            lemma2_to64_rest();
            if l + 1 > 61 {
                lemma_pow2_monotonic(62, (l + 1) as nat);
            }
        }
        p = p * 2;
        l = l + 1;
    }
    proof {
        lemma_pow2_unfold((l + 1) as nat);
        lemma_floor_log2_between(n as nat, l as nat);
    }
    l
}

/// The pattern nearest to `±mag · 2^e`.
fn round_to_bits(negative: bool, mag: u64, e: i32) -> (r: u32)
    requires
        0 < mag < 0x4000_0000_0000_0000,
        -1000 <= e <= 1000,
    ensures
        r == with_sign(negative, rounded_magnitude(mag as nat, e as int)),
{
    let l: u32 = leading_bit(mag);
    let raw: i32 = l as i32 + e - 23;
    let q: i32 = if raw < -149 { -149 } else { raw };
    let m: u64;
    if q <= e {
        let s: u32 = (e - q) as u32;
        let p: u64 = power_of_two(s);
        proof {
            lemma_pow2_adds((l + 1) as nat, s as nat);
            lemma_pow2_monotonic((l + 1 + s) as nat, 24);
            lemma_pow2_pos(s as nat);
            lemma_mul_strict_inequality(mag as int, pow2((l + 1) as nat) as int, p as int);
            lemma2_to64();
        }
        m = mag * p;
    } else {
        let k: u32 = (q - e) as u32;
        if k >= 63 {
            proof {
                lemma_pow2_monotonic(63, k as nat);
                lemma2_to64_rest();
                lemma_basic_div(mag as int, pow2(k as nat) as int);
                lemma_small_mod(mag as nat, pow2(k as nat));
            }
            m = 0;
        } else {
            let d: u64 = power_of_two(k);
            proof {
                lemma_pow2_pos(k as nat);
                lemma_pow2_monotonic(k as nat, 62);
                lemma2_to64_rest();
            }
            let quo: u64 = mag / d;
            let rem: u64 = mag % d;
            if 2 * rem > d || (2 * rem == d && quo % 2 == 1) {
                m = quo + 1;
            } else {
                m = quo;
            }
        }
    }
    let unsigned: u32 = if q + 149 >= 255 {
        proof {
            assert((q + 149) * 0x80_0000 >= 0x7f80_0000) by (nonlinear_arith)
                requires
                    q + 149 >= 255,
            ;
        }
        0x7f80_0000
    } else {
        let bits: u64 = ((q + 149) as u64) * 0x80_0000 + m;
        if bits >= 0x7f80_0000 {
            0x7f80_0000
        } else {
            bits as u32
        }
    };
    if negative {
        unsigned + 0x8000_0000
    } else {
        unsigned
    }
}

/// A term far below the last place of a normal number is absorbed when
/// added: the rounded sum is that number again.
pub proof fn lemma_far_sum(m: nat, s: nat, d: nat, e: int)
    requires
        0x80_0000 <= m < 0x100_0000,
        s < 0x100_0000,
        d >= 26,
        -149 <= e,
        e + d <= 104,
    ensures
        rounded_magnitude(m * pow2(d) + s, e) == (e + d + 149) * 0x80_0000 + m,
{
    let p = pow2(d);
    let mag = m * p + s;
    lemma2_to64();
    lemma_pow2_monotonic(26, d);
    lemma_pow2_adds(23, d);
    lemma_pow2_adds(24, d);
    assert(0x80_0000 * p <= m * p) by (nonlinear_arith)
        requires
            0x80_0000 <= m,
            p > 0,
    ;
    assert((m + 1) * p <= 0x100_0000 * p) by (nonlinear_arith)
        requires
            m + 1 <= 0x100_0000,
            p > 0,
    ;
    assert((m + 1) * p == m * p + p) by (nonlinear_arith);
    lemma_floor_log2_between(mag, 23 + d);
    lemma_fundamental_div_mod_converse(mag as int, p as int, m as int, s as int);
}

/// A term far below the last place of a normal number is absorbed when
/// subtracted: the rounded difference is that number again.
pub proof fn lemma_far_difference(m: nat, s: nat, d: nat, e: int)
    requires
        0x80_0000 <= m < 0x100_0000,
        0 < s < 0x100_0000,
        d >= 26,
        -149 <= e,
        e + d <= 104,
    ensures
        m * pow2(d) > s,
        rounded_magnitude((m * pow2(d) - s) as nat, e) == (e + d + 149) * 0x80_0000 + m,
{
    let p = pow2(d);
    lemma2_to64();
    lemma_pow2_monotonic(26, d);
    lemma_pow2_adds(23, d);
    lemma_pow2_adds(24, d);
    assert(0x80_0000 * p <= m * p) by (nonlinear_arith)
        requires
            0x80_0000 <= m,
            p > 0,
    ;
    let mag = (m * p - s) as nat;
    if m > 0x80_0000 {
        assert((m - 1) * p == m * p - p) by (nonlinear_arith);
        assert(0x80_0000 * p <= (m - 1) * p) by (nonlinear_arith)
            requires
                0x80_0000 <= m - 1,
                p > 0,
        ;
        assert(m * p <= 0x100_0000 * p) by (nonlinear_arith)
            requires
                m <= 0x100_0000,
                p > 0,
        ;
        lemma_floor_log2_between(mag, 23 + d);
        lemma_fundamental_div_mod_converse(mag as int, p as int, m - 1, p - s);
    } else {
        let h = pow2((d - 1) as nat);
        lemma_pow2_unfold(d);
        lemma_pow2_monotonic(25, (d - 1) as nat);
        lemma_pow2_adds(23, (d - 1) as nat);
        lemma_pow2_adds(24, (d - 1) as nat);
        assert(m * p == 0x100_0000 * h) by (nonlinear_arith)
            requires
                m == 0x80_0000,
                p == 2 * h,
        ;
        assert(0xff_ffff * h == 0x100_0000 * h - h) by (nonlinear_arith);
        assert(0x80_0000 * h <= 0xff_ffff * h) by (nonlinear_arith)
            requires
                h > 0,
        ;
        lemma_floor_log2_between(mag, 22 + d);
        lemma_fundamental_div_mod_converse(mag as int, h as int, 0xff_ffff, h - s);
        assert(quantum(mag, e) == e + d - 1);
        assert(nearest_even_quotient(mag, (d - 1) as nat) == 0x100_0000);
    }
}

/// Sign, significand and exponent of a finite pattern.
fn split(x: u32) -> (parts: (bool, u64, i32))
    requires
        is_finite(x),
    ensures
        parts.0 == is_negative(x),
        parts.1 == significand(x),
        parts.2 == exponent(x),
        parts.1 < 0x100_0000,
        -149 <= parts.2 <= 104,
        parts.2 > -149 ==> parts.1 >= 0x80_0000,
        magnitude(x) == (parts.2 + 149) * 0x80_0000 + parts.1,
{
    let m: u32 = x % 0x8000_0000;
    let negative: bool = x >= 0x8000_0000;
    if m < 0x80_0000 {
        (negative, m as u64, -149)
    } else {
        (negative, (m % 0x80_0000 + 0x80_0000) as u64, (m / 0x80_0000) as i32 - 150)
    }
}

/// The sum of two finite numbers, the first with the larger exponent.
fn add_finite(na: bool, sa: u64, ea: i32, nb: bool, sb: u64, eb: i32) -> (r: u32)
    requires
        sa < 0x100_0000,
        sb < 0x100_0000,
        -149 <= eb <= ea <= 104,
        ea > -149 ==> sa >= 0x80_0000,
    ensures
        r == finite_sum(na, sa as nat, ea as int, nb, sb as nat, eb as int),
{
    let d: u32 = (ea - eb) as u32;
    let ghost ta: int = signed(na, sa as nat * pow2(d as nat));
    let ghost tb: int = signed(nb, sb as nat);
    proof {
        lemma2_to64();
        lemma_pow2_pos(d as nat);
        assert(sb as nat * pow2(0) == sb) by (nonlinear_arith)
            requires
                pow2(0) == 1,
        ;
        assert(finite_sum(na, sa as nat, ea as int, nb, sb as nat, eb as int) == if ta + tb == 0 {
            with_sign(na && nb, 0)
        } else if ta + tb < 0 {
            with_sign(true, rounded_magnitude((-(ta + tb)) as nat, eb as int))
        } else {
            with_sign(false, rounded_magnitude((ta + tb) as nat, eb as int))
        });
    }
    if d <= 30 {
        let p: u64 = power_of_two(d);
        proof {
            lemma_pow2_monotonic(d as nat, 30);
            assert(sa * p < 0x100_0000 * 0x4000_0000) by (nonlinear_arith)
                requires
                    sa < 0x100_0000,
                    p <= 0x4000_0000,
            ;
        }
        let big: u64 = sa * p;
        if na == nb {
            let mag: u64 = big + sb;
            if mag == 0 {
                if na {
                    0x8000_0000
                } else {
                    0
                }
            } else {
                round_to_bits(na, mag, eb)
            }
        } else if big > sb {
            round_to_bits(na, big - sb, eb)
        } else if big < sb {
            round_to_bits(nb, sb - big, eb)
        } else {
            0
        }
    } else {
        proof {
            let m = sa as nat;
            let p = pow2(d as nat);
            lemma_far_sum(m, sb as nat, d as nat, eb as int);
            lemma_far_difference(m, 1, d as nat, eb as int);
            if sb > 0 {
                lemma_far_difference(m, sb as nat, d as nat, eb as int);
            }
            assert(m * p > sb);
            if na == nb {
                assert(ta + tb == signed(na, m * p + sb as nat));
            } else {
                assert(ta + tb == signed(na, (m * p - sb) as nat));
            }
        }
        let unsigned: u32 = ((ea + 149) as u32) * 0x80_0000 + (sa as u32);
        if na {
            unsigned + 0x8000_0000
        } else {
            unsigned
        }
    }
}

/// The sum `a + b`, rounded to nearest, ties to even.
pub fn add(a: u32, b: u32) -> (r: u32)
    ensures
        r == add_spec(a, b),
{
    reveal(add_spec);
    let ma: u32 = a % 0x8000_0000;
    let mb: u32 = b % 0x8000_0000;
    if ma > 0x7f80_0000 || mb > 0x7f80_0000 {
        return CANONICAL_NAN;
    }
    if ma == 0x7f80_0000 {
        if mb == 0x7f80_0000 && (a >= 0x8000_0000) != (b >= 0x8000_0000) {
            return CANONICAL_NAN;
        }
        return a;
    }
    if mb == 0x7f80_0000 {
        return b;
    }
    let (na, sa, ea) = split(a);
    let (nb, sb, eb) = split(b);
    if ea >= eb {
        add_finite(na, sa, ea, nb, sb, eb)
    } else {
        add_finite(nb, sb, eb, na, sa, ea)
    }
}

/// The same number with the opposite sign; a NaN stays a NaN.
pub fn neg(x: u32) -> (r: u32)
    ensures
        r == neg_spec(x),
{
    if x >= 0x8000_0000 {
        x - 0x8000_0000
    } else {
        x + 0x8000_0000
    }
}

/// The difference `a - b`, rounded to nearest, ties to even.
pub fn sub(a: u32, b: u32) -> (r: u32)
    ensures
        r == sub_spec(a, b),
{
    self::add(a, neg(b))
}

/// The product `a * b`, rounded to nearest, ties to even.
pub fn mul(a: u32, b: u32) -> (r: u32)
    ensures
        r == mul_spec(a, b),
{
    reveal(mul_spec);
    let ma: u32 = a % 0x8000_0000;
    let mb: u32 = b % 0x8000_0000;
    let negative: bool = (a >= 0x8000_0000) != (b >= 0x8000_0000);
    if ma > 0x7f80_0000 || mb > 0x7f80_0000 {
        return CANONICAL_NAN;
    }
    if ma == 0x7f80_0000 || mb == 0x7f80_0000 {
        if ma == 0 || mb == 0 {
            return CANONICAL_NAN;
        }
        return if negative { 0xff80_0000 } else { 0x7f80_0000 };
    }
    if ma == 0 || mb == 0 {
        return if negative { 0x8000_0000 } else { 0 };
    }
    let (na, sa, ea) = split(a);
    let (nb, sb, eb) = split(b);
    proof {
        assert(sa * sb < 0x100_0000 * 0x100_0000) by (nonlinear_arith)
            requires
                sa < 0x100_0000,
                sb < 0x100_0000,
        ;
        assert(sa * sb > 0) by (nonlinear_arith)
            requires
                sa > 0,
                sb > 0,
        ;
    }
    round_to_bits(negative, sa * sb, ea + eb)
}

/// Half of `x`, rounded to nearest, ties to even.
pub fn halve(x: u32) -> (r: u32)
    ensures
        r == halve_spec(x),
{
    self::mul(x, HALF)
}

/// Whether `a < b`.
pub fn lt(a: u32, b: u32) -> (r: bool)
    ensures
        r == lt_spec(a, b),
{
    reveal(lt_spec);
    let ma: u32 = a % 0x8000_0000;
    let mb: u32 = b % 0x8000_0000;
    if ma > 0x7f80_0000 || mb > 0x7f80_0000 {
        return false;
    }
    let na: bool = a >= 0x8000_0000;
    let nb: bool = b >= 0x8000_0000;
    if na {
        if nb {
            ma > mb
        } else {
            ma > 0 || mb > 0
        }
    } else {
        if nb {
            false
        } else {
            ma < mb
        }
    }
}

/// Whether `a >= b`.
pub fn ge(a: u32, b: u32) -> (r: bool)
    ensures
        r == ge_spec(a, b),
{
    reveal(lt_spec);
    reveal(ge_spec);
    let ma: u32 = a % 0x8000_0000;
    let mb: u32 = b % 0x8000_0000;
    if ma > 0x7f80_0000 || mb > 0x7f80_0000 {
        return false;
    }
    !lt(a, b)
}

/// Whether `x` is positive or negative zero.
pub fn is_zero_value(x: u32) -> (r: bool)
    ensures
        r == is_zero(x),
{
    x % 0x8000_0000 == 0
}

} // verus!
