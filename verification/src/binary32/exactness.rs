//! The numbers behind the patterns, and when a sum is exact.
//!
//! Every finite single-precision number is a whole multiple of `2^-149`, so
//! the numbers are handled here as integers: `scaled_value` counts those
//! units. Rounding depends on the number alone, not on the way it is written
//! as significand and exponent, and a number that the format holds rounds
//! to itself.

use vstd::prelude::*;
use vstd::arithmetic::power2::{
    pow2,
    lemma_pow2_pos,
    lemma_pow2_unfold,
    lemma_pow2_adds,
    lemma2_to64,
};
use vstd::arithmetic::div_mod::{
    lemma_div_multiples_vanish_quotient,
    lemma_fundamental_div_mod,
    lemma_fundamental_div_mod_converse,
    lemma_mod_bound,
    lemma_truncate_middle,
};
use crate::binary32::{
    ZERO,
    add_spec,
    is_zero,
    mul_spec,
    exponent,
    finite_sum,
    floor_log2,
    is_finite,
    is_negative,
    lemma_floor_log2_between,
    lemma_pow2_monotonic,
    magnitude,
    nearest_even_quotient,
    neg_spec,
    quantum,
    rounded_magnitude,
    signed,
    significand,
    with_sign,
};

verus! {

/// The number that a finite pattern stands for, counted in units of
/// `2^-149`.
pub open spec fn scaled_value(x: u32) -> int {
    signed(is_negative(x), significand(x) * pow2((exponent(x) + 149) as nat))
}

/// A positive number lies between the power of two of its leading bit and
/// the next one.
pub proof fn lemma_floor_log2_bounds(n: nat)
    requires
        n > 0,
    ensures
        pow2(floor_log2(n)) <= n < pow2(floor_log2(n) + 1),
    decreases n,
{
    lemma2_to64();
    if n >= 2 {
        lemma_floor_log2_bounds(n / 2);
        lemma_pow2_unfold(floor_log2(n));
        lemma_pow2_unfold(floor_log2(n) + 1);
    }
}

/// Doubling a number `j` times raises its leading bit by `j`.
pub proof fn lemma_floor_log2_scales(n: nat, j: nat)
    requires
        n > 0,
    ensures
        floor_log2(n * pow2(j)) == floor_log2(n) + j,
{
    let l = floor_log2(n);
    let s = pow2(j);
    lemma_floor_log2_bounds(n);
    lemma_pow2_adds(l, j);
    lemma_pow2_adds(l + 1, j);
    lemma_pow2_pos(j);
    assert(pow2(l) * s <= n * s) by (nonlinear_arith)
        requires
            pow2(l) <= n,
            s > 0,
    ;
    assert(n * s < pow2(l + 1) * s) by (nonlinear_arith)
        requires
            n < pow2(l + 1),
            s > 0,
    ;
    lemma_floor_log2_between(n * s, l + j);
}

/// A common factor `2^j` of dividend and divisor does not change the
/// rounded quotient.
pub proof fn lemma_nearest_even_quotient_scales(n: nat, j: nat, k: nat)
    ensures
        nearest_even_quotient(n * pow2(j), k + j) == nearest_even_quotient(n, k),
{
    let d = pow2(k);
    let s = pow2(j);
    lemma_pow2_pos(k);
    lemma_pow2_pos(j);
    lemma_pow2_adds(k, j);
    lemma_truncate_middle(n as int, s as int, d as int);
    lemma_div_multiples_vanish_quotient(s as int, n as int, d as int);
    assert(n * s == s * n && d * s == s * d) by (nonlinear_arith);
    let r = n % d;
    assert((n * s) % (d * s) == s * r);
    assert((n * s) / (d * s) == n / d);
    assert((2 * (s * r) > s * d) == (2 * r > d)) by (nonlinear_arith)
        requires
            s > 0,
    ;
    assert((2 * (s * r) == s * d) == (2 * r == d)) by (nonlinear_arith)
        requires
            s > 0,
    ;
}

/// A whole multiple of the divisor is divided without rounding.
pub proof fn lemma_nearest_even_quotient_of_multiple(n: nat, k: nat)
    ensures
        nearest_even_quotient(n * pow2(k), k) == n,
{
    lemma_pow2_pos(k);
    lemma_fundamental_div_mod_converse((n * pow2(k)) as int, pow2(k) as int, n as int, 0);
}

/// Rounding goes by the number, not by the way it is written: `mag · 2^j`
/// at the exponent `e` and `mag` at the exponent `e + j` round alike.
pub proof fn lemma_rounding_scales(mag: nat, j: nat, e: int)
    requires
        mag > 0,
    ensures
        rounded_magnitude(mag * pow2(j), e) == rounded_magnitude(mag, e + j),
{
    lemma_floor_log2_scales(mag, j);
    lemma_pow2_pos(j);
    let q = quantum(mag, e + j);
    assert(quantum(mag * pow2(j), e) == q);
    if q <= e {
        lemma_pow2_adds(j, (e - q) as nat);
        assert((mag * pow2(j)) * pow2((e - q) as nat) == mag * (pow2(j) * pow2((e - q) as nat)))
            by (nonlinear_arith);
    } else if q <= e + j {
        let up = (e + j - q) as nat;
        let down = (q - e) as nat;
        lemma_pow2_adds(up, down);
        assert(mag * pow2(j) == (mag * pow2(up)) * pow2(down)) by (nonlinear_arith)
            requires
                pow2(j) == pow2(up) * pow2(down),
        ;
        lemma_nearest_even_quotient_of_multiple(mag * pow2(up), down);
    } else {
        lemma_nearest_even_quotient_scales(mag, j, (q - e - j) as nat);
    }
}

/// A number that the format holds rounds to itself.
pub proof fn lemma_pattern_rounds_to_itself(x: u32)
    requires
        is_finite(x),
        magnitude(x) > 0,
    ensures
        rounded_magnitude(significand(x), exponent(x)) == magnitude(x),
{
    let m = significand(x);
    let e = exponent(x);
    lemma2_to64();
    if magnitude(x) < 0x80_0000 {
        lemma_floor_log2_bounds(m);
        if floor_log2(m) >= 23 {
            lemma_pow2_monotonic(23, floor_log2(m));
        }
        assert(quantum(m, e) == -149);
    } else {
        lemma_floor_log2_between(m, 23);
        assert(quantum(m, e) == e);
    }
    assert(m * pow2(0) == m) by (nonlinear_arith)
        requires
            pow2(0) == 1,
    ;
}

/// The pattern made of a sign, a quantum and a significand that fits the
/// quantum has these as its sign, exponent and significand.
pub proof fn lemma_packed_fields(negative: bool, m: nat, q: int)
    requires
        -149 <= q <= 104,
        m < 0x100_0000,
        q > -149 ==> m >= 0x80_0000,
    ensures
        ({
            let x = with_sign(negative, ((q + 149) * 0x80_0000 + m) as nat);
            &&& is_finite(x)
            &&& magnitude(x) == (q + 149) * 0x80_0000 + m
            &&& (is_negative(x) == negative)
            &&& significand(x) == m
            &&& exponent(x) == q
        }),
{
    let bits = ((q + 149) * 0x80_0000 + m) as nat;
    let x = with_sign(negative, bits);
    assert(bits < 0x7f80_0000);
    assert(magnitude(x) == bits);
    if bits >= 0x80_0000 {
        if m >= 0x80_0000 {
            lemma_fundamental_div_mod_converse(
                bits as int,
                0x80_0000,
                q + 150,
                m - 0x80_0000,
            );
        } else {
            lemma_fundamental_div_mod_converse(bits as int, 0x80_0000, q + 149, m as int);
        }
    }
}

/// The opposite pattern stands for the opposite number.
pub proof fn lemma_neg_value(x: u32)
    ensures
        scaled_value(neg_spec(x)) == -scaled_value(x),
        is_finite(neg_spec(x)) == is_finite(x),
{
}

/// The sum of two finite numbers goes by their numbers: it is their exact
/// sum, rounded once.
pub proof fn lemma_sum_goes_by_value(a: u32, b: u32)
    requires
        is_finite(a),
        is_finite(b),
        scaled_value(a) + scaled_value(b) != 0,
    ensures
        ({
            let sum = scaled_value(a) + scaled_value(b);
            add_spec(a, b) == if sum < 0 {
                with_sign(true, rounded_magnitude((-sum) as nat, -149))
            } else {
                with_sign(false, rounded_magnitude(sum as nat, -149))
            }
        }),
{
    reveal(add_spec);
    let n = lemma_sum_in_common_units(a, b);
    let e = if exponent(a) <= exponent(b) {
        exponent(a)
    } else {
        exponent(b)
    };
    let up = (e + 149) as nat;
    lemma_pow2_pos(up);
    let sum = scaled_value(a) + scaled_value(b);
    assert((n < 0) == (sum < 0) && (n == 0) == (sum == 0)) by (nonlinear_arith)
        requires
            sum == n * pow2(up),
            pow2(up) > 0,
    ;
    if n < 0 {
        assert((-sum) as nat == ((-n) as nat) * pow2(up)) by (nonlinear_arith)
            requires
                sum == n * pow2(up),
                n < 0,
                pow2(up) > 0,
        ;
        lemma_rounding_scales((-n) as nat, up, -149);
    } else {
        assert(sum as nat == (n as nat) * pow2(up)) by (nonlinear_arith)
            requires
                sum == n * pow2(up),
                n > 0,
                pow2(up) > 0,
        ;
        lemma_rounding_scales(n as nat, up, -149);
    }
}

/// The exact sum of two finite numbers in units of the finer of their two
/// last places: the integer that `finite_sum` rounds.
proof fn lemma_sum_in_common_units(a: u32, b: u32) -> (n: int)
    requires
        is_finite(a),
        is_finite(b),
    ensures
        ({
            let e = if exponent(a) <= exponent(b) {
                exponent(a)
            } else {
                exponent(b)
            };
            &&& n == signed(is_negative(a), significand(a) * pow2((exponent(a) - e) as nat))
                + signed(is_negative(b), significand(b) * pow2((exponent(b) - e) as nat))
            &&& scaled_value(a) + scaled_value(b) == n * pow2((e + 149) as nat)
        }),
{
    let e = if exponent(a) <= exponent(b) {
        exponent(a)
    } else {
        exponent(b)
    };
    let up = (e + 149) as nat;
    let da = (exponent(a) - e) as nat;
    let db = (exponent(b) - e) as nat;
    lemma_pow2_adds(da, up);
    lemma_pow2_adds(db, up);
    let ta = signed(is_negative(a), significand(a) * pow2(da));
    let tb = signed(is_negative(b), significand(b) * pow2(db));
    assert(scaled_value(a) == ta * pow2(up)) by (nonlinear_arith)
        requires
            scaled_value(a) == signed(is_negative(a), significand(a) * (pow2(da) * pow2(up))),
            ta == signed(is_negative(a), significand(a) * pow2(da)),
    ;
    assert(scaled_value(b) == tb * pow2(up)) by (nonlinear_arith)
        requires
            scaled_value(b) == signed(is_negative(b), significand(b) * (pow2(db) * pow2(up))),
            tb == signed(is_negative(b), significand(b) * pow2(db)),
    ;
    assert((ta + tb) * pow2(up) == ta * pow2(up) + tb * pow2(up)) by (nonlinear_arith);
    ta + tb
}

/// Whether the sum of `a` and `b` is exact: all three are finite, and the
/// number of the sum is the sum of the numbers.
pub open spec fn is_exact_sum(a: u32, b: u32) -> bool {
    &&& is_finite(a)
    &&& is_finite(b)
    &&& is_finite(add_spec(a, b))
    &&& scaled_value(add_spec(a, b)) == scaled_value(a) + scaled_value(b)
}

/// The grid of a finite pattern: the exponent of its last place, counted
/// from `2^-149`.
pub open spec fn grid(x: u32) -> nat {
    (exponent(x) + 149) as nat
}

/// A sum is exact where it needs no more than 24 bits above the finer of
/// the two last places.
pub proof fn lemma_sum_on_grid_is_exact(a: u32, b: u32)
    requires
        is_finite(a),
        is_finite(b),
        ({
            let sum = scaled_value(a) + scaled_value(b);
            let finer = if grid(a) <= grid(b) {
                grid(a)
            } else {
                grid(b)
            };
            -pow2(finer + 24) < sum < pow2(finer + 24)
        }),
    ensures
        is_exact_sum(a, b),
{
    reveal(add_spec);
    lemma2_to64();
    let n = lemma_sum_in_common_units(a, b);
    let e = if exponent(a) <= exponent(b) {
        exponent(a)
    } else {
        exponent(b)
    };
    let up = (e + 149) as nat;
    let sum = scaled_value(a) + scaled_value(b);
    lemma_pow2_pos(up);
    lemma_pow2_adds(up, 24);
    let both_negative = is_negative(a) && is_negative(b);
    if n == 0 {
        assert(sum == 0) by (nonlinear_arith)
            requires
                sum == n * pow2(up),
                n == 0,
        ;
        assert(add_spec(a, b) == with_sign(both_negative, 0));
        lemma_packed_fields(both_negative, 0, -149);
        assert(0 * pow2(0) == 0) by (nonlinear_arith);
    } else {
        let negative = n < 0;
        let mag = if n < 0 {
            (-n) as nat
        } else {
            n as nat
        };
        assert(mag < 0x100_0000 && signed(negative, mag * pow2(up)) == sum) by (nonlinear_arith)
            requires
                sum == n * pow2(up),
                -(pow2(up) * 0x100_0000) < sum < pow2(up) * 0x100_0000,
                pow2(up) > 0,
                mag == if n < 0 {
                    -n
                } else {
                    n
                },
                negative == (n < 0),
        ;
        lemma_floor_log2_bounds(mag);
        let l = floor_log2(mag);
        if l >= 24 {
            lemma_pow2_monotonic(24, l);
        }
        let q = quantum(mag, e);
        let shift = (e - q) as nat;
        let m = mag * pow2(shift);
        lemma_pow2_pos(shift);
        lemma_pow2_adds(l, shift);
        lemma_pow2_adds(l + 1, shift);
        lemma_pow2_monotonic(l + 1 + shift, 24);
        assert(pow2(l) * pow2(shift) <= m < pow2(l + 1) * pow2(shift)) by (nonlinear_arith)
            requires
                pow2(l) <= mag < pow2(l + 1),
                pow2(shift) > 0,
                m == mag * pow2(shift),
        ;
        if q > -149 {
            assert(l + shift == 23);
        }
        lemma_packed_fields(negative, m, q);
        assert(add_spec(a, b) == with_sign(negative, ((q + 149) * 0x80_0000 + m) as nat));
        lemma_pow2_adds(shift, (q + 149) as nat);
        assert(m * pow2((q + 149) as nat) == mag * pow2(up)) by (nonlinear_arith)
            requires
                m == mag * pow2(shift),
                pow2(up) == pow2(shift) * pow2((q + 149) as nat),
        ;
    }
}

/// The rounded quotient is a nearest integer: it misses `n / 2^k` by no
/// more than a half.
pub proof fn lemma_nearest_even_quotient_is_nearest(n: nat, k: nat)
    ensures
        ({
            let d = pow2(k) as int;
            let nearest = nearest_even_quotient(n, k) as int;
            -d <= 2 * (n - nearest * d) <= d
        }),
{
    let d = pow2(k) as int;
    lemma_pow2_pos(k);
    lemma_fundamental_div_mod(n as int, d);
    lemma_mod_bound(n as int, d);
    let q = n as int / d;
    let r = n as int % d;
    assert((q + 1) * d == q * d + d) by (nonlinear_arith);
    assert(d * q == q * d) by (nonlinear_arith);
}

/// A pattern is its magnitude with its sign.
pub proof fn lemma_sign_and_magnitude(x: u32)
    ensures
        x == with_sign(is_negative(x), magnitude(x)),
{
}

/// The order of the terms does not matter to a sum.
pub proof fn lemma_add_commutes(a: u32, b: u32)
    ensures
        add_spec(a, b) == add_spec(b, a),
{
    reveal(add_spec);
    lemma_sign_and_magnitude(a);
    lemma_sign_and_magnitude(b);
    if is_finite(a) && is_finite(b) {
        assert(finite_sum(
            is_negative(a),
            significand(a),
            exponent(a),
            is_negative(b),
            significand(b),
            exponent(b),
        ) == finite_sum(
            is_negative(b),
            significand(b),
            exponent(b),
            is_negative(a),
            significand(a),
            exponent(a),
        ));
    }
}

/// The order of the factors does not matter to a product.
pub proof fn lemma_mul_commutes(a: u32, b: u32)
    ensures
        mul_spec(a, b) == mul_spec(b, a),
{
    reveal(mul_spec);
    assert(significand(a) * significand(b) == significand(b) * significand(a))
        by (nonlinear_arith);
}

/// Adding zero to a finite number that is not zero gives the number.
pub proof fn lemma_add_zero(x: u32)
    requires
        is_finite(x),
        !is_zero(x),
    ensures
        add_spec(x, ZERO) == x,
        add_spec(ZERO, x) == x,
{
    lemma_add_commutes(x, ZERO);
    lemma_sign_and_magnitude(x);
    let m = significand(x);
    let up = (exponent(x) + 149) as nat;
    lemma_pow2_pos(up);
    assert(m > 0);
    assert(m * pow2(up) > 0) by (nonlinear_arith)
        requires
            m > 0,
            pow2(up) > 0,
    ;
    assert(scaled_value(ZERO) == 0) by {
        assert(significand(ZERO) == 0);
        assert(0 * pow2((exponent(ZERO) + 149) as nat) == 0) by (nonlinear_arith);
    }
    lemma_sum_goes_by_value(x, ZERO);
    lemma_rounding_scales(m, up, -149);
    lemma_pattern_rounds_to_itself(x);
}

} // verus!
