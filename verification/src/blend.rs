//! Weighted means of an old and a new value, and what they keep.

use crate::arith::{difference, product, size, sum};
use crate::binary32::{
    lemma_code_parts, lemma_mag_code, lemma_mag_next, lemma_mag_order, mag, step_of, steps_of,
    Binary32, BINADE, INFINITE, ONE,
};
use crate::config::HALF;
use crate::order::{
    lemma_near_exact, lemma_near_order, lemma_one, lemma_product, lemma_product_below,
    lemma_product_order, lemma_ratio_exact, lemma_ratio_order, lemma_sum, near, one_changes_nothing,
};
use crate::rounding::{is_floor, lemma_bit_length, lemma_one_floor, ratio, rounded};
use vstd::arithmetic::power2::{
    lemma2_to64, lemma_pow2_adds, lemma_pow2_pos, lemma_pow2_strictly_increases, lemma_pow2_unfold,
    pow2,
};
use vstd::prelude::*;
use vstd::std_specs::bits::u64_leading_zeros;

verus! {

/// One.
pub open spec fn one() -> Binary32 {
    Binary32 { bits: ONE }
}

/// Zero.
pub open spec fn zero() -> Binary32 {
    Binary32 { bits: 0 }
}

/// Whether a number lies between zero and one.
pub open spec fn is_share(x: Binary32) -> bool {
    zero().at_most(x) && x.at_most(one())
}

/// The mean of an old and a new value, `weight` being that of the old one.
pub open spec fn blended(weight: Binary32, old_value: Binary32, new_value: Binary32) -> Binary32 {
    sum(product(weight, old_value), product(difference(one(), weight), new_value))
}

/// `weight * old_value + (1 - weight) * new_value`
pub fn blend(weight: Binary32, old_value: Binary32, new_value: Binary32) -> (r: Binary32)
    ensures
        r == blended(weight, old_value, new_value),
{
    let rest = (Binary32 { bits: ONE }).minus(weight);
    weight.times(old_value).plus(rest.times(new_value))
}

/// A number between zero and one is finite, and what it lacks to one is between them too.
pub proof fn lemma_share(x: Binary32)
    requires
        is_share(x),
    ensures
        x.finite(),
        size(x) <= pow2(149),
        x.value() == size(x),
        is_share(difference(one(), x)),
        difference(one(), x).finite(),
        difference(one(), x).value() == size(difference(one(), x)),
        size(difference(one(), x)) == near((pow2(149) - size(x)) as nat),
        size(difference(one(), x)) <= pow2(149),
{
    lemma_one();
    lemma_mag_order(x.code(), ONE as nat);
    lemma_mag_order(0, x.code());
    let y = x.turned();
    assert(y.code() == x.code());
    assert(y.value() == -x.value());
    let d = difference(one(), x);
    let v = pow2(149) - size(x);
    lemma_sum(one(), y);
    lemma_near_exact(ONE as nat);
    lemma_near_exact(0);
    lemma_near_order(0, v);
    lemma_near_order(v, pow2(149) as int);
    lemma_mag_order(d.code(), ONE as nat);
    lemma_mag_order(0, d.code());
}

/// Below one, rounding moves a value by no more than half of the largest step.
pub proof fn lemma_near_error(v: nat)
    requires
        v <= pow2(149),
    ensures
        -pow2(124) <= near(v) - v <= pow2(124),
{
    lemma_one();
    let x = ratio(v, 1);
    lemma_ratio_order(v, 1, v, 1);
    if v == pow2(149) {
        lemma_ratio_exact(ONE as nat, 1);
        lemma_pow2_pos(124);
    } else {
        let c = lemma_floor_of_ratio(v, 1, ONE as nat);
        crate::arith::lemma_ratio_descends(v, 1);
        lemma_one_floor(x, c);
        lemma_mag_order(c, ONE as nat);
        lemma_code_parts(c);
        lemma_mag_next(c);
        let q = step_of(c);
        let m = crate::binary32::steps_of(c);
        assert(q <= 125) by {
            assert(c / BINADE as nat <= 126);
        }
        lemma_pow2_unfold(125);
        if q < 125 {
            lemma_pow2_strictly_increases(q, 125);
        }
        assert((m + 1) * pow2(q) == m * pow2(q) + pow2(q)) by (nonlinear_arith);
    }
}

/// What is very near to a power of two from one on rounds to it.
pub proof fn lemma_near_power(k: nat, w: nat)
    requires
        k <= 8,
        pow2(149 + k) - pow2(124 + k) <= w <= pow2(149 + k) + pow2(124 + k),
    ensures
        rounded(ratio(w, 1)) == ONE + k * BINADE,
        mag((ONE + k * BINADE) as nat) == pow2(149 + k),
        near(w) == pow2(149 + k),
{
    let x = ratio(w, 1);
    crate::arith::lemma_ratio_descends(w, 1);
    lemma_pow2_pos(124 + k);
    lemma_pow2_unfold(125 + k);
    lemma_pow2_unfold(126 + k);
    lemma2_to64();
    let c = (ONE + k * BINADE) as nat;
    lemma_mag_code(126 + k, 0x80_0000);
    lemma_pow2_adds(23, 126 + k);
    assert((126 + k) * BINADE as nat + 0x80_0000 == c) by (nonlinear_arith)
        requires
            c == ONE + k * BINADE,
            BINADE == 0x80_0000,
            ONE == 0x3f80_0000,
    ;
    assert(mag(c) == pow2(149 + k));
    lemma_mag_code(126 + k, 0x80_0001);
    assert(mag(c + 1) == pow2(149 + k) + pow2(126 + k)) by {
        assert(0x80_0001nat * pow2(126 + k) == 0x80_0000nat * pow2(126 + k) + pow2(126 + k))
            by (nonlinear_arith);
    }
    lemma_mag_code(125 + k, 0xff_ffff);
    assert((125 + k) * BINADE as nat + 0xff_ffff == c - 1) by (nonlinear_arith)
        requires
            c == ONE + k * BINADE,
            BINADE == 0x80_0000,
            ONE == 0x3f80_0000,
    ;
    assert(mag((c - 1) as nat) == pow2(149 + k) - pow2(125 + k)) by {
        lemma_pow2_adds(24, 125 + k);
        assert(0xff_ffffnat * pow2(125 + k) == 0x100_0000nat * pow2(125 + k) - pow2(125 + k))
            by (nonlinear_arith);
    }
    assert(c % 2 == 0);
    if w >= pow2(149 + k) {
        assert(x(2 * mag(c)) == 2 * w - 2 * mag(c));
        assert(x(2 * mag(c + 1)) == 2 * w - 2 * mag(c + 1));
        assert(x(mag(c) + mag(c + 1)) == 2 * w - (mag(c) + mag(c + 1)));
        assert(is_floor(x, c));
        lemma_one_floor(x, c);
    } else {
        let b = (c - 1) as nat;
        assert(x(2 * mag(b)) == 2 * w - 2 * mag(b));
        assert(x(2 * mag(b + 1)) == 2 * w - 2 * mag(b + 1));
        assert(x(mag(b) + mag(b + 1)) == 2 * w - (mag(b) + mag(b + 1)));
        assert(is_floor(x, b));
        lemma_one_floor(x, b);
    }
}

/// Both weights together make one, exactly: a value of one stays one, whatever the weight.
pub proof fn one_stays_one(weight: Binary32)
    requires
        is_share(weight),
    ensures
        blended(weight, one(), one()) == one(),
        sum(weight, difference(one(), weight)) == one(),
{
    lemma_one();
    lemma_share(weight);
    let rest = difference(one(), weight);
    one_changes_nothing(weight);
    one_changes_nothing(rest);
    lemma_near_error((pow2(149) - size(weight)) as nat);
    let w = size(weight) + size(rest);
    lemma_pow2_pos(124);
    lemma_pow2_adds(25, 124);
    lemma2_to64();
    assert(w > 0) by {
        assert(pow2(149) > pow2(124)) by (nonlinear_arith)
            requires
                pow2(149) == 0x200_0000 * pow2(124),
                pow2(124) > 0,
        ;
    }
    lemma_near_power(0, w);
}

/// A mean of values between zero and one lies between zero and one.
pub proof fn shares_stay_shares(weight: Binary32, old_value: Binary32, new_value: Binary32)
    requires
        is_share(weight),
        is_share(old_value),
        is_share(new_value),
    ensures
        is_share(blended(weight, old_value, new_value)),
{
    lemma_one();
    lemma_share(weight);
    lemma_share(old_value);
    lemma_share(new_value);
    let rest = difference(one(), weight);
    let a = product(weight, old_value);
    let b = product(rest, new_value);
    lemma_product_below(weight, old_value);
    lemma_product_below(rest, new_value);
    lemma_product(weight, old_value);
    lemma_product(rest, new_value);
    lemma_share_product(weight, old_value);
    lemma_share_product(rest, new_value);
    lemma_sum(a, b);
    lemma_sum(weight, rest);
    one_stays_one(weight);
    lemma_near_order(a.value() + b.value(), weight.value() + rest.value());
    lemma_near_order(0, a.value() + b.value());
    lemma_near_exact(0);
}

/// The product of numbers that are not below zero is not below zero.
pub proof fn lemma_share_product(x: Binary32, y: Binary32)
    requires
        x.finite(),
        y.finite(),
        x.value() >= 0,
        y.value() >= 0,
    ensures
        product(x, y).value() == size(product(x, y)),
{
    lemma_one();
    lemma_product(x, y);
    lemma_mag_order(0, x.code());
    lemma_mag_order(0, y.code());
    if x.negative() || y.negative() {
        assert(size(x) * size(y) == 0) by (nonlinear_arith)
            requires
                size(x) == 0 || size(y) == 0,
        ;
        lemma_ratio_exact(0, pow2(149));
        assert(0 * pow2(149) == 0);
    }
}

/// A mean of values that are at least one is at least one.
pub proof fn means_stay_above_one(weight: Binary32, old_value: Binary32, new_value: Binary32)
    requires
        is_share(weight),
        old_value.finite(),
        new_value.finite(),
        one().at_most(old_value),
        one().at_most(new_value),
        product(weight, old_value).finite(),
        product(difference(one(), weight), new_value).finite(),
    ensures
        one().at_most(blended(weight, old_value, new_value)),
{
    lemma_one();
    lemma_share(weight);
    let rest = difference(one(), weight);
    let a = product(weight, old_value);
    let b = product(rest, new_value);
    one_changes_nothing(weight);
    one_changes_nothing(rest);
    lemma_product_order(weight, one(), weight, old_value);
    lemma_product_order(rest, one(), rest, new_value);
    lemma_share_product(weight, old_value);
    lemma_share_product(rest, new_value);
    lemma_sum(a, b);
    lemma_sum(weight, rest);
    one_stays_one(weight);
    lemma_near_order(weight.value() + rest.value(), a.value() + b.value());
}

/// Steps do not get smaller with greater codes.
proof fn lemma_steps_grow(f: nat, top: nat)
    requires
        f < top,
    ensures
        mag(f + 1) - mag(f) <= mag(top) - mag((top - 1) as nat),
{
    let b = (top - 1) as nat;
    lemma_mag_next(f);
    lemma_mag_next(b);
    lemma_code_parts(f);
    lemma_code_parts(b);
    let q = step_of(f);
    let r = step_of(b);
    assert(f / BINADE as nat <= b / BINADE as nat) by (nonlinear_arith)
        requires
            f <= b,
            BINADE == 0x80_0000,
    ;
    if q < r {
        lemma_pow2_strictly_increases(q, r);
    }
    let m = steps_of(f);
    let n = steps_of(b);
    assert((m + 1) * pow2(q) == m * pow2(q) + pow2(q)) by (nonlinear_arith);
    assert((n + 1) * pow2(r) == n * pow2(r) + pow2(r)) by (nonlinear_arith);
}

/// Rounding lowers a quotient by no more than half of a step.
proof fn lemma_lowered_by_half_a_step(n: nat, d: nat, top: nat)
    requires
        d > 0,
        1 <= top <= INFINITE,
        n < mag(top) * d,
    ensures
        2 * n <= 2 * (mag(rounded(ratio(n, d))) * d) + (mag(top) - mag((top - 1) as nat)) * d,
{
    let x = ratio(n, d);
    crate::arith::lemma_ratio_descends(n, d);
    let f = lemma_floor_of_ratio(n, d, top);
    lemma_one_floor(x, f);
    lemma_steps_grow(f, top);
    let gap = mag(top) - mag((top - 1) as nat);
    let a = mag(f);
    let b = mag(f + 1);
    lemma_mag_order(f, f + 1);
    assert(x(a + b) == 2 * n - (a + b) * d);
    assert((a + b) * d == a * d + b * d) by (nonlinear_arith);
    assert((b - a) * d <= gap * d) by (nonlinear_arith)
        requires
            b - a <= gap,
    ;
    assert((b - a) * d == b * d - a * d) by (nonlinear_arith);
    assert(gap * d >= 0) by (nonlinear_arith)
        requires
            gap >= b - a,
            b >= a,
    ;
}

/// The floor of a quotient.
pub proof fn lemma_floor_of_ratio(n: nat, d: nat, top: nat) -> (c: nat)
    requires
        d > 0,
        top <= INFINITE,
        n < mag(top) * d,
    ensures
        c < top,
        is_floor(ratio(n, d), c),
        mag(c) * d <= n < mag(c + 1) * d,
    decreases top,
{
    lemma_one();
    if top == 0 {
        assert(0 * d == 0);
    }
    let c = (top - 1) as nat;
    let x = ratio(n, d);
    if mag(c) * d <= n {
        assert((2 * mag(c)) * d == 2 * (mag(c) * d)) by (nonlinear_arith);
        assert((2 * mag(c + 1)) * d == 2 * (mag(c + 1) * d)) by (nonlinear_arith);
        assert(x(2 * mag(c)) == 2 * n - (2 * mag(c)) * d);
        assert(x(2 * mag(c + 1)) == 2 * n - (2 * mag(c + 1)) * d);
        c
    } else {
        lemma_floor_of_ratio(n, d, c)
    }
}

/// Up to a limit, any number of steps of one size is held exactly.
pub proof fn lemma_steps_exact(n: nat, t: nat)
    requires
        n <= 0x100_0000,
        24 <= t <= 200,
    ensures
        near(n * pow2(t)) == n * pow2(t),
{
    lemma_one();
    lemma2_to64();
    let u = pow2(t);
    if n == 0 {
        lemma_near_exact(0);
        assert(0 * u == 0);
    } else if n == 0x100_0000 {
        lemma_mag_code(t + 1, 0x80_0000);
        lemma_pow2_adds(23, t + 1);
        lemma_pow2_adds(24, t);
        let c = (t + 1) * 0x80_0000nat + 0x80_0000;
        assert(mag(c) == n * u);
        lemma_near_exact(c);
    } else {
        let z = u64_leading_zeros(n as u64);
        lemma_bit_length(n as u64);
        let k = (63 - z) as nat;
        assert(k <= 23) by {
            if k > 24 {
                lemma_pow2_strictly_increases(24, k);
            }
        }
        let j = (23 - k) as nat;
        let m = n * pow2(j);
        lemma_pow2_adds(k, j);
        lemma_pow2_adds(k + 1, j);
        lemma_pow2_pos(j);
        crate::rounding::lemma_factor(pow2(k), n, pow2(j));
        crate::rounding::lemma_factor(n, pow2(k + 1), pow2(j));
        let q = (t - 23 + k) as nat;
        lemma_mag_code(q, m);
        lemma_pow2_adds(j, q);
        let c = q * 0x80_0000 + m;
        assert(m * pow2(q) == n * u) by (nonlinear_arith)
            requires
                m == n * pow2(j),
                pow2(j) * pow2(q) == u,
        ;
        lemma_near_exact(c);
    }
}

/// A weight of at least a half and what it lacks to one make one without rounding.
proof fn lemma_rest_exact(weight: Binary32)
    requires
        is_share(weight),
        weight.code() >= HALF,
    ensures
        size(difference(one(), weight)) == pow2(149) - size(weight),
{
    lemma_one();
    lemma2_to64();
    lemma_share(weight);
    lemma_mag_order(weight.code(), ONE as nat);
    lemma_pow2_adds(24, 125);
    let c = weight.code();
    let p = pow2(125);
    if c < ONE {
        let m = (c - 125 * 0x80_0000) as nat;
        lemma_mag_code(125, m);
        let n = (0x100_0000 - m) as nat;
        lemma_steps_exact(n, 125);
        assert(n * p == 0x100_0000 * p - m * p) by (nonlinear_arith)
            requires
                n == 0x100_0000 - m,
        ;
    } else {
        lemma_near_exact(0);
    }
}

/// A sum that is not half a step below a value rounds to no less than it.
proof fn lemma_not_below(v: nat, top: nat)
    requires
        1 <= top <= INFINITE,
        2 * v > 2 * mag(top) - (mag(top) - mag((top - 1) as nat)),
    ensures
        near(v) >= mag(top),
{
    lemma_one();
    if v >= mag(top) {
        lemma_near_order(mag(top) as int, v as int);
        lemma_near_exact(top);
    } else {
        let e = ratio(v, 1);
        let c = (top - 1) as nat;
        crate::arith::lemma_ratio_descends(v, 1);
        assert(e(2 * mag(c)) == 2 * v - 2 * mag(c));
        assert(e(2 * mag(c + 1)) == 2 * v - 2 * mag(c + 1));
        assert(e(mag(c) + mag(c + 1)) == 2 * v - (mag(c) + mag(c + 1)));
        lemma_mag_order(c, top);
        assert(is_floor(e, c));
        lemma_one_floor(e, c);
        assert(near(v) == mag(top));
    }
}

/// A mean with one is never below the old value, whatever the weight.
pub proof fn rises_towards_one(weight: Binary32, old_value: Binary32)
    requires
        is_share(weight),
        is_share(old_value),
    ensures
        old_value.at_most(blended(weight, old_value, one())),
{
    lemma_one();
    let x = old_value;
    lemma_share(x);
    lemma_share(weight);
    let rest = difference(one(), weight);
    let u = pow2(149);
    let a = product(weight, x);
    let b = product(rest, one());
    one_changes_nothing(rest);
    lemma_share_product(weight, x);
    lemma_product(weight, x);
    shares_stay_shares(weight, x, one());
    lemma_product_below(weight, x);
    lemma_sum(a, b);
    let r = blended(weight, x, one());
    let v = (size(a) + size(rest)) as nat;
    assert(r.value() == near(v));
    lemma_mag_order(0, x.code());
    if size(x) == 0 {
        lemma_near_order(0, v as int);
        lemma_near_exact(0);
    } else if size(x) == u {
        lemma_mag_order(x.code(), ONE as nat);
        assert(x == one());
        one_stays_one(weight);
    } else if size(weight) == u {
        lemma_mag_order(weight.code(), ONE as nat);
        assert(weight == one());
        lemma_near_exact(0);
        assert(size(rest) == 0);
        one_changes_nothing(x);
        assert(product(weight, x) == product(x, one())) by {
            assert(size(weight) * size(x) == size(x) * size(weight)) by (nonlinear_arith);
        }
        lemma_near_exact(x.code());
    } else {
        let top = x.code();
        let n = size(weight) * size(x);
        lemma_mag_order(top, ONE as nat);
        assert(n < mag(top) * u) by (nonlinear_arith)
            requires
                n == size(weight) * size(x),
                mag(top) == size(x),
                size(weight) < u,
                size(x) > 0,
        ;
        lemma_lowered_by_half_a_step(n, u, top);
        let gap = mag(top) - mag((top - 1) as nat);
        let s = size(weight) as int;
        let y = size(x) as int;
        let t = u as int;
        let p = size(a) as int;
        let q = size(rest) as int;
        let h = pow2(124) as int;
        lemma_pow2_pos(124);
        lemma_pow2_unfold(125);
        lemma2_to64();
        lemma_pow2_adds(25, 124);
        // Twice what the sum is above half a step below the value, times one.
        if weight.code() >= HALF {
            lemma_rest_exact(weight);
            assert((t - s) * (t - y) > 0) by (nonlinear_arith)
                requires
                    s < t,
                    y < t,
            ;
            assert(2 * t * (p + q) > 2 * t * y - gap * t) by (nonlinear_arith)
                requires
                    2 * (s * y) <= 2 * (p * t) + gap * t,
                    (t - s) * (t - y) > 0,
                    q == t - s,
            ;
        } else {
            lemma_near_error((u - size(weight)) as nat);
            lemma_mag_order(weight.code(), HALF as nat);
            lemma_mag_code(125, 0x80_0000);
            lemma_mag_code(125, 0xff_ffff);
            lemma_pow2_adds(23, 125);
            lemma_pow2_unfold(149);
            lemma_mag_order(top, (ONE - 1) as nat);
            assert(0xff_ffffnat * pow2(125) == 0x100_0000nat * pow2(125) - pow2(125))
                by (nonlinear_arith);
            lemma_pow2_adds(24, 125);
            assert(t - y >= 2 * h);
            assert(2 * (t - s) > t);
            assert(2 * ((t - s) * (t - y)) > t * (2 * h)) by (nonlinear_arith)
                requires
                    2 * (t - s) > t,
                    t - y >= 2 * h,
                    h > 0,
                    t > 0,
            ;
            assert(2 * t * (p + q) > 2 * t * y - gap * t) by (nonlinear_arith)
                requires
                    2 * (s * y) <= 2 * (p * t) + gap * t,
                    2 * ((t - s) * (t - y)) > t * (2 * h),
                    q >= t - s - h,
                    t > 0,
            ;
        }
        assert(2 * v > 2 * y - gap) by (nonlinear_arith)
            requires
                2 * t * v > 2 * t * y - gap * t,
                t > 0,
        ;
        lemma_not_below(v, top);
    }
}

/// A mean with zero is never above the old value, whatever the weight.
pub proof fn falls_towards_zero(weight: Binary32, old_value: Binary32)
    requires
        is_share(weight),
        is_share(old_value),
    ensures
        blended(weight, old_value, zero()).at_most(old_value),
{
    lemma_one();
    let x = old_value;
    lemma_share(x);
    lemma_share(weight);
    let rest = difference(one(), weight);
    let a = product(weight, x);
    let b = product(rest, zero());
    lemma_share_product(weight, x);
    lemma_share_product(rest, zero());
    lemma_product_below(x, weight);
    lemma_product(weight, x);
    lemma_product(x, weight);
    assert(size(weight) * size(x) == size(x) * size(weight)) by (nonlinear_arith);
    lemma_product(rest, zero());
    lemma_product_below(zero(), rest);
    lemma_product(zero(), rest);
    assert(size(rest) * size(zero()) == size(zero()) * size(rest)) by (nonlinear_arith);
    assert(size(b) == 0);
    lemma_sum(a, b);
    lemma_near_order(a.value() + b.value(), x.value());
    lemma_near_exact(x.code());
}

/// Rounding moves a quotient by no more than half of the largest step below a power of two.
pub proof fn lemma_ratio_error(n: nat, d: nat, k: nat)
    requires
        d > 0,
        k <= 8,
        n <= pow2(149 + k) * d,
    ensures
        -(pow2(124 + k) * d) <= mag(rounded(ratio(n, d))) * d - n <= pow2(124 + k) * d,
{
    lemma_one();
    let x = ratio(n, d);
    let top = (ONE + k * BINADE) as nat;
    lemma_pow2_pos(124 + k);
    lemma_near_power(k, pow2(149 + k));
    if n == pow2(149 + k) * d {
        lemma_ratio_exact(top, d);
        assert(pow2(124 + k) * d >= 0) by (nonlinear_arith)
            requires
                pow2(124 + k) > 0,
                d > 0,
        ;
    } else {
        let c = lemma_floor_of_ratio(n, d, top);
        crate::arith::lemma_ratio_descends(n, d);
        lemma_one_floor(x, c);
        lemma_code_parts(c);
        lemma_mag_next(c);
        lemma_mag_order(c, c + 1);
        let q = step_of(c);
        let m = steps_of(c);
        assert(c / BINADE as nat <= 126 + k) by (nonlinear_arith)
            requires
                c < top,
                top == ONE + k * BINADE,
                BINADE == 0x80_0000,
                ONE == 0x3f80_0000,
        ;
        assert(q <= 125 + k);
        lemma_pow2_unfold(125 + k);
        if q < 125 + k {
            lemma_pow2_strictly_increases(q, 125 + k);
        }
        assert((m + 1) * pow2(q) == m * pow2(q) + pow2(q)) by (nonlinear_arith);
        let a = mag(c);
        let b = mag(c + 1);
        let h = pow2(124 + k);
        assert(x(a + b) == 2 * n - (a + b) * d);
        assert((a + b) * d == a * d + b * d) by (nonlinear_arith);
        assert((b - a) * d <= (2 * h) * d) by (nonlinear_arith)
            requires
                b - a <= 2 * h,
        ;
        assert((b - a) * d == b * d - a * d) by (nonlinear_arith);
        assert((2 * h) * d == 2 * (h * d)) by (nonlinear_arith);
    }
}

} // verus!
