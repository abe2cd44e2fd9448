//! How near the results of rounded arithmetic are to exact quotients.

use crate::arith::{count, difference, product, quotient, size};
use crate::binary32::{
    lemma_code_parts, lemma_mag_code, lemma_mag_next, lemma_mag_order, mag, step_of, steps_of,
    Binary32, BINADE, INFINITE, ONE,
};
use crate::blend::{
    blended, is_share, lemma_floor_of_ratio, lemma_near_error, lemma_near_power, lemma_ratio_error,
    lemma_share, lemma_share_product, one, shares_stay_shares,
};
use crate::order::{
    lemma_near_exact, lemma_near_order, lemma_one, lemma_product, lemma_product_below,
    lemma_quotient, lemma_ratio_exact, lemma_ratio_order, lemma_signed, lemma_sum, near,
};
use crate::rounding::{lemma_one_floor, ratio, rounded};
use crate::spectral_mask::between;
use vstd::arithmetic::power2::{
    lemma2_to64, lemma2_to64_rest, lemma_pow2_adds, lemma_pow2_pos, lemma_pow2_strictly_increases,
    pow2,
};
use vstd::prelude::*;

verus! {

/// How many parts a whole has where relative errors are counted: 2 to the power of 24.
pub const PARTS: u32 = 0x100_0000;

/// Whether a value is the quotient `n / d`, but for `k` of the parts of it.
pub open spec fn approx(v: int, n: int, d: int, k: int) -> bool {
    n * (PARTS - k) <= (v * d) * PARTS <= n * (PARTS + k)
}

/// Rounding moves a quotient by no more than one of its parts, where it is not too small and
/// not too great for that.
pub proof fn lemma_rounded_approx(n: nat, d: nat)
    requires
        d > 0,
        pow2(23) * d <= n <= pow2(276) * d,
    ensures
        approx(mag(rounded(ratio(n, d))) as int, n as int, d as int, 1),
        rounded(ratio(n, d)) < INFINITE,
{
    lemma_one();
    lemma2_to64();
    let x = ratio(n, d);
    let high = 0x7f00_0000nat;
    lemma_mag_code(253, 0x80_0000);
    lemma_pow2_adds(23, 253);
    assert(mag(high) == pow2(276));
    lemma_mag_code(254, 0x80_0000);
    lemma_pow2_adds(23, 254);
    lemma_pow2_strictly_increases(276, 277);
    assert(n * d <= (pow2(276) * d) * d) by (nonlinear_arith)
        requires
            n <= pow2(276) * d,
            d > 0,
    ;
    lemma_ratio_order(n, d, pow2(276) * d, d);
    lemma_ratio_exact(high, d);
    assert(n < mag(INFINITE as nat) * d) by (nonlinear_arith)
        requires
            n <= pow2(276) * d,
            pow2(276) < mag(INFINITE as nat),
            d > 0,
    ;
    let c = lemma_floor_of_ratio(n, d, INFINITE as nat);
    crate::arith::lemma_ratio_descends(n, d);
    lemma_one_floor(x, c);
    lemma_mag_code(0, 0x80_0000);
    assert(c >= BINADE) by {
        if c < BINADE {
            lemma_mag_order(c + 1, BINADE as nat);
            assert(mag(c + 1) * d <= pow2(23) * d) by (nonlinear_arith)
                requires
                    mag(c + 1) <= pow2(23),
                    d > 0,
            ;
        }
    }
    lemma_code_parts(c);
    lemma_mag_next(c);
    let q = step_of(c);
    let m = steps_of(c);
    let p = pow2(q);
    let a = mag(c);
    let b = mag(c + 1);
    assert((m + 1) * p == m * p + p) by (nonlinear_arith);
    assert(m >= 0x80_0000);
    assert(a >= 0x80_0000 * p) by (nonlinear_arith)
        requires
            a == m * p,
            m >= 0x80_0000,
    ;
    assert(0x80_0000 * (p * d) <= n) by (nonlinear_arith)
        requires
            a * d <= n,
            a >= 0x80_0000 * p,
            d > 0,
    ;
    assert(x(a + b) == 2 * n - (a + b) * d);
    assert((a + b) * d == a * d + b * d) by (nonlinear_arith);
    assert(b * d == a * d + p * d) by (nonlinear_arith)
        requires
            b == a + p,
    ;
    let r = mag(rounded(x)) * d;
    assert(2 * (r - n) <= p * d && 2 * (n - r) <= p * d);
}

/// What approximates an approximation approximates what that stands for.
pub proof fn lemma_approx_chain(q: int, a: int, b: int, n: int, d: int, j: int, k: int)
    requires
        approx(q, a, b, j),
        n * b * (PARTS - k) <= (a * d) * PARTS <= n * b * (PARTS + k),
        q >= 0,
        a >= 0,
        b > 0,
        n >= 0,
        d > 0,
        0 <= j <= 1000,
        0 <= k <= 1000,
    ensures
        approx(q, n, d, j + k + 1),
{
    let t = PARTS as int;
    // Both inequalities times what the other one lacks.
    assert((a * (t - j)) * d * t <= ((q * b) * t) * d * t) by (nonlinear_arith)
        requires
            a * (t - j) <= (q * b) * t,
            d > 0,
            t > 0,
    ;
    assert(((q * b) * t) * d * t <= (a * (t + j)) * d * t) by (nonlinear_arith)
        requires
            (q * b) * t <= a * (t + j),
            d > 0,
            t > 0,
    ;
    assert((a * (t - j)) * d * t == ((a * d) * t) * (t - j)) by (nonlinear_arith);
    assert((a * (t + j)) * d * t == ((a * d) * t) * (t + j)) by (nonlinear_arith);
    assert(((n * b) * (t - k)) * (t - j) <= ((a * d) * t) * (t - j)) by (nonlinear_arith)
        requires
            n * b * (t - k) <= (a * d) * t,
            t - j >= 0,
    ;
    assert(((a * d) * t) * (t + j) <= ((n * b) * (t + k)) * (t + j)) by (nonlinear_arith)
        requires
            (a * d) * t <= n * b * (t + k),
            t + j >= 0,
    ;
    let s = j + k + 1;
    assert((t - k) * (t - j) >= t * (t - s)) by (nonlinear_arith)
        requires
            s == j + k + 1,
            j >= 0,
            k >= 0,
            t > 0,
    ;
    assert((t + k) * (t + j) <= t * (t + s)) by (nonlinear_arith)
        requires
            s == j + k + 1,
            0 <= j <= 1000,
            0 <= k <= 1000,
            t == 0x100_0000,
    ;
    let w = n * b;
    assert(w >= 0) by (nonlinear_arith)
        requires
            w == n * b,
            n >= 0,
            b > 0,
    ;
    assert((w * (t - k)) * (t - j) >= w * (t * (t - s))) by (nonlinear_arith)
        requires
            w >= 0,
            (t - k) * (t - j) >= t * (t - s),
    ;
    assert((w * (t + k)) * (t + j) <= w * (t * (t + s))) by (nonlinear_arith)
        requires
            w >= 0,
            (t + k) * (t + j) <= t * (t + s),
    ;
    assert(w * (t * (t - s)) == (n * (t - s)) * (b * t)) by (nonlinear_arith)
        requires
            w == n * b,
    ;
    assert(w * (t * (t + s)) == (n * (t + s)) * (b * t)) by (nonlinear_arith)
        requires
            w == n * b,
    ;
    assert(((q * b) * t) * d * t == ((q * d) * t) * (b * t)) by (nonlinear_arith);
    let e = b * t;
    assert(e > 0) by (nonlinear_arith)
        requires
            e == b * t,
            b > 0,
            t > 0,
    ;
    assert(n * (t - s) <= (q * d) * t) by (nonlinear_arith)
        requires
            (n * (t - s)) * e <= ((q * d) * t) * e,
            e > 0,
    ;
    assert((q * d) * t <= n * (t + s)) by (nonlinear_arith)
        requires
            ((q * d) * t) * e <= (n * (t + s)) * e,
            e > 0,
    ;
}

/// A common factor of numerator and denominator changes nothing.
pub proof fn lemma_approx_cancel(v: int, n: int, d: int, c: int, k: int)
    requires
        approx(v, n * c, d * c, k),
        c > 0,
    ensures
        approx(v, n, d, k),
{
    let t = PARTS as int;
    assert((n * c) * (t - k) == (n * (t - k)) * c) by (nonlinear_arith);
    assert((n * c) * (t + k) == (n * (t + k)) * c) by (nonlinear_arith);
    assert((v * (d * c)) * t == ((v * d) * t) * c) by (nonlinear_arith);
    assert(n * (t - k) <= (v * d) * t) by (nonlinear_arith)
        requires
            (n * (t - k)) * c <= ((v * d) * t) * c,
            c > 0,
    ;
    assert((v * d) * t <= n * (t + k)) by (nonlinear_arith)
        requires
            ((v * d) * t) * c <= (n * (t + k)) * c,
            c > 0,
    ;
}

/// The product of two approximations approximates the product.
pub proof fn lemma_approx_times(
    v: int,
    n: int,
    d: int,
    j: int,
    w: int,
    m: int,
    e: int,
    k: int,
)
    requires
        approx(v, n, d, j),
        approx(w, m, e, k),
        v >= 0,
        w >= 0,
        n >= 0,
        m >= 0,
        d > 0,
        e > 0,
        0 <= j <= 1000,
        0 <= k <= 1000,
    ensures
        approx(v * w, n * m, d * e, j + k + 1),
{
    let t = PARTS as int;
    let x = v * d;
    let y = w * e;
    assert(x >= 0 && y >= 0) by (nonlinear_arith)
        requires
            x == v * d,
            y == w * e,
            v >= 0,
            w >= 0,
            d > 0,
            e > 0,
    ;
    assert((n * (t - j)) * (m * (t - k)) <= (x * t) * (y * t)) by (nonlinear_arith)
        requires
            0 <= n * (t - j) <= x * t,
            0 <= m * (t - k) <= y * t,
    ;
    assert((x * t) * (y * t) <= (n * (t + j)) * (m * (t + k))) by (nonlinear_arith)
        requires
            0 <= x * t <= n * (t + j),
            0 <= y * t <= m * (t + k),
    ;
    let s = j + k + 1;
    assert((t - k) * (t - j) >= t * (t - s)) by (nonlinear_arith)
        requires
            s == j + k + 1,
            j >= 0,
            k >= 0,
            t > 0,
    ;
    assert((t + k) * (t + j) <= t * (t + s)) by (nonlinear_arith)
        requires
            s == j + k + 1,
            0 <= j <= 1000,
            0 <= k <= 1000,
            t == 0x100_0000,
    ;
    let z = n * m;
    assert(z >= 0) by (nonlinear_arith)
        requires
            z == n * m,
            n >= 0,
            m >= 0,
    ;
    assert((n * (t - j)) * (m * (t - k)) == z * ((t - k) * (t - j))) by (nonlinear_arith)
        requires
            z == n * m,
    ;
    assert((n * (t + j)) * (m * (t + k)) == z * ((t + k) * (t + j))) by (nonlinear_arith)
        requires
            z == n * m,
    ;
    assert(z * ((t - k) * (t - j)) >= z * (t * (t - s))) by (nonlinear_arith)
        requires
            z >= 0,
            (t - k) * (t - j) >= t * (t - s),
    ;
    assert(z * ((t + k) * (t + j)) <= z * (t * (t + s))) by (nonlinear_arith)
        requires
            z >= 0,
            (t + k) * (t + j) <= t * (t + s),
    ;
    assert((x * t) * (y * t) == (((v * w) * (d * e)) * t) * t) by (nonlinear_arith)
        requires
            x == v * d,
            y == w * e,
    ;
    assert(z * (t * (t - s)) == (z * (t - s)) * t) by (nonlinear_arith);
    assert(z * (t * (t + s)) == (z * (t + s)) * t) by (nonlinear_arith);
    let u = ((v * w) * (d * e)) * t;
    assert(z * (t - s) <= u) by (nonlinear_arith)
        requires
            (z * (t - s)) * t <= u * t,
            t > 0,
    ;
    assert(u <= z * (t + s)) by (nonlinear_arith)
        requires
            u * t <= (z * (t + s)) * t,
            t > 0,
    ;
}

/// A count is itself, but for one part.
pub proof fn approx_count(n: nat)
    requires
        1 <= n <= usize::MAX,
    ensures
        approx(count(n).value(), (n * pow2(149)) as int, 1, 1),
        count(n).finite(),
        count(n).value() == size(count(n)),
        pow2(149) <= count(n).value() <= pow2(213),
{
    lemma_one();
    lemma2_to64();
    lemma2_to64_rest();
    let u = pow2(149);
    lemma_pow2_adds(64, 149);
    lemma_pow2_strictly_increases(23, 149);
    lemma_pow2_strictly_increases(213, 276);
    assert(u <= n * u <= pow2(64) * u) by (nonlinear_arith)
        requires
            1 <= n <= pow2(64),
    ;
    lemma_rounded_approx(n * u, 1);
    lemma_signed(false, rounded(ratio(n * u, 1)));
    lemma_mag_code(190, 0x80_0000);
    lemma_pow2_adds(23, 190);
    let c = 190 * 0x80_0000nat + 0x80_0000;
    lemma_ratio_order(n * u, 1, mag(c), 1);
    lemma_ratio_exact(c, 1);
    lemma_ratio_order(mag(ONE as nat), 1, n * u, 1);
    lemma_ratio_exact(ONE as nat, 1);
    lemma_mag_order(rounded(ratio(n * u, 1)), c);
    lemma_mag_order(ONE as nat, rounded(ratio(n * u, 1)));
}

/// The product of two numbers that approximate quotients.
pub proof fn approx_product(
    x: Binary32,
    n: int,
    d: int,
    j: int,
    y: Binary32,
    m: int,
    e: int,
    k: int,
)
    requires
        x.finite(),
        y.finite(),
        x.value() >= 0,
        y.value() >= 0,
        pow2(23) * pow2(149) <= x.value() * y.value() <= pow2(276) * pow2(149),
        approx(x.value(), n, d, j),
        approx(y.value(), m, e, k),
        n >= 0,
        m >= 0,
        d > 0,
        e > 0,
        0 <= j <= 400,
        0 <= k <= 400,
    ensures
        product(x, y).finite(),
        product(x, y).value() >= 0,
        approx(product(x, y).value(), x.value() * y.value(), pow2(149) as int, 1),
        approx(product(x, y).value(), n * m, (d * e) * pow2(149), j + k + 3),
{
    lemma_one();
    let u = pow2(149) as int;
    lemma_mag_order(0, x.code());
    lemma_mag_order(0, y.code());
    assert(size(x) == x.value() && size(y) == y.value());
    lemma_product(x, y);
    lemma_share_product(x, y);
    lemma_rounded_approx(size(x) * size(y), pow2(149));
    let a = x.value() * y.value();
    lemma_approx_times(x.value(), n, d, j, y.value(), m, e, k);
    let q = product(x, y).value();
    let s = j + k + 1;
    let t = PARTS as int;
    assert(n * m >= 0) by (nonlinear_arith)
        requires
            n >= 0,
            m >= 0,
    ;
    assert(d * e > 0) by (nonlinear_arith)
        requires
            d > 0,
            e > 0,
    ;
    let g = n * m;
    let h = d * e;
    assert(h * u > 0) by (nonlinear_arith)
        requires
            h > 0,
            u > 0,
    ;
    assert(g * u * (t - s) <= (a * (h * u)) * t) by (nonlinear_arith)
        requires
            g * (t - s) <= (a * h) * t,
            u > 0,
    ;
    assert((a * (h * u)) * t <= g * u * (t + s)) by (nonlinear_arith)
        requires
            (a * h) * t <= g * (t + s),
            u > 0,
    ;
    lemma_approx_chain(q, a, u, g, h * u, 1, s);
}

/// The quotient of two numbers that approximate quotients.
pub proof fn approx_quotient(
    x: Binary32,
    n: int,
    d: int,
    j: int,
    y: Binary32,
    m: int,
    e: int,
    k: int,
)
    requires
        x.finite(),
        y.finite(),
        x.value() >= 0,
        y.value() > 0,
        pow2(23) * y.value() <= x.value() * pow2(149) <= pow2(276) * y.value(),
        approx(x.value(), n, d, j),
        approx(y.value(), m, e, k),
        n >= 0,
        m > 0,
        d > 0,
        e > 0,
        0 <= j <= 400,
        0 <= k <= 400,
    ensures
        quotient(x, y).finite(),
        quotient(x, y).value() >= 0,
        approx(quotient(x, y).value(), x.value() * pow2(149), y.value(), 1),
        approx(quotient(x, y).value(), (n * e) * pow2(149), d * m, j + k + 4),
{
    lemma_one();
    let u = pow2(149) as int;
    lemma_mag_order(0, x.code());
    lemma_mag_order(0, y.code());
    lemma_mag_order(x.code(), INFINITE as nat);
    assert(size(x) == x.value() && size(y) == y.value());
    lemma_quotient(x, y);
    lemma_rounded_approx(size(x) * pow2(149), size(y));
    let q = quotient(x, y).value();
    lemma_mag_order(0, quotient(x, y).code());
    assert(quotient(x, y).value() == size(quotient(x, y))) by {
        if size(x) == 0 {
            lemma_ratio_exact(0, size(y));
            assert(0 * pow2(149) == 0);
            assert(0 * size(y) == 0);
        }
    }
    let t = PARTS as int;
    let v = x.value();
    let w = y.value();
    let a = v * u;
    let p = (n * e) * u;
    let r = d * m;
    let s = j + k + 2;
    assert(a >= 0 && n * e >= 0 && p >= 0 && r > 0) by (nonlinear_arith)
        requires
            a == v * u,
            p == (n * e) * u,
            r == d * m,
            v >= 0,
            u > 0,
            n >= 0,
            e > 0,
            d > 0,
            m > 0,
    ;
    // p * w * (t - s) <= a * r * t <= p * w * (t + s)
    lemma_cross(v, n, d, j, w, m, e, k);
    let f = (n * e) * w;
    let g = v * (d * m);
    assert(p * w * (t - s) == (f * (t - s)) * u) by (nonlinear_arith)
        requires
            p == (n * e) * u,
            f == (n * e) * w,
    ;
    assert(p * w * (t + s) == (f * (t + s)) * u) by (nonlinear_arith)
        requires
            p == (n * e) * u,
            f == (n * e) * w,
    ;
    assert((a * r) * t == (g * t) * u) by (nonlinear_arith)
        requires
            a == v * u,
            r == d * m,
            g == v * (d * m),
    ;
    assert((f * (t - s)) * u <= (g * t) * u) by (nonlinear_arith)
        requires
            f * (t - s) <= g * t,
            u > 0,
    ;
    assert((g * t) * u <= (f * (t + s)) * u) by (nonlinear_arith)
        requires
            g * t <= f * (t + s),
            u > 0,
    ;
    lemma_approx_chain(q, a, w, p, r, 1, s);
}

/// The exact quotient of two approximations.
proof fn lemma_cross(v: int, n: int, d: int, j: int, w: int, m: int, e: int, k: int)
    requires
        approx(v, n, d, j),
        approx(w, m, e, k),
        v >= 0,
        w > 0,
        n >= 0,
        m > 0,
        d > 0,
        e > 0,
        0 <= j <= 400,
        0 <= k <= 400,
    ensures
        ((n * e) * w) * (PARTS - (j + k + 2)) <= (v * (d * m)) * PARTS <= ((n * e) * w) * (PARTS
            + (j + k + 2)),
{
    let t = PARTS as int;
    let s = j + k + 2;
    let x = v * d;
    let y = w * e;
    assert(x >= 0 && y > 0) by (nonlinear_arith)
        requires
            x == v * d,
            y == w * e,
            v >= 0,
            w > 0,
            d > 0,
            e > 0,
    ;
    // n (t - j) <= x t <= n (t + j) and m (t - k) <= y t <= m (t + k)
    let f = n * y;
    let g = x * m;
    assert((n * e) * w == f) by (nonlinear_arith)
        requires
            f == n * y,
            y == w * e,
    ;
    assert(v * (d * m) == g) by (nonlinear_arith)
        requires
            g == x * m,
            x == v * d,
    ;
    assert(f >= 0 && g >= 0) by (nonlinear_arith)
        requires
            f == n * y,
            g == x * m,
            n >= 0,
            y > 0,
            x >= 0,
            m > 0,
    ;
    assert((f * t) * (t - j) <= (g * t) * (t + k)) by (nonlinear_arith)
        requires
            f == n * y,
            g == x * m,
            n * (t - j) <= x * t,
            y * t <= m * (t + k),
            n >= 0,
            x >= 0,
            y > 0,
            t - j >= 0,
            t + k >= 0,
            t > 0,
    ;
    assert((g * t) * (t - k) <= (f * t) * (t + j)) by (nonlinear_arith)
        requires
            f == n * y,
            g == x * m,
            x * t <= n * (t + j),
            m * (t - k) <= y * t,
            n >= 0,
            x >= 0,
            y > 0,
            m > 0,
            t - k >= 0,
            t + j >= 0,
            t > 0,
    ;
    assert(f * (t - s) <= g * t) by {
        assert((t - s) * (t + k) <= t * (t - j)) by (nonlinear_arith)
            requires
                s == j + k + 2,
                j >= 0,
                k >= 0,
                t > 0,
        ;
        assert((f * (t - s)) * (t + k) <= (f * t) * (t - j)) by (nonlinear_arith)
            requires
                f >= 0,
                (t - s) * (t + k) <= t * (t - j),
        ;
        assert(f * (t - s) <= g * t) by (nonlinear_arith)
            requires
                (f * (t - s)) * (t + k) <= (g * t) * (t + k),
                t + k > 0,
        ;
    }
    assert(g * t <= f * (t + s)) by {
        assert(t * (t + j) <= (t + s) * (t - k)) by (nonlinear_arith)
            requires
                s == j + k + 2,
                0 <= j <= 400,
                0 <= k <= 400,
                t == 0x100_0000,
        ;
        assert((f * t) * (t + j) <= (f * (t + s)) * (t - k)) by (nonlinear_arith)
            requires
                f >= 0,
                t * (t + j) <= (t + s) * (t - k),
        ;
        assert(g * t <= f * (t + s)) by (nonlinear_arith)
            requires
                (g * t) * (t - k) <= (f * (t + s)) * (t - k),
                t - k > 0,
        ;
    }
}

/// A mean of numbers between zero and one is the exact mean, but for 2 to the power of -23.
pub proof fn blend_near_mean(weight: Binary32, x: Binary32, y: Binary32)
    requires
        is_share(weight),
        is_share(x),
        is_share(y),
    ensures
        ({
            let u = pow2(149);
            let s = weight.value();
            let exact = s * x.value() + (u - s) * y.value();
            -(pow2(126) * u) <= blended(weight, x, y).value() * u - exact <= pow2(126) * u
        }),
{
    lemma_one();
    lemma2_to64();
    lemma_share(weight);
    lemma_share(x);
    lemma_share(y);
    shares_stay_shares(weight, x, y);
    let rest = difference(one(), weight);
    let a = product(weight, x);
    let b = product(rest, y);
    lemma_product(weight, x);
    lemma_product(rest, y);
    lemma_product_below(weight, x);
    lemma_product_below(rest, y);
    lemma_share_product(weight, x);
    lemma_share_product(rest, y);
    lemma_sum(a, b);
    lemma_pow2_adds(2, 124);
    lemma_pow2_pos(124);
    let u = pow2(149);
    let e = pow2(124) as int;
    let s = size(weight);
    let q = size(rest);
    assert(s * size(x) <= u * u) by (nonlinear_arith)
        requires
            s <= u,
            size(x) <= u,
    ;
    assert(q * size(y) <= u * u) by (nonlinear_arith)
        requires
            q <= u,
            size(y) <= u,
    ;
    lemma_ratio_error(s * size(x), u, 0);
    lemma_ratio_error(q * size(y), u, 0);
    lemma_near_error((u - s) as nat);
    let v = size(a) + size(b);
    if v <= u {
        lemma_ratio_error(v, 1, 0);
    } else {
        lemma_near_power(0, v);
    }
    let r = blended(weight, x, y);
    lemma_share(r);
    assert(r.value() == near(v));
    assert(-e <= r.value() - v <= e);
    assert(-(e * u) <= r.value() * u - v * u <= e * u) by (nonlinear_arith)
        requires
            -e <= r.value() - v <= e,
            u > 0,
    ;
    assert(v * u == size(a) * u + size(b) * u) by (nonlinear_arith)
        requires
            v == size(a) + size(b),
    ;
    let t = (q - (u - s)) as int;
    let w = size(y) as int;
    assert(-(e * u) <= q * size(y) - (u - s) * size(y) <= e * u) by (nonlinear_arith)
        requires
            t == q - (u - s),
            w == size(y),
            -e <= t <= e,
            0 <= w <= u,
            e >= 0,
    ;
    assert((4 * e) * u == 4 * (e * u)) by (nonlinear_arith);
}

/// What lies between one and a number between zero and one, at a share of the way, is where it
/// should be, but for 2 to the power of -23.
pub proof fn between_near_exact(b: Binary32, t: Binary32)
    requires
        is_share(b),
        is_share(t),
    ensures
        ({
            let u = pow2(149);
            let exact = u * u - t.value() * (u - b.value());
            -(pow2(126) * u) <= between(one(), b, t).value() * u - exact <= pow2(126) * u
        }),
        is_share(between(one(), b, t)),
{
    lemma_one();
    lemma2_to64();
    lemma_share(b);
    lemma_share(t);
    let m = one().turned();
    assert(m.value() == -one().value());
    let d = difference(b, one());
    let u = pow2(149);
    let e = pow2(124) as int;
    lemma_pow2_adds(2, 124);
    lemma_pow2_pos(124);
    lemma_sum(b, m);
    lemma_near_order(b.value() + m.value(), 0);
    lemma_near_exact(0);
    lemma_near_order(m.value(), b.value() + m.value());
    lemma_near_exact(ONE as nat);
    let gap = (u - size(b)) as nat;
    lemma_near_error(gap);
    lemma_mag_order(0, d.code());
    assert(d.value() == -(near(gap) as int));
    assert(size(d) == near(gap));
    assert(size(d) <= u);
    lemma_mag_order(d.code(), ONE as nat);
    assert(d.finite());
    let p = product(t, d);
    lemma_product(t, d);
    lemma_product_below(t, d);
    assert(size(t) * size(d) <= u * u) by (nonlinear_arith)
        requires
            size(t) <= u,
            size(d) <= u,
    ;
    lemma_ratio_error(size(t) * size(d), u, 0);
    lemma_mag_order(0, p.code());
    assert(p.value() == -(size(p) as int)) by {
        if size(p) > 0 {
            lemma_mag_order(0, t.code());
            if size(t) == 0 || size(d) == 0 {
                assert(size(t) * size(d) == 0) by (nonlinear_arith)
                    requires
                        size(t) == 0 || size(d) == 0,
                ;
                lemma_ratio_exact(0, u);
                assert(0 * u == 0);
            }
        }
    }
    let left = (u - size(p)) as nat;
    lemma_sum(one(), p);
    lemma_near_error(left);
    lemma_near_order(0, left as int);
    lemma_near_order(left as int, u as int);
    let r = between(one(), b, t);
    assert(r.value() == near(left));
    assert(-e <= r.value() - (u - size(p)) <= e);
    assert(-(e * u) <= r.value() * u - (u - size(p)) * u <= e * u) by (nonlinear_arith)
        requires
            -e <= r.value() - (u - size(p)) <= e,
            u > 0,
    ;
    assert((u - size(p)) * u == u * u - size(p) * u) by (nonlinear_arith);
    let g = size(d) - gap;
    let w = size(t) as int;
    assert(-(e * u) <= size(t) * size(d) - size(t) * gap <= e * u) by (nonlinear_arith)
        requires
            g == size(d) - gap,
            w == size(t),
            -e <= g <= e,
            0 <= w <= u,
            e >= 0,
    ;
    assert(e * u >= 0) by (nonlinear_arith)
        requires
            e >= 0,
            u > 0,
    ;
    assert((4 * e) * u == 4 * (e * u)) by (nonlinear_arith);
}

} // verus!
