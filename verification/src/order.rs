//! Rounding keeps the order of exact results, and keeps what is a binary32 number already.

use crate::arith::{difference, lemma_ratio_descends, product, quotient, signed, size, sum, whole};
use crate::binary32::{lemma_mag_code, lemma_mag_order, mag, Binary32, INFINITE, ONE};
use crate::rounding::{descends, is_floor, lemma_factor, lemma_one_floor, ratio, rounded, Exact};
use vstd::arithmetic::power2::{lemma2_to64, lemma_pow2_adds, lemma_pow2_pos, pow2};
use vstd::prelude::*;

verus! {

/// Whether one exact result is not above another.
pub open spec fn not_above(x: Exact, y: Exact) -> bool {
    forall|v: nat|
        (#[trigger] x(v) >= 0 ==> y(v) >= 0) && (x(v) > 0 ==> y(v) > 0)
}

/// Every exact result has a floor.
proof fn lemma_floor_below(x: Exact, top: nat) -> (c: nat)
    requires
        descends(x),
        x(0) >= 0,
        top <= INFINITE,
        top == INFINITE || x(2 * mag(top + 1)) < 0,
    ensures
        is_floor(x, c),
    decreases top,
{
    if x(2 * mag(top)) >= 0 {
        top
    } else {
        lemma2_to64();
        lemma_mag_code(0, 0);
        assert(2 * mag(0) == 0);
        lemma_floor_below(x, (top - 1) as nat)
    }
}

/// Rounding keeps the order of exact results.
pub proof fn rounding_keeps_order(x: Exact, y: Exact)
    requires
        descends(x),
        descends(y),
        x(0) >= 0,
        y(0) >= 0,
        not_above(x, y),
    ensures
        rounded(x) <= rounded(y),
        rounded(x) <= INFINITE,
{
    let c = lemma_floor_below(x, INFINITE as nat);
    let d = lemma_floor_below(y, INFINITE as nat);
    lemma_one_floor(x, c);
    lemma_one_floor(y, d);
    assert(x(2 * mag(c)) >= 0);
    assert(y(2 * mag(c)) >= 0);
    if c > d {
        lemma_mag_order(d + 1, c);
        let v = 2 * mag(d + 1);
        let w = 2 * mag(c);
        assert(v <= w);
        assert(y(v) < 0);
        assert(y(w) >= 0);
    }
    if c < INFINITE && c == d {
        assert(x(mag(c) + mag(c + 1)) == x(mag(c) + mag(c + 1)));
    }
}

/// A quotient is not above another one that it is no greater than.
pub proof fn lemma_ratio_order(n: nat, d: nat, m: nat, e: nat)
    requires
        d > 0,
        e > 0,
        n * e <= m * d,
    ensures
        rounded(ratio(n, d)) <= rounded(ratio(m, e)),
        rounded(ratio(n, d)) <= INFINITE,
{
    let x = ratio(n, d);
    let y = ratio(m, e);
    lemma_ratio_descends(n, d);
    lemma_ratio_descends(m, e);
    assert(0 * d == 0 && 0 * e == 0) by (nonlinear_arith);
    assert forall|v: nat|
        (#[trigger] x(v) >= 0 ==> y(v) >= 0) && (x(v) > 0 ==> y(v) > 0) by {
        assert((v * d) * e == (v * e) * d) by (nonlinear_arith);
        assert((2 * n) * e <= (2 * m) * d) by (nonlinear_arith)
            requires
                n * e <= m * d,
        ;
        lemma_factor(v * d, 2 * n, e);
        lemma_factor(v * e, 2 * m, d);
    }
    rounding_keeps_order(x, y);
}

/// What has a code already rounds to it.
pub proof fn lemma_ratio_exact(c: nat, d: nat)
    requires
        d > 0,
        c <= INFINITE,
    ensures
        rounded(ratio(mag(c) * d, d)) == c,
{
    let n = mag(c) * d;
    let x = ratio(n, d);
    lemma_ratio_descends(n, d);
    assert((2 * mag(c)) * d == 2 * n) by (nonlinear_arith)
        requires
            n == mag(c) * d,
    ;
    assert(x(2 * mag(c)) == 0);
    if c < INFINITE {
        lemma_mag_order(c, c + 1);
        let w = 2 * mag(c + 1);
        let h = mag(c) + mag(c + 1);
        assert(x(w) < x(2 * mag(c)));
        assert(x(h) < x(2 * mag(c)));
    }
    assert(is_floor(x, c));
    lemma_one_floor(x, c);
}

/// The magnitude that a whole number of units rounds to.
pub open spec fn near(v: nat) -> nat {
    mag(rounded(ratio(v, 1)))
}

/// The value that a whole number of units rounds to.
pub open spec fn near_value(v: int) -> int {
    if v < 0 {
        -near(whole(v))
    } else {
        near(whole(v)) as int
    }
}

/// Rounding of whole numbers of units keeps their order.
pub proof fn lemma_near_order(v: int, w: int)
    requires
        v <= w,
    ensures
        near_value(v) <= near_value(w),
{
    if 0 <= v {
        lemma_ratio_order(v as nat, 1, w as nat, 1);
        lemma_mag_order(rounded(ratio(v as nat, 1)), rounded(ratio(w as nat, 1)));
    } else if w < 0 {
        lemma_ratio_order((-w) as nat, 1, (-v) as nat, 1);
        lemma_mag_order(rounded(ratio((-w) as nat, 1)), rounded(ratio((-v) as nat, 1)));
    }
}

/// A number's own magnitude is kept.
pub proof fn lemma_near_exact(c: nat)
    requires
        c <= INFINITE,
    ensures
        near(mag(c)) == mag(c),
        near_value(mag(c) as int) == mag(c),
        near_value(-(mag(c) as int)) == -(mag(c) as int),
{
    lemma_ratio_exact(c, 1);
    lemma2_to64();
    lemma_mag_code(0, 0);
    if mag(c) == 0 {
        assert(-(mag(c) as int) == 0);
    }
}

/// What is known of a number that is made of a sign and a code.
pub proof fn lemma_signed(negative: bool, c: nat)
    requires
        c <= INFINITE,
    ensures
        signed(negative, c).code() == c,
        signed(negative, c).negative() == negative,
        !signed(negative, c).nan(),
        signed(negative, c).finite() == (c < INFINITE),
        signed(negative, c).value() == if negative {
            -mag(c)
        } else {
            mag(c) as int
        },
        size(signed(negative, c)) == mag(c),
{
}

/// The value of a sum is the exact sum, rounded.
pub proof fn lemma_sum(x: Binary32, y: Binary32)
    requires
        x.finite(),
        y.finite(),
    ensures
        !sum(x, y).nan(),
        sum(x, y).value() == near_value(x.value() + y.value()),
{
    let v = x.value() + y.value();
    lemma2_to64();
    lemma_mag_code(0, 0);
    if v == 0 {
        lemma_near_exact(0);
        lemma_signed(x.negative() && y.negative(), 0);
    } else {
        lemma_ratio_order(whole(v), 1, whole(v), 1);
        lemma_signed(v < 0, rounded(ratio(whole(v), 1)));
    }
}

/// The size of a product is the exact product, rounded.
pub proof fn lemma_product(x: Binary32, y: Binary32)
    requires
        x.finite(),
        y.finite(),
    ensures
        !product(x, y).nan(),
        product(x, y).negative() == (x.negative() != y.negative()),
        product(x, y).code() == rounded(ratio(size(x) * size(y), pow2(149))),
        size(product(x, y)) == mag(rounded(ratio(size(x) * size(y), pow2(149)))),
{
    lemma_pow2_pos(149);
    lemma_ratio_order(size(x) * size(y), pow2(149), size(x) * size(y), pow2(149));
    lemma_signed(
        x.negative() != y.negative(),
        rounded(ratio(size(x) * size(y), pow2(149))),
    );
}

/// The magnitude of one.
pub proof fn lemma_one()
    ensures
        mag(ONE as nat) == pow2(149),
        mag(0) == 0,
        (Binary32 { bits: ONE }).value() == pow2(149),
        (Binary32 { bits: 0 }).value() == 0,
        pow2(149) > 0,
{
    lemma2_to64();
    lemma_mag_code(0, 0);
    lemma_mag_code(126, 0x80_0000);
    lemma_pow2_adds(23, 126);
    lemma_pow2_pos(149);
}

/// A factor that is at most one makes nothing greater.
pub proof fn lemma_product_below(x: Binary32, y: Binary32)
    requires
        x.finite(),
        y.finite(),
        size(y) <= pow2(149),
    ensures
        size(product(x, y)) <= size(x),
        product(x, y).finite(),
{
    lemma_one();
    lemma_product(x, y);
    let p = pow2(149);
    let m = size(x) * size(y);
    assert(m * p <= (size(x) * p) * p) by (nonlinear_arith)
        requires
            m == size(x) * size(y),
            size(y) <= p,
    ;
    lemma_ratio_order(m, p, size(x) * p, p);
    lemma_ratio_exact(x.code(), p);
    lemma_mag_order(rounded(ratio(m, p)), x.code());
}

/// Greater factors give no smaller product.
pub proof fn lemma_product_order(x: Binary32, y: Binary32, a: Binary32, b: Binary32)
    requires
        x.finite(),
        y.finite(),
        a.finite(),
        b.finite(),
        size(x) <= size(a),
        size(y) <= size(b),
    ensures
        size(product(x, y)) <= size(product(a, b)),
{
    lemma_product(x, y);
    lemma_product(a, b);
    let p = pow2(149);
    lemma_pow2_pos(149);
    assert((size(x) * size(y)) * p <= (size(a) * size(b)) * p) by (nonlinear_arith)
        requires
            size(x) <= size(a),
            size(y) <= size(b),
    ;
    lemma_ratio_order(size(x) * size(y), p, size(a) * size(b), p);
    lemma_mag_order(product(x, y).code(), product(a, b).code());
}

/// Multiplication by one changes nothing: a mask of one leaves music untouched.
pub proof fn one_changes_nothing(x: Binary32)
    requires
        !x.nan(),
    ensures
        product(x, Binary32 { bits: ONE }) == x,
{
    lemma_one();
    let one = Binary32 { bits: ONE };
    if x.infinite() {
        lemma_mag_order(0, x.code());
    } else {
        lemma_product(x, one);
        lemma_ratio_exact(x.code(), pow2(149));
        assert(product(x, one).bits == x.bits);
    }
}

/// The size of a quotient is the exact quotient, rounded.
pub proof fn lemma_quotient(x: Binary32, y: Binary32)
    requires
        x.finite(),
        y.finite(),
        size(y) > 0,
    ensures
        !quotient(x, y).nan(),
        quotient(x, y).negative() == (x.negative() != y.negative()),
        quotient(x, y).code() == rounded(ratio(size(x) * pow2(149), size(y))),
        size(quotient(x, y)) == mag(rounded(ratio(size(x) * pow2(149), size(y)))),
{
    lemma_pow2_pos(149);
    lemma_ratio_order(size(x) * pow2(149), size(y), size(x) * pow2(149), size(y));
    lemma_signed(
        x.negative() != y.negative(),
        rounded(ratio(size(x) * pow2(149), size(y))),
    );
}

/// What is no greater than its divisor gives at most one.
pub proof fn lemma_quotient_below(x: Binary32, y: Binary32)
    requires
        x.finite(),
        y.finite(),
        size(y) > 0,
        size(x) <= size(y),
    ensures
        size(quotient(x, y)) <= pow2(149),
        quotient(x, y).finite(),
{
    lemma_one();
    lemma_quotient(x, y);
    let p = pow2(149);
    let n = size(x) * p;
    let d = size(y);
    assert(n * d <= (p * d) * d) by (nonlinear_arith)
        requires
            n == size(x) * p,
            size(x) <= d,
    ;
    lemma_ratio_order(n, d, p * d, d);
    lemma_ratio_exact(ONE as nat, d);
    lemma_mag_order(rounded(ratio(n, d)), ONE as nat);
}

/// Whether two patterns stand for the same number. Zeros of either sign do, and so do any two
/// that are not numbers.
pub open spec fn same_number(x: Binary32, y: Binary32) -> bool {
    ||| x == y
    ||| x.code() == 0 && y.code() == 0
    ||| x.nan() && y.nan()
}

/// Whether samples are the same numbers, one by one.
pub open spec fn same_numbers(a: Seq<Binary32>, b: Seq<Binary32>) -> bool {
    a.len() == b.len() && forall|i: int|
        0 <= i < a.len() ==> same_number(#[trigger] a[i], b[i])
}

/// A product with zero is zero.
pub proof fn lemma_zero_product(x: Binary32, y: Binary32)
    requires
        x.finite(),
        y.finite(),
        x.code() == 0 || y.code() == 0,
    ensures
        product(x, y).code() == 0,
{
    lemma_one();
    lemma_product(x, y);
    assert(size(x) * size(y) == 0) by (nonlinear_arith)
        requires
            size(x) == 0 || size(y) == 0,
    ;
    lemma_ratio_exact(0, pow2(149));
    assert(0 * pow2(149) == 0);
}

/// A sum of zeros is zero.
pub proof fn lemma_zero_sum(x: Binary32, y: Binary32)
    requires
        x.code() == 0,
        y.code() == 0,
    ensures
        sum(x, y).code() == 0,
{
    lemma_one();
    lemma_signed(x.negative() && y.negative(), 0);
}

/// Zero divided by something is zero.
pub proof fn lemma_zero_quotient(x: Binary32, y: Binary32)
    requires
        x.code() == 0,
        y.finite(),
        y.code() > 0,
    ensures
        quotient(x, y).code() == 0,
{
    lemma_one();
    lemma_mag_order(0, y.code());
    lemma_quotient(x, y);
    lemma_ratio_exact(0, size(y));
    assert(0 * pow2(149) == 0);
    assert(0 * size(y) == 0);
}

/// Adding zero, or taking it away, changes no number.
pub proof fn zero_changes_nothing(x: Binary32, z: Binary32)
    requires
        z.code() == 0,
    ensures
        same_number(sum(x, z), x),
        same_number(difference(x, z), x),
{
    lemma_one();
    let t = z.turned();
    assert(t.code() == 0);
    lemma_mag_order(0, x.code());
    lemma_signed(x.negative() && z.negative(), 0);
    lemma_signed(x.negative() && t.negative(), 0);
    if x.finite() && x.code() > 0 {
        lemma_ratio_exact(x.code(), 1);
    }
}

} // verus!
