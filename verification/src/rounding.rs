//! Rounding of exact results to the nearest binary32 number, ties to even.

use crate::binary32::{lemma_mag_code, lemma_mag_order, mag, BINADE, INFINITE};
use vstd::arithmetic::power2::{
    lemma2_to64, lemma2_to64_rest, lemma_pow2_adds, lemma_pow2_pos, lemma_pow2_strictly_increases,
    lemma_pow2_unfold, pow2,
};
use vstd::bits::{lemma_u64_pow2_no_overflow, lemma_u64_shl_is_mul, lemma_u64_shr_is_div};
use vstd::prelude::*;
use vstd::std_specs::bits::u64_leading_zeros;

verus! {

/// An exact result that is not negative, known by how its double compares with whole numbers
/// of units: above zero where the double is greater, zero where they are equal, below zero
/// where it is less.
pub type Exact = spec_fn(nat) -> int;

/// The exact quotient of two whole numbers, in units.
pub open spec fn ratio(num: nat, den: nat) -> Exact {
    |v: nat| 2 * num - v * den
}

/// The exact square root of a whole number, in units.
pub open spec fn root(n: nat) -> Exact {
    |v: nat| 4 * n - v * v
}

/// Whether a code is the greatest one with a magnitude not above the exact result.
pub open spec fn is_floor(x: Exact, c: nat) -> bool {
    &&& c <= INFINITE
    &&& x(2 * mag(c)) >= 0
    &&& c < INFINITE ==> x(2 * mag(c + 1)) < 0
}

/// The code next to a floor that an exact result rounds to: the nearer one, and of two that
/// are equally near the even one. From half a step below it on, results round to infinity.
pub open spec fn nearest(x: Exact, c: nat) -> nat {
    if c >= INFINITE {
        INFINITE as nat
    } else {
        let half = x(mag(c) + mag(c + 1));
        if half < 0 || (half == 0 && c % 2 == 0) {
            c
        } else {
            c + 1
        }
    }
}

/// The code that an exact result rounds to.
pub open spec fn rounded(x: Exact) -> nat {
    nearest(x, choose|c: nat| is_floor(x, c))
}

/// Greater numbers compare as greater.
pub open spec fn descends(x: Exact) -> bool {
    forall|v: nat, w: nat| v < w ==> #[trigger] x(w) < #[trigger] x(v)
}

/// There is only one floor.
pub proof fn lemma_one_floor(x: Exact, c: nat)
    requires
        descends(x),
        is_floor(x, c),
    ensures
        rounded(x) == nearest(x, c),
{
    let d = choose|d: nat| is_floor(x, d);
    assert(is_floor(x, d));
    lemma_floors_agree(x, c, d);
    lemma_floors_agree(x, d, c);
}

proof fn lemma_floors_agree(x: Exact, c: nat, d: nat)
    requires
        descends(x),
        is_floor(x, c),
        is_floor(x, d),
    ensures
        c >= d,
{
    if c < d {
        lemma_mag_order(c + 1, d);
        let v = 2 * mag(c + 1);
        let w = 2 * mag(d);
        assert(v <= w);
        assert(x(v) < 0);
        assert(x(w) >= 0);
    }
}

/// A positive whole number lies between the powers of two that its leading zeros tell.
pub proof fn lemma_bit_length(i: u64)
    requires
        i > 0,
    ensures
        0 <= u64_leading_zeros(i) < 64,
        pow2((63 - u64_leading_zeros(i)) as nat) <= i < pow2((64 - u64_leading_zeros(i)) as nat),
    decreases i,
{
    reveal(u64_leading_zeros);
    lemma2_to64();
    if i == 1 {
        assert(u64_leading_zeros(0) == 64);
        assert(u64_leading_zeros(i / 2) == 64);
    } else {
        lemma_bit_length(i / 2);
        let z = u64_leading_zeros(i / 2);
        let n = (63 - z) as nat;
        assert(z >= 1) by {
            if z == 0 {
                lemma2_to64_rest();
                assert(pow2(63) <= i / 2);
            }
        }
        lemma_pow2_unfold((n + 1) as nat);
        lemma_pow2_unfold((n + 2) as nat);
    }
}

/// What a whole number of steps tells of an exact result: the result is the number, or, where
/// something is left over, it lies between the number and the next one. A step is 2 to the
/// power of `k - d` units.
pub open spec fn brackets(x: Exact, s: nat, k: nat, d: nat, left_over: bool) -> bool {
    forall|v: nat|
        {
            let low = 2 * s * pow2(k);
            let high = 2 * (s + 1) * pow2(k);
            let at = v * pow2(d);
            if left_over {
                (at <= low ==> #[trigger] x(v) > 0) && (at >= high ==> x(v) < 0)
            } else {
                (x(v) < 0 <==> low < at) && (x(v) == 0 <==> low == at)
            }
        }
}

/// Rounds an exact result that is known by a whole number of steps.
pub(crate) fn round_steps(
    s: u64,
    k: u32,
    d: u32,
    left_over: bool,
    Ghost(x): Ghost<Exact>,
) -> (c: u32)
    requires
        s > 0,
        left_over ==> s >= 0x200_0000,
        k <= 1000,
        d <= 1000,
        descends(x),
        brackets(x, s as nat, k as nat, d as nat, left_over),
    ensures
        c == rounded(x),
        c <= INFINITE,
{
    let z = s.leading_zeros();
    proof {
        lemma_bit_length(s);
    }
    let len: u32 = 64 - z;
    // The size of a step of the result, as a power of two.
    let q: u32 = if k + len <= d + 24 {
        0
    } else {
        k + len - d - 24
    };
    if q >= 254 {
        proof {
            lemma_overflow(x, s as nat, k as nat, d as nat, left_over, len as nat, q as nat);
        }
        return INFINITE;
    }
    if q + d <= k {
        // The result has room for all of the steps.
        let up: u32 = k - q - d;
        proof {
            lemma_room(s as nat, k as nat, d as nat, len as nat, q as nat, up as nat);
            lemma_u64_shl_is_mul(s, up as u64);
        }
        let m: u64 = s << (up as u64);
        proof {
            lemma_exact(x, s as nat, k as nat, d as nat, q as nat, up as nat, m as nat);
        }
        return q * BINADE + (m as u32);
    }
    let r: u32 = q + d - k;
    if r > 64 {
        proof {
            lemma_vanishes(x, s as nat, k as nat, d as nat, left_over, r as nat);
        }
        return 0;
    }
    if r == 64 {
        let half: u64 = 0x8000_0000_0000_0000;
        proof {
            lemma2_to64();
            lemma2_to64_rest();
            lemma_rounds(x, s as nat, k as nat, d as nat, left_over, q as nat, 64, 0, s as nat);
        }
        if s > half || (s == half && left_over) {
            return 1;
        }
        return 0;
    }
    let m: u64 = s >> (r as u64);
    proof {
        lemma_u64_shr_is_div(s, r as u64);
        lemma_kept(s as nat, k as nat, d as nat, len as nat, q as nat, r as nat, m as nat);
        lemma_u64_shl_is_mul(m, r as u64);
        lemma_u64_pow2_no_overflow((r - 1) as nat);
        lemma_u64_shl_is_mul(1, (r - 1) as u64);
    }
    let rest: u64 = s - (m << (r as u64));
    let half: u64 = 1u64 << ((r - 1) as u64);
    proof {
        lemma_rounds(
            x,
            s as nat,
            k as nat,
            d as nat,
            left_over,
            q as nat,
            r as nat,
            m as nat,
            rest as nat,
        );
    }
    let c: u32 = q * BINADE + (m as u32);
    if rest > half || (rest == half && (left_over || m % 2 == 1)) {
        c + 1
    } else {
        c
    }
}

/// A common positive factor keeps the order.
pub proof fn lemma_factor(a: nat, b: nat, p: nat)
    requires
        p > 0,
    ensures
        a * p <= b * p <==> a <= b,
        a * p < b * p <==> a < b,
        a * p == b * p <==> a == b,
{
    assert(a * p <= b * p <==> a <= b) by (nonlinear_arith)
        requires
            p > 0,
    ;
    assert(b * p <= a * p <==> b <= a) by (nonlinear_arith)
        requires
            p > 0,
    ;
}

/// How an exact result compares with half steps of the result, by the steps that it is known
/// by. A step of the result is 2 to the power of `r` of those.
proof fn lemma_at(x: Exact, s: nat, k: nat, d: nat, left_over: bool, q: nat, r: nat, w: nat)
    requires
        brackets(x, s, k, d, left_over),
        q + d == k + r,
    ensures
        left_over ==> (w * pow2(r) <= 2 * s ==> x(w * pow2(q)) > 0),
        left_over ==> (w * pow2(r) >= 2 * (s + 1) ==> x(w * pow2(q)) < 0),
        !left_over ==> (x(w * pow2(q)) < 0 <==> 2 * s < w * pow2(r)),
        !left_over ==> (x(w * pow2(q)) == 0 <==> 2 * s == w * pow2(r)),
{
    let v = w * pow2(q);
    lemma_pow2_adds(q, d);
    lemma_pow2_adds(r, k);
    lemma_pow2_pos(k);
    assert(v * pow2(d) == (w * pow2(r)) * pow2(k)) by (nonlinear_arith)
        requires
            v == w * pow2(q),
            pow2(q) * pow2(d) == pow2(r) * pow2(k),
    ;
    lemma_factor(w * pow2(r), 2 * s, pow2(k));
    lemma_factor(w * pow2(r), 2 * (s + 1), pow2(k));
    assert(x(v) == x(v));
}

/// The result is the floor or the next code, by what is left of a step.
proof fn lemma_rounds(
    x: Exact,
    s: nat,
    k: nat,
    d: nat,
    left_over: bool,
    q: nat,
    r: nat,
    m: nat,
    rest: nat,
)
    requires
        descends(x),
        brackets(x, s, k, d, left_over),
        r >= 1,
        q + d == k + r,
        q < 254,
        m < 2 * BINADE,
        q == 0 || m >= BINADE,
        s == m * pow2(r) + rest,
        rest < pow2(r),
    ensures
        q * BINADE as nat + m < INFINITE,
        rounded(x) == if rest > pow2((r - 1) as nat) || (rest == pow2((r - 1) as nat) && (left_over
            || m % 2 == 1)) {
            q * BINADE as nat + m + 1
        } else {
            q * BINADE as nat + m
        },
{
    let c = q * BINADE as nat + m;
    assert(c < INFINITE) by (nonlinear_arith)
        requires
            c == q * BINADE as nat + m,
            q <= 253,
            m < 2 * BINADE,
            BINADE == 0x80_0000,
            INFINITE == 0x7f80_0000,
    ;
    assert(c % 2 == m % 2) by (nonlinear_arith)
        requires
            c == q * BINADE as nat + m,
            BINADE == 0x80_0000,
    ;
    let p = pow2(r);
    let half = pow2((r - 1) as nat);
    lemma_pow2_unfold(r);
    lemma_mag_code(q, m);
    lemma_mag_code(q, m + 1);
    assert(2 * mag(c) == (2 * m) * pow2(q)) by (nonlinear_arith)
        requires
            mag(c) == m * pow2(q),
    ;
    assert(2 * mag(c + 1) == (2 * m + 2) * pow2(q)) by (nonlinear_arith)
        requires
            mag(c + 1) == (m + 1) * pow2(q),
    ;
    assert(mag(c) + mag(c + 1) == (2 * m + 1) * pow2(q)) by (nonlinear_arith)
        requires
            mag(c) == m * pow2(q),
            mag(c + 1) == (m + 1) * pow2(q),
    ;
    assert((2 * m) * p == 2 * (m * p)) by (nonlinear_arith);
    assert((2 * m + 2) * p == 2 * (m * p) + 2 * p) by (nonlinear_arith);
    assert((2 * m + 1) * p == 2 * (m * p) + p) by (nonlinear_arith);
    lemma_at(x, s, k, d, left_over, q, r, 2 * m);
    lemma_at(x, s, k, d, left_over, q, r, 2 * m + 2);
    lemma_at(x, s, k, d, left_over, q, r, 2 * m + 1);
    assert(is_floor(x, c));
    lemma_one_floor(x, c);
}

/// Results from the code of infinity on round to it.
proof fn lemma_overflow(
    x: Exact,
    s: nat,
    k: nat,
    d: nat,
    left_over: bool,
    len: nat,
    q: nat,
)
    requires
        descends(x),
        brackets(x, s, k, d, left_over),
        len >= 1,
        pow2((len - 1) as nat) <= s,
        q + d + 24 == k + len,
        q >= 254,
    ensures
        rounded(x) == INFINITE,
{
    let c = INFINITE as nat;
    lemma_mag_code(254, BINADE as nat);
    lemma2_to64();
    lemma_pow2_adds(23, 254);
    lemma_pow2_adds(277, d);
    lemma_pow2_adds((len - 1) as nat, k);
    assert(254 * BINADE as nat + BINADE as nat == c);
    let v = 2 * mag(c);
    assert(mag(c) == pow2(277));
    assert(v * pow2(d) == 2 * pow2(277 + d)) by (nonlinear_arith)
        requires
            v == 2 * pow2(277),
            pow2(277 + d) == pow2(277) * pow2(d),
    ;
    assert((len - 1) + k == q + d + 23);
    if q > 254 {
        lemma_pow2_strictly_increases(277 + d, ((len - 1) + k) as nat);
    }
    assert(2 * s * pow2(k) >= 2 * pow2(((len - 1) + k) as nat)) by (nonlinear_arith)
        requires
            s >= pow2((len - 1) as nat),
            pow2(((len - 1) + k) as nat) == pow2((len - 1) as nat) * pow2(k),
    ;
    assert(x(v) >= 0);
    assert(is_floor(x, c));
    lemma_one_floor(x, c);
}

/// Steps that the result has room for are kept.
proof fn lemma_room(s: nat, k: nat, d: nat, len: nat, q: nat, up: nat)
    requires
        1 <= len <= 64,
        pow2((len - 1) as nat) <= s < pow2(len),
        q + d + up == k,
        k + len <= d + 24 ==> q == 0,
        k + len > d + 24 ==> q + d + 24 == k + len,
    ensures
        len <= 24,
        up < 64,
        s < 0x100_0000,
        s * pow2(up) < 2 * BINADE,
        q == 0 || s * pow2(up) >= BINADE,
{
    lemma2_to64();
    lemma_pow2_adds(len, up);
    lemma_pow2_adds((len - 1) as nat, up);
    lemma_pow2_pos(up);
    lemma_factor(s, pow2(len), pow2(up));
    lemma_factor(pow2((len - 1) as nat), s, pow2(up));
    if len + up < 24 {
        lemma_pow2_strictly_increases(len + up, 24);
    }
    if len < 24 {
        lemma_pow2_strictly_increases(len, 24);
    }
}

/// A result that has room for all steps is exact.
proof fn lemma_exact(x: Exact, s: nat, k: nat, d: nat, q: nat, up: nat, m: nat)
    requires
        descends(x),
        brackets(x, s, k, d, false),
        q + d + up == k,
        q < 254,
        m == s * pow2(up),
        m < 2 * BINADE,
        q == 0 || m >= BINADE,
    ensures
        rounded(x) == q * BINADE as nat + m,
        q * BINADE as nat + m < INFINITE,
{
    let c = q * BINADE as nat + m;
    assert(c < INFINITE) by (nonlinear_arith)
        requires
            c == q * BINADE as nat + m,
            q <= 253,
            m < 2 * BINADE,
            BINADE == 0x80_0000,
            INFINITE == 0x7f80_0000,
    ;
    lemma_mag_code(q, m);
    lemma_mag_code(q, m + 1);
    lemma_pow2_adds(q, d);
    lemma_pow2_adds(up, q + d);
    let p = pow2(q + d);
    lemma_pow2_pos(q + d);
    assert(2 * s * pow2(k) == (2 * m) * p) by (nonlinear_arith)
        requires
            m == s * pow2(up),
            pow2(k) == pow2(up) * p,
    ;
    let v0 = 2 * mag(c);
    let v1 = mag(c) + mag(c + 1);
    let v2 = 2 * mag(c + 1);
    assert(v0 * pow2(d) == (2 * m) * p) by (nonlinear_arith)
        requires
            v0 == 2 * (m * pow2(q)),
            p == pow2(q) * pow2(d),
    ;
    assert(v1 * pow2(d) == (2 * m + 1) * p) by (nonlinear_arith)
        requires
            v1 == m * pow2(q) + (m + 1) * pow2(q),
            p == pow2(q) * pow2(d),
    ;
    assert(v2 * pow2(d) == (2 * m + 2) * p) by (nonlinear_arith)
        requires
            v2 == 2 * ((m + 1) * pow2(q)),
            p == pow2(q) * pow2(d),
    ;
    lemma_factor(2 * m, 2 * m + 1, p);
    lemma_factor(2 * m, 2 * m + 2, p);
    assert(x(v0) == 0);
    assert(x(v1) < 0);
    assert(x(v2) < 0);
    assert(is_floor(x, c));
    lemma_one_floor(x, c);
}

/// Less than half a unit rounds to zero.
proof fn lemma_vanishes(x: Exact, s: nat, k: nat, d: nat, left_over: bool, r: nat)
    requires
        descends(x),
        brackets(x, s, k, d, left_over),
        s < 0x1_0000_0000_0000_0000,
        r > 64,
        d == k + r,
    ensures
        rounded(x) == 0,
{
    lemma2_to64();
    lemma2_to64_rest();
    lemma_mag_code(0, 0);
    lemma_mag_code(0, 1);
    lemma_at(x, s, k, d, left_over, 0, r, 0);
    lemma_at(x, s, k, d, left_over, 0, r, 1);
    lemma_at(x, s, k, d, left_over, 0, r, 2);
    lemma_pow2_unfold(65);
    assert(pow2(65) == 0x2_0000_0000_0000_0000);
    if r > 65 {
        lemma_pow2_strictly_increases(65, r);
    }
    assert(is_floor(x, 0));
    lemma_one_floor(x, 0);
}

/// The steps that are kept when the result has less room.
proof fn lemma_kept(s: nat, k: nat, d: nat, len: nat, q: nat, r: nat, m: nat)
    requires
        1 <= len <= 64,
        pow2((len - 1) as nat) <= s < pow2(len),
        1 <= r <= 63,
        q + d == k + r,
        k + len <= d + 24 ==> q == 0,
        k + len > d + 24 ==> q + d + 24 == k + len,
        m == s / pow2(r),
    ensures
        m < 2 * BINADE,
        q == 0 || m >= BINADE,
        m * pow2(r) <= s,
        s - m * pow2(r) < pow2(r),
{
    lemma2_to64();
    lemma_pow2_pos(r);
    let p = pow2(r);
    assert(m * p <= s && s - m * p < p) by (nonlinear_arith)
        requires
            m == s / p,
            p > 0,
    ;
    // s < pow2(len) <= pow2(24 + r)
    lemma_pow2_adds(24, r);
    if len < 24 + r {
        lemma_pow2_strictly_increases(len, 24 + r);
    }
    lemma_factor(m, pow2(24), p);
    if q > 0 {
        lemma_pow2_adds(23, r);
        assert(len - 1 == 23 + r);
        assert(pow2(23) * p <= s);
        lemma_factor(m + 1, pow2(23), p);
        assert((m + 1) * p == m * p + p) by (nonlinear_arith);
    }
}

} // verus!
