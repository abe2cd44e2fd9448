//! Binary32 arithmetic: each result is the exact one, rounded.

use crate::binary32::{
    lemma_code_parts, lemma_mag_code, lemma_mag_order, mag, step_of, steps_of, Binary32, BINADE,
    INFINITE, NOT_A_NUMBER, SIGN,
};
use crate::rounding::{
    brackets, descends, is_floor, lemma_bit_length, lemma_factor, lemma_one_floor, ratio, root,
    round_steps, rounded,
};
use vstd::arithmetic::power2::{
    lemma2_to64, lemma2_to64_rest, lemma_pow2_adds, lemma_pow2_pos, lemma_pow2_strictly_increases,
    pow2,
};
use vstd::bits::{lemma_u64_shl_is_mul, lemma_u64_shr_is_div};
use vstd::prelude::*;
use vstd::std_specs::bits::u64_leading_zeros;

verus! {

/// The number with a sign and a code.
pub open spec fn signed(negative: bool, code: nat) -> Binary32 {
    Binary32 {
        bits: if negative {
            (SIGN + code) as u32
        } else {
            code as u32
        },
    }
}

/// What stands for all that is not a number.
pub open spec fn not_a_number() -> Binary32 {
    Binary32 { bits: NOT_A_NUMBER }
}

/// The magnitude of a number.
pub open spec fn size(x: Binary32) -> nat {
    mag(x.code())
}

/// The absolute value of a whole number.
pub open spec fn whole(v: int) -> nat {
    if v < 0 {
        (-v) as nat
    } else {
        v as nat
    }
}

/// The sum of two numbers.
pub open spec fn sum(x: Binary32, y: Binary32) -> Binary32 {
    if x.nan() || y.nan() {
        not_a_number()
    } else if x.infinite() && y.infinite() {
        if x.negative() == y.negative() {
            x
        } else {
            not_a_number()
        }
    } else if x.infinite() {
        x
    } else if y.infinite() {
        y
    } else {
        let v = x.value() + y.value();
        if v == 0 {
            signed(x.negative() && y.negative(), 0)
        } else {
            signed(v < 0, rounded(ratio(whole(v), 1)))
        }
    }
}

/// The difference of two numbers.
pub open spec fn difference(x: Binary32, y: Binary32) -> Binary32 {
    sum(x, y.turned())
}

/// The product of two numbers.
pub open spec fn product(x: Binary32, y: Binary32) -> Binary32 {
    let negative = x.negative() != y.negative();
    if x.nan() || y.nan() {
        not_a_number()
    } else if x.infinite() || y.infinite() {
        if size(x) == 0 || size(y) == 0 {
            not_a_number()
        } else {
            signed(negative, INFINITE as nat)
        }
    } else {
        signed(negative, rounded(ratio(size(x) * size(y), pow2(149))))
    }
}

/// The quotient of two numbers.
pub open spec fn quotient(x: Binary32, y: Binary32) -> Binary32 {
    let negative = x.negative() != y.negative();
    if x.nan() || y.nan() {
        not_a_number()
    } else if x.infinite() {
        if y.infinite() {
            not_a_number()
        } else {
            signed(negative, INFINITE as nat)
        }
    } else if y.infinite() {
        signed(negative, 0)
    } else if size(y) == 0 {
        if size(x) == 0 {
            not_a_number()
        } else {
            signed(negative, INFINITE as nat)
        }
    } else {
        signed(negative, rounded(ratio(size(x) * pow2(149), size(y))))
    }
}

/// The square root of a number.
pub open spec fn square_root(x: Binary32) -> Binary32 {
    if x.nan() {
        not_a_number()
    } else if size(x) == 0 {
        x
    } else if x.negative() {
        not_a_number()
    } else if x.infinite() {
        x
    } else {
        signed(false, rounded(root(size(x) * pow2(149))))
    }
}

/// The number nearest to a count.
pub open spec fn count(n: nat) -> Binary32 {
    signed(false, rounded(ratio(n * pow2(149), 1)))
}

/// The count that a number holds: what stands before the point, held to what a count can be.
pub open spec fn whole_part(x: Binary32) -> usize {
    if x.nan() || x.negative() {
        0
    } else if x.infinite() || size(x) / pow2(149) > usize::MAX {
        usize::MAX
    } else {
        (size(x) / pow2(149)) as usize
    }
}

/// The quotient compares as a quotient should.
pub proof fn lemma_ratio_descends(num: nat, den: nat)
    requires
        den > 0,
    ensures
        descends(ratio(num, den)),
{
    let x = ratio(num, den);
    assert forall|v: nat, w: nat| v < w implies #[trigger] x(w) < #[trigger] x(v) by {
        lemma_factor(v, w, den);
    }
}

/// The square root compares as a square root should.
pub proof fn lemma_root_descends(n: nat)
    ensures
        descends(root(n)),
{
    let x = root(n);
    assert forall|v: nat, w: nat| v < w implies #[trigger] x(w) < #[trigger] x(v) by {
        assert(v * v < w * w) by (nonlinear_arith)
            requires
                v < w,
        ;
    }
}

/// A quotient is known by steps that it is a multiple of, or that it lies between.
proof fn lemma_ratio_brackets(num: nat, den: nat, s: nat, k: nat, d: nat, left_over: bool)
    requires
        den > 0,
        left_over ==> s * pow2(k) * den < num * pow2(d) < (s + 1) * pow2(k) * den,
        !left_over ==> num * pow2(d) == s * pow2(k) * den,
    ensures
        brackets(ratio(num, den), s, k, d, left_over),
{
    let x = ratio(num, den);
    let p = pow2(d);
    lemma_pow2_pos(d);
    assert forall|v: nat|
        {
            let low = 2 * s * pow2(k);
            let high = 2 * (s + 1) * pow2(k);
            let at = v * pow2(d);
            if left_over {
                (at <= low ==> #[trigger] x(v) > 0) && (at >= high ==> x(v) < 0)
            } else {
                (x(v) < 0 <==> low < at) && (x(v) == 0 <==> low == at)
            }
        } by {
        let low = 2 * s * pow2(k);
        let high = 2 * (s + 1) * pow2(k);
        let at = v * p;
        // All three are compared after multiplication by the denominator.
        assert(at * den == (v * den) * p) by (nonlinear_arith)
            requires
                at == v * p,
        ;
        assert(low * den == 2 * (s * pow2(k) * den)) by (nonlinear_arith)
            requires
                low == 2 * s * pow2(k),
        ;
        assert(high * den == 2 * ((s + 1) * pow2(k) * den)) by (nonlinear_arith)
            requires
                high == 2 * (s + 1) * pow2(k),
        ;
        assert((2 * num) * p == 2 * (num * p)) by (nonlinear_arith);
        lemma_factor(at, low, den);
        lemma_factor(at, high, den);
        lemma_factor(v * den, 2 * num, p);
    }
}

/// An exact result of nothing is zero.
proof fn lemma_ratio_of_zero(den: nat)
    requires
        den > 0,
    ensures
        rounded(ratio(0, den)) == 0,
{
    let x = ratio(0, den);
    lemma_ratio_descends(0, den);
    lemma2_to64();
    lemma_mag_code(0, 0);
    lemma_mag_code(0, 1);
    assert(x(2 * mag(0)) == 0);
    assert(2 * den >= 0);
    assert(x(2 * mag(1)) == -(2 * den));
    assert(x(mag(0) + mag(1)) == -(1 * den));
    assert(is_floor(x, 0));
    lemma_one_floor(x, 0);
}

/// The steps of a code.
fn split(code: u32) -> (r: (u64, u32))
    requires
        code < INFINITE,
    ensures
        r.0 == steps_of(code as nat),
        r.1 == step_of(code as nat),
        r.0 < 0x100_0000,
        r.1 <= 253,
        r.1 > 0 ==> r.0 >= 0x80_0000,
        mag(code as nat) == r.0 * pow2(r.1 as nat),
        code > 0 ==> r.0 > 0,
{
    proof {
        lemma_code_parts(code as nat);
    }
    let e: u32 = code / BINADE;
    let f: u32 = code % BINADE;
    if e == 0 {
        (f as u64, 0)
    } else {
        ((BINADE + f) as u64, e - 1)
    }
}

/// The larger magnitude in steps of the smaller one's size.
proof fn lemma_aligned(sa: nat, ka: nat, kb: nat, up: nat, k: nat)
    requires
        ka == k + up,
    ensures
        sa * pow2(ka) == (sa * pow2(up)) * pow2(k),
{
    lemma_pow2_adds(up, k);
    assert(sa * (pow2(up) * pow2(k)) == (sa * pow2(up)) * pow2(k)) by (nonlinear_arith);
}

/// How far a number of steps reaches into coarser steps: the whole coarser steps, and whether
/// something is left.
fn coarser(sb: u64, t: u32) -> (r: (u64, bool))
    requires
        sb < 0x100_0000,
    ensures
        r.0 <= sb,
        r.0 * pow2(t as nat) <= sb < (r.0 + 1) * pow2(t as nat),
        r.1 == (r.0 * pow2(t as nat) != sb),
{
    if t >= 24 {
        proof {
            lemma2_to64();
            if t > 24 {
                lemma_pow2_strictly_increases(24, t as nat);
            }
        }
        (0, sb != 0)
    } else {
        let whole: u64 = sb >> (t as u64);
        proof {
            lemma_u64_shr_is_div(sb, t as u64);
            lemma_pow2_pos(t as nat);
            let p = pow2(t as nat);
            assert(whole * p <= sb && sb < (whole + 1) * p && whole <= sb) by (nonlinear_arith)
                requires
                    whole == sb as nat / p,
                    p > 0,
            ;
            lemma_u64_shl_is_mul(whole, t as u64);
        }
        (whole, (whole << (t as u64)) != sb)
    }
}

/// Adds two magnitudes, the one with the larger steps first.
fn add_sizes(sa: u64, ka: u32, sb: u64, kb: u32) -> (c: u32)
    requires
        sa < 0x100_0000,
        sb < 0x100_0000,
        kb <= ka <= 253,
        ka > 0 ==> sa >= 0x80_0000,
        sa > 0 || sb > 0,
    ensures
        c == rounded(ratio((sa * pow2(ka as nat) + sb * pow2(kb as nat)) as nat, 1)),
        c <= INFINITE,
{
    let ghost num = (sa * pow2(ka as nat) + sb * pow2(kb as nat)) as nat;
    let d: u32 = ka - kb;
    proof {
        lemma_ratio_descends(num, 1);
        lemma2_to64();
        lemma2_to64_rest();
    }
    if d <= 38 {
        proof {
            lemma_aligned(sa as nat, ka as nat, kb as nat, d as nat, kb as nat);
            lemma_shift_fits(sa, d);
        }
        let s: u64 = (sa << (d as u64)) + sb;
        proof {
            assert(num == s * pow2(kb as nat)) by (nonlinear_arith)
                requires
                    num == (sa * pow2(d as nat)) * pow2(kb as nat) + sb * pow2(kb as nat),
                    s == sa * pow2(d as nat) + sb,
            ;
            assert(num * pow2(0) == s * pow2(kb as nat) * 1);
            lemma_ratio_brackets(num, 1, s as nat, kb as nat, 0, false);
            if sa > 0 {
                lemma_pow2_pos(d as nat);
                assert(sa * pow2(d as nat) > 0) by (nonlinear_arith)
                    requires
                        sa > 0,
                        pow2(d as nat) > 0,
                ;
            }
        }
        round_steps(s, kb, 0, false, Ghost(ratio(num, 1)))
    } else {
        let k: u32 = ka - 38;
        let t: u32 = d - 38;
        let (whole, left_over) = coarser(sb, t);
        proof {
            lemma_shift_fits(sa, 38);
        }
        let s: u64 = (sa << 38u64) + whole;
        proof {
            lemma_far_apart(sa as nat, ka as nat, sb as nat, kb as nat, k as nat, t as nat);
            let p = pow2(t as nat);
            let b = pow2(kb as nat);
            lemma_pow2_pos(kb as nat);
            let top = sa * pow2(38);
            assert(s * pow2(k as nat) == (s * p) * b) by (nonlinear_arith)
                requires
                    pow2(k as nat) == p * b,
            ;
            assert((s + 1) * pow2(k as nat) == ((s + 1) * p) * b) by (nonlinear_arith)
                requires
                    pow2(k as nat) == p * b,
            ;
            assert(num == (top * p + sb) * b) by (nonlinear_arith)
                requires
                    num == (top * p) * b + sb * b,
            ;
            assert(s * p == top * p + whole * p) by (nonlinear_arith)
                requires
                    s == top + whole,
            ;
            assert((s + 1) * p == top * p + (whole + 1) * p) by (nonlinear_arith)
                requires
                    s == top + whole,
            ;
            lemma_factor((s * p) as nat, (top * p + sb) as nat, b);
            lemma_factor((top * p + sb) as nat, ((s + 1) * p) as nat, b);
            lemma_ratio_brackets(num, 1, s as nat, k as nat, 0, left_over);
        }
        round_steps(s, k, 0, left_over, Ghost(ratio(num, 1)))
    }
}

/// Steps shifted up by not too much stay within range.
proof fn lemma_shift_fits(sa: u64, up: u32)
    requires
        sa < 0x100_0000,
        up <= 38,
    ensures
        sa << (up as u64) == sa * pow2(up as nat),
        sa * pow2(up as nat) <= 0x3fff_ffff_ffff_ffff,
        sa >= 0x80_0000 && up == 38 ==> sa * pow2(up as nat) >= 0x2000_0000_0000_0000,
{
    lemma2_to64();
    lemma2_to64_rest();
    if up < 38 {
        lemma_pow2_strictly_increases(up as nat, 38);
    }
    let p = pow2(up as nat);
    assert(sa * p <= 0xff_ffff * 0x40_0000_0000) by (nonlinear_arith)
        requires
            sa <= 0xff_ffff,
            p <= 0x40_0000_0000,
    ;
    if sa >= 0x80_0000 && up == 38 {
        assert(sa * p >= 0x80_0000 * 0x40_0000_0000) by (nonlinear_arith)
            requires
                sa >= 0x80_0000,
                p == 0x40_0000_0000,
        ;
    }
    lemma_u64_shl_is_mul(sa, up as u64);
}

/// Two magnitudes whose steps lie far apart, in the smaller steps.
proof fn lemma_far_apart(sa: nat, ka: nat, sb: nat, kb: nat, k: nat, t: nat)
    requires
        ka == k + 38,
        k == kb + t,
    ensures
        pow2(k) == pow2(t) * pow2(kb),
        sa * pow2(ka) == ((sa * pow2(38)) * pow2(t)) * pow2(kb),
{
    lemma_pow2_adds(t, kb);
    lemma_pow2_adds(38, k);
    assert(sa * (pow2(38) * (pow2(t) * pow2(kb))) == ((sa * pow2(38)) * pow2(t)) * pow2(kb))
        by (nonlinear_arith);
}

/// Subtracts a magnitude from a larger one.
fn subtract_sizes(sa: u64, ka: u32, sb: u64, kb: u32) -> (c: u32)
    requires
        sa < 0x100_0000,
        sb < 0x100_0000,
        kb <= ka <= 253,
        ka > 0 ==> sa >= 0x80_0000,
        sa * pow2(ka as nat) > sb * pow2(kb as nat),
    ensures
        c == rounded(ratio((sa * pow2(ka as nat) - sb * pow2(kb as nat)) as nat, 1)),
        c <= INFINITE,
{
    let ghost num = (sa * pow2(ka as nat) - sb * pow2(kb as nat)) as nat;
    let d: u32 = ka - kb;
    proof {
        lemma_ratio_descends(num, 1);
        lemma2_to64();
        lemma2_to64_rest();
    }
    if d <= 38 {
        proof {
            lemma_aligned(sa as nat, ka as nat, kb as nat, d as nat, kb as nat);
            lemma_shift_fits(sa, d);
            lemma_pow2_pos(kb as nat);
            lemma_factor(sb as nat, (sa * pow2(d as nat)) as nat, pow2(kb as nat));
        }
        let s: u64 = (sa << (d as u64)) - sb;
        proof {
            assert(num == s * pow2(kb as nat)) by (nonlinear_arith)
                requires
                    num == (sa * pow2(d as nat)) * pow2(kb as nat) - sb * pow2(kb as nat),
                    s == sa * pow2(d as nat) - sb,
            ;
            assert(num * pow2(0) == s * pow2(kb as nat) * 1);
            lemma_ratio_brackets(num, 1, s as nat, kb as nat, 0, false);
        }
        round_steps(s, kb, 0, false, Ghost(ratio(num, 1)))
    } else {
        let k: u32 = ka - 38;
        let t: u32 = d - 38;
        let (whole, left_over) = coarser(sb, t);
        proof {
            lemma_shift_fits(sa, 38);
        }
        let s: u64 = (sa << 38u64) - whole - if left_over {
            1
        } else {
            0
        };
        proof {
            lemma_far_apart(sa as nat, ka as nat, sb as nat, kb as nat, k as nat, t as nat);
            let p = pow2(t as nat);
            let b = pow2(kb as nat);
            lemma_pow2_pos(kb as nat);
            let top = (sa * pow2(38)) as int;
            assert(s * pow2(k as nat) == (s * p) * b) by (nonlinear_arith)
                requires
                    pow2(k as nat) == p * b,
            ;
            assert((s + 1) * pow2(k as nat) == ((s + 1) * p) * b) by (nonlinear_arith)
                requires
                    pow2(k as nat) == p * b,
            ;
            assert(num == (top * p - sb) * b) by (nonlinear_arith)
                requires
                    num == (top * p) * b - sb * b,
            ;
            if left_over {
                assert(s * p == top * p - (whole + 1) * p) by (nonlinear_arith)
                    requires
                        s == top - whole - 1,
                ;
                assert((s + 1) * p == top * p - whole * p) by (nonlinear_arith)
                    requires
                        s == top - whole - 1,
                ;
                assert(s * p < top * p - sb);
                assert(top * p - sb < (s + 1) * p);
            } else {
                assert(s * p == top * p - whole * p) by (nonlinear_arith)
                    requires
                        s == top - whole,
                ;
            }
            lemma_pow2_pos(t as nat);
            assert(s * p >= 0) by (nonlinear_arith)
                requires
                    p > 0,
            ;
            lemma_factor((s * p) as nat, (top * p - sb) as nat, b);
            lemma_factor((top * p - sb) as nat, ((s + 1) * p) as nat, b);
            lemma_ratio_brackets(num, 1, s as nat, k as nat, 0, left_over);
        }
        round_steps(s, k, 0, left_over, Ghost(ratio(num, 1)))
    }
}

/// The number with a sign and a code.
fn with_sign(negative: bool, code: u32) -> (r: Binary32)
    requires
        code <= INFINITE,
    ensures
        r == signed(negative, code as nat),
{
    if negative {
        Binary32 { bits: SIGN + code }
    } else {
        Binary32 { bits: code }
    }
}

impl Binary32 {
    /// `self + other`
    pub fn plus(self, other: Self) -> (r: Self)
        ensures
            r == sum(self, other),
    {
        let a = self.to_code();
        let b = other.to_code();
        if a > INFINITE || b > INFINITE {
            return Binary32 { bits: NOT_A_NUMBER };
        }
        if a == INFINITE {
            if b == INFINITE && self.is_negative() != other.is_negative() {
                return Binary32 { bits: NOT_A_NUMBER };
            }
            return self;
        }
        if b == INFINITE {
            return other;
        }
        proof {
            lemma_mag_order(a as nat, b as nat);
            lemma_mag_order(0, a as nat);
            lemma_mag_order(0, b as nat);
            lemma2_to64();
            lemma_mag_code(0, 0);
        }
        let na = self.is_negative();
        let nb = other.is_negative();
        if a == 0 && b == 0 {
            return with_sign(na && nb, 0);
        }
        let (hi, lo) = if a >= b { (a, b) } else { (b, a) };
        let (sh, kh) = split(hi);
        let (sl, kl) = split(lo);
        proof {
            lemma_step_order(hi as nat, lo as nat);
        }
        if na == nb {
            with_sign(na, add_sizes(sh, kh, sl, kl))
        } else if a == b {
            with_sign(false, 0)
        } else {
            let c = subtract_sizes(sh, kh, sl, kl);
            with_sign(if a > b { na } else { nb }, c)
        }
    }

    /// `self - other`
    pub fn minus(self, other: Self) -> (r: Self)
        ensures
            r == difference(self, other),
    {
        self.plus(other.neg())
    }
}

/// A larger code has no smaller steps.
proof fn lemma_step_order(hi: nat, lo: nat)
    requires
        lo <= hi,
    ensures
        step_of(lo) <= step_of(hi),
{
    assert(lo / BINADE as nat <= hi / BINADE as nat) by (nonlinear_arith)
        requires
            lo <= hi,
            BINADE == 0x80_0000,
    ;
}

/// The product of two magnitudes.
fn multiply_sizes(sa: u64, ka: u32, sb: u64, kb: u32) -> (c: u32)
    requires
        0 < sa < 0x100_0000,
        0 < sb < 0x100_0000,
        ka <= 253,
        kb <= 253,
    ensures
        c == rounded(
            ratio(((sa * pow2(ka as nat)) * (sb * pow2(kb as nat))) as nat, pow2(149)),
        ),
        c <= INFINITE,
{
    let ghost num = ((sa * pow2(ka as nat)) * (sb * pow2(kb as nat))) as nat;
    proof {
        lemma_pow2_pos(149);
        lemma_ratio_descends(num, pow2(149));
        lemma_pow2_adds(ka as nat, kb as nat);
        assert(0 < sa * sb <= 0xff_ffff * 0xff_ffff) by (nonlinear_arith)
            requires
                0 < sa <= 0xff_ffff,
                0 < sb <= 0xff_ffff,
        ;
    }
    let s: u64 = sa * sb;
    proof {
        let pa = pow2(ka as nat);
        let pb = pow2(kb as nat);
        assert(num * pow2(149) == s * (pa * pb) * pow2(149)) by (nonlinear_arith)
            requires
                num == (sa * pa) * (sb * pb),
                s == sa * sb,
        ;
        lemma_ratio_brackets(num, pow2(149), s as nat, (ka + kb) as nat, 149, false);
    }
    round_steps(s, ka + kb, 149, false, Ghost(ratio(num, pow2(149))))
}

/// A positive number of steps, shifted up to fill all but the topmost bit.
proof fn lemma_filled(s: u64, z: u32)
    requires
        0 < s < 0x100_0000,
        z + 1 == u64_leading_zeros(s) || z + 2 == u64_leading_zeros(s),
    ensures
        38 <= z < 64,
        s << (z as u64) == s * pow2(z as nat),
        0x2000_0000_0000_0000 <= s * pow2(z as nat) < 0x8000_0000_0000_0000,
{
    lemma_bit_length(s);
    lemma2_to64();
    lemma2_to64_rest();
    let full = u64_leading_zeros(s);
    assert(full >= 40) by {
        if full < 40 {
            if full < 39 {
                lemma_pow2_strictly_increases(24, (63 - full) as nat);
            }
        }
    }
    let n = (63 - full) as nat;
    lemma_pow2_adds(n, z as nat);
    lemma_pow2_adds((n + 1) as nat, z as nat);
    lemma_pow2_pos(z as nat);
    lemma_factor(pow2(n), s as nat, pow2(z as nat));
    lemma_factor(s as nat, pow2((n + 1) as nat), pow2(z as nat));
    assert(n + z == 62 || n + z == 61);
    lemma_u64_shl_is_mul(s, z as u64);
}

/// The quotient of two magnitudes.
fn divide_sizes(sa: u64, ka: u32, sb: u64, kb: u32) -> (c: u32)
    requires
        0 < sa < 0x100_0000,
        0 < sb < 0x100_0000,
        ka <= 253,
        kb <= 253,
    ensures
        c == rounded(
            ratio(
                ((sa * pow2(ka as nat)) * pow2(149)) as nat,
                (sb * pow2(kb as nat)) as nat,
            ),
        ),
        c <= INFINITE,
{
    let ghost num = ((sa * pow2(ka as nat)) * pow2(149)) as nat;
    let ghost den = (sb * pow2(kb as nat)) as nat;
    proof {
        lemma_bit_length(sa);
        lemma_pow2_pos(kb as nat);
        assert(den > 0) by (nonlinear_arith)
            requires
                den == sb * pow2(kb as nat),
                sb > 0,
                pow2(kb as nat) > 0,
        ;
        lemma_ratio_descends(num, den);
        assert(u64_leading_zeros(sa) >= 1) by {
            lemma2_to64_rest();
        }
    }
    let z: u32 = sa.leading_zeros() - 1;
    proof {
        lemma_filled(sa, z);
    }
    let a: u64 = sa << (z as u64);
    let s: u64 = a / sb;
    let rest: u64 = a % sb;
    proof {
        let pk = pow2((ka + 149) as nat);
        let pa = pow2(ka as nat);
        let pb = pow2(kb as nat);
        let pz = pow2(z as nat);
        lemma_pow2_adds(ka as nat, 149);
        lemma_pow2_adds(kb as nat, z as nat);
        lemma_pow2_pos((ka + 149) as nat);
        assert(a == s * sb + rest) by (nonlinear_arith)
            requires
                s == a / sb,
                rest == a % sb,
                sb > 0,
        ;
        assert(s >= 0x20_0000_0000) by (nonlinear_arith)
            requires
                s == a / sb,
                a >= 0x2000_0000_0000_0000,
                0 < sb < 0x100_0000,
        ;
        // All are multiples of one factor.
        let f = pb * pk;
        assert(f > 0) by (nonlinear_arith)
            requires
                f == pb * pk,
                pb > 0,
                pk > 0,
        ;
        assert(num * pow2((kb + z) as nat) == a * f) by (nonlinear_arith)
            requires
                num == (sa * pa) * pow2(149),
                pk == pa * pow2(149),
                pow2((kb + z) as nat) == pb * pz,
                a == sa * pz,
                f == pb * pk,
        ;
        assert(s * pk * den == (s * sb) * f) by (nonlinear_arith)
            requires
                den == sb * pb,
                f == pb * pk,
        ;
        assert((s + 1) * pk * den == (s * sb + sb) * f) by (nonlinear_arith)
            requires
                den == sb * pb,
                f == pb * pk,
        ;
        lemma_factor((s * sb) as nat, a as nat, f);
        lemma_factor(a as nat, (s * sb + sb) as nat, f);
        assert(s * sb >= 0) by (nonlinear_arith);
        lemma_ratio_brackets(num, den, s as nat, (ka + 149) as nat, (kb + z) as nat, rest != 0);
    }
    round_steps(s, ka + 149, kb + z, rest != 0, Ghost(ratio(num, den)))
}

impl Binary32 {
    /// `self * other`
    pub fn times(self, other: Self) -> (r: Self)
        ensures
            r == product(self, other),
    {
        let a = self.to_code();
        let b = other.to_code();
        let negative = self.is_negative() != other.is_negative();
        proof {
            lemma2_to64();
            lemma_mag_code(0, 0);
            lemma_mag_order(0, a as nat);
            lemma_mag_order(0, b as nat);
        }
        if a > INFINITE || b > INFINITE {
            return Binary32 { bits: NOT_A_NUMBER };
        }
        if a == INFINITE || b == INFINITE {
            if a == 0 || b == 0 {
                return Binary32 { bits: NOT_A_NUMBER };
            }
            return with_sign(negative, INFINITE);
        }
        if a == 0 || b == 0 {
            proof {
                lemma_pow2_pos(149);
                lemma_ratio_of_zero(pow2(149));
                assert(0 * mag(b as nat) == 0 && mag(a as nat) * 0 == 0) by (nonlinear_arith);
            }
            return with_sign(negative, 0);
        }
        let (sa, ka) = split(a);
        let (sb, kb) = split(b);
        with_sign(negative, multiply_sizes(sa, ka, sb, kb))
    }

    /// `self / other`
    pub fn over(self, other: Self) -> (r: Self)
        ensures
            r == quotient(self, other),
    {
        let a = self.to_code();
        let b = other.to_code();
        let negative = self.is_negative() != other.is_negative();
        proof {
            lemma2_to64();
            lemma_mag_code(0, 0);
            lemma_mag_order(0, a as nat);
            lemma_mag_order(0, b as nat);
        }
        if a > INFINITE || b > INFINITE {
            return Binary32 { bits: NOT_A_NUMBER };
        }
        if a == INFINITE {
            if b == INFINITE {
                return Binary32 { bits: NOT_A_NUMBER };
            }
            return with_sign(negative, INFINITE);
        }
        if b == INFINITE {
            return with_sign(negative, 0);
        }
        if b == 0 {
            if a == 0 {
                return Binary32 { bits: NOT_A_NUMBER };
            }
            return with_sign(negative, INFINITE);
        }
        if a == 0 {
            proof {
                lemma_ratio_of_zero(mag(b as nat));
                assert(0 * pow2(149) == 0);
            }
            return with_sign(negative, 0);
        }
        let (sa, ka) = split(a);
        let (sb, kb) = split(b);
        with_sign(negative, divide_sizes(sa, ka, sb, kb))
    }
}

/// The whole part of a square root.
fn whole_root(n: u64) -> (r: u64)
    requires
        n < 0x8000_0000_0000_0000,
    ensures
        r * r <= n < (r + 1) * (r + 1),
        r < 0x1_0000_0000,
{
    let mut low: u64 = 0;
    let mut high: u64 = 0x1_0000_0000;
    while high - low > 1
        invariant
            low < high <= 0x1_0000_0000,
            low * low <= n < high * high,
            n < 0x8000_0000_0000_0000,
        decreases high - low,
    {
        let mid: u64 = low + (high - low) / 2;
        assert(mid * mid <= 0xffff_ffff * 0xffff_ffff) by (nonlinear_arith)
            requires
                mid <= 0xffff_ffff,
        ;
        if mid * mid <= n {
            low = mid;
        } else {
            high = mid;
        }
    }
    low
}

/// A square root is known by steps that it is a multiple of, or that it lies between.
proof fn lemma_root_brackets(n: nat, s: nat, k: nat, left_over: bool)
    requires
        left_over ==> s * s * pow2(2 * k) < n < (s + 1) * (s + 1) * pow2(2 * k),
        !left_over ==> n == s * s * pow2(2 * k),
    ensures
        brackets(root(n), s, k, 0, left_over),
{
    let x = root(n);
    let p = pow2(k);
    lemma2_to64();
    lemma_pow2_adds(k, k);
    assert(pow2(2 * k) == p * p);
    assert forall|v: nat|
        {
            let low = 2 * s * pow2(k);
            let high = 2 * (s + 1) * pow2(k);
            let at = v * pow2(0);
            if left_over {
                (at <= low ==> #[trigger] x(v) > 0) && (at >= high ==> x(v) < 0)
            } else {
                (x(v) < 0 <==> low < at) && (x(v) == 0 <==> low == at)
            }
        } by {
        let low = 2 * s * p;
        let high = 2 * (s + 1) * p;
        assert(low * low == 4 * (s * s * (p * p))) by (nonlinear_arith)
            requires
                low == 2 * s * p,
        ;
        assert(high * high == 4 * ((s + 1) * (s + 1) * (p * p))) by (nonlinear_arith)
            requires
                high == 2 * (s + 1) * p,
        ;
        lemma_squares(v, low);
        lemma_squares(v, high);
    }
}

/// Squares are in the order of their roots.
proof fn lemma_squares(v: nat, w: nat)
    ensures
        v * v <= w * w <==> v <= w,
        v * v < w * w <==> v < w,
        v * v == w * w <==> v == w,
{
    assert(v <= w ==> v * v <= w * w) by (nonlinear_arith);
    assert(w <= v ==> w * w <= v * v) by (nonlinear_arith);
    assert(v < w ==> v * v < w * w) by (nonlinear_arith);
    assert(w < v ==> w * w < v * v) by (nonlinear_arith);
}

/// The square root of a magnitude.
fn root_size(sa: u64, ka: u32) -> (c: u32)
    requires
        0 < sa < 0x100_0000,
        ka <= 253,
    ensures
        c == rounded(root(((sa * pow2(ka as nat)) * pow2(149)) as nat)),
        c <= INFINITE,
{
    let ghost n = ((sa * pow2(ka as nat)) * pow2(149)) as nat;
    proof {
        lemma_root_descends(n);
        lemma_bit_length(sa);
        assert(u64_leading_zeros(sa) >= 2) by {
            lemma2_to64();
            lemma2_to64_rest();
            if u64_leading_zeros(sa) < 2 {
                lemma_pow2_strictly_increases(24, (63 - u64_leading_zeros(sa)) as nat);
            }
        }
    }
    let full: u32 = sa.leading_zeros() - 1;
    // The exponent that is left has to be even.
    let z: u32 = if (ka + 149 + full) % 2 == 0 {
        full
    } else {
        full - 1
    };
    proof {
        lemma_filled(sa, z);
    }
    let a: u64 = sa << (z as u64);
    let s: u64 = whole_root(a);
    let k: u32 = (ka + 149 - z) / 2;
    proof {
        assert(s * s <= 0xffff_ffff * 0xffff_ffff) by (nonlinear_arith)
            requires
                s <= 0xffff_ffff,
        ;
    }
    let left_over = s * s != a;
    proof {
        assert(2 * k + z == ka + 149);
        lemma_pow2_adds(ka as nat, 149);
        lemma_pow2_adds((2 * k) as nat, z as nat);
        lemma_pow2_pos((2 * k) as nat);
        let p = pow2((2 * k) as nat);
        assert(n == a * p) by (nonlinear_arith)
            requires
                n == (sa * pow2(ka as nat)) * pow2(149),
                pow2(ka as nat) * pow2(149) == p * pow2(z as nat),
                a == sa * pow2(z as nat),
        ;
        lemma_factor((s * s) as nat, a as nat, p);
        lemma_factor(a as nat, ((s + 1) * (s + 1)) as nat, p);
        lemma_root_brackets(n, s as nat, k as nat, left_over);
        assert(s >= 0x200_0000) by (nonlinear_arith)
            requires
                a < (s + 1) * (s + 1),
                a >= 0x2000_0000_0000_0000,
        ;
    }
    round_steps(s, k, 0, left_over, Ghost(root(n)))
}

impl Binary32 {
    /// The square root.
    pub fn sqrt(self) -> (r: Self)
        ensures
            r == square_root(self),
    {
        let a = self.to_code();
        proof {
            lemma2_to64();
            lemma_mag_code(0, 0);
            lemma_mag_order(0, a as nat);
        }
        if a > INFINITE {
            return Binary32 { bits: NOT_A_NUMBER };
        }
        if a == 0 {
            return self;
        }
        if self.is_negative() {
            return Binary32 { bits: NOT_A_NUMBER };
        }
        if a == INFINITE {
            return self;
        }
        let (sa, ka) = split(a);
        with_sign(false, root_size(sa, ka))
    }

    /// The number nearest to a count.
    pub fn of_count(n: usize) -> (r: Self)
        ensures
            r == count(n as nat),
    {
        let ghost num = (n * pow2(149)) as nat;
        if n == 0 {
            proof {
                lemma_ratio_of_zero(1);
                assert(0 * pow2(149) == 0);
            }
            return with_sign(false, 0);
        }
        proof {
            lemma_ratio_descends(num, 1);
            lemma2_to64();
            lemma_ratio_brackets(num, 1, n as nat, 149, 0, false);
        }
        with_sign(false, round_steps(n as u64, 149, 0, false, Ghost(ratio(num, 1))))
    }

    /// What stands before the point, held to what a count can be.
    pub fn to_count(self) -> (r: usize)
        ensures
            r == whole_part(self),
    {
        let a = self.to_code();
        if a > INFINITE || self.is_negative() {
            return 0;
        }
        if a == INFINITE {
            return usize::MAX;
        }
        let (s, k) = split(a);
        proof {
            lemma_pow2_pos(149);
        }
        if k >= 149 {
            let up: u32 = k - 149;
            proof {
                lemma_pow2_adds(up as nat, 149);
                let p = pow2(149);
                assert((s * (pow2(up as nat) * p)) as nat / p == s * pow2(up as nat))
                    by (nonlinear_arith)
                    requires
                        p > 0,
                ;
            }
            if up >= 41 {
                proof {
                    lemma2_to64();
                    lemma2_to64_rest();
                    if up > 41 {
                        lemma_pow2_strictly_increases(41, up as nat);
                    }
                    assert(s * pow2(up as nat) >= 0x1_0000_0000_0000_0000) by (nonlinear_arith)
                        requires
                            s >= 0x80_0000,
                            pow2(up as nat) >= 0x200_0000_0000,
                    ;
                }
                return usize::MAX;
            }
            proof {
                lemma2_to64();
                lemma2_to64_rest();
                if up < 40 {
                    lemma_pow2_strictly_increases(up as nat, 40);
                }
                assert(s * pow2(up as nat) <= 0xff_ffff * 0x100_0000_0000) by (nonlinear_arith)
                    requires
                        s <= 0xff_ffff,
                        pow2(up as nat) <= 0x100_0000_0000,
                ;
                lemma_u64_shl_is_mul(s, up as u64);
            }
            let v: u64 = s << (up as u64);
            if v > (usize::MAX as u64) {
                usize::MAX
            } else {
                v as usize
            }
        } else {
            let down: u32 = 149 - k;
            let (whole, _left) = coarser(s, down);
            proof {
                lemma_pow2_adds(down as nat, k as nat);
                lemma_pow2_pos(k as nat);
                let p = pow2(down as nat);
                let b = pow2(k as nat);
                lemma_factor((whole * p) as nat, s as nat, b);
                lemma_factor(s as nat, ((whole + 1) * p) as nat, b);
                assert((s * b) as nat / (p * b) == whole) by (nonlinear_arith)
                    requires
                        (whole * p) * b <= s * b,
                        s * b < ((whole + 1) * p) * b,
                        p * b > 0,
                ;
            }
            whole as usize
        }
    }
}

} // verus!
