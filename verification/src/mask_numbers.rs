//! What masks come to in numbers: frequencies in hertz, bands by their edges, and reductions by
//! the ratio of voice to music.

use crate::approx::{
    approx, approx_count, approx_product, approx_quotient, between_near_exact, blend_near_mean,
    lemma_approx_cancel, lemma_rounded_approx, PARTS,
};
use crate::arith::{count, difference, product, quotient, size, sum};
use crate::binary32::{
    lemma_code_parts, lemma_mag_code, lemma_mag_order, mag, step_of, steps_of, Binary32, BINADE,
    INFINITE, ONE,
};
use crate::blend::{
    is_share, lemma_near_error, lemma_near_power, lemma_ratio_error, lemma_share, lemma_steps_exact,
    one, one_stays_one, shares_stay_shares, zero,
};
use crate::compressor::lemma_double_code;
use crate::config::MaskingConfig;
use crate::order::{
    lemma_near_exact, lemma_near_order, lemma_one, lemma_product, lemma_product_below,
    lemma_quotient, lemma_quotient_below, lemma_ratio_exact, lemma_signed, lemma_sum,
    lemma_zero_product, lemma_zero_quotient, lemma_zero_sum, near, one_changes_nothing,
};
use crate::mask_laws::{lemma_count, lemma_small_exact, lemma_one_between, lemma_shapes_of_one};
use crate::rounding::{ratio, rounded};
use crate::spectral_mask::{
    all_shaped, averaged, between, bins, gated, mean_end, mean_start, total, wanted, by_ratio,
    focus, focused, follow, frequency, handed_out, mask_after, shaped, MaskView, ATTACK, EPSILON,
    RELEASE, TWO,
};
use vstd::arithmetic::power2::{
    lemma2_to64, lemma2_to64_rest, lemma_pow2_adds, lemma_pow2_pos, lemma_pow2_strictly_increases,
    pow2,
};
use vstd::prelude::*;

verus! {

/// Bin `k` of frames of `fft_size` samples lies at `k * sample_rate / fft_size` hertz, but for
/// rounding: at any sample rate, the bins divide it evenly.
pub proof fn bins_divide_the_sample_rate(k: int, fft_size: usize, sample_rate: u32)
    requires
        1 <= k <= usize::MAX,
        fft_size >= 1,
        sample_rate >= 1,
    ensures
        frequency(k, fft_size, sample_rate).finite(),
        frequency(k, fft_size, sample_rate).value() > 0,
        approx(
            frequency(k, fft_size, sample_rate).value(),
            (k * sample_rate) * pow2(149),
            fft_size as int,
            16,
        ),
{
    lemma_one();
    lemma2_to64();
    lemma2_to64_rest();
    let u = pow2(149) as int;
    let t = PARTS as int;
    let s = sample_rate as int;
    let n = fft_size as int;
    let a = count(k as nat);
    let b = count(sample_rate as nat);
    let c = count(fft_size as nat);
    approx_count(k as nat);
    approx_count(sample_rate as nat);
    approx_count(fft_size as nat);
    let x = a.value();
    let y = b.value();
    lemma_pow2_adds(64, 149);
    lemma_pow2_adds(1, 213);
    lemma_pow2_adds(32, 149);
    lemma_pow2_adds(1, 181);
    assert(x <= pow2(214)) by (nonlinear_arith)
        requires
            (x * 1) * t <= (k * u) * (t + 1),
            1 <= k <= pow2(64),
            u > 0,
            t == 0x100_0000,
            pow2(214) == 2 * pow2(213),
            pow2(213) == pow2(64) * u,
    ;
    assert(y <= pow2(182)) by (nonlinear_arith)
        requires
            (y * 1) * t <= (s * u) * (t + 1),
            1 <= s <= pow2(32),
            u > 0,
            t == 0x100_0000,
            pow2(182) == 2 * pow2(181),
            pow2(181) == pow2(32) * u,
    ;
    lemma_pow2_adds(214, 182);
    lemma_pow2_adds(276, 149);
    lemma_pow2_adds(23, 149);
    lemma_pow2_adds(149, 149);
    lemma_pow2_strictly_increases(396, 425);
    lemma_pow2_strictly_increases(172, 298);
    assert(u * u <= x * y <= pow2(214) * pow2(182)) by (nonlinear_arith)
        requires
            u <= x <= pow2(214),
            u <= y <= pow2(182),
            u > 0,
    ;
    approx_product(a, k * u, 1, 1, b, s * u, 1, 1);
    let p = product(a, b);
    let v = p.value();
    assert((k * u) * (s * u) == ((k * s) * u) * u) by (nonlinear_arith);
    assert((1int * 1int) * pow2(149) == 1 * u);
    lemma_approx_cancel(v, (k * s) * u, 1, u, 5);
    // The product lies far inside the range of numbers.
    lemma_pow2_adds(1, 148);
    lemma_pow2_adds(1, 247);
    lemma_pow2_adds(247, 149);
    assert(v >= pow2(148)) by (nonlinear_arith)
        requires
            (x * y) * (t - 1) <= (v * u) * t,
            u * u <= x * y,
            u == 2 * pow2(148),
            u > 0,
            t == 0x100_0000,
    ;
    assert(v <= pow2(248)) by (nonlinear_arith)
        requires
            (v * u) * t <= (x * y) * (t + 1),
            x * y <= pow2(247) * u,
            pow2(248) == 2 * pow2(247),
            u > 0,
            t == 0x100_0000,
            pow2(247) > 0,
    ;
    let z = c.value();
    lemma_pow2_adds(23, 213);
    lemma_pow2_adds(148, 149);
    lemma_pow2_adds(248, 149);
    lemma_pow2_strictly_increases(236, 297);
    lemma_pow2_strictly_increases(397, 425);
    assert(pow2(23) * z <= v * u) by (nonlinear_arith)
        requires
            z <= pow2(213),
            v >= pow2(148),
            pow2(23) * pow2(213) < pow2(148) * u,
            u > 0,
            pow2(23) > 0,
    ;
    assert(v * u <= pow2(276) * z) by (nonlinear_arith)
        requires
            v <= pow2(248),
            z >= u,
            pow2(248) * u < pow2(276) * u,
            u > 0,
            pow2(276) > 0,
    ;
    approx_quotient(p, (k * s) * u, 1, 5, c, n * u, 1, 1);
    let f = quotient(p, c).value();
    assert((((k * s) * u) * 1) * pow2(149) == ((k * s) * u) * u);
    assert(1 * (n * u) == n * u);
    lemma_approx_cancel(f, (k * s) * u, n, u, 10);
    let g = (k * s) * u;
    assert(g > 0) by (nonlinear_arith)
        requires
            g == (k * s) * u,
            k >= 1,
            s >= 1,
            u > 0,
    ;
    assert(g * (t - 16) <= g * (t - 10) && g * (t + 10) <= g * (t + 16)) by (nonlinear_arith)
        requires
            g > 0,
    ;
    assert(f > 0) by (nonlinear_arith)
        requires
            g * (t - 10) <= (f * n) * t,
            g > 0,
            n >= 1,
            t == 0x100_0000,
    ;
}

/// Whether bin `k` lies below a frequency in units, by more than rounding can tell.
pub open spec fn lies_below(k: int, fft_size: usize, sample_rate: u32, hz: int) -> bool {
    ((k * sample_rate) * pow2(149)) * (PARTS + 16) < (hz * fft_size) * PARTS
}

/// Whether bin `k` lies above a frequency in units, by more than rounding can tell.
pub open spec fn lies_above(k: int, fft_size: usize, sample_rate: u32, hz: int) -> bool {
    ((k * sample_rate) * pow2(149)) * (PARTS - 16) > (hz * fft_size) * PARTS
}

/// A bin that lies below or above a frequency is taken to lie there.
proof fn lemma_lies(k: int, fft_size: usize, sample_rate: u32, hz: int)
    requires
        0 <= k <= usize::MAX,
        fft_size >= 1,
        sample_rate >= 1,
    ensures
        frequency(k, fft_size, sample_rate).finite(),
        lies_below(k, fft_size, sample_rate, hz) ==> frequency(k, fft_size, sample_rate).value()
            < hz,
        lies_above(k, fft_size, sample_rate, hz) && k >= 1 ==> hz < frequency(
            k,
            fft_size,
            sample_rate,
        ).value(),
        k == 0 ==> frequency(k, fft_size, sample_rate).code() == 0,
{
    lemma_one();
    let f = frequency(k, fft_size, sample_rate);
    let u = pow2(149) as int;
    let n = fft_size as int;
    let t = PARTS as int;
    let h = hz;
    if k == 0 {
        approx_count(sample_rate as nat);
        approx_count(fft_size as nat);
        lemma_ratio_exact(0, 1);
        assert(0 * pow2(149) == 0);
        assert(count(0) == zero());
        lemma_zero_product(count(0), count(sample_rate as nat));
        lemma_mag_order(0, count(fft_size as nat).code());
        lemma_zero_quotient(
            product(count(0), count(sample_rate as nat)),
            count(fft_size as nat),
        );
        if lies_below(k, fft_size, sample_rate, hz) {
            assert((0 * sample_rate) * u == 0) by (nonlinear_arith);
            assert(h > 0) by (nonlinear_arith)
                requires
                    0 < (h * n) * t,
                    n >= 1,
                    t > 0,
            ;
        }
    } else {
        bins_divide_the_sample_rate(k, fft_size, sample_rate);
        let v = f.value();
        if lies_below(k, fft_size, sample_rate, hz) {
            assert(v < h) by (nonlinear_arith)
                requires
                    (v * n) * t < (h * n) * t,
                    n >= 1,
                    t > 0,
            ;
        }
        if lies_above(k, fft_size, sample_rate, hz) {
            assert(h < v) by (nonlinear_arith)
                requires
                    (h * n) * t < (v * n) * t,
                    n >= 1,
                    t > 0,
            ;
        }
    }
}

/// Below the protected frequency, in hertz and at any sample rate, the mask that is handed out
/// is one; above it, it is the smoothed mask, held up by the floor.
pub proof fn sub_bass_is_protected_in_hertz(
    before: MaskView,
    voice: Seq<Binary32>,
    music: Seq<Binary32>,
    gate: Binary32,
    floor: Binary32,
    config: MaskingConfig,
    k: int,
)
    requires
        0 <= k < before.smoothed.len(),
        before.smoothed.len() <= usize::MAX,
        before.fft_size >= 1,
        before.sample_rate >= 1,
        !config.sub_bass_protect_hz.nan(),
    ensures
        ({
            let after = mask_after(before, voice, music, gate, floor, config);
            let out = handed_out(
                after.smoothed,
                floor,
                before.fft_size,
                before.sample_rate,
                config,
            )[k];
            let hz = config.sub_bass_protect_hz.value();
            &&& lies_below(k, before.fft_size, before.sample_rate, hz) ==> out == one()
            &&& lies_above(k, before.fft_size, before.sample_rate, hz) && k >= 1
                && after.smoothed[k].at_most(floor) ==> out.value() == floor.value()
            &&& lies_above(k, before.fft_size, before.sample_rate, hz) && k >= 1 && floor.at_most(
                after.smoothed[k],
            ) ==> out == after.smoothed[k]
        }),
{
    lemma_lies(k, before.fft_size, before.sample_rate, config.sub_bass_protect_hz.value());
}

/// Twice a number is exact.
proof fn lemma_twice(x: Binary32)
    requires
        x.finite(),
        x.value() > 0,
        x.code() + BINADE < INFINITE,
    ensures
        product(x, Binary32 { bits: TWO }).finite(),
        product(x, Binary32 { bits: TWO }).value() == 2 * x.value(),
{
    lemma_one();
    lemma2_to64();
    let two = Binary32 { bits: TWO };
    lemma_mag_code(127, 0x80_0000);
    lemma_pow2_adds(23, 127);
    lemma_pow2_adds(1, 149);
    assert(size(two) == 2 * pow2(149));
    lemma_mag_order(0, x.code());
    let d = lemma_double_code(x.code());
    let u = pow2(149);
    lemma_product(x, two);
    assert(size(x) * size(two) == mag(d) * u) by (nonlinear_arith)
        requires
            size(two) == 2 * u,
            mag(d) == 2 * size(x),
    ;
    lemma_ratio_exact(d, u);
}

/// Half of a number is exact.
proof fn lemma_halved(x: Binary32)
    requires
        x.finite(),
        x.value() > 0,
        x.code() >= 2 * BINADE,
    ensures
        quotient(x, Binary32 { bits: TWO }).finite(),
        2 * quotient(x, Binary32 { bits: TWO }).value() == x.value(),
{
    lemma_one();
    lemma2_to64();
    let two = Binary32 { bits: TWO };
    lemma_mag_code(127, 0x80_0000);
    lemma_pow2_adds(23, 127);
    lemma_pow2_adds(1, 149);
    assert(size(two) == 2 * pow2(149));
    lemma_mag_order(0, x.code());
    let c = x.code();
    lemma_code_parts(c);
    let q = step_of(c);
    let m = steps_of(c);
    assert(q >= 1);
    let h = (q - 1) as nat;
    lemma_mag_code(h, m);
    lemma_pow2_adds(1, h);
    let d = h * BINADE as nat + m;
    let u = pow2(149);
    assert(2 * mag(d) == mag(c)) by (nonlinear_arith)
        requires
            mag(d) == m * pow2(h),
            mag(c) == m * pow2(q),
            pow2(q) == 2 * pow2(h),
    ;
    assert(size(x) * u == mag(d) * (2 * u)) by (nonlinear_arith)
        requires
            size(x) == 2 * mag(d),
    ;
    lemma_mag_order(d, c);
    lemma_quotient(x, two);
    lemma_ratio_exact(d, 2 * u);
}

/// Where two numbers lie near to each other, their difference is exact, and not too small.
proof fn lemma_close_difference(x: Binary32, y: Binary32)
    requires
        x.finite(),
        y.finite(),
        0 < y.value() <= x.value() <= 2 * y.value(),
        24 <= step_of(y.code()) <= 200,
    ensures
        difference(x, y).finite(),
        difference(x, y).value() == x.value() - y.value(),
        x.value() > y.value() ==> 0x100_0000 * difference(x, y).value() > y.value(),
{
    lemma_one();
    let t = y.turned();
    assert(t.code() == y.code());
    assert(t.value() == -y.value());
    lemma_mag_order(0, x.code());
    lemma_mag_order(0, y.code());
    lemma_mag_order(x.code(), y.code());
    let b = x.code();
    let c = y.code();
    lemma_code_parts(b);
    lemma_code_parts(c);
    let r = step_of(b);
    let q = step_of(c);
    let m = steps_of(c);
    assert(c / BINADE as nat <= b / BINADE as nat) by (nonlinear_arith)
        requires
            c <= b,
            BINADE == 0x80_0000,
    ;
    let j = (r - q) as nat;
    lemma_pow2_adds(j, q);
    lemma_pow2_pos(q);
    let k = steps_of(b) * pow2(j);
    let p = pow2(q);
    assert(mag(b) == k * p) by (nonlinear_arith)
        requires
            mag(b) == steps_of(b) * pow2(r),
            pow2(r) == pow2(j) * p,
            k == steps_of(b) * pow2(j),
    ;
    assert(k >= m) by (nonlinear_arith)
        requires
            k * p >= m * p,
            p > 0,
    ;
    assert(k <= 2 * m) by (nonlinear_arith)
        requires
            k * p <= 2 * (m * p),
            p > 0,
    ;
    let n = (k - m) as nat;
    assert(n * p == k * p - m * p) by (nonlinear_arith)
        requires
            n == k - m,
    ;
    lemma_steps_exact(n, q);
    lemma_sum(x, t);
    let v = difference(x, y);
    lemma_mag_order(0, v.code());
    lemma_mag_order(v.code(), y.code());
    assert(v.value() == n * p);
    assert(size(v) <= size(y));
    if n >= 1 {
        assert(0x100_0000 * (n * p) > m * p) by (nonlinear_arith)
            requires
                n >= 1,
                m < 0x100_0000,
                p > 0,
        ;
    }
}

/// Whether a focus band is one: edges in order, between one hertz and a thousand gigahertz.
pub open spec fn is_band(low_hz: Binary32, high_hz: Binary32) -> bool {
    &&& low_hz.finite()
    &&& high_hz.finite()
    &&& pow2(149) <= low_hz.value() <= high_hz.value() <= pow2(189)
}

/// The codes of frequencies lie far inside the range of numbers.
proof fn lemma_hertz(x: Binary32)
    requires
        x.finite(),
        pow2(149) <= x.value() <= pow2(190),
    ensures
        ONE <= x.code() <= ONE + 41 * BINADE,
        126 <= step_of(x.code()) <= 168,
        !x.negative(),
        size(x) == x.value(),
{
    lemma_one();
    lemma2_to64();
    lemma_mag_order(0, x.code());
    lemma_mag_order(ONE as nat, x.code());
    lemma_mag_code(167, 0x80_0000);
    lemma_pow2_adds(23, 167);
    let top = 167 * 0x80_0000nat + 0x80_0000;
    lemma_mag_order(x.code(), top);
    lemma_code_parts(x.code());
    let c = x.code();
    assert(127 <= c / BINADE as nat <= 168) by (nonlinear_arith)
        requires
            ONE <= c <= top,
            top == 168 * 0x80_0000,
            ONE == 127 * 0x80_0000,
            BINADE == 0x80_0000,
    ;
}

/// The weight of a frequency in the focus band, in numbers: one from edge to edge, zero from
/// one octave outside on, and in proportion to the distance in between.
pub proof fn focus_follows_the_band(freq: Binary32, low_hz: Binary32, high_hz: Binary32)
    requires
        is_band(low_hz, high_hz),
        freq.finite(),
    ensures
        ({
            let w = focus(freq, low_hz, high_hz);
            let f = freq.value();
            let low = low_hz.value();
            let high = high_hz.value();
            &&& is_share(w)
            &&& low <= f <= high ==> w == one()
            &&& 2 * f <= low || f >= 2 * high ==> w.code() == 0
            &&& low < 2 * f && f < low ==> approx(w.value(), (2 * f - low) * pow2(149), low, 1)
            &&& high < f && f < 2 * high ==> approx(
                w.value(),
                (2 * high - f) * pow2(149),
                high,
                1,
            )
        }),
{
    lemma_one();
    lemma2_to64();
    lemma_pow2_strictly_increases(189, 190);
    lemma_pow2_adds(1, 189);
    lemma_hertz(low_hz);
    lemma_hertz(high_hz);
    lemma_halved(low_hz);
    lemma_twice(high_hz);
    let two = Binary32 { bits: TWO };
    let under = quotient(low_hz, two);
    let over = product(high_hz, two);
    let f = freq.value();
    let low = low_hz.value();
    let high = high_hz.value();
    let w = focus(freq, low_hz, high_hz);
    lemma_mag_order(0, freq.code());
    if low < 2 * f && f < low {
        lemma_under(freq, low_hz);
    } else if high < f && f < 2 * high {
        lemma_over(freq, high_hz);
    }
}

/// The taper below the band.
proof fn lemma_under(freq: Binary32, low_hz: Binary32)
    requires
        low_hz.finite(),
        pow2(149) <= low_hz.value() <= pow2(189),
        freq.finite(),
        low_hz.value() < 2 * freq.value(),
        freq.value() < low_hz.value(),
    ensures
        ({
            let under = quotient(low_hz, Binary32 { bits: TWO });
            let w = quotient(difference(freq, under), difference(low_hz, under));
            &&& is_share(w)
            &&& approx(
                w.value(),
                (2 * freq.value() - low_hz.value()) * pow2(149),
                low_hz.value(),
                1,
            )
        }),
{
    lemma_one();
    lemma2_to64();
    lemma_pow2_strictly_increases(189, 190);
    lemma_hertz(low_hz);
    lemma_halved(low_hz);
    let under = quotient(low_hz, Binary32 { bits: TWO });
    let h = under.value();
    // Half of the edge is at least half a hertz.
    lemma_mag_order(0, under.code());
    lemma_mag_order(0, freq.code());
    lemma_mag_code(125, 0x80_0000);
    lemma_pow2_adds(23, 125);
    lemma_pow2_adds(1, 148);
    let bottom = 125 * 0x80_0000nat + 0x80_0000;
    lemma_mag_order(bottom, under.code());
    lemma_mag_order(under.code(), low_hz.code());
    lemma_code_parts(under.code());
    let c = under.code();
    assert(126 <= c / BINADE as nat <= 168) by (nonlinear_arith)
        requires
            bottom <= c <= 168 * 0x80_0000,
            bottom == 126 * 0x80_0000,
            BINADE == 0x80_0000,
    ;
    lemma_close_difference(freq, under);
    lemma_close_difference(low_hz, under);
    lemma_taper(difference(freq, under), difference(low_hz, under));
    let w = quotient(difference(freq, under), difference(low_hz, under));
    let a = freq.value() - h;
    let u = pow2(149) as int;
    assert(a * u * 2 == (2 * freq.value() - low_hz.value()) * u) by (nonlinear_arith)
        requires
            2 * a == 2 * freq.value() - low_hz.value(),
    ;
    lemma_approx_scale(w.value(), a * u, h, 2, 1);
}

/// The taper above the band.
proof fn lemma_over(freq: Binary32, high_hz: Binary32)
    requires
        high_hz.finite(),
        pow2(149) <= high_hz.value() <= pow2(189),
        freq.finite(),
        high_hz.value() < freq.value(),
        freq.value() < 2 * high_hz.value(),
    ensures
        ({
            let over = product(high_hz, Binary32 { bits: TWO });
            let w = quotient(difference(over, freq), difference(over, high_hz));
            &&& is_share(w)
            &&& approx(
                w.value(),
                (2 * high_hz.value() - freq.value()) * pow2(149),
                high_hz.value(),
                1,
            )
        }),
{
    lemma_one();
    lemma2_to64();
    lemma_pow2_strictly_increases(189, 190);
    lemma_pow2_adds(1, 189);
    lemma_hertz(high_hz);
    lemma_twice(high_hz);
    let over = product(high_hz, Binary32 { bits: TWO });
    lemma_hertz(freq);
    lemma_close_difference(over, freq);
    lemma_close_difference(over, high_hz);
    lemma_taper(difference(over, freq), difference(over, high_hz));
}

/// The quotient of two distances.
proof fn lemma_taper(x: Binary32, y: Binary32)
    requires
        x.finite(),
        y.finite(),
        0 < x.value() <= y.value(),
        0x200_0000 * x.value() > y.value(),
    ensures
        is_share(quotient(x, y)),
        approx(quotient(x, y).value(), x.value() * pow2(149), y.value(), 1),
{
    lemma_one();
    lemma2_to64();
    let u = pow2(149) as int;
    let a = x.value();
    let b = y.value();
    lemma_pow2_adds(25, 124);
    lemma_pow2_strictly_increases(23, 124);
    lemma_pow2_strictly_increases(149, 276);
    assert(pow2(23) * b <= a * u) by (nonlinear_arith)
        requires
            u == 0x200_0000 * pow2(124),
            0x200_0000 * a > b,
            pow2(23) < pow2(124),
            a > 0,
            b > 0,
    ;
    assert(a * u <= pow2(276) * b) by (nonlinear_arith)
        requires
            a <= b,
            u < pow2(276),
            a > 0,
            u > 0,
    ;
    assert(approx(a, a, 1, 0));
    assert(approx(b, b, 1, 0));
    approx_quotient(x, a, 1, 0, y, b, 1, 0);
    lemma_mag_order(0, x.code());
    lemma_mag_order(0, y.code());
    lemma_quotient_below(x, y);
    lemma_mag_order(0, quotient(x, y).code());
}

/// A common factor of numerator and denominator can be put in.
proof fn lemma_approx_scale(v: int, n: int, d: int, c: int, k: int)
    requires
        approx(v, n, d, k),
        c > 0,
    ensures
        approx(v, n * c, d * c, k),
{
    let t = PARTS as int;
    assert((n * c) * (t - k) == (n * (t - k)) * c) by (nonlinear_arith);
    assert((n * c) * (t + k) == (n * (t + k)) * c) by (nonlinear_arith);
    assert((v * (d * c)) * t == ((v * d) * t) * c) by (nonlinear_arith);
    assert((n * (t - k)) * c <= ((v * d) * t) * c) by (nonlinear_arith)
        requires
            n * (t - k) <= (v * d) * t,
            c > 0,
    ;
    assert(((v * d) * t) * c <= (n * (t + k)) * c) by (nonlinear_arith)
        requires
            (v * d) * t <= n * (t + k),
            c > 0,
    ;
}

/// The weight that masking has at a frequency is one less the share of the focus strength that
/// the band takes away, but for 2 to the power of -23: at full strength the weight of the band,
/// without strength one everywhere.
pub proof fn focus_counts_by_its_strength(freq: Binary32, config: MaskingConfig)
    requires
        is_band(config.focus_low_hz, config.focus_high_hz),
        freq.finite(),
        is_share(config.focus_strength),
    ensures
        ({
            let u = pow2(149);
            let w = focus(freq, config.focus_low_hz, config.focus_high_hz).value();
            let exact = u * u - config.focus_strength.value() * (u - w);
            &&& is_share(focused(freq, config))
            &&& -(pow2(126) * u) <= focused(freq, config).value() * u - exact <= pow2(126) * u
            &&& w == u || config.focus_strength.code() == 0 ==> focused(freq, config) == one()
            &&& w == 0 && config.focus_strength == one() ==> focused(freq, config).code() == 0
        }),
{
    lemma_one();
    focus_follows_the_band(freq, config.focus_low_hz, config.focus_high_hz);
    let f = focus(freq, config.focus_low_hz, config.focus_high_hz);
    let s = config.focus_strength;
    lemma_share(s);
    lemma_share(f);
    blend_near_mean(s, f, one());
    shares_stay_shares(s, f, one());
    let u = pow2(149) as int;
    let w = f.value();
    let v = s.value();
    assert(v * w + (u - v) * u == u * u - v * (u - w)) by (nonlinear_arith);
    if w == u {
        lemma_mag_order(f.code(), ONE as nat);
        one_stays_one(s);
    }
    let rest = difference(one(), s);
    if s.code() == 0 {
        lemma_zero_product(s, f);
        lemma_ratio_exact(ONE as nat, 1);
        assert(rest == one());
        one_changes_nothing(one());
        let z = product(s, f);
        assert(sum(z, one()) == one()) by {
            lemma_ratio_exact(ONE as nat, 1);
        }
    }
    if w == 0 && s == one() {
        lemma_mag_order(0, f.code());
        lemma_zero_product(s, f);
        let t = s.turned();
        assert(rest.code() == 0);
        lemma_zero_product(rest, one());
        lemma_zero_sum(product(s, f), product(rest, one()));
    }
}

/// The mask of a bin by itself, by where it lies: its ratio's mask inside of the band or without
/// focus strength, and one outside of the band at full strength.
pub proof fn shape_follows_the_band(
    voice: Binary32,
    music: Binary32,
    floor: Binary32,
    freq: Binary32,
    config: MaskingConfig,
)
    requires
        is_band(config.focus_low_hz, config.focus_high_hz),
        freq.finite(),
        is_share(config.focus_strength),
        is_share(by_ratio(voice, music, floor, config)),
    ensures
        ({
            let low = config.focus_low_hz.value();
            let high = config.focus_high_hz.value();
            let f = freq.value();
            let own = shaped(voice, music, floor, freq, config);
            let ratio_mask = by_ratio(voice, music, floor, config).value();
            &&& is_share(own)
            &&& freq.less(config.sub_bass_protect_hz) ==> own == one()
            &&& !freq.less(config.sub_bass_protect_hz) ==> counted(
                ratio_mask,
                focused(freq, config).value(),
                own.value(),
            )
            &&& (2 * f <= low || f >= 2 * high) && config.focus_strength == one() ==> own == one()
            &&& !freq.less(config.sub_bass_protect_hz) && (low <= f <= high
                || config.focus_strength.code() == 0) ==> -pow2(126) <= own.value() - ratio_mask
                <= pow2(126)
        }),
{
    lemma_one();
    focus_follows_the_band(freq, config.focus_low_hz, config.focus_high_hz);
    focus_counts_by_its_strength(freq, config);
    let t = focused(freq, config);
    let raw = if freq.less(config.sub_bass_protect_hz) {
        one()
    } else {
        by_ratio(voice, music, floor, config)
    };
    lemma_share(t);
    lemma_share(raw);
    between_near_exact(raw, t);
    let u = pow2(149) as int;
    let e = pow2(126) as int;
    let r = between(one(), raw, t).value();
    if freq.less(config.sub_bass_protect_hz) {
        lemma_one_between(t);
    }
    let d = difference(raw, one());
    if t.code() == 0 {
        lemma_share_minus_one(raw);
        lemma_zero_product(t, d);
        assert(sum(one(), product(t, d)) == one()) by {
            lemma_ratio_exact(ONE as nat, 1);
        }
    }
    if t == one() {
        let b = raw.value();
        assert(u * u - u * (u - b) == u * b) by (nonlinear_arith);
        assert(-e <= r - b <= e) by (nonlinear_arith)
            requires
                -(e * u) <= r * u - u * b <= e * u,
                u > 0,
        ;
    }
}

/// What a share lacks to one is finite.
proof fn lemma_share_minus_one(x: Binary32)
    requires
        is_share(x),
    ensures
        difference(x, one()).finite(),
{
    lemma_one();
    lemma_share(x);
    let m = one().turned();
    assert(m.value() == -one().value());
    let d = difference(x, one());
    lemma_sum(x, m);
    lemma_near_order(m.value(), x.value() + m.value());
    lemma_near_order(x.value() + m.value(), 0);
    lemma_near_exact(ONE as nat);
    lemma_near_exact(0);
    lemma_mag_order(d.code(), ONE as nat);
    lemma_mag_order(0, d.code());
}

/// What keeps quotients from a zero divisor is 1e-10, but for a ten-millionth of it.
pub proof fn epsilon_is_tiny()
    ensures
        (Binary32 { bits: EPSILON }).finite(),
        approx((Binary32 { bits: EPSILON }).value() * 10_000_000_000, pow2(149) as int, 1, 1),
        pow2(115) <= (Binary32 { bits: EPSILON }).value() <= pow2(116),
{
    lemma_one();
    lemma2_to64();
    lemma2_to64_rest();
    lemma_mag_code(92, 0xdb_e6ff);
    lemma_pow2_adds(57, 92);
    lemma_pow2_adds(23, 92);
    lemma_pow2_adds(24, 92);
    let p = pow2(92);
    lemma_pow2_pos(92);
    let e = (Binary32 { bits: EPSILON }).value();
    assert(e == 0xdb_e6ff * p);
    assert(pow2(57) == 0x200_0000_0000_0000);
    assert(pow2(149) == 0x200_0000_0000_0000 * p);
    assert(approx(e * 10_000_000_000, pow2(149) as int, 1, 1)) by (nonlinear_arith)
        requires
            e == 0xdb_e6ff * p,
            pow2(149) == 0x200_0000_0000_0000 * p,
            p > 0,
            PARTS == 0x100_0000,
    ;
}

/// Whether magnitudes and settings lie where masks can be told in numbers: a voice that is not
/// too faint, nothing too loud, and a sensitivity between a thousandth and a thousand.
pub open spec fn tellable(voice: Binary32, music: Binary32, config: MaskingConfig) -> bool {
    &&& voice.finite()
    &&& pow2(119) <= voice.value() <= pow2(179)
    &&& music.finite()
    &&& 0 <= music.value() <= pow2(179)
    &&& config.sensitivity.finite()
    &&& pow2(139) <= config.sensitivity.value() <= pow2(159)
}

/// The share of voice in a bin: voice times sensitivity by music, but for rounding.
proof fn lemma_scaled_ratio(voice: Binary32, music: Binary32, config: MaskingConfig)
    requires
        tellable(voice, music, config),
    ensures
        ({
            let e = Binary32 { bits: EPSILON };
            let p = product(quotient(voice, sum(music, e)), config.sensitivity);
            &&& p.finite()
            &&& p.value() >= 0
            &&& approx(
                p.value(),
                voice.value() * config.sensitivity.value(),
                music.value() + e.value(),
                8,
            )
        }),
{
    lemma_one();
    epsilon_is_tiny();
    let e = Binary32 { bits: EPSILON };
    let u = pow2(149) as int;
    let t = PARTS as int;
    let v = voice.value();
    let s = config.sensitivity.value();
    let m = music.value() + e.value();
    let d = sum(music, e);
    lemma2_to64();
    lemma_pow2_strictly_increases(116, 179);
    lemma_pow2_adds(1, 179);
    lemma_pow2_adds(1, 180);
    lemma_pow2_strictly_increases(23, 115);
    lemma_pow2_strictly_increases(180, 276);
    lemma_sum(music, e);
    lemma_rounded_approx(m as nat, 1);
    lemma_mag_order(0, d.code());
    let w = d.value();
    assert(w == near(m as nat));
    lemma_pow2_adds(1, 114);
    assert(pow2(114) <= w <= pow2(181)) by (nonlinear_arith)
        requires
            m * (t - 1) <= (w * 1) * t <= m * (t + 1),
            pow2(115) <= m <= pow2(180),
            pow2(115) == 2 * pow2(114),
            pow2(181) == 2 * pow2(180),
            t == 0x100_0000,
    ;
    lemma_pow2_strictly_increases(181, 277);
    lemma_mag_code(254, 0x80_0000);
    lemma_pow2_adds(23, 254);
    lemma_mag_order(d.code(), INFINITE as nat);
    assert(d.finite());
    lemma_pow2_adds(23, 181);
    lemma_pow2_adds(119, 149);
    lemma_pow2_adds(179, 149);
    lemma_pow2_adds(276, 114);
    lemma_pow2_strictly_increases(204, 268);
    lemma_pow2_strictly_increases(328, 390);
    assert(pow2(23) * w <= v * u) by (nonlinear_arith)
        requires
            0 < w <= pow2(181),
            v >= pow2(119),
            pow2(23) * pow2(181) < pow2(119) * u,
            u > 0,
            pow2(23) > 0,
    ;
    assert(v * u <= pow2(276) * w) by (nonlinear_arith)
        requires
            v <= pow2(179),
            w >= pow2(114),
            pow2(179) * u < pow2(276) * pow2(114),
            u > 0,
            pow2(276) > 0,
    ;
    assert(approx(v, v, 1, 0));
    approx_quotient(voice, v, 1, 0, d, m, 1, 1);
    let q = quotient(voice, d);
    let x = q.value();
    assert(pow2(119) * u <= v * u <= pow2(179) * u) by (nonlinear_arith)
        requires
            pow2(119) <= v <= pow2(179),
            u > 0,
    ;
    lemma_pow2_adds(1, 86);
    lemma_pow2_adds(87, 181);
    lemma_pow2_adds(1, 214);
    lemma_pow2_adds(214, 114);
    lemma_pow2_pos(86);
    lemma_pow2_pos(214);
    assert(x >= pow2(86)) by (nonlinear_arith)
        requires
            (v * u) * (t - 1) <= (x * w) * t,
            pow2(87) * pow2(181) <= v * u,
            0 < w <= pow2(181),
            pow2(87) == 2 * pow2(86),
            t == 0x100_0000,
            pow2(86) > 0,
    ;
    assert(x <= pow2(215)) by (nonlinear_arith)
        requires
            (x * w) * t <= (v * u) * (t + 1),
            v * u <= pow2(214) * pow2(114),
            w >= pow2(114),
            pow2(215) == 2 * pow2(214),
            t == 0x100_0000,
            pow2(114) > 0,
            pow2(214) > 0,
    ;
    lemma_pow2_adds(23, 149);
    lemma_pow2_adds(276, 149);
    lemma_pow2_adds(86, 139);
    lemma_pow2_adds(215, 159);
    lemma_pow2_strictly_increases(172, 225);
    lemma_pow2_strictly_increases(374, 425);
    lemma_pow2_pos(139);
    assert(pow2(86) * pow2(139) <= x * s <= pow2(215) * pow2(159)) by (nonlinear_arith)
        requires
            pow2(86) <= x <= pow2(215),
            pow2(139) <= s <= pow2(159),
            pow2(86) > 0,
            pow2(139) > 0,
    ;
    lemma_mag_order(0, config.sensitivity.code());
    assert(approx(s, s, 1, 0));
    approx_product(q, (v * 1) * u, 1 * m, 5, config.sensitivity, s, 1, 0);
    let p = product(q, config.sensitivity);
    assert(((v * 1) * u) * s == (v * s) * u) by (nonlinear_arith);
    assert(((1 * m) * 1) * u == m * u);
    lemma_approx_cancel(p.value(), v * s, m, u, 8);
}

/// The mask of a bin by the ratio of voice to music, in numbers. Where the voice, times the
/// sensitivity, leaves no room, the mask is one less the depth's share of all that the floor
/// leaves to take; else it is one less the depth's share of voice times sensitivity by music.
/// Both but for rounding.
pub proof fn masks_follow_the_ratio(
    voice: Binary32,
    music: Binary32,
    floor: Binary32,
    config: MaskingConfig,
)
    requires
        tellable(voice, music, config),
        is_share(floor),
        is_share(config.depth),
    ensures
        ({
            let u = pow2(149);
            let m = music.value() + (Binary32 { bits: EPSILON }).value();
            let loud = voice.value() * config.sensitivity.value();
            let depth = config.depth.value();
            let mask = by_ratio(voice, music, floor, config);
            let room = u - floor.value();
            &&& is_share(mask)
            &&& loud * (PARTS - 8) >= ((room + pow2(124)) * m) * PARTS ==> -(pow2(126) * u)
                <= mask.value() * u - (u * u - depth * room) <= pow2(126) * u
            &&& loud * (PARTS + 8) <= ((room - pow2(124)) * m) * PARTS ==> {
                let taken = ((u - mask.value()) * u) * m;
                -(pow2(125) * u) * m * PARTS - 8 * (depth * loud) <= (taken - depth * loud)
                    * PARTS <= (pow2(125) * u) * m * PARTS + 8 * (depth * loud)
            }
        }),
{
    lemma_one();
    lemma2_to64();
    epsilon_is_tiny();
    lemma_scaled_ratio(voice, music, config);
    lemma_share(floor);
    lemma_share(config.depth);
    let e = Binary32 { bits: EPSILON };
    let p = product(quotient(voice, sum(music, e)), config.sensitivity);
    let room = difference(one(), floor);
    let scaled = p.held(zero(), room);
    let u = pow2(149) as int;
    let t = PARTS as int;
    let h = pow2(124) as int;
    lemma_pow2_adds(2, 124);
    lemma_pow2_adds(1, 124);
    lemma_pow2_pos(124);
    lemma_pow2_pos(115);
    lemma_near_error((u - floor.value()) as nat);
    lemma_share(room);
    assert(is_share(scaled)) by {
        lemma_mag_order(0, p.code());
    }
    lemma_share(scaled);
    let x = product(config.depth, scaled);
    lemma_product(config.depth, scaled);
    lemma_product_below(config.depth, scaled);
    crate::blend::lemma_share_product(config.depth, scaled);
    let depth = config.depth.value();
    let sc = scaled.value();
    assert(size(config.depth) * size(scaled) <= pow2(149) * pow2(149)) by (nonlinear_arith)
        requires
            size(config.depth) <= pow2(149),
            size(scaled) <= pow2(149),
    ;
    lemma_ratio_error(size(config.depth) * size(scaled), pow2(149), 0);
    assert(is_share(x));
    lemma_share(x);
    lemma_near_error((u - x.value()) as nat);
    let mask = by_ratio(voice, music, floor, config);
    assert(mask == difference(one(), x));
    let y = x.value();
    let k = mask.value();
    assert(-h <= k - (u - y) <= h);
    assert(-(h * u) <= k * u - (u - y) * u <= h * u) by (nonlinear_arith)
        requires
            -h <= k - (u - y) <= h,
            u > 0,
    ;
    assert((u - y) * u == u * u - y * u) by (nonlinear_arith);
    assert(-(h * u) <= y * u - depth * sc <= h * u);
    let m = music.value() + e.value();
    let loud = voice.value() * config.sensitivity.value();
    let r = u - floor.value();
    assert((4 * h) * u == 4 * (h * u)) by (nonlinear_arith);
    assert((2 * h) * u == 2 * (h * u)) by (nonlinear_arith);
    assert(h * u >= 0) by (nonlinear_arith)
        requires
            h >= 0,
            u > 0,
    ;
    if loud * (t - 8) >= ((r + h) * m) * t {
        assert(p.value() >= r + h) by (nonlinear_arith)
            requires
                (p.value() * m) * t >= ((r + h) * m) * t,
                m > 0,
                t > 0,
        ;
        assert(sc == room.value());
        assert(-(h * u) <= depth * sc - depth * r <= h * u) by (nonlinear_arith)
            requires
                -h <= sc - r <= h,
                0 <= depth <= u,
                h >= 0,
        ;
    }
    if loud * (t + 8) <= ((r - h) * m) * t {
        assert(p.value() <= r - h) by (nonlinear_arith)
            requires
                (p.value() * m) * t <= ((r - h) * m) * t,
                m > 0,
                t > 0,
        ;
        assert(sc == p.value());
        let off = (u - k) * u;
        assert((u - k) * u == u * u - k * u) by (nonlinear_arith);
        assert(-(2 * (h * u)) <= off - depth * sc <= 2 * (h * u));
        // Both times what the music is.
        let g = (2 * h) * u;
        let z = depth * sc;
        assert(-(g * m) * t <= (off * m - z * m) * t <= (g * m) * t) by (nonlinear_arith)
            requires
                -g <= off - z <= g,
                m > 0,
                t > 0,
        ;
        assert(-(8 * (depth * loud)) <= (z * m) * t - (depth * loud) * t <= 8 * (depth * loud))
            by (nonlinear_arith)
            requires
                z == depth * sc,
                loud * (t - 8) <= (sc * m) * t <= loud * (t + 8),
                depth >= 0,
        ;
        assert((off * m - z * m) * t == (off * m) * t - (z * m) * t) by (nonlinear_arith);
        assert((off * m - depth * loud) * t == (off * m) * t - (depth * loud) * t)
            by (nonlinear_arith);
        assert(-(pow2(125) * u) * m * t == -(g * m) * t) by (nonlinear_arith)
            requires
                g == pow2(125) * u,
        ;
        assert((pow2(125) * u) * m * t == (g * m) * t) by (nonlinear_arith)
            requires
                g == pow2(125) * u,
        ;
    }
}

/// The weights of smoothing are three tenths while a mask falls and 85 hundredths while it
/// rises, but for rounding.
proof fn lemma_weights_in_numbers()
    ensures
        is_share(Binary32 { bits: ATTACK }),
        is_share(Binary32 { bits: RELEASE }),
        -pow2(126) <= 10 * (Binary32 { bits: ATTACK }).value() - 3 * pow2(149) <= pow2(126),
        -pow2(131) <= 100 * (Binary32 { bits: RELEASE }).value() - 85 * pow2(149) <= pow2(131),
{
    lemma_one();
    lemma2_to64();
    lemma_mag_order(ATTACK as nat, ONE as nat);
    lemma_mag_order(RELEASE as nat, ONE as nat);
    lemma_mag_order(0, ATTACK as nat);
    lemma_mag_order(0, RELEASE as nat);
    lemma_mag_code(124, 0x99_999a);
    lemma_mag_code(125, 0xd9_999a);
    lemma_pow2_adds(25, 124);
    lemma_pow2_adds(24, 125);
    lemma_pow2_adds(2, 124);
    lemma_pow2_adds(6, 125);
    lemma_pow2_pos(124);
    lemma_pow2_pos(125);
}

/// A mask goes seven tenths of the way at once when it falls, and 15 hundredths when it rises,
/// but for rounding.
pub proof fn masks_fall_fast_and_rise_slowly(old_value: Binary32, m: Binary32)
    requires
        is_share(old_value),
        is_share(m),
    ensures
        is_share(follow(old_value, m)),
        m.less(old_value) ==> -pow2(130) <= 10 * follow(old_value, m).value() - 3
            * old_value.value() - 7 * m.value() <= pow2(130),
        !m.less(old_value) ==> -pow2(134) <= 100 * follow(old_value, m).value() - 85
            * old_value.value() - 15 * m.value() <= pow2(134),
{
    lemma_one();
    lemma2_to64();
    lemma_weights_in_numbers();
    lemma_share(old_value);
    lemma_share(m);
    let w = if m.less(old_value) {
        Binary32 { bits: ATTACK }
    } else {
        Binary32 { bits: RELEASE }
    };
    lemma_share(w);
    blend_near_mean(w, old_value, m);
    shares_stay_shares(w, old_value, m);
    let u = pow2(149) as int;
    let e = pow2(126) as int;
    lemma_pow2_adds(4, 126);
    lemma_pow2_adds(5, 126);
    lemma_pow2_adds(8, 126);
    lemma_pow2_pos(126);
    let r = follow(old_value, m).value();
    let x = old_value.value();
    let y = m.value();
    let a = w.value();
    let d = x - y;
    assert(a * x + (u - a) * y == a * d + u * y) by (nonlinear_arith)
        requires
            d == x - y,
    ;
    if m.less(old_value) {
        let g = 10 * a - 3 * u;
        assert(10 * (a * d) == (3 * u) * d + g * d) by (nonlinear_arith)
            requires
                g == 10 * a - 3 * u,
        ;
        assert(-(e * u) <= g * d <= e * u) by (nonlinear_arith)
            requires
                -e <= g <= e,
                -u <= d <= u,
                e >= 0,
                u > 0,
        ;
        let f = 10 * r - 3 * x - 7 * y;
        assert(f * u == 10 * (r * u) - (3 * u) * d - 10 * (u * y)) by (nonlinear_arith)
            requires
                f == 10 * r - 3 * x - 7 * y,
                d == x - y,
        ;
        assert(-(16 * e) <= f <= 16 * e) by (nonlinear_arith)
            requires
                -(11 * (e * u)) <= f * u <= 11 * (e * u),
                u > 0,
                e >= 0,
        ;
    } else {
        let g = 100 * a - 85 * u;
        assert(100 * (a * d) == (85 * u) * d + g * d) by (nonlinear_arith)
            requires
                g == 100 * a - 85 * u,
        ;
        assert(-(32 * (e * u)) <= g * d <= 32 * (e * u)) by (nonlinear_arith)
            requires
                -(32 * e) <= g <= 32 * e,
                -u <= d <= u,
                e >= 0,
                u > 0,
        ;
        let f = 100 * r - 85 * x - 15 * y;
        assert(f * u == 100 * (r * u) - (85 * u) * d - 100 * (u * y)) by (nonlinear_arith)
            requires
                f == 100 * r - 85 * x - 15 * y,
                d == x - y,
        ;
        assert(-(256 * e) <= f <= 256 * e) by (nonlinear_arith)
            requires
                -(132 * (e * u)) <= f * u <= 132 * (e * u),
                u > 0,
                e >= 0,
        ;
    }
}

/// Whether bin `k` lies outside of the focus band and its tapers, by more than rounding can
/// tell: an octave below it or an octave above it.
pub open spec fn lies_outside(
    k: int,
    fft_size: usize,
    sample_rate: u32,
    config: MaskingConfig,
) -> bool {
    ||| k == 0
    ||| ((2 * (k * sample_rate)) * pow2(149)) * (PARTS + 16) < (config.focus_low_hz.value()
        * fft_size) * PARTS
    ||| lies_above(k, fft_size, sample_rate, 2 * config.focus_high_hz.value())
}

/// Outside of the focus band, in hertz and at any sample rate, full focus strength leaves the
/// music alone: a bin that no mask has touched stays untouched, however loud the voice is, where
/// it and the bins that are averaged with it lie an octave or more outside of the band.
pub proof fn bin_outside_the_band_is_untouched(
    before: MaskView,
    voice: Seq<Binary32>,
    music: Seq<Binary32>,
    gate: Binary32,
    floor: Binary32,
    config: MaskingConfig,
    k: int,
)
    requires
        before.smoothed.len() == bins(before.fft_size),
        0 <= k < bins(before.fft_size),
        before.smoothed[k] == one(),
        before.fft_size >= 1,
        before.sample_rate >= 1,
        floor.at_most(one()),
        gate.finite(),
        is_band(config.focus_low_hz, config.focus_high_hz),
        config.focus_strength == one(),
        mean_end(k, config.spectral_smooth_bins, bins(before.fft_size)) - mean_start(
            k,
            config.spectral_smooth_bins,
        ) <= 0x100_0000,
        forall|j: int|
            mean_start(k, config.spectral_smooth_bins) <= j < mean_end(
                k,
                config.spectral_smooth_bins,
                bins(before.fft_size),
            ) ==> {
                &&& is_share(by_ratio(#[trigger] voice[j], music[j], floor, config))
                &&& lies_outside(j, before.fft_size, before.sample_rate, config)
            },
    ensures
        mask_after(before, voice, music, gate, floor, config).smoothed[k] == one(),
        handed_out(
            mask_after(before, voice, music, gate, floor, config).smoothed,
            floor,
            before.fft_size,
            before.sample_rate,
            config,
        )[k] == one(),
{
    lemma_one();
    let width = config.spectral_smooth_bins;
    let n = before.fft_size;
    let rate = before.sample_rate;
    assert forall|j: int|
        mean_start(k, width) <= j < mean_end(k, width, bins(n)) implies shaped(
        #[trigger] voice[j],
        music[j],
        floor,
        frequency(j, n, rate),
        config,
    ) == one() by {
        assert(is_share(by_ratio(voice[j], music[j], floor, config)));
        let freq = frequency(j, n, rate);
        let high = 2 * config.focus_high_hz.value();
        lemma_lies(j, n, rate, high);
        assert(is_share(one()));
        if j >= 1 && !lies_above(j, n, rate, high) {
            bins_divide_the_sample_rate(j, n, rate);
            let f = freq.value();
            let low = config.focus_low_hz.value();
            let u = pow2(149) as int;
            let t = PARTS as int;
            let m = n as int;
            let g = (j * rate) * u;
            assert((2 * (j * rate)) * u == 2 * g) by (nonlinear_arith)
                requires
                    g == (j * rate) * u,
            ;
            assert((2 * g) * (t + 16) == 2 * (g * (t + 16))) by (nonlinear_arith);
            assert(2 * ((f * m) * t) < (low * m) * t);
            assert(2 * f < low) by (nonlinear_arith)
                requires
                    2 * ((f * m) * t) < (low * m) * t,
                    m >= 1,
                    t > 0,
            ;
        }
        lemma_mag_order(0, freq.code());
        shape_follows_the_band(voice[j], music[j], floor, freq, config);
    }
    lemma_shapes_of_one(before, voice, music, gate, floor, config, k);
}

/// Inside of the focus band, in hertz and at any sample rate, an open voice gate lets each bin
/// follow the mask of its own ratio of voice to music, where no bins are averaged: quickly down
/// and slowly up, but for rounding.
pub proof fn bin_inside_the_band_follows_its_ratio(
    before: MaskView,
    voice: Seq<Binary32>,
    music: Seq<Binary32>,
    gate: Binary32,
    floor: Binary32,
    config: MaskingConfig,
    k: int,
)
    requires
        before.smoothed.len() == bins(before.fft_size),
        1 <= k < bins(before.fft_size),
        before.fft_size >= 1,
        before.sample_rate >= 1,
        is_share(before.smoothed[k]),
        is_share(floor),
        gate == one(),
        config.spectral_smooth_bins <= 1,
        is_band(config.focus_low_hz, config.focus_high_hz),
        is_share(config.focus_strength),
        lies_above(k, before.fft_size, before.sample_rate, config.focus_low_hz.value())
            || config.focus_strength.code() == 0,
        lies_below(k, before.fft_size, before.sample_rate, config.focus_high_hz.value())
            || config.focus_strength.code() == 0,
        lies_above(k, before.fft_size, before.sample_rate, config.sub_bass_protect_hz.value()),
        is_share(by_ratio(voice[k], music[k], floor, config)),
        floor.at_most(by_ratio(voice[k], music[k], floor, config)),
    ensures
        ({
            let old_value = before.smoothed[k].value();
            let own = by_ratio(voice[k], music[k], floor, config).value();
            let new_value = mask_after(
                before,
                voice,
                music,
                gate,
                floor,
                config,
            ).smoothed[k].value();
            &&& own + pow2(127) < old_value ==> -pow2(131) <= 10 * new_value - 3 * old_value - 7
                * own <= pow2(131)
            &&& own - pow2(127) >= old_value ==> -pow2(135) <= 100 * new_value - 85 * old_value
                - 15 * own <= pow2(135)
        }),
{
    lemma_one();
    lemma2_to64();
    let n = before.fft_size;
    let rate = before.sample_rate;
    let freq = frequency(k, n, rate);
    lemma_lies(k, n, rate, config.focus_low_hz.value());
    lemma_lies(k, n, rate, config.focus_high_hz.value());
    lemma_lies(k, n, rate, config.sub_bass_protect_hz.value());
    shape_follows_the_band(voice[k], music[k], floor, freq, config);
    let own = shaped(voice[k], music[k], floor, freq, config);
    let x = by_ratio(voice[k], music[k], floor, config);
    lemma_share(own);
    lemma_share(x);
    lemma_share(floor);
    between_near_exact(own, one());
    let b = between(one(), own, one());
    let u = pow2(149) as int;
    let e = pow2(126) as int;
    lemma_pow2_adds(1, 126);
    lemma_pow2_adds(4, 126);
    lemma_pow2_adds(5, 126);
    lemma_pow2_adds(8, 126);
    lemma_pow2_adds(9, 126);
    lemma_pow2_pos(126);
    let y = own.value();
    let z = b.value();
    assert(u * u - u * (u - y) == u * y) by (nonlinear_arith);
    assert(-e <= z - y <= e) by (nonlinear_arith)
        requires
            -(e * u) <= z * u - u * y <= e * u,
            u > 0,
    ;
    let shapes = all_shaped(voice, music, floor, n, rate, config);
    let frame = wanted(shapes, gate, floor, config.spectral_smooth_bins);
    assert(shapes[k] == own);
    assert(frame[k] == b.greater(floor));
    assert(is_share(frame[k]));
    assert(-(2 * e) <= frame[k].value() - x.value() <= 2 * e);
    masks_fall_fast_and_rise_slowly(before.smoothed[k], frame[k]);
}

/// Whether the mask of a bin has moved as the magnitudes of a frame and the settings ask for:
/// the smoothed value of a bin inside of the focus band follows the bin's own ratio, in numbers.
/// It is said of frames with an open voice gate where no bins are averaged.
pub open spec fn bin_follows(
    before: MaskView,
    after: MaskView,
    voice: Seq<Binary32>,
    music: Seq<Binary32>,
    gate: Binary32,
    floor: Binary32,
    config: MaskingConfig,
    k: int,
) -> bool {
    let old_value = before.smoothed[k].value();
    let own = by_ratio(voice[k], music[k], floor, config);
    let new_value = after.smoothed[k].value();
    let everywhere = config.focus_strength.code() == 0;
    is_share(before.smoothed[k]) && is_share(floor) && gate == one() && config.spectral_smooth_bins
        <= 1 && is_band(config.focus_low_hz, config.focus_high_hz) && is_share(
        config.focus_strength,
    ) && (everywhere || lies_above(
        k,
        before.fft_size,
        before.sample_rate,
        config.focus_low_hz.value(),
    )) && (everywhere || lies_below(
        k,
        before.fft_size,
        before.sample_rate,
        config.focus_high_hz.value(),
    )) && lies_above(
        k,
        before.fft_size,
        before.sample_rate,
        config.sub_bass_protect_hz.value(),
    ) && is_share(own) && floor.at_most(own) ==> {
        &&& own.value() + pow2(127) < old_value ==> -pow2(131) <= 10 * new_value - 3 * old_value
            - 7 * own.value() <= pow2(131)
        &&& own.value() - pow2(127) >= old_value ==> -pow2(135) <= 100 * new_value - 85 * old_value
            - 15 * own.value() <= pow2(135)
    }
}

/// The masks of all bins of a frame, each by itself.
pub open spec fn own_masks(
    m: MaskView,
    voice: Seq<Binary32>,
    music: Seq<Binary32>,
    floor: Binary32,
    config: MaskingConfig,
) -> Seq<Binary32> {
    Seq::new(
        (m.fft_size / 2 + 1) as nat,
        |j: int|
            shaped(voice[j], music[j], floor, frequency(j, m.fft_size, m.sample_rate), config),
    )
}

/// Whether a number is the mean of the masks up to half of the width away from a bin, but for
/// rounding; the mask of the bin itself where nothing is averaged.
pub open spec fn near_mean(own: Seq<Binary32>, width: usize, k: int, avg: int) -> bool {
    let half = width / 2;
    let first = if k < half {
        0
    } else {
        k - half
    };
    let last = if k + half < own.len() {
        k + half
    } else {
        own.len() - 1
    };
    let n = last - first + 1;
    if width > 1 {
        -(n * pow2(131)) <= avg * n - units(own.subrange(first, last + 1)) <= n * pow2(131)
    } else {
        avg == own[k].value()
    }
}

/// Whether a number is a mask of which only the share that the voice gate is open counts, but
/// for rounding.
pub open spec fn counted(avg: int, gate: int, c: int) -> bool {
    let u = pow2(149);
    -(pow2(126) * u) <= c * u - (u * u - gate * (u - avg)) <= pow2(126) * u
}

/// Whether a frame asks for a value of the mask in a bin: the mean around the bin, as far as the
/// voice gate lets it count, but not below the floor.
pub open spec fn asks_for(
    own: Seq<Binary32>,
    width: usize,
    gate: Binary32,
    floor: Binary32,
    k: int,
    w: int,
) -> bool {
    exists|avg: int, c: int| #[trigger]
        counted(avg, gate.value(), c) && near_mean(own, width, k, avg) && w == if c
            >= floor.value() {
            c
        } else {
            floor.value()
        }
}

/// Whether a value has moved towards another one: quickly down and slowly up, but for rounding.
pub open spec fn moved_towards(old_value: int, new_value: int, w: int) -> bool {
    &&& w < old_value ==> -pow2(130) <= 10 * new_value - 3 * old_value - 7 * w <= pow2(130)
    &&& w >= old_value ==> -pow2(134) <= 100 * new_value - 85 * old_value - 15 * w <= pow2(134)
}

/// Whether the mask of a bin has moved towards what the frame asks for there.
pub open spec fn bin_moves(
    before: MaskView,
    after: MaskView,
    voice: Seq<Binary32>,
    music: Seq<Binary32>,
    gate: Binary32,
    floor: Binary32,
    config: MaskingConfig,
    k: int,
) -> bool {
    let own = own_masks(before, voice, music, floor, config);
    is_share(before.smoothed[k]) && is_share(floor) && is_share(gate)
        && config.spectral_smooth_bins <= 63 && (forall|j: int|
        0 <= j < own.len() ==> is_share(#[trigger] own[j])) ==> exists|w: int| #[trigger]
        asks_for(own, config.spectral_smooth_bins, gate, floor, k, w) && moved_towards(
            before.smoothed[k].value(),
            after.smoothed[k].value(),
            w,
        )
}

/// Every frame moves each bin of the mask towards the mean of the masks around it, as far as the
/// voice gate lets it count, but not below the floor.
pub proof fn frames_move_each_bin(
    before: MaskView,
    voice: Seq<Binary32>,
    music: Seq<Binary32>,
    gate: Binary32,
    floor: Binary32,
    config: MaskingConfig,
    k: int,
)
    requires
        before.smoothed.len() == bins(before.fft_size),
        0 <= k < before.smoothed.len(),
    ensures
        bin_moves(
            before,
            mask_after(before, voice, music, gate, floor, config),
            voice,
            music,
            gate,
            floor,
            config,
            k,
        ),
{
    let own = own_masks(before, voice, music, floor, config);
    let width = config.spectral_smooth_bins;
    if is_share(before.smoothed[k]) && is_share(floor) && is_share(gate) && width <= 63 && (forall|
        j: int,
    |
        0 <= j < own.len() ==> is_share(#[trigger] own[j])) {
        lemma_one();
        let shapes = all_shaped(voice, music, floor, before.fft_size, before.sample_rate, config);
        assert(shapes =~= own);
        let a = averaged(own, width)[k];
        if width > 1 {
            means_are_taken_around_their_bin(own, width, k);
            lemma_mean_is_share(own, width, k);
        }
        assert(is_share(a));
        assert(near_mean(own, width, k, a.value()));
        gate_tells_how_much_a_mask_counts(a, gate);
        let c = gated(a, gate);
        assert(counted(a.value(), gate.value(), c.value()));
        let frame = wanted(shapes, gate, floor, width);
        let w = frame[k];
        assert(w == c.greater(floor));
        assert(is_share(w));
        assert(asks_for(own, width, gate, floor, k, w.value()));
        masks_fall_fast_and_rise_slowly(before.smoothed[k], w);
    }
}

/// A mean of shares is a share.
proof fn lemma_mean_is_share(mask: Seq<Binary32>, width: usize, k: int)
    requires
        0 <= k < mask.len(),
        mask.len() <= usize::MAX,
        1 < width <= 63,
        forall|j: int| 0 <= j < mask.len() ==> is_share(#[trigger] mask[j]),
    ensures
        is_share(averaged(mask, width)[k]),
{
    lemma_one();
    let first = mean_start(k, width);
    let end = mean_end(k, width, mask.len());
    let around = mask.subrange(first, end);
    let n = (end - first) as nat;
    assert forall|j: int| 0 <= j < around.len() implies is_share(#[trigger] around[j]) by {
        assert(around[j] == mask[first + j]);
    }
    lemma_total_of_shares(around);
    let t = total(around);
    lemma_count(n);
    lemma_small_exact(n);
    let c = count(n);
    assert(size(c) == n * pow2(149)) by {
        lemma_signed(false, rounded(ratio((n * pow2(149)) as nat, 1)));
    }
    lemma_mag_order(0, t.code());
    lemma_mag_order(0, c.code());
    lemma_quotient(t, c);
    lemma_quotient_below(t, c);
    let q = quotient(t, c);
    lemma_mag_order(0, q.code());
    assert(q.value() == size(q)) by {
        if size(t) == 0 {
            lemma_ratio_exact(0, size(c));
            assert(0 * pow2(149) == 0);
            assert(0 * size(c) == 0);
        }
    }
}

/// Whether a mask has moved as a frame and the settings ask for in all bins.
pub open spec fn mask_follows(
    before: MaskView,
    after: MaskView,
    voice: Seq<Binary32>,
    music: Seq<Binary32>,
    gate: Binary32,
    floor: Binary32,
    config: MaskingConfig,
) -> bool {
    &&& after.fft_size == before.fft_size
    &&& after.sample_rate == before.sample_rate
    &&& after.smoothed.len() == before.smoothed.len()
    &&& forall|k: int|
        0 <= k < before.smoothed.len() ==> #[trigger] bin_moves(
            before,
            after,
            voice,
            music,
            gate,
            floor,
            config,
            k,
        )
    &&& forall|k: int|
        1 <= k < before.smoothed.len() ==> #[trigger] bin_follows(
            before,
            after,
            voice,
            music,
            gate,
            floor,
            config,
            k,
        )
}

/// Every frame moves the mask as its magnitudes and the settings ask for.
pub proof fn frames_move_the_mask(
    before: MaskView,
    voice: Seq<Binary32>,
    music: Seq<Binary32>,
    gate: Binary32,
    floor: Binary32,
    config: MaskingConfig,
)
    requires
        before.smoothed.len() == bins(before.fft_size),
        before.fft_size >= 1,
        before.sample_rate >= 1,
    ensures
        mask_follows(
            before,
            mask_after(before, voice, music, gate, floor, config),
            voice,
            music,
            gate,
            floor,
            config,
        ),
{
    let after = mask_after(before, voice, music, gate, floor, config);
    assert forall|k: int| 0 <= k < before.smoothed.len() implies #[trigger] bin_moves(
        before,
        after,
        voice,
        music,
        gate,
        floor,
        config,
        k,
    ) by {
        frames_move_each_bin(before, voice, music, gate, floor, config, k);
    }
    assert forall|k: int| 1 <= k < before.smoothed.len() implies #[trigger] bin_follows(
        before,
        after,
        voice,
        music,
        gate,
        floor,
        config,
        k,
    ) by {
        let everywhere = config.focus_strength.code() == 0;
        let own = by_ratio(voice[k], music[k], floor, config);
        if is_share(before.smoothed[k]) && is_share(floor) && gate == one()
            && config.spectral_smooth_bins <= 1 && is_band(
            config.focus_low_hz,
            config.focus_high_hz,
        ) && is_share(config.focus_strength) && (everywhere || lies_above(
            k,
            before.fft_size,
            before.sample_rate,
            config.focus_low_hz.value(),
        )) && (everywhere || lies_below(
            k,
            before.fft_size,
            before.sample_rate,
            config.focus_high_hz.value(),
        )) && lies_above(
            k,
            before.fft_size,
            before.sample_rate,
            config.sub_bass_protect_hz.value(),
        ) && is_share(own) && floor.at_most(own) {
            bin_inside_the_band_follows_its_ratio(before, voice, music, gate, floor, config, k);
        }
    }
}

/// Whether a mask that is handed out protects the sub-bass, in hertz, and keeps above the floor.
pub open spec fn mask_protects(
    smoothed: MaskView,
    out: Seq<Binary32>,
    floor: Binary32,
    config: MaskingConfig,
) -> bool {
    &&& out.len() == smoothed.smoothed.len()
    &&& forall|k: int|
        0 <= k < out.len() ==> {
            let hz = config.sub_bass_protect_hz.value();
            &&& lies_below(k, smoothed.fft_size, smoothed.sample_rate, hz) ==> #[trigger] out[k]
                == one()
            &&& lies_above(k, smoothed.fft_size, smoothed.sample_rate, hz) && k >= 1
                && floor.at_most(smoothed.smoothed[k]) ==> out[k] == smoothed.smoothed[k]
            &&& lies_above(k, smoothed.fft_size, smoothed.sample_rate, hz) && k >= 1
                && smoothed.smoothed[k].at_most(floor) ==> out[k].value() == floor.value()
        }
}

/// Every mask that is handed out protects the sub-bass, in hertz.
pub proof fn masks_protect_the_sub_bass(m: MaskView, floor: Binary32, config: MaskingConfig)
    requires
        m.smoothed.len() <= usize::MAX,
        m.fft_size >= 1,
        m.sample_rate >= 1,
        !config.sub_bass_protect_hz.nan(),
    ensures
        mask_protects(
            m,
            handed_out(m.smoothed, floor, m.fft_size, m.sample_rate, config),
            floor,
            config,
        ),
{
    let out = handed_out(m.smoothed, floor, m.fft_size, m.sample_rate, config);
    assert forall|k: int| 0 <= k < out.len() implies {
        let hz = config.sub_bass_protect_hz.value();
        &&& lies_below(k, m.fft_size, m.sample_rate, hz) ==> #[trigger] out[k] == one()
        &&& lies_above(k, m.fft_size, m.sample_rate, hz) && k >= 1 && floor.at_most(m.smoothed[k])
            ==> out[k] == m.smoothed[k]
        &&& lies_above(k, m.fft_size, m.sample_rate, hz) && k >= 1 && m.smoothed[k].at_most(floor)
            ==> out[k].value() == floor.value()
    } by {
        lemma_lies(k, m.fft_size, m.sample_rate, config.sub_bass_protect_hz.value());
    }
}

/// The voice gate tells how much of a mask counts: of what the mask takes away, the share that
/// the voice gate is open; nothing while it is closed, all while it is open.
pub proof fn gate_tells_how_much_a_mask_counts(m: Binary32, gate: Binary32)
    requires
        is_share(m),
        is_share(gate),
    ensures
        ({
            let u = pow2(149);
            let exact = u * u - gate.value() * (u - m.value());
            &&& is_share(gated(m, gate))
            &&& -(pow2(126) * u) <= gated(m, gate).value() * u - exact <= pow2(126) * u
            &&& gate.code() == 0 ==> gated(m, gate) == one()
        }),
{
    lemma_one();
    lemma_pow2_pos(126);
    lemma_share(gate);
    lemma_mag_order(0, gate.code());
    between_near_exact(m, gate);
    let u = pow2(149) as int;
    let d = u - m.value();
    assert(0 * d == 0) by (nonlinear_arith);
    assert(pow2(126) * u >= 0) by (nonlinear_arith)
        requires
            pow2(126) > 0,
            u > 0,
    ;
}

/// The sum of numbers as whole units.
pub open spec fn units(s: Seq<Binary32>) -> int
    decreases s.len(),
{
    if s.len() == 0 {
        0
    } else {
        units(s.drop_last()) + s.last().value()
    }
}

/// A sum of up to 64 shares is the exact one, but for rounding.
proof fn lemma_total_of_shares(s: Seq<Binary32>)
    requires
        s.len() <= 64,
        forall|j: int| 0 <= j < s.len() ==> is_share(#[trigger] s[j]),
    ensures
        total(s).finite(),
        total(s).value() >= 0,
        -(s.len() * pow2(130)) <= total(s).value() - units(s) <= s.len() * pow2(130),
        0 <= units(s) <= s.len() * pow2(149),
        total(s).value() <= s.len() * pow2(149),
    decreases s.len(),
{
    lemma_one();
    lemma2_to64();
    lemma_pow2_pos(130);
    let e = pow2(130) as int;
    let u = pow2(149) as int;
    let n = s.len() as int;
    if n == 0 {
        assert(0 * e == 0 && 0 * u == 0) by (nonlinear_arith);
    } else {
        let r = s.drop_last();
        let x = s.last();
        assert(is_share(s[n - 1]));
        lemma_share(x);
        lemma_total_of_shares(r);
        let t = total(r);
        let v = t.value() + x.value();
        assert(n * e == (n - 1) * e + e && n * u == (n - 1) * u + u) by (nonlinear_arith);
        lemma_pow2_adds(6, 149);
        assert(n * u <= 64 * u) by (nonlinear_arith)
            requires
                n <= 64,
                u > 0,
        ;
        lemma_sum(t, x);
        lemma_ratio_error(v as nat, 1, 6);
        lemma_near_order(0, v);
        lemma_near_exact(0);
        lemma_near_order(v, n * u);
        lemma_small_exact(n as nat);
        let q = sum(t, x);
        lemma_mag_order(0, q.code());
        lemma_near_power(6, pow2(155));
        lemma_mag_order(q.code(), (ONE + 6 * BINADE) as nat);
    }
}

/// The mean around a bin is the mean of the bins up to half of the width away from it on either
/// side, as far as there are any, but for rounding.
pub proof fn means_are_taken_around_their_bin(mask: Seq<Binary32>, width: usize, k: int)
    requires
        0 <= k < mask.len(),
        mask.len() <= usize::MAX,
        1 < width <= 63,
        forall|j: int| 0 <= j < mask.len() ==> is_share(#[trigger] mask[j]),
    ensures
        ({
            let half = width / 2;
            let first = if k < half {
                0
            } else {
                k - half
            };
            let last = if k + half < mask.len() {
                k + half
            } else {
                mask.len() - 1
            };
            let n = last - first + 1;
            let around = mask.subrange(first, last + 1);
            let m = averaged(mask, width)[k].value();
            -(n * pow2(131)) <= m * n - units(around) <= n * pow2(131)
        }),
{
    lemma_one();
    lemma2_to64();
    let half = width / 2;
    let first = mean_start(k, width);
    let end = mean_end(k, width, mask.len());
    let around = mask.subrange(first, end);
    let n = end - first;
    assert forall|j: int| 0 <= j < around.len() implies is_share(#[trigger] around[j]) by {
        assert(around[j] == mask[first + j]);
    }
    lemma_total_of_shares(around);
    let t = total(around);
    let u = pow2(149) as int;
    let e = pow2(130) as int;
    lemma_count(n as nat);
    lemma_small_exact(n as nat);
    let c = count(n as nat);
    assert(size(c) == n * u) by {
        lemma_signed(false, rounded(ratio((n * u) as nat, 1)));
    }
    lemma_mag_order(0, t.code());
    lemma_mag_order(0, c.code());
    lemma_quotient(t, c);
    let q = quotient(t, c);
    lemma_mag_order(0, q.code());
    let d = (n * u) as nat;
    assert(d > 0) by (nonlinear_arith)
        requires
            d == n * u,
            n >= 1,
            u > 0,
    ;
    let x = size(t) * pow2(149);
    assert(x <= pow2(149) * d) by (nonlinear_arith)
        requires
            x == size(t) * pow2(149),
            size(t) <= d,
    ;
    lemma_ratio_error(x, d, 0);
    assert(q.value() == size(q)) by {
        if size(t) == 0 {
            lemma_ratio_exact(0, d);
            assert(0 * pow2(149) == 0);
            assert(0 * d == 0);
        }
    }
    let m = q.value();
    let h = pow2(124) as int;
    let v = t.value();
    lemma_pow2_adds(6, 124);
    lemma_pow2_adds(1, 130);
    lemma_pow2_pos(124);
    assert(-(h * n) <= m * n - v <= h * n) by (nonlinear_arith)
        requires
            -(h * (n * u)) <= m * (n * u) - v * u <= h * (n * u),
            u > 0,
    ;
    assert(h * n <= e * n) by (nonlinear_arith)
        requires
            h <= e,
            n >= 1,
    ;
    assert(n * (2 * e) == e * n + n * e) by (nonlinear_arith);
    assert(averaged(mask, width)[k] == q);
}

} // verus!
