//! What settings and whole-number samples come to in numbers.

use crate::apps::color_of;
use crate::approx::{approx, approx_count, approx_quotient};
use crate::arith::{count, difference, product, quotient, size, whole_part};
use crate::binary32::{lemma_mag_code, lemma_mag_order, mag, Binary32, BINADE, INFINITE, ONE};
use crate::blend::{is_share, lemma_ratio_error, lemma_share, one};
use crate::compressor::lemma_double_code;
use crate::config::{
    depth_ok, fft_size_ok, hop_of, hop_ratio_ok, lemma_count_of_power, max_reduction_ok,
    power_of_two, Config, HALF,
};
use crate::fft::hann;
use crate::order::{
    lemma_near_exact, lemma_near_order, lemma_one, lemma_product, lemma_quotient, lemma_ratio_exact,
    lemma_sum, near_value,
};
use crate::devices::{takes, StreamRange};
use crate::stream::{integer, share_of_range, side_of};
use vstd::arithmetic::power2::{
    lemma2_to64, lemma2_to64_rest, lemma_pow2_adds, lemma_pow2_pos, lemma_pow2_strictly_increases,
    lemma_pow2_unfold, pow2,
};
use vstd::prelude::*;

verus! {

/// A number times a power of two has a code too.
proof fn lemma_scaled_code(c: nat, k: nat) -> (d: nat)
    ensures
        mag(d) == mag(c) * pow2(k),
        d <= c + k * BINADE,
    decreases k,
{
    if k == 0 {
        lemma2_to64();
        c
    } else {
        let e = lemma_scaled_code(c, (k - 1) as nat);
        let d = lemma_double_code(e);
        lemma_pow2_unfold(k);
        assert(mag(d) == mag(c) * pow2(k)) by (nonlinear_arith)
            requires
                mag(d) == 2 * mag(e),
                mag(e) == mag(c) * pow2((k - 1) as nat),
                pow2(k) == 2 * pow2((k - 1) as nat),
        ;
        assert(k * BINADE == (k - 1) * BINADE + BINADE) by (nonlinear_arith);
        d
    }
}

/// A hop is the share of a frame that is set, without what stands behind the point: for frames
/// of a power of two nothing is lost to rounding.
pub proof fn hop_is_the_share_of_a_frame(c: Config)
    requires
        fft_size_ok(c),
        is_share(c.processing.hop_ratio),
    ensures
        hop_of(c) * pow2(149) <= c.processing.fft_size * c.processing.hop_ratio.value(),
        c.processing.fft_size * c.processing.hop_ratio.value() < (hop_of(c) + 1) * pow2(149),
{
    lemma_one();
    lemma2_to64();
    lemma2_to64_rest();
    let n = c.processing.fft_size as nat;
    let r = c.processing.hop_ratio;
    let u = pow2(149);
    lemma_count_of_power(c.processing.fft_size);
    lemma_share(r);
    let k = choose|k: nat| #[trigger] pow2(k) == n;
    assert(k < 64) by {
        if k > 64 {
            lemma_pow2_strictly_increases(64, k);
        }
    }
    let d = lemma_scaled_code(r.code(), k);
    lemma_mag_order(r.code(), ONE as nat);
    assert(d <= INFINITE) by (nonlinear_arith)
        requires
            d <= r.code() + k * BINADE,
            r.code() <= ONE,
            k < 64,
            BINADE == 0x80_0000,
            ONE == 0x3f80_0000,
            INFINITE == 0x7f80_0000,
    ;
    assert(d < INFINITE) by (nonlinear_arith)
        requires
            d <= r.code() + k * BINADE,
            r.code() <= ONE,
            k < 64,
            BINADE == 0x80_0000,
            ONE == 0x3f80_0000,
            INFINITE == 0x7f80_0000,
    ;
    let p = product(count(n), r);
    lemma_product(count(n), r);
    assert(size(count(n)) * size(r) == mag(d) * u) by (nonlinear_arith)
        requires
            size(count(n)) == n * u,
            mag(d) == size(r) * n,
    ;
    lemma_ratio_exact(d, u);
    assert(size(p) == n * size(r)) by (nonlinear_arith)
        requires
            size(p) == size(r) * n,
    ;
    let s = size(p);
    assert(s <= n * u) by (nonlinear_arith)
        requires
            s == n * size(r),
            size(r) <= u,
    ;
    let h = s / u;
    assert(h * u <= s < (h + 1) * u) by (nonlinear_arith)
        requires
            h == s / u,
            u > 0,
    ;
    assert(h <= n) by (nonlinear_arith)
        requires
            h * u <= s,
            s <= n * u,
            u > 0,
    ;
    if r.negative() {
        // Only zero has a sign here.
        lemma_mag_order(0, r.code());
        assert(size(r) == 0);
        assert(n * 0 == 0) by (nonlinear_arith);
        assert(s == 0);
        assert(p.negative());
        assert(whole_part(p) == 0);
    }
}

/// Settings that are accepted are in range: a frame size that is a power of two, a hop ratio
/// above zero and not above one, a masking depth from zero to one, and no gain as a reduction.
pub proof fn accepted_settings_are_in_range(c: Config)
    requires
        fft_size_ok(c) && hop_ratio_ok(c) && depth_ok(c) && max_reduction_ok(c),
    ensures
        exists|k: nat| #[trigger] pow2(k) == c.processing.fft_size,
        !c.processing.hop_ratio.nan() ==> 0 < c.processing.hop_ratio.value() <= pow2(149),
        !c.masking.depth.nan() ==> is_share(c.masking.depth),
        !c.masking.max_reduction_db.nan() ==> c.masking.max_reduction_db.value() <= 0,
{
    lemma_one();
}

/// And settings in range are accepted.
pub proof fn settings_in_range_are_accepted(c: Config, k: nat)
    requires
        pow2(k) == c.processing.fft_size,
        !c.processing.hop_ratio.nan(),
        0 < c.processing.hop_ratio.value() <= pow2(149),
        is_share(c.masking.depth),
        c.masking.max_reduction_db.value() <= 0,
    ensures
        fft_size_ok(c) && hop_ratio_ok(c) && depth_ok(c) && max_reduction_ok(c),
{
    lemma_one();
    assert(power_of_two(c.processing.fft_size as nat));
}

/// A whole-number sample is its share of the largest magnitude of its bits, with its sign, but
/// for rounding.
pub proof fn whole_numbers_are_shares_of_their_range(sample: i32, bits: u16)
    requires
        1 <= bits <= 32,
        sample != 0,
    ensures
        ({
            let x = share_of_range(sample, bits);
            let a = if sample < 0 {
                -(sample as int)
            } else {
                sample as int
            };
            &&& x.negative() == (sample < 0)
            &&& approx(size(x) as int, a * pow2(149), pow2((bits - 1) as nat) as int, 8)
        }),
{
    lemma_one();
    lemma2_to64();
    lemma2_to64_rest();
    let k = (bits - 1) as nat;
    if k < 31 {
        lemma_pow2_strictly_increases(k, 31);
    }
    let m = pow2(k);
    lemma_pow2_pos(k);
    assert(power_of_two(m));
    lemma_count_of_power(m as usize);
    let a: nat = if sample < 0 {
        (-(sample as int)) as nat
    } else {
        sample as nat
    };
    let u = pow2(149) as int;
    approx_count(a);
    let x = count(a);
    let y = count(m);
    let v = x.value();
    let w = y.value();
    assert(w == m * u);
    assert(u <= w <= pow2(31) * u) by (nonlinear_arith)
        requires
            w == m * u,
            1 <= m <= pow2(31),
            u > 0,
    ;
    lemma_pow2_adds(31, 149);
    lemma_pow2_adds(23, 180);
    lemma_pow2_adds(149, 149);
    lemma_pow2_adds(213, 149);
    lemma_pow2_adds(276, 149);
    lemma_pow2_strictly_increases(203, 298);
    lemma_pow2_strictly_increases(362, 425);
    assert(pow2(23) * w <= v * u) by (nonlinear_arith)
        requires
            0 < w <= pow2(180),
            v >= u,
            pow2(23) * pow2(180) < u * u,
            u > 0,
            pow2(23) > 0,
    ;
    assert(v * u <= pow2(276) * w) by (nonlinear_arith)
        requires
            v <= pow2(213),
            w >= u,
            pow2(213) * u < pow2(276) * u,
            u > 0,
            pow2(276) > 0,
    ;
    assert(approx(w, w, 1, 0));
    approx_quotient(x, a * u, 1, 1, y, w, 1, 0);
    let q = quotient(x, y);
    lemma_mag_order(0, x.code());
    lemma_mag_order(0, y.code());
    lemma_quotient(x, y);
    let n = integer(sample as int);
    assert(n.code() == x.code());
    lemma_quotient(n, y);
    lemma_mag_order(0, q.code());
    assert(size(quotient(n, y)) == size(q));
    assert(((a * u) * 1) * u == (a * u) * u);
    assert(1 * w == m * u);
    crate::approx::lemma_approx_cancel(size(q) as int, a * u, m as int, u, 5);
    let g = a * u;
    assert(g >= 0) by (nonlinear_arith)
        requires
            g == a * u,
            a >= 0,
            u > 0,
    ;
    let t = crate::approx::PARTS as int;
    assert(g * (t - 8) <= g * (t - 5) && g * (t + 5) <= g * (t + 8)) by (nonlinear_arith)
        requires
            g >= 0,
    ;
}

/// The window is half of what a cosine lacks to one, but for rounding: zero where the cosine is
/// one, a half where it is zero, and one where it is minus one.
pub proof fn window_is_a_raised_cosine(cosine: Binary32)
    requires
        cosine.finite(),
        -pow2(149) <= cosine.value() <= pow2(149),
    ensures
        -pow2(127) <= 2 * hann(cosine).value() - (pow2(149) - cosine.value()) <= pow2(127),
{
    lemma_one();
    lemma2_to64();
    let u = pow2(149);
    let t = cosine.turned();
    assert(t.code() == cosine.code());
    assert(t.value() == -cosine.value());
    let half = Binary32 { bits: HALF };
    lemma_mag_code(125, 0x80_0000);
    lemma_pow2_adds(23, 125);
    lemma_pow2_adds(1, 148);
    assert(size(half) == pow2(148));
    let d = difference(one(), cosine);
    let v = one().value() + t.value();
    lemma_pow2_adds(1, 149);
    lemma_sum(one(), t);
    lemma_ratio_error(v as nat, 1, 1);
    lemma_near_order(0, v);
    lemma_near_exact(0);
    crate::blend::lemma_near_power(1, pow2(150));
    lemma_near_order(v, pow2(150) as int);
    lemma_near_exact((ONE + BINADE) as nat);
    lemma_mag_order(0, d.code());
    lemma_mag_order(d.code(), (ONE + BINADE) as nat);
    assert(d.value() == near_value(v));
    assert(size(d) == d.value());
    let p = product(half, d);
    lemma_product(half, d);
    assert(size(half) * size(d) <= u * u) by (nonlinear_arith)
        requires
            size(half) == pow2(148),
            u == 2 * pow2(148),
            size(d) <= 2 * u,
    ;
    lemma_ratio_error(size(half) * size(d), u, 0);
    crate::blend::lemma_share_product(half, d);
    lemma_pow2_adds(1, 124);
    lemma_pow2_adds(3, 124);
    lemma_pow2_pos(124);
    let x = size(p) as int;
    let y = size(d) as int;
    let e = pow2(124) as int;
    assert(-(2 * e) <= 2 * x - y <= 2 * e) by (nonlinear_arith)
        requires
            -(e * u) <= x * u - size(half) * y <= e * u,
            u == 2 * size(half),
            u > 0,
    ;
}

/// The color tells the state: green while sound streams, amber while it waits, red otherwise.
pub proof fn color_tells_the_state(state: Seq<char>)
    ensures
        state == "Streaming"@ ==> color_of(state) == (80u8, 200u8, 80u8),
        state == "Paused"@ ==> color_of(state) == (220u8, 180u8, 40u8),
        state == "Connecting"@ ==> color_of(state) == (220u8, 180u8, 40u8),
        state != "Streaming"@ && state != "Paused"@ && state != "Connecting"@ ==> color_of(state)
            == (220u8, 60u8, 60u8),
{
    reveal_strlit("Streaming");
    reveal_strlit("Paused");
    reveal_strlit("Connecting");
    assert("Streaming"@.len() == 9);
    assert("Paused"@.len() == 6);
    assert("Connecting"@.len() == 10);
}

/// The sides of a recording are its first two channels, frame by frame; a recording with one
/// channel has it on both sides.
pub proof fn sides_are_the_first_two_channels(
    samples: Seq<Binary32>,
    channels: nat,
    side: int,
    i: int,
)
    requires
        channels >= 1,
        0 <= side < 2,
        0 <= i,
        (i + 1) * channels <= samples.len(),
    ensures
        channels == 1 ==> side_of(samples, channels, side) == samples,
        channels >= 2 ==> side_of(samples, channels, side)[i] == samples[i * channels + side],
        channels >= 2 && samples.len() == (i + 1) * channels ==> side_of(
            samples,
            channels,
            side,
        ).len() == i + 1,
{
    let n = samples.len() as int;
    let c = channels as int;
    assert((n + c - 1) / c >= i + 1) by (nonlinear_arith)
        requires
            (i + 1) * c <= n,
            c >= 1,
    ;
    if n == (i + 1) * c {
        assert((n + c - 1) / c == i + 1) by (nonlinear_arith)
            requires
                n == (i + 1) * c,
                c >= 1,
        ;
    }
}

/// A device can be used for stereo sound of binary32 samples at a rate that one of its ranges
/// takes in, from the lowest to the highest rate of the range.
pub proof fn ranges_take_in_their_ends(range: StreamRange, sample_rate: u32)
    ensures
        range.channels >= 2 && range.is_float && range.min_rate <= sample_rate && sample_rate
            <= range.max_rate ==> takes(range, sample_rate),
        range.channels < 2 || !range.is_float || sample_rate < range.min_rate || range.max_rate
            < sample_rate ==> !takes(range, sample_rate),
{
}

} // verus!
