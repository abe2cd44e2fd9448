//! What holds of every spectral mask.

use crate::arith::{count, difference, product, quotient, size, sum};
use crate::binary32::{lemma_mag_code, lemma_mag_order, mag, Binary32, INFINITE, ONE};
use crate::blend::{
    is_share, lemma_share, lemma_steps_exact, one, one_stays_one, rises_towards_one,
    shares_stay_shares, zero,
};
use crate::config::MaskingConfig;
use crate::order::{
    lemma_near_exact, lemma_near_order, lemma_one, lemma_product, lemma_product_order,
    lemma_quotient, lemma_quotient_below, lemma_ratio_exact, lemma_ratio_order, lemma_signed,
    lemma_sum, near, near_value, one_changes_nothing,
};
use crate::rounding::{is_floor, lemma_one_floor, ratio, rounded};
use crate::spectral_mask::{
    all_shaped, averaged, between, bins, by_ratio, focus, focused, follow, followed, frequency,
    gated, handed_out, mask_after, mean_at, mean_end, mean_start, shaped, total, wanted, MaskView,
    ATTACK, EPSILON, RELEASE, TWO,
};
use vstd::arithmetic::power2::{
    lemma2_to64, lemma2_to64_rest, lemma_pow2_adds, lemma_pow2_strictly_increases, pow2,
};
use vstd::prelude::*;

verus! {

/// Whether a number, if it is one, is not above one.
pub open spec fn not_above_one(x: Binary32) -> bool {
    x.nan() || x.value() <= one().value()
}

/// Whether a number, if it is one, is not below zero.
pub open spec fn not_below_zero(x: Binary32) -> bool {
    x.nan() || x.value() >= 0
}

/// Where the sign of a number can differ from that of its value.
proof fn lemma_sign(x: Binary32)
    ensures
        size(x) == 0 <==> x.code() == 0,
        size(x) > 0 && x.value() >= 0 ==> !x.negative(),
        size(x) > 0 && x.value() <= 0 ==> x.negative(),
        x.value() == 0 <==> size(x) == 0,
{
    lemma_one();
    lemma_mag_order(0, x.code());
}

/// Sizes of products with nothing are nothing.
proof fn lemma_no_size(x: Binary32, y: Binary32)
    requires
        x.finite(),
        y.finite(),
        size(x) == 0 || size(y) == 0,
    ensures
        size(product(x, y)) == 0,
        product(x, y).value() == 0,
        product(x, y).finite(),
{
    lemma_one();
    lemma_product(x, y);
    assert(size(x) * size(y) == 0) by (nonlinear_arith)
        requires
            size(x) == 0 || size(y) == 0,
    ;
    lemma_ratio_exact(0, pow2(149));
    assert(0 * pow2(149) == 0);
}

/// The product of what is not below zero with what is not above zero is not above zero.
proof fn lemma_product_sign(x: Binary32, y: Binary32)
    requires
        not_below_zero(x),
    ensures
        not_below_zero(y) ==> not_below_zero(product(x, y)),
        y.nan() || y.value() <= 0 ==> product(x, y).nan() || product(x, y).value() <= 0,
{
    lemma_one();
    lemma_sign(x);
    lemma_sign(y);
    let p = product(x, y);
    lemma_signed(x.negative() != y.negative(), INFINITE as nat);
    if x.finite() && y.finite() {
        lemma_product(x, y);
        if size(x) == 0 || size(y) == 0 {
            lemma_no_size(x, y);
        }
    }
}

/// The sum of numbers not below zero is not below zero.
proof fn lemma_sum_sign(x: Binary32, y: Binary32)
    requires
        not_below_zero(x),
        not_below_zero(y),
    ensures
        not_below_zero(sum(x, y)),
{
    lemma_one();
    lemma_sign(x);
    lemma_sign(y);
    if x.finite() && y.finite() {
        lemma_sum(x, y);
        lemma_near_order(0, x.value() + y.value());
        lemma_near_exact(0);
    }
}

/// What is taken from something no smaller leaves nothing below zero.
proof fn lemma_difference_sign(x: Binary32, y: Binary32)
    requires
        y.at_most(x),
    ensures
        not_below_zero(difference(x, y)),
{
    lemma_one();
    lemma_sign(x);
    lemma_sign(y);
    let t = y.turned();
    assert(t.code() == y.code());
    assert(t.value() == -y.value());
    lemma_mag_order(x.code(), y.code());
    if x.finite() && y.finite() {
        lemma_sum(x, t);
        lemma_near_order(0, x.value() + t.value());
        lemma_near_exact(0);
    }
}

/// The quotient of numbers not below zero is not below zero.
proof fn lemma_quotient_sign(x: Binary32, y: Binary32)
    requires
        not_below_zero(x),
        not_below_zero(y),
    ensures
        not_below_zero(quotient(x, y)) || size(y) == 0,
        y.negative() || not_below_zero(quotient(x, y)),
{
    lemma_one();
    lemma_sign(x);
    lemma_sign(y);
    lemma_signed(x.negative() != y.negative(), INFINITE as nat);
    lemma_signed(x.negative() != y.negative(), 0);
    if x.finite() && y.finite() && size(y) > 0 {
        lemma_quotient(x, y);
        if size(x) == 0 {
            lemma_ratio_exact(0, size(y));
            assert(0 * pow2(149) == 0);
            assert(0 * size(y) == 0);
        }
    }
}

/// What is taken from one leaves nothing above one.
proof fn lemma_one_minus(x: Binary32)
    requires
        not_below_zero(x),
    ensures
        not_above_one(difference(one(), x)),
{
    lemma_one();
    lemma_sign(x);
    let t = x.turned();
    assert(t.code() == x.code());
    assert(t.value() == -x.value());
    lemma_mag_order(x.code(), ONE as nat);
    if x.finite() {
        lemma_sum(one(), t);
        lemma_near_order(one().value() + t.value(), one().value());
        lemma_near_exact(ONE as nat);
    }
}

/// Going from one towards what is not above one does not lead above one.
proof fn lemma_between(b: Binary32, t: Binary32)
    requires
        not_above_one(b),
        not_below_zero(t),
    ensures
        not_above_one(between(one(), b, t)),
{
    lemma_one();
    lemma_sign(b);
    lemma_mag_order(b.code(), ONE as nat);
    let m = one().turned();
    assert(m.value() == -one().value());
    let d = difference(b, one());
    assert(d.nan() || d.value() <= 0) by {
        if b.finite() {
            lemma_sum(b, m);
            lemma_near_order(b.value() + m.value(), 0);
            lemma_near_exact(0);
        }
    }
    let p = product(t, d);
    lemma_product_sign(t, d);
    lemma_sign(p);
    if p.finite() {
        lemma_sum(one(), p);
        lemma_near_order(one().value() + p.value(), one().value());
        lemma_near_exact(ONE as nat);
    }
}

/// The bit patterns that are used here stand for what they should.
proof fn lemma_two()
    ensures
        (Binary32 { bits: TWO }).value() == 2 * pow2(149),
        size(Binary32 { bits: TWO }) == 2 * pow2(149),
        (Binary32 { bits: TWO }).finite(),
{
    lemma2_to64();
    lemma_mag_code(127, 0x80_0000);
    lemma_pow2_adds(23, 127);
    vstd::arithmetic::power2::lemma_pow2_unfold(150);
}

/// Half of a number is not above the number.
proof fn lemma_half(x: Binary32)
    requires
        x.finite(),
        x.value() > 0,
    ensures
        quotient(x, Binary32 { bits: TWO }).at_most(x),
{
    lemma_one();
    lemma_two();
    lemma_sign(x);
    let two = Binary32 { bits: TWO };
    let p = pow2(149);
    let q = quotient(x, two);
    lemma_quotient(x, two);
    let d = 2 * p;
    assert((size(x) * p) * d <= (size(x) * d) * d) by (nonlinear_arith)
        requires
            d == 2 * p,
    ;
    lemma_ratio_order(size(x) * p, d, size(x) * d, d);
    lemma_ratio_exact(x.code(), d);
    lemma_mag_order(q.code(), x.code());
}

/// The double of a number is not below the number.
proof fn lemma_double(x: Binary32)
    requires
        x.finite(),
        x.value() > 0,
    ensures
        x.at_most(product(x, Binary32 { bits: TWO })),
{
    lemma_one();
    lemma_two();
    lemma_sign(x);
    let two = Binary32 { bits: TWO };
    lemma_product(x, two);
    lemma_product_order(x, one(), x, two);
    one_changes_nothing(x);
}

/// The focus weight is never below zero.
proof fn lemma_focus(freq: Binary32, low_hz: Binary32, high_hz: Binary32)
    ensures
        not_below_zero(focus(freq, low_hz, high_hz)),
{
    lemma_one();
    lemma_two();
    lemma_sign(freq);
    lemma_sign(low_hz);
    lemma_sign(high_hz);
    let two = Binary32 { bits: TWO };
    let under = quotient(low_hz, two);
    let over = product(high_hz, two);
    lemma_sign(under);
    lemma_sign(over);
    lemma_signed(false, INFINITE as nat);
    lemma_signed(true, INFINITE as nat);
    if freq.at_most(zero()) || (low_hz.at_most(freq) && freq.at_most(high_hz)) {
    } else if freq.less(low_hz) {
        if !freq.at_most(under) {
            lemma_mag_order(freq.code(), INFINITE as nat);
            if low_hz.finite() {
                lemma_half(low_hz);
                lemma_difference_sign(freq, under);
                lemma_difference_sign(low_hz, under);
                lemma_positive_quotient(
                    difference(freq, under),
                    difference(low_hz, under),
                    low_hz,
                    under,
                );
            }
        }
    } else if !over.at_most(freq) && !freq.nan() && !over.nan() {
        // Here the edge lies above the frequency.
        lemma_product_sign(two, high_hz);
        lemma_difference_sign(over, freq);
        if high_hz.finite() {
            if high_hz.value() <= 0 {
                lemma_product_sign_right(high_hz, two);
            } else {
                lemma_double(high_hz);
                lemma_difference_sign(over, high_hz);
                lemma_positive_quotient(
                    difference(over, freq),
                    difference(over, high_hz),
                    over,
                    high_hz,
                );
            }
        }
    }
}

/// Twice what is not above zero is not above zero.
proof fn lemma_product_sign_right(x: Binary32, y: Binary32)
    requires
        x.finite(),
        y.finite(),
        x.value() <= 0,
        y.value() >= 0,
    ensures
        product(x, y).value() <= 0,
{
    lemma_sign(x);
    lemma_sign(y);
    lemma_product(x, y);
    if size(x) == 0 || size(y) == 0 {
        lemma_no_size(x, y);
    }
}

/// A quotient by a difference of numbers that are in order is not below zero.
proof fn lemma_positive_quotient(x: Binary32, y: Binary32, a: Binary32, b: Binary32)
    requires
        not_below_zero(x),
        y == difference(a, b),
        b.at_most(a),
        !b.negative(),
        a.value() > 0,
    ensures
        not_below_zero(quotient(x, y)),
{
    lemma_difference_sign(a, b);
    lemma_one();
    lemma_sign(y);
    lemma_sign(a);
    lemma_sign(b);
    lemma_quotient_sign(x, y);
    let t = b.turned();
    if a.finite() && b.finite() && size(y) == 0 {
        // A difference that rounds to nothing is a zero of positive sign.
        let v = a.value() + t.value();
        assert(t.value() == -b.value());
        lemma_ratio_order(crate::arith::whole(v), 1, crate::arith::whole(v), 1);
        lemma_signed(v < 0, rounded(ratio(crate::arith::whole(v), 1)));
        assert(!y.negative());
    }
}

/// The sum of as many numbers, none above one, is not above their count.
proof fn lemma_total(s: Seq<Binary32>)
    requires
        forall|k: int| 0 <= k < s.len() ==> not_above_one(#[trigger] s[k]),
    ensures
        total(s).nan() || total(s).value() <= capped(s.len()) * pow2(149),
    decreases s.len(),
{
    lemma_one();
    if s.len() > 0 {
        let r = s.drop_last();
        let x = s.last();
        let t = total(r);
        lemma_total(r);
        assert(not_above_one(s[s.len() - 1]));
        lemma_sign(x);
        lemma_sign(t);
        let u = pow2(149);
        lemma_largest();
        assert(capped(r.len()) * u <= 0x100_0000 * u) by (nonlinear_arith)
            requires
                capped(r.len()) <= 0x100_0000,
        ;
        lemma_mag_order(t.code(), INFINITE as nat);
        lemma_mag_order(x.code(), ONE as nat);
        if t.finite() && x.finite() {
            lemma_sum(t, x);
            let n = capped(r.len());
            assert(n * u + u == (n + 1) * u) by (nonlinear_arith);
            lemma_near_order(t.value() + x.value(), ((n + 1) * u) as int);
            if n < 0x100_0000 {
                lemma_small_exact((n + 1) as nat);
            } else {
                lemma_stuck();
            }
        } else {
            assert(capped(s.len()) * u >= 0) by (nonlinear_arith)
                requires
                    capped(s.len()) >= 0,
                    u > 0,
            ;
        }
    }
}

/// A count, held to where the next one has no number of its own.
pub open spec fn capped(n: nat) -> nat {
    if n <= 0x100_0000 {
        n
    } else {
        0x100_0000
    }
}

/// The code of infinity lies beyond all counts.
proof fn lemma_largest()
    ensures
        mag(INFINITE as nat) > 0x100_0000 * pow2(149),
        mag(INFINITE as nat) == pow2(277),
{
    lemma2_to64();
    lemma_mag_code(254, 0x80_0000);
    lemma_pow2_adds(23, 254);
    lemma_pow2_adds(24, 149);
    lemma_pow2_strictly_increases(173, 277);
}

/// Counts up to a limit are held exactly.
pub proof fn lemma_small_exact(n: nat)
    requires
        n <= 0x100_0000,
    ensures
        near(n * pow2(149)) == n * pow2(149),
        near_value((n * pow2(149)) as int) == n * pow2(149),
{
    lemma_one();
    lemma_steps_exact(n, 149);
    assert(n * pow2(149) >= 0) by (nonlinear_arith)
        requires
            pow2(149) > 0,
    ;
}

/// From the limit on, adding one changes nothing.
proof fn lemma_stuck()
    ensures
        near_value((0x100_0001 * pow2(149)) as int) == 0x100_0000 * pow2(149),
{
    lemma_one();
    lemma2_to64();
    let u = pow2(149);
    let c = 150 * 0x80_0000nat + 0x80_0000;
    let v = 0x100_0001 * u;
    let x = ratio(v, 1);
    crate::arith::lemma_ratio_descends(v, 1);
    lemma_mag_code(150, 0x80_0000);
    lemma_mag_code(150, 0x80_0001);
    vstd::arithmetic::power2::lemma_pow2_unfold(150);
    assert(pow2(150) == 2 * u);
    assert(mag(c) == 0x100_0000 * u);
    assert(mag(c + 1) == 0x100_0002 * u);
    assert(x(2 * mag(c)) == 2 * v - 2 * mag(c));
    assert(x(2 * mag(c + 1)) == 2 * v - 2 * mag(c + 1));
    assert(x(mag(c) + mag(c + 1)) == 2 * v - (mag(c) + mag(c + 1)));
    assert(is_floor(x, c));
    lemma_one_floor(x, c);
}

/// What is known of the number nearest to a count.
pub proof fn lemma_count(n: nat)
    requires
        1 <= n <= usize::MAX,
    ensures
        count(n).finite(),
        !count(n).negative(),
        size(count(n)) >= capped(n) * pow2(149),
        size(count(n)) > 0,
{
    lemma_one();
    lemma2_to64();
    lemma2_to64_rest();
    let u = pow2(149);
    lemma_mag_code(190, 0x80_0000);
    lemma_pow2_adds(64, 149);
    lemma_pow2_adds(23, 190);
    let c = 190 * 0x80_0000nat + 0x80_0000;
    assert(mag(c) == pow2(64) * u);
    assert(n * u <= pow2(64) * u) by (nonlinear_arith)
        requires
            n <= pow2(64),
    ;
    lemma_ratio_order(n * u, 1, mag(c), 1);
    lemma_ratio_exact(c, 1);
    let r = rounded(ratio(n * u, 1));
    lemma_signed(false, r);
    let m = capped(n);
    assert(m * u <= n * u) by (nonlinear_arith)
        requires
            m <= n,
    ;
    lemma_near_order((m * u) as int, (n * u) as int);
    lemma_small_exact(m);
    assert(m * u > 0) by (nonlinear_arith)
        requires
            m >= 1,
            u > 0,
    ;
}

/// A mean of numbers not above one is not above one.
proof fn lemma_mean(mask: Seq<Binary32>, width: usize, k: int)
    requires
        mask.len() <= usize::MAX,
        0 <= k < mask.len(),
        forall|j: int| 0 <= j < mask.len() ==> not_above_one(#[trigger] mask[j]),
    ensures
        not_above_one(mean_at(mask, width, k)),
{
    lemma_one();
    let start = mean_start(k, width);
    let end = mean_end(k, width, mask.len());
    let part = mask.subrange(start, end);
    let n = (end - start) as nat;
    lemma_count(n);
    lemma_total(part);
    let t = total(part);
    let d = count(n);
    lemma_sign(t);
    lemma_sign(d);
    lemma_signed(true, INFINITE as nat);
    lemma_largest();
    lemma_mag_order(t.code(), INFINITE as nat);
    let u = pow2(149);
    assert(capped(n) * u <= 0x100_0000 * u) by (nonlinear_arith)
        requires
            capped(n) <= 0x100_0000,
    ;
    if t.finite() {
        lemma_quotient(t, d);
        if t.value() > 0 {
            lemma_quotient_below(t, d);
        } else if size(t) == 0 {
            lemma_ratio_exact(0, size(d));
            assert(0 * u == 0);
            assert(0 * size(d) == 0);
        }
    }
}

/// Settings under which a mask has its range: a depth and a focus strength that are accepted.
pub open spec fn maskable(config: MaskingConfig) -> bool {
    not_below_zero(config.depth) && (config.focus_strength.nan() || is_share(
        config.focus_strength,
    ))
}

/// A bin's own mask is not above one.
proof fn lemma_shaped(
    voice: Binary32,
    music: Binary32,
    floor: Binary32,
    freq: Binary32,
    config: MaskingConfig,
)
    requires
        is_share(floor),
        maskable(config),
    ensures
        not_above_one(shaped(voice, music, floor, freq, config)),
        not_above_one(by_ratio(voice, music, floor, config)),
{
    lemma_one();
    let room = difference(one(), floor);
    lemma_share(floor);
    let full = product(quotient(voice, sum(music, Binary32 { bits: EPSILON })), config.sensitivity);
    let scaled = full.held(zero(), room);
    assert(not_below_zero(scaled));
    lemma_product_sign(config.depth, scaled);
    lemma_one_minus(product(config.depth, scaled));
    let w = focus(freq, config.focus_low_hz, config.focus_high_hz);
    lemma_focus(freq, config.focus_low_hz, config.focus_high_hz);
    let s = config.focus_strength;
    assert(not_below_zero(focused(freq, config))) by {
        if s.nan() {
        } else {
            lemma_share(s);
            lemma_product_sign(s, w);
            lemma_product_sign(difference(one(), s), one());
            lemma_sum_sign(product(s, w), product(difference(one(), s), one()));
        }
    }
    let raw = if freq.less(config.sub_bass_protect_hz) {
        one()
    } else {
        by_ratio(voice, music, floor, config)
    };
    lemma_between(raw, focused(freq, config));
}

/// Whether every value of a mask lies between the floor and one.
pub open spec fn in_range(mask: Seq<Binary32>, floor: Binary32) -> bool {
    forall|k: int|
        0 <= k < mask.len() ==> floor.at_most(#[trigger] mask[k]) && mask[k].at_most(one())
}

/// The mask that a frame asks for lies between the floor and one, whatever the frame holds.
pub proof fn wanted_in_range(
    voice: Seq<Binary32>,
    music: Seq<Binary32>,
    gate: Binary32,
    floor: Binary32,
    fft_size: usize,
    sample_rate: u32,
    config: MaskingConfig,
)
    requires
        is_share(floor),
        maskable(config),
        not_below_zero(gate),
    ensures
        in_range(
            wanted(
                all_shaped(voice, music, floor, fft_size, sample_rate, config),
                gate,
                floor,
                config.spectral_smooth_bins,
            ),
            floor,
        ),
{
    lemma_one();
    let shapes = all_shaped(voice, music, floor, fft_size, sample_rate, config);
    let width = config.spectral_smooth_bins;
    assert forall|k: int| 0 <= k < shapes.len() implies not_above_one(#[trigger] shapes[k]) by {
        lemma_shaped(voice[k], music[k], floor, frequency(k, fft_size, sample_rate), config);
    }
    let frame = wanted(shapes, gate, floor, width);
    assert forall|k: int| 0 <= k < frame.len() implies floor.at_most(#[trigger] frame[k])
        && frame[k].at_most(one()) by {
        if width > 1 {
            lemma_mean(shapes, width, k);
        }
        let m = averaged(shapes, width)[k];
        assert(not_above_one(m));
        lemma_between(m, gate);
        assert(not_above_one(gated(m, gate)));
    }
}

/// Whether all values of a mask lie between zero and one.
pub open spec fn all_shares(mask: Seq<Binary32>) -> bool {
    forall|k: int| 0 <= k < mask.len() ==> is_share(#[trigger] mask[k])
}

/// The weights of smoothing lie between zero and one.
proof fn lemma_weights()
    ensures
        is_share(Binary32 { bits: ATTACK }),
        is_share(Binary32 { bits: RELEASE }),
{
    lemma_one();
    lemma_mag_order(ATTACK as nat, ONE as nat);
    lemma_mag_order(RELEASE as nat, ONE as nat);
    lemma_mag_order(0, ATTACK as nat);
    lemma_mag_order(0, RELEASE as nat);
}

/// Every mask that is handed out lies between the floor and one, and the smoothed mask stays
/// between zero and one, frame after frame, whatever the frames hold.
pub proof fn mask_in_range(
    before: MaskView,
    voice: Seq<Binary32>,
    music: Seq<Binary32>,
    gate: Binary32,
    floor: Binary32,
    config: MaskingConfig,
)
    requires
        before.smoothed.len() == bins(before.fft_size),
        all_shares(before.smoothed),
        is_share(floor),
        maskable(config),
        not_below_zero(gate),
    ensures
        all_shares(mask_after(before, voice, music, gate, floor, config).smoothed),
        in_range(
            handed_out(
                mask_after(before, voice, music, gate, floor, config).smoothed,
                floor,
                before.fft_size,
                before.sample_rate,
                config,
            ),
            floor,
        ),
{
    lemma_one();
    lemma_weights();
    let shapes = all_shaped(voice, music, floor, before.fft_size, before.sample_rate, config);
    let frame = wanted(shapes, gate, floor, config.spectral_smooth_bins);
    wanted_in_range(voice, music, gate, floor, before.fft_size, before.sample_rate, config);
    let after = followed(before.smoothed, frame);
    assert forall|k: int| 0 <= k < after.len() implies is_share(#[trigger] after[k]) by {
        assert(floor.at_most(frame[k]) && frame[k].at_most(one()));
        assert(is_share(before.smoothed[k]));
        assert(is_share(frame[k]));
        shares_stay_shares(Binary32 { bits: ATTACK }, before.smoothed[k], frame[k]);
        shares_stay_shares(Binary32 { bits: RELEASE }, before.smoothed[k], frame[k]);
    }
    let out = handed_out(after, floor, before.fft_size, before.sample_rate, config);
    assert forall|k: int| 0 <= k < out.len() implies floor.at_most(#[trigger] out[k])
        && out[k].at_most(one()) by {
        assert(is_share(after[k]));
    }
}

/// Below the protected frequency no mask that is handed out touches the music.
pub proof fn sub_bass_untouched(
    before: MaskView,
    voice: Seq<Binary32>,
    music: Seq<Binary32>,
    gate: Binary32,
    floor: Binary32,
    config: MaskingConfig,
    k: int,
)
    requires
        0 <= k < before.smoothed.len(),
        frequency(k, before.fft_size, before.sample_rate).less(config.sub_bass_protect_hz),
    ensures
        handed_out(
            mask_after(before, voice, music, gate, floor, config).smoothed,
            floor,
            before.fft_size,
            before.sample_rate,
            config,
        )[k] == one(),
{
}

/// While the voice gate is closed, every frame asks for a mask of one everywhere.
pub proof fn closed_gate_asks_for_one(
    shapes: Seq<Binary32>,
    gate: Binary32,
    floor: Binary32,
    width: usize,
    k: int,
)
    requires
        gate.code() == 0,
        floor.at_most(one()),
        0 <= k < shapes.len(),
    ensures
        wanted(shapes, gate, floor, width)[k] == one(),
{
    lemma_one();
}

/// Music that no mask has touched stays untouched for as long as the voice gate is closed.
pub proof fn closed_gate_touches_nothing(
    before: MaskView,
    voice: Seq<Binary32>,
    music: Seq<Binary32>,
    gate: Binary32,
    floor: Binary32,
    config: MaskingConfig,
)
    requires
        before.smoothed.len() == bins(before.fft_size),
        before.smoothed =~= Seq::new(bins(before.fft_size), |k: int| one()),
        gate.code() == 0,
        floor.at_most(one()),
    ensures
        mask_after(before, voice, music, gate, floor, config) == before,
        forall|k: int|
            0 <= k < before.smoothed.len() ==> #[trigger] handed_out(
                mask_after(before, voice, music, gate, floor, config).smoothed,
                floor,
                before.fft_size,
                before.sample_rate,
                config,
            )[k] == one(),
{
    lemma_one();
    lemma_weights();
    one_stays_one(Binary32 { bits: RELEASE });
    let shapes = all_shaped(voice, music, floor, before.fft_size, before.sample_rate, config);
    let frame = wanted(shapes, gate, floor, config.spectral_smooth_bins);
    assert forall|k: int| 0 <= k < before.smoothed.len() implies follow(
        before.smoothed[k],
        frame[k],
    ) == one() by {
        closed_gate_asks_for_one(shapes, gate, floor, config.spectral_smooth_bins, k);
    }
    assert(followed(before.smoothed, frame) =~= before.smoothed);
}

/// A mask that follows one never falls.
proof fn lemma_follows_one_up(x: Binary32)
    requires
        is_share(x),
    ensures
        x.at_most(follow(x, one())),
{
    lemma_one();
    lemma_weights();
    rises_towards_one(Binary32 { bits: RELEASE }, x);
}

/// While the voice gate is closed, masks only recover: no bin of the music is reduced further.
pub proof fn closed_gate_only_recovers(
    before: MaskView,
    voice: Seq<Binary32>,
    music: Seq<Binary32>,
    gate: Binary32,
    floor: Binary32,
    config: MaskingConfig,
    k: int,
)
    requires
        before.smoothed.len() == bins(before.fft_size),
        all_shares(before.smoothed),
        gate.code() == 0,
        floor.at_most(one()),
        0 <= k < before.smoothed.len(),
    ensures
        before.smoothed[k].at_most(
            mask_after(before, voice, music, gate, floor, config).smoothed[k],
        ),
{
    let shapes = all_shaped(voice, music, floor, before.fft_size, before.sample_rate, config);
    closed_gate_asks_for_one(shapes, gate, floor, config.spectral_smooth_bins, k);
    assert(is_share(before.smoothed[k]));
    lemma_follows_one_up(before.smoothed[k]);
}

/// A bin without voice is not masked by the ratio of voice to music.
pub proof fn silent_voice_masks_nothing(
    voice: Binary32,
    music: Binary32,
    floor: Binary32,
    config: MaskingConfig,
)
    requires
        voice.code() == 0,
        music.finite(),
        !music.negative(),
        floor.at_most(one()),
        config.sensitivity.finite(),
        config.depth.finite(),
    ensures
        by_ratio(voice, music, floor, config) == one(),
{
    lemma_one();
    let e = Binary32 { bits: EPSILON };
    let d = sum(music, e);
    lemma_sum(music, e);
    lemma_mag_order(0, EPSILON as nat);
    lemma_near_order(e.value(), music.value() + e.value());
    lemma_near_exact(EPSILON as nat);
    lemma_sign(d);
    lemma_sign(voice);
    lemma_mag_order(d.code(), INFINITE as nat);
    lemma_signed(voice.negative() != d.negative(), 0);
    let q = quotient(voice, d);
    assert(q.code() == 0) by {
        if d.finite() {
            lemma_quotient(voice, d);
            lemma_ratio_exact(0, size(d));
            assert(0 * pow2(149) == 0);
            assert(0 * size(d) == 0);
        }
    }
    lemma_sign(q);
    lemma_no_size(q, config.sensitivity);
    let full = product(q, config.sensitivity);
    let room = difference(one(), floor);
    lemma_difference_sign(one(), floor);
    let scaled = full.held(zero(), room);
    lemma_sign(scaled);
    assert(scaled.value() == 0 || room.value() < 0 || room.nan());
    assert(scaled.value() == 0);
    lemma_sign(full);
    lemma_no_size(config.depth, scaled);
    lemma_one_minus_nothing(product(config.depth, scaled));
}

/// One less nothing is one.
proof fn lemma_one_minus_nothing(x: Binary32)
    requires
        x.value() == 0,
        !x.nan(),
    ensures
        difference(one(), x) == one(),
{
    lemma_one();
    lemma_sign(x);
    let t = x.turned();
    assert(t.code() == x.code());
    lemma_ratio_exact(ONE as nat, 1);
}

/// A depth of zero masks nothing.
pub proof fn no_depth_masks_nothing(
    voice: Binary32,
    music: Binary32,
    floor: Binary32,
    config: MaskingConfig,
)
    requires
        config.depth.code() == 0,
        is_share(floor),
        !product(
            quotient(voice, sum(music, Binary32 { bits: EPSILON })),
            config.sensitivity,
        ).nan(),
    ensures
        by_ratio(voice, music, floor, config) == one(),
{
    lemma_one();
    let room = difference(one(), floor);
    lemma_share(floor);
    let full = product(quotient(voice, sum(music, Binary32 { bits: EPSILON })), config.sensitivity);
    let scaled = full.held(zero(), room);
    lemma_mag_order(scaled.code(), ONE as nat);
    lemma_sign(scaled);
    lemma_sign(config.depth);
    assert(scaled.finite());
    lemma_no_size(config.depth, scaled);
    lemma_one_minus_nothing(product(config.depth, scaled));
}

/// More voice in a bin never leaves more of the music.
pub proof fn more_voice_masks_more(
    less_voice: Binary32,
    more_voice: Binary32,
    music: Binary32,
    floor: Binary32,
    config: MaskingConfig,
)
    requires
        less_voice.finite(),
        more_voice.finite(),
        !less_voice.negative(),
        !more_voice.negative(),
        less_voice.at_most(more_voice),
        music.finite(),
        !music.negative(),
        is_share(floor),
        is_share(config.depth),
        config.sensitivity.finite(),
        config.sensitivity.value() > 0,
    ensures
        by_ratio(more_voice, music, floor, config).at_most(
            by_ratio(less_voice, music, floor, config),
        ),
{
    lemma_one();
    let e = Binary32 { bits: EPSILON };
    let d = sum(music, e);
    lemma_sum(music, e);
    lemma_mag_order(0, EPSILON as nat);
    lemma_near_order(e.value(), music.value() + e.value());
    lemma_near_exact(EPSILON as nat);
    lemma_sign(d);
    let a = quotient(less_voice, d);
    let b = quotient(more_voice, d);
    lemma_sign(less_voice);
    lemma_sign(more_voice);
    lemma_sign(config.sensitivity);
    lemma_signed(false, INFINITE as nat);
    lemma_signed(false, 0);
    lemma_mag_order(d.code(), INFINITE as nat);
    if d.finite() {
        lemma_quotient(less_voice, d);
        lemma_quotient(more_voice, d);
        let p = pow2(149);
        assert((size(less_voice) * p) * size(d) <= (size(more_voice) * p) * size(d))
            by (nonlinear_arith)
            requires
                size(less_voice) <= size(more_voice),
        ;
        lemma_ratio_order(size(less_voice) * p, size(d), size(more_voice) * p, size(d));
        lemma_mag_order(a.code(), b.code());
    }
    lemma_sign(a);
    lemma_sign(b);
    lemma_mag_order(a.code(), INFINITE as nat);
    lemma_mag_order(b.code(), INFINITE as nat);
    assert(size(a) <= size(b) && !a.negative() && !b.negative() && !a.nan() && !b.nan());
    if a.finite() {
        lemma_product(a, config.sensitivity);
        lemma_mag_order(product(a, config.sensitivity).code(), INFINITE as nat);
    }
    if b.finite() {
        lemma_product(b, config.sensitivity);
    }
    if a.finite() && b.finite() {
        lemma_product_order(a, config.sensitivity, b, config.sensitivity);
    }
    let room = difference(one(), floor);
    lemma_share(floor);
    let fa = product(a, config.sensitivity);
    let fb = product(b, config.sensitivity);
    let ha = fa.held(zero(), room);
    let hb = fb.held(zero(), room);
    lemma_mag_order(room.code(), ONE as nat);
    lemma_mag_order(ha.code(), ONE as nat);
    lemma_mag_order(hb.code(), ONE as nat);
    lemma_share(config.depth);
    lemma_sign(ha);
    lemma_sign(hb);
    lemma_product_order(config.depth, ha, config.depth, hb);
    lemma_product_sign(config.depth, ha);
    lemma_product_sign(config.depth, hb);
    let pa = product(config.depth, ha);
    let pb = product(config.depth, hb);
    lemma_product(config.depth, ha);
    lemma_product(config.depth, hb);
    crate::order::lemma_product_below(ha, config.depth);
    crate::order::lemma_product_below(hb, config.depth);
    assert(size(ha) * size(config.depth) == size(config.depth) * size(ha)) by (nonlinear_arith);
    assert(size(hb) * size(config.depth) == size(config.depth) * size(hb)) by (nonlinear_arith);
    lemma_sign(pa);
    lemma_sign(pb);
    lemma_mag_order(pa.code(), INFINITE as nat);
    lemma_mag_order(pb.code(), INFINITE as nat);
    assert(pa.turned().code() == pa.code() && pa.turned().value() == -pa.value());
    assert(pb.turned().code() == pb.code() && pb.turned().value() == -pb.value());
    lemma_sum(one(), pa.turned());
    lemma_sum(one(), pb.turned());
    lemma_near_order(one().value() - pb.value(), one().value() - pa.value());
}

/// Between one and one lies one.
pub proof fn lemma_one_between(t: Binary32)
    requires
        t.finite(),
    ensures
        between(one(), one(), t) == one(),
{
    lemma_one();
    let m = one().turned();
    assert(m.value() == -one().value());
    let d = difference(one(), one());
    lemma_sum(one(), m);
    lemma_near_exact(0);
    lemma_sign(d);
    lemma_no_size(t, d);
    let p = product(t, d);
    lemma_sign(p);
    lemma_ratio_exact(ONE as nat, 1);
}

/// A sum of ones is their count.
proof fn lemma_total_of_ones(s: Seq<Binary32>)
    requires
        s.len() <= 0x100_0000,
        forall|j: int| 0 <= j < s.len() ==> #[trigger] s[j] == one(),
    ensures
        total(s) == count(s.len()),
    decreases s.len(),
{
    lemma_one();
    let u = pow2(149);
    if s.len() == 0 {
        lemma_ratio_exact(0, 1);
        assert(0 * u == 0);
    } else {
        let n = (s.len() - 1) as nat;
        lemma_total_of_ones(s.drop_last());
        assert(s.last() == one());
        lemma_small_exact(n);
        lemma_largest();
        assert(n * u <= 0x100_0000 * u) by (nonlinear_arith)
            requires
                n <= 0x100_0000,
        ;
        let r = rounded(ratio(n * u, 1));
        lemma_near_order(0, (n * u) as int);
        lemma_signed(false, r);
        assert(n * u + u == (n + 1) * u) by (nonlinear_arith);
        lemma_mag_order(r, INFINITE as nat);
        let t = count(n);
        assert(size(t) == n * u);
        assert(t.value() == n * u);
        assert(t.value() + one().value() == (n + 1) * u);
        assert((n + 1) * u > 0) by (nonlinear_arith)
            requires
                u > 0,
                n >= 0,
        ;
    }
}

/// A mean over bins that all hold one is one.
proof fn lemma_mean_of_ones(mask: Seq<Binary32>, width: usize, k: int)
    requires
        0 <= k < mask.len(),
        mean_end(k, width, mask.len()) - mean_start(k, width) <= 0x100_0000,
        forall|j: int|
            mean_start(k, width) <= j < mean_end(k, width, mask.len()) ==> #[trigger] mask[j]
                == one(),
    ensures
        averaged(mask, width)[k] == one(),
{
    lemma_one();
    let start = mean_start(k, width);
    let end = mean_end(k, width, mask.len());
    let part = mask.subrange(start, end);
    let n = (end - start) as nat;
    assert forall|j: int| 0 <= j < part.len() implies #[trigger] part[j] == one() by {
        assert(part[j] == mask[start + j]);
    }
    if width > 1 {
        lemma_total_of_ones(part);
        lemma_count(n);
        let t = count(n);
        lemma_quotient(t, t);
        lemma_ratio_exact(ONE as nat, size(t));
        assert(size(t) * pow2(149) == pow2(149) * size(t)) by (nonlinear_arith);
        lemma_signed(false, ONE as nat);
    } else {
        assert(start <= k < end);
    }
}

/// Where the shapes of all bins around a bin are one, a bin that nothing has masked stays so.
pub proof fn lemma_shapes_of_one(
    before: MaskView,
    voice: Seq<Binary32>,
    music: Seq<Binary32>,
    gate: Binary32,
    floor: Binary32,
    config: MaskingConfig,
    k: int,
)
    requires
        before.smoothed.len() == bins(before.fft_size),
        0 <= k < bins(before.fft_size),
        before.smoothed[k] == one(),
        floor.at_most(one()),
        gate.finite(),
        mean_end(k, config.spectral_smooth_bins, bins(before.fft_size)) - mean_start(
            k,
            config.spectral_smooth_bins,
        ) <= 0x100_0000,
        forall|j: int|
            mean_start(k, config.spectral_smooth_bins) <= j < mean_end(
                k,
                config.spectral_smooth_bins,
                bins(before.fft_size),
            ) ==> shaped(
                #[trigger] voice[j],
                music[j],
                floor,
                frequency(j, before.fft_size, before.sample_rate),
                config,
            ) == one(),
    ensures
        mask_after(before, voice, music, gate, floor, config).smoothed[k] == one(),
        handed_out(
            mask_after(before, voice, music, gate, floor, config).smoothed,
            floor,
            before.fft_size,
            before.sample_rate,
            config,
        )[k] == one(),
{
    lemma_one();
    lemma_weights();
    let width = config.spectral_smooth_bins;
    let shapes = all_shaped(voice, music, floor, before.fft_size, before.sample_rate, config);
    assert forall|j: int|
        mean_start(k, width) <= j < mean_end(
            k,
            width,
            shapes.len(),
        ) implies #[trigger] shapes[j] == one() by {
        let own = voice[j];
        assert(shapes[j] == shaped(
            own,
            music[j],
            floor,
            frequency(j, before.fft_size, before.sample_rate),
            config,
        ));
    }
    lemma_mean_of_ones(shapes, width, k);
    lemma_one_between(gate);
    one_stays_one(Binary32 { bits: RELEASE });
    let frame = wanted(shapes, gate, floor, width);
    assert(frame[k] == one());
}

/// Where all bins around a bin ask for one, a bin that nothing has masked stays so.
proof fn lemma_ones_around(
    before: MaskView,
    voice: Seq<Binary32>,
    music: Seq<Binary32>,
    gate: Binary32,
    floor: Binary32,
    config: MaskingConfig,
    k: int,
)
    requires
        before.smoothed.len() == bins(before.fft_size),
        0 <= k < bins(before.fft_size),
        before.smoothed[k] == one(),
        floor.at_most(one()),
        gate.finite(),
        mean_end(k, config.spectral_smooth_bins, bins(before.fft_size)) - mean_start(
            k,
            config.spectral_smooth_bins,
        ) <= 0x100_0000,
        forall|j: int|
            mean_start(k, config.spectral_smooth_bins) <= j < mean_end(
                k,
                config.spectral_smooth_bins,
                bins(before.fft_size),
            ) ==> {
                &&& by_ratio(#[trigger] voice[j], music[j], floor, config) == one()
                &&& focused(
                    frequency(j, before.fft_size, before.sample_rate),
                    config,
                ).finite()
            },
    ensures
        mask_after(before, voice, music, gate, floor, config).smoothed[k] == one(),
        handed_out(
            mask_after(before, voice, music, gate, floor, config).smoothed,
            floor,
            before.fft_size,
            before.sample_rate,
            config,
        )[k] == one(),
{
    let width = config.spectral_smooth_bins;
    assert forall|j: int|
        mean_start(k, width) <= j < mean_end(k, width, bins(before.fft_size)) implies shaped(
        #[trigger] voice[j],
        music[j],
        floor,
        frequency(j, before.fft_size, before.sample_rate),
        config,
    ) == one() by {
        let freq = frequency(j, before.fft_size, before.sample_rate);
        assert(by_ratio(voice[j], music[j], floor, config) == one());
        lemma_one_between(focused(freq, config));
    }
    lemma_shapes_of_one(before, voice, music, gate, floor, config, k);
}

/// A bin that no mask has touched stays untouched where no voice is heard in it and in the bins
/// that are averaged with it: music is reduced only where both are heard.
pub proof fn bin_without_voice_is_untouched(
    before: MaskView,
    voice: Seq<Binary32>,
    music: Seq<Binary32>,
    gate: Binary32,
    floor: Binary32,
    config: MaskingConfig,
    k: int,
)
    requires
        before.smoothed.len() == bins(before.fft_size),
        voice.len() == bins(before.fft_size),
        music.len() == bins(before.fft_size),
        0 <= k < bins(before.fft_size),
        before.smoothed[k] == one(),
        floor.at_most(one()),
        gate.finite(),
        config.sensitivity.finite(),
        config.depth.finite(),
        mean_end(k, config.spectral_smooth_bins, bins(before.fft_size)) - mean_start(
            k,
            config.spectral_smooth_bins,
        ) <= 0x100_0000,
        forall|j: int|
            mean_start(k, config.spectral_smooth_bins) <= j < mean_end(
                k,
                config.spectral_smooth_bins,
                bins(before.fft_size),
            ) ==> {
                &&& (#[trigger] voice[j]).code() == 0
                &&& music[j].finite()
                &&& !music[j].negative()
                &&& focused(
                    frequency(j, before.fft_size, before.sample_rate),
                    config,
                ).finite()
            },
    ensures
        mask_after(before, voice, music, gate, floor, config).smoothed[k] == one(),
        handed_out(
            mask_after(before, voice, music, gate, floor, config).smoothed,
            floor,
            before.fft_size,
            before.sample_rate,
            config,
        )[k] == one(),
{
    let width = config.spectral_smooth_bins;
    assert forall|j: int|
        mean_start(k, width) <= j < mean_end(k, width, bins(before.fft_size)) implies by_ratio(
        #[trigger] voice[j],
        music[j],
        floor,
        config,
    ) == one() by {
        silent_voice_masks_nothing(voice[j], music[j], floor, config);
    }
    lemma_ones_around(before, voice, music, gate, floor, config, k);
}

/// Whether the share of voice in a bin, scaled by the sensitivity, is a number: always, but for
/// a share beyond all numbers at a sensitivity of zero.
pub open spec fn has_ratio(voice: Binary32, music: Binary32, config: MaskingConfig) -> bool {
    config.sensitivity.code() != 0 || quotient(
        voice,
        sum(music, Binary32 { bits: EPSILON }),
    ).finite()
}

/// A depth of zero masks nothing, whatever magnitudes the frame holds.
proof fn lemma_no_depth(
    voice: Binary32,
    music: Binary32,
    floor: Binary32,
    config: MaskingConfig,
)
    requires
        config.depth.code() == 0,
        config.sensitivity.finite(),
        is_share(floor),
        voice.finite(),
        !voice.negative(),
        music.finite(),
        !music.negative(),
        has_ratio(voice, music, config),
    ensures
        by_ratio(voice, music, floor, config) == one(),
{
    lemma_one();
    let e = Binary32 { bits: EPSILON };
    let d = sum(music, e);
    lemma_sum(music, e);
    lemma_mag_order(0, EPSILON as nat);
    lemma_near_order(e.value(), music.value() + e.value());
    lemma_near_exact(EPSILON as nat);
    lemma_sign(d);
    lemma_sign(config.sensitivity);
    assert(!d.nan() && d.value() > 0);
    lemma_mag_order(d.code(), INFINITE as nat);
    let q = quotient(voice, d);
    lemma_signed(voice.negative() != d.negative(), 0);
    assert(!q.nan()) by {
        if d.finite() {
            lemma_quotient(voice, d);
        }
    }
    lemma_signed(q.negative() != config.sensitivity.negative(), INFINITE as nat);
    if q.finite() {
        lemma_product(q, config.sensitivity);
    }
    no_depth_masks_nothing(voice, music, floor, config);
}

/// With a depth of zero nothing is masked: a mask that has touched nothing is handed out as one
/// everywhere and stays so, whatever the frame holds.
pub proof fn no_depth_touches_nothing(
    before: MaskView,
    voice: Seq<Binary32>,
    music: Seq<Binary32>,
    gate: Binary32,
    floor: Binary32,
    config: MaskingConfig,
)
    requires
        before.smoothed =~= Seq::new(bins(before.fft_size), |k: int| one()),
        voice.len() == bins(before.fft_size),
        music.len() == bins(before.fft_size),
        config.depth.code() == 0,
        config.sensitivity.finite(),
        is_share(floor),
        gate.finite(),
        forall|k: int|
            0 <= k < bins(before.fft_size) ==> #[trigger] mean_end(
                k,
                config.spectral_smooth_bins,
                bins(before.fft_size),
            ) - mean_start(k, config.spectral_smooth_bins) <= 0x100_0000,
        forall|j: int|
            0 <= j < bins(before.fft_size) ==> {
                &&& (#[trigger] voice[j]).finite()
                &&& !voice[j].negative()
                &&& music[j].finite()
                &&& !music[j].negative()
                &&& has_ratio(voice[j], music[j], config)
                &&& focused(
                    frequency(j, before.fft_size, before.sample_rate),
                    config,
                ).finite()
            },
    ensures
        mask_after(before, voice, music, gate, floor, config) == before,
        handed_out(
            mask_after(before, voice, music, gate, floor, config).smoothed,
            floor,
            before.fft_size,
            before.sample_rate,
            config,
        ) == Seq::new(bins(before.fft_size), |k: int| one()),
{
    let after = mask_after(before, voice, music, gate, floor, config);
    let out = handed_out(after.smoothed, floor, before.fft_size, before.sample_rate, config);
    let width = config.spectral_smooth_bins;
    assert forall|k: int| 0 <= k < bins(before.fft_size) implies #[trigger] after.smoothed[k]
        == one() && out[k] == one() by {
        assert(mean_end(k, width, bins(before.fft_size)) - mean_start(k, width) <= 0x100_0000);
        assert forall|j: int|
            mean_start(k, width) <= j < mean_end(k, width, bins(before.fft_size)) implies by_ratio(
            #[trigger] voice[j],
            music[j],
            floor,
            config,
        ) == one() by {
            lemma_no_depth(voice[j], music[j], floor, config);
        }
        assert(before.smoothed[k] == one());
        lemma_ones_around(before, voice, music, gate, floor, config, k);
    }
    assert(after.smoothed =~= before.smoothed);
    assert(out =~= Seq::new(bins(before.fft_size), |k: int| one()));
}

} // verus!
