//! The voice compressor: lifts a quiet voice, gently.

use crate::arith::{difference, product, quotient, size};
use crate::binary32::{
    lemma_code_parts, lemma_mag_code, lemma_mag_order, mag, step_of, steps_of, Binary32, BINADE,
    INFINITE, ONE,
};
use crate::blend::{
    blend, blended, is_share, lemma_near_error, lemma_near_power, lemma_ratio_error, lemma_share,
    lemma_share_product, means_stay_above_one, one, one_stays_one, zero,
};
use crate::level::{frame_rms, mean_root, squares_of};
use crate::order::{
    lemma_near_order, lemma_one, lemma_product, lemma_product_order, lemma_quotient,
    lemma_ratio_exact, lemma_signed, lemma_sum, near, one_changes_nothing,
};
use crate::voice_gate::{decay_exponent, decibel, fading, TWENTY};
use vstd::arithmetic::power2::{
    lemma2_to64, lemma_pow2_adds, lemma_pow2_pos, lemma_pow2_unfold, pow2,
};
use vstd::prelude::*;

verus! {

/// The bit pattern of eight, the greatest gain.
pub const MAX_GAIN: u32 = 0x4100_0000;

/// A compressor that works on levels: it gives back a part of what a voice lacks to the
/// target, and never lowers a voice.
#[derive(Debug, Clone, Copy, PartialEq, Eq)]
pub struct VoiceCompressor {
    /// The level that a voice should have.
    pub target_db: Binary32,
    /// The loudness up to which a frame counts as silence.
    pub noise_floor: Binary32,
    /// How gently the compressor works.
    pub ratio: Binary32,
    /// The gain, smoothed over time.
    pub smoothed_gain: Binary32,
    /// The weight of the old gain while it falls.
    pub attack_alpha: Binary32,
    /// The weight of the old gain while it rises.
    pub release_alpha: Binary32,
    /// The greatest gain.
    pub max_gain: Binary32,
}

/// The gain in decibel for a voice of a level: a part of what it lacks to the target, and
/// nothing where it lacks nothing.
pub open spec fn boost_db(c: VoiceCompressor, input_db: Binary32) -> Binary32 {
    let lacking = difference(c.target_db, input_db);
    if zero().less(lacking) {
        quotient(lacking, c.ratio)
    } else {
        zero()
    }
}

/// The exponent to ten of that gain, by the logarithm of the loudness.
pub open spec fn boost_exponent(c: VoiceCompressor, log: Binary32) -> Binary32 {
    quotient(boost_db(c, decibel(log)), Binary32 { bits: TWENTY })
}

/// The gain that a frame asks for: one for silence, else the power, held to the greatest gain.
pub open spec fn gain_wanted(c: VoiceCompressor, rms: Binary32, power: Binary32) -> Binary32 {
    if c.noise_floor.less(rms) {
        power.smaller(c.max_gain)
    } else {
        one()
    }
}

/// A compressor after a frame that asked for a gain.
pub open spec fn compressor_after(c: VoiceCompressor, wanted: Binary32) -> VoiceCompressor {
    let alpha = if wanted.less(c.smoothed_gain) {
        c.attack_alpha
    } else {
        c.release_alpha
    };
    VoiceCompressor { smoothed_gain: blended(alpha, c.smoothed_gain, wanted), ..c }
}

/// The gain that is applied: all of the smoothed gain for a mix of one, none of it for zero.
pub open spec fn gain_applied(c: VoiceCompressor, mix: Binary32) -> Binary32 {
    blended(mix, c.smoothed_gain, one())
}

/// A frame with a gain applied.
pub open spec fn amplified(frame: Seq<Binary32>, gain: Binary32) -> Seq<Binary32> {
    Seq::new(frame.len(), |i: int| product(frame[i], gain))
}

impl VoiceCompressor {
    /// A compressor with a gain of one. `log10` and `exp` give the logarithm to the base of
    /// ten and the exponential function of their arguments.
    pub fn new<L: Fn(Binary32) -> Binary32, E: Fn(Binary32) -> Binary32>(
        target_rms: Binary32,
        noise_floor: Binary32,
        ratio: Binary32,
        sample_rate: u32,
        hop_size: usize,
        log10: L,
        exp: E,
    ) -> (r: Self)
        requires
            call_requires(log10, (target_rms,)),
            forall|x: Binary32| #[trigger] call_requires(exp, (x,)),
        ensures
            exists|log: Binary32|
                #[trigger] call_ensures(log10, (target_rms,), log) && r.target_db == decibel(log),
            call_ensures(
                exp,
                (fading(Binary32 { bits: 0x41f0_0000 }, sample_rate, hop_size),),
                r.attack_alpha,
            ),
            call_ensures(
                exp,
                (fading(Binary32 { bits: 0x4348_0000 }, sample_rate, hop_size),),
                r.release_alpha,
            ),
            r.noise_floor == noise_floor,
            r.ratio == ratio,
            r.smoothed_gain == one(),
            r.max_gain == (Binary32 { bits: MAX_GAIN }),
    {
        let log = log10(target_rms);
        // Slow attack of 30 ms and release of 200 ms, for a natural feel.
        VoiceCompressor {
            target_db: (Binary32 { bits: TWENTY }).times(log),
            noise_floor,
            ratio,
            smoothed_gain: Binary32 { bits: ONE },
            attack_alpha: exp(
                decay_exponent(Binary32 { bits: 0x41f0_0000 }, sample_rate, hop_size),
            ),
            release_alpha: exp(
                decay_exponent(Binary32 { bits: 0x4348_0000 }, sample_rate, hop_size),
            ),
            max_gain: Binary32 { bits: MAX_GAIN },
        }
    }

    /// The exponent to ten of the gain for a voice, by the logarithm of its loudness.
    pub fn exponent_for(&self, log: Binary32) -> (r: Binary32)
        ensures
            r == boost_exponent(*self, log),
    {
        let input_db = (Binary32 { bits: TWENTY }).times(log);
        let lacking = self.target_db.minus(input_db);
        // Only lift, never lower: a loud voice is left natural.
        let gain_db = if (Binary32 { bits: 0 }).lt(lacking) {
            lacking.over(self.ratio)
        } else {
            Binary32 { bits: 0 }
        };
        gain_db.over(Binary32 { bits: TWENTY })
    }

    /// Lets the smoothed gain follow the gain that a frame asks for.
    pub fn follow(&mut self, wanted: Binary32)
        ensures
            *final(self) == compressor_after(*old(self), wanted),
    {
        let alpha = if wanted.lt(self.smoothed_gain) {
            self.attack_alpha
        } else {
            self.release_alpha
        };
        self.smoothed_gain = blend(alpha, self.smoothed_gain, wanted);
    }

    /// Compresses one frame. `mix` tells how much of the gain is applied; `log10` and `pow10`
    /// give the logarithm to the base of ten and the power of ten of their arguments.
    pub fn process<L: Fn(Binary32) -> Binary32, P: Fn(Binary32) -> Binary32>(
        &mut self,
        frame: &[Binary32],
        mix: Binary32,
        log10: L,
        pow10: P,
    ) -> (r: Vec<Binary32>)
        requires
            forall|x: Binary32| #[trigger] call_requires(log10, (x,)),
            forall|x: Binary32| #[trigger] call_requires(pow10, (x,)),
        ensures
            exists|log: Binary32, power: Binary32| #[trigger]
                boost_found(
                    *old(self),
                    mean_root(squares_of(frame@)),
                    log10,
                    pow10,
                    log,
                    power,
                ) && *final(self) == compressor_after(
                    *old(self),
                    gain_wanted(*old(self), mean_root(squares_of(frame@)), power),
                ),
            r@ == amplified(frame@, gain_applied(*final(self), mix)),
    {
        let ghost before = *self;
        let rms = frame_rms(frame);
        let wanted = if self.noise_floor.lt(rms) {
            let log = log10(rms);
            let power = pow10(self.exponent_for(log));
            assert(boost_found(before, rms, log10, pow10, log, power));
            power.min(self.max_gain)
        } else {
            let wanted = Binary32 { bits: ONE };
            assert(boost_found(before, rms, log10, pow10, wanted, wanted));
            wanted
        };
        self.follow(wanted);
        let gain = blend(mix, self.smoothed_gain, Binary32 { bits: ONE });
        assert(gain == gain_applied(*self, mix));
        amplify(frame, gain)
    }
}

/// Whether a logarithm and a power are what the functions gave for the loudness of a frame;
/// for silence nothing is asked.
pub open spec fn boost_found<L: Fn(Binary32) -> Binary32, P: Fn(Binary32) -> Binary32>(
    c: VoiceCompressor,
    rms: Binary32,
    log10: L,
    pow10: P,
    log: Binary32,
    power: Binary32,
) -> bool {
    c.noise_floor.less(rms) ==> call_ensures(log10, (rms,), log) && call_ensures(
        pow10,
        (boost_exponent(c, log),),
        power,
    )
}

/// Applies a gain to a frame.
fn amplify(frame: &[Binary32], gain: Binary32) -> (r: Vec<Binary32>)
    ensures
        r@ == amplified(frame@, gain),
{
    let mut out: Vec<Binary32> = Vec::new();
    while out.len() < frame.len()
        invariant
            out.len() <= frame@.len(),
            forall|i: int| 0 <= i < out.len() ==> out[i] == product(frame@[i], gain),
        decreases frame@.len() - out.len(),
    {
        let i: usize = out.len();
        out.push(frame[i].times(gain));
    }
    assert(out@ =~= amplified(frame@, gain));
    out
}

/// Whether a gain lies between one and the greatest gain.
pub open spec fn is_boost(gain: Binary32) -> bool {
    one().at_most(gain) && gain.at_most(Binary32 { bits: MAX_GAIN })
}

/// The magnitude of the greatest gain.
proof fn lemma_max_gain()
    ensures
        mag(MAX_GAIN as nat) == 8 * pow2(149),
        (Binary32 { bits: MAX_GAIN }).value() == 8 * pow2(149),
        size(Binary32 { bits: MAX_GAIN }) == 8 * pow2(149),
{
    lemma2_to64();
    lemma_mag_code(129, 0x80_0000);
    lemma_pow2_adds(23, 129);
    lemma_pow2_adds(3, 149);
}

/// The double of a number has a code too.
pub proof fn lemma_double_code(c: nat) -> (d: nat)
    ensures
        mag(d) == 2 * mag(c),
        d <= c + BINADE,
{
    lemma_code_parts(c);
    let q = step_of(c);
    let m = steps_of(c);
    lemma_pow2_unfold(q + 1);
    if m >= BINADE {
        lemma_mag_code(q + 1, m);
        assert(m * pow2(q + 1) == 2 * (m * pow2(q))) by (nonlinear_arith)
            requires
                pow2(q + 1) == 2 * pow2(q),
        ;
        assert((q + 1) * BINADE as nat == q * BINADE as nat + BINADE as nat) by (nonlinear_arith);
        (q + 1) * BINADE as nat + m
    } else {
        lemma2_to64();
        lemma_mag_code(0, 2 * m);
        2 * m
    }
}

/// The greatest gain times a share is exact.
proof fn lemma_share_of_max(x: Binary32)
    requires
        is_share(x),
    ensures
        size(product(x, Binary32 { bits: MAX_GAIN })) == 8 * size(x),
        product(x, Binary32 { bits: MAX_GAIN }).finite(),
        product(x, Binary32 { bits: MAX_GAIN }).value() == 8 * x.value(),
{
    lemma_one();
    lemma_max_gain();
    lemma_share(x);
    let g = Binary32 { bits: MAX_GAIN };
    lemma_mag_order(x.code(), ONE as nat);
    let d1 = lemma_double_code(x.code());
    let d2 = lemma_double_code(d1);
    let d3 = lemma_double_code(d2);
    lemma_product(x, g);
    lemma_share_product(x, g);
    let p = pow2(149);
    assert(size(x) * size(g) == mag(d3) * p) by (nonlinear_arith)
        requires
            size(g) == 8 * p,
            mag(d3) == 8 * size(x),
    ;
    lemma_ratio_exact(d3, p);
}

/// The gain stays between one and the greatest gain, frame after frame: the compressor lifts a
/// voice or leaves it, and never lowers it.
pub proof fn gain_stays_boost(c: VoiceCompressor, wanted: Binary32)
    requires
        is_boost(c.smoothed_gain),
        is_boost(wanted),
        is_share(c.attack_alpha),
        is_share(c.release_alpha),
    ensures
        is_boost(compressor_after(c, wanted).smoothed_gain),
{
    let alpha = if wanted.less(c.smoothed_gain) {
        c.attack_alpha
    } else {
        c.release_alpha
    };
    lemma_one();
    lemma_max_gain();
    let g = Binary32 { bits: MAX_GAIN };
    let x = c.smoothed_gain;
    lemma_mag_order(x.code(), MAX_GAIN as nat);
    lemma_mag_order(wanted.code(), MAX_GAIN as nat);
    lemma_share(alpha);
    let rest = difference(one(), alpha);
    let a = product(alpha, x);
    let b = product(rest, wanted);
    lemma_share_of_max(alpha);
    lemma_share_of_max(rest);
    lemma_product(alpha, x);
    lemma_product(rest, wanted);
    lemma_product(alpha, g);
    lemma_product(rest, g);
    lemma_product_order(alpha, x, alpha, g);
    lemma_product_order(rest, wanted, rest, g);
    lemma_share_product(alpha, x);
    lemma_share_product(rest, wanted);
    lemma_mag_order(a.code(), product(alpha, g).code());
    lemma_mag_order(b.code(), product(rest, g).code());
    assert(a.finite() && b.finite());
    means_stay_above_one(alpha, x, wanted);
    // The upper bound, from that of the sum of the weights.
    lemma_near_error((pow2(149) - size(alpha)) as nat);
    let w = (8 * size(alpha) + 8 * size(rest)) as nat;
    lemma_pow2_adds(3, 149);
    lemma_pow2_adds(3, 124);
    lemma2_to64();
    lemma_near_power(3, w);
    lemma_sum(a, b);
    lemma_near_order(a.value() + b.value(), w as int);
}

/// A voice that lacks nothing to the target asks for no gain.
pub proof fn loud_voice_is_not_lifted(c: VoiceCompressor, log: Binary32)
    requires
        !zero().less(difference(c.target_db, decibel(log))),
    ensures
        boost_db(c, decibel(log)) == zero(),
{
}

/// With a mix of zero a voice is left untouched.
pub proof fn no_mix_leaves_voice(c: VoiceCompressor, mix: Binary32, frame: Seq<Binary32>, i: int)
    requires
        mix == zero(),
        is_boost(c.smoothed_gain),
        0 <= i < frame.len(),
        !frame[i].nan(),
    ensures
        amplified(frame, gain_applied(c, mix))[i] == frame[i],
{
    lemma_one();
    lemma_max_gain();
    lemma_mag_order(c.smoothed_gain.code(), MAX_GAIN as nat);
    let a = product(mix, c.smoothed_gain);
    lemma_product(mix, c.smoothed_gain);
    assert(0 * size(c.smoothed_gain) == 0) by (nonlinear_arith);
    lemma_ratio_exact(0, pow2(149));
    assert(0 * pow2(149) == 0);
    lemma_share(mix);
    let rest = difference(one(), mix);
    assert(rest == one()) by {
        lemma_ratio_exact(ONE as nat, 1);
    }
    one_changes_nothing(one());
    assert(gain_applied(c, mix) == one()) by {
        lemma_ratio_exact(ONE as nat, 1);
    }
    one_changes_nothing(frame[i]);
}

/// With a mix of one all of the gain is applied.
pub proof fn full_mix_applies_gain(c: VoiceCompressor, mix: Binary32)
    requires
        mix == one(),
        is_boost(c.smoothed_gain),
    ensures
        gain_applied(c, mix) == c.smoothed_gain,
{
    lemma_one();
    lemma_max_gain();
    let g = c.smoothed_gain;
    lemma_mag_order(g.code(), MAX_GAIN as nat);
    one_changes_nothing(g);
    assert(product(one(), g) == product(g, one())) by {
        assert(size(one()) * size(g) == size(g) * size(one())) by (nonlinear_arith);
    }
    let rest = difference(one(), mix);
    assert(rest.code() == 0);
    one_changes_nothing(rest);
    lemma_mag_order(0, g.code());
    lemma_ratio_exact(g.code(), 1);
}

/// Frames that ask for no gain leave a gain of one as it is: silence, and voices that lack
/// nothing to the target where ten to the power of zero is one.
pub proof fn nothing_asked_leaves_gain_at_one(
    c: VoiceCompressor,
    rms: Binary32,
    log: Binary32,
    power: Binary32,
)
    requires
        c.smoothed_gain == one(),
        is_share(c.release_alpha),
        one().at_most(c.max_gain),
        c.noise_floor.less(rms) ==> {
            &&& !zero().less(difference(c.target_db, decibel(log)))
            &&& boost_exponent(c, log) == zero() ==> power == one()
        },
    ensures
        compressor_after(c, gain_wanted(c, rms, power)) == c,
        gain_applied(c, one()) == one(),
{
    lemma_one();
    assert(one().at_most(Binary32 { bits: MAX_GAIN })) by {
        lemma_mag_order(ONE as nat, MAX_GAIN as nat);
    }
    full_mix_applies_gain(c, one());
    one_stays_one(c.release_alpha);
    if c.noise_floor.less(rms) {
        let t = Binary32 { bits: TWENTY };
        loud_voice_is_not_lifted(c, log);
        lemma_mag_order(0, TWENTY as nat);
        lemma_quotient(zero(), t);
        lemma_ratio_exact(0, size(t));
        assert(0 * pow2(149) == 0);
        assert(0 * size(t) == 0);
        assert(boost_exponent(c, log) == zero());
    }
}

/// A mean grows with its old value.
proof fn lemma_mean_order(weight: Binary32, x: Binary32, y: Binary32, wanted: Binary32)
    requires
        is_share(weight),
        is_boost(x),
        is_boost(y),
        is_boost(wanted),
        x.at_most(y),
    ensures
        blended(weight, x, wanted).at_most(blended(weight, y, wanted)),
{
    lemma_one();
    lemma_max_gain();
    let g = Binary32 { bits: MAX_GAIN };
    lemma_mag_order(x.code(), MAX_GAIN as nat);
    lemma_mag_order(y.code(), MAX_GAIN as nat);
    lemma_mag_order(wanted.code(), MAX_GAIN as nat);
    lemma_share(weight);
    let rest = difference(one(), weight);
    let b = product(rest, wanted);
    lemma_share_of_max(weight);
    lemma_share_of_max(rest);
    lemma_product(weight, g);
    lemma_product(rest, g);
    lemma_product(weight, x);
    lemma_product(weight, y);
    lemma_product(rest, wanted);
    lemma_product_order(weight, x, weight, y);
    lemma_product_order(weight, y, weight, g);
    lemma_product_order(rest, wanted, rest, g);
    lemma_share_product(weight, x);
    lemma_share_product(weight, y);
    lemma_share_product(rest, wanted);
    lemma_mag_order(product(weight, x).code(), product(weight, g).code());
    lemma_mag_order(product(weight, y).code(), product(weight, g).code());
    lemma_mag_order(b.code(), product(rest, g).code());
    lemma_sum(product(weight, x), b);
    lemma_sum(product(weight, y), b);
    lemma_near_order(
        product(weight, x).value() + b.value(),
        product(weight, y).value() + b.value(),
    );
}

/// A compressor after a number of frames that all ask for the same gain.
pub open spec fn compressor_after_steady(
    c: VoiceCompressor,
    wanted: Binary32,
    frames: nat,
) -> VoiceCompressor
    decreases frames,
{
    if frames == 0 {
        c
    } else {
        compressor_after(compressor_after_steady(c, wanted, (frames - 1) as nat), wanted)
    }
}

/// On a steady voice the gain rises from one towards the gain that the voice asks for: for as
/// long as it has not passed that gain, no frame lowers it, and it stays within its bounds.
pub proof fn steady_voice_raises_gain(c: VoiceCompressor, wanted: Binary32, frames: nat)
    requires
        c.smoothed_gain == one(),
        is_boost(wanted),
        is_share(c.attack_alpha),
        is_share(c.release_alpha),
        forall|n: nat|
            n <= frames ==> !wanted.less(
                (#[trigger] compressor_after_steady(c, wanted, n)).smoothed_gain,
            ),
    ensures
        is_boost(compressor_after_steady(c, wanted, frames).smoothed_gain),
        is_boost(compressor_after_steady(c, wanted, frames + 1).smoothed_gain),
        compressor_after_steady(c, wanted, frames).smoothed_gain.at_most(
            compressor_after_steady(c, wanted, frames + 1).smoothed_gain,
        ),
    decreases frames,
{
    lemma_one();
    assert(is_boost(one())) by {
        lemma_mag_order(ONE as nat, MAX_GAIN as nat);
    }
    let now = compressor_after_steady(c, wanted, frames);
    let next = compressor_after_steady(c, wanted, frames + 1);
    assert(next == compressor_after(now, wanted));
    lemma_steady_settings(c, wanted, frames);
    assert(!wanted.less(now.smoothed_gain));
    if frames == 0 {
        gain_stays_boost(c, wanted);
    } else {
        let last = compressor_after_steady(c, wanted, (frames - 1) as nat);
        steady_voice_raises_gain(c, wanted, (frames - 1) as nat);
        lemma_steady_settings(c, wanted, (frames - 1) as nat);
        assert(!wanted.less(last.smoothed_gain));
        gain_stays_boost(now, wanted);
        lemma_mean_order(c.release_alpha, last.smoothed_gain, now.smoothed_gain, wanted);
    }
}

/// Following a gain changes no setting.
proof fn lemma_steady_settings(c: VoiceCompressor, wanted: Binary32, frames: nat)
    ensures
        compressor_after_steady(c, wanted, frames).attack_alpha == c.attack_alpha,
        compressor_after_steady(c, wanted, frames).release_alpha == c.release_alpha,
    decreases frames,
{
    if frames > 0 {
        lemma_steady_settings(c, wanted, (frames - 1) as nat);
    }
}

/// On a steady voice that asks for the greatest gain, the gain rises from one towards it and
/// never falls.
pub proof fn quiet_voice_raises_gain(c: VoiceCompressor, frames: nat)
    requires
        c.smoothed_gain == one(),
        is_share(c.attack_alpha),
        is_share(c.release_alpha),
    ensures
        ({
            let g = Binary32 { bits: MAX_GAIN };
            let now = compressor_after_steady(c, g, frames).smoothed_gain;
            let next = compressor_after_steady(c, g, frames + 1).smoothed_gain;
            is_boost(next) && now.at_most(next)
        }),
{
    lemma_one();
    lemma_max_gain();
    let g = Binary32 { bits: MAX_GAIN };
    lemma_mag_order(ONE as nat, MAX_GAIN as nat);
    assert(is_boost(g));
    assert forall|n: nat| n <= frames implies !g.less(
        (#[trigger] compressor_after_steady(c, g, n)).smoothed_gain,
    ) by {
        lemma_steady_boost(c, g, n);
    }
    steady_voice_raises_gain(c, g, frames);
}

/// The gain stays within its bounds on a steady voice.
proof fn lemma_steady_boost(c: VoiceCompressor, wanted: Binary32, frames: nat)
    requires
        is_boost(c.smoothed_gain),
        is_boost(wanted),
        is_share(c.attack_alpha),
        is_share(c.release_alpha),
    ensures
        is_boost(compressor_after_steady(c, wanted, frames).smoothed_gain),
    decreases frames,
{
    if frames > 0 {
        let n = (frames - 1) as nat;
        lemma_steady_boost(c, wanted, n);
        lemma_steady_settings(c, wanted, n);
        gain_stays_boost(compressor_after_steady(c, wanted, n), wanted);
    }
}

/// The gain that a voice asks for is never negative in decibel, for any ratio above zero: the
/// compressor lifts and never lowers.
pub proof fn boost_is_never_negative(c: VoiceCompressor, log: Binary32)
    requires
        c.ratio.finite(),
        c.ratio.value() > 0,
    ensures
        !boost_exponent(c, log).nan(),
        boost_exponent(c, log).value() >= 0,
{
    lemma_one();
    let t = Binary32 { bits: TWENTY };
    let lacking = difference(c.target_db, decibel(log));
    lemma_mag_order(0, TWENTY as nat);
    lemma_mag_order(0, c.ratio.code());
    lemma_mag_order(0, lacking.code());
    let b = boost_db(c, decibel(log));
    if zero().less(lacking) {
        lemma_unsigned_quotient(lacking, c.ratio);
    }
    lemma_unsigned_quotient(b, t);
    lemma_mag_order(0, boost_exponent(c, log).code());
}

/// A quotient of numbers without a sign, the divisor finite and above zero, has none and is a
/// number.
proof fn lemma_unsigned_quotient(x: Binary32, y: Binary32)
    requires
        !x.nan(),
        !x.negative(),
        y.finite(),
        !y.negative(),
        size(y) > 0,
    ensures
        !quotient(x, y).nan(),
        !quotient(x, y).negative(),
{
    lemma_one();
    lemma_signed(false, INFINITE as nat);
    if x.finite() {
        lemma_quotient(x, y);
    }
}

/// Whether powers of ten with exponents that are not below zero are at least one.
pub open spec fn raises<P: Fn(Binary32) -> Binary32>(pow10: P) -> bool {
    forall|x: Binary32, y: Binary32|
        !x.nan() && x.value() >= 0 && #[trigger] call_ensures(pow10, (x,), y) ==> one().at_most(y)
}

/// Whether the settings of a compressor are in range: the greatest gain is what it should be,
/// the ratio is above zero, and the weights of smoothing lie between zero and one.
pub open spec fn in_order(c: VoiceCompressor) -> bool {
    &&& c.max_gain == Binary32 { bits: MAX_GAIN }
    &&& c.ratio.finite()
    &&& c.ratio.value() > 0
    &&& is_share(c.attack_alpha)
    &&& is_share(c.release_alpha)
}

/// Whatever a frame holds, it asks for a gain between one and the greatest gain, the smoothed
/// gain stays between them, and so does the gain that is applied for any mix.
pub proof fn frames_are_lifted_within_bounds<
    L: Fn(Binary32) -> Binary32,
    P: Fn(Binary32) -> Binary32,
>(
    c: VoiceCompressor,
    rms: Binary32,
    log10: L,
    pow10: P,
    log: Binary32,
    power: Binary32,
    mix: Binary32,
)
    requires
        boost_found(c, rms, log10, pow10, log, power),
        raises(pow10),
        in_order(c),
        is_boost(c.smoothed_gain),
        is_share(mix),
    ensures
        is_boost(gain_wanted(c, rms, power)),
        is_boost(compressor_after(c, gain_wanted(c, rms, power)).smoothed_gain),
        is_boost(gain_applied(compressor_after(c, gain_wanted(c, rms, power)), mix)),
{
    lemma_one();
    lemma_mag_order(ONE as nat, MAX_GAIN as nat);
    assert(is_boost(one()));
    let wanted = gain_wanted(c, rms, power);
    if c.noise_floor.less(rms) {
        boost_is_never_negative(c, log);
        assert(call_ensures(pow10, (boost_exponent(c, log),), power));
    }
    assert(is_boost(wanted));
    gain_stays_boost(c, wanted);
    let after = compressor_after(c, wanted);
    let mixing = VoiceCompressor { attack_alpha: mix, release_alpha: mix, ..after };
    gain_stays_boost(mixing, one());
}

/// How far rounding can move a gain in one frame: 2 to the power of -20, in units.
pub open spec fn gain_slack() -> nat {
    pow2(129)
}

/// How far apart two numbers are, in units.
pub open spec fn apart(x: Binary32, y: Binary32) -> int {
    if x.value() <= y.value() {
        y.value() - x.value()
    } else {
        x.value() - y.value()
    }
}

/// The weight of the old gain in a frame that asks for a gain.
pub open spec fn old_weight(c: VoiceCompressor, wanted: Binary32) -> Binary32 {
    if wanted.less(c.smoothed_gain) {
        c.attack_alpha
    } else {
        c.release_alpha
    }
}

/// A mean of gains is the exact one, but for rounding.
proof fn lemma_mean_error(weight: Binary32, x: Binary32, y: Binary32)
    requires
        is_share(weight),
        is_boost(x),
        is_boost(y),
        is_boost(blended(weight, x, y)),
    ensures
        ({
            let u = pow2(149);
            let s = size(weight);
            let exact = s * x.value() + (u - s) * y.value();
            -(gain_slack() * u) <= blended(weight, x, y).value() * u - exact <= gain_slack() * u
        }),
{
    lemma_one();
    lemma_max_gain();
    lemma2_to64();
    let g = Binary32 { bits: MAX_GAIN };
    lemma_mag_order(x.code(), MAX_GAIN as nat);
    lemma_mag_order(y.code(), MAX_GAIN as nat);
    lemma_mag_order(0, x.code());
    lemma_mag_order(0, y.code());
    lemma_share(weight);
    let rest = difference(one(), weight);
    let a = product(weight, x);
    let b = product(rest, y);
    lemma_share_of_max(weight);
    lemma_share_of_max(rest);
    lemma_product(weight, x);
    lemma_product(rest, y);
    lemma_product(weight, g);
    lemma_product(rest, g);
    lemma_product_order(weight, x, weight, g);
    lemma_product_order(rest, y, rest, g);
    lemma_share_product(weight, x);
    lemma_share_product(rest, y);
    lemma_mag_order(a.code(), product(weight, g).code());
    lemma_mag_order(b.code(), product(rest, g).code());
    lemma_sum(a, b);
    lemma_pow2_adds(3, 149);
    lemma_pow2_adds(3, 124);
    lemma_pow2_adds(2, 127);
    lemma_pow2_pos(127);
    let u = pow2(149);
    let e = pow2(127) as int;
    let s = size(weight);
    let q = size(rest);
    assert(s * size(x) <= pow2(152) * u) by (nonlinear_arith)
        requires
            s <= u,
            size(x) <= pow2(152),
    ;
    assert(q * size(y) <= pow2(152) * u) by (nonlinear_arith)
        requires
            q <= u,
            size(y) <= pow2(152),
    ;
    lemma_ratio_error(s * size(x), u, 3);
    lemma_ratio_error(q * size(y), u, 3);
    lemma_near_error((u - s) as nat);
    let v = size(a) + size(b);
    if v <= pow2(152) {
        lemma_ratio_error(v, 1, 3);
    } else {
        lemma_near_power(3, v);
    }
    let r = blended(weight, x, y);
    lemma_mag_order(0, r.code());
    assert(r.value() == near(v));
    assert(-e <= r.value() - v <= e);
    assert(-(e * u) <= r.value() * u - v * u <= e * u) by (nonlinear_arith)
        requires
            -e <= r.value() - v <= e,
            u > 0,
    ;
    assert(v * u == size(a) * u + size(b) * u) by (nonlinear_arith)
        requires
            v == size(a) + size(b),
    ;
    let t = (q - (u - s)) as int;
    let w = size(y) as int;
    assert(-(e * u) <= q * size(y) - (u - s) * size(y) <= e * u) by (nonlinear_arith)
        requires
            t == q - (u - s),
            w == size(y),
            -pow2(124) <= t <= pow2(124),
            0 <= w <= 8 * u,
            e == 8 * pow2(124),
    ;
    assert((4 * e) * u == 4 * (e * u)) by (nonlinear_arith);
}

/// A frame brings the gain near to the exact mean of the old gain and the gain it asks for:
/// what is left of the distance is the share of the weight, but for rounding.
pub proof fn gain_approaches_wanted(c: VoiceCompressor, wanted: Binary32)
    requires
        is_boost(c.smoothed_gain),
        is_boost(wanted),
        is_share(c.attack_alpha),
        is_share(c.release_alpha),
    ensures
        ({
            let u = pow2(149);
            let s = size(old_weight(c, wanted));
            let before = c.smoothed_gain;
            let after = compressor_after(c, wanted).smoothed_gain;
            &&& apart(after, wanted) * u <= s * apart(before, wanted) + gain_slack() * u
            &&& before.at_most(wanted) ==> before.value() - gain_slack() <= after.value()
                <= wanted.value() + gain_slack()
            &&& wanted.at_most(before) ==> wanted.value() - gain_slack() <= after.value()
                <= before.value() + gain_slack()
            &&& (u - s) * apart(before, wanted) > gain_slack() * u ==> apart(after, wanted)
                < apart(before, wanted)
        }),
{
    lemma_one();
    gain_stays_boost(c, wanted);
    let weight = old_weight(c, wanted);
    lemma_share(weight);
    let x = c.smoothed_gain;
    let r = compressor_after(c, wanted).smoothed_gain;
    assert(r == blended(weight, x, wanted));
    lemma_mean_error(weight, x, wanted);
    let u = pow2(149) as int;
    let s = size(weight) as int;
    let e = gain_slack() as int;
    let d = x.value() - wanted.value();
    let f = r.value() - wanted.value();
    let g = x.value();
    let w = wanted.value();
    assert(s * g + (u - s) * w == s * d + u * w) by (nonlinear_arith)
        requires
            d == g - w,
    ;
    assert(r.value() * u == f * u + u * w) by (nonlinear_arith)
        requires
            f == r.value() - w,
    ;
    assert(-(e * u) <= f * u - s * d <= e * u);
    if d <= 0 {
        assert(f <= e && f >= d - e) by (nonlinear_arith)
            requires
                -(e * u) <= f * u - s * d <= e * u,
                d <= 0,
                0 <= s <= u,
                u > 0,
        ;
        assert(s * (-d) == -(s * d)) by (nonlinear_arith);
    }
    if d >= 0 {
        assert(f >= -e && f <= d + e) by (nonlinear_arith)
            requires
                -(e * u) <= f * u - s * d <= e * u,
                d >= 0,
                0 <= s <= u,
                u > 0,
        ;
    }
    let far = apart(x, wanted);
    let near_by = apart(r, wanted);
    assert(s * far == s * d || s * far == -(s * d)) by (nonlinear_arith)
        requires
            far == d || far == -d,
    ;
    assert(s * far >= 0) by (nonlinear_arith)
        requires
            s >= 0,
            far >= 0,
    ;
    assert(near_by * u == f * u || near_by * u == -(f * u)) by (nonlinear_arith)
        requires
            near_by == f || near_by == -f,
    ;
    assert(near_by * u <= s * far + e * u) by {
        if d <= 0 {
            assert(s * far == -(s * d)) by (nonlinear_arith)
                requires
                    far == -d,
            ;
        } else {
            assert(s * far == s * d) by (nonlinear_arith)
                requires
                    far == d,
            ;
        }
    }
    if (u - s) * far > e * u {
        assert((u - s) * far == u * far - s * far) by (nonlinear_arith);
        assert(near_by < far) by (nonlinear_arith)
            requires
                near_by * u < u * far,
                u > 0,
        ;
    }
}

/// On a steady voice the gain never passes what the voice asks for but by rounding: by no more
/// than what one frame can add, summed up over frames.
pub proof fn steady_gain_stays_near_wanted(c: VoiceCompressor, wanted: Binary32, frames: nat)
    requires
        c.smoothed_gain == one(),
        is_boost(wanted),
        is_share(c.attack_alpha),
        is_share(c.release_alpha),
    ensures
        ({
            let gain = compressor_after_steady(c, wanted, frames).smoothed_gain;
            &&& is_boost(gain)
            &&& (pow2(149) - size(c.attack_alpha)) * (gain.value() - wanted.value())
                <= gain_slack() * pow2(149)
        }),
    decreases frames,
{
    lemma_one();
    lemma_pow2_pos(129);
    lemma_mag_order(ONE as nat, MAX_GAIN as nat);
    assert(is_boost(one()));
    lemma_share(c.attack_alpha);
    lemma_steady_boost(c, wanted, frames);
    let u = pow2(149) as int;
    let a = size(c.attack_alpha) as int;
    let e = gain_slack() as int;
    let w = wanted.value();
    if frames == 0 {
        assert((u - a) * (one().value() - w) <= e * u) by (nonlinear_arith)
            requires
                u - a >= 0,
                one().value() <= w,
                e >= 0,
                u > 0,
        ;
    } else {
        let n = (frames - 1) as nat;
        let last = compressor_after_steady(c, wanted, n);
        steady_gain_stays_near_wanted(c, wanted, n);
        lemma_steady_settings(c, wanted, n);
        gain_approaches_wanted(last, wanted);
        let d = last.smoothed_gain.value() - w;
        let f = compressor_after_steady(c, wanted, frames).smoothed_gain.value() - w;
        if d <= 0 {
            assert((u - a) * f <= e * u) by (nonlinear_arith)
                requires
                    f <= e,
                    0 <= u - a <= u,
                    e >= 0,
            ;
        } else {
            let left = apart(compressor_after_steady(c, wanted, frames).smoothed_gain, wanted);
            assert(old_weight(last, wanted) == c.attack_alpha);
            assert(left * u <= a * d + e * u);
            assert(f * u <= left * u) by (nonlinear_arith)
                requires
                    f <= left,
                    u > 0,
            ;
            assert((u - a) * f <= e * u) by (nonlinear_arith)
                requires
                    f * u <= a * d + e * u,
                    (u - a) * d <= e * u,
                    0 <= a <= u,
                    u > 0,
            ;
        }
    }
}

} // verus!
