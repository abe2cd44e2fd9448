//! What a user can change while sound is processed.

use crate::arith::{product, quotient, size};
use crate::binary32::{lemma_mag_code, lemma_mag_order, Binary32, ONE};
use crate::blend::{is_share, lemma_ratio_error, lemma_share, one, zero};
use crate::config::{Config, MaskingConfig};
use crate::mix_laws::{is_gain_of, is_level, lemma_gain_of};
use crate::mixer::{db_to_gain, gain_exponent};
use crate::order::{
    lemma_one, lemma_product, lemma_product_below, lemma_quotient, lemma_quotient_below,
    lemma_ratio_exact, one_changes_nothing,
};
use vstd::arithmetic::power2::{lemma2_to64, lemma_pow2_adds, lemma_pow2_pos, pow2};
use vstd::prelude::*;

verus! {

/// The bit pattern of one hundred.
pub const HUNDRED: u32 = 0x42c8_0000;

/// The bit pattern of -24, the reduction in decibel of the deepest masking.
pub const DEEPEST_DB: u32 = 0xc1c0_0000;

/// The values that the processing takes up at each hop.
#[derive(Debug, Clone, Copy, PartialEq, Eq)]
pub struct RuntimeParams {
    /// How much of the voice compression is applied, from zero to one.
    pub compression_mix: Binary32,
    /// The gain of the voice.
    pub voice_gain: Binary32,
    /// The depth of the masking, from zero to one.
    pub masking_depth: Binary32,
    /// How far the masking keeps to the focus band, from zero to one.
    pub wideband: Binary32,
}

/// The masking settings with the values of a moment in place of those that are set: the depth
/// also gives the greatest reduction, up to 24 dB, so that the full range is of use.
pub open spec fn masking_now(config: MaskingConfig, params: RuntimeParams) -> MaskingConfig {
    MaskingConfig {
        depth: params.masking_depth,
        max_reduction_db: product(Binary32 { bits: DEEPEST_DB }, params.masking_depth),
        focus_strength: params.wideband,
        ..config
    }
}

impl RuntimeParams {
    /// The values that settings give. `pow10` gives the power of ten of its argument.
    pub fn new<P: Fn(Binary32) -> Binary32>(config: &Config, pow10: P) -> (r: Self)
        requires
            forall|x: Binary32| #[trigger] call_requires(pow10, (x,)),
        ensures
            r.compression_mix == one(),
            call_ensures(pow10, (gain_exponent(config.output.voice_gain_db),), r.voice_gain),
            r.masking_depth == config.masking.depth,
            r.wideband == config.masking.focus_strength,
            is_level(config.output.voice_gain_db) ==> is_gain_of(
                r.voice_gain,
                config.output.voice_gain_db,
                pow10,
            ),
    {
        let voice_gain = db_to_gain(config.output.voice_gain_db, pow10);
        proof {
            if is_level(config.output.voice_gain_db) {
                lemma_gain_of(voice_gain, config.output.voice_gain_db, pow10);
            }
        }
        RuntimeParams {
            compression_mix: Binary32 { bits: ONE },
            voice_gain,
            masking_depth: config.masking.depth,
            wideband: config.masking.focus_strength,
        }
    }

    pub fn load_compression_mix(&self) -> (r: Binary32)
        ensures
            r == self.compression_mix,
    {
        self.compression_mix
    }

    pub fn store_compression_mix(&mut self, v: Binary32)
        ensures
            *final(self) == (RuntimeParams { compression_mix: v, ..*old(self) }),
    {
        self.compression_mix = v;
    }

    pub fn load_voice_gain(&self) -> (r: Binary32)
        ensures
            r == self.voice_gain,
    {
        self.voice_gain
    }

    pub fn store_voice_gain(&mut self, v: Binary32)
        ensures
            *final(self) == (RuntimeParams { voice_gain: v, ..*old(self) }),
    {
        self.voice_gain = v;
    }

    pub fn load_masking_depth(&self) -> (r: Binary32)
        ensures
            r == self.masking_depth,
    {
        self.masking_depth
    }

    pub fn store_masking_depth(&mut self, v: Binary32)
        ensures
            *final(self) == (RuntimeParams { masking_depth: v, ..*old(self) }),
    {
        self.masking_depth = v;
    }

    pub fn load_wideband(&self) -> (r: Binary32)
        ensures
            r == self.wideband,
    {
        self.wideband
    }

    pub fn store_wideband(&mut self, v: Binary32)
        ensures
            *final(self) == (RuntimeParams { wideband: v, ..*old(self) }),
    {
        self.wideband = v;
    }

    /// The masking settings of this moment.
    pub fn masking(&self, config: &MaskingConfig) -> (r: MaskingConfig)
        ensures
            r == masking_now(*config, *self),
            r.sensitivity == config.sensitivity,
            r.sub_bass_protect_hz == config.sub_bass_protect_hz,
            r.focus_low_hz == config.focus_low_hz,
            r.focus_high_hz == config.focus_high_hz,
            r.spectral_smooth_bins == config.spectral_smooth_bins,
            r.depth == self.masking_depth,
            r.focus_strength == self.wideband,
            r.max_reduction_db == product(Binary32 { bits: DEEPEST_DB }, self.masking_depth),
    {
        let mut masking = *config;
        masking.depth = self.masking_depth;
        masking.max_reduction_db = (Binary32 { bits: DEEPEST_DB }).times(self.masking_depth);
        masking.focus_strength = self.wideband;
        masking
    }
}

/// The sliders of the window: percentages, and the voice gain in decibel.
#[derive(Debug, Clone, Copy, PartialEq, Eq)]
pub struct Sliders {
    pub compression_pct: Binary32,
    pub voice_gain_db: Binary32,
    pub masking_pct: Binary32,
    pub wideband_pct: Binary32,
}

/// A percentage as a share.
pub open spec fn share_of_percent(pct: Binary32) -> Binary32 {
    quotient(pct, Binary32 { bits: HUNDRED })
}

impl Sliders {
    /// The sliders where settings put them.
    pub fn new(config: &Config) -> (r: Self)
        ensures
            r.compression_pct == (Binary32 { bits: HUNDRED }),
            r.voice_gain_db == config.output.voice_gain_db,
            r.masking_pct == product(config.masking.depth, Binary32 { bits: HUNDRED }),
            r.wideband_pct == product(config.masking.focus_strength, Binary32 { bits: HUNDRED }),
    {
        Sliders {
            compression_pct: Binary32 { bits: HUNDRED },
            voice_gain_db: config.output.voice_gain_db,
            masking_pct: config.masking.depth.times(Binary32 { bits: HUNDRED }),
            wideband_pct: config.masking.focus_strength.times(Binary32 { bits: HUNDRED }),
        }
    }

    /// The values that the sliders stand for. `pow10` gives the power of ten of its argument.
    pub fn params<P: Fn(Binary32) -> Binary32>(&self, pow10: P) -> (r: RuntimeParams)
        requires
            forall|x: Binary32| #[trigger] call_requires(pow10, (x,)),
        ensures
            r.compression_mix == share_of_percent(self.compression_pct),
            call_ensures(pow10, (gain_exponent(self.voice_gain_db),), r.voice_gain),
            r.masking_depth == share_of_percent(self.masking_pct),
            r.wideband == share_of_percent(self.wideband_pct),
    {
        let hundred = Binary32 { bits: HUNDRED };
        RuntimeParams {
            compression_mix: self.compression_pct.over(hundred),
            voice_gain: db_to_gain(self.voice_gain_db, pow10),
            masking_depth: self.masking_pct.over(hundred),
            wideband: self.wideband_pct.over(hundred),
        }
    }
}

/// No masking depth means no reduction: the greatest reduction is 0 dB.
pub proof fn no_depth_no_reduction(config: MaskingConfig, params: RuntimeParams)
    requires
        params.masking_depth == zero(),
    ensures
        masking_now(config, params).max_reduction_db.value() == 0,
{
    lemma_one();
    let d = Binary32 { bits: DEEPEST_DB };
    lemma_product(d, zero());
    assert(size(d) * 0 == 0) by (nonlinear_arith);
    lemma_ratio_exact(0, pow2(149));
    assert(0 * pow2(149) == 0);
}

/// Full masking depth reduces by up to 24 dB.
pub proof fn full_depth_full_reduction(config: MaskingConfig, params: RuntimeParams)
    requires
        params.masking_depth == one(),
    ensures
        masking_now(config, params).max_reduction_db == (Binary32 { bits: DEEPEST_DB }),
{
    one_changes_nothing(Binary32 { bits: DEEPEST_DB });
}

/// Whatever the masking depth, the greatest reduction lies between 24 dB and none.
pub proof fn reduction_in_range(config: MaskingConfig, params: RuntimeParams)
    requires
        is_share(params.masking_depth),
    ensures
        (Binary32 { bits: DEEPEST_DB }).at_most(masking_now(config, params).max_reduction_db),
        masking_now(config, params).max_reduction_db.at_most(zero()),
{
    lemma_one();
    let d = Binary32 { bits: DEEPEST_DB };
    let x = params.masking_depth;
    lemma_share(x);
    lemma_product(d, x);
    lemma_product_below(d, x);
    lemma_mag_order(0, x.code());
    let p = product(d, x);
    if x.negative() {
        assert(size(d) * 0 == 0) by (nonlinear_arith);
        lemma_ratio_exact(0, pow2(149));
        assert(0 * pow2(149) == 0);
    }
}

/// The masking settings of a moment are those that are set, but for what a user can change while
/// sound is processed: the depth, the focus strength, and a greatest reduction of 24 dB times
/// the depth, which is none at no depth and grows with it.
pub proof fn settings_stay_but_for_live_values(config: MaskingConfig, params: RuntimeParams)
    ensures
        ({
            let now = masking_now(config, params);
            &&& now.sensitivity == config.sensitivity
            &&& now.sub_bass_protect_hz == config.sub_bass_protect_hz
            &&& now.focus_low_hz == config.focus_low_hz
            &&& now.focus_high_hz == config.focus_high_hz
            &&& now.spectral_smooth_bins == config.spectral_smooth_bins
            &&& now.depth == params.masking_depth
            &&& now.focus_strength == params.wideband
            &&& is_share(params.masking_depth) ==> -pow2(129) <= now.max_reduction_db.value() + 24
                * params.masking_depth.value() <= pow2(129)
        }),
{
    if is_share(params.masking_depth) {
        lemma_one();
        lemma2_to64();
        let deepest = Binary32 { bits: DEEPEST_DB };
        let depth = params.masking_depth;
        lemma_share(depth);
        lemma_mag_code(130, 0xc0_0000);
        lemma_pow2_adds(1, 130);
        lemma_pow2_adds(18, 131);
        lemma_pow2_adds(19, 130);
        lemma_pow2_adds(5, 149);
        lemma_mag_order(0, depth.code());
        let u = pow2(149);
        assert(size(deepest) == 24 * u);
        lemma_product(deepest, depth);
        lemma_pow2_adds(23, 126);
        assert(size(deepest) * size(depth) <= pow2(154) * u) by (nonlinear_arith)
            requires
                size(deepest) == 24 * u,
                size(depth) <= u,
                pow2(154) == 32 * u,
        ;
        lemma_ratio_error(size(deepest) * size(depth), u, 5);
        let r = product(deepest, depth);
        assert(size(deepest) * size(depth) == (24 * size(depth)) * u) by (nonlinear_arith)
            requires
                size(deepest) == 24 * u,
        ;
        let e = pow2(129) as int;
        let x = size(r) as int;
        let y = 24 * size(depth) as int;
        assert(-e <= x - y <= e) by (nonlinear_arith)
            requires
                -(e * u) <= x * u - y * u <= e * u,
                u > 0,
        ;
        assert(r.value() == -(size(r) as int)) by {
            lemma_mag_order(0, r.code());
            if size(depth) == 0 {
                assert(size(deepest) * 0 == 0) by (nonlinear_arith);
                lemma_ratio_exact(0, u);
                assert(0 * u == 0);
            }
        }
    }
}

/// A percentage, as a share, is a hundredth of it, but for rounding.
pub proof fn percentages_are_hundredths(pct: Binary32)
    requires
        pct.finite(),
        0 <= pct.value() <= 100 * pow2(149),
    ensures
        -pow2(131) <= 100 * share_of_percent(pct).value() - pct.value() <= pow2(131),
        is_share(share_of_percent(pct)),
{
    lemma_one();
    lemma2_to64();
    let h = Binary32 { bits: HUNDRED };
    let u = pow2(149);
    lemma_mag_code(132, 0xc8_0000);
    lemma_pow2_adds(17, 132);
    assert(size(h) == 100 * u);
    lemma_mag_order(0, pct.code());
    lemma_mag_order(0, h.code());
    lemma_quotient(pct, h);
    lemma_quotient_below(pct, h);
    let n = size(pct) * u;
    let d = 100 * u;
    assert(n <= u * d) by (nonlinear_arith)
        requires
            n == size(pct) * u,
            size(pct) <= 100 * u,
            d == 100 * u,
    ;
    lemma_ratio_error(n, d, 0);
    lemma_pow2_adds(7, 124);
    lemma_pow2_pos(124);
    let r = share_of_percent(pct);
    lemma_mag_order(0, r.code());
    assert(r.value() == size(r)) by {
        if size(pct) == 0 {
            lemma_ratio_exact(0, d);
            assert(0 * u == 0);
            assert(0 * d == 0);
        }
    }
    let x = size(r) as int;
    let y = size(pct) as int;
    let e = pow2(124) as int;
    assert(-(100 * e) <= 100 * x - y <= 100 * e) by (nonlinear_arith)
        requires
            -(e * d) <= x * d - y * u <= e * d,
            d == 100 * u,
            u > 0,
    ;
}

} // verus!
