//! The settings of the processor, what is accepted of them, and the hop size they give.

use crate::arith::{count, product, size, whole_part};
use crate::binary32::{lemma_mag_code, lemma_mag_order, mag, Binary32, ONE};
use crate::blend::{one, zero};
use crate::order::{lemma_one, lemma_product_below, lemma_ratio_exact, lemma_signed};
use vstd::arithmetic::power2::{
    lemma2_to64, lemma_pow2_adds, lemma_pow2_pos, lemma_pow2_strictly_increases, lemma_pow2_unfold,
    pow2,
};
use vstd::prelude::*;

verus! {

/// All settings.
#[derive(Debug, Clone, Copy, PartialEq, Eq)]
pub struct Config {
    pub processing: ProcessingConfig,
    pub masking: MaskingConfig,
    pub envelope: EnvelopeConfig,
    pub output: OutputConfig,
}

/// How the sound is cut into frames.
#[derive(Debug, Clone, Copy, PartialEq, Eq)]
pub struct ProcessingConfig {
    /// Samples in a frame.
    pub fft_size: usize,
    /// The part of a frame by which the next one begins later.
    pub hop_ratio: Binary32,
    /// Samples in a second.
    pub sample_rate: u32,
}

/// How much of the music gives way to the voice.
#[derive(Debug, Clone, Copy, PartialEq, Eq)]
pub struct MaskingConfig {
    /// Overall masking strength, from zero to one.
    pub depth: Binary32,
    /// How aggressively a weak voice leads to masking.
    pub sensitivity: Binary32,
    /// The most that any bin is reduced by.
    pub max_reduction_db: Binary32,
    /// Below this frequency the music is left untouched.
    pub sub_bass_protect_hz: Binary32,
    /// The lower edge of the primary masking band.
    pub focus_low_hz: Binary32,
    /// The upper edge of the primary masking band.
    pub focus_high_hz: Binary32,
    /// How many bins the mask is averaged over.
    pub spectral_smooth_bins: usize,
    /// How far the masking keeps to the primary band: one for all of the taper, zero for none.
    pub focus_strength: Binary32,
}

/// How the voice gate opens and closes.
#[derive(Debug, Clone, Copy, PartialEq, Eq)]
pub struct EnvelopeConfig {
    pub attack_ms: Binary32,
    pub release_ms: Binary32,
    pub gate_threshold_on: Binary32,
    pub gate_threshold_off: Binary32,
}

/// The gains of the mix.
#[derive(Debug, Clone, Copy, PartialEq, Eq)]
pub struct OutputConfig {
    pub voice_gain_db: Binary32,
    pub music_gain_db: Binary32,
}

/// The bit pattern of 0.5.
pub const HALF: u32 = 0x3f00_0000;

/// Frames of 2048 samples, each overlapping the one before it by half, at 48 kHz.
pub open spec fn default_processing() -> ProcessingConfig {
    ProcessingConfig {
        fft_size: 2048,
        hop_ratio: Binary32 { bits: HALF },
        sample_rate: 48000,
    }
}

/// A depth of 0.6, a sensitivity of 1.5, at most 6 dB of reduction, nothing below 80 Hz, a
/// band from 300 Hz to 6 kHz, and a mean over three bins.
pub open spec fn default_masking() -> MaskingConfig {
    MaskingConfig {
        depth: Binary32 { bits: 0x3f19_999a },
        sensitivity: Binary32 { bits: 0x3fc0_0000 },
        max_reduction_db: Binary32 { bits: 0xc0c0_0000 },
        sub_bass_protect_hz: Binary32 { bits: 0x42a0_0000 },
        focus_low_hz: Binary32 { bits: 0x4396_0000 },
        focus_high_hz: Binary32 { bits: 0x45bb_8000 },
        spectral_smooth_bins: 3,
        focus_strength: Binary32 { bits: ONE },
    }
}

/// 5 ms of attack, 100 ms of release, thresholds of -40 dB and -50 dB.
pub open spec fn default_envelope() -> EnvelopeConfig {
    EnvelopeConfig {
        attack_ms: Binary32 { bits: 0x40a0_0000 },
        release_ms: Binary32 { bits: 0x42c8_0000 },
        gate_threshold_on: Binary32 { bits: 0xc220_0000 },
        gate_threshold_off: Binary32 { bits: 0xc248_0000 },
    }
}

/// No gain.
pub open spec fn default_output() -> OutputConfig {
    OutputConfig { voice_gain_db: Binary32 { bits: 0 }, music_gain_db: Binary32 { bits: 0 } }
}

impl Default for ProcessingConfig {
    fn default() -> (r: Self)
        ensures
            r == default_processing(),
    {
        ProcessingConfig {
            fft_size: 2048,
            hop_ratio: Binary32 { bits: HALF },
            sample_rate: 48000,
        }
    }
}

impl Default for MaskingConfig {
    fn default() -> (r: Self)
        ensures
            r == default_masking(),
    {
        MaskingConfig {
            depth: Binary32 { bits: 0x3f19_999a },
            sensitivity: Binary32 { bits: 0x3fc0_0000 },
            max_reduction_db: Binary32 { bits: 0xc0c0_0000 },
            sub_bass_protect_hz: Binary32 { bits: 0x42a0_0000 },
            focus_low_hz: Binary32 { bits: 0x4396_0000 },
            focus_high_hz: Binary32 { bits: 0x45bb_8000 },
            spectral_smooth_bins: 3,
            focus_strength: Binary32 { bits: ONE },
        }
    }
}

impl Default for EnvelopeConfig {
    fn default() -> (r: Self)
        ensures
            r == default_envelope(),
    {
        EnvelopeConfig {
            attack_ms: Binary32 { bits: 0x40a0_0000 },
            release_ms: Binary32 { bits: 0x42c8_0000 },
            gate_threshold_on: Binary32 { bits: 0xc220_0000 },
            gate_threshold_off: Binary32 { bits: 0xc248_0000 },
        }
    }
}

impl Default for OutputConfig {
    fn default() -> (r: Self)
        ensures
            r == default_output(),
    {
        OutputConfig { voice_gain_db: Binary32 { bits: 0 }, music_gain_db: Binary32 { bits: 0 } }
    }
}

impl Default for Config {
    fn default() -> (r: Self)
        ensures
            r.processing == default_processing(),
            r.masking == default_masking(),
            r.envelope == default_envelope(),
            r.output == default_output(),
    {
        Config {
            processing: ProcessingConfig::default(),
            masking: MaskingConfig::default(),
            envelope: EnvelopeConfig::default(),
            output: OutputConfig::default(),
        }
    }
}

/// What is wrong with settings, with the value that was found.
#[derive(Debug, Clone, Copy, PartialEq, Eq)]
pub enum ConfigError {
    FftSize(usize),
    HopRatio(Binary32),
    Depth(Binary32),
    MaxReduction(Binary32),
}

/// Whether a number is a power of two.
pub open spec fn power_of_two(n: nat) -> bool {
    exists|k: nat| #[trigger] pow2(k) == n
}

/// Whether the frame size is accepted.
pub open spec fn fft_size_ok(c: Config) -> bool {
    power_of_two(c.processing.fft_size as nat)
}

/// Whether the hop ratio is accepted: not zero or less, and not above one.
pub open spec fn hop_ratio_ok(c: Config) -> bool {
    !c.processing.hop_ratio.at_most(zero()) && !one().less(c.processing.hop_ratio)
}

/// Whether the masking depth is accepted: not below zero and not above one.
pub open spec fn depth_ok(c: Config) -> bool {
    !c.masking.depth.less(zero()) && !one().less(c.masking.depth)
}

/// Whether the greatest reduction is accepted: not above 0 dB.
pub open spec fn max_reduction_ok(c: Config) -> bool {
    !zero().less(c.masking.max_reduction_db)
}

impl ConfigError {
    /// What is demanded of the value that was found, in words that the value follows.
    pub fn complaint(&self) -> (r: &'static str)
        ensures
            r@ == match *self {
                ConfigError::FftSize(_) => "fft_size must be a power of 2, got "@,
                ConfigError::HopRatio(_) => "hop_ratio must be in (0.0, 1.0], got "@,
                ConfigError::Depth(_) => "masking depth must be in [0.0, 1.0], got "@,
                ConfigError::MaxReduction(_) => "max_reduction_db must be <= 0.0, got "@,
            },
    {
        match *self {
            ConfigError::FftSize(_) => "fft_size must be a power of 2, got ",
            ConfigError::HopRatio(_) => "hop_ratio must be in (0.0, 1.0], got ",
            ConfigError::Depth(_) => "masking depth must be in [0.0, 1.0], got ",
            ConfigError::MaxReduction(_) => "max_reduction_db must be <= 0.0, got ",
        }
    }
}

/// Tells whether a number is a power of two.
fn is_power_of_two(n: usize) -> (r: bool)
    ensures
        r == power_of_two(n as nat),
{
    proof {
        lemma2_to64();
    }
    if n == 0 {
        proof {
            assert forall|k: nat| #[trigger] pow2(k) != 0 by {
                lemma_pow2_pos(k);
            }
        }
        return false;
    }
    let mut rest: usize = n;
    while rest % 2 == 0
        invariant
            rest > 0,
            power_of_two(rest as nat) == power_of_two(n as nat),
        decreases rest,
    {
        let half: usize = rest / 2;
        proof {
            if power_of_two(rest as nat) {
                let k = choose|k: nat| #[trigger] pow2(k) == rest as nat;
                assert(k > 0) by {
                    lemma2_to64();
                }
                lemma_pow2_unfold(k);
                assert(pow2((k - 1) as nat) == half as nat);
            }
            if power_of_two(half as nat) {
                let k = choose|k: nat| #[trigger] pow2(k) == half as nat;
                lemma_pow2_unfold(k + 1);
                assert(pow2(k + 1) == rest as nat);
            }
        }
        rest = half;
    }
    proof {
        if power_of_two(rest as nat) {
            let k = choose|k: nat| #[trigger] pow2(k) == rest as nat;
            if k > 0 {
                lemma_pow2_unfold(k);
                assert(rest == 2 * pow2((k - 1) as nat));
            }
        }
        assert(pow2(0) == 1);
    }
    rest == 1
}

/// The hop size that settings give.
pub open spec fn hop_of(c: Config) -> usize {
    whole_part(product(count(c.processing.fft_size as nat), c.processing.hop_ratio))
}

impl Config {
    /// Accepts the settings or tells the first thing that is wrong with them.
    pub fn validate(&self) -> (r: Result<(), ConfigError>)
        ensures
            r is Ok <==> fft_size_ok(*self) && hop_ratio_ok(*self) && depth_ok(*self)
                && max_reduction_ok(*self),
            !fft_size_ok(*self) <==> r == Err::<(), _>(
                ConfigError::FftSize(self.processing.fft_size),
            ),
            fft_size_ok(*self) && !hop_ratio_ok(*self) <==> r == Err::<(), _>(
                ConfigError::HopRatio(self.processing.hop_ratio),
            ),
            fft_size_ok(*self) && hop_ratio_ok(*self) && !depth_ok(*self) <==> r == Err::<(), _>(
                ConfigError::Depth(self.masking.depth),
            ),
            fft_size_ok(*self) && hop_ratio_ok(*self) && depth_ok(*self) && !max_reduction_ok(
                *self,
            ) <==> r == Err::<(), _>(ConfigError::MaxReduction(self.masking.max_reduction_db)),
    {
        let zero = Binary32 { bits: 0 };
        let one = Binary32 { bits: ONE };
        if !is_power_of_two(self.processing.fft_size) {
            return Err(ConfigError::FftSize(self.processing.fft_size));
        }
        if self.processing.hop_ratio.le(zero) || one.lt(self.processing.hop_ratio) {
            return Err(ConfigError::HopRatio(self.processing.hop_ratio));
        }
        if self.masking.depth.lt(zero) || one.lt(self.masking.depth) {
            return Err(ConfigError::Depth(self.masking.depth));
        }
        if zero.lt(self.masking.max_reduction_db) {
            return Err(ConfigError::MaxReduction(self.masking.max_reduction_db));
        }
        Ok(())
    }

    /// By how many samples the next frame begins later: the frame size times the hop ratio,
    /// without what stands behind the point.
    pub fn hop_size(&self) -> (r: usize)
        ensures
            r == hop_of(*self),
    {
        Binary32::of_count(self.processing.fft_size).times(self.processing.hop_ratio).to_count()
    }
}

/// A power of two that fits in a count is held exactly.
pub proof fn lemma_count_of_power(n: usize)
    requires
        power_of_two(n as nat),
    ensures
        count(n as nat).finite(),
        count(n as nat).value() == n * pow2(149),
        size(count(n as nat)) == n * pow2(149),
{
    let k = choose|k: nat| #[trigger] pow2(k) == n as nat;
    lemma2_to64();
    vstd::arithmetic::power2::lemma2_to64_rest();
    assert(k < 64) by {
        if k >= 64 {
            if k > 64 {
                lemma_pow2_strictly_increases(64, k);
            }
        }
    }
    let q = (126 + k) as nat;
    lemma_mag_code(q, 0x80_0000);
    lemma_pow2_adds(k, 149);
    lemma_pow2_adds(23, q);
    let c = q * 0x80_0000 + 0x80_0000;
    assert(mag(c) == n * pow2(149));
    lemma_ratio_exact(c, 1);
    lemma_signed(false, c);
}

/// With accepted settings a hop is never longer than a frame.
pub proof fn hop_fits_frame(c: Config)
    requires
        fft_size_ok(c),
        hop_ratio_ok(c),
    ensures
        hop_of(c) <= c.processing.fft_size,
{
    let n = c.processing.fft_size as nat;
    let r = c.processing.hop_ratio;
    lemma_one();
    lemma_count_of_power(c.processing.fft_size);
    if !r.nan() {
        lemma_mag_order(r.code(), ONE as nat);
        lemma_mag_order(0, r.code());
        let p = product(count(n), r);
        lemma_product_below(count(n), r);
        assert(size(p) / pow2(149) <= n) by (nonlinear_arith)
            requires
                size(p) <= n * pow2(149),
                pow2(149) > 0,
        ;
    } else {
        assert(product(count(n), r).nan());
    }
}

/// A hop ratio of one makes a hop as long as a frame.
pub proof fn full_hop(c: Config)
    requires
        fft_size_ok(c),
        c.processing.hop_ratio == one(),
    ensures
        hop_of(c) == c.processing.fft_size,
{
    let n = c.processing.fft_size as nat;
    lemma_one();
    lemma_count_of_power(c.processing.fft_size);
    crate::order::one_changes_nothing(count(n));
    assert((n * pow2(149)) / pow2(149) == n) by (nonlinear_arith)
        requires
            pow2(149) > 0,
    ;
}

} // verus!
