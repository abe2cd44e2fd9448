//! What the settings come to before the first frame, and in recordings.

use crate::approx::approx;
use crate::binary32::{lemma_mag_code, Binary32};
use crate::blend::one;
use crate::compressor::VoiceCompressor;
use crate::config::{hop_of, Config, MaskingConfig};
use crate::filter::{fresh_filter, FilterView};
use crate::level::Complex;
use crate::mask_numbers::mask_follows;
use crate::mix_laws::{
    floor_is_the_greatest_reduction, frames_mask_by_their_settings, is_gain_of, is_level,
};
use crate::mixer::decibels_are_twentieths;
use crate::offline::{
    cut, frame_of_run_heard, offline_found, run_after, run_start, surrounded, OfflineResult, Run,
};
use crate::order::lemma_one;
use crate::pipeline::{
    fresh_compressor, fresh_pipeline, lemma_pipeline_after, part_heard, pipeline_after, sized,
    FrameHeard, FrameInput, MusicPart, PipelineView, Tools,
};
use crate::voice_gate::decibel;
use crate::voice_numbers::{
    margin_is_the_distance_of_the_thresholds, values_fade_with_their_time_constant,
};
use vstd::arithmetic::power2::{lemma2_to64, lemma_pow2_adds, lemma_pow2_pos, pow2};
use vstd::prelude::*;

verus! {

/// Whether a weight of old values is what the exponential function gave for a time constant in
/// milliseconds: for the time of a hop by it, with its sign turned, but for rounding.
pub open spec fn fades_in<E: Fn(Binary32) -> Binary32>(
    weight: Binary32,
    ms: int,
    config: Config,
    exp: E,
) -> bool {
    exists|x: Binary32| #[trigger]
        call_ensures(exp, (x,), weight) && x.value() <= 0 && approx(
            -x.value(),
            ((1000 * hop_of(config)) * pow2(149)) * pow2(149),
            ms * config.processing.sample_rate,
            32,
        )
}

/// Whether settings lie where what they come to can be told in numbers.
pub open spec fn plain_settings(config: Config) -> bool {
    &&& config.processing.sample_rate >= 1
    &&& 1 <= hop_of(config) <= u32::MAX
    &&& config.processing.fft_size >= 1
    &&& config.envelope.attack_ms.finite()
    &&& pow2(139) <= config.envelope.attack_ms.value() <= pow2(169)
    &&& config.envelope.release_ms.finite()
    &&& pow2(139) <= config.envelope.release_ms.value() <= pow2(169)
    &&& config.envelope.gate_threshold_on.finite()
    &&& -pow2(156) <= config.envelope.gate_threshold_on.value() <= pow2(156)
    &&& config.envelope.gate_threshold_off.finite()
    &&& -pow2(156) <= config.envelope.gate_threshold_off.value() <= pow2(156)
}

/// A new voice gate is closed, fades with the attack and the release that are set, and has the
/// distance of the thresholds that are set as its margin, with six tenths of it as its
/// hysteresis.
pub proof fn new_gate_follows_the_settings<
    L: Fn(Binary32) -> Binary32,
    E: Fn(Binary32) -> Binary32,
    C: Fn(Binary32) -> Binary32,
>(p: PipelineView, config: Config, log10: L, exp: E, cos: C)
    requires
        fresh_pipeline(p, config, log10, exp, cos),
        plain_settings(config),
    ensures
        ({
            let u = pow2(149);
            let apart = config.envelope.gate_threshold_on.value()
                - config.envelope.gate_threshold_off.value();
            let m = p.gate.margin_db.value();
            &&& !p.gate.gate_open
            &&& p.gate.envelope.code() == 0
            &&& p.gate.noise_floor_db.value() == -80 * u
            &&& fades_in(p.gate.alpha_attack, config.envelope.attack_ms.value(), config, exp)
            &&& fades_in(p.gate.alpha_release, config.envelope.release_ms.value(), config, exp)
            &&& apart >= 4 * u ==> -pow2(132) <= m - apart <= pow2(132)
            &&& apart < 4 * u ==> 4 * u <= m <= 4 * u + pow2(132)
            &&& -pow2(137) <= 10 * p.gate.hysteresis_db.value() - 6 * m <= pow2(137)
        }),
{
    lemma2_to64();
    lemma_mag_code(132, 0xa0_0000);
    lemma_pow2_adds(17, 132);
    let rate = config.processing.sample_rate;
    let hop = hop_of(config);
    values_fade_with_their_time_constant(config.envelope.attack_ms, rate, hop);
    values_fade_with_their_time_constant(config.envelope.release_ms, rate, hop);
    margin_is_the_distance_of_the_thresholds(
        config.envelope.gate_threshold_on,
        config.envelope.gate_threshold_off,
    );
}

/// Whether a compressor is new: a target of 0.15, a noise floor of 0.002, a ratio of 1.8, a
/// greatest gain of 8, an attack of 30 ms and a release of 200 ms, all but for rounding, and a
/// gain of one.
pub open spec fn gentle<L: Fn(Binary32) -> Binary32, E: Fn(Binary32) -> Binary32>(
    c: VoiceCompressor,
    config: Config,
    log10: L,
    exp: E,
) -> bool {
    let u = pow2(149);
    &&& exists|x: Binary32, y: Binary32| #[trigger]
        call_ensures(log10, (x,), y) && -pow2(131) <= 100 * x.value() - 15 * u <= pow2(131)
            && c.target_db == decibel(y)
    &&& -pow2(134) <= 1000 * c.noise_floor.value() - 2 * u <= pow2(134)
    &&& -pow2(131) <= 10 * c.ratio.value() - 18 * u <= pow2(131)
    &&& c.max_gain.value() == 8 * u
    &&& c.smoothed_gain.value() == u
    &&& fades_in(c.attack_alpha, (30 * u) as int, config, exp)
    &&& fades_in(c.release_alpha, (200 * u) as int, config, exp)
}

/// Both compressors begin the same, by the sample rate and the hop size that are set.
pub proof fn new_compressors_are_gentle<
    L: Fn(Binary32) -> Binary32,
    E: Fn(Binary32) -> Binary32,
    C: Fn(Binary32) -> Binary32,
>(p: PipelineView, config: Config, log10: L, exp: E, cos: C)
    requires
        fresh_pipeline(p, config, log10, exp, cos),
        plain_settings(config),
    ensures
        gentle(p.compressor_l, config, log10, exp),
        gentle(p.compressor_r, config, log10, exp),
{
    lemma_gentle(p.compressor_l, config, log10, exp);
    lemma_gentle(p.compressor_r, config, log10, exp);
}

/// A new compressor is gentle.
proof fn lemma_gentle<L: Fn(Binary32) -> Binary32, E: Fn(Binary32) -> Binary32>(
    c: VoiceCompressor,
    config: Config,
    log10: L,
    exp: E,
)
    requires
        fresh_compressor(c, config.processing.sample_rate, hop_of(config), log10, exp),
        plain_settings(config),
    ensures
        gentle(c, config, log10, exp),
{
    lemma_one();
    lemma2_to64();
    let u = pow2(149);
    lemma_mag_code(123, 0x99_999a);
    lemma_pow2_adds(26, 123);
    lemma_pow2_adds(8, 123);
    lemma_mag_code(117, 0x83_126f);
    lemma_pow2_adds(32, 117);
    lemma_pow2_adds(17, 117);
    lemma_mag_code(126, 0xe6_6666);
    lemma_pow2_adds(23, 126);
    lemma_pow2_adds(5, 126);
    lemma_mag_code(129, 0x80_0000);
    lemma_pow2_adds(23, 129);
    lemma_pow2_adds(3, 149);
    lemma_pow2_pos(123);
    lemma_pow2_pos(117);
    lemma_pow2_pos(126);
    let attack = Binary32 { bits: 0x41f0_0000 };
    let release = Binary32 { bits: 0x4348_0000 };
    lemma_mag_code(130, 0xf0_0000);
    lemma_pow2_adds(19, 130);
    lemma_mag_code(133, 0xc8_0000);
    lemma_pow2_adds(16, 133);
    lemma_pow2_adds(10, 139);
    lemma_pow2_adds(20, 149);
    lemma_pow2_pos(139);
    assert(attack.value() == 30 * u);
    assert(release.value() == 200 * u);
    let rate = config.processing.sample_rate;
    let hop = hop_of(config);
    values_fade_with_their_time_constant(attack, rate, hop);
    values_fade_with_their_time_constant(release, rate, hop);
    let target = Binary32 { bits: 0x3e19_999a };
    let log = choose|log: Binary32| #[trigger]
        call_ensures(log10, (target,), log) && c.target_db == decibel(log);
    assert(call_ensures(log10, (target,), log));
}

/// A new filter has the gain of the level that is set for the music, masks of one for the sample
/// rate and the frame size that are set, and the masking and the hop size that are set.
pub proof fn new_filter_follows_the_settings<
    L: Fn(Binary32) -> Binary32,
    E: Fn(Binary32) -> Binary32,
    C: Fn(Binary32) -> Binary32,
    P: Fn(Binary32) -> Binary32,
>(f: FilterView, config: Config, log10: L, exp: E, cos: C, pow10: P)
    requires
        fresh_filter(f, config, log10, exp, cos, pow10),
        is_level(config.output.music_gain_db),
    ensures
        is_gain_of(f.music_gain, config.output.music_gain_db, pow10),
        f.masking == config.masking,
        f.hop_size == hop_of(config),
        f.queue_l.len() == 0,
        f.queue_r.len() == 0,
        f.pending == 0,
        f.pipeline.mask_l.sample_rate == config.processing.sample_rate,
        f.pipeline.mask_r.sample_rate == config.processing.sample_rate,
        f.pipeline.mask_l.fft_size == config.processing.fft_size,
        f.pipeline.mask_r.fft_size == config.processing.fft_size,
        forall|k: int|
            0 <= k < config.processing.fft_size / 2 + 1 ==> #[trigger] f.pipeline.mask_l.smoothed[k]
                == one() && f.pipeline.mask_r.smoothed[k] == one(),
{
    decibels_are_twentieths(config.output.music_gain_db);
}

/// What a run keeps from frame to frame.
proof fn lemma_run_keeps(
    start: Run,
    src: FrameInput,
    masking: MaskingConfig,
    hop_size: nat,
    heard: Seq<FrameHeard>,
)
    requires
        sized(start.pipeline),
    ensures
        ({
            let p = run_after(start, src, masking, hop_size, heard).pipeline;
            &&& sized(p)
            &&& p.window == start.pipeline.window
            &&& p.mask_l.sample_rate == start.pipeline.mask_l.sample_rate
            &&& p.mask_r.sample_rate == start.pipeline.mask_r.sample_rate
        }),
    decreases heard.len(),
{
    if heard.len() > 0 {
        lemma_run_keeps(start, src, masking, hop_size, heard.drop_last());
        let r = run_after(start, src, masking, hop_size, heard.drop_last());
        let at = (heard.len() - 1) * hop_size;
        let input = cut(src, at, start.pipeline.window.len());
        lemma_pipeline_after(r.pipeline, input, masking, heard.last());
        reveal(pipeline_after);
    }
}

/// Recordings are mixed with the gains of the levels that are set; and each of their frames is
/// heard with all of the compression, and masked by the settings and with the gain of the
/// greatest reduction that is set.
pub proof fn recordings_follow_the_settings<
    L: Fn(Binary32) -> Binary32,
    P: Fn(Binary32) -> Binary32,
    N: Fn(Complex) -> Binary32,
    F: Fn(Vec<Binary32>) -> Vec<Complex>,
    I: Fn(Vec<Complex>) -> Vec<Binary32>,
    E: Fn(Binary32) -> Binary32,
    C: Fn(Binary32) -> Binary32,
>(
    tools: Tools<L, P, N, F, I>,
    exp: E,
    cos: C,
    src: FrameInput,
    config: Config,
    fresh: PipelineView,
    heard: Seq<FrameHeard>,
    music_gain: Binary32,
    voice_gain: Binary32,
    r: OfflineResult,
    i: int,
)
    requires
        offline_found(tools, exp, cos, src, config, fresh, heard, music_gain, voice_gain, r),
        config.processing.fft_size >= 1,
        config.processing.sample_rate >= 1,
        is_level(config.output.music_gain_db),
        is_level(config.output.voice_gain_db),
        is_level(config.masking.max_reduction_db),
        !config.masking.sub_bass_protect_hz.nan(),
        0 <= i < heard.len(),
    ensures
        is_gain_of(music_gain, config.output.music_gain_db, tools.pow10),
        is_gain_of(voice_gain, config.output.voice_gain_db, tools.pow10),
        is_gain_of(heard[i].floor, config.masking.max_reduction_db, tools.pow10),
        ({
            let hop = hop_of(config) as nat;
            let around = surrounded(src, config.processing.fft_size as nat, hop);
            let start = run_start(fresh, config, src.music_l.len());
            let p = run_after(start, around, config.masking, hop, heard.take(i)).pipeline;
            let q = run_after(start, around, config.masking, hop, heard.take(i + 1)).pipeline;
            &&& mask_follows(
                p.mask_l,
                q.mask_l,
                heard[i].left.voice_mag,
                heard[i].left.music_mag,
                q.gate.envelope,
                heard[i].floor,
                config.masking,
            )
            &&& mask_follows(
                p.mask_r,
                q.mask_r,
                heard[i].right.voice_mag,
                heard[i].right.music_mag,
                q.gate.envelope,
                heard[i].floor,
                config.masking,
            )
            &&& part_heard(
                tools,
                p,
                cut(around, i * hop, config.processing.fft_size as nat),
                config.masking,
                one(),
                MusicPart::Taken,
                heard[i],
            )
        }),
{
    reveal(offline_found);
    decibels_are_twentieths(config.output.music_gain_db);
    decibels_are_twentieths(config.output.voice_gain_db);
    let hop = hop_of(config) as nat;
    let around = surrounded(src, config.processing.fft_size as nat, hop);
    let start = run_start(fresh, config, src.music_l.len());
    assert(sized(fresh));
    assert(frame_of_run_heard(tools, start, around, config.masking, hop, heard, i));
    lemma_run_keeps(start, around, config.masking, hop, heard.take(i));
    let p = run_after(start, around, config.masking, hop, heard.take(i)).pipeline;
    let input = cut(around, i * hop, config.processing.fft_size as nat);
    floor_is_the_greatest_reduction(
        tools,
        p,
        input,
        config.masking,
        one(),
        MusicPart::Taken,
        heard[i],
    );
    frames_mask_by_their_settings(p, input, config.masking, heard[i]);
    assert(heard.take(i + 1).drop_last() =~= heard.take(i));
    assert(heard.take(i + 1).last() == heard[i]);
}

} // verus!
