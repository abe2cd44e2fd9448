//! What the settings come to at the output: which gains, masks and mixes each mode of operation
//! applies.

use crate::approx::blend_near_mean;
use crate::arith::{product, sum};
use crate::binary32::{lemma_mag_order, Binary32, INFINITE};
use crate::blend::{is_share, lemma_share, one, zero};
use crate::compressor::{
    amplified, boost_found, compressor_after, full_mix_applies_gain, gain_applied, gain_wanted,
    is_boost, no_mix_leaves_voice,
};
use crate::config::MaskingConfig;
use crate::fft::windowed;
use crate::filter::{chunk_in, fed_heard, hop_done, next_chunk, FilterView, HopHeard};
use crate::level::{mean_root, powers_of, squares_of, Complex};
use crate::mask_numbers::{
    bin_follows, bin_moves, frames_move_the_mask, own_masks, mask_follows, mask_protects,
    masks_protect_the_sub_bass,
};
use crate::mixer::{decibels_are_twentieths, gain_exponent, mix_scales_by_the_gains};
use crate::order::{lemma_one, same_number};
use crate::params::{
    masking_now, reduction_in_range, settings_stay_but_for_live_values, RuntimeParams,
};
use crate::pipeline::{
    accums_after, channel_mask, frame_heard, heard_piece, heard_spectrum, masked, part_heard,
    pipeline_after, sized, FrameHeard, FrameInput, MusicPart, PipelineView, Tools,
};
use crate::realtime::{engine_after, hop_heard, hop_output, EngineView};
use crate::spectral_mask::EPSILON;
use crate::voice_gate::{decibel, gate_after, louder, VoiceGate};
use vstd::arithmetic::power2::{lemma2_to64, lemma_pow2_adds, lemma_pow2_pos, pow2};
use vstd::prelude::*;

verus! {

/// Whether a gain is what the power of ten gave for a level in decibel: for a twentieth of it,
/// but for rounding.
pub open spec fn is_gain_of<P: Fn(Binary32) -> Binary32>(
    gain: Binary32,
    db: Binary32,
    pow10: P,
) -> bool {
    exists|x: Binary32| #[trigger]
        call_ensures(pow10, (x,), gain) && x.finite() && -pow2(135) <= 20 * x.value() - db.value()
            <= pow2(135)
}

/// Whether a level is one that can be told in numbers.
pub open spec fn is_level(db: Binary32) -> bool {
    db.finite() && -pow2(159) <= db.value() <= pow2(159)
}

/// A gain by its exponent is the gain of its level.
pub proof fn lemma_gain_of<P: Fn(Binary32) -> Binary32>(gain: Binary32, db: Binary32, pow10: P)
    requires
        is_level(db),
        call_ensures(pow10, (gain_exponent(db),), gain),
    ensures
        is_gain_of(gain, db, pow10),
{
    decibels_are_twentieths(db);
}

/// Each frame moves both masks as its own channel's magnitudes and the settings of the frame ask
/// for, under the voice gate that has heard the frame, and hands out masks that protect the
/// sub-bass of those settings.
pub proof fn frames_mask_by_their_settings(
    p: PipelineView,
    input: FrameInput,
    config: MaskingConfig,
    heard: FrameHeard,
)
    requires
        sized(p),
        p.window.len() >= 1,
        p.mask_l.sample_rate >= 1,
        p.mask_r.sample_rate >= 1,
        !config.sub_bass_protect_hz.nan(),
    ensures
        ({
            let after = pipeline_after(p, input, config, heard);
            &&& mask_follows(
                p.mask_l,
                after.mask_l,
                heard.left.voice_mag,
                heard.left.music_mag,
                after.gate.envelope,
                heard.floor,
                config,
            )
            &&& mask_follows(
                p.mask_r,
                after.mask_r,
                heard.right.voice_mag,
                heard.right.music_mag,
                after.gate.envelope,
                heard.floor,
                config,
            )
            &&& mask_protects(
                after.mask_l,
                channel_mask(after.mask_l, heard.floor, config),
                heard.floor,
                config,
            )
            &&& mask_protects(
                after.mask_r,
                channel_mask(after.mask_r, heard.floor, config),
                heard.floor,
                config,
            )
        }),
{
    reveal(pipeline_after);
    let after = pipeline_after(p, input, config, heard);
    let gate = after.gate.envelope;
    frames_move_the_mask(
        p.mask_l,
        heard.left.voice_mag,
        heard.left.music_mag,
        gate,
        heard.floor,
        config,
    );
    frames_move_the_mask(
        p.mask_r,
        heard.right.voice_mag,
        heard.right.music_mag,
        gate,
        heard.floor,
        config,
    );
    masks_protect_the_sub_bass(after.mask_l, heard.floor, config);
    masks_protect_the_sub_bass(after.mask_r, heard.floor, config);
}

/// The floor of a frame's masks is the gain of the greatest reduction that is set for it.
pub proof fn floor_is_the_greatest_reduction<
    L: Fn(Binary32) -> Binary32,
    P: Fn(Binary32) -> Binary32,
    N: Fn(Complex) -> Binary32,
    F: Fn(Vec<Binary32>) -> Vec<Complex>,
    I: Fn(Vec<Complex>) -> Vec<Binary32>,
>(
    tools: Tools<L, P, N, F, I>,
    p: PipelineView,
    input: FrameInput,
    config: MaskingConfig,
    mix: Binary32,
    part: MusicPart,
    heard: FrameHeard,
)
    requires
        part_heard(tools, p, input, config, mix, part, heard),
        is_level(config.max_reduction_db),
    ensures
        is_gain_of(heard.floor, config.max_reduction_db, tools.pow10),
{
    reveal(part_heard);
    lemma_gain_of(heard.floor, config.max_reduction_db, tools.pow10);
}

/// Whether all samples are numbers.
pub open spec fn numbers(samples: Seq<Binary32>) -> bool {
    forall|i: int| 0 <= i < samples.len() ==> !(#[trigger] samples[i]).nan()
}

/// The mix tells how much of the compression reaches the voice: without any, the spectrum of
/// each voice is that of the voice as it came in; with all of it, that of the voice times the
/// gain that its own compressor has after the frame.
pub proof fn mix_tells_how_much_is_lifted<
    L: Fn(Binary32) -> Binary32,
    P: Fn(Binary32) -> Binary32,
    N: Fn(Complex) -> Binary32,
    F: Fn(Vec<Binary32>) -> Vec<Complex>,
    I: Fn(Vec<Complex>) -> Vec<Binary32>,
>(
    tools: Tools<L, P, N, F, I>,
    p: PipelineView,
    input: FrameInput,
    config: MaskingConfig,
    mix: Binary32,
    part: MusicPart,
    heard: FrameHeard,
)
    requires
        part_heard(tools, p, input, config, mix, part, heard),
        is_boost(pipeline_after(p, input, config, heard).compressor_l.smoothed_gain),
        is_boost(pipeline_after(p, input, config, heard).compressor_r.smoothed_gain),
        numbers(input.voice_l),
        numbers(input.voice_r),
    ensures
        ({
            let after = pipeline_after(p, input, config, heard);
            &&& mix == zero() ==> heard_spectrum(
                tools.forward,
                windowed(input.voice_l, p.window),
                heard.left.voice,
            )
            &&& mix == zero() ==> heard_spectrum(
                tools.forward,
                windowed(input.voice_r, p.window),
                heard.right.voice,
            )
            &&& mix == one() ==> heard_spectrum(
                tools.forward,
                windowed(amplified(input.voice_l, after.compressor_l.smoothed_gain), p.window),
                heard.left.voice,
            )
            &&& mix == one() ==> heard_spectrum(
                tools.forward,
                windowed(amplified(input.voice_r, after.compressor_r.smoothed_gain), p.window),
                heard.right.voice,
            )
        }),
{
    reveal(part_heard);
    reveal(pipeline_after);
    let after = pipeline_after(p, input, config, heard);
    let l = gain_applied(after.compressor_l, mix);
    let r = gain_applied(after.compressor_r, mix);
    if mix == zero() {
        assert(amplified(input.voice_l, l) =~= input.voice_l) by {
            assert forall|i: int| 0 <= i < input.voice_l.len() implies amplified(
                input.voice_l,
                l,
            )[i] == input.voice_l[i] by {
                assert(!input.voice_l[i].nan());
                no_mix_leaves_voice(after.compressor_l, mix, input.voice_l, i);
            }
        }
        assert(amplified(input.voice_r, r) =~= input.voice_r) by {
            assert forall|i: int| 0 <= i < input.voice_r.len() implies amplified(
                input.voice_r,
                r,
            )[i] == input.voice_r[i] by {
                assert(!input.voice_r[i].nan());
                no_mix_leaves_voice(after.compressor_r, mix, input.voice_r, i);
            }
        }
    }
    if mix == one() {
        full_mix_applies_gain(after.compressor_l, mix);
        full_mix_applies_gain(after.compressor_r, mix);
    }
}

/// Each sample that live processing puts out is the sum of the music times the music gain plus
/// the sum of the voice times the voice gain, left and right in turn; with a voice that is
/// silent there, it is the music times the music gain.
pub proof fn live_mix_scales_by_the_gains(e: EngineView, heard: FrameHeard, i: int)
    requires
        0 <= i < e.hop_size,
    ensures
        ({
            let sums = accums_after(e.accums, e.pipeline.window, heard, 0);
            let out = hop_output(e, heard);
            &&& out.len() == 2 * e.hop_size
            &&& out[2 * i] == sum(
                product(sums.music_l[i], e.music_gain),
                product(sums.voice_l[i], e.voice_gain),
            )
            &&& out[2 * i + 1] == sum(
                product(sums.music_r[i], e.music_gain),
                product(sums.voice_r[i], e.voice_gain),
            )
            &&& sums.voice_l[i].code() == 0 && e.voice_gain.finite() ==> same_number(
                out[2 * i],
                product(sums.music_l[i], e.music_gain),
            )
            &&& sums.voice_r[i].code() == 0 && e.voice_gain.finite() ==> same_number(
                out[2 * i + 1],
                product(sums.music_r[i], e.music_gain),
            )
        }),
{
    lemma_one();
    let sums = accums_after(e.accums, e.pipeline.window, heard, 0);
    mix_scales_by_the_gains(sums.music_l[i], sums.voice_l[i], e.music_gain, e.voice_gain);
    mix_scales_by_the_gains(sums.music_r[i], sums.voice_r[i], e.music_gain, e.voice_gain);
    assert((2 * i) % 2 == 0 && (2 * i) / 2 == i);
    assert((2 * i + 1) % 2 == 1 && (2 * i + 1) / 2 == i);
}

/// A live hop keeps all settings, masks by those that were set, and takes each new sample into
/// the window of its own channel: even items are left ones, odd items are right ones.
pub proof fn live_hops_keep_the_settings(
    e: EngineView,
    music: Seq<u32>,
    voice: Seq<u32>,
    heard: FrameHeard,
)
    requires
        sized(e.pipeline),
        e.pipeline.window.len() >= 1,
        e.pipeline.mask_l.sample_rate >= 1,
        e.pipeline.mask_r.sample_rate >= 1,
        !e.masking.sub_bass_protect_hz.nan(),
        music.len() == 2 * e.hop_size,
        voice.len() == 2 * e.hop_size,
        e.hop_size <= e.windows.music_l.len(),
        e.windows.music_r.len() == e.windows.music_l.len(),
        e.windows.voice_l.len() == e.windows.music_l.len(),
        e.windows.voice_r.len() == e.windows.music_l.len(),
    ensures
        ({
            let after = engine_after(e, music, voice, heard);
            let old_len = e.windows.music_l.len() - e.hop_size;
            &&& after.music_gain == e.music_gain
            &&& after.voice_gain == e.voice_gain
            &&& after.masking == e.masking
            &&& after.hop_size == e.hop_size
            &&& mask_follows(
                e.pipeline.mask_l,
                after.pipeline.mask_l,
                heard.left.voice_mag,
                heard.left.music_mag,
                after.pipeline.gate.envelope,
                heard.floor,
                e.masking,
            )
            &&& mask_follows(
                e.pipeline.mask_r,
                after.pipeline.mask_r,
                heard.right.voice_mag,
                heard.right.music_mag,
                after.pipeline.gate.envelope,
                heard.floor,
                e.masking,
            )
            &&& forall|i: int|
                0 <= i < e.hop_size ==> {
                    &&& (#[trigger] after.windows.music_l[old_len + i]).bits == music[2 * i]
                    &&& after.windows.music_r[old_len + i].bits == music[2 * i + 1]
                    &&& after.windows.voice_l[old_len + i].bits == voice[2 * i]
                    &&& after.windows.voice_r[old_len + i].bits == voice[2 * i + 1]
                }
            &&& forall|i: int|
                0 <= i < old_len ==> {
                    &&& #[trigger] after.windows.music_l[i] == e.windows.music_l[i + e.hop_size]
                    &&& after.windows.music_r[i] == e.windows.music_r[i + e.hop_size]
                    &&& after.windows.voice_l[i] == e.windows.voice_l[i + e.hop_size]
                    &&& after.windows.voice_r[i] == e.windows.voice_r[i + e.hop_size]
                }
        }),
{
    let after = engine_after(e, music, voice, heard);
    frames_mask_by_their_settings(e.pipeline, after.windows, e.masking, heard);
}

/// Live processing hears all of the compression, and masks with the gain of the greatest
/// reduction that is set.
pub proof fn live_hops_are_heard_by_their_settings<
    L: Fn(Binary32) -> Binary32,
    P: Fn(Binary32) -> Binary32,
    N: Fn(Complex) -> Binary32,
    F: Fn(Vec<Binary32>) -> Vec<Complex>,
    I: Fn(Vec<Complex>) -> Vec<Binary32>,
>(
    tools: Tools<L, P, N, F, I>,
    e: EngineView,
    music: Seq<u32>,
    voice: Seq<u32>,
    heard: FrameHeard,
)
    requires
        hop_heard(tools, e, music, voice, heard),
        is_level(e.masking.max_reduction_db),
    ensures
        is_gain_of(heard.floor, e.masking.max_reduction_db, tools.pow10),
        part_heard(
            tools,
            e.pipeline,
            engine_after(e, music, voice, heard).windows,
            e.masking,
            one(),
            MusicPart::Left,
            heard,
        ),
{
    let windows = engine_after(e, music, voice, heard).windows;
    floor_is_the_greatest_reduction(
        tools,
        e.pipeline,
        windows,
        e.masking,
        one(),
        MusicPart::Left,
        heard,
    );
}

/// The masking settings with a depth and a focus strength of the moment.
pub open spec fn with_live_values(config: MaskingConfig, params: RuntimeParams) -> MaskingConfig {
    MaskingConfig { depth: params.masking_depth, focus_strength: params.wideband, ..config }
}

/// A hop of the filter queues the sums of the music times the filter's music gain plus the sums
/// of the voice times the voice gain of the moment, behind what waits, and keeps all settings.
pub proof fn filter_mix_scales_by_the_gains(f: FilterView, h: HopHeard, i: int)
    requires
        0 <= i < f.hop_size,
        f.queue_r.len() == f.queue_l.len(),
    ensures
        ({
            let g = hop_done(f, h);
            let sums = accums_after(f.accums, f.pipeline.window, h.frame, 0);
            let at = f.queue_l.len() + i;
            &&& g.queue_l.len() == f.queue_l.len() + f.hop_size
            &&& g.queue_r.len() == f.queue_l.len() + f.hop_size
            &&& g.queue_l.take(f.queue_l.len() as int) == f.queue_l
            &&& g.queue_r.take(f.queue_r.len() as int) == f.queue_r
            &&& g.queue_l[at] == sum(
                product(sums.music_l[i], f.music_gain),
                product(sums.voice_l[i], h.params.voice_gain),
            )
            &&& g.queue_r[at] == sum(
                product(sums.music_r[i], f.music_gain),
                product(sums.voice_r[i], h.params.voice_gain),
            )
            &&& sums.voice_l[i].code() == 0 && h.params.voice_gain.finite() ==> same_number(
                g.queue_l[at],
                product(sums.music_l[i], f.music_gain),
            )
            &&& g.music_gain == f.music_gain
            &&& g.masking == f.masking
            &&& g.hop_size == f.hop_size
            &&& g.windows == f.windows
            &&& g.pending == 0
        }),
{
    lemma_one();
    let g = hop_done(f, h);
    let sums = accums_after(f.accums, f.pipeline.window, h.frame, 0);
    mix_scales_by_the_gains(
        sums.music_l[i],
        sums.voice_l[i],
        f.music_gain,
        h.params.voice_gain,
    );
    assert(g.queue_l.take(f.queue_l.len() as int) =~= f.queue_l);
    assert(g.queue_r.take(f.queue_r.len() as int) =~= f.queue_r);
}

/// A hop of the filter masks by the settings that were loaded, with the depth and the focus
/// strength of the moment.
pub proof fn filter_masks_by_settings_and_live_values(f: FilterView, h: HopHeard)
    requires
        sized(f.pipeline),
        f.pipeline.window.len() >= 1,
        f.pipeline.mask_l.sample_rate >= 1,
        f.pipeline.mask_r.sample_rate >= 1,
        !f.masking.sub_bass_protect_hz.nan(),
    ensures
        ({
            let after = hop_done(f, h).pipeline;
            let config = with_live_values(f.masking, h.params);
            &&& mask_follows(
                f.pipeline.mask_l,
                after.mask_l,
                h.frame.left.voice_mag,
                h.frame.left.music_mag,
                after.gate.envelope,
                h.frame.floor,
                config,
            )
            &&& mask_follows(
                f.pipeline.mask_r,
                after.mask_r,
                h.frame.right.voice_mag,
                h.frame.right.music_mag,
                after.gate.envelope,
                h.frame.floor,
                config,
            )
        }),
{
    let after = hop_done(f, h).pipeline;
    let now = masking_now(f.masking, h.params);
    let config = with_live_values(f.masking, h.params);
    frames_mask_by_their_settings(f.pipeline, f.windows, now, h.frame);
    let now_l = own_masks(
        f.pipeline.mask_l,
        h.frame.left.voice_mag,
        h.frame.left.music_mag,
        h.frame.floor,
        now,
    );
    assert(now_l =~= own_masks(
        f.pipeline.mask_l,
        h.frame.left.voice_mag,
        h.frame.left.music_mag,
        h.frame.floor,
        config,
    ));
    assert forall|k: int| 0 <= k < f.pipeline.mask_l.smoothed.len() implies #[trigger] bin_moves(
        f.pipeline.mask_l,
        after.mask_l,
        h.frame.left.voice_mag,
        h.frame.left.music_mag,
        after.gate.envelope,
        h.frame.floor,
        config,
        k,
    ) by {
        assert(bin_moves(
            f.pipeline.mask_l,
            after.mask_l,
            h.frame.left.voice_mag,
            h.frame.left.music_mag,
            after.gate.envelope,
            h.frame.floor,
            now,
            k,
        ));
    }
    assert forall|k: int| 1 <= k < f.pipeline.mask_l.smoothed.len() implies #[trigger] bin_follows(
        f.pipeline.mask_l,
        after.mask_l,
        h.frame.left.voice_mag,
        h.frame.left.music_mag,
        after.gate.envelope,
        h.frame.floor,
        config,
        k,
    ) by {
        assert(bin_follows(
            f.pipeline.mask_l,
            after.mask_l,
            h.frame.left.voice_mag,
            h.frame.left.music_mag,
            after.gate.envelope,
            h.frame.floor,
            now,
            k,
        ));
    }
    let now_r = own_masks(
        f.pipeline.mask_r,
        h.frame.right.voice_mag,
        h.frame.right.music_mag,
        h.frame.floor,
        now,
    );
    assert(now_r =~= own_masks(
        f.pipeline.mask_r,
        h.frame.right.voice_mag,
        h.frame.right.music_mag,
        h.frame.floor,
        config,
    ));
    assert forall|k: int| 0 <= k < f.pipeline.mask_r.smoothed.len() implies #[trigger] bin_moves(
        f.pipeline.mask_r,
        after.mask_r,
        h.frame.right.voice_mag,
        h.frame.right.music_mag,
        after.gate.envelope,
        h.frame.floor,
        config,
        k,
    ) by {
        assert(bin_moves(
            f.pipeline.mask_r,
            after.mask_r,
            h.frame.right.voice_mag,
            h.frame.right.music_mag,
            after.gate.envelope,
            h.frame.floor,
            now,
            k,
        ));
    }
    assert forall|k: int| 1 <= k < f.pipeline.mask_r.smoothed.len() implies #[trigger] bin_follows(
        f.pipeline.mask_r,
        after.mask_r,
        h.frame.right.voice_mag,
        h.frame.right.music_mag,
        after.gate.envelope,
        h.frame.floor,
        config,
        k,
    ) by {
        assert(bin_follows(
            f.pipeline.mask_r,
            after.mask_r,
            h.frame.right.voice_mag,
            h.frame.right.music_mag,
            after.gate.envelope,
            h.frame.floor,
            now,
            k,
        ));
    }
}

/// At a hop boundary the filter hears the frame that ends there, with the compression mix of the
/// moment and a floor of 24 dB times the depth of the moment.
pub proof fn filter_hears_by_live_values<
    L: Fn(Binary32) -> Binary32,
    P: Fn(Binary32) -> Binary32,
    N: Fn(Complex) -> Binary32,
    F: Fn(Vec<Binary32>) -> Vec<Complex>,
    I: Fn(Vec<Complex>) -> Vec<Binary32>,
>(
    tools: Tools<L, P, N, F, I>,
    f: FilterView,
    q: FrameInput,
    from: int,
    heard: Seq<HopHeard>,
)
    requires
        fed_heard(tools, f, q, from, heard),
        0 <= from,
        f.pending < f.hop_size,
        f.hop_size - f.pending <= q.music_l.len() - from,
    ensures
        ({
            let chunk = f.hop_size - f.pending;
            let g = chunk_in(f, q, from, chunk);
            let h = heard[0];
            &&& heard.len() >= 1
            &&& is_share(h.params.masking_depth) ==> exists|x: Binary32| #[trigger]
                call_ensures(tools.pow10, (x,), h.frame.floor) && -pow2(136) <= 20 * x.value() + 24
                    * h.params.masking_depth.value() <= pow2(136)
            &&& exists|config: MaskingConfig| #[trigger]
                frame_heard(
                    tools,
                    f.pipeline,
                    g.windows,
                    config,
                    h.params.compression_mix,
                    h.frame,
                ) && config.sensitivity == f.masking.sensitivity
                    && config.depth == h.params.masking_depth
        }),
{
    let chunk = f.hop_size - f.pending;
    assert(chunk == next_chunk(f, q.music_l.len() - from));
    let g = chunk_in(f, q, from, chunk);
    let h = heard[0];
    let now = masking_now(f.masking, h.params);
    assert(frame_heard(
        tools,
        f.pipeline,
        g.windows,
        now,
        h.params.compression_mix,
        h.frame,
    ));
    if is_share(h.params.masking_depth) {
        lemma_one();
        settings_stay_but_for_live_values(f.masking, h.params);
        let db = now.max_reduction_db;
        lemma_share(h.params.masking_depth);
        reduction_in_range(f.masking, h.params);
        lemma2_to64();
        lemma_pow2_adds(10, 149);
        lemma_pow2_adds(1, 135);
        lemma_pow2_adds(6, 129);
        lemma_pow2_adds(20, 129);
        lemma_pow2_pos(129);
        lemma_mag_order(0x41c0_0000, INFINITE as nat);
        lemma_mag_order(0, db.code());
        assert(is_level(db));
        floor_is_the_greatest_reduction(
            tools,
            f.pipeline,
            g.windows,
            now,
            h.params.compression_mix,
            MusicPart::Left,
            h.frame,
        );
    }
}

/// A frame moves the voice gate by the louder one of both voices, whichever side it is on: by
/// the logarithm of its loudness and a little, in decibel.
pub proof fn gate_hears_the_louder_voice<
    L: Fn(Binary32) -> Binary32,
    P: Fn(Binary32) -> Binary32,
    N: Fn(Complex) -> Binary32,
    F: Fn(Vec<Binary32>) -> Vec<Complex>,
    I: Fn(Vec<Complex>) -> Vec<Binary32>,
>(
    tools: Tools<L, P, N, F, I>,
    p: PipelineView,
    input: FrameInput,
    config: MaskingConfig,
    mix: Binary32,
    part: MusicPart,
    heard: FrameHeard,
)
    requires
        part_heard(tools, p, input, config, mix, part, heard),
        !mean_root(powers_of(heard.left.voice)).nan(),
        !mean_root(powers_of(heard.right.voice)).nan(),
    ensures
        pipeline_after(p, input, config, heard).gate == gate_after(
            p.gate,
            decibel(heard.gate_log),
        ),
        exists|rms: Binary32|
            {
                let left = mean_root(powers_of(heard.left.voice));
                let right = mean_root(powers_of(heard.right.voice));
                &&& rms == left || rms == right
                &&& left.at_most(rms)
                &&& right.at_most(rms)
                &&& call_ensures(
                    tools.log10,
                    (#[trigger] sum(rms, Binary32 { bits: EPSILON }),),
                    heard.gate_log,
                )
            },
{
    reveal(part_heard);
    reveal(pipeline_after);
    let rms = louder(heard.left.voice, heard.right.voice);
    assert(call_ensures(
        tools.log10,
        (sum(rms, Binary32 { bits: EPSILON }),),
        heard.gate_log,
    ));
}

/// Each voice has its own compressor, which goes by the loudness of that voice alone.
pub proof fn each_voice_has_its_own_compressor<
    L: Fn(Binary32) -> Binary32,
    P: Fn(Binary32) -> Binary32,
    N: Fn(Complex) -> Binary32,
    F: Fn(Vec<Binary32>) -> Vec<Complex>,
    I: Fn(Vec<Complex>) -> Vec<Binary32>,
>(
    tools: Tools<L, P, N, F, I>,
    p: PipelineView,
    input: FrameInput,
    config: MaskingConfig,
    mix: Binary32,
    part: MusicPart,
    heard: FrameHeard,
)
    requires
        part_heard(tools, p, input, config, mix, part, heard),
    ensures
        ({
            let after = pipeline_after(p, input, config, heard);
            let left = mean_root(squares_of(input.voice_l));
            let right = mean_root(squares_of(input.voice_r));
            &&& boost_found(
                p.compressor_l,
                left,
                tools.log10,
                tools.pow10,
                heard.left.log,
                heard.left.power,
            )
            &&& boost_found(
                p.compressor_r,
                right,
                tools.log10,
                tools.pow10,
                heard.right.log,
                heard.right.power,
            )
            &&& after.compressor_l == compressor_after(
                p.compressor_l,
                gain_wanted(p.compressor_l, left, heard.left.power),
            )
            &&& after.compressor_r == compressor_after(
                p.compressor_r,
                gain_wanted(p.compressor_r, right, heard.right.power),
            )
        }),
{
    reveal(part_heard);
    reveal(pipeline_after);
}

/// The music that a frame adds is the inverse of the music's own spectrum, each bin of it times
/// the mask of its bin; the voice that it adds is the inverse of the voice's spectrum.
pub proof fn frames_are_synthesised_from_their_own_spectra<
    L: Fn(Binary32) -> Binary32,
    P: Fn(Binary32) -> Binary32,
    N: Fn(Complex) -> Binary32,
    F: Fn(Vec<Binary32>) -> Vec<Complex>,
    I: Fn(Vec<Complex>) -> Vec<Binary32>,
>(
    tools: Tools<L, P, N, F, I>,
    p: PipelineView,
    input: FrameInput,
    config: MaskingConfig,
    mix: Binary32,
    heard: FrameHeard,
    spectrum: Seq<Complex>,
)
    requires
        frame_heard(tools, p, input, config, mix, heard),
        spectrum.len() == heard.left.music.len(),
        forall|k: int|
            0 <= k < spectrum.len() ==> {
                let mask = channel_mask(
                    pipeline_after(p, input, config, heard).mask_l,
                    heard.floor,
                    config,
                );
                &&& (#[trigger] spectrum[k]).re == product(heard.left.music[k].re, mask[k])
                &&& spectrum[k].im == product(heard.left.music[k].im, mask[k])
            },
    ensures
        heard_spectrum(tools.forward, windowed(input.music_l, p.window), heard.left.music),
        heard_spectrum(tools.forward, windowed(input.music_r, p.window), heard.right.music),
        heard_piece(tools.inverse, spectrum, heard.left.music_piece),
        heard_piece(tools.inverse, heard.left.voice, heard.left.voice_piece),
        heard_piece(tools.inverse, heard.right.voice, heard.right.voice_piece),
{
    reveal(part_heard);
    let mask = channel_mask(
        pipeline_after(p, input, config, heard).mask_l,
        heard.floor,
        config,
    );
    assert(spectrum =~= masked(heard.left.music, mask));
}

/// The envelope of a gate takes its attack's weight while it rises and its release's while it
/// falls: it is the exact mean with one or with zero, but for rounding.
pub proof fn envelope_moves_by_its_weights(g: VoiceGate, db: Binary32)
    requires
        is_share(g.envelope),
        is_share(g.alpha_attack),
        is_share(g.alpha_release),
    ensures
        ({
            let u = pow2(149);
            let after = gate_after(g, db);
            let e = g.envelope.value();
            let r = after.envelope.value();
            let a = g.alpha_attack.value();
            let b = g.alpha_release.value();
            &&& after.gate_open && e < u ==> -(pow2(126) * u) <= r * u - (a * e + (u - a) * u)
                <= pow2(126) * u
            &&& !after.gate_open ==> -(pow2(126) * u) <= r * u - b * e <= pow2(126) * u
            &&& after.alpha_attack == g.alpha_attack
            &&& after.alpha_release == g.alpha_release
        }),
{
    lemma_one();
    lemma_share(g.envelope);
    blend_near_mean(g.alpha_attack, g.envelope, one());
    blend_near_mean(g.alpha_release, g.envelope, zero());
    let u = pow2(149) as int;
    let b = g.alpha_release.value();
    assert((u - b) * 0 == 0) by (nonlinear_arith);
}

} // verus!
