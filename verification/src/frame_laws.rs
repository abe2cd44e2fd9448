//! What the outputs of a frame depend on, where the functions answer alike each time.

use crate::answers::{answers_alike, inverts_alike, measures_alike, transforms_alike};
use crate::binary32::{lemma_mag_order, Binary32, ONE};
use crate::blend::{is_share, one};
use crate::compressor::{amplified, gain_applied, VoiceCompressor};
use crate::config::MaskingConfig;
use crate::fft::{spectrum_found, windowed};
use crate::level::Complex;
use crate::mask_laws::{all_shares, in_range, mask_in_range, maskable};
use crate::mixer::gain_exponent;
use crate::order::lemma_one;
use crate::pipeline::{
    accums_after, channel_heard, channel_mask, compressed, heard_norms, heard_piece, heard_spectrum,
    part_heard, part_of, pipeline_after, sized, Accums, ChannelHeard, FrameHeard, FrameInput,
    MusicPart, PipelineView, Tools,
};
use crate::voice_gate::{decibel, envelope_stays_share};
use vstd::prelude::*;

verus! {

/// Whether all functions answer alike each time.
pub open spec fn tools_alike<
    L: Fn(Binary32) -> Binary32,
    P: Fn(Binary32) -> Binary32,
    N: Fn(Complex) -> Binary32,
    F: Fn(Vec<Binary32>) -> Vec<Complex>,
    I: Fn(Vec<Complex>) -> Vec<Binary32>,
>(tools: Tools<L, P, N, F, I>) -> bool {
    &&& answers_alike(tools.log10)
    &&& answers_alike(tools.pow10)
    &&& measures_alike(tools.norm)
    &&& transforms_alike(tools.forward)
    &&& inverts_alike(tools.inverse)
}

/// The same samples have one spectrum.
proof fn lemma_same_spectrum<F: Fn(Vec<Binary32>) -> Vec<Complex>>(
    forward: F,
    samples: Seq<Binary32>,
    a: Seq<Complex>,
    b: Seq<Complex>,
)
    requires
        transforms_alike(forward),
        heard_spectrum(forward, samples, a),
        heard_spectrum(forward, samples, b),
    ensures
        a == b,
{
    let y = choose|v: Vec<Complex>| v@ == a && #[trigger] spectrum_found(forward, samples, v);
    let z = choose|v: Vec<Complex>| v@ == b && #[trigger] spectrum_found(forward, samples, v);
    let s = choose|x: Vec<Binary32>| #[trigger]
        call_ensures(forward, (x,), y) && x@ == samples;
    let t = choose|x: Vec<Binary32>| #[trigger]
        call_ensures(forward, (x,), z) && x@ == samples;
    assert(call_ensures(forward, (s,), y) && call_ensures(forward, (t,), z));
}

/// The same spectrum has one frame.
proof fn lemma_same_piece<I: Fn(Vec<Complex>) -> Vec<Binary32>>(
    inverse: I,
    spectrum: Seq<Complex>,
    a: Seq<Binary32>,
    b: Seq<Binary32>,
)
    requires
        inverts_alike(inverse),
        heard_piece(inverse, spectrum, a),
        heard_piece(inverse, spectrum, b),
    ensures
        a == b,
{
    let (s, y) = choose|x: Vec<Complex>, y: Vec<Binary32>| #[trigger]
        call_ensures(inverse, (x,), y) && x@ == spectrum && y@ == a;
    let (t, z) = choose|x: Vec<Complex>, y: Vec<Binary32>| #[trigger]
        call_ensures(inverse, (x,), y) && x@ == spectrum && y@ == b;
    assert(call_ensures(inverse, (s,), y) && call_ensures(inverse, (t,), z));
}

/// The same spectrum has one list of magnitudes.
proof fn lemma_same_norms<N: Fn(Complex) -> Binary32>(
    norm: N,
    spectrum: Seq<Complex>,
    a: Seq<Binary32>,
    b: Seq<Binary32>,
)
    requires
        measures_alike(norm),
        heard_norms(norm, spectrum, a),
        heard_norms(norm, spectrum, b),
    ensures
        a == b,
{
    assert forall|k: int| 0 <= k < a.len() implies a[k] == b[k] by {
        assert(call_ensures(norm, (spectrum[k],), a[k]));
        assert(call_ensures(norm, (spectrum[k],), b[k]));
    }
    assert(a =~= b);
}

/// What the voice of a channel comes to depends on the voice alone.
proof fn lemma_same_voice<
    L: Fn(Binary32) -> Binary32,
    P: Fn(Binary32) -> Binary32,
    N: Fn(Complex) -> Binary32,
    F: Fn(Vec<Binary32>) -> Vec<Complex>,
    I: Fn(Vec<Complex>) -> Vec<Binary32>,
>(
    tools: Tools<L, P, N, F, I>,
    window: Seq<Binary32>,
    part: MusicPart,
    compressor: VoiceCompressor,
    voice: Seq<Binary32>,
    mix: Binary32,
    music: Seq<Binary32>,
    mask: Seq<Binary32>,
    heard: ChannelHeard,
    other_music: Seq<Binary32>,
    other_mask: Seq<Binary32>,
    other: ChannelHeard,
)
    requires
        tools_alike(tools),
        channel_heard(tools, window, compressor, music, voice, mix, mask, part, heard),
        channel_heard(tools, window, compressor, other_music, voice, mix, other_mask, part, other),
    ensures
        compressed(compressor, voice, heard.power) == compressed(compressor, voice, other.power),
        heard.voice == other.voice,
        heard.voice_mag == other.voice_mag,
        heard.voice_piece == other.voice_piece,
{
    let after = compressed(compressor, voice, heard.power);
    assert(after == compressed(compressor, voice, other.power));
    let lifted = amplified(voice, gain_applied(after, mix));
    lemma_same_spectrum(tools.forward, windowed(lifted, window), heard.voice, other.voice);
    lemma_same_norms(tools.norm, heard.voice, heard.voice_mag, other.voice_mag);
    lemma_same_piece(tools.inverse, heard.voice, heard.voice_piece, other.voice_piece);
}

/// What the music of a channel comes to depends on the music and on the mask alone.
proof fn lemma_same_music<
    L: Fn(Binary32) -> Binary32,
    P: Fn(Binary32) -> Binary32,
    N: Fn(Complex) -> Binary32,
    F: Fn(Vec<Binary32>) -> Vec<Complex>,
    I: Fn(Vec<Complex>) -> Vec<Binary32>,
>(
    tools: Tools<L, P, N, F, I>,
    window: Seq<Binary32>,
    part: MusicPart,
    music: Seq<Binary32>,
    compressor: VoiceCompressor,
    voice: Seq<Binary32>,
    mix: Binary32,
    mask: Seq<Binary32>,
    heard: ChannelHeard,
    other_compressor: VoiceCompressor,
    other_voice: Seq<Binary32>,
    other_mix: Binary32,
    other_mask: Seq<Binary32>,
    other: ChannelHeard,
)
    requires
        tools_alike(tools),
        channel_heard(tools, window, compressor, music, voice, mix, mask, part, heard),
        channel_heard(
            tools,
            window,
            other_compressor,
            music,
            other_voice,
            other_mix,
            other_mask,
            part,
            other,
        ),
    ensures
        heard.music == other.music,
        heard.music_mag == other.music_mag,
        mask == other_mask ==> heard.music_piece == other.music_piece,
{
    lemma_same_spectrum(tools.forward, windowed(music, window), heard.music, other.music);
    lemma_same_norms(tools.norm, heard.music, heard.music_mag, other.music_mag);
    if mask == other_mask {
        lemma_same_piece(
            tools.inverse,
            part_of(part, heard.music, mask),
            heard.music_piece,
            other.music_piece,
        );
    }
}

/// What the voices come to depends on the voices alone: neither on any music nor on the
/// masking. The next frame finds the compressors and the voice gate in the same state.
pub proof fn voice_needs_no_music<
    L: Fn(Binary32) -> Binary32,
    P: Fn(Binary32) -> Binary32,
    N: Fn(Complex) -> Binary32,
    F: Fn(Vec<Binary32>) -> Vec<Complex>,
    I: Fn(Vec<Complex>) -> Vec<Binary32>,
>(
    tools: Tools<L, P, N, F, I>,
    p: PipelineView,
    input: FrameInput,
    config: MaskingConfig,
    heard: FrameHeard,
    sums: Accums,
    other_p: PipelineView,
    other_input: FrameInput,
    other_config: MaskingConfig,
    other_heard: FrameHeard,
    other_sums: Accums,
    mix: Binary32,
    part: MusicPart,
    position: nat,
)
    requires
        tools_alike(tools),
        p.window == other_p.window,
        p.compressor_l == other_p.compressor_l,
        p.compressor_r == other_p.compressor_r,
        p.gate == other_p.gate,
        input.voice_l == other_input.voice_l,
        input.voice_r == other_input.voice_r,
        sums.voice_l == other_sums.voice_l,
        sums.voice_r == other_sums.voice_r,
        part_heard(tools, p, input, config, mix, part, heard),
        part_heard(tools, other_p, other_input, other_config, mix, part, other_heard),
    ensures
        ({
            let after = pipeline_after(p, input, config, heard);
            let other = pipeline_after(other_p, other_input, other_config, other_heard);
            &&& after.compressor_l == other.compressor_l
            &&& after.compressor_r == other.compressor_r
            &&& after.gate == other.gate
        }),
        accums_after(sums, p.window, heard, position).voice_l == accums_after(
            other_sums,
            p.window,
            other_heard,
            position,
        ).voice_l,
        accums_after(sums, p.window, heard, position).voice_r == accums_after(
            other_sums,
            p.window,
            other_heard,
            position,
        ).voice_r,
{
    lemma_same_voices(
        tools,
        p,
        input,
        config,
        heard,
        other_p,
        other_input,
        other_config,
        other_heard,
        mix,
        part,
    );
}

/// What the functions gave for the voices of a frame depends on the voices alone.
proof fn lemma_same_voices<
    L: Fn(Binary32) -> Binary32,
    P: Fn(Binary32) -> Binary32,
    N: Fn(Complex) -> Binary32,
    F: Fn(Vec<Binary32>) -> Vec<Complex>,
    I: Fn(Vec<Complex>) -> Vec<Binary32>,
>(
    tools: Tools<L, P, N, F, I>,
    p: PipelineView,
    input: FrameInput,
    config: MaskingConfig,
    heard: FrameHeard,
    other_p: PipelineView,
    other_input: FrameInput,
    other_config: MaskingConfig,
    other_heard: FrameHeard,
    mix: Binary32,
    part: MusicPart,
)
    requires
        tools_alike(tools),
        p.window == other_p.window,
        p.compressor_l == other_p.compressor_l,
        p.compressor_r == other_p.compressor_r,
        p.gate == other_p.gate,
        input.voice_l == other_input.voice_l,
        input.voice_r == other_input.voice_r,
        part_heard(tools, p, input, config, mix, part, heard),
        part_heard(tools, other_p, other_input, other_config, mix, part, other_heard),
    ensures
        ({
            let after = pipeline_after(p, input, config, heard);
            let other = pipeline_after(other_p, other_input, other_config, other_heard);
            &&& after.compressor_l == other.compressor_l
            &&& after.compressor_r == other.compressor_r
            &&& after.gate == other.gate
        }),
        heard.left.voice_mag == other_heard.left.voice_mag,
        heard.right.voice_mag == other_heard.right.voice_mag,
        heard.left.voice_piece == other_heard.left.voice_piece,
        heard.right.voice_piece == other_heard.right.voice_piece,
{
    reveal(pipeline_after);
    reveal(part_heard);
    let after = pipeline_after(p, input, config, heard);
    let other = pipeline_after(other_p, other_input, other_config, other_heard);
    lemma_same_voice(
        tools,
        p.window,
        part,
        p.compressor_l,
        input.voice_l,
        mix,
        input.music_l,
        channel_mask(after.mask_l, heard.floor, config),
        heard.left,
        other_input.music_l,
        channel_mask(other.mask_l, other_heard.floor, other_config),
        other_heard.left,
    );
    lemma_same_voice(
        tools,
        p.window,
        part,
        p.compressor_r,
        input.voice_r,
        mix,
        input.music_r,
        channel_mask(after.mask_r, heard.floor, config),
        heard.right,
        other_input.music_r,
        channel_mask(other.mask_r, other_heard.floor, other_config),
        other_heard.right,
    );
}

/// Each channel of the music comes out whatever the other channel of the music holds. The next
/// frame finds the channel's mask in the same state.
pub proof fn music_channels_are_apart<
    L: Fn(Binary32) -> Binary32,
    P: Fn(Binary32) -> Binary32,
    N: Fn(Complex) -> Binary32,
    F: Fn(Vec<Binary32>) -> Vec<Complex>,
    I: Fn(Vec<Complex>) -> Vec<Binary32>,
>(
    tools: Tools<L, P, N, F, I>,
    p: PipelineView,
    input: FrameInput,
    heard: FrameHeard,
    sums: Accums,
    other_p: PipelineView,
    other_input: FrameInput,
    other_heard: FrameHeard,
    other_sums: Accums,
    config: MaskingConfig,
    mix: Binary32,
    part: MusicPart,
    position: nat,
)
    requires
        tools_alike(tools),
        p.window == other_p.window,
        p.compressor_l == other_p.compressor_l,
        p.compressor_r == other_p.compressor_r,
        p.gate == other_p.gate,
        input.voice_l == other_input.voice_l,
        input.voice_r == other_input.voice_r,
        part_heard(tools, p, input, config, mix, part, heard),
        part_heard(tools, other_p, other_input, config, mix, part, other_heard),
    ensures
        input.music_l == other_input.music_l && p.mask_l == other_p.mask_l && sums.music_l
            == other_sums.music_l ==> {
            &&& pipeline_after(p, input, config, heard).mask_l == pipeline_after(
                other_p,
                other_input,
                config,
                other_heard,
            ).mask_l
            &&& accums_after(sums, p.window, heard, position).music_l == accums_after(
                other_sums,
                p.window,
                other_heard,
                position,
            ).music_l
        },
        input.music_r == other_input.music_r && p.mask_r == other_p.mask_r && sums.music_r
            == other_sums.music_r ==> {
            &&& pipeline_after(p, input, config, heard).mask_r == pipeline_after(
                other_p,
                other_input,
                config,
                other_heard,
            ).mask_r
            &&& accums_after(sums, p.window, heard, position).music_r == accums_after(
                other_sums,
                p.window,
                other_heard,
                position,
            ).music_r
        },
{
    lemma_same_voices(
        tools,
        p,
        input,
        config,
        heard,
        other_p,
        other_input,
        config,
        other_heard,
        mix,
        part,
    );
    reveal(pipeline_after);
    reveal(part_heard);
    let after = pipeline_after(p, input, config, heard);
    let other = pipeline_after(other_p, other_input, config, other_heard);
    assert(heard.floor == other_heard.floor);
    if input.music_l == other_input.music_l && p.mask_l == other_p.mask_l {
        lemma_same_music(
            tools,
            p.window,
            part,
            input.music_l,
            p.compressor_l,
            input.voice_l,
            mix,
            channel_mask(after.mask_l, heard.floor, config),
            heard.left,
            other_p.compressor_l,
            other_input.voice_l,
            mix,
            channel_mask(other.mask_l, other_heard.floor, config),
            other_heard.left,
        );
        assert(after.mask_l == other.mask_l);
    }
    if input.music_r == other_input.music_r && p.mask_r == other_p.mask_r {
        lemma_same_music(
            tools,
            p.window,
            part,
            input.music_r,
            p.compressor_r,
            input.voice_r,
            mix,
            channel_mask(after.mask_r, heard.floor, config),
            heard.right,
            other_p.compressor_r,
            other_input.voice_r,
            mix,
            channel_mask(other.mask_r, other_heard.floor, config),
            other_heard.right,
        );
        assert(after.mask_r == other.mask_r);
    }
}

/// A frame comes to one result: where the functions answer alike, so does the processing.
pub proof fn frames_are_determined<
    L: Fn(Binary32) -> Binary32,
    P: Fn(Binary32) -> Binary32,
    N: Fn(Complex) -> Binary32,
    F: Fn(Vec<Binary32>) -> Vec<Complex>,
    I: Fn(Vec<Complex>) -> Vec<Binary32>,
>(
    tools: Tools<L, P, N, F, I>,
    p: PipelineView,
    input: FrameInput,
    config: MaskingConfig,
    mix: Binary32,
    part: MusicPart,
    heard: FrameHeard,
    other_heard: FrameHeard,
    sums: Accums,
    position: nat,
)
    requires
        tools_alike(tools),
        part_heard(tools, p, input, config, mix, part, heard),
        part_heard(tools, p, input, config, mix, part, other_heard),
    ensures
        pipeline_after(p, input, config, heard) == pipeline_after(p, input, config, other_heard),
        accums_after(sums, p.window, heard, position) == accums_after(
            sums,
            p.window,
            other_heard,
            position,
        ),
        heard.floor == other_heard.floor,
{
    voice_needs_no_music(
        tools,
        p,
        input,
        config,
        heard,
        sums,
        p,
        input,
        config,
        other_heard,
        sums,
        mix,
        part,
        position,
    );
    music_channels_are_apart(
        tools,
        p,
        input,
        heard,
        sums,
        p,
        input,
        other_heard,
        sums,
        config,
        mix,
        part,
        position,
    );
    reveal(pipeline_after);
    reveal(part_heard);
}

/// Whether the power that the greatest reduction asks for is one: nothing is reduced.
pub open spec fn leaves_all<P: Fn(Binary32) -> Binary32>(pow10: P, config: MaskingConfig) -> bool {
    forall|y: Binary32| #[trigger]
        call_ensures(pow10, (gain_exponent(config.max_reduction_db),), y) ==> y == one()
}

/// Whether masks and envelope lie between zero and one, and the weights of the envelope too.
pub open spec fn masks_settled(p: PipelineView) -> bool {
    &&& all_shares(p.mask_l.smoothed)
    &&& all_shares(p.mask_r.smoothed)
    &&& is_share(p.gate.envelope)
    &&& is_share(p.gate.alpha_attack)
    &&& is_share(p.gate.alpha_release)
}

/// A mask between one and one is one everywhere.
proof fn lemma_pinned(mask: Seq<Binary32>)
    requires
        in_range(mask, one()),
    ensures
        mask == Seq::new(mask.len(), |k: int| one()),
{
    lemma_one();
    assert forall|k: int| 0 <= k < mask.len() implies #[trigger] mask[k] == one() by {
        assert(one().at_most(mask[k]) && mask[k].at_most(one()));
        lemma_mag_order(mask[k].code(), ONE as nat);
    }
    assert(mask =~= Seq::new(mask.len(), |k: int| one()));
}

/// Where nothing is reduced, every mask that is handed out is one everywhere, and masks and
/// envelope stay between zero and one.
pub proof fn no_reduction_leaves_masks_at_one(
    p: PipelineView,
    input: FrameInput,
    config: MaskingConfig,
    heard: FrameHeard,
)
    requires
        sized(p),
        masks_settled(p),
        maskable(config),
        heard.floor == one(),
    ensures
        ({
            let after = pipeline_after(p, input, config, heard);
            &&& masks_settled(after)
            &&& channel_mask(after.mask_l, heard.floor, config) == Seq::new(
                p.mask_l.smoothed.len(),
                |k: int| one(),
            )
            &&& channel_mask(after.mask_r, heard.floor, config) == Seq::new(
                p.mask_r.smoothed.len(),
                |k: int| one(),
            )
        }),
{
    lemma_one();
    reveal(pipeline_after);
    let after = pipeline_after(p, input, config, heard);
    envelope_stays_share(p.gate, decibel(heard.gate_log));
    mask_in_range(
        p.mask_l,
        heard.left.voice_mag,
        heard.left.music_mag,
        after.gate.envelope,
        heard.floor,
        config,
    );
    mask_in_range(
        p.mask_r,
        heard.right.voice_mag,
        heard.right.music_mag,
        after.gate.envelope,
        heard.floor,
        config,
    );
    lemma_pinned(channel_mask(after.mask_l, heard.floor, config));
    lemma_pinned(channel_mask(after.mask_r, heard.floor, config));
}

/// Where nothing is reduced, the music comes out whatever the voice is: equal music comes to
/// equal sums, and the next frame finds all as it has to be for that.
pub proof fn voice_leaves_music_without_reduction<
    L: Fn(Binary32) -> Binary32,
    P: Fn(Binary32) -> Binary32,
    N: Fn(Complex) -> Binary32,
    F: Fn(Vec<Binary32>) -> Vec<Complex>,
    I: Fn(Vec<Complex>) -> Vec<Binary32>,
>(
    tools: Tools<L, P, N, F, I>,
    p: PipelineView,
    input: FrameInput,
    heard: FrameHeard,
    sums: Accums,
    other_p: PipelineView,
    other_input: FrameInput,
    other_heard: FrameHeard,
    other_sums: Accums,
    config: MaskingConfig,
    mix: Binary32,
    part: MusicPart,
    position: nat,
)
    requires
        tools_alike(tools),
        sized(p),
        sized(other_p),
        masks_settled(p),
        masks_settled(other_p),
        maskable(config),
        leaves_all(tools.pow10, config),
        p.window == other_p.window,
        input.music_l == other_input.music_l,
        input.music_r == other_input.music_r,
        sums.music_l == other_sums.music_l,
        sums.music_r == other_sums.music_r,
        part_heard(tools, p, input, config, mix, part, heard),
        part_heard(tools, other_p, other_input, config, mix, part, other_heard),
    ensures
        masks_settled(pipeline_after(p, input, config, heard)),
        masks_settled(pipeline_after(other_p, other_input, config, other_heard)),
        accums_after(sums, p.window, heard, position).music_l == accums_after(
            other_sums,
            p.window,
            other_heard,
            position,
        ).music_l,
        accums_after(sums, p.window, heard, position).music_r == accums_after(
            other_sums,
            p.window,
            other_heard,
            position,
        ).music_r,
{
    reveal(part_heard);
    let after = pipeline_after(p, input, config, heard);
    let other = pipeline_after(other_p, other_input, config, other_heard);
    no_reduction_leaves_masks_at_one(p, input, config, heard);
    no_reduction_leaves_masks_at_one(other_p, other_input, config, other_heard);
    lemma_same_music(
        tools,
        p.window,
        part,
        input.music_l,
        p.compressor_l,
        input.voice_l,
        mix,
        channel_mask(after.mask_l, heard.floor, config),
        heard.left,
        other_p.compressor_l,
        other_input.voice_l,
        mix,
        channel_mask(other.mask_l, other_heard.floor, config),
        other_heard.left,
    );
    lemma_same_music(
        tools,
        p.window,
        part,
        input.music_r,
        p.compressor_r,
        input.voice_r,
        mix,
        channel_mask(after.mask_r, heard.floor, config),
        heard.right,
        other_p.compressor_r,
        other_input.voice_r,
        mix,
        channel_mask(other.mask_r, other_heard.floor, config),
        other_heard.right,
    );
}

} // verus!
