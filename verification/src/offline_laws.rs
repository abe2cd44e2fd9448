//! What the processing of whole recordings depends on.

use crate::answers::answers_alike;
use crate::binary32::Binary32;
use crate::blend::one;
use crate::compressor::VoiceCompressor;
use crate::config::{hop_of, Config, MaskingConfig};
use crate::fft::{hann, hann_at, is_hann_window, phase};
use crate::frame_laws::{frames_are_determined, tools_alike};
use crate::level::Complex;
use crate::offline::{
    cut, frame_of_run_heard, longer, offline_found, padded, run_after, run_heard, run_start,
    surrounded, OfflineResult, Recording, Run,
};
use crate::pipeline::{
    fresh_compressor, fresh_pipeline, lemma_pipeline_after, FrameHeard, FrameInput, MusicPart,
    PipelineView, Tools,
};
use crate::stream::resized;
use vstd::prelude::*;

verus! {

/// Whether a recording is another one, brought to a length.
pub open spec fn brought_to(recording: Recording, len: nat, other: Recording) -> bool {
    &&& other.left@ == resized(recording.left@, len)
    &&& other.right@ == resized(recording.right@, len)
    &&& other.sample_rate == recording.sample_rate
}

/// What is brought to a length twice is brought to it once.
proof fn lemma_resized_twice(samples: Seq<Binary32>, len: nat)
    ensures
        resized(resized(samples, len), len) == resized(samples, len),
        resized(samples, len).len() == len,
{
    assert(resized(resized(samples, len), len) =~= resized(samples, len));
}

/// Recordings that were brought to the length of the longer one beforehand are the same input.
pub proof fn padding_is_the_same_input(
    music: Recording,
    voice: Recording,
    padded_music: Recording,
    padded_voice: Recording,
)
    requires
        brought_to(music, longer(music, voice), padded_music),
        brought_to(voice, longer(music, voice), padded_voice),
    ensures
        longer(padded_music, padded_voice) == longer(music, voice),
        padded(padded_music, padded_voice) == padded(music, voice),
{
    let len = longer(music, voice);
    lemma_resized_twice(music.left@, len);
    lemma_resized_twice(music.right@, len);
    lemma_resized_twice(voice.left@, len);
    lemma_resized_twice(voice.right@, len);
}

/// There is one Hann window of a size.
proof fn lemma_same_window<C: Fn(Binary32) -> Binary32>(
    a: Seq<Binary32>,
    b: Seq<Binary32>,
    cos: C,
)
    requires
        answers_alike(cos),
        a.len() == b.len(),
        is_hann_window(a, cos),
        is_hann_window(b, cos),
    ensures
        a == b,
{
    assert forall|n: int| 0 <= n < a.len() implies a[n] == b[n] by {
        assert(hann_at(a[n], n, a.len(), cos));
        assert(hann_at(b[n], n, b.len(), cos));
        let x = choose|c: Binary32| #[trigger]
            call_ensures(cos, (phase(n, a.len()),), c) && a[n] == hann(c);
        let y = choose|c: Binary32| #[trigger]
            call_ensures(cos, (phase(n, b.len()),), c) && b[n] == hann(c);
        assert(call_ensures(cos, (phase(n, a.len()),), x));
        assert(call_ensures(cos, (phase(n, a.len()),), y));
    }
    assert(a =~= b);
}

/// There is one processing to begin with.
pub proof fn beginning_is_determined<
    L: Fn(Binary32) -> Binary32,
    E: Fn(Binary32) -> Binary32,
    C: Fn(Binary32) -> Binary32,
>(p: PipelineView, other: PipelineView, config: Config, log10: L, exp: E, cos: C)
    requires
        answers_alike(log10),
        answers_alike(exp),
        answers_alike(cos),
        fresh_pipeline(p, config, log10, exp, cos),
        fresh_pipeline(other, config, log10, exp, cos),
    ensures
        p == other,
{
    lemma_same_window(p.window, other.window, cos);
    let rate = config.processing.sample_rate;
    let hop = hop_of(config);
    lemma_same_compressor(p.compressor_l, other.compressor_l, rate, hop, log10, exp);
    lemma_same_compressor(p.compressor_r, other.compressor_r, rate, hop, log10, exp);
}

/// There is one compressor to begin with.
proof fn lemma_same_compressor<L: Fn(Binary32) -> Binary32, E: Fn(Binary32) -> Binary32>(
    c: VoiceCompressor,
    other: VoiceCompressor,
    sample_rate: u32,
    hop_size: usize,
    log10: L,
    exp: E,
)
    requires
        answers_alike(log10),
        answers_alike(exp),
        fresh_compressor(c, sample_rate, hop_size, log10, exp),
        fresh_compressor(other, sample_rate, hop_size, log10, exp),
    ensures
        c == other,
{
}

/// A run through recordings comes to one result after each frame.
proof fn lemma_same_run<
    L: Fn(Binary32) -> Binary32,
    P: Fn(Binary32) -> Binary32,
    N: Fn(Complex) -> Binary32,
    F: Fn(Vec<Binary32>) -> Vec<Complex>,
    I: Fn(Vec<Complex>) -> Vec<Binary32>,
>(
    tools: Tools<L, P, N, F, I>,
    start: Run,
    src: FrameInput,
    masking: MaskingConfig,
    hop_size: nat,
    heard: Seq<FrameHeard>,
    other: Seq<FrameHeard>,
    i: int,
)
    requires
        tools_alike(tools),
        run_heard(tools, start, src, masking, hop_size, heard),
        run_heard(tools, start, src, masking, hop_size, other),
        0 <= i <= heard.len(),
        heard.len() == other.len(),
    ensures
        run_after(start, src, masking, hop_size, heard.take(i)) == run_after(
            start,
            src,
            masking,
            hop_size,
            other.take(i),
        ),
        run_after(start, src, masking, hop_size, heard.take(i)).pipeline.window
            == start.pipeline.window,
        i > 0 ==> heard[i - 1].floor == other[i - 1].floor,
    decreases i,
{
    if i > 0 {
        let k = i - 1;
        lemma_same_run(tools, start, src, masking, hop_size, heard, other, k);
        assert(frame_of_run_heard(tools, start, src, masking, hop_size, heard, k));
        assert(frame_of_run_heard(tools, start, src, masking, hop_size, other, k));
        assert(heard.take(i).drop_last() =~= heard.take(k));
        assert(other.take(i).drop_last() =~= other.take(k));
        let r = run_after(start, src, masking, hop_size, heard.take(k));
        let input = cut(src, k * hop_size, start.pipeline.window.len());
        frames_are_determined(
            tools,
            r.pipeline,
            input,
            masking,
            one(),
            MusicPart::Taken,
            heard[k],
            other[k],
            r.accums,
            (k * hop_size) as nat,
        );
        lemma_pipeline_after(r.pipeline, input, masking, heard[k]);
    }
}

/// The same recordings come to the same result, where the functions answer alike each time.
pub proof fn result_is_determined<
    L: Fn(Binary32) -> Binary32,
    P: Fn(Binary32) -> Binary32,
    N: Fn(Complex) -> Binary32,
    F: Fn(Vec<Binary32>) -> Vec<Complex>,
    I: Fn(Vec<Complex>) -> Vec<Binary32>,
    E: Fn(Binary32) -> Binary32,
    C: Fn(Binary32) -> Binary32,
>(
    tools: Tools<L, P, N, F, I>,
    exp: E,
    cos: C,
    src: FrameInput,
    config: Config,
    fresh: PipelineView,
    heard: Seq<FrameHeard>,
    music_gain: Binary32,
    voice_gain: Binary32,
    r: OfflineResult,
    other_fresh: PipelineView,
    other_heard: Seq<FrameHeard>,
    other_music_gain: Binary32,
    other_voice_gain: Binary32,
    other: OfflineResult,
)
    requires
        tools_alike(tools),
        answers_alike(exp),
        answers_alike(cos),
        offline_found(tools, exp, cos, src, config, fresh, heard, music_gain, voice_gain, r),
        offline_found(
            tools,
            exp,
            cos,
            src,
            config,
            other_fresh,
            other_heard,
            other_music_gain,
            other_voice_gain,
            other,
        ),
    ensures
        r.left@ == other.left@,
        r.right@ == other.right@,
        r.frame_count == other.frame_count,
        r.mask_means@ == other.mask_means@,
        r.mask_min == other.mask_min,
{
    reveal(offline_found);
    beginning_is_determined(fresh, other_fresh, config, tools.log10, exp, cos);
    let hop = hop_of(config) as nat;
    let around = surrounded(src, config.processing.fft_size as nat, hop);
    let start = run_start(fresh, config, src.music_l.len());
    let n = heard.len() as int;
    lemma_same_run(tools, start, around, config.masking, hop, heard, other_heard, n);
    assert(heard.take(n) =~= heard);
    assert(other_heard.take(n) =~= other_heard);
    assert forall|i: int| 0 <= i < n implies r.mask_means@[i] == other.mask_means@[i] by {
        lemma_same_run(tools, start, around, config.masking, hop, heard, other_heard, i + 1);
    }
    assert(r.mask_means@ =~= other.mask_means@);
}

/// Bringing the recordings to the length of the longer one beforehand changes no result, where
/// the functions answer alike each time.
pub proof fn padding_changes_no_result<
    L: Fn(Binary32) -> Binary32,
    P: Fn(Binary32) -> Binary32,
    N: Fn(Complex) -> Binary32,
    F: Fn(Vec<Binary32>) -> Vec<Complex>,
    I: Fn(Vec<Complex>) -> Vec<Binary32>,
    E: Fn(Binary32) -> Binary32,
    C: Fn(Binary32) -> Binary32,
>(
    tools: Tools<L, P, N, F, I>,
    exp: E,
    cos: C,
    music: Recording,
    voice: Recording,
    padded_music: Recording,
    padded_voice: Recording,
    config: Config,
    fresh: PipelineView,
    heard: Seq<FrameHeard>,
    music_gain: Binary32,
    voice_gain: Binary32,
    r: OfflineResult,
    other_fresh: PipelineView,
    other_heard: Seq<FrameHeard>,
    other_music_gain: Binary32,
    other_voice_gain: Binary32,
    other: OfflineResult,
)
    requires
        tools_alike(tools),
        answers_alike(exp),
        answers_alike(cos),
        brought_to(music, longer(music, voice), padded_music),
        brought_to(voice, longer(music, voice), padded_voice),
        offline_found(
            tools,
            exp,
            cos,
            padded(music, voice),
            config,
            fresh,
            heard,
            music_gain,
            voice_gain,
            r,
        ),
        offline_found(
            tools,
            exp,
            cos,
            padded(padded_music, padded_voice),
            config,
            other_fresh,
            other_heard,
            other_music_gain,
            other_voice_gain,
            other,
        ),
    ensures
        r.left@ == other.left@,
        r.right@ == other.right@,
        r.frame_count == other.frame_count,
        r.mask_means@ == other.mask_means@,
        r.mask_min == other.mask_min,
{
    padding_is_the_same_input(music, voice, padded_music, padded_voice);
    result_is_determined(
        tools,
        exp,
        cos,
        padded(music, voice),
        config,
        fresh,
        heard,
        music_gain,
        voice_gain,
        r,
        other_fresh,
        other_heard,
        other_music_gain,
        other_voice_gain,
        other,
    );
}

} // verus!
