//! Recordings without a voice: the music comes out as it went in.

use crate::answers::{all_empty, all_zero, inverts_to_silence, transforms_silence};
use crate::arith::{count, product, quotient};
use crate::binary32::{lemma_mag_order, Binary32, ONE};
use crate::blend::{is_share, one, one_stays_one, zero};
use crate::compressor::{
    amplified, full_mix_applies_gain, gain_applied, is_boost, VoiceCompressor, MAX_GAIN,
};
use crate::config::{hop_of, Config, MaskingConfig};
use crate::fft::{contribution, overlap_added, spectrum_found, windowed};
use crate::level::{loudness_has_no_sign, mean_root, powers_of, squares_of, Complex};
use crate::mask_laws::{capped, closed_gate_touches_nothing, lemma_count};
use crate::offline::{
    between_silence, blended_channel, cut, frame_of_run_heard, frames_covering, lead_in, longer,
    music_left, offline_found, padded, reached, run_after, run_heard, run_start, surrounded,
    voice_back, weights_after, OfflineResult, Recording, Run,
};
use crate::mixer::mixed;
use crate::order::{
    lemma_one, lemma_quotient_below, lemma_ratio_exact, lemma_zero_product, lemma_zero_quotient,
    lemma_zero_sum, one_changes_nothing, same_number, same_numbers, zero_changes_nothing,
};
use crate::pipeline::{
    accums_after, channel_heard, channel_mask, compressed, lemma_pipeline_after, part_heard,
    pipeline_after, reduces, sized, taken, usable, ChannelHeard, FrameHeard, FrameInput, MusicPart,
    PipelineView, Tools,
};
use crate::pipeline_laws::untouched;
use crate::spectral_mask::{bins, total, EPSILON};
use crate::voice_gate::{
    audible, closed_gate_stays_at_zero, decibel, louder, noise_in_bounds, quiet_keeps_gate_closed,
    VoiceGate, LOUDEST, QUIETEST,
};
use vstd::arithmetic::power2::pow2;
use vstd::prelude::*;

verus! {

/// Whether all values of a window are finite numbers.
pub open spec fn finite_window(window: Seq<Binary32>) -> bool {
    forall|n: int| 0 <= n < window.len() ==> (#[trigger] window[n]).finite()
}

/// Whether a compressor does nothing to silence: its gain is one, silence is below its noise
/// floor, and the weight by which it goes back to one lies between zero and one.
pub open spec fn at_rest(c: VoiceCompressor) -> bool {
    &&& c.smoothed_gain == one()
    &&& !c.noise_floor.less(zero())
    &&& is_share(c.release_alpha)
}

/// Whether the processing does nothing to music without a voice, for as long as the voice gate
/// stays closed.
pub open spec fn resting(p: PipelineView) -> bool {
    &&& sized(p)
    &&& p.window.len() >= 1
    &&& finite_window(p.window)
    &&& untouched(p)
    &&& is_share(p.gate.alpha_release)
    &&& at_rest(p.compressor_l)
    &&& at_rest(p.compressor_r)
}

/// Whether silence is heard as no louder than the lowest noise floor, by the logarithm.
pub open spec fn hears_silence<L: Fn(Binary32) -> Binary32>(log10: L) -> bool {
    forall|y: Binary32| #[trigger]
        call_ensures(log10, (Binary32 { bits: EPSILON },), y) ==> decibel(y).at_most(
            Binary32 { bits: QUIETEST },
        )
}

/// Whether a gate is closed and has a noise floor and a margin as it should.
pub open spec fn hushed(g: VoiceGate) -> bool {
    !g.gate_open && noise_in_bounds(g.noise_floor_db) && zero().at_most(g.margin_db)
}

/// Nothing is heard of two empty spectra.
proof fn lemma_nothing_heard(left: Seq<Complex>, right: Seq<Complex>)
    requires
        all_empty(left),
        all_empty(right),
        left.len() <= usize::MAX,
        right.len() <= usize::MAX,
    ensures
        audible(louder(left, right)) == (Binary32 { bits: EPSILON }),
{
    lemma_one();
    lemma_empty_loudness(left);
    lemma_empty_loudness(right);
    lemma_mag_order(0, EPSILON as nat);
    lemma_ratio_exact(EPSILON as nat, 1);
}

/// An empty spectrum has no loudness.
proof fn lemma_empty_loudness(spectrum: Seq<Complex>)
    requires
        all_empty(spectrum),
        spectrum.len() <= usize::MAX,
    ensures
        mean_root(powers_of(spectrum)) == zero(),
{
    lemma_one();
    let powers = powers_of(spectrum);
    assert forall|i: int| 0 <= i < powers.len() implies (#[trigger] powers[i]).code() == 0 by {
        let c = spectrum[i];
        lemma_zero_product(c.re, c.re);
        lemma_zero_product(c.im, c.im);
        lemma_zero_sum(product(c.re, c.re), product(c.im, c.im));
    }
    lemma_total_of_zeros(powers);
    loudness_has_no_sign(spectrum);
    if spectrum.len() > 0 {
        lemma_count(spectrum.len());
        lemma_zero_quotient(total(powers), count(spectrum.len()));
    }
}

/// A total of zeros is zero.
proof fn lemma_total_of_zeros(s: Seq<Binary32>)
    requires
        all_zero(s),
    ensures
        total(s).code() == 0,
    decreases s.len(),
{
    if s.len() > 0 {
        assert(all_zero(s.drop_last())) by {
            assert forall|i: int| 0 <= i < s.len() - 1 implies (#[trigger]
            s.drop_last()[i]).code() == 0 by {
                assert(s[i].code() == 0);
            }
        }
        lemma_total_of_zeros(s.drop_last());
        assert(s[s.len() - 1].code() == 0);
        lemma_zero_sum(total(s.drop_last()), s.last());
    }
}

/// Silence has no loudness.
proof fn lemma_silent_loudness(frame: Seq<Binary32>)
    requires
        all_zero(frame),
        frame.len() <= usize::MAX,
    ensures
        mean_root(squares_of(frame)).code() == 0,
{
    let squares = squares_of(frame);
    assert forall|i: int| 0 <= i < squares.len() implies (#[trigger] squares[i]).code() == 0 by {
        assert(frame[i].code() == 0);
        lemma_zero_product(frame[i], frame[i]);
    }
    lemma_total_of_zeros(squares);
    if frame.len() > 0 {
        lemma_one();
        lemma_count(frame.len());
        lemma_zero_quotient(total(squares), count(frame.len()));
    }
}

/// A compressor at rest leaves silence alone and stays at rest.
proof fn lemma_rest(c: VoiceCompressor, voice: Seq<Binary32>, power: Binary32)
    requires
        at_rest(c),
        all_zero(voice),
        voice.len() <= usize::MAX,
    ensures
        compressed(c, voice, power) == c,
        gain_applied(c, one()) == one(),
        all_zero(amplified(voice, one())),
{
    lemma_one();
    lemma_silent_loudness(voice);
    one_stays_one(c.release_alpha);
    lemma_mag_order(ONE as nat, MAX_GAIN as nat);
    assert(is_boost(one()));
    full_mix_applies_gain(c, one());
    let lifted = amplified(voice, one());
    assert forall|i: int| 0 <= i < lifted.len() implies (#[trigger] lifted[i]).code() == 0 by {
        assert(voice[i].code() == 0);
        lemma_zero_product(voice[i], one());
    }
}

/// A mask of one everywhere takes nothing away.
proof fn lemma_nothing_taken(spectrum: Seq<Complex>, mask: Seq<Binary32>)
    requires
        mask.len() == spectrum.len(),
        forall|k: int| 0 <= k < mask.len() ==> #[trigger] mask[k] == one(),
    ensures
        all_empty(taken(spectrum, mask)),
{
    let t = taken(spectrum, mask);
    assert forall|k: int| 0 <= k < t.len() implies (#[trigger] t[k]).re.code() == 0
        && t[k].im.code() == 0 by {
        assert(mask[k] == one());
    }
}

/// What a silent voice comes to: an empty spectrum and silence.
proof fn lemma_silent_voice<
    L: Fn(Binary32) -> Binary32,
    P: Fn(Binary32) -> Binary32,
    N: Fn(Complex) -> Binary32,
    F: Fn(Vec<Binary32>) -> Vec<Complex>,
    I: Fn(Vec<Complex>) -> Vec<Binary32>,
>(
    tools: Tools<L, P, N, F, I>,
    window: Seq<Binary32>,
    compressor: VoiceCompressor,
    music: Seq<Binary32>,
    voice: Seq<Binary32>,
    mask: Seq<Binary32>,
    heard: ChannelHeard,
)
    requires
        usable(tools, window.len()),
        transforms_silence(tools.forward),
        inverts_to_silence(tools.inverse),
        finite_window(window),
        window.len() <= usize::MAX,
        at_rest(compressor),
        all_zero(voice),
        voice.len() == window.len(),
        channel_heard(
            tools,
            window,
            compressor,
            music,
            voice,
            one(),
            mask,
            MusicPart::Taken,
            heard,
        ),
    ensures
        compressed(compressor, voice, heard.power) == compressor,
        all_empty(heard.voice),
        heard.voice.len() == bins(window.len() as usize),
        all_zero(heard.voice_piece),
        heard.voice_piece.len() == window.len(),
{
    lemma_rest(compressor, voice, heard.power);
    let lifted = amplified(voice, one());
    let quiet = windowed(lifted, window);
    assert forall|i: int| 0 <= i < quiet.len() implies (#[trigger] quiet[i]).code() == 0 by {
        lemma_one();
        assert(lifted[i].code() == 0);
        assert(window[i].finite());
        lemma_zero_product(lifted[i], window[i]);
    }
    let v = choose|v: Vec<Complex>|
        v@ == heard.voice && #[trigger] spectrum_found(tools.forward, quiet, v);
    let x = choose|x: Vec<Binary32>| #[trigger] call_ensures(tools.forward, (x,), v) && x@ == quiet;
    assert(all_zero(x@));
    assert(call_ensures(tools.forward, (x,), v));
    let (c, d) = choose|x: Vec<Complex>, y: Vec<Binary32>| #[trigger]
        call_ensures(tools.inverse, (x,), y) && x@ == heard.voice && y@ == heard.voice_piece;
    assert(call_ensures(tools.inverse, (c,), d));
}

/// What a channel without a voice comes to: neither a voice nor anything taken from the music.
proof fn lemma_silent_channel<
    L: Fn(Binary32) -> Binary32,
    P: Fn(Binary32) -> Binary32,
    N: Fn(Complex) -> Binary32,
    F: Fn(Vec<Binary32>) -> Vec<Complex>,
    I: Fn(Vec<Complex>) -> Vec<Binary32>,
>(
    tools: Tools<L, P, N, F, I>,
    window: Seq<Binary32>,
    compressor: VoiceCompressor,
    music: Seq<Binary32>,
    voice: Seq<Binary32>,
    mask: Seq<Binary32>,
    heard: ChannelHeard,
)
    requires
        usable(tools, window.len()),
        transforms_silence(tools.forward),
        inverts_to_silence(tools.inverse),
        finite_window(window),
        window.len() <= usize::MAX,
        at_rest(compressor),
        all_zero(voice),
        voice.len() == window.len(),
        music.len() == window.len(),
        mask == Seq::new(bins(window.len() as usize), |k: int| one()),
        channel_heard(
            tools,
            window,
            compressor,
            music,
            voice,
            one(),
            mask,
            MusicPart::Taken,
            heard,
        ),
    ensures
        compressed(compressor, voice, heard.power) == compressor,
        all_zero(heard.music_piece),
        all_zero(heard.voice_piece),
        heard.music_piece.len() == window.len(),
        heard.voice_piece.len() == window.len(),
{
    lemma_silent_voice(tools, window, compressor, music, voice, mask, heard);
    lemma_open_frame(tools, window, compressor, music, voice, one(), mask, heard);
}

/// A silent sample contributes zero.
proof fn lemma_silent_contribution(piece: Seq<Binary32>, window: Seq<Binary32>, i: int)
    requires
        all_zero(piece),
        piece.len() == window.len(),
        finite_window(window),
        window.len() <= usize::MAX,
        0 <= i < window.len(),
    ensures
        contribution(piece, window, i).code() == 0,
{
    lemma_one();
    lemma_count(window.len());
    let norm = quotient(one(), count(window.len()));
    let n = capped(window.len());
    assert(n * pow2(149) >= pow2(149)) by (nonlinear_arith)
        requires
            n >= 1,
    ;
    lemma_quotient_below(one(), count(window.len()));
    assert(piece[i].code() == 0);
    assert(window[i].finite());
    lemma_zero_product(piece[i], norm);
    lemma_zero_product(product(piece[i], norm), window[i]);
}

/// A frame of silence adds nothing.
proof fn lemma_silence_added(
    accum: Seq<Binary32>,
    piece: Seq<Binary32>,
    window: Seq<Binary32>,
    position: nat,
)
    requires
        all_zero(accum),
        all_zero(piece),
        piece.len() == window.len(),
        finite_window(window),
        window.len() <= usize::MAX,
    ensures
        all_zero(overlap_added(accum, piece, window, position)),
{
    let r = overlap_added(accum, piece, window, position);
    assert forall|j: int| 0 <= j < r.len() implies (#[trigger] r[j]).code() == 0 by {
        assert(accum[j].code() == 0);
        let i = j - position;
        if 0 <= i < window.len() {
            lemma_silent_contribution(piece, window, i);
            lemma_zero_sum(accum[j], contribution(piece, window, i));
        }
    }
}

/// A frame without a voice: nothing is added, and the processing stays at rest.
proof fn lemma_silent_frame<
    L: Fn(Binary32) -> Binary32,
    P: Fn(Binary32) -> Binary32,
    N: Fn(Complex) -> Binary32,
    F: Fn(Vec<Binary32>) -> Vec<Complex>,
    I: Fn(Vec<Complex>) -> Vec<Binary32>,
>(
    tools: Tools<L, P, N, F, I>,
    p: PipelineView,
    input: FrameInput,
    config: MaskingConfig,
    heard: FrameHeard,
)
    requires
        usable(tools, p.window.len()),
        transforms_silence(tools.forward),
        inverts_to_silence(tools.inverse),
        reduces(tools.pow10, config),
        resting(p),
        all_zero(input.voice_l),
        all_zero(input.voice_r),
        input.music_l.len() == p.window.len(),
        input.music_r.len() == p.window.len(),
        input.voice_l.len() == p.window.len(),
        input.voice_r.len() == p.window.len(),
        part_heard(tools, p, input, config, one(), MusicPart::Taken, heard),
        !pipeline_after(p, input, config, heard).gate.gate_open || (hushed(p.gate)
            && hears_silence(tools.log10)),
    ensures
        hushed(p.gate) && hears_silence(tools.log10) ==> hushed(
            pipeline_after(p, input, config, heard).gate,
        ),
        resting(pipeline_after(p, input, config, heard)),
        all_zero(heard.left.music_piece),
        all_zero(heard.left.voice_piece),
        all_zero(heard.right.music_piece),
        all_zero(heard.right.voice_piece),
        heard.left.music_piece.len() == p.window.len(),
        heard.left.voice_piece.len() == p.window.len(),
        heard.right.music_piece.len() == p.window.len(),
        heard.right.voice_piece.len() == p.window.len(),
{
    lemma_pipeline_after(p, input, config, heard);
    reveal(pipeline_after);
    reveal(part_heard);
    let after = pipeline_after(p, input, config, heard);
    lemma_silent_voice(
        tools,
        p.window,
        p.compressor_l,
        input.music_l,
        input.voice_l,
        channel_mask(after.mask_l, heard.floor, config),
        heard.left,
    );
    lemma_silent_voice(
        tools,
        p.window,
        p.compressor_r,
        input.music_r,
        input.voice_r,
        channel_mask(after.mask_r, heard.floor, config),
        heard.right,
    );
    lemma_nothing_heard(heard.left.voice, heard.right.voice);
    if hushed(p.gate) && hears_silence(tools.log10) {
        quiet_keeps_gate_closed(p.gate, decibel(heard.gate_log));
    }
    closed_gate_stays_at_zero(p.gate, decibel(heard.gate_log));
    closed_gate_touches_nothing(
        p.mask_l,
        heard.left.voice_mag,
        heard.left.music_mag,
        after.gate.envelope,
        heard.floor,
        config,
    );
    closed_gate_touches_nothing(
        p.mask_r,
        heard.right.voice_mag,
        heard.right.music_mag,
        after.gate.envelope,
        heard.floor,
        config,
    );
    let mask_l = channel_mask(after.mask_l, heard.floor, config);
    let mask_r = channel_mask(after.mask_r, heard.floor, config);
    assert(mask_l =~= Seq::new(bins(p.window.len() as usize), |k: int| one()));
    assert(mask_r =~= Seq::new(bins(p.window.len() as usize), |k: int| one()));
    lemma_silent_channel(
        tools,
        p.window,
        p.compressor_l,
        input.music_l,
        input.voice_l,
        mask_l,
        heard.left,
    );
    lemma_silent_channel(
        tools,
        p.window,
        p.compressor_r,
        input.music_r,
        input.voice_r,
        mask_r,
        heard.right,
    );
}

/// Whether nothing was added to any output.
pub open spec fn nothing_added(r: Run) -> bool {
    &&& all_zero(r.accums.music_l)
    &&& all_zero(r.accums.music_r)
    &&& all_zero(r.accums.voice_l)
    &&& all_zero(r.accums.voice_r)
}

/// Whether the voice gate is closed after each frame of a run.
pub open spec fn stays_closed(
    start: Run,
    src: FrameInput,
    masking: MaskingConfig,
    hop_size: nat,
    heard: Seq<FrameHeard>,
) -> bool {
    forall|i: int|
        0 < i <= heard.len() ==> !run_after(
            start,
            src,
            masking,
            hop_size,
            #[trigger] heard.take(i),
        ).pipeline.gate.gate_open
}

/// A run through recordings without a voice adds nothing.
proof fn lemma_silent_run<
    L: Fn(Binary32) -> Binary32,
    P: Fn(Binary32) -> Binary32,
    N: Fn(Complex) -> Binary32,
    F: Fn(Vec<Binary32>) -> Vec<Complex>,
    I: Fn(Vec<Complex>) -> Vec<Binary32>,
>(
    tools: Tools<L, P, N, F, I>,
    start: Run,
    src: FrameInput,
    masking: MaskingConfig,
    hop_size: nat,
    heard: Seq<FrameHeard>,
    i: int,
)
    requires
        usable(tools, start.pipeline.window.len()),
        transforms_silence(tools.forward),
        inverts_to_silence(tools.inverse),
        heard.len() > 0 ==> reduces(tools.pow10, masking),
        resting(start.pipeline),
        nothing_added(start),
        all_zero(src.voice_l),
        all_zero(src.voice_r),
        src.music_r.len() == src.music_l.len(),
        src.voice_l.len() == src.music_l.len(),
        src.voice_r.len() == src.music_l.len(),
        heard.len() > 0 ==> (heard.len() - 1) * hop_size + start.pipeline.window.len()
            <= src.music_l.len(),
        run_heard(tools, start, src, masking, hop_size, heard),
        stays_closed(start, src, masking, hop_size, heard) || (hushed(start.pipeline.gate)
            && hears_silence(tools.log10)),
        0 <= i <= heard.len(),
    ensures
        hushed(start.pipeline.gate) && hears_silence(tools.log10) ==> hushed(
            run_after(start, src, masking, hop_size, heard.take(i)).pipeline.gate,
        ),
        resting(run_after(start, src, masking, hop_size, heard.take(i)).pipeline),
        nothing_added(run_after(start, src, masking, hop_size, heard.take(i))),
        run_after(start, src, masking, hop_size, heard.take(i)).pipeline.window
            == start.pipeline.window,
    decreases i,
{
    if i > 0 {
        let k = i - 1;
        lemma_silent_run(tools, start, src, masking, hop_size, heard, k);
        assert(frame_of_run_heard(tools, start, src, masking, hop_size, heard, k));
        assert(heard.take(i).drop_last() =~= heard.take(k));
        let r = run_after(start, src, masking, hop_size, heard.take(k));
        let at = k * hop_size;
        let len = start.pipeline.window.len();
        assert(0 <= at <= (heard.len() - 1) * hop_size) by (nonlinear_arith)
            requires
                at == k * hop_size,
                0 <= k <= heard.len() - 1,
                hop_size >= 0,
        ;
        let input = cut(src, at, len);
        assert forall|j: int| 0 <= j < len implies (#[trigger] input.voice_l[j]).code() == 0 by {
            assert(src.voice_l[at + j].code() == 0);
        }
        assert forall|j: int| 0 <= j < len implies (#[trigger] input.voice_r[j]).code() == 0 by {
            assert(src.voice_r[at + j].code() == 0);
        }
        let next = run_after(start, src, masking, hop_size, heard.take(i));
        assert(next.pipeline == pipeline_after(r.pipeline, input, masking, heard[k]));
        lemma_silent_frame(tools, r.pipeline, input, masking, heard[k]);
        lemma_pipeline_after(r.pipeline, input, masking, heard[k]);
        let h = heard[k];
        let w = start.pipeline.window;
        lemma_silence_added(r.accums.music_l, h.left.music_piece, w, at as nat);
        lemma_silence_added(r.accums.music_r, h.right.music_piece, w, at as nat);
        lemma_silence_added(r.accums.voice_l, h.left.voice_piece, w, at as nat);
        lemma_silence_added(r.accums.voice_r, h.right.voice_piece, w, at as nat);
        assert(next.accums == accums_after(r.accums, w, h, at as nat));
    } else {
        assert(heard.take(0).len() == 0);
    }
}

/// Silence around silence is silence.
proof fn lemma_silence_between(samples: Seq<Binary32>, before: nat, after: nat)
    requires
        all_zero(samples),
    ensures
        all_zero(between_silence(samples, before, after)),
{
    let s = between_silence(samples, before, after);
    assert forall|i: int| 0 <= i < s.len() implies (#[trigger] s[i]).code() == 0 by {
        if before <= i < before + samples.len() {
            assert(samples[i - before].code() == 0);
        }
    }
}

/// A channel to which nothing was added and from which nothing was taken is the music.
proof fn lemma_music_comes_out(
    music: Seq<Binary32>,
    voice: Seq<Binary32>,
    taken_sums: Seq<Binary32>,
    voice_sums: Seq<Binary32>,
    weights: Seq<Binary32>,
    lead: nat,
)
    requires
        all_zero(voice),
        all_zero(taken_sums),
        all_zero(voice_sums),
        voice.len() == music.len(),
        lead + music.len() <= taken_sums.len(),
        lead + music.len() <= voice_sums.len(),
    ensures
        same_numbers(
            blended_channel(
                music,
                voice,
                taken_sums,
                voice_sums,
                weights,
                lead,
                one(),
                one(),
            ),
            music,
        ),
{
    let out = blended_channel(
        music,
        voice,
        taken_sums,
        voice_sums,
        weights,
        lead,
        one(),
        one(),
    );
    assert forall|i: int| 0 <= i < out.len() implies same_number(#[trigger] out[i], music[i]) by {
        lemma_one();
        let w = weights[lead + i];
        assert(taken_sums[lead + i].code() == 0);
        assert(voice_sums[lead + i].code() == 0);
        assert(voice[i].code() == 0);
        let m = music_left(music[i], taken_sums[lead + i], w);
        lemma_nothing_off(music[i], taken_sums[lead + i], w);
        let v = voice_back(voice[i], voice_sums[lead + i], w);
        lemma_mag_order(0, w.code());
        if reached(w) {
            lemma_zero_quotient(voice_sums[lead + i], w);
        }
        assert(same_number(m, music[i]));
        assert(v.code() == 0);
        lemma_zero_product(v, one());
        zero_changes_nothing(product(m, one()), product(v, one()));
        if !m.nan() {
            one_changes_nothing(m);
        }
    }
}

/// With nobody speaking the music comes out as it went in, sample by sample. The voice is
/// silence and both gains are one; the voice gate is closed after each frame, which it is where
/// the logarithm tells how quiet silence is. The functions give zeros for silence, and weights
/// of smoothing between zero and one.
pub proof fn silent_voice_leaves_recordings<
    L: Fn(Binary32) -> Binary32,
    P: Fn(Binary32) -> Binary32,
    N: Fn(Complex) -> Binary32,
    F: Fn(Vec<Binary32>) -> Vec<Complex>,
    I: Fn(Vec<Complex>) -> Vec<Binary32>,
    E: Fn(Binary32) -> Binary32,
    C: Fn(Binary32) -> Binary32,
>(
    tools: Tools<L, P, N, F, I>,
    exp: E,
    cos: C,
    music: Recording,
    voice: Recording,
    config: Config,
    fresh: PipelineView,
    heard: Seq<FrameHeard>,
    music_gain: Binary32,
    voice_gain: Binary32,
    r: OfflineResult,
)
    requires
        offline_found(
            tools,
            exp,
            cos,
            padded(music, voice),
            config,
            fresh,
            heard,
            music_gain,
            voice_gain,
            r,
        ),
        usable(tools, config.processing.fft_size as nat),
        heard.len() > 0 ==> reduces(tools.pow10, config.masking),
        config.processing.fft_size >= 1,
        all_zero(voice.left@),
        all_zero(voice.right@),
        music_gain == one(),
        voice_gain == one(),
        stays_closed(
            run_start(fresh, config, longer(music, voice)),
            surrounded(
                padded(music, voice),
                config.processing.fft_size as nat,
                hop_of(config) as nat,
            ),
            config.masking,
            hop_of(config) as nat,
            heard,
        ) || hears_silence(tools.log10),
        transforms_silence(tools.forward),
        inverts_to_silence(tools.inverse),
        finite_window(fresh.window),
        is_share(fresh.gate.alpha_release),
        is_share(fresh.compressor_l.release_alpha),
        is_share(fresh.compressor_r.release_alpha),
    ensures
        same_numbers(r.left@, padded(music, voice).music_l),
        same_numbers(r.right@, padded(music, voice).music_r),
{
    let src = padded(music, voice);
    assert(all_zero(src.voice_l) && all_zero(src.voice_r)) by {
        assert forall|i: int| 0 <= i < src.voice_l.len() implies (#[trigger]
        src.voice_l[i]).code() == 0 by {
            if i < voice.left@.len() {
                assert(voice.left@[i].code() == 0);
            }
        }
        assert forall|i: int| 0 <= i < src.voice_r.len() implies (#[trigger]
        src.voice_r[i]).code() == 0 by {
            if i < voice.right@.len() {
                assert(voice.right@[i].code() == 0);
            }
        }
    }
    reveal(offline_found);
    lemma_one();
    let fft_size = config.processing.fft_size as nat;
    let hop = hop_of(config) as nat;
    let total_len = src.music_l.len();
    let lead = lead_in(fft_size, hop);
    let around = surrounded(src, fft_size, hop);
    let start = run_start(fresh, config, total_len);
    assert(resting(fresh)) by {
        lemma_mag_order(0, 0x3b03_126f);
    }
    assert(hushed(fresh.gate)) by {
        let quietest = Binary32 { bits: QUIETEST };
        lemma_mag_order((Binary32 { bits: LOUDEST }).code(), quietest.code());
        lemma_mag_order(0, 0x4080_0000);
        lemma_mag_order(0, fresh.gate.margin_db.code());
    }
    lemma_silence_between(src.voice_l, lead, fft_size);
    lemma_silence_between(src.voice_r, lead, fft_size);
    if heard.len() > 0 {
        let room = (lead + total_len - 1) as nat;
        assert(room / hop * hop <= room) by (nonlinear_arith)
            requires
                hop >= 1,
        ;
        assert((heard.len() - 1) * hop <= room);
    }
    let n = heard.len() as int;
    lemma_silent_run(tools, start, around, config.masking, hop, heard, n);
    assert(heard.take(n) =~= heard);
    let end = run_after(start, around, config.masking, hop, heard);
    lemma_run_lengths(start, around, config.masking, hop, heard);
    let weights = weights_after(
        fresh.window,
        hop,
        heard.len(),
        lead + total_len + fft_size,
    );
    lemma_music_comes_out(
        src.music_l,
        src.voice_l,
        end.accums.music_l,
        end.accums.voice_l,
        weights,
        lead,
    );
    lemma_music_comes_out(
        src.music_r,
        src.voice_r,
        end.accums.music_r,
        end.accums.voice_r,
        weights,
        lead,
    );
}

/// Frames change no length.
proof fn lemma_run_lengths(
    start: Run,
    src: FrameInput,
    masking: MaskingConfig,
    hop_size: nat,
    heard: Seq<FrameHeard>,
)
    ensures
        ({
            let end = run_after(start, src, masking, hop_size, heard);
            &&& end.accums.music_l.len() == start.accums.music_l.len()
            &&& end.accums.music_r.len() == start.accums.music_r.len()
            &&& end.accums.voice_l.len() == start.accums.voice_l.len()
            &&& end.accums.voice_r.len() == start.accums.voice_r.len()
        }),
    decreases heard.len(),
{
    if heard.len() > 0 {
        lemma_run_lengths(start, src, masking, hop_size, heard.drop_last());
    }
}

/// Whether both masks of a frame of a run are one everywhere.
pub open spec fn frame_is_open(
    start: Run,
    src: FrameInput,
    masking: MaskingConfig,
    hop_size: nat,
    heard: Seq<FrameHeard>,
    k: int,
) -> bool {
    let after = run_after(start, src, masking, hop_size, heard.take(k + 1)).pipeline;
    let ones = Seq::new(bins(start.pipeline.window.len() as usize), |b: int| one());
    &&& channel_mask(after.mask_l, heard[k].floor, masking) == ones
    &&& channel_mask(after.mask_r, heard[k].floor, masking) == ones
}

/// Whether a frame of a run reaches a position.
pub open spec fn frame_reaches(k: int, hop_size: nat, fft_size: nat, position: int) -> bool {
    k * hop_size <= position < k * hop_size + fft_size
}

/// A frame under masks of one takes nothing from the music.
proof fn lemma_open_frame<
    L: Fn(Binary32) -> Binary32,
    P: Fn(Binary32) -> Binary32,
    N: Fn(Complex) -> Binary32,
    F: Fn(Vec<Binary32>) -> Vec<Complex>,
    I: Fn(Vec<Complex>) -> Vec<Binary32>,
>(
    tools: Tools<L, P, N, F, I>,
    window: Seq<Binary32>,
    compressor: VoiceCompressor,
    music: Seq<Binary32>,
    voice: Seq<Binary32>,
    mix: Binary32,
    mask: Seq<Binary32>,
    heard: ChannelHeard,
)
    requires
        usable(tools, window.len()),
        inverts_to_silence(tools.inverse),
        window.len() <= usize::MAX,
        music.len() == window.len(),
        mask == Seq::new(bins(window.len() as usize), |k: int| one()),
        channel_heard(
            tools,
            window,
            compressor,
            music,
            voice,
            mix,
            mask,
            MusicPart::Taken,
            heard,
        ),
    ensures
        all_zero(heard.music_piece),
        heard.music_piece.len() == window.len(),
{
    let loud = windowed(music, window);
    let m = choose|v: Vec<Complex>|
        v@ == heard.music && #[trigger] spectrum_found(tools.forward, loud, v);
    let y = choose|x: Vec<Binary32>| #[trigger] call_ensures(tools.forward, (x,), m) && x@ == loud;
    assert(call_ensures(tools.forward, (y,), m));
    assert(heard.music.len() == bins(window.len() as usize));
    lemma_nothing_taken(heard.music, mask);
    let nothing = taken(heard.music, mask);
    let (a, b) = choose|x: Vec<Complex>, y: Vec<Binary32>| #[trigger]
        call_ensures(tools.inverse, (x,), y) && x@ == nothing && y@ == heard.music_piece;
    assert(call_ensures(tools.inverse, (a,), b));
}

/// Nothing is taken from a position that only frames under masks of one reach.
proof fn lemma_open_run<
    L: Fn(Binary32) -> Binary32,
    P: Fn(Binary32) -> Binary32,
    N: Fn(Complex) -> Binary32,
    F: Fn(Vec<Binary32>) -> Vec<Complex>,
    I: Fn(Vec<Complex>) -> Vec<Binary32>,
>(
    tools: Tools<L, P, N, F, I>,
    start: Run,
    src: FrameInput,
    masking: MaskingConfig,
    hop_size: nat,
    heard: Seq<FrameHeard>,
    position: int,
    i: int,
)
    requires
        usable(tools, start.pipeline.window.len()),
        inverts_to_silence(tools.inverse),
        1 <= start.pipeline.window.len() <= usize::MAX,
        finite_window(start.pipeline.window),
        src.music_r.len() == src.music_l.len(),
        heard.len() > 0 ==> (heard.len() - 1) * hop_size + start.pipeline.window.len()
            <= src.music_l.len(),
        run_heard(tools, start, src, masking, hop_size, heard),
        0 <= position < start.accums.music_l.len(),
        start.accums.music_r.len() == start.accums.music_l.len(),
        start.accums.music_l[position].code() == 0,
        start.accums.music_r[position].code() == 0,
        forall|k: int|
            0 <= k < heard.len() && #[trigger] frame_reaches(
                k,
                hop_size,
                start.pipeline.window.len(),
                position,
            ) ==> frame_is_open(start, src, masking, hop_size, heard, k),
        0 <= i <= heard.len(),
    ensures
        ({
            let r = run_after(start, src, masking, hop_size, heard.take(i));
            &&& r.accums.music_l[position].code() == 0
            &&& r.accums.music_r[position].code() == 0
            &&& r.accums.music_l.len() == start.accums.music_l.len()
            &&& r.accums.music_r.len() == start.accums.music_l.len()
            &&& r.pipeline.window == start.pipeline.window
        }),
    decreases i,
{
    if i > 0 {
        let k = i - 1;
        lemma_open_run(tools, start, src, masking, hop_size, heard, position, k);
        assert(frame_of_run_heard(tools, start, src, masking, hop_size, heard, k));
        assert(heard.take(i).drop_last() =~= heard.take(k));
        let r = run_after(start, src, masking, hop_size, heard.take(k));
        let at = k * hop_size;
        let w = start.pipeline.window;
        let len = w.len();
        let h = heard[k];
        assert(0 <= at <= (heard.len() - 1) * hop_size) by (nonlinear_arith)
            requires
                at == k * hop_size,
                0 <= k <= heard.len() - 1,
                hop_size >= 0,
        ;
        let input = cut(src, at, len);
        let after = pipeline_after(r.pipeline, input, masking, h);
        let next = run_after(start, src, masking, hop_size, heard.take(i));
        assert(next.pipeline == after);
        assert(next.accums == accums_after(r.accums, w, h, at as nat));
        lemma_pipeline_after(r.pipeline, input, masking, h);
        if frame_reaches(k, hop_size, len, position) {
            assert(frame_is_open(start, src, masking, hop_size, heard, k));
            reveal(part_heard);
            lemma_open_frame(
                tools,
                w,
                r.pipeline.compressor_l,
                input.music_l,
                input.voice_l,
                one(),
                channel_mask(after.mask_l, h.floor, masking),
                h.left,
            );
            lemma_open_frame(
                tools,
                w,
                r.pipeline.compressor_r,
                input.music_r,
                input.voice_r,
                one(),
                channel_mask(after.mask_r, h.floor, masking),
                h.right,
            );
            lemma_silent_contribution(h.left.music_piece, w, position - at);
            lemma_silent_contribution(h.right.music_piece, w, position - at);
            lemma_zero_sum(
                r.accums.music_l[position],
                contribution(h.left.music_piece, w, position - at),
            );
            lemma_zero_sum(
                r.accums.music_r[position],
                contribution(h.right.music_piece, w, position - at),
            );
        }
    } else {
        assert(heard.take(0).len() == 0);
    }
}

/// Between speech the music is untouched: a sample that only frames under masks of one reach
/// keeps its number, whatever happens before and after. The inverse of a spectrum of zeros is
/// silence.
pub proof fn music_is_untouched_between_speech<
    L: Fn(Binary32) -> Binary32,
    P: Fn(Binary32) -> Binary32,
    N: Fn(Complex) -> Binary32,
    F: Fn(Vec<Binary32>) -> Vec<Complex>,
    I: Fn(Vec<Complex>) -> Vec<Binary32>,
    E: Fn(Binary32) -> Binary32,
    C: Fn(Binary32) -> Binary32,
>(
    tools: Tools<L, P, N, F, I>,
    exp: E,
    cos: C,
    music: Recording,
    voice: Recording,
    config: Config,
    fresh: PipelineView,
    heard: Seq<FrameHeard>,
    music_gain: Binary32,
    voice_gain: Binary32,
    r: OfflineResult,
    i: int,
)
    requires
        offline_found(
            tools,
            exp,
            cos,
            padded(music, voice),
            config,
            fresh,
            heard,
            music_gain,
            voice_gain,
            r,
        ),
        usable(tools, config.processing.fft_size as nat),
        config.processing.fft_size >= 1,
        inverts_to_silence(tools.inverse),
        finite_window(fresh.window),
        0 <= i < longer(music, voice),
        forall|k: int|
            0 <= k < heard.len() && #[trigger] frame_reaches(
                k,
                hop_of(config) as nat,
                config.processing.fft_size as nat,
                lead_in(config.processing.fft_size as nat, hop_of(config) as nat) + i,
            ) ==> frame_is_open(
                run_start(fresh, config, longer(music, voice)),
                surrounded(
                    padded(music, voice),
                    config.processing.fft_size as nat,
                    hop_of(config) as nat,
                ),
                config.masking,
                hop_of(config) as nat,
                heard,
                k,
            ),
    ensures
        ({
            let src = padded(music, voice);
            let fft_size = config.processing.fft_size as nat;
            let hop = hop_of(config) as nat;
            let lead = lead_in(fft_size, hop);
            let len = lead + longer(music, voice) + fft_size;
            let start = run_start(fresh, config, longer(music, voice));
            let around = surrounded(src, fft_size, hop);
            let sums = run_after(start, around, config.masking, hop, heard).accums;
            let w = weights_after(fresh.window, hop, heard.len(), len)[lead + i];
            let left = music_left(src.music_l[i], sums.music_l[lead + i], w);
            let right = music_left(src.music_r[i], sums.music_r[lead + i], w);
            let voice_l = voice_back(src.voice_l[i], sums.voice_l[lead + i], w);
            let voice_r = voice_back(src.voice_r[i], sums.voice_r[lead + i], w);
            &&& same_number(left, src.music_l[i])
            &&& same_number(right, src.music_r[i])
            &&& r.left@[i] == mixed(left, voice_l, music_gain, voice_gain)
            &&& r.right@[i] == mixed(right, voice_r, music_gain, voice_gain)
        }),
{
    reveal(offline_found);
    lemma_one();
    let src = padded(music, voice);
    let fft_size = config.processing.fft_size as nat;
    let hop = hop_of(config) as nat;
    let total_len = src.music_l.len();
    let lead = lead_in(fft_size, hop);
    let around = surrounded(src, fft_size, hop);
    let start = run_start(fresh, config, total_len);
    if heard.len() > 0 {
        let room = (lead + total_len - 1) as nat;
        assert(room / hop * hop <= room) by (nonlinear_arith)
            requires
                hop >= 1,
        ;
        assert((heard.len() - 1) * hop <= room);
    }
    let n = heard.len() as int;
    lemma_open_run(tools, start, around, config.masking, hop, heard, lead + i, n);
    assert(heard.take(n) =~= heard);
    let end = run_after(start, around, config.masking, hop, heard);
    let w = weights_after(fresh.window, hop, heard.len(), lead + total_len + fft_size)[lead + i];
    lemma_nothing_off(src.music_l[i], end.accums.music_l[lead + i], w);
    lemma_nothing_off(src.music_r[i], end.accums.music_r[lead + i], w);
}

/// A sample from which zero is taken keeps its number.
proof fn lemma_nothing_off(sample: Binary32, taken_sum: Binary32, weight: Binary32)
    requires
        taken_sum.code() == 0,
    ensures
        same_number(music_left(sample, taken_sum, weight), sample),
{
    lemma_one();
    lemma_mag_order(0, weight.code());
    if reached(weight) {
        lemma_zero_quotient(taken_sum, weight);
        zero_changes_nothing(sample, quotient(taken_sum, weight));
    }
}

/// Frames cover every sample of a recording, head and tail, where no hop is longer than a frame:
/// each sample lies in a frame, and in all of the frames that would reach it if they began a hop
/// apart without beginning or end.
pub proof fn frames_cover_every_sample(total: nat, fft_size: nat, hop_size: nat, i: int)
    requires
        1 <= hop_size <= fft_size,
        0 <= i < total,
    ensures
        exists|k: int|
            0 <= k < frames_covering(total, fft_size, hop_size) && #[trigger] frame_reaches(
                k,
                hop_size,
                fft_size,
                lead_in(fft_size, hop_size) + i,
            ),
        forall|k: int| #[trigger]
            frame_reaches(k, hop_size, fft_size, lead_in(fft_size, hop_size) + i) ==> 0 <= k
                < frames_covering(total, fft_size, hop_size),
{
    let lead = lead_in(fft_size, hop_size);
    let at = lead + i;
    let n = frames_covering(total, fft_size, hop_size);
    let room = (lead + total - 1) as nat;
    assert(n == room / hop_size + 1);
    assert forall|k: int| #[trigger] frame_reaches(k, hop_size, fft_size, at) implies 0 <= k
        < n by {
        assert(k >= 0) by (nonlinear_arith)
            requires
                at < k * hop_size + fft_size,
                at >= fft_size - hop_size,
                hop_size >= 1,
        ;
        assert(k <= room / hop_size) by (nonlinear_arith)
            requires
                k * hop_size <= at,
                at <= room,
                hop_size >= 1,
        ;
    }
    let k = at / hop_size as int;
    assert(k * hop_size <= at < k * hop_size + hop_size) by (nonlinear_arith)
        requires
            k == at / hop_size as int,
            hop_size >= 1,
    ;
    assert(frame_reaches(k, hop_size, fft_size, at));
}

} // verus!
