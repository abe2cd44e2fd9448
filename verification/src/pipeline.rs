//! One frame of stereo music and stereo voice through all of the processing: compress the
//! voice, take the spectra, move the voice gate, mask the music, and add the frames up again.

use crate::arith::{count, difference, product, quotient, sum};
use crate::binary32::{Binary32, ONE};
use crate::blend::{one, zero};
use crate::compressor::{
    amplified, boost_found, compressor_after, gain_applied, gain_wanted, VoiceCompressor, MAX_GAIN,
};
use crate::config::{hop_of, Config, MaskingConfig, HALF};
use crate::fft::{
    is_hann_window, overlap_added, spectrum_found, weights_added, windowed, OverlapAddProcessor,
};
use crate::level::{mean_root, squares_of, Complex};
use crate::mixer::{db_to_gain, gain_exponent};
use crate::spectral_mask::{bins, handed_out, mask_after, total, total_of, MaskView, SpectralMask};
use crate::voice_gate::{audible, decibel, fading, gate_after, louder, margin, VoiceGate, QUIETEST};
use vstd::prelude::*;

verus! {

/// What the processing takes from outside: functions on numbers and the Fourier transform.
pub struct Tools<L, P, N, F, I> {
    /// The logarithm to the base of ten.
    pub log10: L,
    /// The power of ten.
    pub pow10: P,
    /// The magnitude of a bin.
    pub norm: N,
    /// The spectrum of real samples.
    pub forward: F,
    /// The samples of a spectrum, not normalised.
    pub inverse: I,
}

/// Whether the functions take whatever frames of a size ask of them, and give as many bins and
/// samples as those have.
pub open spec fn usable<
    L: Fn(Binary32) -> Binary32,
    P: Fn(Binary32) -> Binary32,
    N: Fn(Complex) -> Binary32,
    F: Fn(Vec<Binary32>) -> Vec<Complex>,
    I: Fn(Vec<Complex>) -> Vec<Binary32>,
>(tools: Tools<L, P, N, F, I>, fft_size: nat) -> bool {
    &&& forall|x: Binary32| #[trigger] call_requires(tools.log10, (x,))
    &&& forall|x: Binary32| #[trigger] call_requires(tools.pow10, (x,))
    &&& forall|x: Complex| #[trigger] call_requires(tools.norm, (x,))
    &&& forall|x: Vec<Binary32>|
        x@.len() == fft_size ==> #[trigger] call_requires(tools.forward, (x,))
    &&& forall|x: Vec<Binary32>, y: Vec<Complex>|
        x@.len() == fft_size && #[trigger] call_ensures(tools.forward, (x,), y) ==> y@.len()
            == bins(fft_size as usize)
    &&& forall|x: Vec<Complex>|
        x@.len() == bins(fft_size as usize) ==> #[trigger] call_requires(tools.inverse, (x,))
    &&& forall|x: Vec<Complex>, y: Vec<Binary32>|
        x@.len() == bins(fft_size as usize) && #[trigger] call_ensures(tools.inverse, (x,), y)
            ==> y@.len() == fft_size
}

/// Whether the power that the greatest reduction asks for is at most one.
pub open spec fn reduces<P: Fn(Binary32) -> Binary32>(pow10: P, config: MaskingConfig) -> bool {
    forall|y: Binary32| #[trigger]
        call_ensures(pow10, (gain_exponent(config.max_reduction_db),), y) ==> y.at_most(one())
}

/// What the functions gave for one channel of a frame.
pub ghost struct ChannelHeard {
    pub log: Binary32,
    pub power: Binary32,
    pub voice: Seq<Complex>,
    pub music: Seq<Complex>,
    pub voice_mag: Seq<Binary32>,
    pub music_mag: Seq<Binary32>,
    pub music_piece: Seq<Binary32>,
    pub voice_piece: Seq<Binary32>,
}

/// What the functions gave for a frame.
pub ghost struct FrameHeard {
    pub left: ChannelHeard,
    pub right: ChannelHeard,
    pub gate_log: Binary32,
    pub floor: Binary32,
}

/// The four inputs of a frame.
pub ghost struct FrameInput {
    pub music_l: Seq<Binary32>,
    pub music_r: Seq<Binary32>,
    pub voice_l: Seq<Binary32>,
    pub voice_r: Seq<Binary32>,
}

/// The four outputs that frames are added to.
pub ghost struct Accums {
    pub music_l: Seq<Binary32>,
    pub music_r: Seq<Binary32>,
    pub voice_l: Seq<Binary32>,
    pub voice_r: Seq<Binary32>,
}

/// What the processing remembers from frame to frame.
pub ghost struct PipelineView {
    pub window: Seq<Binary32>,
    pub mask_l: MaskView,
    pub mask_r: MaskView,
    pub compressor_l: VoiceCompressor,
    pub compressor_r: VoiceCompressor,
    pub gate: VoiceGate,
    pub frame_count: u64,
    pub mask_min: Binary32,
}

/// Whether a spectrum is what a function gave for some samples.
pub open spec fn heard_spectrum<F: Fn(Vec<Binary32>) -> Vec<Complex>>(
    forward: F,
    samples: Seq<Binary32>,
    spectrum: Seq<Complex>,
) -> bool {
    exists|v: Vec<Complex>| v@ == spectrum && #[trigger] spectrum_found(forward, samples, v)
}

/// Whether samples are what a function gave for a spectrum.
pub open spec fn heard_piece<I: Fn(Vec<Complex>) -> Vec<Binary32>>(
    inverse: I,
    spectrum: Seq<Complex>,
    piece: Seq<Binary32>,
) -> bool {
    exists|x: Vec<Complex>, y: Vec<Binary32>| #[trigger]
        call_ensures(inverse, (x,), y) && x@ == spectrum && y@ == piece
}

/// Whether magnitudes are what a function gave for the bins of a spectrum.
pub open spec fn heard_norms<N: Fn(Complex) -> Binary32>(
    norm: N,
    spectrum: Seq<Complex>,
    mags: Seq<Binary32>,
) -> bool {
    mags.len() == spectrum.len() && forall|k: int|
        0 <= k < mags.len() ==> call_ensures(norm, (spectrum[k],), #[trigger] mags[k])
}

/// A spectrum with a mask applied.
pub open spec fn masked(spectrum: Seq<Complex>, mask: Seq<Binary32>) -> Seq<Complex> {
    Seq::new(
        spectrum.len(),
        |k: int|
            Complex { re: product(spectrum[k].re, mask[k]), im: product(spectrum[k].im, mask[k]) },
    )
}

/// What of the music a frame adds to the outputs: what the mask leaves of it, or what the mask
/// takes away.
#[derive(Debug, Clone, Copy, PartialEq, Eq, Structural)]
pub enum MusicPart {
    Left,
    Taken,
}

/// What a mask takes away from a bin: nothing where it is one.
pub open spec fn taken_from(bin: Complex, m: Binary32) -> Complex {
    if m == one() {
        Complex { re: zero(), im: zero() }
    } else {
        let rest = difference(one(), m);
        Complex { re: product(bin.re, rest), im: product(bin.im, rest) }
    }
}

/// What a mask takes away from a spectrum.
pub open spec fn taken(spectrum: Seq<Complex>, mask: Seq<Binary32>) -> Seq<Complex> {
    Seq::new(spectrum.len(), |k: int| taken_from(spectrum[k], mask[k]))
}

/// A part of a spectrum under a mask.
pub open spec fn part_of(part: MusicPart, spectrum: Seq<Complex>, mask: Seq<Binary32>) -> Seq<
    Complex,
> {
    match part {
        MusicPart::Left => masked(spectrum, mask),
        MusicPart::Taken => taken(spectrum, mask),
    }
}

/// The compressor of a channel after a frame.
pub open spec fn compressed(
    c: VoiceCompressor,
    voice: Seq<Binary32>,
    power: Binary32,
) -> VoiceCompressor {
    compressor_after(c, gain_wanted(c, mean_root(squares_of(voice)), power))
}

/// The mask that a frame hands out for a channel.
pub open spec fn channel_mask(after: MaskView, floor: Binary32, config: MaskingConfig) -> Seq<
    Binary32,
> {
    handed_out(after.smoothed, floor, after.fft_size, after.sample_rate, config)
}

/// The lowest value of a mask; one where there is none.
pub open spec fn lowest(mask: Seq<Binary32>) -> Binary32
    decreases mask.len(),
{
    if mask.len() == 0 {
        one()
    } else if mask.len() == 1 {
        mask[0]
    } else {
        let m = lowest(mask.drop_last());
        if mask.last().less(m) {
            mask.last()
        } else {
            m
        }
    }
}

/// The mean of a mask.
pub open spec fn mean_of(mask: Seq<Binary32>) -> Binary32 {
    quotient(total(mask), count(mask.len()))
}

/// The processing after a frame.
#[verifier::opaque]
pub open spec fn pipeline_after(
    p: PipelineView,
    input: FrameInput,
    config: MaskingConfig,
    heard: FrameHeard,
) -> PipelineView {
    let gate = gate_after(p.gate, decibel(heard.gate_log));
    let mask_l = mask_after(
        p.mask_l,
        heard.left.voice_mag,
        heard.left.music_mag,
        gate.envelope,
        heard.floor,
        config,
    );
    let mask_r = mask_after(
        p.mask_r,
        heard.right.voice_mag,
        heard.right.music_mag,
        gate.envelope,
        heard.floor,
        config,
    );
    let min_l = lowest(channel_mask(mask_l, heard.floor, config));
    let min_r = lowest(channel_mask(mask_r, heard.floor, config));
    PipelineView {
        mask_l,
        mask_r,
        compressor_l: compressed(p.compressor_l, input.voice_l, heard.left.power),
        compressor_r: compressed(p.compressor_r, input.voice_r, heard.right.power),
        gate,
        frame_count: (p.frame_count + 1) as u64,
        mask_min: p.mask_min.smaller(min_l).smaller(min_r),
        ..p
    }
}

/// The mean of both masks of a frame.
pub open spec fn mean_mask(
    after: PipelineView,
    floor: Binary32,
    config: MaskingConfig,
) -> Binary32 {
    product(
        sum(
            mean_of(channel_mask(after.mask_l, floor, config)),
            mean_of(channel_mask(after.mask_r, floor, config)),
        ),
        Binary32 { bits: HALF },
    )
}

/// The outputs after a frame.
pub open spec fn accums_after(
    accums: Accums,
    window: Seq<Binary32>,
    heard: FrameHeard,
    position: nat,
) -> Accums {
    Accums {
        music_l: overlap_added(accums.music_l, heard.left.music_piece, window, position),
        music_r: overlap_added(accums.music_r, heard.right.music_piece, window, position),
        voice_l: overlap_added(accums.voice_l, heard.left.voice_piece, window, position),
        voice_r: overlap_added(accums.voice_r, heard.right.voice_piece, window, position),
    }
}

/// Whether the functions gave all that is said of a channel: each for what the processing has
/// to ask of it.
pub open spec fn channel_heard<
    L: Fn(Binary32) -> Binary32,
    P: Fn(Binary32) -> Binary32,
    N: Fn(Complex) -> Binary32,
    F: Fn(Vec<Binary32>) -> Vec<Complex>,
    I: Fn(Vec<Complex>) -> Vec<Binary32>,
>(
    tools: Tools<L, P, N, F, I>,
    window: Seq<Binary32>,
    compressor: VoiceCompressor,
    music: Seq<Binary32>,
    voice: Seq<Binary32>,
    mix: Binary32,
    mask: Seq<Binary32>,
    part: MusicPart,
    heard: ChannelHeard,
) -> bool {
    let after = compressed(compressor, voice, heard.power);
    let lifted = amplified(voice, gain_applied(after, mix));
    &&& boost_found(
        compressor,
        mean_root(squares_of(voice)),
        tools.log10,
        tools.pow10,
        heard.log,
        heard.power,
    )
    &&& heard_spectrum(tools.forward, windowed(lifted, window), heard.voice)
    &&& heard_spectrum(tools.forward, windowed(music, window), heard.music)
    &&& heard_norms(tools.norm, heard.voice, heard.voice_mag)
    &&& heard_norms(tools.norm, heard.music, heard.music_mag)
    &&& heard_piece(tools.inverse, part_of(part, heard.music, mask), heard.music_piece)
    &&& heard_piece(tools.inverse, heard.voice, heard.voice_piece)
}

/// Whether the functions gave all that is said of a frame of which a part of the music was
/// synthesised.
#[verifier::opaque]
pub open spec fn part_heard<
    L: Fn(Binary32) -> Binary32,
    P: Fn(Binary32) -> Binary32,
    N: Fn(Complex) -> Binary32,
    F: Fn(Vec<Binary32>) -> Vec<Complex>,
    I: Fn(Vec<Complex>) -> Vec<Binary32>,
>(
    tools: Tools<L, P, N, F, I>,
    p: PipelineView,
    input: FrameInput,
    config: MaskingConfig,
    mix: Binary32,
    part: MusicPart,
    heard: FrameHeard,
) -> bool {
    let after = pipeline_after(p, input, config, heard);
    &&& call_ensures(
        tools.log10,
        (audible(louder(heard.left.voice, heard.right.voice)),),
        heard.gate_log,
    )
    &&& call_ensures(tools.pow10, (gain_exponent(config.max_reduction_db),), heard.floor)
    &&& channel_heard(
        tools,
        p.window,
        p.compressor_l,
        input.music_l,
        input.voice_l,
        mix,
        channel_mask(after.mask_l, heard.floor, config),
        part,
        heard.left,
    )
    &&& channel_heard(
        tools,
        p.window,
        p.compressor_r,
        input.music_r,
        input.voice_r,
        mix,
        channel_mask(after.mask_r, heard.floor, config),
        part,
        heard.right,
    )
}

/// Whether the functions gave all that is said of a frame of which the masked music was
/// synthesised.
pub open spec fn frame_heard<
    L: Fn(Binary32) -> Binary32,
    P: Fn(Binary32) -> Binary32,
    N: Fn(Complex) -> Binary32,
    F: Fn(Vec<Binary32>) -> Vec<Complex>,
    I: Fn(Vec<Complex>) -> Vec<Binary32>,
>(
    tools: Tools<L, P, N, F, I>,
    p: PipelineView,
    input: FrameInput,
    config: MaskingConfig,
    mix: Binary32,
    heard: FrameHeard,
) -> bool {
    part_heard(tools, p, input, config, mix, MusicPart::Left, heard)
}

/// The processing of frames.
#[derive(Debug)]
pub struct DspPipeline {
    frames: OverlapAddProcessor,
    spectral_mask_l: SpectralMask,
    spectral_mask_r: SpectralMask,
    voice_compressor_l: VoiceCompressor,
    voice_compressor_r: VoiceCompressor,
    voice_gate: VoiceGate,
    frame_count: u64,
    mask_min: Binary32,
}

impl View for DspPipeline {
    type V = PipelineView;

    closed spec fn view(&self) -> PipelineView {
        PipelineView {
            window: self.frames@,
            mask_l: self.spectral_mask_l@,
            mask_r: self.spectral_mask_r@,
            compressor_l: self.voice_compressor_l,
            compressor_r: self.voice_compressor_r,
            gate: self.voice_gate,
            frame_count: self.frame_count,
            mask_min: self.mask_min,
        }
    }
}

/// Whether all parts agree on the frame size.
pub open spec fn sized(p: PipelineView) -> bool {
    &&& p.window.len() <= usize::MAX
    &&& p.mask_l.fft_size == p.window.len()
    &&& p.mask_r.fft_size == p.window.len()
    &&& p.mask_l.smoothed.len() == bins(p.mask_l.fft_size)
    &&& p.mask_r.smoothed.len() == bins(p.mask_r.fft_size)
}

/// A frame keeps the frame size, and is counted.
pub proof fn lemma_pipeline_after(
    p: PipelineView,
    input: FrameInput,
    config: MaskingConfig,
    heard: FrameHeard,
)
    ensures
        sized(p) ==> sized(pipeline_after(p, input, config, heard)),
        pipeline_after(p, input, config, heard).window == p.window,
        p.frame_count < u64::MAX ==> pipeline_after(p, input, config, heard).frame_count
            == p.frame_count + 1,
{
    reveal(pipeline_after);
}

/// A compressor as each channel has one, by what the functions gave.
pub open spec fn fresh_compressor<L: Fn(Binary32) -> Binary32, E: Fn(Binary32) -> Binary32>(
    c: VoiceCompressor,
    sample_rate: u32,
    hop_size: usize,
    log10: L,
    exp: E,
) -> bool {
    &&& exists|log: Binary32| #[trigger]
        call_ensures(log10, (Binary32 { bits: 0x3e19_999a },), log) && c.target_db == decibel(log)
    &&& call_ensures(
        exp,
        (fading(Binary32 { bits: 0x41f0_0000 }, sample_rate, hop_size),),
        c.attack_alpha,
    )
    &&& call_ensures(
        exp,
        (fading(Binary32 { bits: 0x4348_0000 }, sample_rate, hop_size),),
        c.release_alpha,
    )
    &&& c.noise_floor == (Binary32 { bits: 0x3b03_126f })
    &&& c.ratio == (Binary32 { bits: 0x3fe6_6666 })
    &&& c.smoothed_gain == one()
    &&& c.max_gain == (Binary32 { bits: MAX_GAIN })
}

/// The processing before the first frame, by what the functions gave: a Hann window, masks of
/// one, compressors with a gain of one, and a closed gate.
pub open spec fn fresh_pipeline<
    L: Fn(Binary32) -> Binary32,
    E: Fn(Binary32) -> Binary32,
    C: Fn(Binary32) -> Binary32,
>(p: PipelineView, config: Config, log10: L, exp: E, cos: C) -> bool {
    let rate = config.processing.sample_rate;
    let hop = hop_of(config);
    &&& p.window.len() == config.processing.fft_size
    &&& is_hann_window(p.window, cos)
    &&& p.mask_l == MaskView {
        fft_size: config.processing.fft_size,
        sample_rate: rate,
        smoothed: Seq::new(bins(config.processing.fft_size), |k: int| one()),
    }
    &&& p.mask_r == p.mask_l
    &&& fresh_compressor(p.compressor_l, rate, hop, log10, exp)
    &&& fresh_compressor(p.compressor_r, rate, hop, log10, exp)
    &&& call_ensures(exp, (fading(config.envelope.attack_ms, rate, hop),), p.gate.alpha_attack)
    &&& call_ensures(exp, (fading(config.envelope.release_ms, rate, hop),), p.gate.alpha_release)
    &&& !p.gate.gate_open
    &&& p.gate.envelope == zero()
    &&& p.gate.noise_floor_db == Binary32 { bits: QUIETEST }
    &&& p.gate.margin_db == margin(
        config.envelope.gate_threshold_on,
        config.envelope.gate_threshold_off,
    )
    &&& p.gate.hysteresis_db == product(p.gate.margin_db, Binary32 { bits: 0x3f19_999a })
    &&& p.frame_count == 0
    &&& p.mask_min == one()
}

impl DspPipeline {
    /// Whether all parts agree on the frame size.
    pub open spec fn wf(&self) -> bool {
        sized(self@)
    }

    /// The processing for some settings, before the first frame. `log10`, `exp` and `cos` give
    /// the logarithm to the base of ten, the exponential function and the cosine.
    pub fn new<
        L: Fn(Binary32) -> Binary32 + Copy,
        E: Fn(Binary32) -> Binary32 + Copy,
        C: Fn(Binary32) -> Binary32,
    >(config: &Config, log10: L, exp: E, cos: C) -> (r: Self)
        requires
            forall|x: Binary32| #[trigger] call_requires(log10, (x,)),
            forall|x: Binary32| #[trigger] call_requires(exp, (x,)),
            forall|x: Binary32| #[trigger] call_requires(cos, (x,)),
        ensures
            r.wf(),
            fresh_pipeline(r@, *config, log10, exp, cos),
    {
        let fft_size = config.processing.fft_size;
        let sample_rate = config.processing.sample_rate;
        let hop_size = config.hop_size();
        let target = Binary32 { bits: 0x3e19_999a };
        let silence = Binary32 { bits: 0x3b03_126f };
        let ratio = Binary32 { bits: 0x3fe6_6666 };
        DspPipeline {
            frames: OverlapAddProcessor::new(fft_size, cos),
            spectral_mask_l: SpectralMask::new(fft_size, sample_rate),
            spectral_mask_r: SpectralMask::new(fft_size, sample_rate),
            voice_compressor_l: VoiceCompressor::new(
                target,
                silence,
                ratio,
                sample_rate,
                hop_size,
                log10,
                exp,
            ),
            voice_compressor_r: VoiceCompressor::new(
                target,
                silence,
                ratio,
                sample_rate,
                hop_size,
                log10,
                exp,
            ),
            voice_gate: VoiceGate::new(
                config.envelope.gate_threshold_on,
                config.envelope.gate_threshold_off,
                config.envelope.attack_ms,
                config.envelope.release_ms,
                sample_rate,
                hop_size,
                exp,
            ),
            frame_count: 0,
            mask_min: Binary32 { bits: ONE },
        }
    }

    /// How many frames were processed.
    pub fn frame_count(&self) -> (r: u64)
        ensures
            r == self@.frame_count,
    {
        self.frame_count
    }

    /// Adds the squares of the window to weights, from a position on.
    pub fn add_weights(&self, weights: &mut [Binary32], position: usize)
        ensures
            final(weights)@ == weights_added(old(weights)@, self@.window, position as nat),
    {
        self.frames.add_weights(weights, position);
    }

    /// The lowest mask value of all frames.
    pub fn mask_min(&self) -> (r: Binary32)
        ensures
            r == self@.mask_min,
    {
        self.mask_min
    }
}

/// The spectrum of a voice that was compressed.
fn voice_spectrum<
    L: Fn(Binary32) -> Binary32 + Copy,
    P: Fn(Binary32) -> Binary32 + Copy,
    N: Fn(Complex) -> Binary32 + Copy,
    F: Fn(Vec<Binary32>) -> Vec<Complex> + Copy,
    I: Fn(Vec<Complex>) -> Vec<Binary32> + Copy,
>(
    frames: &OverlapAddProcessor,
    compressor: &mut VoiceCompressor,
    voice: &[Binary32],
    mix: Binary32,
    tools: &Tools<L, P, N, F, I>,
) -> (r: (Vec<Complex>, Ghost<(Binary32, Binary32)>))
    requires
        voice@.len() == frames@.len(),
        usable(*tools, frames@.len()),
    ensures
        *final(compressor) == compressed(*old(compressor), voice@, r.1@.1),
        boost_found(
            *old(compressor),
            mean_root(squares_of(voice@)),
            tools.log10,
            tools.pow10,
            r.1@.0,
            r.1@.1,
        ),
        heard_spectrum(
            tools.forward,
            windowed(amplified(voice@, gain_applied(*final(compressor), mix)), frames@),
            r.0@,
        ),
        r.0@.len() == bins(frames@.len() as usize),
{
    let ghost before = *compressor;
    let ghost rms = mean_root(squares_of(voice@));
    let lifted = compressor.process(voice, mix, tools.log10, tools.pow10);
    let ghost found = choose|log: Binary32, power: Binary32| #[trigger]
        boost_found(before, rms, tools.log10, tools.pow10, log, power) && *compressor
            == compressor_after(before, gain_wanted(before, rms, power));
    let spectrum = frames.process_frame(lifted.as_slice(), tools.forward);
    assert(spectrum_found(tools.forward, windowed(lifted@, frames@), spectrum));
    (spectrum, Ghost(found))
}

/// Makes a frame of a spectrum and adds it to an output.
fn add_frame<
    L: Fn(Binary32) -> Binary32 + Copy,
    P: Fn(Binary32) -> Binary32 + Copy,
    N: Fn(Complex) -> Binary32 + Copy,
    F: Fn(Vec<Binary32>) -> Vec<Complex> + Copy,
    I: Fn(Vec<Complex>) -> Vec<Binary32> + Copy,
>(
    frames: &OverlapAddProcessor,
    spectrum: Vec<Complex>,
    accum: &mut [Binary32],
    position: usize,
    tools: &Tools<L, P, N, F, I>,
) -> (r: Ghost<Seq<Binary32>>)
    requires
        spectrum@.len() == bins(frames@.len() as usize),
        usable(*tools, frames@.len()),
    ensures
        heard_piece(tools.inverse, spectrum@, r@),
        final(accum)@ == overlap_added(old(accum)@, r@, frames@, position as nat),
{
    let ghost before = accum@;
    let ghost asked = spectrum;
    frames.synthesize(spectrum, accum, position, tools.inverse);
    let ghost piece = choose|y: Vec<Binary32>| #[trigger]
        call_ensures(tools.inverse, (asked,), y) && accum@ == overlap_added(
            before,
            y@,
            frames@,
            position as nat,
        );
    assert(call_ensures(tools.inverse, (asked,), piece));
    Ghost(piece@)
}

impl DspPipeline {
    /// Processes one frame: reads a frame's worth of samples from each input and adds what
    /// comes of them to the outputs, from a position on. `compression_mix` tells how much of
    /// the voice compression is applied. Gives the mean of both masks.
    pub fn process_frame<
        L: Fn(Binary32) -> Binary32 + Copy,
        P: Fn(Binary32) -> Binary32 + Copy,
        N: Fn(Complex) -> Binary32 + Copy,
        F: Fn(Vec<Binary32>) -> Vec<Complex> + Copy,
        I: Fn(Vec<Complex>) -> Vec<Binary32> + Copy,
    >(
        &mut self,
        music_l: &[Binary32],
        music_r: &[Binary32],
        voice_l: &[Binary32],
        voice_r: &[Binary32],
        masking_config: &MaskingConfig,
        music_accum_l: &mut [Binary32],
        music_accum_r: &mut [Binary32],
        voice_accum_l: &mut [Binary32],
        voice_accum_r: &mut [Binary32],
        position: usize,
        compression_mix: Binary32,
        tools: &Tools<L, P, N, F, I>,
    ) -> (r: Binary32)
        requires
            old(self).wf(),
            music_l@.len() == old(self)@.window.len(),
            music_r@.len() == old(self)@.window.len(),
            voice_l@.len() == old(self)@.window.len(),
            voice_r@.len() == old(self)@.window.len(),
            usable(*tools, old(self)@.window.len()),
            reduces(tools.pow10, *masking_config),
            old(self)@.frame_count < u64::MAX,
        ensures
            final(self).wf(),
            exists|heard: FrameHeard| #[trigger]
                frame_heard(
                    *tools,
                    old(self)@,
                    FrameInput {
                        music_l: music_l@,
                        music_r: music_r@,
                        voice_l: voice_l@,
                        voice_r: voice_r@,
                    },
                    *masking_config,
                    compression_mix,
                    heard,
                ) && final(self)@ == pipeline_after(
                    old(self)@,
                    FrameInput {
                        music_l: music_l@,
                        music_r: music_r@,
                        voice_l: voice_l@,
                        voice_r: voice_r@,
                    },
                    *masking_config,
                    heard,
                ) && r == mean_mask(final(self)@, heard.floor, *masking_config) && (Accums {
                    music_l: final(music_accum_l)@,
                    music_r: final(music_accum_r)@,
                    voice_l: final(voice_accum_l)@,
                    voice_r: final(voice_accum_r)@,
                }) == accums_after(
                    Accums {
                        music_l: old(music_accum_l)@,
                        music_r: old(music_accum_r)@,
                        voice_l: old(voice_accum_l)@,
                        voice_r: old(voice_accum_r)@,
                    },
                    old(self)@.window,
                    heard,
                    position as nat,
                ),
    {
        let ghost before = self@;
        let ghost input = FrameInput {
            music_l: music_l@,
            music_r: music_r@,
            voice_l: voice_l@,
            voice_r: voice_r@,
        };
        let ghost sums = Accums {
            music_l: music_accum_l@,
            music_r: music_accum_r@,
            voice_l: voice_accum_l@,
            voice_r: voice_accum_r@,
        };
        let r = self.process_part(
            MusicPart::Left,
            music_l,
            music_r,
            voice_l,
            voice_r,
            masking_config,
            music_accum_l,
            music_accum_r,
            voice_accum_l,
            voice_accum_r,
            position,
            compression_mix,
            tools,
        );
        proof {
            let after = Accums {
                music_l: music_accum_l@,
                music_r: music_accum_r@,
                voice_l: voice_accum_l@,
                voice_r: voice_accum_r@,
            };
            let heard = choose|heard: FrameHeard| #[trigger]
                part_heard(
                    *tools,
                    before,
                    input,
                    *masking_config,
                    compression_mix,
                    MusicPart::Left,
                    heard,
                ) && self@ == pipeline_after(before, input, *masking_config, heard) && r
                    == mean_mask(self@, heard.floor, *masking_config) && after == accums_after(
                    sums,
                    before.window,
                    heard,
                    position as nat,
                );
            assert(frame_heard(
                *tools,
                before,
                input,
                *masking_config,
                compression_mix,
                heard,
            ));
        }
        r
    }

    /// Processes one frame like `process_frame`, and adds a part of the music to the outputs:
    /// what the masks leave of it, or what they take away.
    pub fn process_part<
        L: Fn(Binary32) -> Binary32 + Copy,
        P: Fn(Binary32) -> Binary32 + Copy,
        N: Fn(Complex) -> Binary32 + Copy,
        F: Fn(Vec<Binary32>) -> Vec<Complex> + Copy,
        I: Fn(Vec<Complex>) -> Vec<Binary32> + Copy,
    >(
        &mut self,
        part: MusicPart,
        music_l: &[Binary32],
        music_r: &[Binary32],
        voice_l: &[Binary32],
        voice_r: &[Binary32],
        masking_config: &MaskingConfig,
        music_accum_l: &mut [Binary32],
        music_accum_r: &mut [Binary32],
        voice_accum_l: &mut [Binary32],
        voice_accum_r: &mut [Binary32],
        position: usize,
        compression_mix: Binary32,
        tools: &Tools<L, P, N, F, I>,
    ) -> (r: Binary32)
        requires
            old(self).wf(),
            music_l@.len() == old(self)@.window.len(),
            music_r@.len() == old(self)@.window.len(),
            voice_l@.len() == old(self)@.window.len(),
            voice_r@.len() == old(self)@.window.len(),
            usable(*tools, old(self)@.window.len()),
            reduces(tools.pow10, *masking_config),
            old(self)@.frame_count < u64::MAX,
        ensures
            final(self).wf(),
            exists|heard: FrameHeard| #[trigger]
                part_heard(
                    *tools,
                    old(self)@,
                    FrameInput {
                        music_l: music_l@,
                        music_r: music_r@,
                        voice_l: voice_l@,
                        voice_r: voice_r@,
                    },
                    *masking_config,
                    compression_mix,
                    part,
                    heard,
                ) && final(self)@ == pipeline_after(
                    old(self)@,
                    FrameInput {
                        music_l: music_l@,
                        music_r: music_r@,
                        voice_l: voice_l@,
                        voice_r: voice_r@,
                    },
                    *masking_config,
                    heard,
                ) && r == mean_mask(final(self)@, heard.floor, *masking_config) && (Accums {
                    music_l: final(music_accum_l)@,
                    music_r: final(music_accum_r)@,
                    voice_l: final(voice_accum_l)@,
                    voice_r: final(voice_accum_r)@,
                }) == accums_after(
                    Accums {
                        music_l: old(music_accum_l)@,
                        music_r: old(music_accum_r)@,
                        voice_l: old(voice_accum_l)@,
                        voice_r: old(voice_accum_r)@,
                    },
                    old(self)@.window,
                    heard,
                    position as nat,
                ),
    {
        let ghost before = self@;
        let ghost input = FrameInput {
            music_l: music_l@,
            music_r: music_r@,
            voice_l: voice_l@,
            voice_r: voice_r@,
        };
        let (voice_spectrum_l, Ghost(found_l)) = voice_spectrum(
            &self.frames,
            &mut self.voice_compressor_l,
            voice_l,
            compression_mix,
            tools,
        );
        let (voice_spectrum_r, Ghost(found_r)) = voice_spectrum(
            &self.frames,
            &mut self.voice_compressor_r,
            voice_r,
            compression_mix,
            tools,
        );
        let music_spectrum_l = self.frames.process_frame(music_l, tools.forward);
        let music_spectrum_r = self.frames.process_frame(music_r, tools.forward);

        let gate_value = self.voice_gate.update_stereo(
            voice_spectrum_l.as_slice(),
            voice_spectrum_r.as_slice(),
            tools.log10,
        );
        let ghost gate_log = choose|log: Binary32| #[trigger]
            call_ensures(
                tools.log10,
                (audible(louder(voice_spectrum_l@, voice_spectrum_r@)),),
                log,
            ) && self.voice_gate == gate_after(before.gate, decibel(log));
        let floor = db_to_gain(masking_config.max_reduction_db, tools.pow10);

        let voice_mag_l = magnitudes(&voice_spectrum_l, tools.norm);
        let music_mag_l = magnitudes(&music_spectrum_l, tools.norm);
        let mask_l = self.spectral_mask_l.build_mask(
            voice_mag_l.as_slice(),
            music_mag_l.as_slice(),
            gate_value,
            masking_config,
            floor,
        );
        let Ghost(music_piece_l) = add_frame(
            &self.frames,
            pick_part(part, &music_spectrum_l, &mask_l),
            music_accum_l,
            position,
            tools,
        );
        let avg_l = mean(&mask_l);
        let min_l = lowest_of(&mask_l);

        let voice_mag_r = magnitudes(&voice_spectrum_r, tools.norm);
        let music_mag_r = magnitudes(&music_spectrum_r, tools.norm);
        let mask_r = self.spectral_mask_r.build_mask(
            voice_mag_r.as_slice(),
            music_mag_r.as_slice(),
            gate_value,
            masking_config,
            floor,
        );
        let Ghost(music_piece_r) = add_frame(
            &self.frames,
            pick_part(part, &music_spectrum_r, &mask_r),
            music_accum_r,
            position,
            tools,
        );
        let avg_r = mean(&mask_r);
        let min_r = lowest_of(&mask_r);

        self.mask_min = self.mask_min.min(min_l).min(min_r);
        self.frame_count = self.frame_count + 1;

        let ghost spectrum_l = voice_spectrum_l@;
        let ghost spectrum_r = voice_spectrum_r@;
        let Ghost(voice_piece_l) = add_frame(
            &self.frames,
            voice_spectrum_l,
            voice_accum_l,
            position,
            tools,
        );
        let Ghost(voice_piece_r) = add_frame(
            &self.frames,
            voice_spectrum_r,
            voice_accum_r,
            position,
            tools,
        );
        let ghost heard = FrameHeard {
            left: ChannelHeard {
                log: found_l.0,
                power: found_l.1,
                voice: spectrum_l,
                music: music_spectrum_l@,
                voice_mag: voice_mag_l@,
                music_mag: music_mag_l@,
                music_piece: music_piece_l,
                voice_piece: voice_piece_l,
            },
            right: ChannelHeard {
                log: found_r.0,
                power: found_r.1,
                voice: spectrum_r,
                music: music_spectrum_r@,
                voice_mag: voice_mag_r@,
                music_mag: music_mag_r@,
                music_piece: music_piece_r,
                voice_piece: voice_piece_r,
            },
            gate_log,
            floor,
        };
        proof {
            reveal(pipeline_after);
            reveal(part_heard);
            assert(heard_spectrum(
                tools.forward,
                windowed(music_l@, before.window),
                music_spectrum_l@,
            ));
            assert(heard_spectrum(
                tools.forward,
                windowed(music_r@, before.window),
                music_spectrum_r@,
            ));
            assert(self@ == pipeline_after(before, input, *masking_config, heard));
            assert(part_heard(
                *tools,
                before,
                input,
                *masking_config,
                compression_mix,
                part,
                heard,
            ));
        }
        avg_l.plus(avg_r).times(Binary32 { bits: HALF })
    }
}

/// The magnitudes of the bins of a spectrum.
fn magnitudes<N: Fn(Complex) -> Binary32>(spectrum: &Vec<Complex>, norm: N) -> (r: Vec<Binary32>)
    requires
        forall|x: Complex| #[trigger] call_requires(norm, (x,)),
    ensures
        heard_norms(norm, spectrum@, r@),
{
    let mut mags: Vec<Binary32> = Vec::new();
    while mags.len() < spectrum.len()
        invariant
            mags.len() <= spectrum.len(),
            forall|x: Complex| #[trigger] call_requires(norm, (x,)),
            forall|k: int|
                0 <= k < mags.len() ==> call_ensures(norm, (spectrum@[k],), #[trigger] mags@[k]),
        decreases spectrum.len() - mags.len(),
    {
        let k: usize = mags.len();
        let mag = norm(spectrum[k]);
        mags.push(mag);
    }
    mags
}

/// Applies a mask to a spectrum.
fn apply_mask(spectrum: &Vec<Complex>, mask: &Vec<Binary32>) -> (r: Vec<Complex>)
    requires
        mask.len() == spectrum.len(),
    ensures
        r@ == masked(spectrum@, mask@),
{
    let mut out: Vec<Complex> = Vec::new();
    while out.len() < spectrum.len()
        invariant
            mask.len() == spectrum.len(),
            out.len() <= spectrum.len(),
            forall|k: int| 0 <= k < out.len() ==> out@[k] == masked(spectrum@, mask@)[k],
        decreases spectrum.len() - out.len(),
    {
        let k: usize = out.len();
        let bin = spectrum[k];
        let m = mask[k];
        out.push(Complex { re: bin.re.times(m), im: bin.im.times(m) });
    }
    assert(out@ =~= masked(spectrum@, mask@));
    out
}

/// What a mask takes away from a spectrum.
fn take_away(spectrum: &Vec<Complex>, mask: &Vec<Binary32>) -> (r: Vec<Complex>)
    requires
        mask.len() == spectrum.len(),
    ensures
        r@ == taken(spectrum@, mask@),
{
    let mut out: Vec<Complex> = Vec::new();
    while out.len() < spectrum.len()
        invariant
            mask.len() == spectrum.len(),
            out.len() <= spectrum.len(),
            forall|k: int| 0 <= k < out.len() ==> out@[k] == taken(spectrum@, mask@)[k],
        decreases spectrum.len() - out.len(),
    {
        let k: usize = out.len();
        let bin = spectrum[k];
        let m = mask[k];
        if m == (Binary32 { bits: ONE }) {
            out.push(Complex { re: Binary32 { bits: 0 }, im: Binary32 { bits: 0 } });
        } else {
            let rest = (Binary32 { bits: ONE }).minus(m);
            out.push(Complex { re: bin.re.times(rest), im: bin.im.times(rest) });
        }
    }
    assert(out@ =~= taken(spectrum@, mask@));
    out
}

/// A part of a spectrum under a mask.
fn pick_part(part: MusicPart, spectrum: &Vec<Complex>, mask: &Vec<Binary32>) -> (r: Vec<Complex>)
    requires
        mask.len() == spectrum.len(),
    ensures
        r@ == part_of(part, spectrum@, mask@),
{
    match part {
        MusicPart::Left => apply_mask(spectrum, mask),
        MusicPart::Taken => take_away(spectrum, mask),
    }
}

/// The lowest value of a mask.
fn lowest_of(mask: &Vec<Binary32>) -> (r: Binary32)
    ensures
        r == lowest(mask@),
{
    if mask.len() == 0 {
        return Binary32 { bits: ONE };
    }
    let mut low = mask[0];
    let mut k: usize = 1;
    assert(mask@.take(1).len() == 1);
    while k < mask.len()
        invariant
            1 <= k <= mask.len(),
            low == lowest(mask@.take(k as int)),
        decreases mask.len() - k,
    {
        proof {
            let part = mask@.take(k + 1);
            assert(part.drop_last() =~= mask@.take(k as int));
            assert(part.last() == mask@[k as int]);
        }
        if mask[k].lt(low) {
            low = mask[k];
        }
        k = k + 1;
    }
    assert(mask@.take(mask.len() as int) =~= mask@);
    low
}

/// The mean of a mask.
fn mean(mask: &Vec<Binary32>) -> (r: Binary32)
    ensures
        r == mean_of(mask@),
{
    assert(mask@.subrange(0, mask.len() as int) =~= mask@);
    total_of(mask, 0, mask.len()).over(Binary32::of_count(mask.len()))
}

} // verus!
