//! Processing of whole recordings.

use crate::arith::{difference, quotient};
use crate::binary32::{lemma_mag_order, Binary32, INFINITE, ONE};
use crate::blend::{one, zero};
use crate::config::{hop_of, Config, MaskingConfig};
use crate::fft::weights_added;
use crate::level::Complex;
use crate::mixer::{db_to_gain, gain_exponent, mixed};
use crate::pipeline::{
    accums_after, fresh_pipeline, lemma_pipeline_after, mean_mask, part_heard, pipeline_after,
    reduces, usable, Accums, DspPipeline, FrameHeard, FrameInput, MusicPart, PipelineView, Tools,
};
use crate::realtime::silent_accums;
use crate::stream::{resize, resized, silence, silent};
use crate::text::{decimal, format_id};
use vstd::prelude::*;
use vstd::slice::slice_subrange;
use vstd::string::*;

verus! {

/// A stereo recording.
#[derive(Debug)]
pub struct Recording {
    pub left: Vec<Binary32>,
    pub right: Vec<Binary32>,
    pub sample_rate: u32,
}

/// Why recordings cannot be processed: a sample rate that is not the one that is set.
#[derive(Debug, Clone, Copy, PartialEq, Eq)]
pub enum OfflineError {
    MusicRate { found: u32, expected: u32 },
    VoiceRate { found: u32, expected: u32 },
}

/// What is said where a recording has another sample rate than the one that is set.
pub open spec fn rate_words(what: Seq<char>, found: u32, expected: u32) -> Seq<char> {
    what + " sample rate ("@ + decimal(found as nat) + ") doesn't match config ("@ + decimal(
        expected as nat,
    ) + ")"@
}

impl OfflineError {
    /// The error in words.
    pub fn words(&self) -> (r: String)
        ensures
            r@ == match *self {
                OfflineError::MusicRate { found, expected } => rate_words(
                    "Music"@,
                    found,
                    expected,
                ),
                OfflineError::VoiceRate { found, expected } => rate_words(
                    "Voice"@,
                    found,
                    expected,
                ),
            },
    {
        let (what, found, expected) = match *self {
            OfflineError::MusicRate { found, expected } => ("Music", found, expected),
            OfflineError::VoiceRate { found, expected } => ("Voice", found, expected),
        };
        let mut r = String::from_str(what);
        r.append(" sample rate (");
        r.append(format_id(found).as_str());
        r.append(") doesn't match config (");
        r.append(format_id(expected).as_str());
        r.append(")");
        r
    }
}

/// What comes of two recordings.
#[derive(Debug)]
pub struct OfflineResult {
    pub left: Vec<Binary32>,
    pub right: Vec<Binary32>,
    /// How many frames were processed.
    pub frame_count: u64,
    /// The mean of both masks of each frame.
    pub mask_means: Vec<Binary32>,
    /// The lowest mask value of all frames.
    pub mask_min: Binary32,
}

/// The length of the longer of two recordings.
pub open spec fn longer(music: Recording, voice: Recording) -> nat {
    if music.left@.len() >= voice.left@.len() {
        music.left@.len()
    } else {
        voice.left@.len()
    }
}

/// Whether both recordings have the sample rate that is set.
pub open spec fn rates_match(music: Recording, voice: Recording, config: Config) -> bool {
    music.sample_rate == config.processing.sample_rate && voice.sample_rate
        == config.processing.sample_rate
}

/// Both recordings, brought to the length of the longer one.
pub open spec fn padded(music: Recording, voice: Recording) -> FrameInput {
    let len = longer(music, voice);
    FrameInput {
        music_l: resized(music.left@, len),
        music_r: resized(music.right@, len),
        voice_l: resized(voice.left@, len),
        voice_r: resized(voice.right@, len),
    }
}

/// How much silence stands before a recording, so that its first samples lie in as many frames
/// as the others.
pub open spec fn lead_in(fft_size: nat, hop_size: nat) -> nat {
    if hop_size < fft_size {
        (fft_size - hop_size) as nat
    } else {
        0
    }
}

/// A recording with silence before and after it.
pub open spec fn between_silence(samples: Seq<Binary32>, before: nat, after: nat) -> Seq<Binary32> {
    silent(before) + samples + silent(after)
}

/// Both recordings with silence around them, in which the first frame begins the lead-in and
/// each frame that begins before the end has its full length.
pub open spec fn surrounded(src: FrameInput, fft_size: nat, hop_size: nat) -> FrameInput {
    let lead = lead_in(fft_size, hop_size);
    FrameInput {
        music_l: between_silence(src.music_l, lead, fft_size),
        music_r: between_silence(src.music_r, lead, fft_size),
        voice_l: between_silence(src.voice_l, lead, fft_size),
        voice_r: between_silence(src.voice_r, lead, fft_size),
    }
}

/// How many frames it takes to cover recordings of a length, each beginning a hop after the one
/// before it. Without a hop there are none.
pub open spec fn frames_covering(total: nat, fft_size: nat, hop_size: nat) -> nat {
    if total == 0 || hop_size == 0 {
        0
    } else {
        (lead_in(fft_size, hop_size) + total - 1) as nat / hop_size + 1
    }
}

/// What the squared windows of a number of frames add up to.
pub open spec fn weights_after(
    window: Seq<Binary32>,
    hop_size: nat,
    frames: nat,
    len: nat,
) -> Seq<Binary32>
    decreases frames,
{
    if frames == 0 {
        silent(len)
    } else {
        weights_added(
            weights_after(window, hop_size, (frames - 1) as nat, len),
            window,
            ((frames - 1) * hop_size) as nat,
        )
    }
}

/// Whether frames reach a sample: a sum can be divided by what their squared windows add up to.
pub open spec fn reached(weight: Binary32) -> bool {
    zero().less(weight) && weight.finite()
}

/// What is left of a sample of the music after the masks took something away. Where no frame
/// reaches, it is the sample.
pub open spec fn music_left(sample: Binary32, taken: Binary32, weight: Binary32) -> Binary32 {
    if reached(weight) {
        difference(sample, quotient(taken, weight))
    } else {
        sample
    }
}

/// A sample of the voice, of what frames add up to. Where no frame reaches, it is the sample.
pub open spec fn voice_back(sample: Binary32, added: Binary32, weight: Binary32) -> Binary32 {
    if reached(weight) {
        quotient(added, weight)
    } else {
        sample
    }
}

/// One channel of the result: the music less what the masks took away, and the voice.
pub open spec fn blended_channel(
    music: Seq<Binary32>,
    voice: Seq<Binary32>,
    taken: Seq<Binary32>,
    added: Seq<Binary32>,
    weights: Seq<Binary32>,
    lead: nat,
    music_gain: Binary32,
    voice_gain: Binary32,
) -> Seq<Binary32> {
    Seq::new(
        music.len(),
        |i: int|
            mixed(
                music_left(music[i], taken[lead + i], weights[lead + i]),
                voice_back(voice[i], added[lead + i], weights[lead + i]),
                music_gain,
                voice_gain,
            ),
    )
}

/// A frame of recordings.
pub open spec fn cut(src: FrameInput, at: int, len: nat) -> FrameInput {
    FrameInput {
        music_l: src.music_l.subrange(at, at + len),
        music_r: src.music_r.subrange(at, at + len),
        voice_l: src.voice_l.subrange(at, at + len),
        voice_r: src.voice_r.subrange(at, at + len),
    }
}

/// The processing and its outputs, part of the way through recordings.
pub ghost struct Run {
    pub pipeline: PipelineView,
    pub accums: Accums,
}

/// The processing and its outputs after as many frames as something was heard of.
pub open spec fn run_after(
    start: Run,
    src: FrameInput,
    masking: MaskingConfig,
    hop_size: nat,
    heard: Seq<FrameHeard>,
) -> Run
    decreases heard.len(),
{
    if heard.len() == 0 {
        start
    } else {
        let r = run_after(start, src, masking, hop_size, heard.drop_last());
        let at = (heard.len() - 1) * hop_size;
        let window = start.pipeline.window;
        Run {
            pipeline: pipeline_after(
                r.pipeline,
                cut(src, at, window.len()),
                masking,
                heard.last(),
            ),
            accums: accums_after(r.accums, window, heard.last(), at as nat),
        }
    }
}

/// Whether the functions gave all that is said of a frame of recordings.
pub open spec fn frame_of_run_heard<
    L: Fn(Binary32) -> Binary32,
    P: Fn(Binary32) -> Binary32,
    N: Fn(Complex) -> Binary32,
    F: Fn(Vec<Binary32>) -> Vec<Complex>,
    I: Fn(Vec<Complex>) -> Vec<Binary32>,
>(
    tools: Tools<L, P, N, F, I>,
    start: Run,
    src: FrameInput,
    masking: MaskingConfig,
    hop_size: nat,
    heard: Seq<FrameHeard>,
    i: int,
) -> bool {
    part_heard(
        tools,
        run_after(start, src, masking, hop_size, heard.take(i)).pipeline,
        cut(src, i * hop_size, start.pipeline.window.len()),
        masking,
        one(),
        MusicPart::Taken,
        heard[i],
    )
}

/// Whether the functions gave all that is said of all frames.
pub open spec fn run_heard<
    L: Fn(Binary32) -> Binary32,
    P: Fn(Binary32) -> Binary32,
    N: Fn(Complex) -> Binary32,
    F: Fn(Vec<Binary32>) -> Vec<Complex>,
    I: Fn(Vec<Complex>) -> Vec<Binary32>,
>(
    tools: Tools<L, P, N, F, I>,
    start: Run,
    src: FrameInput,
    masking: MaskingConfig,
    hop_size: nat,
    heard: Seq<FrameHeard>,
) -> bool {
    forall|i: int|
        0 <= i < heard.len() ==> #[trigger] frame_of_run_heard(
            tools,
            start,
            src,
            masking,
            hop_size,
            heard,
            i,
        )
}

/// Whether the mean masks of all frames are what they should be.
pub open spec fn means_of_run(
    start: Run,
    src: FrameInput,
    masking: MaskingConfig,
    hop_size: nat,
    heard: Seq<FrameHeard>,
    means: Seq<Binary32>,
) -> bool {
    means.len() == heard.len() && forall|i: int|
        0 <= i < heard.len() ==> #[trigger] means[i] == mean_mask(
            run_after(start, src, masking, hop_size, heard.take(i + 1)).pipeline,
            heard[i].floor,
            masking,
        )
}

/// The processing before the first frame of recordings of a length.
pub open spec fn run_start(fresh: PipelineView, config: Config, total: nat) -> Run {
    let fft_size = config.processing.fft_size as nat;
    let lead = lead_in(fft_size, hop_of(config) as nat);
    Run { pipeline: fresh, accums: silent_accums(lead + total + fft_size) }
}

/// Whether a result is what comes of recordings, by what the functions gave.
pub open spec fn offline_outcome(
    fresh: PipelineView,
    src: FrameInput,
    config: Config,
    heard: Seq<FrameHeard>,
    music_gain: Binary32,
    voice_gain: Binary32,
    r: OfflineResult,
) -> bool {
    let fft_size = config.processing.fft_size as nat;
    let hop = hop_of(config) as nat;
    let total = src.music_l.len();
    let lead = lead_in(fft_size, hop);
    let around = surrounded(src, fft_size, hop);
    let start = run_start(fresh, config, total);
    let end = run_after(start, around, config.masking, hop, heard);
    let weights = weights_after(fresh.window, hop, heard.len(), lead + total + fft_size);
    &&& heard.len() == frames_covering(total, fft_size, hop)
    &&& r.left@ == blended_channel(
        src.music_l,
        src.voice_l,
        end.accums.music_l,
        end.accums.voice_l,
        weights,
        lead,
        music_gain,
        voice_gain,
    )
    &&& r.right@ == blended_channel(
        src.music_r,
        src.voice_r,
        end.accums.music_r,
        end.accums.voice_r,
        weights,
        lead,
        music_gain,
        voice_gain,
    )
    &&& r.frame_count == heard.len()
    &&& r.mask_min == end.pipeline.mask_min
    &&& means_of_run(start, around, config.masking, hop, heard, r.mask_means@)
}

/// Whether a pipeline and gains are those of some settings, and what is said of the frames and
/// the result is right.
#[verifier::opaque]
pub open spec fn offline_found<
    L: Fn(Binary32) -> Binary32,
    P: Fn(Binary32) -> Binary32,
    N: Fn(Complex) -> Binary32,
    F: Fn(Vec<Binary32>) -> Vec<Complex>,
    I: Fn(Vec<Complex>) -> Vec<Binary32>,
    E: Fn(Binary32) -> Binary32,
    C: Fn(Binary32) -> Binary32,
>(
    tools: Tools<L, P, N, F, I>,
    exp: E,
    cos: C,
    src: FrameInput,
    config: Config,
    fresh: PipelineView,
    heard: Seq<FrameHeard>,
    music_gain: Binary32,
    voice_gain: Binary32,
    r: OfflineResult,
) -> bool {
    let fft_size = config.processing.fft_size as nat;
    let hop = hop_of(config) as nat;
    let start = run_start(fresh, config, src.music_l.len());
    &&& fresh_pipeline(fresh, config, tools.log10, exp, cos)
    &&& call_ensures(tools.pow10, (gain_exponent(config.output.music_gain_db),), music_gain)
    &&& call_ensures(tools.pow10, (gain_exponent(config.output.voice_gain_db),), voice_gain)
    &&& run_heard(tools, start, surrounded(src, fft_size, hop), config.masking, hop, heard)
    &&& offline_outcome(fresh, src, config, heard, music_gain, voice_gain, r)
}

/// A run with one frame more.
proof fn lemma_run(
    start: Run,
    src: FrameInput,
    masking: MaskingConfig,
    hop_size: nat,
    heard: Seq<FrameHeard>,
    h: FrameHeard,
)
    ensures
        run_after(start, src, masking, hop_size, heard.push(h)) == ({
            let r = run_after(start, src, masking, hop_size, heard);
            let at = heard.len() * hop_size;
            Run {
                pipeline: pipeline_after(
                    r.pipeline,
                    cut(src, at as int, start.pipeline.window.len()),
                    masking,
                    h,
                ),
                accums: accums_after(r.accums, start.pipeline.window, h, at as nat),
            }
        }),
{
    assert(heard.push(h).drop_last() =~= heard);
}

/// A recording with silence before and after it.
fn surround(samples: &Vec<Binary32>, before: usize, after: usize) -> (r: Vec<Binary32>)
    requires
        before + samples@.len() + after <= usize::MAX,
    ensures
        r@ == between_silence(samples@, before as nat, after as nat),
{
    let mut out = silence(before);
    let ghost lead = out@;
    let mut i: usize = 0;
    assert(lead + samples@.take(0) =~= lead);
    while i < samples.len()
        invariant
            i <= samples@.len(),
            out@ == lead + samples@.take(i as int),
        decreases samples@.len() - i,
    {
        assert(samples@.take(i + 1) =~= samples@.take(i as int).push(samples@[i as int]));
        out.push(samples[i]);
        assert(out@ =~= lead + samples@.take(i + 1));
        i = i + 1;
    }
    assert(samples@.take(samples@.len() as int) =~= samples@);
    let len: usize = before + samples.len() + after;
    resize(&mut out, len);
    assert(out@ =~= between_silence(samples@, before as nat, after as nat));
    out
}

/// One channel of the result.
fn blend_channel(
    music: &Vec<Binary32>,
    voice: &Vec<Binary32>,
    taken: &Vec<Binary32>,
    added: &Vec<Binary32>,
    weights: &Vec<Binary32>,
    lead: usize,
    music_gain: Binary32,
    voice_gain: Binary32,
) -> (r: Vec<Binary32>)
    requires
        voice@.len() == music@.len(),
        lead + music@.len() <= taken@.len(),
        added@.len() == taken@.len(),
        weights@.len() == taken@.len(),
    ensures
        r@ == blended_channel(
            music@,
            voice@,
            taken@,
            added@,
            weights@,
            lead as nat,
            music_gain,
            voice_gain,
        ),
{
    let ghost all = blended_channel(
        music@,
        voice@,
        taken@,
        added@,
        weights@,
        lead as nat,
        music_gain,
        voice_gain,
    );
    let zero = Binary32 { bits: 0 };
    let infinite = Binary32 { bits: INFINITE };
    let mut out: Vec<Binary32> = Vec::new();
    while out.len() < music.len()
        invariant
            voice@.len() == music@.len(),
            lead + music@.len() <= taken@.len(),
            added@.len() == taken@.len(),
            weights@.len() == taken@.len(),
            zero == (Binary32 { bits: 0 }),
            infinite == (Binary32 { bits: INFINITE }),
            all == blended_channel(
                music@,
                voice@,
                taken@,
                added@,
                weights@,
                lead as nat,
                music_gain,
                voice_gain,
            ),
            out@.len() <= music@.len(),
            forall|i: int| 0 <= i < out@.len() ==> out@[i] == all[i],
        decreases music@.len() - out@.len(),
    {
        let i: usize = out.len();
        assert(lead + i < taken.len());
        let weight = weights[lead + i];
        let mut m = music[i];
        let mut v = voice[i];
        proof {
            lemma_mag_order(weight.code(), INFINITE as nat);
            lemma_mag_order(0, weight.code());
        }
        if zero.lt(weight) && weight.lt(infinite) {
            assert(reached(weight));
            m = m.minus(taken[lead + i].over(weight));
            v = added[lead + i].over(weight);
        } else {
            assert(!reached(weight));
        }
        out.push(m.times(music_gain).plus(v.times(voice_gain)));
    }
    assert(out@ =~= all);
    out
}

/// Four channels of samples.
struct Channels {
    music_l: Vec<Binary32>,
    music_r: Vec<Binary32>,
    voice_l: Vec<Binary32>,
    voice_r: Vec<Binary32>,
}

impl Channels {
    /// The channels as inputs.
    spec fn input(&self) -> FrameInput {
        FrameInput {
            music_l: self.music_l@,
            music_r: self.music_r@,
            voice_l: self.voice_l@,
            voice_r: self.voice_r@,
        }
    }

    /// The channels as sums.
    spec fn sums(&self) -> Accums {
        Accums {
            music_l: self.music_l@,
            music_r: self.music_r@,
            voice_l: self.voice_l@,
            voice_r: self.voice_r@,
        }
    }

    /// Whether all channels have a length.
    spec fn have_len(&self, len: nat) -> bool {
        &&& self.music_l@.len() == len
        &&& self.music_r@.len() == len
        &&& self.voice_l@.len() == len
        &&& self.voice_r@.len() == len
    }
}

/// Whether all frames that cover recordings of a length were processed.
#[verifier::opaque]
spec fn frames_run<
    L: Fn(Binary32) -> Binary32,
    P: Fn(Binary32) -> Binary32,
    N: Fn(Complex) -> Binary32,
    F: Fn(Vec<Binary32>) -> Vec<Complex>,
    I: Fn(Vec<Complex>) -> Vec<Binary32>,
>(
    tools: Tools<L, P, N, F, I>,
    fresh: PipelineView,
    around: FrameInput,
    config: Config,
    total: nat,
    heard: Seq<FrameHeard>,
    means: Seq<Binary32>,
    after: PipelineView,
    sums: Accums,
    weights: Seq<Binary32>,
) -> bool {
    let fft_size = config.processing.fft_size as nat;
    let hop = hop_of(config) as nat;
    let start = run_start(fresh, config, total);
    &&& heard.len() == frames_covering(total, fft_size, hop)
    &&& run_after(start, around, config.masking, hop, heard) == (Run {
        pipeline: after,
        accums: sums,
    })
    &&& after.frame_count == heard.len()
    &&& weights == weights_after(
        fresh.window,
        hop,
        heard.len(),
        lead_in(fft_size, hop) + total + fft_size,
    )
    &&& run_heard(tools, start, around, config.masking, hop, heard)
    &&& means_of_run(start, around, config.masking, hop, heard, means)
}

/// Processes all frames that cover recordings of a length. Gives the mean masks.
fn run_frames<
    L: Fn(Binary32) -> Binary32 + Copy,
    P: Fn(Binary32) -> Binary32 + Copy,
    N: Fn(Complex) -> Binary32 + Copy,
    F: Fn(Vec<Binary32>) -> Vec<Complex> + Copy,
    I: Fn(Vec<Complex>) -> Vec<Binary32> + Copy,
>(
    pipeline: &mut DspPipeline,
    around: &Channels,
    sums: &mut Channels,
    weights: &mut Vec<Binary32>,
    total_len: usize,
    lead: usize,
    config: &Config,
    tools: &Tools<L, P, N, F, I>,
) -> (r: (Vec<Binary32>, Ghost<Seq<FrameHeard>>))
    requires
        config.processing.fft_size >= 1,
        old(pipeline).wf(),
        old(pipeline)@.window.len() == config.processing.fft_size,
        old(pipeline)@.frame_count == 0,
        lead == lead_in(config.processing.fft_size as nat, hop_of(*config) as nat),
        lead + total_len + config.processing.fft_size <= usize::MAX,
        around.have_len((lead + total_len + config.processing.fft_size) as nat),
        old(sums).have_len((lead + total_len + config.processing.fft_size) as nat),
        old(sums).sums() == silent_accums((lead + total_len + config.processing.fft_size) as nat),
        old(weights)@ == silent((lead + total_len + config.processing.fft_size) as nat),
        usable(*tools, config.processing.fft_size as nat),
        total_len >= 1 && hop_of(*config) >= 1 ==> reduces(tools.pow10, config.masking),
    ensures
        frames_run(
            *tools,
            old(pipeline)@,
            around.input(),
            *config,
            total_len as nat,
            r.1@,
            r.0@,
            final(pipeline)@,
            final(sums).sums(),
            final(weights)@,
        ),
        final(sums).have_len((lead + total_len + config.processing.fft_size) as nat),
        final(weights)@.len() == lead + total_len + config.processing.fft_size,
{
    let fft_size = config.processing.fft_size;
    let hop_size = config.hop_size();
    let ghost fresh = pipeline@;
    let ghost src = around.input();
    let ghost len = (lead + total_len + fft_size) as nat;
    let ghost hop = hop_size as nat;
    let ghost masking = config.masking;
    let ghost start = run_start(fresh, *config, total_len as nat);
    let mut mask_means: Vec<Binary32> = Vec::new();
    let ghost mut heard: Seq<FrameHeard> = Seq::empty();
    let mut pos: usize = 0;
    let mut more = total_len >= 1 && hop_size >= 1;
    proof {
        assert(run_after(start, src, masking, hop, heard) == start);
        assert(0 * hop == 0) by (nonlinear_arith);
    }
    while more
        invariant
            fft_size >= 1,
            fft_size == fresh.window.len(),
            lead == lead_in(fft_size as nat, hop),
            lead + total_len + fft_size <= usize::MAX,
            len == lead + total_len + fft_size,
            hop == hop_size,
            masking == config.masking,
            src == around.input(),
            around.have_len(len),
            sums.have_len(len),
            usable(*tools, fft_size as nat),
            total_len >= 1 && hop_size >= 1 ==> reduces(tools.pow10, config.masking),
            pipeline.wf(),
            start.pipeline == fresh,
            run_after(start, src, masking, hop, heard) == (Run {
                pipeline: pipeline@,
                accums: sums.sums(),
            }),
            pipeline@.window == fresh.window,
            pipeline@.frame_count == heard.len(),
            weights@ == weights_after(fresh.window, hop, heard.len(), len),
            weights@.len() == len,
            run_heard(*tools, start, src, masking, hop, heard),
            means_of_run(start, src, masking, hop, heard, mask_means@),
            more ==> pos == heard.len() * hop && pos < lead + total_len && hop_size >= 1
                && total_len >= 1,
            !more ==> heard.len() == frames_covering(total_len as nat, fft_size as nat, hop),
        decreases (if more { len - pos + 1 } else { 0 }),
    {
        let ghost before = pipeline@;
        let ghost accums = sums.sums();
        proof {
            assert(heard.len() <= pos) by (nonlinear_arith)
                requires
                    pos == heard.len() * hop,
                    hop >= 1,
            ;
        }
        let ghost frame = cut(src, pos as int, fft_size as nat);
        pipeline.add_weights(weights.as_mut_slice(), pos);
        let mean = pipeline.process_part(
            MusicPart::Taken,
            slice_subrange(around.music_l.as_slice(), pos, pos + fft_size),
            slice_subrange(around.music_r.as_slice(), pos, pos + fft_size),
            slice_subrange(around.voice_l.as_slice(), pos, pos + fft_size),
            slice_subrange(around.voice_r.as_slice(), pos, pos + fft_size),
            &config.masking,
            sums.music_l.as_mut_slice(),
            sums.music_r.as_mut_slice(),
            sums.voice_l.as_mut_slice(),
            sums.voice_r.as_mut_slice(),
            pos,
            Binary32 { bits: ONE },
            tools,
        );
        let ghost h = choose|h: FrameHeard| #[trigger]
            part_heard(*tools, before, frame, masking, one(), MusicPart::Taken, h) && pipeline@
                == pipeline_after(before, frame, masking, h) && mean == mean_mask(
                pipeline@,
                h.floor,
                masking,
            ) && sums.sums() == accums_after(accums, before.window, h, pos as nat);
        let ghost means = mask_means@;
        mask_means.push(mean);
        proof {
            lemma_run(start, src, masking, hop, heard, h);
            lemma_pipeline_after(before, frame, masking, h);
            assert(mask_means@.drop_last() =~= means);
            lemma_run_longer(*tools, start, src, masking, hop, heard, h, mask_means@);
            lemma_frames(total_len as nat, fft_size as nat, hop, heard.len());
            heard = heard.push(h);
        }
        if hop_size < lead + total_len - pos {
            pos = pos + hop_size;
        } else {
            more = false;
        }
    }
    proof {
        reveal(frames_run);
    }
    (mask_means, Ghost(heard))
}

/// What is said of the frames of a run holds with one frame more.
proof fn lemma_run_longer<
    L: Fn(Binary32) -> Binary32,
    P: Fn(Binary32) -> Binary32,
    N: Fn(Complex) -> Binary32,
    F: Fn(Vec<Binary32>) -> Vec<Complex>,
    I: Fn(Vec<Complex>) -> Vec<Binary32>,
>(
    tools: Tools<L, P, N, F, I>,
    start: Run,
    src: FrameInput,
    masking: MaskingConfig,
    hop_size: nat,
    heard: Seq<FrameHeard>,
    h: FrameHeard,
    means: Seq<Binary32>,
)
    requires
        run_heard(tools, start, src, masking, hop_size, heard),
        means.len() == heard.len() + 1,
        means_of_run(start, src, masking, hop_size, heard, means.drop_last()),
        part_heard(
            tools,
            run_after(start, src, masking, hop_size, heard).pipeline,
            cut(src, (heard.len() * hop_size) as int, start.pipeline.window.len()),
            masking,
            one(),
            MusicPart::Taken,
            h,
        ),
        means.last() == mean_mask(
            run_after(start, src, masking, hop_size, heard.push(h)).pipeline,
            h.floor,
            masking,
        ),
    ensures
        run_heard(tools, start, src, masking, hop_size, heard.push(h)),
        means_of_run(start, src, masking, hop_size, heard.push(h), means),
{
    let longer_heard = heard.push(h);
    assert forall|i: int| 0 <= i < longer_heard.len() implies #[trigger] frame_of_run_heard(
        tools,
        start,
        src,
        masking,
        hop_size,
        longer_heard,
        i,
    ) by {
        assert(longer_heard.take(i) =~= heard.take(i));
        if i < heard.len() {
            assert(frame_of_run_heard(tools, start, src, masking, hop_size, heard, i));
        } else {
            assert(heard.take(i) =~= heard);
        }
    }
    assert forall|i: int| 0 <= i < longer_heard.len() implies #[trigger] means[i] == mean_mask(
        run_after(start, src, masking, hop_size, longer_heard.take(i + 1)).pipeline,
        longer_heard[i].floor,
        masking,
    ) by {
        if i < heard.len() {
            assert(means.drop_last()[i] == means[i]);
            assert(longer_heard.take(i + 1) =~= heard.take(i + 1));
        } else {
            assert(longer_heard.take(i + 1) =~= longer_heard);
        }
    }
}

/// What makes up a result.
proof fn lemma_found<
    L: Fn(Binary32) -> Binary32,
    P: Fn(Binary32) -> Binary32,
    N: Fn(Complex) -> Binary32,
    F: Fn(Vec<Binary32>) -> Vec<Complex>,
    I: Fn(Vec<Complex>) -> Vec<Binary32>,
    E: Fn(Binary32) -> Binary32,
    C: Fn(Binary32) -> Binary32,
>(
    tools: Tools<L, P, N, F, I>,
    exp: E,
    cos: C,
    src: FrameInput,
    config: Config,
    fresh: PipelineView,
    heard: Seq<FrameHeard>,
    music_gain: Binary32,
    voice_gain: Binary32,
    after: PipelineView,
    sums: Accums,
    weights: Seq<Binary32>,
    r: OfflineResult,
)
    requires
        fresh_pipeline(fresh, config, tools.log10, exp, cos),
        call_ensures(tools.pow10, (gain_exponent(config.output.music_gain_db),), music_gain),
        call_ensures(tools.pow10, (gain_exponent(config.output.voice_gain_db),), voice_gain),
        frames_run(
            tools,
            fresh,
            surrounded(src, config.processing.fft_size as nat, hop_of(config) as nat),
            config,
            src.music_l.len(),
            heard,
            r.mask_means@,
            after,
            sums,
            weights,
        ),
        r.left@ == blended_channel(
            src.music_l,
            src.voice_l,
            sums.music_l,
            sums.voice_l,
            weights,
            lead_in(config.processing.fft_size as nat, hop_of(config) as nat),
            music_gain,
            voice_gain,
        ),
        r.right@ == blended_channel(
            src.music_r,
            src.voice_r,
            sums.music_r,
            sums.voice_r,
            weights,
            lead_in(config.processing.fft_size as nat, hop_of(config) as nat),
            music_gain,
            voice_gain,
        ),
        r.frame_count == after.frame_count,
        r.mask_min == after.mask_min,
    ensures
        offline_found(tools, exp, cos, src, config, fresh, heard, music_gain, voice_gain, r),
{
    reveal(offline_found);
    reveal(frames_run);
}

/// Processes recordings of one length.
fn process_padded<
    L: Fn(Binary32) -> Binary32 + Copy,
    P: Fn(Binary32) -> Binary32 + Copy,
    N: Fn(Complex) -> Binary32 + Copy,
    F: Fn(Vec<Binary32>) -> Vec<Complex> + Copy,
    I: Fn(Vec<Complex>) -> Vec<Binary32> + Copy,
    E: Fn(Binary32) -> Binary32 + Copy,
    C: Fn(Binary32) -> Binary32,
>(
    channels: &Channels,
    total_len: usize,
    config: &Config,
    tools: &Tools<L, P, N, F, I>,
    exp: E,
    cos: C,
) -> (r: OfflineResult)
    requires
        channels.have_len(total_len as nat),
        config.processing.fft_size >= 1,
        total_len + 2 * config.processing.fft_size <= usize::MAX,
        total_len >= 1 && hop_of(*config) >= 1 ==> reduces(tools.pow10, config.masking),
        usable(*tools, config.processing.fft_size as nat),
        forall|x: Binary32| #[trigger] call_requires(exp, (x,)),
        forall|x: Binary32| #[trigger] call_requires(cos, (x,)),
    ensures
        exists|
            fresh: PipelineView,
            heard: Seq<FrameHeard>,
            music_gain: Binary32,
            voice_gain: Binary32,
        | #[trigger]
            offline_found(
                *tools,
                exp,
                cos,
                channels.input(),
                *config,
                fresh,
                heard,
                music_gain,
                voice_gain,
                r,
            ),
{
    let fft_size = config.processing.fft_size;
    let hop_size = config.hop_size();
    let lead: usize = if hop_size < fft_size {
        fft_size - hop_size
    } else {
        0
    };
    let output_len: usize = lead + total_len + fft_size;
    let around = Channels {
        music_l: surround(&channels.music_l, lead, fft_size),
        music_r: surround(&channels.music_r, lead, fft_size),
        voice_l: surround(&channels.voice_l, lead, fft_size),
        voice_r: surround(&channels.voice_r, lead, fft_size),
    };
    let mut pipeline = DspPipeline::new(config, tools.log10, exp, cos);
    let ghost fresh = pipeline@;
    let mut sums = Channels {
        music_l: silence(output_len),
        music_r: silence(output_len),
        voice_l: silence(output_len),
        voice_r: silence(output_len),
    };
    let mut weights = silence(output_len);
    assert(around.input() == surrounded(channels.input(), fft_size as nat, hop_size as nat));
    let (mask_means, Ghost(heard)) = run_frames(
        &mut pipeline,
        &around,
        &mut sums,
        &mut weights,
        total_len,
        lead,
        config,
        tools,
    );
    let music_gain = db_to_gain(config.output.music_gain_db, tools.pow10);
    let voice_gain = db_to_gain(config.output.voice_gain_db, tools.pow10);
    let left = blend_channel(
        &channels.music_l,
        &channels.voice_l,
        &sums.music_l,
        &sums.voice_l,
        &weights,
        lead,
        music_gain,
        voice_gain,
    );
    let right = blend_channel(
        &channels.music_r,
        &channels.voice_r,
        &sums.music_r,
        &sums.voice_r,
        &weights,
        lead,
        music_gain,
        voice_gain,
    );
    let result = OfflineResult {
        left,
        right,
        frame_count: pipeline.frame_count(),
        mask_means,
        mask_min: pipeline.mask_min(),
    };
    proof {
        lemma_found(
            *tools,
            exp,
            cos,
            channels.input(),
            *config,
            fresh,
            heard,
            music_gain,
            voice_gain,
            pipeline@,
            sums.sums(),
            weights@,
            result,
        );
    }
    result
}

/// Processes two recordings into one. The shorter one is followed by silence. Frames cover all
/// of the recordings; what the masks take away is taken from the music, and what is left of it
/// stays as it is. `exp` and `cos` give the exponential function and the cosine.
pub fn process_offline<
    L: Fn(Binary32) -> Binary32 + Copy,
    P: Fn(Binary32) -> Binary32 + Copy,
    N: Fn(Complex) -> Binary32 + Copy,
    F: Fn(Vec<Binary32>) -> Vec<Complex> + Copy,
    I: Fn(Vec<Complex>) -> Vec<Binary32> + Copy,
    E: Fn(Binary32) -> Binary32 + Copy,
    C: Fn(Binary32) -> Binary32,
>(
    music: Recording,
    voice: Recording,
    config: &Config,
    tools: &Tools<L, P, N, F, I>,
    exp: E,
    cos: C,
) -> (r: Result<OfflineResult, OfflineError>)
    requires
        rates_match(music, voice, *config) ==> {
            &&& config.processing.fft_size >= 1
            &&& longer(music, voice) + 2 * config.processing.fft_size <= usize::MAX
            &&& longer(music, voice) >= 1 && hop_of(*config) >= 1 ==> reduces(
                tools.pow10,
                config.masking,
            )
        },
        usable(*tools, config.processing.fft_size as nat),
        forall|x: Binary32| #[trigger] call_requires(exp, (x,)),
        forall|x: Binary32| #[trigger] call_requires(cos, (x,)),
    ensures
        music.sample_rate != config.processing.sample_rate <==> r == Err::<OfflineResult, _>(
            OfflineError::MusicRate {
                found: music.sample_rate,
                expected: config.processing.sample_rate,
            },
        ),
        music.sample_rate == config.processing.sample_rate && voice.sample_rate
            != config.processing.sample_rate <==> r == Err::<OfflineResult, _>(
            OfflineError::VoiceRate {
                found: voice.sample_rate,
                expected: config.processing.sample_rate,
            },
        ),
        r is Ok <==> rates_match(music, voice, *config),
        r is Ok ==> exists|
            fresh: PipelineView,
            heard: Seq<FrameHeard>,
            music_gain: Binary32,
            voice_gain: Binary32,
        | #[trigger]
            offline_found(
                *tools,
                exp,
                cos,
                padded(music, voice),
                *config,
                fresh,
                heard,
                music_gain,
                voice_gain,
                r->Ok_0,
            ),
{
    let sample_rate = config.processing.sample_rate;
    if music.sample_rate != sample_rate {
        return Err(OfflineError::MusicRate { found: music.sample_rate, expected: sample_rate });
    }
    if voice.sample_rate != sample_rate {
        return Err(OfflineError::VoiceRate { found: voice.sample_rate, expected: sample_rate });
    }
    let total_len: usize = if music.left.len() >= voice.left.len() {
        music.left.len()
    } else {
        voice.left.len()
    };
    let mut channels = Channels {
        music_l: music.left,
        music_r: music.right,
        voice_l: voice.left,
        voice_r: voice.right,
    };
    resize(&mut channels.music_l, total_len);
    resize(&mut channels.music_r, total_len);
    resize(&mut channels.voice_l, total_len);
    resize(&mut channels.voice_r, total_len);
    assert(channels.input() == padded(music, voice));
    let result = process_padded(&channels, total_len, config, tools, exp, cos);
    proof {
        let (fresh, heard, music_gain, voice_gain) = choose|
            fresh: PipelineView,
            heard: Seq<FrameHeard>,
            music_gain: Binary32,
            voice_gain: Binary32,
        | #[trigger]
            offline_found(
                *tools,
                exp,
                cos,
                padded(music, voice),
                *config,
                fresh,
                heard,
                music_gain,
                voice_gain,
                result,
            );
        assert(offline_found(
            *tools,
            exp,
            cos,
            padded(music, voice),
            *config,
            fresh,
            heard,
            music_gain,
            voice_gain,
            Ok::<OfflineResult, OfflineError>(result)->Ok_0,
        ));
    }
    Ok(result)
}

/// Whether there is one more frame after as many.
proof fn lemma_frames(total: nat, fft_size: nat, hop: nat, k: nat)
    requires
        hop >= 1,
        total >= 1,
        k * hop < lead_in(fft_size, hop) + total,
    ensures
        (k + 1) * hop == k * hop + hop,
        k * hop + hop >= lead_in(fft_size, hop) + total ==> k + 1 == frames_covering(
            total,
            fft_size,
            hop,
        ),
{
    let room = (lead_in(fft_size, hop) + total - 1) as nat;
    assert((k + 1) * hop == k * hop + hop) by (nonlinear_arith);
    if k * hop + hop > room {
        assert(room / hop == k) by (nonlinear_arith)
            requires
                hop >= 1,
                k * hop <= room,
                room < k * hop + hop,
        ;
    }
}

} // verus!
