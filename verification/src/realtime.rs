//! Processing of live sound, hop by hop, between ring buffers.

use crate::binary32::{Binary32, ONE};
use crate::blend::one;
use crate::config::{hop_of, Config, MaskingConfig};
use crate::level::Complex;
use crate::mixer::{db_to_gain, gain_exponent, mix_frame, mixed};
use crate::mix_laws::{is_gain_of, is_level, lemma_gain_of};
use crate::pipeline::{
    accums_after, frame_heard, fresh_pipeline, lemma_pipeline_after, pipeline_after, reduces,
    usable, Accums, DspPipeline, FrameHeard, FrameInput, PipelineView, Tools,
};
use crate::ring::{has_ready, patterns, popped, push_fitting, pushed, read_hop, ready, room, zeros};
use crate::stream::{
    appended, channel_of, deinterleave, interleave, interleaved, shift_and_append, shift_out,
    silence, silent,
};
use vstd::prelude::*;

verus! {

/// What live processing remembers from hop to hop: the processing, the last samples of each
/// input, what the frames add up to, and the settings.
pub ghost struct EngineView {
    pub pipeline: PipelineView,
    pub windows: FrameInput,
    /// What frames were added up to and not yet handed on.
    pub accums: Accums,
    pub hop_size: nat,
    pub masking: MaskingConfig,
    pub music_gain: Binary32,
    pub voice_gain: Binary32,
}

/// The windows after a hop of interleaved music and one of interleaved voice.
pub open spec fn windows_after(w: FrameInput, music: Seq<u32>, voice: Seq<u32>) -> FrameInput {
    FrameInput {
        music_l: appended(w.music_l, channel_of(music, 0)),
        music_r: appended(w.music_r, channel_of(music, 1)),
        voice_l: appended(w.voice_l, channel_of(voice, 0)),
        voice_r: appended(w.voice_r, channel_of(voice, 1)),
    }
}

/// Accumulators after a hop was taken from them; silence follows.
pub open spec fn hop_shifted_out(sums: Accums, hop_size: nat) -> Accums {
    let empty = silent(hop_size);
    Accums {
        music_l: appended(sums.music_l, empty),
        music_r: appended(sums.music_r, empty),
        voice_l: appended(sums.voice_l, empty),
        voice_r: appended(sums.voice_r, empty),
    }
}

/// Live processing after a hop: the frame is added to what the frames before it left, and a hop
/// of the sum leaves the accumulators.
pub open spec fn engine_after(
    e: EngineView,
    music: Seq<u32>,
    voice: Seq<u32>,
    heard: FrameHeard,
) -> EngineView {
    let windows = windows_after(e.windows, music, voice);
    EngineView {
        windows,
        pipeline: pipeline_after(e.pipeline, windows, e.masking, heard),
        accums: hop_shifted_out(
            accums_after(e.accums, e.pipeline.window, heard, 0),
            e.hop_size,
        ),
        ..e
    }
}

/// Silent outputs of a length.
pub open spec fn silent_accums(len: nat) -> Accums {
    Accums {
        music_l: silent(len),
        music_r: silent(len),
        voice_l: silent(len),
        voice_r: silent(len),
    }
}

/// The mix of the first samples of an accumulator of music and one of voice.
pub open spec fn mixed_hop(
    music: Seq<Binary32>,
    voice: Seq<Binary32>,
    music_gain: Binary32,
    voice_gain: Binary32,
    hop_size: nat,
) -> Seq<Binary32> {
    Seq::new(hop_size, |i: int| mixed(music[i], voice[i], music_gain, voice_gain))
}

/// The interleaved output of a hop: of what the new frame and the tails of those before it add
/// up to.
pub open spec fn hop_output(e: EngineView, heard: FrameHeard) -> Seq<Binary32> {
    let accums = accums_after(e.accums, e.pipeline.window, heard, 0);
    interleaved(
        mixed_hop(accums.music_l, accums.voice_l, e.music_gain, e.voice_gain, e.hop_size),
        mixed_hop(accums.music_r, accums.voice_r, e.music_gain, e.voice_gain, e.hop_size),
    )
}

/// Whether the functions gave all that is said of a hop.
pub open spec fn hop_heard<
    L: Fn(Binary32) -> Binary32,
    P: Fn(Binary32) -> Binary32,
    N: Fn(Complex) -> Binary32,
    F: Fn(Vec<Binary32>) -> Vec<Complex>,
    I: Fn(Vec<Complex>) -> Vec<Binary32>,
>(
    tools: Tools<L, P, N, F, I>,
    e: EngineView,
    music: Seq<u32>,
    voice: Seq<u32>,
    heard: FrameHeard,
) -> bool {
    frame_heard(
        tools,
        e.pipeline,
        windows_after(e.windows, music, voice),
        e.masking,
        one(),
        heard,
    )
}

/// Live processing of stereo music and stereo voice.
pub struct RealtimeEngine {
    pipeline: DspPipeline,
    music_window_l: Vec<Binary32>,
    music_window_r: Vec<Binary32>,
    voice_window_l: Vec<Binary32>,
    voice_window_r: Vec<Binary32>,
    music_accum_l: Vec<Binary32>,
    music_accum_r: Vec<Binary32>,
    voice_accum_l: Vec<Binary32>,
    voice_accum_r: Vec<Binary32>,
    hop_stereo: usize,
    hop_size: usize,
    masking: MaskingConfig,
    music_gain: Binary32,
    voice_gain: Binary32,
}

impl View for RealtimeEngine {
    type V = EngineView;

    closed spec fn view(&self) -> EngineView {
        EngineView {
            pipeline: self.pipeline@,
            windows: FrameInput {
                music_l: self.music_window_l@,
                music_r: self.music_window_r@,
                voice_l: self.voice_window_l@,
                voice_r: self.voice_window_r@,
            },
            accums: Accums {
                music_l: self.music_accum_l@,
                music_r: self.music_accum_r@,
                voice_l: self.voice_accum_l@,
                voice_r: self.voice_accum_r@,
            },
            hop_size: self.hop_size as nat,
            masking: self.masking,
            music_gain: self.music_gain,
            voice_gain: self.voice_gain,
        }
    }
}

impl RealtimeEngine {
    /// Whether all windows have the length of a frame and no hop is longer than one.
    pub closed spec fn wf(&self) -> bool {
        let len = self.pipeline@.window.len();
        &&& self.pipeline.wf()
        &&& self.music_window_l@.len() == len
        &&& self.music_window_r@.len() == len
        &&& self.voice_window_l@.len() == len
        &&& self.voice_window_r@.len() == len
        &&& self.music_accum_l@.len() == len
        &&& self.music_accum_r@.len() == len
        &&& self.voice_accum_l@.len() == len
        &&& self.voice_accum_r@.len() == len
        &&& self.hop_size <= len
        &&& self.hop_stereo == 2 * self.hop_size
    }

    /// Live processing before the first hop. `log10`, `exp`, `cos` and `pow10` give the
    /// logarithm to the base of ten, the exponential function, the cosine and the power of
    /// ten.
    pub fn new<
        L: Fn(Binary32) -> Binary32 + Copy,
        E: Fn(Binary32) -> Binary32 + Copy,
        C: Fn(Binary32) -> Binary32,
        P: Fn(Binary32) -> Binary32 + Copy,
    >(config: &Config, log10: L, exp: E, cos: C, pow10: P) -> (r: Self)
        requires
            hop_of(*config) <= config.processing.fft_size,
            hop_of(*config) * 2 <= usize::MAX,
            forall|x: Binary32| #[trigger] call_requires(log10, (x,)),
            forall|x: Binary32| #[trigger] call_requires(exp, (x,)),
            forall|x: Binary32| #[trigger] call_requires(cos, (x,)),
            forall|x: Binary32| #[trigger] call_requires(pow10, (x,)),
        ensures
            r.wf(),
            fresh_pipeline(r@.pipeline, *config, log10, exp, cos),
            r@.windows == (FrameInput {
                music_l: silent(config.processing.fft_size as nat),
                music_r: silent(config.processing.fft_size as nat),
                voice_l: silent(config.processing.fft_size as nat),
                voice_r: silent(config.processing.fft_size as nat),
            }),
            r@.accums == silent_accums(config.processing.fft_size as nat),
            r@.hop_size == hop_of(*config),
            r@.masking == config.masking,
            call_ensures(pow10, (gain_exponent(config.output.music_gain_db),), r@.music_gain),
            call_ensures(pow10, (gain_exponent(config.output.voice_gain_db),), r@.voice_gain),
            is_level(config.output.music_gain_db) ==> is_gain_of(
                r@.music_gain,
                config.output.music_gain_db,
                pow10,
            ),
            is_level(config.output.voice_gain_db) ==> is_gain_of(
                r@.voice_gain,
                config.output.voice_gain_db,
                pow10,
            ),
    {
        let fft_size = config.processing.fft_size;
        let hop_size = config.hop_size();
        let music_gain = db_to_gain(config.output.music_gain_db, pow10);
        let voice_gain = db_to_gain(config.output.voice_gain_db, pow10);
        proof {
            if is_level(config.output.music_gain_db) {
                lemma_gain_of(music_gain, config.output.music_gain_db, pow10);
            }
            if is_level(config.output.voice_gain_db) {
                lemma_gain_of(voice_gain, config.output.voice_gain_db, pow10);
            }
        }
        RealtimeEngine {
            pipeline: DspPipeline::new(config, log10, exp, cos),
            music_window_l: silence(fft_size),
            music_window_r: silence(fft_size),
            voice_window_l: silence(fft_size),
            voice_window_r: silence(fft_size),
            music_accum_l: silence(fft_size),
            music_accum_r: silence(fft_size),
            voice_accum_l: silence(fft_size),
            voice_accum_r: silence(fft_size),
            hop_stereo: hop_size * 2,
            hop_size,
            masking: config.masking,
            music_gain,
            voice_gain,
        }
    }

    /// Processes one hop of interleaved music and voice and gives the interleaved mix.
    pub fn process_hop<
        L: Fn(Binary32) -> Binary32 + Copy,
        P: Fn(Binary32) -> Binary32 + Copy,
        N: Fn(Complex) -> Binary32 + Copy,
        F: Fn(Vec<Binary32>) -> Vec<Complex> + Copy,
        I: Fn(Vec<Complex>) -> Vec<Binary32> + Copy,
    >(&mut self, music: &[u32], voice: &[u32], tools: &Tools<L, P, N, F, I>) -> (r: Vec<Binary32>)
        requires
            old(self).wf(),
            music@.len() == 2 * old(self)@.hop_size,
            voice@.len() == 2 * old(self)@.hop_size,
            usable(*tools, old(self)@.pipeline.window.len()),
            reduces(tools.pow10, old(self)@.masking),
            old(self)@.pipeline.frame_count < u64::MAX,
        ensures
            final(self).wf(),
            exists|heard: FrameHeard| #[trigger]
                hop_heard(*tools, old(self)@, music@, voice@, heard) && final(self)@
                    == engine_after(old(self)@, music@, voice@, heard) && r@ == hop_output(
                    old(self)@,
                    heard,
                ),
    {
        let ghost before = self@;
        let (music_l, music_r) = deinterleave(music);
        let (voice_l, voice_r) = deinterleave(voice);
        shift_and_append(self.music_window_l.as_mut_slice(), music_l.as_slice());
        shift_and_append(self.music_window_r.as_mut_slice(), music_r.as_slice());
        shift_and_append(self.voice_window_l.as_mut_slice(), voice_l.as_slice());
        shift_and_append(self.voice_window_r.as_mut_slice(), voice_r.as_slice());

        let ghost windows = windows_after(before.windows, music@, voice@);
        assert(self@.windows =~= windows);
        let _mean = self.pipeline.process_frame(
            self.music_window_l.as_slice(),
            self.music_window_r.as_slice(),
            self.voice_window_l.as_slice(),
            self.voice_window_r.as_slice(),
            &self.masking,
            self.music_accum_l.as_mut_slice(),
            self.music_accum_r.as_mut_slice(),
            self.voice_accum_l.as_mut_slice(),
            self.voice_accum_r.as_mut_slice(),
            0,
            Binary32 { bits: ONE },
            tools,
        );
        let ghost accums = Accums {
            music_l: self.music_accum_l@,
            music_r: self.music_accum_r@,
            voice_l: self.voice_accum_l@,
            voice_r: self.voice_accum_r@,
        };
        let ghost heard = choose|heard: FrameHeard| #[trigger]
            frame_heard(*tools, before.pipeline, windows, before.masking, one(), heard)
                && self.pipeline@ == pipeline_after(
                before.pipeline,
                windows,
                before.masking,
                heard,
            ) && accums == accums_after(before.accums, before.pipeline.window, heard, 0);

        let mut mix_l = silence(self.hop_size);
        let mut mix_r = silence(self.hop_size);
        mix_frame(
            self.music_accum_l.as_slice(),
            self.voice_accum_l.as_slice(),
            self.music_gain,
            self.voice_gain,
            mix_l.as_mut_slice(),
        );
        mix_frame(
            self.music_accum_r.as_slice(),
            self.voice_accum_r.as_slice(),
            self.music_gain,
            self.voice_gain,
            mix_r.as_mut_slice(),
        );
        shift_out(self.music_accum_l.as_mut_slice(), self.hop_size);
        shift_out(self.music_accum_r.as_mut_slice(), self.hop_size);
        shift_out(self.voice_accum_l.as_mut_slice(), self.hop_size);
        shift_out(self.voice_accum_r.as_mut_slice(), self.hop_size);
        proof {
            lemma_pipeline_after(before.pipeline, windows, before.masking, heard);
            assert(hop_heard(*tools, before, music@, voice@, heard));
            assert(mix_l@ =~= mixed_hop(
                accums.music_l,
                accums.voice_l,
                before.music_gain,
                before.voice_gain,
                before.hop_size,
            ));
            assert(mix_r@ =~= mixed_hop(
                accums.music_r,
                accums.voice_r,
                before.music_gain,
                before.voice_gain,
                before.hop_size,
            ));
            assert(self@ == engine_after(before, music@, voice@, heard));
        }
        interleave(mix_l.as_slice(), mix_r.as_slice())
    }

    /// Takes one hop of music and one of voice out of their rings, where both are there, and
    /// pushes the mix into the output ring, as much as fits. Gives whether there was a hop.
    pub fn step<
        L: Fn(Binary32) -> Binary32 + Copy,
        P: Fn(Binary32) -> Binary32 + Copy,
        N: Fn(Complex) -> Binary32 + Copy,
        F: Fn(Vec<Binary32>) -> Vec<Complex> + Copy,
        I: Fn(Vec<Complex>) -> Vec<Binary32> + Copy,
    >(
        &mut self,
        music_cons: &mut rtrb::Consumer<u32>,
        voice_cons: &mut rtrb::Consumer<u32>,
        output_prod: &mut rtrb::Producer<u32>,
        tools: &Tools<L, P, N, F, I>,
    ) -> (r: bool)
        requires
            old(self).wf(),
            usable(*tools, old(self)@.pipeline.window.len()),
            reduces(tools.pow10, old(self)@.masking),
            old(self)@.pipeline.frame_count < u64::MAX,
        ensures
            final(self).wf(),
            !r ==> {
                &&& final(self)@ == old(self)@
                &&& popped(*final(music_cons)) == popped(*old(music_cons))
                &&& popped(*final(voice_cons)) == popped(*old(voice_cons))
                &&& *final(output_prod) == *old(output_prod)
                &&& ready(*final(music_cons)) < 2 * old(self)@.hop_size || ready(
                    *final(voice_cons),
                ) < 2 * old(self)@.hop_size
            },
            r ==> exists|music: Seq<u32>, voice: Seq<u32>, heard: FrameHeard, n: int|
                #![trigger
                    hop_heard(*tools, old(self)@, music, voice, heard),
                    hop_output(old(self)@, heard).take(n)]
                {
                    &&& music.len() == 2 * old(self)@.hop_size
                    &&& voice.len() == 2 * old(self)@.hop_size
                    &&& popped(*final(music_cons)) == popped(*old(music_cons)) + music
                    &&& popped(*final(voice_cons)) == popped(*old(voice_cons)) + voice
                    &&& hop_heard(*tools, old(self)@, music, voice, heard)
                    &&& final(self)@ == engine_after(old(self)@, music, voice, heard)
                    &&& 0 <= n <= hop_output(old(self)@, heard).len()
                    &&& pushed(*final(output_prod)) == pushed(*old(output_prod)) + patterns(
                        hop_output(old(self)@, heard).take(n),
                    )
                    &&& n < hop_output(old(self)@, heard).len() ==> room(*final(output_prod)) == 0
                },
    {
        let ghost before = self@;
        let hop_stereo: usize = self.hop_stereo;
        if !has_ready(music_cons, hop_stereo) || !has_ready(voice_cons, hop_stereo) {
            return false;
        }
        let mut music = zeros(hop_stereo);
        let mut voice = zeros(hop_stereo);
        read_hop(music_cons, &mut music);
        read_hop(voice_cons, &mut voice);
        let out = self.process_hop(music.as_slice(), voice.as_slice(), tools);
        let ghost heard = choose|heard: FrameHeard| #[trigger]
            hop_heard(*tools, before, music@, voice@, heard) && self@ == engine_after(
                before,
                music@,
                voice@,
                heard,
            ) && out@ == hop_output(before, heard);
        let n: usize = push_fitting(output_prod, out.as_slice());
        proof {
            assert(hop_heard(*tools, before, music@, voice@, heard));
            assert(hop_output(before, heard).take(n as int) == out@.take(n as int));
        }
        true
    }
}

/// A hop leaves the accumulators: what lay behind it moves up, and silence follows.
pub proof fn hops_leave_the_accumulators(sums: Accums, hop_size: nat, i: int)
    requires
        hop_size <= sums.music_l.len(),
        sums.music_r.len() == sums.music_l.len(),
        sums.voice_l.len() == sums.music_l.len(),
        sums.voice_r.len() == sums.music_l.len(),
        0 <= i < sums.music_l.len(),
    ensures
        ({
            let after = hop_shifted_out(sums, hop_size);
            let len = sums.music_l.len();
            &&& after.music_l.len() == len
            &&& after.music_r.len() == len
            &&& after.voice_l.len() == len
            &&& after.voice_r.len() == len
            &&& i + hop_size < len ==> {
                &&& after.music_l[i] == sums.music_l[i + hop_size]
                &&& after.music_r[i] == sums.music_r[i + hop_size]
                &&& after.voice_l[i] == sums.voice_l[i + hop_size]
                &&& after.voice_r[i] == sums.voice_r[i + hop_size]
            }
            &&& i + hop_size >= len ==> {
                &&& after.music_l[i].code() == 0
                &&& after.music_r[i].code() == 0
                &&& after.voice_l[i].code() == 0
                &&& after.voice_r[i].code() == 0
            }
        }),
{
}

} // verus!
