//! The filter node: takes in whatever number of samples a cycle brings, processes at each hop
//! boundary, and hands out as many samples as came in.

use crate::binary32::Binary32;
use crate::config::{hop_of, Config, MaskingConfig};
use crate::level::Complex;
use crate::mixer::{db_to_gain, gain_exponent, mix_frame};
use crate::params::{masking_now, RuntimeParams};
use crate::pipeline::{
    accums_after, frame_heard, fresh_pipeline, lemma_pipeline_after, pipeline_after, reduces, sized,
    usable, Accums, DspPipeline, FrameHeard, FrameInput, PipelineView, Tools,
};
use crate::realtime::{hop_shifted_out, mixed_hop, silent_accums};
use crate::stream::{appended, shift_and_append, shift_out, silence, silent};
use vstd::prelude::*;
use vstd::slice::slice_subrange;

verus! {

/// The most samples that a cycle can bring.
pub const MAX_QUANTUM: usize = 8192;

/// The state of a filter node.
#[derive(Debug, Clone, Copy, PartialEq, Eq, Structural)]
pub enum FilterPhase {
    Error,
    Unconnected,
    Connecting,
    Paused,
    Streaming,
    Unknown,
}

/// The name of a state of a filter node.
pub fn filter_state_name(s: FilterPhase) -> (r: &'static str)
    ensures
        r@ == match s {
            FilterPhase::Error => "Error"@,
            FilterPhase::Unconnected => "Unconnected"@,
            FilterPhase::Connecting => "Connecting"@,
            FilterPhase::Paused => "Paused"@,
            FilterPhase::Streaming => "Streaming"@,
            FilterPhase::Unknown => "Unknown"@,
        },
{
    match s {
        FilterPhase::Error => "Error",
        FilterPhase::Unconnected => "Unconnected",
        FilterPhase::Connecting => "Connecting",
        FilterPhase::Paused => "Paused",
        FilterPhase::Streaming => "Streaming",
        FilterPhase::Unknown => "Unknown",
    }
}

/// How many samples of a cycle are processed: all of them, up to the most that a cycle can
/// bring. A cycle without samples is passed over.
pub fn quantum(duration: u64) -> (r: Option<usize>)
    ensures
        duration == 0 ==> r is None,
        duration > 0 ==> r == Some(
            if duration < MAX_QUANTUM {
                duration as usize
            } else {
                MAX_QUANTUM
            },
        ),
{
    if duration == 0 {
        None
    } else if duration < MAX_QUANTUM as u64 {
        Some(duration as usize)
    } else {
        Some(MAX_QUANTUM)
    }
}

/// What a filter remembers from cycle to cycle.
pub ghost struct FilterView {
    pub pipeline: PipelineView,
    /// The last samples of each input.
    pub windows: FrameInput,
    /// What frames were added up to and not yet handed on.
    pub accums: Accums,
    /// Mixed samples that wait to be handed out.
    pub queue_l: Seq<Binary32>,
    pub queue_r: Seq<Binary32>,
    /// Samples that came in since the last hop boundary.
    pub pending: nat,
    pub hop_size: nat,
    pub masking: MaskingConfig,
    pub music_gain: Binary32,
}

/// What came in and went out, for later inspection.
pub ghost struct Record {
    pub music_l: Seq<Binary32>,
    pub music_r: Seq<Binary32>,
    pub voice_l: Seq<Binary32>,
    pub voice_r: Seq<Binary32>,
    pub output_l: Seq<Binary32>,
    pub output_r: Seq<Binary32>,
}

/// What was heard at a hop boundary: the runtime values of that moment, and what the functions
/// gave for the frame.
pub ghost struct HopHeard {
    pub params: RuntimeParams,
    pub frame: FrameHeard,
}

/// Whether all windows have the length of a frame, no hop is longer than one, and what waits
/// together with what came in since the last hop is less than a hop.
pub open spec fn filter_ok(f: FilterView) -> bool {
    let len = f.pipeline.window.len();
    &&& sized(f.pipeline)
    &&& f.windows.music_l.len() == len
    &&& f.windows.music_r.len() == len
    &&& f.windows.voice_l.len() == len
    &&& f.windows.voice_r.len() == len
    &&& f.accums.music_l.len() == len
    &&& f.accums.music_r.len() == len
    &&& f.accums.voice_l.len() == len
    &&& f.accums.voice_r.len() == len
    &&& 1 <= f.hop_size <= len
    &&& f.pending < f.hop_size
    &&& f.queue_l.len() == f.queue_r.len()
}

/// Whether what waits, together with what came in since the last hop, is less than a hop.
pub open spec fn caught_up(f: FilterView) -> bool {
    f.queue_l.len() + f.pending < f.hop_size
}

/// A filter before the first cycle, by what the functions gave: silence everywhere, and nothing
/// that waits.
pub open spec fn fresh_filter<
    L: Fn(Binary32) -> Binary32,
    E: Fn(Binary32) -> Binary32,
    C: Fn(Binary32) -> Binary32,
    P: Fn(Binary32) -> Binary32,
>(f: FilterView, config: Config, log10: L, exp: E, cos: C, pow10: P) -> bool {
    let len = config.processing.fft_size as nat;
    &&& fresh_pipeline(f.pipeline, config, log10, exp, cos)
    &&& f.windows == FrameInput {
        music_l: silent(len),
        music_r: silent(len),
        voice_l: silent(len),
        voice_r: silent(len),
    }
    &&& f.accums == silent_accums(len)
    &&& f.queue_l == Seq::<Binary32>::empty()
    &&& f.queue_r == Seq::<Binary32>::empty()
    &&& f.pending == 0
    &&& f.hop_size == hop_of(config)
    &&& f.masking == config.masking
    &&& call_ensures(pow10, (gain_exponent(config.output.music_gain_db),), f.music_gain)
}

/// The part of a cycle's samples between two positions.
pub open spec fn part(q: FrameInput, from: int, to: int) -> FrameInput {
    FrameInput {
        music_l: q.music_l.subrange(from, to),
        music_r: q.music_r.subrange(from, to),
        voice_l: q.voice_l.subrange(from, to),
        voice_r: q.voice_r.subrange(from, to),
    }
}

/// The windows after samples came in.
pub open spec fn taken_in(w: FrameInput, q: FrameInput) -> FrameInput {
    FrameInput {
        music_l: appended(w.music_l, q.music_l),
        music_r: appended(w.music_r, q.music_r),
        voice_l: appended(w.voice_l, q.voice_l),
        voice_r: appended(w.voice_r, q.voice_r),
    }
}

/// A filter at a hop boundary, after the frame there was processed: the first hop of what the
/// frames add up to is mixed and queued, and leaves the accumulators.
pub open spec fn hop_done(f: FilterView, heard: HopHeard) -> FilterView {
    let params = heard.params;
    let masking = masking_now(f.masking, params);
    let sums = accums_after(f.accums, f.pipeline.window, heard.frame, 0);
    FilterView {
        pipeline: pipeline_after(f.pipeline, f.windows, masking, heard.frame),
        accums: hop_shifted_out(sums, f.hop_size),
        queue_l: f.queue_l + mixed_hop(
            sums.music_l,
            sums.voice_l,
            f.music_gain,
            params.voice_gain,
            f.hop_size,
        ),
        queue_r: f.queue_r + mixed_hop(
            sums.music_r,
            sums.voice_r,
            f.music_gain,
            params.voice_gain,
            f.hop_size,
        ),
        pending: 0,
        ..f
    }
}

/// How many samples of a cycle come in before the next hop boundary or the end of the cycle.
pub open spec fn next_chunk(f: FilterView, left: int) -> int {
    if f.hop_size - f.pending <= left {
        f.hop_size - f.pending
    } else {
        left
    }
}

/// A filter after one chunk came in, before what is due at a hop boundary.
pub open spec fn chunk_in(f: FilterView, q: FrameInput, from: int, chunk: int) -> FilterView {
    FilterView {
        windows: taken_in(f.windows, part(q, from, from + chunk)),
        pending: (f.pending + chunk) as nat,
        ..f
    }
}

/// A filter after the samples of a cycle from a position on came in, where at each hop boundary
/// the next of what was heard is due.
pub open spec fn fed(
    f: FilterView,
    q: FrameInput,
    from: int,
    heard: Seq<HopHeard>,
) -> FilterView
    decreases q.music_l.len() - from,
{
    let left = q.music_l.len() - from;
    let chunk = next_chunk(f, left);
    if left <= 0 || chunk <= 0 {
        f
    } else {
        let g = chunk_in(f, q, from, chunk);
        if g.pending == f.hop_size {
            fed(hop_done(g, heard[0]), q, from + chunk, heard.skip(1))
        } else {
            fed(g, q, from + chunk, heard)
        }
    }
}

/// Whether the functions gave what was heard at each hop boundary, and nothing more was heard.
pub open spec fn fed_heard<
    L: Fn(Binary32) -> Binary32,
    P: Fn(Binary32) -> Binary32,
    N: Fn(Complex) -> Binary32,
    F: Fn(Vec<Binary32>) -> Vec<Complex>,
    I: Fn(Vec<Complex>) -> Vec<Binary32>,
>(
    tools: Tools<L, P, N, F, I>,
    f: FilterView,
    q: FrameInput,
    from: int,
    heard: Seq<HopHeard>,
) -> bool
    decreases q.music_l.len() - from,
{
    let left = q.music_l.len() - from;
    let chunk = next_chunk(f, left);
    if left <= 0 || chunk <= 0 {
        heard.len() == 0
    } else {
        let g = chunk_in(f, q, from, chunk);
        if g.pending == f.hop_size {
            &&& heard.len() > 0
            &&& frame_heard(
                tools,
                g.pipeline,
                g.windows,
                masking_now(g.masking, heard[0].params),
                heard[0].params.compression_mix,
                heard[0].frame,
            )
            &&& fed_heard(tools, hop_done(g, heard[0]), q, from + chunk, heard.skip(1))
        } else {
            fed_heard(tools, g, q, from + chunk, heard)
        }
    }
}

/// How many samples can be handed out.
pub open spec fn drained(f: FilterView, n: nat) -> nat {
    if f.queue_l.len() <= n {
        f.queue_l.len()
    } else {
        n
    }
}

/// What is handed out of a queue: what waits, followed by silence.
pub open spec fn handed(queue: Seq<Binary32>, n: nat) -> Seq<Binary32> {
    if queue.len() >= n {
        queue.take(n as int)
    } else {
        queue + silent((n - queue.len()) as nat)
    }
}

/// A filter after as many samples as came in were handed out.
pub open spec fn after_handing_out(f: FilterView, n: nat) -> FilterView {
    let d = drained(f, n);
    FilterView {
        queue_l: f.queue_l.skip(d as int),
        queue_r: f.queue_r.skip(d as int),
        ..f
    }
}

/// What came in during a cycle.
pub open spec fn cycle_input(
    music_l: Option<&[Binary32]>,
    music_r: Option<&[Binary32]>,
    voice_l: Option<&[Binary32]>,
    voice_r: Option<&[Binary32]>,
    n: nat,
) -> FrameInput {
    FrameInput {
        music_l: port_of(music_l, n),
        music_r: port_of(music_r, n),
        voice_l: port_of(voice_l, n),
        voice_r: port_of(voice_r, n),
    }
}

/// The samples of a port; silence where nothing is connected.
pub open spec fn port_of(port: Option<&[Binary32]>, n: nat) -> Seq<Binary32> {
    match port {
        Some(s) => s@,
        None => silent(n),
    }
}

/// What was recorded, with one more cycle where recording is on.
pub open spec fn recorded(
    record: Record,
    recording: bool,
    q: FrameInput,
    out_l: Seq<Binary32>,
    out_r: Seq<Binary32>,
) -> Record {
    if recording {
        Record {
            music_l: record.music_l + q.music_l,
            music_r: record.music_r + q.music_r,
            voice_l: record.voice_l + q.voice_l,
            voice_r: record.voice_r + q.voice_r,
            output_l: record.output_l + out_l,
            output_r: record.output_r + out_r,
        }
    } else {
        record
    }
}

/// Whether the four inputs of a cycle have one length.
pub open spec fn even_input(q: FrameInput) -> bool {
    &&& q.music_r.len() == q.music_l.len()
    &&& q.voice_l.len() == q.music_l.len()
    &&& q.voice_r.len() == q.music_l.len()
}

/// A hop boundary keeps the lengths, and moves a hop into the queue.
pub proof fn lemma_hop_done(f: FilterView, heard: HopHeard)
    requires
        filter_ok(FilterView { pending: 0, ..f }),
    ensures
        filter_ok(hop_done(f, heard)),
        hop_done(f, heard).queue_l.len() == f.queue_l.len() + f.hop_size,
        hop_done(f, heard).pipeline.window == f.pipeline.window,
        f.pipeline.frame_count < u64::MAX ==> hop_done(f, heard).pipeline.frame_count
            == f.pipeline.frame_count + 1,
{
    lemma_pipeline_after(
        f.pipeline,
        f.windows,
        masking_now(f.masking, heard.params),
        heard.frame,
    );
}

/// A chunk keeps the lengths.
pub proof fn lemma_chunk_in(f: FilterView, q: FrameInput, from: int)
    requires
        filter_ok(f),
        even_input(q),
        0 <= from < q.music_l.len(),
    ensures
        ({
            let chunk = next_chunk(f, q.music_l.len() - from);
            let g = chunk_in(f, q, from, chunk);
            &&& 1 <= chunk <= q.music_l.len() - from
            &&& chunk <= f.hop_size
            &&& filter_ok(FilterView { pending: 0, ..g })
            &&& g.pending <= f.hop_size
            &&& g.queue_l == f.queue_l
            &&& g.pending < f.hop_size ==> filter_ok(g)
        }),
{
}

/// Nothing is lost while samples come in: each one is counted in what waits to be handed out or
/// in what waits for the next hop boundary. And whatever is heard, all lengths stay as they
/// should.
pub proof fn feeding_loses_nothing(
    f: FilterView,
    q: FrameInput,
    from: int,
    heard: Seq<HopHeard>,
)
    requires
        filter_ok(f),
        even_input(q),
        0 <= from <= q.music_l.len(),
    ensures
        filter_ok(fed(f, q, from, heard)),
        fed(f, q, from, heard).queue_l.len() + fed(f, q, from, heard).pending
            == f.queue_l.len() + f.pending + (q.music_l.len() - from),
        fed(f, q, from, heard).hop_size == f.hop_size,
        fed(f, q, from, heard).pipeline.window == f.pipeline.window,
    decreases q.music_l.len() - from,
{
    if from < q.music_l.len() {
        lemma_chunk_in(f, q, from);
        let chunk = next_chunk(f, q.music_l.len() - from);
        let g = chunk_in(f, q, from, chunk);
        if g.pending == f.hop_size {
            lemma_hop_done(g, heard[0]);
            feeding_loses_nothing(
                hop_done(g, heard[0]),
                q,
                from + chunk,
                heard.skip(1),
            );
        } else {
            feeding_loses_nothing(g, q, from + chunk, heard);
        }
    }
}

/// The queue never holds more than a frame and the longest cycle together, however long the
/// filter runs: what waits after a cycle is less than a hop.
pub proof fn queue_stays_short(
    f: FilterView,
    q: FrameInput,
    heard: Seq<HopHeard>,
)
    requires
        filter_ok(f),
        caught_up(f),
        even_input(q),
        q.music_l.len() <= MAX_QUANTUM,
    ensures
        fed(f, q, 0, heard).queue_l.len() < MAX_QUANTUM + f.pipeline.window.len(),
        caught_up(after_handing_out(fed(f, q, 0, heard), q.music_l.len())),
{
    feeding_loses_nothing(f, q, 0, heard);
}

/// Once samples are handed out without silence, the delay stays the same: what waits and what
/// is pending add up to what they did before.
pub proof fn delay_stays(
    f: FilterView,
    q: FrameInput,
    heard: Seq<HopHeard>,
)
    requires
        filter_ok(f),
        even_input(q),
        fed(f, q, 0, heard).queue_l.len() >= q.music_l.len(),
    ensures
        ({
            let g = after_handing_out(fed(f, q, 0, heard), q.music_l.len());
            g.queue_l.len() + g.pending == f.queue_l.len() + f.pending
        }),
{
    feeding_loses_nothing(f, q, 0, heard);
}

/// The state of a filter node.
pub struct FilterState {
    pipeline: DspPipeline,
    masking: MaskingConfig,
    hop_size: usize,
    music_gain: Binary32,
    music_window_l: Vec<Binary32>,
    music_window_r: Vec<Binary32>,
    voice_window_l: Vec<Binary32>,
    voice_window_r: Vec<Binary32>,
    music_accum_l: Vec<Binary32>,
    music_accum_r: Vec<Binary32>,
    voice_accum_l: Vec<Binary32>,
    voice_accum_r: Vec<Binary32>,
    output_l: Vec<Binary32>,
    output_r: Vec<Binary32>,
    samples_since_last_hop: usize,
    debug_music_l: Vec<Binary32>,
    debug_music_r: Vec<Binary32>,
    debug_voice_l: Vec<Binary32>,
    debug_voice_r: Vec<Binary32>,
    debug_output_l: Vec<Binary32>,
    debug_output_r: Vec<Binary32>,
    debug_recording: bool,
}

impl View for FilterState {
    type V = FilterView;

    closed spec fn view(&self) -> FilterView {
        FilterView {
            pipeline: self.pipeline@,
            windows: FrameInput {
                music_l: self.music_window_l@,
                music_r: self.music_window_r@,
                voice_l: self.voice_window_l@,
                voice_r: self.voice_window_r@,
            },
            accums: Accums {
                music_l: self.music_accum_l@,
                music_r: self.music_accum_r@,
                voice_l: self.voice_accum_l@,
                voice_r: self.voice_accum_r@,
            },
            queue_l: self.output_l@,
            queue_r: self.output_r@,
            pending: self.samples_since_last_hop as nat,
            hop_size: self.hop_size as nat,
            masking: self.masking,
            music_gain: self.music_gain,
        }
    }
}

/// Appends samples to a record.
fn extend(record: &mut Vec<Binary32>, samples: &[Binary32])
    ensures
        final(record)@ == old(record)@ + samples@,
{
    let ghost before = record@;
    let mut i: usize = 0;
    assert(before + samples@.take(0) =~= before);
    while i < samples.len()
        invariant
            i <= samples@.len(),
            record@ == before + samples@.take(i as int),
        decreases samples@.len() - i,
    {
        assert(samples@.take(i + 1) =~= samples@.take(i as int).push(samples@[i as int]));
        record.push(samples[i]);
        assert(record@ =~= before + samples@.take(i + 1));
        i = i + 1;
    }
    assert(samples@.take(samples@.len() as int) =~= samples@);
}

/// Takes what waits at the front of a queue, up to a number, and fills up with silence.
fn drain(queue: &mut Vec<Binary32>, n: usize) -> (r: Vec<Binary32>)
    ensures
        r@ == handed(old(queue)@, n as nat),
        final(queue)@ == old(queue)@.skip(
            if old(queue)@.len() <= n {
                old(queue)@.len() as int
            } else {
                n as int
            },
        ),
{
    let ghost before = queue@;
    let len: usize = queue.len();
    let d: usize = if len <= n {
        len
    } else {
        n
    };
    let mut out: Vec<Binary32> = Vec::new();
    while out.len() < n
        invariant
            out.len() <= n,
            d <= n,
            d <= before.len(),
            d < n ==> d == before.len(),
            queue@ == before,
            forall|i: int| 0 <= i < out.len() ==> out@[i] == handed(before, n as nat)[i],
        decreases n - out.len(),
    {
        let i: usize = out.len();
        if i < d {
            out.push(queue[i]);
        } else {
            out.push(Binary32 { bits: 0 });
        }
    }
    assert(out@ =~= handed(before, n as nat));
    let mut rest: Vec<Binary32> = Vec::new();
    let mut i: usize = d;
    while i < len
        invariant
            d <= i <= len,
            len == before.len(),
            queue@ == before,
            rest@ == before.subrange(d as int, i as int),
        decreases len - i,
    {
        rest.push(queue[i]);
        assert(rest@ =~= before.subrange(d as int, i + 1));
        i = i + 1;
    }
    assert(rest@ =~= before.skip(d as int));
    *queue = rest;
    out
}

impl FilterState {
    /// Whether the filter is as it should be between cycles.
    pub open spec fn wf(&self) -> bool {
        filter_ok(self@) && caught_up(self@)
    }

    /// Whether cycles are recorded.
    pub closed spec fn recording(&self) -> bool {
        self.debug_recording
    }

    /// What was recorded.
    pub closed spec fn record(&self) -> Record {
        Record {
            music_l: self.debug_music_l@,
            music_r: self.debug_music_r@,
            voice_l: self.debug_voice_l@,
            voice_r: self.debug_voice_r@,
            output_l: self.debug_output_l@,
            output_r: self.debug_output_r@,
        }
    }

    /// A filter before the first cycle. `log10`, `exp`, `cos` and `pow10` give the logarithm to
    /// the base of ten, the exponential function, the cosine and the power of ten.
    pub fn new<
        L: Fn(Binary32) -> Binary32 + Copy,
        E: Fn(Binary32) -> Binary32 + Copy,
        C: Fn(Binary32) -> Binary32,
        P: Fn(Binary32) -> Binary32,
    >(config: &Config, log10: L, exp: E, cos: C, pow10: P) -> (r: Self)
        requires
            1 <= hop_of(*config) <= config.processing.fft_size,
            forall|x: Binary32| #[trigger] call_requires(log10, (x,)),
            forall|x: Binary32| #[trigger] call_requires(exp, (x,)),
            forall|x: Binary32| #[trigger] call_requires(cos, (x,)),
            forall|x: Binary32| #[trigger] call_requires(pow10, (x,)),
        ensures
            r.wf(),
            fresh_filter(r@, *config, log10, exp, cos, pow10),
            !r.recording(),
            r.record() == empty_record(),
    {
        let fft_size = config.processing.fft_size;
        FilterState {
            pipeline: DspPipeline::new(config, log10, exp, cos),
            masking: config.masking,
            hop_size: config.hop_size(),
            music_gain: db_to_gain(config.output.music_gain_db, pow10),
            music_window_l: silence(fft_size),
            music_window_r: silence(fft_size),
            voice_window_l: silence(fft_size),
            voice_window_r: silence(fft_size),
            music_accum_l: silence(fft_size),
            music_accum_r: silence(fft_size),
            voice_accum_l: silence(fft_size),
            voice_accum_r: silence(fft_size),
            output_l: Vec::new(),
            output_r: Vec::new(),
            samples_since_last_hop: 0,
            debug_music_l: Vec::new(),
            debug_music_r: Vec::new(),
            debug_voice_l: Vec::new(),
            debug_voice_r: Vec::new(),
            debug_output_l: Vec::new(),
            debug_output_r: Vec::new(),
            debug_recording: false,
        }
    }

    /// Records all cycles from now on, beginning with nothing.
    pub fn enable_debug_recording(&mut self)
        ensures
            final(self)@ == old(self)@,
            final(self).recording(),
            final(self).record() == empty_record(),
    {
        self.debug_music_l = Vec::new();
        self.debug_music_r = Vec::new();
        self.debug_voice_l = Vec::new();
        self.debug_voice_r = Vec::new();
        self.debug_output_l = Vec::new();
        self.debug_output_r = Vec::new();
        self.debug_recording = true;
    }

    /// What was recorded of the left and right channel of the music, the voice and the output.
    pub fn take_record(&mut self) -> (r: [(Vec<Binary32>, Vec<Binary32>); 3])
        ensures
            final(self)@ == old(self)@,
            final(self).recording() == old(self).recording(),
            final(self).record() == empty_record(),
            r@[0].0@ == old(self).record().music_l,
            r@[0].1@ == old(self).record().music_r,
            r@[1].0@ == old(self).record().voice_l,
            r@[1].1@ == old(self).record().voice_r,
            r@[2].0@ == old(self).record().output_l,
            r@[2].1@ == old(self).record().output_r,
    {
        let mut music = (Vec::new(), Vec::new());
        let mut voice = (Vec::new(), Vec::new());
        let mut output = (Vec::new(), Vec::new());
        std::mem::swap(&mut music.0, &mut self.debug_music_l);
        std::mem::swap(&mut music.1, &mut self.debug_music_r);
        std::mem::swap(&mut voice.0, &mut self.debug_voice_l);
        std::mem::swap(&mut voice.1, &mut self.debug_voice_r);
        std::mem::swap(&mut output.0, &mut self.debug_output_l);
        std::mem::swap(&mut output.1, &mut self.debug_output_r);
        [music, voice, output]
    }
}

/// What feeding does up to a hop boundary.
proof fn lemma_fed_boundary<
    L: Fn(Binary32) -> Binary32,
    P: Fn(Binary32) -> Binary32,
    N: Fn(Complex) -> Binary32,
    F: Fn(Vec<Binary32>) -> Vec<Complex>,
    I: Fn(Vec<Complex>) -> Vec<Binary32>,
>(
    tools: Tools<L, P, N, F, I>,
    f: FilterView,
    q: FrameInput,
    from: int,
    chunk: int,
    h: HopHeard,
    rest: Seq<HopHeard>,
)
    requires
        0 <= from < q.music_l.len(),
        chunk == next_chunk(f, q.music_l.len() - from),
        chunk >= 1,
        chunk_in(f, q, from, chunk).pending == f.hop_size,
        frame_heard(
            tools,
            f.pipeline,
            chunk_in(f, q, from, chunk).windows,
            masking_now(f.masking, h.params),
            h.params.compression_mix,
            h.frame,
        ),
    ensures
        fed(f, q, from, seq![h] + rest) == fed(
            hop_done(chunk_in(f, q, from, chunk), h),
            q,
            from + chunk,
            rest,
        ),
        fed_heard(
            tools,
            hop_done(chunk_in(f, q, from, chunk), h),
            q,
            from + chunk,
            rest,
        ) ==> fed_heard(tools, f, q, from, seq![h] + rest),
{
    let with = seq![h] + rest;
    assert(with[0] == h);
    assert(with.skip(1) =~= rest);
}

/// What feeding does where a cycle ends before a hop boundary.
proof fn lemma_fed_inside<
    L: Fn(Binary32) -> Binary32,
    P: Fn(Binary32) -> Binary32,
    N: Fn(Complex) -> Binary32,
    F: Fn(Vec<Binary32>) -> Vec<Complex>,
    I: Fn(Vec<Complex>) -> Vec<Binary32>,
>(
    tools: Tools<L, P, N, F, I>,
    f: FilterView,
    q: FrameInput,
    from: int,
    chunk: int,
    rest: Seq<HopHeard>,
)
    requires
        0 <= from < q.music_l.len(),
        chunk == next_chunk(f, q.music_l.len() - from),
        chunk >= 1,
        chunk_in(f, q, from, chunk).pending != f.hop_size,
    ensures
        fed(f, q, from, rest) == fed(
            chunk_in(f, q, from, chunk),
            q,
            from + chunk,
            rest,
        ),
        fed_heard(tools, chunk_in(f, q, from, chunk), q, from + chunk, rest)
            ==> fed_heard(tools, f, q, from, rest),
{
}

/// Whether feeding a whole cycle comes down to feeding what is left of it, with what was heard
/// so far in front.
spec fn so_far<
    L: Fn(Binary32) -> Binary32,
    P: Fn(Binary32) -> Binary32,
    N: Fn(Complex) -> Binary32,
    F: Fn(Vec<Binary32>) -> Vec<Complex>,
    I: Fn(Vec<Complex>) -> Vec<Binary32>,
>(
    tools: Tools<L, P, N, F, I>,
    start: FilterView,
    q: FrameInput,
    heard: Seq<HopHeard>,
    now: FilterView,
    from: int,
) -> bool {
    &&& forall|rest: Seq<HopHeard>|
        fed(start, q, 0, #[trigger] (heard + rest)) == fed(now, q, from, rest)
    &&& forall|rest: Seq<HopHeard>|
        fed_heard(tools, now, q, from, rest) ==> fed_heard(
            tools,
            start,
            q,
            0,
            #[trigger] (heard + rest),
        )
}

/// One more chunk, up to a hop boundary.
proof fn lemma_so_far_boundary<
    L: Fn(Binary32) -> Binary32,
    P: Fn(Binary32) -> Binary32,
    N: Fn(Complex) -> Binary32,
    F: Fn(Vec<Binary32>) -> Vec<Complex>,
    I: Fn(Vec<Complex>) -> Vec<Binary32>,
>(
    tools: Tools<L, P, N, F, I>,
    start: FilterView,
    q: FrameInput,
    heard: Seq<HopHeard>,
    f: FilterView,
    from: int,
    chunk: int,
    h: HopHeard,
)
    requires
        so_far(tools, start, q, heard, f, from),
        0 <= from < q.music_l.len(),
        chunk == next_chunk(f, q.music_l.len() - from),
        chunk >= 1,
        chunk_in(f, q, from, chunk).pending == f.hop_size,
        frame_heard(
            tools,
            f.pipeline,
            chunk_in(f, q, from, chunk).windows,
            masking_now(f.masking, h.params),
            h.params.compression_mix,
            h.frame,
        ),
    ensures
        so_far(
            tools,
            start,
            q,
            heard.push(h),
            hop_done(chunk_in(f, q, from, chunk), h),
            from + chunk,
        ),
{
    let longer = heard.push(h);
    let now = hop_done(chunk_in(f, q, from, chunk), h);
    assert forall|rest: Seq<HopHeard>|
        fed(start, q, 0, #[trigger] (longer + rest)) == fed(
            now,
            q,
            from + chunk,
            rest,
        ) by {
        lemma_fed_boundary(tools, f, q, from, chunk, h, rest);
        assert(longer + rest =~= heard + (seq![h] + rest));
    }
    assert forall|rest: Seq<HopHeard>|
        fed_heard(tools, now, q, from + chunk, rest) implies fed_heard(
        tools,
        start,
        q,
        0,
        #[trigger] (longer + rest),
    ) by {
        lemma_fed_boundary(tools, f, q, from, chunk, h, rest);
        assert(longer + rest =~= heard + (seq![h] + rest));
    }
}

/// One more chunk, the last one of a cycle.
proof fn lemma_so_far_inside<
    L: Fn(Binary32) -> Binary32,
    P: Fn(Binary32) -> Binary32,
    N: Fn(Complex) -> Binary32,
    F: Fn(Vec<Binary32>) -> Vec<Complex>,
    I: Fn(Vec<Complex>) -> Vec<Binary32>,
>(
    tools: Tools<L, P, N, F, I>,
    start: FilterView,
    q: FrameInput,
    heard: Seq<HopHeard>,
    f: FilterView,
    from: int,
    chunk: int,
)
    requires
        so_far(tools, start, q, heard, f, from),
        0 <= from < q.music_l.len(),
        chunk == next_chunk(f, q.music_l.len() - from),
        chunk >= 1,
        chunk_in(f, q, from, chunk).pending != f.hop_size,
    ensures
        so_far(tools, start, q, heard, chunk_in(f, q, from, chunk), from + chunk),
{
    let now = chunk_in(f, q, from, chunk);
    assert forall|rest: Seq<HopHeard>|
        fed(start, q, 0, #[trigger] (heard + rest)) == fed(
            now,
            q,
            from + chunk,
            rest,
        ) by {
        lemma_fed_inside(tools, f, q, from, chunk, rest);
    }
    assert forall|rest: Seq<HopHeard>|
        fed_heard(tools, now, q, from + chunk, rest) implies fed_heard(
        tools,
        start,
        q,
        0,
        #[trigger] (heard + rest),
    ) by {
        lemma_fed_inside(tools, f, q, from, chunk, rest);
    }
}

/// Before a cycle nothing was heard.
proof fn lemma_so_far_nothing<
    L: Fn(Binary32) -> Binary32,
    P: Fn(Binary32) -> Binary32,
    N: Fn(Complex) -> Binary32,
    F: Fn(Vec<Binary32>) -> Vec<Complex>,
    I: Fn(Vec<Complex>) -> Vec<Binary32>,
>(tools: Tools<L, P, N, F, I>, start: FilterView, q: FrameInput)
    ensures
        so_far(tools, start, q, Seq::empty(), start, 0),
{
    assert forall|rest: Seq<HopHeard>| #[trigger] (Seq::<HopHeard>::empty() + rest) == rest by {
        assert(Seq::<HopHeard>::empty() + rest =~= rest);
    }
}

/// After a cycle the filter is what feeding all of it gives.
proof fn lemma_so_far_all<
    L: Fn(Binary32) -> Binary32,
    P: Fn(Binary32) -> Binary32,
    N: Fn(Complex) -> Binary32,
    F: Fn(Vec<Binary32>) -> Vec<Complex>,
    I: Fn(Vec<Complex>) -> Vec<Binary32>,
>(
    tools: Tools<L, P, N, F, I>,
    start: FilterView,
    q: FrameInput,
    heard: Seq<HopHeard>,
    now: FilterView,
)
    requires
        so_far(tools, start, q, heard, now, q.music_l.len() as int),
    ensures
        fed(start, q, 0, heard) == now,
        fed_heard(tools, start, q, 0, heard),
{
    let none = Seq::<HopHeard>::empty();
    assert(heard + none =~= heard);
    assert(fed(start, q, 0, heard + none) == fed(
        now,
        q,
        q.music_l.len() as int,
        none,
    ));
    assert(fed_heard(tools, now, q, q.music_l.len() as int, none));
}

impl FilterState {
    /// Takes in a chunk of samples of each input.
    fn take_in(
        &mut self,
        music_l: &[Binary32],
        music_r: &[Binary32],
        voice_l: &[Binary32],
        voice_r: &[Binary32],
        from: usize,
        to: usize,
        Ghost(q): Ghost<FrameInput>,
    )
        requires
            filter_ok(old(self)@),
            q == (FrameInput {
                music_l: music_l@,
                music_r: music_r@,
                voice_l: voice_l@,
                voice_r: voice_r@,
            }),
            even_input(q),
            from <= to <= q.music_l.len(),
            old(self)@.pending + (to - from) <= old(self)@.hop_size,
        ensures
            final(self)@ == chunk_in(old(self)@, q, from as int, to - from),
            final(self).recording() == old(self).recording(),
            final(self).record() == old(self).record(),
    {
        let ghost before = self@;
        shift_and_append(self.music_window_l.as_mut_slice(), slice_subrange(music_l, from, to));
        shift_and_append(self.music_window_r.as_mut_slice(), slice_subrange(music_r, from, to));
        shift_and_append(self.voice_window_l.as_mut_slice(), slice_subrange(voice_l, from, to));
        shift_and_append(self.voice_window_r.as_mut_slice(), slice_subrange(voice_r, from, to));
        self.samples_since_last_hop = self.samples_since_last_hop + (to - from);
        assert(self@ == chunk_in(before, q, from as int, to - from));
    }

    /// Processes the frame that is due at a hop boundary, and queues a hop of the mix.
    fn finish_hop<
        L: Fn(Binary32) -> Binary32 + Copy,
        P: Fn(Binary32) -> Binary32 + Copy,
        N: Fn(Complex) -> Binary32 + Copy,
        F: Fn(Vec<Binary32>) -> Vec<Complex> + Copy,
        I: Fn(Vec<Complex>) -> Vec<Binary32> + Copy,
    >(&mut self, params: RuntimeParams, tools: &Tools<L, P, N, F, I>) -> (r: Ghost<HopHeard>)
        requires
            filter_ok((FilterView { pending: 0, ..old(self)@ })),
            usable(*tools, old(self)@.pipeline.window.len()),
            reduces(tools.pow10, masking_now(old(self)@.masking, params)),
            old(self)@.pipeline.frame_count < u64::MAX,
        ensures
            final(self)@ == hop_done(old(self)@, r@),
            frame_heard(
                *tools,
                old(self)@.pipeline,
                old(self)@.windows,
                masking_now(old(self)@.masking, params),
                params.compression_mix,
                r@.frame,
            ),
            r@.params == params,
            final(self).recording() == old(self).recording(),
            final(self).record() == old(self).record(),
    {
        let ghost before = self@;
        self.samples_since_last_hop = 0;
        let masking = params.masking(&self.masking);
        let hop_size = self.hop_size;
        let _mean = self.pipeline.process_frame(
            self.music_window_l.as_slice(),
            self.music_window_r.as_slice(),
            self.voice_window_l.as_slice(),
            self.voice_window_r.as_slice(),
            &masking,
            self.music_accum_l.as_mut_slice(),
            self.music_accum_r.as_mut_slice(),
            self.voice_accum_l.as_mut_slice(),
            self.voice_accum_r.as_mut_slice(),
            0,
            params.compression_mix,
            tools,
        );
        let ghost sums = self@.accums;
        let ghost heard = choose|heard: FrameHeard| #[trigger]
            frame_heard(
                *tools,
                before.pipeline,
                before.windows,
                masking,
                params.compression_mix,
                heard,
            ) && self.pipeline@ == pipeline_after(
                before.pipeline,
                before.windows,
                masking,
                heard,
            ) && sums == accums_after(before.accums, before.pipeline.window, heard, 0);
        let mut mix_l = silence(hop_size);
        let mut mix_r = silence(hop_size);
        mix_frame(
            self.music_accum_l.as_slice(),
            self.voice_accum_l.as_slice(),
            self.music_gain,
            params.voice_gain,
            mix_l.as_mut_slice(),
        );
        mix_frame(
            self.music_accum_r.as_slice(),
            self.voice_accum_r.as_slice(),
            self.music_gain,
            params.voice_gain,
            mix_r.as_mut_slice(),
        );
        proof {
            assert(mix_l@ =~= mixed_hop(
                sums.music_l,
                sums.voice_l,
                before.music_gain,
                params.voice_gain,
                before.hop_size,
            ));
            assert(mix_r@ =~= mixed_hop(
                sums.music_r,
                sums.voice_r,
                before.music_gain,
                params.voice_gain,
                before.hop_size,
            ));
        }
        extend(&mut self.output_l, mix_l.as_slice());
        extend(&mut self.output_r, mix_r.as_slice());
        shift_out(self.music_accum_l.as_mut_slice(), hop_size);
        shift_out(self.music_accum_r.as_mut_slice(), hop_size);
        shift_out(self.voice_accum_l.as_mut_slice(), hop_size);
        shift_out(self.voice_accum_r.as_mut_slice(), hop_size);
        let ghost at_hop = HopHeard { params, frame: heard };
        assert(self@ == hop_done(before, at_hop));
        Ghost(at_hop)
    }

    /// Processes one cycle: takes in `n` samples of each input, silence for those that are not
    /// connected, and hands out as many of each output, silence for those that are not there
    /// yet. `params` gives the runtime values of the moment, and is asked at each hop boundary.
    pub fn process<
        L: Fn(Binary32) -> Binary32 + Copy,
        P: Fn(Binary32) -> Binary32 + Copy,
        N: Fn(Complex) -> Binary32 + Copy,
        F: Fn(Vec<Binary32>) -> Vec<Complex> + Copy,
        I: Fn(Vec<Complex>) -> Vec<Binary32> + Copy,
        R: Fn() -> RuntimeParams,
    >(
        &mut self,
        n: usize,
        music_l: Option<&[Binary32]>,
        music_r: Option<&[Binary32]>,
        voice_l: Option<&[Binary32]>,
        voice_r: Option<&[Binary32]>,
        params: R,
        tools: &Tools<L, P, N, F, I>,
    ) -> (r: (Vec<Binary32>, Vec<Binary32>))
        requires
            old(self).wf(),
            n <= MAX_QUANTUM,
            music_l matches Some(s) ==> s@.len() == n,
            music_r matches Some(s) ==> s@.len() == n,
            voice_l matches Some(s) ==> s@.len() == n,
            voice_r matches Some(s) ==> s@.len() == n,
            usable(*tools, old(self)@.pipeline.window.len()),
            call_requires(params, ()),
            forall|p: RuntimeParams| #[trigger]
                call_ensures(params, (), p) ==> reduces(
                    tools.pow10,
                    masking_now(old(self)@.masking, p),
                ),
            old(self)@.pipeline.frame_count <= u64::MAX - MAX_QUANTUM,
        ensures
            final(self).wf(),
            exists|heard: Seq<HopHeard>| #[trigger]
                fed_heard(
                    *tools,
                    old(self)@,
                    cycle_input(music_l, music_r, voice_l, voice_r, n as nat),
                    0,
                    heard,
                ) && ({
                    let q = cycle_input(music_l, music_r, voice_l, voice_r, n as nat);
                    let f = fed(old(self)@, q, 0, heard);
                    &&& final(self)@ == after_handing_out(f, n as nat)
                    &&& r.0@ == handed(f.queue_l, n as nat)
                    &&& r.1@ == handed(f.queue_r, n as nat)
                    &&& forall|i: int|
                        0 <= i < heard.len() ==> call_ensures(
                            params,
                            (),
                            (#[trigger] heard[i]).params,
                        )
                }),
            final(self).recording() == old(self).recording(),
            final(self).record() == recorded(
                old(self).record(),
                old(self).recording(),
                cycle_input(music_l, music_r, voice_l, voice_r, n as nat),
                r.0@,
                r.1@,
            ),
    {
        let ghost before = self@;
        let ghost q = cycle_input(music_l, music_r, voice_l, voice_r, n as nat);
        let unconnected = silence(n);
        let music_l = match music_l {
            Some(s) => s,
            None => unconnected.as_slice(),
        };
        let music_r = match music_r {
            Some(s) => s,
            None => unconnected.as_slice(),
        };
        let voice_l = match voice_l {
            Some(s) => s,
            None => unconnected.as_slice(),
        };
        let voice_r = match voice_r {
            Some(s) => s,
            None => unconnected.as_slice(),
        };
        let ghost mut heard: Seq<HopHeard> = Seq::empty();
        let ghost recording = self.recording();
        let ghost record = self.record();
        let mut offset: usize = 0;
        proof {
            lemma_so_far_nothing(*tools, before, q);
        }
        while offset < n
            invariant
                offset <= n,
                n == q.music_l.len(),
                n <= MAX_QUANTUM,
                q == (FrameInput {
                    music_l: music_l@,
                    music_r: music_r@,
                    voice_l: voice_l@,
                    voice_r: voice_r@,
                }),
                even_input(q),
                filter_ok(self@),
                self@.hop_size == before.hop_size,
                self@.masking == before.masking,
                self@.pipeline.window == before.pipeline.window,
                usable(*tools, before.pipeline.window.len()),
                call_requires(params, ()),
                forall|p: RuntimeParams| #[trigger]
                    call_ensures(params, (), p) ==> reduces(
                        tools.pow10,
                        masking_now(before.masking, p),
                    ),
                forall|i: int|
                    0 <= i < heard.len() ==> call_ensures(
                        params,
                        (),
                        (#[trigger] heard[i]).params,
                    ),
                before.pipeline.frame_count <= u64::MAX - MAX_QUANTUM,
                self@.pipeline.frame_count <= before.pipeline.frame_count + offset,
                self.recording() == recording,
                self.record() == record,
                so_far(*tools, before, q, heard, self@, offset as int),
            decreases n - offset,
        {
            let ghost f = self@;
            proof {
                lemma_chunk_in(f, q, offset as int);
            }
            let mut chunk: usize = self.hop_size - self.samples_since_last_hop;
            if n - offset < chunk {
                chunk = n - offset;
            }
            let end: usize = offset + chunk;
            self.take_in(music_l, music_r, voice_l, voice_r, offset, end, Ghost(q));
            let ghost g = self@;
            if self.samples_since_last_hop == self.hop_size {
                let now = params();
                let Ghost(h) = self.finish_hop(now, tools);
                proof {
                    lemma_hop_done(g, h);
                    lemma_so_far_boundary(
                        *tools,
                        before,
                        q,
                        heard,
                        f,
                        offset as int,
                        chunk as int,
                        h,
                    );
                    heard = heard.push(h);
                }
            } else {
                proof {
                    lemma_so_far_inside(
                        *tools,
                        before,
                        q,
                        heard,
                        f,
                        offset as int,
                        chunk as int,
                    );
                }
            }
            offset = end;
        }
        let ghost filled = self@;
        proof {
            lemma_so_far_all(*tools, before, q, heard, filled);
            feeding_loses_nothing(before, q, 0, heard);
        }
        let out_l = drain(&mut self.output_l, n);
        let out_r = drain(&mut self.output_r, n);
        if self.debug_recording {
            extend(&mut self.debug_music_l, music_l);
            extend(&mut self.debug_music_r, music_r);
            extend(&mut self.debug_voice_l, voice_l);
            extend(&mut self.debug_voice_r, voice_r);
            extend(&mut self.debug_output_l, out_l.as_slice());
            extend(&mut self.debug_output_r, out_r.as_slice());
        }
        assert(self@ == after_handing_out(filled, n as nat));
        (out_l, out_r)
    }
}

/// A record of nothing.
pub open spec fn empty_record() -> Record {
    Record {
        music_l: Seq::empty(),
        music_r: Seq::empty(),
        voice_l: Seq::empty(),
        voice_r: Seq::empty(),
        output_l: Seq::empty(),
        output_r: Seq::empty(),
    }
}

} // verus!
