//! The spectral mask: how much of each frequency bin of the music is kept while a voice is
//! heard.

use crate::arith::{count, difference, product, quotient, sum};
use crate::binary32::{Binary32, ONE};
use crate::blend::{blend, blended, one, zero};
use crate::config::MaskingConfig;
use vstd::prelude::*;

verus! {

/// The bit pattern of 0.3, the weight of the old value while a mask falls.
pub const ATTACK: u32 = 0x3e99_999a;

/// The bit pattern of 0.85, the weight of the old value while a mask rises.
pub const RELEASE: u32 = 0x3f59_999a;

/// The bit pattern of 1e-10, which keeps quotients from a zero divisor.
pub const EPSILON: u32 = 0x2edb_e6ff;

/// The bit pattern of two.
pub const TWO: u32 = 0x4000_0000;

/// How many bins a frame's spectrum has.
pub open spec fn bins(fft_size: usize) -> nat {
    (fft_size / 2 + 1) as nat
}

/// The frequency of a bin.
pub open spec fn frequency(k: int, fft_size: usize, sample_rate: u32) -> Binary32 {
    quotient(product(count(k as nat), count(sample_rate as nat)), count(fft_size as nat))
}

/// What lies at a share `t` of the way between two numbers.
pub open spec fn between(a: Binary32, b: Binary32, t: Binary32) -> Binary32 {
    sum(a, product(t, difference(b, a)))
}

/// Linear interpolation: `a + t * (b - a)`
fn lerp(a: Binary32, b: Binary32, t: Binary32) -> (r: Binary32)
    ensures
        r == between(a, b, t),
{
    a.plus(t.times(b.minus(a)))
}

/// The weight of a frequency in the focus band: one inside, falling to zero over one octave on
/// each side.
pub open spec fn focus(freq: Binary32, low_hz: Binary32, high_hz: Binary32) -> Binary32 {
    let under = quotient(low_hz, Binary32 { bits: TWO });
    let over = product(high_hz, Binary32 { bits: TWO });
    if freq.at_most(zero()) {
        zero()
    } else if low_hz.at_most(freq) && freq.at_most(high_hz) {
        one()
    } else if freq.less(low_hz) {
        if freq.at_most(under) {
            zero()
        } else {
            quotient(difference(freq, under), difference(low_hz, under))
        }
    } else if over.at_most(freq) {
        zero()
    } else {
        quotient(difference(over, freq), difference(over, high_hz))
    }
}

/// The weight of a frequency in the focus band.
fn focus_weight(freq: Binary32, low_hz: Binary32, high_hz: Binary32) -> (r: Binary32)
    ensures
        r == focus(freq, low_hz, high_hz),
{
    let zero = Binary32 { bits: 0 };
    let two = Binary32 { bits: TWO };
    if freq.le(zero) {
        return zero;
    }
    if low_hz.le(freq) && freq.le(high_hz) {
        return Binary32 { bits: ONE };
    }
    if freq.lt(low_hz) {
        // One octave below the band.
        let edge = low_hz.over(two);
        if freq.le(edge) {
            return zero;
        }
        return freq.minus(edge).over(low_hz.minus(edge));
    }
    // One octave above the band.
    let edge = high_hz.times(two);
    if edge.le(freq) {
        return zero;
    }
    edge.minus(freq).over(edge.minus(high_hz))
}

/// The mask of a bin by the ratio of voice to music alone.
pub open spec fn by_ratio(
    voice: Binary32,
    music: Binary32,
    floor: Binary32,
    config: MaskingConfig,
) -> Binary32 {
    let ratio = quotient(voice, sum(music, Binary32 { bits: EPSILON }));
    let scaled = product(ratio, config.sensitivity).held(zero(), difference(one(), floor));
    difference(one(), product(config.depth, scaled))
}

/// The weight that the focus band gives to masking at a frequency.
pub open spec fn focused(freq: Binary32, config: MaskingConfig) -> Binary32 {
    blended(config.focus_strength, focus(freq, config.focus_low_hz, config.focus_high_hz), one())
}

/// The mask of a bin by itself: by the ratio of voice to music, one below the protected
/// frequency, and nearer to one outside of the focus band.
pub open spec fn shaped(
    voice: Binary32,
    music: Binary32,
    floor: Binary32,
    freq: Binary32,
    config: MaskingConfig,
) -> Binary32 {
    let raw = if freq.less(config.sub_bass_protect_hz) {
        one()
    } else {
        by_ratio(voice, music, floor, config)
    };
    between(one(), raw, focused(freq, config))
}

/// The sum of numbers, from the first one on.
pub open spec fn total(s: Seq<Binary32>) -> Binary32
    decreases s.len(),
{
    if s.len() == 0 {
        zero()
    } else {
        sum(total(s.drop_last()), s.last())
    }
}

/// The first bin that a mean around a bin takes in.
pub open spec fn mean_start(k: int, width: usize) -> int {
    if k < width / 2 {
        0
    } else {
        k - width / 2
    }
}

/// The bin after the last one that a mean around a bin takes in.
pub open spec fn mean_end(k: int, width: usize, len: nat) -> int {
    if k + width / 2 + 1 < len {
        k + width / 2 + 1
    } else {
        len as int
    }
}

/// The mean of the bins around a bin.
pub open spec fn mean_at(mask: Seq<Binary32>, width: usize, k: int) -> Binary32 {
    let start = mean_start(k, width);
    let end = mean_end(k, width, mask.len());
    quotient(total(mask.subrange(start, end)), count((end - start) as nat))
}

/// The mask averaged over neighbouring bins.
pub open spec fn averaged(mask: Seq<Binary32>, width: usize) -> Seq<Binary32> {
    if width > 1 {
        Seq::new(mask.len(), |k: int| mean_at(mask, width, k))
    } else {
        mask
    }
}

/// The mask with the voice gate applied: one everywhere while the voice gate is closed.
pub open spec fn gated(m: Binary32, gate: Binary32) -> Binary32 {
    if gate.code() == 0 {
        one()
    } else {
        between(one(), m, gate)
    }
}

/// The masks of all bins, each by itself.
pub open spec fn all_shaped(
    voice: Seq<Binary32>,
    music: Seq<Binary32>,
    floor: Binary32,
    fft_size: usize,
    sample_rate: u32,
    config: MaskingConfig,
) -> Seq<Binary32> {
    Seq::new(
        bins(fft_size),
        |k: int| shaped(voice[k], music[k], floor, frequency(k, fft_size, sample_rate), config),
    )
}

/// The mask that a frame asks for.
pub open spec fn wanted(
    shapes: Seq<Binary32>,
    gate: Binary32,
    floor: Binary32,
    width: usize,
) -> Seq<Binary32> {
    Seq::new(
        shapes.len(),
        |k: int| gated(averaged(shapes, width)[k], gate).greater(floor),
    )
}

/// The next smoothed value: quick to fall, slow to rise.
pub open spec fn follow(old_value: Binary32, m: Binary32) -> Binary32 {
    if m.less(old_value) {
        blended(Binary32 { bits: ATTACK }, old_value, m)
    } else {
        blended(Binary32 { bits: RELEASE }, old_value, m)
    }
}

/// The smoothed mask after a frame.
pub open spec fn followed(before: Seq<Binary32>, frame: Seq<Binary32>) -> Seq<Binary32> {
    Seq::new(before.len(), |k: int| follow(before[k], frame[k]))
}

/// What is handed out of a smoothed mask: never below the floor, and one below the protected
/// frequency.
pub open spec fn handed_out(
    smoothed: Seq<Binary32>,
    floor: Binary32,
    fft_size: usize,
    sample_rate: u32,
    config: MaskingConfig,
) -> Seq<Binary32> {
    Seq::new(
        smoothed.len(),
        |k: int|
            if frequency(k, fft_size, sample_rate).less(config.sub_bass_protect_hz) {
                one()
            } else {
                smoothed[k].greater(floor)
            },
    )
}

/// What a mask remembers: the frame size, the sample rate and the smoothed mask.
pub ghost struct MaskView {
    pub fft_size: usize,
    pub sample_rate: u32,
    pub smoothed: Seq<Binary32>,
}

/// The mask after one frame.
pub open spec fn mask_after(
    before: MaskView,
    voice: Seq<Binary32>,
    music: Seq<Binary32>,
    gate: Binary32,
    floor: Binary32,
    config: MaskingConfig,
) -> MaskView {
    let shapes = all_shaped(voice, music, floor, before.fft_size, before.sample_rate, config);
    let frame = wanted(shapes, gate, floor, config.spectral_smooth_bins);
    MaskView { smoothed: followed(before.smoothed, frame), ..before }
}

/// Builds the mask of one channel, frame by frame.
#[derive(Debug)]
pub struct SpectralMask {
    smoothed_mask: Vec<Binary32>,
    fft_size: usize,
    sample_rate: u32,
}

impl View for SpectralMask {
    type V = MaskView;

    closed spec fn view(&self) -> MaskView {
        MaskView {
            fft_size: self.fft_size,
            sample_rate: self.sample_rate,
            smoothed: self.smoothed_mask@,
        }
    }
}

impl SpectralMask {
    /// Whether the mask has a value for each bin.
    pub open spec fn wf(&self) -> bool {
        self@.smoothed.len() == bins(self@.fft_size)
    }

    /// A mask that leaves all music untouched.
    pub fn new(fft_size: usize, sample_rate: u32) -> (r: Self)
        ensures
            r.wf(),
            r@ == (MaskView {
                fft_size,
                sample_rate,
                smoothed: Seq::new(bins(fft_size), |k: int| one()),
            }),
    {
        let mut smoothed_mask: Vec<Binary32> = Vec::new();
        let len: usize = fft_size / 2 + 1;
        while smoothed_mask.len() < len
            invariant
                len == bins(fft_size),
                smoothed_mask.len() <= len,
                forall|k: int| 0 <= k < smoothed_mask.len() ==> smoothed_mask[k] == one(),
            decreases len - smoothed_mask.len(),
        {
            smoothed_mask.push(Binary32 { bits: ONE });
        }
        let r = SpectralMask { smoothed_mask, fft_size, sample_rate };
        assert(r@.smoothed =~= Seq::new(bins(fft_size), |k: int| one()));
        r
    }

    /// The number of bins of a frame's spectrum.
    pub fn spectrum_len(&self) -> (r: usize)
        ensures
            r == bins(self@.fft_size),
    {
        self.fft_size / 2 + 1
    }

    /// The frequency of a bin.
    fn bin_freq(&self, k: usize) -> (r: Binary32)
        ensures
            r == frequency(k as int, self@.fft_size, self@.sample_rate),
    {
        let rate = Binary32::of_count(self.sample_rate as usize);
        Binary32::of_count(k).times(rate).over(Binary32::of_count(self.fft_size))
    }

    /// The masks of all bins, each by itself.
    fn shape(
        &self,
        voice_mag: &[Binary32],
        music_mag: &[Binary32],
        floor: Binary32,
        config: &MaskingConfig,
    ) -> (r: Vec<Binary32>)
        requires
            voice_mag@.len() == bins(self@.fft_size),
            music_mag@.len() == bins(self@.fft_size),
            floor.at_most(one()),
        ensures
            r@ == all_shaped(
                voice_mag@,
                music_mag@,
                floor,
                self@.fft_size,
                self@.sample_rate,
                *config,
            ),
    {
        let one = Binary32 { bits: ONE };
        let zero = Binary32 { bits: 0 };
        let max_reduction = one.minus(floor);
        proof {
            lemma_room_below_one(floor);
        }
        let len: usize = self.spectrum_len();
        let mut mask: Vec<Binary32> = Vec::new();
        while mask.len() < len
            invariant
                len == bins(self@.fft_size),
                one == crate::blend::one(),
                zero == crate::blend::zero(),
                max_reduction == difference(one, floor),
                zero.at_most(max_reduction),
                voice_mag@.len() == len,
                music_mag@.len() == len,
                mask.len() <= len,
                forall|k: int|
                    0 <= k < mask.len() ==> mask[k] == shaped(
                        voice_mag@[k],
                        music_mag@[k],
                        floor,
                        frequency(k, self@.fft_size, self@.sample_rate),
                        *config,
                    ),
            decreases len - mask.len(),
        {
            let k: usize = mask.len();
            let freq = self.bin_freq(k);
            let raw = if freq.lt(config.sub_bass_protect_hz) {
                one
            } else {
                let ratio = voice_mag[k].over(music_mag[k].plus(Binary32 { bits: EPSILON }));
                let scaled = ratio.times(config.sensitivity).clamp(zero, max_reduction);
                one.minus(config.depth.times(scaled))
            };
            let weight = blend(
                config.focus_strength,
                focus_weight(freq, config.focus_low_hz, config.focus_high_hz),
                one,
            );
            mask.push(lerp(one, raw, weight));
        }
        assert(mask@ =~= all_shaped(
            voice_mag@,
            music_mag@,
            floor,
            self@.fft_size,
            self@.sample_rate,
            *config,
        ));
        mask
    }

    /// Builds the mask of a frame from the magnitudes of voice and music: one for each bin of
    /// the music that is to be left untouched, `floor` for the greatest reduction. `floor` is
    /// 10 to the power of what `gain_exponent` gives for the greatest reduction.
    pub fn build_mask(
        &mut self,
        voice_mag: &[Binary32],
        music_mag: &[Binary32],
        gate_value: Binary32,
        config: &MaskingConfig,
        floor: Binary32,
    ) -> (r: Vec<Binary32>)
        requires
            old(self).wf(),
            voice_mag@.len() == bins(old(self)@.fft_size),
            music_mag@.len() == bins(old(self)@.fft_size),
            floor.at_most(one()),
        ensures
            final(self).wf(),
            final(self)@ == mask_after(
                old(self)@,
                voice_mag@,
                music_mag@,
                gate_value,
                floor,
                *config,
            ),
            r@ == handed_out(
                final(self)@.smoothed,
                floor,
                old(self)@.fft_size,
                old(self)@.sample_rate,
                *config,
            ),
    {
        let ghost before = self@;
        let shapes = self.shape(voice_mag, music_mag, floor, config);
        let ghost shaped_seq = shapes@;
        let mask = if config.spectral_smooth_bins > 1 {
            spectral_smooth(&shapes, config.spectral_smooth_bins)
        } else {
            shapes
        };
        let ghost frame = wanted(shaped_seq, gate_value, floor, config.spectral_smooth_bins);
        let len: usize = mask.len();
        let mut handed: Vec<Binary32> = Vec::new();
        let mut k: usize = 0;
        while k < len
            invariant
                k <= len,
                len == mask.len(),
                len == bins(before.fft_size),
                self@.fft_size == before.fft_size,
                self@.sample_rate == before.sample_rate,
                before.smoothed.len() == len,
                self.smoothed_mask.len() == len,
                handed.len() == k,
                mask@ == averaged(shaped_seq, config.spectral_smooth_bins),
                shaped_seq.len() == len,
                frame == wanted(shaped_seq, gate_value, floor, config.spectral_smooth_bins),
                forall|j: int|
                    0 <= j < k ==> self.smoothed_mask[j] == follow(before.smoothed[j], frame[j]),
                forall|j: int| k <= j < len ==> self.smoothed_mask[j] == before.smoothed[j],
                forall|j: int|
                    0 <= j < k ==> handed[j] == if frequency(
                        j,
                        before.fft_size,
                        before.sample_rate,
                    ).less(config.sub_bass_protect_hz) {
                        one()
                    } else {
                        self.smoothed_mask[j].greater(floor)
                    },
            decreases len - k,
        {
            // While the voice gate is closed, the music passes untouched.
            let open = if gate_value.to_code() == 0 {
                Binary32 { bits: ONE }
            } else {
                lerp(Binary32 { bits: ONE }, mask[k], gate_value)
            };
            let m = open.max(floor);
            assert(m == frame[k as int]);
            let old_value = self.smoothed_mask[k];
            let weight = if m.lt(old_value) {
                Binary32 { bits: ATTACK }
            } else {
                Binary32 { bits: RELEASE }
            };
            let smoothed = blend(weight, old_value, m);
            self.smoothed_mask.set(k, smoothed);
            let freq = self.bin_freq(k);
            if freq.lt(config.sub_bass_protect_hz) {
                handed.push(Binary32 { bits: ONE });
            } else {
                handed.push(smoothed.max(floor));
            }
            k = k + 1;
        }
        assert(self@.smoothed =~= followed(before.smoothed, frame));
        assert(handed@ =~= handed_out(
            self@.smoothed,
            floor,
            before.fft_size,
            before.sample_rate,
            *config,
        ));
        handed
    }
}

/// What a floor leaves up to one is not below zero.
proof fn lemma_room_below_one(floor: Binary32)
    requires
        floor.at_most(one()),
    ensures
        zero().at_most(difference(one(), floor)),
{
    crate::order::lemma_one();
    let t = floor.turned();
    assert(t.code() == floor.code());
    assert(t.value() == -floor.value());
    crate::binary32::lemma_mag_order(0, floor.code());
    crate::binary32::lemma_mag_order(ONE as nat, floor.code());
    if floor.finite() {
        crate::order::lemma_sum(one(), t);
        crate::order::lemma_near_order(0, one().value() + t.value());
        crate::order::lemma_near_exact(0);
    }
}

/// The mask averaged over neighbouring bins.
fn spectral_smooth(mask: &Vec<Binary32>, width: usize) -> (r: Vec<Binary32>)
    requires
        width > 1,
    ensures
        r@ == averaged(mask@, width),
{
    let half: usize = width / 2;
    let len: usize = mask.len();
    let mut out: Vec<Binary32> = Vec::new();
    while out.len() < len
        invariant
            half == width / 2,
            len == mask.len(),
            out.len() <= len,
            forall|k: int| 0 <= k < out.len() ==> out[k] == mean_at(mask@, width, k),
        decreases len - out.len(),
    {
        let k: usize = out.len();
        let start: usize = if k < half {
            0
        } else {
            k - half
        };
        let end: usize = if half < len - k - 1 {
            k + half + 1
        } else {
            len
        };
        let all = total_of(mask, start, end);
        out.push(all.over(Binary32::of_count(end - start)));
    }
    assert(out@ =~= averaged(mask@, width));
    out
}

/// The sum of the bins from `start` to before `end`.
pub fn total_of(mask: &Vec<Binary32>, start: usize, end: usize) -> (r: Binary32)
    requires
        start <= end <= mask.len(),
    ensures
        r == total(mask@.subrange(start as int, end as int)),
{
    let mut all = Binary32 { bits: 0 };
    let mut i: usize = start;
    assert(mask@.subrange(start as int, start as int).len() == 0);
    while i < end
        invariant
            start <= i <= end <= mask.len(),
            all == total(mask@.subrange(start as int, i as int)),
        decreases end - i,
    {
        proof {
            let part = mask@.subrange(start as int, i + 1);
            assert(part.drop_last() =~= mask@.subrange(start as int, i as int));
            assert(part.last() == mask@[i as int]);
        }
        all = all.plus(mask[i]);
        i = i + 1;
    }
    all
}

} // verus!
