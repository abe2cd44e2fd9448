//! What becomes of each sample and of each bin.

use crate::approx::{
    approx, approx_count, approx_product, approx_quotient, lemma_approx_cancel, PARTS,
};
use crate::arith::{count, difference, product, quotient, size, square_root, sum};
use crate::binary32::{lemma_mag_code, lemma_mag_order, Binary32, ONE};
use crate::blend::{one, zero};
use crate::compressor::amplified;
use crate::config::{MaskingConfig, HALF};
use crate::fft::{contribution, phase, windowed, FULL_CIRCLE};
use crate::level::{mean_root, power, powers_of, squares_of, Complex};
use crate::offline::{
    blended_channel, cut, lead_in, longer, padded, surrounded, weights_after, Recording,
};
use crate::order::{
    lemma_one, lemma_ratio_exact, lemma_zero_product, one_changes_nothing, same_number,
    zero_changes_nothing,
};
use crate::pipeline::{
    accums_after, channel_mask, masked, mean_mask, taken, Accums, FrameHeard, FrameInput,
    PipelineView,
};
use crate::silence_laws::frame_reaches;
use crate::spectral_mask::total;
use crate::stream::resized;
use vstd::arithmetic::power2::{
    lemma2_to64, lemma2_to64_rest, lemma_pow2_adds, lemma_pow2_pos, lemma_pow2_strictly_increases,
    pow2,
};
use vstd::prelude::*;

verus! {

/// A mask of one leaves a bin and takes nothing; a mask of zero takes the bin and leaves
/// nothing; in between, both parts of a bin are scaled alike.
pub proof fn masks_part_each_bin(spectrum: Seq<Complex>, mask: Seq<Binary32>, k: int)
    requires
        0 <= k < spectrum.len(),
        spectrum[k].re.finite(),
        spectrum[k].im.finite(),
    ensures
        masked(spectrum, mask).len() == spectrum.len(),
        taken(spectrum, mask).len() == spectrum.len(),
        mask[k] == one() ==> masked(spectrum, mask)[k] == spectrum[k],
        mask[k] == one() ==> taken(spectrum, mask)[k].re.code() == 0
            && taken(spectrum, mask)[k].im.code() == 0,
        mask[k].code() == 0 ==> masked(spectrum, mask)[k].re.code() == 0
            && masked(spectrum, mask)[k].im.code() == 0,
        mask[k].code() == 0 ==> taken(spectrum, mask)[k] == spectrum[k],
        masked(spectrum, mask)[k].re == product(spectrum[k].re, mask[k]),
        masked(spectrum, mask)[k].im == product(spectrum[k].im, mask[k]),
        mask[k] != one() ==> taken(spectrum, mask)[k].re == product(
            spectrum[k].re,
            difference(one(), mask[k]),
        ),
        mask[k] != one() ==> taken(spectrum, mask)[k].im == product(
            spectrum[k].im,
            difference(one(), mask[k]),
        ),
{
    lemma_one();
    one_changes_nothing(spectrum[k].re);
    one_changes_nothing(spectrum[k].im);
    if mask[k].code() == 0 {
        lemma_zero_product(spectrum[k].re, mask[k]);
        lemma_zero_product(spectrum[k].im, mask[k]);
        let t = mask[k].turned();
        assert(t.code() == 0);
        lemma_ratio_exact(ONE as nat, 1);
        assert(difference(one(), mask[k]) == one());
    }
}

/// The mean of both masks is half of the sum of their means, each the sum of its values by their
/// number.
pub proof fn mean_mask_is_that_of_both_sides(
    after: PipelineView,
    floor: Binary32,
    config: MaskingConfig,
)
    ensures
        ({
            let left = channel_mask(after.mask_l, floor, config);
            let right = channel_mask(after.mask_r, floor, config);
            mean_mask(after, floor, config) == product(
                sum(
                    quotient(total(left), count(left.len())),
                    quotient(total(right), count(right.len())),
                ),
                Binary32 { bits: HALF },
            )
        }),
{
}

/// The power of a bin is the same whichever of its parts is named first and whatever their
/// signs, and the square of a part where the other one is zero.
pub proof fn power_is_that_of_both_parts(re: Binary32, im: Binary32)
    ensures
        power(Complex { re, im }) == power(Complex { re: im, im: re }),
        power(Complex { re, im }) == power(Complex { re: re.turned(), im }),
        im.code() == 0 ==> same_number(power(Complex { re, im }), product(re, re)),
{
    lemma_one();
    let a = product(re, re);
    let b = product(im, im);
    assert(sum(a, b) == sum(b, a));
    let t = re.turned();
    assert(t.code() == re.code());
    assert(product(t, t) == a);
    if im.code() == 0 {
        lemma_zero_product(im, im);
        zero_changes_nothing(a, b);
    }
}

/// The loudness of a frame is the root of the sum of the squares of all of its samples by their
/// number, and that of a spectrum the same of the powers of all of its bins. Nothing has none.
pub proof fn loudness_is_the_root_of_the_mean(frame: Seq<Binary32>, spectrum: Seq<Complex>)
    ensures
        frame.len() > 0 ==> mean_root(squares_of(frame)) == square_root(
            quotient(
                total(Seq::new(frame.len(), |i: int| product(frame[i], frame[i]))),
                count(frame.len()),
            ),
        ),
        spectrum.len() > 0 ==> mean_root(powers_of(spectrum)) == square_root(
            quotient(
                total(
                    Seq::new(
                        spectrum.len(),
                        |k: int|
                            sum(
                                product(spectrum[k].re, spectrum[k].re),
                                product(spectrum[k].im, spectrum[k].im),
                            ),
                    ),
                ),
                count(spectrum.len()),
            ),
        ),
        frame.len() == 0 ==> mean_root(squares_of(frame)) == zero(),
        spectrum.len() == 0 ==> mean_root(powers_of(spectrum)) == zero(),
{
    assert(squares_of(frame) =~= Seq::new(frame.len(), |i: int| product(frame[i], frame[i])));
    assert(powers_of(spectrum) =~= Seq::new(
        spectrum.len(),
        |k: int|
            sum(
                product(spectrum[k].re, spectrum[k].re),
                product(spectrum[k].im, spectrum[k].im),
            ),
    ));
}

/// A gain scales each sample of a frame, and a window each by its own value.
pub proof fn samples_are_scaled_one_by_one(
    frame: Seq<Binary32>,
    window: Seq<Binary32>,
    gain: Binary32,
    i: int,
)
    requires
        0 <= i < frame.len(),
    ensures
        amplified(frame, gain).len() == frame.len(),
        windowed(frame, window).len() == frame.len(),
        amplified(frame, gain)[i] == product(frame[i], gain),
        windowed(frame, window)[i] == product(frame[i], window[i]),
        gain == one() && !frame[i].nan() ==> amplified(frame, gain)[i] == frame[i],
        window[i] == one() && !frame[i].nan() ==> windowed(frame, window)[i] == frame[i],
        frame[i].finite() && window[i].code() == 0 ==> windowed(frame, window)[i].code() == 0,
{
    lemma_one();
    if !frame[i].nan() {
        one_changes_nothing(frame[i]);
    }
    if frame[i].finite() && window[i].code() == 0 {
        lemma_zero_product(frame[i], window[i]);
    }
}

/// What a synthesised sample adds is the sample by the number of samples in a frame, times the
/// window.
pub proof fn synthesised_samples_are_normalised(
    piece: Seq<Binary32>,
    window: Seq<Binary32>,
    i: int,
)
    ensures
        contribution(piece, window, i) == product(
            product(piece[i], quotient(one(), count(window.len()))),
            window[i],
        ),
{
}

/// The phase of sample `n` of a window of `size` samples is the share `n / (size - 1)` of the
/// full circle, but for rounding.
pub proof fn phases_divide_the_circle(n: int, size: nat)
    requires
        1 <= n < size,
        size <= u32::MAX,
    ensures
        ({
            let circle = (Binary32 { bits: FULL_CIRCLE }).value();
            &&& approx(phase(n, size).value(), circle * n, size - 1, 16)
            &&& -pow2(149) <= circle * 1_000_000 - 6_283_185 * pow2(149) <= pow2(149)
        }),
{
    lemma_one();
    lemma2_to64();
    lemma2_to64_rest();
    let u = pow2(149) as int;
    let t = PARTS as int;
    let f = Binary32 { bits: FULL_CIRCLE };
    lemma_mag_code(128, 0xc9_0fdb);
    lemma_pow2_adds(21, 128);
    lemma_pow2_pos(128);
    let c = f.value();
    let p = pow2(128);
    assert(c == 0xc9_0fdb * p);
    assert(u == 0x20_0000 * p);
    assert(6 * u <= c <= 7 * u);
    let m = size - 1;
    let a = count(n as nat);
    let b = count(m as nat);
    approx_count(n as nat);
    approx_count(m as nat);
    let x = a.value();
    let y = b.value();
    lemma_pow2_adds(32, 149);
    lemma_pow2_adds(1, 181);
    assert(x <= pow2(182)) by (nonlinear_arith)
        requires
            (x * 1) * t <= (n * u) * (t + 1),
            1 <= n <= pow2(32),
            u > 0,
            t == 0x100_0000,
            pow2(182) == 2 * pow2(181),
            pow2(181) == pow2(32) * u,
    ;
    assert(y <= pow2(182)) by (nonlinear_arith)
        requires
            (y * 1) * t <= (m * u) * (t + 1),
            1 <= m <= pow2(32),
            u > 0,
            t == 0x100_0000,
            pow2(182) == 2 * pow2(181),
            pow2(181) == pow2(32) * u,
    ;
    lemma_pow2_adds(3, 149);
    lemma_pow2_adds(149, 149);
    lemma_pow2_adds(152, 182);
    lemma_pow2_adds(23, 149);
    lemma_pow2_adds(276, 149);
    lemma_pow2_strictly_increases(172, 298);
    lemma_pow2_strictly_increases(334, 425);
    assert(u * u <= c * x <= pow2(152) * pow2(182)) by (nonlinear_arith)
        requires
            u <= c <= pow2(152),
            u <= x <= pow2(182),
            u > 0,
    ;
    assert(approx(c, c, 1, 0));
    lemma_mag_order(0, f.code());
    approx_product(f, c, 1, 0, a, n * u, 1, 1);
    let q = product(f, a);
    let v = q.value();
    assert(c * (n * u) == (c * n) * u) by (nonlinear_arith);
    assert((1int * 1int) * pow2(149) == 1 * u);
    lemma_approx_cancel(v, c * n, 1, u, 4);
    lemma_pow2_adds(1, 148);
    lemma_pow2_adds(1, 185);
    lemma_pow2_adds(185, 149);
    lemma_pow2_pos(148);
    lemma_pow2_pos(185);
    assert(v >= pow2(148)) by (nonlinear_arith)
        requires
            (c * x) * (t - 1) <= (v * u) * t,
            u * u <= c * x,
            u == 2 * pow2(148),
            u > 0,
            t == 0x100_0000,
    ;
    assert(v <= pow2(186)) by (nonlinear_arith)
        requires
            (v * u) * t <= (c * x) * (t + 1),
            c * x <= pow2(185) * u,
            pow2(186) == 2 * pow2(185),
            u > 0,
            t == 0x100_0000,
            pow2(185) > 0,
    ;
    lemma_pow2_adds(23, 182);
    lemma_pow2_adds(148, 149);
    lemma_pow2_adds(186, 149);
    lemma_pow2_strictly_increases(205, 297);
    lemma_pow2_strictly_increases(335, 425);
    assert(pow2(23) * y <= v * u) by (nonlinear_arith)
        requires
            y <= pow2(182),
            v >= pow2(148),
            pow2(23) * pow2(182) < pow2(148) * u,
            u > 0,
            pow2(23) > 0,
    ;
    assert(v * u <= pow2(276) * y) by (nonlinear_arith)
        requires
            v <= pow2(186),
            y >= u,
            pow2(186) * u < pow2(276) * u,
            u > 0,
            pow2(276) > 0,
    ;
    approx_quotient(q, c * n, 1, 4, b, m * u, 1, 1);
    let z = phase(n, size).value();
    assert(((c * n) * 1) * u == (c * n) * u);
    assert(1 * (m * u) == m * u);
    lemma_approx_cancel(z, c * n, m, u, 9);
    let g = c * n;
    assert(g >= 0) by (nonlinear_arith)
        requires
            g == c * n,
            c >= 0,
            n >= 1,
    ;
    assert(g * (t - 16) <= g * (t - 9) && g * (t + 9) <= g * (t + 16)) by (nonlinear_arith)
        requires
            g >= 0,
    ;
}

/// A recording that is brought to a length keeps its samples and is followed by silence.
pub proof fn recordings_are_padded_with_silence(samples: Seq<Binary32>, len: nat, i: int)
    requires
        0 <= i < len,
    ensures
        resized(samples, len).len() == len,
        i < samples.len() ==> resized(samples, len)[i] == samples[i],
        i >= samples.len() ==> resized(samples, len)[i].code() == 0,
{
}

/// Both recordings are brought to the length of the longer one, each channel by itself.
pub proof fn both_recordings_have_one_length(music: Recording, voice: Recording, i: int)
    requires
        0 <= i < longer(music, voice),
    ensures
        ({
            let src = padded(music, voice);
            let len = longer(music, voice);
            &&& music.left@.len() <= len && voice.left@.len() <= len
            &&& len == music.left@.len() || len == voice.left@.len()
            &&& src.music_l.len() == len
            &&& src.music_r.len() == len
            &&& src.voice_l.len() == len
            &&& src.voice_r.len() == len
            &&& i < music.left@.len() ==> src.music_l[i] == music.left@[i]
            &&& i < music.right@.len() ==> src.music_r[i] == music.right@[i]
            &&& i < voice.left@.len() ==> src.voice_l[i] == voice.left@[i]
            &&& i < voice.right@.len() ==> src.voice_r[i] == voice.right@[i]
        }),
{
}

/// Around recordings there is silence, and frame `k` is what lies there from `k` hops on, each
/// channel by itself.
pub proof fn frames_are_cut_from_their_channels(
    src: FrameInput,
    fft_size: nat,
    hop_size: nat,
    k: int,
    i: int,
)
    requires
        0 <= k,
        0 <= i < fft_size,
        src.music_r.len() == src.music_l.len(),
        src.voice_l.len() == src.music_l.len(),
        src.voice_r.len() == src.music_l.len(),
        k * hop_size + fft_size <= lead_in(fft_size, hop_size) + src.music_l.len() + fft_size,
    ensures
        ({
            let frame = cut(surrounded(src, fft_size, hop_size), k * hop_size, fft_size);
            let at = k * hop_size + i - lead_in(fft_size, hop_size);
            &&& frame.music_l.len() == fft_size
            &&& 0 <= at < src.music_l.len() ==> {
                &&& frame.music_l[i] == src.music_l[at]
                &&& frame.music_r[i] == src.music_r[at]
                &&& frame.voice_l[i] == src.voice_l[at]
                &&& frame.voice_r[i] == src.voice_r[at]
            }
            &&& at < 0 || at >= src.music_l.len() ==> {
                &&& frame.music_l[i].code() == 0
                &&& frame.music_r[i].code() == 0
                &&& frame.voice_l[i].code() == 0
                &&& frame.voice_r[i].code() == 0
            }
        }),
{
    assert(k * hop_size >= 0) by (nonlinear_arith)
        requires
            k >= 0,
            hop_size >= 0,
    ;
}

/// The weight of a position is the sum of the squares of the windows of the frames that reach
/// it: each frame that reaches it adds the square of its window there, and no other changes it.
pub proof fn weights_add_up_over_the_frames(
    window: Seq<Binary32>,
    hop_size: nat,
    frames: nat,
    len: nat,
    position: int,
)
    requires
        0 <= position < len,
    ensures
        weights_after(window, hop_size, 0, len)[position].code() == 0,
        ({
            let before = weights_after(window, hop_size, frames, len)[position];
            let after = weights_after(window, hop_size, frames + 1, len)[position];
            let w = window[position - frames * hop_size];
            if frame_reaches(frames as int, hop_size, window.len(), position) {
                after == sum(before, product(w, w))
            } else {
                after == before
            }
        }),
        weights_after(window, hop_size, frames, len).len() == len,
    decreases frames,
{
    lemma_weights_len(window, hop_size, frames, len);
    assert(frames * hop_size >= 0) by (nonlinear_arith);
}

/// Adding weights changes no length.
proof fn lemma_weights_len(window: Seq<Binary32>, hop_size: nat, frames: nat, len: nat)
    ensures
        weights_after(window, hop_size, frames, len).len() == len,
    decreases frames,
{
    if frames > 0 {
        lemma_weights_len(window, hop_size, (frames - 1) as nat, len);
    }
}

/// Each sample of a result is the music, less what was taken there by its weight, times the
/// music gain, plus what was added up of the voice there by its weight, times the voice gain.
/// Where no frame reaches, it is the music times its gain plus the voice times its gain.
pub proof fn results_are_mixed_sample_by_sample(
    music: Seq<Binary32>,
    voice: Seq<Binary32>,
    taken_sums: Seq<Binary32>,
    voice_sums: Seq<Binary32>,
    weights: Seq<Binary32>,
    lead: nat,
    music_gain: Binary32,
    voice_gain: Binary32,
    i: int,
)
    requires
        0 <= i < music.len(),
    ensures
        ({
            let out = blended_channel(
                music,
                voice,
                taken_sums,
                voice_sums,
                weights,
                lead,
                music_gain,
                voice_gain,
            );
            let w = weights[lead + i];
            &&& out.len() == music.len()
            &&& w.finite() && w.value() > 0 ==> out[i] == sum(
                product(difference(music[i], quotient(taken_sums[lead + i], w)), music_gain),
                product(quotient(voice_sums[lead + i], w), voice_gain),
            )
            &&& w.nan() || w.infinite() || w.value() <= 0 ==> out[i] == sum(
                product(music[i], music_gain),
                product(voice[i], voice_gain),
            )
        }),
{
    lemma_one();
}

/// A frame adds to each output what was synthesised for it: music to music and voice to voice,
/// left to left and right to right, from its position on and nowhere else.
pub proof fn frames_add_to_their_own_outputs(
    sums: Accums,
    window: Seq<Binary32>,
    heard: FrameHeard,
    position: nat,
    j: int,
)
    requires
        0 <= j < sums.music_l.len(),
        sums.music_r.len() == sums.music_l.len(),
        sums.voice_l.len() == sums.music_l.len(),
        sums.voice_r.len() == sums.music_l.len(),
    ensures
        ({
            let after = accums_after(sums, window, heard, position);
            let i = j - position;
            if 0 <= i < window.len() {
                &&& after.music_l[j] == sum(
                    sums.music_l[j],
                    contribution(heard.left.music_piece, window, i),
                )
                &&& after.music_r[j] == sum(
                    sums.music_r[j],
                    contribution(heard.right.music_piece, window, i),
                )
                &&& after.voice_l[j] == sum(
                    sums.voice_l[j],
                    contribution(heard.left.voice_piece, window, i),
                )
                &&& after.voice_r[j] == sum(
                    sums.voice_r[j],
                    contribution(heard.right.voice_piece, window, i),
                )
            } else {
                &&& after.music_l[j] == sums.music_l[j]
                &&& after.music_r[j] == sums.music_r[j]
                &&& after.voice_l[j] == sums.voice_l[j]
                &&& after.voice_r[j] == sums.voice_r[j]
            }
        }),
{
}

} // verus!
