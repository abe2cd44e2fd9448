//! The mix of masked music and voice.

use crate::arith::{product, quotient, size, sum};
use crate::binary32::{lemma_mag_code, lemma_mag_order, Binary32};
use crate::blend::{lemma_near_power, lemma_ratio_error};
use crate::order::{
    lemma_one, lemma_quotient, lemma_ratio_exact, lemma_ratio_order, lemma_zero_product,
    same_number, zero_changes_nothing,
};
use crate::voice_gate::TWENTY;
use vstd::arithmetic::power2::{lemma2_to64, lemma_pow2_adds, lemma_pow2_pos, pow2};
use vstd::prelude::*;

verus! {

/// One sample of the mix.
pub open spec fn mixed(
    music: Binary32,
    voice: Binary32,
    music_gain: Binary32,
    voice_gain: Binary32,
) -> Binary32 {
    sum(product(music, music_gain), product(voice, voice_gain))
}

/// The shortest of three lengths.
pub open spec fn shortest(a: nat, b: nat, c: nat) -> nat {
    if a <= b && a <= c {
        a
    } else if b <= c {
        b
    } else {
        c
    }
}

/// Mixes as many samples as there are in all three frames; what the output holds behind them
/// stays.
pub fn mix_frame(
    masked_music: &[Binary32],
    voice: &[Binary32],
    music_gain: Binary32,
    voice_gain: Binary32,
    output: &mut [Binary32],
)
    ensures
        final(output)@ == Seq::new(
            old(output)@.len(),
            |i: int|
                if i < shortest(masked_music@.len(), voice@.len(), old(output)@.len()) {
                    mixed(masked_music@[i], voice@[i], music_gain, voice_gain)
                } else {
                    old(output)@[i]
                },
        ),
{
    let ghost before = output@;
    let mut len: usize = masked_music.len();
    if voice.len() < len {
        len = voice.len();
    }
    if output.len() < len {
        len = output.len();
    }
    let mut i: usize = 0;
    while i < len
        invariant
            i <= len,
            len == shortest(masked_music@.len(), voice@.len(), before.len()),
            output@.len() == before.len(),
            forall|j: int|
                0 <= j < i ==> output@[j] == mixed(
                    masked_music@[j],
                    voice@[j],
                    music_gain,
                    voice_gain,
                ),
            forall|j: int| i <= j < before.len() ==> output@[j] == before[j],
        decreases len - i,
    {
        output[i] = masked_music[i].times(music_gain).plus(voice[i].times(voice_gain));
        i = i + 1;
    }
    assert(output@ =~= Seq::new(
        before.len(),
        |i: int|
            if i < shortest(masked_music@.len(), voice@.len(), before.len()) {
                mixed(masked_music@[i], voice@[i], music_gain, voice_gain)
            } else {
                before[i]
            },
    ));
}

/// The exponent to ten that makes a gain of a level.
pub open spec fn gain_exponent(db: Binary32) -> Binary32 {
    quotient(db, Binary32 { bits: TWENTY })
}

/// The gain of a level: ten to the power of a twentieth of it. `pow10` gives the power of ten
/// of its argument.
pub fn db_to_gain<P: Fn(Binary32) -> Binary32>(db: Binary32, pow10: P) -> (r: Binary32)
    requires
        call_requires(pow10, (gain_exponent(db),)),
    ensures
        call_ensures(pow10, (gain_exponent(db),), r),
{
    pow10(db.over(Binary32 { bits: TWENTY }))
}

/// One sample of the mix is the music times its gain plus the voice times its gain. A voice that
/// is zero, or has a gain of zero, leaves the music times its gain, and the other way round.
pub proof fn mix_scales_by_the_gains(
    music: Binary32,
    voice: Binary32,
    music_gain: Binary32,
    voice_gain: Binary32,
)
    ensures
        mixed(music, voice, music_gain, voice_gain) == sum(
            product(music, music_gain),
            product(voice, voice_gain),
        ),
        voice.finite() && voice_gain.finite() && (voice.code() == 0 || voice_gain.code() == 0)
            ==> same_number(
            mixed(music, voice, music_gain, voice_gain),
            product(music, music_gain),
        ),
        music.finite() && music_gain.finite() && (music.code() == 0 || music_gain.code() == 0)
            ==> same_number(
            mixed(music, voice, music_gain, voice_gain),
            product(voice, voice_gain),
        ),
{
    lemma_one();
    let m = product(music, music_gain);
    let v = product(voice, voice_gain);
    if voice.finite() && voice_gain.finite() && (voice.code() == 0 || voice_gain.code() == 0) {
        lemma_zero_product(voice, voice_gain);
        zero_changes_nothing(m, v);
    }
    if music.finite() && music_gain.finite() && (music.code() == 0 || music_gain.code() == 0) {
        lemma_zero_product(music, music_gain);
        zero_changes_nothing(v, m);
        assert(sum(m, v) == sum(v, m));
    }
}

/// The exponent to ten of a gain is a twentieth of its level in decibel, but for rounding.
pub proof fn decibels_are_twentieths(db: Binary32)
    requires
        db.finite(),
        -pow2(159) <= db.value() <= pow2(159),
    ensures
        -pow2(135) <= 20 * gain_exponent(db).value() - db.value() <= pow2(135),
        gain_exponent(db).finite(),
{
    lemma_one();
    lemma2_to64();
    let t = Binary32 { bits: TWENTY };
    let u = pow2(149);
    lemma_mag_code(130, 0xa0_0000);
    lemma_pow2_adds(19, 130);
    assert(size(t) == 20 * u);
    lemma_mag_order(0, db.code());
    lemma_mag_order(0, t.code());
    lemma_quotient(db, t);
    let n = size(db) * u;
    let d = 20 * u;
    lemma_pow2_adds(10, 149);
    lemma_pow2_adds(6, 149);
    lemma_pow2_adds(5, 130);
    lemma_pow2_pos(130);
    assert(size(db) <= pow2(159));
    assert(n <= pow2(155) * d) by (nonlinear_arith)
        requires
            n == size(db) * u,
            size(db) <= 1024 * u,
            d == 20 * u,
            pow2(155) == 64 * u,
    ;
    lemma_ratio_error(n, d, 6);
    let r = gain_exponent(db);
    lemma_mag_order(0, r.code());
    let x = size(r) as int;
    let y = size(db) as int;
    let e = pow2(130) as int;
    assert(-(20 * e) <= 20 * x - y <= 20 * e) by (nonlinear_arith)
        requires
            -(e * d) <= x * d - y * u <= e * d,
            d == 20 * u,
            u > 0,
    ;
    lemma_near_power(6, pow2(155));
    assert(n * d <= (pow2(155) * d) * d) by (nonlinear_arith)
        requires
            n <= pow2(155) * d,
            d > 0,
    ;
    lemma_ratio_order(n, d, pow2(155) * d, d);
    lemma_ratio_exact((crate::binary32::ONE + 6 * crate::binary32::BINADE) as nat, d);
}

} // verus!
