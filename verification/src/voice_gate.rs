//! The voice gate: tells from the loudness of the voice whether somebody speaks.

use crate::answers::answers_alike;
use crate::arith::{count, difference, product, quotient, sum};
use crate::binary32::{lemma_mag_order, Binary32, ONE};
use crate::blend::{
    blend, blended, falls_towards_zero, is_share, lemma_share, one, rises_towards_one,
    shares_stay_shares, zero,
};
use crate::level::{loudness_has_no_sign, mean_root, powers_of, spectrum_rms, Complex};
use crate::order::lemma_one;
use crate::spectral_mask::EPSILON;
use vstd::prelude::*;

verus! {

/// The bit pattern of -80, the lowest noise floor.
pub const QUIETEST: u32 = 0xc2a0_0000;

/// The bit pattern of -10, the highest noise floor.
pub const LOUDEST: u32 = 0xc120_0000;

/// The bit pattern of 20, by which a logarithm becomes a level in decibel.
pub const TWENTY: u32 = 0x41a0_0000;

/// A gate that follows the noise floor of the voice.
#[derive(Debug, Clone, Copy, PartialEq, Eq)]
pub struct VoiceGate {
    /// Whether the voice gate is open.
    pub gate_open: bool,
    /// How far the voice gate is open, smoothed over time.
    pub envelope: Binary32,
    /// The weight of the old envelope while it rises.
    pub alpha_attack: Binary32,
    /// The weight of the old envelope while it falls.
    pub alpha_release: Binary32,
    /// The level of the background noise.
    pub noise_floor_db: Binary32,
    /// How far above the noise floor a voice has to be to open the voice gate.
    pub margin_db: Binary32,
    /// How far below that the voice gate closes.
    pub hysteresis_db: Binary32,
}

/// The exponent of the weight of an old value that fades with a time constant, where a value
/// comes with each hop: `-1 / (ms * 0.001 * hops per second)`.
pub open spec fn fading(ms: Binary32, sample_rate: u32, hop_size: usize) -> Binary32 {
    let hop_rate = quotient(count(sample_rate as nat), count(hop_size as nat));
    quotient(
        Binary32 { bits: 0xbf80_0000 },
        product(product(ms, Binary32 { bits: 0x3a83_126f }), hop_rate),
    )
}

/// The exponent of the weight of an old value that fades with a time constant.
pub fn decay_exponent(ms: Binary32, sample_rate: u32, hop_size: usize) -> (r: Binary32)
    ensures
        r == fading(ms, sample_rate, hop_size),
{
    let hop_rate = Binary32::of_count(sample_rate as usize).over(Binary32::of_count(hop_size));
    let scaled = ms.times(Binary32 { bits: 0x3a83_126f }).times(hop_rate);
    (Binary32 { bits: 0xbf80_0000 }).over(scaled)
}

/// The margin that two thresholds give: their distance, but at least 4 dB.
pub open spec fn margin(threshold_on_db: Binary32, threshold_off_db: Binary32) -> Binary32 {
    difference(threshold_on_db, threshold_off_db).greater(Binary32 { bits: 0x4080_0000 })
}

/// The noise floor after a level was heard: quick to fall, slow to rise.
pub open spec fn noise_after(noise_floor_db: Binary32, db: Binary32) -> Binary32 {
    let near = sum(noise_floor_db, Binary32 { bits: 0x4040_0000 });
    let moved = if db.less(near) {
        sum(
            product(Binary32 { bits: 0x3f59_999a }, noise_floor_db),
            product(Binary32 { bits: 0x3e19_999a }, db),
        )
    } else {
        sum(
            product(Binary32 { bits: 0x3f7f_7cee }, noise_floor_db),
            product(Binary32 { bits: 0x3b03_126f }, db),
        )
    };
    moved.held(Binary32 { bits: QUIETEST }, Binary32 { bits: LOUDEST })
}

/// The level above which a gate opens.
pub open spec fn threshold_on(g: VoiceGate) -> Binary32 {
    sum(g.noise_floor_db, g.margin_db)
}

/// The level below which a gate closes.
pub open spec fn threshold_off(g: VoiceGate) -> Binary32 {
    difference(sum(g.noise_floor_db, g.margin_db), g.hysteresis_db)
}

/// Whether a gate is open after a level was heard, by the noise floor that it has now.
pub open spec fn open_after(g: VoiceGate, db: Binary32) -> bool {
    if g.gate_open {
        !db.less(threshold_off(g))
    } else {
        threshold_on(g).less(db)
    }
}

/// The envelope of a gate that has opened or closed: quick to rise, slow to fall.
pub open spec fn envelope_after(g: VoiceGate) -> Binary32 {
    let target = if g.gate_open {
        one()
    } else {
        zero()
    };
    let alpha = if g.envelope.less(target) {
        g.alpha_attack
    } else {
        g.alpha_release
    };
    blended(alpha, g.envelope, target)
}

/// A gate after a level was heard.
pub open spec fn gate_after(g: VoiceGate, db: Binary32) -> VoiceGate {
    let noise = VoiceGate { noise_floor_db: noise_after(g.noise_floor_db, db), ..g };
    let switched = VoiceGate { gate_open: open_after(noise, db), ..noise };
    VoiceGate { envelope: envelope_after(switched), ..switched }
}

/// The level in decibel that belongs to a logarithm to the base of ten.
pub open spec fn decibel(log: Binary32) -> Binary32 {
    product(Binary32 { bits: TWENTY }, log)
}

/// What the logarithm is taken of: the loudness of a voice, kept from being zero.
pub open spec fn audible(rms: Binary32) -> Binary32 {
    sum(rms, Binary32 { bits: EPSILON })
}

/// The loudness of the louder one of two channels.
pub open spec fn louder(left: Seq<Complex>, right: Seq<Complex>) -> Binary32 {
    mean_root(powers_of(left)).greater(mean_root(powers_of(right)))
}

impl VoiceGate {
    /// A closed gate. `exp` gives the exponential function of its argument.
    pub fn new<E: Fn(Binary32) -> Binary32>(
        threshold_on_db: Binary32,
        threshold_off_db: Binary32,
        attack_ms: Binary32,
        release_ms: Binary32,
        sample_rate: u32,
        hop_size: usize,
        exp: E,
    ) -> (r: Self)
        requires
            forall|x: Binary32| #[trigger] call_requires(exp, (x,)),
        ensures
            call_ensures(exp, (fading(attack_ms, sample_rate, hop_size),), r.alpha_attack),
            call_ensures(exp, (fading(release_ms, sample_rate, hop_size),), r.alpha_release),
            !r.gate_open,
            r.envelope == zero(),
            r.noise_floor_db == (Binary32 { bits: QUIETEST }),
            r.margin_db == margin(threshold_on_db, threshold_off_db),
            r.hysteresis_db == product(r.margin_db, Binary32 { bits: 0x3f19_999a }),
    {
        let margin_db = threshold_on_db.minus(threshold_off_db).max(Binary32 { bits: 0x4080_0000 });
        VoiceGate {
            gate_open: false,
            envelope: Binary32 { bits: 0 },
            alpha_attack: exp(decay_exponent(attack_ms, sample_rate, hop_size)),
            alpha_release: exp(decay_exponent(release_ms, sample_rate, hop_size)),
            noise_floor_db: Binary32 { bits: QUIETEST },
            margin_db,
            hysteresis_db: margin_db.times(Binary32 { bits: 0x3f19_999a }),
        }
    }

    /// Updates the voice gate from one voice spectrum and gives the envelope. `log10` gives the
    /// logarithm of its argument to the base of ten.
    pub fn update<L: Fn(Binary32) -> Binary32>(
        &mut self,
        voice_spectrum: &[Complex],
        log10: L,
    ) -> (r: Binary32)
        requires
            forall|x: Binary32| #[trigger] call_requires(log10, (x,)),
        ensures
            exists|log: Binary32|
                #[trigger] call_ensures(
                    log10,
                    (audible(mean_root(powers_of(voice_spectrum@))),),
                    log,
                ) && *final(self) == gate_after(*old(self), decibel(log)),
            r == final(self).envelope,
    {
        let loudness = spectrum_rms(voice_spectrum).plus(Binary32 { bits: EPSILON });
        assert(loudness == audible(mean_root(powers_of(voice_spectrum@))));
        let log = log10(loudness);
        let db = (Binary32 { bits: TWENTY }).times(log);
        assert(db == decibel(log));
        self.update_from_db(db)
    }

    /// Updates the voice gate from two voice spectra and gives the envelope. The louder channel
    /// decides, so that both sides open and close together.
    pub fn update_stereo<L: Fn(Binary32) -> Binary32>(
        &mut self,
        voice_spectrum_l: &[Complex],
        voice_spectrum_r: &[Complex],
        log10: L,
    ) -> (r: Binary32)
        requires
            forall|x: Binary32| #[trigger] call_requires(log10, (x,)),
        ensures
            exists|log: Binary32|
                #[trigger] call_ensures(
                    log10,
                    (audible(louder(voice_spectrum_l@, voice_spectrum_r@)),),
                    log,
                ) && *final(self) == gate_after(*old(self), decibel(log)),
            r == final(self).envelope,
    {
        let rms = spectrum_rms(voice_spectrum_l).max(spectrum_rms(voice_spectrum_r));
        let loudness = rms.plus(Binary32 { bits: EPSILON });
        assert(loudness == audible(louder(voice_spectrum_l@, voice_spectrum_r@)));
        let log = log10(loudness);
        let db = (Binary32 { bits: TWENTY }).times(log);
        assert(db == decibel(log));
        self.update_from_db(db)
    }

    /// Updates the voice gate from a level and gives the envelope.
    pub fn update_from_db(&mut self, db: Binary32) -> (r: Binary32)
        ensures
            *final(self) == gate_after(*old(self), db),
            r == final(self).envelope,
    {
        let quietest = Binary32 { bits: QUIETEST };
        let loudest = Binary32 { bits: LOUDEST };
        let noise = self.noise_floor_db;
        let moved = if db.lt(noise.plus(Binary32 { bits: 0x4040_0000 })) {
            (Binary32 { bits: 0x3f59_999a }).times(noise).plus(
                (Binary32 { bits: 0x3e19_999a }).times(db),
            )
        } else {
            (Binary32 { bits: 0x3f7f_7cee }).times(noise).plus(
                (Binary32 { bits: 0x3b03_126f }).times(db),
            )
        };
        proof {
            lemma_noise_bounds();
        }
        self.noise_floor_db = moved.clamp(quietest, loudest);
        let on = self.noise_floor_db.plus(self.margin_db);
        let off = self.noise_floor_db.plus(self.margin_db).minus(self.hysteresis_db);
        if self.gate_open {
            if db.lt(off) {
                self.gate_open = false;
            }
        } else if on.lt(db) {
            self.gate_open = true;
        }
        let target = if self.gate_open {
            Binary32 { bits: ONE }
        } else {
            Binary32 { bits: 0 }
        };
        let alpha = if self.envelope.lt(target) {
            self.alpha_attack
        } else {
            self.alpha_release
        };
        self.envelope = blend(alpha, self.envelope, target);
        self.envelope
    }
}

/// The bounds of the noise floor are in order.
proof fn lemma_noise_bounds()
    ensures
        (Binary32 { bits: QUIETEST }).at_most(Binary32 { bits: LOUDEST }),
{
    lemma_mag_order(
        (Binary32 { bits: LOUDEST }).code(),
        (Binary32 { bits: QUIETEST }).code(),
    );
}

/// Whether a noise floor is within its bounds.
pub open spec fn noise_in_bounds(db: Binary32) -> bool {
    (Binary32 { bits: QUIETEST }).at_most(db) && db.at_most(Binary32 { bits: LOUDEST })
}

/// The noise floor never leaves its bounds, whatever level is heard.
pub proof fn noise_floor_stays_in_bounds(g: VoiceGate, db: Binary32)
    requires
        noise_in_bounds(g.noise_floor_db),
        !db.nan(),
    ensures
        noise_in_bounds(gate_after(g, db).noise_floor_db),
{
    lemma_one();
    lemma_noise_bounds();
    let n = g.noise_floor_db;
    lemma_mag_order(n.code(), (Binary32 { bits: QUIETEST }).code());
    assert(n.finite());
    lemma_mag_order(0x3f59_999a, ONE as nat);
    lemma_mag_order(0x3e19_999a, ONE as nat);
    lemma_mag_order(0x3f7f_7cee, ONE as nat);
    lemma_mag_order(0x3b03_126f, ONE as nat);
    lemma_weighted(Binary32 { bits: 0x3f59_999a }, n, Binary32 { bits: 0x3e19_999a }, db);
    lemma_weighted(Binary32 { bits: 0x3f7f_7cee }, n, Binary32 { bits: 0x3b03_126f }, db);
}

/// A weighted sum with weights that are not zero is a number, where only one part can be
/// infinite.
proof fn lemma_weighted(a: Binary32, x: Binary32, b: Binary32, y: Binary32)
    requires
        is_share(a),
        is_share(b),
        b.code() > 0,
        x.finite(),
        !y.nan(),
    ensures
        !sum(product(a, x), product(b, y)).nan(),
{
    lemma_one();
    lemma_share(a);
    lemma_share(b);
    lemma_mag_order(0, b.code());
    lemma_mag_order(0, y.code());
    crate::order::lemma_product(a, x);
    crate::order::lemma_product_below(x, a);
    assert(crate::arith::size(a) * crate::arith::size(x) == crate::arith::size(x)
        * crate::arith::size(a)) by (nonlinear_arith);
    crate::order::lemma_product(x, a);
    let p = product(a, x);
    assert(p.finite());
    let q = product(b, y);
    crate::order::lemma_signed(b.negative() != y.negative(), crate::binary32::INFINITE as nat);
    if y.finite() {
        crate::order::lemma_product(b, y);
    }
    assert(!q.nan());
    if q.finite() {
        crate::order::lemma_sum(p, q);
    } else {
        assert(sum(p, q) == q);
    }
}

/// The envelope stays between zero and one, whatever level is heard.
pub proof fn envelope_stays_share(g: VoiceGate, db: Binary32)
    requires
        is_share(g.envelope),
        is_share(g.alpha_attack),
        is_share(g.alpha_release),
    ensures
        is_share(gate_after(g, db).envelope),
{
    lemma_one();
    shares_stay_shares(g.alpha_attack, g.envelope, one());
    shares_stay_shares(g.alpha_release, g.envelope, one());
    shares_stay_shares(g.alpha_release, g.envelope, zero());
}

/// Between the two thresholds a gate stays as it is: what is open stays open, what is closed
/// stays closed.
pub proof fn gate_holds_between_thresholds(g: VoiceGate, db: Binary32)
    requires
        ({
            let noise = VoiceGate { noise_floor_db: noise_after(g.noise_floor_db, db), ..g };
            !db.less(threshold_off(noise)) && !threshold_on(noise).less(db)
        }),
    ensures
        gate_after(g, db).gate_open == g.gate_open,
{
}

/// A closed gate that was never open hands out zero for as long as it stays closed.
pub proof fn closed_gate_stays_at_zero(g: VoiceGate, db: Binary32)
    requires
        g.envelope.code() == 0,
        is_share(g.alpha_release),
        !gate_after(g, db).gate_open,
    ensures
        gate_after(g, db).envelope.code() == 0,
{
    lemma_one();
    lemma_share(g.alpha_release);
    let rest = difference(one(), g.alpha_release);
    lemma_nothing(g.alpha_release, g.envelope);
    lemma_nothing(rest, zero());
}

/// A product with nothing is nothing.
proof fn lemma_nothing(x: Binary32, y: Binary32)
    requires
        x.finite(),
        y.code() == 0,
    ensures
        product(x, y).code() == 0,
{
    lemma_one();
    crate::order::lemma_product(x, y);
    assert(crate::arith::size(x) * 0 == 0) by (nonlinear_arith);
    crate::order::lemma_ratio_exact(0, vstd::arithmetic::power2::pow2(149));
    assert(0 * vstd::arithmetic::power2::pow2(149) == 0);
}

/// While a gate is open its envelope never falls, and while it is closed it never rises.
pub proof fn envelope_follows_gate(g: VoiceGate, db: Binary32)
    requires
        is_share(g.envelope),
        is_share(g.alpha_attack),
        is_share(g.alpha_release),
    ensures
        gate_after(g, db).gate_open ==> g.envelope.at_most(gate_after(g, db).envelope),
        !gate_after(g, db).gate_open ==> gate_after(g, db).envelope.at_most(g.envelope),
{
    lemma_one();
    rises_towards_one(g.alpha_attack, g.envelope);
    rises_towards_one(g.alpha_release, g.envelope);
    falls_towards_zero(g.alpha_release, g.envelope);
}

/// Two channels are as loud together whichever is named first, and as loud as the louder one
/// is alone.
pub proof fn louder_is_one_of_two(left: Seq<Complex>, right: Seq<Complex>)
    ensures
        louder(left, right) == louder(right, left),
        mean_root(powers_of(right)).at_most(mean_root(powers_of(left))) ==> louder(left, right)
            == mean_root(powers_of(left)),
{
    lemma_one();
    let a = mean_root(powers_of(left));
    let b = mean_root(powers_of(right));
    loudness_has_no_sign(left);
    loudness_has_no_sign(right);
    lemma_mag_order(a.code(), b.code());
}

/// Exchanging the channels changes nothing for a gate: where the logarithm answers alike each
/// time, that gate is the same afterwards.
pub proof fn channels_can_be_exchanged<L: Fn(Binary32) -> Binary32>(
    g: VoiceGate,
    left: Seq<Complex>,
    right: Seq<Complex>,
    log10: L,
    log: Binary32,
    other_log: Binary32,
)
    requires
        answers_alike(log10),
        call_ensures(log10, (audible(louder(left, right)),), log),
        call_ensures(log10, (audible(louder(right, left)),), other_log),
    ensures
        gate_after(g, decibel(log)) == gate_after(g, decibel(other_log)),
{
    louder_is_one_of_two(left, right);
}

/// The louder channel decides alone: where the logarithm answers alike each time, a gate that
/// hears both is the one that hears only the louder one.
pub proof fn louder_channel_decides<L: Fn(Binary32) -> Binary32>(
    g: VoiceGate,
    loud: Seq<Complex>,
    quiet: Seq<Complex>,
    log10: L,
    log: Binary32,
    other_log: Binary32,
)
    requires
        answers_alike(log10),
        mean_root(powers_of(quiet)).at_most(mean_root(powers_of(loud))),
        call_ensures(log10, (audible(louder(loud, quiet)),), log),
        call_ensures(log10, (audible(mean_root(powers_of(loud))),), other_log),
    ensures
        gate_after(g, decibel(log)) == gate_after(g, decibel(other_log)),
{
    louder_is_one_of_two(loud, quiet);
}

/// A closed gate stays closed for as long as nothing louder than the lowest noise floor is
/// heard.
pub proof fn quiet_keeps_gate_closed(g: VoiceGate, db: Binary32)
    requires
        !g.gate_open,
        noise_in_bounds(g.noise_floor_db),
        zero().at_most(g.margin_db),
        db.at_most(Binary32 { bits: QUIETEST }),
    ensures
        !gate_after(g, db).gate_open,
        noise_in_bounds(gate_after(g, db).noise_floor_db),
{
    lemma_one();
    noise_floor_stays_in_bounds(g, db);
    let n = gate_after(g, db).noise_floor_db;
    let m = g.margin_db;
    lemma_mag_order(n.code(), (Binary32 { bits: QUIETEST }).code());
    lemma_mag_order(0, n.code());
    lemma_mag_order(0, m.code());
    if m.finite() {
        crate::order::lemma_sum(n, m);
        crate::order::lemma_near_order(n.value(), n.value() + m.value());
        crate::order::lemma_near_exact(n.code());
    } else {
        lemma_mag_order((Binary32 { bits: QUIETEST }).code(), m.code());
    }
}

} // verus!
