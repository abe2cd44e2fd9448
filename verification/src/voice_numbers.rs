//! What the voice gate and the compressor come to in numbers: decibels, milliseconds and ratios.

use crate::approx::{
    approx, approx_count, approx_product, approx_quotient, lemma_approx_cancel, PARTS,
};
use crate::arith::{count, difference, product, quotient, size, sum};
use crate::binary32::{lemma_mag_code, lemma_mag_order, mag, Binary32, INFINITE, ONE};
use crate::blend::{is_share, lemma_ratio_error, one, zero};
use crate::order::{
    lemma_near_exact, lemma_near_order, lemma_one, lemma_product, lemma_quotient, lemma_ratio_exact,
    lemma_sum, near_value,
};
use crate::rounding::ratio;
use crate::compressor::{boost_exponent, gain_wanted, VoiceCompressor};
use crate::voice_gate::{
    decibel, fading, gate_after, margin, noise_after, noise_floor_stays_in_bounds, noise_in_bounds,
    VoiceGate, LOUDEST, QUIETEST, TWENTY,
};
use vstd::arithmetic::power2::{
    lemma2_to64, lemma2_to64_rest, lemma_pow2_adds, lemma_pow2_pos, lemma_pow2_strictly_increases,
    pow2,
};
use vstd::prelude::*;

verus! {

/// Whether a level lies between -80 and -10 dB.
pub open spec fn in_noise_range(db: int) -> bool {
    -80 * pow2(149) <= db <= -10 * pow2(149)
}

/// The bounds of the noise floor are -80 and -10 dB.
proof fn lemma_bounds_in_decibel()
    ensures
        (Binary32 { bits: QUIETEST }).value() == -80 * pow2(149),
        (Binary32 { bits: LOUDEST }).value() == -10 * pow2(149),
        (Binary32 { bits: QUIETEST }).finite(),
        (Binary32 { bits: LOUDEST }).finite(),
{
    lemma2_to64();
    lemma_mag_code(132, 0xa0_0000);
    lemma_pow2_adds(17, 132);
    lemma_mag_code(129, 0xa0_0000);
    lemma_pow2_adds(20, 129);
}

/// A product of numbers of either sign is the exact one, but for half of a step.
proof fn lemma_signed_product(x: Binary32, y: Binary32, k: nat)
    requires
        x.finite(),
        y.finite(),
        k <= 8,
        size(x) * size(y) <= pow2(149 + k) * pow2(149),
    ensures
        product(x, y).finite(),
        -pow2(149 + k) <= product(x, y).value() <= pow2(149 + k),
        -(pow2(124 + k) * pow2(149)) <= product(x, y).value() * pow2(149) - x.value() * y.value()
            <= pow2(124 + k) * pow2(149),
{
    lemma_one();
    let u = pow2(149);
    let p = product(x, y);
    lemma_product(x, y);
    lemma_ratio_error(size(x) * size(y), u, k);
    lemma_mag_order(0, p.code());
    lemma_mag_order(0, x.code());
    lemma_mag_order(0, y.code());
    crate::blend::lemma_near_power(k, pow2(149 + k));
    let top = (ONE + k * crate::binary32::BINADE) as nat;
    assert((size(x) * size(y)) * u <= (pow2(149 + k) * u) * u) by (nonlinear_arith)
        requires
            size(x) * size(y) <= pow2(149 + k) * u,
            u > 0,
    ;
    crate::order::lemma_ratio_order(size(x) * size(y), u, pow2(149 + k) * u, u);
    lemma_ratio_exact(top, u);
    lemma_mag_order(p.code(), top);
    let s = size(x) as int;
    let t = size(y) as int;
    let a = x.value();
    let b = y.value();
    assert(a * b == s * t || a * b == -(s * t)) by (nonlinear_arith)
        requires
            a == s || a == -s,
            b == t || b == -t,
    ;
    if x.negative() == y.negative() {
        assert(a * b == s * t) by (nonlinear_arith)
            requires
                (a == s && b == t) || (a == -s && b == -t),
        ;
    } else {
        assert(a * b == -(s * t)) by (nonlinear_arith)
            requires
                (a == s && b == -t) || (a == -s && b == t),
        ;
        let q = size(p) as int;
        assert(-q * u == -(q * u)) by (nonlinear_arith);
    }
}

/// A sum of numbers of either sign is the exact one, but for half of a step.
proof fn lemma_signed_sum(x: Binary32, y: Binary32, k: nat)
    requires
        x.finite(),
        y.finite(),
        k <= 8,
        -pow2(149 + k) <= x.value() + y.value() <= pow2(149 + k),
    ensures
        sum(x, y).finite(),
        -pow2(149 + k) <= sum(x, y).value() <= pow2(149 + k),
        -pow2(124 + k) <= sum(x, y).value() - (x.value() + y.value()) <= pow2(124 + k),
{
    lemma_one();
    let v = x.value() + y.value();
    let w = crate::arith::whole(v);
    lemma_sum(x, y);
    lemma_ratio_error(w, 1, k);
    crate::blend::lemma_near_power(k, pow2(149 + k));
    let top = (ONE + k * crate::binary32::BINADE) as nat;
    lemma_near_order(w as int, pow2(149 + k) as int);
    lemma_near_exact(top);
    let r = sum(x, y);
    lemma_mag_order(0, r.code());
    lemma_mag_order(r.code(), INFINITE as nat);
    lemma_mag_order(top, INFINITE as nat);
    assert(r.value() == near_value(v));
}

/// The weights by which the noise floor moves: 85 and 15 hundredths, 998 and 2 thousandths.
proof fn lemma_noise_weights()
    ensures
        -pow2(131) <= 100 * mag(0x3f59_999a) - 85 * pow2(149) <= pow2(131),
        -pow2(131) <= 100 * mag(0x3e19_999a) - 15 * pow2(149) <= pow2(131),
        -pow2(134) <= 1000 * mag(0x3f7f_7cee) - 998 * pow2(149) <= pow2(134),
        -pow2(134) <= 1000 * mag(0x3b03_126f) - 2 * pow2(149) <= pow2(134),
        mag(0x3f59_999a) <= pow2(149),
        mag(0x3e19_999a) <= pow2(149),
        mag(0x3f7f_7cee) <= pow2(149),
        mag(0x3b03_126f) <= pow2(149),
{
    lemma_one();
    lemma2_to64();
    lemma_mag_code(125, 0xd9_999a);
    lemma_mag_code(123, 0x99_999a);
    lemma_mag_code(125, 0xff_7cee);
    lemma_mag_code(117, 0x83_126f);
    lemma_pow2_adds(24, 125);
    lemma_pow2_adds(26, 123);
    lemma_pow2_adds(32, 117);
    lemma_pow2_adds(6, 125);
    lemma_pow2_adds(8, 123);
    lemma_pow2_adds(9, 125);
    lemma_pow2_adds(17, 117);
    lemma_pow2_pos(125);
    lemma_pow2_pos(123);
    lemma_pow2_pos(117);
    lemma_mag_order(0x3f59_999a, ONE as nat);
    lemma_mag_order(0x3e19_999a, ONE as nat);
    lemma_mag_order(0x3f7f_7cee, ONE as nat);
    lemma_mag_order(0x3b03_126f, ONE as nat);
}

/// A weighted sum of two levels is the exact one, but for rounding.
proof fn lemma_weighted_sum(a: Binary32, x: Binary32, b: Binary32, y: Binary32)
    requires
        is_share(a),
        is_share(b),
        x.finite(),
        y.finite(),
        -pow2(156) <= x.value() <= pow2(156),
        -pow2(156) <= y.value() <= pow2(156),
    ensures
        ({
            let r = sum(product(a, x), product(b, y));
            let u = pow2(149);
            &&& r.finite()
            &&& -(pow2(134) * u) <= r.value() * u - (a.value() * x.value() + b.value() * y.value())
                <= pow2(134) * u
        }),
{
    lemma_one();
    lemma2_to64();
    crate::blend::lemma_share(a);
    crate::blend::lemma_share(b);
    let u = pow2(149);
    lemma_mag_order(0, x.code());
    lemma_mag_order(0, y.code());
    assert(size(a) * size(x) <= pow2(156) * u) by (nonlinear_arith)
        requires
            size(a) <= u,
            size(x) <= pow2(156),
    ;
    assert(size(b) * size(y) <= pow2(156) * u) by (nonlinear_arith)
        requires
            size(b) <= u,
            size(y) <= pow2(156),
    ;
    lemma_signed_product(a, x, 7);
    lemma_signed_product(b, y, 7);
    lemma_pow2_adds(1, 156);
    lemma_pow2_adds(1, 131);
    lemma_pow2_adds(3, 131);
    lemma_pow2_pos(131);
    let p = product(a, x);
    let q = product(b, y);
    lemma_signed_sum(p, q, 8);
    let r = sum(p, q).value();
    let e = pow2(131) as int;
    let v = p.value();
    let w = q.value();
    assert(-((2 * e) * u) <= r * u - (v * u + w * u) <= (2 * e) * u) by (nonlinear_arith)
        requires
            -(2 * e) <= r - (v + w) <= 2 * e,
            u > 0,
    ;
    assert((2 * e) * u == 2 * (e * u)) by (nonlinear_arith);
    assert((8 * e) * u == 8 * (e * u)) by (nonlinear_arith);
}

/// The noise floor follows a steady level anywhere between -80 and -10 dB: one frame takes it
/// 15 hundredths of the way to a level that is less than 3 dB above it, and 2 thousandths of the
/// way to a louder one, but for rounding. So it never moves away from the level, and comes
/// nearer to it from any distance that rounding does not drown.
pub proof fn noise_floor_follows_the_level(noise: Binary32, db: Binary32)
    requires
        noise_in_bounds(noise),
        db.finite(),
        in_noise_range(db.value()),
    ensures
        ({
            let n = noise.value();
            let d = db.value();
            let r = noise_after(noise, db).value();
            let was = if n <= d {
                d - n
            } else {
                n - d
            };
            let is = if r <= d {
                d - r
            } else {
                r - d
            };
            &&& in_noise_range(r)
            &&& d < n + 3 * pow2(149) - pow2(132) ==> -pow2(143) <= 100 * r - 85 * n - 15 * d
                <= pow2(143)
            &&& d > n + 3 * pow2(149) + pow2(132) ==> -pow2(145) <= 1000 * r - 998 * n - 2 * d
                <= pow2(145)
            &&& 1000 * is <= 998 * was + pow2(146)
            &&& was > pow2(145) ==> is < was
            &&& n <= d ==> n - pow2(137) <= r <= d + pow2(137)
            &&& d <= n ==> d - pow2(137) <= r <= n + pow2(137)
        }),
{
    lemma_one();
    lemma2_to64();
    lemma_bounds_in_decibel();
    lemma_noise_weights();
    let u = pow2(149);
    let n = noise.value();
    let d = db.value();
    lemma_pow2_adds(7, 149);
    lemma_mag_order(noise.code(), INFINITE as nat);
    assert(noise.finite()) by {
        lemma_mag_order((Binary32 { bits: QUIETEST }).code(), INFINITE as nat);
        lemma_mag_order(0, noise.code());
    }
    // The level that parts both paths.
    let three = Binary32 { bits: 0x4040_0000 };
    lemma_mag_code(127, 0xc0_0000);
    lemma_pow2_adds(22, 127);
    assert(three.value() == 3 * u);
    lemma_signed_sum(noise, three, 7);
    lemma_pow2_adds(1, 131);
    lemma_pow2_pos(131);
    let edge = sum(noise, three);
    let fast = db.less(edge);
    let a = if fast {
        Binary32 { bits: 0x3f59_999a }
    } else {
        Binary32 { bits: 0x3f7f_7cee }
    };
    let b = if fast {
        Binary32 { bits: 0x3e19_999a }
    } else {
        Binary32 { bits: 0x3b03_126f }
    };
    assert(is_share(a) && is_share(b)) by {
        lemma_mag_order(0, a.code());
        lemma_mag_order(0, b.code());
    }
    lemma_weighted_sum(a, noise, b, db);
    let moved = sum(product(a, noise), product(b, db));
    let r = noise_after(noise, db).value();
    assert(noise_after(noise, db) == moved.held(
        Binary32 { bits: QUIETEST },
        Binary32 { bits: LOUDEST },
    ));
    let m = moved.value();
    let x = a.value();
    let y = b.value();
    let e = pow2(134) as int;
    lemma_pow2_adds(9, 134);
    lemma_pow2_adds(11, 134);
    lemma_pow2_adds(3, 134);
    lemma_pow2_adds(12, 134);
    lemma_pow2_adds(3, 131);
    lemma_pow2_adds(15, 134);
    lemma_pow2_pos(134);
    lemma_pow2_adds(3, 134);
    if fast {
        lemma_moved(m, x, n, y, d, u as int, e, 100, 85, 15);
        assert(-(260 * e) <= 100 * r - 85 * n - 15 * d <= 260 * e);
    } else {
        lemma_moved(m, x, n, y, d, u as int, e, 1000, 998, 2);
        assert(-(1160 * e) <= 1000 * r - 998 * n - 2 * d <= 1160 * e);
    }
    assert(in_noise_range(r));
}

/// A weighted sum with weights in whole parts, from one with weights that are near to them.
proof fn lemma_moved(
    m: int,
    x: int,
    n: int,
    y: int,
    d: int,
    u: int,
    e: int,
    c: int,
    a: int,
    b: int,
)
    requires
        -(e * u) <= m * u - (x * n + y * d) <= e * u,
        -e <= c * x - a * u <= e,
        -e <= c * y - b * u <= e,
        -80 * u <= n <= -10 * u,
        -80 * u <= d <= -10 * u,
        u > 0,
        e > 0,
        c > 0,
    ensures
        -((c + 160) * e) <= c * m - a * n - b * d <= (c + 160) * e,
{
    let p = c * x - a * u;
    let q = c * y - b * u;
    assert(-(80 * (e * u)) <= p * n <= 80 * (e * u)) by (nonlinear_arith)
        requires
            -e <= p <= e,
            -80 * u <= n <= 0,
            e > 0,
    ;
    assert(-(80 * (e * u)) <= q * d <= 80 * (e * u)) by (nonlinear_arith)
        requires
            -e <= q <= e,
            -80 * u <= d <= 0,
            e > 0,
    ;
    assert(c * (x * n) == (a * n) * u + p * n) by (nonlinear_arith)
        requires
            p == c * x - a * u,
    ;
    assert(c * (y * d) == (b * d) * u + q * d) by (nonlinear_arith)
        requires
            q == c * y - b * u,
    ;
    assert(c * (m * u) - c * (x * n + y * d) <= c * (e * u)) by (nonlinear_arith)
        requires
            m * u - (x * n + y * d) <= e * u,
            c > 0,
    ;
    assert(c * (m * u) - c * (x * n + y * d) >= -(c * (e * u))) by (nonlinear_arith)
        requires
            m * u - (x * n + y * d) >= -(e * u),
            c > 0,
    ;
    assert(c * (x * n + y * d) == c * (x * n) + c * (y * d)) by (nonlinear_arith);
    let f = c * m - a * n - b * d;
    assert(f * u == c * (m * u) - (a * n) * u - (b * d) * u) by (nonlinear_arith)
        requires
            f == c * m - a * n - b * d,
    ;
    assert(f * u <= c * (e * u) + 160 * (e * u));
    assert(f * u >= -(c * (e * u) + 160 * (e * u)));
    assert(c * (e * u) + 160 * (e * u) == ((c + 160) * e) * u) by (nonlinear_arith);
    assert(-((c + 160) * e) <= f <= (c + 160) * e) by (nonlinear_arith)
        requires
            -(((c + 160) * e) * u) <= f * u <= ((c + 160) * e) * u,
            u > 0,
    ;
}

/// Whether the margin and the hysteresis of a gate are levels of up to 64 dB, the hysteresis the
/// smaller one.
pub open spec fn has_margin(g: VoiceGate) -> bool {
    &&& g.margin_db.finite()
    &&& g.hysteresis_db.finite()
    &&& 0 <= g.hysteresis_db.value() <= g.margin_db.value() <= 64 * pow2(149)
}

/// A gate opens for a level above its noise floor and margin, and closes for one below that less
/// its hysteresis, but for rounding; in between it stays as it is. The noise floor is the one
/// that has heard the level.
pub proof fn gate_opens_by_its_margin(g: VoiceGate, db: Binary32)
    requires
        noise_in_bounds(g.noise_floor_db),
        has_margin(g),
        !db.nan(),
    ensures
        ({
            let after = gate_after(g, db);
            let n = after.noise_floor_db.value();
            let on = n + g.margin_db.value();
            let off = on - g.hysteresis_db.value();
            let d = db.value();
            &&& after.margin_db == g.margin_db
            &&& after.hysteresis_db == g.hysteresis_db
            &&& noise_in_bounds(after.noise_floor_db)
            &&& after.noise_floor_db.finite()
            &&& !g.gate_open && d > on + pow2(134) ==> after.gate_open
            &&& !g.gate_open && d < on - pow2(134) ==> !after.gate_open
            &&& g.gate_open && d > off + pow2(134) ==> after.gate_open
            &&& g.gate_open && d < off - pow2(134) ==> !after.gate_open
        }),
{
    lemma_one();
    lemma2_to64();
    lemma_bounds_in_decibel();
    noise_floor_stays_in_bounds(g, db);
    let u = pow2(149);
    let after = gate_after(g, db);
    let noise = after.noise_floor_db;
    lemma_mag_order(noise.code(), INFINITE as nat);
    lemma_mag_order((Binary32 { bits: QUIETEST }).code(), INFINITE as nat);
    lemma_mag_order(0, noise.code());
    assert(noise.finite());
    lemma_pow2_adds(7, 149);
    lemma_pow2_adds(8, 149);
    lemma_pow2_adds(1, 131);
    lemma_pow2_adds(3, 131);
    lemma_pow2_pos(131);
    lemma_signed_sum(noise, g.margin_db, 7);
    let on = sum(noise, g.margin_db);
    let h = g.hysteresis_db.turned();
    assert(h.code() == g.hysteresis_db.code());
    assert(h.value() == -g.hysteresis_db.value());
    lemma_signed_sum(on, h, 8);
    assert(after.gate_open == if g.gate_open {
        !db.less(sum(on, h))
    } else {
        on.less(db)
    });
}

/// A gate after a number of frames of one level.
pub open spec fn steady_gate(g: VoiceGate, db: Binary32, frames: nat) -> VoiceGate
    decreases frames,
{
    if frames == 0 {
        g
    } else {
        gate_after(steady_gate(g, db, (frames - 1) as nat), db)
    }
}

/// How far a gate's noise floor is from a level.
pub open spec fn from_noise(g: VoiceGate, db: Binary32) -> int {
    let n = g.noise_floor_db.value();
    if n <= db.value() {
        db.value() - n
    } else {
        n - db.value()
    }
}

/// The noise floor comes nearer to a steady level until less than one decibel is left.
proof fn lemma_steady_noise(g: VoiceGate, db: Binary32, frames: nat)
    requires
        noise_in_bounds(g.noise_floor_db),
        has_margin(g),
        db.finite(),
        in_noise_range(db.value()),
    ensures
        ({
            let after = steady_gate(g, db, frames);
            let u = pow2(149);
            &&& noise_in_bounds(after.noise_floor_db)
            &&& after.margin_db == g.margin_db
            &&& after.hysteresis_db == g.hysteresis_db
            &&& from_noise(after, db) <= u || 600 * from_noise(after, db) <= (42000 - frames) * u
        }),
    decreases frames,
{
    lemma_one();
    lemma2_to64();
    lemma_bounds_in_decibel();
    let u = pow2(149) as int;
    lemma_pow2_adds(3, 146);
    lemma_pow2_pos(146);
    if frames == 0 {
        assert(600 * from_noise(g, db) <= 42000 * u);
    } else {
        let n = (frames - 1) as nat;
        lemma_steady_noise(g, db, n);
        let before = steady_gate(g, db, n);
        gate_opens_by_its_margin(before, db);
        noise_floor_follows_the_level(before.noise_floor_db, db);
        let after = steady_gate(g, db, frames);
        let was = from_noise(before, db);
        let is = from_noise(after, db);
        assert(1000 * is <= 998 * was + pow2(146));
        assert((42000 - frames) * u == (42000 - n) * u - u) by (nonlinear_arith)
            requires
                frames == n + 1,
        ;
    }
}

/// A gate that hears the same level for long enough is closed, wherever the level lies between
/// -80 and -10 dB: the noise floor has come to it. Steady noise does not keep a gate open.
pub proof fn steady_noise_closes_the_voice_gate(g: VoiceGate, db: Binary32, frames: nat)
    requires
        noise_in_bounds(g.noise_floor_db),
        has_margin(g),
        2 * (g.margin_db.value() - g.hysteresis_db.value()) >= 3 * pow2(149),
        db.finite(),
        in_noise_range(db.value()),
        frames >= 42000,
    ensures
        from_noise(steady_gate(g, db, frames), db) <= pow2(149),
        !steady_gate(g, db, frames).gate_open,
{
    lemma_one();
    lemma2_to64();
    let u = pow2(149) as int;
    let n = (frames - 1) as nat;
    lemma_steady_noise(g, db, frames);
    lemma_steady_noise(g, db, n);
    assert((42000 - frames) * u <= 0) by (nonlinear_arith)
        requires
            frames >= 42000,
            u > 0,
    ;
    let before = steady_gate(g, db, n);
    gate_opens_by_its_margin(before, db);
    lemma_pow2_adds(15, 134);
    lemma_pow2_pos(134);
}

/// The margin of a gate is the distance of its two thresholds, but at least 4 dB, and its
/// hysteresis is six tenths of the margin; both but for rounding.
pub proof fn margin_is_the_distance_of_the_thresholds(
    threshold_on_db: Binary32,
    threshold_off_db: Binary32,
)
    requires
        threshold_on_db.finite(),
        threshold_off_db.finite(),
        -pow2(156) <= threshold_on_db.value() <= pow2(156),
        -pow2(156) <= threshold_off_db.value() <= pow2(156),
    ensures
        ({
            let m = margin(threshold_on_db, threshold_off_db);
            let apart = threshold_on_db.value() - threshold_off_db.value();
            let u = pow2(149);
            let h = product(m, Binary32 { bits: 0x3f19_999a });
            &&& m.finite()
            &&& m.value() >= 4 * u
            &&& apart >= 4 * u ==> -pow2(132) <= m.value() - apart <= pow2(132)
            &&& apart < 4 * u ==> 4 * u <= m.value() <= 4 * u + pow2(132)
            &&& h.finite()
            &&& -pow2(137) <= 10 * h.value() - 6 * m.value() <= pow2(137)
        }),
{
    lemma_one();
    lemma2_to64();
    let t = threshold_off_db.turned();
    assert(t.code() == threshold_off_db.code());
    assert(t.value() == -threshold_off_db.value());
    lemma_pow2_adds(1, 156);
    lemma_pow2_adds(8, 149);
    lemma_signed_sum(threshold_on_db, t, 8);
    let u = pow2(149);
    let four = Binary32 { bits: 0x4080_0000 };
    lemma_mag_code(128, 0x80_0000);
    lemma_pow2_adds(23, 128);
    lemma_pow2_adds(2, 149);
    assert(four.value() == 4 * u);
    let m = margin(threshold_on_db, threshold_off_db);
    lemma_mag_order(0, m.code());
    let w = Binary32 { bits: 0x3f19_999a };
    lemma_mag_code(125, 0x99_999a);
    lemma_pow2_adds(24, 125);
    lemma_pow2_adds(2, 125);
    lemma_pow2_adds(7, 125);
    lemma_pow2_adds(5, 132);
    lemma_pow2_adds(1, 156);
    lemma_pow2_pos(125);
    lemma_pow2_pos(132);
    lemma_mag_order(0, w.code());
    let c = w.value();
    assert(-(4 * pow2(125)) <= 10 * c - 6 * u <= 4 * pow2(125));
    assert(size(m) <= pow2(157));
    assert(size(m) * size(w) <= pow2(157) * u) by (nonlinear_arith)
        requires
            size(m) <= pow2(157),
            size(w) <= u,
    ;
    lemma_signed_product(m, w, 8);
    let h = product(m, w).value();
    let v = m.value();
    let e = pow2(132) as int;
    let g = 10 * c - 6 * u;
    let q = pow2(125) as int;
    assert(10 * (v * c) == (6 * v) * u + g * v) by (nonlinear_arith)
        requires
            g == 10 * c - 6 * u,
    ;
    assert(-((1024 * q) * u) <= g * v <= (1024 * q) * u) by (nonlinear_arith)
        requires
            -(4 * q) <= g <= 4 * q,
            0 <= v <= 256 * u,
            q > 0,
    ;
    let f = 10 * h - 6 * v;
    assert(f * u == 10 * (h * u) - (6 * v) * u) by (nonlinear_arith)
        requires
            f == 10 * h - 6 * v,
    ;
    assert((32 * e) * u >= 10 * (e * u) + (1024 * q) * u) by (nonlinear_arith)
        requires
            e == 128 * q,
            q > 0,
            u > 0,
    ;
    assert(-(32 * e) <= f <= 32 * e) by (nonlinear_arith)
        requires
            -((32 * e) * u) <= f * u <= (32 * e) * u,
            u > 0,
    ;
}

/// The exponent of the weight of an old value is the time of a hop by the time constant, with
/// its sign turned, at any sample rate and any hop size: `-(hop / rate) / (ms / 1000)`, but for
/// rounding.
pub proof fn values_fade_with_their_time_constant(ms: Binary32, sample_rate: u32, hop_size: usize)
    requires
        ms.finite(),
        pow2(139) <= ms.value() <= pow2(169),
        sample_rate >= 1,
        1 <= hop_size <= u32::MAX,
    ensures
        ({
            let x = fading(ms, sample_rate, hop_size);
            let u = pow2(149);
            &&& x.finite()
            &&& x.value() <= 0
            &&& approx(-x.value(), ((1000 * hop_size) * u) * u, ms.value() * sample_rate, 32)
        }),
{
    lemma_one();
    lemma2_to64();
    lemma2_to64_rest();
    let u = pow2(149) as int;
    let t = PARTS as int;
    let r = sample_rate as int;
    let h = hop_size as int;
    let a = count(sample_rate as nat);
    let b = count(hop_size as nat);
    approx_count(sample_rate as nat);
    approx_count(hop_size as nat);
    let x = a.value();
    let y = b.value();
    lemma_pow2_adds(32, 149);
    lemma_pow2_adds(1, 181);
    assert(x <= pow2(182)) by (nonlinear_arith)
        requires
            (x * 1) * t <= (r * u) * (t + 1),
            1 <= r <= pow2(32),
            u > 0,
            t == 0x100_0000,
            pow2(182) == 2 * pow2(181),
            pow2(181) == pow2(32) * u,
    ;
    assert(y <= pow2(182)) by (nonlinear_arith)
        requires
            (y * 1) * t <= (h * u) * (t + 1),
            1 <= h <= pow2(32),
            u > 0,
            t == 0x100_0000,
            pow2(182) == 2 * pow2(181),
            pow2(181) == pow2(32) * u,
    ;
    // Hops per second.
    lemma_pow2_adds(23, 182);
    lemma_pow2_adds(149, 149);
    lemma_pow2_adds(182, 149);
    lemma_pow2_adds(276, 149);
    lemma_pow2_strictly_increases(205, 298);
    lemma_pow2_strictly_increases(331, 425);
    assert(pow2(23) * y <= x * u) by (nonlinear_arith)
        requires
            y <= pow2(182),
            x >= u,
            pow2(23) * pow2(182) < u * u,
            u > 0,
            pow2(23) > 0,
    ;
    assert(x * u <= pow2(276) * y) by (nonlinear_arith)
        requires
            x <= pow2(182),
            y >= u,
            pow2(182) * u < pow2(276) * u,
            u > 0,
            pow2(276) > 0,
    ;
    approx_quotient(a, r * u, 1, 1, b, h * u, 1, 1);
    let rate = quotient(a, b);
    let z = rate.value();
    assert(((r * u) * 1) * u == (r * u) * u);
    assert(1 * (h * u) == h * u);
    lemma_approx_cancel(z, r * u, h, u, 6);
    lemma_pow2_adds(1, 115);
    lemma_pow2_adds(33, 149);
    lemma_pow2_adds(116, 182);
    assert(z >= pow2(115)) by (nonlinear_arith)
        requires
            (x * u) * (t - 1) <= (z * y) * t,
            x >= u,
            pow2(116) * pow2(182) == u * u,
            0 < y <= pow2(182),
            pow2(116) == 2 * pow2(115),
            t == 0x100_0000,
            u > 0,
    ;
    lemma_pow2_adds(1, 182);
    assert(z <= pow2(183)) by (nonlinear_arith)
        requires
            (z * y) * t <= (x * u) * (t + 1),
            x <= pow2(182),
            y >= u,
            pow2(183) == 2 * pow2(182),
            t == 0x100_0000,
            u > 0,
            pow2(182) > 0,
    ;
    // Seconds.
    let c = Binary32 { bits: 0x3a83_126f };
    lemma_mag_code(116, 0x83_126f);
    lemma_pow2_adds(33, 116);
    lemma_pow2_adds(23, 116);
    lemma_pow2_adds(24, 116);
    lemma_pow2_pos(116);
    let w = c.value();
    let p = pow2(116);
    assert(w == 0x83_126f * p);
    assert(u == 0x2_0000_0000 * p);
    assert(approx(w, u, 1000, 1)) by (nonlinear_arith)
        requires
            w == 0x83_126f * p,
            u == 0x2_0000_0000 * p,
            p > 0,
            PARTS == 0x100_0000,
    ;
    let v = ms.value();
    lemma_mag_order(0, ms.code());
    lemma_mag_order(0, c.code());
    lemma_pow2_adds(139, 139);
    lemma_pow2_adds(23, 149);
    lemma_pow2_adds(169, 140);
    lemma_pow2_strictly_increases(172, 278);
    lemma_pow2_strictly_increases(309, 425);
    assert(pow2(139) * pow2(139) <= v * w <= pow2(169) * pow2(140)) by (nonlinear_arith)
        requires
            pow2(139) <= v <= pow2(169),
            pow2(139) <= w <= pow2(140),
    ;
    assert(approx(v, v, 1, 0));
    approx_product(ms, v, 1, 0, c, u, 1000, 1);
    let seconds = product(ms, c);
    let q = seconds.value();
    assert(v * u == v * u);
    assert((1 * 1000) * pow2(149) == 1000 * u);
    lemma_approx_cancel(q, v, 1000, u, 4);
    lemma_pow2_adds(1, 128);
    lemma_pow2_adds(129, 149);
    lemma_pow2_adds(1, 160);
    lemma_pow2_adds(160, 149);
    lemma_pow2_pos(128);
    lemma_pow2_pos(160);
    assert(q >= pow2(128)) by (nonlinear_arith)
        requires
            (v * w) * (t - 1) <= (q * u) * t,
            pow2(129) * u <= v * w,
            pow2(129) == 2 * pow2(128),
            t == 0x100_0000,
            u > 0,
            pow2(128) > 0,
    ;
    assert(q <= pow2(161)) by (nonlinear_arith)
        requires
            (q * u) * t <= (v * w) * (t + 1),
            v * w <= pow2(160) * u,
            pow2(161) == 2 * pow2(160),
            t == 0x100_0000,
            u > 0,
            pow2(160) > 0,
    ;
    // Hops in the time constant.
    lemma_pow2_adds(128, 115);
    lemma_pow2_adds(161, 183);
    lemma_pow2_strictly_increases(172, 243);
    lemma_pow2_strictly_increases(344, 425);
    lemma_pow2_pos(115);
    assert(pow2(128) * pow2(115) <= q * z <= pow2(161) * pow2(183)) by (nonlinear_arith)
        requires
            pow2(128) <= q <= pow2(161),
            pow2(115) <= z <= pow2(183),
    ;
    approx_product(seconds, v, 1000, 4, rate, r * u, h, 6);
    let hops = product(seconds, rate);
    let k = hops.value();
    assert(v * (r * u) == (v * r) * u) by (nonlinear_arith);
    lemma_approx_cancel(k, v * r, 1000 * h, u, 13);
    lemma_pow2_adds(1, 93);
    lemma_pow2_adds(94, 149);
    lemma_pow2_adds(1, 195);
    lemma_pow2_adds(195, 149);
    lemma_pow2_pos(93);
    lemma_pow2_pos(195);
    assert(k >= pow2(93)) by (nonlinear_arith)
        requires
            (q * z) * (t - 1) <= (k * u) * t,
            pow2(94) * u <= q * z,
            pow2(94) == 2 * pow2(93),
            t == 0x100_0000,
            u > 0,
            pow2(93) > 0,
    ;
    assert(k <= pow2(196)) by (nonlinear_arith)
        requires
            (k * u) * t <= (q * z) * (t + 1),
            q * z <= pow2(195) * u,
            pow2(196) == 2 * pow2(195),
            t == 0x100_0000,
            u > 0,
            pow2(195) > 0,
    ;
    // One by that.
    lemma_pow2_adds(23, 196);
    lemma_pow2_adds(276, 93);
    lemma_pow2_strictly_increases(219, 298);
    lemma_pow2_strictly_increases(298, 369);
    assert(pow2(23) * k <= u * u) by (nonlinear_arith)
        requires
            k <= pow2(196),
            pow2(23) * pow2(196) < u * u,
            pow2(23) > 0,
    ;
    assert(u * u <= pow2(276) * k) by (nonlinear_arith)
        requires
            k >= pow2(93),
            u * u < pow2(276) * pow2(93),
            pow2(276) > 0,
    ;
    assert(v * r > 0) by (nonlinear_arith)
        requires
            v > 0,
            r >= 1,
    ;
    assert(1000 * h > 0);
    assert(approx(u, u, 1, 0));
    approx_quotient(one(), u, 1, 0, hops, v * r, 1000 * h, 13);
    let minus = Binary32 { bits: 0xbf80_0000 };
    lemma_mag_order(0, hops.code());
    lemma_quotient(one(), hops);
    lemma_quotient(minus, hops);
    let f = quotient(minus, hops);
    let g = quotient(one(), hops);
    lemma_mag_order(0, f.code());
    lemma_mag_order(0, g.code());
    assert(size(f) == size(g));
    assert(g.value() == size(g));
    assert(f.value() == -(size(f) as int));
    assert(f == fading(ms, sample_rate, hop_size));
    assert((u * (1000 * h)) * u == ((1000 * h) * u) * u) by (nonlinear_arith);
    assert(1 * (v * r) == v * r);
    let n = ((1000 * h) * u) * u;
    assert(n >= 0) by (nonlinear_arith)
        requires
            n == ((1000 * h) * u) * u,
            h >= 1,
            u > 0,
    ;
    assert(n * (t - 32) <= n * (t - 17) && n * (t + 17) <= n * (t + 32)) by (nonlinear_arith)
        requires
            n >= 0,
    ;
}

/// The gain in decibel that a voice asks for is what it lacks to the target by the ratio: the
/// exponent to ten of the gain, times twenty times the ratio, is the target less twenty times
/// the logarithm of the loudness, but for rounding. A voice that lacks nothing asks for none.
pub proof fn boost_is_what_is_lacking_by_the_ratio(c: VoiceCompressor, log: Binary32)
    requires
        c.target_db.finite(),
        -pow2(156) <= c.target_db.value() <= pow2(156),
        log.finite(),
        -6 * pow2(149) <= log.value() <= 6 * pow2(149),
        c.ratio.finite(),
        pow2(139) <= c.ratio.value() <= pow2(159),
    ensures
        ({
            let u = pow2(149);
            let lacking = difference(c.target_db, decibel(log)).value();
            let x = boost_exponent(c, log);
            &&& -pow2(134) <= lacking - (c.target_db.value() - 20 * log.value()) <= pow2(134)
            &&& lacking <= 0 ==> x.code() == 0
            &&& lacking >= pow2(129) ==> approx(x.value(), lacking * u, 20 * c.ratio.value(), 8)
        }),
{
    lemma_one();
    lemma2_to64();
    let u = pow2(149) as int;
    let twenty = Binary32 { bits: TWENTY };
    lemma_mag_code(130, 0xa0_0000);
    lemma_pow2_adds(19, 130);
    assert(size(twenty) == 20 * u);
    lemma_mag_order(0, twenty.code());
    lemma_mag_order(0, log.code());
    lemma_pow2_adds(7, 149);
    lemma_pow2_adds(8, 149);
    assert(size(twenty) * size(log) <= pow2(156) * pow2(149)) by (nonlinear_arith)
        requires
            size(twenty) == 20 * pow2(149),
            size(log) <= 6 * pow2(149),
            pow2(156) == 128 * pow2(149),
    ;
    lemma_signed_product(twenty, log, 7);
    let db = decibel(log);
    lemma_pow2_adds(1, 131);
    lemma_pow2_adds(3, 131);
    lemma_pow2_pos(131);
    let e = pow2(131) as int;
    let d = db.value();
    let g = log.value();
    assert(-e <= d - 20 * g <= e) by (nonlinear_arith)
        requires
            -(e * u) <= d * u - (20 * u) * g <= e * u,
            u > 0,
    ;
    let t = db.turned();
    assert(t.code() == db.code());
    assert(t.value() == -d);
    lemma_pow2_adds(1, 156);
    lemma_signed_sum(c.target_db, t, 8);
    let lacking = difference(c.target_db, db);
    let x = boost_exponent(c, log);
    let v = lacking.value();
    if v <= 0 {
        lemma_mag_order(0, twenty.code());
        crate::order::lemma_zero_quotient(zero(), twenty);
    }
    if v >= pow2(129) {
        lemma_pow2_pos(129);
        let r = c.ratio.value();
        lemma_pow2_adds(23, 159);
        lemma_pow2_adds(129, 149);
        lemma_pow2_adds(157, 149);
        lemma_pow2_adds(276, 139);
        lemma_pow2_strictly_increases(182, 278);
        lemma_pow2_strictly_increases(306, 415);
        assert(pow2(23) * r <= v * u) by (nonlinear_arith)
            requires
                0 < r <= pow2(159),
                v >= pow2(129),
                pow2(23) * pow2(159) < pow2(129) * u,
                u > 0,
                pow2(23) > 0,
        ;
        assert(v * u <= pow2(276) * r) by (nonlinear_arith)
            requires
                v <= pow2(157),
                r >= pow2(139),
                pow2(157) * u < pow2(276) * pow2(139),
                u > 0,
                pow2(276) > 0,
        ;
        assert(approx(v, v, 1, 0));
        assert(approx(r, r, 1, 0));
        approx_quotient(lacking, v, 1, 0, c.ratio, r, 1, 0);
        let b = quotient(lacking, c.ratio);
        let w = b.value();
        let p = PARTS as int;
        assert(pow2(129) * u <= v * u <= pow2(157) * u) by (nonlinear_arith)
            requires
                pow2(129) <= v <= pow2(157),
                u > 0,
        ;
        lemma_pow2_adds(1, 118);
        lemma_pow2_adds(119, 159);
        lemma_pow2_adds(1, 167);
        lemma_pow2_adds(167, 139);
        lemma_pow2_pos(118);
        lemma_pow2_pos(139);
        lemma_pow2_pos(167);
        assert(w >= pow2(118)) by (nonlinear_arith)
            requires
                (v * u) * (p - 1) <= (w * r) * p,
                pow2(119) * pow2(159) <= v * u,
                0 < r <= pow2(159),
                pow2(119) == 2 * pow2(118),
                p == 0x100_0000,
                pow2(118) > 0,
        ;
        assert(w <= pow2(168)) by (nonlinear_arith)
            requires
                (w * r) * p <= (v * u) * (p + 1),
                v * u <= pow2(167) * pow2(139),
                r >= pow2(139),
                pow2(168) == 2 * pow2(167),
                p == 0x100_0000,
                pow2(139) > 0,
                pow2(167) > 0,
        ;
        let k = 20 * u;
        lemma_pow2_adds(5, 149);
        lemma_pow2_adds(23, 154);
        lemma_pow2_adds(118, 149);
        lemma_pow2_adds(168, 149);
        lemma_pow2_adds(276, 149);
        lemma_pow2_strictly_increases(177, 267);
        lemma_pow2_strictly_increases(317, 425);
        assert(pow2(23) * k <= w * u) by (nonlinear_arith)
            requires
                k == 20 * u,
                pow2(154) == 32 * u,
                w >= pow2(118),
                pow2(23) * pow2(154) < pow2(118) * u,
                u > 0,
                pow2(23) > 0,
        ;
        assert(w * u <= pow2(276) * k) by (nonlinear_arith)
            requires
                k == 20 * u,
                w <= pow2(168),
                pow2(168) * u < pow2(276) * u,
                u > 0,
                pow2(276) > 0,
        ;
        assert(approx(k, k, 1, 0));
        approx_quotient(b, (v * 1) * u, 1 * r, 4, twenty, k, 1, 0);
        assert((((v * 1) * u) * 1) * u == (v * u) * u);
        assert((1 * r) * k == (20 * r) * u) by (nonlinear_arith)
            requires
                k == 20 * u,
        ;
        lemma_approx_cancel(x.value(), v * u, 20 * r, u, 8);
    }
}

/// A frame asks for a gain only where it is louder than the noise floor, for no more than the
/// greatest gain, and for what the power of ten gave below that.
pub proof fn gain_is_asked_for_above_the_noise_floor(
    c: VoiceCompressor,
    rms: Binary32,
    power: Binary32,
)
    requires
        !c.noise_floor.nan(),
        !rms.nan(),
        !power.nan(),
        !c.max_gain.nan(),
    ensures
        rms.value() <= c.noise_floor.value() ==> gain_wanted(c, rms, power) == one(),
        rms.value() > c.noise_floor.value() && power.value() < c.max_gain.value() ==> gain_wanted(
            c,
            rms,
            power,
        ) == power,
        rms.value() > c.noise_floor.value() && power.value() > c.max_gain.value() ==> gain_wanted(
            c,
            rms,
            power,
        ) == c.max_gain,
{
}

} // verus!
