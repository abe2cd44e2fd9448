use spectralblend::binary32::Binary32;
use spectralblend::compressor::VoiceCompressor;
use spectralblend::level::{frame_rms, spectrum_rms, Complex};
use spectralblend::mixer::{db_to_gain, mix_frame};
use spectralblend::voice_gate::{decay_exponent, VoiceGate};

fn of(x: f32) -> Binary32 {
    Binary32 { bits: x.to_bits() }
}

fn to(x: Binary32) -> f32 {
    f32::from_bits(x.bits)
}

fn all(values: &[f32]) -> Vec<Binary32> {
    values.iter().map(|&x| of(x)).collect()
}

fn floats(values: &[Binary32]) -> Vec<f32> {
    values.iter().map(|&x| to(x)).collect()
}

fn log10(x: Binary32) -> Binary32 {
    of(to(x).log10())
}

fn exp(x: Binary32) -> Binary32 {
    of(to(x).exp())
}

fn pow10(x: Binary32) -> Binary32 {
    of(10.0_f32.powf(to(x)))
}

fn gate() -> VoiceGate {
    VoiceGate::new(of(-40.0), of(-50.0), of(5.0), of(100.0), 48000, 1024, exp)
}

#[test]
fn loudness_is_the_root_of_the_mean_square() {
    assert_eq!(to(frame_rms(&[])), 0.0);
    assert_eq!(to(spectrum_rms(&[])), 0.0);
    let frame = [0.5_f32, -0.25, 0.125, 0.3];
    let expected = (frame.iter().map(|s| s * s).sum::<f32>() / 4.0).sqrt();
    assert_eq!(to(frame_rms(&all(&frame))), expected);
    let spectrum: Vec<Complex> =
        vec![Complex { re: of(3.0), im: of(4.0) }, Complex { re: of(0.0), im: of(-1.0) }];
    assert_eq!(to(spectrum_rms(&spectrum)), ((25.0_f32 + 1.0) / 2.0).sqrt());
}

#[test]
fn a_new_voice_gate_is_closed() {
    let g = gate();
    assert!(!g.gate_open);
    assert_eq!(to(g.envelope), 0.0);
    assert_eq!(to(g.noise_floor_db), -80.0);
    assert_eq!(to(g.margin_db), 10.0);
    assert_eq!(to(g.hysteresis_db), 10.0_f32 * 0.6);
    let hop_rate = 48000.0_f32 / 1024.0;
    assert_eq!(to(g.alpha_attack), (-1.0 / (5.0_f32 * 0.001 * hop_rate)).exp());
    assert_eq!(to(g.alpha_release), (-1.0 / (100.0_f32 * 0.001 * hop_rate)).exp());
    assert_eq!(
        to(decay_exponent(of(100.0), 48000, 1024)),
        -1.0 / (100.0_f32 * 0.001 * hop_rate)
    );
    // The margin is at least 4 dB.
    let narrow = VoiceGate::new(of(-40.0), of(-41.0), of(5.0), of(100.0), 48000, 1024, exp);
    assert_eq!(to(narrow.margin_db), 4.0);
}

struct Reference {
    open: bool,
    envelope: f32,
    noise: f32,
}

fn step(r: &mut Reference, g: &VoiceGate, db: f32) -> f32 {
    if db < r.noise + 3.0 {
        r.noise = 0.85 * r.noise + 0.15 * db;
    } else {
        r.noise = 0.998 * r.noise + 0.002 * db;
    }
    r.noise = r.noise.clamp(-80.0, -10.0);
    let (margin, hysteresis) = (to(g.margin_db), to(g.hysteresis_db));
    let on = r.noise + margin;
    let off = r.noise + margin - hysteresis;
    if r.open {
        if db < off {
            r.open = false;
        }
    } else if db > on {
        r.open = true;
    }
    let target = if r.open { 1.0 } else { 0.0 };
    let alpha = if target > r.envelope { to(g.alpha_attack) } else { to(g.alpha_release) };
    r.envelope = alpha * r.envelope + (1.0 - alpha) * target;
    r.envelope
}

#[test]
fn the_voice_gate_follows_the_level() {
    let mut g = gate();
    let mut r = Reference { open: false, envelope: 0.0, noise: -80.0 };
    let mut seed: u32 = 99;
    for i in 0..400 {
        seed = seed.wrapping_mul(1664525).wrapping_add(1013904223);
        let jitter = (seed >> 8) as f32 / 16777216.0 * 12.0;
        let db = if (i / 40) % 2 == 0 { -75.0 + jitter } else { -35.0 + jitter };
        let envelope = g.update_from_db(of(db));
        assert_eq!(to(envelope), step(&mut r, &g, db));
        assert_eq!(g.gate_open, r.open);
        assert_eq!(to(g.noise_floor_db), r.noise);
        assert!((-80.0..=-10.0).contains(&to(g.noise_floor_db)));
        assert!((0.0..=1.0).contains(&to(envelope)));
    }
}

#[test]
fn the_voice_gate_has_hysteresis() {
    let mut g = gate();
    // The noise floor is at -80 dB: opens above -70 dB, closes below -76 dB.
    g.update_from_db(of(-72.0));
    assert!(!g.gate_open);
    g.update_from_db(of(-60.0));
    assert!(g.gate_open);
    g.update_from_db(of(-72.0));
    assert!(g.gate_open);
    g.update_from_db(of(-90.0));
    assert!(!g.gate_open);
}

#[test]
fn the_louder_channel_decides() {
    let quiet = vec![Complex { re: of(1e-6), im: of(0.0) }; 8];
    let loud = vec![Complex { re: of(0.5), im: of(0.5) }; 8];
    let mut a = gate();
    let mut b = gate();
    let mut c = gate();
    let x = a.update_stereo(&quiet, &loud, log10);
    let y = b.update_stereo(&loud, &quiet, log10);
    let z = c.update(&loud, log10);
    assert_eq!(x, y);
    assert_eq!(x, z);
    assert!(a.gate_open);
    let db = 20.0 * (0.5_f32.sqrt() + 1e-10).log10();
    let mut d = gate();
    assert_eq!(d.update_from_db(of(db)), x);
    let mut e = gate();
    e.update(&quiet, log10);
    assert!(!e.gate_open);
    assert_eq!(to(e.envelope), 0.0);
}

fn compressor() -> VoiceCompressor {
    VoiceCompressor::new(of(0.15), of(0.002), of(1.8), 48000, 1024, log10, exp)
}

#[test]
fn a_quiet_voice_is_lifted() {
    let mut c = compressor();
    assert_eq!(to(c.target_db), 20.0 * 0.15_f32.log10());
    assert_eq!(to(c.smoothed_gain), 1.0);
    let mut smoothed = 1.0_f32;
    for level in [0.02_f32, 0.02, 0.05, 0.3, 0.0, 0.004] {
        let frame = vec![level; 64];
        let out = c.process(&all(&frame), of(1.0), log10, pow10);
        let rms = (frame.iter().map(|s| s * s).sum::<f32>() / 64.0).sqrt();
        let target = if rms > 0.002 {
            let diff = 20.0 * 0.15_f32.log10() - 20.0 * rms.log10();
            let db = if diff > 0.0 { diff / 1.8 } else { 0.0 };
            10.0_f32.powf(db / 20.0).min(8.0)
        } else {
            1.0
        };
        let alpha = if target < smoothed { to(c.attack_alpha) } else { to(c.release_alpha) };
        smoothed = alpha * smoothed + (1.0 - alpha) * target;
        assert_eq!(to(c.smoothed_gain), smoothed);
        assert_eq!(floats(&out), frame.iter().map(|s| s * smoothed).collect::<Vec<f32>>());
        assert!((1.0..=8.0).contains(&smoothed));
    }
}

#[test]
fn the_mix_tells_how_much_gain_is_applied() {
    let frame = all(&[0.01, -0.02, 0.03, 0.01]);
    let mut a = compressor();
    let dry = a.process(&frame, of(0.0), log10, pow10);
    assert_eq!(dry, frame);
    let mut b = compressor();
    let wet = b.process(&frame, of(1.0), log10, pow10);
    let gain = to(b.smoothed_gain);
    assert!(gain > 1.0);
    assert_eq!(to(wet[1]), -0.02 * gain);
    let mut c = compressor();
    let half = c.process(&frame, of(0.5), log10, pow10);
    assert_eq!(to(half[1]), -0.02 * (0.5 * gain + 0.5));
}

#[test]
fn gains_are_limited() {
    let mut c = compressor();
    c.follow(of(8.0));
    let first = to(c.smoothed_gain);
    assert!(first > 1.0 && first < 8.0);
    for _ in 0..500 {
        c.follow(of(8.0));
    }
    assert!(to(c.smoothed_gain) <= 8.0);
    assert_eq!(to(c.exponent_for(of(0.0))), 0.0);
}

#[test]
fn the_mix_adds_music_and_voice() {
    let mut out = all(&[9.0, 9.0, 9.0, 9.0]);
    mix_frame(&all(&[1.0, 0.5, 0.25]), &all(&[0.1, 0.2, 0.3]), of(0.5), of(2.0), &mut out);
    assert_eq!(
        floats(&out),
        vec![1.0 * 0.5 + 0.1 * 2.0, 0.5 * 0.5 + 0.2 * 2.0, 0.25 * 0.5 + 0.3 * 2.0, 9.0]
    );
    assert_eq!(to(db_to_gain(of(0.0), pow10)), 1.0);
    assert_eq!(to(db_to_gain(of(-6.0), pow10)), 10.0_f32.powf(-6.0 / 20.0));
}

#[test]
fn the_ratio_tells_how_gently_a_voice_is_lifted() {
    // With a ratio of 3 a voice 12 dB below the target is lifted by 4 dB.
    let c = VoiceCompressor::new(of(1.0), of(0.002), of(3.0), 48000, 1024, log10, exp);
    assert_eq!(to(c.exponent_for(of(-0.6))), 4.0 / 20.0);
}

#[test]
fn the_envelope_rises_while_open_and_falls_while_closed() {
    let mut g = gate();
    let mut last = 0.0;
    let (mut rose, mut fell) = (false, false);
    for i in 0..400 {
        let db = if i % 100 < 40 { -20.0 } else { -75.0 };
        let next = to(g.update_from_db(of(db)));
        assert!((0.0..=1.0).contains(&next));
        if g.gate_open {
            assert!(next >= last);
            rose = rose || next > last;
        } else {
            assert!(next <= last);
            fell = fell || next < last;
        }
        last = next;
    }
    assert!(rose && fell);
}

#[test]
fn gates_agree_on_exchanged_channels() {
    let mut both = gate();
    let mut exchanged = gate();
    let mut alone = gate();
    for i in 0..50 {
        let level = 0.001 * (i % 7) as f32;
        let loud = vec![Complex { re: of(level), im: of(-2.0 * level) }; 9];
        let quiet = vec![Complex { re: of(0.5 * level), im: of(-0.0) }; 9];
        let x = both.update_stereo(&loud, &quiet, log10);
        assert_eq!(exchanged.update_stereo(&quiet, &loud, log10), x);
        assert_eq!(alone.update(&loud, log10), x);
        assert_eq!(both, exchanged);
        assert_eq!(both, alone);
    }
}

#[test]
fn a_steady_voice_raises_the_gain() {
    let mut c = compressor();
    let frame = all(&[0.01; 64]);
    let mut last = 1.0;
    for _ in 0..40 {
        c.process(&frame, of(1.0), log10, pow10);
        let next = to(c.smoothed_gain);
        assert!(last <= next && next <= 8.0);
        last = next;
    }
    assert!(last > 2.0);
}

#[test]
fn silence_and_loud_voices_leave_the_gain_at_one() {
    let mut c = compressor();
    for level in [0.0_f32, 0.5, 0.001, 0.9, 0.0015, 0.16] {
        let frame = all(&[level; 32]);
        assert_eq!(c.process(&frame, of(1.0), log10, pow10), frame);
        assert_eq!(to(c.smoothed_gain), 1.0);
    }
}

#[test]
fn a_steady_gain_tends_to_what_is_asked_for() {
    for wanted in [1.0_f32, 1.584_893_2, 3.3, 7.77, 8.0] {
        let mut c = compressor();
        let mut distance = wanted - 1.0;
        for _ in 0..300 {
            c.follow(of(wanted));
            let gain = to(c.smoothed_gain);
            let next = (gain - wanted).abs();
            // No more than rounding adds to the share of the distance that is left.
            assert!(next <= to(c.release_alpha) * distance + 1e-6);
            assert!(gain <= wanted + 2e-6);
            distance = next;
        }
        assert!(distance < 2e-5, "{wanted} {distance}");
    }
}

#[test]
fn a_voice_is_never_asked_to_be_lowered() {
    let c = compressor();
    for log in [f32::NEG_INFINITY, -10.0, -3.0, -0.83, -0.8, 0.0, 2.0, f32::INFINITY, f32::NAN] {
        assert!(to(c.exponent_for(of(log))) >= 0.0);
    }
}

#[test]
fn silence_keeps_the_voice_gate_closed() {
    let mut g = gate();
    for db in [-80.0, -200.0, -1e30, f32::NEG_INFINITY] {
        assert_eq!(to(g.update_from_db(of(db))), 0.0);
        assert!(!g.gate_open);
    }
}
