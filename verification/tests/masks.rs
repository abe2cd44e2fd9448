use spectralblend::binary32::Binary32;
use spectralblend::config::{Config, MaskingConfig};
use spectralblend::spectral_mask::SpectralMask;

fn of(x: f32) -> Binary32 {
    Binary32 { bits: x.to_bits() }
}

fn to(x: Binary32) -> f32 {
    f32::from_bits(x.bits)
}

fn all(values: &[f32]) -> Vec<Binary32> {
    values.iter().map(|&x| of(x)).collect()
}

fn floats(values: &[Binary32]) -> Vec<f32> {
    values.iter().map(|&x| to(x)).collect()
}

fn gain(db: f32) -> f32 {
    10.0_f32.powf(db / 20.0)
}

/// The mask of one frame in machine arithmetic, before it is smoothed over time.
fn wanted(
    voice: &[f32],
    music: &[f32],
    gate: f32,
    config: &MaskingConfig,
    fft: usize,
    rate: u32,
) -> Vec<f32> {
    let floor = gain(to(config.max_reduction_db));
    let freq = |k: usize| k as f32 * rate as f32 / fft as f32;
    let lerp = |a: f32, b: f32, t: f32| a + t * (b - a);
    let (low, high) = (to(config.focus_low_hz), to(config.focus_high_hz));
    let mut mask: Vec<f32> = (0..voice.len())
        .map(|k| {
            let ratio = voice[k] / (music[k] + 1e-10);
            let scaled = (ratio * to(config.sensitivity)).clamp(0.0, 1.0 - floor);
            1.0 - to(config.depth) * scaled
        })
        .collect();
    for k in 0..mask.len() {
        if freq(k) < to(config.sub_bass_protect_hz) {
            mask[k] = 1.0;
        }
        let f = freq(k);
        let weight = if f <= 0.0 {
            0.0
        } else if f >= low && f <= high {
            1.0
        } else if f < low {
            let edge = low / 2.0;
            if f <= edge { 0.0 } else { (f - edge) / (low - edge) }
        } else {
            let edge = high * 2.0;
            if f >= edge { 0.0 } else { (edge - f) / (edge - high) }
        };
        mask[k] = lerp(1.0, mask[k], weight);
    }
    let width = config.spectral_smooth_bins;
    if width > 1 {
        let half = width / 2;
        let len = mask.len();
        mask = (0..len)
            .map(|k| {
                let start = k.saturating_sub(half);
                let end = (k + half + 1).min(len);
                let sum: f32 = mask[start..end].iter().sum();
                sum / (end - start) as f32
            })
            .collect();
    }
    mask.iter().map(|&v| lerp(1.0, v, gate).max(floor)).collect()
}

fn follow(smoothed: &mut [f32], mask: &[f32]) {
    for (s, &m) in smoothed.iter_mut().zip(mask) {
        let alpha: f32 = if m < *s { 0.3 } else { 0.85 };
        *s = alpha * *s + (1.0 - alpha) * m;
    }
}

fn noise(seed: &mut u32) -> f32 {
    *seed = seed.wrapping_mul(1664525).wrapping_add(1013904223);
    (*seed >> 8) as f32 / 16777216.0
}

#[test]
fn masks_follow_the_formulas() {
    let fft = 128;
    let rate = 48000;
    let mut config = Config::default().masking;
    config.max_reduction_db = of(-12.0);
    let mut lib = SpectralMask::new(fft, rate);
    let len = lib.spectrum_len();
    assert_eq!(len, 65);
    let mut smoothed = vec![1.0_f32; len];
    let mut seed = 7;
    for frame in 0..12 {
        config.spectral_smooth_bins = [3, 1, 5, 0, 64, 1000][frame % 6];
        let voice: Vec<f32> = (0..len).map(|_| noise(&mut seed) * 0.5).collect();
        let music: Vec<f32> = (0..len).map(|_| noise(&mut seed)).collect();
        let gate = [0.0, 0.25, 1.0][frame % 3];
        let expected = wanted(&voice, &music, gate, &config, fft, rate);
        follow(&mut smoothed, &expected);
        let floor = gain(-12.0);
        let out = lib.build_mask(&all(&voice), &all(&music), of(gate), &config, of(floor));
        let mut handed: Vec<f32> = smoothed.iter().map(|v| v.max(floor)).collect();
        for k in 0..len {
            if (k as f32 * rate as f32 / fft as f32) < 80.0 {
                handed[k] = 1.0;
            }
        }
        assert_eq!(floats(&out), handed);
        assert!(out.iter().all(|&m| to(m) >= floor && to(m) <= 1.0));
    }
}

#[test]
fn bins_below_the_protected_frequency_stay_at_one() {
    let mut config = Config::default().masking;
    config.focus_low_hz = of(10.0);
    config.focus_strength = of(0.0);
    config.spectral_smooth_bins = 9;
    config.sub_bass_protect_hz = of(80.0);
    let mut lib = SpectralMask::new(2048, 48000);
    let len = lib.spectrum_len();
    let loud = all(&vec![10.0; len]);
    let quiet = all(&vec![0.01; len]);
    for _ in 0..4 {
        let out = lib.build_mask(&loud, &quiet, of(1.0), &config, of(0.5));
        // Bins of 23.4 Hz each: the first four lie below 80 Hz.
        assert_eq!(floats(&out[..4]), vec![1.0; 4]);
        assert!(to(out[4]) < 1.0);
        assert!(out.iter().all(|&m| to(m) >= 0.5));
    }
}

#[test]
fn a_closed_voice_gate_leaves_music_untouched() {
    let config = Config::default().masking;
    let mut lib = SpectralMask::new(64, 48000);
    let len = lib.spectrum_len();
    let voice = all(&vec![3.0; len]);
    let music = all(&vec![f32::NAN; len]);
    for _ in 0..5 {
        let out = lib.build_mask(&voice, &music, of(0.0), &config, of(0.5));
        assert_eq!(floats(&out), vec![1.0; len]);
    }
}

#[test]
fn no_depth_and_no_voice_mask_nothing() {
    let mut config = Config::default().masking;
    let mut lib = SpectralMask::new(64, 48000);
    let len = lib.spectrum_len();
    let music = all(&vec![0.5; len]);
    let out = lib.build_mask(&all(&vec![0.0; len]), &music, of(1.0), &config, of(0.5));
    assert_eq!(floats(&out), vec![1.0; len]);
    config.depth = of(0.0);
    let out = lib.build_mask(&all(&vec![9.0; len]), &music, of(1.0), &config, of(1.0));
    assert_eq!(floats(&out), vec![1.0; len]);
}

#[test]
fn the_floor_is_held_when_it_rises() {
    let mut config = Config::default().masking;
    config.depth = of(1.0);
    let mut lib = SpectralMask::new(64, 48000);
    let len = lib.spectrum_len();
    let (loud, quiet) = (all(&vec![10.0; len]), all(&vec![0.1; len]));
    let low = gain(-24.0);
    for _ in 0..30 {
        let out = lib.build_mask(&loud, &quiet, of(1.0), &config, of(low));
        assert!(out.iter().all(|&m| to(m) >= low));
    }
    let high = gain(-3.0);
    let out = lib.build_mask(&loud, &quiet, of(1.0), &config, of(high));
    assert!(out.iter().all(|&m| to(m) >= high));
}

#[test]
fn more_voice_gives_a_lower_mask() {
    let mut config = Config::default().masking;
    config.spectral_smooth_bins = 1;
    let music = all(&vec![1.0; 33]);
    let mut last = 1.0;
    for v in [0.0, 0.05, 0.1, 0.2, 0.3] {
        let mut lib = SpectralMask::new(64, 48000);
        let out = lib.build_mask(&all(&vec![v; 33]), &music, of(1.0), &config, of(0.5));
        // 750 Hz, inside of the focus band.
        let m = to(out[1]);
        assert!(m <= last);
        last = m;
    }
    assert!(last < 1.0);
}

#[test]
fn masks_only_recover_while_the_voice_is_silent() {
    let mut config = Config::default().masking;
    config.depth = of(1.0);
    let mut lib = SpectralMask::new(64, 48000);
    let len = lib.spectrum_len();
    let (loud, quiet) = (all(&vec![10.0; len]), all(&vec![0.1; len]));
    let mut last = Vec::new();
    for _ in 0..5 {
        last = floats(&lib.build_mask(&loud, &quiet, of(1.0), &config, of(0.25)));
    }
    assert!(last[3] < 0.5);
    for _ in 0..200 {
        let next = floats(&lib.build_mask(&loud, &quiet, of(0.0), &config, of(0.25)));
        assert!(next.iter().zip(&last).all(|(n, l)| n >= l && *n <= 1.0));
        last = next;
    }
    assert!(last.iter().all(|&m| m > 0.999));
}

#[test]
fn bins_far_from_the_voice_stay_at_one() {
    let mut config = Config::default().masking;
    config.depth = of(1.0);
    config.spectral_smooth_bins = 5;
    let mut lib = SpectralMask::new(256, 48000);
    let len = lib.spectrum_len();
    // A loud voice in bin 10 alone, inside of the focus band.
    let mut voice = vec![0.0; len];
    voice[10] = 50.0;
    let music = all(&vec![0.3; len]);
    for _ in 0..6 {
        let out = floats(&lib.build_mask(&all(&voice), &music, of(1.0), &config, of(0.25)));
        for (k, &m) in out.iter().enumerate() {
            if (8..=12).contains(&k) {
                assert!(m < 1.0);
            } else {
                assert_eq!(m, 1.0);
            }
        }
    }
}

#[test]
fn no_depth_hands_out_ones_whatever_is_heard() {
    let mut config = Config::default().masking;
    config.depth = of(0.0);
    let mut lib = SpectralMask::new(128, 48000);
    let len = lib.spectrum_len();
    let mut seed = 5;
    for round in 0..8 {
        let voice: Vec<f32> = (0..len).map(|_| noise(&mut seed).abs() * 30.0).collect();
        let music: Vec<f32> = (0..len).map(|_| noise(&mut seed).abs()).collect();
        let gate = of(round as f32 / 8.0);
        let out = lib.build_mask(&all(&voice), &all(&music), gate, &config, of(0.25));
        assert_eq!(floats(&out), vec![1.0; len]);
    }
}
