use realfft::RealFftPlanner;
use rustfft::num_complex;
use spectralblend::binary32::Binary32;
use spectralblend::config::Config;
use spectralblend::fft::OverlapAddProcessor;
use spectralblend::filter::{filter_state_name, quantum, FilterPhase, FilterState, MAX_QUANTUM};
use spectralblend::level::Complex;
use spectralblend::offline::{process_offline, OfflineError, Recording};
use spectralblend::params::RuntimeParams;
use spectralblend::pipeline::{DspPipeline, Tools};
use spectralblend::realtime::RealtimeEngine;
use spectralblend::ring::{pop_or_silence, push_fitting, second_of_stereo};

type Number = fn(Binary32) -> Binary32;
type Outside = Tools<
    Number,
    Number,
    fn(Complex) -> Binary32,
    fn(Vec<Binary32>) -> Vec<Complex>,
    fn(Vec<Complex>) -> Vec<Binary32>,
>;

fn of(x: f32) -> Binary32 {
    Binary32 { bits: x.to_bits() }
}

fn to(x: Binary32) -> f32 {
    f32::from_bits(x.bits)
}

fn all(values: &[f32]) -> Vec<Binary32> {
    values.iter().map(|&x| of(x)).collect()
}

fn floats(values: &[Binary32]) -> Vec<f32> {
    values.iter().map(|&x| to(x)).collect()
}

fn log10(x: Binary32) -> Binary32 {
    of(to(x).log10())
}

fn exp(x: Binary32) -> Binary32 {
    of(to(x).exp())
}

fn cos(x: Binary32) -> Binary32 {
    of(to(x).cos())
}

fn pow10(x: Binary32) -> Binary32 {
    of(10.0_f32.powf(to(x)))
}

fn norm(c: Complex) -> Binary32 {
    of(to(c.re).hypot(to(c.im)))
}

fn transform(frame: &[f32]) -> Vec<num_complex::Complex<f32>> {
    let plan = RealFftPlanner::<f32>::new().plan_fft_forward(frame.len());
    let mut input = frame.to_vec();
    let mut spectrum = plan.make_output_vec();
    plan.process(&mut input, &mut spectrum).unwrap();
    spectrum
}

fn back(spectrum: &[num_complex::Complex<f32>]) -> Vec<f32> {
    let plan = RealFftPlanner::<f32>::new().plan_fft_inverse((spectrum.len() - 1) * 2);
    let mut input = spectrum.to_vec();
    let mut frame = plan.make_output_vec();
    plan.process(&mut input, &mut frame).unwrap();
    frame
}

fn forward(frame: Vec<Binary32>) -> Vec<Complex> {
    transform(&floats(&frame)).iter().map(|c| Complex { re: of(c.re), im: of(c.im) }).collect()
}

fn inverse(spectrum: Vec<Complex>) -> Vec<Binary32> {
    let s: Vec<num_complex::Complex<f32>> =
        spectrum.iter().map(|c| num_complex::Complex::new(to(c.re), to(c.im))).collect();
    all(&back(&s))
}

fn tools() -> Outside {
    Tools { log10, pow10, norm, forward, inverse }
}

/// One channel of the processing in machine arithmetic.
struct Channel {
    gain: f32,
    smoothed: Vec<f32>,
}

/// The processing in machine arithmetic.
struct Reference {
    fft: usize,
    rate: u32,
    hop: usize,
    window: Vec<f32>,
    left: Channel,
    right: Channel,
    open: bool,
    envelope: f32,
    noise: f32,
    mask_min: f32,
    /// Whether what the masks take away is synthesised, in place of what they leave.
    takes: bool,
}

impl Reference {
    fn new(fft: usize, rate: u32, hop: usize) -> Self {
        let window = (0..fft)
            .map(|n| {
                let phase = 2.0 * std::f32::consts::PI * n as f32 / (fft - 1) as f32;
                0.5 * (1.0 - phase.cos())
            })
            .collect();
        let channel = || Channel { gain: 1.0, smoothed: vec![1.0; fft / 2 + 1] };
        Reference {
            fft,
            rate,
            hop,
            window,
            left: channel(),
            right: channel(),
            open: false,
            envelope: 0.0,
            noise: -80.0,
            mask_min: 1.0,
            takes: false,
        }
    }

    fn alpha(&self, ms: f32) -> f32 {
        (-1.0 / (ms * 0.001 * (self.rate as f32 / self.hop as f32))).exp()
    }

    fn spectrum(&self, frame: &[f32]) -> Vec<num_complex::Complex<f32>> {
        let windowed: Vec<f32> = frame.iter().zip(&self.window).map(|(s, w)| s * w).collect();
        transform(&windowed)
    }

    fn synthesize(&self, spectrum: &[num_complex::Complex<f32>], accum: &mut [f32], at: usize) {
        let norm = 1.0 / self.fft as f32;
        for (i, s) in back(spectrum).iter().enumerate() {
            if at + i < accum.len() {
                accum[at + i] += s * norm * self.window[i];
            }
        }
    }

    fn compress(&self, gain: &mut f32, frame: &[f32]) -> Vec<f32> {
        let rms = (frame.iter().map(|s| s * s).sum::<f32>() / frame.len() as f32).sqrt();
        let target = if rms > 0.002 {
            let diff = 20.0 * 0.15_f32.log10() - 20.0 * rms.log10();
            let db = if diff > 0.0 { diff / 1.8 } else { 0.0 };
            10.0_f32.powf(db / 20.0).min(8.0)
        } else {
            1.0
        };
        let alpha = if target < *gain { self.alpha(30.0) } else { self.alpha(200.0) };
        *gain = alpha * *gain + (1.0 - alpha) * target;
        frame.iter().map(|s| s * *gain).collect()
    }

    fn listen(&mut self, l: &[num_complex::Complex<f32>], r: &[num_complex::Complex<f32>]) {
        let rms = |s: &[num_complex::Complex<f32>]| {
            (s.iter().map(|c| c.norm_sqr()).sum::<f32>() / s.len() as f32).sqrt()
        };
        let db = 20.0 * (rms(l).max(rms(r)) + 1e-10).log10();
        if db < self.noise + 3.0 {
            self.noise = 0.85 * self.noise + 0.15 * db;
        } else {
            self.noise = 0.998 * self.noise + 0.002 * db;
        }
        self.noise = self.noise.clamp(-80.0, -10.0);
        let on = self.noise + 10.0;
        let off = self.noise + 10.0 - 10.0 * 0.6;
        if self.open {
            if db < off {
                self.open = false;
            }
        } else if db > on {
            self.open = true;
        }
        let target = if self.open { 1.0 } else { 0.0 };
        let alpha = if target > self.envelope { self.alpha(5.0) } else { self.alpha(100.0) };
        self.envelope = alpha * self.envelope + (1.0 - alpha) * target;
    }

    fn mask(
        &self,
        smoothed: &mut [f32],
        voice: &[num_complex::Complex<f32>],
        music: &[num_complex::Complex<f32>],
    ) {
        let floor = 10.0_f32.powf(-6.0 / 20.0);
        let lerp = |a: f32, b: f32, t: f32| a + t * (b - a);
        let mask: Vec<f32> = (0..voice.len())
            .map(|k| {
                let f = k as f32 * self.rate as f32 / self.fft as f32;
                let ratio = voice[k].norm() / (music[k].norm() + 1e-10);
                let mut m = 1.0 - 0.6 * (ratio * 1.5).clamp(0.0, 1.0 - floor);
                if f < 80.0 {
                    m = 1.0;
                }
                let weight = if f <= 0.0 {
                    0.0
                } else if (300.0..=6000.0).contains(&f) {
                    1.0
                } else if f < 300.0 {
                    if f <= 150.0 { 0.0 } else { (f - 150.0) / (300.0 - 150.0) }
                } else if f >= 12000.0 {
                    0.0
                } else {
                    (12000.0 - f) / (12000.0 - 6000.0)
                };
                lerp(1.0, m, weight)
            })
            .collect();
        for k in 0..mask.len() {
            let start = k.saturating_sub(1);
            let end = (k + 2).min(mask.len());
            let mean = mask[start..end].iter().sum::<f32>() / (end - start) as f32;
            let m = lerp(1.0, mean, self.envelope).max(floor);
            let alpha: f32 = if m < smoothed[k] { 0.3 } else { 0.85 };
            smoothed[k] = alpha * smoothed[k] + (1.0 - alpha) * m;
        }
    }

    /// Gives the mean mask.
    fn process(&mut self, input: [&[f32]; 4], accums: &mut [Vec<f32>; 4], at: usize) -> f32 {
        let (mut gain_l, mut gain_r) = (self.left.gain, self.right.gain);
        let lifted_l = self.compress(&mut gain_l, input[2]);
        let lifted_r = self.compress(&mut gain_r, input[3]);
        self.left.gain = gain_l;
        self.right.gain = gain_r;
        let voice_l = self.spectrum(&lifted_l);
        let voice_r = self.spectrum(&lifted_r);
        let music_l = self.spectrum(input[0]);
        let music_r = self.spectrum(input[1]);
        self.listen(&voice_l, &voice_r);
        let mut means = 0.0_f32;
        let mut left = std::mem::take(&mut self.left.smoothed);
        let mut right = std::mem::take(&mut self.right.smoothed);
        self.mask(&mut left, &voice_l, &music_l);
        self.mask(&mut right, &voice_r, &music_r);
        for (side, smoothed, music) in [(0, &left, &music_l), (1, &right, &music_r)] {
            let floor = 10.0_f32.powf(-6.0 / 20.0);
            let mut mask: Vec<f32> = smoothed.iter().map(|m| m.max(floor)).collect();
            for k in 0..mask.len() {
                if (k as f32 * self.rate as f32 / self.fft as f32) < 80.0 {
                    mask[k] = 1.0;
                }
            }
            let factor = |m: f32| if self.takes { 1.0 - m } else { m };
            let masked: Vec<num_complex::Complex<f32>> =
                music.iter().zip(&mask).map(|(c, &m)| c * factor(m)).collect();
            self.synthesize(&masked, &mut accums[side], at);
            means += mask.iter().sum::<f32>() / mask.len() as f32;
            for &m in &mask {
                self.mask_min = self.mask_min.min(m);
            }
        }
        self.left.smoothed = left;
        self.right.smoothed = right;
        self.synthesize(&voice_l, &mut accums[2], at);
        self.synthesize(&voice_r, &mut accums[3], at);
        means * 0.5
    }
}

fn noise(seed: &mut u32) -> f32 {
    *seed = seed.wrapping_mul(1664525).wrapping_add(1013904223);
    (*seed >> 8) as f32 / 8388608.0 - 1.0
}

fn tone(len: usize, step: f32, level: f32, seed: &mut u32) -> Vec<f32> {
    (0..len).map(|i| (i as f32 * step).sin() * level + noise(seed) * level * 0.1).collect()
}

fn settings(fft: usize) -> Config {
    let mut config = Config::default();
    config.processing.fft_size = fft;
    config
}

#[test]
fn windows_are_hann_windows() {
    let p = OverlapAddProcessor::new(16, cos);
    assert_eq!(p.fft_size(), 16);
    assert_eq!(p.spectrum_len(), 9);
    let shape = floats(&p.apply_window(&all(&[1.0; 16])));
    let expected: Vec<f32> = (0..16)
        .map(|n| 0.5 * (1.0 - (2.0 * std::f32::consts::PI * n as f32 / 15.0).cos()))
        .collect();
    assert_eq!(shape, expected);
    assert_eq!(shape[0], 0.0);
    assert!(shape.iter().all(|w| (0.0..=1.0).contains(w)));
    let spectrum = p.process_frame(&all(&[1.0; 16]), forward);
    assert_eq!(spectrum, forward(all(&expected)));
}

#[test]
fn frames_are_added_where_they_belong() {
    let p = OverlapAddProcessor::new(4, cos);
    let w = floats(&p.apply_window(&all(&[1.0; 4])));
    let mut accum = all(&[1.0; 6]);
    p.overlap_add(&all(&[4.0, 8.0, 12.0, 16.0]), &mut accum, 3);
    let norm = 1.0 / 4.0_f32;
    assert_eq!(
        floats(&accum),
        vec![
            1.0,
            1.0,
            1.0,
            1.0 + 4.0 * norm * w[0],
            1.0 + 8.0 * norm * w[1],
            1.0 + 12.0 * norm * w[2]
        ]
    );
    let before = accum.clone();
    p.overlap_add(&all(&[1.0; 4]), &mut accum, 6);
    p.overlap_add(&all(&[1.0; 4]), &mut accum, usize::MAX);
    assert_eq!(accum, before);
    let mut other = all(&[0.0; 4]);
    let spectrum = forward(all(&[0.1, 0.2, 0.3, 0.4]));
    p.synthesize(spectrum.clone(), &mut other, 0, inverse);
    let mut expected = all(&[0.0; 4]);
    p.overlap_add(&inverse(spectrum), &mut expected, 0);
    assert_eq!(other, expected);
}

#[test]
fn frames_go_through_all_of_the_processing() {
    let fft = 256;
    let config = settings(fft);
    let hop = config.hop_size();
    let mut lib = DspPipeline::new(&config, log10, exp, cos);
    let mut machine = Reference::new(fft, 48000, hop);
    let mut seed = 3;
    let len = fft * 4;
    let music_l = tone(len, 0.2, 0.5, &mut seed);
    let music_r = tone(len, 0.31, 0.4, &mut seed);
    let mut voice_l = tone(len, 0.1, 0.05, &mut seed);
    let voice_r = tone(len, 0.12, 0.02, &mut seed);
    for s in voice_l.iter_mut().take(fft) {
        *s = 0.0;
    }
    let mut accums: [Vec<f32>; 4] = [vec![0.0; len], vec![0.0; len], vec![0.0; len], vec![0.0; len]];
    let mut lib_accums: Vec<Vec<Binary32>> = accums.iter().map(|a| all(a)).collect();
    let mut at = 0;
    let mut frames = 0;
    while at + fft <= len {
        let cut = at..at + fft;
        let mean = machine.process(
            [
                &music_l[cut.clone()],
                &music_r[cut.clone()],
                &voice_l[cut.clone()],
                &voice_r[cut.clone()],
            ],
            &mut accums,
            at,
        );
        let (a, rest) = lib_accums.split_at_mut(1);
        let (b, rest) = rest.split_at_mut(1);
        let (c, d) = rest.split_at_mut(1);
        let found = lib.process_frame(
            &all(&music_l[cut.clone()]),
            &all(&music_r[cut.clone()]),
            &all(&voice_l[cut.clone()]),
            &all(&voice_r[cut.clone()]),
            &config.masking,
            &mut a[0],
            &mut b[0],
            &mut c[0],
            &mut d[0],
            at,
            of(1.0),
            &tools(),
        );
        assert_eq!(to(found), mean);
        frames += 1;
        at += hop;
    }
    for (found, expected) in lib_accums.iter().zip(&accums) {
        assert_eq!(&floats(found), expected);
    }
    assert_eq!(lib.frame_count(), frames);
    assert_eq!(to(lib.mask_min()), machine.mask_min);
    assert!(machine.mask_min < 1.0);
}

#[test]
fn music_without_voice_keeps_its_spectrum() {
    let fft = 128;
    let config = settings(fft);
    let mut lib = DspPipeline::new(&config, log10, exp, cos);
    let frames = OverlapAddProcessor::new(fft, cos);
    let mut seed = 11;
    let silence = all(&vec![0.0; fft]);
    for _ in 0..4 {
        let music = all(&tone(fft, 0.23, 0.7, &mut seed));
        let mut accums: Vec<Vec<Binary32>> = vec![silence.clone(); 4];
        let (a, rest) = accums.split_at_mut(1);
        let (b, rest) = rest.split_at_mut(1);
        let (c, d) = rest.split_at_mut(1);
        let mean = lib.process_frame(
            &music,
            &music,
            &silence,
            &silence,
            &config.masking,
            &mut a[0],
            &mut b[0],
            &mut c[0],
            &mut d[0],
            0,
            of(1.0),
            &tools(),
        );
        assert_eq!(to(mean), 1.0);
        let mut expected = silence.clone();
        frames.synthesize(frames.process_frame(&music, forward), &mut expected, 0, inverse);
        assert_eq!(a[0], expected);
        assert_eq!(b[0], expected);
    }
    assert_eq!(to(lib.mask_min()), 1.0);
}

#[test]
fn recordings_are_processed_frame_by_frame() {
    let fft = 128;
    let mut config = settings(fft);
    config.output.voice_gain_db = of(3.0);
    config.output.music_gain_db = of(-2.0);
    let hop = config.hop_size();
    let mut seed = 5;
    let music_l = tone(700, 0.2, 0.5, &mut seed);
    let music_r = tone(700, 0.3, 0.5, &mut seed);
    let voice_l = tone(500, 0.11, 0.1, &mut seed);
    let voice_r = tone(500, 0.13, 0.1, &mut seed);
    let result = process_offline(
        Recording { left: all(&music_l), right: all(&music_r), sample_rate: 48000 },
        Recording { left: all(&voice_l), right: all(&voice_r), sample_rate: 48000 },
        &config,
        &tools(),
        exp,
        cos,
    );
    let result = result.unwrap();
    let mut machine = Reference::new(fft, 48000, hop);
    machine.takes = true;
    let total = 700;
    let lead = fft - hop;
    let around = |samples: &[f32]| {
        let mut all = vec![0.0; lead];
        all.extend(samples);
        all.resize(lead + total + fft, 0.0);
        all
    };
    let src = [around(&music_l), around(&music_r), around(&voice_l), around(&voice_r)];
    let out = lead + total + fft;
    let mut accums: [Vec<f32>; 4] = [vec![0.0; out], vec![0.0; out], vec![0.0; out], vec![0.0; out]];
    let mut weights = vec![0.0_f32; out];
    let mut means = Vec::new();
    let mut at = 0;
    while at < lead + total {
        let cut = at..at + fft;
        for (weight, w) in weights[cut.clone()].iter_mut().zip(&machine.window) {
            *weight += w * w;
        }
        means.push(machine.process(
            [&src[0][cut.clone()], &src[1][cut.clone()], &src[2][cut.clone()], &src[3][cut]],
            &mut accums,
            at,
        ));
        at += hop;
    }
    let (mg, vg) = (10.0_f32.powf(-2.0 / 20.0), 10.0_f32.powf(3.0 / 20.0));
    for (side, found) in [(0, &result.left), (1, &result.right)] {
        let expected: Vec<f32> = (lead..lead + total)
            .map(|i| {
                let music = src[side][i] - accums[side][i] / weights[i];
                music * mg + accums[side + 2][i] / weights[i] * vg
            })
            .collect();
        assert_eq!(&floats(found), &expected);
    }
    // A lead-in of 64 samples and 700 samples, in hops of 64.
    assert_eq!(result.frame_count, 12);
    assert_eq!(result.frame_count, means.len() as u64);
    assert_eq!(floats(&result.mask_means), means);
    assert_eq!(to(result.mask_min), machine.mask_min);
    assert!(machine.mask_min < 1.0);
}

#[test]
fn music_comes_out_as_it_went_in_when_nobody_speaks() {
    for (fft, ratio, len) in [(64, 0.5, 300), (64, 0.25, 129), (64, 1.0, 200), (2048, 0.5, 1)] {
        let mut config = settings(fft);
        config.processing.hop_ratio = of(ratio);
        let mut seed = 83;
        let music = tone(len, 0.2, 0.8, &mut seed);
        let result = process_offline(
            Recording { left: all(&music), right: all(&music), sample_rate: 48000 },
            Recording { left: all(&[0.0; 40]), right: all(&[0.0; 40]), sample_rate: 48000 },
            &config,
            &tools(),
            exp,
            cos,
        );
        let result = result.unwrap();
        let mut expected = music.clone();
        expected.resize(len.max(40), 0.0);
        assert_eq!(floats(&result.left), expected);
        assert_eq!(floats(&result.right), expected);
        assert_eq!(to(result.mask_min), 1.0);
    }
}

#[test]
fn music_is_untouched_before_anybody_speaks() {
    let config = settings(64);
    let hop = config.hop_size();
    let mut seed = 89;
    let music = tone(800, 0.3, 0.8, &mut seed);
    let mut voice = vec![0.0; 400];
    voice.extend(tone(400, 0.25, 0.3, &mut seed));
    let result = process_offline(
        Recording { left: all(&music), right: all(&music), sample_rate: 48000 },
        Recording { left: all(&voice), right: all(&voice), sample_rate: 48000 },
        &config,
        &tools(),
        exp,
        cos,
    );
    let left = floats(&result.unwrap().left);
    // The voice reaches no frame that ends before it begins.
    assert_eq!(left[..400 - 2 * hop], music[..400 - 2 * hop]);
    assert_ne!(left[500..700], music[500..700]);
}

#[test]
fn a_voice_alone_comes_out_whole() {
    let config = settings(64);
    let mut seed = 97;
    // Loud enough not to be lifted.
    let voice: Vec<f32> = tone(200, 0.3, 0.9, &mut seed);
    let result = process_offline(
        Recording { left: all(&[]), right: all(&[]), sample_rate: 48000 },
        Recording { left: all(&voice), right: all(&voice), sample_rate: 48000 },
        &config,
        &tools(),
        exp,
        cos,
    );
    let left = floats(&result.unwrap().left);
    assert_eq!(left.len(), 200);
    for (found, expected) in left[32..168].iter().zip(&voice[32..168]) {
        assert!((found - expected).abs() < 1e-4, "{found} {expected}");
    }
}

#[test]
fn recordings_of_another_rate_are_refused() {
    let config = settings(64);
    let recording =
        |rate: u32| Recording { left: all(&[0.0; 8]), right: all(&[0.0; 8]), sample_rate: rate };
    let e = process_offline(recording(44100), recording(8000), &config, &tools(), exp, cos);
    let e = e.unwrap_err();
    assert_eq!(e, OfflineError::MusicRate { found: 44100, expected: 48000 });
    assert_eq!(e.words(), "Music sample rate (44100) doesn't match config (48000)");
    let e = process_offline(recording(48000), recording(8000), &config, &tools(), exp, cos);
    let e = e.unwrap_err();
    assert_eq!(e, OfflineError::VoiceRate { found: 8000, expected: 48000 });
    assert_eq!(e.words(), "Voice sample rate (8000) doesn't match config (48000)");
    let none = || Recording { left: all(&[]), right: all(&[]), sample_rate: 48000 };
    let r = process_offline(none(), none(), &config, &tools(), exp, cos).unwrap();
    assert_eq!(r.left.len(), 0);
    assert_eq!(r.frame_count, 0);
    assert_eq!(to(r.mask_min), 1.0);
}

#[test]
fn live_sound_goes_from_ring_to_ring() {
    let fft = 64;
    let config = settings(fft);
    let hop = config.hop_size();
    let mut engine = RealtimeEngine::new(&config, log10, exp, cos, pow10);
    let (mut music_in, mut music_out) = second_of_stereo(100);
    let (mut voice_in, mut voice_out) = second_of_stereo(100);
    let (mut mix_in, mut mix_out) = second_of_stereo(20);
    let mut seed = 17;
    let mut machine = Reference::new(fft, 48000, hop);
    let mut windows: [Vec<f32>; 4] = [vec![0.0; fft], vec![0.0; fft], vec![0.0; fft], vec![0.0; fft]];
    let mut accums: [Vec<f32>; 4] = [vec![0.0; fft], vec![0.0; fft], vec![0.0; fft], vec![0.0; fft]];
    assert!(!engine.step(&mut music_out, &mut voice_out, &mut mix_in, &tools()));
    let mut heard: Vec<f32> = Vec::new();
    for round in 0..4 {
        let music = tone(2 * hop, 0.2, 0.5, &mut seed);
        let voice = tone(2 * hop, 0.1, 0.1, &mut seed);
        assert_eq!(push_fitting(&mut music_in, &all(&music)), 2 * hop);
        assert!(!engine.step(&mut music_out, &mut voice_out, &mut mix_in, &tools()));
        assert_eq!(push_fitting(&mut voice_in, &all(&voice)), 2 * hop);
        assert!(engine.step(&mut music_out, &mut voice_out, &mut mix_in, &tools()));
        for (w, (samples, side)) in
            windows.iter_mut().zip([(&music, 0), (&music, 1), (&voice, 0), (&voice, 1)])
        {
            w.drain(..hop);
            w.extend(samples.iter().skip(side).step_by(2));
        }
        machine.process([&windows[0], &windows[1], &windows[2], &windows[3]], &mut accums, 0);
        let mut mix: Vec<f32> = Vec::new();
        for i in 0..hop {
            mix.push(accums[0][i] * 1.0 + accums[2][i] * 1.0);
            mix.push(accums[1][i] * 1.0 + accums[3][i] * 1.0);
        }
        // The tail of this frame is added to by the next one.
        for a in accums.iter_mut() {
            a.drain(..hop);
            a.resize(fft, 0.0);
        }
        // The output ring has room for 40 samples: what does not fit is dropped.
        let (out, taken) = pop_or_silence(&mut mix_out, 100);
        assert_eq!(taken, 40);
        assert_eq!(floats(&out[..40]), mix[..40].to_vec());
        assert_eq!(floats(&out[40..]), vec![0.0; 60]);
        if round == 3 {
            heard = mix;
        }
    }
    assert!(heard.iter().any(|&s| s != 0.0));
}

/// A filter in machine arithmetic.
struct Plain {
    machine: Reference,
    windows: [Vec<f32>; 4],
    accums: [Vec<f32>; 4],
    queue: [Vec<f32>; 2],
    pending: usize,
}

impl Plain {
    fn cycle(&mut self, n: usize, input: [&[f32]; 4], gain: f32) -> [Vec<f32>; 2] {
        let hop = self.machine.hop;
        let fft = self.machine.fft;
        for i in 0..n {
            for (w, s) in self.windows.iter_mut().zip(input) {
                w.remove(0);
                w.push(s[i]);
            }
            self.pending += 1;
            if self.pending == hop {
                self.pending = 0;
                let w = self.windows.clone();
                self.machine.process([&w[0], &w[1], &w[2], &w[3]], &mut self.accums, 0);
                for k in 0..hop {
                    for side in 0..2 {
                        self.queue[side]
                            .push(self.accums[side][k] * 1.0 + self.accums[side + 2][k] * gain);
                    }
                }
                for a in self.accums.iter_mut() {
                    a.drain(..hop);
                    a.resize(fft, 0.0);
                }
            }
        }
        let mut out = [Vec::new(), Vec::new()];
        for side in 0..2 {
            let d = self.queue[side].len().min(n);
            out[side] = self.queue[side].drain(..d).collect();
            out[side].resize(n, 0.0);
        }
        out
    }
}

#[test]
fn the_filter_takes_cycles_of_any_length() {
    let fft = 64;
    let mut config = settings(fft);
    config.masking.depth = of(0.25);
    let hop = config.hop_size();
    let mut filter = FilterState::new(&config, log10, exp, cos, pow10);
    filter.enable_debug_recording();
    let mut params = RuntimeParams::new(&config, pow10);
    // The depth gives a reduction of 6 dB, as the machine's processing has it.
    params.store_masking_depth(of(0.25));
    params.store_voice_gain(of(0.5));
    let zeros = || vec![0.0; fft];
    let mut plain = Plain {
        machine: Reference::new(fft, 48000, hop),
        windows: [zeros(), zeros(), zeros(), zeros()],
        accums: [zeros(), zeros(), zeros(), zeros()],
        queue: [Vec::new(), Vec::new()],
        pending: 0,
    };
    let mut seed = 23;
    let mut recorded: Vec<f32> = Vec::new();
    for n in [10, 1, 31, 64, 7, 100, 32, 5, 200, 3] {
        let music_l = tone(n, 0.2, 0.5, &mut seed);
        let voice_l = vec![0.0; n];
        let silent = vec![0.0; n];
        let (l, r) = filter.process(
            n,
            Some(&all(&music_l)),
            None,
            Some(&all(&voice_l)),
            None,
            || params,
            &tools(),
        );
        let out = plain.cycle(n, [&music_l, &silent, &voice_l, &silent], 0.5);
        assert_eq!(floats(&l), out[0]);
        assert_eq!(floats(&r), out[1]);
        recorded.extend(&out[0]);
    }
    assert!(recorded.iter().any(|&s| s != 0.0));
    let [music, _voice, output] = filter.take_record();
    assert_eq!(floats(&output.0), recorded);
    assert_eq!(music.0.len(), recorded.len());
    assert_eq!(floats(&music.1), vec![0.0; recorded.len()]);
}

#[test]
fn cycles_are_cut_to_the_longest_one() {
    assert_eq!(quantum(0), None);
    assert_eq!(quantum(1), Some(1));
    assert_eq!(quantum(8191), Some(8191));
    assert_eq!(quantum(8192), Some(MAX_QUANTUM));
    assert_eq!(quantum(100000), Some(8192));
}

#[test]
fn states_have_names() {
    let names: Vec<&str> = vec![
        filter_state_name(FilterPhase::Error),
        filter_state_name(FilterPhase::Unconnected),
        filter_state_name(FilterPhase::Connecting),
        filter_state_name(FilterPhase::Paused),
        filter_state_name(FilterPhase::Streaming),
        filter_state_name(FilterPhase::Unknown),
    ];
    assert_eq!(names, ["Error", "Unconnected", "Connecting", "Paused", "Streaming", "Unknown"]);
}

#[test]
fn live_frames_overlap() {
    let config = settings(4);
    let mut engine = RealtimeEngine::new(&config, log10, exp, cos, pow10);
    let (mut music_in, mut music_out) = second_of_stereo(4);
    let (mut voice_in, mut voice_out) = second_of_stereo(4);
    let (mut mix_in, mut mix_out) = second_of_stereo(4);
    push_fitting(&mut music_in, &all(&[1.0, 1.0, 2.0, 2.0, 3.0, 3.0, 4.0, 4.0]));
    push_fitting(&mut voice_in, &all(&[0.0; 8]));
    assert!(engine.step(&mut music_out, &mut voice_out, &mut mix_in, &tools()));
    assert!(engine.step(&mut music_out, &mut voice_out, &mut mix_in, &tools()));
    let (out, taken) = pop_or_silence(&mut mix_out, 8);
    assert_eq!(taken, 8);
    let expected = [0.0, 0.0, 0.0, 0.0, 0.5625, 0.5625, 1.125, 1.125];
    for (found, wanted) in floats(&out).iter().zip(expected) {
        assert!((found - wanted).abs() < 1e-5, "{found} {wanted}");
    }
}

/// The four outputs after two frames.
fn two_frames(config: &Config, input: [&[f32]; 4]) -> Vec<Vec<Binary32>> {
    let fft = config.processing.fft_size;
    let mut lib = DspPipeline::new(config, log10, exp, cos);
    let mut accums: Vec<Vec<Binary32>> = vec![all(&vec![0.0; fft]); 4];
    for _ in 0..2 {
        let (a, rest) = accums.split_at_mut(1);
        let (b, rest) = rest.split_at_mut(1);
        let (c, d) = rest.split_at_mut(1);
        lib.process_frame(
            &all(input[0]),
            &all(input[1]),
            &all(input[2]),
            &all(input[3]),
            &config.masking,
            &mut a[0],
            &mut b[0],
            &mut c[0],
            &mut d[0],
            0,
            of(1.0),
            &tools(),
        );
    }
    accums
}

#[test]
fn channels_of_the_music_are_apart() {
    let config = settings(64);
    let mut seed = 41;
    let music = tone(64, 0.2, 0.5, &mut seed);
    let other = tone(64, 0.7, 0.3, &mut seed);
    let voice_l = tone(64, 0.3, 0.2, &mut seed);
    let voice_r = tone(64, 0.4, 0.1, &mut seed);
    let a = two_frames(&config, [&music, &music, &voice_l, &voice_r]);
    let b = two_frames(&config, [&music, &other, &voice_l, &voice_r]);
    assert_eq!(a[0], b[0]);
    assert_ne!(a[1], b[1]);
    assert_eq!(a[2..], b[2..]);
    let c = two_frames(&config, [&other, &music, &voice_l, &voice_r]);
    assert_eq!(a[1], c[1]);
    assert_ne!(a[0], c[0]);
    assert_eq!(a[2..], c[2..]);
    // Nor do the voices depend on the masking.
    let mut deep = settings(64);
    deep.masking.depth = of(1.0);
    let d = two_frames(&deep, [&other, &other, &voice_l, &voice_r]);
    assert_eq!(a[2..], d[2..]);
}

#[test]
fn frames_come_back_with_the_window_squared() {
    let p = OverlapAddProcessor::new(8, cos);
    let frame = [0.5, -0.25, 1.0, 0.75, -1.0, 0.125, 0.0, 0.3];
    let w = floats(&p.apply_window(&all(&[1.0; 8])));
    let mut accum = all(&[0.5; 10]);
    p.synthesize(p.process_frame(&all(&frame), forward), &mut accum, 1, inverse);
    assert_eq!(to(accum[0]), 0.5);
    assert_eq!(to(accum[9]), 0.5);
    for i in 0..8 {
        let expected = 0.5 + frame[i] * w[i] * w[i];
        assert!((to(accum[i + 1]) - expected).abs() < 1e-6);
    }
}

#[test]
fn recordings_can_be_padded_beforehand() {
    let config = settings(64);
    let mut seed = 51;
    let music = tone(300, 0.2, 0.5, &mut seed);
    let mut voice = tone(180, 0.3, 0.2, &mut seed);
    let run = |music: &[f32], voice: &[f32]| {
        let recording = |samples: &[f32]| Recording {
            left: all(samples),
            right: all(samples),
            sample_rate: 48000,
        };
        process_offline(recording(music), recording(voice), &config, &tools(), exp, cos).unwrap()
    };
    let a = run(&music, &voice);
    voice.resize(300, 0.0);
    let b = run(&music, &voice);
    assert_eq!(a.left.len(), 300);
    assert_eq!(a.left, b.left);
    assert_eq!(a.right, b.right);
    assert_eq!(a.frame_count, b.frame_count);
    assert_eq!(a.mask_means, b.mask_means);
    assert_eq!(a.mask_min, b.mask_min);
}

#[test]
fn recordings_without_a_hop_are_mixed_as_they_are() {
    let mut config = settings(64);
    config.processing.hop_ratio = of(0.0);
    assert_eq!(config.hop_size(), 0);
    let short = |x: f32| Recording {
        left: all(&[x; 63]),
        right: all(&[-x; 63]),
        sample_rate: 48000,
    };
    let r = process_offline(short(0.5), short(0.25), &config, &tools(), exp, cos).unwrap();
    assert_eq!(r.frame_count, 0);
    assert_eq!(floats(&r.left), vec![0.75; 63]);
    assert_eq!(floats(&r.right), vec![-0.75; 63]);
    assert_eq!(to(r.mask_min), 1.0);
}

#[test]
fn runtime_values_are_read_at_each_hop() {
    let config = settings(64);
    let hop = config.hop_size();
    let base = RuntimeParams::new(&config, pow10);
    let mut seed = 101;
    let music = all(&tone(4 * hop, 0.2, 0.5, &mut seed));
    let voice = all(&tone(4 * hop, 0.3, 0.4, &mut seed));
    let reads = std::cell::Cell::new(0);
    let read = || {
        reads.set(reads.get() + 1);
        let mut p = base;
        p.store_voice_gain(of(if reads.get() > 2 { 0.0 } else { 1.0 }));
        p
    };
    let mut filter = FilterState::new(&config, log10, exp, cos, pow10);
    let n = 4 * hop;
    let (l, _) =
        filter.process(n, Some(&music), None, Some(&voice), None, read, &tools());
    assert_eq!(reads.get(), 4);
    let mut steady = FilterState::new(&config, log10, exp, cos, pow10);
    let (m, _) =
        steady.process(n, Some(&music), None, Some(&voice), None, || base, &tools());
    assert_eq!(l[..2 * hop], m[..2 * hop]);
    assert_ne!(l[2 * hop..], m[2 * hop..]);
}

/// Runs a filter over cycles of the given lengths. Gives the left output without the silence
/// that fills it up, and how much silence there was.
fn run_filter(
    cycles: &[usize],
    music: &[f32],
    voice: &[f32],
    params: &RuntimeParams,
) -> (Vec<f32>, usize) {
    let config = settings(64);
    let hop = config.hop_size();
    let mut filter = FilterState::new(&config, log10, exp, cos, pow10);
    let mut at = 0;
    let mut waiting = 0;
    let mut silence = 0;
    let mut mixed = Vec::new();
    for &n in cycles {
        let m = all(&music[at..at + n]);
        let v = all(&voice[at..at + n]);
        let (l, r) =
            filter.process(n, Some(&m), Some(&m), Some(&v), Some(&v), || *params, &tools());
        assert_eq!(l.len(), n);
        assert_eq!(l, r);
        waiting += ((at + n) / hop - at / hop) * hop;
        at += n;
        let real = n.min(waiting);
        waiting -= real;
        silence += n - real;
        assert!(l[real..].iter().all(|s| s.bits == 0));
        // What waits and what came in since the last hop boundary.
        assert_eq!(waiting + at % hop, silence);
        assert!(silence < hop);
        mixed.extend(floats(&l[..real]));
    }
    (mixed, silence)
}

#[test]
fn cycles_can_be_cut_anywhere() {
    let config = settings(64);
    let params = RuntimeParams::new(&config, pow10);
    let mut seed = 61;
    let music = tone(400, 0.2, 0.5, &mut seed);
    let voice = tone(400, 0.3, 0.2, &mut seed);
    let (a, padded_a) = run_filter(&[400], &music, &voice, &params);
    let (b, padded_b) = run_filter(&[1, 30, 2, 64, 100, 3, 200], &music, &voice, &params);
    let (c, _) = run_filter(&[16; 25], &music, &voice, &params);
    assert_eq!(a.len() + padded_a, 400);
    assert_eq!(b.len() + padded_b, 400);
    assert_eq!(a[..b.len()], b[..]);
    assert_eq!(a[..c.len()], c[..]);
    assert_ne!(padded_a, padded_b);
    assert!(a.iter().any(|&s| s != 0.0));
}

#[test]
fn no_depth_and_no_gain_hide_the_voice() {
    let config = settings(64);
    let mut params = RuntimeParams::new(&config, pow10);
    params.store_masking_depth(of(0.0));
    params.store_voice_gain(of(0.0));
    let mut seed = 71;
    let music = tone(400, 0.2, 0.5, &mut seed);
    let loud = tone(400, 0.3, 0.9, &mut seed);
    let silent = vec![0.0; 400];
    let cycles = [50, 150, 7, 93, 100];
    let a = run_filter(&cycles, &music, &loud, &params);
    let b = run_filter(&cycles, &music, &silent, &params);
    assert_eq!(a, b);
    // With some depth the voice takes from the music.
    params.store_masking_depth(of(1.0));
    let c = run_filter(&cycles, &music, &loud, &params);
    assert_ne!(b, c);
}
