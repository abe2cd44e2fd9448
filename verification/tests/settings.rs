use spectralblend::binary32::Binary32;
use spectralblend::config::{Config, ConfigError};
use spectralblend::params::{RuntimeParams, Sliders};

fn of(x: f32) -> Binary32 {
    Binary32 { bits: x.to_bits() }
}

fn to(x: Binary32) -> f32 {
    f32::from_bits(x.bits)
}

fn pow10(x: Binary32) -> Binary32 {
    of(10.0_f32.powf(to(x)))
}

#[test]
fn defaults_are_those_of_the_documentation() {
    let c = Config::default();
    assert_eq!(c.processing.fft_size, 2048);
    assert_eq!(to(c.processing.hop_ratio), 0.5);
    assert_eq!(c.processing.sample_rate, 48000);
    assert_eq!(to(c.masking.depth), 0.6);
    assert_eq!(to(c.masking.sensitivity), 1.5);
    assert_eq!(to(c.masking.max_reduction_db), -6.0);
    assert_eq!(to(c.masking.sub_bass_protect_hz), 80.0);
    assert_eq!(to(c.masking.focus_low_hz), 300.0);
    assert_eq!(to(c.masking.focus_high_hz), 6000.0);
    assert_eq!(c.masking.spectral_smooth_bins, 3);
    assert_eq!(to(c.masking.focus_strength), 1.0);
    assert_eq!(to(c.envelope.attack_ms), 5.0);
    assert_eq!(to(c.envelope.release_ms), 100.0);
    assert_eq!(to(c.envelope.gate_threshold_on), -40.0);
    assert_eq!(to(c.envelope.gate_threshold_off), -50.0);
    assert_eq!(to(c.output.voice_gain_db), 0.0);
    assert_eq!(to(c.output.music_gain_db), 0.0);
    assert!(c.validate().is_ok());
    assert_eq!(c.hop_size(), 1024);
}

#[test]
fn settings_out_of_range_are_refused() {
    let mut c = Config::default();
    c.processing.fft_size = 1000;
    assert_eq!(c.validate(), Err(ConfigError::FftSize(1000)));
    c.processing.fft_size = 0;
    assert_eq!(c.validate(), Err(ConfigError::FftSize(0)));
    c = Config::default();
    for bad in [0.0, -0.5, 1.0001, f32::INFINITY] {
        c.processing.hop_ratio = of(bad);
        assert_eq!(c.validate(), Err(ConfigError::HopRatio(of(bad))));
    }
    c = Config::default();
    for bad in [-0.0001, 1.5, f32::NEG_INFINITY] {
        c.masking.depth = of(bad);
        assert_eq!(c.validate(), Err(ConfigError::Depth(of(bad))));
    }
    c = Config::default();
    c.masking.max_reduction_db = of(0.5);
    let e = c.validate();
    assert_eq!(e, Err(ConfigError::MaxReduction(of(0.5))));
    assert_eq!(
        ConfigError::MaxReduction(of(0.5)).complaint(),
        "max_reduction_db must be <= 0.0, got "
    );
    assert_eq!(ConfigError::FftSize(1).complaint(), "fft_size must be a power of 2, got ");
    assert_eq!(ConfigError::HopRatio(of(0.0)).complaint(), "hop_ratio must be in (0.0, 1.0], got ");
    assert_eq!(ConfigError::Depth(of(0.0)).complaint(), "masking depth must be in [0.0, 1.0], got ");
}

#[test]
fn the_first_fault_is_told() {
    let mut c = Config::default();
    c.processing.fft_size = 3;
    c.processing.hop_ratio = of(2.0);
    c.masking.depth = of(2.0);
    assert_eq!(c.validate(), Err(ConfigError::FftSize(3)));
    c.processing.fft_size = 4;
    assert_eq!(c.validate(), Err(ConfigError::HopRatio(of(2.0))));
    c.processing.hop_ratio = of(1.0);
    assert_eq!(c.validate(), Err(ConfigError::Depth(of(2.0))));
    c.masking.depth = of(1.0);
    assert_eq!(c.validate(), Ok(()));
}

#[test]
fn hops_are_shares_of_frames() {
    let mut c = Config::default();
    c.processing.hop_ratio = of(0.25);
    assert_eq!(c.hop_size(), 512);
    c.processing.hop_ratio = of(1.0);
    assert_eq!(c.hop_size(), 2048);
    c.processing.hop_ratio = of(0.3);
    assert_eq!(c.hop_size(), (2048_f32 * 0.3) as usize);
    c.processing.fft_size = 1;
    assert_eq!(c.hop_size(), 0);
    c.processing.hop_ratio = of(f32::NAN);
    assert!(c.validate().is_ok());
    assert_eq!(c.hop_size(), 0);
}

#[test]
fn runtime_values_replace_masking_settings() {
    let c = Config::default();
    let mut p = RuntimeParams::new(&c, pow10);
    assert_eq!(to(p.load_compression_mix()), 1.0);
    assert_eq!(to(p.load_voice_gain()), 1.0);
    assert_eq!(to(p.load_masking_depth()), 0.6);
    assert_eq!(to(p.load_wideband()), 1.0);
    for (depth, db) in [(0.0, -0.0), (0.5, -12.0), (0.9, -24.0 * 0.9), (1.0, -24.0)] {
        p.store_masking_depth(of(depth));
        let m = p.masking(&c.masking);
        assert_eq!(to(m.depth), depth);
        assert_eq!(to(m.max_reduction_db), db);
        assert_eq!(to(m.sensitivity), 1.5);
    }
    p.store_wideband(of(0.25));
    p.store_compression_mix(of(0.5));
    p.store_voice_gain(of(2.0));
    assert_eq!(to(p.masking(&c.masking).focus_strength), 0.25);
    assert_eq!(to(p.load_compression_mix()), 0.5);
    assert_eq!(to(p.load_voice_gain()), 2.0);
    assert_eq!(to(p.load_wideband()), 0.25);
}

#[test]
fn sliders_stand_where_settings_put_them() {
    let mut c = Config::default();
    c.output.voice_gain_db = of(6.0);
    let s = Sliders::new(&c);
    assert_eq!(to(s.compression_pct), 100.0);
    assert_eq!(to(s.voice_gain_db), 6.0);
    assert_eq!(to(s.masking_pct), 0.6 * 100.0);
    assert_eq!(to(s.wideband_pct), 100.0);
    let p = s.params(pow10);
    assert_eq!(to(p.compression_mix), 1.0);
    assert_eq!(to(p.voice_gain), 10.0_f32.powf(6.0 / 20.0));
    assert_eq!(to(p.masking_depth), 0.6_f32 * 100.0 / 100.0);
}
