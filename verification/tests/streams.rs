use spectralblend::binary32::Binary32;
use spectralblend::devices::{
    describe, find_device, first_naming, no_device_matching, not_supported, supports, StreamRange,
};
use spectralblend::ring::{has_ready, pop_or_silence, push_fitting, read_hop, second_of_stereo};
use spectralblend::stream::{
    deinterleave, interleave, resize, sample_from_int, shift_and_append, shift_out, silence,
    to_stereo,
};

fn of(x: f32) -> Binary32 {
    Binary32 { bits: x.to_bits() }
}

fn to(x: Binary32) -> f32 {
    f32::from_bits(x.bits)
}

fn all(values: &[f32]) -> Vec<Binary32> {
    values.iter().map(|&x| of(x)).collect()
}

fn floats(values: &[Binary32]) -> Vec<f32> {
    values.iter().map(|&x| to(x)).collect()
}

#[test]
fn windows_slide() {
    let mut w = all(&[1.0, 2.0, 3.0, 4.0]);
    shift_and_append(&mut w, &all(&[5.0]));
    assert_eq!(floats(&w), vec![2.0, 3.0, 4.0, 5.0]);
    shift_and_append(&mut w, &all(&[6.0, 7.0, 8.0, 9.0]));
    assert_eq!(floats(&w), vec![6.0, 7.0, 8.0, 9.0]);
    shift_and_append(&mut w, &[]);
    assert_eq!(floats(&w), vec![6.0, 7.0, 8.0, 9.0]);
    shift_out(&mut w, 3);
    assert_eq!(floats(&w), vec![9.0, 0.0, 0.0, 0.0]);
    shift_out(&mut w, 4);
    assert_eq!(w, silence(4));
}

#[test]
fn channels_come_apart_as_they_went_together() {
    let left = all(&[1.0, 2.0, 3.0]);
    let right = all(&[-1.0, -2.0, -3.0]);
    let both = interleave(&left, &right);
    assert_eq!(floats(&both), vec![1.0, -1.0, 2.0, -2.0, 3.0, -3.0]);
    let items: Vec<u32> = both.iter().map(|s| s.bits).collect();
    assert_eq!(deinterleave(&items), (left, right));
}

#[test]
fn recordings_become_stereo() {
    let mono = all(&[1.0, 2.0, 3.0]);
    assert_eq!(to_stereo(&mono, 1), (mono.clone(), mono.clone()));
    let (l, r) = to_stereo(&all(&[1.0, 2.0, 3.0, 4.0]), 2);
    assert_eq!((floats(&l), floats(&r)), (vec![1.0, 3.0], vec![2.0, 4.0]));
    // Of more channels the first two are taken, also of a frame that is cut short.
    let (l, r) = to_stereo(&all(&[1.0, 2.0, 3.0, 4.0, 5.0, 6.0, 7.0, 8.0]), 3);
    assert_eq!((floats(&l), floats(&r)), (vec![1.0, 4.0, 7.0], vec![2.0, 5.0, 8.0]));
    assert_eq!(to_stereo(&[], 5), (vec![], vec![]));
}

#[test]
fn recordings_are_brought_to_a_length() {
    let mut v = all(&[1.0, 2.0]);
    resize(&mut v, 4);
    assert_eq!(floats(&v), vec![1.0, 2.0, 0.0, 0.0]);
    resize(&mut v, 1);
    assert_eq!(floats(&v), vec![1.0]);
}

#[test]
fn whole_numbers_become_samples() {
    for (sample, bits) in [(0, 16), (1, 16), (-32768, 16), (32767, 16), (i32::MIN, 32), (-1, 24), (0x7f_ffff, 24), (1, 1)] {
        let expected = sample as f32 / (1u32 << (bits - 1)) as f32;
        assert_eq!(to(sample_from_int(sample, bits)), expected);
        assert!(expected.abs() <= 1.0);
    }
}

#[test]
fn rings_hand_on_what_fits() {
    let (mut p, mut c) = second_of_stereo(3);
    assert!(!has_ready(&mut c, 1));
    assert!(has_ready(&mut c, 0));
    assert_eq!(push_fitting(&mut p, &all(&[1.0, 2.0, 3.0, 4.0])), 4);
    assert_eq!(push_fitting(&mut p, &all(&[5.0, 6.0, 7.0, 8.0])), 2);
    assert_eq!(push_fitting(&mut p, &all(&[9.0])), 0);
    assert!(has_ready(&mut c, 6));
    assert!(!has_ready(&mut c, 7));
    let mut hop: Vec<u32> = vec![7, 7];
    read_hop(&mut c, &mut hop);
    assert_eq!(hop, vec![1.0_f32.to_bits(), 2.0_f32.to_bits()]);
    let (out, taken) = pop_or_silence(&mut c, 6);
    assert_eq!(taken, 4);
    assert_eq!(floats(&out), vec![3.0, 4.0, 5.0, 6.0, 0.0, 0.0]);
    // With too few samples the last hop stays.
    push_fitting(&mut p, &all(&[9.0]));
    read_hop(&mut c, &mut hop);
    assert_eq!(hop, vec![1.0_f32.to_bits(), 2.0_f32.to_bits()]);
    let (out, taken) = pop_or_silence(&mut c, 1);
    assert_eq!((floats(&out), taken), (vec![9.0], 1));
    let (out, taken) = pop_or_silence(&mut c, 2);
    assert_eq!((floats(&out), taken), (vec![0.0, 0.0], 0));
}

fn names(list: &[&str]) -> Vec<Option<String>> {
    list.iter().map(|s| if s.is_empty() { None } else { Some(s.to_string()) }).collect()
}

#[test]
fn devices_are_found_by_part_of_their_name() {
    let list = names(&["", "Monitor of Built-in Audio", "USB Audio CODEC", "usb mixer"]);
    assert_eq!(find_device(&list, "usb"), Some(2));
    assert_eq!(find_device(&list, "MIXER"), Some(3));
    assert_eq!(find_device(&list, "audio"), Some(1));
    assert_eq!(find_device(&list, ""), Some(1));
    assert_eq!(find_device(&list, "hdmi"), None);
    assert_eq!(find_device(&names(&["ÄÖÜ Klang"]), "äöü"), Some(0));
    assert_eq!(first_naming(&list, "usb"), Some(3));
    assert_eq!(first_naming(&list, "USB"), Some(2));
    assert_eq!(no_device_matching(true, "x"), "No input device matching \"x\"");
    assert_eq!(no_device_matching(false, "y"), "No output device matching \"y\"");
}

#[test]
fn devices_need_stereo_at_the_rate() {
    let range = |channels, min_rate, max_rate, is_float| StreamRange {
        channels,
        min_rate,
        max_rate,
        is_float,
    };
    let ranges = vec![
        range(1, 8000, 96000, true),
        range(2, 8000, 96000, false),
        range(2, 44100, 44100, true),
        range(8, 48000, 96000, true),
    ];
    assert!(supports(&ranges, 44100));
    assert!(supports(&ranges, 48000));
    assert!(supports(&ranges, 96000));
    assert!(!supports(&ranges, 8000));
    assert!(!supports(&ranges, 96001));
    assert!(!supports(&vec![], 48000));
    assert_eq!(describe(&ranges[2], "F32"), "ch=2 rate=44100–44100 fmt=F32");
    assert_eq!(
        not_supported(48000),
        "Device does not support stereo f32 at 48000 Hz. Supported configs: "
    );
}
