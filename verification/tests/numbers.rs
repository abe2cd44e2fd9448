use spectralblend::binary32::Binary32;
use spectralblend::blend::blend;

fn of(x: f32) -> Binary32 {
    Binary32 { bits: x.to_bits() }
}

fn to(x: Binary32) -> f32 {
    f32::from_bits(x.bits)
}

fn same(found: Binary32, expected: f32) -> bool {
    if expected.is_nan() {
        found.is_nan()
    } else {
        found.bits == expected.to_bits()
    }
}

/// Bit patterns of all kinds: zeros, subnormals, powers of two, ties, infinities, and a long
/// row of arbitrary ones.
fn patterns() -> Vec<u32> {
    let mut v: Vec<u32> = vec![
        0x0000_0000, 0x0000_0001, 0x0000_0002, 0x0000_0003, 0x007f_ffff, 0x0080_0000, 0x0080_0001,
        0x00ff_ffff, 0x0100_0000, 0x1980_0000, 0x1a00_0001, 0x2000_0000, 0x3300_0000, 0x337f_ffff,
        0x3380_0000, 0x3f00_0000, 0x3f7f_ffff, 0x3f80_0000, 0x3f80_0001, 0x3fff_ffff, 0x4000_0000,
        0x4b00_0000, 0x4b7f_ffff, 0x4b80_0000, 0x4b80_0001, 0x5f00_0000, 0x5f80_0000, 0x7e80_0000,
        0x7f00_0000, 0x7f7f_fffe, 0x7f7f_ffff, 0x7f80_0000, 0x7f80_0001, 0x7fc0_0000,
    ];
    let signed: Vec<u32> = v.iter().map(|b| b | 0x8000_0000).collect();
    v.extend(signed);
    let mut x: u32 = 12345;
    let mut i = 0;
    while i < 160 {
        x = x.wrapping_mul(1664525).wrapping_add(1013904223);
        v.push(x ^ (x >> 13));
        i += 1;
    }
    v
}

#[test]
fn sums_are_those_of_the_machine() {
    for &a in &patterns() {
        for &b in &patterns() {
            let (x, y) = (f32::from_bits(a), f32::from_bits(b));
            assert!(same(of(x).plus(of(y)), x + y), "{x:e} + {y:e}");
            assert!(same(of(x).minus(of(y)), x - y), "{x:e} - {y:e}");
        }
    }
}

#[test]
fn products_are_those_of_the_machine() {
    for &a in &patterns() {
        for &b in &patterns() {
            let (x, y) = (f32::from_bits(a), f32::from_bits(b));
            assert!(same(of(x).times(of(y)), x * y), "{x:e} * {y:e}");
        }
    }
}

#[test]
fn quotients_are_those_of_the_machine() {
    for &a in &patterns() {
        for &b in &patterns() {
            let (x, y) = (f32::from_bits(a), f32::from_bits(b));
            assert!(same(of(x).over(of(y)), x / y), "{x:e} / {y:e}");
        }
    }
}

#[test]
fn roots_are_those_of_the_machine() {
    for &a in &patterns() {
        let x = f32::from_bits(a);
        assert!(same(of(x).sqrt(), x.sqrt()), "sqrt {x:e}");
    }
    assert_eq!(to(of(2.0).sqrt()), 2.0f32.sqrt());
    assert_eq!(to(of(9.0).sqrt()), 3.0);
}

#[test]
fn order_is_that_of_the_machine() {
    for &a in &patterns() {
        for &b in &patterns() {
            let (x, y) = (f32::from_bits(a), f32::from_bits(b));
            assert_eq!(of(x).lt(of(y)), x < y);
            assert_eq!(of(x).le(of(y)), x <= y);
            if x != y {
                assert!(same(of(x).max(of(y)), x.max(y)));
                assert!(same(of(x).min(of(y)), x.min(y)));
            }
        }
    }
}

#[test]
fn counts_are_converted_like_the_machine() {
    let counts: Vec<usize> = vec![
        0, 1, 2, 3, 1024, 2048, 48000, 16777215, 16777216, 16777217, 16777219, 4294967295,
        4294967296, usize::MAX, usize::MAX / 2, 0x1_0000_0100_0000, 0x1_0000_0180_0000,
    ];
    for &n in &counts {
        assert_eq!(to(Binary32::of_count(n)), n as f32);
    }
    for &a in &patterns() {
        let x = f32::from_bits(a);
        assert_eq!(of(x).to_count(), x as usize, "{x:e}");
    }
}

#[test]
fn numbers_are_held_between_bounds() {
    assert_eq!(to(of(5.0).clamp(of(-1.0), of(2.0))), 2.0);
    assert_eq!(to(of(-5.0).clamp(of(-1.0), of(2.0))), -1.0);
    assert_eq!(to(of(0.5).clamp(of(-1.0), of(2.0))), 0.5);
    assert!(of(f32::NAN).clamp(of(-1.0), of(2.0)).is_nan());
    assert_eq!(to(of(3.0).neg()), -3.0);
    assert!(of(-0.0).is_negative());
}

#[test]
fn one_times_anything_stays() {
    for &a in &patterns() {
        let x = f32::from_bits(a);
        if !x.is_nan() {
            assert_eq!(of(x).times(of(1.0)).bits, a);
        }
    }
}

#[test]
fn blends_of_one_stay_one() {
    let mut weight = 0.0f32;
    while weight <= 1.0 {
        assert_eq!(to(blend(of(weight), of(1.0), of(1.0))), 1.0);
        let low = to(blend(of(weight), of(0.25), of(0.75)));
        assert!((0.0..=1.0).contains(&low));
        assert_eq!(low, weight * 0.25 + (1.0 - weight) * 0.75);
        weight += 0.0117;
    }
}

#[test]
fn rounding_keeps_the_order() {
    for &a in &patterns() {
        for &b in &patterns() {
            let (x, y) = (f32::from_bits(a), f32::from_bits(b));
            if x.is_finite() && y.is_finite() && x <= y {
                for z in [0.1, -3.0, 1e-40, 1e30] {
                    assert!(of(x).plus(of(z)).le(of(y).plus(of(z))));
                    assert!(of(x).times(of(0.3)).le(of(y).times(of(0.3))));
                }
            }
        }
    }
}

#[test]
fn blends_move_towards_one_and_zero() {
    let mut weight = 0.0f32;
    while weight <= 1.0 {
        for x in [0.0, 1e-30, 0.3, 0.5, 0.999_999_94, 1.0] {
            assert!(to(blend(of(weight), of(x), of(1.0))) >= x);
            assert!(to(blend(of(weight), of(x), of(0.0))) <= x);
        }
        weight += 0.0117;
    }
}
