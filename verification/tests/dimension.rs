use geometry::dimension::Dimension;

fn dim(x: f64) -> Dimension {
    Dimension { bits: x.to_bits() }
}

fn samples() -> Vec<f64> {
    vec![
        0.0,
        -0.0,
        f64::from_bits(1),
        -f64::from_bits(1),
        1e-310,
        -1e-310,
        f64::MIN_POSITIVE,
        -f64::MIN_POSITIVE,
        f64::from_bits(f64::MIN_POSITIVE.to_bits() - 1),
        0.5,
        1.0,
        -1.0,
        1.0 + f64::EPSILON,
        1.618033988749,
        3.14159265359,
        5.0,
        -5.0,
        f64::from_bits(1000.0f64.to_bits() - 1),
        1000.0,
        f64::from_bits(1000.0f64.to_bits() + 1),
        -1000.0,
        2000.0,
        1e308,
        f64::MAX,
        f64::MIN,
        f64::INFINITY,
        f64::NEG_INFINITY,
        f64::NAN,
        -f64::NAN,
        f64::from_bits(0x7FF0_0000_0000_0001),
        f64::from_bits(0xFFFF_FFFF_FFFF_FFFF),
    ]
}

#[test]
fn le_agrees_with_the_hardware_on_sample_pairs() {
    for a in samples() {
        for b in samples() {
            assert_eq!(dim(a).le(&dim(b)), a <= b, "{:?} <= {:?}", a, b);
        }
    }
}

#[test]
fn gt_agrees_with_the_hardware_on_sample_pairs() {
    for a in samples() {
        for b in samples() {
            assert_eq!(dim(a).gt(&dim(b)), a > b, "{:?} > {:?}", a, b);
        }
    }
}

#[test]
fn le_and_gt_agree_with_the_hardware_on_scattered_encodings() {
    let mut state: u64 = 0x9E37_79B9_7F4A_7C15;
    let mut previous: u64 = 0;
    let mut round: u32 = 0;
    while round < 200_000 {
        state = state.wrapping_mul(6364136223846793005).wrapping_add(1442695040888963407);
        let current: u64 = state ^ (state >> 29);
        let a = f64::from_bits(previous);
        let b = f64::from_bits(current);
        assert_eq!(Dimension { bits: previous }.le(&Dimension { bits: current }), a <= b);
        assert_eq!(Dimension { bits: previous }.gt(&Dimension { bits: current }), a > b);
        assert_eq!(Dimension { bits: current }.le(&Dimension { bits: current }), b <= b);
        previous = current;
        round += 1;
    }
}

#[test]
fn le_and_gt_agree_with_the_hardware_on_neighbouring_encodings() {
    let centres: Vec<u64> = vec![
        0,
        0x0010_0000_0000_0000,
        0x3FF0_0000_0000_0000,
        0x408F_4000_0000_0000,
        0x7FEF_FFFF_FFFF_FFFF,
        0x7FF0_0000_0000_0000,
        0x8000_0000_0000_0000,
        0x8010_0000_0000_0000,
        0xFFF0_0000_0000_0000,
    ];
    for centre in centres {
        let mut offset: u64 = 0;
        while offset < 5 {
            let low: u64 = centre.wrapping_sub(2).wrapping_add(offset);
            let mut step: u64 = 0;
            while step < 5 {
                let high: u64 = centre.wrapping_sub(2).wrapping_add(step);
                let a = f64::from_bits(low);
                let b = f64::from_bits(high);
                assert_eq!(Dimension { bits: low }.le(&Dimension { bits: high }), a <= b);
                assert_eq!(Dimension { bits: low }.gt(&Dimension { bits: high }), a > b);
                step += 1;
            }
            offset += 1;
        }
    }
}

#[test]
fn the_two_zeros_are_equal() {
    assert!(dim(-0.0).le(&dim(0.0)));
    assert!(dim(0.0).le(&dim(-0.0)));
    assert!(!dim(0.0).gt(&dim(-0.0)));
    assert!(!dim(-0.0).gt(&dim(0.0)));
}

#[test]
fn nan_is_neither_below_nor_above_anything() {
    for x in samples() {
        assert!(!dim(f64::NAN).le(&dim(x)));
        assert!(!dim(x).le(&dim(f64::NAN)));
        assert!(!dim(f64::NAN).gt(&dim(x)));
        assert!(!dim(x).gt(&dim(f64::NAN)));
    }
}

#[test]
fn infinities_bound_every_number() {
    for x in samples() {
        if !x.is_nan() {
            assert!(dim(f64::NEG_INFINITY).le(&dim(x)));
            assert!(dim(x).le(&dim(f64::INFINITY)));
            assert!(!dim(x).gt(&dim(f64::INFINITY)));
            assert!(!dim(f64::NEG_INFINITY).gt(&dim(x)));
        }
    }
}

#[test]
fn a_larger_encoding_of_the_same_sign_is_a_larger_magnitude() {
    let ascending: Vec<u64> = vec![
        0,
        1,
        0x000F_FFFF_FFFF_FFFF,
        0x0010_0000_0000_0000,
        0x3FF0_0000_0000_0000,
        0x4014_0000_0000_0000,
        0x408F_4000_0000_0000,
        0x7FEF_FFFF_FFFF_FFFF,
        0x7FF0_0000_0000_0000,
    ];
    let mut i: usize = 0;
    while i + 1 < ascending.len() {
        let low = Dimension { bits: ascending[i] };
        let high = Dimension { bits: ascending[i + 1] };
        assert!(high.gt(&low));
        assert!(!high.le(&low));
        assert!(low.le(&high));
        let negative_low = Dimension { bits: ascending[i] | 0x8000_0000_0000_0000 };
        let negative_high = Dimension { bits: ascending[i + 1] | 0x8000_0000_0000_0000 };
        assert!(negative_low.gt(&negative_high));
        assert!(negative_high.le(&negative_low));
        assert!(negative_high.le(&low));
        i += 1;
    }
}

#[test]
fn a_dimension_is_copied_with_its_encoding() {
    let a = dim(7.0);
    let b = a;
    assert_eq!(a.bits, 7.0f64.to_bits());
    assert_eq!(b.bits, a.bits);
    assert_eq!(a.clone().bits, a.bits);
}

#[test]
fn is_nan_agrees_with_the_hardware() {
    for x in samples() {
        assert_eq!(dim(x).is_nan(), x.is_nan(), "{:?}", x);
    }
    assert!(Dimension { bits: 0x7FF0_0000_0000_0001 }.is_nan());
    assert!(Dimension { bits: 0xFFF0_0000_0000_0001 }.is_nan());
    assert!(!Dimension { bits: 0x7FF0_0000_0000_0000 }.is_nan());
    assert!(!Dimension { bits: 0xFFF0_0000_0000_0000 }.is_nan());
}

#[test]
fn without_sign_is_the_encoding_of_the_absolute_value() {
    for x in samples() {
        assert_eq!(dim(x).without_sign(), x.to_bits() & 0x7FFF_FFFF_FFFF_FFFF, "{:?}", x);
        if !x.is_nan() {
            assert_eq!(dim(x).without_sign(), x.abs().to_bits(), "{:?}", x);
        }
    }
}
