use geometry::dimension::Dimension;

fn dim(x: f64) -> Dimension {
    Dimension { bits: x.to_bits() }
}

fn num(d: Dimension) -> f64 {
    f64::from_bits(d.bits)
}

/// Whether the two are the same number: the same encoding, or both not a number.
fn same(got: Dimension, expected: f64) -> bool {
    got.bits == expected.to_bits() || (num(got).is_nan() && expected.is_nan())
}

fn notable() -> Vec<f64> {
    vec![
        0.0,
        -0.0,
        f64::from_bits(1),
        f64::from_bits(2),
        f64::from_bits(3),
        -f64::from_bits(1),
        1e-320,
        1e-310,
        f64::from_bits(0x000F_FFFF_FFFF_FFFF),
        f64::MIN_POSITIVE,
        f64::from_bits(0x0010_0000_0000_0001),
        1e-200,
        1.4916681462400413e-154,
        1e-154,
        0.1,
        0.3,
        0.5,
        1.0 - f64::EPSILON / 2.0,
        1.0,
        1.0 + f64::EPSILON,
        1.5,
        1.618033988749,
        2.0,
        3.0,
        3.14159265359,
        4.0,
        5.0,
        6.0,
        7.0,
        8.0,
        9.0,
        10.0,
        12.0,
        16.0,
        208.0,
        1000.0,
        -1000.0,
        -7.5,
        67108864.0,
        67108865.0,
        134217729.0,
        9007199254740991.0,
        9007199254740992.0,
        9007199254740993.0,
        1e100,
        1.3407807929942596e154,
        1.3407807929942597e154,
        1e200,
        1e308,
        f64::MAX / 2.0,
        f64::MAX,
        f64::MIN,
        f64::INFINITY,
        f64::NEG_INFINITY,
        f64::NAN,
    ]
}

struct Scatter {
    state: u64,
}

impl Scatter {
    fn next(&mut self) -> u64 {
        self.state = self.state.wrapping_mul(6364136223846793005).wrapping_add(1442695040888963407);
        let mixed: u64 = self.state ^ (self.state >> 33);
        mixed.wrapping_mul(0xFF51_AFD7_ED55_8CCD) ^ (self.state >> 29)
    }

    /// An encoding with any exponent.
    fn any(&mut self) -> f64 {
        f64::from_bits(self.next())
    }

    /// A number whose exponent lies within `spread` of that of 1.
    fn near_one(&mut self, spread: u64) -> f64 {
        let raw: u64 = self.next();
        let exponent: u64 = 1023 - spread + (self.next() % (2 * spread + 1));
        f64::from_bits((raw & 0x800F_FFFF_FFFF_FFFF) | (exponent << 52))
    }

    /// A number with few significant bits, so that results are often exact or ties.
    fn short(&mut self) -> f64 {
        let raw: u64 = self.next();
        let keep: u64 = self.next() % 53;
        let mask: u64 = !((1u64 << keep) - 1);
        let exponent: u64 = 1023 - 40 + (self.next() % 81);
        f64::from_bits((raw & 0x800F_FFFF_FFFF_FFFF & mask) | (exponent << 52))
    }
}

#[test]
fn times_agrees_with_the_hardware_on_notable_numbers() {
    for a in notable() {
        for b in notable() {
            assert!(same(dim(a).times(&dim(b)), a * b), "{:?} * {:?}", a, b);
        }
    }
}

#[test]
fn times_agrees_with_the_hardware_on_scattered_encodings() {
    let mut scatter = Scatter { state: 1 };
    let mut round: u32 = 0;
    while round < 200_000 {
        let a = scatter.any();
        let b = scatter.any();
        assert!(same(dim(a).times(&dim(b)), a * b), "{:?} * {:?}", a, b);
        let c = scatter.near_one(30);
        let d = scatter.near_one(30);
        assert!(same(dim(c).times(&dim(d)), c * d), "{:?} * {:?}", c, d);
        let e = scatter.short();
        let f = scatter.short();
        assert!(same(dim(e).times(&dim(f)), e * f), "{:?} * {:?}", e, f);
        round += 1;
    }
}

#[test]
fn times_agrees_with_the_hardware_where_products_underflow_or_overflow() {
    let mut scatter = Scatter { state: 2 };
    let mut round: u32 = 0;
    while round < 200_000 {
        let a = scatter.near_one(600);
        let b = scatter.near_one(600);
        assert!(same(dim(a).times(&dim(b)), a * b), "{:?} * {:?}", a, b);
        // Products around the smallest numbers, where the spacing no longer shrinks.
        let tiny = f64::from_bits(scatter.next() % 0x0040_0000_0000_0000);
        let c = scatter.near_one(60);
        assert!(same(dim(tiny).times(&dim(c)), tiny * c), "{:?} * {:?}", tiny, c);
        // Products around the largest numbers.
        let huge = f64::from_bits(0x7FE0_0000_0000_0000 | (scatter.next() >> 12));
        let e = scatter.near_one(2);
        assert!(same(dim(huge).times(&dim(e)), huge * e), "{:?} * {:?}", huge, e);
        round += 1;
    }
}

#[test]
fn a_product_that_is_a_tie_goes_to_the_even_encoding() {
    // (2^27 + 1)^2 = 2^54 + 2^28 + 1 lies just above a midpoint.
    let a = 134217729.0f64;
    assert_eq!(dim(a).times(&dim(a)).bits, (a * a).to_bits());
    // 3 * 2^-1074 * 0.5 is the midpoint between 1 and 2 units: it goes to 2.
    let three = f64::from_bits(3);
    assert_eq!(dim(three).times(&dim(0.5)).bits, 2);
    // 1 unit * 0.5 is the midpoint between 0 and 1 unit: it goes to 0.
    assert_eq!(dim(f64::from_bits(1)).times(&dim(0.5)).bits, 0);
    assert_eq!(dim(f64::from_bits(1)).times(&dim(-0.5)).bits, 0x8000_0000_0000_0000);
    // 5 units * 0.5 = 2.5 units goes to 2.
    assert_eq!(dim(f64::from_bits(5)).times(&dim(0.5)).bits, 2);
}

#[test]
fn a_product_has_the_sign_of_its_factors() {
    assert_eq!(dim(2.0).times(&dim(3.0)).bits, 6.0f64.to_bits());
    assert_eq!(dim(-2.0).times(&dim(3.0)).bits, (-6.0f64).to_bits());
    assert_eq!(dim(2.0).times(&dim(-3.0)).bits, (-6.0f64).to_bits());
    assert_eq!(dim(-2.0).times(&dim(-3.0)).bits, 6.0f64.to_bits());
    assert_eq!(dim(-0.0).times(&dim(3.0)).bits, (-0.0f64).to_bits());
    assert_eq!(dim(-0.0).times(&dim(-3.0)).bits, 0);
    assert_eq!(dim(f64::NEG_INFINITY).times(&dim(-3.0)).bits, f64::INFINITY.to_bits());
}

#[test]
fn a_product_with_no_value_is_not_a_number() {
    assert!(num(dim(f64::INFINITY).times(&dim(0.0))).is_nan());
    assert!(num(dim(-0.0).times(&dim(f64::NEG_INFINITY))).is_nan());
    assert!(num(dim(f64::NAN).times(&dim(1.0))).is_nan());
    assert!(num(dim(1.0).times(&dim(f64::NAN))).is_nan());
    assert_eq!(dim(f64::NAN).times(&dim(1.0)).bits, 0x7FF8_0000_0000_0000);
}

#[test]
fn a_product_too_large_is_infinite() {
    assert_eq!(dim(f64::MAX).times(&dim(2.0)).bits, f64::INFINITY.to_bits());
    assert_eq!(dim(f64::MAX).times(&dim(-2.0)).bits, f64::NEG_INFINITY.to_bits());
    assert_eq!(dim(1e200).times(&dim(1e200)).bits, f64::INFINITY.to_bits());
    assert_eq!(dim(f64::MAX).times(&dim(1.0)).bits, f64::MAX.to_bits());
    // Half a spacing above the largest number is the first that is infinite.
    let just_below = 1.0 + f64::EPSILON / 2.0;
    assert_eq!(dim(f64::MAX).times(&dim(just_below)).bits, (f64::MAX * just_below).to_bits());
}

#[test]
fn divided_by_agrees_with_the_hardware_on_notable_numbers() {
    for a in notable() {
        for b in notable() {
            assert!(same(dim(a).divided_by(&dim(b)), a / b), "{:?} / {:?}", a, b);
        }
    }
}

#[test]
fn divided_by_agrees_with_the_hardware_on_scattered_encodings() {
    let mut scatter = Scatter { state: 3 };
    let mut round: u32 = 0;
    while round < 150_000 {
        let a = scatter.any();
        let b = scatter.any();
        assert!(same(dim(a).divided_by(&dim(b)), a / b), "{:?} / {:?}", a, b);
        let c = scatter.near_one(30);
        let d = scatter.near_one(30);
        assert!(same(dim(c).divided_by(&dim(d)), c / d), "{:?} / {:?}", c, d);
        let e = scatter.short();
        let f = scatter.short();
        assert!(same(dim(e).divided_by(&dim(f)), e / f), "{:?} / {:?}", e, f);
        let g = scatter.near_one(600);
        let h = scatter.near_one(600);
        assert!(same(dim(g).divided_by(&dim(h)), g / h), "{:?} / {:?}", g, h);
        let tiny = f64::from_bits(scatter.next() % 0x0040_0000_0000_0000);
        assert!(same(dim(tiny).divided_by(&dim(c)), tiny / c), "{:?} / {:?}", tiny, c);
        assert!(same(dim(c).divided_by(&dim(tiny)), c / tiny), "{:?} / {:?}", c, tiny);
        round += 1;
    }
}

#[test]
fn a_quotient_by_zero_is_infinite_or_not_a_number() {
    assert_eq!(dim(1.0).divided_by(&dim(0.0)).bits, f64::INFINITY.to_bits());
    assert_eq!(dim(-1.0).divided_by(&dim(0.0)).bits, f64::NEG_INFINITY.to_bits());
    assert_eq!(dim(1.0).divided_by(&dim(-0.0)).bits, f64::NEG_INFINITY.to_bits());
    assert!(num(dim(0.0).divided_by(&dim(0.0))).is_nan());
    assert!(num(dim(f64::INFINITY).divided_by(&dim(f64::NEG_INFINITY))).is_nan());
    assert_eq!(dim(4.0).divided_by(&dim(f64::INFINITY)).bits, 0);
    assert_eq!(dim(-4.0).divided_by(&dim(f64::INFINITY)).bits, (-0.0f64).to_bits());
}

#[test]
fn a_quotient_has_its_exact_value_where_that_is_a_number() {
    assert_eq!(dim(60.0).divided_by(&dim(6.0)).bits, 10.0f64.to_bits());
    assert_eq!(dim(1.0).divided_by(&dim(4.0)).bits, 0.25f64.to_bits());
    assert_eq!(dim(16.0).divided_by(&dim(9.0)).bits, 0x3FFC_71C7_1C71_C71C);
    assert_eq!(dim(4.0).divided_by(&dim(3.0)).bits, 0x3FF5_5555_5555_5555);
    assert_eq!(dim(1.0).divided_by(&dim(3.0)).bits, 0x3FD5_5555_5555_5555);
    assert_eq!(dim(2.0).divided_by(&dim(3.0)).bits, 0x3FE5_5555_5555_5555);
}

#[test]
fn plus_agrees_with_the_hardware_on_notable_numbers() {
    for a in notable() {
        for b in notable() {
            assert!(same(dim(a).plus(&dim(b)), a + b), "{:?} + {:?}", a, b);
            assert!(same(dim(a).plus(&dim(-b)), a + -b), "{:?} - {:?}", a, b);
            assert!(same(dim(-a).plus(&dim(-b)), -a + -b), "-{:?} - {:?}", a, b);
        }
    }
}

#[test]
fn plus_agrees_with_the_hardware_on_scattered_encodings() {
    let mut scatter = Scatter { state: 4 };
    let mut round: u32 = 0;
    while round < 150_000 {
        let a = scatter.any();
        let b = scatter.any();
        assert!(same(dim(a).plus(&dim(b)), a + b), "{:?} + {:?}", a, b);
        let c = scatter.near_one(30);
        let d = scatter.near_one(30);
        assert!(same(dim(c).plus(&dim(d)), c + d), "{:?} + {:?}", c, d);
        let e = scatter.short();
        let f = scatter.short();
        assert!(same(dim(e).plus(&dim(f)), e + f), "{:?} + {:?}", e, f);
        // Exponents up to 70 apart, around where the smaller number stops to count.
        let g = scatter.near_one(35);
        let h = scatter.near_one(35);
        assert!(same(dim(g).plus(&dim(h)), g + h), "{:?} + {:?}", g, h);
        // Numbers that nearly cancel.
        let i = f64::from_bits(c.to_bits() ^ 0x8000_0000_0000_0000 ^ (scatter.next() % 8));
        assert!(same(dim(c).plus(&dim(i)), c + i), "{:?} + {:?}", c, i);
        // The smallest numbers, and the largest.
        let tiny = f64::from_bits(scatter.next() % 0x0040_0000_0000_0000);
        let small = f64::from_bits((scatter.next() % 0x0040_0000_0000_0000) | (scatter.next() & 0x8000_0000_0000_0000));
        assert!(same(dim(tiny).plus(&dim(small)), tiny + small), "{:?} + {:?}", tiny, small);
        let huge = f64::from_bits(0x7FD0_0000_0000_0000 | (scatter.next() >> 11));
        let large = f64::from_bits(0x7FD0_0000_0000_0000 | (scatter.next() >> 11) | (scatter.next() & 0x8000_0000_0000_0000));
        assert!(same(dim(huge).plus(&dim(large)), huge + large), "{:?} + {:?}", huge, large);
        round += 1;
    }
}

#[test]
fn a_sum_of_zero_is_negative_only_if_both_numbers_are() {
    assert_eq!(dim(0.0).plus(&dim(0.0)).bits, 0);
    assert_eq!(dim(0.0).plus(&dim(-0.0)).bits, 0);
    assert_eq!(dim(-0.0).plus(&dim(0.0)).bits, 0);
    assert_eq!(dim(-0.0).plus(&dim(-0.0)).bits, 0x8000_0000_0000_0000);
    assert_eq!(dim(5.0).plus(&dim(-5.0)).bits, 0);
    assert_eq!(dim(-5.0).plus(&dim(5.0)).bits, 0);
}

#[test]
fn a_sum_of_the_two_infinities_is_not_a_number() {
    assert!(num(dim(f64::INFINITY).plus(&dim(f64::NEG_INFINITY))).is_nan());
    assert!(num(dim(f64::NEG_INFINITY).plus(&dim(f64::INFINITY))).is_nan());
    assert_eq!(dim(f64::INFINITY).plus(&dim(f64::INFINITY)).bits, f64::INFINITY.to_bits());
    assert_eq!(dim(f64::NEG_INFINITY).plus(&dim(1e308)).bits, f64::NEG_INFINITY.to_bits());
    assert_eq!(dim(f64::MAX).plus(&dim(f64::MAX)).bits, f64::INFINITY.to_bits());
}

#[test]
fn a_sum_that_is_a_tie_goes_to_the_even_encoding() {
    // 2^53 + 1 lies midway between 2^53 and 2^53 + 2.
    assert_eq!(dim(9007199254740992.0).plus(&dim(1.0)).bits, 9007199254740992.0f64.to_bits());
    // 2^53 + 3 lies midway between 2^53 + 2 and 2^53 + 4.
    assert_eq!(dim(9007199254740994.0).plus(&dim(1.0)).bits, 9007199254740996.0f64.to_bits());
    assert_eq!(dim(10.0).plus(&dim(6.0)).bits, 16.0f64.to_bits());
    assert_eq!(dim(0.1).plus(&dim(0.2)).bits, 0x3FD3_3333_3333_3334);
}

#[test]
fn square_root_agrees_with_the_hardware_on_notable_numbers() {
    for a in notable() {
        assert!(same(dim(a).square_root(), a.sqrt()), "sqrt {:?}", a);
        assert!(same(dim(-a).square_root(), (-a).sqrt()), "sqrt -{:?}", a);
    }
}

#[test]
fn square_root_agrees_with_the_hardware_on_scattered_encodings() {
    let mut scatter = Scatter { state: 5 };
    let mut round: u32 = 0;
    while round < 100_000 {
        let a = scatter.any();
        assert!(same(dim(a).square_root(), a.sqrt()), "sqrt {:?}", a);
        let b = scatter.near_one(30).abs();
        assert!(same(dim(b).square_root(), b.sqrt()), "sqrt {:?}", b);
        let c = scatter.short().abs();
        assert!(same(dim(c).square_root(), c.sqrt()), "sqrt {:?}", c);
        // Squares, whose roots are exact.
        let e = f64::from_bits(scatter.near_one(400).abs().to_bits() & 0xFFFF_FFFF_F800_0000);
        assert_eq!(dim(e * e).square_root().bits, e.to_bits(), "sqrt {:?}", e * e);
        let tiny = f64::from_bits(scatter.next() % 0x0040_0000_0000_0000);
        assert!(same(dim(tiny).square_root(), tiny.sqrt()), "sqrt {:?}", tiny);
        round += 1;
    }
}

#[test]
fn a_square_root_has_its_exact_value_where_that_is_a_number() {
    assert_eq!(dim(49.0).square_root().bits, 7.0f64.to_bits());
    assert_eq!(dim(0.25).square_root().bits, 0.5f64.to_bits());
    assert_eq!(dim(208.0).square_root().bits, 208.0f64.sqrt().to_bits());
    assert_eq!(dim(2.0).square_root().bits, 0x3FF6_A09E_667F_3BCD);
    assert_eq!(dim(0.0).square_root().bits, 0);
    assert_eq!(dim(-0.0).square_root().bits, 0x8000_0000_0000_0000);
    assert_eq!(dim(f64::INFINITY).square_root().bits, f64::INFINITY.to_bits());
    assert!(num(dim(-1.0).square_root()).is_nan());
    assert!(num(dim(f64::NEG_INFINITY).square_root()).is_nan());
    assert_eq!(dim(f64::from_bits(1)).square_root().bits, f64::from_bits(1).sqrt().to_bits());
}
