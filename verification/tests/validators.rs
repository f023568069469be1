use geometry::dimension::Dimension;
use geometry::shapes::Shape;
use geometry::validators::{calculate_efficiency_ratio, validate_shape};

fn dim(x: f64) -> Dimension {
    Dimension { bits: x.to_bits() }
}

fn circle(radius: f64) -> Shape {
    Shape::Circle { radius: dim(radius) }
}

fn rectangle(width: f64, height: f64) -> Shape {
    Shape::Rectangle { width: dim(width), height: dim(height) }
}

fn triangle(base: f64, height: f64) -> Shape {
    Shape::Triangle { base: dim(base), height: dim(height) }
}

fn square(side: f64) -> Shape {
    Shape::Square { side: dim(side) }
}

fn refused(message: &str) -> Result<(), String> {
    Err(message.to_string())
}

/// The rules written with the hardware's comparisons.
fn expected(shape: &Shape) -> Result<(), String> {
    match shape {
        Shape::Circle { radius } => {
            let radius = f64::from_bits(radius.bits);
            if radius <= 0.0 {
                return refused("Circle radius must be positive");
            }
            if radius > 1000.0 {
                return refused("Circle radius too large (max 1000)");
            }
        }
        Shape::Rectangle { width, height } => {
            let width = f64::from_bits(width.bits);
            let height = f64::from_bits(height.bits);
            if width <= 0.0 || height <= 0.0 {
                return refused("Rectangle dimensions must be positive");
            }
            if width > 1000.0 || height > 1000.0 {
                return refused("Rectangle dimensions too large (max 1000)");
            }
        }
        Shape::Triangle { base, height } => {
            let base = f64::from_bits(base.bits);
            let height = f64::from_bits(height.bits);
            if base <= 0.0 || height <= 0.0 {
                return refused("Triangle dimensions must be positive");
            }
        }
        Shape::Square { side } => {
            let side = f64::from_bits(side.bits);
            if side <= 0.0 {
                return refused("Square side must be positive");
            }
            if side > 1000.0 {
                return refused("Square side too large (max 1000)");
            }
        }
    }
    Ok(())
}

fn edge_values() -> Vec<f64> {
    vec![
        f64::NEG_INFINITY,
        f64::MIN,
        -2000.0,
        -1000.0,
        -1.0,
        -f64::MIN_POSITIVE,
        -f64::from_bits(1),
        -0.0,
        0.0,
        f64::from_bits(1),
        f64::MIN_POSITIVE,
        0.5,
        1.0,
        5.0,
        999.0,
        f64::from_bits(1000.0f64.to_bits() - 1),
        1000.0,
        f64::from_bits(1000.0f64.to_bits() + 1),
        1000.5,
        2000.0,
        f64::MAX,
        f64::INFINITY,
        f64::NAN,
        -f64::NAN,
    ]
}

#[test]
fn the_demonstration_shapes_are_accepted() {
    assert_eq!(validate_shape(&circle(5.0)), Ok(()));
    assert_eq!(validate_shape(&rectangle(10.0, 6.0)), Ok(()));
    assert_eq!(validate_shape(&triangle(8.0, 12.0)), Ok(()));
    assert_eq!(validate_shape(&square(7.0)), Ok(()));
}

#[test]
fn a_circle_with_a_radius_above_zero_and_up_to_1000_is_accepted() {
    for radius in [f64::from_bits(1), f64::MIN_POSITIVE, 1e-9, 0.5, 1.0, 5.0, 999.999, 1000.0] {
        assert_eq!(validate_shape(&circle(radius)), Ok(()), "{:?}", radius);
    }
}

#[test]
fn a_circle_with_a_radius_of_zero_or_less_must_be_positive() {
    for radius in [0.0, -0.0, -f64::from_bits(1), -1.0, -1000.0, -2000.0, f64::MIN, f64::NEG_INFINITY] {
        assert_eq!(validate_shape(&circle(radius)), refused("Circle radius must be positive"));
    }
}

#[test]
fn a_circle_with_a_radius_above_1000_is_too_large() {
    for radius in [f64::from_bits(1000.0f64.to_bits() + 1), 1000.5, 2000.0, f64::MAX, f64::INFINITY] {
        assert_eq!(validate_shape(&circle(radius)), refused("Circle radius too large (max 1000)"));
    }
}

#[test]
fn a_rectangle_with_a_side_of_zero_or_less_must_be_positive() {
    let message = "Rectangle dimensions must be positive";
    assert_eq!(validate_shape(&rectangle(0.0, 6.0)), refused(message));
    assert_eq!(validate_shape(&rectangle(10.0, 0.0)), refused(message));
    assert_eq!(validate_shape(&rectangle(-10.0, 6.0)), refused(message));
    assert_eq!(validate_shape(&rectangle(10.0, -6.0)), refused(message));
    assert_eq!(validate_shape(&rectangle(-0.0, -0.0)), refused(message));
    assert_eq!(validate_shape(&rectangle(f64::NAN, -1.0)), refused(message));
}

#[test]
fn a_rectangle_with_a_side_above_1000_is_too_large() {
    let message = "Rectangle dimensions too large (max 1000)";
    assert_eq!(validate_shape(&rectangle(1000.5, 6.0)), refused(message));
    assert_eq!(validate_shape(&rectangle(10.0, 1001.0)), refused(message));
    assert_eq!(validate_shape(&rectangle(2000.0, 2000.0)), refused(message));
    assert_eq!(validate_shape(&rectangle(f64::NAN, f64::INFINITY)), refused(message));
    assert_eq!(validate_shape(&rectangle(1000.0, 1000.0)), Ok(()));
}

#[test]
fn positivity_is_checked_before_size() {
    assert_eq!(
        validate_shape(&rectangle(-1.0, 2000.0)),
        refused("Rectangle dimensions must be positive")
    );
    assert_eq!(
        validate_shape(&rectangle(2000.0, 0.0)),
        refused("Rectangle dimensions must be positive")
    );
}

#[test]
fn a_triangle_with_a_side_of_zero_or_less_must_be_positive() {
    let message = "Triangle dimensions must be positive";
    assert_eq!(validate_shape(&triangle(0.0, 12.0)), refused(message));
    assert_eq!(validate_shape(&triangle(8.0, 0.0)), refused(message));
    assert_eq!(validate_shape(&triangle(-8.0, 12.0)), refused(message));
    assert_eq!(validate_shape(&triangle(8.0, -12.0)), refused(message));
    assert_eq!(validate_shape(&triangle(2000.0, -0.0)), refused(message));
}

#[test]
fn a_triangle_has_no_upper_bound() {
    assert_eq!(validate_shape(&triangle(2000.0, 2000.0)), Ok(()));
    assert_eq!(validate_shape(&triangle(1000.5, 1.0)), Ok(()));
    assert_eq!(validate_shape(&triangle(1.0, f64::MAX)), Ok(()));
    assert_eq!(validate_shape(&triangle(f64::INFINITY, f64::INFINITY)), Ok(()));
}

#[test]
fn a_square_with_a_side_of_zero_or_less_must_be_positive() {
    for side in [0.0, -0.0, -7.0, f64::NEG_INFINITY] {
        assert_eq!(validate_shape(&square(side)), refused("Square side must be positive"));
    }
}

#[test]
fn a_square_with_a_side_above_1000_is_too_large() {
    for side in [f64::from_bits(1000.0f64.to_bits() + 1), 1001.0, f64::INFINITY] {
        assert_eq!(validate_shape(&square(side)), refused("Square side too large (max 1000)"));
    }
    assert_eq!(validate_shape(&square(1000.0)), Ok(()));
}

#[test]
fn a_dimension_that_is_not_a_number_breaks_no_rule() {
    assert_eq!(validate_shape(&circle(f64::NAN)), Ok(()));
    assert_eq!(validate_shape(&rectangle(f64::NAN, f64::NAN)), Ok(()));
    assert_eq!(validate_shape(&triangle(f64::NAN, 3.0)), Ok(()));
    assert_eq!(validate_shape(&square(-f64::NAN)), Ok(()));
}

#[test]
fn every_refusal_for_a_dimension_of_zero_or_less_says_must_be_positive() {
    for shape in [circle(-1.0), rectangle(1.0, -1.0), triangle(-1.0, 1.0), square(0.0)] {
        let message = validate_shape(&shape).unwrap_err();
        assert!(message.contains("must be positive"), "{}", message);
    }
}

#[test]
fn every_refusal_for_a_dimension_above_1000_says_too_large() {
    for shape in [circle(1001.0), rectangle(1.0, 1001.0), rectangle(1001.0, 1.0), square(1e9)] {
        let message = validate_shape(&shape).unwrap_err();
        assert!(message.contains("too large"), "{}", message);
    }
}

#[test]
fn validation_agrees_with_the_hardware_on_edge_values() {
    for a in edge_values() {
        assert_eq!(validate_shape(&circle(a)), expected(&circle(a)), "circle {:?}", a);
        assert_eq!(validate_shape(&square(a)), expected(&square(a)), "square {:?}", a);
        for b in edge_values() {
            let r = rectangle(a, b);
            assert_eq!(validate_shape(&r), expected(&r), "rectangle {:?} {:?}", a, b);
            let t = triangle(a, b);
            assert_eq!(validate_shape(&t), expected(&t), "triangle {:?} {:?}", a, b);
        }
    }
}

#[test]
fn validation_agrees_with_the_hardware_on_scattered_encodings() {
    let mut state: u64 = 0x2545_F491_4F6C_DD1D;
    let mut round: u32 = 0;
    while round < 50_000 {
        state = state.wrapping_mul(6364136223846793005).wrapping_add(1442695040888963407);
        let a = f64::from_bits(state ^ (state >> 31));
        state = state.wrapping_mul(6364136223846793005).wrapping_add(1442695040888963407);
        // Half of the second dimensions are drawn near the bounds.
        let b = if round % 2 == 0 {
            f64::from_bits(state ^ (state >> 31))
        } else {
            ((state >> 40) as f64) / 8192.0 - 10.0
        };
        for shape in [circle(b), square(b), rectangle(a, b), rectangle(b, a), triangle(a, b), triangle(b, b)] {
            assert_eq!(validate_shape(&shape), expected(&shape), "{:?}", shape);
        }
        round += 1;
    }
}

fn quotient(width: f64, height: f64) -> Result<f64, String> {
    calculate_efficiency_ratio(dim(width), dim(height)).map(|ratio| f64::from_bits(ratio.bits))
}

#[test]
fn the_ratio_of_16_to_9() {
    let ratio = calculate_efficiency_ratio(dim(16.0), dim(9.0)).unwrap();
    assert_eq!(ratio.bits, (16.0f64 / 9.0).to_bits());
    assert_eq!(ratio.bits, 0x3FFC_71C7_1C71_C71C);
    assert_eq!(format!("{:.3}", f64::from_bits(ratio.bits)), "1.778");
}

#[test]
fn the_ratio_of_4_to_3() {
    let value = quotient(4.0, 3.0).unwrap();
    assert_eq!(value, 4.0 / 3.0);
    assert_eq!(format!("{:.3}", value), "1.333");
}

#[test]
fn a_negative_width_has_no_ratio() {
    assert_eq!(quotient(-5.0, 10.0), Err("Width must be positive".to_string()));
}

#[test]
fn a_height_of_zero_has_no_ratio() {
    assert_eq!(quotient(10.0, 0.0), Err("Height must be positive".to_string()));
    assert_eq!(quotient(10.0, -0.0), Err("Height must be positive".to_string()));
    assert_eq!(quotient(10.0, -3.0), Err("Height must be positive".to_string()));
}

#[test]
fn the_width_is_checked_before_the_height() {
    assert_eq!(quotient(0.0, 0.0), Err("Width must be positive".to_string()));
    assert_eq!(quotient(-5.0, -10.0), Err("Width must be positive".to_string()));
    assert_eq!(quotient(f64::NEG_INFINITY, f64::NAN), Err("Width must be positive".to_string()));
}

#[test]
fn the_ratio_agrees_with_the_hardware_on_edge_values() {
    for width in edge_values() {
        for height in edge_values() {
            let result = calculate_efficiency_ratio(dim(width), dim(height));
            if width <= 0.0 {
                assert_eq!(result.unwrap_err(), "Width must be positive");
            } else if height <= 0.0 {
                assert_eq!(result.unwrap_err(), "Height must be positive");
            } else {
                let ratio = f64::from_bits(result.unwrap().bits);
                let expected = width / height;
                assert!(
                    ratio.to_bits() == expected.to_bits() || (ratio.is_nan() && expected.is_nan()),
                    "{:?} / {:?}",
                    width,
                    height
                );
            }
        }
    }
}

#[test]
fn the_ratio_agrees_with_the_hardware_on_scattered_dimensions() {
    let mut state: u64 = 0x1234_5678_9ABC_DEF1;
    let mut round: u32 = 0;
    while round < 100_000 {
        state = state.wrapping_mul(6364136223846793005).wrapping_add(1442695040888963407);
        let width = ((state >> 11) as f64) / 9007199254.740992 - 1000.0;
        state = state.wrapping_mul(6364136223846793005).wrapping_add(1442695040888963407);
        let height = ((state >> 11) as f64) / 9007199254.740992 - 1000.0;
        let expected = if width <= 0.0 {
            Err("Width must be positive".to_string())
        } else if height <= 0.0 {
            Err("Height must be positive".to_string())
        } else {
            Ok((width / height).to_bits())
        };
        let got = calculate_efficiency_ratio(dim(width), dim(height)).map(|ratio| ratio.bits);
        assert_eq!(got, expected, "{:?} / {:?}", width, height);
        round += 1;
    }
}

#[test]
fn a_ratio_has_no_upper_bound() {
    assert_eq!(quotient(1e300, 1e-300), Ok(f64::INFINITY));
    assert_eq!(quotient(2000.0, 1.0), Ok(2000.0));
    assert_eq!(quotient(f64::from_bits(1), f64::MAX), Ok(0.0));
}
