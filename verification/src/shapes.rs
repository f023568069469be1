//! The shapes, their areas, perimeters and descriptions, and two constants.

use vstd::prelude::*;
use vstd::string::*;
use vstd::arithmetic::power2::*;
use crate::dimension::{Dimension, Number};
use crate::shortest::{plain_text, write_plain};
use crate::writing::{fixed_text, write_fixed};

verus! {

/// The encoding of 3.14159265359, rounded to binary64.
pub const PI: u64 = 0x4009_21FB_5444_2EEA;

/// The encoding of 1.618033988749, rounded to binary64.
pub const GOLDEN_RATIO: u64 = 0x3FF9_E377_9B97_E4EA;

/// The encoding of 1/2.
pub const HALF: u64 = 0x3FE0_0000_0000_0000;

/// The encoding of 2.
pub const TWO: u64 = 0x4000_0000_0000_0000;

/// The encoding of 4.
pub const FOUR: u64 = 0x4010_0000_0000_0000;

/// `HALF`, `TWO` and `FOUR` stand for 1/2, 2 and 4.
pub proof fn lemma_factors_are_exact()
    ensures
        (Dimension { bits: HALF })@ == (Number::Finite { units: pow2(1073) as int }),
        2 * pow2(1073) == pow2(1074),
        (Dimension { bits: TWO })@ == Number::whole(2),
        (Dimension { bits: FOUR })@ == Number::whole(4),
{
    lemma2_to64_rest();
    lemma_pow2_adds(52, 1021);
    lemma_pow2_unfold(1074);
    lemma_pow2_unfold(1075);
    lemma_pow2_adds(52, 1023);
    lemma_pow2_adds(52, 1024);
    lemma_pow2_unfold(1076);
    let half = Dimension { bits: HALF };
    assert(half.exponent_field() == 1022);
    assert(half.fraction_field() == 0);
    let two = Dimension { bits: TWO };
    assert(two.exponent_field() == 1024);
    assert(two.fraction_field() == 0);
    let four = Dimension { bits: FOUR };
    assert(four.exponent_field() == 1025);
    assert(four.fraction_field() == 0);
}

/// `PI` is within half a spacing of 3.14159265359.
pub proof fn lemma_pi_approximates()
    ensures
        (Dimension { bits: PI }).approximates(314_159_265_359, 100_000_000_000),
{
    let d = Dimension { bits: PI };
    let p = pow2(1023);
    lemma2_to64_rest();
    lemma_pow2_adds(51, 1023);
    assert(d.exponent_field() == 1024);
    assert(d.fraction_field() == 0x9_21FB_5444_2EEA);
    assert(d.magnitude() == 7074237752028906 * p);
    assert((7074237752028906 * p) * 100_000_000_000 - 314_159_265_359 * (0x8_0000_0000_0000 * p)
        == 13864275968 * p) by (nonlinear_arith);
}

/// `GOLDEN_RATIO` is within half a spacing of 1.618033988749.
pub proof fn lemma_golden_ratio_approximates()
    ensures
        (Dimension { bits: GOLDEN_RATIO }).approximates(1_618_033_988_749, 1_000_000_000_000),
{
    let d = Dimension { bits: GOLDEN_RATIO };
    let p = pow2(1022);
    lemma2_to64_rest();
    lemma_pow2_adds(52, 1022);
    assert(d.exponent_field() == 1023);
    assert(d.fraction_field() == 0x9_E377_9B97_E4EA);
    assert(d.magnitude() == 7286977268802794 * p);
    assert((7286977268802794 * p) * 1_000_000_000_000 - 1_618_033_988_749 * (0x10_0000_0000_0000
        * p) == 282681450496 * p) by (nonlinear_arith);
}

/// A plane shape with the dimensions that determine it. Any encoding may stand
/// in a field: whether the dimensions are acceptable is decided by
/// [`crate::validators::validate_shape`].
#[derive(Debug)]
pub enum Shape {
    Circle { radius: Dimension },
    Rectangle { width: Dimension, height: Dimension },
    Triangle { base: Dimension, height: Dimension },
    Square { side: Dimension },
}

/// What can be computed of a shape.
pub trait Calculable {
    /// The area.
    fn area(&self) -> Dimension;

    /// The length of the outline.
    fn perimeter(&self) -> Dimension;

    /// What kind of shape it is and what its dimensions are, in words.
    fn describe(&self) -> String;
}

impl Shape {
    /// The area as it is computed: every product is rounded to the nearest
    /// number before it is used further.
    pub open spec fn area_formula(self) -> Dimension {
        match self {
            Shape::Circle { radius } => (Dimension { bits: PI }).product(radius).product(radius),
            Shape::Rectangle { width, height } => width.product(height),
            Shape::Triangle { base, height } => (Dimension { bits: HALF }).product(base).product(
                height,
            ),
            Shape::Square { side } => side.product(side),
        }
    }

    /// The perimeter as it is computed: every sum, product and square root
    /// is rounded to the nearest number before it is used further. The
    /// triangle is taken to have a right angle between base and height.
    pub open spec fn perimeter_formula(self) -> Dimension {
        match self {
            Shape::Circle { radius } => (Dimension { bits: TWO }).product(Dimension { bits: PI })
                .product(radius),
            Shape::Rectangle { width, height } => (Dimension { bits: TWO }).product(
                width.sum(height),
            ),
            Shape::Triangle { base, height } => base.sum(height).sum(
                base.product(base).sum(height.product(height)).root(),
            ),
            Shape::Square { side } => (Dimension { bits: FOUR }).product(side),
        }
    }
}

impl Shape {
    /// The description: what kind of shape it is, and its dimensions. The
    /// radius of a circle is written with two digits after the decimal
    /// point, every other dimension with the fewest digits that tell it apart.
    pub open spec fn description(self) -> Seq<char> {
        match self {
            Shape::Circle { radius } => "Circle with radius "@ + fixed_text(radius),
            Shape::Rectangle { width, height } => "Rectangle "@ + plain_text(width) + "x"@
                + plain_text(height),
            Shape::Triangle { base, height } => "Triangle with base "@ + plain_text(base)
                + " and height "@ + plain_text(height),
            Shape::Square { side } => "Square with side "@ + plain_text(side),
        }
    }
}

impl Calculable for Shape {
    fn describe(&self) -> (r: String)
        ensures
            r@ == self.description(),
    {
        match self {
            Shape::Circle { radius } => {
                let mut text = "Circle with radius ".to_string();
                text.append(write_fixed(radius).as_str());
                text
            },
            Shape::Rectangle { width, height } => {
                let mut text = "Rectangle ".to_string();
                text.append(write_plain(width).as_str());
                text.append("x");
                text.append(write_plain(height).as_str());
                text
            },
            Shape::Triangle { base, height } => {
                let mut text = "Triangle with base ".to_string();
                text.append(write_plain(base).as_str());
                text.append(" and height ");
                text.append(write_plain(height).as_str());
                text
            },
            Shape::Square { side } => {
                let mut text = "Square with side ".to_string();
                text.append(write_plain(side).as_str());
                text
            },
        }
    }

    fn area(&self) -> (r: Dimension)
        ensures
            r == self.area_formula(),
    {
        match self {
            Shape::Circle { radius } => (Dimension { bits: PI }).times(radius).times(radius),
            Shape::Rectangle { width, height } => width.times(height),
            Shape::Triangle { base, height } => (Dimension { bits: HALF }).times(base).times(height),
            Shape::Square { side } => side.times(side),
        }
    }

    fn perimeter(&self) -> (r: Dimension)
        ensures
            r == self.perimeter_formula(),
    {
        match self {
            Shape::Circle { radius } => (Dimension { bits: TWO }).times(&Dimension { bits: PI })
                .times(radius),
            Shape::Rectangle { width, height } => (Dimension { bits: TWO }).times(
                &width.plus(height),
            ),
            Shape::Triangle { base, height } => {
                let hypotenuse = base.times(base).plus(&height.times(height)).square_root();
                base.plus(height).plus(&hypotenuse)
            },
            Shape::Square { side } => (Dimension { bits: FOUR }).times(side),
        }
    }
}

/// The area of a circle is PI times the radius times the radius, and its
/// perimeter is 2 times PI times the radius.
pub proof fn lemma_circle_formulas(radius: Dimension)
    ensures
        (Shape::Circle { radius }).area_formula() == (Dimension { bits: PI }).product(
            radius,
        ).product(radius),
        (Shape::Circle { radius }).perimeter_formula() == (Dimension { bits: TWO }).product(
            Dimension { bits: PI },
        ).product(radius),
{
}

} // verus!
