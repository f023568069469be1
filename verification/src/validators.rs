//! Rules on the dimensions of a shape, and the ratio of a width to a height.

use vstd::prelude::*;
use vstd::arithmetic::power2::*;
use crate::dimension::{Dimension, Number};
use crate::exact::Exact;
use crate::rounding::nearest;
use crate::shapes::Shape;

verus! {

/// `d <= 0`. NaN is not.
pub open spec fn not_positive(d: Dimension) -> bool {
    d@.le(Number::whole(0))
}

/// `d > 1000`. NaN is not.
pub open spec fn too_large(d: Dimension) -> bool {
    d@.gt(Number::whole(1000))
}

/// The message with which a shape is refused, if it is. Positivity is checked
/// before size, and a triangle has no upper bound.
pub open spec fn validation_error(shape: Shape) -> Option<Seq<char>> {
    match shape {
        Shape::Circle { radius } => if not_positive(radius) {
            Some("Circle radius must be positive"@)
        } else if too_large(radius) {
            Some("Circle radius too large (max 1000)"@)
        } else {
            None
        },
        Shape::Rectangle { width, height } => if not_positive(width) || not_positive(height) {
            Some("Rectangle dimensions must be positive"@)
        } else if too_large(width) || too_large(height) {
            Some("Rectangle dimensions too large (max 1000)"@)
        } else {
            None
        },
        Shape::Triangle { base, height } => if not_positive(base) || not_positive(height) {
            Some("Triangle dimensions must be positive"@)
        } else {
            None
        },
        Shape::Square { side } => if not_positive(side) {
            Some("Square side must be positive"@)
        } else if too_large(side) {
            Some("Square side too large (max 1000)"@)
        } else {
            None
        },
    }
}

/// The number 0.
fn zero() -> (r: Dimension)
    ensures
        r@ == Number::whole(0),
{
    Dimension { bits: 0 }
}

/// The number 1000, the largest dimension of a bounded shape.
fn upper_bound() -> (r: Dimension)
    ensures
        r@ == Number::whole(1000),
{
    let r = Dimension { bits: 0x408F_4000_0000_0000 };
    proof {
        lemma2_to64_rest();
        lemma_pow2_adds(43, 1031);
        let p = pow2(1031);
        assert(r.exponent_field() == 1032);
        assert(r.fraction_field() == 0xF_4000_0000_0000);
        assert(0x1F_4000_0000_0000 * p == 1000 * (0x800_0000_0000 * p)) by (nonlinear_arith);
    }
    r
}

/// Checks the dimensions of a shape: `Ok` if they are acceptable, else the
/// message of the first rule that they break.
pub fn validate_shape(shape: &Shape) -> (r: Result<(), String>)
    ensures
        match r {
            Ok(_) => validation_error(*shape) is None,
            Err(msg) => validation_error(*shape) == Some(msg@),
        },
        r is Ok <==> !has_non_positive_dimension(*shape) && (*shape is Triangle
            || !has_oversized_dimension(*shape)),
{
    let zero = zero();
    let bound = upper_bound();
    match shape {
        Shape::Circle { radius } => {
            if radius.le(&zero) {
                return Err("Circle radius must be positive".to_string());
            }
            if radius.gt(&bound) {
                return Err("Circle radius too large (max 1000)".to_string());
            }
        },
        Shape::Rectangle { width, height } => {
            if width.le(&zero) || height.le(&zero) {
                return Err("Rectangle dimensions must be positive".to_string());
            }
            if width.gt(&bound) || height.gt(&bound) {
                return Err("Rectangle dimensions too large (max 1000)".to_string());
            }
        },
        Shape::Triangle { base, height } => {
            if base.le(&zero) || height.le(&zero) {
                return Err("Triangle dimensions must be positive".to_string());
            }
        },
        Shape::Square { side } => {
            if side.le(&zero) {
                return Err("Square side must be positive".to_string());
            }
            if side.gt(&bound) {
                return Err("Square side too large (max 1000)".to_string());
            }
        },
    }
    Ok(())
}

/// The message with which a width and a height are refused, if they are. The
/// width is checked first.
pub open spec fn ratio_error(width: Dimension, height: Dimension) -> Option<Seq<char>> {
    if not_positive(width) {
        Some("Width must be positive"@)
    } else if not_positive(height) {
        Some("Height must be positive"@)
    } else {
        None
    }
}

/// The ratio of `width` to `height`, rounded to the nearest number, or the
/// message of the first of the two that is zero or negative.
pub fn calculate_efficiency_ratio(width: Dimension, height: Dimension) -> (r: Result<
    Dimension,
    String,
>)
    ensures
        match r {
            Ok(ratio) => ratio_error(width, height) is None && ratio == width.quotient(height),
            Err(msg) => ratio_error(width, height) == Some(msg@),
        },
{
    let zero = zero();
    if width.le(&zero) {
        return Err("Width must be positive".to_string());
    }
    if height.le(&zero) {
        return Err("Height must be positive".to_string());
    }
    Ok(width.divided_by(&height))
}

/// Whether a dimension of the shape is zero or negative.
pub open spec fn has_non_positive_dimension(shape: Shape) -> bool {
    match shape {
        Shape::Circle { radius } => not_positive(radius),
        Shape::Rectangle { width, height } => not_positive(width) || not_positive(height),
        Shape::Triangle { base, height } => not_positive(base) || not_positive(height),
        Shape::Square { side } => not_positive(side),
    }
}

/// Whether a dimension of the shape is above 1000.
pub open spec fn has_oversized_dimension(shape: Shape) -> bool {
    match shape {
        Shape::Circle { radius } => too_large(radius),
        Shape::Rectangle { width, height } => too_large(width) || too_large(height),
        Shape::Triangle { base, height } => too_large(base) || too_large(height),
        Shape::Square { side } => too_large(side),
    }
}

/// Whether `phrase` stands in `message` from position `at` on.
pub open spec fn occurs_at(message: Seq<char>, phrase: Seq<char>, at: int) -> bool {
    0 <= at && at + phrase.len() <= message.len() && message.subrange(at, at + phrase.len())
        == phrase
}

/// Whether `phrase` occurs in `message`.
pub open spec fn mentions(message: Seq<char>, phrase: Seq<char>) -> bool {
    exists|at: int| occurs_at(message, phrase, at)
}

/// A circle whose radius is above 0 and at most 1000 is accepted.
pub proof fn lemma_circle_in_range_accepted(radius: Dimension)
    requires
        radius@.gt(Number::whole(0)),
        radius@.le(Number::whole(1000)),
    ensures
        validation_error(Shape::Circle { radius }) is None,
{
}

/// A shape with a dimension that is zero or negative is refused, and the
/// message says that dimensions must be positive.
pub proof fn lemma_non_positive_dimension_refused(shape: Shape)
    requires
        has_non_positive_dimension(shape),
    ensures
        validation_error(shape) matches Some(message) && mentions(message, "must be positive"@),
{
    reveal_strlit("must be positive");
    let phrase = "must be positive"@;
    match shape {
        Shape::Circle { .. } => {
            reveal_strlit("Circle radius must be positive");
            let message = "Circle radius must be positive"@;
            assert(message.subrange(14, 30) =~= phrase);
            assert(occurs_at(message, phrase, 14));
        },
        Shape::Rectangle { .. } => {
            reveal_strlit("Rectangle dimensions must be positive");
            let message = "Rectangle dimensions must be positive"@;
            assert(message.subrange(21, 37) =~= phrase);
            assert(occurs_at(message, phrase, 21));
        },
        Shape::Triangle { .. } => {
            reveal_strlit("Triangle dimensions must be positive");
            let message = "Triangle dimensions must be positive"@;
            assert(message.subrange(20, 36) =~= phrase);
            assert(occurs_at(message, phrase, 20));
        },
        Shape::Square { .. } => {
            reveal_strlit("Square side must be positive");
            let message = "Square side must be positive"@;
            assert(message.subrange(12, 28) =~= phrase);
            assert(occurs_at(message, phrase, 12));
        },
    }
}

/// A circle, rectangle or square with a dimension above 1000, and none that is
/// zero or negative, is refused, and the message says that it is too large.
pub proof fn lemma_oversized_dimension_refused(shape: Shape)
    requires
        !(shape is Triangle),
        has_oversized_dimension(shape),
        !has_non_positive_dimension(shape),
    ensures
        validation_error(shape) matches Some(message) && mentions(message, "too large"@),
{
    reveal_strlit("too large");
    let phrase = "too large"@;
    match shape {
        Shape::Circle { .. } => {
            reveal_strlit("Circle radius too large (max 1000)");
            let message = "Circle radius too large (max 1000)"@;
            assert(message.subrange(14, 23) =~= phrase);
            assert(occurs_at(message, phrase, 14));
        },
        Shape::Rectangle { .. } => {
            reveal_strlit("Rectangle dimensions too large (max 1000)");
            let message = "Rectangle dimensions too large (max 1000)"@;
            assert(message.subrange(21, 30) =~= phrase);
            assert(occurs_at(message, phrase, 21));
        },
        Shape::Triangle { .. } => {},
        Shape::Square { .. } => {
            reveal_strlit("Square side too large (max 1000)");
            let message = "Square side too large (max 1000)"@;
            assert(message.subrange(12, 21) =~= phrase);
            assert(occurs_at(message, phrase, 12));
        },
    }
}

/// A triangle has no upper bound: it is accepted whenever both dimensions are
/// above 0, however large they are.
pub proof fn lemma_triangle_unbounded(base: Dimension, height: Dimension)
    requires
        base@.gt(Number::whole(0)),
        height@.gt(Number::whole(0)),
    ensures
        validation_error(Shape::Triangle { base, height }) is None,
{
}

/// A width that is zero or negative is refused as the width; a height that is
/// zero or negative, under a width above 0, is refused as the height; a width
/// and a height above 0 have a ratio.
pub proof fn lemma_ratio_cases(width: Dimension, height: Dimension)
    ensures
        not_positive(width) ==> ratio_error(width, height) == Some("Width must be positive"@),
        width@.gt(Number::whole(0)) && not_positive(height) ==> ratio_error(width, height) == Some(
            "Height must be positive"@,
        ),
        width@.gt(Number::whole(0)) && height@.gt(Number::whole(0)) ==> ratio_error(width, height)
            is None,
{
}

/// The ratio of a finite width above 0 to a finite height above 0 is the
/// number nearest to the exact quotient of the two.
pub proof fn lemma_ratio_is_nearest(width: Dimension, height: Dimension)
    requires
        width@ is Finite,
        height@ is Finite,
        width@.gt(Number::whole(0)),
        height@.gt(Number::whole(0)),
    ensures
        height.magnitude() > 0,
        width.quotient(height).bits == nearest(
            Exact::Ratio { p: width.magnitude() * pow2(1074), q: height.magnitude() },
        ),
{
    assert(0 * pow2(1074) == 0) by (nonlinear_arith);
}

} // verus!
