//! Plane shapes whose dimensions are binary64 numbers: their areas,
//! perimeters and descriptions, the rules that decide whether their
//! dimensions are acceptable, and the ratio of a width to a height.
//!
//! A dimension is held as the 64-bit encoding of its number, and all that is
//! computed is computed on encodings with integers. Comparisons are exact;
//! sums, products, quotients and square roots are rounded to the nearest
//! number, as IEEE 754 asks; numbers are written in decimal digits either
//! with two digits after the decimal point or with the fewest digits that
//! tell them apart. The contracts say so.

pub mod arithmetic;
pub mod decimal;
pub mod dimension;
pub mod exact;
pub mod rounding;
pub mod shapes;
pub mod shortest;
pub mod validators;
pub mod writing;
