//! A dimension is an IEEE 754 binary64 number, held as its 64-bit encoding.
//!
//! The encoding has a sign bit, an 11-bit exponent field and a 52-bit fraction
//! field. Its meaning is given by [`Number`]; the comparisons below work on the
//! encoding and are proved to agree with the order of the numbers. Sums,
//! products, quotients and square roots are in [`crate::arithmetic`].

use vstd::prelude::*;
use vstd::arithmetic::power2::*;

verus! {

/// What a binary64 encoding stands for.
pub enum Number {
    /// Not a number.
    NaN,
    /// Positive or negative infinity.
    Infinite { negative: bool },
    /// A finite number, counted in units of 2^-1074. Every finite binary64
    /// number is a whole multiple of that unit; both zeros count 0 units.
    Finite { units: int },
}

impl Number {
    /// The whole number `n`.
    pub open spec fn whole(n: int) -> Number {
        Number::Finite { units: n * pow2(1074) }
    }

    /// `self <= other` in the IEEE 754 order: never true of NaN.
    pub open spec fn le(self, other: Number) -> bool {
        match (self, other) {
            (Number::NaN, _) => false,
            (_, Number::NaN) => false,
            (Number::Infinite { negative }, _) => negative || other == self,
            (Number::Finite { .. }, Number::Infinite { negative }) => !negative,
            (Number::Finite { units: x }, Number::Finite { units: y }) => x <= y,
        }
    }

    /// `self > other` in the IEEE 754 order: never true of NaN.
    pub open spec fn gt(self, other: Number) -> bool {
        match (self, other) {
            (Number::NaN, _) => false,
            (_, Number::NaN) => false,
            (Number::Infinite { negative }, _) => !negative && other != self,
            (Number::Finite { .. }, Number::Infinite { negative }) => negative,
            (Number::Finite { units: x }, Number::Finite { units: y }) => x > y,
        }
    }
}

/// The weight of the lowest exponent bit: 2^52.
pub const HIDDEN_BIT: u64 = 0x10_0000_0000_0000;

/// The encoding of positive infinity; above it, with the sign cleared, lie the NaNs.
pub const INFINITY_BITS: u64 = 0x7FF0_0000_0000_0000;

/// The sign bit.
pub const SIGN_BIT: u64 = 0x8000_0000_0000_0000;

/// A length, held as the encoding of a binary64 number.
#[derive(Clone, Copy, Debug)]
pub struct Dimension {
    pub bits: u64,
}

impl View for Dimension {
    type V = Number;

    open spec fn view(&self) -> Number {
        if self.exponent_field() == 0x7FF {
            if self.fraction_field() == 0 {
                Number::Infinite { negative: self.sign_is_set() }
            } else {
                Number::NaN
            }
        } else {
            Number::Finite { units: self.units() }
        }
    }
}

impl Dimension {
    /// Whether the sign bit is set.
    pub open spec fn sign_is_set(self) -> bool {
        self.bits >= SIGN_BIT
    }

    /// The exponent field: bits 52 to 62.
    pub open spec fn exponent_field(self) -> nat {
        (self.bits / HIDDEN_BIT % 0x800) as nat
    }

    /// The fraction field: bits 0 to 51.
    pub open spec fn fraction_field(self) -> nat {
        (self.bits % HIDDEN_BIT) as nat
    }

    /// The encoding without its sign bit.
    pub open spec fn magnitude_bits(self) -> nat {
        self.exponent_field() * HIDDEN_BIT as nat + self.fraction_field()
    }

    /// The absolute value in units of 2^-1074, for an encoding of a finite number.
    /// With exponent field 0 the fraction counts units; otherwise the fraction
    /// with the hidden bit in front is scaled by the exponent. For the encoding
    /// of infinity this gives 2^1024, one spacing above the largest number.
    pub open spec fn magnitude(self) -> nat {
        if self.exponent_field() == 0 {
            self.fraction_field()
        } else {
            (HIDDEN_BIT as nat + self.fraction_field()) * pow2((self.exponent_field() - 1) as nat)
        }
    }

    /// The significand: the fraction field, with the hidden bit in front
    /// unless the exponent field is zero.
    pub open spec fn significand(self) -> nat {
        if self.exponent_field() == 0 {
            self.fraction_field()
        } else {
            HIDDEN_BIT as nat + self.fraction_field()
        }
    }

    /// By how many bits the significand is lifted: a finite number is
    /// `significand * 2^lift` units.
    pub open spec fn lift(self) -> nat {
        if self.exponent_field() == 0 {
            0
        } else {
            (self.exponent_field() - 1) as nat
        }
    }

    /// A finite number in units of 2^-1074, with its sign.
    pub open spec fn units(self) -> int {
        if self.sign_is_set() {
            -(self.magnitude() as int)
        } else {
            self.magnitude() as int
        }
    }

    /// Whether the number is zero, of either sign.
    pub open spec fn is_zero(self) -> bool {
        self.magnitude_bits() == 0
    }

    /// The distance in units from the magnitude of a finite number to the next
    /// larger magnitude that has an encoding.
    pub open spec fn spacing(self) -> nat {
        if self.exponent_field() == 0 {
            1
        } else {
            pow2((self.exponent_field() - 1) as nat)
        }
    }

    /// Whether this is a finite number that lies no further than half its
    /// spacing from the fraction `numerator / denominator`.
    pub open spec fn approximates(self, numerator: int, denominator: int) -> bool {
        &&& denominator > 0
        &&& self@ matches Number::Finite { units }
        &&& {
            let error = units * denominator - numerator * pow2(1074);
            -(denominator * self.spacing()) <= 2 * error <= denominator * self.spacing()
        }
    }

    /// A larger encoding, signs apart, means a larger magnitude.
    pub proof fn lemma_magnitude_increases(a: Dimension, b: Dimension)
        requires
            a.magnitude_bits() < b.magnitude_bits(),
        ensures
            a.magnitude() < b.magnitude(),
    {
        let ea = a.exponent_field();
        let eb = b.exponent_field();
        let fa = a.fraction_field();
        let fb = b.fraction_field();
        let h = HIDDEN_BIT as nat;
        assert(ea < eb || (ea == eb && fa < fb));
        if ea == eb {
            if ea != 0 {
                let p = pow2((ea - 1) as nat);
                lemma_pow2_pos((ea - 1) as nat);
                assert((h + fa) * p < (h + fb) * p) by (nonlinear_arith)
                    requires
                        fa < fb,
                        p > 0,
                ;
            }
        } else {
            let q = pow2((eb - 1) as nat);
            lemma_pow2_pos((eb - 1) as nat);
            assert(h * q <= (h + fb) * q) by (nonlinear_arith)
                requires
                    q > 0,
            ;
            if ea == 0 {
                assert(h <= h * q) by (nonlinear_arith)
                    requires
                        q >= 1,
                ;
            } else {
                let p = pow2((ea - 1) as nat);
                lemma_pow2_pos((ea - 1) as nat);
                lemma_pow2_unfold(ea);
                if ea < eb - 1 {
                    lemma_pow2_strictly_increases(ea, (eb - 1) as nat);
                }
                assert((h + fa) * p < h * q) by (nonlinear_arith)
                    requires
                        fa < h,
                        p > 0,
                        2 * p <= q,
                ;
            }
        }
    }

    /// The encoding with the sign bit cleared.
    pub fn without_sign(&self) -> (m: u64)
        ensures
            m == self.magnitude_bits(),
    {
        let bits = self.bits;
        let m = bits & 0x7FFF_FFFF_FFFF_FFFF;
        assert(m == (bits / 0x10_0000_0000_0000 % 0x800) * 0x10_0000_0000_0000 + bits
            % 0x10_0000_0000_0000) by (bit_vector)
            requires
                m == bits & 0x7FFF_FFFF_FFFF_FFFF,
        ;
        m
    }

    /// Whether the encoding is a NaN: it then lies above that of infinity.
    pub fn is_nan(&self) -> (r: bool)
        ensures
            r == (self@ is NaN),
    {
        self.without_sign() > INFINITY_BITS
    }

    /// Whether `self <= other` as binary64 numbers: false when either is NaN,
    /// and the two zeros are equal.
    pub fn le(&self, other: &Dimension) -> (r: bool)
        ensures
            r == self@.le(other@),
    {
        if self.is_nan() || other.is_nan() {
            return false;
        }
        let a = self.without_sign();
        let b = other.without_sign();
        proof {
            let zero = Dimension { bits: 0 };
            if a < b {
                Self::lemma_magnitude_increases(*self, *other);
            }
            if b < a {
                Self::lemma_magnitude_increases(*other, *self);
            }
            if 0 < a {
                Self::lemma_magnitude_increases(zero, *self);
            }
            if 0 < b {
                Self::lemma_magnitude_increases(zero, *other);
            }
        }
        if self.bits >= SIGN_BIT {
            other.bits < SIGN_BIT || b <= a
        } else if other.bits >= SIGN_BIT {
            a == 0 && b == 0
        } else {
            a <= b
        }
    }

    /// Whether `self > other` as binary64 numbers: false when either is NaN.
    pub fn gt(&self, other: &Dimension) -> (r: bool)
        ensures
            r == self@.gt(other@),
    {
        !self.is_nan() && !other.is_nan() && !self.le(other)
    }
}

} // verus!
