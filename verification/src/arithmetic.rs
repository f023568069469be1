//! Arithmetic on dimensions: each result is the exact result rounded to the
//! nearest encoding, as IEEE 754 asks of binary64 arithmetic.
//!
//! What a result is, is said by `product`, `quotient`, `sum` and `root`; it is
//! computed by `times`, `divided_by`, `plus` and `square_root`, with integers
//! only. Every result that is not a number has the encoding `NAN_BITS`.

use vstd::prelude::*;
use vstd::arithmetic::power2::*;
use crate::dimension::{Dimension, HIDDEN_BIT, INFINITY_BITS, SIGN_BIT};
use crate::exact::{
    lemma_scaled_order, lemma_scaled_product, lemma_scaled_times, lemma_scaled_twice, scaled,
    Exact,
};
use crate::rounding::{
    bit_length, lemma_magnitude_of_increases, lemma_magnitude_of_parts, lemma_nearest,
    magnitude_of, nearest, power_of_two, round, rounds_to,
};

verus! {

/// The encoding that stands for every result that is not a number.
pub const NAN_BITS: u64 = 0x7FF8_0000_0000_0000;

impl Dimension {
    /// The number with the encoding `magnitude`, which has no sign, and the
    /// sign given.
    pub open spec fn signed(magnitude: u64, negative: bool) -> Dimension {
        Dimension {
            bits: if negative {
                (magnitude + SIGN_BIT) as u64
            } else {
                magnitude
            },
        }
    }

    /// The product of two numbers. It is not a number if one of them is not,
    /// or if one is infinite and the other zero; its sign is negative if
    /// the signs differ. Numbers of `a` and `b` units have a product of
    /// `a * b / 2^1074` units.
    pub open spec fn product(self, other: Dimension) -> Dimension {
        if self@ is NaN || other@ is NaN || (self@ is Infinite && other.is_zero()) || (
        self.is_zero() && other@ is Infinite) {
            Dimension { bits: NAN_BITS }
        } else {
            let negative = self.sign_is_set() != other.sign_is_set();
            if self@ is Infinite || other@ is Infinite {
                Self::signed(INFINITY_BITS, negative)
            } else {
                Self::signed(
                    nearest(Exact::Ratio { p: self.magnitude() * other.magnitude(), q: pow2(1074) }),
                    negative,
                )
            }
        }
    }

    /// The quotient of two numbers. It is not a number if one of them is not,
    /// or if both are infinite or both zero; its sign is negative if the
    /// signs differ. A number other than zero divided by zero is infinite.
    /// Numbers of `a` and `b` units have a quotient of `a * 2^1074 / b` units.
    pub open spec fn quotient(self, other: Dimension) -> Dimension {
        if self@ is NaN || other@ is NaN || (self@ is Infinite && other@ is Infinite) || (
        self.is_zero() && other.is_zero()) {
            Dimension { bits: NAN_BITS }
        } else {
            let negative = self.sign_is_set() != other.sign_is_set();
            if self@ is Infinite || other.is_zero() {
                Self::signed(INFINITY_BITS, negative)
            } else if self.is_zero() || other@ is Infinite {
                Self::signed(0, negative)
            } else {
                Self::signed(
                    nearest(Exact::Ratio { p: self.magnitude() * pow2(1074), q: other.magnitude() }),
                    negative,
                )
            }
        }
    }

    /// The sum of two numbers. It is not a number if one of them is not, or
    /// if they are the two infinities. A sum of zero is negative only if both
    /// numbers are.
    pub open spec fn sum(self, other: Dimension) -> Dimension {
        if self@ is NaN || other@ is NaN || (self@ is Infinite && other@ is Infinite
            && self.sign_is_set() != other.sign_is_set()) {
            Dimension { bits: NAN_BITS }
        } else if self@ is Infinite {
            Self::signed(INFINITY_BITS, self.sign_is_set())
        } else if other@ is Infinite {
            Self::signed(INFINITY_BITS, other.sign_is_set())
        } else {
            let total = self.units() + other.units();
            if total == 0 {
                Self::signed(0, self.sign_is_set() && other.sign_is_set())
            } else if total > 0 {
                Self::signed(nearest(Exact::Ratio { p: total as nat, q: 1 }), false)
            } else {
                Self::signed(nearest(Exact::Ratio { p: (-total) as nat, q: 1 }), true)
            }
        }
    }

    /// The square root of a number. It is not a number if the number is not,
    /// or is below zero; the square root of a zero is that zero. A number of
    /// `a` units has a square root of as many units as the square root of
    /// `a * 2^1074` is.
    pub open spec fn root(self) -> Dimension {
        if self@ is NaN || (self.sign_is_set() && !self.is_zero()) {
            Dimension { bits: NAN_BITS }
        } else if self.is_zero() || self@ is Infinite {
            self
        } else {
            Dimension { bits: nearest(Exact::Root { p: self.magnitude() * pow2(1074) }) }
        }
    }

    /// The significand of a finite number and its exponent above the lowest.
    pub(crate) fn decode(&self) -> (r: (u64, u32))
        requires
            self.magnitude_bits() < INFINITY_BITS,
        ensures
            self.magnitude() == r.0 as nat * pow2(r.1 as nat),
            r.0 < 2 * HIDDEN_BIT,
            r.1 <= 2045,
            r.1 >= 1 ==> r.0 >= HIDDEN_BIT,
            r.0 == 0 <==> self.is_zero(),
            r.0 == self.significand(),
            r.1 == self.lift(),
    {
        let m = self.without_sign();
        let e = m / HIDDEN_BIT;
        let f = m % HIDDEN_BIT;
        proof {
            lemma2_to64();
            assert(e == self.exponent_field());
            assert(f == self.fraction_field());
        }
        if e == 0 {
            proof {
                assert(f as nat * pow2(0) == f) by (nonlinear_arith)
                    requires
                        pow2(0) == 1,
                ;
            }
            (f, 0)
        } else {
            (f + HIDDEN_BIT, (e - 1) as u32)
        }
    }

    /// Puts a sign on an encoding that has none.
    fn with_sign(magnitude: u64, negative: bool) -> (r: Dimension)
        requires
            magnitude < SIGN_BIT,
        ensures
            r == Self::signed(magnitude, negative),
    {
        if negative {
            Dimension { bits: magnitude + SIGN_BIT }
        } else {
            Dimension { bits: magnitude }
        }
    }

    /// The product of `self` and `other`, rounded to the nearest number.
    pub fn times(&self, other: &Dimension) -> (r: Dimension)
        ensures
            r == self.product(*other),
    {
        let a = self.without_sign();
        let b = other.without_sign();
        let negative = (self.bits >= SIGN_BIT) != (other.bits >= SIGN_BIT);
        if a > INFINITY_BITS || b > INFINITY_BITS {
            return Dimension { bits: NAN_BITS };
        }
        if a == INFINITY_BITS || b == INFINITY_BITS {
            if a == 0 || b == 0 {
                return Dimension { bits: NAN_BITS };
            }
            return Self::with_sign(INFINITY_BITS, negative);
        }
        let (ma, xa) = self.decode();
        let (mb, xb) = other.decode();
        let ghost x = Exact::Ratio { p: self.magnitude() * other.magnitude(), q: pow2(1074) };
        proof {
            lemma_pow2_pos(1074);
            lemma_product_bracket(ma as nat, xa as nat, mb as nat, xb as nat);
            assert(ma * mb < 0x20_0000_0000_0000 * 0x20_0000_0000_0000) by (nonlinear_arith)
                requires
                    ma < 0x20_0000_0000_0000,
                    mb < 0x20_0000_0000_0000,
            ;
        }
        let n: u128 = (ma as u128) * (mb as u128);
        let m = round(n, true, xa + xb + 26, Ghost(x));
        proof {
            lemma_nearest(x, m);
        }
        Self::with_sign(m, negative)
    }

    /// The quotient of `self` by `other`, rounded to the nearest number.
    pub fn divided_by(&self, other: &Dimension) -> (r: Dimension)
        ensures
            r == self.quotient(*other),
    {
        let a = self.without_sign();
        let b = other.without_sign();
        let negative = (self.bits >= SIGN_BIT) != (other.bits >= SIGN_BIT);
        if a > INFINITY_BITS || b > INFINITY_BITS || (a == INFINITY_BITS && b == INFINITY_BITS) || (
        a == 0 && b == 0) {
            return Dimension { bits: NAN_BITS };
        }
        if a == INFINITY_BITS || b == 0 {
            return Self::with_sign(INFINITY_BITS, negative);
        }
        if a == 0 || b == INFINITY_BITS {
            return Self::with_sign(0, negative);
        }
        let (ma, xa) = self.decode();
        let (mb, xb) = other.decode();
        let (na, la) = normalise(ma);
        let (nb, lb) = normalise(mb);
        let ghost x = Exact::Ratio { p: self.magnitude() * pow2(1074), q: other.magnitude() };
        proof {
            lemma2_to64_rest();
            lemma_pow2_pos(xb as nat);
            assert(other.magnitude() > 0) by (nonlinear_arith)
                requires
                    other.magnitude() == mb as nat * pow2(xb as nat),
                    mb > 0,
                    pow2(xb as nat) > 0,
            ;
            assert(na * 0x80_0000_0000_0000 < 0x20_0000_0000_0000 * 0x80_0000_0000_0000)
                by (nonlinear_arith)
                requires
                    na < 0x20_0000_0000_0000,
            ;
        }
        let dividend: u128 = na * 0x80_0000_0000_0000;
        let n = dividend / nb;
        let rest = dividend % nb;
        let scale: u32 = (xa + lb + 2119) - (la + xb);
        proof {
            vstd::arithmetic::div_mod::lemma_fundamental_div_mod(dividend as int, nb as int);
            vstd::arithmetic::div_mod::lemma_mod_bound(dividend as int, nb as int);
            lemma_quotient_bracket(
                ma as nat,
                xa as nat,
                la as nat,
                mb as nat,
                xb as nat,
                lb as nat,
                n as nat,
                rest as nat,
                scale as nat,
            );
        }
        let m = round(n, rest == 0, scale, Ghost(x));
        proof {
            lemma_nearest(x, m);
        }
        Self::with_sign(m, negative)
    }

    /// The sum of `self` and `other`, rounded to the nearest number.
    pub fn plus(&self, other: &Dimension) -> (r: Dimension)
        ensures
            r == self.sum(*other),
    {
        let a = self.without_sign();
        let b = other.without_sign();
        let sa = self.bits >= SIGN_BIT;
        let sb = other.bits >= SIGN_BIT;
        if a > INFINITY_BITS || b > INFINITY_BITS || (a == INFINITY_BITS && b == INFINITY_BITS
            && sa != sb) {
            return Dimension { bits: NAN_BITS };
        }
        if a == INFINITY_BITS {
            return Self::with_sign(INFINITY_BITS, sa);
        }
        if b == INFINITY_BITS {
            return Self::with_sign(INFINITY_BITS, sb);
        }
        if a >= b {
            Self::add_ordered(self, other)
        } else {
            let r = Self::add_ordered(other, self);
            proof {
                assert(self.units() + other.units() == other.units() + self.units());
            }
            r
        }
    }

    /// The sum of two finite numbers of which the first has the larger
    /// magnitude, or the same.
    fn add_ordered(big: &Dimension, small: &Dimension) -> (r: Dimension)
        requires
            small.magnitude_bits() <= big.magnitude_bits() < INFINITY_BITS,
        ensures
            r == big.sum(*small),
    {
        let negative = big.bits >= SIGN_BIT;
        let same_sign = negative == (small.bits >= SIGN_BIT);
        let (mh, xh) = big.decode();
        let (ml, xl) = small.decode();
        proof {
            lemma2_to64();
            lemma2_to64_rest();
            if small.magnitude_bits() < big.magnitude_bits() {
                Dimension::lemma_magnitude_increases(*small, *big);
            }
            assert(xl <= xh);
        }
        let gap: u32 = xh - xl;
        let ghost high = big.magnitude();
        let ghost low = small.magnitude();
        let ghost p = if same_sign { high + low } else { (high - low) as nat };
        let ghost x = Exact::Ratio { p, q: 1 };
        let n: u128;
        let exact: bool;
        let scale: u32;
        if gap <= 60 {
            let lifted = power_of_two(gap);
            proof {
                lemma_pow2_strictly_increases_or_equal(gap as nat, 60);
                lemma_near_sum(mh as nat, xh as nat, ml as nat, xl as nat, same_sign);
                assert(mh as nat * lifted as nat <= 0x20_0000_0000_0000 * 0x1000_0000_0000_0000)
                    by (nonlinear_arith)
                    requires
                        mh < 0x20_0000_0000_0000,
                        lifted <= 0x1000_0000_0000_0000,
                ;
            }
            let head: u128 = (mh as u128) * lifted;
            n = if same_sign {
                head + ml as u128
            } else {
                head - ml as u128
            };
            exact = true;
            scale = xl + 1100;
        } else if ml == 0 {
            proof {
                lemma_far_sum(mh as nat, xh as nat, 0, xl as nat, same_sign);
            }
            n = (mh as u128) * 8;
            exact = true;
            scale = xh - 3 + 1100;
        } else {
            proof {
                lemma_far_sum(mh as nat, xh as nat, ml as nat, xl as nat, same_sign);
            }
            n = if same_sign {
                (mh as u128) * 8
            } else {
                (mh as u128) * 8 - 1
            };
            exact = false;
            scale = xh - 3 + 1100;
        }
        let m = round(n, exact, scale, Ghost(x));
        proof {
            lemma_nearest(x, m);
            lemma_rounds_zero(p, m);
        }
        if m == 0 && !same_sign {
            Dimension { bits: 0 }
        } else {
            Self::with_sign(m, negative)
        }
    }

    /// The square root of `self`, rounded to the nearest number.
    pub fn square_root(&self) -> (r: Dimension)
        ensures
            r == self.root(),
    {
        let a = self.without_sign();
        if a > INFINITY_BITS || (self.bits >= SIGN_BIT && a != 0) {
            return Dimension { bits: NAN_BITS };
        }
        if a == 0 || a == INFINITY_BITS {
            return *self;
        }
        let (m, xe) = self.decode();
        let (lifted, lift) = normalise(m);
        // The number is `lifted * 2^(xe - lift)` units; an even exponent is wanted.
        let odd = (xe + 1074 - lift) % 2 == 1;
        let radicand: u128 = if odd {
            lifted * 2
        } else {
            lifted
        };
        let half: u32 = (xe + 1074 - lift) / 2;
        proof {
            lemma2_to64_rest();
            assert(radicand * 0x400_0000_0000_0000 < 0x40_0000_0000_0000 * 0x400_0000_0000_0000)
                by (nonlinear_arith)
                requires
                    radicand < 0x40_0000_0000_0000,
            ;
        }
        let square: u128 = radicand * 0x400_0000_0000_0000;
        let n = integer_root(square);
        let ghost x = Exact::Root { p: self.magnitude() * pow2(1074) };
        proof {
            lemma_root_bracket(
                m as nat,
                xe as nat,
                lift as nat,
                radicand as nat,
                half as nat,
                n as nat,
            );
        }
        let bits = round(n, n * n == square, half + 1071, Ghost(x));
        proof {
            lemma_nearest(x, bits);
        }
        Dimension { bits }
    }
}

/// A significand lifted until it has 53 bits, and by how many bits.
fn normalise(m: u64) -> (r: (u128, u32))
    requires
        0 < m < 2 * HIDDEN_BIT,
    ensures
        r.0 == m as nat * pow2(r.1 as nat),
        HIDDEN_BIT <= r.0 < 2 * HIDDEN_BIT,
        r.1 <= 52,
{
    let length = bit_length(m as u128);
    proof {
        lemma2_to64();
        lemma2_to64_rest();
        if length > 53 {
            lemma_pow2_strictly_increases(53, (length - 1) as nat);
        }
        if length == 0 {
            assert(pow2(0) == 1);
        }
    }
    let lift: u32 = 53 - length;
    proof {
        let pl = pow2(lift as nat);
        lemma_pow2_pos(lift as nat);
        lemma_pow2_adds(length as nat, lift as nat);
        lemma_pow2_adds((length - 1) as nat, lift as nat);
        assert(m as nat * pl < pow2(length as nat) * pl) by (nonlinear_arith)
            requires
                m < pow2(length as nat),
                pl > 0,
        ;
        assert(m as nat * pl >= pow2((length - 1) as nat) * pl) by (nonlinear_arith)
            requires
                m >= pow2((length - 1) as nat),
                pl > 0,
        ;
    }
    ((m as u128) * power_of_two(lift), lift)
}

/// The largest integer whose square is at most `v`.
fn integer_root(v: u128) -> (r: u128)
    requires
        v < 0x1_0000_0000_0000_0000_0000_0000_0000,
    ensures
        r * r <= v < (r + 1) * (r + 1),
        r < 0x100_0000_0000_0000,
{
    let mut low: u128 = 0;
    let mut high: u128 = 0x100_0000_0000_0000;
    while high - low > 1
        invariant
            low < high <= 0x100_0000_0000_0000,
            low * low <= v < high * high,
        decreases high - low,
    {
        let middle = low + (high - low) / 2;
        proof {
            assert(middle * middle <= 0x100_0000_0000_0000 * 0x100_0000_0000_0000)
                by (nonlinear_arith)
                requires
                    middle <= 0x100_0000_0000_0000,
            ;
        }
        if middle * middle <= v {
            low = middle;
        } else {
            high = middle;
        }
    }
    low
}

/// The product of `ma * 2^xa` and `mb * 2^xb` units is `ma * mb` steps of
/// `2^(xa + xb + 26)`, counted in 2^-1100 units.
proof fn lemma_product_bracket(ma: nat, xa: nat, mb: nat, xb: nat)
    ensures
        ({
            let x = Exact::Ratio { p: (ma * pow2(xa)) * (mb * pow2(xb)), q: pow2(1074) };
            let n = ma * mb;
            let k = xa + xb + 26;
            &&& x.at_least(n * pow2(k), 1100)
            &&& x.at_most(n * pow2(k), 1100)
            &&& !x.at_least((n + 1) * pow2(k), 1100)
        }),
{
    let n = ma * mb;
    let k = xa + xb + 26;
    let pa = pow2(xa);
    let pb = pow2(xb);
    let q = pow2(1074);
    let g = pow2(1100);
    let pk = pow2(k);
    lemma_pow2_adds(xa, xb);
    lemma_pow2_adds(xa + xb, 26);
    lemma_pow2_adds(26, 1074);
    lemma_pow2_pos(k);
    lemma_pow2_pos(1074);
    assert(pk * q == (pa * pb) * g) by (nonlinear_arith)
        requires
            pk == (pa * pb) * pow2(26),
            g == pow2(26) * q,
    ;
    assert(((ma * pa) * (mb * pb)) * g == (n * pk) * q) by (nonlinear_arith)
        requires
            n == ma * mb,
            pk * q == (pa * pb) * g,
    ;
    assert(((n + 1) * pk) * q > (n * pk) * q) by (nonlinear_arith)
        requires
            pk > 0,
            q > 0,
    ;
}

/// The quotient of `ma * 2^xa` by `mb * 2^xb`, where the significands lifted
/// by `la` and `lb` bits divide as `n` with remainder `rest`, lies `n` steps
/// of `2^k` up, counted in 2^-1100 units, and less than one step further.
proof fn lemma_quotient_bracket(
    ma: nat,
    xa: nat,
    la: nat,
    mb: nat,
    xb: nat,
    lb: nat,
    n: nat,
    rest: nat,
    k: nat,
)
    requires
        mb > 0,
        (ma * pow2(la)) * 0x80_0000_0000_0000 == (mb * pow2(lb)) * n + rest,
        rest < mb * pow2(lb),
        ma * pow2(la) >= HIDDEN_BIT,
        mb * pow2(lb) < 2 * HIDDEN_BIT,
        k + la + xb == xa + lb + 2119,
    ensures
        ({
            let x = Exact::Ratio { p: (ma * pow2(xa)) * pow2(1074), q: mb * pow2(xb) };
            &&& x.at_least(n * pow2(k), 1100)
            &&& !x.at_least((n + 1) * pow2(k), 1100)
            &&& (rest == 0 <==> x.at_most(n * pow2(k), 1100))
        }),
        n >= pow2(54),
{
    let na = ma * pow2(la);
    let nb = mb * pow2(lb);
    lemma2_to64_rest();
    lemma_quotient_scaling(ma, xa, la, mb, xb, lb, n, k);
    lemma_quotient_scaling(ma, xa, la, mb, xb, lb, n + 1, k);
    assert(n * nb <= na * pow2(55) < (n + 1) * nb && (rest == 0 <==> n * nb == na * pow2(55)))
        by (nonlinear_arith)
        requires
            na * pow2(55) == nb * n + rest,
            rest < nb,
    ;
    assert(n >= pow2(54)) by (nonlinear_arith)
        requires
            na * 0x80_0000_0000_0000 == nb * n + rest,
            rest < nb,
            na >= 0x10_0000_0000_0000,
            nb < 0x20_0000_0000_0000,
            pow2(54) == 0x40_0000_0000_0000,
    ;
}

/// The quotient of `ma * 2^xa` by `mb * 2^xb`, in 2^-1100 units, compares
/// with `a * 2^k` as the lifted significand of the first, times 2^55, does
/// with `a` times that of the second.
proof fn lemma_quotient_scaling(
    ma: nat,
    xa: nat,
    la: nat,
    mb: nat,
    xb: nat,
    lb: nat,
    a: nat,
    k: nat,
)
    requires
        k + la + xb == xa + lb + 2119,
    ensures
        ({
            let dividend = ((ma * pow2(xa)) * pow2(1074)) * pow2(1100);
            let multiple = (a * pow2(k)) * (mb * pow2(xb));
            let left = (ma * pow2(la)) * pow2(55);
            let right = a * (mb * pow2(lb));
            &&& dividend >= multiple <==> left >= right
            &&& dividend <= multiple <==> left <= right
        }),
{
    let w = xa + lb + 2119;
    let dividend = scaled(scaled(scaled(ma, xa), 1074), 1100);
    let multiple = scaled(a, k) * scaled(mb, xb);
    let left = scaled(scaled(ma, la), 55);
    let right = a * scaled(mb, lb);
    // The dividend, and the lifted significand, as the significand scaled.
    lemma_scaled_twice(ma, xa, 1074);
    lemma_scaled_twice(ma, xa + 1074, 1100);
    lemma_scaled_twice(ma, xa + 2174, la + lb);
    lemma_scaled_twice(ma, la, 55);
    lemma_scaled_twice(ma, la + 55, w);
    assert(scaled(dividend, la + lb) == scaled(left, w));
    // The multiple of the divisor likewise.
    lemma_scaled_product(a, k, mb, xb);
    lemma_scaled_twice(a * mb, k + xb, la + lb);
    lemma_scaled_times(mb, lb, a);
    lemma_scaled_twice(a * mb, lb, w);
    assert(scaled(multiple, la + lb) == scaled(right, w));
    lemma_scaled_order(dividend, multiple, la + lb);
    lemma_scaled_order(multiple, dividend, la + lb);
    lemma_scaled_order(left, right, w);
    lemma_scaled_order(right, left, w);
}

/// The sum or difference of `mh * 2^xh` and `ml * 2^xl`, where the exponents
/// are near, is a whole number of steps of `2^xl`.
proof fn lemma_near_sum(mh: nat, xh: nat, ml: nat, xl: nat, same_sign: bool)
    requires
        xl <= xh,
        ml * pow2(xl) <= mh * pow2(xh),
    ensures
        ({
            let high = mh * pow2(xh);
            let low = ml * pow2(xl);
            let head = mh * pow2((xh - xl) as nat);
            let n = if same_sign { head + ml } else { (head - ml) as nat };
            let x = Exact::Ratio { p: if same_sign { high + low } else { (high - low) as nat }, q: 1 };
            &&& head >= ml
            &&& x.at_least(n * pow2(xl + 1100), 1100)
            &&& x.at_most(n * pow2(xl + 1100), 1100)
            &&& !x.at_least((n + 1) * pow2(xl + 1100), 1100)
        }),
{
    let gap = (xh - xl) as nat;
    let pl = pow2(xl);
    let pg = pow2(gap);
    let g = pow2(1100);
    let high = mh * pow2(xh);
    let low = ml * pl;
    let head = mh * pg;
    lemma_pow2_adds(gap, xl);
    lemma_pow2_adds(xl, 1100);
    lemma_pow2_pos(xl);
    lemma_pow2_pos(1100);
    assert(high == head * pl) by (nonlinear_arith)
        requires
            high == mh * (pg * pl),
            head == mh * pg,
    ;
    assert(head >= ml) by (nonlinear_arith)
        requires
            ml * pl <= head * pl,
            pl > 0,
    ;
    let n = if same_sign { head + ml } else { (head - ml) as nat };
    let p = if same_sign { high + low } else { (high - low) as nat };
    assert(p == n * pl) by (nonlinear_arith)
        requires
            high == head * pl,
            low == ml * pl,
            head >= ml,
            n == if same_sign { head + ml } else { (head - ml) as nat },
            p == if same_sign { high + low } else { (high - low) as nat },
    ;
    assert(p * g == (n * (pl * g)) * 1) by (nonlinear_arith)
        requires
            p == n * pl,
    ;
    assert(((n + 1) * (pl * g)) * 1 > p * g) by (nonlinear_arith)
        requires
            p == n * pl,
            pl > 0,
            g > 0,
    ;
}

/// The sum or difference of `mh * 2^xh` and `ml * 2^xl`, where the exponents
/// are far apart: the smaller number is less than an eighth of a spacing of
/// the larger, and only tells on which side of it the result lies.
proof fn lemma_far_sum(mh: nat, xh: nat, ml: nat, xl: nat, same_sign: bool)
    requires
        xl + 60 < xh,
        ml < 2 * HIDDEN_BIT,
        mh >= HIDDEN_BIT,
    ensures
        ({
            let high = mh * pow2(xh);
            let low = ml * pow2(xl);
            let n = if same_sign || ml == 0 { 8 * mh } else { (8 * mh - 1) as nat };
            let k = (xh - 3 + 1100) as nat;
            let x = Exact::Ratio { p: if same_sign { high + low } else { (high - low) as nat }, q: 1 };
            &&& low < high
            &&& n >= pow2(54)
            &&& x.at_least(n * pow2(k), 1100)
            &&& (ml == 0 <==> x.at_most(n * pow2(k), 1100))
            &&& !x.at_least((n + 1) * pow2(k), 1100)
        }),
{
    let pl = pow2(xl);
    let step = pow2((xh - 3) as nat);
    let g = pow2(1100);
    let k = (xh - 3 + 1100) as nat;
    let high = mh * pow2(xh);
    let low = ml * pl;
    lemma2_to64();
    lemma2_to64_rest();
    lemma_pow2_adds(3, (xh - 3) as nat);
    lemma_pow2_adds((xh - 3) as nat, 1100);
    lemma_pow2_adds(53, xl);
    lemma_pow2_strictly_increases(53 + xl, (xh - 3) as nat);
    lemma_pow2_pos(xl);
    lemma_pow2_pos(1100);
    assert(low < step) by (nonlinear_arith)
        requires
            low == ml * pl,
            ml < 0x20_0000_0000_0000,
            0x20_0000_0000_0000 * pl < step,
    ;
    assert(high == (8 * mh) * step) by (nonlinear_arith)
        requires
            high == mh * (8 * step),
    ;
    assert(high >= step) by (nonlinear_arith)
        requires
            high == (8 * mh) * step,
            mh >= 1,
    ;
    let n = if same_sign || ml == 0 { 8 * mh } else { (8 * mh - 1) as nat };
    let p = if same_sign { high + low } else { (high - low) as nat };
    assert(low == 0 <==> ml == 0) by (nonlinear_arith)
        requires
            low == ml * pl,
            pl > 0,
    ;
    assert(n * step <= p < (n + 1) * step && (ml == 0 <==> p == n * step)) by (nonlinear_arith)
        requires
            high == (8 * mh) * step,
            low < step,
            low == 0 <==> ml == 0,
            mh >= 1,
            n == if same_sign || ml == 0 { 8 * mh } else { (8 * mh - 1) as nat },
            p == if same_sign { high + low } else { (high - low) as nat },
    ;
    assert((n * (step * g)) * 1 == (n * step) * g) by (nonlinear_arith);
    assert(((n + 1) * (step * g)) * 1 == ((n + 1) * step) * g) by (nonlinear_arith);
    assert((n * step) * g <= p * g < ((n + 1) * step) * g && (p == n * step <==> p * g == (n * step)
        * g)) by (nonlinear_arith)
        requires
            n * step <= p < (n + 1) * step,
            g > 0,
    ;
}

/// Only zero rounds to the encoding of zero.
proof fn lemma_rounds_zero(p: nat, bits: u64)
    requires
        rounds_to(bits, Exact::Ratio { p, q: 1 }),
    ensures
        bits == 0 <==> p == 0,
{
    lemma2_to64();
    lemma_magnitude_of_parts(0, 0);
    lemma_magnitude_of_parts(0, 1);
    assert(magnitude_of(0) == 0) by (nonlinear_arith)
        requires
            magnitude_of(0) == 0 * pow2(0),
    ;
    assert(magnitude_of(1) == 1) by (nonlinear_arith)
        requires
            magnitude_of(1) == 1 * pow2(0),
            pow2(0) == 1,
    ;
    if bits == 0 {
        // Twice the number is at most one unit, and the number is whole.
        assert(p * pow2(1) <= 1 * 1);
    } else if p == 0 {
        let before = (bits - 1) as u64;
        if before > 0 {
            lemma_magnitude_of_increases(0, before);
        }
        lemma_magnitude_of_increases(before, bits);
        let m = magnitude_of(before) + magnitude_of(bits);
        assert(m >= 1);
        assert(0 * pow2(1) >= m * 1);
    }
}

/// Powers of two do not decrease.
proof fn lemma_pow2_strictly_increases_or_equal(low: nat, high: nat)
    requires
        low <= high,
    ensures
        pow2(low) <= pow2(high),
{
    if low < high {
        lemma_pow2_strictly_increases(low, high);
    }
}

/// The square root of `m * 2^xe` units, where `m` lifted by `lift` bits, and by
/// one more if that makes the exponent even, is `radicand`, and `n` is the
/// whole part of the square root of `radicand * 2^58`.
proof fn lemma_root_bracket(m: nat, xe: nat, lift: nat, radicand: nat, half: nat, n: nat)
    requires
        lift <= 52,
        half == (xe + 1074 - lift) / 2,
        radicand == if (xe + 1074 - lift) % 2 == 1 { 2 * (m * pow2(lift)) } else { m * pow2(lift) },
        m * pow2(lift) >= HIDDEN_BIT,
        n * n <= radicand * 0x400_0000_0000_0000 < (n + 1) * (n + 1),
    ensures
        ({
            let x = Exact::Root { p: (m * pow2(xe)) * pow2(1074) };
            let k = half + 1071;
            &&& x.at_least(n * pow2(k), 1100)
            &&& !x.at_least((n + 1) * pow2(k), 1100)
            &&& (n * n == radicand * 0x400_0000_0000_0000 <==> x.at_most(n * pow2(k), 1100))
        }),
        n >= pow2(54),
{
    lemma2_to64_rest();
    lemma_root_scaling(m, xe, lift, radicand, half, n);
    lemma_root_scaling(m, xe, lift, radicand, half, n + 1);
    assert(n >= pow2(54)) by (nonlinear_arith)
        requires
            radicand * 0x400_0000_0000_0000 < (n + 1) * (n + 1),
            radicand >= 0x10_0000_0000_0000,
            pow2(54) == 0x40_0000_0000_0000,
    ;
}

/// The number `m * 2^xe` units, in 2^-1100 units squared, compares with the
/// square of `a * 2^k` as `radicand * 2^58` does with the square of `a`.
proof fn lemma_root_scaling(m: nat, xe: nat, lift: nat, radicand: nat, half: nat, a: nat)
    requires
        lift <= 52,
        half == (xe + 1074 - lift) / 2,
        radicand == if (xe + 1074 - lift) % 2 == 1 { 2 * (m * pow2(lift)) } else { m * pow2(lift) },
    ensures
        ({
            let number = ((m * pow2(xe)) * pow2(1074)) * (pow2(1100) * pow2(1100));
            let square = (a * pow2(half + 1071)) * (a * pow2(half + 1071));
            &&& number >= square <==> radicand * 0x400_0000_0000_0000 >= a * a
            &&& number <= square <==> radicand * 0x400_0000_0000_0000 <= a * a
        }),
{
    let k = half + 1071;
    let e = (xe + 1074 - lift) as nat;
    let number = scaled(scaled(scaled(m, xe), 1074), 2200);
    let square = scaled(a, k) * scaled(a, k);
    let inner = scaled(radicand, 58);
    lemma2_to64();
    lemma2_to64_rest();
    lemma_pow2_adds(1100, 1100);
    assert(pow2(58) == 0x400_0000_0000_0000);
    // The number as the significand scaled.
    lemma_scaled_twice(m, xe, 1074);
    lemma_scaled_twice(m, xe + 1074, 2200);
    lemma_scaled_twice(m, xe + 3274, lift);
    assert(scaled(number, lift) == scaled(m, xe + 3274 + lift));
    // The radicand likewise.
    if e % 2 == 1 {
        assert(radicand == scaled(scaled(m, lift), 1));
        lemma_scaled_twice(m, lift, 1);
        lemma_scaled_twice(m, lift + 1, 58);
        lemma_scaled_twice(m, lift + 59, 2 * k + lift);
        assert(lift + 59 + (2 * k + lift) == xe + 3274 + lift);
    } else {
        assert(radicand == scaled(m, lift));
        lemma_scaled_twice(m, lift, 58);
        lemma_scaled_twice(m, lift + 58, 2 * k + lift);
        assert(lift + 58 + (2 * k + lift) == xe + 3274 + lift);
    }
    assert(scaled(inner, 2 * k + lift) == scaled(number, lift));
    // The square of the end of a bracket.
    lemma_scaled_product(a, k, a, k);
    lemma_scaled_twice(a * a, 2 * k, lift);
    assert(scaled(square, lift) == scaled(a * a, 2 * k + lift));
    lemma_scaled_order(number, square, lift);
    lemma_scaled_order(square, number, lift);
    lemma_scaled_order(inner, a * a, 2 * k + lift);
    lemma_scaled_order(a * a, inner, 2 * k + lift);
}

} // verus!
