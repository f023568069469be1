//! Rounding an exact number to the nearest encoding.
//!
//! The result of an arithmetic operation on two binary64 numbers is seldom a
//! binary64 number itself. It is rounded to the nearest one, and where two are
//! equally near, to the one whose encoding is even. This module says what that
//! means for a non-negative exact result, proves that it fixes the encoding,
//! and rounds.

use vstd::prelude::*;
use vstd::arithmetic::power2::*;
use vstd::arithmetic::div_mod::{lemma_fundamental_div_mod, lemma_mod_bound};
use crate::dimension::{Dimension, HIDDEN_BIT, INFINITY_BITS};
use crate::exact::Exact;

verus! {

/// The magnitude that the encoding `bits`, a sign apart, stands for; the
/// encoding of infinity stands for 2^1024, one spacing above the largest
/// finite magnitude.
#[verifier::opaque]
pub open spec fn magnitude_of(bits: u64) -> nat {
    (Dimension { bits }).magnitude()
}

/// Whether `bits`, which has no sign, is the encoding nearest to `x`, the even
/// one of two that are equally near. The numbers that round to an encoding lie
/// between the midpoints to its two neighbours, and on a midpoint only if the
/// encoding is even.
pub open spec fn rounds_to(bits: u64, x: Exact) -> bool {
    &&& bits <= INFINITY_BITS
    &&& bits > 0 ==> {
        let twice_midpoint = magnitude_of((bits - 1) as u64) + magnitude_of(bits);
        x.at_least(twice_midpoint, 1) && (x.at_most(twice_midpoint, 1) ==> bits % 2 == 0)
    }
    &&& bits < INFINITY_BITS ==> {
        let twice_midpoint = magnitude_of(bits) + magnitude_of((bits + 1) as u64);
        x.at_most(twice_midpoint, 1) && (x.at_least(twice_midpoint, 1) ==> bits % 2 == 0)
    }
}

/// The encoding that `x` rounds to.
pub open spec fn nearest(x: Exact) -> u64 {
    choose|bits: u64| rounds_to(bits, x)
}

/// Among encodings without a sign, a larger one stands for a larger magnitude.
pub proof fn lemma_magnitude_of_increases(low: u64, high: u64)
    requires
        low < high <= INFINITY_BITS,
    ensures
        magnitude_of(low) < magnitude_of(high),
{
    reveal(magnitude_of);
    Dimension::lemma_magnitude_increases(Dimension { bits: low }, Dimension { bits: high });
}

/// A number rounds to one encoding only.
pub proof fn lemma_rounding_is_unique(x: Exact, first: u64, second: u64)
    requires
        x.valid(),
        rounds_to(first, x),
        rounds_to(second, x),
    ensures
        first == second,
{
    let low = if first < second { first } else { second };
    let high = if first < second { second } else { first };
    if low + 1 < high {
        let above_low = magnitude_of(low) + magnitude_of((low + 1) as u64);
        let below_high = magnitude_of((high - 1) as u64) + magnitude_of(high);
        lemma_pow2_pos(1);
        lemma_magnitude_of_increases(low, (high - 1) as u64);
        lemma_magnitude_of_increases((low + 1) as u64, high);
        assert(above_low * pow2(1) < below_high * pow2(1)) by (nonlinear_arith)
            requires
                above_low < below_high,
                pow2(1) > 0,
        ;
        x.lemma_below_rescaled(above_low, 1, below_high, 1);
    }
}

/// The encoding to which a number rounds is as near to it as any other: the
/// number lies on its side of the midpoint between the two.
pub proof fn lemma_rounding_is_nearest(x: Exact, bits: u64, other: u64)
    requires
        x.valid(),
        rounds_to(bits, x),
        other <= INFINITY_BITS,
    ensures
        other < bits ==> x.at_least(magnitude_of(other) + magnitude_of(bits), 1),
        other > bits ==> x.at_most(magnitude_of(bits) + magnitude_of(other), 1),
{
    let here = magnitude_of(bits);
    let there = magnitude_of(other);
    if other < bits {
        let before = (bits - 1) as u64;
        if other < before {
            lemma_magnitude_of_increases(other, before);
        }
        let m = magnitude_of(before) + here;
        assert((there + here) * pow2(1) <= m * pow2(1)) by (nonlinear_arith)
            requires
                there + here <= m,
        ;
        x.lemma_at_least_rescaled(m, 1, there + here, 1);
    } else if other > bits {
        let after = (bits + 1) as u64;
        if after < other {
            lemma_magnitude_of_increases(after, other);
        }
        let m = here + magnitude_of(after);
        assert(m * pow2(1) <= (here + there) * pow2(1)) by (nonlinear_arith)
            requires
                m <= here + there,
        ;
        x.lemma_at_most_rescaled(m, 1, here + there, 1);
    }
}

/// A number that has an encoding rounds to it: such a result is not changed.
pub proof fn lemma_exact_is_kept(x: Exact, bits: u64)
    requires
        x.valid(),
        bits < INFINITY_BITS,
        x.at_least(magnitude_of(bits), 0),
        x.at_most(magnitude_of(bits), 0),
    ensures
        rounds_to(bits, x),
{
    let here = magnitude_of(bits);
    lemma2_to64();
    if bits > 0 {
        let before = (bits - 1) as u64;
        lemma_magnitude_of_increases(before, bits);
        let m = magnitude_of(before) + here;
        assert(m * pow2(0) < here * pow2(1)) by (nonlinear_arith)
            requires
                m < 2 * here,
                pow2(0) == 1,
                pow2(1) == 2,
        ;
        x.lemma_at_least_rescaled(here, 0, m, 1);
        x.lemma_above_rescaled(here, 0, m, 1);
    }
    let after = (bits + 1) as u64;
    lemma_magnitude_of_increases(bits, after);
    let m = here + magnitude_of(after);
    assert(here * pow2(1) < m * pow2(0)) by (nonlinear_arith)
        requires
            2 * here < m,
            pow2(0) == 1,
            pow2(1) == 2,
    ;
    x.lemma_at_most_rescaled(here, 0, m, 1);
    x.lemma_below_rescaled(here, 0, m, 1);
}

/// What rounds to an encoding is what `nearest` gives.
pub proof fn lemma_nearest(x: Exact, bits: u64)
    requires
        x.valid(),
        rounds_to(bits, x),
    ensures
        nearest(x) == bits,
{
    lemma_rounding_is_unique(x, bits, nearest(x));
}

/// The encoding with exponent `j` above the lowest and significand `keep`
/// stands for `keep * 2^j` units. A significand of 2^53 carries into the
/// exponent.
pub proof fn lemma_magnitude_of_parts(j: nat, keep: nat)
    requires
        j <= 2046,
        keep <= 2 * HIDDEN_BIT,
        j >= 1 ==> keep >= HIDDEN_BIT,
        j == 2046 ==> keep < 2 * HIDDEN_BIT,
    ensures
        j * HIDDEN_BIT + keep <= INFINITY_BITS + HIDDEN_BIT,
        magnitude_of((j * HIDDEN_BIT + keep) as u64) == keep * pow2(j),
{
    let bits = (j * HIDDEN_BIT + keep) as u64;
    let d = Dimension { bits };
    reveal(magnitude_of);
    lemma2_to64();
    if keep < HIDDEN_BIT {
        assert(d.exponent_field() == 0);
        assert(d.fraction_field() == keep);
        assert(keep * pow2(0) == keep) by (nonlinear_arith)
            requires
                pow2(0) == 1,
        ;
    } else if keep < 2 * HIDDEN_BIT {
        assert(bits == (j + 1) * HIDDEN_BIT + (keep - HIDDEN_BIT));
        assert(d.exponent_field() == j + 1);
        assert(d.fraction_field() == keep - HIDDEN_BIT);
    } else {
        assert(bits == (j + 2) * HIDDEN_BIT);
        assert(d.exponent_field() == j + 2);
        assert(d.fraction_field() == 0);
        lemma_pow2_unfold(j + 1);
        let p = pow2(j);
        assert(HIDDEN_BIT * (2 * p) == (2 * HIDDEN_BIT) * p) by (nonlinear_arith);
    }
}

/// A number from `keep * 2^j` up to the midpoint to `(keep + 1) * 2^j`, and on
/// the midpoint only if `keep` is even, rounds to the encoding of the former.
proof fn lemma_rounds_down(x: Exact, j: nat, keep: nat)
    requires
        x.valid(),
        j <= 2045,
        keep < 2 * HIDDEN_BIT,
        j >= 1 ==> keep >= HIDDEN_BIT,
        x.at_least(keep * pow2(j), 0),
        x.at_most((2 * keep + 1) * pow2(j), 1),
        x.at_least((2 * keep + 1) * pow2(j), 1) ==> keep % 2 == 0,
    ensures
        j * HIDDEN_BIT + keep < INFINITY_BITS,
        rounds_to((j * HIDDEN_BIT + keep) as u64, x),
{
    let p = pow2(j);
    let low = (j * HIDDEN_BIT + keep) as u64;
    let a = keep * p;
    let b = (keep + 1) * p;
    lemma2_to64();
    lemma_magnitude_of_parts(j, keep);
    lemma_magnitude_of_parts(j, keep + 1);
    assert(a + b == (2 * keep + 1) * p) by (nonlinear_arith)
        requires
            a == keep * p,
            b == (keep + 1) * p,
    ;
    assert(magnitude_of(low) + magnitude_of((low + 1) as u64) == (2 * keep + 1) * p);
    if low > 0 {
        let before = (low - 1) as u64;
        lemma_magnitude_of_increases(before, low);
        let m = magnitude_of(before) + a;
        assert(m * pow2(0) < a * pow2(1)) by (nonlinear_arith)
            requires
                m < 2 * a,
                pow2(0) == 1,
                pow2(1) == 2,
        ;
        x.lemma_at_least_rescaled(a, 0, m, 1);
        x.lemma_above_rescaled(a, 0, m, 1);
    }
}

/// A number from the midpoint between `keep * 2^j` and `(keep + 1) * 2^j` up
/// to, but not at, the latter, and on the midpoint only if `keep` is odd,
/// rounds to the encoding of the latter.
proof fn lemma_rounds_up(x: Exact, j: nat, keep: nat)
    requires
        x.valid(),
        j <= 2045,
        keep < 2 * HIDDEN_BIT,
        j >= 1 ==> keep >= HIDDEN_BIT,
        !x.at_least((keep + 1) * pow2(j), 0),
        x.at_least((2 * keep + 1) * pow2(j), 1),
        x.at_most((2 * keep + 1) * pow2(j), 1) ==> keep % 2 == 1,
    ensures
        j * HIDDEN_BIT + keep < INFINITY_BITS,
        rounds_to((j * HIDDEN_BIT + keep + 1) as u64, x),
{
    let p = pow2(j);
    let low = (j * HIDDEN_BIT + keep) as u64;
    let high = (low + 1) as u64;
    let a = keep * p;
    let b = (keep + 1) * p;
    lemma2_to64();
    lemma_magnitude_of_parts(j, keep);
    lemma_magnitude_of_parts(j, keep + 1);
    assert(a + b == (2 * keep + 1) * p) by (nonlinear_arith)
        requires
            a == keep * p,
            b == (keep + 1) * p,
    ;
    assert(magnitude_of(low) + magnitude_of(high) == (2 * keep + 1) * p);
    if high < INFINITY_BITS {
        let after = (high + 1) as u64;
        lemma_magnitude_of_increases(high, after);
        let m = b + magnitude_of(after);
        assert(b * pow2(1) < m * pow2(0)) by (nonlinear_arith)
            requires
                2 * b < m,
                pow2(0) == 1,
                pow2(1) == 2,
        ;
        assert(x.at_most(b, 0));
        x.lemma_at_most_rescaled(b, 0, m, 1);
        x.lemma_below_rescaled(b, 0, m, 1);
    }
}

/// Whether a number in the bracket from `w` up to `w + 1`, counted in steps
/// of which 2^d make a spacing, rounds up: `exact` says that it is `w`.
pub open spec fn rounds_up(w: nat, d: nat, exact: bool) -> bool {
    d >= 1 && {
        let rest = w % pow2(d);
        let half = pow2((d - 1) as nat);
        rest > half || (rest == half && (!exact || (w / pow2(d)) % 2 == 1))
    }
}

/// Rounding a number known by a bracket: it lies from `w * 2^j / 2^d` up to,
/// but not at, `(w + 1) * 2^j / 2^d`, and on the lower end if and only if
/// `exact`. The leading `w / 2^d` is kept as the significand at exponent `j`,
/// and the rest decides whether the encoding is raised by one.
pub proof fn lemma_round_decision(x: Exact, j: nat, w: nat, d: nat, exact: bool)
    requires
        x.valid(),
        j <= 2045,
        x.at_least(w * pow2(j), d),
        !x.at_least((w + 1) * pow2(j), d),
        exact <==> x.at_most(w * pow2(j), d),
        d == 0 ==> exact,
        w / pow2(d) < 2 * HIDDEN_BIT,
        j >= 1 ==> w / pow2(d) >= HIDDEN_BIT,
    ensures
        j * HIDDEN_BIT + w / pow2(d) + 1 <= INFINITY_BITS,
        rounds_to(
            (j * HIDDEN_BIT + w / pow2(d) + if rounds_up(w, d, exact) { 1nat } else { 0nat }) as u64,
            x,
        ),
{
    let p = pow2(j);
    let dd = pow2(d);
    let keep = w / dd;
    let rest = w % dd;
    let up = rounds_up(w, d, exact);
    let m2 = (2 * keep + 1) * p;
    lemma2_to64();
    lemma_pow2_pos(d);
    lemma_pow2_pos(j);
    lemma_fundamental_div_mod(w as int, dd as int);
    lemma_mod_bound(w as int, dd as int);
    assert(w == dd * keep + rest);
    // The bracket encloses the two encodings.
    assert((keep * p) * dd <= (w * p) * pow2(0)) by (nonlinear_arith)
        requires
            w == dd * keep + rest,
            pow2(0) == 1,
    ;
    x.lemma_at_least_rescaled(w * p, d, keep * p, 0);
    assert(((w + 1) * p) * pow2(0) <= ((keep + 1) * p) * dd) by (nonlinear_arith)
        requires
            w == dd * keep + rest,
            rest < dd,
            pow2(0) == 1,
    ;
    if x.at_least((keep + 1) * p, 0) {
        x.lemma_at_least_rescaled((keep + 1) * p, 0, (w + 1) * p, d);
    }
    // Where the number lies with respect to the midpoint.
    if d == 0 {
        assert(keep == w && rest == 0) by (nonlinear_arith)
            requires
                w == dd * keep + rest,
                rest < dd,
                dd == 1,
        ;
        assert((w * p) * pow2(1) < m2 * pow2(0)) by (nonlinear_arith)
            requires
                m2 == (2 * w + 1) * p,
                p > 0,
                pow2(0) == 1,
                pow2(1) == 2,
        ;
        x.lemma_below_rescaled(w * p, 0, m2, 1);
    } else {
        let half = pow2((d - 1) as nat);
        lemma_pow2_unfold(d);
        assert(dd == 2 * half);
        if rest > half {
            assert(m2 * dd < (w * p) * pow2(1)) by (nonlinear_arith)
                requires
                    m2 == (2 * keep + 1) * p,
                    w == dd * keep + rest,
                    dd == 2 * half,
                    rest > half,
                    p > 0,
                    pow2(1) == 2,
            ;
            x.lemma_above_rescaled(w * p, d, m2, 1);
        } else if rest < half {
            assert(((w + 1) * p) * pow2(1) <= m2 * dd) by (nonlinear_arith)
                requires
                    m2 == (2 * keep + 1) * p,
                    w == dd * keep + rest,
                    dd == 2 * half,
                    rest < half,
                    p > 0,
                    pow2(1) == 2,
            ;
            if x.at_least(m2, 1) {
                x.lemma_at_least_rescaled(m2, 1, (w + 1) * p, d);
            }
        } else {
            assert(m2 * dd == (w * p) * pow2(1)) by (nonlinear_arith)
                requires
                    m2 == (2 * keep + 1) * p,
                    w == dd * keep + rest,
                    dd == 2 * half,
                    rest == half,
                    pow2(1) == 2,
            ;
            x.lemma_at_least_rescaled(w * p, d, m2, 1);
            if exact {
                x.lemma_at_most_rescaled(w * p, d, m2, 1);
            } else if x.at_most(m2, 1) {
                x.lemma_at_most_rescaled(m2, 1, w * p, d);
            }
        }
    }
    if up {
        lemma_rounds_up(x, j, keep);
    } else {
        lemma_rounds_down(x, j, keep);
    }
}

/// 2^128, one above the largest value of the widest integer used here.
proof fn lemma_pow2_128()
    ensures
        pow2(128) == 0x1_0000_0000_0000_0000 * 0x1_0000_0000_0000_0000,
{
    lemma2_to64();
    lemma_pow2_adds(64, 64);
}

/// `2^e`.
pub(crate) fn power_of_two(e: u32) -> (r: u128)
    requires
        e < 128,
    ensures
        r == pow2(e as nat),
{
    let mut r: u128 = 1;
    let mut i: u32 = 0;
    proof {
        lemma2_to64();
    }
    while i < e
        invariant
            i <= e,
            e < 128,
            r == pow2(i as nat),
        decreases e - i,
    {
        proof {
            lemma_pow2_unfold((i + 1) as nat);
            lemma_pow2_128();
            lemma_pow2_strictly_increases((i + 1) as nat, 128);
        }
        r = r * 2;
        i = i + 1;
    }
    r
}

/// The number of bits of `n`: the least `l` with `n < 2^l`.
pub(crate) fn bit_length(n: u128) -> (l: u32)
    ensures
        l <= 128,
        n < pow2(l as nat),
        l > 0 ==> n >= pow2((l - 1) as nat),
{
    let mut l: u32 = 0;
    let mut p: u128 = 1;
    proof {
        lemma2_to64();
        lemma_pow2_128();
    }
    while l < 128 && p <= n
        invariant
            l <= 128,
            l < 128 ==> p == pow2(l as nat),
            l > 0 ==> n >= pow2((l - 1) as nat),
        ensures
            l == 128 || n < pow2(l as nat),
        decreases 128 - l,
    {
        l = l + 1;
        if l < 128 {
            proof {
                lemma_pow2_unfold(l as nat);
                lemma_pow2_128();
                lemma_pow2_strictly_increases(l as nat, 128);
            }
            p = p * 2;
        }
    }
    proof {
        lemma_pow2_128();
    }
    l
}

/// The scale at which a result is handed to `round`: it counts 2^-1100 units,
/// fine enough for every quotient and square root of two numbers.
pub const GUARD: u32 = 1100;

/// The leading part of `n` above its lowest `drop` bits, and whether the part
/// dropped raises it.
fn split(n: u128, drop: u32, exact: bool) -> (r: (u128, bool))
    ensures
        r.0 == n as nat / pow2(drop as nat),
        r.1 == rounds_up(n as nat, drop as nat, exact),
{
    proof {
        lemma2_to64();
        lemma_pow2_128();
        lemma_pow2_pos(drop as nat);
        lemma_fundamental_div_mod(n as int, pow2(drop as nat) as int);
        lemma_mod_bound(n as int, pow2(drop as nat) as int);
    }
    if drop == 0 {
        proof {
            let dd = pow2(drop as nat);
            assert(n as nat / dd == n) by (nonlinear_arith)
                requires
                    dd == 1,
            ;
        }
        (n, false)
    } else if drop >= 128 {
        proof {
            let dd = pow2(drop as nat);
            if drop > 129 {
                lemma_pow2_strictly_increases(128, (drop - 1) as nat);
            }
            if drop > 128 {
                lemma_pow2_strictly_increases(128, drop as nat);
            }
            let q = n as nat / dd;
            let rest = n as nat % dd;
            assert(q == 0 && rest == n) by (nonlinear_arith)
                requires
                    n == dd * q + rest,
                    n < dd,
            ;
        }
        if drop == 128 {
            proof {
                lemma_pow2_unfold(128);
            }
            let half: u128 = 0x8000_0000_0000_0000_0000_0000_0000_0000;
            (0, n > half || (n == half && !exact))
        } else {
            (0, false)
        }
    } else {
        let whole = power_of_two(drop);
        let half = power_of_two(drop - 1);
        let keep = n / whole;
        let rest = n % whole;
        (keep, rest > half || (rest == half && (!exact || keep % 2 == 1)))
    }
}

/// Rounds a number known by a bracket to its nearest encoding. The number
/// lies from `n * 2^scale` up to, but not at, `(n + 1) * 2^scale`, counted in
/// 2^-1100 units, and on the lower end if and only if `exact`. Unless it is
/// exact, `n` must have 55 bits at least, so that the bits that decide the
/// rounding are among them.
pub(crate) fn round(n: u128, exact: bool, scale: u32, Ghost(x): Ghost<Exact>) -> (bits: u64)
    requires
        x.valid(),
        scale <= 0x1000_0000,
        x.at_least(n as nat * pow2(scale as nat), GUARD as nat),
        !x.at_least((n as nat + 1) * pow2(scale as nat), GUARD as nat),
        exact <==> x.at_most(n as nat * pow2(scale as nat), GUARD as nat),
        !exact ==> n >= pow2(54),
    ensures
        rounds_to(bits, x),
{
    let ghost k = scale as nat;
    proof {
        lemma2_to64();
        lemma2_to64_rest();
    }
    if n == 0 {
        proof {
            lemma_pow2_pos(1100);
            assert(n * pow2(k) == 0) by (nonlinear_arith)
                requires
                    n == 0,
            ;
            assert(0 * pow2(0) <= 0 * pow2(1100)) by (nonlinear_arith);
            assert(0 * pow2(0) < 1 * pow2(1100)) by (nonlinear_arith)
                requires
                    pow2(1100) > 0,
            ;
            x.lemma_at_most_rescaled(0, 1100, 0, 0);
            x.lemma_below_rescaled(0, 1100, 1, 0);
            assert(0nat / pow2(0) == 0);
            assert(0 * pow2(0) == 0) by (nonlinear_arith);
            assert((0 + 1) * pow2(0) == 1) by (nonlinear_arith)
                requires
                    pow2(0) == 1,
            ;
            assert(x.at_least(0, 0));
            lemma_round_decision(x, 0, 0, 0, true);
        }
        return 0;
    }
    let length = bit_length(n);
    let top: u32 = length - 1 + scale;
    let j: u32 = if top >= 1152 {
        top - 1152
    } else {
        0
    };
    proof {
        lemma_pow2_adds((length - 1) as nat, k);
        lemma_pow2_adds(length as nat, k);
    }
    if j >= 2046 {
        proof {
            assert(n as nat * pow2(k) >= pow2((length - 1) as nat) * pow2(k)) by (nonlinear_arith)
                requires
                    n >= pow2((length - 1) as nat),
            ;
            lemma_rounds_to_infinity(x, n as nat, k, top as nat);
        }
        return INFINITY_BITS;
    }
    if j + 1100 >= scale {
        let drop: u32 = j + 1100 - scale;
        let (keep, up) = split(n, drop, exact);
        proof {
            lemma_bracket_dropped(x, n as nat, k, j as nat, drop as nat, exact);
            lemma_kept_bounds(n as nat, length as nat, j as nat, drop as nat, k);
            lemma_round_decision(x, j as nat, n as nat, drop as nat, exact);
        }
        (j as u64) * HIDDEN_BIT + (keep as u64) + (if up {
            1
        } else {
            0
        })
    } else {
        let lift: u32 = scale - (j + 1100);
        proof {
            lemma_lifted_bounds(n as nat, length as nat, j as nat, lift as nat, k);
        }
        let keep = n * power_of_two(lift);
        proof {
            lemma_bracket_lifted(x, n as nat, k, j as nat, lift as nat, exact);
            assert(keep as nat / pow2(0) == keep);
            lemma_round_decision(x, j as nat, keep as nat, 0, true);
        }
        (j as u64) * HIDDEN_BIT + (keep as u64)
    }
}

/// A number of 2^1024 at least, which is 2^2098 units, rounds to infinity.
proof fn lemma_rounds_to_infinity(x: Exact, n: nat, k: nat, top: nat)
    requires
        x.valid(),
        x.at_least(n * pow2(k), 1100),
        n * pow2(k) >= pow2(top),
        top >= 2046 + 1152,
    ensures
        rounds_to(INFINITY_BITS, x),
{
    lemma2_to64();
    lemma2_to64_rest();
    let before = (INFINITY_BITS - 1) as u64;
    lemma_magnitude_of_increases(before, INFINITY_BITS);
    lemma_magnitude_of_parts(2046, HIDDEN_BIT as nat);
    assert(2046 * HIDDEN_BIT + HIDDEN_BIT == INFINITY_BITS);
    lemma_pow2_adds(52, 2046);
    let m = magnitude_of(before) + magnitude_of(INFINITY_BITS);
    assert(magnitude_of(INFINITY_BITS) == pow2(2098));
    lemma_pow2_adds(2098, 1100);
    if top > 3198 {
        lemma_pow2_strictly_increases(3198, top);
    }
    assert(m * pow2(1100) <= (n * pow2(k)) * pow2(1)) by (nonlinear_arith)
        requires
            m < 2 * pow2(2098),
            pow2(3198) == pow2(2098) * pow2(1100),
            n * pow2(k) >= pow2(3198),
            pow2(1) == 2,
    ;
    x.lemma_at_least_rescaled(n * pow2(k), 1100, m, 1);
}

/// The bracket of `round`, counted in steps of which 2^drop make a spacing.
proof fn lemma_bracket_dropped(x: Exact, n: nat, k: nat, j: nat, drop: nat, exact: bool)
    requires
        x.valid(),
        j + 1100 == drop + k,
        x.at_least(n * pow2(k), 1100),
        !x.at_least((n + 1) * pow2(k), 1100),
        exact <==> x.at_most(n * pow2(k), 1100),
    ensures
        x.at_least(n * pow2(j), drop),
        !x.at_least((n + 1) * pow2(j), drop),
        exact <==> x.at_most(n * pow2(j), drop),
{
    lemma_pow2_adds(j, 1100);
    lemma_pow2_adds(drop, k);
    let pj = pow2(j);
    let pk = pow2(k);
    let pd = pow2(drop);
    let pg = pow2(1100);
    assert((n * pj) * pg == (n * pk) * pd) by (nonlinear_arith)
        requires
            pj * pg == pd * pk,
    ;
    assert(((n + 1) * pj) * pg == ((n + 1) * pk) * pd) by (nonlinear_arith)
        requires
            pj * pg == pd * pk,
    ;
    x.lemma_at_least_rescaled(n * pk, 1100, n * pj, drop);
    if x.at_least((n + 1) * pj, drop) {
        x.lemma_at_least_rescaled((n + 1) * pj, drop, (n + 1) * pk, 1100);
    }
    if x.at_most(n * pk, 1100) {
        x.lemma_at_most_rescaled(n * pk, 1100, n * pj, drop);
    }
    if x.at_most(n * pj, drop) {
        x.lemma_at_most_rescaled(n * pj, drop, n * pk, 1100);
    }
}

/// The bracket of `round` where the number is a whole count of spacings.
proof fn lemma_bracket_lifted(x: Exact, n: nat, k: nat, j: nat, lift: nat, exact: bool)
    requires
        x.valid(),
        k == j + 1100 + lift,
        exact,
        x.at_least(n * pow2(k), 1100),
        x.at_most(n * pow2(k), 1100),
    ensures
        x.at_least((n * pow2(lift)) * pow2(j), 0),
        !x.at_least((n * pow2(lift) + 1) * pow2(j), 0),
        x.at_most((n * pow2(lift)) * pow2(j), 0),
{
    lemma2_to64();
    lemma_pow2_adds(j + 1100, lift);
    lemma_pow2_adds(j, 1100);
    lemma_pow2_pos(j);
    let pj = pow2(j);
    let pk = pow2(k);
    let pl = pow2(lift);
    let pg = pow2(1100);
    let w = n * pl;
    assert((w * pj) * pg == (n * pk) * pow2(0)) by (nonlinear_arith)
        requires
            w == n * pl,
            pk == (pj * pg) * pl,
            pow2(0) == 1,
    ;
    x.lemma_at_least_rescaled(n * pk, 1100, w * pj, 0);
    x.lemma_at_most_rescaled(n * pk, 1100, w * pj, 0);
    assert((w * pj) * pow2(0) < ((w + 1) * pj) * pow2(0)) by (nonlinear_arith)
        requires
            pj > 0,
            pow2(0) == 1,
    ;
    x.lemma_below_rescaled(w * pj, 0, (w + 1) * pj, 0);
}

/// What is kept of `n` has 53 bits where the exponent is above the lowest,
/// and at most 53 bits where it is the lowest.
proof fn lemma_kept_bounds(n: nat, length: nat, j: nat, drop: nat, k: nat)
    requires
        length >= 1,
        pow2((length - 1) as nat) <= n < pow2(length),
        j + 1100 == drop + k,
        j == if length - 1 + k >= 1152 { length - 1 + k - 1152 } else { 0 },
    ensures
        n / pow2(drop) < 2 * HIDDEN_BIT,
        j >= 1 ==> n / pow2(drop) >= HIDDEN_BIT,
{
    lemma2_to64_rest();
    let dd = pow2(drop);
    let keep = n / dd;
    let rest = n % dd;
    lemma_pow2_pos(drop);
    lemma_fundamental_div_mod(n as int, dd as int);
    lemma_mod_bound(n as int, dd as int);
    if j >= 1 {
        assert(length == drop + 53);
        lemma_pow2_adds(53, drop);
        lemma_pow2_adds(52, drop);
        assert(keep < 2 * HIDDEN_BIT) by (nonlinear_arith)
            requires
                n == dd * keep + rest,
                n < (2 * HIDDEN_BIT) * dd,
                dd > 0,
        ;
        assert(keep >= HIDDEN_BIT) by (nonlinear_arith)
            requires
                n == dd * keep + rest,
                rest < dd,
                n >= HIDDEN_BIT * dd,
                dd > 0,
        ;
    } else {
        assert(length <= drop + 53);
        if length < drop + 53 {
            lemma_pow2_strictly_increases(length, drop + 53);
        }
        lemma_pow2_adds(53, drop);
        assert(keep < 2 * HIDDEN_BIT) by (nonlinear_arith)
            requires
                n == dd * keep + rest,
                n < (2 * HIDDEN_BIT) * dd,
                dd > 0,
        ;
    }
}

/// A number that must be lifted to reach the spacing has few bits, and
/// lifted it has 53 bits where the exponent is above the lowest, and at most
/// 53 bits where it is the lowest.
proof fn lemma_lifted_bounds(n: nat, length: nat, j: nat, lift: nat, k: nat)
    requires
        length >= 1,
        pow2((length - 1) as nat) <= n < pow2(length),
        k == j + 1100 + lift,
        lift >= 1,
        j == if length - 1 + k >= 1152 { length - 1 + k - 1152 } else { 0 },
    ensures
        lift <= 52,
        n < pow2(54),
        n * pow2(lift) < 2 * HIDDEN_BIT,
        j >= 1 ==> n * pow2(lift) >= HIDDEN_BIT,
{
    lemma2_to64_rest();
    let pl = pow2(lift);
    lemma_pow2_pos(lift);
    assert(length + lift <= 53);
    lemma_pow2_strictly_increases(length, 54);
    lemma_pow2_adds(length, lift);
    if length + lift < 53 {
        lemma_pow2_strictly_increases(length + lift, 53);
    }
    assert(n * pl < pow2(length) * pl) by (nonlinear_arith)
        requires
            n < pow2(length),
            pl > 0,
    ;
    if j >= 1 {
        assert(length + lift == 53);
        lemma_pow2_adds((length - 1) as nat, lift);
        assert(n * pl >= pow2((length - 1) as nat) * pl) by (nonlinear_arith)
            requires
                n >= pow2((length - 1) as nat),
                pl > 0,
        ;
    }
}

} // verus!
