//! Writing a number with the fewest digits that tell it apart.
//!
//! Around every finite number lies a window of the numbers that are nearer to
//! it than to any other binary64 number. What is written is the number of the
//! window with the fewest digits, and of several such the one nearest to the
//! number itself.

use vstd::prelude::*;
use vstd::string::*;
use vstd::arithmetic::power2::*;
use vstd::arithmetic::div_mod::{
    lemma_fundamental_div_mod, lemma_fundamental_div_mod_converse, lemma_mod_bound, lemma_small_mod,
};
use crate::decimal::{
    cleared, extended, is_below, is_digits, lemma_pow10_increases, lemma_pow10_positive,
    lemma_value_bound, lowest, plus, pow10, power_of_ten, raise, scaled_digits, times_small, value,
};
use crate::dimension::{Dimension, HIDDEN_BIT, INFINITY_BITS, SIGN_BIT};
use crate::writing::{
    decimal_text, lemma_value_part, padded_text, sign_text, write_places, write_whole,
};

verus! {

/// Whether `n` is a whole multiple of `10^p`: its lowest `p` digits are zeros.
pub open spec fn on_grid(n: nat, p: nat) -> bool {
    n % pow10(p) == 0
}

/// The nearest multiple of `10^p` that is not above `v`.
pub open spec fn floor_at(v: nat, p: nat) -> nat {
    (v - v % pow10(p)) as nat
}

/// The nearest multiple of `10^p` above `v`.
pub open spec fn ceil_at(v: nat, p: nat) -> nat {
    floor_at(v, p) + pow10(p)
}

/// The numbers from `low` to `high` around `middle`, with the two ends or
/// without.
pub struct Window {
    pub low: nat,
    pub middle: nat,
    pub high: nat,
    pub closed: bool,
}

impl Window {
    /// Whether the middle lies within, and zero does not.
    pub open spec fn valid(self) -> bool {
        0 < self.low < self.middle < self.high
    }

    /// Whether `n` lies in the window.
    pub open spec fn holds(self, n: nat) -> bool {
        if self.closed {
            self.low <= n <= self.high
        } else {
            self.low < n < self.high
        }
    }

    /// How far `n` lies from the middle.
    pub open spec fn distance(self, n: nat) -> nat {
        if n >= self.middle {
            (n - self.middle) as nat
        } else {
            (self.middle - n) as nat
        }
    }

    /// Whether `n` is what is written for the window, with its last digit at
    /// place `p`: `n` lies in the window and is a multiple of `10^p`; no
    /// number in the window is a multiple of a higher power of ten; and of
    /// the multiples of `10^p` in the window none is nearer to the middle,
    /// and none as near is larger.
    pub open spec fn writes(self, n: nat, p: nat) -> bool {
        &&& on_grid(n, p)
        &&& self.holds(n)
        &&& forall|k: nat, q: nat| q > p && self.holds(k) ==> !#[trigger] on_grid(k, q)
        &&& forall|k: nat| #[trigger]
            on_grid(k, p) && self.holds(k) ==> self.distance(n) < self.distance(k) || (
            self.distance(n) == self.distance(k) && n >= k)
    }

    /// One number only is written for a window.
    pub proof fn lemma_writes_is_unique(self, n: nat, p: nat, m: nat, q: nat)
        requires
            self.writes(n, p),
            self.writes(m, q),
        ensures
            n == m,
            p == q,
    {
        assert(on_grid(n, p));
        assert(on_grid(m, q));
    }
}

/// The multiples of `10^p` next to `v`: none lies between the one below and
/// the one above.
pub proof fn lemma_grid_neighbours(v: nat, k: nat, p: nat)
    requires
        on_grid(k, p),
    ensures
        k <= v ==> k <= floor_at(v, p),
        k > v ==> k >= ceil_at(v, p),
        on_grid(floor_at(v, p), p),
        on_grid(ceil_at(v, p), p),
        floor_at(v, p) <= v < ceil_at(v, p),
{
    let d = pow10(p);
    lemma_pow10_positive(p);
    lemma_fundamental_div_mod(v as int, d as int);
    lemma_fundamental_div_mod(k as int, d as int);
    lemma_mod_bound(v as int, d as int);
    let a = k / d;
    let b = v / d;
    let r = v % d;
    assert((k <= v ==> a <= b) && (k > v ==> a >= b + 1)) by (nonlinear_arith)
        requires
            k == d * a,
            v == d * b + r,
            0 <= r < d,
    ;
    assert((a <= b ==> d * a <= d * b) && (a >= b + 1 ==> d * a >= d * b + d)) by (nonlinear_arith)
        requires
            d > 0,
    ;
    assert(d * b == b * d && d * b + d == (b + 1) * d) by (nonlinear_arith);
    lemma_fundamental_div_mod_converse((d * b) as int, d as int, b as int, 0);
    lemma_fundamental_div_mod_converse((d * b + d) as int, d as int, (b + 1) as int, 0);
}

/// How many digits after the decimal point the window of a finite number
/// is counted in.
pub open spec fn places(d: Dimension) -> nat {
    if d.lift() < 1076 {
        (1076 - d.lift()) as nat
    } else {
        0
    }
}

/// A quarter of the spacing of the numbers around a finite number, times
/// ten to the power of `places`: a whole number.
pub open spec fn quarter(d: Dimension) -> nat {
    if d.lift() < 1076 {
        raise(5, (1076 - d.lift()) as nat)
    } else {
        raise(2, (d.lift() - 1076) as nat)
    }
}

/// The window of a finite number other than zero, its sign apart, times ten
/// to the power of `places`. The number is four quarters of a spacing times
/// its significand. Numbers up to half a spacing away are written like it;
/// below a number whose significand is 2^52, the least with the hidden bit,
/// only those up to a quarter of a spacing away, since under such a number
/// the others mostly lie twice as close. The ends belong to the window if
/// the significand is even or the exponent field zero.
pub open spec fn window(d: Dimension) -> Window {
    let m = d.significand();
    let below: nat = if m == HIDDEN_BIT {
        1
    } else {
        2
    };
    Window {
        low: ((4 * m - below) as nat) * quarter(d),
        middle: (4 * m) * quarter(d),
        high: (4 * m + 2) * quarter(d),
        closed: m < HIDDEN_BIT || m % 2 == 0,
    }
}

/// `raise(2, n)` is `2^n`.
proof fn lemma_raise_two(n: nat)
    ensures
        raise(2, n) == pow2(n),
    decreases n,
{
    if n == 0 {
        lemma2_to64();
    } else {
        lemma_raise_two((n - 1) as nat);
        lemma_pow2_unfold(n);
    }
}

/// `2^n * 5^n == 10^n`.
proof fn lemma_raise_ten(n: nat)
    ensures
        pow2(n) * raise(5, n) == pow10(n),
    decreases n,
{
    if n == 0 {
        lemma2_to64();
    } else {
        lemma_raise_ten((n - 1) as nat);
        lemma_pow2_unfold(n);
        let a = pow2((n - 1) as nat);
        let b = raise(5, (n - 1) as nat);
        assert((2 * a) * (5 * b) == 10 * (a * b)) by (nonlinear_arith);
    }
}

/// What the window of a finite number other than zero is: its middle is the
/// number itself, times ten to the power of `places`; its high end lies half
/// the spacing of the numbers above it; its low end lies as far below, or
/// half as far below a number whose fraction field is zero.
pub proof fn lemma_window_meaning(d: Dimension)
    requires
        d@ is Finite,
        !d.is_zero(),
    ensures
        window(d).valid(),
        ({
            let w = window(d);
            let scale = pow10(places(d));
            &&& w.middle * pow2(1074) == d.magnitude() * scale
            &&& 2 * ((w.high - w.middle) * pow2(1074)) == d.spacing() * scale
            &&& w.middle - w.low == if d.significand() == HIDDEN_BIT {
                (w.high - w.middle) / 2
            } else {
                w.high - w.middle
            }
        }),
{
    let m = d.significand();
    let x = d.lift();
    let q = quarter(d);
    let unit = pow2(1074);
    let px = pow2(x);
    let scale = pow10(places(d));
    lemma2_to64();
    lemma_pow2_adds(2, 1074);
    assert(d.magnitude() == m * px) by {
        if d.exponent_field() == 0 {
            assert(m * 1 == m) by (nonlinear_arith);
        }
    }
    assert(d.spacing() == px);
    // A quarter of the spacing, in units and scaled.
    assert(4 * (q * unit) == px * scale) by {
        if x < 1076 {
            let f = (1076 - x) as nat;
            lemma_raise_ten(f);
            lemma_pow2_adds(x, f);
            let pf = pow2(f);
            assert(4 * (q * unit) == px * (pf * q)) by (nonlinear_arith)
                requires
                    4 * unit == px * pf,
            ;
        } else {
            let g = (x - 1076) as nat;
            lemma_raise_two(g);
            lemma_pow2_adds(g, 1076);
            assert(4 * (q * unit) == px * 1) by (nonlinear_arith)
                requires
                    px == q * (4 * unit),
            ;
        }
    }
    let w = window(d);
    assert(w.middle * unit == (m * px) * scale) by (nonlinear_arith)
        requires
            w.middle == (4 * m) * q,
            4 * (q * unit) == px * scale,
    ;
    assert(m >= 1);
    let below: nat = if m == HIDDEN_BIT {
        1
    } else {
        2
    };
    assert(w.low == ((4 * m - below) as nat) * q);
    lemma_raise_positive(5, (1076 - x) as nat);
    lemma_raise_positive(2, (x - 1076) as nat);
    assert(w.high - w.middle == 2 * q && w.middle - w.low == below * q && 0 < w.low < w.middle
        < w.high) by (nonlinear_arith)
        requires
            w.low == ((4 * m - below) as nat) * q,
            w.middle == (4 * m) * q,
            w.high == (4 * m + 2) * q,
            m >= 1,
            1 <= below <= 2,
            q > 0,
    ;
    assert(below * q == if m == HIDDEN_BIT { (2 * q) / 2 } else { 2 * q }) by (nonlinear_arith)
        requires
            below == if m == HIDDEN_BIT { 1nat } else { 2nat },
    ;
    assert(2 * ((2 * q) * unit) == 4 * (q * unit)) by (nonlinear_arith);
}

/// The number that is written for a finite number other than zero, times
/// ten to the power of `places`, and the place of its last digit.
pub open spec fn written(d: Dimension) -> (nat, nat) {
    choose|n: nat, p: nat| window(d).writes(n, p)
}

/// A number written with the fewest digits that tell it apart: its sign, the
/// whole part of what is written for it and, if that has digits after the
/// decimal point, a point and those digits.
pub open spec fn plain_text(d: Dimension) -> Seq<char> {
    if d@ is NaN {
        "NaN"@
    } else if d@ is Infinite {
        sign_text(d) + "inf"@
    } else if d.is_zero() {
        sign_text(d) + "0"@
    } else {
        let (n, p) = written(d);
        let whole = sign_text(d) + decimal_text(n / pow10(places(d)));
        if p < places(d) {
            whole + seq!['.'] + padded_text(
                (n % pow10(places(d))) / pow10(p),
                (places(d) - p) as nat,
            )
        } else {
            whole
        }
    }
}

/// Powers are positive.
proof fn lemma_raise_positive(b: nat, n: nat)
    requires
        b > 0,
    ensures
        raise(b, n) > 0,
    decreases n,
{
    if n > 0 {
        lemma_raise_positive(b, (n - 1) as nat);
        assert(b * raise(b, (n - 1) as nat) > 0) by (nonlinear_arith)
            requires
                b > 0,
                raise(b, (n - 1) as nat) > 0,
        ;
    }
}

/// Whether the number of `n` lies in the window from `low` to `high`.
fn holds(low: &Vec<u8>, high: &Vec<u8>, closed: bool, n: &Vec<u8>, Ghost(w): Ghost<Window>) -> (r:
    bool)
    requires
        is_digits(low@),
        is_digits(high@),
        is_digits(n@),
        w.low == value(low@),
        w.high == value(high@),
        w.closed == closed,
    ensures
        r == w.holds(value(n@)),
{
    if closed {
        !is_below(n, low) && !is_below(high, n)
    } else {
        is_below(low, n) && is_below(n, high)
    }
}

/// The digits of the number that is written for a window, and the place of
/// its last digit.
fn search(low: &Vec<u8>, middle: &Vec<u8>, high: &Vec<u8>, closed: bool, Ghost(w): Ghost<Window>) -> (r:
    (Vec<u8>, usize))
    requires
        is_digits(low@),
        is_digits(middle@),
        is_digits(high@),
        w.low == value(low@),
        w.middle == value(middle@),
        w.high == value(high@),
        w.closed == closed,
        w.valid(),
        high@.len() < usize::MAX - 1,
        middle@.len() < usize::MAX - 1,
    ensures
        is_digits(r.0@),
        w.writes(value(r.0@), r.1 as nat),
{
    let top = high.len();
    let body = extended(middle, top);
    let ghost v = w.middle;
    let mut p: usize = top;
    let mut floor = cleared(&body, p);
    let mut ceil = plus(&floor, &power_of_ten(p));
    let mut down = holds(low, high, closed, &floor, Ghost(w));
    let mut up = holds(low, high, closed, &ceil, Ghost(w));
    proof {
        lemma_value_bound(high@);
        assert forall|q: nat| q > top implies !w.holds(#[trigger] floor_at(v, q)) && !w.holds(
            ceil_at(v, q),
        ) by {
            lemma_pow10_increases(top as nat, q);
            lemma_small_mod(v, pow10(q));
        }
    }
    while !(down || up)
        invariant
            p <= top,
            top == high@.len(),
            top < usize::MAX - 1,
            body@.len() >= top,
            is_digits(low@),
            is_digits(high@),
            is_digits(body@),
            is_digits(floor@),
            is_digits(ceil@),
            w.low == value(low@),
            w.high == value(high@),
            w.closed == closed,
            w.valid(),
            v == w.middle,
            v == value(body@),
            value(floor@) == floor_at(v, p as nat),
            value(ceil@) == ceil_at(v, p as nat),
            down == w.holds(value(floor@)),
            up == w.holds(value(ceil@)),
            forall|q: nat| q > p ==> !w.holds(#[trigger] floor_at(v, q)) && !w.holds(ceil_at(v, q)),
        decreases p,
    {
        proof {
            // At the lowest place the number itself is found.
            if p == 0 {
                assert(pow10(0) == 1);
                assert(v % 1 == 0);
            }
        }
        p = p - 1;
        floor = cleared(&body, p);
        ceil = plus(&floor, &power_of_ten(p));
        down = holds(low, high, closed, &floor, Ghost(w));
        up = holds(low, high, closed, &ceil, Ghost(w));
    }
    let rest = lowest(&body, p);
    let twice = times_small(&rest, 2);
    let step = power_of_ten(p);
    let raised = up && (!down || !is_below(&twice, &step));
    let chosen = if raised {
        ceil
    } else {
        floor
    };
    proof {
        let n = value(chosen@);
        let pp = p as nat;
        let step = pow10(pp);
        let r = v % step;
        let fl = floor_at(v, pp);
        let ce = ceil_at(v, pp);
        lemma_pow10_positive(pp);
        lemma_mod_bound(v as int, step as int);
        lemma_small_mod(0, step);
        lemma_grid_neighbours(v, 0, pp);
        lemma_fundamental_div_mod(v as int, step as int);
        assert(step * (v / step) >= 0) by (nonlinear_arith)
            requires
                step > 0,
                v / step >= 0,
        ;
        assert(r <= v);
        assert(fl == v - r && ce == fl + step && r < step);
        assert(n == if raised { ce } else { fl });
        assert(raised == (up && (!down || 2 * r >= step)));
        assert(w.distance(fl) == r);
        assert(w.distance(ce) == step - r);
        assert forall|k: nat, q: nat| q > pp && w.holds(k) implies !#[trigger] on_grid(k, q) by {
            if on_grid(k, q) {
                lemma_grid_neighbours(v, k, q);
                assert(!w.holds(floor_at(v, q)));
            }
        }
        assert forall|k: nat| #[trigger] on_grid(k, pp) && w.holds(k) implies w.distance(n)
            < w.distance(k) || (w.distance(n) == w.distance(k) && n >= k) by {
            lemma_grid_neighbours(v, k, pp);
            if k <= v {
                assert(k <= fl);
                assert(w.distance(k) == v - k);
                if raised {
                    if !down {
                        assert(!w.holds(fl));
                        assert(!w.holds(k));
                    }
                }
            } else {
                assert(k >= ce);
                assert(w.distance(k) == k - v);
                if !raised {
                    if !up {
                        assert(!w.holds(ce));
                        assert(!w.holds(k));
                    }
                }
            }
        }
    }
    (chosen, p)
}

/// The number written with the fewest digits that tell it apart.
pub fn write_plain(d: &Dimension) -> (text: String)
    ensures
        text@ == plain_text(*d),
{
    if d.is_nan() {
        return "NaN".to_string();
    }
    let mut text = String::new();
    if d.bits >= SIGN_BIT {
        proof {
            reveal_strlit("-");
        }
        text.append("-");
    }
    assert(text@ =~= sign_text(*d));
    let a = d.without_sign();
    if a == INFINITY_BITS {
        text.append("inf");
        return text;
    }
    if a == 0 {
        text.append("0");
        return text;
    }
    let (m, x) = d.decode();
    let below: u64 = if m == HIDDEN_BIT {
        1
    } else {
        2
    };
    let closed = m < HIDDEN_BIT || m % 2 == 0;
    let by: u8 = if x < 1076 {
        5
    } else {
        2
    };
    let count: u32 = if x < 1076 {
        1076 - x
    } else {
        x - 1076
    };
    let after: usize = if x < 1076 {
        (1076 - x) as usize
    } else {
        0
    };
    let low = scaled_digits((4 * m - below) as u128, by, count);
    let middle = scaled_digits((4 * m) as u128, by, count);
    let high = scaled_digits((4 * m + 2) as u128, by, count);
    let ghost w = window(*d);
    proof {
        let q = quarter(*d);
        lemma_raise_positive(by as nat, count as nat);
        assert(q == raise(by as nat, count as nat));
        assert(0 < ((4 * m - below) as nat) * q < (4 * m as nat) * q < ((4 * m + 2) as nat) * q)
            by (nonlinear_arith)
            requires
                q > 0,
                m >= 1,
                1 <= below <= 2,
        ;
    }
    let (digits, p) = search(&low, &middle, &high, closed, Ghost(w));
    let all = extended(&digits, after + 1);
    proof {
        let n = value(digits@);
        let found = written(*d);
        assert(w.writes(n, p as nat));
        w.lemma_writes_is_unique(n, p as nat, found.0, found.1);
        lemma_value_part(all@, after as int, all@.len() as int);
        assert(all@.skip(after as int) =~= all@.subrange(after as int, all@.len() as int));
        if p < after {
            lemma_value_part(all@, p as int, after as int);
        }
        reveal_strlit(".");
    }
    write_whole(&mut text, &all, after);
    if p < after {
        text.append(".");
        write_places(&mut text, &all, p, after);
    }
    assert(text@ =~= plain_text(*d));
    text
}

} // verus!
