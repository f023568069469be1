//! Exact numbers: what a sum, product, quotient or square root of binary64
//! numbers is before it is rounded.
//!
//! Such a number is known by how it compares with whole numbers of steps of a
//! power of two, and that is all that rounding asks of it.

use vstd::prelude::*;
use vstd::arithmetic::power2::*;

verus! {

/// A non-negative real number, in units of 2^-1074.
pub enum Exact {
    /// `p / q` units, with `q > 0`.
    Ratio { p: nat, q: nat },
    /// The square root of `p` units squared.
    Root { p: nat },
}

impl Exact {
    /// Whether the number is well formed.
    pub open spec fn valid(self) -> bool {
        self matches Exact::Ratio { q, .. } ==> q > 0
    }

    /// `self * 2^s >= a`.
    pub open spec fn at_least(self, a: nat, s: nat) -> bool {
        match self {
            Exact::Ratio { p, q } => p * pow2(s) >= a * q,
            Exact::Root { p } => p * (pow2(s) * pow2(s)) >= a * a,
        }
    }

    /// `self * 2^s <= a`.
    pub open spec fn at_most(self, a: nat, s: nat) -> bool {
        match self {
            Exact::Ratio { p, q } => p * pow2(s) <= a * q,
            Exact::Root { p } => p * (pow2(s) * pow2(s)) <= a * a,
        }
    }

    /// From `self * 2^s >= a` and `a / 2^s >= b / 2^t` follows `self * 2^t >= b`.
    pub proof fn lemma_at_least_rescaled(self, a: nat, s: nat, b: nat, t: nat)
        requires
            self.at_least(a, s),
            b * pow2(s) <= a * pow2(t),
        ensures
            self.at_least(b, t),
    {
        lemma_pow2_pos(s);
        lemma_pow2_pos(t);
        let ps = pow2(s);
        let pt = pow2(t);
        match self {
            Exact::Ratio { p, q } => {
                lemma_ratio_ge(p, q, a, ps, b, pt);
            },
            Exact::Root { p } => {
                lemma_square_le(b * ps, a * pt);
                assert((b * ps) * (b * ps) == (b * b) * (ps * ps)) by (nonlinear_arith);
                assert((a * pt) * (a * pt) == (a * a) * (pt * pt)) by (nonlinear_arith);
                lemma_pow2_pos(s);
                assert(ps * ps > 0) by (nonlinear_arith)
                    requires
                        ps > 0,
                ;
                lemma_ratio_ge(p, 1, a * a, ps * ps, b * b, pt * pt);
            },
        }
    }

    /// From `self * 2^s <= a` and `a / 2^s <= b / 2^t` follows `self * 2^t <= b`.
    pub proof fn lemma_at_most_rescaled(self, a: nat, s: nat, b: nat, t: nat)
        requires
            self.at_most(a, s),
            a * pow2(t) <= b * pow2(s),
        ensures
            self.at_most(b, t),
    {
        lemma_pow2_pos(s);
        lemma_pow2_pos(t);
        let ps = pow2(s);
        let pt = pow2(t);
        match self {
            Exact::Ratio { p, q } => {
                lemma_ratio_le(p, q, a, ps, b, pt);
            },
            Exact::Root { p } => {
                lemma_square_le(a * pt, b * ps);
                assert((b * ps) * (b * ps) == (b * b) * (ps * ps)) by (nonlinear_arith);
                assert((a * pt) * (a * pt) == (a * a) * (pt * pt)) by (nonlinear_arith);
                assert(ps * ps > 0) by (nonlinear_arith)
                    requires
                        ps > 0,
                ;
                lemma_ratio_le(p, 1, a * a, ps * ps, b * b, pt * pt);
            },
        }
    }

    /// From `self * 2^s >= a` and `a / 2^s > b / 2^t` follows `self * 2^t > b`.
    pub proof fn lemma_above_rescaled(self, a: nat, s: nat, b: nat, t: nat)
        requires
            self.valid(),
            self.at_least(a, s),
            b * pow2(s) < a * pow2(t),
        ensures
            !self.at_most(b, t),
    {
        lemma_pow2_pos(s);
        lemma_pow2_pos(t);
        let ps = pow2(s);
        let pt = pow2(t);
        match self {
            Exact::Ratio { p, q } => {
                lemma_ratio_gt(p, q, a, ps, b, pt);
            },
            Exact::Root { p } => {
                lemma_square_lt(b * ps, a * pt);
                assert((b * ps) * (b * ps) == (b * b) * (ps * ps)) by (nonlinear_arith);
                assert((a * pt) * (a * pt) == (a * a) * (pt * pt)) by (nonlinear_arith);
                assert(ps * ps > 0) by (nonlinear_arith)
                    requires
                        ps > 0,
                ;
                lemma_ratio_gt(p, 1, a * a, ps * ps, b * b, pt * pt);
            },
        }
    }

    /// From `self * 2^s <= a` and `a / 2^s < b / 2^t` follows `self * 2^t < b`.
    pub proof fn lemma_below_rescaled(self, a: nat, s: nat, b: nat, t: nat)
        requires
            self.valid(),
            self.at_most(a, s),
            a * pow2(t) < b * pow2(s),
        ensures
            !self.at_least(b, t),
    {
        lemma_pow2_pos(s);
        lemma_pow2_pos(t);
        let ps = pow2(s);
        let pt = pow2(t);
        match self {
            Exact::Ratio { p, q } => {
                lemma_ratio_lt(p, q, a, ps, b, pt);
            },
            Exact::Root { p } => {
                lemma_square_lt(a * pt, b * ps);
                assert((b * ps) * (b * ps) == (b * b) * (ps * ps)) by (nonlinear_arith);
                assert((a * pt) * (a * pt) == (a * a) * (pt * pt)) by (nonlinear_arith);
                assert(ps * ps > 0) by (nonlinear_arith)
                    requires
                        ps > 0,
                ;
                lemma_ratio_lt(p, 1, a * a, ps * ps, b * b, pt * pt);
            },
        }
    }
}

proof fn lemma_square_le(x: nat, y: nat)
    by (nonlinear_arith)
    requires
        x <= y,
    ensures
        x * x <= y * y,
{
}

proof fn lemma_square_lt(x: nat, y: nat)
    by (nonlinear_arith)
    requires
        x < y,
    ensures
        x * x < y * y,
{
}

proof fn lemma_ratio_ge(p: nat, q: nat, a: nat, s: nat, b: nat, t: nat)
    requires
        s > 0,
        p * s >= a * q,
        b * s <= a * t,
    ensures
        p * t >= b * q,
{
    assert((p * s) * t >= (a * q) * t) by (nonlinear_arith)
        requires
            p * s >= a * q,
    ;
    assert((a * t) * q >= (b * s) * q) by (nonlinear_arith)
        requires
            b * s <= a * t,
    ;
    assert((p * s) * t == (p * t) * s) by (nonlinear_arith);
    assert((a * q) * t == (a * t) * q) by (nonlinear_arith);
    assert((b * s) * q == (b * q) * s) by (nonlinear_arith);
    assert(p * t >= b * q) by (nonlinear_arith)
        requires
            (p * t) * s >= (b * q) * s,
            s > 0,
    ;
}

proof fn lemma_ratio_le(p: nat, q: nat, a: nat, s: nat, b: nat, t: nat)
    requires
        s > 0,
        p * s <= a * q,
        a * t <= b * s,
    ensures
        p * t <= b * q,
{
    assert((p * s) * t <= (a * q) * t) by (nonlinear_arith)
        requires
            p * s <= a * q,
    ;
    assert((a * t) * q <= (b * s) * q) by (nonlinear_arith)
        requires
            a * t <= b * s,
    ;
    assert((p * s) * t == (p * t) * s) by (nonlinear_arith);
    assert((a * q) * t == (a * t) * q) by (nonlinear_arith);
    assert((b * s) * q == (b * q) * s) by (nonlinear_arith);
    assert(p * t <= b * q) by (nonlinear_arith)
        requires
            (p * t) * s <= (b * q) * s,
            s > 0,
    ;
}

proof fn lemma_ratio_gt(p: nat, q: nat, a: nat, s: nat, b: nat, t: nat)
    requires
        s > 0,
        q > 0,
        p * s >= a * q,
        b * s < a * t,
    ensures
        p * t > b * q,
{
    assert((p * s) * t >= (a * q) * t) by (nonlinear_arith)
        requires
            p * s >= a * q,
    ;
    assert((a * t) * q > (b * s) * q) by (nonlinear_arith)
        requires
            b * s < a * t,
            q > 0,
    ;
    assert((p * s) * t == (p * t) * s) by (nonlinear_arith);
    assert((a * q) * t == (a * t) * q) by (nonlinear_arith);
    assert((b * s) * q == (b * q) * s) by (nonlinear_arith);
    assert(p * t > b * q) by (nonlinear_arith)
        requires
            (p * t) * s > (b * q) * s,
            s > 0,
    ;
}

proof fn lemma_ratio_lt(p: nat, q: nat, a: nat, s: nat, b: nat, t: nat)
    requires
        s > 0,
        q > 0,
        p * s <= a * q,
        a * t < b * s,
    ensures
        p * t < b * q,
{
    assert((p * s) * t <= (a * q) * t) by (nonlinear_arith)
        requires
            p * s <= a * q,
    ;
    assert((a * t) * q < (b * s) * q) by (nonlinear_arith)
        requires
            a * t < b * s,
            q > 0,
    ;
    assert((p * s) * t == (p * t) * s) by (nonlinear_arith);
    assert((a * q) * t == (a * t) * q) by (nonlinear_arith);
    assert((b * s) * q == (b * q) * s) by (nonlinear_arith);
    assert(p * t < b * q) by (nonlinear_arith)
        requires
            (p * t) * s < (b * q) * s,
            s > 0,
    ;
}

/// `m * 2^e`.
pub open spec fn scaled(m: nat, e: nat) -> nat {
    m * pow2(e)
}

/// Scaling twice adds the exponents.
pub proof fn lemma_scaled_twice(m: nat, e: nat, f: nat)
    ensures
        scaled(scaled(m, e), f) == scaled(m, e + f),
{
    lemma_pow2_adds(e, f);
    let a = pow2(e);
    let b = pow2(f);
    assert((m * a) * b == m * (a * b)) by (nonlinear_arith);
}

/// Numbers scaled alike compare as they do themselves.
pub proof fn lemma_scaled_order(m: nat, n: nat, e: nat)
    ensures
        scaled(m, e) <= scaled(n, e) <==> m <= n,
        scaled(m, e) < scaled(n, e) <==> m < n,
        scaled(m, e) == scaled(n, e) <==> m == n,
{
    lemma_pow2_pos(e);
    let a = pow2(e);
    assert((m * a <= n * a <==> m <= n) && (m * a < n * a <==> m < n) && (m * a == n * a <==> m
        == n)) by (nonlinear_arith)
        requires
            a > 0,
    ;
}

/// A factor moves into what is scaled.
pub proof fn lemma_scaled_times(m: nat, e: nat, n: nat)
    ensures
        scaled(m, e) * n == scaled(m * n, e),
        n * scaled(m, e) == scaled(n * m, e),
{
    let a = pow2(e);
    assert((m * a) * n == (m * n) * a && n * (m * a) == (n * m) * a) by (nonlinear_arith);
}

/// The product of two scaled numbers.
pub proof fn lemma_scaled_product(m: nat, e: nat, n: nat, f: nat)
    ensures
        scaled(m, e) * scaled(n, f) == scaled(m * n, e + f),
{
    lemma_scaled_times(m, e, scaled(n, f));
    lemma_scaled_times(n, f, m);
    lemma_scaled_twice(m * n, f, e);
    assert(scaled(m, e) * scaled(n, f) == scaled(m * scaled(n, f), e));
    assert(m * scaled(n, f) == scaled(m * n, f));
}

} // verus!
