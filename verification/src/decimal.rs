//! Whole numbers of any size as decimal digits, lowest digit first.

use vstd::prelude::*;
use vstd::arithmetic::div_mod::{lemma_fundamental_div_mod_converse, lemma_mod_bound};

verus! {

/// `10^n`.
pub open spec fn pow10(n: nat) -> nat
    decreases n,
{
    if n == 0 {
        1
    } else {
        10 * pow10((n - 1) as nat)
    }
}

/// Whether every item is a decimal digit.
pub open spec fn is_digits(s: Seq<u8>) -> bool {
    forall|i: int| 0 <= i < s.len() ==> #[trigger] s[i] < 10
}

/// The number that the digits stand for.
pub open spec fn value(s: Seq<u8>) -> nat
    decreases s.len(),
{
    if s.len() == 0 {
        0
    } else {
        value(s.drop_last()) + s.last() as nat * pow10((s.len() - 1) as nat)
    }
}

/// Powers of ten are positive.
pub proof fn lemma_pow10_positive(n: nat)
    ensures
        pow10(n) > 0,
    decreases n,
{
    if n > 0 {
        lemma_pow10_positive((n - 1) as nat);
    }
}

/// `10^(a + b) == 10^a * 10^b`.
pub proof fn lemma_pow10_adds(a: nat, b: nat)
    ensures
        pow10(a + b) == pow10(a) * pow10(b),
    decreases b,
{
    if b == 0 {
        assert(pow10(a) * 1 == pow10(a)) by (nonlinear_arith);
    } else {
        lemma_pow10_adds(a, (b - 1) as nat);
        let x = pow10(a);
        let y = pow10((b - 1) as nat);
        assert(10 * (x * y) == x * (10 * y)) by (nonlinear_arith);
    }
}

/// Powers of ten do not decrease.
pub proof fn lemma_pow10_increases(a: nat, b: nat)
    requires
        a <= b,
    ensures
        pow10(a) <= pow10(b),
    decreases b,
{
    if a < b {
        lemma_pow10_increases(a, (b - 1) as nat);
    }
}

/// A digit more in front adds it at its place.
pub proof fn lemma_value_push(s: Seq<u8>, d: u8)
    ensures
        value(s.push(d)) == value(s) + d as nat * pow10(s.len()),
{
    assert(s.push(d).drop_last() =~= s);
}

/// The lowest `i + 1` digits, from the lowest `i`.
pub proof fn lemma_value_take(s: Seq<u8>, i: int)
    requires
        0 <= i < s.len(),
    ensures
        value(s.take(i + 1)) == value(s.take(i)) + s[i] as nat * pow10(i as nat),
{
    assert(s.take(i + 1).drop_last() =~= s.take(i));
}

/// Digits stand for a number below the power of ten of their count.
pub proof fn lemma_value_bound(s: Seq<u8>)
    requires
        is_digits(s),
    ensures
        value(s) < pow10(s.len()),
    decreases s.len(),
{
    if s.len() > 0 {
        lemma_value_bound(s.drop_last());
        let p = pow10((s.len() - 1) as nat);
        let d = s.last() as nat;
        assert(d <= 9);
        assert(value(s.drop_last()) + d * p < 10 * p) by (nonlinear_arith)
            requires
                value(s.drop_last()) < p,
                d <= 9,
        ;
    }
}

/// The number splits at any place into its lower digits and the rest.
pub proof fn lemma_value_split(s: Seq<u8>, k: int)
    requires
        0 <= k <= s.len(),
    ensures
        value(s) == value(s.take(k)) + pow10(k as nat) * value(s.skip(k)),
    decreases s.len(),
{
    if k == s.len() {
        assert(s.take(k) =~= s);
        assert(s.skip(k) =~= Seq::<u8>::empty());
        assert(pow10(k as nat) * 0 == 0) by (nonlinear_arith);
    } else {
        let front = s.drop_last();
        lemma_value_split(front, k);
        assert(front.take(k) =~= s.take(k));
        assert(s.skip(k).drop_last() =~= front.skip(k));
        lemma_pow10_adds(k as nat, (s.len() - 1 - k) as nat);
        let a = pow10(k as nat);
        let b = pow10((s.len() - 1 - k) as nat);
        let d = s.last() as nat;
        let rest = value(front.skip(k));
        assert(s.skip(k).last() == s.last());
        assert(value(s.skip(k)) == rest + d * b);
        assert(a * (rest + d * b) == a * rest + d * (a * b)) by (nonlinear_arith);
    }
}

/// Digits that are all zero stand for zero, and no others do.
pub proof fn lemma_value_zero(s: Seq<u8>)
    ensures
        value(s) == 0 <==> forall|i: int| 0 <= i < s.len() ==> #[trigger] s[i] == 0,
    decreases s.len(),
{
    if s.len() > 0 {
        let front = s.drop_last();
        lemma_value_zero(front);
        lemma_pow10_positive((s.len() - 1) as nat);
        let p = pow10((s.len() - 1) as nat);
        let d = s.last() as nat;
        assert(d * p == 0 <==> d == 0) by (nonlinear_arith)
            requires
                p > 0,
        ;
        if value(s) == 0 {
            assert forall|i: int| 0 <= i < s.len() implies #[trigger] s[i] == 0 by {
                if i < s.len() - 1 {
                    assert(front[i] == s[i]);
                }
            }
        } else if forall|i: int| 0 <= i < s.len() ==> #[trigger] s[i] == 0 {
            assert forall|i: int| 0 <= i < front.len() implies #[trigger] front[i] == 0 by {
                assert(front[i] == s[i]);
            }
            assert(s[s.len() - 1] == 0);
        }
    }
}

/// 10^39 is above every number of 128 bits.
proof fn lemma_pow10_39()
    ensures
        pow10(39) == 1_000_000_000_000_000_000_000_000_000_000_000_000_000,
{
    reveal_with_fuel(pow10, 40);
}

/// The digits of `n`.
pub fn digits_of(n: u128) -> (r: Vec<u8>)
    ensures
        is_digits(r@),
        value(r@) == n,
        r@.len() <= 39,
{
    let mut r: Vec<u8> = Vec::new();
    let mut rest = n;
    proof {
        assert(rest as nat * pow10(0) == rest) by (nonlinear_arith)
            requires
                pow10(0) == 1,
        ;
    }
    while rest > 0
        invariant
            is_digits(r@),
            value(r@) + rest as nat * pow10(r@.len()) == n,
            r@.len() <= 39,
        decreases rest,
    {
        let d = (rest % 10) as u8;
        proof {
            lemma_value_push(r@, d);
            let p = pow10(r@.len());
            assert(d as nat * p + (rest as nat / 10) * (10 * p) == rest as nat * p) by (nonlinear_arith)
                requires
                    rest as nat == 10 * (rest as nat / 10) + d as nat,
            ;
            // A number of 128 bits has 39 digits at most.
            lemma_pow10_39();
            if r@.len() == 39 {
                assert(rest as nat * p >= p) by (nonlinear_arith)
                    requires
                        rest >= 1,
                ;
            }
        }
        r.push(d);
        rest = rest / 10;
    }
    proof {
        assert(0 * pow10(r@.len()) == 0) by (nonlinear_arith);
    }
    r
}

/// The digits of `k` times the number of `v`.
pub fn times_small(v: &Vec<u8>, k: u8) -> (r: Vec<u8>)
    requires
        is_digits(v@),
        k <= 9,
    ensures
        is_digits(r@),
        value(r@) == k as nat * value(v@),
        v@.len() <= r@.len() <= v@.len() + 1,
{
    let mut r: Vec<u8> = Vec::new();
    let mut carry: u8 = 0;
    let mut i: usize = 0;
    proof {
        assert(v@.take(0) =~= Seq::<u8>::empty());
        assert(0 * pow10(0) == 0 && k as nat * 0 == 0) by (nonlinear_arith);
    }
    while i < v.len()
        invariant
            i <= v.len(),
            r@.len() == i,
            is_digits(v@),
            is_digits(r@),
            k <= 9,
            carry <= 8,
            value(r@) + carry as nat * pow10(i as nat) == k as nat * value(v@.take(i as int)),
        decreases v.len() - i,
    {
        let digit = v[i];
        assert(digit < 10);
        assert(digit * k <= 81) by (nonlinear_arith)
            requires
                digit <= 9,
                k <= 9,
        ;
        let t: u8 = digit * k + carry;
        let d: u8 = t % 10;
        let next: u8 = t / 10;
        proof {
            lemma_value_push(r@, d);
            lemma_value_take(v@, i as int);
            let p = pow10(i as nat);
            let low = value(v@.take(i as int));
            assert(value(r@) + d as nat * p + next as nat * (10 * p) == k as nat * (low + digit as nat
                * p)) by (nonlinear_arith)
                requires
                    value(r@) + carry as nat * p == k as nat * low,
                    digit as nat * k as nat + carry as nat == 10 * next as nat + d as nat,
            ;
        }
        r.push(d);
        carry = next;
        i = i + 1;
    }
    proof {
        assert(v@.take(v@.len() as int) =~= v@);
    }
    if carry > 0 {
        proof {
            lemma_value_push(r@, carry);
        }
        r.push(carry);
    } else {
        proof {
            assert(0 * pow10(i as nat) == 0) by (nonlinear_arith);
        }
    }
    r
}

/// The same number with zeros in front, to `n` digits.
pub fn extended(v: &Vec<u8>, n: usize) -> (r: Vec<u8>)
    requires
        is_digits(v@),
    ensures
        is_digits(r@),
        value(r@) == value(v@),
        r@.len() == if n > v@.len() { n as nat } else { v@.len() },
        forall|i: int| 0 <= i < v@.len() ==> r@[i] == v@[i],
        forall|i: int| v@.len() <= i < r@.len() ==> r@[i] == 0,
{
    let mut r = v.clone();
    while r.len() < n
        invariant
            is_digits(r@),
            value(r@) == value(v@),
            r@.len() >= v@.len(),
            r@.len() <= n || r@.len() == v@.len(),
            forall|i: int| 0 <= i < v@.len() ==> r@[i] == v@[i],
            forall|i: int| v@.len() <= i < r@.len() ==> r@[i] == 0,
        decreases n - r.len(),
    {
        proof {
            lemma_value_push(r@, 0);
            assert(0 * pow10(r@.len()) == 0) by (nonlinear_arith);
        }
        r.push(0);
    }
    r
}

/// The digits of the sum of two numbers of as many digits.
pub fn sum_of(a: &Vec<u8>, b: &Vec<u8>) -> (r: Vec<u8>)
    requires
        is_digits(a@),
        is_digits(b@),
        a@.len() == b@.len(),
    ensures
        is_digits(r@),
        value(r@) == value(a@) + value(b@),
        r@.len() == a@.len() + 1,
{
    let mut r: Vec<u8> = Vec::new();
    let mut carry: u8 = 0;
    let mut i: usize = 0;
    proof {
        assert(a@.take(0) =~= Seq::<u8>::empty());
        assert(b@.take(0) =~= Seq::<u8>::empty());
        assert(0 * pow10(0) == 0) by (nonlinear_arith);
    }
    while i < a.len()
        invariant
            i <= a.len(),
            a@.len() == b@.len(),
            r@.len() == i,
            is_digits(a@),
            is_digits(b@),
            is_digits(r@),
            carry <= 1,
            value(r@) + carry as nat * pow10(i as nat) == value(a@.take(i as int)) + value(
                b@.take(i as int),
            ),
        decreases a.len() - i,
    {
        let x = a[i];
        let y = b[i];
        assert(x < 10 && y < 10);
        let t: u8 = x + y + carry;
        let d: u8 = t % 10;
        let next: u8 = t / 10;
        proof {
            lemma_value_push(r@, d);
            lemma_value_take(a@, i as int);
            lemma_value_take(b@, i as int);
            let p = pow10(i as nat);
            assert(d as nat * p + next as nat * (10 * p) == x as nat * p + y as nat * p + carry as nat
                * p) by (nonlinear_arith)
                requires
                    x as nat + y as nat + carry as nat == 10 * next as nat + d as nat,
            ;
        }
        r.push(d);
        carry = next;
        i = i + 1;
    }
    proof {
        assert(a@.take(a@.len() as int) =~= a@);
        assert(b@.take(b@.len() as int) =~= b@);
        lemma_value_push(r@, carry);
    }
    r.push(carry);
    r
}

/// The digits of the difference of two numbers of as many digits, and
/// whether the second is the larger: the difference is then taken from the
/// first with a one put in front.
pub fn difference_of(a: &Vec<u8>, b: &Vec<u8>) -> (r: (Vec<u8>, bool))
    requires
        is_digits(a@),
        is_digits(b@),
        a@.len() == b@.len(),
    ensures
        is_digits(r.0@),
        r.0@.len() == a@.len(),
        r.1 <==> value(a@) < value(b@),
        value(a@) + (if r.1 { pow10(a@.len()) } else { 0 }) == value(b@) + value(r.0@),
{
    let mut r: Vec<u8> = Vec::new();
    let mut borrow: u8 = 0;
    let mut i: usize = 0;
    proof {
        assert(a@.take(0) =~= Seq::<u8>::empty());
        assert(b@.take(0) =~= Seq::<u8>::empty());
        assert(0 * pow10(0) == 0) by (nonlinear_arith);
    }
    while i < a.len()
        invariant
            i <= a.len(),
            a@.len() == b@.len(),
            r@.len() == i,
            is_digits(a@),
            is_digits(b@),
            is_digits(r@),
            borrow <= 1,
            value(a@.take(i as int)) + borrow as nat * pow10(i as nat) == value(b@.take(i as int))
                + value(r@),
        decreases a.len() - i,
    {
        let x = a[i];
        let y = b[i];
        assert(x < 10 && y < 10);
        let under = x < y + borrow;
        let d: u8 = if under {
            x + 10 - y - borrow
        } else {
            x - y - borrow
        };
        let next: u8 = if under {
            1
        } else {
            0
        };
        proof {
            lemma_value_push(r@, d);
            lemma_value_take(a@, i as int);
            lemma_value_take(b@, i as int);
            let p = pow10(i as nat);
            assert(x as nat * p + next as nat * (10 * p) == y as nat * p + borrow as nat * p + d as nat
                * p) by (nonlinear_arith)
                requires
                    x as nat + 10 * next as nat == y as nat + borrow as nat + d as nat,
            ;
        }
        r.push(d);
        borrow = next;
        i = i + 1;
    }
    proof {
        assert(a@.take(a@.len() as int) =~= a@);
        assert(b@.take(b@.len() as int) =~= b@);
        lemma_value_bound(r@);
        lemma_value_bound(b@);
        assert(1 * pow10(i as nat) == pow10(i as nat) && 0 * pow10(i as nat) == 0) by (nonlinear_arith);
    }
    (r, borrow == 1)
}

/// `b^n`.
pub open spec fn raise(b: nat, n: nat) -> nat
    decreases n,
{
    if n == 0 {
        1
    } else {
        b * raise(b, (n - 1) as nat)
    }
}

/// The digits of `n * by^count`.
pub fn scaled_digits(n: u128, by: u8, count: u32) -> (r: Vec<u8>)
    requires
        by <= 9,
    ensures
        is_digits(r@),
        value(r@) == n as nat * raise(by as nat, count as nat),
        r@.len() <= 39 + count,
{
    let mut r = digits_of(n);
    let mut i: u32 = 0;
    proof {
        assert(n as nat * 1 == n) by (nonlinear_arith);
    }
    while i < count
        invariant
            i <= count,
            by <= 9,
            is_digits(r@),
            value(r@) == n as nat * raise(by as nat, i as nat),
            r@.len() <= 39 + i,
        decreases count - i,
    {
        proof {
            let x = raise(by as nat, i as nat);
            assert(by as nat * (n as nat * x) == n as nat * (by as nat * x)) by (nonlinear_arith);
        }
        r = times_small(&r, by);
        i = i + 1;
    }
    r
}

/// Whether the number of `a` is below that of `b`.
pub fn is_below(a: &Vec<u8>, b: &Vec<u8>) -> (r: bool)
    requires
        is_digits(a@),
        is_digits(b@),
    ensures
        r == (value(a@) < value(b@)),
{
    let n = if a.len() > b.len() {
        a.len()
    } else {
        b.len()
    };
    let first = extended(a, n);
    let second = extended(b, n);
    let (_, under) = difference_of(&first, &second);
    under
}

/// The digits with the lowest `p` of them put to zero: the number less what
/// it leaves when it is divided by `10^p`.
pub fn cleared(v: &Vec<u8>, p: usize) -> (r: Vec<u8>)
    requires
        is_digits(v@),
        p <= v@.len(),
    ensures
        is_digits(r@),
        r@.len() == v@.len(),
        value(r@) == value(v@) - value(v@) % pow10(p as nat),
        value(r@) % pow10(p as nat) == 0,
{
    let mut r: Vec<u8> = Vec::new();
    let mut i: usize = 0;
    while i < v.len()
        invariant
            i <= v.len(),
            p <= v@.len(),
            r@.len() == i,
            is_digits(v@),
            is_digits(r@),
            forall|j: int| 0 <= j < i && j < p ==> r@[j] == 0,
            forall|j: int| p <= j < i ==> r@[j] == v@[j],
        decreases v.len() - i,
    {
        if i < p {
            r.push(0);
        } else {
            let d = v[i];
            assert(d < 10);
            r.push(d);
        }
        i = i + 1;
    }
    proof {
        let k = p as int;
        lemma_value_split(r@, k);
        lemma_value_split(v@, k);
        lemma_value_zero(r@.take(k));
        assert(r@.skip(k) =~= v@.skip(k));
        lemma_value_bound(v@.take(k));
        lemma_pow10_positive(p as nat);
        let d = pow10(p as nat);
        let q = value(v@.skip(k));
        assert(d * q == q * d) by (nonlinear_arith);
        lemma_fundamental_div_mod_converse(value(v@) as int, d as int, q as int, value(v@.take(k)) as int);
        lemma_fundamental_div_mod_converse(value(r@) as int, d as int, q as int, 0);
    }
    r
}

/// The lowest `p` digits: what the number leaves when it is divided by `10^p`.
pub fn lowest(v: &Vec<u8>, p: usize) -> (r: Vec<u8>)
    requires
        is_digits(v@),
        p <= v@.len(),
    ensures
        is_digits(r@),
        value(r@) == value(v@) % pow10(p as nat),
{
    let mut r: Vec<u8> = Vec::new();
    let mut i: usize = 0;
    while i < p
        invariant
            i <= p <= v@.len(),
            r@.len() == i,
            is_digits(v@),
            is_digits(r@),
            forall|j: int| 0 <= j < i ==> r@[j] == v@[j],
        decreases p - i,
    {
        let d = v[i];
        assert(d < 10);
        r.push(d);
        i = i + 1;
    }
    proof {
        let k = p as int;
        assert(r@ =~= v@.take(k));
        lemma_value_split(v@, k);
        lemma_value_bound(v@.take(k));
        lemma_pow10_positive(p as nat);
        let d = pow10(p as nat);
        let q = value(v@.skip(k));
        assert(d * q == q * d) by (nonlinear_arith);
        lemma_fundamental_div_mod_converse(value(v@) as int, d as int, q as int, value(v@.take(k)) as int);
    }
    r
}

/// The digits of `10^p`.
pub fn power_of_ten(p: usize) -> (r: Vec<u8>)
    requires
        p < usize::MAX,
    ensures
        is_digits(r@),
        r@.len() == p + 1,
        value(r@) == pow10(p as nat),
{
    let mut r: Vec<u8> = Vec::new();
    let mut i: usize = 0;
    while i < p
        invariant
            i <= p,
            r@.len() == i,
            is_digits(r@),
            value(r@) == 0,
        decreases p - i,
    {
        proof {
            lemma_value_push(r@, 0);
            assert(0 * pow10(r@.len()) == 0) by (nonlinear_arith);
        }
        r.push(0);
        i = i + 1;
    }
    proof {
        lemma_value_push(r@, 1);
        assert(1 * pow10(r@.len()) == pow10(r@.len())) by (nonlinear_arith);
    }
    r.push(1);
    r
}

/// The digits of the sum of two numbers.
pub fn plus(a: &Vec<u8>, b: &Vec<u8>) -> (r: Vec<u8>)
    requires
        is_digits(a@),
        is_digits(b@),
    ensures
        is_digits(r@),
        value(r@) == value(a@) + value(b@),
        r@.len() > a@.len(),
        r@.len() > b@.len(),
{
    let n = if a.len() > b.len() {
        a.len()
    } else {
        b.len()
    };
    let first = extended(a, n);
    let second = extended(b, n);
    sum_of(&first, &second)
}

} // verus!
