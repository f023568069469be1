//! Writing numbers in decimal digits: the digits of whole numbers, and a
//! binary64 number with two digits after the decimal point.

use vstd::prelude::*;
use vstd::string::*;
use vstd::arithmetic::div_mod::{
    lemma_fundamental_div_mod, lemma_fundamental_div_mod_converse, lemma_mod_bound,
};
use vstd::arithmetic::power2::*;
use crate::decimal::{
    digits_of, extended, is_digits, lemma_pow10_positive, lemma_value_bound, lemma_value_split,
    lemma_value_zero, pow10, times_small, value,
};
use crate::dimension::{Dimension, INFINITY_BITS, SIGN_BIT};
use crate::rounding::power_of_two;

verus! {

/// The character of a decimal digit.
pub open spec fn digit_char(d: nat) -> char {
    if d == 0 {
        '0'
    } else if d == 1 {
        '1'
    } else if d == 2 {
        '2'
    } else if d == 3 {
        '3'
    } else if d == 4 {
        '4'
    } else if d == 5 {
        '5'
    } else if d == 6 {
        '6'
    } else if d == 7 {
        '7'
    } else if d == 8 {
        '8'
    } else {
        '9'
    }
}

/// The decimal digits of `n`, the highest first and not a zero, but for
/// zero itself, which is written "0".
pub open spec fn decimal_text(n: nat) -> Seq<char>
    decreases n,
{
    if n < 10 {
        seq![digit_char(n)]
    } else {
        decimal_text(n / 10).push(digit_char(n % 10))
    }
}

/// The lowest `width` decimal digits of `n`, the highest first, zeros too.
pub open spec fn padded_text(n: nat, width: nat) -> Seq<char>
    decreases width,
{
    if width == 0 {
        Seq::empty()
    } else {
        padded_text(n / 10, (width - 1) as nat).push(digit_char(n % 10))
    }
}

/// A single digit stands for itself.
pub proof fn lemma_value_one(s: Seq<u8>)
    requires
        s.len() == 1,
    ensures
        value(s) == s[0] as nat,
{
    assert(s.drop_last() =~= Seq::<u8>::empty());
    assert(value(s.drop_last()) == 0);
    assert(s[0] as nat * pow10(0) == s[0] as nat) by (nonlinear_arith)
        requires
            pow10(0) == 1,
    ;
}

/// The lowest digit of a number, and the number of the other digits.
pub proof fn lemma_value_low(s: Seq<u8>)
    requires
        is_digits(s),
        s.len() > 0,
    ensures
        value(s) == s[0] as nat + 10 * value(s.skip(1)),
        value(s) % 10 == s[0] as nat,
        value(s) / 10 == value(s.skip(1)),
{
    lemma_value_split(s, 1);
    lemma_value_one(s.take(1));
    assert(pow10(1) == 10);
    assert(s[0] < 10);
    lemma_fundamental_div_mod_converse(
        value(s) as int,
        10,
        value(s.skip(1)) as int,
        s[0] as int,
    );
}

/// A part of the digits stands for the number, cut down to the places of the part.
pub proof fn lemma_value_part(s: Seq<u8>, from: int, to: int)
    requires
        is_digits(s),
        0 <= from <= to <= s.len(),
    ensures
        value(s.subrange(from, to)) == (value(s) % pow10(to as nat)) / pow10(from as nat),
        value(s.take(to)) == value(s) % pow10(to as nat),
        value(s.skip(from)) == value(s) / pow10(from as nat),
{
    lemma_pow10_positive(to as nat);
    lemma_pow10_positive(from as nat);
    lemma_value_split(s, to);
    lemma_value_split(s, from);
    lemma_value_bound(s.take(to));
    lemma_value_bound(s.take(from));
    lemma_fundamental_div_mod_converse(
        value(s) as int,
        pow10(to as nat) as int,
        value(s.skip(to)) as int,
        value(s.take(to)) as int,
    );
    lemma_fundamental_div_mod_converse(
        value(s) as int,
        pow10(from as nat) as int,
        value(s.skip(from)) as int,
        value(s.take(from)) as int,
    );
    let low = s.take(to);
    lemma_value_split(low, from);
    lemma_value_bound(low.take(from));
    assert(low.take(from) =~= s.take(from));
    assert(low.skip(from) =~= s.subrange(from, to));
    let d = pow10(from as nat);
    let q = value(s.subrange(from, to));
    assert(d * q == q * d) by (nonlinear_arith);
    assert(value(low) == q * d + value(low.take(from)));
    lemma_fundamental_div_mod_converse(
        value(low) as int,
        pow10(from as nat) as int,
        value(s.subrange(from, to)) as int,
        value(low.take(from)) as int,
    );
}

/// The digit as a text of one character.
fn digit_text(d: u8) -> (r: &'static str)
    requires
        d < 10,
    ensures
        r@ == seq![digit_char(d as nat)],
{
    proof {
        reveal_strlit("0");
        reveal_strlit("1");
        reveal_strlit("2");
        reveal_strlit("3");
        reveal_strlit("4");
        reveal_strlit("5");
        reveal_strlit("6");
        reveal_strlit("7");
        reveal_strlit("8");
        reveal_strlit("9");
    }
    let r = if d == 0 {
        "0"
    } else if d == 1 {
        "1"
    } else if d == 2 {
        "2"
    } else if d == 3 {
        "3"
    } else if d == 4 {
        "4"
    } else if d == 5 {
        "5"
    } else if d == 6 {
        "6"
    } else if d == 7 {
        "7"
    } else if d == 8 {
        "8"
    } else {
        "9"
    };
    assert(r@ =~= seq![digit_char(d as nat)]);
    r
}

/// Appends the digits from place `from` up, as a whole number.
pub fn write_whole(text: &mut String, v: &Vec<u8>, from: usize)
    requires
        is_digits(v@),
        from <= v@.len(),
    ensures
        final(text)@ == old(text)@ + decimal_text(value(v@.skip(from as int))),
{
    let ghost start = text@;
    let ghost all = v@.skip(from as int);
    // The highest digit that is not zero.
    let mut top: usize = v.len();
    while top > from && v[top - 1] == 0
        invariant
            from <= top <= v@.len(),
            forall|i: int| top <= i < v@.len() ==> v@[i] == 0,
        decreases top,
    {
        top = top - 1;
    }
    proof {
        // The zeros in front do not count.
        lemma_value_split(all, top - from);
        lemma_value_zero(all.skip(top - from));
        assert(all.take(top - from) =~= v@.subrange(from as int, top as int));
        lemma_pow10_positive((top - from) as nat);
        assert(pow10((top - from) as nat) * 0 == 0) by (nonlinear_arith);
        assert(value(all) == value(v@.subrange(from as int, top as int)));
    }
    if top == from {
        proof {
            assert(v@.subrange(from as int, top as int) =~= Seq::<u8>::empty());
        }
        text.append(digit_text(0));
        return ;
    }
    let mut i: usize = top - 1;
    proof {
        lemma_value_one(v@.subrange(i as int, top as int));
        assert(v@[i as int] < 10);
    }
    text.append(digit_text(v[i]));
    while i > from
        invariant
            from <= i < top <= v@.len(),
            is_digits(v@),
            v@[top - 1] != 0,
            text@ == start + decimal_text(value(v@.subrange(i as int, top as int))),
        decreases i,
    {
        i = i - 1;
        proof {
            let part = v@.subrange(i as int, top as int);
            assert(is_digits(part));
            lemma_value_low(part);
            assert(part.skip(1) =~= v@.subrange(i + 1, top as int));
            // What stands above the lowest digit is not zero.
            let above = part.skip(1);
            if value(above) == 0 {
                lemma_value_zero(above);
                assert(above[above.len() - 1] == 0);
            }
            assert(value(part) >= 10);
            assert(v@[i as int] < 10);
        }
        text.append(digit_text(v[i]));
    }
}

/// Appends the digits of the places from `from` up to, but not at, `to`,
/// the highest first.
pub fn write_places(text: &mut String, v: &Vec<u8>, from: usize, to: usize)
    requires
        is_digits(v@),
        from <= to <= v@.len(),
    ensures
        final(text)@ == old(text)@ + padded_text(
            value(v@.subrange(from as int, to as int)),
            (to - from) as nat,
        ),
{
    let ghost start = text@;
    let mut i: usize = to;
    proof {
        assert(v@.subrange(to as int, to as int) =~= Seq::<u8>::empty());
        assert(start + Seq::<char>::empty() =~= start);
    }
    while i > from
        invariant
            from <= i <= to <= v@.len(),
            is_digits(v@),
            text@ == start + padded_text(value(v@.subrange(i as int, to as int)), (to - i) as nat),
        decreases i,
    {
        i = i - 1;
        proof {
            let part = v@.subrange(i as int, to as int);
            assert(is_digits(part));
            lemma_value_low(part);
            assert(part.skip(1) =~= v@.subrange(i + 1, to as int));
            assert(v@[i as int] < 10);
        }
        text.append(digit_text(v[i]));
    }
}

/// What is written before a number of which the sign bit is set.
pub open spec fn sign_text(d: Dimension) -> Seq<char> {
    if d.sign_is_set() {
        seq!['-']
    } else {
        Seq::empty()
    }
}

/// The whole number of hundredths nearest to a finite number, its sign
/// apart, and of two that are equally near the even one.
pub open spec fn hundredths(d: Dimension) -> nat {
    let whole = (100 * d.magnitude()) / pow2(1074);
    let rest = (100 * d.magnitude()) % pow2(1074);
    if rest > pow2(1073) || (rest == pow2(1073) && whole % 2 == 1) {
        whole + 1
    } else {
        whole
    }
}

/// A number written with two digits after the decimal point: its sign, the
/// whole part of its nearest hundredths, a point, and the two digits of the
/// hundredths.
pub open spec fn fixed_text(d: Dimension) -> Seq<char> {
    if d@ is NaN {
        "NaN"@
    } else if d@ is Infinite {
        sign_text(d) + "inf"@
    } else {
        sign_text(d) + decimal_text(hundredths(d) / 100) + seq!['.'] + padded_text(
            hundredths(d) % 100,
            2,
        )
    }
}

/// Dividing `t * 2^x` by `2^s * 2^x` is dividing `t` by `2^s`.
proof fn lemma_divide_scaled(t: nat, s: nat, x: nat)
    ensures
        (t * pow2(x)) / pow2(s + x) == t / pow2(s),
        (t * pow2(x)) % pow2(s + x) == (t % pow2(s)) * pow2(x),
{
    let ps = pow2(s);
    let px = pow2(x);
    let q = t / ps;
    let r = t % ps;
    lemma_pow2_pos(s);
    lemma_pow2_pos(x);
    lemma_pow2_adds(s, x);
    lemma_fundamental_div_mod(t as int, ps as int);
    lemma_mod_bound(t as int, ps as int);
    assert(t * px == q * (ps * px) + r * px) by (nonlinear_arith)
        requires
            t == ps * q + r,
    ;
    assert(r * px < ps * px) by (nonlinear_arith)
        requires
            r < ps,
            px > 0,
    ;
    lemma_fundamental_div_mod_converse(
        (t * px) as int,
        (ps * px) as int,
        q as int,
        (r * px) as int,
    );
}

/// The hundredths of a number below 2^1074 units, from its significand
/// times 100 and the bits that are dropped of it.
proof fn lemma_hundredths_of_fraction(d: Dimension, m: nat, x: nat)
    requires
        d.magnitude() == m * pow2(x),
        x < 1074,
    ensures
        ({
            let t = 100 * m;
            let s = (1074 - x) as nat;
            let whole = t / pow2(s);
            let rest = t % pow2(s);
            let half = pow2((s - 1) as nat);
            hundredths(d) == if rest > half || (rest == half && whole % 2 == 1) {
                whole + 1
            } else {
                whole
            }
        }),
{
    let t = 100 * m;
    let s = (1074 - x) as nat;
    let px = pow2(x);
    lemma_divide_scaled(t, s, x);
    lemma_pow2_adds((s - 1) as nat, x);
    lemma_pow2_pos(x);
    assert(100 * (m * px) == t * px) by (nonlinear_arith)
        requires
            t == 100 * m,
    ;
    let rest = t % pow2(s);
    let half = pow2((s - 1) as nat);
    assert((rest * px > half * px <==> rest > half) && (rest * px == half * px <==> rest == half))
        by (nonlinear_arith)
        requires
            px > 0,
    ;
}

/// The hundredths of a whole number.
proof fn lemma_hundredths_of_whole(d: Dimension, m: nat, x: nat)
    requires
        d.magnitude() == m * pow2(x),
        x >= 1074,
    ensures
        hundredths(d) == 100 * (m * pow2((x - 1074) as nat)),
{
    let lift = pow2((x - 1074) as nat);
    let unit = pow2(1074);
    lemma_pow2_adds((x - 1074) as nat, 1074);
    lemma_pow2_pos(1074);
    let n = 100 * (m * lift);
    assert(100 * (m * (lift * unit)) == n * unit + 0) by (nonlinear_arith)
        requires
            n == 100 * (m * lift),
    ;
    lemma_fundamental_div_mod_converse((100 * d.magnitude()) as int, unit as int, n as int, 0);
    lemma_pow2_pos(1073);
}

/// The number written with two digits after the decimal point.
pub fn write_fixed(d: &Dimension) -> (text: String)
    ensures
        text@ == fixed_text(*d),
{
    if d.is_nan() {
        return "NaN".to_string();
    }
    let mut text = String::new();
    if d.bits >= SIGN_BIT {
        proof {
            reveal_strlit("-");
        }
        text.append("-");
    }
    assert(text@ =~= sign_text(*d));
    if d.without_sign() == INFINITY_BITS {
        text.append("inf");
        return text;
    }
    let (m, x) = d.decode();
    if x >= 1074 {
        let mut v = digits_of(m as u128);
        let mut i: u32 = 0;
        proof {
            lemma2_to64();
            assert(m as nat * pow2(0) == m) by (nonlinear_arith)
                requires
                    pow2(0) == 1,
            ;
        }
        while i < x - 1074
            invariant
                i <= x - 1074,
                x >= 1074,
                is_digits(v@),
                value(v@) == m as nat * pow2(i as nat),
            decreases x - 1074 - i,
        {
            proof {
                lemma_pow2_unfold((i + 1) as nat);
                let p = pow2(i as nat);
                assert(2 * (m as nat * p) == m as nat * (2 * p)) by (nonlinear_arith);
            }
            v = times_small(&v, 2);
            i = i + 1;
        }
        proof {
            lemma_hundredths_of_whole(*d, m as nat, x as nat);
            let n = hundredths(*d);
            assert(n / 100 == value(v@) && n % 100 == 0) by (nonlinear_arith)
                requires
                    n == 100 * value(v@),
            ;
            assert(v@.skip(0) =~= v@);
            reveal_strlit(".00");
            reveal_with_fuel(padded_text, 3);
            assert(".00"@ =~= seq!['.'] + padded_text(0, 2));
        }
        write_whole(&mut text, &v, 0);
        text.append(".00");
        assert(text@ =~= fixed_text(*d));
        return text;
    }
    let shift: u32 = 1074 - x;
    let t: u128 = (m as u128) * 100;
    let n: u128 = if shift >= 64 {
        proof {
            lemma2_to64();
            lemma2_to64_rest();
            lemma_pow2_strictly_increases(62, (shift - 1) as nat);
            lemma_pow2_strictly_increases(62, shift as nat);
            let ps = pow2(shift as nat);
            let q = t as nat / ps;
            let r = t as nat % ps;
            lemma_fundamental_div_mod(t as int, ps as int);
            lemma_mod_bound(t as int, ps as int);
            assert(q == 0 && r == t) by (nonlinear_arith)
                requires
                    t == ps * q + r,
                    t < ps,
                    r < ps,
            ;
        }
        0
    } else {
        let whole_step = power_of_two(shift);
        let half = power_of_two(shift - 1);
        proof {
            lemma_pow2_pos(shift as nat);
        }
        let q = t / whole_step;
        let r = t % whole_step;
        if r > half || (r == half && q % 2 == 1) {
            q + 1
        } else {
            q
        }
    };
    proof {
        lemma_hundredths_of_fraction(*d, m as nat, x as nat);
        assert(n == hundredths(*d));
    }
    let whole = digits_of(n / 100);
    let places = extended(&digits_of(n % 100), 2);
    proof {
        assert(whole@.skip(0) =~= whole@);
        lemma_value_bound(places@);
        // Two digits are all that a number below 100 has.
        if places@.len() > 2 {
            lemma_value_part(places@, 0, 2);
            lemma_value_split(places@, 2);
            assert(pow10(2) == 100) by {
                reveal_with_fuel(pow10, 3);
            }
            assert(value(places@.subrange(0, 2)) == value(places@) % 100);
        } else {
            assert(places@.subrange(0, 2) =~= places@);
        }
        assert(value(places@.subrange(0, 2)) == n % 100);
        reveal_strlit(".");
    }
    write_whole(&mut text, &whole, 0);
    text.append(".");
    write_places(&mut text, &places, 0, 2);
    assert(text@ =~= fixed_text(*d));
    text
}

} // verus!
