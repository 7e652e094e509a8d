//! Arithmetic that does not round, and arithmetic that rounds alike.
use crate::ieee::arith::{lemma_nearest_zero, magnitude_of_int, Parts};
use crate::ieee::constants::{lemma_at, normal};
use crate::ieee::double::{lemma_double_format, Double};
use crate::ieee::laws::{
    lemma_encodes, lemma_nearest_encodes, lemma_nearest_monotone, lemma_negated, lemma_over_defined,
    lemma_parts_of, lemma_plus_value, lemma_ratio, lemma_ratio_finite, lemma_times_defined,
};
use crate::ieee::rounding::binary64;
use crate::ieee::scale::lemma_magnitude_increases;
use vstd::arithmetic::power2::*;
use vstd::prelude::*;

verus! {

/// Two numbers of one magnitude and opposite signs, or none.
pub open spec fn mirror(a: Double, b: Double) -> bool {
    &&& a.nan() == b.nan()
    &&& !a.nan() ==> a.value() == -b.value()
}

/// A number and its negation mirror each other.
pub proof fn lemma_mirror_negated(a: Double)
    ensures
        mirror(a, a.negated()),
{
    lemma_negated(a);
}

/// Numbers that mirror each other have one magnitude.
pub proof fn lemma_mirror_parts(a: Double, b: Double)
    requires
        mirror(a, b),
        !a.nan(),
    ensures
        a.parts().mag == b.parts().mag,
        a.parts().mag > 0 ==> a.parts().neg != b.parts().neg,
{
    reveal(Double::value);
    lemma_double_format();
    let (m, n) = (a.parts().mag as nat, b.parts().mag as nat);
    if m < n {
        lemma_magnitude_increases(binary64().h(), m, n);
    }
    if n < m {
        lemma_magnitude_increases(binary64().h(), n, m);
    }
    if m > 0 {
        lemma_magnitude_increases(binary64().h(), 0, m);
    }
}

/// Sums of mirrored numbers mirror each other.
pub proof fn lemma_mirror_plus(a: Double, b: Double, c: Double, d: Double)
    requires
        mirror(a, c),
        mirror(b, d),
    ensures
        mirror(a.plus(b), c.plus(d)),
{
    lemma_double_format();
    let f = binary64();
    lemma_encodes(a);
    lemma_encodes(b);
    lemma_encodes(c);
    lemma_encodes(d);
    if a.nan() || b.nan() {
        reveal(Double::plus);
        lemma_parts_of(f.nan());
    } else {
        lemma_mirror_parts(a, c);
        lemma_mirror_parts(b, d);
        if a.finite() && b.finite() {
            lemma_plus_value(a, b);
            lemma_plus_value(c, d);
            lemma_nearest_zero(f, 1);
            reveal(Double::value);
        } else {
            reveal(Double::plus);
            lemma_parts_of(f.nan());
        }
    }
}

/// Differences of mirrored numbers mirror each other.
pub proof fn lemma_mirror_minus(a: Double, b: Double, c: Double, d: Double)
    requires
        mirror(a, c),
        mirror(b, d),
    ensures
        mirror(a.minus(b), c.minus(d)),
{
    lemma_negated(b);
    lemma_negated(d);
    lemma_mirror_plus(a, b.negated(), c, d.negated());
}

/// Mirrored numbers over the same number mirror each other.
pub proof fn lemma_mirror_over(a: Double, b: Double, c: Double)
    requires
        mirror(a, b),
        c.finite(),
        c.parts().mag > 0,
    ensures
        mirror(a.over(c), b.over(c)),
{
    lemma_double_format();
    let f = binary64();
    lemma_encodes(a);
    lemma_encodes(b);
    reveal(Double::over);
    reveal(Double::value);
    if a.nan() {
        lemma_parts_of(f.nan());
    } else {
        lemma_mirror_parts(a, b);
        if a.finite() {
            lemma_over_defined(a, c);
            lemma_over_defined(b, c);
            if a.parts().mag == 0 {
                lemma_magnitude_increases(f.h(), 0, c.parts().mag as nat);
                lemma_nearest_zero(f, f.units(c.parts()));
                assert(0 * f.one() == 0);
            }
        } else {
            lemma_parts_of(f.over(a.parts(), c.parts()));
            lemma_parts_of(f.over(b.parts(), c.parts()));
        }
    }
}

/// Mirrored numbers times the same number mirror each other.
pub proof fn lemma_mirror_times(a: Double, b: Double, c: Double)
    requires
        mirror(a, b),
        a.finite(),
        c.finite(),
    ensures
        mirror(a.times(c), b.times(c)),
{
    lemma_double_format();
    let f = binary64();
    reveal(Double::value);
    lemma_mirror_parts(a, b);
    lemma_times_defined(a, c);
    lemma_times_defined(b, c);
    if a.parts().mag == 0 {
        lemma_pow2_pos(1074);
        lemma_nearest_zero(f, f.one());
        assert(0 * f.units(c.parts()) == 0);
    }
}

/// Mirrored numbers have the same square.
pub proof fn lemma_mirror_square(a: Double, b: Double)
    requires
        mirror(a, b),
    ensures
        a.times(a) == b.times(b),
{
    reveal(Double::times);
    if !a.nan() {
        lemma_mirror_parts(a, b);
    }
}

/// A positive integer of at most 53 binary digits has a significand of its own.
proof fn lemma_significand(n: nat) -> (k: nat)
    requires
        0 < n < 0x20_0000_0000_0000,
    ensures
        0x10_0000_0000_0000 <= n * pow2(k) < 0x20_0000_0000_0000,
        k <= 52,
{
    lemma2_to64();
    lemma_significand_within(n, 0)
}

/// The same of an integer that was doubled some times.
proof fn lemma_significand_within(n: nat, doubled: nat) -> (k: nat)
    requires
        pow2(doubled) <= n < 0x20_0000_0000_0000,
        doubled <= 52,
    ensures
        0x10_0000_0000_0000 <= n * pow2(k) < 0x20_0000_0000_0000,
        k + doubled <= 52,
    decreases 52 - doubled,
{
    lemma2_to64();
    lemma2_to64_rest();
    if n >= 0x10_0000_0000_0000 {
        0
    } else {
        lemma_pow2_adds(doubled, 1);
        let j = lemma_significand_within(2 * n, doubled + 1);
        lemma_pow2_adds(j, 1);
        assert((2 * n) * pow2(j) == n * pow2(j + 1)) by (nonlinear_arith)
            requires
                pow2(j + 1) == pow2(j) * 2,
        ;
        j + 1
    }
}

/// An integer of at most 53 binary digits is not rounded.
pub proof fn lemma_integer_exact(n: int)
    requires
        -0x20_0000_0000_0000 < n < 0x20_0000_0000_0000,
    ensures
        Double::integer(n).finite(),
        Double::integer(n).parts().neg == (n < 0),
        Double::integer(n).value() == n * binary64().one(),
        (Double::integer(n).parts().mag == 0) == (n == 0),
{
    lemma_double_format();
    let f = binary64();
    lemma_ratio(n, 1);
    lemma_ratio_finite(n, 1);
    reveal(Double::value);
    reveal(Double::ratio);
    let a = magnitude_of_int(n);
    let one = f.one();
    lemma_nearest_encodes(n < 0, a * one, 1);
    lemma_parts_of(f.quotient_of_integers(n < 0, a, 1));
    if n == 0 {
        lemma_nearest_zero(f, 1);
        assert(0 * one == 0);
    } else {
        let k = lemma_significand(a);
        let e = (1074 - k) as nat;
        let q = a * pow2(k);
        assert(normal(e, q));
        lemma_at(e, q);
        lemma_pow2_adds(e, k);
        assert(q * pow2(e) == a * one) by (nonlinear_arith)
            requires
                q == a * pow2(k),
                one == pow2(e) * pow2(k),
        ;
        assert(-(a * one) == (-a) * one) by (nonlinear_arith);
    }
}

/// The sum of two integers that are not rounded is the number nearest to their sum.
pub proof fn lemma_integers_plus(a: int, b: int)
    requires
        -0x20_0000_0000_0000 < a < 0x20_0000_0000_0000,
        -0x20_0000_0000_0000 < b < 0x20_0000_0000_0000,
    ensures
        Double::integer(a).plus(Double::integer(b)) == Double::integer(a + b),
{
    lemma_double_format();
    let f = binary64();
    lemma_integer_exact(a);
    lemma_integer_exact(b);
    reveal(Double::value);
    reveal(Double::plus);
    reveal(Double::ratio);
    let one = f.one();
    lemma_pow2_pos(1074);
    let s = a * one + b * one;
    assert(s == (a + b) * one) by (nonlinear_arith)
        requires
            s == a * one + b * one,
    ;
    lemma_multiple(a + b, one);
    lemma_nearest_zero(f, 1);
    assert(0 * one == 0);
}

/// The sign and the magnitude of a multiple.
proof fn lemma_multiple(n: int, one: nat)
    requires
        one > 0,
    ensures
        n < 0 ==> n * one < 0,
        n > 0 ==> n * one > 0,
        magnitude_of_int(n * one) == magnitude_of_int(n) * one,
{
    assert(n < 0 ==> n * one < 0) by (nonlinear_arith)
        requires
            one > 0,
    ;
    assert(n > 0 ==> n * one > 0) by (nonlinear_arith)
        requires
            one > 0,
    ;
    assert(-(n * one) == (-n) * one) by (nonlinear_arith);
    assert(0 * one == 0);
}

/// The difference of two integers that are not rounded is the number nearest to
/// their difference.
pub proof fn lemma_integers_minus(a: int, b: int)
    requires
        -0x20_0000_0000_0000 < a < 0x20_0000_0000_0000,
        -0x20_0000_0000_0000 < b < 0x20_0000_0000_0000,
    ensures
        Double::integer(a).minus(Double::integer(b)) == Double::integer(a - b),
{
    lemma_double_format();
    let f = binary64();
    lemma_integer_exact(a);
    lemma_integer_exact(b);
    lemma_negated(Double::integer(b));
    lemma_encodes(Double::integer(b));
    lemma_parts_of(
        Parts { neg: !Double::integer(b).parts().neg, mag: Double::integer(b).parts().mag },
    );
    reveal(Double::value);
    reveal(Double::plus);
    reveal(Double::ratio);
    let one = f.one();
    lemma_pow2_pos(1074);
    let s = a * one - b * one;
    assert(s == (a - b) * one) by (nonlinear_arith)
        requires
            s == a * one - b * one,
    ;
    lemma_multiple(a - b, one);
    lemma_nearest_zero(f, 1);
    assert(0 * one == 0);
}

/// A multiple of an integer that is not rounded, over the factor, is the integer.
pub proof fn lemma_integers_over(r: int, n: nat)
    requires
        n > 0,
        n < 0x20_0000_0000_0000,
        -0x20_0000_0000_0000 < r * n < 0x20_0000_0000_0000,
    ensures
        Double::integer(r * n).over(Double::integer(n as int)) == Double::integer(r),
{
    lemma_double_format();
    let f = binary64();
    let (a, b) = (Double::integer(r * n), Double::integer(n as int));
    lemma_integer_exact(r * n);
    lemma_integer_exact(n as int);
    lemma_multiple(r, n);
    lemma_over_defined(a, b);
    lemma_encodes(a.over(b));
    reveal(Double::value);
    reveal(Double::ratio);
    lemma_pow2_pos(1074);
    let (m, one) = (magnitude_of_int(r), f.one());
    lemma_multiple(r * n, one);
    lemma_multiple(n as int, one);
    let num = (m * n) * one * one;
    let den = n * one;
    assert(den > 0) by (nonlinear_arith)
        requires
            den == n * one,
            n > 0,
            one > 0,
    ;
    assert(num * 1 == (m * one) * den) by (nonlinear_arith)
        requires
            num == (m * n) * one * one,
            den == n * one,
    ;
    lemma_nearest_monotone(f.h(), f.limit(), num, den, m * one, 1);
    lemma_nearest_monotone(f.h(), f.limit(), m * one, 1, num, den);
}

} // verus!
