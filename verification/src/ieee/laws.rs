//! Laws of double-precision arithmetic.
use crate::ieee::arith::{lemma_nearest_zero, magnitude_of_int, Parts};
use crate::ieee::convert::lemma_nearest_exact;
use crate::ieee::double::{lemma_double_format, Double};
use crate::ieee::rounding::{binary32, binary64, lemma_format};
use crate::ieee::scale::{
    is_floor, lemma_floor_exists, lemma_magnitude_at, lemma_magnitude_increases,
    lemma_magnitude_parts, lemma_nearest_from_floor, magnitude, nearest,
};
use crate::ieee::single::{lemma_single_format, Single};
use vstd::arithmetic::mul::*;
use vstd::arithmetic::power2::*;
use vstd::prelude::*;

verus! {

/// Rounding keeps the order of quotients.
pub proof fn lemma_nearest_monotone(h: nat, limit: nat, n1: nat, d1: nat, n2: nat, d2: nat)
    requires
        h > 0,
        d1 > 0,
        d2 > 0,
        n1 * d2 <= n2 * d1,
    ensures
        nearest(h, limit, n1, d1) <= nearest(h, limit, n2, d2),
{
    lemma_floor_exists(h, n1, d1);
    lemma_floor_exists(h, n2, d2);
    let f1 = choose|b: nat| is_floor(h, n1, d1, b);
    let f2 = choose|b: nat| is_floor(h, n2, d2, b);
    lemma_nearest_from_floor(h, limit, n1, d1, f1);
    lemma_nearest_from_floor(h, limit, n2, d2, f2);
    let a = magnitude(h, f1);
    let b = magnitude(h, f2 + 1);
    if f1 > f2 {
        if f1 > f2 + 1 {
            lemma_magnitude_increases(h, f2 + 1, f1);
        }
        assert(n1 * d2 > n2 * d1) by (nonlinear_arith)
            requires
                b <= a,
                a * d1 <= n1,
                n2 < b * d2,
                d1 > 0,
                d2 > 0,
        ;
        assert(false);
    }
    if f1 == f2 {
        let c = magnitude(h, f1) + magnitude(h, f1 + 1);
        assert(2 * n1 > c * d1 ==> 2 * n2 > c * d2) by (nonlinear_arith)
            requires
                n1 * d2 <= n2 * d1,
                d1 > 0,
                d2 > 0,
        ;
        assert(2 * n1 == c * d1 ==> 2 * n2 >= c * d2) by (nonlinear_arith)
            requires
                n1 * d2 <= n2 * d1,
                d1 > 0,
                d2 > 0,
        ;
    }
}

/// Encodings are ordered as the magnitudes that they stand for.
proof fn lemma_units_monotone(a: Parts, b: Parts)
    requires
        a.mag <= b.mag,
    ensures
        binary64().units(a) <= binary64().units(b),
{
    lemma_double_format();
    if a.mag < b.mag {
        lemma_magnitude_increases(binary64().h(), a.mag as nat, b.mag as nat);
    }
}

/// Taking a number apart undoes putting it together.
pub proof fn lemma_parts_of(p: Parts)
    requires
        binary64().encodes(p),
    ensures
        Double::of(p).parts() == p,
{
    lemma_double_format();
}

/// Every encoding is a number, an infinity or not a number.
pub proof fn lemma_encodes(x: Double)
    ensures
        binary64().encodes(x.parts()),
        Double::of(x.parts()) == x,
{
    lemma_double_format();
}

/// Negation changes the sign of the value, and of nothing else.
pub proof fn lemma_negated(x: Double)
    ensures
        x.negated().value() == -x.value(),
        x.negated().nan() == x.nan(),
        x.negated().finite() == x.finite(),
        x.negated().negated() == x,
{
    reveal(Double::value);
    lemma_encodes(x);
    lemma_parts_of(Parts { neg: !x.parts().neg, mag: x.parts().mag });
}

/// The absolute value is not negative and has the same magnitude.
pub proof fn lemma_absolute(x: Double)
    ensures
        x.absolute().value() == if x.value() < 0 {
            -x.value()
        } else {
            x.value()
        },
        x.absolute().value() >= 0,
        x.absolute().nan() == x.nan(),
        x.absolute().finite() == x.finite(),
{
    reveal(Double::value);
    lemma_encodes(x);
    lemma_parts_of(Parts { neg: false, mag: x.parts().mag });
}

/// Zero has the value 0.
pub proof fn lemma_zero()
    ensures
        Double::zero().value() == 0,
        Double::zero().finite(),
        !Double::zero().nan(),
{
    reveal(Double::value);
    lemma_double_format();
}

/// A clamped number lies between the bounds.
pub proof fn lemma_clamped(x: Double, lo: Double, hi: Double)
    requires
        lo.at_most(hi),
        !x.nan(),
    ensures
        lo.at_most(x.clamped(lo, hi)),
        x.clamped(lo, hi).at_most(hi),
{
    reveal(Double::value);
}

/// A number between two finite ones is finite.
pub proof fn lemma_between_finite(lo: Double, x: Double, hi: Double)
    requires
        lo.finite(),
        hi.finite(),
        lo.at_most(x),
        x.at_most(hi),
    ensures
        x.finite(),
{
    reveal(Double::value);
    lemma_double_format();
    if !x.finite() {
        if x.parts().neg {
            lemma_magnitude_increases(
                binary64().h(),
                lo.parts().mag as nat,
                x.parts().mag as nat,
            );
            lemma_units_monotone(Parts { neg: false, mag: 0 }, lo.parts());
        } else {
            lemma_magnitude_increases(
                binary64().h(),
                hi.parts().mag as nat,
                x.parts().mag as nat,
            );
            lemma_units_monotone(Parts { neg: false, mag: 0 }, hi.parts());
        }
    }
}

/// The magnitude nearest to any quotient is encoded without loss.
pub proof fn lemma_nearest_encodes(neg: bool, num: nat, den: nat)
    ensures
        binary64().encodes(binary64().rounded(neg, num, den)),
        !binary64().is_nan(binary64().rounded(neg, num, den)),
        binary64().rounded(neg, num, den).mag == binary64().nearest(num, den),
{
    lemma_double_format();
}

/// A sum with a finite summand is a number.
pub proof fn lemma_plus_defined(a: Double, b: Double)
    requires
        !a.nan(),
        !b.nan(),
        a.finite() || b.finite(),
    ensures
        !a.plus(b).nan(),
{
    reveal(Double::plus);
    lemma_double_format();
    lemma_encodes(a);
    lemma_encodes(b);
    let s = binary64().value(a.parts()) + binary64().value(b.parts());
    lemma_nearest_encodes(s < 0, magnitude_of_int(s), 1);
    lemma_parts_of(binary64().plus(a.parts(), b.parts()));
}

/// A product of finite numbers is a number.
pub proof fn lemma_times_defined(a: Double, b: Double)
    requires
        a.finite(),
        b.finite(),
    ensures
        !a.times(b).nan(),
        a.times(b).parts().neg == (a.parts().neg != b.parts().neg),
        a.times(b).parts().mag == binary64().nearest(
            binary64().units(a.parts()) * binary64().units(b.parts()),
            binary64().one(),
        ),
{
    reveal(Double::times);
    lemma_double_format();
    lemma_nearest_encodes(
        a.parts().neg != b.parts().neg,
        binary64().units(a.parts()) * binary64().units(b.parts()),
        binary64().one(),
    );
    lemma_parts_of(binary64().times(a.parts(), b.parts()));
}

/// A product grows with either factor, for finite factors that are not negative.
pub proof fn lemma_times_monotone(a: Double, b: Double, x: Double, y: Double)
    requires
        b.finite(),
        y.finite(),
        !a.parts().neg,
        !x.parts().neg,
        a.at_most(b),
        x.at_most(y),
        !b.parts().neg,
        !y.parts().neg,
    ensures
        a.times(x).at_most(b.times(y)),
{
    reveal(Double::value);
    lemma_double_format();
    lemma_format(binary64());
    let f = binary64();
    let (ua, ub, ux, uy) = (
        f.units(a.parts()),
        f.units(b.parts()),
        f.units(x.parts()),
        f.units(y.parts()),
    );
    lemma_zero();
    if !a.finite() {
        lemma_magnitude_increases(f.h(), b.parts().mag as nat, a.parts().mag as nat);
    }
    if !x.finite() {
        lemma_magnitude_increases(f.h(), y.parts().mag as nat, x.parts().mag as nat);
    }
    lemma_times_defined(a, x);
    lemma_times_defined(b, y);
    let one = f.one();
    lemma_pow2_pos(f.unit as nat);
    assert(ua * ux * one <= ub * uy * one) by (nonlinear_arith)
        requires
            ua <= ub,
            ux <= uy,
            one > 0,
    ;
    lemma_nearest_monotone(f.h(), f.limit(), ua * ux, one, ub * uy, one);
    lemma_units_monotone(a.times(x).parts(), b.times(y).parts());
}

/// A quotient of integers is a number with the sign of the dividend.
pub proof fn lemma_ratio(n: int, d: nat)
    requires
        d > 0,
    ensures
        !Double::ratio(n, d).nan(),
        Double::ratio(n, d).parts().neg == (n < 0),
        n >= 0 ==> Double::ratio(n, d).value() >= 0,
        n < 0 ==> Double::ratio(n, d).value() <= 0,
        n > 0 ==> Double::ratio(-n, d) == Double::ratio(n, d).negated(),
{
    reveal(Double::ratio);
    reveal(Double::value);
    lemma_double_format();
    let a = if n < 0 {
        -n
    } else {
        n
    };
    lemma_nearest_encodes(n < 0, a as nat * binary64().one(), d);
    lemma_parts_of(binary64().quotient_of_integers(n < 0, a as nat, d));
}

/// Quotients of integers are rounded in their order.
pub proof fn lemma_ratio_order(n1: nat, d1: nat, n2: nat, d2: nat)
    requires
        d1 > 0,
        d2 > 0,
        n1 * d2 <= n2 * d1,
    ensures
        Double::ratio(n1 as int, d1).at_most(Double::ratio(n2 as int, d2)),
{
    lemma_ratio(n1 as int, d1);
    lemma_ratio(n2 as int, d2);
    reveal(Double::ratio);
    reveal(Double::value);
    lemma_double_format();
    let f = binary64();
    let one = f.one();
    lemma_pow2_pos(f.unit as nat);
    assert((n1 * one) * d2 <= (n2 * one) * d1) by (nonlinear_arith)
        requires
            n1 * d2 <= n2 * d1,
            one > 0,
    ;
    lemma_nearest_monotone(f.h(), f.limit(), n1 * one, d1, n2 * one, d2);
    lemma_nearest_encodes(false, n1 * one, d1);
    lemma_nearest_encodes(false, n2 * one, d2);
    lemma_parts_of(f.quotient_of_integers(false, n1, d1));
    lemma_parts_of(f.quotient_of_integers(false, n2, d2));
    lemma_units_monotone(
        Double::ratio(n1 as int, d1).parts(),
        Double::ratio(n2 as int, d2).parts(),
    );
}

/// A quotient of integers of at most 64 bits is finite.
pub proof fn lemma_ratio_finite(n: int, d: nat)
    requires
        -0x1_0000_0000_0000_0000 <= n <= 0x1_0000_0000_0000_0000,
        d > 0,
    ensures
        Double::ratio(n, d).finite(),
{
    reveal(Double::ratio);
    lemma_double_format();
    lemma_format(binary64());
    let f = binary64();
    let h = f.h();
    let a = (if n < 0 {
        -n
    } else {
        n
    }) as nat;
    let b = 1086 * h + h;
    lemma_magnitude_at(h, 1086, h);
    lemma_pow2_adds(52, 1086);
    lemma_pow2_adds(64, 1074);
    lemma2_to64();
    let one = f.one();
    let m = magnitude(h, b);
    lemma_pow2_pos(f.unit as nat);
    assert(m == 0x1_0000_0000_0000_0000 * one);
    lemma_nearest_exact(f, b);
    assert((a * one) * 1 <= m * d) by (nonlinear_arith)
        requires
            m == 0x1_0000_0000_0000_0000 * one,
            a <= 0x1_0000_0000_0000_0000,
            d >= 1,
            one > 0,
    ;
    lemma_nearest_monotone(h, f.limit(), a * one, d, m, 1);
    lemma_nearest_encodes(n < 0, a * one, d);
    lemma_parts_of(f.quotient_of_integers(n < 0, a, d));
}

/// A positive integer is a positive number.
pub proof fn lemma_integer_positive(n: nat)
    requires
        n > 0,
    ensures
        Double::integer(n as int).parts().mag > 0,
{
    reveal(Double::ratio);
    lemma_double_format();
    let f = binary64();
    let one = f.one();
    lemma_pow2_pos(f.unit as nat);
    lemma_nearest_exact(f, 1);
    assert(n * one >= 1) by (nonlinear_arith)
        requires
            n >= 1,
            one >= 1,
    ;
    lemma_nearest_monotone(f.h(), f.limit(), 1, 1, n * one, 1);
    lemma_nearest_encodes(false, n * one, 1);
    lemma_parts_of(f.quotient_of_integers(false, n, 1));
}

/// A number and its negative bound a range.
pub proof fn lemma_symmetric_range(m: Double)
    requires
        !m.nan(),
        m.value() >= 0,
    ensures
        m.negated().at_most(m),
{
    lemma_negated(m);
}

/// What the sum of finite numbers is: the sum of the values, rounded.
pub proof fn lemma_plus_value(a: Double, b: Double)
    requires
        a.finite(),
        b.finite(),
    ensures
        !a.plus(b).nan(),
        ({
            let s = a.value() + b.value();
            let m = magnitude(
                binary64().h(),
                binary64().nearest(magnitude_of_int(s), 1),
            ) as int;
            &&& a.plus(b).value() == if s < 0 {
                -m
            } else {
                m
            }
            &&& a.plus(b).parts().mag == binary64().nearest(magnitude_of_int(s), 1)
        }),
{
    reveal(Double::plus);
    reveal(Double::value);
    lemma_double_format();
    let f = binary64();
    let s = f.value(a.parts()) + f.value(b.parts());
    lemma_nearest_encodes(s < 0, magnitude_of_int(s), 1);
    lemma_nearest_zero(f, 1);
    lemma_parts_of(f.plus(a.parts(), b.parts()));
    lemma_units_monotone(
        Parts { neg: false, mag: 0 },
        Parts { neg: false, mag: f.nearest(magnitude_of_int(s), 1) as u64 },
    );
}

/// A sum does not depend on the order of its summands.
pub proof fn lemma_plus_commutes(a: Double, b: Double)
    requires
        a.finite(),
        b.finite(),
    ensures
        a.plus(b) == b.plus(a),
{
    reveal(Double::plus);
    lemma_double_format();
}

/// A sum grows with a summand.
pub proof fn lemma_plus_monotone(c: Double, a: Double, b: Double)
    requires
        a.finite(),
        b.finite(),
        c.finite(),
        a.at_most(b),
    ensures
        c.plus(a).at_most(c.plus(b)),
{
    lemma_double_format();
    let f = binary64();
    lemma_plus_value(c, a);
    lemma_plus_value(c, b);
    let s = c.value() + a.value();
    let t = c.value() + b.value();
    let (m, n) = (magnitude_of_int(s), magnitude_of_int(t));
    let (x, y) = (f.nearest(m, 1), f.nearest(n, 1));
    if m <= n {
        lemma_nearest_monotone(f.h(), f.limit(), m, 1, n, 1);
        if x < y {
            lemma_magnitude_increases(f.h(), x, y);
        }
    }
    if n <= m {
        lemma_nearest_monotone(f.h(), f.limit(), n, 1, m, 1);
        if y < x {
            lemma_magnitude_increases(f.h(), y, x);
        }
    }
}

/// A sum of numbers whose magnitudes add up to no more than a number does not
/// exceed it.
pub proof fn lemma_plus_within(a: Double, b: Double, c: Double)
    requires
        a.finite(),
        b.finite(),
        c.finite(),
        !c.parts().neg,
        magnitude_of_int(a.value()) + magnitude_of_int(b.value()) <= c.value(),
    ensures
        c.negated().at_most(a.plus(b)),
        a.plus(b).at_most(c),
{
    reveal(Double::value);
    lemma_double_format();
    let f = binary64();
    lemma_plus_value(a, b);
    lemma_negated(c);
    let m = magnitude_of_int(a.value() + b.value());
    let u = f.units(c.parts());
    lemma_nearest_exact(f, c.parts().mag as nat);
    lemma_nearest_monotone(f.h(), f.limit(), m, 1, u, 1);
    let x = f.nearest(m, 1);
    if x < c.parts().mag {
        lemma_magnitude_increases(f.h(), x, c.parts().mag as nat);
    }
}

/// Zero, of either sign, added to a finite number leaves its value.
pub proof fn lemma_plus_nothing(a: Double, z: Double)
    requires
        a.finite(),
        z.parts().mag == 0,
    ensures
        a.plus(z).value() == a.value(),
        a.parts().mag > 0 ==> a.plus(z) == a,
{
    lemma_double_format();
    let f = binary64();
    reveal(Double::value);
    reveal(Double::plus);
    lemma_encodes(a);
    lemma_plus_value(a, z);
    assert(f.units(z.parts()) == 0);
    lemma_nearest_exact(f, a.parts().mag as nat);
    if a.parts().mag > 0 {
        lemma_magnitude_increases(f.h(), 0, a.parts().mag as nat);
    }
}

/// What is multiplied by one stays as it is.
pub proof fn lemma_times_one(a: Double)
    requires
        a.finite(),
    ensures
        Double::integer(1).times(a) == a,
{
    lemma_double_format();
    let f = binary64();
    let i = Double::integer(1);
    lemma_one_value();
    lemma_encodes(a);
    lemma_ratio(1, 1);
    lemma_ratio_finite(1, 1);
    lemma_times_defined(i, a);
    lemma_encodes(i.times(a));
    let (one, u) = (f.one(), f.units(a.parts()));
    lemma_pow2_pos(f.unit as nat);
    lemma_nearest_exact(f, a.parts().mag as nat);
    assert((one * u) * 1 == u * one) by (nonlinear_arith);
    lemma_nearest_monotone(f.h(), f.limit(), one * u, one, u, 1);
    lemma_nearest_monotone(f.h(), f.limit(), u, 1, one * u, one);
}

/// The number 1 is one.
pub proof fn lemma_one_value()
    ensures
        binary64().units(Double::integer(1).parts()) == binary64().one(),
        !Double::integer(1).parts().neg,
{
    lemma_double_format();
    lemma_format(binary64());
    let f = binary64();
    lemma_ratio(1, 1);
    reveal(Double::ratio);
    lemma2_to64();
    lemma2_to64_rest();
    let h = f.h();
    let b = 1022 * h + h;
    lemma_magnitude_at(h, 1022, h);
    lemma_pow2_adds(52, 1022);
    assert(magnitude(h, b) == f.one());
    lemma_nearest_exact(f, b);
    assert(1 * f.one() == f.one());
    lemma_nearest_encodes(false, f.one(), 1);
    lemma_parts_of(f.quotient_of_integers(false, 1, 1));
}

/// A quotient by a number that is not zero is a number, unless both are infinite.
pub proof fn lemma_over_defined(a: Double, b: Double)
    requires
        !a.nan(),
        !b.nan(),
        b.parts().mag > 0,
        a.finite() || b.finite(),
    ensures
        !a.over(b).nan(),
        a.finite() && b.finite() ==> a.over(b).parts() == (Parts {
            neg: a.parts().neg != b.parts().neg,
            mag: binary64().nearest(
                binary64().units(a.parts()) * binary64().one(),
                binary64().units(b.parts()),
            ) as u64,
        }),
{
    reveal(Double::over);
    lemma_double_format();
    let f = binary64();
    lemma_nearest_encodes(
        a.parts().neg != b.parts().neg,
        f.units(a.parts()) * f.one(),
        f.units(b.parts()),
    );
    lemma_parts_of(f.over(a.parts(), b.parts()));
}

/// A quotient by a positive number grows with the dividend, for dividends that are
/// not negative; what is divided by itself is one.
pub proof fn lemma_over_monotone(a: Double, b: Double, c: Double)
    requires
        a.finite(),
        b.finite(),
        c.finite(),
        !a.parts().neg,
        !b.parts().neg,
        !c.parts().neg,
        c.parts().mag > 0,
        a.at_most(b),
    ensures
        a.over(c).at_most(b.over(c)),
        !a.over(c).parts().neg,
        c.over(c).value() == Double::integer(1).value(),
{
    lemma_double_format();
    reveal(Double::value);
    let f = binary64();
    lemma_over_defined(a, c);
    lemma_over_defined(b, c);
    lemma_over_defined(c, c);
    let (ua, ub, uc, one) = (
        f.units(a.parts()),
        f.units(b.parts()),
        f.units(c.parts()),
        f.one(),
    );
    lemma_magnitude_increases(f.h(), 0, c.parts().mag as nat);
    lemma_pow2_pos(f.unit as nat);
    assert((ua * one) * uc <= (ub * one) * uc) by (nonlinear_arith)
        requires
            ua <= ub,
            one > 0,
            uc > 0,
    ;
    lemma_nearest_monotone(f.h(), f.limit(), ua * one, uc, ub * one, uc);
    lemma_nearest_encodes(false, ua * one, uc);
    lemma_nearest_encodes(false, ub * one, uc);
    lemma_nearest_encodes(false, uc * one, uc);
    lemma_units_monotone(a.over(c).parts(), b.over(c).parts());
    lemma_one_value();
    let i = Double::integer(1).parts();
    lemma_ratio(1, 1);
    lemma_nearest_exact(f, i.mag as nat);
    assert((uc * one) * 1 == one * uc) by (nonlinear_arith);
    lemma_nearest_monotone(f.h(), f.limit(), uc * one, uc, one, 1);
    lemma_nearest_monotone(f.h(), f.limit(), one, 1, uc * one, uc);
}

/// A quotient by a number from one on is no larger than the dividend.
pub proof fn lemma_over_shrinks(a: Double, c: Double)
    requires
        a.finite(),
        c.finite(),
        !c.parts().neg,
        Double::integer(1).at_most(c),
    ensures
        a.over(c).finite(),
        a.over(c).parts().mag <= a.parts().mag,
{
    lemma_double_format();
    reveal(Double::value);
    let f = binary64();
    lemma_one_value();
    lemma_pow2_pos(f.unit as nat);
    let (ua, uc, one) = (f.units(a.parts()), f.units(c.parts()), f.one());
    if c.parts().mag == 0 {
        assert(uc == 0);
    }
    lemma_over_defined(a, c);
    assert((ua * one) * 1 <= ua * uc) by (nonlinear_arith)
        requires
            one <= uc,
    ;
    lemma_nearest_monotone(f.h(), f.limit(), ua * one, uc, ua, 1);
    lemma_nearest_exact(f, a.parts().mag as nat);
    lemma_nearest_encodes(false, ua * one, uc);
}

/// A number from `2^53` on has no fractional part: what is left of it beyond its
/// integral part is nothing, however it is scaled.
pub proof fn lemma_fractionless(x: Double, scale: Double)
    requires
        scale.finite(),
        x.truncation().as_integer(0, u64::MAX as int) >= 0x20_0000_0000_0000,
    ensures
        x.minus(x.truncation()).times(scale).as_integer(0, u32::MAX as int) == 0,
{
    lemma_double_format();
    lemma_format(binary64());
    lemma_encodes(x);
    let f = binary64();
    let a = x.parts();
    reveal(Double::truncation);
    if !x.finite() {
        // An infinity less itself, or what is not a number, is not a number.
        assert(f.truncated(a) == a);
        lemma_nan_propagates(x, scale);
    } else {
        lemma_truncated_encodes(x);
        let w = f.whole(a);
        lemma_whole_of_truncated(x);
        reveal(Double::as_integer);
        assert(w >= 0x20_0000_0000_0000);
        lemma_integral_beyond(x);
        lemma_difference_of_equals(x, scale);
    }
}

/// The integral part of a finite number is a number.
proof fn lemma_truncated_encodes(x: Double)
    requires
        x.finite(),
    ensures
        x.truncation().parts() == binary64().truncated(x.parts()),
{
    reveal(Double::truncation);
    lemma_nearest_encodes(x.parts().neg, binary64().whole(x.parts()) * binary64().one(), 1);
    lemma_parts_of(binary64().truncated(x.parts()));
}

/// Taking the integral part keeps it.
proof fn lemma_whole_of_truncated(x: Double)
    requires
        x.finite(),
    ensures
        binary64().whole(x.truncation().parts()) <= binary64().whole(x.parts()),
        x.truncation().finite(),
        x.truncation().parts().neg == x.parts().neg,
{
    lemma_double_format();
    lemma_format(binary64());
    lemma_truncated_encodes(x);
    let f = binary64();
    let (one, u) = (f.one(), f.units(x.parts()));
    let w = f.whole(x.parts());
    lemma_pow2_pos(f.unit as nat);
    vstd::arithmetic::div_mod::lemma_fundamental_div_mod(u as int, one as int);
    vstd::arithmetic::div_mod::lemma_mod_bound(u as int, one as int);
    assert(w * one <= u) by (nonlinear_arith)
        requires
            u == one * w + u as int % one as int,
            u as int % one as int >= 0,
    ;
    lemma_nearest_exact(f, x.parts().mag as nat);
    lemma_nearest_monotone(f.h(), f.limit(), w * one, 1, u, 1);
    lemma_nearest_encodes(x.parts().neg, w * one, 1);
    let t = x.truncation().parts();
    assert(t.mag <= x.parts().mag);
    lemma_units_monotone(t, x.parts());
    vstd::arithmetic::div_mod::lemma_div_is_ordered(
        f.units(t) as int,
        u as int,
        one as int,
    );
}

/// A finite number whose integral part needs more than the significand's digits
/// is its integral part.
proof fn lemma_integral_beyond(x: Double)
    requires
        x.finite(),
        binary64().whole(x.parts()) >= 0x20_0000_0000_0000,
    ensures
        x.truncation() == x,
{
    lemma_double_format();
    lemma_format(binary64());
    lemma_encodes(x);
    reveal(Double::truncation);
    let f = binary64();
    let h = f.h();
    let b = x.parts().mag as nat;
    let one = f.one();
    let u = f.units(x.parts());
    lemma_pow2_pos(1074);
    lemma2_to64();
    if b < h {
        vstd::arithmetic::div_mod::lemma_div_is_ordered_by_denominator(u as int, 1, one as int);
        vstd::arithmetic::div_mod::lemma_div_by_self(1);
        assert(u as int / 1 == u);
        assert(false);
    }
    lemma_magnitude_parts(h, b);
    let m = h + b % h;
    let e = (b / h - 1) as nat;
    assert(u == m * pow2(e));
    if e < 1074 {
        lemma_pow2_strictly_increases(e, 1074);
        assert(u < 0x20_0000_0000_0000 * one) by (nonlinear_arith)
            requires
                u == m * pow2(e),
                m < 0x20_0000_0000_0000,
                pow2(e) < one,
        ;
        vstd::arithmetic::div_mod::lemma_fundamental_div_mod(u as int, one as int);
        vstd::arithmetic::div_mod::lemma_mod_bound(u as int, one as int);
        let w = f.whole(x.parts());
        assert(false) by (nonlinear_arith)
            requires
                u == one * w + u as int % one as int,
                u as int % one as int >= 0,
                w >= 0x20_0000_0000_0000,
                u < 0x20_0000_0000_0000 * one,
                one > 0,
        ;
    }
    let d = (e - 1074) as nat;
    lemma_pow2_adds(1074, d);
    let q = m * pow2(d);
    assert(u == q * one) by (nonlinear_arith)
        requires
            u == m * pow2(e),
            pow2(e) == one * pow2(d),
            q == m * pow2(d),
    ;
    vstd::arithmetic::div_mod::lemma_div_multiples_vanish(q as int, one as int);
    assert(one * q == q * one) by (nonlinear_arith);
    lemma_nearest_exact(f, b);
}

/// What is left of a number less itself scales to nothing.
proof fn lemma_difference_of_equals(x: Double, scale: Double)
    requires
        x.finite(),
        scale.finite(),
        x.truncation() == x,
    ensures
        x.minus(x.truncation()).times(scale).as_integer(0, u32::MAX as int) == 0,
{
    lemma_double_format();
    lemma_format(binary64());
    let f = binary64();
    let n = x.negated();
    lemma_encodes(x);
    lemma_parts_of(Parts { neg: !x.parts().neg, mag: x.parts().mag });
    reveal(Double::plus);
    let z = x.minus(x);
    assert(z == Double::of(Parts { neg: false, mag: 0 }));
    lemma_parts_of(Parts { neg: false, mag: 0 });
    lemma_times_defined(z, scale);
    assert(f.units(z.parts()) == 0);
    assert(0 * f.units(scale.parts()) == 0);
    lemma_pow2_pos(f.unit as nat);
    lemma_nearest_zero(f, f.one());
    reveal(Double::as_integer);
    assert(f.units(z.times(scale).parts()) == 0);
    vstd::arithmetic::div_mod::lemma_div_basics(f.one() as int);
}

/// What is not a number, or infinite, less itself is not a number.
proof fn lemma_nan_propagates(x: Double, scale: Double)
    requires
        !x.finite(),
        x.truncation() == x,
    ensures
        x.minus(x.truncation()).times(scale).as_integer(0, u32::MAX as int) == 0,
{
    lemma_double_format();
    let f = binary64();
    lemma_encodes(x);
    lemma_parts_of(Parts { neg: !x.parts().neg, mag: x.parts().mag });
    lemma_parts_of(f.nan());
    reveal(Double::plus);
    reveal(Double::times);
    reveal(Double::as_integer);
}

/// Narrowing keeps the order of numbers that are not negative.
pub proof fn lemma_single_monotone(a: Double, b: Double)
    requires
        a.finite(),
        b.finite(),
        !a.parts().neg,
        !b.parts().neg,
        a.at_most(b),
    ensures
        a.single().at_most(b.single()),
        !a.single().parts().neg,
{
    reveal(Double::single);
    reveal(Double::value);
    reveal(Single::value);
    lemma_double_format();
    lemma_single_format();
    let (w, f) = (binary64(), binary32());
    let (ua, ub) = (w.units(a.parts()), w.units(b.parts()));
    lemma_pow2_pos(925);
    let d = pow2(925);
    lemma_mul_inequality(ua as int, ub as int, d as int);
    lemma_nearest_monotone(f.h(), f.limit(), ua, d, ub, d);
    let (x, y) = (f.nearest(ua, d), f.nearest(ub, d));
    if x < y {
        lemma_magnitude_increases(f.h(), x, y);
    }
}

/// The number 1 stays so when it is narrowed.
pub proof fn lemma_single_one()
    ensures
        Double::integer(1).single() == Single::ratio(1, 1),
{
    reveal(Double::single);
    reveal(Single::ratio);
    lemma_double_format();
    lemma_one_value();
    lemma_ratio_finite(1, 1);
    let f = binary32();
    let (wide, slim, d) = (binary64().one(), f.one(), pow2(925));
    lemma_pow2_pos(925);
    lemma_pow2_adds(149, 925);
    assert(wide * 1 == (1 * slim) * d);
    lemma_single_format();
    lemma_nearest_monotone(f.h(), f.limit(), wide, d, 1 * slim, 1);
    lemma_nearest_monotone(f.h(), f.limit(), 1 * slim, 1, wide, d);
}

/// Quotients that differ by a fifth round to different magnitudes, unless they are
/// tiny or overflow.
pub proof fn lemma_nearest_apart(h: nat, limit: nat, n: nat, m: nat, d: nat)
    requires
        h >= 15,
        d > 0,
        n >= h * d,
        6 * n <= 5 * m,
        nearest(h, limit, m, d) < limit,
    ensures
        nearest(h, limit, n, d) < nearest(h, limit, m, d),
{
    lemma_floor_exists(h, n, d);
    lemma_floor_exists(h, m, d);
    let f = choose|b: nat| is_floor(h, n, d, b);
    let g = choose|b: nat| is_floor(h, m, d, b);
    lemma_nearest_from_floor(h, limit, n, d, f);
    lemma_nearest_from_floor(h, limit, m, d, g);
    lemma2_to64();
    lemma_magnitude_at(h, 0, h);
    assert(0 * h + h == h);
    assert(h * pow2(0) == h) by (nonlinear_arith)
        requires
            pow2(0) == 1,
    ;
    if f < h {
        if f + 1 < h {
            lemma_magnitude_increases(h, f + 1, h);
        }
        lemma_mul_inequality(magnitude(h, f + 1) as int, h as int, d as int);
    }
    lemma_magnitude_parts(h, f);
    let e = (f / h - 1) as nat;
    let q = h + f % h;
    let w = pow2(e);
    lemma_magnitude_at(h, e, q);
    assert(magnitude(h, f + 2) <= (q + 3) * w) by {
        if q + 2 <= 2 * h {
            lemma_magnitude_at(h, e, q + 2);
            assert(e * h + (q + 2) == f + 2);
            assert((q + 2) * w <= (q + 3) * w) by (nonlinear_arith);
        } else {
            lemma_magnitude_at(h, e + 1, h + 1);
            assert((e + 1) * h + (h + 1) == f + 2) by (nonlinear_arith)
                requires
                    e * h + q == f,
                    q == 2 * h - 1,
            ;
            lemma_pow2_adds(e, 1);
            assert((h + 1) * pow2(e + 1) == (q + 3) * w) by (nonlinear_arith)
                requires
                    pow2(e + 1) == w * 2,
                    q == 2 * h - 1,
            ;
        }
    }
    let t = magnitude(h, f + 2);
    assert(t * d <= m) by (nonlinear_arith)
        requires
            t <= (q + 3) * w,
            (q * w) * d <= n,
            6 * n <= 5 * m,
            q >= 15,
    ;
    if g < f + 2 {
        if g + 1 < f + 2 {
            lemma_magnitude_increases(h, g + 1, f + 2);
        }
        lemma_mul_inequality(magnitude(h, g + 1) as int, t as int, d as int);
    }
}

} // verus!
