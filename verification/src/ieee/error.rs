//! Bounds on what rounding adds.
use crate::ieee::arith::{lemma_nearest_zero, magnitude_of_int};
use crate::ieee::constants::{at, lemma_at, lemma_tenths, q_one_tenth, q_three_tenths};
use crate::ieee::double::{lemma_double_format, Double};
use crate::ieee::exact::lemma_integer_exact;
use crate::ieee::laws::{
    lemma_between_finite, lemma_encodes, lemma_nearest_monotone, lemma_negated, lemma_one_value,
    lemma_nearest_encodes, lemma_over_defined, lemma_over_shrinks, lemma_parts_of, lemma_plus_value,
    lemma_ratio, lemma_ratio_finite, lemma_ratio_order, lemma_times_defined,
};
use crate::ieee::powers::{lemma_complement, lemma_tame_plus, lemma_tame_times, tame};
use crate::ieee::rounding::{binary64, lemma_format};
use crate::ieee::scale::{
    is_floor, lemma_floor_exists, lemma_magnitude_at, lemma_magnitude_increases,
    lemma_magnitude_parts, lemma_nearest_from_floor, magnitude, nearest,
};
use vstd::arithmetic::div_mod::*;
use vstd::arithmetic::mul::*;
use vstd::arithmetic::power2::*;
use vstd::prelude::*;

verus! {

/// The distance of a magnitude from the next one, up to a power of two.
proof fn lemma_step_up(h: nat, e: nat, f: nat)
    requires
        h > 0,
        f < e * h + 2 * h,
    ensures
        magnitude(h, f + 1) <= magnitude(h, f) + pow2(e),
{
    lemma2_to64();
    lemma_pow2_pos(e);
    if f < h {
        lemma_magnitude_at(h, 0, f);
        lemma_magnitude_at(h, 0, f + 1);
        assert(0 * h == 0);
        assert(f * pow2(0) == f && (f + 1) * pow2(0) == f + 1) by (nonlinear_arith)
            requires
                pow2(0) == 1,
        ;
    } else {
        lemma_magnitude_parts(h, f);
        let d = (f / h - 1) as nat;
        let q = h + f % h;
        assert(d <= e) by (nonlinear_arith)
            requires
                d * h + q < e * h + 2 * h,
                q >= h,
                h > 0,
        ;
        lemma_magnitude_at(h, d, q);
        lemma_magnitude_at(h, d, q + 1);
        assert(d * h + (q + 1) == f + 1);
        if d < e {
            lemma_pow2_strictly_increases(d, e);
        }
        assert((q + 1) * pow2(d) == q * pow2(d) + pow2(d)) by (nonlinear_arith);
    }
}

/// Rounding adds at most half a unit in the last place.
pub proof fn lemma_nearest_error(h: nat, limit: nat, num: nat, den: nat, e: nat)
    requires
        h > 0,
        den > 0,
        num <= (2 * h * pow2(e)) * den,
    ensures
        2 * magnitude(h, nearest(h, limit, num, den)) * den <= 2 * num + pow2(e) * den,
{
    lemma_floor_exists(h, num, den);
    let f = choose|b: nat| is_floor(h, num, den, b);
    lemma_nearest_from_floor(h, limit, num, den, f);
    let top = e * h + 2 * h;
    lemma_magnitude_at(h, e, 2 * h);
    let (low, high) = (magnitude(h, f), magnitude(h, f + 1));
    let r: nat = if 2 * num > (low + high) * den || (2 * num == (low + high) * den && f % 2 != 0) {
        f + 1
    } else {
        f
    };
    if r == f {
        assert(2 * low * den <= 2 * num + pow2(e) * den) by (nonlinear_arith)
            requires
                low * den <= num,
        ;
    } else {
        if f >= top {
            if f > top {
                lemma_magnitude_increases(h, top, f);
            }
            lemma_magnitude_increases(h, f, f + 1);
            assert(false) by (nonlinear_arith)
                requires
                    2 * num >= (low + high) * den,
                    num <= (2 * h * pow2(e)) * den,
                    low >= 2 * h * pow2(e),
                    high > low,
                    den > 0,
            ;
        }
        lemma_step_up(h, e, f);
        let p = pow2(e);
        assert(2 * high * den <= 2 * num + p * den) by (nonlinear_arith)
            requires
                2 * num >= (low + high) * den,
                high <= low + p,
        ;
    }
    let n = nearest(h, limit, num, den);
    if n < r {
        lemma_magnitude_increases(h, n, r);
        lemma_mul_inequality(
            2 * magnitude(h, n) as int,
            2 * magnitude(h, r) as int,
            den as int,
        );
    }
}

/// What is less than half a unit above a magnitude is not rounded beyond it.
pub proof fn lemma_nearest_below(h: nat, limit: nat, num: nat, b: nat)
    requires
        h > 0,
        2 * num < magnitude(h, b) + magnitude(h, b + 1),
    ensures
        nearest(h, limit, num, 1) <= b,
{
    lemma_floor_exists(h, num, 1);
    let f = choose|b: nat| is_floor(h, num, 1, b);
    lemma_nearest_from_floor(h, limit, num, 1, f);
    if f > b {
        if f > b + 1 {
            lemma_magnitude_increases(h, b + 1, f);
        }
        lemma_magnitude_increases(h, b, b + 1);
    }
}

/// A weight between 0.1 and 0.3 is so in units, and its complement is rounded by half
/// a unit at most.
pub proof fn lemma_weights(a: Double)
    requires
        Double::ratio(1, 10).at_most(a),
        a.at_most(Double::ratio(3, 10)),
    ensures
        ({
            let c = Double::integer(1).minus(a);
            let one = pow2(1074);
            &&& a.finite() && c.finite()
            &&& one <= 10 * a.value()
            &&& 10 * a.value() <= 3 * one
            &&& c.value() <= one - a.value() + pow2(1020)
            &&& 5 * one <= 8 * c.value()
            &&& c.value() <= one
        }),
{
    reveal(Double::value);
    lemma_double_format();
    lemma_format(binary64());
    let f = binary64();
    let h = f.h();
    let one = pow2(1074);
    lemma_ratio(1, 10);
    lemma_ratio(3, 10);
    lemma_ratio_finite(1, 10);
    lemma_ratio_finite(3, 10);
    lemma_between_finite(Double::ratio(1, 10), a, Double::ratio(3, 10));
    lemma_tenths();
    lemma_at(1018, q_one_tenth());
    lemma_at(1020, q_three_tenths());
    lemma2_to64();
    lemma2_to64_rest();
    lemma_pow2_adds(1018, 56);
    lemma_pow2_adds(1020, 54);
    lemma_pow2_pos(1018);
    lemma_pow2_pos(1020);
    assert(one <= 10 * a.value() <= 3 * one);
    let i = Double::integer(1);
    let c = i.minus(a);
    lemma_one_value();
    lemma_ratio(1, 1);
    lemma_ratio_finite(1, 1);
    lemma_negated(a);
    lemma_plus_value(i, a.negated());
    lemma_complement(a);
    let n = magnitude_of_int(i.value() - a.value());
    assert(n == one - a.value());
    lemma_pow2_adds(53, 1021);
    lemma_pow2_adds(1020, 1);
    lemma_nearest_error(h, f.limit(), n, 1, 1021);
    let q = 0x14_0000_0000_0000nat;
    lemma_at(1021, q);
    lemma_nearest_monotone(h, f.limit(), q * pow2(1021), 1, n, 1);
    if at(1021, q) < c.parts().mag {
        lemma_magnitude_increases(h, at(1021, q), c.parts().mag as nat);
    }
}

/// A product with a weight is rounded by half a unit at most.
proof fn lemma_scaled(x: Double, c: Double, most: nat, e: nat)
    requires
        x.finite(),
        c.finite(),
        x.value() <= most,
        0 <= c.value(),
        most * c.value() <= (0x20_0000_0000_0000 * pow2(e)) * pow2(1074),
    ensures
        2 * x.times(c).value() * pow2(1074) <= 2 * (most * c.value()) + pow2(e) * pow2(1074),
{
    reveal(Double::value);
    lemma_double_format();
    let f = binary64();
    let (m, k, one) = (f.units(x.parts()), f.units(c.parts()), pow2(1074));
    let r = x.times(c).value();
    let v = c.value();
    lemma_times_defined(x, c);
    lemma_encodes(x.times(c));
    lemma_pow2_pos(1074);
    lemma_pow2_pos(e);
    assert(k == v || (v == 0 && k == 0));
    assert(most * v >= 0 && pow2(e) * one >= 0) by (nonlinear_arith)
        requires
            v >= 0,
    ;
    if x.parts().neg || v == 0 {
        assert(m * 0 == 0);
        if v == 0 {
            lemma_nearest_zero(f, one);
        }
        assert(r <= 0);
        assert(2 * r * one <= 0) by (nonlinear_arith)
            requires
                r <= 0,
        ;
    } else {
        assert(m * k <= most * k) by (nonlinear_arith)
            requires
                m <= most,
        ;
        lemma_nearest_error(f.h(), f.limit(), m * k, one, e);
    }
}

/// The mean of two numbers, the second with a weight.
pub open spec fn average(x: Double, y: Double, a: Double) -> Double {
    x.times(Double::integer(1).minus(a)).plus(y.times(a))
}

/// The distance of neighbouring numbers from 256 to 512, in units of the smallest
/// number. 500 is `0x1F_4000_0000_0000` of them.
pub open spec fn step_at_256() -> nat {
    pow2(1030)
}

/// The products that make a weighted mean, and their sum.
proof fn lemma_terms(x: Double, y: Double, a: Double, p: nat, q: nat)
    requires
        p <= 0x1F_4000_0000_0000,
        q <= 0x1F_4000_0000_0000,
        tame(x, 9),
        tame(y, 9),
        x.value() <= p * step_at_256(),
        y.value() <= q * step_at_256(),
        Double::ratio(1, 10).at_most(a),
        a.at_most(Double::ratio(3, 10)),
    ensures
        ({
            let c = Double::integer(1).minus(a);
            let (one, u) = (pow2(1074), step_at_256());
            let (d, g) = (x.times(c), y.times(a));
            &&& d.finite()
            &&& g.finite()
            &&& 4 * (d.value() + g.value()) * one <= 4 * ((p * c.value() + q * a.value()) * u) + 3
                * (u * one)
            &&& d.value() + g.value() <= 0x20_0000_0000_0000 * u
        }),
{
    let (one, u) = (pow2(1074), pow2(1030));
    let c = Double::integer(1).minus(a);
    lemma_weights(a);
    lemma2_to64();
    lemma2_to64_rest();
    lemma_pow2_pos(1020);
    lemma_pow2_pos(1029);
    lemma_pow2_adds(1020, 54);
    lemma_pow2_adds(1020, 10);
    lemma_pow2_adds(1029, 1);
    let (w, v) = (a.value(), c.value());
    assert((p * u) * v <= (0x20_0000_0000_0000 * u) * one) by (nonlinear_arith)
        requires
            p <= 0x20_0000_0000_0000,
            0 <= v <= one,
            u > 0,
    ;
    assert((q * u) * w <= (0x20_0000_0000_0000 * pow2(1029)) * one) by (nonlinear_arith)
        requires
            q <= 0x20_0000_0000_0000,
            0 <= w,
            10 * w <= 3 * one,
            u == pow2(1029) * 2,
            pow2(1029) > 0,
    ;
    lemma_scaled(x, c, p * u, 1030);
    lemma_scaled(y, a, q * u, 1029);
    lemma_tame_times(x, c, 9, 0);
    lemma_tame_times(y, a, 9, 0);
    let (d, g) = (x.times(c), y.times(a));
    let (dv, gv) = (d.value(), g.value());
    let z = p * v + q * w;
    assert((p * u) * v + (q * u) * w == z * u) by (nonlinear_arith)
        requires
            z == p * v + q * w,
    ;
    assert(4 * (dv + gv) * one <= 4 * (z * u) + 3 * (u * one)) by (nonlinear_arith)
        requires
            2 * dv * one <= 2 * ((p * u) * v) + u * one,
            2 * gv * one <= 2 * ((q * u) * w) + pow2(1029) * one,
            u == pow2(1029) * 2,
            (p * u) * v + (q * u) * w == z * u,
    ;
    assert(z <= 0x1F_4000_0000_0001 * one) by (nonlinear_arith)
        requires
            z == p * v + q * w,
            p <= 0x1F_4000_0000_0000,
            q <= 0x1F_4000_0000_0000,
            v <= one - w + pow2(1020),
            0 <= v,
            0 <= w,
            one == pow2(1020) * 0x40_0000_0000_0000,
    ;
    let k = 0x1F_4000_0000_0002 * u;
    assert(dv + gv <= k) by (nonlinear_arith)
        requires
            4 * (dv + gv) * one <= 4 * (z * u) + 3 * (u * one),
            z <= 0x1F_4000_0000_0001 * one,
            k == 0x1F_4000_0000_0002 * u,
            u > 0,
            one > 0,
    ;
}

/// A weighted mean of finite numbers of this size is finite.
pub proof fn lemma_average_finite(x: Double, y: Double, a: Double)
    requires
        tame(x, 9),
        tame(y, 9),
        Double::ratio(1, 10).at_most(a),
        a.at_most(Double::ratio(3, 10)),
    ensures
        average(x, y, a).finite(),
{
    let c = Double::integer(1).minus(a);
    lemma_weights(a);
    lemma_tame_times(x, c, 9, 0);
    lemma_tame_times(y, a, 9, 0);
    lemma_tame_plus(x.times(c), y.times(a), 9);
}

/// A bound on the weighted mean of numbers up to 500.
proof fn lemma_average_bound(x: Double, y: Double, a: Double, p: nat, q: nat)
    requires
        p <= 0x1F_4000_0000_0000,
        q <= 0x1F_4000_0000_0000,
        tame(x, 9),
        tame(y, 9),
        x.value() <= p * step_at_256(),
        y.value() <= q * step_at_256(),
        Double::ratio(1, 10).at_most(a),
        a.at_most(Double::ratio(3, 10)),
    ensures
        ({
            let c = Double::integer(1).minus(a);
            let (one, u) = (pow2(1074), step_at_256());
            4 * average(x, y, a).value() * one <= 4 * ((p * c.value() + q * a.value()) * u) + 5 * (u
                * one)
        }),
{
    lemma_double_format();
    lemma_format(binary64());
    let f = binary64();
    let c = Double::integer(1).minus(a);
    let (one, u) = (pow2(1074), pow2(1030));
    lemma_weights(a);
    lemma_terms(x, y, a, p, q);
    lemma_pow2_pos(1030);
    lemma_pow2_pos(1074);
    let (d, g) = (x.times(c), y.times(a));
    lemma_plus_value(d, g);
    let s = d.value() + g.value();
    let r = average(x, y, a).value();
    let z = p * c.value() + q * a.value();
    assert(z * u >= 0 && u * one >= 0) by (nonlinear_arith)
        requires
            z == p * c.value() + q * a.value(),
            c.value() >= 0,
            a.value() >= 0,
    ;
    if s <= 0 {
        lemma_nearest_zero(f, 1);
        assert(r <= 0);
        assert(4 * r * one <= 0) by (nonlinear_arith)
            requires
                r <= 0,
        ;
    } else {
        assert(2 * f.h() * u == 0x20_0000_0000_0000 * u);
        lemma_nearest_error(f.h(), f.limit(), s as nat, 1, 1030);
        assert(4 * r * one <= 4 * (z * u) + 5 * (u * one)) by (nonlinear_arith)
            requires
                2 * r <= 2 * s + u,
                4 * s * one <= 4 * (z * u) + 3 * (u * one),
        ;
    }
}

/// A mean stays behind 500 by at least half as much as the number before.
pub proof fn lemma_average_lags(x: Double, y: Double, a: Double, g: nat)
    requires
        7 <= g,
        2 * g <= 0x1F_4000_0000_0000,
        tame(x, 9),
        tame(y, 9),
        x.value() <= (0x1F_4000_0000_0000 - 2 * g) * step_at_256(),
        y.value() <= 0x1F_4000_0000_0000 * step_at_256(),
        Double::ratio(1, 10).at_most(a),
        a.at_most(Double::ratio(3, 10)),
    ensures
        average(x, y, a).value() <= (0x1F_4000_0000_0000 - g) * step_at_256(),
{
    let n = 0x1F_4000_0000_0000nat;
    let (one, u, s) = (pow2(1074), pow2(1030), pow2(1020));
    lemma_units();
    lemma_weights(a);
    lemma_average_bound(x, y, a, (n - 2 * g) as nat, n);
    let (w, v) = (a.value(), Double::integer(1).minus(a).value());
    let r = average(x, y, a).value();
    let z = (n - 2 * g) * v + n * w;
    assert(4 * z + 5 * one <= 4 * ((n - g) * one)) by (nonlinear_arith)
        requires
            z == (n - 2 * g) * v + n * w,
            v <= one - w + s,
            8 * v >= 5 * one,
            one == s * 0x40_0000_0000_0000,
            s > 0,
            g >= 7,
            n == 0x1F_4000_0000_0000,
    ;
    lemma_cancel(r, z, n - g, u, one);
}

/// A mean with a number that is behind 500 by one stays behind it by a sixteenth.
pub proof fn lemma_average_falls(x: Double, y: Double, a: Double)
    requires
        tame(x, 9),
        tame(y, 9),
        x.value() <= 0x1F_4000_0000_0000 * step_at_256(),
        y.value() <= 0x1F_3000_0000_0000 * step_at_256(),
        Double::ratio(1, 10).at_most(a),
        a.at_most(Double::ratio(3, 10)),
    ensures
        average(x, y, a).value() <= 0x1F_3F00_0000_0000 * step_at_256(),
{
    let n = 0x1F_4000_0000_0000nat;
    let m = 0x1F_3000_0000_0000nat;
    let (one, u, s) = (pow2(1074), pow2(1030), pow2(1020));
    lemma_units();
    lemma_weights(a);
    lemma_average_bound(x, y, a, n, m);
    let (w, v) = (a.value(), Double::integer(1).minus(a).value());
    let r = average(x, y, a).value();
    let z = n * v + m * w;
    assert(4 * z + 5 * one <= 4 * (0x1F_3F00_0000_0000 * one)) by (nonlinear_arith)
        requires
            z == n * v + m * w,
            v <= one - w + s,
            10 * w >= one,
            one == s * 0x40_0000_0000_0000,
            s > 0,
            n == 0x1F_4000_0000_0000,
            m == 0x1F_3000_0000_0000,
    ;
    lemma_cancel(r, z, 0x1F_3F00_0000_0000, u, one);
}

/// The powers of two in the bounds on a mean.
proof fn lemma_units()
    ensures
        pow2(1020) > 0,
        pow2(1030) == pow2(1020) * 1024,
        pow2(1074) == pow2(1020) * 0x40_0000_0000_0000,
{
    lemma2_to64();
    lemma2_to64_rest();
    lemma_pow2_pos(1020);
    lemma_pow2_adds(1020, 10);
    lemma_pow2_adds(1020, 54);
}

/// A bound on a mean without its denominator.
proof fn lemma_cancel(r: int, z: int, k: int, u: nat, one: nat)
    requires
        u > 0,
        one > 0,
        4 * r * one <= 4 * (z * u) + 5 * (u * one),
        4 * z + 5 * one <= 4 * (k * one),
    ensures
        r <= k * u,
{
    assert(4 * (z * u) + 5 * (u * one) <= (4 * (k * u)) * one) by (nonlinear_arith)
        requires
            4 * z + 5 * one <= 4 * (k * one),
            u > 0,
    ;
    assert(r <= k * u) by (nonlinear_arith)
        requires
            4 * r * one <= (4 * (k * u)) * one,
            one > 0,
    ;
}

/// With the weight 0.3 a mean of numbers up to 500 is not above 500: what rounding
/// adds, the complement of the weight has lost.
pub proof fn lemma_average_steady(x: Double, y: Double)
    requires
        tame(x, 9),
        tame(y, 9),
        x.value() <= 0x1F_4000_0000_0000 * step_at_256(),
        y.value() <= 0x1F_4000_0000_0000 * step_at_256(),
    ensures
        average(x, y, Double::ratio(3, 10)).value() <= 0x1F_4000_0000_0000 * step_at_256(),
{
    lemma_double_format();
    let f = binary64();
    let a = Double::ratio(3, 10);
    let c = Double::integer(1).minus(a);
    let n = 0x1F_4000_0000_0000nat;
    let (one, u, s) = (pow2(1074), pow2(1030), pow2(1020));
    lemma_units();
    lemma_ratio(3, 10);
    lemma_ratio_order(1, 10, 3, 10);
    lemma_terms(x, y, a, n, n);
    lemma_complement_of_three_tenths();
    let (d, g) = (x.times(c), y.times(a));
    lemma_plus_value(d, g);
    let t = d.value() + g.value();
    let (w, v) = (a.value(), c.value());
    let z = n * v + n * w;
    assert(z == n * (one - s)) by (nonlinear_arith)
        requires
            z == n * v + n * w,
            v + w == one - s,
    ;
    assert(2 * t < (2 * n + 1) * u) by (nonlinear_arith)
        requires
            4 * t * one <= 4 * (z * u) + 3 * (u * one),
            z == n * (one - s),
            one == s * 0x40_0000_0000_0000,
            u == s * 1024,
            s > 0,
            n == 0x1F_4000_0000_0000,
    ;
    lemma_at(1030, n);
    let r = average(x, y, a);
    if t <= 0 {
        lemma_nearest_zero(f, 1);
        assert(n * u >= 0);
        reveal(Double::value);
    } else {
        assert(n * u + (n + 1) * u == (2 * n + 1) * u) by (nonlinear_arith);
        lemma_nearest_below(f.h(), f.limit(), t as nat, at(1030, n));
        if r.parts().mag < at(1030, n) {
            lemma_magnitude_increases(f.h(), r.parts().mag as nat, at(1030, n));
        }
    }
}

/// One less 0.3, which lies in the middle between two numbers.
proof fn lemma_complement_of_three_tenths()
    ensures
        Double::integer(1).minus(Double::ratio(3, 10)).value() + Double::ratio(3, 10).value()
            == pow2(1074) - pow2(1020),
{
    reveal(Double::value);
    lemma_double_format();
    let f = binary64();
    let h = f.h();
    let a = Double::ratio(3, 10);
    let i = Double::integer(1);
    lemma_units();
    lemma2_to64();
    lemma2_to64_rest();
    lemma_ratio(3, 10);
    lemma_ratio_finite(3, 10);
    lemma_tenths();
    lemma_at(1020, q_three_tenths());
    lemma_one_value();
    lemma_ratio(1, 1);
    lemma_ratio_finite(1, 1);
    lemma_negated(a);
    lemma_plus_value(i, a.negated());
    let s = pow2(1020);
    let n = magnitude_of_int(i.value() - a.value());
    assert(n == 0x2C_CCCC_CCCC_CCCD * s) by {
        assert(i.value() == 0x40_0000_0000_0000 * s);
        assert(a.value() == 0x13_3333_3333_3333 * s);
    }
    lemma_pow2_adds(1020, 1);
    let q = 0x16_6666_6666_6666nat;
    lemma_at(1021, q);
    let b = at(1021, q);
    let (low, high) = (magnitude(h, b), magnitude(h, b + 1));
    assert(low == 0x2C_CCCC_CCCC_CCCC * s && high == 0x2C_CCCC_CCCC_CCCE * s)
        by (nonlinear_arith)
        requires
            low == q * (s * 2),
            high == (q + 1) * (s * 2),
            q == 0x16_6666_6666_6666,
    ;
    assert(is_floor(h, n, 1, b));
    lemma_nearest_from_floor(h, f.limit(), n, 1, b);
    assert(b % 2 == 0);
    assert(2 * n == (low + high) * 1);
}

/// The distance of a magnitude from the next one is small against the magnitude.
proof fn lemma_step_relative(h: nat, f: nat)
    requires
        h > 0,
    ensures
        (magnitude(h, f + 1) - magnitude(h, f)) * h <= magnitude(h, f) + h,
        magnitude(h, f) < magnitude(h, f + 1),
{
    lemma2_to64();
    lemma_magnitude_increases(h, f, f + 1);
    if f < h {
        lemma_magnitude_at(h, 0, f);
        lemma_magnitude_at(h, 0, f + 1);
        assert(0 * h == 0);
        assert(f * pow2(0) == f && (f + 1) * pow2(0) == f + 1) by (nonlinear_arith)
            requires
                pow2(0) == 1,
        ;
    } else {
        lemma_magnitude_parts(h, f);
        let d = (f / h - 1) as nat;
        let q = h + f % h;
        lemma_magnitude_at(h, d, q);
        lemma_magnitude_at(h, d, q + 1);
        assert(d * h + (q + 1) == f + 1);
        let w = pow2(d);
        assert(((q + 1) * w - q * w) * h <= q * w + h) by (nonlinear_arith)
            requires
                q >= h,
        ;
    }
}

/// A quotient is rounded by at most one part in `2^53`, or half of the smallest
/// number.
pub proof fn lemma_nearest_relative(num: nat, den: nat)
    requires
        den > 0,
        binary64().nearest(num, den) < binary64().limit(),
    ensures
        ({
            let m = magnitude(binary64().h(), binary64().nearest(num, den));
            0x20_0000_0000_0000 * magnitude_of_int(m * den - num) <= num + 0x10_0000_0000_0000
                * den
        }),
{
    lemma_double_format();
    let h = binary64().h();
    let limit = binary64().limit();
    lemma_floor_exists(h, num, den);
    let f = choose|b: nat| is_floor(h, num, den, b);
    lemma_nearest_from_floor(h, limit, num, den, f);
    lemma_step_relative(h, f);
    let (low, high) = (magnitude(h, f), magnitude(h, f + 1));
    let m = magnitude(h, nearest(h, limit, num, den));
    let error = magnitude_of_int(m * den - num);
    let both = (low + high) * den;
    assert(both == low * den + high * den) by (nonlinear_arith)
        requires
            both == (low + high) * den,
    ;
    assert(2 * error <= high * den - low * den);
    let step = high - low;
    assert(step * den == high * den - low * den) by (nonlinear_arith)
        requires
            step == high - low,
    ;
    assert((step * h) * den <= (low + h) * den) by (nonlinear_arith)
        requires
            step * h <= low + h,
    ;
    assert((step * h) * den == h * (step * den)) by (nonlinear_arith);
    assert((low + h) * den == low * den + h * den) by (nonlinear_arith);
    assert(h * (2 * error) <= h * (step * den)) by (nonlinear_arith)
        requires
            2 * error <= step * den,
    ;
}

/// A number is a sum, up to one part in `2^53` and half of the smallest number.
pub open spec fn is_sum(sum: int, a: int, b: int) -> bool {
    0x20_0000_0000_0000 * magnitude_of_int(sum - (a + b)) <= magnitude_of_int(a + b)
        + 0x10_0000_0000_0000
}

/// A sum of finite numbers that is finite is one up to rounding.
pub proof fn lemma_sum(a: Double, b: Double)
    requires
        a.finite(),
        b.finite(),
        a.plus(b).finite(),
    ensures
        is_sum(a.plus(b).value(), a.value(), b.value()),
{
    lemma_double_format();
    lemma_plus_value(a, b);
    lemma_nearest_relative(magnitude_of_int(a.value() + b.value()), 1);
}

/// A difference of finite numbers that is finite is one up to rounding.
pub proof fn lemma_difference(a: Double, b: Double)
    requires
        a.finite(),
        b.finite(),
        a.minus(b).finite(),
    ensures
        is_sum(a.minus(b).value(), a.value(), -b.value()),
{
    lemma_negated(b);
    lemma_sum(a, b.negated());
}

/// A number is a product, up to one part in `2^53` and half of the smallest number.
pub open spec fn is_product(product: int, a: int, b: int) -> bool {
    let one = binary64().one() as int;
    0x20_0000_0000_0000 * magnitude_of_int(product * one - a * b) <= magnitude_of_int(a * b)
        + 0x10_0000_0000_0000 * one
}

/// A product of finite numbers that is finite is one up to rounding.
pub proof fn lemma_product(a: Double, b: Double)
    requires
        a.finite(),
        b.finite(),
        a.times(b).finite(),
    ensures
        is_product(a.times(b).value(), a.value(), b.value()),
{
    reveal(Double::value);
    lemma_double_format();
    let f = binary64();
    let one = f.one() as int;
    lemma_pow2_pos(1074);
    lemma_times_defined(a, b);
    let (x, y) = (f.units(a.parts()) as int, f.units(b.parts()) as int);
    let v = f.units(a.times(b).parts()) as int;
    lemma_nearest_relative((x * y) as nat, one as nat);
    assert(x * y >= 0) by (nonlinear_arith)
        requires
            x >= 0,
            y >= 0,
    ;
    assert((-x) * y == -(x * y) && x * (-y) == -(x * y) && (-x) * (-y) == x * y && (-v) * one == -(v
        * one)) by (nonlinear_arith);
}

/// A product with a whole number is that many times a number, up to one part in `2^52`
/// and half of the smallest number.
pub proof fn lemma_times_integer(a: Double, n: int)
    requires
        a.finite(),
        -0x20_0000_0000_0000 < n < 0x20_0000_0000_0000,
        a.times(Double::integer(n)).finite(),
    ensures
        0x20_0000_0000_0000 * magnitude_of_int(a.times(Double::integer(n)).value() - a.value() * n)
            <= magnitude_of_int(a.value() * n) + 0x10_0000_0000_0000,
{
    let one = binary64().one() as int;
    lemma_pow2_pos(1074);
    lemma_integer_exact(n);
    lemma_product(a, Double::integer(n));
    let (v, x) = (a.times(Double::integer(n)).value(), a.value());
    let (p, e) = (x * n, v - x * n);
    assert(x * (n * one) == p * one && v * one - x * (n * one) == e * one) by (nonlinear_arith)
        requires
            p == x * n,
            e == v - x * n,
    ;
    let (mp, me) = (magnitude_of_int(p), magnitude_of_int(e));
    assert(magnitude_of_int(p * one) == mp * one && magnitude_of_int(e * one) == me * one)
        by (nonlinear_arith)
        requires
            mp == magnitude_of_int(p),
            me == magnitude_of_int(e),
            one > 0,
    ;
    assert(0x20_0000_0000_0000 * me <= mp + 0x10_0000_0000_0000) by (nonlinear_arith)
        requires
            0x20_0000_0000_0000 * (me * one) <= mp * one + 0x10_0000_0000_0000 * one,
            one > 0,
    ;
}

/// A quotient by a whole number, times that number, is the number, up to one part in
/// `2^53` and half of the smallest number.
pub proof fn lemma_quotient(a: Double, n: int)
    requires
        a.finite(),
        0 < n < 0x20_0000_0000_0000,
    ensures
        a.over(Double::integer(n)).finite(),
        0x20_0000_0000_0000 * magnitude_of_int(a.over(Double::integer(n)).value() * n - a.value())
            <= magnitude_of_int(a.value()) + 0x10_0000_0000_0000 * n,
{
    reveal(Double::value);
    lemma_double_format();
    let f = binary64();
    let one = f.one() as int;
    let c = Double::integer(n);
    let q = a.over(c);
    lemma_pow2_pos(1074);
    lemma_integer_exact(n);
    lemma_ratio(1, 1);
    lemma_ratio_order(1, 1, n as nat, 1);
    lemma_over_shrinks(a, c);
    lemma_over_defined(a, c);
    let (x, v) = (f.units(a.parts()) as int, f.units(q.parts()) as int);
    let den = n * one;
    assert(den > 0 && x * one >= 0) by (nonlinear_arith)
        requires
            den == n * one,
            n > 0,
            one > 0,
            x >= 0,
    ;
    lemma_nearest_relative((x * one) as nat, den as nat);
    let e = v * n - x;
    assert(v * den - x * one == e * one) by (nonlinear_arith)
        requires
            den == n * one,
            e == v * n - x,
    ;
    let me = magnitude_of_int(e);
    assert(magnitude_of_int(e * one) == me * one) by (nonlinear_arith)
        requires
            me == magnitude_of_int(e),
            one > 0,
    ;
    assert(0x20_0000_0000_0000 * me <= x + 0x10_0000_0000_0000 * n) by (nonlinear_arith)
        requires
            0x20_0000_0000_0000 * (me * one) <= x * one + 0x10_0000_0000_0000 * den,
            den == n * one,
            one > 0,
    ;
    assert((-v) * n == -(v * n)) by (nonlinear_arith);
    if x == 0 {
        assert(0 * one == 0);
        lemma_nearest_zero(f, den as nat);
    }
}

/// A number without its fraction differs from it by less than one, towards zero.
pub proof fn lemma_as_integer(x: Double)
    requires
        x.finite(),
        magnitude_of_int(x.value()) < 0x7fff_ffff_ffff_ffff * binary64().one(),
    ensures
        ({
            let one = binary64().one() as int;
            let n = x.as_integer(i64::MIN as int, i64::MAX as int);
            &&& x.value() >= 0 ==> 0 <= n && n * one <= x.value() < (n + 1) * one
            &&& x.value() <= 0 ==> n <= 0 && (n - 1) * one < x.value() <= n * one
            &&& magnitude_of_int(n * one - x.value()) < one
        }),
{
    reveal(Double::value);
    reveal(Double::as_integer);
    lemma_double_format();
    lemma_pow2_pos(1074);
    let f = binary64();
    let one = f.one() as int;
    let u = f.units(x.parts()) as int;
    let w = f.whole(x.parts()) as int;
    lemma_fundamental_div_mod(u, one);
    lemma_mod_bound(u, one);
    assert(one * w == w * one) by (nonlinear_arith);
    assert((w + 1) * one == w * one + one && (-w) * one == -(w * one) && (-w - 1) * one == -(w
        * one) - one) by (nonlinear_arith);
    assert(w < 0x7fff_ffff_ffff_ffff) by (nonlinear_arith)
        requires
            w * one <= u,
            u < 0x7fff_ffff_ffff_ffff * one,
            one > 0,
    ;
    assert(w >= 0) by (nonlinear_arith)
        requires
            w * one + one > u,
            u >= 0,
            one > 0,
    ;
}

/// A number rounded to an integral one differs from it by at most a half.
pub proof fn lemma_rounded(x: Double)
    requires
        x.finite(),
        magnitude_of_int(x.value()) < 0x1f_ffff_ffff_fff0 * binary64().one(),
    ensures
        ({
            let one = binary64().one() as int;
            let n = x.rounded().as_integer(i64::MIN as int, i64::MAX as int);
            2 * magnitude_of_int(n * one - x.value()) <= one
        }),
{
    reveal(Double::value);
    reveal(Double::rounded);
    reveal(Double::as_integer);
    reveal(Double::ratio);
    lemma_double_format();
    lemma_pow2_pos(1074);
    let f = binary64();
    let one = f.one() as int;
    let u = f.units(x.parts()) as int;
    let w = f.whole_nearest(x.parts()) as int;
    lemma_fundamental_div_mod(2 * u + one, 2 * one);
    lemma_mod_bound(2 * u + one, 2 * one);
    assert((2 * one) * w == 2 * (w * one)) by (nonlinear_arith);
    assert(0 <= w < 0x20_0000_0000_0000) by (nonlinear_arith)
        requires
            2 * (w * one) <= 2 * u + one,
            2 * u + one < 2 * (w * one) + 2 * one,
            0 <= u < 0x1f_ffff_ffff_fff0 * one,
            one > 0,
    ;
    let r = x.rounded();
    let s = if x.parts().neg {
        -w
    } else {
        w
    };
    lemma_integer_exact(w);
    lemma_nearest_encodes(x.parts().neg, (w * one) as nat, 1);
    assert(w * one >= 0) by (nonlinear_arith)
        requires
            w >= 0,
            one > 0,
    ;
    lemma_parts_of(f.integral(x.parts()));
    lemma_nearest_encodes(false, (w * one) as nat, 1);
    lemma_parts_of(f.quotient_of_integers(false, w as nat, 1));
    assert(r.parts().mag == Double::integer(w).parts().mag);
    assert(f.units(r.parts()) == w * one);
    lemma_div_multiples_vanish(w, one);
    assert(one * w == w * one) by (nonlinear_arith);
    assert(f.whole(r.parts()) == w);
    assert((-w) * one == -(w * one)) by (nonlinear_arith);
}

/// A number is so many times the quotient of two others, up to one part in `2^50` and few
/// of the smallest numbers.
pub open spec fn is_scaled_quotient(r: int, a: int, b: int, k: int) -> bool {
    let one = binary64().one() as int;
    0x4_0000_0000_0000 * magnitude_of_int(r * b - a * k * one) <= magnitude_of_int(a) * k * one
        + 0x10_0000_0000_0000 * (b * k)
}

/// A quotient of whole numbers, scaled.
pub proof fn lemma_scaled_quotient(a: int, b: int, k: int)
    requires
        -0x20_0000_0000_0000 < a < 0x20_0000_0000_0000,
        0 < b < 0x20_0000_0000_0000,
        0 < k <= 0x1_0000_0000,
    ensures
        is_scaled_quotient(
            Double::integer(a).over(Double::integer(b)).times(Double::integer(k)).value(),
            a,
            b,
            k,
        ),
{
    let one = binary64().one() as int;
    lemma_pow2_pos(1074);
    lemma_integer_exact(a);
    lemma_integer_exact(b);
    lemma_integer_exact(k);
    lemma2_to64();
    lemma2_to64_rest();
    lemma_pow2_adds(1074, 53);
    lemma_pow2_adds(1074, 32);
    let (x, y, z) = (Double::integer(a), Double::integer(b), Double::integer(k));
    lemma_quotient(x, b);
    let q = x.over(y);
    let m = magnitude_of_int(a);
    assert(magnitude_of_int(a * one) == m * one && m * one <= 0x20_0000_0000_0000 * one && 0 <= k
        * one <= 0x1_0000_0000 * one) by (nonlinear_arith)
        requires
            m == magnitude_of_int(a),
            m <= 0x20_0000_0000_0000,
            0 < k <= 0x1_0000_0000,
            one > 0,
    ;
    lemma_ratio(1, 1);
    lemma_ratio_order(1, 1, b as nat, 1);
    lemma_shrinks(x, y);
    assert(tame(q, 53) && tame(z, 32));
    lemma_tame_times(q, z, 53, 32);
    lemma_times_integer(q, k);
    let r = q.times(z);
    let (qv, rv) = (q.value(), r.value());
    let (e1, e2) = (qv * b - a * one, rv - qv * k);
    let total = rv * b - a * k * one;
    assert(total == e2 * b + e1 * k) by (nonlinear_arith)
        requires
            total == rv * b - a * k * one,
            e1 == qv * b - a * one,
            e2 == rv - qv * k,
    ;
    let (m1, m2, mq) = (magnitude_of_int(e1), magnitude_of_int(e2), magnitude_of_int(qv));
    assert(magnitude_of_int(e2 * b) == m2 * b && magnitude_of_int(e1 * k) == m1 * k
        && magnitude_of_int(qv * k) == mq * k && magnitude_of_int(qv * b) == mq * b)
        by (nonlinear_arith)
        requires
            m1 == magnitude_of_int(e1),
            m2 == magnitude_of_int(e2),
            mq == magnitude_of_int(qv),
            b > 0,
            k > 0,
    ;
    let w = m * k * one;
    assert((m * one) * k == w) by (nonlinear_arith)
        requires
            w == m * k * one,
    ;
    assert(0x20_0000_0000_0000 * (m1 * k) <= w + 0x10_0000_0000_0000 * (b * k)) by (nonlinear_arith)
        requires
            0x20_0000_0000_0000 * m1 <= m * one + 0x10_0000_0000_0000 * b,
            (m * one) * k == w,
            k > 0,
    ;
    let (qb, bk) = (mq * b, b * k);
    assert(mq * k * b == qb * k) by (nonlinear_arith)
        requires
            qb == mq * b,
    ;
    assert(0x20_0000_0000_0000 * (m2 * b) <= qb * k + 0x10_0000_0000_0000 * bk) by (nonlinear_arith)
        requires
            0x20_0000_0000_0000 * m2 <= mq * k + 0x10_0000_0000_0000,
            mq * k * b == qb * k,
            bk == b * k,
            b > 0,
            k >= 1,
    ;
    assert(qb <= m * one + m1);
    assert(qb * k <= w + m1 * k) by (nonlinear_arith)
        requires
            qb <= m * one + m1,
            (m * one) * k == w,
            k > 0,
    ;
    assert(bk >= 0 && w >= 0) by (nonlinear_arith)
        requires
            bk == b * k,
            w == m * k * one,
            b > 0,
            k > 0,
            one > 0,
    ;
}

/// A quotient by a number of one or more is no larger.
proof fn lemma_shrinks(x: Double, y: Double)
    requires
        x.finite(),
        y.finite(),
        !y.parts().neg,
        Double::integer(1).at_most(y),
    ensures
        magnitude_of_int(x.over(y).value()) <= magnitude_of_int(x.value()),
        x.over(y).finite(),
{
    reveal(Double::value);
    lemma_double_format();
    lemma_over_shrinks(x, y);
    let (a, b) = (x.over(y).parts().mag as nat, x.parts().mag as nat);
    if a < b {
        lemma_magnitude_increases(binary64().h(), a, b);
    }
}

} // verus!
