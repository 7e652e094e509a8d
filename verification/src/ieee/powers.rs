//! Powers of two as bounds on double-precision numbers.
use crate::ieee::arith::{magnitude_of_int, Parts};
use crate::ieee::convert::lemma_nearest_exact;
use crate::ieee::double::{lemma_double_format, Double};
use crate::ieee::exact::lemma_integer_exact;
use crate::ieee::laws::{
    lemma_between_finite, lemma_encodes, lemma_negated, lemma_nearest_monotone, lemma_one_value,
    lemma_over_shrinks, lemma_parts_of, lemma_plus_value, lemma_plus_within, lemma_ratio,
    lemma_ratio_finite, lemma_ratio_order, lemma_times_defined,
};
use crate::ieee::root::{is_root_floor, nearest_root};
use crate::ieee::rounding::{binary64, lemma_format};
use crate::ieee::scale::{lemma_magnitude_at, lemma_magnitude_increases, magnitude};
use vstd::arithmetic::mul::*;
use vstd::arithmetic::power2::*;
use vstd::prelude::*;

verus! {

/// The encoding of a power of two.
pub open spec fn power_bits(k: nat) -> nat {
    (1023 + k) * 0x10_0000_0000_0000
}

/// A power of two.
pub open spec fn power(k: nat) -> Double {
    Double::of(Parts { neg: false, mag: power_bits(k) as u64 })
}

/// A number is finite, and no larger than a power of two in magnitude.
pub open spec fn tame(x: Double, k: nat) -> bool {
    x.finite() && magnitude_of_int(x.value()) <= pow2(1074 + k)
}

/// What a power of two is.
pub proof fn lemma_power(k: nat)
    requires
        k <= 1000,
    ensures
        power(k).parts() == (Parts { neg: false, mag: power_bits(k) as u64 }),
        power(k).finite(),
        power(k).value() == pow2(1074 + k),
        magnitude(binary64().h(), power_bits(k)) == pow2(1074 + k),
        power_bits(k) < binary64().limit(),
        power_bits(k) % 2 == 0,
{
    reveal(Double::value);
    lemma_double_format();
    lemma_format(binary64());
    let h = binary64().h();
    assert(power_bits(k) == (1022 + k) * h + h);
    lemma_magnitude_at(h, 1022 + k, h);
    lemma_pow2_adds(52, 1022 + k);
    lemma_parts_of(Parts { neg: false, mag: power_bits(k) as u64 });
}

/// A number whose encoding is no larger than that of a power of two is tame.
proof fn lemma_tame_bits(x: Double, k: nat)
    requires
        k <= 1000,
        x.parts().mag <= power_bits(k),
    ensures
        tame(x, k),
{
    reveal(Double::value);
    lemma_double_format();
    lemma_power(k);
    if x.parts().mag < power_bits(k) {
        lemma_magnitude_increases(binary64().h(), x.parts().mag as nat, power_bits(k));
    }
}

/// A tame number lies between the power of two and its negative, and conversely.
pub proof fn lemma_tame_between(x: Double, k: nat)
    requires
        k <= 1000,
    ensures
        tame(x, k) <==> power(k).negated().at_most(x) && x.at_most(power(k)),
{
    reveal(Double::value);
    lemma_double_format();
    lemma_power(k);
    lemma_negated(power(k));
    if power(k).negated().at_most(x) && x.at_most(power(k)) {
        lemma_between_finite(power(k).negated(), x, power(k));
    }
}

/// A larger power of two bounds as well.
pub proof fn lemma_tame_wider(x: Double, k: nat, l: nat)
    requires
        tame(x, k),
        k <= l,
    ensures
        tame(x, l),
{
    if k < l {
        lemma_pow2_strictly_increases(1074 + k, 1074 + l);
    }
}

/// The sum of tame numbers is tame.
pub proof fn lemma_tame_plus(a: Double, b: Double, k: nat)
    requires
        tame(a, k),
        tame(b, k),
        k < 1000,
    ensures
        tame(a.plus(b), k + 1),
{
    let c = power(k + 1);
    lemma_power(k + 1);
    lemma_pow2_adds(1074 + k, 1);
    lemma2_to64();
    lemma_negated(c);
    lemma_plus_within(a, b, c);
    lemma_tame_between(a.plus(b), k + 1);
}

/// The product of tame numbers is tame.
pub proof fn lemma_tame_times(a: Double, b: Double, i: nat, j: nat)
    requires
        tame(a, i),
        tame(b, j),
        i + j <= 1000,
    ensures
        tame(a.times(b), i + j),
{
    reveal(Double::value);
    lemma_double_format();
    let f = binary64();
    let (ua, ub) = (f.units(a.parts()), f.units(b.parts()));
    let (p, q, one, r) = (pow2(1074 + i), pow2(1074 + j), f.one(), pow2(1074 + i + j));
    lemma_times_defined(a, b);
    lemma_encodes(a.times(b));
    lemma_pow2_adds(1074 + i, 1074 + j);
    lemma_pow2_adds(1074 + i + j, 1074);
    assert(p * q == r * one) by {
        assert(1074 + i + (1074 + j) == 1074 + i + j + 1074);
    }
    assert((ua * ub) * 1 <= r * one) by (nonlinear_arith)
        requires
            ua <= p,
            ub <= q,
            p * q == r * one,
    ;
    lemma_pow2_pos(1074);
    lemma_nearest_monotone(f.h(), f.limit(), ua * ub, one, r, 1);
    lemma_power(i + j);
    lemma_nearest_exact(f, power_bits(i + j));
    lemma_tame_bits(a.times(b), i + j);
}

/// The quotient of a tame number and a positive integer is tame.
pub proof fn lemma_tame_over(a: Double, n: nat, k: nat)
    requires
        tame(a, k),
        0 < n <= 0x1_0000_0000_0000_0000,
    ensures
        tame(a.over(Double::integer(n as int)), k),
        a.over(Double::integer(n as int)).parts().neg == a.parts().neg,
{
    reveal(Double::value);
    lemma_double_format();
    let c = Double::integer(n as int);
    lemma_ratio(n as int, 1);
    lemma_ratio_finite(n as int, 1);
    lemma_ratio_order(1, 1, n, 1);
    lemma_one_value();
    lemma_pow2_pos(1074);
    if c.parts().mag == 0 {
        assert(binary64().units(c.parts()) == 0);
    }
    lemma_over_shrinks(a, c);
    crate::ieee::laws::lemma_over_defined(a, c);
    let (x, y) = (a.over(c).parts().mag as nat, a.parts().mag as nat);
    if x < y {
        lemma_magnitude_increases(binary64().h(), x, y);
    }
}

/// A number below a square has a root floor.
proof fn lemma_root_floor_below(h: nat, n: nat, b: nat)
    requires
        h > 0,
        n < magnitude(h, b) * magnitude(h, b),
    ensures
        exists|f: nat| #[trigger] is_root_floor(h, n, f),
    decreases b,
{
    if b == 0 {
        assert(0 * magnitude(h, 0) == 0);
    } else {
        let c = (b - 1) as nat;
        if magnitude(h, c) * magnitude(h, c) <= n {
            assert(is_root_floor(h, n, c));
        } else {
            lemma_root_floor_below(h, n, c);
        }
    }
}

/// The root of a tame number that is not negative is a number.
pub proof fn lemma_root_number(x: Double, k: nat)
    requires
        tame(x, k),
        !x.parts().neg,
        0 < k <= 1000,
    ensures
        !x.root().nan(),
{
    reveal(Double::value);
    reveal(Double::root);
    lemma_double_format();
    lemma_encodes(x);
    let f = binary64();
    let h = f.h();
    if x.parts().mag > 0 {
        let n = f.units(x.parts()) * f.one();
        let p = pow2(1074 + k);
        let one = f.one();
        lemma_power(k);
        lemma_pow2_strictly_increases(1074, 1074 + k);
        lemma_pow2_pos(1074);
        assert(n < p * p) by (nonlinear_arith)
            requires
                n == f.units(x.parts()) * one,
                f.units(x.parts()) <= p,
                0 < one < p,
        ;
        lemma_root_floor_below(h, n, power_bits(k));
        let g = choose|b: nat| is_root_floor(h, n, b);
        if g >= power_bits(k) {
            if g > power_bits(k) {
                lemma_magnitude_increases(h, power_bits(k), g);
            }
            let m = magnitude(h, g);
            assert(p * p <= m * m) by (nonlinear_arith)
                requires
                    p <= m,
            ;
        }
        assert(nearest_root(h, n) <= power_bits(k));
        lemma_parts_of(f.root(x.parts()));
    } else {
        lemma_parts_of(x.parts());
    }
}

/// One less a number between 0 and 1, rounded, and that number make one and a half
/// unit of the last place at most.
pub proof fn lemma_complement(a: Double)
    requires
        a.finite(),
        !a.parts().neg,
        a.value() <= pow2(1074),
    ensures
        ({
            let c = Double::integer(1).minus(a);
            &&& c.finite()
            &&& c.value() >= 0
        }),
{
    reveal(Double::value);
    lemma_double_format();
    lemma_format(binary64());
    let f = binary64();
    let h = f.h();
    let i = Double::integer(1);
    let c = i.minus(a);
    lemma_one_value();
    lemma_ratio(1, 1);
    lemma_ratio_finite(1, 1);
    lemma_negated(a);
    lemma_plus_value(i, a.negated());
    let s = i.value() - a.value();
    let n = magnitude_of_int(s);
    assert(n == s);
    lemma_power(0);
    lemma_nearest_exact(f, power_bits(0));
    lemma_nearest_monotone(h, f.limit(), n, 1, pow2(1074), 1);
    lemma_encodes(c);
    lemma_tame_bits(c, 0);
}

/// The square root of a number up to 4 is up to 2.
pub proof fn lemma_root_of_four(x: Double)
    requires
        tame(x, 2),
        !x.parts().neg,
    ensures
        x.root().at_most(Double::integer(2)),
{
    reveal(Double::value);
    reveal(Double::root);
    lemma_double_format();
    lemma_encodes(x);
    let f = binary64();
    let h = f.h();
    let two = Double::integer(2);
    lemma_integer_exact(2);
    lemma2_to64();
    lemma_pow2_adds(1074, 1);
    if x.parts().mag > 0 {
        let n = f.units(x.parts()) * f.one();
        let (one, p, q) = (pow2(1074), pow2(1075), pow2(1076));
        lemma_power(1);
        lemma_power(2);
        lemma_pow2_adds(1074, 2);
        lemma_pow2_pos(1074);
        assert(n <= p * p && n < q * q) by (nonlinear_arith)
            requires
                n == f.units(x.parts()) * one,
                f.units(x.parts()) <= q,
                p == one * 2,
                q == one * 4,
                one > 0,
        ;
        lemma_root_floor_below(h, n, power_bits(2));
        let g = choose|b: nat| is_root_floor(h, n, b);
        let (m, k) = (magnitude(h, g), magnitude(h, g + 1));
        lemma_magnitude_increases(h, g, g + 1);
        if g >= power_bits(1) {
            if g > power_bits(1) {
                lemma_magnitude_increases(h, power_bits(1), g);
                assert(p * p < m * m) by (nonlinear_arith)
                    requires
                        p < m,
                ;
            }
            assert(4 * n < (m + k) * (m + k)) by (nonlinear_arith)
                requires
                    n <= m * m,
                    m < k,
            ;
        }
        let r = nearest_root(h, n);
        assert(r <= power_bits(1));
        lemma_parts_of(f.root(x.parts()));
        if r < power_bits(1) {
            lemma_magnitude_increases(h, r, power_bits(1));
        }
    } else {
        lemma_parts_of(x.parts());
    }
}

/// The fractions 1/2 and 1/16.
pub proof fn lemma_binary_fraction(k: nat)
    requires
        k == 1 || k == 4,
    ensures
        Double::ratio(1, pow2(k)).value() == pow2((1074 - k) as nat),
        pow2(1) == 2,
        pow2(4) == 16,
{
    reveal(Double::value);
    reveal(Double::ratio);
    lemma_double_format();
    lemma_format(binary64());
    lemma2_to64();
    let f = binary64();
    let h = f.h();
    let b = ((1023 - k) * h) as nat;
    let e = (1022 - k) as nat;
    lemma_magnitude_at(h, e, h);
    assert(e * h + h == b);
    lemma_pow2_adds(52, e);
    lemma_nearest_exact(f, b);
    let p = pow2((1074 - k) as nat);
    lemma_pow2_adds((1074 - k) as nat, k);
    lemma_nearest_monotone(h, f.limit(), 1 * f.one(), pow2(k), p, 1);
    lemma_nearest_monotone(h, f.limit(), p, 1, 1 * f.one(), pow2(k));
    assert(b < f.limit());
    lemma_parts_of(f.quotient_of_integers(false, 1, pow2(k)));
}

} // verus!
