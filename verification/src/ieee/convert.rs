//! Conversions between integers and floating-point formats.
use crate::ieee::arith::{
    infinity_of, lemma_limits, lemma_nearest_zero, nan_of, quotient, significand, Parts,
};
use crate::ieee::rounding::{binary32, binary64, lemma_format, power_of_two, round_scaled, Format};
use crate::ieee::scale::{is_floor, lemma_magnitude_step, lemma_nearest_from_floor, magnitude};
use vstd::arithmetic::div_mod::*;
use vstd::arithmetic::mul::*;
use vstd::arithmetic::power2::*;
use vstd::prelude::*;

verus! {

impl Format {
    /// The number nearest to the quotient of two integers.
    pub open spec fn quotient_of_integers(self, neg: bool, n: nat, d: nat) -> Parts {
        self.rounded(neg, n * self.one(), d)
    }

    /// The integral part of the magnitude.
    pub open spec fn whole(self, a: Parts) -> nat {
        self.units(a) / self.one()
    }

    /// The magnitude rounded to an integer, halves away from zero.
    pub open spec fn whole_nearest(self, a: Parts) -> nat {
        (2 * self.units(a) + self.one()) / (2 * self.one())
    }

    /// The number without its fractional part.
    pub open spec fn truncated(self, a: Parts) -> Parts {
        if self.is_finite(a) {
            self.quotient_of_integers(a.neg, self.whole(a), 1)
        } else {
            a
        }
    }

    /// The number rounded to an integral one, halves away from zero.
    pub open spec fn integral(self, a: Parts) -> Parts {
        if self.is_finite(a) {
            self.quotient_of_integers(a.neg, self.whole_nearest(a), 1)
        } else {
            a
        }
    }
}

/// A representable magnitude is rounded to itself.
pub proof fn lemma_nearest_exact(f: Format, b: nat)
    requires
        f.valid(),
        b <= f.limit(),
    ensures
        f.nearest(magnitude(f.h(), b), 1) == b,
{
    lemma_limits(f);
    let h = f.h();
    let m = magnitude(h, b);
    lemma_magnitude_step(h, b);
    assert(is_floor(h, m, 1, b));
    lemma_nearest_from_floor(h, f.limit(), m, 1, b);
}

/// The number nearest to an integer.
pub fn from_integer(f: Format, neg: bool, n: u64) -> (r: Parts)
    requires
        f.valid(),
    ensures
        r == f.quotient_of_integers(neg, n as nat, 1),
        f.encodes(r),
        !f.is_nan(r),
{
    let ghost num = n as nat * f.one();
    proof {
        lemma_limits(f);
        let w = f.one();
        lemma_pow2_pos(f.unit as nat);
        assert(w * 1 == w);
        assert(n * w < (n + 1) * w) by (nonlinear_arith)
            requires
                w > 0,
        ;
    }
    let mag = round_scaled(f, n as u128, f.unit as i32, true, Ghost(num), Ghost(1));
    Parts { neg, mag }
}

/// The number nearest to a quotient of two small integers.
pub fn from_quotient(f: Format, neg: bool, n: u64, d: u64) -> (r: Parts)
    requires
        f.valid(),
        n < 2 * f.h(),
        0 < d < 2 * f.h(),
    ensures
        r == f.quotient_of_integers(neg, n as nat, d as nat),
        f.encodes(r),
        !f.is_nan(r),
{
    proof {
        lemma_limits(f);
        lemma2_to64();
        assert(n as nat * 1 == n as nat);
        assert(d as nat * 1 == d as nat);
        assert(0 * f.one() == 0);
        lemma_nearest_zero(f, d as nat);
    }
    if n == 0 {
        return Parts { neg, mag: 0 };
    }
    Parts { neg, mag: quotient(f, n, 0, d, 0) }
}

/// The integral part of a finite magnitude, at most `2^64`.
pub fn whole_capped(f: Format, a: Parts) -> (r: u128)
    requires
        f.valid(),
        f.is_finite(a),
    ensures
        r == if f.whole(a) >= 0x1_0000_0000_0000_0000 {
            0x1_0000_0000_0000_0000
        } else {
            f.whole(a) as int
        },
{
    proof {
        lemma_format(f);
        lemma2_to64();
        lemma2_to64_rest();
        lemma_pow2_pos(f.unit as nat);
    }
    let (m, e) = significand(f, a.mag);
    let ghost one = f.one();
    let ghost u = f.units(a);
    if e >= f.unit {
        let k: u32 = e - f.unit;
        proof {
            lemma_pow2_adds(k as nat, f.unit as nat);
            lemma_pow2_pos(k as nat);
            let p = pow2(k as nat);
            assert(u == (m * p) * one) by (nonlinear_arith)
                requires
                    u == m * pow2(e as nat),
                    pow2(e as nat) == p * one,
            ;
            lemma_div_by_multiple((m * p) as int, one as int);
            assert(f.whole(a) == m * p);
            if k >= 64 {
                if k > 64 {
                    lemma_pow2_strictly_increases(64, k as nat);
                }
                // e > 0, so that the significand is not zero
                assert(m * p >= 0x1_0000_0000_0000_0000) by (nonlinear_arith)
                    requires
                        m >= 1,
                        p >= 0x1_0000_0000_0000_0000,
                ;
            } else {
                lemma_pow2_strictly_increases(k as nat, 64);
                assert(m * p < 0x20_0000_0000_0000 * 0x1_0000_0000_0000_0000) by (nonlinear_arith)
                    requires
                        m < 0x20_0000_0000_0000,
                        0 < p < 0x1_0000_0000_0000_0000,
                ;
            }
        }
        if k >= 64 {
            return 0x1_0000_0000_0000_0000;
        }
        let p = power_of_two(k);
        let v: u128 = m as u128 * p;
        if v >= 0x1_0000_0000_0000_0000 {
            0x1_0000_0000_0000_0000
        } else {
            v
        }
    } else {
        let k: u32 = f.unit - e;
        proof {
            lemma_pow2_adds(e as nat, k as nat);
            lemma_whole_of_small(m as nat, e as nat, k as nat, u, one);
            if k >= 60 {
                if k > 60 {
                    lemma_pow2_strictly_increases(60, k as nat);
                }
                lemma_basic_div(m as int, pow2(k as nat) as int);
            }
        }
        if k >= 60 {
            return 0;
        }
        let p = power_of_two(k);
        proof {
            lemma_div_nonincreasing(m as int, p as int);
        }
        m as u128 / p
    }
}

/// The integral part of a magnitude below the unit's exponent.
proof fn lemma_whole_of_small(m: nat, e: nat, k: nat, u: nat, one: nat)
    requires
        u == m * pow2(e),
        one == pow2(e) * pow2(k),
    ensures
        u / one == m / pow2(k),
        one > 0,
{
    lemma_pow2_pos(e);
    lemma_pow2_pos(k);
    let p = pow2(e);
    let q = pow2(k);
    lemma_mul_strictly_positive(p as int, q as int);
    lemma_mul_is_commutative(m as int, p as int);
    lemma_div_denominator(u as int, p as int, q as int);
    lemma_div_multiples_vanish(m as int, p as int);
    assert(u / one == (p * m) / (p * q));
}

/// An integral magnitude is rounded to itself.
proof fn lemma_integral_is_itself(f: Format, a: Parts, m: nat, e: nat)
    requires
        f.valid(),
        f.is_finite(a),
        f.units(a) == m * pow2(e),
        e >= f.unit,
    ensures
        f.truncated(a) == a,
        f.integral(a) == a,
{
    let k = (e - f.unit) as nat;
    let p = pow2(k);
    let one = f.one();
    lemma_pow2_pos(f.unit as nat);
    lemma_pow2_adds(k, f.unit as nat);
    let n = m * p;
    let u = f.units(a);
    assert(u == n * one) by (nonlinear_arith)
        requires
            u == m * pow2(e),
            pow2(e) == p * one,
            n == m * p,
    ;
    lemma_div_by_multiple(n as int, one as int);
    assert(2 * u + one == n * (2 * one) + one) by (nonlinear_arith)
        requires
            u == n * one,
    ;
    lemma_fundamental_div_mod_converse((2 * u + one) as int, (2 * one) as int, n as int, one as int);
    lemma_nearest_exact(f, a.mag as nat);
}

/// The number without its fractional part.
pub fn truncated(f: Format, a: Parts) -> (r: Parts)
    requires
        f.valid(),
        f.encodes(a),
    ensures
        r == f.truncated(a),
        f.encodes(r),
        f.is_nan(r) ==> f.is_nan(a),
{
    proof {
        lemma_limits(f);
        lemma_format(f);
    }
    let limit = infinity_of(f);
    if a.mag >= limit {
        return a;
    }
    let (m, e) = significand(f, a.mag);
    if e >= f.unit {
        proof {
            lemma_integral_is_itself(f, a, m as nat, e as nat);
        }
        return a;
    }
    let w = whole_capped(f, a);
    proof {
        lemma_pow2_adds(e as nat, (f.unit - e) as nat);
        lemma_whole_of_small(m as nat, e as nat, (f.unit - e) as nat, f.units(a), f.one());
        lemma_pow2_pos((f.unit - e) as nat);
        lemma_div_nonincreasing(m as int, pow2((f.unit - e) as nat) as int);
    }
    from_integer(f, a.neg, w as u64)
}

/// The rounded integral part of a magnitude below the unit's exponent.
proof fn lemma_whole_nearest_of_small(m: nat, e: nat, k: nat, u: nat, one: nat)
    requires
        u == m * pow2(e),
        one == pow2(e) * pow2(k),
    ensures
        (2 * u + one) / (2 * one) == (2 * m + pow2(k)) / (2 * pow2(k)),
{
    lemma_pow2_pos(e);
    lemma_pow2_pos(k);
    let p = pow2(e);
    let q = pow2(k);
    let n = 2 * m + q;
    assert(2 * u + one == p * n) by (nonlinear_arith)
        requires
            u == m * p,
            one == p * q,
            n == 2 * m + q,
    ;
    assert(2 * one == p * (2 * q)) by (nonlinear_arith)
        requires
            one == p * q,
    ;
    lemma_div_denominator((p * n) as int, p as int, (2 * q) as int);
    lemma_div_multiples_vanish(n as int, p as int);
}

/// The number rounded to an integral one, halves away from zero.
pub fn integral(f: Format, a: Parts) -> (r: Parts)
    requires
        f.valid(),
        f.encodes(a),
    ensures
        r == f.integral(a),
        f.encodes(r),
        f.is_nan(r) ==> f.is_nan(a),
{
    proof {
        lemma_limits(f);
        lemma_format(f);
        lemma2_to64();
        lemma2_to64_rest();
    }
    let limit = infinity_of(f);
    if a.mag >= limit {
        return a;
    }
    let (m, e) = significand(f, a.mag);
    if e >= f.unit {
        proof {
            lemma_integral_is_itself(f, a, m as nat, e as nat);
        }
        return a;
    }
    let k: u32 = f.unit - e;
    proof {
        lemma_pow2_adds(e as nat, k as nat);
        lemma_whole_nearest_of_small(m as nat, e as nat, k as nat, f.units(a), f.one());
        if k >= 60 {
            if k > 60 {
                lemma_pow2_strictly_increases(60, k as nat);
            }
            lemma_basic_div((2 * m + pow2(k as nat)) as int, (2 * pow2(k as nat)) as int);
        }
    }
    if k >= 60 {
        return from_integer(f, a.neg, 0);
    }
    let p = power_of_two(k);
    proof {
        lemma_pow2_strictly_increases(k as nat, 60);
        lemma_div_nonincreasing((2 * m + p) as int, (2 * p) as int);
    }
    let n: u128 = (2 * m as u128 + p) / (2 * p);
    from_integer(f, a.neg, n as u64)
}

/// The single-precision number nearest to a double-precision one.
pub open spec fn narrowed(a: Parts) -> Parts {
    if binary64().is_nan(a) {
        binary32().nan()
    } else if binary64().is_infinite(a) {
        Parts { neg: a.neg, mag: binary32().limit() as u64 }
    } else {
        binary32().rounded(a.neg, binary64().units(a), pow2(925))
    }
}

/// The single-precision number nearest to a double-precision one.
pub fn narrow(wide: Format, slim: Format, a: Parts) -> (r: Parts)
    requires
        wide == binary64(),
        slim == binary32(),
        wide.encodes(a),
    ensures
        r == narrowed(a),
        slim.encodes(r),
{
    proof {
        lemma_limits(wide);
        lemma_limits(slim);
        lemma_format(wide);
    }
    let limit = infinity_of(wide);
    if a.mag > limit {
        return nan_of(slim);
    }
    if a.mag == limit {
        return Parts { neg: a.neg, mag: infinity_of(slim) };
    }
    let (m, e) = significand(wide, a.mag);
    let x: i32 = e as i32 - 925;
    let ghost num = wide.units(a);
    let ghost den = pow2(925);
    proof {
        lemma_pow2_pos(925);
        if x >= 0 {
            lemma_pow2_adds(x as nat, 925);
            let w = pow2(e as nat);
            lemma_pow2_pos(e as nat);
            assert(num * 1 == m * (pow2(x as nat) * den));
            assert(m * w < (m + 1) * w) by (nonlinear_arith)
                requires
                    w > 0,
            ;
        } else {
            let c = pow2((-x) as nat);
            lemma_pow2_adds(e as nat, (-x) as nat);
            assert(num * c == m * (1 * den)) by (nonlinear_arith)
                requires
                    num == m * pow2(e as nat),
                    den == pow2(e as nat) * c,
            ;
            assert(m * (1 * den) < (m + 1) * (1 * den)) by (nonlinear_arith)
                requires
                    den > 0,
            ;
        }
    }
    let mag = round_scaled(slim, m as u128, x, true, Ghost(num), Ghost(den));
    Parts { neg: a.neg, mag }
}

} // verus!
