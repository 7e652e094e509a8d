//! Correctly rounded arithmetic on sign and magnitude, for any format.
use crate::ieee::rounding::{bit_length, lemma_format, power_of_two, round_scaled, scaled, Format};
use crate::ieee::scale::{
    lemma_magnitude_increases, lemma_magnitude_parts, lemma_nearest_from_floor, magnitude,
};
use vstd::arithmetic::div_mod::*;
use vstd::arithmetic::mul::*;
use vstd::arithmetic::power2::*;
use vstd::prelude::*;

verus! {

/// A number as a sign and the encoding of its magnitude.
#[derive(Clone, Copy, Debug, PartialEq, Eq, Structural)]
pub struct Parts {
    pub neg: bool,
    pub mag: u64,
}

/// The absolute value of an integer.
pub open spec fn magnitude_of_int(n: int) -> nat {
    if n < 0 {
        (-n) as nat
    } else {
        n as nat
    }
}

impl Format {
    /// The encoding stands for a number, an infinity or the not-a-number values.
    pub open spec fn encodes(self, a: Parts) -> bool {
        a.mag < self.limit() + self.h()
    }

    pub open spec fn is_nan(self, a: Parts) -> bool {
        a.mag > self.limit()
    }

    pub open spec fn is_infinite(self, a: Parts) -> bool {
        a.mag == self.limit()
    }

    pub open spec fn is_finite(self, a: Parts) -> bool {
        a.mag < self.limit()
    }

    /// The canonical not-a-number value.
    pub open spec fn nan(self) -> Parts {
        Parts { neg: false, mag: (self.limit() + self.h() / 2) as u64 }
    }

    /// The magnitude, in units of the smallest positive magnitude. An infinity
    /// counts as the magnitude that would follow the largest finite one.
    pub open spec fn units(self, a: Parts) -> nat {
        magnitude(self.h(), a.mag as nat)
    }

    /// The signed value, in units of the smallest positive magnitude.
    pub open spec fn value(self, a: Parts) -> int {
        if a.neg {
            -(self.units(a) as int)
        } else {
            self.units(a) as int
        }
    }

    /// The number with sign `neg` nearest to `num / den` units in magnitude.
    pub open spec fn rounded(self, neg: bool, num: nat, den: nat) -> Parts {
        Parts { neg, mag: self.nearest(num, den) as u64 }
    }

    /// The sum.
    pub open spec fn plus(self, a: Parts, b: Parts) -> Parts {
        if self.is_nan(a) || self.is_nan(b) {
            self.nan()
        } else if self.is_infinite(a) {
            if self.is_infinite(b) && a.neg != b.neg {
                self.nan()
            } else {
                a
            }
        } else if self.is_infinite(b) {
            b
        } else {
            let s = self.value(a) + self.value(b);
            if s == 0 {
                Parts { neg: a.neg && b.neg, mag: 0 }
            } else {
                self.rounded(s < 0, magnitude_of_int(s), 1)
            }
        }
    }

    /// The product.
    pub open spec fn times(self, a: Parts, b: Parts) -> Parts {
        let neg = a.neg != b.neg;
        if self.is_nan(a) || self.is_nan(b) {
            self.nan()
        } else if self.is_infinite(a) || self.is_infinite(b) {
            if a.mag == 0 || b.mag == 0 {
                self.nan()
            } else {
                Parts { neg, mag: self.limit() as u64 }
            }
        } else {
            self.rounded(neg, self.units(a) * self.units(b), self.one())
        }
    }

    /// The quotient.
    pub open spec fn over(self, a: Parts, b: Parts) -> Parts {
        let neg = a.neg != b.neg;
        if self.is_nan(a) || self.is_nan(b) {
            self.nan()
        } else if self.is_infinite(a) {
            if self.is_infinite(b) {
                self.nan()
            } else {
                Parts { neg, mag: self.limit() as u64 }
            }
        } else if self.is_infinite(b) {
            Parts { neg, mag: 0 }
        } else if b.mag == 0 {
            if a.mag == 0 {
                self.nan()
            } else {
                Parts { neg, mag: self.limit() as u64 }
            }
        } else {
            self.rounded(neg, self.units(a) * self.one(), self.units(b))
        }
    }

    /// `a < b`, false if either is not a number.
    pub open spec fn less(self, a: Parts, b: Parts) -> bool {
        !self.is_nan(a) && !self.is_nan(b) && self.value(a) < self.value(b)
    }
}

/// Facts about infinity that keep the arithmetic in range.
pub proof fn lemma_limits(f: Format)
    requires
        f.valid(),
    ensures
        f.h() > 0,
        f.h() % 2 == 0,
        0 < f.limit(),
        f.limit() + f.h() <= 0x8000_0000_0000_0000,
        f.limit() == f.top * f.hidden,
{
    lemma_format(f);
    assert(f.top * f.hidden > 0) by (nonlinear_arith)
        requires
            f.top > 0,
            f.hidden > 0,
    ;
}

/// The encoding of infinity.
pub fn infinity_of(f: Format) -> (b: u64)
    requires
        f.valid(),
    ensures
        b == f.limit(),
{
    proof {
        lemma_limits(f);
    }
    f.top * f.hidden
}

/// The canonical not-a-number value.
pub fn nan_of(f: Format) -> (r: Parts)
    requires
        f.valid(),
    ensures
        r == f.nan(),
        f.encodes(r),
        f.is_nan(r),
{
    proof {
        lemma_limits(f);
    }
    let limit = infinity_of(f);
    Parts { neg: false, mag: limit + f.hidden / 2 }
}

/// Significand and exponent of a finite magnitude.
pub fn significand(f: Format, mag: u64) -> (r: (u64, u32))
    requires
        f.valid(),
        mag < f.limit(),
    ensures
        magnitude(f.h(), mag as nat) == r.0 * pow2(r.1 as nat),
        r.0 < 2 * f.h(),
        r.1 <= 2046,
        mag >= f.h() ==> r.0 >= f.h(),
        mag < f.h() ==> r.1 == 0 && r.0 == mag,
        mag >= f.h() ==> mag == r.1 * f.h() + r.0,
        mag > 0 ==> r.0 > 0,
{
    proof {
        lemma_limits(f);
        lemma2_to64();
    }
    if mag < f.hidden {
        proof {
            assert(mag * pow2(0) == mag) by (nonlinear_arith)
                requires
                    pow2(0) == 1,
            ;
        }
        (mag, 0)
    } else {
        proof {
            lemma_magnitude_parts(f.h(), mag as nat);
            let e = mag as nat / f.h();
            assert(e < f.top) by (nonlinear_arith)
                requires
                    mag == (e - 1) * f.hidden + (f.hidden + mag as nat % f.h()),
                    mag < f.top * f.hidden,
                    mag as nat % f.h() >= 0,
                    f.hidden > 0,
            ;
        }
        (f.hidden + mag % f.hidden, (mag / f.hidden - 1) as u32)
    }
}

/// Scaling by a power of two of an integral sum.
proof fn lemma_scaled_unit(m: nat, x: nat, exact: bool, num: nat)
    requires
        m * pow2(x) <= num < (m + 1) * pow2(x),
        exact <==> num == m * pow2(x),
    ensures
        scaled(m, x as int, exact, num, 1),
{
    assert(pow2(x) * 1 == pow2(x));
    assert(num * 1 == num);
}

/// The larger exponent belongs to the larger encoding.
proof fn lemma_exponent_order(f: Format, a: nat, b: nat, ea: nat, eb: nat, ma: nat, mb: nat)
    requires
        f.valid(),
        a >= b,
        a < f.h() ==> ea == 0 && ma == a,
        b < f.h() ==> eb == 0 && mb == b,
        a >= f.h() ==> a == ea * f.h() + ma && ma >= f.h(),
        b >= f.h() ==> b == eb * f.h() + mb && mb >= f.h(),
        ma < 2 * f.h(),
        mb < 2 * f.h(),
    ensures
        ea >= eb,
        ea > eb ==> ma >= f.h(),
{
    lemma_limits(f);
    let h = f.h();
    if ea < eb {
        assert(eb * h + mb > ea * h + ma) by (nonlinear_arith)
            requires
                ea + 1 <= eb,
                mb >= h,
                ma < 2 * h,
        ;
        assert(b >= h);
        if a < h {
            assert(false);
        }
    }
}

/// The small summand vanishes beside the lowest kept digit of the large one.
proof fn lemma_vanishing(mb: nat, eb: nat, ea: nat)
    requires
        mb < 0x20_0000_0000_0000,
        ea >= eb + 70,
    ensures
        mb * pow2(eb) < pow2((ea - 16) as nat),
{
    lemma2_to64();
    lemma2_to64_rest();
    lemma_pow2_adds(54, eb);
    lemma_pow2_pos(eb);
    assert(mb * pow2(eb) < pow2(54) * pow2(eb)) by (nonlinear_arith)
        requires
            mb < pow2(54),
            pow2(eb) > 0,
    ;
    if 54 + eb < ea - 16 {
        lemma_pow2_strictly_increases(54 + eb, (ea - 16) as nat);
    }
}

/// The magnitude of the sum of two magnitudes, the larger first.
fn sum_magnitude(f: Format, a: u64, b: u64) -> (r: u64)
    requires
        f.valid(),
        b <= a < f.limit(),
    ensures
        r == f.nearest(magnitude(f.h(), a as nat) + magnitude(f.h(), b as nat), 1),
        r <= f.limit(),
{
    proof {
        lemma_format(f);
    }
    let (ma, ea) = significand(f, a);
    let (mb, eb) = significand(f, b);
    let ghost num = magnitude(f.h(), a as nat) + magnitude(f.h(), b as nat);
    proof {
        lemma_exponent_order(f, a as nat, b as nat, ea as nat, eb as nat, ma as nat, mb as nat);
    }
    let d: u32 = ea - eb;
    if d <= 69 {
        let p = power_of_two(d);
        proof {
            lemma_product_bound(ma as nat, d as nat);
            lemma_pow2_adds(d as nat, eb as nat);
        }
        let m: u128 = ma as u128 * p + mb as u128;
        proof {
            let w = pow2(eb as nat);
            lemma_pow2_pos(eb as nat);
            assert(num == m * w) by (nonlinear_arith)
                requires
                    num == ma * (p * w) + mb * w,
                    m == ma * p + mb,
            ;
            assert(num < (m + 1) * w) by (nonlinear_arith)
                requires
                    num == m * w,
                    w > 0,
            ;
            lemma_scaled_unit(m as nat, eb as nat, true, num);
        }
        round_scaled(f, m, eb as i32, true, Ghost(num), Ghost(1))
    } else {
        let m: u128 = ma as u128 * 0x1_0000;
        let x: u32 = ea - 16;
        proof {
            lemma2_to64();
            let w = pow2(x as nat);
            lemma_pow2_adds(16, x as nat);
            lemma_vanishing(mb as nat, eb as nat, ea as nat);
            lemma_pow2_pos(eb as nat);
            let small = mb * pow2(eb as nat);
            assert(small == 0 <==> mb == 0) by (nonlinear_arith)
                requires
                    small == mb * pow2(eb as nat),
                    pow2(eb as nat) > 0,
            ;
            assert(num == m * w + small) by (nonlinear_arith)
                requires
                    num == ma * (0x1_0000 * w) + small,
                    m == ma * 0x1_0000,
            ;
            assert((m + 1) * w == m * w + w) by (nonlinear_arith);
            lemma_scaled_unit(m as nat, x as nat, mb == 0, num);
        }
        round_scaled(f, m, x as i32, mb == 0, Ghost(num), Ghost(1))
    }
}

/// Shifting a significand by at most 69 digits stays within 122 digits.
proof fn lemma_product_bound(ma: nat, d: nat)
    requires
        ma < 0x20_0000_0000_0000,
        d <= 69,
    ensures
        ma * pow2(d) < 0x0400_0000_0000_0000_0000_0000_0000_0000,
{
    lemma2_to64();
    lemma2_to64_rest();
    lemma_pow2_adds(60, 9);
    if d < 69 {
        lemma_pow2_strictly_increases(d, 69);
    }
    lemma_pow2_pos(d);
    assert(ma * pow2(d) < 0x20_0000_0000_0000 * 0x20_0000_0000_0000_0000) by (nonlinear_arith)
        requires
            ma < 0x20_0000_0000_0000,
            0 < pow2(d) <= 0x20_0000_0000_0000_0000,
    ;
}

/// The magnitude of the difference of two magnitudes, the larger first.
fn difference_magnitude(f: Format, a: u64, b: u64) -> (r: u64)
    requires
        f.valid(),
        b < a < f.limit(),
    ensures
        magnitude(f.h(), b as nat) < magnitude(f.h(), a as nat),
        r == f.nearest(
            (magnitude(f.h(), a as nat) - magnitude(f.h(), b as nat)) as nat,
            1,
        ),
        r <= f.limit(),
{
    proof {
        lemma_format(f);
        lemma_magnitude_increases(f.h(), b as nat, a as nat);
    }
    let (ma, ea) = significand(f, a);
    let (mb, eb) = significand(f, b);
    let ghost num = (magnitude(f.h(), a as nat) - magnitude(f.h(), b as nat)) as nat;
    proof {
        lemma_exponent_order(f, a as nat, b as nat, ea as nat, eb as nat, ma as nat, mb as nat);
    }
    let d: u32 = ea - eb;
    if d <= 69 {
        let p = power_of_two(d);
        proof {
            lemma_product_bound(ma as nat, d as nat);
            lemma_pow2_adds(d as nat, eb as nat);
            let w = pow2(eb as nat);
            lemma_pow2_pos(eb as nat);
            assert(ma * p > mb) by (nonlinear_arith)
                requires
                    ma * (p * w) > mb * w,
                    w > 0,
            ;
        }
        let m: u128 = ma as u128 * p - mb as u128;
        proof {
            let w = pow2(eb as nat);
            assert(num == m * w) by (nonlinear_arith)
                requires
                    num == ma * (p * w) - mb * w,
                    m == ma * p - mb,
            ;
            assert(num < (m + 1) * w) by (nonlinear_arith)
                requires
                    num == m * w,
                    w > 0,
            ;
            lemma_scaled_unit(m as nat, eb as nat, true, num);
        }
        round_scaled(f, m, eb as i32, true, Ghost(num), Ghost(1))
    } else {
        let top: u128 = ma as u128 * 0x1_0000;
        let m: u128 = if mb == 0 {
            top
        } else {
            top - 1
        };
        let x: u32 = ea - 16;
        proof {
            lemma2_to64();
            let w = pow2(x as nat);
            lemma_pow2_adds(16, x as nat);
            lemma_vanishing(mb as nat, eb as nat, ea as nat);
            lemma_pow2_pos(eb as nat);
            let small = mb * pow2(eb as nat);
            assert(small == 0 <==> mb == 0) by (nonlinear_arith)
                requires
                    small == mb * pow2(eb as nat),
                    pow2(eb as nat) > 0,
            ;
            assert(num == top * w - small) by (nonlinear_arith)
                requires
                    num == ma * (0x1_0000 * w) - small,
                    top == ma * 0x1_0000,
            ;
            assert((m + 1) * w == m * w + w) by (nonlinear_arith);
            assert((top - 1) * w == top * w - w) by (nonlinear_arith);
            lemma_scaled_unit(m as nat, x as nat, mb == 0, num);
        }
        round_scaled(f, m, x as i32, mb == 0, Ghost(num), Ghost(1))
    }
}

/// The sum of two numbers.
pub fn plus(f: Format, a: Parts, b: Parts) -> (r: Parts)
    requires
        f.valid(),
        f.encodes(a),
        f.encodes(b),
    ensures
        r == f.plus(a, b),
        f.encodes(r),
{
    proof {
        lemma_limits(f);
    }
    let limit = infinity_of(f);
    if a.mag > limit || b.mag > limit {
        return nan_of(f);
    }
    if a.mag == limit {
        if b.mag == limit && a.neg != b.neg {
            return nan_of(f);
        }
        return a;
    }
    if b.mag == limit {
        return b;
    }
    proof {
        if a.mag < b.mag {
            lemma_magnitude_increases(f.h(), a.mag as nat, b.mag as nat);
        } else if b.mag < a.mag {
            lemma_magnitude_increases(f.h(), b.mag as nat, a.mag as nat);
        }
        if a.mag > 0 {
            lemma_magnitude_increases(f.h(), 0, a.mag as nat);
        }
        if b.mag > 0 {
            lemma_magnitude_increases(f.h(), 0, b.mag as nat);
        }
    }
    if a.neg == b.neg {
        if a.mag == 0 && b.mag == 0 {
            return Parts { neg: a.neg, mag: 0 };
        }
        let mag = if a.mag >= b.mag {
            sum_magnitude(f, a.mag, b.mag)
        } else {
            sum_magnitude(f, b.mag, a.mag)
        };
        Parts { neg: a.neg, mag }
    } else if a.mag == b.mag {
        Parts { neg: false, mag: 0 }
    } else if a.mag > b.mag {
        Parts { neg: a.neg, mag: difference_magnitude(f, a.mag, b.mag) }
    } else {
        Parts { neg: b.neg, mag: difference_magnitude(f, b.mag, a.mag) }
    }
}

/// The product of two finite magnitudes.
fn product_magnitude(f: Format, a: u64, b: u64) -> (r: u64)
    requires
        f.valid(),
        a < f.limit(),
        b < f.limit(),
    ensures
        r == f.nearest(
            magnitude(f.h(), a as nat) * magnitude(f.h(), b as nat),
            f.one(),
        ),
        r <= f.limit(),
{
    proof {
        lemma_format(f);
    }
    let (ma, ea) = significand(f, a);
    let (mb, eb) = significand(f, b);
    let ghost num = magnitude(f.h(), a as nat) * magnitude(f.h(), b as nat);
    let ghost one = f.one();
    proof {
        assert(ma * mb < 0x20_0000_0000_0000 * 0x20_0000_0000_0000) by (nonlinear_arith)
            requires
                ma < 0x20_0000_0000_0000,
                mb < 0x20_0000_0000_0000,
        ;
    }
    let m: u128 = ma as u128 * mb as u128;
    let x: i32 = ea as i32 + eb as i32 - f.unit as i32;
    proof {
        lemma_pow2_pos(f.unit as nat);
        lemma_pow2_adds(ea as nat, eb as nat);
        let w = pow2((ea + eb) as nat);
        assert(num == m * w) by (nonlinear_arith)
            requires
                num == (ma * pow2(ea as nat)) * (mb * pow2(eb as nat)),
                w == pow2(ea as nat) * pow2(eb as nat),
                m == ma * mb,
        ;
        if x >= 0 {
            lemma_pow2_adds(x as nat, f.unit as nat);
            let a0 = pow2(x as nat);
            lemma_pow2_pos((ea + eb) as nat);
            assert(num * 1 == m * (a0 * one));
            assert(m * w < (m + 1) * w) by (nonlinear_arith)
                requires
                    w > 0,
            ;
        } else {
            let c = pow2((-x) as nat);
            lemma_pow2_adds((ea + eb) as nat, (-x) as nat);
            assert(num * c == m * (1 * one)) by (nonlinear_arith)
                requires
                    num == m * w,
                    one == w * c,
            ;
            assert(m * (1 * one) < (m + 1) * (1 * one)) by (nonlinear_arith)
                requires
                    one > 0,
            ;
        }
    }
    round_scaled(f, m, x, true, Ghost(num), Ghost(one))
}

/// The product of two numbers.
pub fn times(f: Format, a: Parts, b: Parts) -> (r: Parts)
    requires
        f.valid(),
        f.encodes(a),
        f.encodes(b),
    ensures
        r == f.times(a, b),
        f.encodes(r),
{
    proof {
        lemma_limits(f);
    }
    let limit = infinity_of(f);
    let neg = a.neg != b.neg;
    if a.mag > limit || b.mag > limit {
        return nan_of(f);
    }
    if a.mag == limit || b.mag == limit {
        if a.mag == 0 || b.mag == 0 {
            return nan_of(f);
        }
        return Parts { neg, mag: limit };
    }
    Parts { neg, mag: product_magnitude(f, a.mag, b.mag) }
}

/// A quotient with remainder, scaled by a common factor.
proof fn lemma_quotient_scaled(p: nat, q: nat, d: nat, r: nat, g: nat, n: nat, dg: nat)
    requires
        p == q * d + r,
        r < d,
        g > 0,
        n == p * g,
        dg == d * g,
    ensures
        q * dg <= n < (q + 1) * dg,
        n == q * dg <==> r == 0,
{
    assert(n == q * dg + r * g) by (nonlinear_arith)
        requires
            n == p * g,
            p == q * d + r,
            dg == d * g,
    ;
    assert((q + 1) * dg == q * dg + dg) by (nonlinear_arith);
    assert(r * g < dg) by (nonlinear_arith)
        requires
            r < d,
            g > 0,
            dg == d * g,
    ;
    assert(r * g == 0 <==> r == 0) by (nonlinear_arith)
        requires
            g > 0,
    ;
}

/// A significand moved up so that its leading bit is the hidden bit.
pub fn normalized(f: Format, m: u64) -> (r: (u64, u32))
    requires
        f.valid(),
        0 < m < 2 * f.h(),
    ensures
        r.0 == m * pow2(r.1 as nat),
        f.h() <= r.0 < 2 * f.h(),
        r.1 <= 53,
{
    proof {
        lemma_format(f);
    }
    let n = bit_length(m as u128);
    proof {
        if n > f.precision {
            if f.precision < n - 1 {
                lemma_pow2_strictly_increases(f.precision as nat, (n - 1) as nat);
            }
        }
    }
    let up: u32 = f.precision - n;
    let p = power_of_two(up);
    proof {
        lemma_pow2_adds(n as nat, up as nat);
        lemma_pow2_adds((n - 1) as nat, up as nat);
        assert(m * p < pow2(n as nat) * p) by (nonlinear_arith)
            requires
                m < pow2(n as nat),
                p > 0,
        ;
        assert(m * p >= pow2((n - 1) as nat) * p) by (nonlinear_arith)
            requires
                m >= pow2((n - 1) as nat),
        ;
    }
    ((m as u128 * p) as u64, up)
}

/// The quotient of `ma * 2^ea` and `mb * 2^eb`, neither of them zero.
pub fn quotient(f: Format, ma: u64, ea: u32, mb: u64, eb: u32) -> (b: u64)
    requires
        f.valid(),
        0 < ma < 2 * f.h(),
        0 < mb < 2 * f.h(),
        ea <= 2046,
        eb <= 2046,
    ensures
        b == f.nearest(ma as nat * pow2(ea as nat) * f.one(), mb as nat * pow2(eb as nat)),
        b <= f.limit(),
{
    proof {
        lemma_format(f);
        lemma2_to64();
    }
    let (na, up) = normalized(f, ma);
    let ghost num = ma as nat * pow2(ea as nat) * f.one();
    let ghost den = mb as nat * pow2(eb as nat);
    let p: u128 = na as u128 * 0x1_0000_0000_0000_0000;
    let q: u128 = p / mb as u128;
    let r: u128 = p % mb as u128;
    let x: i32 = ea as i32 - up as i32 - 64 + f.unit as i32 - eb as i32;
    proof {
        lemma_fundamental_div_mod(p as int, mb as int);
        lemma_mul_is_commutative(mb as int, q as int);
        lemma_pow2_pos(eb as nat);
        assert(den > 0) by (nonlinear_arith)
            requires
                den == mb * pow2(eb as nat),
                mb > 0,
                pow2(eb as nat) > 0,
        ;
        // The quotient has digits to spare.
        assert((q + 1) * mb > p) by (nonlinear_arith)
            requires
                p == q * mb + r,
                r < mb,
        ;
        assert((q + 1) * (2 * f.h()) >= (q + 1) * mb) by (nonlinear_arith)
            requires
                mb < 2 * f.h(),
        ;
        assert(2 * (q + 1) > 0x1_0000_0000_0000_0000) by (nonlinear_arith)
            requires
                (q + 1) * (2 * f.h()) > f.h() * 0x1_0000_0000_0000_0000,
                f.h() > 0,
        ;
        assert(q <= p) by (nonlinear_arith)
            requires
                p == q * mb + r,
                mb > 0,
                r >= 0,
        ;
        // p == ma * 2^(up + 64)
        lemma_pow2_adds(up as nat, 64);
        lemma2_to64_rest();
        let lift = pow2((up + 64) as nat);
        assert(p == ma * lift) by (nonlinear_arith)
            requires
                p == na * 0x1_0000_0000_0000_0000,
                na == ma * pow2(up as nat),
                lift == pow2(up as nat) * 0x1_0000_0000_0000_0000,
        ;
        lemma_pow2_adds(ea as nat, f.unit as nat);
        assert(num == ma * pow2((ea + f.unit) as nat)) by (nonlinear_arith)
            requires
                num == (ma * pow2(ea as nat)) * f.one(),
                pow2((ea + f.unit) as nat) == pow2(ea as nat) * f.one(),
        ;
        if x >= 0 {
            let g = pow2((x + eb) as nat);
            lemma_pow2_pos((x + eb) as nat);
            lemma_pow2_adds(x as nat, eb as nat);
            lemma_pow2_adds((up + 64) as nat, (x + eb) as nat);
            assert(num * 1 == p * g) by (nonlinear_arith)
                requires
                    num == ma * (lift * g),
                    p == ma * lift,
            ;
            assert(pow2(x as nat) * den == mb * g) by (nonlinear_arith)
                requires
                    den == mb * pow2(eb as nat),
                    g == pow2(x as nat) * pow2(eb as nat),
            ;
            lemma_quotient_scaled(
                p as nat,
                q as nat,
                mb as nat,
                r as nat,
                g,
                num * 1,
                pow2(x as nat) * den,
            );
        } else {
            let g = pow2(eb as nat);
            let c = pow2((-x) as nat);
            lemma_pow2_adds((ea + f.unit) as nat, (-x) as nat);
            lemma_pow2_adds((up + 64) as nat, eb as nat);
            assert(num * c == p * g) by (nonlinear_arith)
                requires
                    num == ma * pow2((ea + f.unit) as nat),
                    pow2((ea + f.unit) as nat) * c == lift * g,
                    p == ma * lift,
            ;
            lemma_quotient_scaled(
                p as nat,
                q as nat,
                mb as nat,
                r as nat,
                g,
                num * c,
                1 * den,
            );
        }
    }
    round_scaled(f, q, x, r == 0, Ghost(num), Ghost(den))
}

/// The quotient of two finite magnitudes, neither of them zero.
fn quotient_magnitude(f: Format, a: u64, b: u64) -> (r: u64)
    requires
        f.valid(),
        0 < a < f.limit(),
        0 < b < f.limit(),
    ensures
        r == f.nearest(
            magnitude(f.h(), a as nat) * f.one(),
            magnitude(f.h(), b as nat),
        ),
        r <= f.limit(),
{
    let (ma, ea) = significand(f, a);
    let (mb, eb) = significand(f, b);
    quotient(f, ma, ea, mb, eb)
}

/// The quotient of two numbers.
pub fn over(f: Format, a: Parts, b: Parts) -> (r: Parts)
    requires
        f.valid(),
        f.encodes(a),
        f.encodes(b),
    ensures
        r == f.over(a, b),
        f.encodes(r),
{
    proof {
        lemma_limits(f);
    }
    let limit = infinity_of(f);
    let neg = a.neg != b.neg;
    if a.mag > limit || b.mag > limit {
        return nan_of(f);
    }
    if a.mag == limit {
        if b.mag == limit {
            return nan_of(f);
        }
        return Parts { neg, mag: limit };
    }
    if b.mag == limit {
        return Parts { neg, mag: 0 };
    }
    if b.mag == 0 {
        if a.mag == 0 {
            return nan_of(f);
        }
        return Parts { neg, mag: limit };
    }
    if a.mag == 0 {
        proof {
            lemma_magnitude_increases(f.h(), 0, b.mag as nat);
            assert(0 * f.one() == 0);
            lemma_nearest_zero(f, f.units(b));
        }
        return Parts { neg, mag: 0 };
    }
    Parts { neg, mag: quotient_magnitude(f, a.mag, b.mag) }
}

/// Zero is rounded to zero.
pub proof fn lemma_nearest_zero(f: Format, den: nat)
    requires
        f.valid(),
        den > 0,
    ensures
        f.nearest(0, den) == 0,
{
    lemma_limits(f);
    let h = f.h();
    assert(0 * den == 0);
    lemma_magnitude_increases(h, 0, 1);
    assert(magnitude(h, 1) * den > 0) by (nonlinear_arith)
        requires
            magnitude(h, 1) > 0,
            den > 0,
    ;
    assert((magnitude(h, 0) + magnitude(h, 1)) * den > 0) by (nonlinear_arith)
        requires
            magnitude(h, 1) > 0,
            den > 0,
    ;
    lemma_nearest_from_floor(h, f.limit(), 0, den, 0);
}

/// Whether `a < b`.
pub fn less(f: Format, a: Parts, b: Parts) -> (r: bool)
    requires
        f.valid(),
    ensures
        r == f.less(a, b),
{
    proof {
        lemma_limits(f);
        if a.mag < b.mag {
            lemma_magnitude_increases(f.h(), a.mag as nat, b.mag as nat);
        } else if b.mag < a.mag {
            lemma_magnitude_increases(f.h(), b.mag as nat, a.mag as nat);
        }
        if a.mag > 0 {
            lemma_magnitude_increases(f.h(), 0, a.mag as nat);
        }
        if b.mag > 0 {
            lemma_magnitude_increases(f.h(), 0, b.mag as nat);
        }
    }
    let limit = infinity_of(f);
    if a.mag > limit || b.mag > limit {
        false
    } else if a.neg {
        if b.neg {
            a.mag > b.mag
        } else {
            a.mag > 0 || b.mag > 0
        }
    } else if b.neg {
        false
    } else {
        a.mag < b.mag
    }
}

} // verus!
