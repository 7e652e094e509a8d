//! Rounding of an exact scaled significand to a binary format.
use crate::ieee::scale::{
    is_floor, lemma_magnitude_at, lemma_nearest_from_floor, magnitude, nearest,
};
use vstd::arithmetic::div_mod::*;
use vstd::arithmetic::mul::*;
use vstd::arithmetic::power2::*;
use vstd::prelude::*;

verus! {

/// A binary interchange format.
#[derive(Clone, Copy, PartialEq, Eq, Structural)]
pub struct Format {
    /// The hidden bit: one more than the largest fraction.
    pub hidden: u64,
    /// Number of explicit fraction bits plus one.
    pub precision: u32,
    /// The biased exponent of infinity.
    pub top: u64,
    /// The number 1 is two to this power, in units of the smallest magnitude.
    pub unit: u32,
}

impl Format {
    /// One of the two formats in use.
    pub open spec fn valid(self) -> bool {
        ||| self == binary64()
        ||| self == binary32()
    }

    /// The hidden bit as a natural number.
    pub open spec fn h(self) -> nat {
        self.hidden as nat
    }

    /// The encoding of infinity.
    pub open spec fn limit(self) -> nat {
        (self.top * self.hidden) as nat
    }

    /// The number 1 in units of the smallest magnitude.
    pub open spec fn one(self) -> nat {
        pow2(self.unit as nat)
    }

    /// The encoding of the magnitude nearest to `num / den` units.
    pub open spec fn nearest(self, num: nat, den: nat) -> nat {
        nearest(self.h(), self.limit(), num, den)
    }
}

/// The double-precision format.
pub open spec fn binary64() -> Format {
    Format { hidden: 0x10_0000_0000_0000, precision: 53, top: 2047, unit: 1074 }
}

/// The single-precision format.
pub open spec fn binary32() -> Format {
    Format { hidden: 0x80_0000, precision: 24, top: 255, unit: 149 }
}

/// Facts about the constants of a valid format.
pub proof fn lemma_format(f: Format)
    requires
        f.valid(),
    ensures
        f.h() == pow2((f.precision - 1) as nat),
        pow2(f.precision as nat) == 2 * f.h(),
        f.h() % 2 == 0,
        f.h() > 0,
        f.h() <= 0x10_0000_0000_0000,
        24 <= f.precision <= 53,
        f.limit() == f.top * f.hidden,
        f.limit() + f.h() <= 0x8000_0000_0000_0000,
        255 <= f.top <= 2047,
        f.top * 0x10_0000_0000_0000 >= f.limit(),
{
    lemma2_to64();
    lemma2_to64_rest();
    if f == binary64() {
        assert(f.top * f.hidden == 0x7ff0_0000_0000_0000) by (nonlinear_arith)
            requires
                f.top == 2047,
                f.hidden == 0x10_0000_0000_0000,
        ;
    } else {
        assert(f.top * f.hidden == 0x7f80_0000) by (nonlinear_arith)
            requires
                f.top == 255,
                f.hidden == 0x80_0000,
        ;
    }
}

/// Two to the power `k`.
pub fn power_of_two(k: u32) -> (p: u128)
    requires
        k <= 127,
    ensures
        p == pow2(k as nat),
        p > 0,
{
    let mut p: u128 = 1;
    let mut i: u32 = 0;
    proof {
        lemma2_to64();
    }
    while i < k
        invariant
            i <= k <= 127,
            p == pow2(i as nat),
            p > 0,
        decreases k - i,
    {
        proof {
            lemma_pow2_unfold((i + 1) as nat);
            lemma_pow2_bound_127((i + 1) as nat);
        }
        p = p * 2;
        i = i + 1;
    }
    p
}

/// Powers of two up to the 127th fit in 128 bits.
pub proof fn lemma_pow2_bound_127(k: nat)
    requires
        k <= 127,
    ensures
        pow2(k) <= 0x8000_0000_0000_0000_0000_0000_0000_0000,
{
    lemma2_to64();
    lemma2_to64_rest();
    lemma_pow2_adds(64, 63);
    if k < 127 {
        lemma_pow2_strictly_increases(k, 127);
    }
    assert(pow2(127) == 0x8000_0000_0000_0000_0000_0000_0000_0000);
}

/// The number of binary digits of `m`.
pub fn bit_length(m: u128) -> (n: u32)
    requires
        m < 0x8000_0000_0000_0000_0000_0000_0000_0000,
    ensures
        n <= 127,
        m < pow2(n as nat),
        m > 0 ==> n > 0 && pow2((n - 1) as nat) <= m,
        m == 0 ==> n == 0,
{
    let mut p: u128 = 1;
    let mut n: u32 = 0;
    proof {
        lemma2_to64();
    }
    while p <= m
        invariant
            n <= 127,
            p == pow2(n as nat),
            p > 0,
            m < 0x8000_0000_0000_0000_0000_0000_0000_0000,
            n > 0 ==> pow2((n - 1) as nat) <= m,
            m == 0 ==> n == 0,
        decreases 127 - n,
    {
        proof {
            if n == 127 {
                lemma2_to64();
                lemma2_to64_rest();
                lemma_pow2_adds(64, 63);
            }
            lemma_pow2_unfold((n + 1) as nat);
            lemma_pow2_bound_127((n + 1) as nat);
        }
        p = p * 2;
        n = n + 1;
    }
    n
}

/// `num / den` is `(m + t) * 2^x` for some `t` with `0 <= t < 1`, where `t` is
/// zero exactly if `exact`.
pub open spec fn scaled(m: nat, x: int, exact: bool, num: nat, den: nat) -> bool {
    let a = if x >= 0 {
        pow2(x as nat)
    } else {
        1
    };
    let c = if x >= 0 {
        1
    } else {
        pow2((-x) as nat)
    };
    &&& m * (a * den) <= num * c < (m + 1) * (a * den)
    &&& exact <==> num * c == m * (a * den)
}

/// Position of `num / t` between two neighbours `q` and `q + 1`, read off a
/// finer significand `m` with `m == q * s + r`.
proof fn lemma_position(
    m: nat,
    exact: bool,
    num: nat,
    c: nat,
    a: nat,
    q: nat,
    s: nat,
    r: nat,
    half: nat,
    t: nat,
)
    requires
        c > 0,
        a > 0,
        s == 2 * half,
        half > 0,
        m == q * s + r,
        r < s,
        t * c == s * a,
        m * a <= num * c < (m + 1) * a,
        exact <==> num * c == m * a,
    ensures
        q * t <= num < (q + 1) * t,
        r < half ==> 2 * num < (2 * q + 1) * t,
        r > half ==> 2 * num > (2 * q + 1) * t,
        r == half && exact ==> 2 * num == (2 * q + 1) * t,
        r == half && !exact ==> 2 * num > (2 * q + 1) * t,
{
    let n = num * c;
    let mid = q * s + half;
    assert(q * t * c == q * s * a) by (nonlinear_arith)
        requires
            t * c == s * a,
    ;
    assert((q + 1) * t * c == (q + 1) * s * a) by (nonlinear_arith)
        requires
            t * c == s * a,
    ;
    assert(q * s * a <= m * a) by (nonlinear_arith)
        requires
            m == q * s + r,
            r >= 0,
            a > 0,
    ;
    assert((m + 1) * a <= (q + 1) * s * a) by (nonlinear_arith)
        requires
            m == q * s + r,
            r < s,
            a > 0,
    ;
    assert(q * t <= num) by (nonlinear_arith)
        requires
            q * t * c <= num * c,
            c > 0,
    ;
    assert(num < (q + 1) * t) by (nonlinear_arith)
        requires
            num * c < (q + 1) * t * c,
            c > 0,
    ;
    assert((2 * q + 1) * t * c == 2 * (mid * a)) by (nonlinear_arith)
        requires
            t * c == s * a,
            s == 2 * half,
            mid == q * s + half,
    ;
    if r < half {
        assert((m + 1) * a <= mid * a) by (nonlinear_arith)
            requires
                m + 1 <= mid,
                a > 0,
        ;
        assert(2 * num < (2 * q + 1) * t) by (nonlinear_arith)
            requires
                2 * (num * c) < (2 * q + 1) * t * c,
                c > 0,
        ;
    } else if r > half {
        assert((mid + 1) * a <= m * a) by (nonlinear_arith)
            requires
                mid + 1 <= m,
                a > 0,
        ;
        assert(mid * a < (mid + 1) * a) by (nonlinear_arith)
            requires
                a > 0,
        ;
        assert(2 * num > (2 * q + 1) * t) by (nonlinear_arith)
            requires
                2 * (num * c) > (2 * q + 1) * t * c,
                c > 0,
        ;
    } else {
        assert(mid == m);
        if exact {
            assert(2 * num == (2 * q + 1) * t) by (nonlinear_arith)
                requires
                    2 * (num * c) == (2 * q + 1) * t * c,
                    c > 0,
            ;
        } else {
            assert(2 * num > (2 * q + 1) * t) by (nonlinear_arith)
                requires
                    2 * (num * c) > (2 * q + 1) * t * c,
                    c > 0,
            ;
        }
    }
}

/// Adding an even multiple keeps the parity.
proof fn lemma_parity(e: nat, h: nat, q: nat)
    requires
        h % 2 == 0,
    ensures
        (e * h + q) % 2 == q % 2,
{
    let g = h / 2;
    assert(e * h == 2 * (e * g)) by (nonlinear_arith)
        requires
            h == 2 * g,
    ;
}

/// The rounding decision between the neighbours with significands `q` and
/// `q + 1` at exponent `e`.
proof fn lemma_round_neighbours(f: Format, num: nat, den: nat, e: nat, q: nat)
    requires
        f.valid(),
        den > 0,
        q < 2 * f.h(),
        f.h() <= q || e == 0,
        q * (pow2(e) * den) <= num < (q + 1) * (pow2(e) * den),
    ensures
        is_floor(f.h(), num, den, e * f.h() + q),
        (e * f.h() + q) % 2 == q % 2,
        f.nearest(num, den) == ({
            let t = pow2(e) * den;
            let lower = e * f.h() + q;
            let r: nat = if 2 * num < (2 * q + 1) * t {
                lower
            } else if 2 * num > (2 * q + 1) * t {
                lower + 1
            } else if q % 2 == 0 {
                lower
            } else {
                lower + 1
            };
            if r >= f.limit() {
                f.limit()
            } else {
                r
            }
        }),
{
    lemma_format(f);
    let h = f.h();
    let t = pow2(e) * den;
    lemma_magnitude_at(h, e, q);
    lemma_magnitude_at(h, e, q + 1);
    let b = e * h + q;
    assert(magnitude(h, b) * den == q * t) by (nonlinear_arith)
        requires
            magnitude(h, b) == q * pow2(e),
            t == pow2(e) * den,
    ;
    assert(magnitude(h, b + 1) * den == (q + 1) * t) by (nonlinear_arith)
        requires
            magnitude(h, b + 1) == (q + 1) * pow2(e),
            t == pow2(e) * den,
    ;
    assert((magnitude(h, b) + magnitude(h, b + 1)) * den == (2 * q + 1) * t) by (nonlinear_arith)
        requires
            magnitude(h, b) * den == q * t,
            magnitude(h, b + 1) * den == (q + 1) * t,
    ;
    lemma_parity(e, h, q);
    assert(is_floor(h, num, den, b));
    lemma_nearest_from_floor(h, f.limit(), num, den, b);
}

/// A significand shifted up to the precision stays within it.
proof fn lemma_shift_left_bound(f: Format, m: nat, n: nat, up: nat)
    requires
        f.valid(),
        m < pow2(n),
        n + up <= f.precision,
    ensures
        m * pow2(up) < 2 * f.h(),
{
    lemma_format(f);
    lemma_pow2_adds(n, up);
    lemma_pow2_pos(up);
    assert(m * pow2(up) < pow2(n) * pow2(up)) by (nonlinear_arith)
        requires
            m < pow2(n),
            pow2(up) > 0,
    ;
    if n + up < f.precision {
        lemma_pow2_strictly_increases(n + up, f.precision as nat);
    }
}

/// A significand shifted up to exactly the precision has its leading bit set.
proof fn lemma_shift_left_fills(f: Format, m: nat, n: nat, up: nat)
    requires
        f.valid(),
        n > 0,
        pow2((n - 1) as nat) <= m,
        n + up == f.precision,
    ensures
        m * pow2(up) >= f.h(),
{
    lemma_format(f);
    lemma_pow2_adds((n - 1) as nat, up);
    assert(m * pow2(up) >= pow2((n - 1) as nat) * pow2(up)) by (nonlinear_arith)
        requires
            m >= pow2((n - 1) as nat),
    ;
}

/// A significand cut down to the precision stays within it.
proof fn lemma_shift_right_bound(f: Format, m: nat, n: nat, shift: nat, q: nat)
    requires
        f.valid(),
        m < pow2(n),
        n <= f.precision + shift,
        q * pow2(shift) <= m,
    ensures
        q < 2 * f.h(),
{
    lemma_format(f);
    lemma_pow2_adds(f.precision as nat, shift);
    lemma_pow2_pos(shift);
    if n < f.precision + shift {
        lemma_pow2_strictly_increases(n, f.precision as nat + shift);
    }
    assert(q < pow2(f.precision as nat)) by (nonlinear_arith)
        requires
            q * pow2(shift) < pow2(f.precision as nat) * pow2(shift),
            pow2(shift) > 0,
    ;
}

/// A significand cut down to exactly the precision has its leading bit set.
proof fn lemma_shift_right_fills(f: Format, m: nat, n: nat, shift: nat, q: nat)
    requires
        f.valid(),
        n > 0,
        pow2((n - 1) as nat) <= m,
        n == f.precision + shift,
        m < (q + 1) * pow2(shift),
    ensures
        q >= f.h(),
{
    lemma_format(f);
    lemma_pow2_adds((f.precision - 1) as nat, shift);
    lemma_pow2_pos(shift);
    assert(q + 1 > f.h()) by (nonlinear_arith)
        requires
            f.h() * pow2(shift) < (q + 1) * pow2(shift),
            pow2(shift) > 0,
    ;
}

/// A quotient below half of the smallest magnitude rounds to zero.
proof fn lemma_far_below(
    f: Format,
    m: nat,
    x: int,
    exact: bool,
    num: nat,
    den: nat,
    n: nat,
    shift: nat,
)
    requires
        f.valid(),
        den > 0,
        m < pow2(n),
        shift > n,
        x == -shift,
        scaled(m, x, exact, num, den),
    ensures
        f.nearest(num, den) == 0,
{
    lemma_format(f);
    lemma2_to64();
    let c = pow2(shift);
    let w = pow2(n);
    lemma_pow2_pos(n);
    lemma_pow2_unfold(n + 1);
    if n + 1 < shift {
        lemma_pow2_strictly_increases(n + 1, shift);
    }
    assert(2 * w <= c);
    assert(num * c < (m + 1) * den) by {
        assert(1 * den == den);
    }
    assert((m + 1) * den <= w * den) by (nonlinear_arith)
        requires
            m + 1 <= w,
    ;
    assert(num * (2 * w) <= num * c) by (nonlinear_arith)
        requires
            2 * w <= c,
    ;
    assert(2 * num < den) by (nonlinear_arith)
        requires
            num * (2 * w) < w * den,
            w > 0,
    ;
    assert(pow2(0) * den == den) by (nonlinear_arith)
        requires
            pow2(0) == 1,
    ;
    assert(0 * f.h() == 0) by (nonlinear_arith);
    lemma_round_neighbours(f, num, den, 0, 0);
    lemma_limit_positive(f);
}

/// Infinity is not the encoding of zero.
proof fn lemma_limit_positive(f: Format)
    requires
        f.valid(),
    ensures
        f.limit() > 0,
{
}

/// The encoding with significand `q` and exponent `e`, or the next one if
/// `away`, with infinity as the largest.
fn assemble(f: Format, e: u32, q: u64, away: bool) -> (b: u64)
    requires
        f.valid(),
        q < 2 * f.h(),
    ensures
        b as nat == ({
            let r: nat = if away {
                e as nat * f.h() + q as nat + 1
            } else {
                e as nat * f.h() + q as nat
            };
            if r >= f.limit() {
                f.limit()
            } else {
                r
            }
        }),
{
    proof {
        lemma_format(f);
    }
    let limit: u64 = f.top * f.hidden;
    if e as u64 >= f.top {
        proof {
            assert(e as nat * f.h() >= f.top * f.hidden) by (nonlinear_arith)
                requires
                    e >= f.top,
                    f.h() == f.hidden,
            ;
        }
        return limit;
    }
    proof {
        assert(e * f.hidden + f.hidden <= f.top * f.hidden) by (nonlinear_arith)
            requires
                e + 1 <= f.top,
        ;
    }
    let base: u64 = e as u64 * f.hidden;
    let lower: u64 = base + q;
    let r: u64 = if away {
        lower + 1
    } else {
        lower
    };
    if r >= limit {
        limit
    } else {
        r
    }
}

/// The encoding of the magnitude nearest to `num / den`, where that quotient is
/// `(m + t) * 2^x` with `t` zero exactly if `exact`. An inexact significand
/// carries at least two digits beyond the precision.
pub fn round_scaled(
    f: Format,
    m: u128,
    x: i32,
    exact: bool,
    Ghost(num): Ghost<nat>,
    Ghost(den): Ghost<nat>,
) -> (b: u64)
    requires
        f.valid(),
        m < 0x0800_0000_0000_0000_0000_0000_0000_0000,
        -8000 <= x <= 8000,
        den > 0,
        scaled(m as nat, x as int, exact, num, den),
        exact || m >= 4 * f.h(),
    ensures
        b == f.nearest(num, den),
        b <= f.limit(),
{
    proof {
        lemma_format(f);
        lemma2_to64();
    }
    if m == 0 {
        proof {
            let c = if x >= 0 {
                1
            } else {
                pow2((-x) as nat)
            };
            lemma_pow2_pos((-x) as nat);
            assert(num == 0) by (nonlinear_arith)
                requires
                    num * c == 0,
                    c > 0,
            ;
            assert(pow2(0) * den == den) by (nonlinear_arith)
                requires
                    pow2(0) == 1,
            ;
            assert(0 * f.h() == 0) by (nonlinear_arith);
            lemma_round_neighbours(f, num, den, 0, 0);
            lemma_limit_positive(f);
        }
        return 0;
    }
    let n = bit_length(m);
    let keep: i32 = n as i32 - f.precision as i32;
    let shift: i32 = if keep >= 0 - x {
        keep
    } else {
        0 - x
    };
    let e: u32 = (x + shift) as u32;
    let ghost t = pow2(e as nat) * den;
    let limit: u64 = f.top * f.hidden;
    proof {
        lemma_pow2_pos(e as nat);
        lemma_mul_strictly_positive(pow2(e as nat) as int, den as int);
    }
    if shift <= 0 {
        let up: u32 = (0 - shift) as u32;
        proof {
            if !exact {
                assert(n > f.precision) by {
                    if n <= f.precision {
                        if n < f.precision {
                            lemma_pow2_strictly_increases(n as nat, f.precision as nat);
                        }
                    }
                }
            }
        }
        let p = power_of_two(up);
        proof {
            lemma_shift_left_bound(f, m as nat, n as nat, up as nat);
        }
        let q: u128 = m * p;
        proof {
            assert(x >= 0);
            lemma_pow2_adds(up as nat, e as nat);
            assert(up + e == x);
            let a = pow2(x as nat);
            assert(num == q * t) by (nonlinear_arith)
                requires
                    num * 1 == m * (a * den),
                    a == p * pow2(e as nat),
                    q == m * p,
                    t == pow2(e as nat) * den,
            ;
            assert(num < (q + 1) * t && 2 * num < (2 * q + 1) * t) by (nonlinear_arith)
                requires
                    num == q * t,
                    t > 0,
            ;
            if e > 0 {
                lemma_shift_left_fills(f, m as nat, n as nat, up as nat);
            }
            lemma_round_neighbours(f, num, den, e as nat, q as nat);
        }
        return assemble(f, e, q as u64, false);
    }
    proof {
        if shift > n {
            lemma_far_below(f, m as nat, x as int, exact, num, den, n as nat, shift as nat);
        }
    }
    if shift > n as i32 {
        return 0;
    }
    let s = power_of_two(shift as u32);
    let half = power_of_two(shift as u32 - 1);
    let q: u128 = m / s;
    let r: u128 = m % s;
    proof {
        lemma_pow2_unfold(shift as nat);
        lemma_fundamental_div_mod(m as int, s as int);
        lemma_mul_is_commutative(s as int, q as int);
        let a = if x >= 0 {
            pow2(x as nat)
        } else {
            1
        };
        let c = if x >= 0 {
            1
        } else {
            pow2((-x) as nat)
        };
        if x >= 0 {
            lemma_pow2_pos(x as nat);
        } else {
            lemma_pow2_pos((-x) as nat);
        }
        lemma_mul_strictly_positive(a as int, den as int);
        if x >= 0 {
            lemma_pow2_adds(shift as nat, x as nat);
            assert(t * c == s * (a * den)) by (nonlinear_arith)
                requires
                    c == 1,
                    t == pow2(e as nat) * den,
                    pow2(e as nat) == s * a,
            ;
        } else {
            lemma_pow2_adds(e as nat, (-x) as nat);
            assert(t * c == s * (a * den)) by (nonlinear_arith)
                requires
                    a == 1,
                    t == pow2(e as nat) * den,
                    s == pow2(e as nat) * c,
            ;
        }
        lemma_position(
            m as nat,
            exact,
            num,
            c,
            a * den,
            q as nat,
            s as nat,
            r as nat,
            half as nat,
            t,
        );
        assert(m < (q + 1) * s) by (nonlinear_arith)
            requires
                m == q * s + r,
                r < s,
        ;
        lemma_shift_right_bound(f, m as nat, n as nat, shift as nat, q as nat);
        if e > 0 {
            lemma_shift_right_fills(f, m as nat, n as nat, shift as nat, q as nat);
        }
        lemma_round_neighbours(f, num, den, e as nat, q as nat);
    }
    let away = r > half || (r == half && (!exact || q % 2 == 1));
    assemble(f, e, q as u64, away)
}

} // verus!
