//! The correctly rounded square root.
use crate::ieee::arith::{infinity_of, lemma_limits, nan_of, normalized, significand, Parts};
use crate::ieee::rounding::{lemma_format, power_of_two, round_scaled, scaled, Format};
use crate::ieee::scale::{
    is_floor, lemma_floor_exists, lemma_magnitude_at, lemma_magnitude_increases,
    lemma_magnitude_parts, lemma_nearest_from_floor, magnitude,
};
use vstd::arithmetic::div_mod::*;
use vstd::arithmetic::mul::*;
use vstd::arithmetic::power2::*;
use vstd::prelude::*;

verus! {

/// `b` encodes the largest representable magnitude whose square is not above `n`.
pub open spec fn is_root_floor(h: nat, n: nat, b: nat) -> bool {
    magnitude(h, b) * magnitude(h, b) <= n < magnitude(h, b + 1) * magnitude(h, b + 1)
}

/// The encoding of the magnitude nearest to the square root of `n`, the even
/// encoding where two are equally near.
pub open spec fn nearest_root(h: nat, n: nat) -> nat {
    let f = choose|b: nat| is_root_floor(h, n, b);
    let both = magnitude(h, f) + magnitude(h, f + 1);
    if 4 * n < both * both {
        f
    } else if 4 * n > both * both {
        f + 1
    } else if f % 2 == 0 {
        f
    } else {
        f + 1
    }
}

impl Format {
    /// The square root; not a number below zero.
    pub open spec fn root(self, a: Parts) -> Parts {
        if self.is_nan(a) {
            self.nan()
        } else if a.mag == 0 {
            a
        } else if a.neg {
            self.nan()
        } else if self.is_infinite(a) {
            a
        } else {
            Parts { neg: false, mag: nearest_root(self.h(), self.units(a) * self.one()) as u64 }
        }
    }
}

/// The integer square root.
fn integer_root(w: u128) -> (m: u128)
    requires
        w < 0x0040_0000_0000_0000_0000_0000_0000_0000,
    ensures
        m * m <= w < (m + 1) * (m + 1),
        m < 0x800_0000_0000_0000,
{
    let mut lo: u128 = 0;
    let mut hi: u128 = 0x800_0000_0000_0000;
    while hi - lo > 1
        invariant
            lo < hi <= 0x800_0000_0000_0000,
            lo * lo <= w < hi * hi,
        decreases hi - lo,
    {
        let mid: u128 = (lo + hi) / 2;
        proof {
            assert(mid * mid < 0x0040_0000_0000_0000_0000_0000_0000_0000) by (nonlinear_arith)
                requires
                    mid < 0x800_0000_0000_0000,
            ;
        }
        if mid * mid <= w {
            lo = mid;
        } else {
            hi = mid;
        }
    }
    lo
}

/// Squares keep the order.
proof fn lemma_square_order(a: nat, b: nat)
    requires
        a <= b,
    ensures
        a * a <= b * b,
{
    assert(a * a <= b * b) by (nonlinear_arith)
        requires
            a <= b,
    ;
}

/// Squares keep the strict order.
proof fn lemma_square_strict(a: nat, b: nat)
    requires
        a < b,
    ensures
        a * a < b * b,
{
    assert(a * a < b * b) by (nonlinear_arith)
        requires
            a < b,
    ;
}

/// At most one encoding is the root floor.
pub proof fn lemma_root_floor_unique(h: nat, n: nat, a: nat, b: nat)
    requires
        h > 0,
        is_root_floor(h, n, a),
        is_root_floor(h, n, b),
    ensures
        a == b,
{
    if a < b {
        if a + 1 < b {
            lemma_magnitude_increases(h, a + 1, b);
        }
        lemma_square_order(magnitude(h, a + 1), magnitude(h, b));
    } else if b < a {
        if b + 1 < a {
            lemma_magnitude_increases(h, b + 1, a);
        }
        lemma_square_order(magnitude(h, b + 1), magnitude(h, a));
    }
}

/// The neighbours of a magnitude above `4 * h * 2^z` are even multiples of `2^z`.
proof fn lemma_neighbours_even(f: Format, g: nat, z: nat, l: nat, k: nat) -> (r: (nat, nat))
    requires
        f.valid(),
        l == magnitude(f.h(), g),
        k == magnitude(f.h(), g + 1),
        k > 4 * f.h() * pow2(z),
    ensures
        l == r.0 * pow2(z),
        k == r.1 * pow2(z),
        (r.0 + r.1) % 2 == 0,
{
    lemma_format(f);
    lemma2_to64();
    let h = f.h();
    let w = pow2(z);
    lemma_pow2_pos(z);
    if g < h {
        lemma_magnitude_at(h, 0, g + 1);
        assert(0 * h == 0) by (nonlinear_arith);
        assert(k == g + 1) by (nonlinear_arith)
            requires
                k == (g + 1) * pow2(0),
                pow2(0) == 1,
        ;
        assert(4 * h * w >= 4 * h) by (nonlinear_arith)
            requires
                w >= 1,
        ;
        assert(false);
    }
    lemma_magnitude_parts(h, g);
    let e = (g / h - 1) as nat;
    let q = h + g % h;
    lemma_magnitude_at(h, e, q);
    lemma_magnitude_at(h, e, q + 1);
    // The exponent exceeds z.
    if e <= z {
        if e < z {
            lemma_pow2_strictly_increases(e, z);
        }
        assert(k <= 4 * h * w) by (nonlinear_arith)
            requires
                k == (q + 1) * pow2(e),
                q + 1 <= 2 * h,
                pow2(e) <= w,
        ;
        assert(false);
    }
    let d = (e - z) as nat;
    lemma_pow2_adds(d, z);
    lemma_pow2_unfold(d);
    let half = pow2((d - 1) as nat);
    let a = q * pow2(d);
    let b = (q + 1) * pow2(d);
    assert(l == a * w) by (nonlinear_arith)
        requires
            l == q * pow2(e),
            pow2(e) == pow2(d) * w,
            a == q * pow2(d),
    ;
    assert(k == b * w) by (nonlinear_arith)
        requires
            k == (q + 1) * pow2(e),
            pow2(e) == pow2(d) * w,
            b == (q + 1) * pow2(d),
    ;
    assert(a + b == 2 * ((2 * q + 1) * half)) by (nonlinear_arith)
        requires
            a == q * pow2(d),
            b == (q + 1) * pow2(d),
            pow2(d) == 2 * half,
    ;
    (a, b)
}

/// Rounding the root of `n` is rounding any number between `m` and `m + 1`, in
/// steps of `2^z`, where `m` is the root's integral part.
proof fn lemma_root_from_representative(
    f: Format,
    n: nat,
    m: nat,
    z: nat,
    exact: bool,
    num: nat,
    g: nat,
)
    requires
        f.valid(),
        m >= 4 * f.h(),
        m * m * (pow2(z) * pow2(z)) <= n < (m + 1) * (m + 1) * (pow2(z) * pow2(z)),
        exact <==> n == m * m * (pow2(z) * pow2(z)),
        exact ==> num == 2 * m * pow2(z),
        !exact ==> num == (2 * m + 1) * pow2(z),
        is_floor(f.h(), num, 2, g),
    ensures
        is_root_floor(f.h(), n, g),
        ({
            let both = magnitude(f.h(), g) + magnitude(f.h(), g + 1);
            &&& 4 * n < both * both <==> 2 * num < both * 2
            &&& 4 * n > both * both <==> 2 * num > both * 2
        }),
{
    lemma_format(f);
    let h = f.h();
    let w = pow2(z);
    lemma_pow2_pos(z);
    let l = magnitude(h, g);
    let k = magnitude(h, g + 1);
    let both = l + k;
    lemma_magnitude_increases(h, g, g + 1);
    assert((2 * m + 1) * w == 2 * m * w + w) by (nonlinear_arith);
    assert(2 * m * w >= 2 * (4 * h * w)) by (nonlinear_arith)
        requires
            m >= 4 * h,
    ;
    let (a, b) = lemma_neighbours_even(f, g, z, l, k);
    let ww = w * w;
    assert(ww > 0) by (nonlinear_arith)
        requires
            ww == w * w,
            w > 0,
    ;
    assert(l * l == a * a * ww) by (nonlinear_arith)
        requires
            l == a * w,
            ww == w * w,
    ;
    assert(k * k == b * b * ww) by (nonlinear_arith)
        requires
            k == b * w,
            ww == w * w,
    ;
    let c = a + b;
    assert(both * both == c * c * ww && both == c * w) by (nonlinear_arith)
        requires
            l == a * w,
            k == b * w,
            both == l + k,
            c == a + b,
            ww == w * w,
    ;
    // a <= m
    assert(a <= m) by (nonlinear_arith)
        requires
            l * 2 <= num,
            num <= (2 * m + 1) * w,
            l == a * w,
            w > 0,
    ;
    // b >= m + 1
    assert(b >= m + 1) by (nonlinear_arith)
        requires
            num < k * 2,
            num >= 2 * m * w,
            k == b * w,
            w > 0,
    ;
    lemma_square_order(a, m);
    lemma_square_order(m + 1, b);
    lemma_mul_inequality((a * a) as int, (m * m) as int, ww as int);
    lemma_mul_inequality(((m + 1) * (m + 1)) as int, (b * b) as int, ww as int);
    // the midpoint
    if c <= 2 * m {
        lemma_square_order(c, 2 * m);
        lemma_mul_inequality((c * c) as int, ((2 * m) * (2 * m)) as int, ww as int);
        assert((2 * m) * (2 * m) * ww == 4 * (m * m * ww)) by (nonlinear_arith);
        assert(c * w <= (2 * m) * w) by (nonlinear_arith)
            requires
                c <= 2 * m,
        ;
        if c == 2 * m {
            if exact {
                assert(4 * n == both * both);
                assert(num == both);
            } else {
                assert((2 * m + 1) * w == 2 * m * w + w) by (nonlinear_arith);
            }
        } else {
            lemma_square_strict(c, 2 * m);
            lemma_mul_strict_inequality((c * c) as int, ((2 * m) * (2 * m)) as int, ww as int);
            assert(c * w < (2 * m) * w) by (nonlinear_arith)
                requires
                    c < 2 * m,
                    w > 0,
            ;
            assert((2 * m + 1) * w >= 2 * m * w) by (nonlinear_arith);
        }
    } else {
        assert(c >= 2 * (m + 1));
        lemma_square_order(2 * (m + 1), c);
        lemma_mul_inequality(
            ((2 * (m + 1)) * (2 * (m + 1))) as int,
            (c * c) as int,
            ww as int,
        );
        assert((2 * (m + 1)) * (2 * (m + 1)) * ww == 4 * ((m + 1) * (m + 1) * ww))
            by (nonlinear_arith);
        assert(c * w >= (2 * m + 2) * w) by (nonlinear_arith)
            requires
                c >= 2 * m + 2,
        ;
        assert((2 * m + 2) * w > (2 * m + 1) * w >= 2 * m * w) by (nonlinear_arith)
            requires
                w > 0,
        ;
    }
}

/// A root of a significand with 64 digits more carries two digits to spare.
proof fn lemma_root_digits(f: Format, na: nat, p: nat, m: nat)
    requires
        f.valid(),
        na >= f.h(),
        p >= 0x1_0000_0000_0000_0000,
        na * p < (m + 1) * (m + 1),
    ensures
        m >= 4 * f.h(),
{
    lemma_format(f);
    let h = f.h();
    if m < 4 * h {
        lemma_square_order(m + 1, 4 * h);
        assert((4 * h) * (4 * h) <= h * 0x1_0000_0000_0000_0000) by (nonlinear_arith)
            requires
                h <= 0x10_0000_0000_0000,
        ;
        assert(na * p >= h * 0x1_0000_0000_0000_0000) by (nonlinear_arith)
            requires
                na >= h,
                p >= 0x1_0000_0000_0000_0000,
        ;
    }
}

/// The root floor of a finite number is below infinity.
proof fn lemma_root_below_limit(f: Format, a: nat, n: nat, g: nat)
    requires
        f.valid(),
        a < f.limit(),
        n == magnitude(f.h(), a) * f.one(),
        is_root_floor(f.h(), n, g),
    ensures
        g < f.limit(),
{
    lemma_format(f);
    lemma_limits(f);
    let h = f.h();
    let e = (f.top - 1) as nat;
    let big = magnitude(h, f.limit());
    lemma_magnitude_increases(h, a, f.limit());
    assert(f.limit() == e * h + h) by (nonlinear_arith)
        requires
            f.limit() == f.top * h,
            e == f.top - 1,
    ;
    lemma_magnitude_at(h, e, h);
    lemma_pow2_strictly_increases(f.unit as nat, e);
    lemma_pow2_pos(f.unit as nat);
    assert(f.one() <= big) by (nonlinear_arith)
        requires
            big == h * pow2(e),
            f.one() < pow2(e),
            h >= 1,
    ;
    assert(n < big * big) by (nonlinear_arith)
        requires
            n == magnitude(h, a) * f.one(),
            magnitude(h, a) < big,
            0 < f.one() <= big,
    ;
    if g >= f.limit() {
        if g > f.limit() {
            lemma_magnitude_increases(h, f.limit(), g);
        }
        lemma_square_order(big, magnitude(h, g));
    }
}

/// The root of a finite magnitude that is not zero.
fn root_magnitude(f: Format, a: u64) -> (r: u64)
    requires
        f.valid(),
        0 < a < f.limit(),
    ensures
        r == nearest_root(f.h(), magnitude(f.h(), a as nat) * f.one()),
        r <= f.limit(),
{
    proof {
        lemma_format(f);
        lemma2_to64();
        lemma2_to64_rest();
    }
    let (ma, ea) = significand(f, a);
    let (na, up) = normalized(f, ma);
    let ghost n = magnitude(f.h(), a as nat) * f.one();
    // The exponent that is left is even.
    let s: u32 = if (ea + f.unit - up) % 2 == 0 {
        64
    } else {
        65
    };
    let z: u32 = (ea + f.unit - up - s) / 2;
    let p = power_of_two(s);
    proof {
        lemma_pow2_unfold(65);
        assert(na * p < 0x20_0000_0000_0000 * 0x2_0000_0000_0000_0000) by (nonlinear_arith)
            requires
                na < 0x20_0000_0000_0000,
                p <= 0x2_0000_0000_0000_0000,
                p > 0,
        ;
    }
    let w: u128 = na as u128 * p;
    let m = integer_root(w);
    let exact = m * m == w;
    let ghost num: nat = if exact {
        2 * m as nat * pow2(z as nat)
    } else {
        (2 * m as nat + 1) * pow2(z as nat)
    };
    proof {
        let t = pow2(z as nat);
        lemma_pow2_pos(z as nat);
        // n == w * t * t
        lemma_pow2_adds(ea as nat, f.unit as nat);
        lemma_pow2_adds(up as nat, s as nat);
        lemma_pow2_adds(z as nat, z as nat);
        lemma_pow2_adds((up + s) as nat, (z + z) as nat);
        assert(up + s + z + z == ea + f.unit);
        assert(w == ma * pow2((up + s) as nat)) by (nonlinear_arith)
            requires
                w == na * p,
                na == ma * pow2(up as nat),
                pow2((up + s) as nat) == pow2(up as nat) * p,
        ;
        assert(n == w * (t * t)) by (nonlinear_arith)
            requires
                n == (ma * pow2(ea as nat)) * f.one(),
                pow2((ea + f.unit) as nat) == pow2(ea as nat) * f.one(),
                pow2((ea + f.unit) as nat) == pow2((up + s) as nat) * (t * t),
                w == ma * pow2((up + s) as nat),
        ;
        let tt = t * t;
        assert(tt > 0) by (nonlinear_arith)
            requires
                tt == t * t,
                t > 0,
        ;
        lemma_mul_inequality((m * m) as int, w as int, tt as int);
        lemma_mul_strict_inequality(w as int, ((m + 1) * (m + 1)) as int, tt as int);
        if !exact {
            lemma_mul_strict_inequality((m * m) as int, w as int, tt as int);
        }
        // The root has digits to spare.
        lemma_root_digits(f, na as nat, p as nat, m as nat);
        // The representative.
        assert(scaled(m as nat, z as int, exact, num, 2)) by {
            assert(m * (t * 2) == 2 * m * t) by (nonlinear_arith);
            assert((m + 1) * (t * 2) == 2 * m * t + 2 * t) by (nonlinear_arith);
            assert((2 * m + 1) * t == 2 * m * t + t) by (nonlinear_arith);
        }
    }
    let r = round_scaled(f, m, z as i32, exact, Ghost(num), Ghost(2));
    proof {
        lemma_floor_exists(f.h(), num, 2);
        let g = choose|b: nat| is_floor(f.h(), num, 2, b);
        lemma_root_from_representative(f, n, m as nat, z as nat, exact, num, g);
        lemma_nearest_from_floor(f.h(), f.limit(), num, 2, g);
        let g2 = choose|b: nat| is_root_floor(f.h(), n, b);
        lemma_root_floor_unique(f.h(), n, g, g2);
        lemma_root_below_limit(f, a as nat, n, g);
    }
    r
}

/// The square root of a number.
pub fn root(f: Format, a: Parts) -> (r: Parts)
    requires
        f.valid(),
        f.encodes(a),
    ensures
        r == f.root(a),
        f.encodes(r),
{
    proof {
        lemma_limits(f);
    }
    let limit = infinity_of(f);
    if a.mag > limit {
        return nan_of(f);
    }
    if a.mag == 0 {
        return a;
    }
    if a.neg {
        return nan_of(f);
    }
    if a.mag == limit {
        return a;
    }
    Parts { neg: false, mag: root_magnitude(f, a.mag) }
}

} // verus!
