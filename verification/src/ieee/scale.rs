//! Magnitudes of binary floating-point numbers and correct rounding.
//!
//! A format is fixed by its hidden bit `h`: a magnitude is encoded by a natural
//! number `b`, and consecutive encodings denote consecutive representable
//! magnitudes. Everything is measured in units of the smallest positive
//! magnitude of the format, so that a magnitude is a natural number.
use vstd::arithmetic::div_mod::*;
use vstd::arithmetic::mul::*;
use vstd::arithmetic::power2::*;
use vstd::prelude::*;

verus! {

/// The magnitude that the encoding `b` denotes, in units of the smallest
/// positive magnitude. Below `h` the encoding is the magnitude itself; above
/// it, `b / h` is the biased exponent and `b % h` the fraction.
pub open spec fn magnitude(h: nat, b: nat) -> nat {
    if b < h {
        b
    } else {
        (h + b % h) * pow2((b / h - 1) as nat)
    }
}

/// `b` is the encoding of the largest representable magnitude that is not
/// above `num / den`.
pub open spec fn is_floor(h: nat, num: nat, den: nat, b: nat) -> bool {
    magnitude(h, b) * den <= num < magnitude(h, b + 1) * den
}

/// The encoding of the representable magnitude nearest to `num / den`, the even
/// encoding where two are equally near. Encodings from `limit` on are rounded
/// to `limit`, which stands for infinity.
pub open spec fn nearest(h: nat, limit: nat, num: nat, den: nat) -> nat {
    let f = choose|b: nat| is_floor(h, num, den, b);
    let both = (magnitude(h, f) + magnitude(h, f + 1)) * den;
    let r = if 2 * num < both {
        f
    } else if 2 * num > both {
        f + 1
    } else if f % 2 == 0 {
        f
    } else {
        f + 1
    };
    if r >= limit {
        limit
    } else {
        r
    }
}

/// A magnitude with significand `q` and exponent `e`.
pub proof fn lemma_magnitude_at(h: nat, e: nat, q: nat)
    requires
        h > 0,
        q <= 2 * h,
        h <= q || e == 0,
    ensures
        magnitude(h, e * h + q) == q * pow2(e),
{
    let b = e * h + q;
    lemma2_to64();
    if q < h {
        assert(b == q) by (nonlinear_arith)
            requires
                e == 0,
                b == e * h + q,
        ;
        assert(q * pow2(0) == q) by (nonlinear_arith)
            requires
                pow2(0) == 1,
        ;
    } else if q < 2 * h {
        assert(b == (e + 1) * h + (q - h)) by (nonlinear_arith)
            requires
                b == e * h + q,
        ;
        lemma_fundamental_div_mod_converse(b as int, h as int, (e + 1) as int, (q - h) as int);
        assert(b >= h) by (nonlinear_arith)
            requires
                b == e * h + q,
                q >= h,
        ;
    } else {
        assert(b == (e + 2) * h + 0) by (nonlinear_arith)
            requires
                b == e * h + q,
                q == 2 * h,
        ;
        lemma_fundamental_div_mod_converse(b as int, h as int, (e + 2) as int, 0);
        assert(b >= h) by (nonlinear_arith)
            requires
                b == e * h + q,
                q >= h,
        ;
        lemma_pow2_unfold(e + 1);
        assert(h * pow2(e + 1) == q * pow2(e)) by (nonlinear_arith)
            requires
                q == 2 * h,
                pow2(e + 1) == 2 * pow2(e),
        ;
    }
}

/// The significand and the exponent of an encoding.
pub proof fn lemma_magnitude_parts(h: nat, b: nat)
    requires
        h > 0,
        b >= h,
    ensures
        b / h >= 1,
        b == ((b / h - 1) as nat) * h + (h + b % h),
        h <= h + b % h < 2 * h,
{
    lemma_fundamental_div_mod(b as int, h as int);
    lemma_mod_bound(b as int, h as int);
    let e = b / h;
    assert(e >= 1) by (nonlinear_arith)
        requires
            b == h * e + b % h,
            b >= h,
            0 <= b % h < h,
    ;
    assert(b == (e - 1) * h + (h + b % h)) by (nonlinear_arith)
        requires
            b == h * e + b % h,
    ;
}

/// Consecutive encodings denote increasing magnitudes.
pub proof fn lemma_magnitude_step(h: nat, b: nat)
    requires
        h > 0,
    ensures
        magnitude(h, b) < magnitude(h, b + 1),
{
    lemma2_to64();
    if b < h {
        lemma_magnitude_at(h, 0, b);
        lemma_magnitude_at(h, 0, b + 1);
        assert(0 * h == 0) by (nonlinear_arith);
        assert(b * pow2(0) == b && (b + 1) * pow2(0) == b + 1) by (nonlinear_arith)
            requires
                pow2(0) == 1,
        ;
    } else {
        lemma_magnitude_parts(h, b);
        let e = (b / h - 1) as nat;
        let q = h + b % h;
        lemma_magnitude_at(h, e, q);
        lemma_magnitude_at(h, e, q + 1);
        lemma_pow2_pos(e);
        assert(q * pow2(e) < (q + 1) * pow2(e)) by (nonlinear_arith)
            requires
                pow2(e) > 0,
        ;
    }
}

/// The order of the encodings is the order of the magnitudes.
pub proof fn lemma_magnitude_increases(h: nat, a: nat, b: nat)
    requires
        h > 0,
        a < b,
    ensures
        magnitude(h, a) < magnitude(h, b),
    decreases b - a,
{
    lemma_magnitude_step(h, a);
    if a + 1 < b {
        lemma_magnitude_increases(h, a + 1, b);
    }
}

/// At most one encoding is the floor of a quotient.
pub proof fn lemma_floor_unique(h: nat, num: nat, den: nat, a: nat, b: nat)
    requires
        h > 0,
        den > 0,
        is_floor(h, num, den, a),
        is_floor(h, num, den, b),
    ensures
        a == b,
{
    if a < b {
        if a + 1 < b {
            lemma_magnitude_increases(h, a + 1, b);
        }
        lemma_mul_inequality(magnitude(h, a + 1) as int, magnitude(h, b) as int, den as int);
    } else if b < a {
        if b + 1 < a {
            lemma_magnitude_increases(h, b + 1, a);
        }
        lemma_mul_inequality(magnitude(h, b + 1) as int, magnitude(h, a) as int, den as int);
    }
}

/// A magnitude is not below its encoding.
pub proof fn lemma_magnitude_at_least(h: nat, b: nat)
    requires
        h > 0,
    ensures
        magnitude(h, b) >= b,
    decreases b,
{
    if b > 0 {
        lemma_magnitude_at_least(h, (b - 1) as nat);
        lemma_magnitude_step(h, (b - 1) as nat);
    }
}

/// A quotient below a magnitude has a floor below it.
proof fn lemma_floor_below(h: nat, num: nat, den: nat, b: nat)
    requires
        h > 0,
        num < magnitude(h, b) * den,
    ensures
        exists|f: nat| is_floor(h, num, den, f),
    decreases b,
{
    if b == 0 {
        assert(0 * den == 0);
    } else {
        let c = (b - 1) as nat;
        if magnitude(h, c) * den <= num {
            assert(is_floor(h, num, den, c));
        } else {
            lemma_floor_below(h, num, den, c);
        }
    }
}

/// Every quotient has a floor.
pub proof fn lemma_floor_exists(h: nat, num: nat, den: nat)
    requires
        h > 0,
        den > 0,
    ensures
        exists|f: nat| is_floor(h, num, den, f),
{
    lemma_magnitude_at_least(h, num + 1);
    assert(num < magnitude(h, num + 1) * den) by (nonlinear_arith)
        requires
            magnitude(h, num + 1) >= num + 1,
            den >= 1,
    ;
    lemma_floor_below(h, num, den, num + 1);
}

/// What `nearest` is once the floor is known.
pub proof fn lemma_nearest_from_floor(h: nat, limit: nat, num: nat, den: nat, f: nat)
    requires
        h > 0,
        den > 0,
        is_floor(h, num, den, f),
    ensures
        nearest(h, limit, num, den) == ({
            let both = (magnitude(h, f) + magnitude(h, f + 1)) * den;
            let r: nat = if 2 * num < both {
                f
            } else if 2 * num > both {
                f + 1
            } else if f % 2 == 0 {
                f
            } else {
                f + 1
            };
            if r >= limit {
                limit
            } else {
                r
            }
        }),
{
    let g = choose|b: nat| is_floor(h, num, den, b);
    lemma_floor_unique(h, num, den, f, g);
}

} // verus!
