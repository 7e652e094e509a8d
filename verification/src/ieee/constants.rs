//! What some decimal numbers are in double precision.
use crate::ieee::arith::Parts;
use crate::ieee::convert::lemma_nearest_exact;
use crate::ieee::double::{lemma_double_format, Double};
use crate::ieee::laws::{
    lemma_encodes, lemma_nearest_encodes, lemma_negated, lemma_parts_of, lemma_plus_value,
};
use crate::ieee::rounding::binary64;
use crate::ieee::scale::{
    is_floor, lemma_magnitude_at, lemma_nearest_from_floor, magnitude, nearest,
};
use vstd::arithmetic::power2::*;
use vstd::prelude::*;

verus! {

/// The magnitude with a significand and an exponent.
pub open spec fn at(e: nat, q: nat) -> nat {
    e * 0x10_0000_0000_0000 + q
}

/// A significand has its leading digit, and the exponent is one of a number.
pub open spec fn normal(e: nat, q: nat) -> bool {
    0x10_0000_0000_0000 <= q < 0x20_0000_0000_0000 && e <= 2045
}

/// The magnitude with a significand and an exponent, in units.
pub proof fn lemma_at(e: nat, q: nat)
    requires
        normal(e, q),
    ensures
        magnitude(binary64().h(), at(e, q)) == q * pow2(e),
        magnitude(binary64().h(), at(e, q) + 1) == (q + 1) * pow2(e),
        at(e, q) < binary64().limit(),
        binary64().nearest(q * pow2(e), 1) == at(e, q),
{
    lemma_double_format();
    let h = binary64().h();
    lemma_magnitude_at(h, e, q);
    lemma_magnitude_at(h, e, q + 1);
    assert(e * h + (q + 1) == at(e, q) + 1);
    lemma_nearest_exact(binary64(), at(e, q));
}

/// A quotient is rounded to a magnitude that is nearer than half a unit in the
/// last place.
pub proof fn lemma_rounds_to(num: nat, den: nat, e: nat, q: nat)
    requires
        den > 0,
        normal(e, q),
        q > 0x10_0000_0000_0000,
        (2 * q - 1) * (pow2(e) * den) < 2 * num < (2 * q + 1) * (pow2(e) * den),
    ensures
        binary64().nearest(num, den) == at(e, q),
{
    lemma_double_format();
    let h = binary64().h();
    let w = pow2(e) * den;
    let p = pow2(e);
    lemma_at(e, q);
    lemma_at(e, (q - 1) as nat);
    let b = at(e, q);
    assert(magnitude(h, b) * den == q * w) by (nonlinear_arith)
        requires
            magnitude(h, b) == q * p,
            w == p * den,
    ;
    assert(magnitude(h, b + 1) * den == q * w + w) by (nonlinear_arith)
        requires
            magnitude(h, b + 1) == (q + 1) * p,
            w == p * den,
    ;
    let c = (b - 1) as nat;
    assert(c == at(e, (q - 1) as nat));
    assert(magnitude(h, c) * den == q * w - w) by (nonlinear_arith)
        requires
            magnitude(h, c) == (q - 1) * p,
            w == p * den,
    ;
    assert((2 * q - 1) * w == 2 * (q * w) - w) by (nonlinear_arith);
    assert((2 * q + 1) * w == 2 * (q * w) + w) by (nonlinear_arith);
    if num >= q * w {
        assert(is_floor(h, num, den, b));
        lemma_nearest_from_floor(h, binary64().limit(), num, den, b);
        let both = magnitude(h, b) + magnitude(h, b + 1);
        assert(both * den == 2 * (q * w) + w) by (nonlinear_arith)
            requires
                magnitude(h, b) * den == q * w,
                magnitude(h, b + 1) * den == q * w + w,
                both == magnitude(h, b) + magnitude(h, b + 1),
        ;
    } else {
        assert(is_floor(h, num, den, c));
        lemma_nearest_from_floor(h, binary64().limit(), num, den, c);
        let both = magnitude(h, c) + magnitude(h, c + 1);
        assert(both * den == 2 * (q * w) - w) by (nonlinear_arith)
            requires
                magnitude(h, c) * den == q * w - w,
                magnitude(h, c + 1) * den == q * w,
                both == magnitude(h, c) + magnitude(h, c + 1),
        ;
    }
}

/// A quotient of integers is rounded to the number that is nearer than half a unit
/// in the last place.
pub proof fn lemma_ratio_at(n: nat, d: nat, e: nat, q: nat, k: nat)
    requires
        d > 0,
        normal(e, q),
        q > 0x10_0000_0000_0000,
        e + k == 1074,
        (2 * q - 1) * d < 2 * (n * pow2(k)) < (2 * q + 1) * d,
    ensures
        Double::ratio(n as int, d).parts() == (Parts { neg: false, mag: at(e, q) as u64 }),
{
    lemma_double_format();
    let f = binary64();
    let p = pow2(e);
    lemma_pow2_adds(e, k);
    lemma_pow2_pos(e);
    let num = n * f.one();
    let r = pow2(k);
    assert(num == (n * r) * p) by (nonlinear_arith)
        requires
            num == n * (p * r),
    ;
    assert((2 * q - 1) * (p * d) < 2 * num) by (nonlinear_arith)
        requires
            (2 * q - 1) * d < 2 * (n * r),
            num == (n * r) * p,
            p > 0,
    ;
    assert(2 * num < (2 * q + 1) * (p * d)) by (nonlinear_arith)
        requires
            2 * (n * r) < (2 * q + 1) * d,
            num == (n * r) * p,
            p > 0,
    ;
    lemma_rounds_to(num, d, e, q);
    lemma_at(e, q);
    reveal(Double::ratio);
    lemma_nearest_encodes(false, num, d);
    lemma_parts_of(f.quotient_of_integers(false, n, d));
}

/// An integer with a significand of its own is that number.
pub proof fn lemma_integer_at(n: nat, e: nat, q: nat, k: nat)
    requires
        normal(e, q),
        e + k == 1074,
        q == n * pow2(k),
    ensures
        Double::integer(n as int).parts() == (Parts { neg: false, mag: at(e, q) as u64 }),
{
    lemma_double_format();
    let f = binary64();
    let p = pow2(e);
    lemma_pow2_adds(e, k);
    let num = n * f.one();
    let r = pow2(k);
    assert(num == q * p) by (nonlinear_arith)
        requires
            num == n * (p * r),
            q == n * r,
    ;
    lemma_at(e, q);
    reveal(Double::ratio);
    lemma_nearest_encodes(false, num, 1);
    lemma_parts_of(f.quotient_of_integers(false, n, 1));
}

/// Significands of the numbers below.
pub open spec fn q_three_tenths() -> nat {
    0x13_3333_3333_3333
}

pub open spec fn q_one_tenth() -> nat {
    0x19_9999_9999_999A
}

/// 0.3 and 0.1 in double precision.
pub proof fn lemma_tenths()
    ensures
        Double::ratio(3, 10).parts() == (Parts {
            neg: false,
            mag: at(1020, q_three_tenths()) as u64,
        }),
        Double::ratio(1, 10).parts() == (Parts {
            neg: false,
            mag: at(1018, q_one_tenth()) as u64,
        }),
{
    lemma2_to64();
    lemma2_to64_rest();
    lemma_ratio_at(3, 10, 1020, q_three_tenths(), 54);
    lemma_ratio_at(1, 10, 1018, q_one_tenth(), 56);
}

/// 0.3 less 0.1 is a positive number in double precision, and 0.3 less that is
/// 0.1 again.
pub proof fn lemma_tenths_difference()
    ensures
        ({
            let n = Double::ratio(3, 10);
            let s = Double::ratio(1, 10);
            let d = n.minus(s);
            &&& n.finite()
            &&& s.finite()
            &&& d.finite()
            &&& !d.parts().neg
            &&& d.parts().mag > 0
            &&& n.minus(d).value() == s.value()
            &&& s.at_most(n)
        }),
{
    lemma_double_format();
    let f = binary64();
    lemma_tenths();
    let n = Double::ratio(3, 10);
    let s = Double::ratio(1, 10);
    let d = n.minus(s);
    reveal(Double::value);
    lemma_at(1020, q_three_tenths());
    lemma_at(1018, q_one_tenth());
    lemma_at(1019, 0x19_9999_9999_9999);
    lemma_pow2_adds(1018, 1);
    lemma_pow2_adds(1018, 2);
    lemma2_to64();
    lemma_pow2_pos(1018);
    let p = pow2(1018);
    assert(n.value() == 0x4C_CCCC_CCCC_CCCC * p);
    assert(s.value() == 0x19_9999_9999_999A * p);
    lemma_negated(s);
    lemma_plus_value(n, s.negated());
    assert(n.value() + s.negated().value() == 0x33_3333_3333_3332 * p);
    assert(0x19_9999_9999_9999 * pow2(1019) == 0x33_3333_3333_3332 * p);
    assert(d.value() == 0x33_3333_3333_3332 * p);
    lemma_encodes(d);
    if d.parts().neg {
        assert(d.value() <= 0);
    }
    lemma_negated(d);
    lemma_plus_value(n, d.negated());
    assert(n.value() + d.negated().value() == 0x19_9999_9999_999A * p);
}

/// 500 in double precision.
pub proof fn lemma_five_hundred()
    ensures
        Double::integer(500).parts() == (Parts {
            neg: false,
            mag: at(1030, 0x1F_4000_0000_0000) as u64,
        }),
        Double::integer(500).value() == 0x1F_4000_0000_0000 * pow2(1030),
        Double::integer(500).finite(),
{
    lemma_double_format();
    reveal(Double::value);
    lemma2_to64();
    lemma2_to64_rest();
    lemma_integer_at(500, 1030, 0x1F_4000_0000_0000, 44);
    lemma_at(1030, 0x1F_4000_0000_0000);
}

} // verus!
