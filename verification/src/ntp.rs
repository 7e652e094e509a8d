//! Offsets to UTC.
use crate::ieee::arith::{lemma_nearest_zero, magnitude_of_int, Parts};
use crate::ieee::double::{lemma_double_format, Double};
use crate::ieee::error::{lemma_as_integer, lemma_difference, lemma_times_integer};
use crate::ieee::exact::lemma_integer_exact;
use crate::ieee::laws::{
    lemma_absolute, lemma_encodes, lemma_fractionless, lemma_negated, lemma_parts_of,
    lemma_ratio_finite, lemma_times_defined, lemma_zero,
};
use crate::ieee::powers::{lemma_tame_plus, lemma_tame_times, tame};
use crate::ieee::rounding::binary64;
use crate::time::{lemma_units_of_one, Span};
use vstd::arithmetic::div_mod::*;
use vstd::arithmetic::power2::*;
use vstd::prelude::*;
use vstd::string::*;

verus! {

/// A client of an NTP server.
#[derive(Debug)]
pub struct NtpClient {
    pub server: String,
}

impl NtpClient {
    pub fn new(server: &str) -> (r: NtpClient)
        ensures
            r.server@ == server@,
    {
        NtpClient { server: server.to_owned() }
    }
}

/// Whole seconds of an offset.
pub open spec fn offset_secs(offset: Double) -> int {
    offset.absolute().truncation().as_integer(0, u64::MAX as int)
}

/// Nanoseconds of an offset beyond its whole seconds.
pub open spec fn offset_nanos(offset: Double) -> int {
    offset.absolute().minus(offset.absolute().truncation()).times(
        Double::integer(1_000_000_000),
    ).as_integer(0, u32::MAX as int)
}

/// An offset in seconds as a length of time and a sign; zero is positive.
pub fn split_offset(offset: Double) -> (r: (Span, i8))
    ensures
        r.0.total_nanos() == offset_secs(offset) * 1_000_000_000 + offset_nanos(offset),
        r.0.nanos < 1_000_000_000,
        r.1 == if offset.below(Double::zero()) {
            -1int
        } else {
            1
        },
{
    let sign: i8 = if offset.lt(Double::from_bits(0)) {
        -1
    } else {
        1
    };
    let abs = offset.abs();
    let secs = abs.trunc().to_u64();
    let nanos = abs.fract().mul(Double::from_i64(1_000_000_000)).to_u32();
    proof {
        lemma_ratio_finite(1_000_000_000, 1);
        if secs >= 0x20_0000_0000_0000 {
            lemma_fractionless(offset.absolute(), Double::integer(1_000_000_000));
        }
    }
    if nanos < 1_000_000_000 {
        (Span { secs, nanos }, sign)
    } else {
        (Span { secs: secs + (nanos / 1_000_000_000) as u64, nanos: nanos % 1_000_000_000 }, sign)
    }
}

/// The whole seconds of an offset, and the number that they make.
proof fn lemma_whole_seconds(offset: Double) -> (w: int)
    requires
        tame(offset, 33),
    ensures
        ({
            let one = binary64().one() as int;
            let a = offset.absolute();
            &&& 0 <= w <= 0x2_0000_0000
            &&& a.finite()
            &&& a.value() == magnitude_of_int(offset.value())
            &&& w * one <= a.value() < w * one + one
            &&& a.truncation() == Double::integer(w)
            &&& offset_secs(offset) == w
        }),
{
    reveal(Double::value);
    lemma_double_format();
    lemma_pow2_pos(1074);
    let f = binary64();
    let one = f.one() as int;
    let a = offset.absolute();
    lemma_absolute(offset);
    lemma_encodes(offset);
    lemma_parts_of(Parts { neg: false, mag: offset.parts().mag });
    let u = f.units(a.parts()) as int;
    let w = f.whole(a.parts()) as int;
    lemma_fundamental_div_mod(u, one);
    lemma_mod_bound(u, one);
    assert(one * w == w * one) by (nonlinear_arith);
    lemma2_to64();
    lemma2_to64_rest();
    lemma_pow2_adds(1074, 33);
    assert(0 <= w <= 0x2_0000_0000) by (nonlinear_arith)
        requires
            w * one <= u,
            u < w * one + one,
            0 <= u <= 0x2_0000_0000 * one,
            one > 0,
    ;
    lemma_integer_exact(w);
    assert(a.truncation() == Double::integer(w)) by {
        reveal(Double::truncation);
        reveal(Double::ratio);
    }
    assert(offset_secs(offset) == w) by {
        reveal(Double::as_integer);
        lemma_div_multiples_vanish(w, one);
    }
    w
}

/// The nanoseconds of what is left of a second.
proof fn lemma_rest_of_second(d: Double) -> (n: int)
    requires
        d.finite(),
        0 <= d.value() <= 2 * binary64().one(),
    ensures
        n == d.times(Double::integer(1_000_000_000)).as_integer(0, u32::MAX as int),
        ({
            let one = binary64().one() as int;
            0x20_0000_0000_0000 * magnitude_of_int(n * one - d.value() * 1_000_000_000)
                <= 0x20_0000_0000_0000 * one + d.value() * 1_000_000_000 + 0x10_0000_0000_0000
        }),
{
    lemma_double_format();
    lemma_pow2_pos(1074);
    let f = binary64();
    let one = f.one() as int;
    let g = Double::integer(1_000_000_000);
    lemma_integer_exact(1_000_000_000);
    lemma2_to64();
    lemma_pow2_adds(1074, 1);
    lemma_pow2_adds(1074, 30);
    assert(tame(d, 1) && tame(g, 30));
    lemma_tame_times(d, g, 1, 30);
    lemma_times_integer(d, 1_000_000_000);
    let v = d.times(g);
    lemma_units_of_one();
    lemma_times_sign(d, g);
    lemma_as_integer(v);
    let n = v.as_integer(0, u32::MAX as int);
    assert(n == v.as_integer(i64::MIN as int, i64::MAX as int)) by {
        reveal(Double::as_integer);
        reveal(Double::value);
        let k = f.whole(v.parts()) as int;
        lemma_fundamental_div_mod(f.units(v.parts()) as int, one);
        lemma_mod_bound(f.units(v.parts()) as int, one);
        assert(one * k == k * one) by (nonlinear_arith);
        assert(0 <= k <= 2_100_000_000) by (nonlinear_arith)
            requires
                k * one <= f.units(v.parts()),
                f.units(v.parts()) < k * one + one,
                0 <= f.units(v.parts()) < 2_100_000_000 * one,
                one > 0,
        ;
    }
    n
}

/// A product of numbers that are not negative is not negative.
proof fn lemma_times_sign(a: Double, b: Double)
    requires
        a.finite(),
        b.finite(),
        a.value() >= 0,
        b.value() > 0,
    ensures
        a.times(b).value() >= 0,
{
    reveal(Double::value);
    lemma_double_format();
    let f = binary64();
    lemma_pow2_pos(1074);
    lemma_times_defined(a, b);
    if f.units(a.parts()) == 0 {
        assert(0 * f.units(b.parts()) == 0);
        lemma_nearest_zero(f, f.one());
    }
}

/// Every offset in seconds that is split has its length in nanoseconds, without their
/// fraction and up to one part in `2^50`, and its sign.
pub proof fn lemma_split(offset: Double, r: (Span, i8))
    requires
        tame(offset, 33),
        call_ensures(split_offset, (offset,), r),
    ensures
        ({
            let one = binary64().one() as int;
            let x = magnitude_of_int(offset.value());
            0x4_0000_0000_0000 * magnitude_of_int(
                r.0.total_nanos() * one - x * 1_000_000_000,
            ) <= 0x4_0000_0000_0000 * one + x * 1_000_000_000 + 0x1000_0000_0000_0000_0000
        }),
        r.1 == if offset.value() < 0 {
            -1int
        } else {
            1
        },
        r.0.nanos < 1_000_000_000,
{
    lemma_pow2_pos(1074);
    let one = binary64().one() as int;
    let a = offset.absolute();
    let w = lemma_whole_seconds(offset);
    let t = Double::integer(w);
    lemma_integer_exact(w);
    lemma_zero();
    lemma_negated(t);
    lemma_absolute(offset);
    lemma2_to64();
    lemma2_to64_rest();
    lemma_pow2_adds(1074, 33);
    assert(w * one <= 0x2_0000_0000 * one && w * one >= 0) by (nonlinear_arith)
        requires
            0 <= w <= 0x2_0000_0000,
            one > 0,
    ;
    assert(tame(t.negated(), 33) && tame(a, 33));
    lemma_tame_plus(a, t.negated(), 33);
    lemma_difference(a, t);
    lemma_units_of_one();
    let d = a.minus(t);
    let frac = a.value() - w * one;
    assert(0 <= frac < one);
    assert(0 <= d.value() <= 2 * one);
    let n = lemma_rest_of_second(d);
    let total = r.0.total_nanos() as int;
    assert(total == w * 1_000_000_000 + n);
    assert(total * one == (w * one) * 1_000_000_000 + n * one) by (nonlinear_arith)
        requires
            total == w * 1_000_000_000 + n,
    ;
    assert(offset.below(Double::zero()) == (offset.value() < 0)) by {
        reveal(Double::value);
    }
}

} // verus!
