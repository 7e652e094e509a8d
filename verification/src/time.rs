//! Spans of time and readings of clocks.
use crate::ieee::arith::magnitude_of_int;
use crate::ieee::constants::{lemma_at, lemma_integer_at};
use crate::ieee::double::{lemma_double_format, Double};
use crate::ieee::error::lemma_nearest_relative;
use crate::ieee::exact::lemma_integer_exact;
use crate::ieee::laws::{
    lemma_between_finite, lemma_encodes, lemma_integer_positive, lemma_negated, lemma_over_defined,
    lemma_over_monotone, lemma_over_shrinks, lemma_plus_value, lemma_plus_within, lemma_ratio,
    lemma_ratio_finite, lemma_ratio_order, lemma_zero,
};
use crate::ieee::rounding::binary64;
use vstd::arithmetic::power2::*;
use vstd::prelude::*;

verus! {

/// A length of time, as seconds and nanoseconds.
#[derive(Clone, Copy, Debug, PartialEq, Eq, Structural)]
pub struct Span {
    pub secs: u64,
    pub nanos: u32,
}

impl Span {
    /// The length in nanoseconds.
    pub open spec fn total_nanos(self) -> nat {
        (self.secs * 1_000_000_000 + self.nanos) as nat
    }

    pub fn from_nanos(nanos: u64) -> (r: Span)
        ensures
            r.total_nanos() == nanos,
            r.nanos < 1_000_000_000,
    {
        Span { secs: nanos / 1_000_000_000, nanos: (nanos % 1_000_000_000) as u32 }
    }

    pub fn from_micros(micros: u64) -> (r: Span)
        ensures
            r.total_nanos() == micros * 1000,
            r.nanos < 1_000_000_000,
    {
        Span { secs: micros / 1_000_000, nanos: (micros % 1_000_000 * 1000) as u32 }
    }

    pub fn from_millis(millis: u64) -> (r: Span)
        ensures
            r.total_nanos() == millis * 1_000_000,
            r.nanos < 1_000_000_000,
    {
        Span { secs: millis / 1000, nanos: (millis % 1000 * 1_000_000) as u32 }
    }

    pub fn as_nanos(&self) -> (r: u128)
        ensures
            r == self.total_nanos(),
    {
        self.secs as u128 * 1_000_000_000 + self.nanos as u128
    }

    /// Whole milliseconds.
    pub fn as_millis(&self) -> (r: u128)
        ensures
            r == self.total_nanos() / 1_000_000,
    {
        self.as_nanos() / 1_000_000
    }
}

/// A reading of the wall clock, in nanoseconds since 1970; negative before.
#[derive(Clone, Copy, Debug, PartialEq, Eq, Structural)]
pub struct WallTime {
    pub nanos: i128,
}

/// The low 64 bits of a natural number, read as a signed integer.
pub open spec fn wrapped(n: int) -> int {
    let low = n % 0x1_0000_0000_0000_0000;
    if low < 0x8000_0000_0000_0000 {
        low
    } else {
        low - 0x1_0000_0000_0000_0000
    }
}

/// The low 64 bits of a natural number, read as a signed integer.
pub fn wrap(n: u128) -> (r: i64)
    ensures
        r == wrapped(n as int),
{
    let low: u128 = n % 0x1_0000_0000_0000_0000;
    if low < 0x8000_0000_0000_0000 {
        low as i64
    } else {
        (low as i128 - 0x1_0000_0000_0000_0000) as i64
    }
}

impl WallTime {
    /// Nanoseconds since 1970 as 64 bits, zero before.
    pub open spec fn epoch_nanos(self) -> int {
        if self.nanos < 0 {
            0
        } else {
            wrapped(self.nanos as int)
        }
    }

    pub fn as_epoch_nanos(&self) -> (r: i64)
        ensures
            r == self.epoch_nanos(),
    {
        if self.nanos < 0 {
            0
        } else {
            wrap(self.nanos as u128)
        }
    }

    /// Whole seconds since 1970, zero before; at most what 64 bits hold.
    pub open spec fn epoch_seconds(self) -> int {
        if self.nanos < 0 {
            0
        } else if self.nanos / 1_000_000_000 > u64::MAX {
            u64::MAX as int
        } else {
            self.nanos / 1_000_000_000
        }
    }

    pub fn as_epoch_seconds(&self) -> (r: u64)
        ensures
            r == self.epoch_seconds(),
    {
        if self.nanos < 0 {
            return 0;
        }
        let secs: u128 = self.nanos as u128 / 1_000_000_000;
        if secs > 0xffff_ffff_ffff_ffff {
            u64::MAX
        } else {
            secs as u64
        }
    }
}

/// A number of nanoseconds in seconds.
pub open spec fn in_seconds(nanos: u64) -> Double {
    Double::integer(nanos as int / 1_000_000_000).plus(
        Double::integer(nanos as int % 1_000_000_000).over(Double::integer(1_000_000_000)),
    )
}

/// A number of nanoseconds in seconds.
pub fn seconds(nanos: u64) -> (r: Double)
    ensures
        r == in_seconds(nanos),
{
    Double::from_u64(nanos / 1_000_000_000).add(
        Double::from_u64(nanos % 1_000_000_000).div(Double::from_u64(1_000_000_000)),
    )
}

/// The time from one reading of the monotonic clock to a later one, zero if it
/// is not later.
pub open spec fn since(earlier: u64, now: u64) -> u64 {
    if now >= earlier {
        (now - earlier) as u64
    } else {
        0
    }
}

/// The time from one reading of the monotonic clock to a later one, zero if it
/// is not later.
pub fn elapsed(earlier: u64, now: u64) -> (r: u64)
    ensures
        r == since(earlier, now),
{
    if now >= earlier {
        now - earlier
    } else {
        0
    }
}

/// A number of nanoseconds in seconds is a finite number, and not negative.
pub proof fn lemma_in_seconds(nanos: u64)
    ensures
        in_seconds(nanos).finite(),
{
    let (q, r) = (nanos as int / 1_000_000_000, nanos as int % 1_000_000_000);
    let (a, b, g) = (Double::integer(q), Double::integer(r), Double::integer(1_000_000_000));
    lemma_double_format();
    lemma_ratio(q, 1);
    lemma_ratio(r, 1);
    lemma_ratio(1_000_000_000, 1);
    lemma_ratio_finite(q, 1);
    lemma_ratio_finite(r, 1);
    lemma_ratio_finite(1_000_000_000, 1);
    lemma_integer_positive(1_000_000_000);
    lemma_ratio_order(r as nat, 1, 1_000_000_000, 1);
    // The part of a second is at most one second.
    lemma_over_monotone(b, g, g);
    lemma_over_defined(b, g);
    let part = b.over(g);
    let one = Double::integer(1);
    lemma_ratio(1, 1);
    lemma_ratio_finite(1, 1);
    lemma_zero();
    reveal(Double::value);
    lemma_between_finite(Double::zero(), part, one);
    // The seconds are less than 2^35, and their sum with that less than 2^36.
    lemma2_to64();
    lemma2_to64_rest();
    lemma_integer_at(0x8_0000_0000, 1057, 0x10_0000_0000_0000, 17);
    lemma_integer_at(0x10_0000_0000, 1058, 0x10_0000_0000_0000, 16);
    lemma_integer_at(1, 1022, 0x10_0000_0000_0000, 52);
    lemma_at(1057, 0x10_0000_0000_0000);
    lemma_at(1058, 0x10_0000_0000_0000);
    lemma_at(1022, 0x10_0000_0000_0000);
    lemma_pow2_adds(1057, 1);
    lemma_pow2_strictly_increases(1022, 1057);
    lemma_ratio_order(q as nat, 1, 0x8_0000_0000, 1);
    let c = Double::integer(0x10_0000_0000);
    lemma_plus_within(a, part, c);
    lemma_negated(c);
    lemma_between_finite(c.negated(), a.plus(part), c);
}

/// A number of nanoseconds in seconds is that many thousand-millionths of a second, up
/// to one part in `2^51`.
pub proof fn lemma_seconds_accurate(nanos: u64)
    ensures
        in_seconds(nanos).value() >= 0,
        0x8_0000_0000_0000 * magnitude_of_int(
            in_seconds(nanos).value() * 1_000_000_000 - nanos * binary64().one(),
        ) <= nanos * binary64().one(),
        nanos > 0 ==> in_seconds(nanos).value() > 0,
{
    reveal(Double::value);
    lemma_double_format();
    let f = binary64();
    let g: int = 1_000_000_000;
    let (q, r) = (nanos as int / g, nanos as int % g);
    let (a, b, c) = (Double::integer(q), Double::integer(r), Double::integer(g));
    let one = f.one();
    lemma_pow2_pos(1074);
    lemma_integer_exact(q);
    lemma_integer_exact(r);
    lemma_integer_exact(g);
    lemma_in_seconds(nanos);
    lemma_ratio(1, 1);
    lemma_ratio_finite(1, 1);
    lemma_ratio_order(1, 1, g as nat, 1);
    lemma_over_shrinks(b, c);
    lemma_over_defined(b, c);
    lemma_encodes(b.over(c));
    let p = b.over(c);
    let pv = p.value();
    let num = (r * one) as nat * one;
    let den = (g * one) as nat;
    assert(r * one >= 0 && den > 0) by (nonlinear_arith)
        requires
            r >= 0,
            one > 0,
            den == g * one,
            g == 1_000_000_000,
    ;
    lemma_nearest_relative(num, den);
    let e1 = pv * g - r * one;
    assert(0x20_0000_0000_0000 * magnitude_of_int(e1) <= r * one + 0x10_0000_0000_0000 * g) by {
        let k = magnitude_of_int(e1);
        assert(pv * den - num == e1 * one) by (nonlinear_arith)
            requires
                den == g * one,
                num == (r * one) * one,
                e1 == pv * g - r * one,
        ;
        assert(magnitude_of_int(e1 * one) == k * one) by (nonlinear_arith)
            requires
                k == magnitude_of_int(e1),
                one > 0,
        ;
        let w = r * one + 0x10_0000_0000_0000 * g;
        assert((0x20_0000_0000_0000 * k) * one <= w * one) by (nonlinear_arith)
            requires
                0x20_0000_0000_0000 * (k * one) <= num + 0x10_0000_0000_0000 * den,
                num == (r * one) * one,
                den == g * one,
                w == r * one + 0x10_0000_0000_0000 * g,
        ;
        assert(0x20_0000_0000_0000 * k <= w) by (nonlinear_arith)
            requires
                (0x20_0000_0000_0000 * k) * one <= w * one,
                one > 0,
        ;
    }
    lemma_plus_value(a, p);
    let s = q * one + pv;
    assert(q * one >= 0) by (nonlinear_arith)
        requires
            q >= 0,
            one > 0,
    ;
    let t = in_seconds(nanos).value();
    lemma_nearest_relative(s as nat, 1);
    let e2 = t - s;
    let total = t * g - nanos * one;
    assert(total == e2 * g + e1) by (nonlinear_arith)
        requires
            total == t * g - nanos * one,
            e2 == t - s,
            s == q * one + pv,
            e1 == pv * g - r * one,
            nanos == q * g + r,
    ;
    lemma_units_of_one();
    if nanos == 0 {
        assert(0 * one == 0);
    } else {
        assert(nanos * one >= one && nanos * one >= r * one) by (nonlinear_arith)
            requires
                nanos >= 1,
                nanos >= r,
                one > 0,
        ;
        assert(s * g == nanos * one + e1) by (nonlinear_arith)
            requires
                s == q * one + pv,
                e1 == pv * g - r * one,
                nanos == q * g + r,
        ;
        assert(t > 0) by (nonlinear_arith)
            requires
                t * g == total + nanos * one,
                g == 1_000_000_000,
                total > -(nanos * one),
        ;
    }
}

/// One second is many of the smallest number.
pub proof fn lemma_units_of_one()
    ensures
        binary64().one() >= 0x1000_0000_0000_0000_0000_0000_0000,
{
    lemma2_to64();
    lemma2_to64_rest();
    lemma_pow2_adds(60, 60);
    lemma_pow2_strictly_increases(120, 1074);
}

/// Every span is as long as its seconds and nanoseconds, or what it was made of.
pub proof fn lemma_spans(secs: u64, nanos: u32, n: u64, r: Span)
    ensures
        (Span { secs, nanos }).total_nanos() == 1_000_000_000 * secs + nanos,
        call_ensures(Span::from_nanos, (n,), r) ==> 1_000_000_000 * r.secs + r.nanos == n
            && r.nanos < 1_000_000_000,
        call_ensures(Span::from_micros, (n,), r) ==> 1_000_000_000 * r.secs + r.nanos == 1000 * n
            && r.nanos < 1_000_000_000,
        call_ensures(Span::from_millis, (n,), r) ==> 1_000_000_000 * r.secs + r.nanos == 1_000_000
            * n && r.nanos < 1_000_000_000,
{
}

/// Every point in time in whole seconds or nanoseconds since 1970, as far as 64 bits hold
/// them; none is before 1970.
pub proof fn lemma_epoch(t: &WallTime, s: u64, n: i64)
    requires
        call_ensures(WallTime::as_epoch_seconds, (t,), s),
        call_ensures(WallTime::as_epoch_nanos, (t,), n),
    ensures
        0 <= t.nanos < 0x8000_0000_0000_0000 ==> n == t.nanos && s * 1_000_000_000 <= n < (s + 1)
            * 1_000_000_000,
        t.nanos < 0 ==> n == 0 && s == 0,
{
}

/// The time that every two readings are apart: that from the earlier to the later, none if
/// they come the other way round.
pub proof fn lemma_elapsed(earlier: u64, now: u64, r: u64, s: Double)
    requires
        call_ensures(elapsed, (earlier, now), r),
        call_ensures(seconds, (r,), s),
    ensures
        now >= earlier ==> earlier + r == now,
        now < earlier ==> r == 0,
        s == in_seconds(r),
{
}

} // verus!
