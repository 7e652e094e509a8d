//! The Linux kernel's clock: frequency words and points in time.
use crate::ieee::double::Double;
use crate::ieee::arith::magnitude_of_int;
use crate::ieee::error::{lemma_as_integer, lemma_difference, lemma_times_integer};
use crate::ieee::exact::lemma_integer_exact;
use crate::ieee::laws::lemma_negated;
use crate::ieee::powers::{lemma_tame_plus, lemma_tame_times, tame};
use crate::ieee::rounding::binary64;
use crate::time::{lemma_units_of_one, wrap, wrapped, Span};
use vstd::arithmetic::power2::*;
use vstd::prelude::*;

verus! {

/// The kernel's clock, with the frequency word that it had before.
#[derive(Clone, Copy, Debug, PartialEq, Eq, Structural)]
pub struct LinuxClock {
    pub original_freq: i64,
}

/// A point in time, as the kernel takes it.
#[derive(Clone, Copy, Debug, PartialEq, Eq, Structural)]
pub struct TimeVal {
    pub tv_sec: i64,
    pub tv_usec: i64,
}

impl TimeVal {
    /// Microseconds since 1970.
    pub open spec fn total_micros(self) -> int {
        self.tv_sec * 1_000_000 + self.tv_usec
    }

    /// The microseconds are less than a second.
    pub open spec fn normal(self) -> bool {
        0 <= self.tv_usec < 1_000_000
    }

    /// The same point in time with the microseconds less than a second.
    pub fn normalized(self) -> (r: TimeVal)
        requires
            i64::MIN <= self.tv_sec + self.tv_usec as int / 1_000_000 <= i64::MAX,
        ensures
            r.normal(),
            r.total_micros() == self.total_micros(),
    {
        if self.tv_usec < 0 {
            let deficit: u128 = (-(self.tv_usec as i128)) as u128;
            let carry: u128 = (deficit + 999_999) / 1_000_000;
            TimeVal {
                tv_sec: (self.tv_sec as i128 - carry as i128) as i64,
                tv_usec: (carry * 1_000_000 - deficit) as i64,
            }
        } else {
            let usec: u64 = self.tv_usec as u64;
            TimeVal {
                tv_sec: (self.tv_sec as i128 + (usec / 1_000_000) as i128) as i64,
                tv_usec: (usec % 1_000_000) as i64,
            }
        }
    }
}

/// The frequency word for a multiple of the nominal rate: parts per million with
/// 16 fractional bits.
pub open spec fn frequency_word(factor: Double) -> int {
    factor.minus(Double::integer(1)).times(Double::integer(1_000_000)).times(
        Double::integer(65536),
    ).as_integer(i64::MIN as int, i64::MAX as int)
}

/// The seconds of a step, with the direction of the sign.
pub open spec fn step_seconds(offset: Span, sign: i8) -> int {
    if sign > 0 {
        wrapped(offset.secs as int)
    } else {
        -wrapped(offset.secs as int)
    }
}

/// The microseconds of a step beyond its seconds, with the direction of the sign.
pub open spec fn step_micros(offset: Span, sign: i8) -> int {
    if sign > 0 {
        offset.nanos as int / 1000
    } else {
        -(offset.nanos as int / 1000)
    }
}

impl LinuxClock {
    /// A clock that had a frequency word before.
    pub fn with_original(original_freq: i64) -> (r: LinuxClock)
        ensures
            r.original_freq == original_freq,
    {
        LinuxClock { original_freq }
    }

    /// The frequency word that makes the clock run at a multiple of its nominal
    /// rate.
    pub fn frequency_value(factor: Double) -> (r: i64)
        ensures
            r == frequency_word(factor),
    {
        let ppm = factor.sub(Double::from_i64(1)).mul(Double::from_i64(1_000_000));
        ppm.mul(Double::from_i64(65536)).to_i64()
    }

    /// The point in time that a step leads to, forwards if the sign is positive.
    pub fn stepped(now: TimeVal, offset: Span, sign: i8) -> (r: TimeVal)
        requires
            offset.nanos < 1_000_000_000,
            i64::MIN <= now.tv_sec + step_seconds(offset, sign) <= i64::MAX,
            i64::MIN <= now.tv_usec + step_micros(offset, sign) <= i64::MAX,
            i64::MIN <= now.tv_sec + step_seconds(offset, sign) + (now.tv_usec + step_micros(
                offset,
                sign,
            )) / 1_000_000 <= i64::MAX,
        ensures
            reached(now, offset, sign, r),
    {
        let secs: i128 = wrap(offset.secs as u128) as i128;
        let micros: i128 = (offset.nanos / 1000) as i128;
        let moved = if sign > 0 {
            TimeVal {
                tv_sec: (now.tv_sec as i128 + secs) as i64,
                tv_usec: (now.tv_usec as i128 + micros) as i64,
            }
        } else {
            TimeVal {
                tv_sec: (now.tv_sec as i128 - secs) as i64,
                tv_usec: (now.tv_usec as i128 - micros) as i64,
            }
        };
        moved.normalized()
    }
}

/// A point in time has one normal form.
pub proof fn lemma_normal_form(a: TimeVal, b: TimeVal)
    requires
        a.normal(),
        b.normal(),
        a.total_micros() == b.total_micros(),
    ensures
        a == b,
{
}

/// A point in time is reached by a step.
pub open spec fn reached(from: TimeVal, offset: Span, sign: i8, to: TimeVal) -> bool {
    &&& to.normal()
    &&& to.total_micros() == from.total_micros() + step_seconds(offset, sign) * 1_000_000
        + step_micros(offset, sign)
}

/// A step in the one direction and then one in the other lead back.
pub proof fn lemma_steps_cancel(
    now: TimeVal,
    offset: Span,
    sign: i8,
    there: TimeVal,
    opposite: i8,
    back: TimeVal,
)
    requires
        now.normal(),
        sign > 0 <==> opposite <= 0,
        reached(now, offset, sign, there),
        reached(there, offset, opposite, back),
    ensures
        back == now,
{
    lemma_normal_form(now, back);
}

/// The frequency word is the deviation of the factor from one in parts per million, times
/// 65536, without its fraction: up to one unit, and one part in `2^49`.
pub proof fn lemma_frequency_word(factor: Double)
    requires
        tame(factor, 10),
    ensures
        ({
            let one = binary64().one() as int;
            let deviation = factor.value() - one;
            0x2_0000_0000_0000 * magnitude_of_int(
                frequency_word(factor) * one - deviation * 65_536_000_000,
            ) <= 0x2_0000_0000_0000 * one + magnitude_of_int(deviation) * 65_536_000_000
                + 0x10_0000_0000_0000_0000_0000
        }),
        factor.value() == binary64().one() ==> frequency_word(factor) == 0,
        forall|r: i64| #[trigger]
            call_ensures(LinuxClock::frequency_value, (factor,), r) ==> r == frequency_word(factor),
{
    let one = binary64().one() as int;
    lemma_pow2_pos(1074);
    lemma_integer_exact(1);
    lemma_integer_exact(1_000_000);
    lemma_integer_exact(65536);
    let i = Double::integer(1);
    let d = factor.minus(i);
    lemma_negated(i);
    lemma2_to64();
    lemma2_to64_rest();
    lemma_pow2_adds(1074, 10);
    lemma_pow2_adds(1074, 20);
    lemma_pow2_adds(1074, 16);
    assert(tame(i.negated(), 10));
    lemma_tame_plus(factor, i.negated(), 10);
    lemma_difference(factor, i);
    lemma_tame_times(d, Double::integer(1_000_000), 11, 20);
    lemma_times_integer(d, 1_000_000);
    let v = d.times(Double::integer(1_000_000));
    lemma_tame_times(v, Double::integer(65536), 31, 16);
    lemma_times_integer(v, 65536);
    let w = v.times(Double::integer(65536));
    lemma_pow2_adds(1074, 47);
    lemma_units_of_one();
    lemma_as_integer(w);
    let (f, dv, vv, wv, r) = (
        factor.value(),
        d.value(),
        v.value(),
        w.value(),
        frequency_word(factor) * one,
    );
    assert(magnitude_of_int(r - wv) < one);
}

/// Every step leads on by the whole microseconds of the offset, forwards if the sign is
/// positive and backwards if not, to a point in time whose microseconds are less than a
/// second.
pub proof fn lemma_step_moves(now: TimeVal, offset: Span, sign: i8, to: TimeVal)
    requires
        offset.nanos < 1_000_000_000,
        offset.secs < 0x8000_0000_0000_0000,
        i64::MIN <= now.tv_sec + step_seconds(offset, sign) <= i64::MAX,
        i64::MIN <= now.tv_usec + step_micros(offset, sign) <= i64::MAX,
        i64::MIN <= now.tv_sec + step_seconds(offset, sign) + (now.tv_usec + step_micros(
            offset,
            sign,
        )) / 1_000_000 <= i64::MAX,
        call_ensures(LinuxClock::stepped, (now, offset, sign), to),
    ensures
        0 <= to.tv_usec < 1_000_000,
        sign > 0 ==> (to.tv_sec - now.tv_sec) * 1_000_000 + (to.tv_usec - now.tv_usec)
            == offset.total_nanos() as int / 1000,
        sign <= 0 ==> (now.tv_sec - to.tv_sec) * 1_000_000 + (now.tv_usec - to.tv_usec)
            == offset.total_nanos() as int / 1000,
{
    let (s, n) = (offset.secs as int, offset.nanos as int);
    assert((s * 1_000_000_000 + n) / 1000 == s * 1_000_000 + n / 1000);
}

} // verus!
